//! Trace log analysis for UFS, block I/O and custom UFS traces.

pub mod align;
pub mod benchmark;
pub mod benchmark_report;
pub mod block_latency;
pub mod block_line;
pub mod chunk;
pub mod compression;
pub mod custom_latency;
pub mod custom_line;
pub mod custom_log;
pub mod encoding;
pub mod filter;
pub mod iteration;
pub mod jobs;
pub mod latency;
pub mod log_common;
pub mod models;
pub mod monitor;
pub mod order;
pub mod performance;
pub mod pipeline;
pub mod realtime;
pub mod scan;
pub mod statistics;
pub mod storage;
pub mod streaming;
pub mod text;
pub mod throughput;
pub mod ufs_latency;
pub mod ufs_line;

pub use models::{Block, TraceType, UFS, UFSCUSTOM};

# trace

Analysis of storage trace logs: UFS command traces (`ufshcd_command`), block
layer traces (`block_rq_*`) and custom UFS traces
(`opcode,lba,size,start_time,end_time`).  The library reads the lines,
computes queue depths and latencies, filters requests, gathers statistics,
reads benchmark logs (FIO, TIOtest, IOzone) and decides the steps of a
log-processing job.  Its behaviour is stated in `requires` / `ensures`
contracts and proved with Verus.

Times and latencies are integers in nanoseconds throughout the library.

## Layout

- `src/` — the verified library.
  - `text`, `scan`: characters, decimal numbers, scanning by character class.
  - `ufs_line`, `block_line`, `custom_line`, `log_common`, `chunk`,
    `custom_log`: line grammars and readers.
  - `ufs_latency`, `block_latency`, `custom_latency`, `order`: time order,
    queue depths and latencies.
  - `filter`, `align`: request filters and address alignment.
  - `statistics`, `throughput`, `latency`: counts, sums, groups, ordered
    latencies, latency ranges and their bounds given as text, size
    distributions, per-second throughput.
  - `benchmark`, `benchmark_report`, `iteration`: benchmark logs, their
    results and per-iteration output paths.
  - `jobs`, `pipeline`, `storage`, `compression`, `encoding`: job records,
    the steps of a log-processing job, object-store settings, archive
    formats, text decoding.
  - `realtime`, `monitor`, `streaming`, `performance`: display helpers,
    followed logs, memory and time bookkeeping.
- `tests/` — tests of the library.
- `app/` — the command-line program: arguments, files, printing.

## Usage

```
trace [options] <log_file> <output_prefix>
  -p              benchmark mode (iterations and results of FIO, TIOtest, IOzone)
  -l <ms,...>     latency ranges in milliseconds
  -f              interactive filters
  --csv           export the requests to CSV
  --align <size>  alignment size, such as 64KB or 1MB
```

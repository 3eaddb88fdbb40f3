//! The decisions of a log-processing job: download a log from the object
//! store, unpack it when it is an archive, parse it, convert it, upload the
//! results, reporting progress to the client all along.  The outside work
//! (transfers, files, the client stream) is done by the caller, which hands
//! back what came of each step; `LogPipeline::advance` says what to do next.
use vstd::prelude::*;
use crate::compression::{format_of_lower, CompressionFormat};
use crate::jobs::{JobStatus, JobStatusView, ProgressStage};
use crate::realtime::{dec_digits, push_decimal};
use crate::text::{chars_of, push_char, push_text, unicode_lowercase};

verus! {

broadcast use vstd::string::group_string_axioms;

/// A progress report sent to the client.
#[derive(Debug, Clone)]
pub struct ProcessLogsProgress {
    pub job_id: String,
    pub stage: ProgressStage,
    pub message: String,
    pub progress_percent: i32,
    pub records_processed: i64,
    pub success: Option<bool>,
    pub error: Option<String>,
    pub output_files: Vec<String>,
}

#[verifier::ext_equal]
pub struct ProgressView {
    pub job_id: Seq<char>,
    pub stage: ProgressStage,
    pub message: Seq<char>,
    pub progress_percent: i32,
    pub records_processed: i64,
    pub success: Option<bool>,
    pub error: Option<Seq<char>>,
    pub output_files: Seq<Seq<char>>,
}

pub open spec fn opt_view(o: Option<String>) -> Option<Seq<char>> {
    match o {
        Some(s) => Some(s@),
        None => None,
    }
}

pub open spec fn strings_of(v: Seq<String>) -> Seq<Seq<char>> {
    Seq::new(v.len(), |i: int| v[i]@)
}

impl View for ProcessLogsProgress {
    type V = ProgressView;

    open spec fn view(&self) -> ProgressView {
        ProgressView {
            job_id: self.job_id@,
            stage: self.stage,
            message: self.message@,
            progress_percent: self.progress_percent,
            records_processed: self.records_processed,
            success: self.success,
            error: opt_view(self.error),
            output_files: strings_of(self.output_files@),
        }
    }
}

/// What a client asks for.
#[derive(Debug, Clone)]
pub struct ProcessLogsRequest {
    pub source_bucket: String,
    pub source_path: String,
    pub target_bucket: String,
    pub target_path: String,
    pub log_type: String,
    pub chunk_size: Option<u32>,
}

/// Why a download failed: the client for the source bucket could not be
/// made, or the transfer failed.
#[derive(Debug, Clone)]
pub enum DownloadError {
    Client(String),
    Transfer(String),
}

/// What came of the last piece of outside work.
#[derive(Debug)]
pub enum PipelineEvent {
    /// The job was accepted.
    Begin,
    /// A progress report was (or could not be) delivered.
    Sent(bool),
    Downloaded(Result<(), DownloadError>),
    /// The archive was unpacked; the path of the log found in it.
    Extracted(Result<String, String>),
    /// The log was parsed; the number of records.
    Parsed(Result<u64, String>),
    Saved(Result<(), String>),
    /// The client for the target bucket is ready.
    TargetReady(Result<(), String>),
    /// A result file was uploaded (`true`), or did not exist (`false`).
    Uploaded(Result<bool, String>),
}

/// Outside work to do.
#[derive(Debug, Clone)]
pub enum PipelineAction {
    Send(ProcessLogsProgress),
    UpdateStatus(JobStatus),
    Download { bucket: String, remote: String, local: String },
    Extract { archive: String, dir: String },
    Parse { path: String },
    Save { prefix: String, chunk_size: usize },
    OpenTarget { bucket: String },
    UploadIfExists { local: String, remote: String },
    Cleanup { temp_log: String, extract_dir: String },
}

#[verifier::ext_equal]
pub enum ActionView {
    Send(ProgressView),
    UpdateStatus(JobStatusView),
    Download { bucket: Seq<char>, remote: Seq<char>, local: Seq<char> },
    Extract { archive: Seq<char>, dir: Seq<char> },
    Parse { path: Seq<char> },
    Save { prefix: Seq<char>, chunk_size: usize },
    OpenTarget { bucket: Seq<char> },
    UploadIfExists { local: Seq<char>, remote: Seq<char> },
    Cleanup { temp_log: Seq<char>, extract_dir: Seq<char> },
}

pub open spec fn action_view(a: PipelineAction) -> ActionView {
    match a {
        PipelineAction::Send(p) => ActionView::Send(p@),
        PipelineAction::UpdateStatus(s) => ActionView::UpdateStatus(s@),
        PipelineAction::Download { bucket, remote, local } => ActionView::Download {
            bucket: bucket@,
            remote: remote@,
            local: local@,
        },
        PipelineAction::Extract { archive, dir } => ActionView::Extract { archive: archive@, dir: dir@ },
        PipelineAction::Parse { path } => ActionView::Parse { path: path@ },
        PipelineAction::Save { prefix, chunk_size } => ActionView::Save { prefix: prefix@, chunk_size },
        PipelineAction::OpenTarget { bucket } => ActionView::OpenTarget { bucket: bucket@ },
        PipelineAction::UploadIfExists { local, remote } => ActionView::UploadIfExists {
            local: local@,
            remote: remote@,
        },
        PipelineAction::Cleanup { temp_log, extract_dir } => ActionView::Cleanup {
            temp_log: temp_log@,
            extract_dir: extract_dir@,
        },
    }
}

pub open spec fn actions_view(v: Seq<PipelineAction>) -> Seq<ActionView> {
    Seq::new(v.len(), |i: int| action_view(v[i]))
}

/// Where a job stands: which outcome it waits for.
#[derive(Debug, Clone, Copy, PartialEq, Eq, Structural)]
pub enum Phase {
    Start,
    DownloadStartSent,
    Downloading,
    DownloadDoneSent,
    ExtractStartSent,
    Extracting,
    ExtractDoneSent,
    ParseStartSent,
    Parsing,
    ParseDoneSent,
    ConvertStartSent,
    Converting,
    ConvertDoneSent,
    UploadStartSent,
    OpeningTarget,
    Uploading,
    Done,
    Failed,
}

/// The event that a phase waits for.
pub open spec fn expects(ph: Phase, ev: PipelineEvent) -> bool {
    match ph {
        Phase::Start => ev is Begin,
        Phase::DownloadStartSent | Phase::DownloadDoneSent | Phase::ExtractStartSent
        | Phase::ExtractDoneSent | Phase::ParseStartSent | Phase::ParseDoneSent
        | Phase::ConvertStartSent | Phase::ConvertDoneSent | Phase::UploadStartSent => ev is Sent,
        Phase::Downloading => ev is Downloaded,
        Phase::Extracting => ev is Extracted,
        Phase::Parsing => ev matches PipelineEvent::Parsed(r) && (r matches Ok(n) ==> n
            <= i64::MAX),
        Phase::Converting => ev is Saved,
        Phase::OpeningTarget => ev is TargetReady,
        Phase::Uploading => ev is Uploaded,
        Phase::Done | Phase::Failed => false,
    }
}

// ---------------------------------------------------------------------------
// Paths
// ---------------------------------------------------------------------------

/// The last `/`-separated piece of a path.
pub open spec fn last_piece(p: Seq<char>) -> Seq<char>
    decreases p.len(),
{
    if p.len() == 0 {
        p
    } else if p.last() == '/' {
        Seq::empty()
    } else {
        last_piece(p.drop_last()).push(p.last())
    }
}

/// The path with its trailing slashes removed.
pub open spec fn trim_slashes(p: Seq<char>) -> Seq<char>
    decreases p.len(),
{
    if p.len() > 0 && p.last() == '/' {
        trim_slashes(p.drop_last())
    } else {
        p
    }
}

pub open spec fn temp_log_path(home: Seq<char>, job: Seq<char>, source_path: Seq<char>) -> Seq<char> {
    home + "/trace_temp_log_"@ + job + "_"@ + last_piece(source_path)
}

pub open spec fn extract_dir_path(home: Seq<char>, job: Seq<char>) -> Seq<char> {
    home + "/trace_extract_"@ + job
}

pub open spec fn temp_parquet_path(home: Seq<char>, job: Seq<char>) -> Seq<char> {
    home + "/trace_temp_parquet_"@ + job
}

/// The kinds of result files, in upload order.
pub open spec fn parquet_kind(k: int) -> Seq<char> {
    if k == 0 {
        "ufs"@
    } else if k == 1 {
        "block"@
    } else {
        "ufscustom"@
    }
}

pub open spec fn local_parquet(home: Seq<char>, job: Seq<char>, k: int) -> Seq<char> {
    temp_parquet_path(home, job) + "_"@ + parquet_kind(k) + ".parquet"@
}

pub open spec fn remote_parquet(target_path: Seq<char>, k: int) -> Seq<char> {
    trim_slashes(target_path) + "/"@ + parquet_kind(k) + ".parquet"@
}

fn last_piece_exec(p: &str) -> (r: String)
    ensures
        r@ == last_piece(p@),
{
    let cs = chars_of(p);
    let mut start: usize = 0;
    let mut i: usize = 0;
    while i < cs.len()
        invariant
            0 <= start <= i <= cs@.len(),
            last_piece(cs@.take(i as int)) == cs@.subrange(start as int, i as int),
        decreases cs@.len() - i,
    {
        assert(cs@.take(i + 1).drop_last() =~= cs@.take(i as int));
        if cs[i] == '/' {
            start = i + 1;
            assert(cs@.subrange(start as int, i + 1) =~= Seq::<char>::empty());
        } else {
            assert(cs@.subrange(start as int, i + 1) =~= cs@.subrange(start as int, i as int).push(cs@[i as int]));
        }
        i = i + 1;
    }
    assert(cs@.take(cs@.len() as int) =~= cs@);
    crate::text::string_from_range(cs.as_slice(), start, cs.len())
}

fn trim_slashes_exec(p: &str) -> (r: String)
    ensures
        r@ == trim_slashes(p@),
{
    let cs = chars_of(p);
    let mut e = cs.len();
    assert(cs@.take(e as int) =~= cs@);
    while e > 0 && cs[e - 1] == '/'
        invariant
            0 <= e <= cs@.len(),
            trim_slashes(cs@) == trim_slashes(cs@.take(e as int)),
        decreases e,
    {
        assert(cs@.take(e as int).drop_last() =~= cs@.take(e - 1));
        e = e - 1;
    }
    assert(cs@.take(cs@.len() as int) =~= cs@);
    assert(trim_slashes(cs@.take(e as int)) == cs@.take(e as int));
    assert(cs@.subrange(0, e as int) =~= cs@.take(e as int));
    crate::text::string_from_range(cs.as_slice(), 0, e)
}

fn parquet_kind_exec(k: usize) -> (r: &'static str)
    ensures
        r@ == parquet_kind(k as int),
{
    if k == 0 {
        "ufs"
    } else if k == 1 {
        "block"
    } else {
        "ufscustom"
    }
}

// ---------------------------------------------------------------------------
// Reports
// ---------------------------------------------------------------------------

pub open spec fn report(
    job: Seq<char>,
    stage: ProgressStage,
    message: Seq<char>,
    percent: i32,
    records: i64,
) -> ProgressView {
    ProgressView {
        job_id: job,
        stage,
        message,
        progress_percent: percent,
        records_processed: records,
        success: None,
        error: None,
        output_files: Seq::empty(),
    }
}

pub open spec fn status(
    job: Seq<char>,
    stage: ProgressStage,
    message: Seq<char>,
    percent: i32,
    records: i64,
    completed: bool,
    success: Option<bool>,
    error: Option<Seq<char>>,
) -> JobStatusView {
    JobStatusView {
        job_id: job,
        stage,
        message,
        progress_percent: percent,
        records_processed: records,
        is_completed: completed,
        success,
        error,
    }
}

pub open spec fn failure_text(e: Seq<char>) -> Seq<char> {
    "Processing failed: "@ + e
}

/// The last report and status of a failed job.
pub open spec fn failure_actions(job: Seq<char>, e: Seq<char>) -> Seq<ActionView> {
    seq![
        ActionView::Send(ProgressView {
            job_id: job,
            stage: ProgressStage::Failed,
            message: failure_text(e),
            progress_percent: 0,
            records_processed: 0,
            success: Some(false),
            error: Some(failure_text(e)),
            output_files: Seq::empty(),
        }),
        ActionView::UpdateStatus(
            status(job, ProgressStage::Failed, "Failed"@, 0, 0, true, Some(false), Some(failure_text(e))),
        ),
    ]
}

/// The message with which a phase fails when its report cannot be delivered.
pub open spec fn disconnect_text(ph: Phase) -> Seq<char> {
    match ph {
        Phase::DownloadStartSent => "Client disconnected during download start"@,
        Phase::DownloadDoneSent => "Client disconnected after download"@,
        Phase::ExtractStartSent => "Client disconnected during extraction"@,
        Phase::ExtractDoneSent => "Client disconnected after extraction"@,
        Phase::ParseStartSent => "Client disconnected before parsing"@,
        Phase::ParseDoneSent => "Client disconnected after parsing"@,
        Phase::ConvertStartSent => "Client disconnected before conversion"@,
        Phase::ConvertDoneSent => "Client disconnected after conversion"@,
        _ => "Client disconnected before upload"@,
    }
}

/// `{:?}` of an archive format.
pub open spec fn format_name(f: CompressionFormat) -> Seq<char> {
    match f {
        CompressionFormat::Tar => "Tar"@,
        CompressionFormat::TarGz => "TarGz"@,
        CompressionFormat::TarXz => "TarXz"@,
        CompressionFormat::Zip => "Zip"@,
        CompressionFormat::SevenZ => "SevenZ"@,
        CompressionFormat::NotCompressed => "None"@,
    }
}

fn format_name_exec(f: CompressionFormat) -> (r: &'static str)
    ensures
        r@ == format_name(f),
{
    match f {
        CompressionFormat::Tar => "Tar",
        CompressionFormat::TarGz => "TarGz",
        CompressionFormat::TarXz => "TarXz",
        CompressionFormat::Zip => "Zip",
        CompressionFormat::SevenZ => "SevenZ",
        CompressionFormat::NotCompressed => "None",
    }
}

// ---------------------------------------------------------------------------
// The job
// ---------------------------------------------------------------------------

pub enum EventView {
    Begin,
    Sent(bool),
    DownloadOk,
    DownloadClientErr(Seq<char>),
    DownloadErr(Seq<char>),
    ExtractOk(Seq<char>),
    ExtractErr(Seq<char>),
    ParseOk(u64),
    ParseErr(Seq<char>),
    SaveOk,
    SaveErr(Seq<char>),
    TargetOk,
    TargetErr(Seq<char>),
    UploadOk(bool),
    UploadErr(Seq<char>),
}

pub open spec fn event_view(ev: PipelineEvent) -> EventView {
    match ev {
        PipelineEvent::Begin => EventView::Begin,
        PipelineEvent::Sent(b) => EventView::Sent(b),
        PipelineEvent::Downloaded(r) => match r {
            Ok(_) => EventView::DownloadOk,
            Err(DownloadError::Client(e)) => EventView::DownloadClientErr(e@),
            Err(DownloadError::Transfer(e)) => EventView::DownloadErr(e@),
        },
        PipelineEvent::Extracted(r) => match r {
            Ok(p) => EventView::ExtractOk(p@),
            Err(e) => EventView::ExtractErr(e@),
        },
        PipelineEvent::Parsed(r) => match r {
            Ok(n) => EventView::ParseOk(n),
            Err(e) => EventView::ParseErr(e@),
        },
        PipelineEvent::Saved(r) => match r {
            Ok(_) => EventView::SaveOk,
            Err(e) => EventView::SaveErr(e@),
        },
        PipelineEvent::TargetReady(r) => match r {
            Ok(_) => EventView::TargetOk,
            Err(e) => EventView::TargetErr(e@),
        },
        PipelineEvent::Uploaded(r) => match r {
            Ok(b) => EventView::UploadOk(b),
            Err(e) => EventView::UploadErr(e@),
        },
    }
}

#[verifier::ext_equal]
pub struct PipelineView {
    pub source_bucket: Seq<char>,
    pub source_path: Seq<char>,
    pub target_bucket: Seq<char>,
    pub target_path: Seq<char>,
    pub chunk_size: usize,
    pub job: Seq<char>,
    pub home: Seq<char>,
    pub phase: Phase,
    pub log_path: Seq<char>,
    pub records: i64,
    pub next_upload: int,
    pub uploaded: Seq<Seq<char>>,
}

/// A job of the service.
pub struct LogPipeline {
    request: ProcessLogsRequest,
    job_id: String,
    home: String,
    phase: Phase,
    log_path: String,
    records: i64,
    next_upload: usize,
    uploaded: Vec<String>,
}

impl View for LogPipeline {
    type V = PipelineView;

    closed spec fn view(&self) -> PipelineView {
        PipelineView {
            source_bucket: self.request.source_bucket@,
            source_path: self.request.source_path@,
            target_bucket: self.request.target_bucket@,
            target_path: self.request.target_path@,
            chunk_size: match self.request.chunk_size {
                Some(c) => c as usize,
                None => 100000,
            },
            job: self.job_id@,
            home: self.home@,
            phase: self.phase,
            log_path: self.log_path@,
            records: self.records,
            next_upload: self.next_upload as int,
            uploaded: strings_of(self.uploaded@),
        }
    }
}

pub open spec fn fail(v: PipelineView, e: Seq<char>) -> (PipelineView, Seq<ActionView>) {
    (PipelineView { phase: Phase::Failed, ..v }, failure_actions(v.job, e))
}

pub open spec fn temp_log_of(v: PipelineView) -> Seq<char> {
    temp_log_path(v.home, v.job, v.source_path)
}

pub open spec fn completion_report(v: PipelineView, up: Seq<Seq<char>>) -> ProgressView {
    ProgressView {
        job_id: v.job,
        stage: ProgressStage::Completed,
        message: "Processing completed successfully. Uploaded "@ + dec_digits(up.len()) + " files"@,
        progress_percent: 100,
        records_processed: v.records,
        success: Some(true),
        error: None,
        output_files: up,
    }
}

/// One step of a job: the state after the event and the work to do.
pub open spec fn pipeline_step(v: PipelineView, ev: EventView) -> (PipelineView, Seq<ActionView>) {
    let job = v.job;
    let n = v.records;
    match ev {
        EventView::Sent(false) => fail(v, disconnect_text(v.phase)),
        EventView::Begin => (
            PipelineView { phase: Phase::DownloadStartSent, ..v },
            seq![
                ActionView::UpdateStatus(status(job, ProgressStage::Downloading, "Starting"@, 0, 0, false, None, None)),
                ActionView::Send(report(
                    job,
                    ProgressStage::Downloading,
                    "Downloading log file from "@ + v.source_bucket + "/"@ + v.source_path,
                    10,
                    0,
                )),
            ],
        ),
        EventView::Sent(true) => match v.phase {
            Phase::DownloadStartSent => (
                PipelineView { phase: Phase::Downloading, ..v },
                seq![ActionView::Download { bucket: v.source_bucket, remote: v.source_path, local: temp_log_of(v) }],
            ),
            Phase::DownloadDoneSent => {
                let st = ActionView::UpdateStatus(
                    status(job, ProgressStage::Downloading, "Download completed"@, 20, 0, false, None, None),
                );
                let fmt = format_of_lower(unicode_lowercase(temp_log_of(v)));
                if fmt != CompressionFormat::NotCompressed {
                    (
                        PipelineView { phase: Phase::ExtractStartSent, ..v },
                        seq![
                            st,
                            ActionView::Send(report(
                                job,
                                ProgressStage::Downloading,
                                "Extracting compressed file ("@ + format_name(fmt) + ")..."@,
                                25,
                                0,
                            )),
                        ],
                    )
                } else {
                    (
                        PipelineView { phase: Phase::ParseStartSent, log_path: temp_log_of(v), ..v },
                        seq![st, ActionView::Send(report(job, ProgressStage::Parsing, "Parsing log file"@, 30, 0))],
                    )
                }
            },
            Phase::ExtractStartSent => (
                PipelineView { phase: Phase::Extracting, ..v },
                seq![ActionView::Extract { archive: temp_log_of(v), dir: extract_dir_path(v.home, job) }],
            ),
            Phase::ExtractDoneSent => (
                PipelineView { phase: Phase::ParseStartSent, ..v },
                seq![ActionView::Send(report(job, ProgressStage::Parsing, "Parsing log file"@, 30, 0))],
            ),
            Phase::ParseStartSent => (
                PipelineView { phase: Phase::Parsing, ..v },
                seq![ActionView::Parse { path: v.log_path }],
            ),
            Phase::ParseDoneSent => (
                PipelineView { phase: Phase::ConvertStartSent, ..v },
                seq![
                    ActionView::UpdateStatus(status(job, ProgressStage::Parsing, "Parsing completed"@, 50, n, false, None, None)),
                    ActionView::Send(report(job, ProgressStage::Converting, "Converting to Parquet format"@, 60, n)),
                ],
            ),
            Phase::ConvertStartSent => (
                PipelineView { phase: Phase::Converting, ..v },
                seq![ActionView::Save { prefix: temp_parquet_path(v.home, job), chunk_size: v.chunk_size }],
            ),
            Phase::ConvertDoneSent => (
                PipelineView { phase: Phase::UploadStartSent, ..v },
                seq![ActionView::Send(report(job, ProgressStage::Uploading, "Uploading Parquet files to MinIO"@, 75, n))],
            ),
            _ => (
                PipelineView { phase: Phase::OpeningTarget, ..v },
                seq![ActionView::OpenTarget { bucket: v.target_bucket }],
            ),
        },
        EventView::DownloadOk => (
            PipelineView { phase: Phase::DownloadDoneSent, ..v },
            seq![ActionView::Send(report(job, ProgressStage::Downloading, "Download completed"@, 20, 0))],
        ),
        EventView::DownloadClientErr(e) => fail(v, e),
        EventView::DownloadErr(e) => fail(v, "Failed to download file: "@ + e),
        EventView::ExtractOk(p) => (
            PipelineView { phase: Phase::ExtractDoneSent, log_path: p, ..v },
            seq![ActionView::Send(report(job, ProgressStage::Downloading, "Extraction completed"@, 28, 0))],
        ),
        EventView::ExtractErr(e) => fail(v, "Failed to extract compressed file: "@ + e),
        EventView::ParseOk(count) => (
            PipelineView { phase: Phase::ParseDoneSent, records: count as i64, ..v },
            seq![
                ActionView::Send(report(
                    job,
                    ProgressStage::Parsing,
                    "Parsing completed: "@ + dec_digits(count as nat) + " records"@,
                    50,
                    count as i64,
                )),
            ],
        ),
        EventView::ParseErr(e) => fail(v, "Failed to parse log file: "@ + e),
        EventView::SaveOk => (
            PipelineView { phase: Phase::ConvertDoneSent, ..v },
            seq![ActionView::Send(report(job, ProgressStage::Converting, "Conversion completed"@, 70, n))],
        ),
        EventView::SaveErr(e) => fail(v, "Failed to save parquet: "@ + e),
        EventView::TargetOk => (
            PipelineView { phase: Phase::Uploading, next_upload: 0, uploaded: Seq::empty(), ..v },
            seq![
                ActionView::Send(report(job, ProgressStage::Uploading, "Starting upload to MinIO"@, 80, n)),
                ActionView::UploadIfExists { local: local_parquet(v.home, job, 0), remote: remote_parquet(v.target_path, 0) },
            ],
        ),
        EventView::TargetErr(e) => fail(v, "Failed to create target MinIO client: "@ + e),
        EventView::UploadOk(existed) => {
            let k = v.next_upload;
            let up = if existed {
                v.uploaded.push(remote_parquet(v.target_path, k))
            } else {
                v.uploaded
            };
            if k + 1 < 3 {
                (
                    PipelineView { next_upload: k + 1, uploaded: up, ..v },
                    seq![
                        ActionView::UploadIfExists {
                            local: local_parquet(v.home, job, k + 1),
                            remote: remote_parquet(v.target_path, k + 1),
                        },
                    ],
                )
            } else {
                (
                    PipelineView { phase: Phase::Done, next_upload: k + 1, uploaded: up, ..v },
                    seq![
                        ActionView::Cleanup { temp_log: temp_log_of(v), extract_dir: extract_dir_path(v.home, job) },
                        ActionView::Send(completion_report(v, up)),
                        ActionView::UpdateStatus(
                            status(job, ProgressStage::Completed, "Completed"@, 100, n, true, Some(true), None),
                        ),
                    ],
                )
            }
        },
        EventView::UploadErr(e) => fail(
            v,
            "Failed to upload "@ + remote_parquet(v.target_path, v.next_upload) + ": "@ + e,
        ),
    }
}

// ---------------------------------------------------------------------------
// Building reports and paths
// ---------------------------------------------------------------------------

fn owned(s: &str) -> (r: String)
    ensures
        r@ == s@,
{
    let mut r = String::new();
    push_text(&mut r, s);
    assert(r@ =~= s@);
    r
}

fn prefixed(prefix: &str, e: &str) -> (r: String)
    ensures
        r@ == prefix@ + e@,
{
    let mut r = owned(prefix);
    push_text(&mut r, e);
    r
}

fn send_report(job: &String, stage: ProgressStage, message: String, percent: i32, records: i64) -> (a:
    PipelineAction)
    ensures
        action_view(a) == ActionView::Send(report(job@, stage, message@, percent, records)),
{
    let p = ProcessLogsProgress {
        job_id: job.clone(),
        stage,
        message,
        progress_percent: percent,
        records_processed: records,
        success: None,
        error: None,
        output_files: Vec::new(),
    };
    assert(p@.output_files =~= Seq::<Seq<char>>::empty());
    PipelineAction::Send(p)
}

fn status_action(
    job: &String,
    stage: ProgressStage,
    message: String,
    percent: i32,
    records: i64,
    completed: bool,
    success: Option<bool>,
    error: Option<String>,
) -> (a: PipelineAction)
    ensures
        action_view(a) == ActionView::UpdateStatus(
            status(job@, stage, message@, percent, records, completed, success, opt_view(error)),
        ),
{
    PipelineAction::UpdateStatus(
        JobStatus {
            job_id: job.clone(),
            stage,
            message,
            progress_percent: percent,
            records_processed: records,
            is_completed: completed,
            success,
            error,
        },
    )
}

fn disconnect_text_exec(ph: Phase) -> (r: &'static str)
    ensures
        r@ == disconnect_text(ph),
{
    match ph {
        Phase::DownloadStartSent => "Client disconnected during download start",
        Phase::DownloadDoneSent => "Client disconnected after download",
        Phase::ExtractStartSent => "Client disconnected during extraction",
        Phase::ExtractDoneSent => "Client disconnected after extraction",
        Phase::ParseStartSent => "Client disconnected before parsing",
        Phase::ParseDoneSent => "Client disconnected after parsing",
        Phase::ConvertStartSent => "Client disconnected before conversion",
        Phase::ConvertDoneSent => "Client disconnected after conversion",
        _ => "Client disconnected before upload",
    }
}

fn temp_log_exec(home: &str, job: &str, source_path: &str) -> (r: String)
    ensures
        r@ == temp_log_path(home@, job@, source_path@),
{
    let mut r = owned(home);
    push_text(&mut r, "/trace_temp_log_");
    push_text(&mut r, job);
    push_text(&mut r, "_");
    let last = last_piece_exec(source_path);
    push_text(&mut r, last.as_str());
    assert(r@ =~= temp_log_path(home@, job@, source_path@));
    r
}

fn extract_dir_exec(home: &str, job: &str) -> (r: String)
    ensures
        r@ == extract_dir_path(home@, job@),
{
    let mut r = owned(home);
    push_text(&mut r, "/trace_extract_");
    push_text(&mut r, job);
    r
}

fn temp_parquet_exec(home: &str, job: &str) -> (r: String)
    ensures
        r@ == temp_parquet_path(home@, job@),
{
    let mut r = owned(home);
    push_text(&mut r, "/trace_temp_parquet_");
    push_text(&mut r, job);
    r
}

fn local_parquet_exec(home: &str, job: &str, k: usize) -> (r: String)
    ensures
        r@ == local_parquet(home@, job@, k as int),
{
    let mut r = temp_parquet_exec(home, job);
    push_text(&mut r, "_");
    push_text(&mut r, parquet_kind_exec(k));
    push_text(&mut r, ".parquet");
    assert(r@ =~= local_parquet(home@, job@, k as int));
    r
}

fn remote_parquet_exec(target_path: &str, k: usize) -> (r: String)
    ensures
        r@ == remote_parquet(target_path@, k as int),
{
    let mut r = trim_slashes_exec(target_path);
    push_text(&mut r, "/");
    push_text(&mut r, parquet_kind_exec(k));
    push_text(&mut r, ".parquet");
    assert(r@ =~= remote_parquet(target_path@, k as int));
    r
}

fn strings_push(v: &mut Vec<String>, s: String)
    ensures
        strings_of(final(v)@) == strings_of(old(v)@).push(s@),
{
    v.push(s);
    assert(strings_of(v@) =~= strings_of(old(v)@).push(s@));
}

fn clone_strings(v: &Vec<String>) -> (r: Vec<String>)
    ensures
        strings_of(r@) == strings_of(v@),
{
    let mut r: Vec<String> = Vec::new();
    let mut i: usize = 0;
    while i < v.len()
        invariant
            i <= v@.len(),
            strings_of(r@) == strings_of(v@.take(i as int)),
        decreases v@.len() - i,
    {
        strings_push(&mut r, v[i].clone());
        assert(strings_of(v@.take(i + 1)) =~= strings_of(v@.take(i as int)).push(v@[i as int]@));
        i = i + 1;
    }
    assert(v@.take(v@.len() as int) =~= v@);
    r
}

// ---------------------------------------------------------------------------
// Stepping a job
// ---------------------------------------------------------------------------

fn two(a: PipelineAction, b: PipelineAction) -> (r: Vec<PipelineAction>)
    ensures
        actions_view(r@) == seq![action_view(a), action_view(b)],
{
    let mut r = Vec::new();
    r.push(a);
    r.push(b);
    assert(actions_view(r@) =~= seq![action_view(a), action_view(b)]);
    r
}

fn one(a: PipelineAction) -> (r: Vec<PipelineAction>)
    ensures
        actions_view(r@) == seq![action_view(a)],
{
    let mut r = Vec::new();
    r.push(a);
    assert(actions_view(r@) =~= seq![action_view(a)]);
    r
}

impl LogPipeline {
    /// The upload counter stays within the three result kinds.
    pub closed spec fn wf(&self) -> bool {
        &&& self.next_upload <= 3
        &&& self.phase == Phase::Uploading ==> self.next_upload < 3
    }

    /// A job that has not begun, with its id and the directory for its
    /// temporary files.
    pub fn new(request: ProcessLogsRequest, job_id: String, home: String) -> (p: Self)
        ensures
            p.wf(),
            p@.phase == Phase::Start,
            p@.source_bucket == request.source_bucket@,
            p@.source_path == request.source_path@,
            p@.target_bucket == request.target_bucket@,
            p@.target_path == request.target_path@,
            p@.chunk_size == (match request.chunk_size {
                Some(c) => c as usize,
                None => 100000usize,
            }),
            p@.job == job_id@,
            p@.home == home@,
            p@.log_path == Seq::<char>::empty(),
            p@.records == 0,
            p@.next_upload == 0,
            p@.uploaded == Seq::<Seq<char>>::empty(),
    {
        let p = LogPipeline {
            request,
            job_id,
            home,
            phase: Phase::Start,
            log_path: String::new(),
            records: 0,
            next_upload: 0,
            uploaded: Vec::new(),
        };
        assert(p@.uploaded =~= Seq::<Seq<char>>::empty());
        p
    }

    /// The phase the job is in.
    pub fn phase(&self) -> (ph: Phase)
        ensures
            ph == self@.phase,
    {
        self.phase
    }

    fn fail_with(&mut self, e: String) -> (r: Vec<PipelineAction>)
        requires
            old(self).wf(),
        ensures
            final(self).wf(),
            final(self)@ == fail(old(self)@, e@).0,
            actions_view(r@) == fail(old(self)@, e@).1,
    {
        let msg = prefixed("Processing failed: ", e.as_str());
        let p = ProcessLogsProgress {
            job_id: self.job_id.clone(),
            stage: ProgressStage::Failed,
            message: msg.clone(),
            progress_percent: 0,
            records_processed: 0,
            success: Some(false),
            error: Some(msg.clone()),
            output_files: Vec::new(),
        };
        assert(p@.output_files =~= Seq::<Seq<char>>::empty());
        let st = status_action(
            &self.job_id,
            ProgressStage::Failed,
            owned("Failed"),
            0,
            0,
            true,
            Some(false),
            Some(msg),
        );
        self.phase = Phase::Failed;
        let r = two(PipelineAction::Send(p), st);
        assert(actions_view(r@) =~= fail(old(self)@, e@).1);
        assert(self@ =~= fail(old(self)@, e@).0);
        r
    }

    fn on_begin(&mut self) -> (r: Vec<PipelineAction>)
        requires
            old(self).wf(),
        ensures
            final(self).wf(),
            final(self)@ == pipeline_step(old(self)@, EventView::Begin).0,
            actions_view(r@) == pipeline_step(old(self)@, EventView::Begin).1,
    {
        let st = status_action(
            &self.job_id,
            ProgressStage::Downloading,
            owned("Starting"),
            0,
            0,
            false,
            None,
            None,
        );
        let mut msg = owned("Downloading log file from ");
        push_text(&mut msg, self.request.source_bucket.as_str());
        push_text(&mut msg, "/");
        push_text(&mut msg, self.request.source_path.as_str());
        let send = send_report(&self.job_id, ProgressStage::Downloading, msg, 10, 0);
        self.phase = Phase::DownloadStartSent;
        let r = two(st, send);
        assert(self@ =~= pipeline_step(old(self)@, EventView::Begin).0);
        r
    }

    fn on_download_reported(&mut self) -> (r: Vec<PipelineAction>)
        requires
            old(self).wf(),
            old(self)@.phase == Phase::DownloadDoneSent,
        ensures
            final(self).wf(),
            final(self)@ == pipeline_step(old(self)@, EventView::Sent(true)).0,
            actions_view(r@) == pipeline_step(old(self)@, EventView::Sent(true)).1,
    {
        let st = status_action(
            &self.job_id,
            ProgressStage::Downloading,
            owned("Download completed"),
            20,
            0,
            false,
            None,
            None,
        );
        let temp = temp_log_exec(self.home.as_str(), self.job_id.as_str(), self.request.source_path.as_str());
        let fmt = CompressionFormat::from_path(temp.as_str());
        if fmt != CompressionFormat::NotCompressed {
            let mut msg = owned("Extracting compressed file (");
            push_text(&mut msg, format_name_exec(fmt));
            push_text(&mut msg, ")...");
            let send = send_report(&self.job_id, ProgressStage::Downloading, msg, 25, 0);
            self.phase = Phase::ExtractStartSent;
            let r = two(st, send);
            assert(self@ =~= pipeline_step(old(self)@, EventView::Sent(true)).0);
            r
        } else {
            let send = send_report(&self.job_id, ProgressStage::Parsing, owned("Parsing log file"), 30, 0);
            self.phase = Phase::ParseStartSent;
            self.log_path = temp;
            let r = two(st, send);
            assert(self@ =~= pipeline_step(old(self)@, EventView::Sent(true)).0);
            r
        }
    }

    fn on_reported(&mut self) -> (r: Vec<PipelineAction>)
        requires
            old(self).wf(),
            expects(old(self)@.phase, PipelineEvent::Sent(true)),
        ensures
            final(self).wf(),
            final(self)@ == pipeline_step(old(self)@, EventView::Sent(true)).0,
            actions_view(r@) == pipeline_step(old(self)@, EventView::Sent(true)).1,
    {
        let n = self.records;
        match self.phase {
            Phase::DownloadStartSent => {
                let local = temp_log_exec(self.home.as_str(), self.job_id.as_str(), self.request.source_path.as_str());
                let a = PipelineAction::Download {
                    bucket: self.request.source_bucket.clone(),
                    remote: self.request.source_path.clone(),
                    local,
                };
                self.phase = Phase::Downloading;
                let r = one(a);
                assert(self@ =~= pipeline_step(old(self)@, EventView::Sent(true)).0);
                r
            },
            Phase::DownloadDoneSent => self.on_download_reported(),
            Phase::ExtractStartSent => {
                let archive = temp_log_exec(self.home.as_str(), self.job_id.as_str(), self.request.source_path.as_str());
                let dir = extract_dir_exec(self.home.as_str(), self.job_id.as_str());
                self.phase = Phase::Extracting;
                let r = one(PipelineAction::Extract { archive, dir });
                assert(self@ =~= pipeline_step(old(self)@, EventView::Sent(true)).0);
                r
            },
            Phase::ExtractDoneSent => {
                let send = send_report(&self.job_id, ProgressStage::Parsing, owned("Parsing log file"), 30, 0);
                self.phase = Phase::ParseStartSent;
                let r = one(send);
                assert(self@ =~= pipeline_step(old(self)@, EventView::Sent(true)).0);
                r
            },
            Phase::ParseStartSent => {
                let path = self.log_path.clone();
                self.phase = Phase::Parsing;
                let r = one(PipelineAction::Parse { path });
                assert(self@ =~= pipeline_step(old(self)@, EventView::Sent(true)).0);
                r
            },
            Phase::ParseDoneSent => {
                let st = status_action(
                    &self.job_id,
                    ProgressStage::Parsing,
                    owned("Parsing completed"),
                    50,
                    n,
                    false,
                    None,
                    None,
                );
                let send = send_report(
                    &self.job_id,
                    ProgressStage::Converting,
                    owned("Converting to Parquet format"),
                    60,
                    n,
                );
                self.phase = Phase::ConvertStartSent;
                let r = two(st, send);
                assert(self@ =~= pipeline_step(old(self)@, EventView::Sent(true)).0);
                r
            },
            Phase::ConvertStartSent => {
                let prefix = temp_parquet_exec(self.home.as_str(), self.job_id.as_str());
                let chunk_size: usize = match self.request.chunk_size {
                    Some(c) => c as usize,
                    None => 100000,
                };
                self.phase = Phase::Converting;
                let r = one(PipelineAction::Save { prefix, chunk_size });
                assert(self@ =~= pipeline_step(old(self)@, EventView::Sent(true)).0);
                r
            },
            Phase::ConvertDoneSent => {
                let send = send_report(
                    &self.job_id,
                    ProgressStage::Uploading,
                    owned("Uploading Parquet files to MinIO"),
                    75,
                    n,
                );
                self.phase = Phase::UploadStartSent;
                let r = one(send);
                assert(self@ =~= pipeline_step(old(self)@, EventView::Sent(true)).0);
                r
            },
            _ => {
                let bucket = self.request.target_bucket.clone();
                self.phase = Phase::OpeningTarget;
                let r = one(PipelineAction::OpenTarget { bucket });
                assert(self@ =~= pipeline_step(old(self)@, EventView::Sent(true)).0);
                r
            },
        }
    }

    fn on_target_ready(&mut self) -> (r: Vec<PipelineAction>)
        requires
            old(self).wf(),
        ensures
            final(self).wf(),
            final(self)@ == pipeline_step(old(self)@, EventView::TargetOk).0,
            actions_view(r@) == pipeline_step(old(self)@, EventView::TargetOk).1,
    {
        let n = self.records;
        let send = send_report(&self.job_id, ProgressStage::Uploading, owned("Starting upload to MinIO"), 80, n);
        let local = local_parquet_exec(self.home.as_str(), self.job_id.as_str(), 0);
        let remote = remote_parquet_exec(self.request.target_path.as_str(), 0);
        self.phase = Phase::Uploading;
        self.next_upload = 0;
        self.uploaded = Vec::new();
        let r = two(send, PipelineAction::UploadIfExists { local, remote });
        assert(self@ =~= pipeline_step(old(self)@, EventView::TargetOk).0);
        r
    }

    fn on_uploaded(&mut self, existed: bool) -> (r: Vec<PipelineAction>)
        requires
            old(self).wf(),
            old(self)@.phase == Phase::Uploading,
        ensures
            final(self).wf(),
            final(self)@ == pipeline_step(old(self)@, EventView::UploadOk(existed)).0,
            actions_view(r@) == pipeline_step(old(self)@, EventView::UploadOk(existed)).1,
    {
        let k = self.next_upload;
        if existed {
            let remote = remote_parquet_exec(self.request.target_path.as_str(), k);
            strings_push(&mut self.uploaded, remote);
        }
        if k + 1 < 3 {
            let local = local_parquet_exec(self.home.as_str(), self.job_id.as_str(), k + 1);
            let remote = remote_parquet_exec(self.request.target_path.as_str(), k + 1);
            self.next_upload = k + 1;
            let r = one(PipelineAction::UploadIfExists { local, remote });
            assert(self@ =~= pipeline_step(old(self)@, EventView::UploadOk(existed)).0);
            r
        } else {
            let n = self.records;
            let temp_log = temp_log_exec(self.home.as_str(), self.job_id.as_str(), self.request.source_path.as_str());
            let extract_dir = extract_dir_exec(self.home.as_str(), self.job_id.as_str());
            let mut msg = owned("Processing completed successfully. Uploaded ");
            push_decimal(&mut msg, self.uploaded.len() as u64);
            push_text(&mut msg, " files");
            let files = clone_strings(&self.uploaded);
            let done = ProcessLogsProgress {
                job_id: self.job_id.clone(),
                stage: ProgressStage::Completed,
                message: msg,
                progress_percent: 100,
                records_processed: n,
                success: Some(true),
                error: None,
                output_files: files,
            };
            let st = status_action(
                &self.job_id,
                ProgressStage::Completed,
                owned("Completed"),
                100,
                n,
                true,
                Some(true),
                None,
            );
            self.phase = Phase::Done;
            self.next_upload = k + 1;
            let mut r = Vec::new();
            r.push(PipelineAction::Cleanup { temp_log, extract_dir });
            r.push(PipelineAction::Send(done));
            r.push(st);
            proof {
                let up = strings_of(self.uploaded@);
                assert(up.len() == self.uploaded@.len());
            }
            assert(actions_view(r@) =~= pipeline_step(old(self)@, EventView::UploadOk(existed)).1);
            assert(self@ =~= pipeline_step(old(self)@, EventView::UploadOk(existed)).0);
            r
        }
    }

    /// Takes what came of the last piece of outside work and returns the
    /// work to do next, in order.  While the job is neither done nor
    /// failed, the outcome of the last action returned is the next event;
    /// the outcomes of the others are not awaited.
    pub fn advance(&mut self, ev: PipelineEvent) -> (r: Vec<PipelineAction>)
        requires
            old(self).wf(),
            expects(old(self)@.phase, ev),
        ensures
            final(self).wf(),
            final(self)@ == pipeline_step(old(self)@, event_view(ev)).0,
            actions_view(r@) == pipeline_step(old(self)@, event_view(ev)).1,
    {
        match ev {
            PipelineEvent::Begin => self.on_begin(),
            PipelineEvent::Sent(ok) => {
                if ok {
                    self.on_reported()
                } else {
                    let e = owned(disconnect_text_exec(self.phase));
                    self.fail_with(e)
                }
            },
            PipelineEvent::Downloaded(res) => match res {
                Ok(()) => {
                    let send = send_report(
                        &self.job_id,
                        ProgressStage::Downloading,
                        owned("Download completed"),
                        20,
                        0,
                    );
                    self.phase = Phase::DownloadDoneSent;
                    let r = one(send);
                    assert(self@ =~= pipeline_step(old(self)@, event_view(ev)).0);
                    r
                },
                Err(DownloadError::Client(e)) => self.fail_with(e),
                Err(DownloadError::Transfer(e)) => {
                    let m = prefixed("Failed to download file: ", e.as_str());
                    self.fail_with(m)
                },
            },
            PipelineEvent::Extracted(res) => match res {
                Ok(path) => {
                    let send = send_report(
                        &self.job_id,
                        ProgressStage::Downloading,
                        owned("Extraction completed"),
                        28,
                        0,
                    );
                    self.phase = Phase::ExtractDoneSent;
                    self.log_path = path;
                    let r = one(send);
                    assert(self@ =~= pipeline_step(old(self)@, event_view(ev)).0);
                    r
                },
                Err(e) => {
                    let m = prefixed("Failed to extract compressed file: ", e.as_str());
                    self.fail_with(m)
                },
            },
            PipelineEvent::Parsed(res) => match res {
                Ok(count) => {
                    let mut msg = owned("Parsing completed: ");
                    push_decimal(&mut msg, count);
                    push_text(&mut msg, " records");
                    let records = count as i64;
                    let send = send_report(&self.job_id, ProgressStage::Parsing, msg, 50, records);
                    self.phase = Phase::ParseDoneSent;
                    self.records = records;
                    let r = one(send);
                    assert(self@ =~= pipeline_step(old(self)@, event_view(ev)).0);
                    r
                },
                Err(e) => {
                    let m = prefixed("Failed to parse log file: ", e.as_str());
                    self.fail_with(m)
                },
            },
            PipelineEvent::Saved(res) => match res {
                Ok(()) => {
                    let n = self.records;
                    let send = send_report(
                        &self.job_id,
                        ProgressStage::Converting,
                        owned("Conversion completed"),
                        70,
                        n,
                    );
                    self.phase = Phase::ConvertDoneSent;
                    let r = one(send);
                    assert(self@ =~= pipeline_step(old(self)@, event_view(ev)).0);
                    r
                },
                Err(e) => {
                    let m = prefixed("Failed to save parquet: ", e.as_str());
                    self.fail_with(m)
                },
            },
            PipelineEvent::TargetReady(res) => match res {
                Ok(()) => self.on_target_ready(),
                Err(e) => {
                    let m = prefixed("Failed to create target MinIO client: ", e.as_str());
                    self.fail_with(m)
                },
            },
            PipelineEvent::Uploaded(res) => match res {
                Ok(existed) => self.on_uploaded(existed),
                Err(e) => {
                    let mut m = owned("Failed to upload ");
                    let remote = remote_parquet_exec(self.request.target_path.as_str(), self.next_upload);
                    push_text(&mut m, remote.as_str());
                    push_text(&mut m, ": ");
                    push_text(&mut m, e.as_str());
                    self.fail_with(m)
                },
            },
        }
    }
}

// ---------------------------------------------------------------------------
// Laws
// ---------------------------------------------------------------------------

/// The position of a phase in the order a job goes through them.
pub open spec fn phase_index(ph: Phase) -> int {
    match ph {
        Phase::Start => 0,
        Phase::DownloadStartSent => 1,
        Phase::Downloading => 2,
        Phase::DownloadDoneSent => 3,
        Phase::ExtractStartSent => 4,
        Phase::Extracting => 5,
        Phase::ExtractDoneSent => 6,
        Phase::ParseStartSent => 7,
        Phase::Parsing => 8,
        Phase::ParseDoneSent => 9,
        Phase::ConvertStartSent => 10,
        Phase::Converting => 11,
        Phase::ConvertDoneSent => 12,
        Phase::UploadStartSent => 13,
        Phase::OpeningTarget => 14,
        Phase::Uploading => 15,
        Phase::Done => 16,
        Phase::Failed => 17,
    }
}

/// How far a job has got: its phase, and while uploading, how many result
/// kinds it has handled.
pub open spec fn progress_rank(v: PipelineView) -> int {
    phase_index(v.phase) * 4 + if v.phase == Phase::Uploading {
        v.next_upload
    } else {
        0
    }
}

/// The outcomes that end a job in failure.
pub open spec fn is_failure(e: EventView) -> bool {
    match e {
        EventView::Sent(ok) => !ok,
        EventView::DownloadClientErr(_) | EventView::DownloadErr(_) | EventView::ExtractErr(_)
        | EventView::ParseErr(_) | EventView::SaveErr(_) | EventView::TargetErr(_)
        | EventView::UploadErr(_) => true,
        _ => false,
    }
}

/// A job that is done or has failed waits for nothing more.
pub proof fn law_finished_job_takes_no_event(ev: PipelineEvent)
    ensures
        !expects(Phase::Done, ev),
        !expects(Phase::Failed, ev),
{
}

/// Every step either fails the job or moves it strictly forward, so a job
/// ends after a bounded number of steps.
pub proof fn law_step_moves_forward(v: PipelineView, ev: PipelineEvent)
    requires
        expects(v.phase, ev),
        v.phase == Phase::Uploading ==> 0 <= v.next_upload < 3,
    ensures
        pipeline_step(v, event_view(ev)).0.phase == Phase::Failed
            || progress_rank(pipeline_step(v, event_view(ev)).0) > progress_rank(v),
        progress_rank(pipeline_step(v, event_view(ev)).0) <= 4 * phase_index(Phase::Failed),
{
}

/// A step fails the job exactly on an error outcome or an undelivered
/// report; it then keeps everything else, reports the failure to the client
/// and records the job as completed without success.
pub proof fn law_error_fails_job(v: PipelineView, ev: PipelineEvent)
    requires
        expects(v.phase, ev),
    ensures
        (pipeline_step(v, event_view(ev)).0.phase == Phase::Failed) == is_failure(event_view(ev)),
        is_failure(event_view(ev)) ==> {
            let (w, acts) = pipeline_step(v, event_view(ev));
            &&& w == PipelineView { phase: Phase::Failed, ..v }
            &&& acts.len() == 2
            &&& acts[0] matches ActionView::Send(p) && p.stage == ProgressStage::Failed
                && p.success == Some(false) && p.error == Some(p.message)
            &&& acts[1] matches ActionView::UpdateStatus(st) && st.is_completed && st.success
                == Some(false) && st.stage == ProgressStage::Failed
        },
{
}

/// A job completes exactly when the last result kind has been handled; it
/// then reports success with the files it uploaded and records the job as
/// completed with success.
pub proof fn law_completion(v: PipelineView, ev: PipelineEvent)
    requires
        expects(v.phase, ev),
        v.phase == Phase::Uploading ==> 0 <= v.next_upload < 3,
    ensures
        (pipeline_step(v, event_view(ev)).0.phase == Phase::Done) == (v.phase == Phase::Uploading
            && v.next_upload == 2 && event_view(ev) is UploadOk),
        pipeline_step(v, event_view(ev)).0.phase == Phase::Done ==> {
            let (w, acts) = pipeline_step(v, event_view(ev));
            &&& acts.len() == 3
            &&& acts[1] matches ActionView::Send(p) && p.stage == ProgressStage::Completed
                && p.success == Some(true) && p.progress_percent == 100 && p.output_files
                == w.uploaded
            &&& acts[2] matches ActionView::UpdateStatus(st) && st.is_completed && st.success
                == Some(true) && st.progress_percent == 100
        },
{
}

/// The percentage last reported to the client in a phase.
pub open spec fn last_percent(ph: Phase) -> i32 {
    match ph {
        Phase::Start => 0,
        Phase::DownloadStartSent | Phase::Downloading => 10,
        Phase::DownloadDoneSent => 20,
        Phase::ExtractStartSent | Phase::Extracting => 25,
        Phase::ExtractDoneSent => 28,
        Phase::ParseStartSent | Phase::Parsing => 30,
        Phase::ParseDoneSent => 50,
        Phase::ConvertStartSent | Phase::Converting => 60,
        Phase::ConvertDoneSent => 70,
        Phase::UploadStartSent | Phase::OpeningTarget => 75,
        Phase::Uploading => 80,
        Phase::Done => 100,
        Phase::Failed => 0,
    }
}

/// Until a job fails, the percentages it reports never go down: each
/// report of a step lies between what was last reported before the step
/// and what is last reported after it.
pub proof fn law_progress_never_decreases(v: PipelineView, ev: PipelineEvent)
    requires
        expects(v.phase, ev),
        !is_failure(event_view(ev)),
    ensures
        last_percent(v.phase) <= last_percent(pipeline_step(v, event_view(ev)).0.phase),
        forall|k: int|
            0 <= k < pipeline_step(v, event_view(ev)).1.len() ==> (#[trigger] pipeline_step(v, event_view(ev)).1[k] matches ActionView::Send(p)
                ==> last_percent(v.phase) <= p.progress_percent <= last_percent(
                pipeline_step(v, event_view(ev)).0.phase,
            )),
{
}

} // verus!

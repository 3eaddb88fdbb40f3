use trace::jobs::{JobStatus, LogProcessorService, ProgressStage};
use trace::pipeline::{
    DownloadError, LogPipeline, Phase, PipelineAction, PipelineEvent, ProcessLogsRequest,
};
use trace::storage::MinioConfig;

fn request(source_path: &str, target_path: &str) -> ProcessLogsRequest {
    ProcessLogsRequest {
        source_bucket: "logs".to_string(),
        source_path: source_path.to_string(),
        target_bucket: "out".to_string(),
        target_path: target_path.to_string(),
        log_type: "ufs".to_string(),
        chunk_size: None,
    }
}

fn sent_message(a: &PipelineAction) -> (String, i32, ProgressStage) {
    match a {
        PipelineAction::Send(p) => (p.message.clone(), p.progress_percent, p.stage),
        other => panic!("expected a report, got {:?}", other),
    }
}

#[test]
fn job_status_read_after_write() {
    let cfg = MinioConfig::new(
        "http://localhost:9000".to_string(),
        "admin".to_string(),
        "SECRET-REDACTED".to_string(),
        "trace".to_string(),
    );
    let mut svc = LogProcessorService::new(cfg);
    assert!(svc.get_job_status("j1").is_err());
    let st = JobStatus {
        job_id: "j1".to_string(),
        stage: ProgressStage::Parsing,
        message: "Parsing completed".to_string(),
        progress_percent: 50,
        records_processed: 7,
        is_completed: false,
        success: None,
        error: None,
    };
    svc.update_job_status("j1", st);
    let got = svc.get_job_status("j1").unwrap();
    assert_eq!(got.progress_percent, 50);
    assert_eq!(got.records_processed, 7);
    let mut st2 = got.clone();
    st2.progress_percent = 100;
    st2.is_completed = true;
    svc.update_job_status("j1", st2);
    assert_eq!(svc.get_job_status("j1").unwrap().progress_percent, 100);
    assert_eq!(svc.get_job_status("nope").unwrap_err(), "Job not found: nope");
}

#[test]
fn pipeline_runs_a_plain_log_to_completion() {
    let mut p = LogPipeline::new(request("dir/trace.log", "results/"), "job7".to_string(), "/home/u".to_string());
    assert_eq!(p.phase(), Phase::Start);

    let acts = p.advance(PipelineEvent::Begin);
    assert_eq!(acts.len(), 2);
    match &acts[0] {
        PipelineAction::UpdateStatus(s) => {
            assert_eq!(s.message, "Starting");
            assert_eq!(s.progress_percent, 0);
        }
        other => panic!("{:?}", other),
    }
    assert_eq!(
        sent_message(&acts[1]),
        ("Downloading log file from logs/dir/trace.log".to_string(), 10, ProgressStage::Downloading)
    );

    let acts = p.advance(PipelineEvent::Sent(true));
    match &acts[0] {
        PipelineAction::Download { bucket, remote, local } => {
            assert_eq!(bucket, "logs");
            assert_eq!(remote, "dir/trace.log");
            assert_eq!(local, "/home/u/trace_temp_log_job7_trace.log");
        }
        other => panic!("{:?}", other),
    }

    let acts = p.advance(PipelineEvent::Downloaded(Ok(())));
    assert_eq!(sent_message(&acts[0]).1, 20);

    // Not an archive: straight to parsing, reading the downloaded file.
    let acts = p.advance(PipelineEvent::Sent(true));
    assert_eq!(acts.len(), 2);
    assert_eq!(sent_message(&acts[1]), ("Parsing log file".to_string(), 30, ProgressStage::Parsing));
    let acts = p.advance(PipelineEvent::Sent(true));
    match &acts[0] {
        PipelineAction::Parse { path } => assert_eq!(path, "/home/u/trace_temp_log_job7_trace.log"),
        other => panic!("{:?}", other),
    }

    let acts = p.advance(PipelineEvent::Parsed(Ok(1234)));
    assert_eq!(sent_message(&acts[0]), ("Parsing completed: 1234 records".to_string(), 50, ProgressStage::Parsing));
    let acts = p.advance(PipelineEvent::Sent(true));
    assert_eq!(sent_message(&acts[1]).1, 60);
    let acts = p.advance(PipelineEvent::Sent(true));
    match &acts[0] {
        PipelineAction::Save { prefix, chunk_size } => {
            assert_eq!(prefix, "/home/u/trace_temp_parquet_job7");
            assert_eq!(*chunk_size, 100000);
        }
        other => panic!("{:?}", other),
    }
    let acts = p.advance(PipelineEvent::Saved(Ok(())));
    assert_eq!(sent_message(&acts[0]).1, 70);
    let acts = p.advance(PipelineEvent::Sent(true));
    assert_eq!(sent_message(&acts[0]).1, 75);
    let acts = p.advance(PipelineEvent::Sent(true));
    match &acts[0] {
        PipelineAction::OpenTarget { bucket } => assert_eq!(bucket, "out"),
        other => panic!("{:?}", other),
    }
    let acts = p.advance(PipelineEvent::TargetReady(Ok(())));
    assert_eq!(sent_message(&acts[0]).1, 80);
    match &acts[1] {
        PipelineAction::UploadIfExists { local, remote } => {
            assert_eq!(local, "/home/u/trace_temp_parquet_job7_ufs.parquet");
            assert_eq!(remote, "results/ufs.parquet");
        }
        other => panic!("{:?}", other),
    }
    let acts = p.advance(PipelineEvent::Uploaded(Ok(true)));
    match &acts[0] {
        PipelineAction::UploadIfExists { remote, .. } => assert_eq!(remote, "results/block.parquet"),
        other => panic!("{:?}", other),
    }
    let acts = p.advance(PipelineEvent::Uploaded(Ok(false)));
    match &acts[0] {
        PipelineAction::UploadIfExists { remote, .. } => assert_eq!(remote, "results/ufscustom.parquet"),
        other => panic!("{:?}", other),
    }
    let acts = p.advance(PipelineEvent::Uploaded(Ok(true)));
    assert_eq!(p.phase(), Phase::Done);
    assert_eq!(acts.len(), 3);
    match &acts[0] {
        PipelineAction::Cleanup { temp_log, extract_dir } => {
            assert_eq!(temp_log, "/home/u/trace_temp_log_job7_trace.log");
            assert_eq!(extract_dir, "/home/u/trace_extract_job7");
        }
        other => panic!("{:?}", other),
    }
    match &acts[1] {
        PipelineAction::Send(pr) => {
            assert_eq!(pr.message, "Processing completed successfully. Uploaded 2 files");
            assert_eq!(pr.success, Some(true));
            assert_eq!(pr.records_processed, 1234);
            assert_eq!(pr.output_files, vec!["results/ufs.parquet".to_string(), "results/ufscustom.parquet".to_string()]);
        }
        other => panic!("{:?}", other),
    }
    match &acts[2] {
        PipelineAction::UpdateStatus(s) => {
            assert!(s.is_completed);
            assert_eq!(s.success, Some(true));
            assert_eq!(s.stage, ProgressStage::Completed);
        }
        other => panic!("{:?}", other),
    }
}

#[test]
fn pipeline_extracts_an_archive() {
    let mut p = LogPipeline::new(request("a/b/Trace.TAR.GZ", "t"), "j".to_string(), "/h".to_string());
    p.advance(PipelineEvent::Begin);
    p.advance(PipelineEvent::Sent(true));
    p.advance(PipelineEvent::Downloaded(Ok(())));
    let acts = p.advance(PipelineEvent::Sent(true));
    assert_eq!(sent_message(&acts[1]), ("Extracting compressed file (TarGz)...".to_string(), 25, ProgressStage::Downloading));
    let acts = p.advance(PipelineEvent::Sent(true));
    match &acts[0] {
        PipelineAction::Extract { archive, dir } => {
            assert_eq!(archive, "/h/trace_temp_log_j_Trace.TAR.GZ");
            assert_eq!(dir, "/h/trace_extract_j");
        }
        other => panic!("{:?}", other),
    }
    let acts = p.advance(PipelineEvent::Extracted(Ok("/h/trace_extract_j/x.log".to_string())));
    assert_eq!(sent_message(&acts[0]).1, 28);
    p.advance(PipelineEvent::Sent(true));
    let acts = p.advance(PipelineEvent::Sent(true));
    match &acts[0] {
        PipelineAction::Parse { path } => assert_eq!(path, "/h/trace_extract_j/x.log"),
        other => panic!("{:?}", other),
    }
}

#[test]
fn pipeline_failures_end_the_job() {
    let mut p = LogPipeline::new(request("x.log", "t"), "j".to_string(), "/h".to_string());
    p.advance(PipelineEvent::Begin);
    p.advance(PipelineEvent::Sent(true));
    let acts = p.advance(PipelineEvent::Downloaded(Err(DownloadError::Transfer("timeout".to_string()))));
    assert_eq!(p.phase(), Phase::Failed);
    match &acts[0] {
        PipelineAction::Send(pr) => {
            assert_eq!(pr.message, "Processing failed: Failed to download file: timeout");
            assert_eq!(pr.error, Some("Processing failed: Failed to download file: timeout".to_string()));
            assert_eq!(pr.success, Some(false));
            assert_eq!(pr.stage, ProgressStage::Failed);
        }
        other => panic!("{:?}", other),
    }
    match &acts[1] {
        PipelineAction::UpdateStatus(s) => {
            assert_eq!(s.message, "Failed");
            assert!(s.is_completed);
            assert_eq!(s.success, Some(false));
        }
        other => panic!("{:?}", other),
    }

    let mut q = LogPipeline::new(request("x.log", "t"), "j".to_string(), "/h".to_string());
    q.advance(PipelineEvent::Begin);
    let acts = q.advance(PipelineEvent::Sent(false));
    assert_eq!(
        sent_message(&acts[0]).0,
        "Processing failed: Client disconnected during download start"
    );

    let mut c = LogPipeline::new(request("x.log", "t"), "j".to_string(), "/h".to_string());
    c.advance(PipelineEvent::Begin);
    c.advance(PipelineEvent::Sent(true));
    let acts = c.advance(PipelineEvent::Downloaded(Err(DownloadError::Client("bad endpoint".to_string()))));
    assert_eq!(sent_message(&acts[0]).0, "Processing failed: bad endpoint");
}

#[test]
fn pipeline_upload_failure_names_the_file() {
    let mut p = LogPipeline::new(request("x.log", "dest//"), "j".to_string(), "/h".to_string());
    p.advance(PipelineEvent::Begin);
    p.advance(PipelineEvent::Sent(true));
    p.advance(PipelineEvent::Downloaded(Ok(())));
    p.advance(PipelineEvent::Sent(true));
    p.advance(PipelineEvent::Sent(true));
    p.advance(PipelineEvent::Parsed(Ok(0)));
    p.advance(PipelineEvent::Sent(true));
    p.advance(PipelineEvent::Sent(true));
    p.advance(PipelineEvent::Saved(Ok(())));
    p.advance(PipelineEvent::Sent(true));
    p.advance(PipelineEvent::Sent(true));
    p.advance(PipelineEvent::TargetReady(Ok(())));
    let acts = p.advance(PipelineEvent::Uploaded(Err("denied".to_string())));
    assert_eq!(p.phase(), Phase::Failed);
    assert_eq!(sent_message(&acts[0]).0, "Processing failed: Failed to upload dest/ufs.parquet: denied");
}

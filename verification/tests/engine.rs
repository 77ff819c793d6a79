use commonplace::engine::{DownloadAction, DownloadRun};
use commonplace::engine::{
    chat_url, choose_engine_dir, choose_model_dir, downloads_needed, embeddings_url, engine_model_name,
    engine_plan, engine_ready, health_step, health_url, models_present, server_args, DownloadTracker,
    EngineDirChoice, HealthStep, ModelDirChoice, CHAT_MODEL_FILE, CHAT_PORT, EMBED_MODEL_FILE,
    EMBED_PORT,
};

#[test]
fn server_arguments() {
    assert_eq!(
        server_args("m.gguf", 11500, false),
        vec!["--model", "m.gguf", "--host", "127.0.0.1", "--port", "11500", "--ctx-size", "8192"]
    );
    assert_eq!(
        server_args("e.gguf", 11501, true),
        vec![
            "--model", "e.gguf", "--host", "127.0.0.1", "--port", "11501", "--ctx-size", "2048",
            "--embedding", "--pooling", "mean"
        ]
    );
    assert_eq!(server_args("x", 0, false)[5], "0");
}

#[test]
fn engine_start_is_idempotent() {
    assert!(engine_plan(true).is_empty());
    let p = engine_plan(false);
    assert_eq!(p.len(), 2);
    assert_eq!(p[0].model_file, CHAT_MODEL_FILE);
    assert_eq!(p[0].port, CHAT_PORT);
    assert!(!p[0].embedding);
    assert_eq!(p[1].model_file, EMBED_MODEL_FILE);
    assert_eq!(p[1].port, EMBED_PORT);
    assert!(p[1].embedding);
}

#[test]
fn only_missing_models_download() {
    assert!(downloads_needed(true, true).is_empty());
    let both = downloads_needed(false, false);
    assert_eq!(both.len(), 2);
    assert_eq!(both[0].file, CHAT_MODEL_FILE);
    assert!(both[0].url.ends_with(CHAT_MODEL_FILE));
    assert_eq!(both[1].file, EMBED_MODEL_FILE);
    let one = downloads_needed(true, false);
    assert_eq!(one.len(), 1);
    assert_eq!(one[0].file, EMBED_MODEL_FILE);
    assert!(models_present(true, true));
    assert!(!models_present(true, false));
    assert!(engine_ready(true, true));
    assert!(!engine_ready(false, true));
}

#[test]
fn progress_reports_every_four_megabytes() {
    let mut t = DownloadTracker::new("m.gguf", 10_000_000);
    assert!(t.on_chunk(3_000_000).is_none());
    let p = t.on_chunk(1_000_000).unwrap();
    assert_eq!(p.downloaded, 4_000_000);
    assert_eq!(p.total, 10_000_000);
    assert_eq!(p.file, "m.gguf");
    assert!(!p.done);
    assert!(t.on_chunk(3_999_999).is_none());
    assert_eq!(t.on_chunk(1).unwrap().downloaded, 8_000_000);
    assert!(t.on_chunk(2_000_000).is_none());
    let f = t.finish();
    assert!(f.done);
    assert_eq!(f.downloaded, 10_000_000);
}

#[test]
fn health_polling_decisions() {
    assert!(matches!(health_step(true, 100, 60), HealthStep::Ready));
    assert!(matches!(health_step(false, 60, 60), HealthStep::GiveUp));
    assert!(matches!(health_step(false, 59, 60), HealthStep::Retry));
}

#[test]
fn local_endpoints() {
    assert_eq!(health_url(11500), "http://127.0.0.1:11500/health");
    assert_eq!(embeddings_url(), "http://127.0.0.1:11501/v1/embeddings");
    assert_eq!(chat_url(), "http://127.0.0.1:11500/v1/chat/completions");
    assert_eq!(engine_model_name(), "Phi-3.5-mini-instruct");
}

#[test]
fn directory_choices() {
    assert!(matches!(choose_model_dir(true, true, true), ModelDirChoice::Override));
    assert!(matches!(choose_model_dir(false, true, true), ModelDirChoice::Bundled));
    assert!(matches!(choose_model_dir(false, false, true), ModelDirChoice::AppData));
    assert!(matches!(choose_model_dir(false, false, false), ModelDirChoice::Fallback));
    assert!(matches!(choose_engine_dir(true, false), EngineDirChoice::Override));
    assert!(matches!(choose_engine_dir(false, true), EngineDirChoice::Resources));
    assert!(matches!(choose_engine_dir(false, false), EngineDirChoice::Fallback));
}

#[test]
fn download_run_stops_at_the_first_error() {
    let mut run = DownloadRun::start(false, false);
    assert!(matches!(run.next_action(), DownloadAction::Fetch { ref file, .. } if file == CHAT_MODEL_FILE));
    run.record(Err("boom".to_string()));
    assert!(matches!(run.next_action(), DownloadAction::Failed { ref message } if message == "boom"));
    run.record(Ok(()));
    assert!(matches!(run.next_action(), DownloadAction::Failed { .. }));

    let mut ok = DownloadRun::start(true, false);
    assert!(matches!(ok.next_action(), DownloadAction::Fetch { ref file, .. } if file == EMBED_MODEL_FILE));
    ok.record(Ok(()));
    assert!(matches!(ok.next_action(), DownloadAction::Finished));
    assert!(matches!(DownloadRun::start(true, true).next_action(), DownloadAction::Finished));
}

use tranova::files::FileTranslationResult;
use tranova::jobs::{FileJobManager, SaveErrorKind};
use tranova::models::{
    AppData, FileJobState, FileOutputMode, HistoryEntry, Provider, ProxyMode, ReasoningParser,
};
use tranova::scheduler::{provider_limit, Priority, SchedulerState};
use tranova::store::AppStore;

fn translated_result() -> FileTranslationResult {
    FileTranslationResult {
        filename: "notes-translated.txt".to_string(),
        media_type: "text/plain".to_string(),
        content: b"translated".to_vec(),
        translated_segments: 1,
        skipped_segments: 0,
        total_segments: 1,
        total_batches: 1,
        failed_segments: 0,
        failed_batches: Vec::new(),
        retry_context: None,
    }
}

#[test]
fn completed_file_can_be_saved_and_reports_its_path() {
    let mut jobs = FileJobManager::new();
    let queued = jobs.create(
        "notes.txt",
        FileOutputMode::Translated,
        Some("C:\\source\\notes.txt".to_string()),
        "file-1".to_string(),
        "1700000000".to_string(),
    );
    jobs.complete(&queued.id, translated_result());
    let destination_text = "/tmp/tranova-job/nested/notes-translated.txt".to_string();
    let content = jobs.content_to_save(&queued.id, &destination_text).unwrap();
    assert_eq!(content, b"translated");
    let saved = jobs
        .record_saved_path(&queued.id, destination_text.clone())
        .unwrap();
    assert_eq!(
        saved.downloaded_path.as_deref(),
        Some(destination_text.as_str())
    );
    assert_eq!(saved.source_path.as_deref(), Some("C:\\source\\notes.txt"));
}

#[test]
fn jobs_move_through_their_states() {
    let mut jobs = FileJobManager::new();
    let first = jobs.create("a.txt", FileOutputMode::Bilingual, None, "file-1".to_string(), "1".to_string());
    assert_eq!(first.state, FileJobState::Queued);
    assert_eq!(first.stage, "queued");
    assert_eq!(first.result_filename, "a-translated.txt");
    assert_eq!(first.media_type, "text/plain");
    jobs.create("b.txt", FileOutputMode::Translated, None, "file-2".to_string(), "2".to_string());
    let listed: Vec<String> = jobs.list().into_iter().map(|status| status.id).collect();
    assert_eq!(listed, ["file-2", "file-1"]);
    assert!(jobs.download("file-1").is_none());
    jobs.mark_processing("file-1");
    assert_eq!(jobs.get("file-1").unwrap().state, FileJobState::Processing);
    jobs.fail("file-2", "broken".to_string());
    let failed = jobs.get("file-2").unwrap();
    assert_eq!(failed.state, FileJobState::Failed);
    assert_eq!(failed.error.as_deref(), Some("broken"));
    jobs.complete("file-1", translated_result());
    let (name, media, content) = jobs.download("file-1").unwrap();
    assert_eq!(
        (name.as_str(), media.as_str(), content.as_slice()),
        ("notes-translated.txt", "text/plain", b"translated".as_slice())
    );
    assert!(jobs.get("missing").is_none());
}

#[test]
fn saving_needs_a_path_and_a_completed_job() {
    let mut jobs = FileJobManager::new();
    jobs.create("a.txt", FileOutputMode::Translated, None, "file-1".to_string(), "1".to_string());
    let no_path = jobs.content_to_save("file-1", "").unwrap_err();
    assert_eq!(no_path.kind, SaveErrorKind::InvalidInput);
    assert_eq!(no_path.message, "A destination path is required");
    let incomplete = jobs.content_to_save("file-1", "/tmp/x").unwrap_err();
    assert_eq!(incomplete.kind, SaveErrorKind::InvalidInput);
    assert_eq!(incomplete.message, "File translation is not complete");
    let missing = jobs.content_to_save("nope", "/tmp/x").unwrap_err();
    assert_eq!(missing.kind, SaveErrorKind::NotFound);
    assert_eq!(missing.message, "File job was not found");
}

#[test]
fn retries_need_a_failed_batch() {
    let mut jobs = FileJobManager::new();
    jobs.create("a.txt", FileOutputMode::Translated, None, "file-1".to_string(), "1".to_string());
    jobs.complete("file-1", translated_result());
    assert!(jobs.begin_retry("file-1").is_err());
    assert!(jobs.begin_retry("nope").is_err());
}

fn provider(id: &str, max_concurrent: usize, text_translation_model: bool) -> Provider {
    Provider {
        id: id.to_string(),
        name: id.to_string(),
        base_url: "http://localhost".to_string(),
        model: "m".to_string(),
        reasoning_parser: ReasoningParser::default(),
        api_key: String::new(),
        proxy_mode: ProxyMode::Settings,
        enabled: true,
        supports_images: false,
        context_size: 32768,
        max_segments: 16,
        max_concurrent,
        text_translation_model,
    }
}

#[test]
fn provider_limits_leave_a_slot_for_text_translation() {
    let providers = vec![provider("shared", 3, true), provider("zero", 0, true)];
    assert_eq!(provider_limit(&providers, "shared", Priority::High), 3);
    assert_eq!(provider_limit(&providers, "shared", Priority::Low), 2);
    assert_eq!(provider_limit(&providers, "zero", Priority::Low), 1);
    assert_eq!(provider_limit(&providers, "unknown", Priority::Low), 2);
}

#[test]
fn urgent_work_starts_first_within_limits() {
    let providers = vec![provider("p", 1, false)];
    let mut state = SchedulerState::new();
    assert!(state.is_idle());
    state.enqueue(1, "p", Priority::Low);
    state.enqueue(2, "p", Priority::High);
    state.enqueue(3, "q", Priority::Low);
    let (ticket, id, priority) = state.next_runnable(&providers).unwrap();
    assert_eq!((ticket, id.as_str(), priority), (2, "p", Priority::High));
    let (ticket, _, priority) = state.next_runnable(&providers).unwrap();
    assert_eq!((ticket, priority), (3, Priority::Low));
    assert!(state.next_runnable(&providers).is_none());
    state.complete("p", Priority::High);
    let (ticket, _, _) = state.next_runnable(&providers).unwrap();
    assert_eq!(ticket, 1);
    state.complete("p", Priority::Low);
    state.complete("q", Priority::Low);
    assert!(state.is_idle());
}

#[test]
fn store_snapshots_copy_the_data() {
    let mut store = AppStore::new(AppData::default());
    let entry = HistoryEntry {
        id: "h1".to_string(),
        kind: "text".to_string(),
        source_language: "English".to_string(),
        target_language: "French".to_string(),
        source_text: "hi".to_string(),
        translated_text: "salut".to_string(),
        filename: None,
        provider: "p".to_string(),
        model: "m".to_string(),
        created_at: "1".to_string(),
    };
    store.add_history(entry).unwrap();
    let snapshot = store.snapshot();
    assert_eq!(snapshot.history.len(), 1);
    assert_eq!(snapshot.history[0].id, "h1");
    assert_eq!(snapshot.prompts.len(), 1);
    assert_eq!(store.settings().web_port, snapshot.settings.web_port);
    let (system, conversations) = store.logs();
    assert!(system.is_empty() && conversations.is_empty());
}

use tranova::models::{
    AppData, AppSettings, Glossary, GlossaryEntry, HistoryEntry, PromptTemplate, Provider,
    ProxyMode, ReasoningParser,
};
use tranova::store::{normalized_web_host, AppStore, HostCheck, StoreError};

fn message(error: StoreError) -> String {
    match error {
        StoreError::InvalidInput(m) => m,
    }
}

fn provider(id: &str, base_url: &str) -> Provider {
    Provider {
        id: id.to_string(),
        name: " Local ".to_string(),
        base_url: base_url.to_string(),
        model: " model ".to_string(),
        reasoning_parser: ReasoningParser::Auto,
        api_key: String::new(),
        proxy_mode: ProxyMode::Settings,
        enabled: true,
        supports_images: false,
        context_size: 10,
        max_segments: 5000,
        max_concurrent: 0,
        text_translation_model: false,
    }
}

fn entry(id: &str, text: &str) -> HistoryEntry {
    HistoryEntry {
        id: id.to_string(),
        kind: "text".to_string(),
        source_language: "English".to_string(),
        target_language: "German".to_string(),
        source_text: text.to_string(),
        translated_text: text.to_string(),
        filename: None,
        provider: "p".to_string(),
        model: "m".to_string(),
        created_at: "1".to_string(),
    }
}

#[test]
fn settings_can_be_saved_repeatedly_on_windows() {
    let mut store = AppStore::new(AppData::default());
    let mut settings = AppSettings {
        proxy_url: "http://127.0.0.1:8080".to_string(),
        ..AppSettings::default()
    };
    store.save_settings(settings.clone(), HostCheck::Loopback).unwrap();
    settings.proxy_url = "socks5h://127.0.0.1:1080".to_string();
    store.save_settings(settings, HostCheck::Loopback).unwrap();
    assert_eq!(store.settings().proxy_url, "socks5h://127.0.0.1:1080");
}

#[test]
fn settings_are_normalized_when_saved() {
    let mut store = AppStore::new(AppData::default());
    let settings = AppSettings {
        language: "fr".to_string(),
        web_host: " localhost ".to_string(),
        ai_timeout_seconds: 5,
        log_level: " WARN ".to_string(),
        custom_download_directory: "  /tmp/out  ".to_string(),
        ..AppSettings::default()
    };
    let saved = store.save_settings(settings, HostCheck::Loopback).unwrap();
    assert_eq!(saved.language, "en");
    assert_eq!(saved.web_host, "127.0.0.1");
    assert_eq!(saved.ai_timeout_seconds, 10);
    assert_eq!(saved.log_level, "warn");
    assert_eq!(saved.custom_download_directory, "/tmp/out");
    assert_eq!(store.settings().web_host, "127.0.0.1");
    let long = AppSettings { language: "zh-CN".to_string(), ai_timeout_seconds: 99_999, ..AppSettings::default() };
    let saved = store.save_settings(long, HostCheck::Loopback).unwrap();
    assert_eq!(saved.language, "zh-CN");
    assert_eq!(saved.ai_timeout_seconds, 3_600);
}

#[test]
fn settings_refuse_other_hosts_and_low_ports() {
    let mut store = AppStore::new(AppData::default());
    let invalid = store.save_settings(AppSettings::default(), HostCheck::Invalid).unwrap_err();
    assert_eq!(message(invalid), "Web access must use a loopback IP address");
    let remote = store.save_settings(AppSettings::default(), HostCheck::Remote).unwrap_err();
    assert_eq!(
        message(remote),
        "Web access is limited to this device for security; use 127.0.0.1 or ::1"
    );
    let low = AppSettings { web_port: 80, ..AppSettings::default() };
    let port = store.save_settings(low, HostCheck::Loopback).unwrap_err();
    assert_eq!(message(port), "Web port must be between 1024 and 65535");
    assert_eq!(store.settings().web_port, 48731);
    assert_eq!(normalized_web_host(" localhost "), "127.0.0.1");
    assert_eq!(normalized_web_host(" ::1 "), "::1");
}

#[test]
fn providers_are_validated_and_clamped() {
    let mut store = AppStore::new(AppData::default());
    let saved = store.save_provider(provider(" p1 ", " https://api.example.com/v1// ")).unwrap();
    assert_eq!(saved.id, "p1");
    assert_eq!(saved.name, "Local");
    assert_eq!(saved.base_url, "https://api.example.com/v1");
    assert_eq!(saved.model, "model");
    assert_eq!(saved.context_size, 1_024);
    assert_eq!(saved.max_segments, 1_024);
    assert_eq!(saved.max_concurrent, 1);
    assert_eq!(store.snapshot().providers.len(), 1);
    let again = store.save_provider(provider("p1", "http://other")).unwrap();
    assert_eq!(again.base_url, "http://other");
    assert_eq!(store.snapshot().providers.len(), 1);
    assert_eq!(store.provider("p1").unwrap().base_url, "http://other");

    let missing = store.save_provider(provider("  ", "http://x")).unwrap_err();
    assert_eq!(message(missing), "Provider id, name, API URL and model are required");
    let scheme = store.save_provider(provider("p2", "ftp://x")).unwrap_err();
    assert_eq!(message(scheme), "Provider URL must begin with http:// or https://");
    store.delete_provider("p1");
    assert!(store.snapshot().providers.is_empty());
}

#[test]
fn history_keeps_the_newest_first_without_duplicates() {
    let mut store = AppStore::new(AppData::default());
    store.add_history(entry("a", "one")).unwrap();
    store.add_history(entry("b", "two")).unwrap();
    store.add_history(entry("a", "three")).unwrap();
    let history = store.snapshot().history;
    assert_eq!(history.len(), 2);
    assert_eq!(history[0].id, "a");
    assert_eq!(history[0].source_text, "three");
    assert_eq!(history[1].id, "b");

    let long_text = "x".repeat(20_005);
    let stored = store.add_history(entry("c", &long_text)).unwrap();
    assert_eq!(stored.source_text.chars().count(), 20_000);

    let mut blank = entry(" ", "t");
    blank.id = "  ".to_string();
    let refused = store.add_history(blank).unwrap_err();
    assert_eq!(message(refused), "History entry languages and id are required");

    for i in 0..120 {
        store.add_history(entry(&format!("n{i}"), "t")).unwrap();
    }
    let history = store.snapshot().history;
    assert_eq!(history.len(), 100);
    assert_eq!(history[0].id, "n119");

    store.delete_history("n119");
    assert_eq!(store.snapshot().history[0].id, "n118");
    store.clear_history();
    assert!(store.snapshot().history.is_empty());
}

#[test]
fn glossaries_and_prompts_need_their_fields() {
    let mut store = AppStore::new(AppData::default());
    let glossary = Glossary {
        id: "g".to_string(),
        name: "Terms".to_string(),
        source_language: "English".to_string(),
        target_language: "German".to_string(),
        entries: vec![
            GlossaryEntry { source: "cat".to_string(), target: "Katze".to_string(), note: None },
            GlossaryEntry { source: " ".to_string(), target: "leer".to_string(), note: None },
        ],
        updated_at: "1".to_string(),
    };
    let saved = store.save_glossary(glossary).unwrap();
    assert_eq!(saved.entries.len(), 1);
    let unnamed = Glossary {
        id: "h".to_string(),
        name: " ".to_string(),
        source_language: String::new(),
        target_language: String::new(),
        entries: Vec::new(),
        updated_at: String::new(),
    };
    assert_eq!(message(store.save_glossary(unnamed).unwrap_err()), "Glossary name and id are required");
    store.delete_glossary("g");
    assert!(store.snapshot().glossaries.is_empty());

    let prompt = PromptTemplate {
        id: "mine".to_string(),
        name: "Mine".to_string(),
        content: " ".to_string(),
        updated_at: "1".to_string(),
    };
    assert_eq!(message(store.save_prompt(prompt).unwrap_err()), "Prompt id, name and content are required");
    store.delete_prompt("faithful-translation");
    assert_eq!(store.snapshot().prompts.len(), 1);
    assert_eq!(store.snapshot().prompts[0].id, "faithful-translation");
}

#[test]
fn imports_skip_incomplete_items_and_replace_by_id() {
    let mut store = AppStore::new(AppData::default());
    let prompt = |id: &str, content: &str| PromptTemplate {
        id: id.to_string(),
        name: "Name".to_string(),
        content: content.to_string(),
        updated_at: "2".to_string(),
    };
    store.replace_prompts(vec![
        prompt("faithful-translation", "Changed"),
        prompt("new", "New"),
        prompt("empty", " "),
    ]);
    let prompts = store.snapshot().prompts;
    assert_eq!(prompts.len(), 2);
    assert_eq!(prompts[0].content, "Changed");
    assert_eq!(prompts[1].id, "new");
}

#[test]
fn logs_are_written_only_when_enabled() {
    let mut store = AppStore::new(AppData::default());
    assert!(!store.add_system_log("error", "scope", "m".to_string(), "1".to_string(), "t".to_string()));
    let settings = AppSettings { logging_enabled: true, log_level: "warn".to_string(), ..AppSettings::default() };
    store.save_settings(settings, HostCheck::Loopback).unwrap();
    assert!(!store.add_system_log("info", "scope", "m".to_string(), "2".to_string(), "t".to_string()));
    assert!(!store.add_system_log(" ERROR ", "scope", "m".to_string(), "3".to_string(), "t".to_string()));
    assert!(store.add_system_log("error", " scope ", "m".to_string(), "4".to_string(), "t".to_string()));
    let (system, _) = store.logs();
    assert_eq!(system.len(), 1);
    assert_eq!(system[0].id, "4");
    assert_eq!(system[0].level, "error");
    assert_eq!(system[0].scope, "scope");
    assert_eq!(message(store.set_last_download_directory("  ").unwrap_err()), "A download directory is required");
    store.set_last_download_directory(" /tmp/files ").unwrap();
    assert_eq!(store.settings().last_download_directory, "/tmp/files");
}

use tranova::models::{default_reasoning_effort, DownloadLocation, FileOutputMode, TranslateOptions};

#[test]
fn settings_default_timeout_is_180_seconds() {
    assert_eq!(AppSettings::default().ai_timeout_seconds, 180);
    let settings = AppSettings::default();
    assert_eq!(settings.ai_timeout_seconds, 180);
    assert_eq!(settings.log_level, "info");
    assert_eq!(settings.web_host, "127.0.0.1");
    assert_eq!(settings.web_port, 48731);
    assert_eq!(settings.download_location, DownloadLocation::Source);
    assert!(settings.custom_download_directory.is_empty());
    assert!(!settings.auto_download_files && !settings.ask_download_location);
    assert_eq!(ProxyMode::default(), ProxyMode::Settings);
    assert_eq!(ReasoningParser::default(), ReasoningParser::Auto);
}

#[test]
fn file_translation_options_do_not_require_text() {
    let options = TranslateOptions {
        source_language: "en".to_string(),
        target_language: "zh".to_string(),
        provider_id: "provider".to_string(),
        prompt_id: None,
        glossary_ids: Vec::new(),
        reasoning_effort: default_reasoning_effort(),
        summarize: false,
        output_mode: FileOutputMode::default(),
    };
    let request = options.into_request();
    assert!(request.text.is_empty());
    assert_eq!(request.target_language, "zh");
    assert_eq!(request.reasoning_effort, "none");
    assert!(request.context_summary.is_none());
}

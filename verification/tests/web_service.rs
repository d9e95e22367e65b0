use tranova::ai::AiError;
use tranova::json::JsonValue;
use tranova::models::{TranslateRequest, TranslationResult};
use tranova::store::StoreError;
use tranova::web::{
    content_disposition, from_ai, from_store, history_for_file, history_for_text, import_items,
    import_kind, percent_encode, provider_test_message, provider_test_request, uploaded_filename,
    web_url, ImportKind,
};

#[test]
fn web_addresses_bracket_ipv6_hosts() {
    assert_eq!(web_url("127.0.0.1", 48731), "http://127.0.0.1:48731");
    assert_eq!(web_url("::1", 80), "http://[::1]:80");
}

#[test]
fn downloads_name_their_file_twice() {
    assert_eq!(percent_encode(b"a b~"), "a%20b~");
    assert_eq!(percent_encode("é".as_bytes()), "%C3%A9");
    assert_eq!(
        content_disposition("résumé 1.pdf"),
        "attachment; filename=\"r_sum__1.pdf\"; filename*=UTF-8''r%C3%A9sum%C3%A9%201.pdf"
    );
    assert_eq!(
        content_disposition(""),
        "attachment; filename=\"translation\"; filename*=UTF-8''"
    );
}

#[test]
fn uploads_keep_only_the_last_path_segment() {
    assert_eq!(uploaded_filename(Some("C:\\docs\\a.docx")), "a.docx");
    assert_eq!(uploaded_filename(Some("dir/b.txt")), "b.txt");
    assert_eq!(uploaded_filename(Some("plain.csv")), "plain.csv");
    assert_eq!(uploaded_filename(None), "document");
}

fn request() -> TranslateRequest {
    TranslateRequest {
        text: "hello".to_string(),
        source_language: "English".to_string(),
        target_language: "French".to_string(),
        provider_id: "p".to_string(),
        prompt_id: None,
        glossary_ids: Vec::new(),
        reasoning_effort: "none".to_string(),
        summarize: false,
        context_summary: None,
    }
}

#[test]
fn history_entries_record_what_was_translated() {
    let result = TranslationResult {
        translated_text: "bonjour".to_string(),
        provider: "Provider".to_string(),
        model: "m".to_string(),
    };
    let text = history_for_text(&request(), &result, "1-2".to_string(), "10".to_string());
    assert_eq!(text.kind, "text");
    assert_eq!(text.source_text, "hello");
    assert_eq!(text.translated_text, "bonjour");
    assert_eq!(text.provider, "Provider");
    let file = history_for_file(&request(), "a-translated.txt", "3-4".to_string(), "11".to_string());
    assert_eq!(file.kind, "file");
    assert_eq!(file.filename.as_deref(), Some("a-translated.txt"));
    assert_eq!(file.provider, "p");
    assert!(file.model.is_empty() && file.source_text.is_empty());
}

#[test]
fn refusals_carry_their_status() {
    let store = from_store(StoreError::InvalidInput("bad".to_string()));
    assert_eq!((store.status, store.message.as_str()), (400, "bad"));
    let ai = from_ai(&AiError::Request("down".to_string()));
    assert_eq!(
        (ai.status, ai.message.as_str()),
        (502, "Network request failed: down")
    );
}

#[test]
fn imports_take_an_array_or_an_export_object() {
    assert_eq!(import_kind("glossaries").unwrap(), ImportKind::Glossaries);
    assert_eq!(import_kind("prompts").unwrap(), ImportKind::Prompts);
    assert_eq!(import_kind("x").unwrap_err().message, "Unknown import type");
    let array = import_items(JsonValue::Array(Vec::new()), "prompts").unwrap();
    assert!(matches!(array, JsonValue::Array(_)));
    let object = JsonValue::Object(vec![(
        "prompts".to_string(),
        JsonValue::Array(vec![JsonValue::Null]),
    )]);
    assert!(matches!(import_items(object, "prompts").unwrap(), JsonValue::Array(items) if items.len() == 1));
    let missing = import_items(JsonValue::Object(Vec::new()), "glossaries").unwrap_err();
    assert_eq!(
        (missing.status, missing.message.as_str()),
        (400, "Expected a 'glossaries' array")
    );
    let other = import_items(JsonValue::Bool(true), "glossaries").unwrap_err();
    assert_eq!(other.message, "Expected a JSON array or export object");
}

#[test]
fn provider_tests_ask_for_ok() {
    let request = provider_test_request("p");
    assert_eq!(request.text, "Reply with OK only.");
    assert_eq!(request.source_language, "English");
    assert_eq!(provider_test_message("Local"), "Local responded successfully");
}

use tranova::web::{dropped_file, dropped_file_check, MAX_FILE_BYTES};

#[test]
fn dropped_files_are_checked_and_encoded() {
    assert_eq!(dropped_file_check(false, 1), Err("Dropped path is not a file".to_string()));
    assert_eq!(
        dropped_file_check(true, MAX_FILE_BYTES + 1),
        Err("Dropped file exceeds the 75 MB limit".to_string())
    );
    assert_eq!(dropped_file_check(true, MAX_FILE_BYTES), Ok(()));
    assert_eq!(MAX_FILE_BYTES, 75 * 1024 * 1024);
    let file = dropped_file(Some("notes.txt"), b"hi");
    assert_eq!(file.name, "notes.txt");
    assert_eq!(file.content_base64, "aGk=");
    let unnamed = dropped_file(None, b"");
    assert_eq!(unnamed.name, "document");
    assert_eq!(unnamed.content_base64, "");
}

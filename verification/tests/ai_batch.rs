use tranova::ai::{
    document_summary_request, parse_batch_response, truncate_document_summary,
    MAX_DOCUMENT_SUMMARY_CHARS, SEGMENT_SEPARATOR,
};
use tranova::models::TranslateRequest;

#[test]
fn batch_response_uses_a_plain_delimiter() {
    let response = format!("one{SEGMENT_SEPARATOR}two{SEGMENT_SEPARATOR}");
    assert_eq!(parse_batch_response(&response, 2).unwrap(), ["one", "two"]);
    assert_eq!(
        parse_batch_response(&format!(" {response} \n"), 2).unwrap(),
        ["one", "two"]
    );
    assert_eq!(
        parse_batch_response(&response.replace('\n', "\r\n"), 2).unwrap(),
        ["one", "two"]
    );
    assert!(parse_batch_response("one\ntwo", 2).is_err());
}

#[test]
fn document_summary_preserves_reasoning_setting() {
    let request = TranslateRequest {
        text: "original".to_string(),
        source_language: "English".to_string(),
        target_language: "Chinese".to_string(),
        provider_id: "provider".to_string(),
        prompt_id: None,
        glossary_ids: Vec::new(),
        reasoning_effort: "high".to_string(),
        summarize: true,
        context_summary: Some("previous note".to_string()),
    };

    let summary = document_summary_request(&request, "document sample");

    assert_eq!(summary.text, "document sample");
    assert_eq!(summary.reasoning_effort, "high");
    assert!(summary.context_summary.is_none());
}

#[test]
fn document_summary_is_trimmed_locally_when_too_long() {
    let long_summary = format!("{} final detail", "topic ".repeat(100));
    let summary = truncate_document_summary(&long_summary);

    assert!(summary.ends_with("..."));
    assert!(summary.chars().count() <= MAX_DOCUMENT_SUMMARY_CHARS + 3);
}

use tranova::ai::{
    batch_instruction, bearer_key, build_messages, compose_messages, contains_segment_separator,
    enabled_provider, endpoint, prepare_batch, reasoning_requested, validate_languages, AiError,
};
use tranova::models::{AppData, Glossary, GlossaryEntry, PromptTemplate, Provider, ProxyMode, ReasoningParser};

fn german(text: &str) -> TranslateRequest {
    TranslateRequest {
        text: text.to_string(),
        source_language: "English".to_string(),
        target_language: "German".to_string(),
        provider_id: "p".to_string(),
        prompt_id: None,
        glossary_ids: vec!["g".to_string()],
        reasoning_effort: "none".to_string(),
        summarize: false,
        context_summary: None,
    }
}

fn message_of(error: AiError) -> String {
    match error {
        AiError::Message(m) => m,
        AiError::Request(m) => format!("request: {m}"),
        AiError::BatchFormat(m) => format!("format: {m}"),
    }
}

#[test]
fn joined_segments_are_read_back_in_order() {
    let texts = ["first line", " second ", "third\nwith two lines"];
    let reply = texts.join(SEGMENT_SEPARATOR);
    assert_eq!(
        parse_batch_response(&reply, 3).unwrap(),
        ["first line", "second", "third\nwith two lines"]
    );
    let short = parse_batch_response(&texts[..2].join(SEGMENT_SEPARATOR), 3).unwrap_err();
    assert_eq!(
        message_of(short),
        "format: AI returned 2 separated segments for 3 input segments"
    );
}

#[test]
fn batches_are_prepared_from_segments_without_the_separator() {
    let request = german("");
    assert!(prepare_batch(&request, &Vec::new()).unwrap().is_none());
    let texts = vec!["one".to_string(), "two".to_string()];
    let plan = prepare_batch(&request, &texts).unwrap().unwrap();
    assert_eq!(plan.request.text, format!("one{SEGMENT_SEPARATOR}two"));
    assert_eq!(plan.instruction, batch_instruction(2));
    assert!(plan.instruction.starts_with("The user input contains 2 independent segments"));
    let with_marker = vec![format!("a{}b", SEGMENT_SEPARATOR.replace('\n', "\r\n"))];
    assert!(contains_segment_separator(&with_marker[0]));
    let refused = prepare_batch(&request, &with_marker).unwrap_err();
    assert_eq!(message_of(refused), "format: A source segment contains the batch separator");
    let mut no_language = german("");
    no_language.target_language = " ".to_string();
    let refused = prepare_batch(&no_language, &texts).unwrap_err();
    assert_eq!(message_of(refused), "Source and target languages are required");
    assert!(validate_languages(&german("")).is_ok());
}

fn data_with_glossary() -> AppData {
    let mut data = AppData::default();
    data.glossaries.push(Glossary {
        id: "g".to_string(),
        name: "Animals".to_string(),
        source_language: "English".to_string(),
        target_language: "German".to_string(),
        entries: vec![
            GlossaryEntry { source: "cat".to_string(), target: "Katze".to_string(), note: Some("animal".to_string()) },
            GlossaryEntry { source: "dog".to_string(), target: "Hund".to_string(), note: Some(" ".to_string()) },
        ],
        updated_at: "1".to_string(),
    });
    data.prompts.push(PromptTemplate {
        id: "inline".to_string(),
        name: "Inline".to_string(),
        content: "Translate {{source_language}} to {{target_language}}: {{text}}".to_string(),
        updated_at: "1".to_string(),
    });
    data
}

#[test]
fn messages_render_the_prompt_and_glossary() {
    let data = data_with_glossary();
    let (system, user) = build_messages(&data, &german("Hello"));
    assert!(system.starts_with("Translate"));
    assert_eq!(
        &system["Translate".len()..],
        " from English to German. Preserve the original meaning, formatting and markup. Return only the translation.\n\n- cat => Katze (animal)\n- dog => Hund"
    );
    assert_eq!(user, "Text to translate:\nHello");

    let mut faithful = german("Hello");
    faithful.prompt_id = Some("faithful-translation".to_string());
    faithful.glossary_ids.clear();
    faithful.context_summary = Some("A letter".to_string());
    let (system, _) = build_messages(&data, &faithful);
    assert!(system.starts_with("Translate faithfully from English to German."));
    assert!(system.ends_with("No special terminology.\n\nTranslation context summary:\nA letter"));

    let mut inline = german("Hello");
    inline.prompt_id = Some("inline".to_string());
    let (system, user) = compose_messages(&data, &inline, Some("Extra"));
    assert_eq!(system, "Translate English to German: \n\nExtra");
    assert_eq!(user, "Translate English to German: Hello");
}

fn provider(id: &str, enabled: bool) -> Provider {
    Provider {
        id: id.to_string(),
        name: "Name".to_string(),
        base_url: "http://localhost".to_string(),
        model: "m".to_string(),
        reasoning_parser: ReasoningParser::Auto,
        api_key: String::new(),
        proxy_mode: ProxyMode::Direct,
        enabled,
        supports_images: false,
        context_size: 32768,
        max_segments: 16,
        max_concurrent: 2,
        text_translation_model: false,
    }
}

#[test]
fn requests_go_to_an_enabled_provider_endpoint() {
    let mut data = AppData::default();
    data.providers.push(provider("off", false));
    data.providers.push(provider("on", true));
    assert_eq!(enabled_provider(&data, "on").unwrap().id, "on");
    let refused = enabled_provider(&data, "off").unwrap_err();
    assert_eq!(message_of(refused), "Selected AI provider does not exist or is disabled");
    assert!(enabled_provider(&data, "missing").is_err());
    assert_eq!(endpoint(" https://api.example.com/v1/ ", "/responses"), "https://api.example.com/v1/responses");
    assert_eq!(endpoint("https://api.example.com/v1/responses", "/responses"), "https://api.example.com/v1/responses");
    assert_eq!(bearer_key("  key  "), Some("key".to_string()));
    assert_eq!(bearer_key("   "), None);
    assert!(reasoning_requested("high"));
    assert!(!reasoning_requested("none"));
    assert!(!reasoning_requested(""));
}

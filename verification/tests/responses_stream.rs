use tranova::ai::AiError;
use tranova::json::JsonValue;
use tranova::models::{Provider, ProxyMode, ReasoningParser, TranslateRequest};
use tranova::responses::{
    append_response_value, append_stream_event, client_plan, decode_responses_image,
    image_format_matches, image_output_format, image_reply, image_request, model_list,
    provider_error, provider_reply, request_error, request_retry_delay, response_excerpt,
    responses_request_body, stream_line, stream_outcome, take_lines, translation_reply,
    RequestFailure, StreamLine,
};

fn to_json(value: &serde_json::Value) -> JsonValue {
    match value {
        serde_json::Value::Null => JsonValue::Null,
        serde_json::Value::Bool(b) => JsonValue::Bool(*b),
        serde_json::Value::Number(n) => JsonValue::Number(n.to_string()),
        serde_json::Value::String(s) => JsonValue::Str(s.clone()),
        serde_json::Value::Array(items) => JsonValue::Array(items.iter().map(to_json).collect()),
        serde_json::Value::Object(entries) => JsonValue::Object(
            entries
                .iter()
                .map(|(key, item)| (key.clone(), to_json(item)))
                .collect(),
        ),
    }
}

fn parse(text: &str) -> JsonValue {
    to_json(&serde_json::from_str::<serde_json::Value>(text).unwrap())
}

fn append_response_stream_line(line: &[u8], content: &mut String) -> Result<(), AiError> {
    match stream_line(line)? {
        StreamLine::Ignored => Ok(()),
        StreamLine::Payload(payload) => {
            let value = parse(&payload);
            append_stream_event(&value, content).map(|_| ())
        }
    }
}

#[test]
fn responses_stream_accumulates_output_text_deltas() {
    let mut content = String::new();
    append_response_stream_line(
        br#"data: {"type":"response.output_text.delta","delta":"Hel"}"#,
        &mut content,
    )
    .unwrap();
    append_response_stream_line(
        br#"data: {"type":"response.output_text.delta","delta":"lo"}"#,
        &mut content,
    )
    .unwrap();
    assert_eq!(content, "Hello");
}

#[test]
fn responses_stream_ignores_reasoning_deltas() {
    let mut content = String::new();
    append_response_stream_line(
        br#"data: {"type":"response.reasoning_summary_text.delta","delta":"internal"}"#,
        &mut content,
    )
    .unwrap();
    append_response_stream_line(
        br#"data: {"type":"response.output_text.delta","delta":"visible"}"#,
        &mut content,
    )
    .unwrap();
    assert_eq!(content, "visible");
}

#[test]
fn responses_completion_output_is_supported() {
    let mut content = String::new();
    append_response_stream_line(br#"data: {"type":"response.completed","response":{"output":[{"content":[{"type":"output_text","text":"done"}]}]}}"#, &mut content).unwrap();
    assert_eq!(content, "done");
}

#[test]
fn responses_error_events_are_reported() {
    let error = append_response_stream_line(
        br#"data: {"type":"error","error":{"message":"provider stopped"}}"#,
        &mut String::new(),
    )
    .unwrap_err();
    assert_eq!(error.display_text(), "provider stopped");
}

#[test]
fn responses_image_generation_result_is_decoded() {
    let response = parse(r#"{"output":[{"type":"image_generation_call","result":"aGVsbG8="}]}"#);
    assert_eq!(decode_responses_image(&response).unwrap(), b"hello");
}

#[test]
fn stream_lines_skip_comments_events_and_done() {
    assert!(matches!(stream_line(b"").unwrap(), StreamLine::Ignored));
    assert!(matches!(stream_line(b"  : keep-alive").unwrap(), StreamLine::Ignored));
    assert!(matches!(stream_line(b"event: message").unwrap(), StreamLine::Ignored));
    assert!(matches!(stream_line(b"data: [DONE]").unwrap(), StreamLine::Ignored));
    assert!(matches!(stream_line(b"data:   ").unwrap(), StreamLine::Ignored));
    match stream_line(b"data:  {\"a\":1} \r\n").unwrap() {
        StreamLine::Payload(p) => assert_eq!(p, "{\"a\":1}"),
        StreamLine::Ignored => panic!("payload expected"),
    }
    match stream_line(b"{\"b\":2}").unwrap() {
        StreamLine::Payload(p) => assert_eq!(p, "{\"b\":2}"),
        StreamLine::Ignored => panic!("payload expected"),
    }
    let error = stream_line(&[0x64, 0xff, 0xfe]).unwrap_err();
    assert!(error
        .display_text()
        .starts_with("Responses API returned invalid UTF-8: "));
}

#[test]
fn whole_output_text_is_used_only_before_any_delta() {
    let value = parse(r#"{"output_text":"whole"}"#);
    let mut content = String::new();
    let reports = append_response_value(&value, &mut content);
    assert_eq!(content, "whole");
    assert_eq!(reports, ["whole"]);
    let mut started = String::from("partial");
    let reports = append_response_value(&value, &mut started);
    assert_eq!(started, "partial");
    assert!(reports.is_empty());
    let done = parse(r#"{"type":"response.output_text.done","text":"final"}"#);
    let mut content = String::new();
    append_response_value(&done, &mut content);
    assert_eq!(content, "final");
    let untyped_delta = parse(r#"{"delta":"x"}"#);
    let mut content = String::from("a");
    let reports = append_response_value(&untyped_delta, &mut content);
    assert_eq!(content, "ax");
    assert_eq!(reports, ["ax"]);
}

#[test]
fn output_parts_are_reported_one_by_one() {
    let value = parse(
        r#"{"output":[{"content":[{"type":"output_text","text":"a"},{"type":"refusal","text":"no"},{"type":"output_text","text":"b"}]},{"content":"none"}]}"#,
    );
    let mut content = String::new();
    let reports = append_response_value(&value, &mut content);
    assert_eq!(content, "ab");
    assert_eq!(reports, ["a", "ab"]);
}

#[test]
fn error_events_fall_back_to_their_message_or_a_fixed_text() {
    let mut content = String::from("kept");
    let error = append_stream_event(&parse(r#"{"type":"error","message":"plain"}"#), &mut content)
        .unwrap_err();
    assert_eq!(error.display_text(), "plain");
    assert_eq!(content, "kept");
    let error = append_stream_event(&parse(r#"{"type":"error"}"#), &mut content).unwrap_err();
    assert_eq!(error.display_text(), "Responses API returned an error event");
}

#[test]
fn images_in_data_urls_and_missing_images() {
    let value = parse(
        r#"{"response":{"output":[{"type":"image_generation_call"},{"type":"image_generation_call","result":"data:image/png;base64, aGk= "}]}}"#,
    );
    assert_eq!(decode_responses_image(&value).unwrap(), b"hi");
    let missing = decode_responses_image(&parse(r#"{"output":[]}"#)).unwrap_err();
    assert_eq!(
        missing.display_text(),
        "Responses API response did not contain an image_generation_call result"
    );
    let invalid = decode_responses_image(&parse(
        r#"{"output":[{"type":"image_generation_call","result":"@@@"}]}"#,
    ))
    .unwrap_err();
    assert!(invalid
        .display_text()
        .starts_with("Responses API returned invalid image base64 data: "));
}

#[test]
fn provider_errors_name_the_status_and_message() {
    assert_eq!(
        provider_error(&parse(r#"{"error":{"message":"quota"}}"#), 429),
        "Provider returned HTTP 429: quota"
    );
    assert_eq!(
        provider_error(&parse(r#"{"error":"bad key"}"#), 401),
        "Provider returned HTTP 401: bad key"
    );
    assert_eq!(
        provider_error(&parse(r#"{"message":"down"}"#), 503),
        "Provider returned HTTP 503: down"
    );
    assert_eq!(provider_error(&parse("[]"), 500), "Provider returned HTTP 500");
}

#[test]
fn excerpts_are_cut_at_two_thousand_characters() {
    assert_eq!(response_excerpt("short"), "short");
    let long = "é".repeat(2001);
    let excerpt = response_excerpt(&long);
    assert_eq!(excerpt.chars().count(), 2003);
    assert!(excerpt.ends_with("é..."));
}

#[test]
fn provider_replies_are_checked() {
    let ok = provider_reply(200, "200 OK", None, "{}", Ok(parse("{}")), "P").unwrap();
    assert!(matches!(ok, JsonValue::Object(_)));
    let refused = provider_reply(
        404,
        "404 Not Found",
        Some("text/html"),
        "<html>",
        Err("expected value".to_string()),
        "P",
    )
    .unwrap_err();
    assert_eq!(
        refused.display_text(),
        "P returned HTTP 404 Not Found (Content-Type: text/html): <html>"
    );
    let json_refusal = provider_reply(
        500,
        "500 Internal Server Error",
        None,
        "",
        Ok(parse(r#"{"message":"boom"}"#)),
        "P",
    )
    .unwrap_err();
    assert_eq!(json_refusal.display_text(), "Provider returned HTTP 500: boom");
    let invalid = provider_reply(200, "200 OK", None, "x", Err("eof".to_string()), "P").unwrap_err();
    assert_eq!(
        invalid.display_text(),
        "P returned invalid JSON (HTTP 200 OK, Content-Type: unknown): eof; response body: x"
    );
}

#[test]
fn model_lists_keep_usable_ids_and_context_sizes() {
    let models = model_list(&parse(
        r#"{"data":[{"id":" a ","context_length":8192},{"id":" "},{"id":"b","metadata":{"context_length":4096}},{"id":"c","context_window":"12"},{"id":"d","max_model_len":1.5}]}"#,
    ))
    .unwrap();
    let listed: Vec<(String, Option<usize>)> = models
        .into_iter()
        .map(|model| (model.id, model.context_size))
        .collect();
    assert_eq!(
        listed,
        [
            ("a".to_string(), Some(8192)),
            ("b".to_string(), Some(4096)),
            ("c".to_string(), None),
            ("d".to_string(), None)
        ]
    );
    let none = model_list(&parse(r#"{"data":[{"name":"x"}]}"#)).unwrap_err();
    assert_eq!(none.display_text(), "The provider returned no usable models");
    let missing = model_list(&parse(r#"{"models":[]}"#)).unwrap_err();
    assert_eq!(
        missing.display_text(),
        "Model discovery response did not contain data"
    );
}

#[test]
fn image_formats_follow_the_file_extension() {
    assert_eq!(image_output_format("a.PNG").unwrap(), "png");
    assert_eq!(image_output_format("a.jpg").unwrap(), "jpeg");
    assert_eq!(image_output_format("a.webp").unwrap(), "webp");
    assert_eq!(
        image_output_format("a.gif").unwrap_err().display_text(),
        "Unsupported image format"
    );
    assert!(image_format_matches("a.png", b"\x89PNG\r\n\x1a\nrest"));
    assert!(!image_format_matches("a.png", b"\xff\xd8\xff"));
    assert!(image_format_matches("a.jpeg", b"\xff\xd8\xff\xe0"));
    assert!(image_format_matches("a.webp", b"RIFF1234WEBPVP8 "));
    assert!(!image_format_matches("a.webp", b"RIFF1234WEB"));
    assert!(!image_format_matches("a.gif", b"GIF89a"));
}

fn provider(supports_images: bool) -> Provider {
    Provider {
        id: "p".to_string(),
        name: "Provider".to_string(),
        base_url: "http://localhost".to_string(),
        model: "m".to_string(),
        reasoning_parser: ReasoningParser::default(),
        api_key: String::new(),
        proxy_mode: ProxyMode::Settings,
        enabled: true,
        supports_images,
        context_size: 8192,
        max_segments: 8,
        max_concurrent: 2,
        text_translation_model: false,
    }
}

fn request() -> TranslateRequest {
    TranslateRequest {
        text: String::new(),
        source_language: "English".to_string(),
        target_language: "French".to_string(),
        provider_id: "p".to_string(),
        prompt_id: None,
        glossary_ids: Vec::new(),
        reasoning_effort: "none".to_string(),
        summarize: false,
        context_summary: None,
    }
}

#[test]
fn image_requests_embed_the_image_and_ask_for_its_format() {
    let refused = image_request(&provider(false), &request(), "a.png", b"x").unwrap_err();
    assert_eq!(
        refused.display_text(),
        "Selected provider does not support image input/output"
    );
    let planned = image_request(&provider(true), &request(), "a.png", b"hello").unwrap();
    assert_eq!(planned.output_format, "png");
    assert!(planned
        .log_text
        .starts_with("IMAGE: a.png (image/png, 5 bytes)\n\nINSTRUCTION:\nTranslate every readable text element in this image from English to French."));
    let JsonValue::Object(entries) = &planned.body else {
        panic!("object expected")
    };
    assert_eq!(entries[0].0, "model");
    let JsonValue::Array(input) = &entries[1].1 else {
        panic!("array expected")
    };
    let JsonValue::Object(message) = &input[0] else {
        panic!("object expected")
    };
    let JsonValue::Array(parts) = &message[1].1 else {
        panic!("array expected")
    };
    let JsonValue::Object(image) = &parts[1] else {
        panic!("object expected")
    };
    match &image[1].1 {
        JsonValue::Str(url) => assert_eq!(url, "data:image/png;base64,aGVsbG8="),
        _ => panic!("string expected"),
    }
}

#[test]
fn image_replies_must_match_the_requested_format() {
    let reply = parse(r#"{"output":[{"type":"image_generation_call","result":"aGVsbG8="}]}"#);
    let error = image_reply(&reply, "a.png", "png").unwrap_err();
    assert_eq!(
        error.display_text(),
        "Image provider did not return the requested png format"
    );
}

#[test]
fn request_bodies_carry_reasoning_only_when_asked() {
    let JsonValue::Object(plain) = responses_request_body("m", "sys", "user", "none") else {
        panic!("object expected")
    };
    assert_eq!(plain.len(), 4);
    let JsonValue::Object(reasoning) = responses_request_body("m", "sys", "user", "high") else {
        panic!("object expected")
    };
    assert_eq!(reasoning.len(), 5);
    assert_eq!(reasoning[4].0, "reasoning");
}

#[test]
fn replies_are_trimmed_and_must_not_be_empty() {
    assert_eq!(translation_reply(Ok("  hi \n".to_string())).unwrap(), "hi");
    assert_eq!(
        translation_reply(Ok(" \n".to_string()))
            .unwrap_err()
            .display_text(),
        "The AI provider returned an empty response"
    );
    assert_eq!(
        stream_outcome(String::new(), None).unwrap_err().display_text(),
        "Responses API returned no output text"
    );
    assert_eq!(
        stream_outcome("x".to_string(), Some(AiError::Message("first".to_string())))
            .unwrap_err()
            .display_text(),
        "first"
    );
}

#[test]
fn received_bytes_are_cut_into_lines() {
    let mut pending = b"a\nbc\r\nrest".to_vec();
    let lines = take_lines(&mut pending);
    assert_eq!(lines, [b"a\n".to_vec(), b"bc\r\n".to_vec()]);
    assert_eq!(pending, b"rest");
}

#[test]
fn clients_follow_the_proxy_mode_and_timeouts() {
    let plan = client_plan(ProxyMode::Settings, "  http://proxy:8080 ", 0, true);
    assert!(plan.no_proxy);
    assert_eq!(plan.proxy.as_deref(), Some("http://proxy:8080"));
    assert_eq!(plan.timeout_seconds, 1);
    let system = client_plan(ProxyMode::System, "http://ignored", 30, false);
    assert!(!system.no_proxy);
    assert!(system.proxy.is_none());
    let direct = client_plan(ProxyMode::Direct, "http://ignored", 30, false);
    assert!(direct.no_proxy && direct.proxy.is_none());
}

#[test]
fn request_failures_are_categorized_and_retried() {
    let connect = RequestFailure {
        timeout: false,
        connect: true,
        request: false,
        body: false,
        decode: false,
    };
    let timeout = RequestFailure {
        timeout: true,
        ..connect
    };
    assert_eq!(
        request_error("op", connect, "refused").display_text(),
        "Network request failed: op [connect]: refused"
    );
    assert_eq!(
        request_error("op", timeout, "slow").display_text(),
        "Network request failed: op [timeout]: slow"
    );
    assert_eq!(request_retry_delay(connect, 1), Some(250));
    assert_eq!(request_retry_delay(connect, 2), Some(500));
    assert_eq!(request_retry_delay(connect, 3), None);
    assert_eq!(request_retry_delay(timeout, 1), None);
}

#[test]
fn image_editing_replies_carry_b64_json() {
    let value = parse(r#"{"data":[{"b64_json":"aGVsbG8="}]}"#);
    assert_eq!(decode_responses_image(&value).unwrap(), b"hello".to_vec());
    let output_first = parse(
        r#"{"output":[{"type":"image_generation_call","result":"aGk="}],"data":[{"b64_json":"aGVsbG8="}]}"#,
    );
    assert_eq!(decode_responses_image(&output_first).unwrap(), b"hi".to_vec());
    let empty = decode_responses_image(&parse(r#"{"data":[]}"#)).unwrap_err();
    assert_eq!(
        empty.display_text(),
        "Responses API response did not contain an image_generation_call result"
    );
}

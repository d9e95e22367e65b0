use std::collections::HashMap;

use tranova::ai::AiError;
use tranova::files::{
    apply_batch_result, assemble_fragments, file_provider, plan_fragments, summary_error,
    BatchOutcome, BatchState, Counts, FileError,
};
use tranova::models::{FileOutputMode, Provider, ProxyMode, ReasoningParser};

fn provider(enabled: bool) -> Provider {
    Provider {
        id: "p".to_string(),
        name: "P".to_string(),
        base_url: "http://localhost:1234/v1".to_string(),
        model: "m".to_string(),
        reasoning_parser: ReasoningParser::Auto,
        api_key: String::new(),
        proxy_mode: ProxyMode::Settings,
        enabled,
        supports_images: false,
        context_size: 4096,
        max_segments: 8,
        max_concurrent: 2,
        text_translation_model: false,
    }
}

fn message(error: FileError) -> String {
    match error {
        FileError::Message(m) => m,
        other => panic!("unexpected error {other:?}"),
    }
}

#[test]
fn only_an_enabled_provider_translates_files() {
    assert_eq!(file_provider(Some(provider(true))).unwrap().id, "p");
    assert_eq!(
        message(file_provider(Some(provider(false))).unwrap_err()),
        "Selected AI provider does not exist or is disabled"
    );
    assert_eq!(
        message(file_provider(None).unwrap_err()),
        "Selected AI provider does not exist or is disabled"
    );
}

#[test]
fn a_failed_summary_names_the_ai_error() {
    let error = summary_error(&AiError::Request("timeout".to_string()));
    assert_eq!(message(error), "Unable to summarize document: Network request failed: timeout");
    let error = summary_error(&AiError::Message("no".to_string()));
    assert_eq!(message(error), "Unable to summarize document: no");
}

#[test]
fn batch_numbers_are_not_handed_out_twice_in_a_file() {
    let mut state = BatchState::with_cache(HashMap::new());
    assert_eq!(state.reserve_batch_ids(3), 0);
    state.mark_batch_ids_used(5);
    assert_eq!(state.reserve_batch_ids(2), 5);
    state.mark_batch_ids_used(4);
    assert_eq!(state.next_batch_id, 7);
    assert_eq!(state.reserve_batch_ids(0), 7);
}

#[test]
fn failed_segments_are_those_of_the_failed_batches() {
    let mut state = BatchState::with_cache(HashMap::new());
    let mut counts = Counts::starting("translating");
    counts.total_segments = 5;
    let mut results = vec![String::new(); 5];
    let failed = BatchOutcome {
        batch_id: 0,
        indexes: vec![0, 1],
        texts: vec!["a".to_string(), "b".to_string()],
        attempts: 3,
        result: Err("bad".to_string()),
    };
    apply_batch_result(&mut state, &mut counts, failed, &mut results);
    let done = BatchOutcome {
        batch_id: 1,
        indexes: vec![2, 3],
        texts: vec!["c".to_string(), "d".to_string()],
        attempts: 1,
        result: Ok(vec!["C".to_string(), "D".to_string()]),
    };
    apply_batch_result(&mut state, &mut counts, done, &mut results);
    let failed_again = BatchOutcome {
        batch_id: 2,
        indexes: vec![4],
        texts: vec!["e".to_string()],
        attempts: 3,
        result: Err("bad".to_string()),
    };
    apply_batch_result(&mut state, &mut counts, failed_again, &mut results);
    let recorded: usize = state.failed_batches.iter().map(|f| f.segment_count).sum();
    assert_eq!(counts.failed, 3);
    assert_eq!(recorded, counts.failed);
    assert_eq!(counts.translated + counts.failed, counts.total_segments);
    assert_eq!(results, vec!["a", "b", "C", "D", "e"]);
}

#[test]
fn translating_every_piece_into_itself_gives_the_fragments_back() {
    let fragments = vec![
        "  Hello world \n".to_string(),
        "   ".to_string(),
        String::new(),
        "Second paragraph".to_string(),
        "\t".to_string(),
    ];
    let (planned, pending, blank) = plan_fragments(fragments.clone(), 100);
    assert_eq!(blank, 3);
    let results = pending.iter().map(|part| part.text.clone()).collect::<Vec<_>>();
    let output = assemble_fragments(planned, &results, FileOutputMode::Translated);
    assert_eq!(output, fragments);
}

use tranova::ai::SEGMENT_SEPARATOR;
use tranova::files::{
    make_batches, partial_batch_item_count, render_fragment, split_chunks,
    surrounding_whitespace, PendingPart,
};
use tranova::models::FileOutputMode;

#[test]
fn splitting_preserves_all_content() {
    let source = "word ".repeat(100);
    let chunks = split_chunks(&source, 25);
    assert_eq!(chunks.concat(), source);
    assert!(chunks.iter().all(|chunk| chunk.chars().count() <= 25));
}

#[test]
fn chunk_whitespace_can_be_restored_after_ai_trimming() {
    let (leading, content, trailing) = surrounding_whitespace("  translate me \n");
    assert_eq!(
        (leading.as_str(), content.as_str(), trailing.as_str()),
        ("  ", "translate me", " \n")
    );
    let (leading, content, trailing) = surrounding_whitespace("   ");
    assert_eq!(
        (leading.as_str(), content.as_str(), trailing.as_str()),
        ("   ", "", "")
    );
}

#[test]
fn bilingual_output_keeps_source_and_translation_whitespace() {
    assert_eq!(
        render_fragment("  hello ", "你好", FileOutputMode::Bilingual),
        "  hello\n  你好 "
    );
    assert_eq!(
        render_fragment("  hello ", "你好", FileOutputMode::Translated),
        "  你好 "
    );
}

#[test]
fn small_batch_work_is_balanced_across_file_slots() {
    let pending = (0..4)
        .map(|index| PendingPart {
            result_index: index,
            text: format!("segment-{index}"),
            force_single: false,
        })
        .collect();
    let batches = make_batches(pending, 1_000, 16, 2);
    assert_eq!(batches.len(), 2);
    assert_eq!(batches.iter().map(Vec::len).collect::<Vec<_>>(), [2, 2]);
}

#[test]
fn streaming_batch_count_tracks_the_current_segment() {
    assert_eq!(partial_batch_item_count(""), 0);
    assert_eq!(partial_batch_item_count("first"), 1);
    assert_eq!(
        partial_batch_item_count(&format!("first{SEGMENT_SEPARATOR}")),
        1
    );
    assert_eq!(
        partial_batch_item_count(&format!("first{SEGMENT_SEPARATOR}second")),
        2
    );
}

use tranova::files::{file_kind, output_filename, FileKind, OfficeKind};

#[test]
fn translated_files_keep_their_kind() {
    for name in ["report.docx", "deck.PPTX", "sheet.xlsx", "notes.md", "subs.srt", "scan.webp", "a.b.json"] {
        let translated = output_filename(name);
        assert!(file_kind(name).is_some());
        assert_eq!(file_kind(&translated), file_kind(name));
    }
    assert_eq!(output_filename("a.b.json"), "a.b-translated.json");
    assert_eq!(file_kind("deck.PPTX"), Some(FileKind::Office(OfficeKind::PowerPoint)));
    assert_eq!(output_filename(".hidden"), ".hidden-translated");
    assert_eq!(output_filename("README"), "README-translated");
    assert!(file_kind("archive.zip").is_none());
}

use tranova::files::{assemble_fragments, plan_fragments};

#[test]
fn identity_translation_gives_the_fragments_back() {
    let fragments = vec![
        "  Hello world.  ".to_string(),
        "   ".to_string(),
        format!("{} end\n", "word ".repeat(80)),
        String::new(),
    ];
    let (planned, pending, blank) = plan_fragments(fragments.clone(), 64);
    assert_eq!(blank, 2);
    assert!(pending.len() > 3);
    let results: Vec<String> = pending.iter().map(|part| part.text.clone()).collect();
    let output = assemble_fragments(planned, &results, FileOutputMode::Translated);
    assert_eq!(output, fragments);
}

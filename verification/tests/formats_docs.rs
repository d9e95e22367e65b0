use tranova::files::{output_filename, output_media_type, OfficeKind};
use tranova::formats::{
    assemble_lines, csv_delimiter, csv_texts, file_text, parse_csv, plan_lines, summary_sample,
    summary_source, translated_csv, LineRule, SummarySource,
};
use tranova::json::{apply_json_texts, collect_json_texts, JsonValue};
use tranova::office::{
    office_entry_action, office_summary_text, pack_office, unpack_office, EntryAction,
    OfficeEntry, XmlTags,
};
use tranova::xml::{extract_xml_blocks, replace_xml_text, translated_xml_document, xml_text};

#[test]
fn office_text_is_extracted_and_replaced_without_losing_runs() {
    let paragraph = br#"<w:p><w:r><w:rPr><w:b/></w:rPr><w:t>Hello </w:t></w:r><w:r><w:t>world &amp; team</w:t></w:r></w:p>"#;
    assert_eq!(xml_text(paragraph, b"w:t").unwrap(), "Hello world & team");

    let translated = replace_xml_text(paragraph, b"w:t", "你好，团队").unwrap();
    let translated_text = xml_text(&translated, b"w:t").unwrap();
    assert_eq!(translated_text, "你好，团队");
    assert!(String::from_utf8(translated).unwrap().contains("<w:b"));
}

#[test]
fn pdf_output_keeps_its_file_type() {
    assert_eq!(output_filename("guide.PDF"), "guide-translated.PDF");
    assert_eq!(output_media_type("guide.PDF"), "application/pdf");
}

#[test]
fn replaced_text_is_escaped_and_later_runs_dropped() {
    let paragraph = b"<a:p><a:t>one</a:t><a:t>two</a:t></a:p>";
    let translated = replace_xml_text(paragraph, b"a:t", "x < y").unwrap();
    assert_eq!(
        String::from_utf8(translated).unwrap(),
        "<a:p><a:t>x &lt; y</a:t><a:t></a:t></a:p>"
    );
    assert!(xml_text(b"<a:t>&bogus;</a:t>", b"a:t").is_err());
    assert!(replace_xml_text(b"<a><b></a>", b"a:t", "x").is_err());
}

#[test]
fn documents_keep_everything_around_their_paragraphs() {
    let document = b"<w:body><w:p><w:t>Hi</w:t></w:p><w:tbl/><w:p><w:t> </w:t></w:p><w:p><w:t>Bye</w:t></w:p></w:body>";
    let blocks = extract_xml_blocks(document, b"w:p", b"w:t").unwrap();
    let texts: Vec<&str> = blocks.iter().map(|block| block.text.as_str()).collect();
    assert_eq!(texts, ["Hi", " ", "Bye"]);
    assert_eq!(blocks[0].start, 8);
    let translations = vec!["Salut".to_string(), "ignored".to_string(), "Adieu".to_string()];
    let output = translated_xml_document(document, &blocks, &translations, b"w:t").unwrap();
    assert_eq!(
        String::from_utf8(output).unwrap(),
        "<w:body><w:p><w:t>Salut</w:t></w:p><w:tbl/><w:p><w:t> </w:t></w:p><w:p><w:t>Adieu</w:t></w:p></w:body>"
    );
}

#[test]
fn text_files_are_translated_line_by_line() {
    let text = "first\n\n  second  \nlast";
    let (lines, candidates, skipped) = plan_lines(text, LineRule::Plain);
    assert_eq!(lines.len(), 4);
    assert_eq!(candidates, ["first", "  second  ", "last"]);
    assert_eq!(skipped, 1);
    let translated = vec!["1".to_string(), "2".to_string(), "3".to_string()];
    assert_eq!(assemble_lines(&lines, LineRule::Plain, &translated), "1\n\n2\n3");
    assert_eq!(assemble_lines(&lines, LineRule::Plain, &candidates), text);
}

#[test]
fn captions_keep_headers_numbers_and_timings() {
    let caption = "WEBVTT\n\n1\n00:00:01.000 --> 00:00:02.000\nHello there\n+2\n";
    let (lines, candidates, skipped) = plan_lines(caption, LineRule::Caption);
    assert_eq!(candidates, ["Hello there"]);
    assert_eq!(skipped, 5);
    let translated = vec!["Bonjour".to_string()];
    assert_eq!(
        assemble_lines(&lines, LineRule::Caption, &translated),
        "WEBVTT\n\n1\n00:00:01.000 --> 00:00:02.000\nBonjour\n+2\n"
    );
    let (_, candidates, _) = plan_lines("99999999999999999999999\n-3", LineRule::Caption);
    assert_eq!(candidates, ["99999999999999999999999", "-3"]);
}

#[test]
fn text_files_must_be_utf8() {
    assert_eq!(file_text("é".as_bytes(), LineRule::Plain).unwrap(), "é");
    assert_eq!(
        file_text(&[0xff], LineRule::Plain).unwrap_err().display_text(),
        "Only UTF-8 text files are supported"
    );
    assert_eq!(
        file_text(&[0xff], LineRule::Caption).unwrap_err().display_text(),
        "Only UTF-8 caption files are supported"
    );
}

#[test]
fn csv_fields_are_translated_in_place() {
    assert_eq!(csv_delimiter(b"a\tb\n"), b'\t');
    assert_eq!(csv_delimiter(b"a\tb,c\n"), b',');
    let (rows, delimiter) = parse_csv(b"name,note\nAda, \n").unwrap();
    assert_eq!(delimiter, b',');
    let (texts, blanks) = csv_texts(&rows);
    assert_eq!(texts, ["name", "note", "Ada"]);
    assert_eq!(blanks, 1);
    let translated = vec!["nom".to_string(), "remarque".to_string(), "Ada L.".to_string()];
    let bytes = translated_csv(&rows, &translated, delimiter).unwrap();
    assert_eq!(String::from_utf8(bytes).unwrap(), "nom,remarque\nAda L., \n");
    let same = translated_csv(&rows, &texts, delimiter).unwrap();
    assert_eq!(String::from_utf8(same).unwrap(), "name,note\nAda, \n");
}

#[test]
fn csv_rows_of_unequal_length_cannot_be_written() {
    let (rows, delimiter) = parse_csv(b"a,b\nc\n").unwrap();
    let (texts, _) = csv_texts(&rows);
    let error = translated_csv(&rows, &texts, delimiter).unwrap_err();
    assert!(error.display_text().starts_with("CSV error: "));
}

fn sample_json() -> JsonValue {
    JsonValue::Object(vec![
        ("title".to_string(), JsonValue::Str("Hello".to_string())),
        ("blank".to_string(), JsonValue::Str("  ".to_string())),
        ("count".to_string(), JsonValue::Number("3".to_string())),
        (
            "items".to_string(),
            JsonValue::Array(vec![
                JsonValue::Str("one".to_string()),
                JsonValue::Null,
                JsonValue::Bool(true),
                JsonValue::Str("two".to_string()),
            ]),
        ),
    ])
}

#[test]
fn json_strings_are_collected_and_replaced_in_order() {
    let mut value = sample_json();
    let mut texts = Vec::new();
    let mut skipped = 0;
    collect_json_texts(&value, &mut texts, &mut skipped);
    assert_eq!(texts, ["Hello", "one", "two"]);
    assert_eq!(skipped, 4);
    let translations = vec!["Bonjour".to_string(), "un".to_string(), "deux".to_string()];
    let mut index = 0;
    apply_json_texts(&mut value, &translations, &mut index);
    assert_eq!(index, 3);
    let mut again = Vec::new();
    let mut skipped_again = 0;
    collect_json_texts(&value, &mut again, &mut skipped_again);
    assert_eq!(again, ["Bonjour", "un", "deux"]);
    let JsonValue::Object(entries) = &value else {
        panic!("object expected")
    };
    assert!(matches!(&entries[1].1, JsonValue::Str(blank) if blank == "  "));
    assert!(matches!(&entries[2].1, JsonValue::Number(n) if n == "3"));
}

#[test]
fn office_entries_are_routed_by_name() {
    assert_eq!(
        office_entry_action(OfficeKind::Word, "word/document.xml", false, true),
        EntryAction::Paragraphs(XmlTags::WordParagraph)
    );
    assert_eq!(
        office_entry_action(OfficeKind::Word, "word/", true, true),
        EntryAction::Directory
    );
    assert_eq!(
        office_entry_action(OfficeKind::PowerPoint, "ppt/slides/slide1.xml", false, false),
        EntryAction::Paragraphs(XmlTags::SlideParagraph)
    );
    assert_eq!(
        office_entry_action(OfficeKind::Excel, "xl/sharedStrings.xml", false, false),
        EntryAction::Paragraphs(XmlTags::SharedString)
    );
    assert_eq!(
        office_entry_action(OfficeKind::Excel, "xl/worksheets/sheet1.xml", false, false),
        EntryAction::Paragraphs(XmlTags::InlineString)
    );
    assert_eq!(
        office_entry_action(OfficeKind::Word, "word/media/image1.PNG", false, true),
        EntryAction::Image
    );
    assert_eq!(
        office_entry_action(OfficeKind::Word, "word/media/image1.png", false, false),
        EntryAction::SkippedImage
    );
    assert_eq!(
        office_entry_action(OfficeKind::Word, "docProps/app.xml", false, true),
        EntryAction::Keep
    );
}

#[test]
fn office_archives_round_trip_and_summarize() {
    let entries = vec![
        OfficeEntry {
            name: "word/".to_string(),
            is_directory: true,
            contents: Vec::new(),
        },
        OfficeEntry {
            name: "word/document.xml".to_string(),
            is_directory: false,
            contents: b"<w:p><w:t>Alpha</w:t></w:p><w:p><w:t> </w:t></w:p><w:p><w:t>Beta</w:t></w:p>"
                .to_vec(),
        },
    ];
    let bytes = pack_office(&entries).unwrap();
    let unpacked = unpack_office(&bytes).unwrap();
    assert_eq!(unpacked.len(), 2);
    assert_eq!(unpacked[1].name, "word/document.xml");
    assert_eq!(unpacked[1].contents, entries[1].contents);
    assert_eq!(
        office_summary_text(OfficeKind::Word, &bytes).unwrap(),
        "Alpha\nBeta\n"
    );
    assert!(unpack_office(b"not a zip").is_err());
}

#[test]
fn summaries_start_from_the_right_text() {
    assert_eq!(summary_source("a.PDF"), SummarySource::Pdf);
    assert_eq!(summary_source("a.docx"), SummarySource::Office(OfficeKind::Word));
    assert_eq!(summary_source("a.json"), SummarySource::Json);
    assert_eq!(summary_source("notes"), SummarySource::Text);
    assert_eq!(summary_sample("abcdef", 3), "abc");
    assert_eq!(summary_sample("abcdef", 0), "a");
    assert_eq!(summary_sample("ab", 10), "ab");
}

use tranova::fonts::{glyph_coverage, is_control_char, required_chars, select_pdf_fonts};

fn chars(s: &str) -> Vec<char> {
    s.chars().collect()
}

#[test]
fn required_characters_are_sorted_unique_and_skip_controls() {
    assert_eq!(required_chars("ba\nab\t c\u{7f}"), vec![' ', 'a', 'b', 'c']);
    assert_eq!(required_chars("你好，你"), vec!['你', '好', '，']);
    assert!(required_chars("\n\r\t").is_empty());
    assert!(required_chars("").is_empty());
}

#[test]
fn control_characters_are_category_cc() {
    assert!(is_control_char('\u{0}'));
    assert!(is_control_char('\u{1f}'));
    assert!(is_control_char('\u{7f}'));
    assert!(is_control_char('\u{9f}'));
    assert!(!is_control_char(' '));
    assert!(!is_control_char('\u{a0}'));
    assert!(!is_control_char('a'));
}

#[test]
fn a_preferred_face_is_taken_first_even_when_another_covers_more() {
    let required = chars("ab");
    let coverage = vec![Some(chars("a")), Some(chars("ab"))];
    let chosen = select_pdf_fonts(&required, &vec![0], &vec![0, 1], &coverage).unwrap();
    assert_eq!(chosen, vec![0, 1]);
}

#[test]
fn all_faces_are_searched_when_no_preferred_face_helps() {
    let required = chars("ab");
    let coverage = vec![Some(chars("z")), Some(chars("a")), Some(chars("ab"))];
    let chosen = select_pdf_fonts(&required, &vec![0], &vec![0, 1, 2], &coverage).unwrap();
    assert_eq!(chosen, vec![2]);
}

#[test]
fn later_steps_take_the_face_that_covers_most_of_what_is_missing() {
    let required = chars("abcd");
    let coverage = vec![
        Some(chars("a")),
        Some(chars("b")),
        Some(chars("bcd")),
        Some(chars("bc")),
    ];
    let chosen = select_pdf_fonts(&required, &vec![0], &vec![0, 1, 3, 2], &coverage).unwrap();
    assert_eq!(chosen, vec![0, 2]);
}

#[test]
fn among_equal_faces_the_first_listed_wins() {
    let required = chars("abc");
    let coverage = vec![Some(chars("ab")), Some(chars("bc"))];
    let chosen = select_pdf_fonts(&required, &vec![], &vec![1, 0], &coverage).unwrap();
    assert_eq!(chosen, vec![1, 0]);
}

#[test]
fn unreadable_faces_and_faces_without_coverage_are_passed_over() {
    let required = chars("a");
    let coverage = vec![None, Some(chars("")), Some(chars("a"))];
    let chosen = select_pdf_fonts(&required, &vec![0, 1, 7], &vec![0, 1, 2], &coverage).unwrap();
    assert_eq!(chosen, vec![2]);
}

#[test]
fn nothing_required_needs_no_face() {
    let chosen = select_pdf_fonts(&Vec::new(), &vec![0], &vec![0], &vec![Some(chars("a"))]).unwrap();
    assert!(chosen.is_empty());
}

#[test]
fn missing_characters_are_reported_up_to_eight() {
    let required = chars("abcdefghijk");
    let coverage = vec![Some(chars("a"))];
    let error = select_pdf_fonts(&required, &vec![0], &vec![0], &coverage).unwrap_err();
    assert_eq!(
        error,
        "Unable to build translated PDF because no installed font supports: bcdefghi"
    );
    let error = select_pdf_fonts(&chars("xy"), &vec![], &vec![], &vec![]).unwrap_err();
    assert_eq!(error, "Unable to build translated PDF because no installed font supports: xy");
}

#[test]
fn a_face_is_used_once() {
    let required = chars("ab");
    let coverage = vec![Some(chars("a"))];
    let error = select_pdf_fonts(&required, &vec![0, 0], &vec![0, 0], &coverage).unwrap_err();
    assert_eq!(error, "Unable to build translated PDF because no installed font supports: b");
}

#[test]
fn bytes_that_are_no_font_give_no_coverage() {
    assert_eq!(glyph_coverage(b"not a font file", 0, &chars("abc")), None);
    assert_eq!(glyph_coverage(&[], 0, &chars("abc")), None);
}

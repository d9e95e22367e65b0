//! The translatable texts of each supported document format, and the
//! translated document put together again: text files and captions line by
//! line, CSV cells, JSON strings and the paragraphs of Office documents.
use vstd::prelude::*;

use crate::files::FileError;
use crate::responses::{all_digits, digits_value};
use crate::text::{
    chars_of, contains_chars, contains_seq, is_blank, slice_chars, starts_with_chars,
    starts_with_seq, string_from_chars, trim, trim_chars,
};

verus! {

// ---------------------------------------------------------------------------
// Lines
// ---------------------------------------------------------------------------

/// The index of the first line feed at or after `i`, or -1.
pub open spec fn newline_index(t: Seq<char>, i: int) -> int
    decreases t.len() - i,
{
    if i < 0 || i >= t.len() {
        -1
    } else if t[i] == '\n' {
        i
    } else {
        newline_index(t, i + 1)
    }
}

/// Facts about `newline_index`.
pub proof fn lemma_newline_index(t: Seq<char>, i: int)
    requires
        0 <= i,
    ensures
        newline_index(t, i) == -1 || (i <= newline_index(t, i) < t.len() && t[newline_index(t, i)]
            == '\n'),
        forall|k: int|
            i <= k < t.len() && (newline_index(t, i) < 0 || k < newline_index(t, i)) ==> t[k] != '\n',
    decreases t.len() - i,
{
    if i < t.len() && t[i] != '\n' {
        lemma_newline_index(t, i + 1);
    }
}

/// The lines of a text as `str::split_inclusive('\n')` gives them: each line
/// without its line feed, and whether it had one. Only the last line may
/// lack it, and an empty text has no lines.
pub open spec fn scan_lines(t: Seq<char>) -> Seq<(Seq<char>, bool)>
    decreases t.len(),
{
    if t.len() == 0 {
        Seq::empty()
    } else {
        let j = newline_index(t, 0);
        if j < 0 {
            seq![(t, false)]
        } else {
            proof {
                lemma_newline_index(t, 0);
            }
            seq![(t.take(j), true)] + scan_lines(t.skip(j + 1))
        }
    }
}

/// Lines written out, each followed by its line feed when it had one.
pub open spec fn render_lines(ls: Seq<(Seq<char>, bool)>) -> Seq<char>
    decreases ls.len(),
{
    if ls.len() == 0 {
        Seq::empty()
    } else {
        ls[0].0 + (if ls[0].1 {
            seq!['\n']
        } else {
            Seq::empty()
        }) + render_lines(ls.drop_first())
    }
}

/// Writing out the lines of a text gives the text back.
pub proof fn lemma_render_scan(t: Seq<char>)
    ensures
        render_lines(scan_lines(t)) == t,
    decreases t.len(),
{
    if t.len() > 0 {
        let j = newline_index(t, 0);
        lemma_newline_index(t, 0);
        if j >= 0 {
            let rest = t.skip(j + 1);
            lemma_render_scan(rest);
            let ls = scan_lines(t);
            assert(ls == seq![(t.take(j), true)] + scan_lines(rest));
            assert(ls[0] == (t.take(j), true));
            assert(ls.drop_first() =~= scan_lines(rest));
            assert(render_lines(ls) == t.take(j) + seq!['\n'] + render_lines(ls.drop_first()));
            assert(t.take(j) + seq!['\n'] + rest =~= t);
        } else {
            let ls = scan_lines(t);
            assert(ls == seq![(t, false)]);
            assert(ls.drop_first() =~= Seq::<(Seq<char>, bool)>::empty());
            assert(render_lines(ls) == t + Seq::<char>::empty() + render_lines(ls.drop_first()));
            assert(t + Seq::<char>::empty() + Seq::<char>::empty() =~= t);
        }
    }
}

/// Which lines of a text file are translated.
#[derive(Debug, Clone, Copy, PartialEq, Eq, Structural)]
pub enum LineRule {
    /// Every line that is not blank.
    Plain,
    /// Caption text: not blank, not the `WEBVTT` header, not a timing line
    /// (`-->`) and not a cue number.
    Caption,
}

/// A text `str::parse::<usize>` accepts: an optional `+` followed by decimal
/// digits whose value fits in `usize`.
pub open spec fn usize_text(t: Seq<char>) -> bool {
    let d = if t.len() > 0 && t[0] == '+' {
        t.skip(1)
    } else {
        t
    };
    all_digits(d) && digits_value(d) <= usize::MAX
}

/// Whether a line is translated under a rule.
pub open spec fn line_translated(line: Seq<char>, rule: LineRule) -> bool {
    let t = trim(line);
    match rule {
        LineRule::Plain => t.len() > 0,
        LineRule::Caption => t.len() > 0 && !starts_with_seq(t, "WEBVTT"@) && !contains_seq(t, "-->"@)
            && !usize_text(t),
    }
}

/// The lines translated under a rule, in order.
pub open spec fn translated_lines(ls: Seq<(Seq<char>, bool)>, rule: LineRule) -> Seq<Seq<char>>
    decreases ls.len(),
{
    if ls.len() == 0 {
        Seq::empty()
    } else if line_translated(ls.last().0, rule) {
        translated_lines(ls.drop_last(), rule).push(ls.last().0)
    } else {
        translated_lines(ls.drop_last(), rule)
    }
}

/// How many lines are left as they are under a rule.
pub open spec fn skipped_lines(ls: Seq<(Seq<char>, bool)>, rule: LineRule) -> nat
    decreases ls.len(),
{
    if ls.len() == 0 {
        0
    } else if line_translated(ls.last().0, rule) {
        skipped_lines(ls.drop_last(), rule)
    } else {
        skipped_lines(ls.drop_last(), rule) + 1
    }
}

/// The lines with the translated ones replaced, in order, by `ts`.
pub open spec fn replaced_lines(ls: Seq<(Seq<char>, bool)>, rule: LineRule, ts: Seq<Seq<char>>) -> Seq<
    (Seq<char>, bool),
>
    decreases ls.len(),
{
    if ls.len() == 0 {
        Seq::empty()
    } else {
        let k = translated_lines(ls.drop_last(), rule).len() as int;
        let l = ls.last();
        replaced_lines(ls.drop_last(), rule, ts).push(
            if line_translated(l.0, rule) {
                (ts[k], l.1)
            } else {
                l
            },
        )
    }
}

/// Putting back the very lines that were picked for translation changes no
/// line.
pub proof fn lemma_replaced_own_lines(ls: Seq<(Seq<char>, bool)>, rule: LineRule, ts: Seq<Seq<char>>)
    requires
        translated_lines(ls, rule).len() <= ts.len(),
        ts.take(translated_lines(ls, rule).len() as int) == translated_lines(ls, rule),
    ensures
        replaced_lines(ls, rule, ts) == ls,
    decreases ls.len(),
{
    if ls.len() > 0 {
        let p = ls.drop_last();
        let k = translated_lines(p, rule).len() as int;
        assert(ts.take(k) =~= translated_lines(ls, rule).take(k)) by {
            if line_translated(ls.last().0, rule) {
                assert(translated_lines(ls, rule).take(k) =~= translated_lines(p, rule));
                assert(ts.take(k) =~= ts.take(k + 1).take(k));
            }
        }
        if line_translated(ls.last().0, rule) {
            assert(translated_lines(ls, rule).take(k) =~= translated_lines(p, rule));
            assert(ts[k] == ts.take(k + 1)[k]);
        }
        lemma_replaced_own_lines(p, rule, ts);
        assert(p.push(ls.last()) =~= ls);
    }
}

/// Writing out one more line.
pub proof fn lemma_render_push(ls: Seq<(Seq<char>, bool)>, l: (Seq<char>, bool))
    ensures
        render_lines(ls.push(l)) == render_lines(ls) + l.0 + (if l.1 {
            seq!['\n']
        } else {
            Seq::empty()
        }),
    decreases ls.len(),
{
    if ls.len() == 0 {
        assert(ls.push(l).drop_first() =~= Seq::<(Seq<char>, bool)>::empty());
        assert(ls.push(l) =~= seq![l]);
        assert(ls.push(l)[0] == l);
        let nl: Seq<char> = if l.1 {
            seq!['\n']
        } else {
            Seq::empty()
        };
        assert(render_lines(ls.push(l)) == l.0 + nl + render_lines(ls.push(l).drop_first()));
        assert(l.0 + nl + Seq::<char>::empty() =~= Seq::<char>::empty() + l.0 + nl);
    } else {
        lemma_render_push(ls.drop_first(), l);
        assert(ls.push(l).drop_first() =~= ls.drop_first().push(l));
        assert(ls.push(l)[0] == ls[0]);
        let nl0: Seq<char> = if ls[0].1 {
            seq!['\n']
        } else {
            Seq::empty()
        };
        let nl: Seq<char> = if l.1 {
            seq!['\n']
        } else {
            Seq::empty()
        };
        assert(render_lines(ls.push(l)) == ls[0].0 + nl0 + render_lines(ls.drop_first().push(l)));
        assert(render_lines(ls) == ls[0].0 + nl0 + render_lines(ls.drop_first()));
        assert(ls[0].0 + nl0 + (render_lines(ls.drop_first()) + l.0 + nl) =~= (ls[0].0 + nl0
            + render_lines(ls.drop_first())) + l.0 + nl);
    }
}

/// Searching a line feed in a suffix is searching the whole text from an
/// offset.
proof fn lemma_newline_shift(t: Seq<char>, start: int, i: int)
    requires
        0 <= start <= t.len(),
        0 <= i,
    ensures
        newline_index(t.skip(start), i) == if newline_index(t, start + i) < 0 {
            -1
        } else {
            newline_index(t, start + i) - start
        },
    decreases t.len() - start - i,
{
    if start + i < t.len() && t[start + i] != '\n' {
        lemma_newline_shift(t, start, i + 1);
    }
}

/// A line planned for translation.
#[derive(Debug)]
pub struct PlannedLine {
    /// The line, without its line feed.
    pub text: String,
    /// Whether a line feed followed it.
    pub newline: bool,
    /// Whether it is translated.
    pub translate: bool,
}

/// The view of a planned line.
pub open spec fn line_view(l: PlannedLine) -> (Seq<char>, bool) {
    (l.text@, l.newline)
}

/// The views of planned lines.
pub open spec fn lines_view(ls: Seq<PlannedLine>) -> Seq<(Seq<char>, bool)> {
    ls.map_values(|l: PlannedLine| line_view(l))
}

/// Whether a text parses as a `usize` (see [`usize_text`]).
#[verifier::loop_isolation(false)]
fn parses_as_usize(t: &[char]) -> (r: bool)
    ensures
        r == usize_text(t@),
{
    let digits = if t.len() > 0 && t[0] == '+' {
        let d = slice_chars(t, 1, t.len());
        assert(d@ =~= t@.skip(1));
        d
    } else {
        slice_chars(t, 0, t.len())
    };
    assert(digits@ == (if t@.len() > 0 && t@[0] == '+' { t@.skip(1) } else { t@ }));
    if digits.len() == 0 {
        return false;
    }
    let mut value: usize = 0;
    let mut i: usize = 0;
    while i < digits.len()
        invariant
            i <= digits@.len(),
            digits@.len() > 0,
            forall|j: int| 0 <= j < i ==> '0' <= #[trigger] digits@[j] <= '9',
            value == digits_value(digits@.take(i as int)),
        decreases digits@.len() - i,
    {
        let ch = digits[i];
        if !('0' <= ch && ch <= '9') {
            assert(!all_digits(digits@)) by {
                assert(digits@[i as int] == ch);
            }
            return false;
        }
        let d: usize = (ch as u32 - '0' as u32) as usize;
        assert(digits@.take(i + 1).drop_last() =~= digits@.take(i as int));
        assert(crate::responses::digit_value(digits@[i as int]) == d);
        let next = match value.checked_mul(10) {
            Some(m) => m.checked_add(d),
            None => None,
        };
        match next {
            Some(n) => {
                value = n;
            },
            None => {
                proof {
                    assert(digits_value(digits@.take(i + 1)) == value * 10 + d);
                    if all_digits(digits@) {
                        crate::responses::lemma_digits_value_grows(digits@, i + 1);
                    }
                }
                return false;
            },
        }
        i = i + 1;
    }
    assert(digits@.take(digits@.len() as int) =~= digits@);
    true
}

/// Whether a line is translated under a rule.
pub fn line_is_translated(line: &[char], rule: LineRule) -> (r: bool)
    ensures
        r == line_translated(line@, rule),
{
    let t = trim_chars(line);
    if t.len() == 0 {
        return false;
    }
    match rule {
        LineRule::Plain => true,
        LineRule::Caption => {
            let header = chars_of("WEBVTT");
            let arrow = chars_of("-->");
            !starts_with_chars(t.as_slice(), header.as_slice()) && !contains_chars(
                t.as_slice(),
                arrow.as_slice(),
            ) && !parses_as_usize(t.as_slice())
        },
    }
}

/// The index of the first line feed at or after `start`.
fn next_newline(t: &[char], start: usize) -> (r: Option<usize>)
    requires
        start <= t@.len(),
    ensures
        match r {
            Some(j) => newline_index(t@, start as int) == j,
            None => newline_index(t@, start as int) == -1,
        },
{
    let mut i = start;
    while i < t.len()
        invariant
            start <= i <= t@.len(),
            newline_index(t@, start as int) == newline_index(t@, i as int),
        decreases t@.len() - i,
    {
        if t[i] == '\n' {
            return Some(i);
        }
        i = i + 1;
    }
    None
}

/// The lines of a text (see [`scan_lines`]), which of them are translated
/// under the rule, the texts of those in order, and how many are left as
/// they are.
pub fn plan_lines(text: &str, rule: LineRule) -> (r: (Vec<PlannedLine>, Vec<String>, usize))
    ensures
        lines_view(r.0@) == scan_lines(text@),
        forall|i: int|
            0 <= i < r.0@.len() ==> (#[trigger] r.0@[i]).translate == line_translated(r.0@[i].text@, rule),
        crate::json::strings_view(r.1@) == translated_lines(scan_lines(text@), rule),
        r.2 == skipped_lines(scan_lines(text@), rule),
{
    let t = chars_of(text);
    let mut lines: Vec<PlannedLine> = Vec::new();
    let mut candidates: Vec<String> = Vec::new();
    let mut skipped: usize = 0;
    let mut start: usize = 0;
    assert(t@.skip(0) =~= t@);
    while start < t.len()
        invariant
            start <= t@.len(),
            t@ == text@,
            lines_view(lines@) + scan_lines(t@.skip(start as int)) == scan_lines(t@),
            forall|i: int|
                0 <= i < lines@.len() ==> (#[trigger] lines@[i]).translate == line_translated(
                    lines@[i].text@,
                    rule,
                ),
            crate::json::strings_view(candidates@) == translated_lines(lines_view(lines@), rule),
            skipped == skipped_lines(lines_view(lines@), rule),
            skipped <= lines@.len(),
            lines@.len() <= start,
        decreases t@.len() - start,
    {
        let ghost rest = t@.skip(start as int);
        proof {
            lemma_newline_shift(t@, start as int, 0);
            lemma_newline_index(t@, start as int);
        }
        let (end, next, newline) = match next_newline(t.as_slice(), start) {
            Some(j) => (j, j + 1, true),
            None => (t.len(), t.len(), false),
        };
        let piece = slice_chars(t.as_slice(), start, end);
        let translate = line_is_translated(piece.as_slice(), rule);
        let ghost before = lines@;
        let ghost before_c = candidates@;
        proof {
            if newline {
                assert(rest.take(end - start) =~= piece@);
                assert(rest.skip(end - start + 1) =~= t@.skip(next as int));
                assert(scan_lines(rest) == seq![(piece@, true)] + scan_lines(t@.skip(next as int)));
            } else {
                assert(rest =~= piece@);
                assert(t@.skip(next as int) =~= Seq::<char>::empty());
                assert(scan_lines(rest) == seq![(piece@, false)]);
            }
        }
        if translate {
            candidates.push(string_from_chars(piece.as_slice()));
        } else {
            skipped = skipped + 1;
        }
        lines.push(PlannedLine { text: string_from_chars(piece.as_slice()), newline, translate });
        proof {
            assert(lines_view(lines@) =~= lines_view(before).push((piece@, newline)));
            assert(lines_view(lines@).drop_last() =~= lines_view(before));
            assert(lines_view(before) + scan_lines(rest) =~= lines_view(lines@) + scan_lines(
                t@.skip(next as int),
            ));
            if translate {
                assert(crate::json::strings_view(candidates@) =~= crate::json::strings_view(before_c).push(
                    piece@,
                ));
            }
        }
        start = next;
    }
    proof {
        assert(t@.skip(start as int) =~= Seq::<char>::empty());
        assert(lines_view(lines@) + Seq::<(Seq<char>, bool)>::empty() =~= lines_view(lines@));
    }
    (lines, candidates, skipped)
}

/// The text put together again: each translated line replaced, in order, by
/// the next translation, each line followed by its line feed as before.
pub fn assemble_lines(lines: &Vec<PlannedLine>, rule: LineRule, translations: &Vec<String>) -> (r: String)
    requires
        forall|i: int|
            0 <= i < lines@.len() ==> (#[trigger] lines@[i]).translate == line_translated(lines@[i].text@, rule),
        translated_lines(lines_view(lines@), rule).len() <= translations@.len(),
    ensures
        r@ == render_lines(replaced_lines(lines_view(lines@), rule, crate::json::strings_view(translations@))),
{
    let ghost ls = lines_view(lines@);
    let ghost ts = crate::json::strings_view(translations@);
    let mut out = String::new();
    let mut k: usize = 0;
    let mut i: usize = 0;
    proof {
        assert(ls.take(0) =~= Seq::<(Seq<char>, bool)>::empty());
    }
    while i < lines.len()
        invariant
            i <= lines@.len(),
            ls == lines_view(lines@),
            ts == crate::json::strings_view(translations@),
            forall|j: int|
                0 <= j < lines@.len() ==> (#[trigger] lines@[j]).translate == line_translated(lines@[j].text@, rule),
            translated_lines(ls, rule).len() <= translations@.len(),
            k == translated_lines(ls.take(i as int), rule).len(),
            out@ == render_lines(replaced_lines(ls.take(i as int), rule, ts)),
        decreases lines@.len() - i,
    {
        let ghost prefix = ls.take(i as int);
        let ghost next = ls.take(i + 1);
        proof {
            assert(next.drop_last() =~= prefix);
            assert(next.last() == ls[i as int]);
            lemma_translated_prefix(ls, rule, i + 1);
            assert(ls[i as int] == line_view(lines@[i as int]));
        }
        let line = &lines[i];
        if line.translate {
            out.append(translations[k].as_str());
            assert(k < translations.len());
            k = k + 1;
        } else {
            out.append(line.text.as_str());
        }
        if line.newline {
            out.append("\n");
        }
        proof {
            let l = if line_translated(ls[i as int].0, rule) {
                (ts[translated_lines(prefix, rule).len() as int], ls[i as int].1)
            } else {
                ls[i as int]
            };
            lemma_render_push(replaced_lines(prefix, rule, ts), l);
            reveal_strlit("\n");
        }
        i = i + 1;
    }
    assert(ls.take(lines@.len() as int) =~= ls);
    out
}

proof fn lemma_translated_prefix(ls: Seq<(Seq<char>, bool)>, rule: LineRule, n: int)
    requires
        0 <= n <= ls.len(),
    ensures
        translated_lines(ls.take(n), rule).len() <= translated_lines(ls, rule).len(),
    decreases ls.len() - n,
{
    if n < ls.len() {
        lemma_translated_prefix(ls, rule, n + 1);
        assert(ls.take(n + 1).drop_last() =~= ls.take(n));
    } else {
        assert(ls.take(n) =~= ls);
    }
}

/// Translating a text file line by line, with each picked line translated
/// to itself, gives the file back unchanged.
pub proof fn lemma_lines_round_trip(t: Seq<char>, rule: LineRule)
    ensures
        render_lines(replaced_lines(scan_lines(t), rule, translated_lines(scan_lines(t), rule))) == t,
{
    let ls = scan_lines(t);
    let ts = translated_lines(ls, rule);
    assert(ts.take(ts.len() as int) =~= ts);
    lemma_replaced_own_lines(ls, rule, ts);
    lemma_render_scan(t);
}

/// The text of a text or caption file; files that are not UTF-8 are refused.
pub fn file_text(bytes: &[u8], rule: LineRule) -> (r: Result<String, FileError>)
    ensures
        vstd::utf8::valid_utf8(bytes@) ==> r is Ok && r->Ok_0@ == vstd::utf8::decode_utf8(bytes@),
        !vstd::utf8::valid_utf8(bytes@) ==> r is Err && r->Err_0 == FileError::Message(r->Err_0->Message_0)
            && r->Err_0->Message_0@ == match rule {
            LineRule::Plain => "Only UTF-8 text files are supported"@,
            LineRule::Caption => "Only UTF-8 caption files are supported"@,
        },
{
    match crate::responses::utf8_text(bytes) {
        Ok(text) => Ok(text),
        Err(_) => Err(FileError::Message(String::from_str(
            match rule {
                LineRule::Plain => "Only UTF-8 text files are supported",
                LineRule::Caption => "Only UTF-8 caption files are supported",
            },
        ))),
    }
}

// ---------------------------------------------------------------------------
// CSV
// ---------------------------------------------------------------------------

/// The field delimiter of a CSV file: a tab when the file holds tabs and no
/// commas, else a comma.
pub open spec fn csv_delimiter_spec(bytes: Seq<u8>) -> u8 {
    if bytes.contains(9u8) && !bytes.contains(44u8) {
        9u8
    } else {
        44u8
    }
}

/// The field delimiter of a CSV file (see [`csv_delimiter_spec`]).
pub fn csv_delimiter(bytes: &[u8]) -> (r: u8)
    ensures
        r == csv_delimiter_spec(bytes@),
{
    let mut tab = false;
    let mut comma = false;
    let mut i: usize = 0;
    while i < bytes.len()
        invariant
            i <= bytes@.len(),
            tab == (exists|k: int| 0 <= k < i && #[trigger] bytes@[k] == 9u8),
            comma == (exists|k: int| 0 <= k < i && #[trigger] bytes@[k] == 44u8),
        decreases bytes@.len() - i,
    {
        if bytes[i] == 9 {
            tab = true;
        }
        if bytes[i] == 44 {
            comma = true;
        }
        i = i + 1;
    }
    assert(tab == bytes@.contains(9u8));
    assert(comma == bytes@.contains(44u8));
    if tab && !comma {
        9
    } else {
        44
    }
}

/// What the `csv` crate reads from a file with the given delimiter, without a
/// header row and with rows of any length: the fields of each row, or the
/// words of its error.
pub uninterp spec fn csv_parsed(bytes: Seq<u8>, delimiter: u8) -> Result<Seq<Seq<Seq<char>>>, Seq<char>>;

/// What the `csv` crate writes for rows with the given delimiter, or the
/// words of its error.
pub uninterp spec fn csv_written(rows: Seq<Seq<Seq<char>>>, delimiter: u8) -> Result<Seq<u8>, Seq<char>>;

/// The characters of each field of each row.
pub open spec fn rows_view(rows: Seq<Vec<String>>) -> Seq<Seq<Seq<char>>> {
    rows.map_values(|r: Vec<String>| r@.map_values(|f: String| f@))
}

/// Reads CSV rows with `csv::ReaderBuilder` (no headers, flexible rows, the
/// given delimiter). The contract names the rows, or the error text, as
/// [`csv_parsed`] of the bytes and the delimiter.
#[verifier::external_body]
fn read_csv_rows(bytes: &[u8], delimiter: u8) -> (r: Result<Vec<Vec<String>>, String>)
    ensures
        match r {
            Ok(rows) => csv_parsed(bytes@, delimiter) == Ok::<Seq<Seq<Seq<char>>>, Seq<char>>(rows_view(rows@)),
            Err(e) => csv_parsed(bytes@, delimiter) == Err::<Seq<Seq<Seq<char>>>, Seq<char>>(e@),
        },
{
    let mut reader = csv::ReaderBuilder::new().has_headers(false).flexible(true).delimiter(
        delimiter,
    ).from_reader(bytes);
    reader.records().map(
        |row| row.map(|record| record.iter().map(str::to_string).collect()).map_err(|error| error.to_string()),
    ).collect()
}

/// Writes CSV rows with `csv::WriterBuilder` and the given delimiter into
/// memory. The contract names the bytes, or the error text, as
/// [`csv_written`] of the rows and the delimiter; rows of unequal lengths are
/// among what the crate refuses.
#[verifier::external_body]
fn write_csv_rows(rows: &Vec<Vec<String>>, delimiter: u8) -> (r: Result<Vec<u8>, String>)
    ensures
        match r {
            Ok(bytes) => csv_written(rows_view(rows@), delimiter) == Ok::<Seq<u8>, Seq<char>>(bytes@),
            Err(e) => csv_written(rows_view(rows@), delimiter) == Err::<Seq<u8>, Seq<char>>(e@),
        },
{
    let mut writer = csv::WriterBuilder::new().delimiter(delimiter).from_writer(Vec::new());
    for row in rows {
        writer.write_record(row).map_err(|error| error.to_string())?;
    }
    writer.into_inner().map_err(|error| error.to_string())
}

/// The rows of a CSV file and its delimiter.
pub fn parse_csv(bytes: &[u8]) -> (r: Result<(Vec<Vec<String>>, u8), FileError>)
    ensures
        match csv_parsed(bytes@, csv_delimiter_spec(bytes@)) {
            Ok(rows) => r is Ok && rows_view(r->Ok_0.0@) == rows && r->Ok_0.1 == csv_delimiter_spec(bytes@),
            Err(e) => r is Err && r->Err_0 == FileError::Csv(r->Err_0->Csv_0) && r->Err_0->Csv_0@ == e,
        },
{
    let delimiter = csv_delimiter(bytes);
    match read_csv_rows(bytes, delimiter) {
        Ok(rows) => Ok((rows, delimiter)),
        Err(e) => Err(FileError::Csv(e)),
    }
}

/// The fields of a row that are translated: those not blank.
pub open spec fn row_texts(row: Seq<Seq<char>>) -> Seq<Seq<char>>
    decreases row.len(),
{
    if row.len() == 0 {
        Seq::empty()
    } else if !crate::text::all_ws(row.last()) {
        row_texts(row.drop_last()).push(row.last())
    } else {
        row_texts(row.drop_last())
    }
}

/// The translated fields of all rows, row by row.
pub open spec fn cell_texts(rows: Seq<Seq<Seq<char>>>) -> Seq<Seq<char>>
    decreases rows.len(),
{
    if rows.len() == 0 {
        Seq::empty()
    } else {
        cell_texts(rows.drop_last()) + row_texts(rows.last())
    }
}

/// The blank fields of a row.
pub open spec fn row_blanks(row: Seq<Seq<char>>) -> nat {
    (row.len() - row_texts(row).len()) as nat
}

/// The blank fields of all rows.
pub open spec fn blank_cells(rows: Seq<Seq<Seq<char>>>) -> nat
    decreases rows.len(),
{
    if rows.len() == 0 {
        0
    } else {
        blank_cells(rows.drop_last()) + row_blanks(rows.last())
    }
}

proof fn lemma_row_texts_len(row: Seq<Seq<char>>)
    ensures
        row_texts(row).len() <= row.len(),
    decreases row.len(),
{
    if row.len() > 0 {
        lemma_row_texts_len(row.drop_last());
    }
}

proof fn lemma_row_blanks_prefix(row: Seq<Seq<char>>, j: int)
    requires
        0 <= j <= row.len(),
    ensures
        row_texts(row.take(j)).len() <= j,
        j - row_texts(row.take(j)).len() <= row_blanks(row),
    decreases row.len() - j,
{
    lemma_row_texts_len(row.take(j));
    if j < row.len() {
        lemma_row_blanks_prefix(row, j + 1);
        assert(row.take(j + 1).drop_last() =~= row.take(j));
    } else {
        assert(row.take(j) =~= row);
    }
}

proof fn lemma_blank_cells_prefix(rows: Seq<Seq<Seq<char>>>, i: int)
    requires
        0 <= i <= rows.len(),
    ensures
        blank_cells(rows.take(i)) <= blank_cells(rows),
    decreases rows.len() - i,
{
    if i < rows.len() {
        lemma_blank_cells_prefix(rows, i + 1);
        assert(rows.take(i + 1).drop_last() =~= rows.take(i));
    } else {
        assert(rows.take(i) =~= rows);
    }
}

/// The fields to translate and the number of blank fields.
pub fn csv_texts(rows: &Vec<Vec<String>>) -> (r: (Vec<String>, usize))
    requires
        blank_cells(rows_view(rows@)) <= usize::MAX,
    ensures
        crate::json::strings_view(r.0@) == cell_texts(rows_view(rows@)),
        r.1 == blank_cells(rows_view(rows@)),
{
    let ghost rv = rows_view(rows@);
    let mut texts: Vec<String> = Vec::new();
    let mut blanks: usize = 0;
    let mut i: usize = 0;
    while i < rows.len()
        invariant
            i <= rows@.len(),
            rv == rows_view(rows@),
            crate::json::strings_view(texts@) == cell_texts(rv.take(i as int)),
            blanks == blank_cells(rv.take(i as int)),
            blank_cells(rv) <= usize::MAX,
        decreases rows@.len() - i,
    {
        let row = &rows[i];
        let ghost rowv = rv[i as int];
        let ghost start_texts = texts@;
        let ghost start_blanks = blanks;
        assert(rowv == row@.map_values(|f: String| f@));
        let mut j: usize = 0;
        while j < row.len()
            invariant
                j <= row@.len(),
                rowv == row@.map_values(|f: String| f@),
                crate::json::strings_view(texts@) == crate::json::strings_view(start_texts) + row_texts(
                    rowv.take(j as int),
                ),
                blanks == start_blanks + (j - row_texts(rowv.take(j as int)).len()),
                row_texts(rowv.take(j as int)).len() <= j,
                start_blanks == blank_cells(rv.take(i as int)),
                i < rv.len(),
                rowv == rv[i as int],
                blank_cells(rv) <= usize::MAX,
            decreases row@.len() - j,
        {
            proof {
                assert(rowv.take(j + 1).drop_last() =~= rowv.take(j as int));
                assert(rowv.take(j + 1).last() == row@[j as int]@);
            }
            let ghost before = texts@;
            let field = &row[j];
            if is_blank(chars_of(field.as_str()).as_slice()) {
                proof {
                    lemma_row_blanks_prefix(rowv, j + 1);
                    lemma_blank_cells_prefix(rv, i + 1);
                    assert(rv.take(i + 1).drop_last() =~= rv.take(i as int));
                    assert(rv.take(i + 1).last() == rowv);
                }
                blanks = blanks + 1;
            } else {
                texts.push(field.clone());
                assert(crate::json::strings_view(texts@) =~= crate::json::strings_view(before).push(field@));
            }
            j = j + 1;
        }
        proof {
            assert(rowv.take(row@.len() as int) =~= rowv);
            assert(rv.take(i + 1).drop_last() =~= rv.take(i as int));
            assert(rv.take(i + 1).last() == rowv);
        }
        i = i + 1;
    }
    assert(rv.take(rows@.len() as int) =~= rv);
    (texts, blanks)
}

/// A row with its non-blank fields replaced, in order, by `ts[k]`,
/// `ts[k + 1]`, ...
pub open spec fn replaced_row(row: Seq<Seq<char>>, ts: Seq<Seq<char>>, k: int) -> Seq<Seq<char>> {
    Seq::new(
        row.len(),
        |j: int|
            if !crate::text::all_ws(row[j]) {
                ts[k + row_texts(row.take(j)).len()]
            } else {
                row[j]
            },
    )
}

/// The rows with their non-blank fields replaced, row by row, by `ts`.
pub open spec fn replaced_rows(rows: Seq<Seq<Seq<char>>>, ts: Seq<Seq<char>>) -> Seq<Seq<Seq<char>>> {
    Seq::new(rows.len(), |i: int| replaced_row(rows[i], ts, cell_texts(rows.take(i)).len() as int))
}

proof fn lemma_cell_texts_prefix(rows: Seq<Seq<Seq<char>>>, i: int)
    requires
        0 <= i < rows.len(),
    ensures
        cell_texts(rows.take(i + 1)) == cell_texts(rows.take(i)) + row_texts(rows[i]),
        cell_texts(rows.take(i + 1)).len() <= cell_texts(rows).len(),
    decreases rows.len() - i,
{
    assert(rows.take(i + 1).drop_last() =~= rows.take(i));
    if i + 1 < rows.len() {
        lemma_cell_texts_prefix(rows, i + 1);
    } else {
        assert(rows.take(i + 1) =~= rows);
    }
}

proof fn lemma_row_texts_prefix(row: Seq<Seq<char>>, j: int)
    requires
        0 <= j < row.len(),
    ensures
        row_texts(row.take(j + 1)) == if !crate::text::all_ws(row[j]) {
            row_texts(row.take(j)).push(row[j])
        } else {
            row_texts(row.take(j))
        },
        row_texts(row.take(j + 1)).len() <= row_texts(row).len(),
    decreases row.len() - j,
{
    assert(row.take(j + 1).drop_last() =~= row.take(j));
    if j + 1 < row.len() {
        lemma_row_texts_prefix(row, j + 1);
    } else {
        assert(row.take(j + 1) =~= row);
    }
}

/// The translated CSV file: the rows with their non-blank fields replaced in
/// order by the translations, written with the file's delimiter.
pub fn translated_csv(rows: &Vec<Vec<String>>, translations: &Vec<String>, delimiter: u8) -> (r: Result<
    Vec<u8>,
    FileError,
>)
    requires
        cell_texts(rows_view(rows@)).len() <= translations@.len(),
    ensures
        match csv_written(replaced_rows(rows_view(rows@), crate::json::strings_view(translations@)), delimiter) {
            Ok(bytes) => r is Ok && r->Ok_0@ == bytes,
            Err(e) => r is Err && r->Err_0 == FileError::Csv(r->Err_0->Csv_0) && r->Err_0->Csv_0@ == e,
        },
{
    let ghost rv = rows_view(rows@);
    let ghost ts = crate::json::strings_view(translations@);
    let mut out: Vec<Vec<String>> = Vec::new();
    let mut k: usize = 0;
    let mut i: usize = 0;
    while i < rows.len()
        invariant
            i <= rows@.len(),
            rv == rows_view(rows@),
            ts == crate::json::strings_view(translations@),
            cell_texts(rv).len() <= translations@.len(),
            k == cell_texts(rv.take(i as int)).len(),
            rows_view(out@) == replaced_rows(rv, ts).take(i as int),
        decreases rows@.len() - i,
    {
        let row = &rows[i];
        let ghost rowv = rv[i as int];
        let ghost k0 = k as int;
        proof {
            lemma_cell_texts_prefix(rv, i as int);
        }
        let mut new_row: Vec<String> = Vec::new();
        let mut j: usize = 0;
        while j < row.len()
            invariant
                j <= row@.len(),
                rowv == row@.map_values(|f: String| f@),
                ts == crate::json::strings_view(translations@),
                k0 + row_texts(rowv).len() <= translations@.len(),
                k == k0 + row_texts(rowv.take(j as int)).len(),
                new_row@.map_values(|f: String| f@) == replaced_row(rowv, ts, k0).take(j as int),
            decreases row@.len() - j,
        {
            let field = &row[j];
            proof {
                lemma_row_texts_prefix(rowv, j as int);
                assert(rowv[j as int] == field@);
            }
            let ghost before = new_row@;
            let ghost old_k = k as int;
            if is_blank(chars_of(field.as_str()).as_slice()) {
                let copy = field.clone();
                new_row.push(copy);
                assert(replaced_row(rowv, ts, k0)[j as int] == field@);
            } else {
                assert(k < translations.len());
                let copy = translations[k].clone();
                assert(copy@ == ts[k as int]);
                new_row.push(copy);
                assert(replaced_row(rowv, ts, k0)[j as int] == ts[old_k]);
                k = k + 1;
            }
            proof {
                assert(new_row@.map_values(|f: String| f@) =~= before.map_values(|f: String| f@).push(
                    replaced_row(rowv, ts, k0)[j as int],
                ));
                assert(replaced_row(rowv, ts, k0).take(j + 1) =~= replaced_row(rowv, ts, k0).take(
                    j as int,
                ).push(replaced_row(rowv, ts, k0)[j as int]));
            }
            j = j + 1;
        }
        let ghost before_rows = out@;
        proof {
            assert(replaced_row(rowv, ts, k0).take(row@.len() as int) =~= replaced_row(rowv, ts, k0));
            assert(rowv.take(row@.len() as int) =~= rowv);
        }
        out.push(new_row);
        proof {
            assert(replaced_rows(rv, ts)[i as int] == replaced_row(rowv, ts, k0));
            assert(rows_view(out@) =~= rows_view(before_rows).push(replaced_row(rowv, ts, k0)));
            assert(replaced_rows(rv, ts).take(i + 1) =~= replaced_rows(rv, ts).take(i as int).push(
                replaced_rows(rv, ts)[i as int],
            ));
        }
        i = i + 1;
    }
    assert(replaced_rows(rv, ts).take(rows@.len() as int) =~= replaced_rows(rv, ts));
    match write_csv_rows(&out, delimiter) {
        Ok(bytes) => Ok(bytes),
        Err(e) => Err(FileError::Csv(e)),
    }
}

/// Putting back the very fields that were picked for translation changes no
/// row.
pub proof fn lemma_csv_round_trip(rows: Seq<Seq<Seq<char>>>)
    ensures
        replaced_rows(rows, cell_texts(rows)) == rows,
{
    let ts = cell_texts(rows);
    assert forall|i: int| 0 <= i < rows.len() implies #[trigger] replaced_rows(rows, ts)[i] == rows[i] by {
        let row = rows[i];
        let k = cell_texts(rows.take(i)).len() as int;
        lemma_cell_texts_prefix(rows, i);
        assert forall|j: int| 0 <= j < row.len() implies #[trigger] replaced_row(row, ts, k)[j] == row[j] by {
            if !crate::text::all_ws(row[j]) {
                lemma_row_texts_prefix(row, j);
                let m = row_texts(row.take(j)).len() as int;
                assert(row_texts(row.take(j + 1))[m] == row[j]);
                lemma_row_texts_is_prefix(row, j + 1);
                assert(row_texts(row)[m] == row[j]);
                lemma_cell_texts_is_prefix(rows, i + 1);
                assert(cell_texts(rows.take(i + 1)) == cell_texts(rows.take(i)) + row_texts(row));
                assert(cell_texts(rows.take(i + 1))[k + m] == row[j]);
                assert(ts[k + m] == row[j]);
            }
        }
        assert(replaced_row(row, ts, k) =~= row);
    }
    assert(replaced_rows(rows, ts) =~= rows);
}

proof fn lemma_row_texts_is_prefix(row: Seq<Seq<char>>, j: int)
    requires
        0 <= j <= row.len(),
    ensures
        forall|m: int| 0 <= m < row_texts(row.take(j)).len() ==> row_texts(row)[m] == #[trigger] row_texts(row.take(j))[m],
        row_texts(row.take(j)).len() <= row_texts(row).len(),
    decreases row.len() - j,
{
    if j < row.len() {
        lemma_row_texts_is_prefix(row, j + 1);
        lemma_row_texts_prefix(row, j);
        assert forall|m: int| 0 <= m < row_texts(row.take(j)).len() implies row_texts(row)[m]
            == #[trigger] row_texts(row.take(j))[m] by {
            assert(row_texts(row.take(j + 1))[m] == row_texts(row.take(j))[m]);
        }
    } else {
        assert(row.take(j) =~= row);
    }
}

proof fn lemma_cell_texts_is_prefix(rows: Seq<Seq<Seq<char>>>, i: int)
    requires
        0 <= i <= rows.len(),
    ensures
        forall|m: int| 0 <= m < cell_texts(rows.take(i)).len() ==> cell_texts(rows)[m] == #[trigger] cell_texts(rows.take(i))[m],
        cell_texts(rows.take(i)).len() <= cell_texts(rows).len(),
    decreases rows.len() - i,
{
    if i < rows.len() {
        lemma_cell_texts_is_prefix(rows, i + 1);
        lemma_cell_texts_prefix(rows, i);
        assert forall|m: int| 0 <= m < cell_texts(rows.take(i)).len() implies cell_texts(rows)[m]
            == #[trigger] cell_texts(rows.take(i))[m] by {
            assert(cell_texts(rows.take(i + 1))[m] == cell_texts(rows.take(i))[m]);
        }
    } else {
        assert(rows.take(i) =~= rows);
    }
}

// ---------------------------------------------------------------------------
// Text for a summary
// ---------------------------------------------------------------------------

/// Where the text for a document summary comes from, by the file's extension.
#[derive(Debug, Clone, Copy, PartialEq, Eq, Structural)]
pub enum SummarySource {
    Pdf,
    Office(crate::files::OfficeKind),
    Json,
    Text,
}

/// Where the text for a document summary comes from.
pub open spec fn summary_source_spec(filename: Seq<char>) -> SummarySource {
    let e = crate::files::extension_of(filename);
    if e == "pdf"@ {
        SummarySource::Pdf
    } else if e == "docx"@ {
        SummarySource::Office(crate::files::OfficeKind::Word)
    } else if e == "pptx"@ {
        SummarySource::Office(crate::files::OfficeKind::PowerPoint)
    } else if e == "xlsx"@ {
        SummarySource::Office(crate::files::OfficeKind::Excel)
    } else if e == "json"@ {
        SummarySource::Json
    } else {
        SummarySource::Text
    }
}

/// Where the text for a document summary comes from.
pub fn summary_source(filename: &str) -> (r: SummarySource)
    ensures
        r == summary_source_spec(filename@),
{
    let e = crate::files::extension(filename);
    if crate::files::is_ext(&e, "pdf") {
        SummarySource::Pdf
    } else if crate::files::is_ext(&e, "docx") {
        SummarySource::Office(crate::files::OfficeKind::Word)
    } else if crate::files::is_ext(&e, "pptx") {
        SummarySource::Office(crate::files::OfficeKind::PowerPoint)
    } else if crate::files::is_ext(&e, "xlsx") {
        SummarySource::Office(crate::files::OfficeKind::Excel)
    } else if crate::files::is_ext(&e, "json") {
        SummarySource::Json
    } else {
        SummarySource::Text
    }
}

/// The text of any other file for its summary; it must be UTF-8.
pub fn plain_summary_text(bytes: &[u8]) -> (r: Result<String, FileError>)
    ensures
        vstd::utf8::valid_utf8(bytes@) ==> r is Ok && r->Ok_0@ == vstd::utf8::decode_utf8(bytes@),
        !vstd::utf8::valid_utf8(bytes@) ==> r is Err && r->Err_0 == FileError::Message(r->Err_0->Message_0)
            && r->Err_0->Message_0@ == "Only UTF-8 text files can be summarized"@,
{
    match crate::responses::utf8_text(bytes) {
        Ok(text) => Ok(text),
        Err(_) => Err(FileError::Message(String::from_str("Only UTF-8 text files can be summarized"))),
    }
}

/// The text of a JSON document for its summary: its translatable strings,
/// one per line.
pub fn json_summary_text(value: &crate::json::JsonValue) -> (r: String)
    requires
        crate::json::json_skipped(*value) <= usize::MAX,
    ensures
        r@ == crate::text::join_seq(crate::json::json_texts(*value), seq!['\n']),
{
    let mut texts: Vec<String> = Vec::new();
    let mut skipped: usize = 0;
    crate::json::collect_json_texts(value, &mut texts, &mut skipped);
    let mut parts: Vec<Vec<char>> = Vec::new();
    let mut i: usize = 0;
    while i < texts.len()
        invariant
            i <= texts@.len(),
            parts@.map_values(|p: Vec<char>| p@) == crate::json::strings_view(texts@).take(i as int),
        decreases texts@.len() - i,
    {
        let ghost before = parts@;
        parts.push(chars_of(texts[i].as_str()));
        assert(parts@.map_values(|p: Vec<char>| p@) =~= before.map_values(|p: Vec<char>| p@).push(
            texts@[i as int]@,
        ));
        assert(crate::json::strings_view(texts@).take(i + 1) =~= crate::json::strings_view(texts@).take(
            i as int,
        ).push(texts@[i as int]@));
        i = i + 1;
    }
    assert(crate::json::strings_view(texts@).take(texts@.len() as int) =~= crate::json::strings_view(texts@));
    assert(crate::json::strings_view(texts@) =~= Seq::<Seq<char>>::empty() + crate::json::json_texts(*value));
    let nl = vec!['\n'];
    let joined = crate::text::join_chars(&parts, nl.as_slice());
    assert(nl@ =~= seq!['\n']);
    string_from_chars(joined.as_slice())
}

/// The text sent for a document summary: its first `maximum` characters (at
/// least one).
pub fn summary_sample(text: &str, maximum: usize) -> (r: String)
    ensures
        r@ == text@.take(
            if (if maximum < 1 {
                1
            } else {
                maximum as int
            }) <= text@.len() {
                if maximum < 1 {
                    1
                } else {
                    maximum as int
                }
            } else {
                text@.len() as int
            },
        ),
{
    let n = if maximum < 1 {
        1
    } else {
        maximum
    };
    crate::text::take_chars(text, n)
}

} // verus!

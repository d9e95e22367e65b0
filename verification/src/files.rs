//! The file translation pipeline: how text is cut into segments, how segments
//! are grouped into batches, and how translations are put back together.
use vstd::prelude::*;

use crate::ai::segment_marker;
use crate::ai::AiError;
use crate::models::{FileBatchFailure, FileOutputMode, FileProgress, Provider, TranslateRequest};
use std::collections::HashMap;
use crate::text::{
    all_ws, chars_of, count_matches, ends_with_chars, ends_with_seq, is_blank, is_whitespace,
    is_ws, lead_ws, leading_ws_count, lemma_split_nonempty, lemma_trim_empty, lemma_trim_range,
    lemma_utf8_len_take, len_utf8, normalize_newline_chars,
    normalize_newlines, push_str_chars, slice_chars, split_chars, split_seq, string_from_chars,
    trail_ws, trailing_ws_count, trim, trim_chars, utf8_len,
};

verus! {

// ---------------------------------------------------------------------------
// Surrounding whitespace
// ---------------------------------------------------------------------------

/// The leading whitespace, the content and the trailing whitespace of a text.
/// A blank text is all leading whitespace.
pub open spec fn whitespace_split(s: Seq<char>) -> (Seq<char>, Seq<char>, Seq<char>) {
    if all_ws(s) {
        (s, Seq::empty(), Seq::empty())
    } else {
        (
            s.take(lead_ws(s) as int),
            s.subrange(lead_ws(s) as int, s.len() - trail_ws(s)),
            s.skip(s.len() - trail_ws(s)),
        )
    }
}

/// The three parts of [`whitespace_split`] put back together give the text,
/// and the middle part is the trimmed text.
pub proof fn lemma_whitespace_split(s: Seq<char>)
    ensures
        whitespace_split(s).0 + whitespace_split(s).1 + whitespace_split(s).2 == s,
        whitespace_split(s).1 == trim(s),
        all_ws(whitespace_split(s).0),
        all_ws(whitespace_split(s).2),
{
    lemma_trim_empty(s);
    if !all_ws(s) {
        lemma_trim_range(s);
        crate::text::lemma_lead_ws(s);
        crate::text::lemma_trail_ws(s);
        let (a, b, c) = whitespace_split(s);
        assert(a + b + c =~= s);
        assert forall|i: int| 0 <= i < c.len() implies #[trigger] is_ws(c[i]) by {
            assert(c[i] == s[s.len() - trail_ws(s) + i]);
        }
    } else {
        assert(whitespace_split(s).0 + whitespace_split(s).1 + whitespace_split(s).2 =~= s);
        assert(all_ws(Seq::<char>::empty()));
    }
}

/// Splits a text into its leading whitespace, its content and its trailing
/// whitespace, so that whitespace that the AI trims can be restored.
pub fn surrounding_whitespace(value: &str) -> (r: (String, String, String))
    ensures
        (r.0@, r.1@, r.2@) == whitespace_split(value@),
{
    let chars = chars_of(value);
    if is_blank(chars.as_slice()) {
        return (String::from_str(value), String::new(), String::new());
    }
    let l = leading_ws_count(chars.as_slice());
    let t = trailing_ws_count(chars.as_slice());
    proof {
        lemma_trim_empty(chars@);
        lemma_trim_range(chars@);
    }
    let a = slice_chars(chars.as_slice(), 0, l);
    let b = slice_chars(chars.as_slice(), l, chars.len() - t);
    let c = slice_chars(chars.as_slice(), chars.len() - t, chars.len());
    assert(a@ =~= chars@.take(l as int));
    assert(c@ =~= chars@.skip(chars@.len() - t));
    (
        string_from_chars(a.as_slice()),
        string_from_chars(b.as_slice()),
        string_from_chars(c.as_slice()),
    )
}

/// A translation with the whitespace around `source` put back around it.
pub open spec fn restored(source: Seq<char>, translated: Seq<char>) -> Seq<char> {
    whitespace_split(source).0 + translated + whitespace_split(source).2
}

/// The translation with the source's surrounding whitespace restored.
pub fn restore_surrounding_whitespace(source: &str, translated: &str) -> (r: String)
    ensures
        r@ == restored(source@, translated@),
{
    let (leading, _, trailing) = surrounding_whitespace(source);
    let mut r = leading;
    r.append(translated);
    r.append(trailing.as_str());
    r
}

/// How a translated fragment is written: the translation in place of the
/// source's content, or, in bilingual mode, the source followed on a new line
/// by the trimmed translation with the same indentation.
pub open spec fn rendered_fragment(
    source: Seq<char>,
    translated: Seq<char>,
    mode: FileOutputMode,
) -> Seq<char> {
    if mode == FileOutputMode::Translated {
        restored(source, translated)
    } else {
        let (leading, content, trailing) = whitespace_split(source);
        if content.len() == 0 {
            source
        } else {
            leading + content + "\n"@ + leading + trim(translated) + trailing
        }
    }
}

/// A translated fragment as it is written into the output file.
pub fn render_fragment(source: &str, translated: &str, output_mode: FileOutputMode) -> (r: String)
    ensures
        r@ == rendered_fragment(source@, translated@, output_mode),
{
    if output_mode == FileOutputMode::Translated {
        return restore_surrounding_whitespace(source, translated);
    }
    let (leading, content, trailing) = surrounding_whitespace(source);
    if content.as_str().is_empty() {
        return String::from_str(source);
    }
    let t = crate::text::trim_str(translated);
    let mut r = String::from_str(leading.as_str());
    r.append(content.as_str());
    r.append("\n");
    r.append(leading.as_str());
    r.append(t.as_str());
    r.append(trailing.as_str());
    r
}

// ---------------------------------------------------------------------------
// Chunks
// ---------------------------------------------------------------------------

/// A character after which a long text may be cut.
pub open spec fn is_break_char(c: char) -> bool {
    c == '\n' || c == ' ' || c == '。' || c == '.' || c == '!' || c == '?'
}

/// The index of the last break character of `s`, or -1.
pub open spec fn last_break_index(s: Seq<char>) -> int
    decreases s.len(),
{
    if s.len() == 0 {
        -1
    } else if is_break_char(s.last()) {
        s.len() - 1
    } else {
        last_break_index(s.drop_last())
    }
}

/// Where a text longer than `maximum` characters is cut: after the last
/// break character among its first `maximum` characters, when that character
/// starts past the first third of those characters' UTF-8 bytes; otherwise
/// after exactly `maximum` characters.
pub open spec fn chunk_cut(s: Seq<char>, maximum: nat) -> nat {
    let candidate = s.take(maximum as int);
    let k = last_break_index(candidate);
    if k >= 0 && utf8_len(candidate.take(k)) > utf8_len(candidate) / 3 {
        (k + 1) as nat
    } else {
        maximum
    }
}

/// Facts about `last_break_index`.
pub proof fn lemma_last_break_index(s: Seq<char>)
    ensures
        -1 <= last_break_index(s) < s.len(),
        last_break_index(s) >= 0 ==> is_break_char(s[last_break_index(s)]),
        forall|j: int| last_break_index(s) < j < s.len() ==> !is_break_char(#[trigger] s[j]),
    decreases s.len(),
{
    if s.len() > 0 && !is_break_char(s.last()) {
        let t = s.drop_last();
        lemma_last_break_index(t);
        assert forall|j: int| last_break_index(s) < j < s.len() implies !is_break_char(
            #[trigger] s[j],
        ) by {
            if j < s.len() - 1 {
                assert(s[j] == t[j]);
            }
        }
    }
}

/// UTF-8 length does not shrink as the prefix grows.
pub proof fn lemma_utf8_len_take_mono(s: Seq<char>, a: int, b: int)
    requires
        0 <= a <= b <= s.len(),
    ensures
        utf8_len(s.take(a)) <= utf8_len(s.take(b)),
    decreases b - a,
{
    if a < b {
        lemma_utf8_len_take_mono(s, a, b - 1);
        crate::text::lemma_utf8_len_take(s, b - 1);
    }
}

/// A long text is cut at a natural break whenever one can be: when its first
/// `maximum` characters hold a break character (newline, space, `。`, `.`,
/// `!` or `?`) that starts past the first third of their UTF-8 bytes, the
/// cut falls right after such a break, and no break character follows the
/// cut among those characters. A cut at exactly `maximum` characters without
/// a break before it happens only when there is no such break.
pub proof fn lemma_chunk_cut_at_break(s: Seq<char>, maximum: nat)
    requires
        maximum > 0,
        s.len() > maximum,
    ensures
        ({
            let candidate = s.take(maximum as int);
            let c = chunk_cut(s, maximum) as int;
            &&& 0 < c <= maximum
            &&& (exists|j: int|
                0 <= j < maximum && is_break_char(#[trigger] candidate[j]) && utf8_len(candidate.take(j))
                    > utf8_len(candidate) / 3) ==> {
                &&& is_break_char(candidate[c - 1])
                &&& utf8_len(candidate.take(c - 1)) > utf8_len(candidate) / 3
                &&& forall|j: int| c <= j < maximum ==> !is_break_char(#[trigger] candidate[j])
            }
            &&& !(exists|j: int|
                0 <= j < maximum && is_break_char(#[trigger] candidate[j]) && utf8_len(candidate.take(j))
                    > utf8_len(candidate) / 3) ==> c == maximum
        }),
{
    let candidate = s.take(maximum as int);
    lemma_last_break_index(candidate);
    lemma_chunk_cut(s, maximum);
    let k = last_break_index(candidate);
    if exists|j: int|
        0 <= j < maximum && is_break_char(#[trigger] candidate[j]) && utf8_len(candidate.take(j))
            > utf8_len(candidate) / 3 {
        let j = choose|j: int|
            0 <= j < maximum && is_break_char(#[trigger] candidate[j]) && utf8_len(candidate.take(j))
                > utf8_len(candidate) / 3;
        assert(k >= j);
        lemma_utf8_len_take_mono(candidate, j, k);
    } else {
        if k >= 0 && utf8_len(candidate.take(k)) > utf8_len(candidate) / 3 {
            assert(is_break_char(candidate[k]));
        }
    }
}

/// A cut of a long text falls inside it and within the maximum.
pub proof fn lemma_chunk_cut(s: Seq<char>, maximum: nat)
    requires
        maximum > 0,
        s.len() > maximum,
    ensures
        0 < chunk_cut(s, maximum) <= maximum,
{
    lemma_last_break_index(s.take(maximum as int));
}

/// The chunks of a text of at most `maximum` characters each.
pub open spec fn chunks_spec(s: Seq<char>, maximum: nat) -> Seq<Seq<char>>
    decreases s.len(),
{
    if s.len() <= maximum || maximum == 0 {
        seq![s]
    } else {
        proof {
            lemma_chunk_cut(s, maximum);
        }
        let k = chunk_cut(s, maximum) as int;
        seq![s.take(k)] + chunks_spec(s.skip(k), maximum)
    }
}

/// The concatenation of a sequence of texts.
pub open spec fn concat_all(parts: Seq<Seq<char>>) -> Seq<char>
    decreases parts.len(),
{
    if parts.len() == 0 {
        Seq::empty()
    } else {
        concat_all(parts.drop_last()) + parts.last()
    }
}

proof fn lemma_concat_all_front(p: Seq<char>, rest: Seq<Seq<char>>)
    ensures
        concat_all(seq![p] + rest) == p + concat_all(rest),
    decreases rest.len(),
{
    if rest.len() == 0 {
        assert(seq![p] + rest =~= seq![p]);
        assert(seq![p].drop_last() =~= Seq::<Seq<char>>::empty());
        assert(concat_all(seq![p].drop_last()) == Seq::<char>::empty());
        assert(p + Seq::<char>::empty() =~= p);
        assert(Seq::<char>::empty() + p =~= p);
    } else {
        lemma_concat_all_front(p, rest.drop_last());
        assert((seq![p] + rest).drop_last() =~= seq![p] + rest.drop_last());
        assert(p + concat_all(rest.drop_last()) + rest.last() =~= p + (concat_all(
            rest.drop_last(),
        ) + rest.last()));
    }
}

/// Chunks put back together give the text, and each chunk is short enough
/// and not empty (unless the text is).
pub proof fn lemma_chunks(s: Seq<char>, maximum: nat)
    requires
        maximum > 0,
    ensures
        concat_all(chunks_spec(s, maximum)) == s,
        forall|i: int|
            0 <= i < chunks_spec(s, maximum).len() ==> #[trigger] chunks_spec(
                s,
                maximum,
            )[i].len() <= maximum,
        s.len() > 0 ==> forall|i: int|
            0 <= i < chunks_spec(s, maximum).len() ==> #[trigger] chunks_spec(
                s,
                maximum,
            )[i].len() > 0,
    decreases s.len(),
{
    if s.len() <= maximum {
        assert(seq![s].drop_last() =~= Seq::<Seq<char>>::empty());
        assert(concat_all(seq![s].drop_last()) == Seq::<char>::empty());
        assert(Seq::<char>::empty() + s =~= s);
    } else {
        lemma_chunk_cut(s, maximum);
        let k = chunk_cut(s, maximum) as int;
        let rest = chunks_spec(s.skip(k), maximum);
        lemma_chunks(s.skip(k), maximum);
        lemma_concat_all_front(s.take(k), rest);
        assert(s.take(k) + s.skip(k) =~= s);
        let c = chunks_spec(s, maximum);
        assert forall|i: int| 0 <= i < c.len() implies #[trigger] c[i].len() <= maximum by {
            if i > 0 {
                assert(c[i] == rest[i - 1]);
            }
        }
        assert forall|i: int| 0 <= i < c.len() implies #[trigger] c[i].len() > 0 by {
            if i > 0 {
                assert(c[i] == rest[i - 1]);
            }
        }
    }
}

/// The cut point of a text longer than `maximum` characters.
fn chunk_cut_exec(s: &[char], maximum: usize) -> (k: usize)
    requires
        0 < maximum < s@.len(),
    ensures
        k == chunk_cut(s@, maximum as nat),
        0 < k <= maximum,
{
    proof {
        lemma_chunk_cut(s@, maximum as nat);
        lemma_last_break_index(s@.take(maximum as int));
    }
    let ghost candidate = s@.take(maximum as int);
    // Byte length of the candidate.
    let mut boundary: u128 = 0;
    let mut i: usize = 0;
    while i < maximum
        invariant
            i <= maximum < s@.len(),
            candidate == s@.take(maximum as int),
            boundary == utf8_len(candidate.take(i as int)),
            boundary <= 4 * i,
        decreases maximum - i,
    {
        proof {
            lemma_utf8_len_take(candidate, i as int);
        }
        boundary = boundary + len_utf8(s[i]) as u128;
        i = i + 1;
    }
    assert(candidate.take(maximum as int) =~= candidate);
    // The last break character.
    let mut j: usize = maximum;
    while j > 0 && !is_break(s[j - 1])
        invariant
            j <= maximum < s@.len(),
            candidate == s@.take(maximum as int),
            forall|t: int| j <= t < maximum ==> !is_break_char(#[trigger] candidate[t]),
        decreases j,
    {
        j = j - 1;
    }
    if j == 0 {
        assert(last_break_index(candidate) < 0) by {
            if last_break_index(candidate) >= 0 {
                assert(is_break_char(candidate[last_break_index(candidate)]));
            }
        }
        return maximum;
    }
    let index = j - 1;
    assert(last_break_index(candidate) == index) by {
        assert(is_break_char(candidate[index as int]));
    }
    // Byte offset of the break character.
    let mut offset: u128 = 0;
    let mut t: usize = 0;
    while t < index
        invariant
            t <= index < maximum < s@.len(),
            candidate == s@.take(maximum as int),
            offset == utf8_len(candidate.take(t as int)),
            offset <= 4 * t,
        decreases index - t,
    {
        proof {
            lemma_utf8_len_take(candidate, t as int);
        }
        offset = offset + len_utf8(s[t]) as u128;
        t = t + 1;
    }
    if offset > boundary / 3 {
        index + 1
    } else {
        maximum
    }
}

fn is_break(c: char) -> (r: bool)
    ensures
        r == is_break_char(c),
{
    c == '\n' || c == ' ' || c == '。' || c == '.' || c == '!' || c == '?'
}

/// Cuts a long text into chunks of at most `maximum` characters, preferring
/// to cut after a line break, a space or a sentence end.
pub fn split_chunks(text: &str, maximum: usize) -> (r: Vec<String>)
    requires
        maximum > 0,
    ensures
        r@.map_values(|c: String| c@) == chunks_spec(text@, maximum as nat),
        concat_all(r@.map_values(|c: String| c@)) == text@,
        forall|i: int| 0 <= i < r@.len() ==> (#[trigger] r@[i])@.len() <= maximum,
{
    proof {
        lemma_chunks(text@, maximum as nat);
    }
    let chars = chars_of(text);
    let mut out: Vec<String> = Vec::new();
    let mut start: usize = 0;
    assert(chars@.skip(0) =~= chars@);
    while chars.len() - start > maximum
        invariant
            0 < maximum,
            start <= chars@.len(),
            out@.map_values(|c: String| c@) + chunks_spec(chars@.skip(start as int), maximum as nat)
                == chunks_spec(chars@, maximum as nat),
        decreases chars@.len() - start,
    {
        let rest = slice_chars(chars.as_slice(), start, chars.len());
        assert(rest@ =~= chars@.skip(start as int));
        let k = chunk_cut_exec(rest.as_slice(), maximum);
        let piece = slice_chars(rest.as_slice(), 0, k);
        assert(piece@ =~= rest@.take(k as int));
        assert(rest@.skip(k as int) =~= chars@.skip(start + k));
        let s = string_from_chars(piece.as_slice());
        let ghost before = out@;
        out.push(s);
        proof {
            assert(out@.map_values(|c: String| c@) =~= before.map_values(|c: String| c@).push(
                s@,
            ));
            assert(out@.map_values(|c: String| c@) + chunks_spec(chars@.skip(start + k), maximum as nat)
                =~= before.map_values(|c: String| c@) + chunks_spec(chars@.skip(start as int), maximum as nat));
        }
        start = start + k;
    }
    let rest = slice_chars(chars.as_slice(), start, chars.len());
    assert(rest@ =~= chars@.skip(start as int));
    let s = string_from_chars(rest.as_slice());
    let ghost before = out@;
    out.push(s);
    proof {
        assert(out@.map_values(|c: String| c@) =~= before.map_values(|c: String| c@).push(s@));
        assert(chunks_spec(rest@, maximum as nat) == seq![rest@]);
        assert(before.map_values(|c: String| c@) + seq![rest@] =~= before.map_values(
            |c: String| c@,
        ).push(s@));
        let cs = chunks_spec(text@, maximum as nat);
        assert forall|i: int| 0 <= i < out@.len() implies (#[trigger] out@[i])@.len() <= maximum by {
            assert(out@[i]@ == out@.map_values(|c: String| c@)[i]);
            assert(cs[i].len() <= maximum);
        }
    }
    out
}


// ---------------------------------------------------------------------------
// Batches
// ---------------------------------------------------------------------------

/// A piece of text waiting to be translated.
#[derive(Debug, Clone)]
pub struct PendingPart {
    /// Where its translation goes among the results.
    pub result_index: usize,
    /// The text (trimmed content of a chunk).
    pub text: String,
    /// The text holds the batch separator, so it is translated on its own.
    pub force_single: bool,
}

/// The parts that may share a batch, in order.
pub open spec fn regular_of(ps: Seq<PendingPart>) -> Seq<PendingPart>
    decreases ps.len(),
{
    if ps.len() == 0 {
        Seq::empty()
    } else if ps.last().force_single {
        regular_of(ps.drop_last())
    } else {
        regular_of(ps.drop_last()).push(ps.last())
    }
}

/// The parts that must be translated alone, in order.
pub open spec fn forced_of(ps: Seq<PendingPart>) -> Seq<PendingPart>
    decreases ps.len(),
{
    if ps.len() == 0 {
        Seq::empty()
    } else if ps.last().force_single {
        forced_of(ps.drop_last()).push(ps.last())
    } else {
        forced_of(ps.drop_last())
    }
}

/// Into how many groups the regular parts are balanced: when they fit in one
/// round of batches (`maximum_segments * max_concurrent` parts), one group per
/// concurrent slot (at most one per part); otherwise none, and the parts form
/// a single group.
pub open spec fn desired_groups(n: nat, maximum_segments: nat, max_concurrent: nat) -> nat {
    if n > 0 && n <= maximum_segments * max_concurrent {
        let d = if max_concurrent < n {
            max_concurrent
        } else {
            n
        };
        if d < 1 {
            1
        } else {
            d
        }
    } else {
        0
    }
}

/// `n / k` rounded up.
pub open spec fn ceil_div(n: nat, k: nat) -> nat {
    if n % k == 0 {
        n / k
    } else {
        n / k + 1
    }
}

/// The parts cut into `k` consecutive groups whose sizes differ by at most one,
/// the larger groups first.
pub open spec fn balanced(rest: Seq<PendingPart>, k: nat) -> Seq<Seq<PendingPart>>
    decreases k,
{
    if k == 0 {
        Seq::empty()
    } else {
        let take = ceil_div(rest.len(), k);
        let take = if take > rest.len() {
            rest.len()
        } else {
            take
        };
        seq![rest.take(take as int)] + balanced(rest.skip(take as int), (k - 1) as nat)
    }
}

/// The number of characters of a part.
pub open spec fn part_chars(p: PendingPart) -> nat {
    p.text@.len()
}

/// Greedy packing of a group into batches: a part goes into the current batch
/// unless that batch is not empty and either the part's characters would
/// exceed `maximum` or the batch already has `maximum_segments` parts.
pub open spec fn pack_from(
    items: Seq<PendingPart>,
    current: Seq<PendingPart>,
    chars: nat,
    maximum: nat,
    maximum_segments: nat,
) -> Seq<Seq<PendingPart>>
    decreases items.len(),
{
    if items.len() == 0 {
        if current.len() > 0 {
            seq![current]
        } else {
            Seq::empty()
        }
    } else {
        let p = items[0];
        if current.len() > 0 && (chars + part_chars(p) > maximum || current.len()
            >= maximum_segments) {
            seq![current] + pack_from(
                items.drop_first(),
                seq![p],
                part_chars(p),
                maximum,
                maximum_segments,
            )
        } else {
            pack_from(
                items.drop_first(),
                current.push(p),
                chars + part_chars(p),
                maximum,
                maximum_segments,
            )
        }
    }
}

/// The concatenation of a sequence of batches.
pub open spec fn flatten_parts(bs: Seq<Seq<PendingPart>>) -> Seq<PendingPart>
    decreases bs.len(),
{
    if bs.len() == 0 {
        Seq::empty()
    } else {
        flatten_parts(bs.drop_last()) + bs.last()
    }
}

/// The groups of a work list: the balanced (or single) group of regular parts,
/// then one group per part that must be translated alone.
pub open spec fn groups_of(
    ps: Seq<PendingPart>,
    maximum_segments: nat,
    max_concurrent: nat,
) -> Seq<Seq<PendingPart>> {
    let regular = regular_of(ps);
    let d = desired_groups(regular.len(), maximum_segments, max_concurrent);
    let groups = if d > 0 {
        balanced(regular, d)
    } else if regular.len() > 0 {
        seq![regular]
    } else {
        Seq::empty()
    };
    groups + forced_of(ps).map_values(|p: PendingPart| seq![p])
}

/// Every group packed, in order.
pub open spec fn pack_all(
    groups: Seq<Seq<PendingPart>>,
    maximum: nat,
    maximum_segments: nat,
) -> Seq<Seq<PendingPart>>
    decreases groups.len(),
{
    if groups.len() == 0 {
        Seq::empty()
    } else {
        pack_all(groups.drop_last(), maximum, maximum_segments) + pack_from(
            groups.last(),
            Seq::empty(),
            0,
            maximum,
            maximum_segments,
        )
    }
}

/// The batches of a work list.
pub open spec fn batches_spec(
    ps: Seq<PendingPart>,
    maximum: nat,
    maximum_segments: nat,
    max_concurrent: nat,
) -> Seq<Seq<PendingPart>> {
    pack_all(groups_of(ps, maximum_segments, max_concurrent), maximum, maximum_segments)
}

/// A batch respects the limits: it is not empty, it has at most
/// `max(maximum_segments, 1)` parts, and a batch of several parts has at most
/// `maximum` characters.
pub open spec fn batch_within_limits(
    b: Seq<PendingPart>,
    chars: nat,
    maximum: nat,
    maximum_segments: nat,
) -> bool {
    &&& b.len() > 0
    &&& (b.len() <= maximum_segments || b.len() == 1)
    &&& (b.len() == 1 || chars <= maximum)
}

/// The number of characters of a batch.
pub open spec fn batch_chars(b: Seq<PendingPart>) -> nat
    decreases b.len(),
{
    if b.len() == 0 {
        0
    } else {
        batch_chars(b.drop_last()) + part_chars(b.last())
    }
}

proof fn lemma_flatten_push(bs: Seq<Seq<PendingPart>>, b: Seq<PendingPart>)
    ensures
        flatten_parts(bs.push(b)) == flatten_parts(bs) + b,
{
    assert(bs.push(b).drop_last() =~= bs);
}

proof fn lemma_flatten_concat(a: Seq<Seq<PendingPart>>, b: Seq<Seq<PendingPart>>)
    ensures
        flatten_parts(a + b) == flatten_parts(a) + flatten_parts(b),
    decreases b.len(),
{
    if b.len() == 0 {
        assert(a + b =~= a);
        assert(flatten_parts(a) + Seq::<PendingPart>::empty() =~= flatten_parts(a));
    } else {
        lemma_flatten_concat(a, b.drop_last());
        assert((a + b).drop_last() =~= a + b.drop_last());
        assert(flatten_parts(a) + flatten_parts(b.drop_last()) + b.last() =~= flatten_parts(a)
            + (flatten_parts(b.drop_last()) + b.last()));
    }
}

proof fn lemma_batch_chars_push(b: Seq<PendingPart>, p: PendingPart)
    ensures
        batch_chars(b.push(p)) == batch_chars(b) + part_chars(p),
{
    assert(b.push(p).drop_last() =~= b);
}

/// Packing keeps the parts in order, and every batch respects the limits.
pub proof fn lemma_pack_from(
    items: Seq<PendingPart>,
    current: Seq<PendingPart>,
    chars: nat,
    maximum: nat,
    maximum_segments: nat,
)
    requires
        chars == batch_chars(current),
        current.len() == 0 || batch_within_limits(current, chars, maximum, maximum_segments),
    ensures
        flatten_parts(pack_from(items, current, chars, maximum, maximum_segments)) == current
            + items,
        forall|i: int|
            0 <= i < pack_from(items, current, chars, maximum, maximum_segments).len()
                ==> batch_within_limits(
                #[trigger] pack_from(items, current, chars, maximum, maximum_segments)[i],
                batch_chars(pack_from(items, current, chars, maximum, maximum_segments)[i]),
                maximum,
                maximum_segments,
            ),
    decreases items.len(),
{
    let r = pack_from(items, current, chars, maximum, maximum_segments);
    if items.len() == 0 {
        if current.len() > 0 {
            lemma_flatten_push(Seq::empty(), current);
            assert(Seq::<Seq<PendingPart>>::empty().push(current) =~= seq![current]);
            assert(Seq::<PendingPart>::empty() + current =~= current);
        } else {
            assert(current + items =~= Seq::<PendingPart>::empty());
        }
        assert(current + items =~= current);
    } else {
        let p = items[0];
        let rest = items.drop_first();
        if current.len() > 0 && (chars + part_chars(p) > maximum || current.len()
            >= maximum_segments) {
            assert(batch_chars(seq![p]) == part_chars(p)) by {
                assert(seq![p].drop_last() =~= Seq::<PendingPart>::empty());
                assert(batch_chars(Seq::<PendingPart>::empty()) == 0);
                assert(seq![p].last() == p);
            }
            lemma_pack_from(rest, seq![p], part_chars(p), maximum, maximum_segments);
            let tail = pack_from(rest, seq![p], part_chars(p), maximum, maximum_segments);
            lemma_flatten_concat(seq![current], tail);
            lemma_flatten_push(Seq::empty(), current);
            assert(Seq::<Seq<PendingPart>>::empty().push(current) =~= seq![current]);
            assert(Seq::<PendingPart>::empty() + current =~= current);
            assert(current + (seq![p] + rest) =~= current + items);
            assert forall|i: int| 0 <= i < r.len() implies batch_within_limits(
                #[trigger] r[i],
                batch_chars(r[i]),
                maximum,
                maximum_segments,
            ) by {
                if i > 0 {
                    assert(r[i] == tail[i - 1]);
                }
            }
        } else {
            lemma_batch_chars_push(current, p);
            lemma_pack_from(
                rest,
                current.push(p),
                chars + part_chars(p),
                maximum,
                maximum_segments,
            );
            assert(current.push(p) + rest =~= current + items);
        }
    }
}

proof fn lemma_pack_all(groups: Seq<Seq<PendingPart>>, maximum: nat, maximum_segments: nat)
    ensures
        flatten_parts(pack_all(groups, maximum, maximum_segments)) == flatten_parts(groups),
        forall|i: int|
            0 <= i < pack_all(groups, maximum, maximum_segments).len() ==> batch_within_limits(
                #[trigger] pack_all(groups, maximum, maximum_segments)[i],
                batch_chars(pack_all(groups, maximum, maximum_segments)[i]),
                maximum,
                maximum_segments,
            ),
    decreases groups.len(),
{
    if groups.len() > 0 {
        let front = pack_all(groups.drop_last(), maximum, maximum_segments);
        let last = pack_from(groups.last(), Seq::empty(), 0, maximum, maximum_segments);
        lemma_pack_all(groups.drop_last(), maximum, maximum_segments);
        lemma_pack_from(groups.last(), Seq::empty(), 0, maximum, maximum_segments);
        lemma_flatten_concat(front, last);
        assert(Seq::<PendingPart>::empty() + groups.last() =~= groups.last());
        let r = pack_all(groups, maximum, maximum_segments);
        assert forall|i: int| 0 <= i < r.len() implies batch_within_limits(
            #[trigger] r[i],
            batch_chars(r[i]),
            maximum,
            maximum_segments,
        ) by {
            if i < front.len() {
                assert(r[i] == front[i]);
            } else {
                assert(r[i] == last[i - front.len()]);
            }
        }
    }
}

proof fn lemma_balanced(rest: Seq<PendingPart>, k: nat)
    ensures
        k > 0 ==> flatten_parts(balanced(rest, k)) == rest,
        balanced(rest, k).len() == k,
    decreases k,
{
    if k > 0 {
        let take0 = ceil_div(rest.len(), k);
        let take = if take0 > rest.len() {
            rest.len()
        } else {
            take0
        };
        let tail = balanced(rest.skip(take as int), (k - 1) as nat);
        lemma_balanced(rest.skip(take as int), (k - 1) as nat);
        lemma_flatten_concat(seq![rest.take(take as int)], tail);
        lemma_flatten_push(Seq::empty(), rest.take(take as int));
        assert(Seq::<Seq<PendingPart>>::empty().push(rest.take(take as int)) =~= seq![
            rest.take(take as int),
        ]);
        assert(Seq::<PendingPart>::empty() + rest.take(take as int) =~= rest.take(take as int));
        if k == 1 {
            assert(take == rest.len()) by {
                lemma_div_one(rest.len());
            }
            assert(tail.len() == 0);
            assert(flatten_parts(tail) == Seq::<PendingPart>::empty());
            assert(rest.take(take as int) + Seq::<PendingPart>::empty() =~= rest);
        } else {
            assert(rest.take(take as int) + rest.skip(take as int) =~= rest);
        }
    }
}

proof fn lemma_div_one(n: nat)
    ensures
        n % 1 == 0,
        n / 1 == n,
{
    assert(n % 1 == 0 && n / 1 == n) by (nonlinear_arith);
}

proof fn lemma_div_le(n: nat, k: nat)
    requires
        k >= 1,
    ensures
        n / k <= n,
{
    assert(n / k <= n) by (nonlinear_arith)
        requires
            k >= 1,
    ;
}

proof fn lemma_flatten_singletons(ps: Seq<PendingPart>)
    ensures
        flatten_parts(ps.map_values(|p: PendingPart| seq![p])) == ps,
    decreases ps.len(),
{
    if ps.len() > 0 {
        lemma_flatten_singletons(ps.drop_last());
        assert(ps.map_values(|p: PendingPart| seq![p]).drop_last() =~= ps.drop_last().map_values(
            |p: PendingPart| seq![p],
        ));
        assert(ps.drop_last() + seq![ps.last()] =~= ps);
    }
}

/// The batches of a work list hold exactly its regular parts, in order,
/// followed by its parts that must be translated alone, in order; and every
/// batch respects the limits.
pub proof fn lemma_batches(
    ps: Seq<PendingPart>,
    maximum: nat,
    maximum_segments: nat,
    max_concurrent: nat,
)
    ensures
        flatten_parts(batches_spec(ps, maximum, maximum_segments, max_concurrent)) == regular_of(
            ps,
        ) + forced_of(ps),
        forall|i: int|
            0 <= i < batches_spec(ps, maximum, maximum_segments, max_concurrent).len()
                ==> batch_within_limits(
                #[trigger] batches_spec(ps, maximum, maximum_segments, max_concurrent)[i],
                batch_chars(batches_spec(ps, maximum, maximum_segments, max_concurrent)[i]),
                maximum,
                maximum_segments,
            ),
{
    let regular = regular_of(ps);
    let d = desired_groups(regular.len(), maximum_segments, max_concurrent);
    let groups = if d > 0 {
        balanced(regular, d)
    } else if regular.len() > 0 {
        seq![regular]
    } else {
        Seq::empty()
    };
    let singles = forced_of(ps).map_values(|p: PendingPart| seq![p]);
    lemma_pack_all(groups + singles, maximum, maximum_segments);
    lemma_flatten_concat(groups, singles);
    lemma_flatten_singletons(forced_of(ps));
    if d > 0 {
        lemma_balanced(regular, d);
    } else if regular.len() > 0 {
        lemma_flatten_push(Seq::empty(), regular);
        assert(Seq::<Seq<PendingPart>>::empty().push(regular) =~= seq![regular]);
        assert(Seq::<PendingPart>::empty() + regular =~= regular);
    } else {
        assert(flatten_parts(groups) =~= regular);
    }
}

fn part_char_count(p: &PendingPart) -> (n: usize)
    ensures
        n == part_chars(*p),
{
    chars_of(p.text.as_str()).len()
}

/// Packs one group into batches, appending them to `packed`.
fn pack_group(
    packed: &mut Vec<Vec<PendingPart>>,
    group: Vec<PendingPart>,
    maximum: usize,
    maximum_segments: usize,
)
    ensures
        final(packed)@.map_values(|b: Vec<PendingPart>| b@) == old(packed)@.map_values(
            |b: Vec<PendingPart>| b@,
        ) + pack_from(group@, Seq::empty(), 0, maximum as nat, maximum_segments as nat),
{
    let ghost g = group@;
    let ghost start = old(packed)@.map_values(|b: Vec<PendingPart>| b@);
    let mut current: Vec<PendingPart> = Vec::new();
    let mut chars: usize = 0;
    let ghost mut i: int = 0;
    assert(g.skip(0) =~= g);
    assert(start + pack_from(g, Seq::empty(), 0, maximum as nat, maximum_segments as nat)
        =~= start + pack_from(g, Seq::empty(), 0, maximum as nat, maximum_segments as nat));
    for part in it: group
        invariant
            g == it.seq(),
            i == it.index(),
            0 <= i <= g.len(),
            chars == batch_chars(current@),
            current@.len() <= 1 || chars <= maximum,
            packed@.map_values(|b: Vec<PendingPart>| b@) + pack_from(
                g.skip(i as int),
                current@,
                chars as nat,
                maximum as nat,
                maximum_segments as nat,
            ) == start + pack_from(g, Seq::empty(), 0, maximum as nat, maximum_segments as nat),
    {
        let ghost rest = g.skip(i as int);
        proof {
            assert(rest[0] == part);
            assert(rest.drop_first() =~= g.skip(i + 1));
        }
        let pc = part_char_count(&part);
        let too_long = pc > maximum || chars > maximum - pc;
        if current.len() > 0 && (too_long || current.len() >= maximum_segments) {
            let ghost before = packed@;
            let full = current;
            packed.push(full);
            proof {
                assert(packed@.map_values(|b: Vec<PendingPart>| b@) =~= before.map_values(
                    |b: Vec<PendingPart>| b@,
                ).push(full@));
                assert(seq![full@] =~= Seq::<Seq<PendingPart>>::empty().push(full@));
                assert(before.map_values(|b: Vec<PendingPart>| b@).push(full@) + pack_from(
                    g.skip(i + 1),
                    seq![part],
                    pc as nat,
                    maximum as nat,
                    maximum_segments as nat,
                ) =~= before.map_values(|b: Vec<PendingPart>| b@) + (seq![full@] + pack_from(
                    g.skip(i + 1),
                    seq![part],
                    pc as nat,
                    maximum as nat,
                    maximum_segments as nat,
                )));
            }
            current = Vec::new();
            current.push(part);
            proof {
                assert(current@ =~= seq![part]);
                assert(seq![part].drop_last() =~= Seq::<PendingPart>::empty());
                assert(batch_chars(Seq::<PendingPart>::empty()) == 0);
                assert(batch_chars(current@) == pc);
            }
            chars = pc;
        } else {
            proof {
                lemma_batch_chars_push(current@, part);
            }
            current.push(part);
            if current.len() > 1 {
                chars = chars + pc;
            } else {
                chars = pc;
            }
        }
        proof {
            i = i + 1;
        }
    }
    proof {
        assert(g.skip(i as int).len() == 0);
    }
    if current.len() > 0 {
        let ghost before = packed@;
        packed.push(current);
        proof {
            assert(packed@.map_values(|b: Vec<PendingPart>| b@) =~= before.map_values(
                |b: Vec<PendingPart>| b@,
            ).push(current@));
            assert(before.map_values(|b: Vec<PendingPart>| b@) + seq![current@] =~= before.map_values(
                |b: Vec<PendingPart>| b@,
            ).push(current@));
        }
    } else {
        assert(packed@.map_values(|b: Vec<PendingPart>| b@) + Seq::<Seq<PendingPart>>::empty()
            =~= packed@.map_values(|b: Vec<PendingPart>| b@));
    }
}

/// Without parts that must go alone, every part is regular.
proof fn lemma_all_regular(ps: Seq<PendingPart>)
    requires
        forall|i: int| 0 <= i < ps.len() ==> !(#[trigger] ps[i]).force_single,
    ensures
        regular_of(ps) == ps,
        forced_of(ps) == Seq::<PendingPart>::empty(),
    decreases ps.len(),
{
    if ps.len() > 0 {
        let t = ps.drop_last();
        assert forall|i: int| 0 <= i < t.len() implies !(#[trigger] t[i]).force_single by {
            assert(t[i] == ps[i]);
        }
        lemma_all_regular(t);
        assert(!ps[ps.len() - 1].force_single);
        assert(t.push(ps.last()) =~= ps);
    }
}

/// The characters of two lists of parts together.
proof fn lemma_batch_chars_concat(a: Seq<PendingPart>, b: Seq<PendingPart>)
    ensures
        batch_chars(a + b) == batch_chars(a) + batch_chars(b),
    decreases b.len(),
{
    if b.len() == 0 {
        assert(a + b =~= a);
    } else {
        lemma_batch_chars_concat(a, b.drop_last());
        assert((a + b).drop_last() =~= a + b.drop_last());
        assert((a + b).last() == b.last());
    }
}

/// `n` split into `k` parts, rounding up, when `q * k <= n <= q * k + k`.
proof fn lemma_ceil_div_between(n: nat, k: nat, q: nat)
    requires
        k >= 1,
        q * k <= n <= q * k + k,
    ensures
        ceil_div(n, k) == if n == q * k {
            q
        } else {
            q + 1
        },
{
    vstd::arithmetic::div_mod::lemma_fundamental_div_mod(n as int, k as int);
    vstd::arithmetic::div_mod::lemma_mod_bound(n as int, k as int);
    let d = n / k;
    let r = n % k;
    assert(n == k * d + r);
    assert(d == q || d == q + 1) by (nonlinear_arith)
        requires
            n == k * d + r,
            0 <= r < k,
            q * k <= n <= q * k + k,
            k >= 1,
            d >= 0,
    {
        if d < q {
            assert(k * d <= k * (q - 1));
        } else if d > q + 1 {
            assert(k * d >= k * (q + 2));
        }
    }
    if d == q + 1 {
        assert(k * d == q * k + k) by (nonlinear_arith)
            requires
                d == q + 1,
        ;
    } else {
        assert(k * d == q * k) by (nonlinear_arith)
            requires
                d == q,
        ;
    }
}

/// The balanced groups: `k` of them, each of `q` or `q + 1` parts (all of
/// `q` when the parts divide evenly), together the parts in order, each with
/// no more characters than all the parts.
proof fn lemma_balanced_sizes(rest: Seq<PendingPart>, k: nat, q: nat)
    requires
        k >= 1,
        q * k <= rest.len() <= q * k + k,
    ensures
        balanced(rest, k).len() == k,
        forall|i: int|
            0 <= i < k ==> q <= (#[trigger] balanced(rest, k)[i]).len() <= q + 1 && batch_chars(
                balanced(rest, k)[i],
            ) <= batch_chars(rest),
        rest.len() == q * k ==> forall|i: int|
            0 <= i < k ==> (#[trigger] balanced(rest, k)[i]).len() == q,
        flatten_parts(balanced(rest, k)) == rest,
    decreases k,
{
    let n = rest.len();
    lemma_ceil_div_between(n, k, q);
    let t = ceil_div(n, k);
    assert(t <= n) by (nonlinear_arith)
        requires
            t == (if n == q * k {
                q
            } else {
                q + 1
            }),
            q * k <= n,
            k >= 1,
    ;
    let first = rest.take(t as int);
    let later = rest.skip(t as int);
    assert(first + later =~= rest);
    lemma_batch_chars_concat(first, later);
    let tail = balanced(later, (k - 1) as nat);
    assert(balanced(rest, k) == seq![first] + tail);
    if k == 1 {
        assert(later.len() == 0) by (nonlinear_arith)
            requires
                t == (if n == q * k {
                    q
                } else {
                    q + 1
                }),
                q * k <= n <= q * k + k,
                k == 1,
                later.len() == n - t,
        ;
        assert(tail =~= Seq::<Seq<PendingPart>>::empty());
        assert(later =~= Seq::<PendingPart>::empty());
        assert(flatten_parts(seq![first]) == flatten_parts(seq![first].drop_last()) + first);
        assert(seq![first].drop_last() =~= Seq::<Seq<PendingPart>>::empty());
        assert(Seq::<PendingPart>::empty() + first =~= first);
        assert(seq![first] + tail =~= seq![first]);
    } else {
        let k1 = (k - 1) as nat;
        assert(q * k1 <= later.len() <= q * k1 + k1 && (n == q * k ==> later.len() == q * k1)) by (nonlinear_arith)
            requires
                t == (if n == q * k {
                    q
                } else {
                    q + 1
                }),
                q * k <= n <= q * k + k,
                k1 == k - 1,
                k >= 2,
                later.len() == n - t,
        ;
        lemma_balanced_sizes(later, k1, q);
        lemma_flatten_concat(seq![first], tail);
        assert(seq![first].drop_last() =~= Seq::<Seq<PendingPart>>::empty());
        assert(flatten_parts(seq![first]) == flatten_parts(seq![first].drop_last()) + first);
        assert(Seq::<PendingPart>::empty() + first =~= first);
        assert forall|i: int| 0 <= i < k implies q <= (#[trigger] balanced(rest, k)[i]).len() <= q
            + 1 && batch_chars(balanced(rest, k)[i]) <= batch_chars(rest) by {
            if i > 0 {
                assert(balanced(rest, k)[i] == tail[i - 1]);
            }
        }
        assert forall|i: int| n == q * k && 0 <= i < k implies (#[trigger] balanced(rest, k)[i]).len()
            == q by {
            if i > 0 {
                assert(balanced(rest, k)[i] == tail[i - 1]);
            }
        }
    }
}

/// A group that fits both limits is packed into one batch.
proof fn lemma_pack_fits(
    items: Seq<PendingPart>,
    current: Seq<PendingPart>,
    chars: nat,
    maximum: nat,
    maximum_segments: nat,
)
    requires
        current.len() + items.len() > 0,
        chars == batch_chars(current),
        batch_chars(current + items) <= maximum,
        current.len() + items.len() <= maximum_segments,
    ensures
        pack_from(items, current, chars, maximum, maximum_segments) == seq![current + items],
    decreases items.len(),
{
    if items.len() == 0 {
        assert(current + items =~= current);
    } else {
        let p = items[0];
        let next = current.push(p);
        assert(next + items.drop_first() =~= current + items);
        lemma_batch_chars_concat(next, items.drop_first());
        lemma_batch_chars_push(current, p);
        lemma_pack_fits(items.drop_first(), next, chars + part_chars(p), maximum, maximum_segments);
    }
}

/// Groups that each fit both limits are packed one batch each.
proof fn lemma_pack_all_fits(groups: Seq<Seq<PendingPart>>, maximum: nat, maximum_segments: nat)
    requires
        forall|i: int|
            0 <= i < groups.len() ==> (#[trigger] groups[i]).len() > 0 && groups[i].len()
                <= maximum_segments && batch_chars(groups[i]) <= maximum,
    ensures
        pack_all(groups, maximum, maximum_segments) == groups,
    decreases groups.len(),
{
    if groups.len() > 0 {
        let g = groups.last();
        assert(groups[groups.len() - 1] == g);
        lemma_pack_all_fits(groups.drop_last(), maximum, maximum_segments);
        assert(Seq::<PendingPart>::empty() + g =~= g);
        lemma_pack_fits(g, Seq::empty(), 0, maximum, maximum_segments);
        assert(groups.drop_last() + seq![g] =~= groups);
    }
}

/// Work that fits in one round is balanced across the file slots: when
/// `n` parts, none of which must go alone, number at most
/// `maximum_segments * max_concurrent` and together fit the character limit,
/// they form `min(max_concurrent, n)` batches, in order, whose sizes differ
/// by at most one.
pub proof fn lemma_small_work_is_balanced(
    ps: Seq<PendingPart>,
    maximum: nat,
    maximum_segments: nat,
    max_concurrent: nat,
)
    requires
        forall|i: int| 0 <= i < ps.len() ==> !(#[trigger] ps[i]).force_single,
        0 < ps.len() <= maximum_segments * max_concurrent,
        batch_chars(ps) <= maximum,
    ensures
        ({
            let bs = batches_spec(ps, maximum, maximum_segments, max_concurrent);
            &&& bs.len() == if max_concurrent < ps.len() {
                max_concurrent
            } else {
                ps.len()
            }
            &&& forall|i: int, j: int|
                0 <= i < bs.len() && 0 <= j < bs.len() ==> (#[trigger] bs[i]).len() <= (
                #[trigger] bs[j]).len() + 1
            &&& forall|i: int| 0 <= i < bs.len() ==> (#[trigger] bs[i]).len() > 0
            &&& flatten_parts(bs) == ps
        }),
{
    let n = ps.len();
    let ms = maximum_segments;
    let mc = max_concurrent;
    lemma_all_regular(ps);
    assert(mc >= 1 && ms >= 1) by (nonlinear_arith)
        requires
            0 < n <= ms * mc,
    ;
    let d: nat = if mc < n {
        mc
    } else {
        n
    };
    assert(desired_groups(n, ms, mc) == d);
    vstd::arithmetic::div_mod::lemma_fundamental_div_mod(n as int, d as int);
    vstd::arithmetic::div_mod::lemma_mod_bound(n as int, d as int);
    let q = n / d;
    let r = n % d;
    assert(q * d <= n <= q * d + d && q >= 1) by (nonlinear_arith)
        requires
            n == d * q + r,
            0 <= r < d,
            d <= n,
            d >= 1,
    ;
    let groups = balanced(ps, d);
    assert(groups_of(ps, ms, mc) == groups) by {
        assert(forced_of(ps).map_values(|p: PendingPart| seq![p]) =~= Seq::<Seq<PendingPart>>::empty());
        assert(groups + Seq::<Seq<PendingPart>>::empty() =~= groups);
    }
    lemma_balanced_sizes(ps, d, q);
    assert forall|i: int| 0 <= i < groups.len() implies (#[trigger] groups[i]).len() > 0
        && groups[i].len() <= ms && batch_chars(groups[i]) <= maximum by {
        if n == q * d {
            if d == mc {
                assert(q <= ms) by (nonlinear_arith)
                    requires
                        n == q * mc,
                        n <= ms * mc,
                        mc >= 1,
                ;
            } else {
                assert(q <= 1) by (nonlinear_arith)
                    requires
                        n == q * n,
                        n >= 1,
                {
                    if q >= 2 {
                        assert(q * n >= 2 * n);
                    }
                }
            }
        } else {
            assert(q + 1 <= ms) by (nonlinear_arith)
                requires
                    n == d * q + r,
                    0 < r < d,
                    n <= ms * mc,
                    d == mc || d == n,
                    d >= 1,
            {
                if d == n {
                    assert(d * q + r >= d * 1 + r);
                }
            }
        }
    }
    lemma_pack_all_fits(groups, maximum, ms);
}

/// Groups the parts to translate into batches: parts that hold the separator
/// get a batch each; the others are first balanced over the concurrent slots
/// when they fit in one round, then packed greedily under the character and
/// segment limits.
pub fn make_batches(
    pending: Vec<PendingPart>,
    maximum: usize,
    maximum_segments: usize,
    max_concurrent: usize,
) -> (r: Vec<Vec<PendingPart>>)
    ensures
        r@.map_values(|b: Vec<PendingPart>| b@) == batches_spec(
            pending@,
            maximum as nat,
            maximum_segments as nat,
            max_concurrent as nat,
        ),
        flatten_parts(r@.map_values(|b: Vec<PendingPart>| b@)) == regular_of(pending@)
            + forced_of(pending@),
        forall|i: int|
            0 <= i < r@.len() ==> batch_within_limits(
                (#[trigger] r@[i])@,
                batch_chars(r@[i]@),
                maximum as nat,
                maximum_segments as nat,
            ),
{
    let ghost ps = pending@;
    proof {
        lemma_batches(ps, maximum as nat, maximum_segments as nat, max_concurrent as nat);
    }
    let mut forced: Vec<PendingPart> = Vec::new();
    let mut regular: Vec<PendingPart> = Vec::new();
    let ghost mut i: int = 0;
    assert(ps.take(0) =~= Seq::<PendingPart>::empty());
    for part in it: pending
        invariant
            ps == it.seq(),
            i == it.index(),
            0 <= i <= ps.len(),
            regular@ == regular_of(ps.take(i as int)),
            forced@ == forced_of(ps.take(i as int)),
    {
        proof {
            assert(ps.take(i + 1).drop_last() =~= ps.take(i as int));
            assert(ps.take(i + 1).last() == part);
        }
        if part.force_single {
            forced.push(part);
        } else {
            regular.push(part);
        }
        proof {
            i = i + 1;
        }
    }
    assert(ps.take(i) =~= ps);
    let n = regular.len();
    let capacity = match maximum_segments.checked_mul(max_concurrent) {
        Some(c) => c,
        None => usize::MAX,
    };
    let desired: usize = if n > 0 && n <= capacity {
        let d = if max_concurrent < n {
            max_concurrent
        } else {
            n
        };
        if d < 1 {
            1
        } else {
            d
        }
    } else {
        0
    };
    assert(desired == desired_groups(n as nat, maximum_segments as nat, max_concurrent as nat)) by {
        if n > 0 && n <= capacity {
        } else if n > 0 {
            assert(n > maximum_segments * max_concurrent);
        }
    }
    let mut packed: Vec<Vec<PendingPart>> = Vec::new();
    let ghost groups = if desired > 0 {
        balanced(regular@, desired as nat)
    } else if regular@.len() > 0 {
        seq![regular@]
    } else {
        Seq::empty()
    };
    if desired > 0 {
        let mut g: usize = 0;
        let mut rest = regular;
        while g < desired
            invariant
                g <= desired,
                desired > 0,
                groups == balanced(regular_of(ps), desired as nat),
                packed@.map_values(|b: Vec<PendingPart>| b@) + pack_all(
                    balanced(rest@, (desired - g) as nat),
                    maximum as nat,
                    maximum_segments as nat,
                ) == pack_all(groups, maximum as nat, maximum_segments as nat),
            decreases desired - g,
        {
            let remaining = rest.len();
            let k = desired - g;
            let q = remaining / k;
            proof {
                lemma_div_le(remaining as nat, k as nat);
            }
            let take = if remaining % k != 0 && q < remaining {
                q + 1
            } else {
                q
            };
            let ghost before_rest = rest@;
            let tail = rest.split_off(take);
            let group = rest;
            rest = tail;
            proof {
                assert(take as nat == {
                    let t = ceil_div(before_rest.len(), k as nat);
                    if t > before_rest.len() {
                        before_rest.len()
                    } else {
                        t
                    }
                });
                lemma_pack_all_front(
                    group@,
                    balanced(rest@, (k - 1) as nat),
                    maximum as nat,
                    maximum_segments as nat,
                );
            }
            let ghost before = packed@.map_values(|b: Vec<PendingPart>| b@);
            pack_group(&mut packed, group, maximum, maximum_segments);
            g = g + 1;
        }
        assert(balanced(rest@, 0) =~= Seq::<Seq<PendingPart>>::empty());
        assert(pack_all(Seq::<Seq<PendingPart>>::empty(), maximum as nat, maximum_segments as nat)
            =~= Seq::<Seq<PendingPart>>::empty());
        assert(packed@.map_values(|b: Vec<PendingPart>| b@) + Seq::<Seq<PendingPart>>::empty()
            =~= packed@.map_values(|b: Vec<PendingPart>| b@));
    } else if regular.len() > 0 {
        proof {
            lemma_pack_all_front(
                regular@,
                Seq::empty(),
                maximum as nat,
                maximum_segments as nat,
            );
            assert(seq![regular@] + Seq::<Seq<PendingPart>>::empty() =~= seq![regular@]);
            assert(Seq::<Seq<PendingPart>>::empty() + pack_from(regular@, Seq::empty(), 0, maximum as nat, maximum_segments as nat) =~= pack_from(regular@, Seq::empty(), 0, maximum as nat, maximum_segments as nat));
        }
        pack_group(&mut packed, regular, maximum, maximum_segments);
    }
    assert(packed@.map_values(|b: Vec<PendingPart>| b@) == pack_all(
        groups,
        maximum as nat,
        maximum_segments as nat,
    ));
    let ghost fs = forced@;
    let ghost mut j: int = 0;
    assert(groups + fs.take(0).map_values(|p: PendingPart| seq![p]) =~= groups);
    for part in it: forced
        invariant
            fs == it.seq(),
            j == it.index(),
            0 <= j <= fs.len(),
            packed@.map_values(|b: Vec<PendingPart>| b@) == pack_all(
                groups + fs.take(j as int).map_values(|p: PendingPart| seq![p]),
                maximum as nat,
                maximum_segments as nat,
            ),
    {
        let mut single: Vec<PendingPart> = Vec::new();
        single.push(part);
        proof {
            assert(single@ =~= seq![part]);
            assert(groups + fs.take(j + 1).map_values(|p: PendingPart| seq![p]) =~= (groups
                + fs.take(j as int).map_values(|p: PendingPart| seq![p])).push(seq![part]));
            assert((groups + fs.take(j as int).map_values(|p: PendingPart| seq![p])).push(
                seq![part],
            ).drop_last() =~= groups + fs.take(j as int).map_values(|p: PendingPart| seq![p]));
        }
        pack_group(&mut packed, single, maximum, maximum_segments);
        proof {
            j = j + 1;
        }
    }
    assert(fs.take(j) =~= fs);
    proof {
        let bs = batches_spec(ps, maximum as nat, maximum_segments as nat, max_concurrent as nat);
        assert(packed@.map_values(|b: Vec<PendingPart>| b@) == bs);
        assert forall|i: int| 0 <= i < packed@.len() implies batch_within_limits(
            (#[trigger] packed@[i])@,
            batch_chars(packed@[i]@),
            maximum as nat,
            maximum_segments as nat,
        ) by {
            assert(packed@[i]@ == bs[i]);
        }
    }
    packed
}

proof fn lemma_pack_all_front(
    g: Seq<PendingPart>,
    rest: Seq<Seq<PendingPart>>,
    maximum: nat,
    maximum_segments: nat,
)
    ensures
        pack_all(seq![g] + rest, maximum, maximum_segments) == pack_from(
            g,
            Seq::empty(),
            0,
            maximum,
            maximum_segments,
        ) + pack_all(rest, maximum, maximum_segments),
    decreases rest.len(),
{
    if rest.len() == 0 {
        assert(seq![g] + rest =~= seq![g]);
        assert(seq![g].drop_last() =~= Seq::<Seq<PendingPart>>::empty());
        assert(pack_all(Seq::<Seq<PendingPart>>::empty(), maximum, maximum_segments) == Seq::<Seq<PendingPart>>::empty());
        assert(pack_all(rest, maximum, maximum_segments) == Seq::<Seq<PendingPart>>::empty());
        assert(seq![g].last() == g);
        assert(Seq::<Seq<PendingPart>>::empty() + pack_from(g, Seq::empty(), 0, maximum, maximum_segments) =~= pack_from(g, Seq::empty(), 0, maximum, maximum_segments));
        assert(pack_from(g, Seq::empty(), 0, maximum, maximum_segments) + Seq::<Seq<PendingPart>>::empty() =~= pack_from(g, Seq::empty(), 0, maximum, maximum_segments));
    } else {
        lemma_pack_all_front(g, rest.drop_last(), maximum, maximum_segments);
        assert((seq![g] + rest).drop_last() =~= seq![g] + rest.drop_last());
        assert((seq![g] + rest).last() == rest.last());
        assert(pack_from(g, Seq::empty(), 0, maximum, maximum_segments) + pack_all(rest.drop_last(), maximum, maximum_segments) + pack_from(rest.last(), Seq::empty(), 0, maximum, maximum_segments) =~= pack_from(g, Seq::empty(), 0, maximum, maximum_segments) + (pack_all(rest.drop_last(), maximum, maximum_segments) + pack_from(rest.last(), Seq::empty(), 0, maximum, maximum_segments)));
    }
}

// ---------------------------------------------------------------------------
// Streaming progress
// ---------------------------------------------------------------------------

/// How many segments a partial batch reply has started: none for a blank
/// reply; otherwise one per separator marker, plus one for a segment still
/// being written after the last marker.
pub open spec fn partial_count(text: Seq<char>) -> nat {
    let content = trim(normalize_newlines(text));
    if content.len() == 0 {
        0
    } else if ends_with_seq(content, segment_marker()) {
        count_matches(content, segment_marker())
    } else {
        count_matches(content, segment_marker()) + 1
    }
}

/// The number of segments a streaming batch reply has reached so far.
pub fn partial_batch_item_count(text: &str) -> (n: usize)
    ensures
        n == partial_count(text@),
{
    let chars = chars_of(text);
    let normalized = normalize_newline_chars(chars.as_slice());
    let content = trim_chars(normalized.as_slice());
    if content.len() == 0 {
        return 0;
    }
    let marker = crate::ai::marker_chars();
    let pieces = split_chars(content.as_slice(), marker.as_slice());
    proof {
        lemma_split_nonempty(content@, marker@);
        assert(pieces@.len() == pieces@.map_values(|p: Vec<char>| p@).len());
    }
    let completed = pieces.len() - 1;
    if ends_with_chars(content.as_slice(), marker.as_slice()) {
        completed
    } else {
        assert(completed < pieces@.len());
        completed + 1
    }
}

/// The part of a streaming reply shown as a preview: its last 4,000 characters.
pub open spec fn preview_spec(text: Seq<char>) -> Seq<char> {
    if text.len() <= 4000 {
        text
    } else {
        text.skip(text.len() - 4000)
    }
}

/// The preview of a streaming reply.
pub fn stream_preview(text: &str) -> (r: String)
    ensures
        r@ == preview_spec(text@),
{
    let chars = chars_of(text);
    if chars.len() <= 4000 {
        return String::from_str(text);
    }
    let tail = slice_chars(chars.as_slice(), chars.len() - 4000, chars.len());
    assert(tail@ =~= chars@.skip(chars@.len() - 4000));
    string_from_chars(tail.as_slice())
}

// ---------------------------------------------------------------------------
// Output names
// ---------------------------------------------------------------------------

/// The index of the last occurrence of `c` in `s`, or -1.
pub open spec fn last_index_of(s: Seq<char>, c: char) -> int
    decreases s.len(),
{
    if s.len() == 0 {
        -1
    } else if s.last() == c {
        s.len() - 1
    } else {
        last_index_of(s.drop_last(), c)
    }
}

/// Facts about `last_index_of`.
pub proof fn lemma_last_index_of(s: Seq<char>, c: char)
    ensures
        -1 <= last_index_of(s, c) < s.len(),
        last_index_of(s, c) >= 0 ==> s[last_index_of(s, c)] == c,
        forall|j: int| last_index_of(s, c) < j < s.len() ==> #[trigger] s[j] != c,
    decreases s.len(),
{
    if s.len() > 0 && s.last() != c {
        let t = s.drop_last();
        lemma_last_index_of(t, c);
        assert forall|j: int| last_index_of(s, c) < j < s.len() implies #[trigger] s[j] != c by {
            if j < s.len() - 1 {
                assert(s[j] == t[j]);
            }
        }
    }
}

/// An occurrence of `c` with none after it is the last one.
proof fn lemma_last_index_is(s: Seq<char>, c: char, i: int)
    requires
        0 <= i < s.len(),
        s[i] == c,
        forall|j: int| i < j < s.len() ==> #[trigger] s[j] != c,
    ensures
        last_index_of(s, c) == i,
    decreases s.len(),
{
    if i < s.len() - 1 {
        let t = s.drop_last();
        assert(s.last() != c);
        assert forall|j: int| i < j < t.len() implies #[trigger] t[j] != c by {
            assert(t[j] == s[j]);
        }
        lemma_last_index_is(t, c, i);
    }
}

/// The index of the last occurrence of `c`.
pub fn rfind_char(s: &[char], c: char) -> (r: Option<usize>)
    ensures
        match r {
            Some(i) => last_index_of(s@, c) == i && i < s@.len(),
            None => last_index_of(s@, c) < 0,
        },
{
    proof {
        lemma_last_index_of(s@, c);
    }
    let mut end: usize = s.len();
    while end > 0 && s[end - 1] != c
        invariant
            end <= s@.len(),
            forall|j: int| end <= j < s@.len() ==> #[trigger] s@[j] != c,
        decreases end,
    {
        end = end - 1;
    }
    if end == 0 {
        assert(last_index_of(s@, c) < 0) by {
            if last_index_of(s@, c) >= 0 {
                assert(s@[last_index_of(s@, c)] == c);
            }
        }
        None
    } else {
        assert(s@[end - 1] == c);
        Some(end - 1)
    }
}

/// The name of a translated file: `-translated` before the extension, or at
/// the end when the name has no extension (or starts with its only dot).
pub open spec fn translated_name(filename: Seq<char>) -> Seq<char> {
    let k = last_index_of(filename, '.');
    if k > 0 {
        filename.take(k) + "-translated"@ + filename.skip(k)
    } else {
        filename + "-translated"@
    }
}

/// A translated file keeps its type: when the name has an extension (a dot
/// after its first character), the name of the translation ends with the same
/// extension, so it is a file of the same kind.
pub proof fn lemma_translated_name_keeps_kind(filename: Seq<char>)
    requires
        last_index_of(filename, '.') > 0,
    ensures
        extension_of(translated_name(filename)) == extension_of(filename),
        file_kind_spec(translated_name(filename)) == file_kind_spec(filename),
{
    let k = last_index_of(filename, '.');
    lemma_last_index_of(filename, '.');
    reveal_strlit("-translated");
    let t = translated_name(filename);
    let m = k + 11;
    assert(t == filename.take(k) + "-translated"@ + filename.skip(k));
    assert(t.len() == filename.len() + 11);
    assert(t[m] == filename[k]);
    assert forall|j: int| m < j < t.len() implies #[trigger] t[j] != '.' by {
        assert(t[j] == filename[j - 11]);
    }
    lemma_last_index_is(t, '.', m);
    assert(t.skip(m + 1) =~= filename.skip(k + 1));
}

/// The name of a translated file (see [`translated_name`]).
pub fn translated_filename(filename: &str) -> (r: String)
    ensures
        r@ == translated_name(filename@),
{
    let chars = chars_of(filename);
    match rfind_char(chars.as_slice(), '.') {
        Some(index) if index > 0 => {
            let head = slice_chars(chars.as_slice(), 0, index);
            let tail = slice_chars(chars.as_slice(), index, chars.len());
            assert(head@ =~= chars@.take(index as int));
            assert(tail@ =~= chars@.skip(index as int));
            let mut out = head;
            push_str_chars(&mut out, chars_of("-translated").as_slice());
            push_str_chars(&mut out, tail.as_slice());
            string_from_chars(out.as_slice())
        },
        _ => crate::text::concat_str(filename, "-translated"),
    }
}

/// The name of the file a translation produces.
pub fn output_filename(filename: &str) -> (r: String)
    ensures
        r@ == translated_name(filename@),
{
    translated_filename(filename)
}

// ---------------------------------------------------------------------------
// Planning fragments
// ---------------------------------------------------------------------------

/// Where one translated chunk goes, with the whitespace the AI would trim.
#[derive(Debug)]
pub struct FragmentPart {
    pub result_index: usize,
    pub leading: String,
    pub trailing: String,
}

/// A source fragment and the chunks it was cut into.
#[derive(Debug)]
pub struct PlannedFragment {
    pub source: String,
    pub parts: Vec<FragmentPart>,
}

/// The non-blank chunks, each split into leading whitespace, text and
/// trailing whitespace.
pub open spec fn chunk_pieces(chunks: Seq<Seq<char>>) -> Seq<(Seq<char>, Seq<char>, Seq<char>)>
    decreases chunks.len(),
{
    if chunks.len() == 0 {
        Seq::empty()
    } else if all_ws(chunks.last()) {
        chunk_pieces(chunks.drop_last())
    } else {
        chunk_pieces(chunks.drop_last()).push(whitespace_split(chunks.last()))
    }
}

/// The pieces of a fragment: none when it is blank; otherwise the non-blank
/// chunks of its trimmed content.
pub open spec fn fragment_pieces(source: Seq<char>, maximum: nat) -> Seq<
    (Seq<char>, Seq<char>, Seq<char>),
> {
    let content = whitespace_split(source).1;
    if content.len() == 0 {
        Seq::empty()
    } else {
        chunk_pieces(chunks_spec(content, maximum))
    }
}

/// The number of pieces of the first `n` fragments.
pub open spec fn pieces_before(fragments: Seq<Seq<char>>, maximum: nat, n: int) -> nat
    decreases n,
{
    if n <= 0 {
        0
    } else {
        pieces_before(fragments, maximum, n - 1) + fragment_pieces(fragments[n - 1], maximum).len()
    }
}

/// The number of blank fragments among the first `n`.
pub open spec fn blank_before(fragments: Seq<Seq<char>>, n: int) -> nat
    decreases n,
{
    if n <= 0 {
        0
    } else {
        blank_before(fragments, n - 1) + if whitespace_split(fragments[n - 1]).1.len() == 0 {
            1nat
        } else {
            0nat
        }
    }
}

/// A plan matches its fragments: each fragment keeps its source and gets one
/// part per piece, numbered consecutively across fragments; each pending part
/// holds its piece's text, its own index, and whether the text holds the
/// separator.
pub open spec fn plan_matches(
    fragments: Seq<Seq<char>>,
    maximum: nat,
    planned: Seq<PlannedFragment>,
    pending: Seq<PendingPart>,
) -> bool {
    &&& planned.len() == fragments.len()
    &&& pending.len() == pieces_before(fragments, maximum, fragments.len() as int)
    &&& forall|f: int|
        0 <= f < planned.len() ==> {
            let pieces = fragment_pieces(fragments[f], maximum);
            let base = pieces_before(fragments, maximum, f);
            &&& (#[trigger] planned[f]).source@ == fragments[f]
            &&& planned[f].parts@.len() == pieces.len()
            &&& forall|k: int|
                0 <= k < pieces.len() ==> {
                    let part = #[trigger] planned[f].parts@[k];
                    &&& part.result_index == base + k
                    &&& part.leading@ == pieces[k].0
                    &&& part.trailing@ == pieces[k].2
                    &&& pending[base + k].text@ == pieces[k].1
                }
        }
    &&& forall|i: int|
        0 <= i < pending.len() ==> {
            &&& (#[trigger] pending[i]).result_index == i
            &&& pending[i].force_single == crate::text::contains_seq(
                normalize_newlines(pending[i].text@),
                crate::ai::segment_separator(),
            )
        }
}

proof fn lemma_pieces_before_mono(fragments: Seq<Seq<char>>, maximum: nat, a: int, b: int)
    requires
        0 <= a <= b <= fragments.len(),
    ensures
        pieces_before(fragments, maximum, a) + fragment_pieces(fragments[a], maximum).len()
            <= pieces_before(fragments, maximum, b) || a == b,
        pieces_before(fragments, maximum, a) <= pieces_before(fragments, maximum, b),
    decreases b - a,
{
    if a < b {
        lemma_pieces_before_mono(fragments, maximum, a, b - 1);
        if a + 1 == b {
        } else {
            lemma_pieces_before_mono(fragments, maximum, a + 1, b);
        }
    }
}

/// Every part of a plan points at one of its pending parts.
pub proof fn lemma_plan_parts_in_range(
    fragments: Seq<Seq<char>>,
    maximum: nat,
    planned: Seq<PlannedFragment>,
    pending: Seq<PendingPart>,
)
    requires
        plan_matches(fragments, maximum, planned, pending),
    ensures
        parts_in_range(planned, pending.len()),
{
    assert forall|f: int, k: int|
        0 <= f < planned.len() && 0 <= k < planned[f].parts@.len() implies (
        #[trigger] planned[f].parts@[k]).result_index < pending.len() by {
        lemma_pieces_before_mono(fragments, maximum, f, fragments.len() as int);
        assert(planned[f].parts@.len() == fragment_pieces(fragments[f], maximum).len());
        assert(f < fragments.len());
        lemma_pieces_before_mono(fragments, maximum, f + 1, fragments.len() as int);
    }
}

/// Cuts fragments into pieces to translate. Returns the plan, the pending
/// parts and the number of blank fragments.
pub fn plan_fragments(fragments: Vec<String>, maximum: usize) -> (r: (
    Vec<PlannedFragment>,
    Vec<PendingPart>,
    usize,
))
    requires
        maximum > 0,
        fragments@.len() <= usize::MAX,
    ensures
        plan_matches(fragments@.map_values(|s: String| s@), maximum as nat, r.0@, r.1@),
        r.2 == blank_before(fragments@.map_values(|s: String| s@), fragments@.len() as int),
        parts_in_range(r.0@, r.1@.len()),
{
    let ghost fs = fragments@.map_values(|s: String| s@);
    let mut planned: Vec<PlannedFragment> = Vec::new();
    let mut pending: Vec<PendingPart> = Vec::new();
    let mut skipped: usize = 0;
    let sep = crate::ai::separator_chars();
    let ghost mut f: int = 0;
    for source in it: fragments
        invariant
            fs == it.seq().map_values(|s: String| s@),
            f == it.index(),
            0 <= f <= fs.len(),
            fs.len() <= usize::MAX,
            maximum > 0,
            sep@ == crate::ai::segment_separator(),
            skipped == blank_before(fs, f),
            skipped <= f,
            plan_matches(fs.take(f), maximum as nat, planned@, pending@),
    {
        let ghost src = source@;
        proof {
            assert(fs[f] == src);
            lemma_plan_prefix(fs, maximum as nat, f);
        }
        let (_, content, _) = surrounding_whitespace(source.as_str());
        if content.as_str().is_empty() {
            skipped = skipped + 1;
            let ghost before_planned = planned@;
            planned.push(PlannedFragment { source, parts: Vec::new() });
            proof {
                assert(fragment_pieces(src, maximum as nat).len() == 0);
                lemma_plan_push_empty(fs, maximum as nat, f, before_planned, pending@, planned@);
                f = f + 1;
            }
        } else {
            let chunks = split_chunks(content.as_str(), maximum);
            let ghost pieces = fragment_pieces(src, maximum as nat);
            let ghost base = pending@.len();
            proof {
                lemma_pieces_before_prefix(fs, maximum as nat, f, f);
                assert(pending@.take(base as int) =~= pending@);
            }
            let mut parts: Vec<FragmentPart> = Vec::new();
            let ghost mut c: int = 0;
            let ghost cs = chunks@.map_values(|s: String| s@);
            assert(cs == chunks_spec(content@, maximum as nat));
            for chunk in it2: chunks
                invariant
                    cs == it2.seq().map_values(|s: String| s@),
                    c == it2.index(),
                    0 <= c <= cs.len(),
                    sep@ == crate::ai::segment_separator(),
                    base == pieces_before(fs, maximum as nat, f),
                    pending@.len() == base + parts@.len(),
                    chunk_pieces(cs.take(c)).len() == parts@.len(),
                    plan_matches(fs.take(f), maximum as nat, planned@, pending@.take(base as int)),
                    forall|k: int|
                        0 <= k < parts@.len() ==> {
                            let part = #[trigger] parts@[k];
                            &&& part.result_index == base + k
                            &&& part.leading@ == chunk_pieces(cs.take(c))[k].0
                            &&& part.trailing@ == chunk_pieces(cs.take(c))[k].2
                            &&& pending@[base + k].text@ == chunk_pieces(cs.take(c))[k].1
                        },
                    forall|i: int|
                        base <= i < pending@.len() ==> {
                            &&& (#[trigger] pending@[i]).result_index == i
                            &&& pending@[i].force_single == crate::text::contains_seq(
                                normalize_newlines(pending@[i].text@),
                                crate::ai::segment_separator(),
                            )
                        },
            {
                proof {
                    assert(cs.take(c + 1).drop_last() =~= cs.take(c));
                    assert(cs.take(c + 1).last() == chunk@);
                }
                let (leading, text, trailing) = surrounding_whitespace(chunk.as_str());
                if !text.as_str().is_empty() {
                    let index = pending.len();
                    let tc = chars_of(text.as_str());
                    let normalized = normalize_newline_chars(tc.as_slice());
                    let force = crate::text::contains_chars(normalized.as_slice(), sep.as_slice());
                    let ghost before_pending = pending@;
                    let ghost before_parts = parts@;
                    pending.push(PendingPart { result_index: index, text, force_single: force });
                    parts.push(FragmentPart { result_index: index, leading, trailing });
                    proof {
                        lemma_whitespace_split(chunk@);
                        crate::text::lemma_trim_empty(chunk@);
                        assert(!all_ws(chunk@));
                        assert(chunk_pieces(cs.take(c + 1)) == chunk_pieces(cs.take(c)).push(
                            whitespace_split(chunk@),
                        ));
                        assert(pending@.take(base as int) =~= before_pending.take(base as int));
                        assert forall|k: int| 0 <= k < parts@.len() implies {
                            let part = #[trigger] parts@[k];
                            &&& part.result_index == base + k
                            &&& part.leading@ == chunk_pieces(cs.take(c + 1))[k].0
                            &&& part.trailing@ == chunk_pieces(cs.take(c + 1))[k].2
                            &&& pending@[base + k].text@ == chunk_pieces(cs.take(c + 1))[k].1
                        } by {
                            if k < before_parts.len() {
                                assert(parts@[k] == before_parts[k]);
                                assert(pending@[base + k] == before_pending[base + k]);
                            }
                        }
                        assert forall|i: int| base <= i < pending@.len() implies {
                            &&& (#[trigger] pending@[i]).result_index == i
                            &&& pending@[i].force_single == crate::text::contains_seq(
                                normalize_newlines(pending@[i].text@),
                                crate::ai::segment_separator(),
                            )
                        } by {
                            if i < before_pending.len() {
                                assert(pending@[i] == before_pending[i]);
                            }
                        }
                    }
                } else {
                    proof {
                        lemma_whitespace_split(chunk@);
                        crate::text::lemma_trim_empty(chunk@);
                        assert(all_ws(chunk@));
                        assert(chunk_pieces(cs.take(c + 1)) == chunk_pieces(cs.take(c)));
                    }
                }
                proof {
                    c = c + 1;
                }
            }
            proof {
                assert(cs.take(c) =~= cs);
                lemma_whitespace_split(src);
                assert(content@ == whitespace_split(src).1);
                assert(pieces == chunk_pieces(cs));
            }
            let ghost before_planned = planned@;
            let ghost before_pending = pending@;
            planned.push(PlannedFragment { source, parts });
            proof {
                lemma_plan_push(fs, maximum as nat, f, before_planned, before_pending, planned@);
                f = f + 1;
            }
        }
    }
    proof {
        assert(fs.take(f) =~= fs);
        lemma_plan_parts_in_range(fs, maximum as nat, planned@, pending@);
    }
    (planned, pending, skipped)
}

proof fn lemma_plan_prefix(fs: Seq<Seq<char>>, maximum: nat, f: int)
    requires
        0 <= f < fs.len(),
    ensures
        forall|n: int| 0 <= n <= f ==> pieces_before(fs.take(f), maximum, n) == pieces_before(fs, maximum, n),
        forall|n: int| 0 <= n <= f + 1 ==> pieces_before(fs.take(f + 1), maximum, n) == pieces_before(fs, maximum, n),
        forall|n: int| 0 <= n <= f ==> blank_before(fs.take(f), n) == blank_before(fs, n),
{
    assert forall|n: int| 0 <= n <= f implies pieces_before(fs.take(f), maximum, n) == pieces_before(fs, maximum, n) by {
        lemma_pieces_before_prefix(fs, maximum, f, n);
    }
    assert forall|n: int| 0 <= n <= f + 1 implies pieces_before(fs.take(f + 1), maximum, n) == pieces_before(fs, maximum, n) by {
        lemma_pieces_before_prefix(fs, maximum, f + 1, n);
    }
    assert forall|n: int| 0 <= n <= f implies blank_before(fs.take(f), n) == blank_before(fs, n) by {
        lemma_blank_before_prefix(fs, f, n);
    }
}

proof fn lemma_pieces_before_prefix(fs: Seq<Seq<char>>, maximum: nat, m: int, n: int)
    requires
        0 <= n <= m <= fs.len(),
    ensures
        pieces_before(fs.take(m), maximum, n) == pieces_before(fs, maximum, n),
    decreases n,
{
    if n > 0 {
        lemma_pieces_before_prefix(fs, maximum, m, n - 1);
        assert(fs.take(m)[n - 1] == fs[n - 1]);
    }
}

proof fn lemma_blank_before_prefix(fs: Seq<Seq<char>>, m: int, n: int)
    requires
        0 <= n <= m <= fs.len(),
    ensures
        blank_before(fs.take(m), n) == blank_before(fs, n),
    decreases n,
{
    if n > 0 {
        lemma_blank_before_prefix(fs, m, n - 1);
        assert(fs.take(m)[n - 1] == fs[n - 1]);
    }
}

proof fn lemma_plan_push_empty(
    fs: Seq<Seq<char>>,
    maximum: nat,
    f: int,
    before: Seq<PlannedFragment>,
    pending: Seq<PendingPart>,
    after: Seq<PlannedFragment>,
)
    requires
        0 <= f < fs.len(),
        plan_matches(fs.take(f), maximum, before, pending),
        fragment_pieces(fs[f], maximum).len() == 0,
        after.len() == before.len() + 1,
        forall|j: int| 0 <= j < before.len() ==> after[j] == before[j],
        after.last().source@ == fs[f],
        after.last().parts@.len() == 0,
    ensures
        plan_matches(fs.take(f + 1), maximum, after, pending),
{
    lemma_plan_prefix(fs, maximum, f);
    let g = fs.take(f + 1);
    assert(pieces_before(g, maximum, f + 1) == pieces_before(fs, maximum, f + 1));
    assert(pieces_before(fs, maximum, f + 1) == pieces_before(fs, maximum, f));
    assert forall|q: int| 0 <= q < after.len() implies {
        let pieces = fragment_pieces(g[q], maximum);
        let base = pieces_before(g, maximum, q);
        &&& (#[trigger] after[q]).source@ == g[q]
        &&& after[q].parts@.len() == pieces.len()
        &&& forall|k: int|
            0 <= k < pieces.len() ==> {
                let part = #[trigger] after[q].parts@[k];
                &&& part.result_index == base + k
                &&& part.leading@ == pieces[k].0
                &&& part.trailing@ == pieces[k].2
                &&& pending[base + k].text@ == pieces[k].1
            }
    } by {
        assert(g[q] == fs[q]);
        lemma_pieces_before_prefix(fs, maximum, f + 1, q);
        if q < f {
            assert(after[q] == before[q]);
            assert(fs.take(f)[q] == fs[q]);
            lemma_pieces_before_prefix(fs, maximum, f, q);
        }
    }
}

proof fn lemma_plan_push(
    fs: Seq<Seq<char>>,
    maximum: nat,
    f: int,
    before: Seq<PlannedFragment>,
    pending: Seq<PendingPart>,
    after: Seq<PlannedFragment>,
)
    requires
        0 <= f < fs.len(),
        pending.len() == pieces_before(fs, maximum, f) + fragment_pieces(fs[f], maximum).len(),
        plan_matches(
            fs.take(f),
            maximum,
            before,
            pending.take(pieces_before(fs, maximum, f) as int),
        ),
        after.len() == before.len() + 1,
        forall|j: int| 0 <= j < before.len() ==> after[j] == before[j],
        after.last().source@ == fs[f],
        after.last().parts@.len() == fragment_pieces(fs[f], maximum).len(),
        forall|k: int|
            0 <= k < fragment_pieces(fs[f], maximum).len() ==> {
                let part = #[trigger] after.last().parts@[k];
                let base = pieces_before(fs, maximum, f);
                &&& part.result_index == base + k
                &&& part.leading@ == fragment_pieces(fs[f], maximum)[k].0
                &&& part.trailing@ == fragment_pieces(fs[f], maximum)[k].2
                &&& pending[base + k].text@ == fragment_pieces(fs[f], maximum)[k].1
            },
        forall|i: int|
            pieces_before(fs, maximum, f) <= i < pending.len() ==> {
                &&& (#[trigger] pending[i]).result_index == i
                &&& pending[i].force_single == crate::text::contains_seq(
                    normalize_newlines(pending[i].text@),
                    crate::ai::segment_separator(),
                )
            },
    ensures
        plan_matches(fs.take(f + 1), maximum, after, pending),
{
    lemma_plan_prefix(fs, maximum, f);
    let g = fs.take(f + 1);
    let base = pieces_before(fs, maximum, f) as int;
    let prev = pending.take(base);
    assert(pieces_before(g, maximum, f + 1) == pieces_before(fs, maximum, f + 1));
    assert forall|q: int| 0 <= q < after.len() implies {
        let pieces = fragment_pieces(g[q], maximum);
        let b = pieces_before(g, maximum, q);
        &&& (#[trigger] after[q]).source@ == g[q]
        &&& after[q].parts@.len() == pieces.len()
        &&& forall|k: int|
            0 <= k < pieces.len() ==> {
                let part = #[trigger] after[q].parts@[k];
                &&& part.result_index == b + k
                &&& part.leading@ == pieces[k].0
                &&& part.trailing@ == pieces[k].2
                &&& pending[b + k].text@ == pieces[k].1
            }
    } by {
        assert(g[q] == fs[q]);
        lemma_pieces_before_prefix(fs, maximum, f + 1, q);
        if q < f {
            assert(after[q] == before[q]);
            assert(fs.take(f)[q] == fs[q]);
            lemma_pieces_before_prefix(fs, maximum, f, q);
            lemma_pieces_before_mono(fs, maximum, q, f);
            assert forall|k: int| 0 <= k < fragment_pieces(g[q], maximum).len() implies pending[
                pieces_before(g, maximum, q) + k
            ].text@ == fragment_pieces(g[q], maximum)[k].1 by {
                assert(pieces_before(g, maximum, q) + k < base) by {
                    lemma_pieces_before_mono(fs, maximum, q, f);
                    if q + 1 <= f {
                        lemma_pieces_before_mono(fs, maximum, q + 1, f);
                    }
                }
                assert(prev[pieces_before(g, maximum, q) + k] == pending[pieces_before(g, maximum, q) + k]);
                assert(before[q].parts@[k].result_index == pieces_before(fs.take(f), maximum, q) + k);
                assert(fs.take(f)[q] == g[q]);
            }
        } else {
            assert(q == f);
            assert(after[q] == after.last());
        }
    }
    assert forall|i: int| 0 <= i < pending.len() implies {
        &&& (#[trigger] pending[i]).result_index == i
        &&& pending[i].force_single == crate::text::contains_seq(
            normalize_newlines(pending[i].text@),
            crate::ai::segment_separator(),
        )
    } by {
        if i < base {
            assert(prev[i] == pending[i]);
        }
    }
}

// ---------------------------------------------------------------------------
// Assembling translations
// ---------------------------------------------------------------------------

/// The translations of a fragment's parts, each with its whitespace back.
pub open spec fn joined_parts(parts: Seq<FragmentPart>, results: Seq<Seq<char>>) -> Seq<char>
    decreases parts.len(),
{
    if parts.len() == 0 {
        Seq::empty()
    } else {
        let p = parts.last();
        joined_parts(parts.drop_last(), results) + p.leading@ + results[p.result_index as int]
            + p.trailing@
    }
}

/// The output text of a fragment: the source when it had nothing to
/// translate, otherwise the rendered translation of its parts.
pub open spec fn assembled(fragment: PlannedFragment, results: Seq<Seq<char>>, mode: FileOutputMode) -> Seq<
    char,
> {
    if fragment.parts@.len() == 0 {
        fragment.source@
    } else {
        rendered_fragment(fragment.source@, joined_parts(fragment.parts@, results), mode)
    }
}

/// Every part of the plan points into the results.
pub open spec fn parts_in_range(planned: Seq<PlannedFragment>, n: nat) -> bool {
    forall|f: int, k: int|
        0 <= f < planned.len() && 0 <= k < planned[f].parts@.len() ==> (#[trigger] planned[f].parts@[k]).result_index < n
}

/// The output texts of the planned fragments, given the results.
pub fn assemble_fragments(
    planned: Vec<PlannedFragment>,
    results: &Vec<String>,
    output_mode: FileOutputMode,
) -> (r: Vec<String>)
    requires
        parts_in_range(planned@, results@.len()),
    ensures
        r@.len() == planned@.len(),
        forall|f: int|
            0 <= f < r@.len() ==> (#[trigger] r@[f])@ == assembled(
                planned@[f],
                results@.map_values(|s: String| s@),
                output_mode,
            ),
{
    let ghost ps = planned@;
    let ghost rs = results@.map_values(|s: String| s@);
    let mut output: Vec<String> = Vec::new();
    let ghost mut f: int = 0;
    for fragment in it: planned
        invariant
            ps == it.seq(),
            f == it.index(),
            0 <= f <= ps.len(),
            rs == results@.map_values(|s: String| s@),
            parts_in_range(ps, results@.len()),
            output@.len() == f,
            forall|j: int| 0 <= j < f ==> (#[trigger] output@[j])@ == assembled(ps[j], rs, output_mode),
    {
        proof {
            assert(ps[f] == fragment);
        }
        if fragment.parts.len() == 0 {
            output.push(fragment.source);
        } else {
            let mut translated = String::new();
            let mut k: usize = 0;
            while k < fragment.parts.len()
                invariant
                    k <= fragment.parts@.len(),
                    ps[f] == fragment,
                    0 <= f < ps.len(),
                    parts_in_range(ps, results@.len()),
                    rs == results@.map_values(|s: String| s@),
                    translated@ == joined_parts(fragment.parts@.take(k as int), rs),
                decreases fragment.parts@.len() - k,
            {
                let part = &fragment.parts[k];
                proof {
                    assert(ps[f].parts@[k as int].result_index < results@.len());
                    assert(fragment.parts@.take(k + 1).drop_last() =~= fragment.parts@.take(k as int));
                    assert(fragment.parts@.take(k + 1).last() == *part);
                    assert(rs[part.result_index as int] == results@[part.result_index as int]@);
                }
                translated.append(part.leading.as_str());
                translated.append(results[part.result_index].as_str());
                translated.append(part.trailing.as_str());
                k = k + 1;
            }
            assert(fragment.parts@.take(k as int) =~= fragment.parts@);
            let rendered = render_fragment(fragment.source.as_str(), translated.as_str(), output_mode);
            output.push(rendered);
        }
        proof {
            f = f + 1;
        }
    }
    output
}

/// The pieces of text put back together, each with its surrounding
/// whitespace.
pub open spec fn pieces_text(pieces: Seq<(Seq<char>, Seq<char>, Seq<char>)>) -> Seq<char>
    decreases pieces.len(),
{
    if pieces.len() == 0 {
        Seq::empty()
    } else {
        pieces_text(pieces.drop_last()) + pieces.last().0 + pieces.last().1 + pieces.last().2
    }
}

/// The pieces of chunks that are not blank give the chunks back.
proof fn lemma_chunk_pieces_text(chunks: Seq<Seq<char>>)
    requires
        forall|i: int| 0 <= i < chunks.len() ==> !all_ws(#[trigger] chunks[i]),
    ensures
        pieces_text(chunk_pieces(chunks)) == concat_all(chunks),
    decreases chunks.len(),
{
    if chunks.len() > 0 {
        let rest = chunks.drop_last();
        assert forall|i: int| 0 <= i < rest.len() implies !all_ws(#[trigger] rest[i]) by {
            assert(rest[i] == chunks[i]);
        }
        lemma_chunk_pieces_text(rest);
        lemma_whitespace_split(chunks.last());
        let pcs = chunk_pieces(chunks);
        assert(pcs == chunk_pieces(rest).push(whitespace_split(chunks.last())));
        assert(pcs.drop_last() =~= chunk_pieces(rest));
    }
}

/// The parts of a fragment joined with the texts of their pieces give the
/// pieces back.
proof fn lemma_joined_pieces(
    parts: Seq<FragmentPart>,
    results: Seq<Seq<char>>,
    pieces: Seq<(Seq<char>, Seq<char>, Seq<char>)>,
    base: int,
)
    requires
        parts.len() == pieces.len(),
        forall|k: int|
            0 <= k < parts.len() ==> {
                &&& (#[trigger] parts[k]).result_index == base + k
                &&& parts[k].leading@ == pieces[k].0
                &&& parts[k].trailing@ == pieces[k].2
                &&& results[base + k] == pieces[k].1
            },
    ensures
        joined_parts(parts, results) == pieces_text(pieces),
    decreases parts.len(),
{
    if parts.len() > 0 {
        let ps = parts.drop_last();
        assert forall|k: int| 0 <= k < ps.len() implies {
            &&& (#[trigger] ps[k]).result_index == base + k
            &&& ps[k].leading@ == pieces.drop_last()[k].0
            &&& ps[k].trailing@ == pieces.drop_last()[k].2
            &&& results[base + k] == pieces.drop_last()[k].1
        } by {
            assert(ps[k] == parts[k]);
        }
        lemma_joined_pieces(ps, results, pieces.drop_last(), base);
        let k = parts.len() - 1;
        assert(parts.last() == parts[k]);
    }
}

/// Translating every piece of text into itself gives the fragments back in
/// translated mode: `plan_fragments` followed by `assemble_fragments`, with
/// each result equal to its pending text, returns every fragment unchanged.
/// Blank fragments are handed back as they are; a fragment with content is
/// given back provided no chunk of its trimmed content is blank (a blank chunk
/// is not sent for translation, so its whitespace is not written back).
pub proof fn lemma_identity_translation(
    fragments: Seq<Seq<char>>,
    maximum: nat,
    planned: Seq<PlannedFragment>,
    pending: Seq<PendingPart>,
)
    requires
        maximum > 0,
        plan_matches(fragments, maximum, planned, pending),
        forall|f: int, c: int|
            0 <= f < fragments.len() && whitespace_split(fragments[f]).1.len() > 0 && 0 <= c
                < chunks_spec(whitespace_split(fragments[f]).1, maximum).len() ==> !all_ws(
                #[trigger] chunks_spec(whitespace_split(fragments[f]).1, maximum)[c],
            ),
    ensures
        forall|f: int|
            0 <= f < planned.len() ==> assembled(
                #[trigger] planned[f],
                pending.map_values(|p: PendingPart| p.text@),
                FileOutputMode::Translated,
            ) == fragments[f],
{
    let results = pending.map_values(|p: PendingPart| p.text@);
    assert forall|f: int| 0 <= f < planned.len() implies assembled(
        #[trigger] planned[f],
        results,
        FileOutputMode::Translated,
    ) == fragments[f] by {
        let s = fragments[f];
        let content = whitespace_split(s).1;
        lemma_whitespace_split(s);
        let pieces = fragment_pieces(s, maximum);
        let base = pieces_before(fragments, maximum, f) as int;
        lemma_pieces_before_mono(fragments, maximum, f, fragments.len() as int);
        if content.len() > 0 && planned[f].parts@.len() > 0 {
            let chunks = chunks_spec(content, maximum);
            lemma_chunks(content, maximum);
            assert forall|c: int| 0 <= c < chunks.len() implies !all_ws(#[trigger] chunks[c]) by {
                assert(chunks[c] == chunks_spec(whitespace_split(fragments[f]).1, maximum)[c]);
            }
            lemma_chunk_pieces_text(chunks);
            assert forall|k: int| 0 <= k < planned[f].parts@.len() implies {
                &&& (#[trigger] planned[f].parts@[k]).result_index == base + k
                &&& planned[f].parts@[k].leading@ == pieces[k].0
                &&& planned[f].parts@[k].trailing@ == pieces[k].2
                &&& results[base + k] == pieces[k].1
            } by {
                let part = planned[f].parts@[k];
                assert(part.result_index == base + k);
                assert(pending[base + k].text@ == pieces[k].1);
            }
            lemma_joined_pieces(planned[f].parts@, results, pieces, base);
        }
    }
}

// ---------------------------------------------------------------------------
// Batch state
// ---------------------------------------------------------------------------

/// A batch translated earlier, kept so that a retry does not repeat it.
#[derive(Debug, Clone)]
pub enum CachedBatch {
    Text(Vec<String>),
    Image(Vec<u8>),
}

/// The translated batches and the failures of a file translation.
#[derive(Debug)]
pub struct BatchState {
    pub cached_batches: HashMap<usize, CachedBatch>,
    pub failed_batches: Vec<FileBatchFailure>,
    /// The first batch number not yet handed out in this file.
    pub next_batch_id: usize,
}

impl BatchState {
    /// A state with the batches of an earlier run and no failures.
    pub fn with_cache(cached_batches: HashMap<usize, CachedBatch>) -> (r: BatchState)
        ensures
            r.cached_batches@ == cached_batches@,
            r.failed_batches@.len() == 0,
            r.next_batch_id == 0,
    {
        BatchState { cached_batches, failed_batches: Vec::new(), next_batch_id: 0 }
    }

    /// Hands out `count` consecutive batch numbers, for the batches of one
    /// part of a file, and returns the first. A file made of several parts
    /// (the XML parts of an Office document) thus numbers its batches
    /// without repeating a number, so the cache of a retry finds each batch
    /// under its own number.
    pub fn reserve_batch_ids(&mut self, count: usize) -> (first: usize)
        requires
            old(self).next_batch_id + count <= usize::MAX,
        ensures
            first == old(self).next_batch_id,
            final(self).next_batch_id == old(self).next_batch_id + count,
            final(self).cached_batches@ == old(self).cached_batches@,
            final(self).failed_batches == old(self).failed_batches,
    {
        let first = self.next_batch_id;
        self.next_batch_id = first + count;
        first
    }

    /// Records that the batch numbers below `next` have been handed out (to
    /// the smaller batches that failed batches were split into).
    pub fn mark_batch_ids_used(&mut self, next: usize)
        ensures
            final(self).next_batch_id == if next > old(self).next_batch_id {
                next
            } else {
                old(self).next_batch_id
            },
            final(self).cached_batches@ == old(self).cached_batches@,
            final(self).failed_batches == old(self).failed_batches,
    {
        if next > self.next_batch_id {
            self.next_batch_id = next;
        }
    }

    /// The cached translations of a batch of `count` segments, when the cache
    /// holds exactly that many; a cached entry of another shape is dropped.
    /// A batch that must be translated segment by segment ignores the cache.
    pub fn reuse_cached(&mut self, batch_id: usize, count: usize, force_single: bool) -> (r: Option<
        Vec<String>,
    >)
        ensures
            force_single ==> r.is_none() && final(self).cached_batches@ == old(self).cached_batches@,
            !force_single ==> match old(self).cached_batches@.get(batch_id) {
                Some(CachedBatch::Text(ts)) if ts@.len() == count => r matches Some(v) && v@ == ts@
                    && final(self).cached_batches@ == old(self).cached_batches@,
                Some(_) => r.is_none() && final(self).cached_batches@ == old(
                    self,
                ).cached_batches@.remove(batch_id),
                None => r.is_none() && final(self).cached_batches@ == old(self).cached_batches@,
            },
            final(self).failed_batches == old(self).failed_batches,
    {
        broadcast use vstd::std_specs::hash::group_hash_axioms;

        if force_single {
            return None;
        }
        let found: Option<Vec<String>> = match self.cached_batches.get(&batch_id) {
            Some(CachedBatch::Text(ts)) => {
                if ts.len() == count {
                    Some(crate::models::copy_strings(ts))
                } else {
                    None
                }
            },
            _ => None,
        };
        if found.is_some() {
            return found;
        }
        if self.cached_batches.contains_key(&batch_id) {
            self.cached_batches.remove(&batch_id);
        }
        None
    }

    /// The cached image of a batch.
    pub fn cached_image(&self, batch_id: usize) -> (r: Option<Vec<u8>>)
        ensures
            match self.cached_batches@.get(batch_id) {
                Some(CachedBatch::Image(bytes)) => r matches Some(v) && v@ == bytes@,
                _ => r.is_none(),
            },
    {
        broadcast use vstd::std_specs::hash::group_hash_axioms;

        match self.cached_batches.get(&batch_id) {
            Some(CachedBatch::Image(bytes)) => Some(copy_bytes(bytes)),
            _ => None,
        }
    }
}

/// A copy of a byte vector.
pub fn copy_bytes(v: &Vec<u8>) -> (r: Vec<u8>)
    ensures
        r@ == v@,
{
    let mut r: Vec<u8> = Vec::new();
    let mut i: usize = 0;
    while i < v.len()
        invariant
            i <= v@.len(),
            r@ == v@.take(i as int),
        decreases v@.len() - i,
    {
        r.push(v[i]);
        i = i + 1;
        assert(v@.take(i as int) == v@.take(i - 1).push(v@[i - 1]));
    }
    assert(v@.take(v@.len() as int) =~= v@);
    r
}

/// The progress counters of a file translation.
#[derive(Debug)]
pub struct Counts {
    pub translated: usize,
    pub failed: usize,
    pub skipped: usize,
    pub total_segments: usize,
    pub total_batches: usize,
    pub completed_batches: usize,
    pub stage: String,
    pub streaming_batch: Option<usize>,
    pub streaming_segments: usize,
    pub streaming_batch_segments: usize,
    pub streaming_text: Option<String>,
}

impl Counts {
    /// Counters at the start, in the given stage.
    pub fn starting(stage: &str) -> (r: Counts)
        ensures
            r.stage@ == stage@,
            r.translated == 0 && r.failed == 0 && r.skipped == 0,
            r.total_segments == 0 && r.total_batches == 0 && r.completed_batches == 0,
            r.streaming_batch.is_none() && r.streaming_segments == 0,
            r.streaming_batch_segments == 0 && r.streaming_text.is_none(),
    {
        Counts {
            translated: 0,
            failed: 0,
            skipped: 0,
            total_segments: 0,
            total_batches: 0,
            completed_batches: 0,
            stage: String::from_str(stage),
            streaming_batch: None,
            streaming_segments: 0,
            streaming_batch_segments: 0,
            streaming_text: None,
        }
    }

    /// Counts the work planned for one part of a file: its blank fragments
    /// are skipped, and its pending segments and batches join the totals.
    pub fn plan_part(&mut self, blank: usize, segments: usize, batches: usize)
        requires
            old(self).skipped + blank <= usize::MAX,
            old(self).total_segments + segments <= usize::MAX,
            old(self).total_batches + batches <= usize::MAX,
        ensures
            final(self).skipped == old(self).skipped + blank,
            final(self).total_segments == old(self).total_segments + segments,
            final(self).total_batches == old(self).total_batches + batches,
            final(self).translated == old(self).translated,
            final(self).failed == old(self).failed,
            final(self).completed_batches == old(self).completed_batches,
            final(self).streaming_batch == old(self).streaming_batch,
            final(self).streaming_segments == old(self).streaming_segments,
            final(self).streaming_batch_segments == old(self).streaming_batch_segments,
            final(self).streaming_text == old(self).streaming_text,
            final(self).stage == old(self).stage,
    {
        self.skipped = self.skipped + blank;
        self.total_segments = self.total_segments + segments;
        self.total_batches = self.total_batches + batches;
    }

    /// Forgets the streaming batch.
    pub fn clear_streaming(&mut self)
        ensures
            final(self).streaming_batch.is_none(),
            final(self).streaming_segments == 0,
            final(self).streaming_batch_segments == 0,
            final(self).streaming_text.is_none(),
            final(self).translated == old(self).translated,
            final(self).failed == old(self).failed,
            final(self).skipped == old(self).skipped,
            final(self).total_segments == old(self).total_segments,
            final(self).total_batches == old(self).total_batches,
            final(self).completed_batches == old(self).completed_batches,
            final(self).stage == old(self).stage,
    {
        self.streaming_batch = None;
        self.streaming_segments = 0;
        self.streaming_batch_segments = 0;
        self.streaming_text = None;
    }

    /// Records what a batch being streamed has produced so far.
    pub fn stream(&mut self, batch_id: usize, batch_segments: usize, text: &str)
        ensures
            final(self).streaming_batch == Some(batch_id),
            final(self).streaming_segments == partial_count(text@),
            final(self).streaming_batch_segments == batch_segments,
            final(self).streaming_text matches Some(t) && t@ == preview_spec(text@),
            final(self).translated == old(self).translated,
            final(self).failed == old(self).failed,
            final(self).skipped == old(self).skipped,
            final(self).total_segments == old(self).total_segments,
            final(self).total_batches == old(self).total_batches,
            final(self).completed_batches == old(self).completed_batches,
            final(self).stage == old(self).stage,
    {
        self.streaming_batch = Some(batch_id);
        self.streaming_segments = partial_batch_item_count(text);
        self.streaming_batch_segments = batch_segments;
        self.streaming_text = Some(stream_preview(text));
    }

    /// The progress report of these counters.
    pub fn progress(&self) -> (r: FileProgress)
        ensures
            r.stage == self.stage,
            r.total_segments == self.total_segments,
            r.translated_segments == self.translated,
            r.failed_segments == self.failed,
            r.skipped_segments == self.skipped,
            r.total_batches == self.total_batches,
            r.completed_batches == self.completed_batches,
            r.streaming_batch == self.streaming_batch,
            r.streaming_segments == self.streaming_segments,
            r.streaming_batch_segments == self.streaming_batch_segments,
            r.streaming_text == self.streaming_text,
    {
        FileProgress {
            stage: self.stage.clone(),
            total_segments: self.total_segments,
            translated_segments: self.translated,
            failed_segments: self.failed,
            skipped_segments: self.skipped,
            total_batches: self.total_batches,
            completed_batches: self.completed_batches,
            streaming_batch: self.streaming_batch,
            streaming_segments: self.streaming_segments,
            streaming_batch_segments: self.streaming_batch_segments,
            streaming_text: crate::models::copy_opt_string(&self.streaming_text),
        }
    }
}

/// The outcome of one batch.
#[derive(Debug)]
pub struct BatchOutcome {
    pub batch_id: usize,
    pub indexes: Vec<usize>,
    pub texts: Vec<String>,
    pub attempts: usize,
    pub result: Result<Vec<String>, String>,
}

/// `results` after writing `values[i]` at `indexes[i]`, in order, for each
/// pair (as `zip` pairs them).
pub open spec fn written(results: Seq<Seq<char>>, indexes: Seq<usize>, values: Seq<Seq<char>>) -> Seq<
    Seq<char>,
>
    decreases indexes.len(),
{
    if indexes.len() == 0 || values.len() == 0 {
        results
    } else {
        let n = if indexes.len() < values.len() {
            indexes.len()
        } else {
            values.len()
        };
        written(results, indexes.take(n - 1), values.take(n - 1)).update(
            indexes[n - 1] as int,
            values[n - 1],
        )
    }
}

/// The number of pairs `zip` forms.
pub open spec fn zip_len(a: nat, b: nat) -> nat {
    if a < b {
        a
    } else {
        b
    }
}

fn write_results(results: &mut Vec<String>, indexes: &Vec<usize>, values: &Vec<String>)
    requires
        forall|i: int| 0 <= i < indexes@.len() ==> (#[trigger] indexes@[i]) < old(results)@.len(),
    ensures
        final(results)@.map_values(|s: String| s@) == written(
            old(results)@.map_values(|s: String| s@),
            indexes@,
            values@.map_values(|s: String| s@),
        ),
{
    let ghost start = results@.map_values(|s: String| s@);
    let ghost vs = values@.map_values(|s: String| s@);
    let n = if indexes.len() < values.len() {
        indexes.len()
    } else {
        values.len()
    };
    let mut i: usize = 0;
    assert(indexes@.take(0) =~= Seq::<usize>::empty());
    while i < n
        invariant
            n == zip_len(indexes@.len(), values@.len()),
            i <= n,
            vs == values@.map_values(|s: String| s@),
            results@.len() == old(results)@.len(),
            forall|j: int| 0 <= j < indexes@.len() ==> (#[trigger] indexes@[j]) < old(results)@.len(),
            results@.map_values(|s: String| s@) == written(start, indexes@.take(i as int), vs.take(i as int)),
        decreases n - i,
    {
        let ghost before = results@;
        results.set(indexes[i], values[i].clone());
        proof {
            let it = indexes@.take(i + 1);
            let vt = vs.take(i + 1);
            assert(it.take(i as int) =~= indexes@.take(i as int));
            assert(vt.take(i as int) =~= vs.take(i as int));
            assert(results@.map_values(|s: String| s@) =~= before.map_values(|s: String| s@).update(
                indexes@[i as int] as int,
                vs[i as int],
            ));
        }
        i = i + 1;
    }
    proof {
        lemma_written_zip(start, indexes@, vs);
    }
}

proof fn lemma_written_zip(results: Seq<Seq<char>>, indexes: Seq<usize>, values: Seq<Seq<char>>)
    ensures
        written(
            results,
            indexes.take(zip_len(indexes.len(), values.len()) as int),
            values.take(zip_len(indexes.len(), values.len()) as int),
        ) == written(results, indexes, values),
{
    let n = zip_len(indexes.len(), values.len()) as int;
    let it = indexes.take(n);
    let vt = values.take(n);
    if n > 0 {
        assert(it.take(n - 1) =~= indexes.take(n - 1));
        assert(vt.take(n - 1) =~= values.take(n - 1));
    } else {
        if indexes.len() == 0 {
        }
    }
}

/// The segments of the recorded failed batches, together.
pub open spec fn failed_segment_total(failures: Seq<FileBatchFailure>) -> nat
    decreases failures.len(),
{
    if failures.len() == 0 {
        0
    } else {
        failed_segment_total(failures.drop_last()) + failures.last().segment_count as nat
    }
}

/// The counter of failed segments accounts for the recorded failures: it is
/// the number of segments of the failed batches.
pub open spec fn failures_accounted(counts: Counts, state: BatchState) -> bool {
    counts.failed == failed_segment_total(state.failed_batches@)
}

/// A recorded failure adds its segments to the total.
pub proof fn lemma_failed_total_push(failures: Seq<FileBatchFailure>, failure: FileBatchFailure)
    ensures
        failed_segment_total(failures.push(failure)) == failed_segment_total(failures)
            + failure.segment_count,
{
    assert(failures.push(failure).drop_last() == failures);
}

/// Counters and state at the start of a file account for its failures.
pub proof fn lemma_start_accounted(counts: Counts, state: BatchState)
    requires
        counts.failed == 0,
        state.failed_batches@.len() == 0,
    ensures
        failures_accounted(counts, state),
{
}


/// Applies a batch outcome: translations go to their results and into the
/// cache; a failed batch keeps its source texts, counts them as failed and is
/// recorded. Either way the batch is complete and streaming stops.
pub fn apply_batch_result(
    state: &mut BatchState,
    counts: &mut Counts,
    outcome: BatchOutcome,
    results: &mut Vec<String>,
)
    requires
        forall|i: int|
            0 <= i < outcome.indexes@.len() ==> (#[trigger] outcome.indexes@[i]) < old(
                results,
            )@.len(),
        old(counts).completed_batches < usize::MAX,
        old(counts).translated + outcome.indexes@.len() <= usize::MAX,
        old(counts).failed + outcome.texts@.len() <= usize::MAX,
    ensures
        final(counts).completed_batches == old(counts).completed_batches + 1,
        final(counts).streaming_batch.is_none(),
        final(counts).streaming_segments == 0,
        final(counts).streaming_batch_segments == 0,
        final(counts).streaming_text.is_none(),
        final(counts).skipped == old(counts).skipped,
        final(counts).total_segments == old(counts).total_segments,
        final(counts).total_batches == old(counts).total_batches,
        final(counts).stage == old(counts).stage,
        failures_accounted(*old(counts), *old(state)) ==> failures_accounted(
            *final(counts),
            *final(state),
        ),
        (match outcome.result {
            Ok(translations) => translations@.len() == outcome.indexes@.len(),
            Err(_) => outcome.texts@.len() == outcome.indexes@.len(),
        }) ==> final(counts).translated + final(counts).failed == old(counts).translated + old(
            counts,
        ).failed + outcome.indexes@.len(),
        match outcome.result {
            Ok(translations) => {
                &&& final(results)@.map_values(|s: String| s@) == written(
                    old(results)@.map_values(|s: String| s@),
                    outcome.indexes@,
                    translations@.map_values(|s: String| s@),
                )
                &&& final(counts).translated == old(counts).translated + zip_len(
                    outcome.indexes@.len(),
                    translations@.len(),
                )
                &&& final(counts).failed == old(counts).failed
                &&& final(state).cached_batches@.contains_key(outcome.batch_id)
                &&& (final(state).cached_batches@[outcome.batch_id] matches CachedBatch::Text(v)
                    && v@ == translations@)
                &&& final(state).cached_batches@ == old(state).cached_batches@.insert(
                    outcome.batch_id,
                    final(state).cached_batches@[outcome.batch_id],
                )
                &&& final(state).failed_batches == old(state).failed_batches
            },
            Err(error) => {
                &&& final(results)@.map_values(|s: String| s@) == written(
                    old(results)@.map_values(|s: String| s@),
                    outcome.indexes@,
                    outcome.texts@.map_values(|s: String| s@),
                )
                &&& final(counts).translated == old(counts).translated
                &&& final(counts).failed == old(counts).failed + outcome.texts@.len()
                &&& final(state).cached_batches@ == old(state).cached_batches@
                &&& final(state).failed_batches@ == old(state).failed_batches@.push(
                    FileBatchFailure {
                        id: outcome.batch_id,
                        segment_count: outcome.texts@.len() as usize,
                        attempts: outcome.attempts,
                        error,
                    },
                )
            },
        },
{
    broadcast use vstd::std_specs::hash::group_hash_axioms;

    let BatchOutcome { batch_id, indexes, texts, attempts, result } = outcome;
    counts.clear_streaming();
    match result {
        Ok(translations) => {
            write_results(results, &indexes, &translations);
            let n = if indexes.len() < translations.len() {
                indexes.len()
            } else {
                translations.len()
            };
            counts.translated = counts.translated + n;
            let ghost tv = translations@;
            state.cached_batches.insert(batch_id, CachedBatch::Text(translations));
            proof {
                assert(state.cached_batches@[batch_id] == CachedBatch::Text(translations));
            }
        },
        Err(error) => {
            write_results(results, &indexes, &texts);
            counts.failed = counts.failed + texts.len();
            let failure = FileBatchFailure { id: batch_id, segment_count: texts.len(), attempts, error };
            proof {
                lemma_failed_total_push(state.failed_batches@, failure);
            }
            state.failed_batches.push(failure);
        },
    }
    counts.completed_batches = counts.completed_batches + 1;
}

// ---------------------------------------------------------------------------
// Batch decisions
// ---------------------------------------------------------------------------

/// The limits a provider gives the file pipeline: characters per batch
/// (a quarter of the context, at least 256), segments per batch (at least 1),
/// and concurrent file batches (one less than the provider allows when it is
/// also used for text translation and allows more than one).
pub open spec fn batch_limits_spec(p: Provider) -> (nat, nat, nat) {
    let maximum = if p.context_size / 4 < 256 {
        256
    } else {
        p.context_size / 4
    };
    let segments = if p.max_segments < 1 {
        1
    } else {
        p.max_segments
    };
    let concurrent = if p.max_concurrent < 1 {
        1
    } else {
        p.max_concurrent
    };
    let file_concurrent = if p.text_translation_model && concurrent > 1 {
        (concurrent - 1) as nat
    } else {
        concurrent as nat
    };
    (maximum as nat, segments as nat, file_concurrent)
}

/// The limits a provider gives the file pipeline.
pub fn batch_limits(provider: &Provider) -> (r: (usize, usize, usize))
    ensures
        (r.0 as nat, r.1 as nat, r.2 as nat) == batch_limits_spec(*provider),
        r.0 >= 256,
        r.1 >= 1,
        r.2 >= 1,
{
    let quarter = provider.context_size / 4;
    let maximum = if quarter < 256 {
        256
    } else {
        quarter
    };
    let segments = if provider.max_segments < 1 {
        1
    } else {
        provider.max_segments
    };
    let concurrent = if provider.max_concurrent < 1 {
        1
    } else {
        provider.max_concurrent
    };
    let file_concurrent = if provider.text_translation_model && concurrent > 1 {
        concurrent - 1
    } else {
        concurrent
    };
    (maximum, segments, file_concurrent)
}

/// The number of characters of a document sampled for its summary: half the
/// provider's context, between 1 and 4,096, or 4,096 without a provider.
pub open spec fn summary_limit_spec(provider: Option<Provider>) -> nat {
    match provider {
        Some(p) => {
            let half = p.context_size / 2;
            if half < 1 {
                1
            } else if half > 4096 {
                4096
            } else {
                half as nat
            }
        },
        None => 4096,
    }
}

/// The number of characters of a document sampled for its summary.
pub fn summary_limit(provider: &Option<Provider>) -> (r: usize)
    ensures
        r == summary_limit_spec(*provider),
{
    match provider {
        Some(p) => {
            let half = p.context_size / 2;
            if half < 1 {
                1
            } else if half > 4096 {
                4096
            } else {
                half
            }
        },
        None => 4096,
    }
}

/// The provider a file is translated with: the one found, when it is
/// enabled; otherwise the error that the provider is unavailable.
pub fn file_provider(found: Option<Provider>) -> (r: Result<Provider, FileError>)
    ensures
        match found {
            Some(p) => if p.enabled {
                r == Ok::<Provider, FileError>(p)
            } else {
                r matches Err(FileError::Message(m)) && m@
                    == crate::ai::provider_unavailable_message()
            },
            None => r matches Err(FileError::Message(m)) && m@
                == crate::ai::provider_unavailable_message(),
        },
{
    match found {
        Some(p) => {
            if p.enabled {
                Ok(p)
            } else {
                Err(FileError::Message(String::from_str("Selected AI provider does not exist or is disabled")))
            }
        },
        None => Err(FileError::Message(String::from_str("Selected AI provider does not exist or is disabled"))),
    }
}

/// The error of a file whose summary could not be made: the AI error's
/// text after "Unable to summarize document: ".
pub fn summary_error(error: &AiError) -> (r: FileError)
    ensures
        r matches FileError::Message(m) && m@ == "Unable to summarize document: "@ + error.display_spec(),
{
    let text = error.display_text();
    FileError::Message(crate::text::concat_str("Unable to summarize document: ", text.as_str()))
}

/// A document is summarized first when asked to and no summary is given yet.
pub fn needs_summary(options: &TranslateRequest) -> (r: bool)
    ensures
        r == (options.summarize && options.context_summary.is_none()),
{
    options.summarize && options.context_summary.is_none()
}

/// The delay before retrying after the given number of attempts, in
/// milliseconds: 250 per attempt, at most 2,000.
pub open spec fn retry_delay_spec(attempts: nat) -> nat {
    if 250 * attempts > 2000 {
        2000
    } else {
        250 * attempts
    }
}

/// The delay before retrying, in milliseconds.
pub fn retry_delay_ms(attempts: usize) -> (r: u64)
    ensures
        r == retry_delay_spec(attempts as nat),
{
    if attempts >= 8 {
        2000
    } else {
        250 * (attempts as u64)
    }
}

/// What to do after an attempt at a batch.
#[derive(Debug)]
pub enum BatchStep {
    /// The batch is finished with this result.
    Done(Result<Vec<String>, String>),
    /// Try again after the delay, in milliseconds.
    Retry(u64),
    /// Cut the batch in two halves and translate each; the reply's format
    /// error is given.
    Split(String),
}

/// The message of a batch reply with the wrong number of translations.
pub open spec fn translation_count_message(found: nat, expected: nat) -> Seq<char> {
    "AI returned "@ + crate::text::decimal(found) + " translations for "@ + crate::text::decimal(expected)
        + " input segments"@
}

/// The step after attempt number `attempts` at a batch of `count` segments:
/// a full reply finishes it; a format error splits a batch of several
/// segments; another error is retried until the third attempt.
pub fn batch_attempt_step(result: Result<Vec<String>, AiError>, count: usize, attempts: usize) -> (r:
    BatchStep)
    requires
        attempts >= 1,
    ensures
        match result {
            Ok(v) => if v@.len() == count {
                r matches BatchStep::Done(Ok(w)) && w@ == v@
            } else {
                r matches BatchStep::Done(Err(m)) && m@ == translation_count_message(
                    v@.len(),
                    count as nat,
                )
            },
            Err(AiError::BatchFormat(e)) if count > 1 => r matches BatchStep::Split(m) && m == e,
            Err(e) => if attempts < 3 {
                r matches BatchStep::Retry(d) && d == retry_delay_spec(attempts as nat)
            } else {
                r matches BatchStep::Done(Err(m)) && m@ == e.display_spec()
            },
        },
{
    match result {
        Ok(v) => {
            if v.len() == count {
                BatchStep::Done(Ok(v))
            } else {
                let mut m = String::from_str("AI returned ");
                m.append(crate::text::decimal_string(v.len() as u64).as_str());
                m.append(" translations for ");
                m.append(crate::text::decimal_string(count as u64).as_str());
                m.append(" input segments");
                BatchStep::Done(Err(m))
            }
        },
        Err(AiError::BatchFormat(e)) if count > 1 => BatchStep::Split(e),
        Err(e) => {
            if attempts < 3 {
                BatchStep::Retry(retry_delay_ms(attempts))
            } else {
                BatchStep::Done(Err(e.display_text()))
            }
        },
    }
}

/// The step after attempt number `attempts` at a single segment: its
/// translation finishes it; an error is retried until the third attempt.
pub fn single_attempt_step(result: Result<String, AiError>, attempts: usize) -> (r: BatchStep)
    requires
        attempts >= 1,
    ensures
        match result {
            Ok(t) => r matches BatchStep::Done(Ok(w)) && w@.len() == 1 && w@[0] == t,
            Err(e) => if attempts < 3 {
                r matches BatchStep::Retry(d) && d == retry_delay_spec(attempts as nat)
            } else {
                r matches BatchStep::Done(Err(m)) && m@ == e.display_spec()
            },
        },
{
    match result {
        Ok(t) => {
            let mut v: Vec<String> = Vec::new();
            v.push(t);
            BatchStep::Done(Ok(v))
        },
        Err(e) => {
            if attempts < 3 {
                BatchStep::Retry(retry_delay_ms(attempts))
            } else {
                BatchStep::Done(Err(e.display_text()))
            }
        },
    }
}

/// Cuts a batch into its first half (`len / 2` parts) and the rest.
pub fn split_batch(batch: Vec<PendingPart>) -> (r: (Vec<PendingPart>, Vec<PendingPart>))
    ensures
        r.0@ == batch@.take((batch@.len() / 2) as int),
        r.1@ == batch@.skip((batch@.len() / 2) as int),
        r.0@ + r.1@ == batch@,
{
    let mut left = batch;
    let middle = left.len() / 2;
    let right = left.split_off(middle);
    assert(left@ + right@ =~= batch@);
    (left, right)
}

/// The step after attempt number `attempts` at an image: the image finishes
/// it; an error is retried while there have been at most two attempts.
pub fn image_attempt_step(result: Result<Vec<u8>, AiError>, attempts: usize) -> (r: Result<
    Result<Vec<u8>, String>,
    u64,
>)
    requires
        attempts >= 1,
    ensures
        match result {
            Ok(bytes) => r matches Ok(Ok(b)) && b@ == bytes@,
            Err(e) => if attempts <= 2 {
                r matches Err(d) && d == retry_delay_spec(attempts as nat)
            } else {
                r matches Ok(Err(m)) && m@ == e.display_spec()
            },
        },
{
    match result {
        Ok(bytes) => Ok(Ok(bytes)),
        Err(e) => {
            if attempts <= 2 {
                Err(retry_delay_ms(attempts))
            } else {
                Ok(Err(e.display_text()))
            }
        },
    }
}

// ---------------------------------------------------------------------------
// Results, errors and file kinds
// ---------------------------------------------------------------------------

/// An error of a file translation.
#[derive(Debug)]
pub enum FileError {
    Message(String),
    Io(String),
    Zip(String),
    Xml(String),
    Csv(String),
    Json(String),
    Cancelled,
}

impl FileError {
    /// The text the error displays.
    pub open spec fn display_spec(&self) -> Seq<char> {
        match self {
            FileError::Message(m) => m@,
            FileError::Io(m) => "I/O error: "@ + m@,
            FileError::Zip(m) => "Invalid ZIP/Office document: "@ + m@,
            FileError::Xml(m) => "XML error: "@ + m@,
            FileError::Csv(m) => "CSV error: "@ + m@,
            FileError::Json(m) => "JSON error: "@ + m@,
            FileError::Cancelled => "File translation was cancelled"@,
        }
    }

    /// The text the error displays.
    pub fn display_text(&self) -> (r: String)
        ensures
            r@ == self.display_spec(),
    {
        match self {
            FileError::Message(m) => m.clone(),
            FileError::Io(m) => crate::text::concat_str("I/O error: ", m.as_str()),
            FileError::Zip(m) => crate::text::concat_str("Invalid ZIP/Office document: ", m.as_str()),
            FileError::Xml(m) => crate::text::concat_str("XML error: ", m.as_str()),
            FileError::Csv(m) => crate::text::concat_str("CSV error: ", m.as_str()),
            FileError::Json(m) => crate::text::concat_str("JSON error: ", m.as_str()),
            FileError::Cancelled => String::from_str("File translation was cancelled"),
        }
    }
}

/// What a file translation produced.
#[derive(Debug)]
pub struct FileTranslationResult {
    pub filename: String,
    pub media_type: String,
    pub content: Vec<u8>,
    pub translated_segments: usize,
    pub skipped_segments: usize,
    pub total_segments: usize,
    pub total_batches: usize,
    pub failed_segments: usize,
    pub failed_batches: Vec<FileBatchFailure>,
    pub retry_context: Option<FileRetryContext>,
}

/// What is needed to retry the failed batches of a file translation.
#[derive(Debug, Clone)]
pub struct FileRetryContext {
    filename: String,
    bytes: Vec<u8>,
    options: TranslateRequest,
    output_mode: FileOutputMode,
    cached_batches: HashMap<usize, CachedBatch>,
}

impl FileRetryContext {
    /// A retry context without cached batches.
    pub fn new(filename: &str, bytes: Vec<u8>, options: TranslateRequest, output_mode: FileOutputMode) -> (r:
        FileRetryContext)
        ensures
            r.filename_spec()@ == filename@,
            r.bytes_spec() == bytes@,
            r.options_spec() == options,
            r.output_mode_spec() == output_mode,
            r.cached_spec() == Map::<usize, CachedBatch>::empty(),
    {
        FileRetryContext {
            filename: String::from_str(filename),
            bytes,
            options,
            output_mode,
            cached_batches: HashMap::new(),
        }
    }

    /// A retry context with the batches translated so far.
    pub fn with_cache(
        filename: String,
        bytes: Vec<u8>,
        options: TranslateRequest,
        output_mode: FileOutputMode,
        cached_batches: HashMap<usize, CachedBatch>,
    ) -> (r: FileRetryContext)
        ensures
            r.filename_spec() == filename,
            r.bytes_spec() == bytes@,
            r.options_spec() == options,
            r.output_mode_spec() == output_mode,
            r.cached_spec() == cached_batches@,
    {
        FileRetryContext { filename, bytes, options, output_mode, cached_batches }
    }

    /// The name of the file.
    pub closed spec fn filename_spec(&self) -> String {
        self.filename
    }

    /// The bytes of the file.
    pub closed spec fn bytes_spec(&self) -> Seq<u8> {
        self.bytes@
    }

    /// The options of the translation.
    pub closed spec fn options_spec(&self) -> TranslateRequest {
        self.options
    }

    /// How the output is written.
    pub closed spec fn output_mode_spec(&self) -> FileOutputMode {
        self.output_mode
    }

    /// The batches translated earlier, by id.
    pub closed spec fn cached_spec(&self) -> Map<usize, CachedBatch> {
        self.cached_batches@
    }

    /// The parts of the context: name, bytes, options, output mode and cache.
    pub fn into_parts(self) -> (r: (String, Vec<u8>, TranslateRequest, FileOutputMode, HashMap<
        usize,
        CachedBatch,
    >))
        ensures
            r.0 == self.filename_spec(),
            r.1@ == self.bytes_spec(),
            r.2 == self.options_spec(),
            r.3 == self.output_mode_spec(),
            r.4@ == self.cached_spec(),
    {
        (self.filename, self.bytes, self.options, self.output_mode, self.cached_batches)
    }
}

/// The result of a file translation once every part is done: the output
/// file's name and media type, the translated bytes, the counters, the
/// failed batches, and the context for a retry when some batch failed (with
/// the source bytes, the options and the translated batches).
pub fn finish_file_translation(
    filename: &str,
    content: Vec<u8>,
    counts: &Counts,
    state: BatchState,
    source_bytes: Vec<u8>,
    options: TranslateRequest,
    output_mode: FileOutputMode,
) -> (r: FileTranslationResult)
    ensures
        r.filename@ == translated_name(filename@),
        r.media_type@ == guessed_media_type(filename@),
        r.content@ == content@,
        r.translated_segments == counts.translated,
        r.skipped_segments == counts.skipped,
        r.total_segments == counts.total_segments,
        r.total_batches == counts.total_batches,
        r.failed_segments == counts.failed,
        r.failed_batches@ == state.failed_batches@,
        failures_accounted(*counts, state) ==> r.failed_segments == failed_segment_total(
            r.failed_batches@,
        ),
        counts.translated + counts.failed == counts.total_segments ==> r.translated_segments
            + r.failed_segments == r.total_segments,
        state.failed_batches@.len() == 0 ==> r.retry_context is None,
        state.failed_batches@.len() > 0 ==> (r.retry_context matches Some(c) && c.filename_spec()@
            == filename@ && c.bytes_spec() == source_bytes@ && c.options_spec() == options
            && c.output_mode_spec() == output_mode && c.cached_spec() == state.cached_batches@),
{
    let BatchState { cached_batches, failed_batches, .. } = state;
    let retry_context = if failed_batches.len() == 0 {
        None
    } else {
        Some(FileRetryContext::with_cache(String::from_str(filename), source_bytes, options, output_mode, cached_batches))
    };
    FileTranslationResult {
        filename: output_filename(filename),
        media_type: output_media_type(filename),
        content,
        translated_segments: counts.translated,
        skipped_segments: counts.skipped,
        total_segments: counts.total_segments,
        total_batches: counts.total_batches,
        failed_segments: counts.failed,
        failed_batches,
        retry_context,
    }
}

/// Records the outcome of translating an image file or an image of a
/// document, as batch `batch_id`: a translated image is cached and counted;
/// a failure is recorded with its attempts and error, counted, and the
/// original image is kept. The batch counts as completed; the bytes to use
/// are returned.
pub fn record_image_outcome(
    state: &mut BatchState,
    counts: &mut Counts,
    batch_id: usize,
    original: Vec<u8>,
    attempts: usize,
    outcome: Result<Vec<u8>, String>,
) -> (r: Vec<u8>)
    requires
        old(counts).translated < usize::MAX,
        old(counts).failed < usize::MAX,
        old(counts).completed_batches < usize::MAX,
    ensures
        final(counts).completed_batches == old(counts).completed_batches + 1,
        final(counts).total_segments == old(counts).total_segments,
        final(counts).total_batches == old(counts).total_batches,
        final(counts).skipped == old(counts).skipped,
        failures_accounted(*old(counts), *old(state)) ==> failures_accounted(
            *final(counts),
            *final(state),
        ),
        final(counts).translated + final(counts).failed == old(counts).translated + old(
            counts,
        ).failed + 1,
        match outcome {
            Ok(bytes) => {
                &&& r@ == bytes@
                &&& final(counts).translated == old(counts).translated + 1
                &&& final(counts).failed == old(counts).failed
                &&& final(state).cached_batches@.dom() == old(state).cached_batches@.dom().insert(batch_id)
                &&& final(state).cached_batches@[batch_id] matches CachedBatch::Image(b) && b@ == bytes@
                &&& forall|k: usize|
                    k != batch_id && old(state).cached_batches@.contains_key(k)
                        ==> final(state).cached_batches@[k] == old(state).cached_batches@[k]
                &&& final(state).failed_batches@ == old(state).failed_batches@
            },
            Err(error) => {
                &&& r@ == original@
                &&& final(counts).translated == old(counts).translated
                &&& final(counts).failed == old(counts).failed + 1
                &&& final(state).cached_batches@ == old(state).cached_batches@
                &&& final(state).failed_batches@.len() == old(state).failed_batches@.len() + 1
                &&& final(state).failed_batches@.drop_last() == old(state).failed_batches@
                &&& final(state).failed_batches@.last().id == batch_id
                &&& final(state).failed_batches@.last().segment_count == 1
                &&& final(state).failed_batches@.last().attempts == attempts
                &&& final(state).failed_batches@.last().error@ == error@
            },
        },
{
    broadcast use vstd::std_specs::hash::group_hash_axioms;

    let result = match outcome {
        Ok(bytes) => {
            let kept = copy_bytes(&bytes);
            state.cached_batches.insert(batch_id, CachedBatch::Image(bytes));
            counts.translated = counts.translated + 1;
            kept
        },
        Err(error) => {
            let failure = FileBatchFailure { id: batch_id, segment_count: 1, attempts, error };
            proof {
                lemma_failed_total_push(state.failed_batches@, failure);
            }
            state.failed_batches.push(failure);
            counts.failed = counts.failed + 1;
            original
        },
    };
    counts.completed_batches = counts.completed_batches + 1;
    result
}

/// The kind of an Office document.
#[derive(Debug, Clone, Copy, PartialEq, Eq, Structural)]
pub enum OfficeKind {
    Word,
    PowerPoint,
    Excel,
}

/// How a file is translated, by its extension.
#[derive(Debug, Clone, Copy, PartialEq, Eq, Structural)]
pub enum FileKind {
    Office(OfficeKind),
    Json,
    Csv,
    Caption,
    Plain,
    Pdf,
    Image,
}

/// The extension of a file name in lower case: the text after its last dot,
/// or the whole name when it has none.
pub open spec fn extension_of(filename: Seq<char>) -> Seq<char> {
    let k = last_index_of(filename, '.');
    crate::text::ascii_lower(if k < 0 {
        filename
    } else {
        filename.skip(k + 1)
    })
}

/// The kind of a file by its extension.
pub open spec fn file_kind_spec(filename: Seq<char>) -> Option<FileKind> {
    let e = extension_of(filename);
    if e == "docx"@ {
        Some(FileKind::Office(OfficeKind::Word))
    } else if e == "pptx"@ {
        Some(FileKind::Office(OfficeKind::PowerPoint))
    } else if e == "xlsx"@ {
        Some(FileKind::Office(OfficeKind::Excel))
    } else if e == "json"@ {
        Some(FileKind::Json)
    } else if e == "csv"@ {
        Some(FileKind::Csv)
    } else if e == "srt"@ || e == "vtt"@ {
        Some(FileKind::Caption)
    } else if e == "txt"@ || e == "md"@ || e == "markdown"@ || e == "html"@ || e == "htm"@ {
        Some(FileKind::Plain)
    } else if e == "pdf"@ {
        Some(FileKind::Pdf)
    } else if e == "png"@ || e == "jpg"@ || e == "jpeg"@ || e == "webp"@ {
        Some(FileKind::Image)
    } else {
        None
    }
}

/// The lower-case extension of a file name.
pub fn extension(filename: &str) -> (r: Vec<char>)
    ensures
        r@ == extension_of(filename@),
{
    let chars = chars_of(filename);
    match rfind_char(chars.as_slice(), '.') {
        Some(k) => {
            assert(k < chars@.len());
            assert(chars@.len() == chars.len());
            let tail = slice_chars(chars.as_slice(), k + 1, chars.len());
            assert(tail@ =~= chars@.skip(k + 1));
            crate::text::ascii_lower_chars(tail.as_slice())
        },
        None => crate::text::ascii_lower_chars(chars.as_slice()),
    }
}

pub(crate) fn is_ext(e: &Vec<char>, name: &str) -> (r: bool)
    ensures
        r == (e@ == name@),
{
    crate::text::chars_equal(e.as_slice(), chars_of(name).as_slice())
}

/// The kind of a file by its extension; `None` when it is not supported.
pub fn file_kind(filename: &str) -> (r: Option<FileKind>)
    ensures
        r == file_kind_spec(filename@),
{
    let e = extension(filename);
    if is_ext(&e, "docx") {
        Some(FileKind::Office(OfficeKind::Word))
    } else if is_ext(&e, "pptx") {
        Some(FileKind::Office(OfficeKind::PowerPoint))
    } else if is_ext(&e, "xlsx") {
        Some(FileKind::Office(OfficeKind::Excel))
    } else if is_ext(&e, "json") {
        Some(FileKind::Json)
    } else if is_ext(&e, "csv") {
        Some(FileKind::Csv)
    } else if is_ext(&e, "srt") || is_ext(&e, "vtt") {
        Some(FileKind::Caption)
    } else if is_ext(&e, "txt") || is_ext(&e, "md") || is_ext(&e, "markdown") || is_ext(&e, "html")
        || is_ext(&e, "htm") {
        Some(FileKind::Plain)
    } else if is_ext(&e, "pdf") {
        Some(FileKind::Pdf)
    } else if is_ext(&e, "png") || is_ext(&e, "jpg") || is_ext(&e, "jpeg") || is_ext(&e, "webp") {
        Some(FileKind::Image)
    } else {
        None
    }
}

/// The message for a file of an unsupported type.
pub fn unsupported_file_message() -> (r: String)
    ensures
        r@
            == "Unsupported file type. Use PDF, DOCX, PPTX, XLSX, TXT, Markdown, HTML, CSV, JSON, SRT, VTT, PNG, JPG or WebP."@,
{
    String::from_str(
        "Unsupported file type. Use PDF, DOCX, PPTX, XLSX, TXT, Markdown, HTML, CSV, JSON, SRT, VTT, PNG, JPG or WebP.",
    )
}

/// The folder that holds an Office document's media.
pub open spec fn media_prefix(kind: OfficeKind) -> Seq<char> {
    match kind {
        OfficeKind::Word => "word/media/"@,
        OfficeKind::PowerPoint => "ppt/media/"@,
        OfficeKind::Excel => "xl/media/"@,
    }
}

/// An entry of an Office document is one of its images.
pub open spec fn office_image_spec(kind: OfficeKind, name: Seq<char>) -> bool {
    let e = extension_of(name);
    crate::text::starts_with_seq(name, media_prefix(kind)) && (e == "png"@ || e == "jpg"@ || e
        == "jpeg"@ || e == "webp"@)
}

/// Whether an entry of an Office document is one of its images.
pub fn is_office_image(kind: OfficeKind, name: &str) -> (r: bool)
    ensures
        r == office_image_spec(kind, name@),
{
    let prefix = match kind {
        OfficeKind::Word => chars_of("word/media/"),
        OfficeKind::PowerPoint => chars_of("ppt/media/"),
        OfficeKind::Excel => chars_of("xl/media/"),
    };
    let e = extension(name);
    crate::text::starts_with_chars(chars_of(name).as_slice(), prefix.as_slice()) && (is_ext(&e, "png")
        || is_ext(&e, "jpg") || is_ext(&e, "jpeg") || is_ext(&e, "webp"))
}

/// The media type of a file, from its name, as `mime_guess` determines it
/// (`application/octet-stream` when it knows none).
pub uninterp spec fn guessed_media_type(filename: Seq<char>) -> Seq<char>;

/// The media type of a file by its name: calls
/// `mime_guess::from_path(filename).first_or_octet_stream()`. The contract
/// only names the result; it is a function of the file name alone.
#[verifier::external_body]
pub fn output_media_type(filename: &str) -> (r: String)
    ensures
        r@ == guessed_media_type(filename@),
{
    mime_guess::from_path(filename).first_or_octet_stream().to_string()
}
} // verus!

//! Choosing the installed fonts that a translated PDF is drawn with.
//!
//! The characters that the text needs are gathered once, each installed face
//! is asked which of them it has a glyph for, and faces are then taken
//! greedily: the preferred faces first for the first pick, afterwards the face
//! that covers most of what is still missing, until nothing is missing or no
//! face helps any more.
use vstd::prelude::*;
use crate::text::{chars_of, concat_str, slice_chars, string_from_chars};

verus! {

// ---------------------------------------------------------------------------
// The characters a text needs
// ---------------------------------------------------------------------------

/// A control character: Unicode general category `Cc`, which is exactly
/// U+0000..=U+001F and U+007F..=U+009F.
pub open spec fn is_control(c: char) -> bool {
    (c as int) <= 0x1f || (0x7f <= (c as int) && (c as int) <= 0x9f)
}

/// The code point of a character.
fn code_of(c: char) -> (n: u32)
    ensures
        n as int == c as int,
{
    c as u32
}

/// `char::is_control`.
pub fn is_control_char(c: char) -> (r: bool)
    ensures
        r == is_control(c),
{
    let code = code_of(c);
    code <= 0x1f || (0x7f <= code && code <= 0x9f)
}

/// Strictly increasing by code point: sorted, and no character twice.
pub open spec fn increasing(s: Seq<char>) -> bool {
    forall|i: int, j: int| 0 <= i < j < s.len() ==> (s[i] as int) < (s[j] as int)
}

/// `r` lists, in increasing order, each character that occurs in `text` and
/// is not a control character.
pub open spec fn needed_chars(text: Seq<char>, r: Seq<char>) -> bool {
    &&& increasing(r)
    &&& forall|c: char| #![all_triggers] r.contains(c) <==> (text.contains(c) && !is_control(c))
}

/// Two increasing sequences with the same characters are the same sequence.
pub proof fn lemma_increasing_unique(a: Seq<char>, b: Seq<char>)
    requires
        increasing(a),
        increasing(b),
        forall|c: char| a.contains(c) <==> b.contains(c),
    ensures
        a == b,
    decreases a.len() + b.len(),
{
    if a.len() == 0 {
        if b.len() > 0 {
            assert(b.contains(b[0]));
        }
    } else if b.len() == 0 {
        assert(a.contains(a[0]));
    } else {
        let x = a.last();
        let y = b.last();
        assert(a.contains(x));
        assert(b.contains(y));
        let i = choose|i: int| 0 <= i < b.len() && b[i] == x;
        let j = choose|j: int| 0 <= j < a.len() && a[j] == y;
        assert(x == y) by {
            if (x as int) < (y as int) {
                assert(j < a.len() - 1 ==> (a[j] as int) < (a[a.len() - 1] as int));
            } else if (y as int) < (x as int) {
                assert(i < b.len() - 1 ==> (b[i] as int) < (b[b.len() - 1] as int));
            }
        }
        let a2 = a.drop_last();
        let b2 = b.drop_last();
        assert forall|c: char| a2.contains(c) implies b2.contains(c) by {
            let k = choose|k: int| 0 <= k < a2.len() && a2[k] == c;
            assert(a.contains(c));
            let m = choose|m: int| 0 <= m < b.len() && b[m] == c;
            assert((a[k] as int) < (x as int));
            if m == b.len() - 1 {
                assert(false);
            }
            assert(b2[m] == c);
        }
        assert forall|c: char| b2.contains(c) implies a2.contains(c) by {
            let k = choose|k: int| 0 <= k < b2.len() && b2[k] == c;
            assert(b.contains(c));
            let m = choose|m: int| 0 <= m < a.len() && a[m] == c;
            assert((b[k] as int) < (y as int));
            if m == a.len() - 1 {
                assert(false);
            }
            assert(a2[m] == c);
        }
        lemma_increasing_unique(a2, b2);
        assert(a == a2.push(x));
        assert(b == b2.push(y));
    }
}

/// A text needs one list of characters: [`needed_chars`] fixes it.
pub proof fn lemma_needed_chars_unique(text: Seq<char>, a: Seq<char>, b: Seq<char>)
    requires
        needed_chars(text, a),
        needed_chars(text, b),
    ensures
        a == b,
{
    assert forall|c: char| a.contains(c) <==> b.contains(c) by {
        assert(a.contains(c) <==> (text.contains(c) && !is_control(c)));
        assert(b.contains(c) <==> (text.contains(c) && !is_control(c)));
    }
    lemma_increasing_unique(a, b);
}

/// Adds `c` to an increasing sequence, where it belongs, unless it is there.
fn insert_in_order(r: &mut Vec<char>, c: char)
    requires
        increasing(old(r)@),
    ensures
        increasing(final(r)@),
        forall|x: char| #![all_triggers] final(r)@.contains(x) <==> (old(r)@.contains(x) || x == c),
{
    let code = code_of(c);
    let mut k: usize = 0;
    while k < r.len() && code_of(r[k]) < code
        invariant
            0 <= k <= r@.len(),
            r@ == old(r)@,
            code as int == c as int,
            forall|j: int| 0 <= j < k ==> (r@[j] as int) < (c as int),
        decreases r@.len() - k,
    {
        k = k + 1;
    }
    if k < r.len() && r[k] == c {
        proof {
            assert forall|x: char| (r@.contains(x) || x == c) implies r@.contains(x) by {
                if x == c {
                    assert(r@[k as int] == c);
                }
            }
        }
        return;
    }
    let ghost before = r@;
    r.insert(k, c);
    proof {
        assert(r@ == before.insert(k as int, c));
        assert(k < before.len() ==> (c as int) < (before[k as int] as int));
        assert forall|i: int, j: int| 0 <= i < j < r@.len() implies (r@[i] as int) < (
        r@[j] as int) by {
            if j < k {
            } else if j == k {
            } else if i < k {
                assert(r@[j] == before[j - 1]);
                if (k as int) < j - 1 {
                    assert((before[k as int] as int) < (before[j - 1] as int));
                }
            } else if i == k {
                assert(r@[j] == before[j - 1]);
                if (k as int) < j - 1 {
                    assert((before[k as int] as int) < (before[j - 1] as int));
                }
            } else {
                assert(r@[i] == before[i - 1]);
                assert(r@[j] == before[j - 1]);
            }
        }
        assert forall|x: char| r@.contains(x) implies (before.contains(x) || x == c) by {
            let i = choose|i: int| 0 <= i < r@.len() && r@[i] == x;
            if i < k {
                assert(before[i] == x);
            } else if i > k {
                assert(before[i - 1] == x);
            }
        }
        assert forall|x: char| (before.contains(x) || x == c) implies r@.contains(x) by {
            if x == c {
                assert(r@[k as int] == c);
            } else {
                let i = choose|i: int| 0 <= i < before.len() && before[i] == x;
                if i < k {
                    assert(r@[i] == x);
                } else {
                    assert(r@[i + 1] == x);
                }
            }
        }
        assert(before == old(r)@);
        assert forall|x: char| r@.contains(x) <==> (old(r)@.contains(x) || x == c) by {
            if r@.contains(x) {
                assert(before.contains(x) || x == c);
            }
            if before.contains(x) || x == c {
                assert(r@.contains(x));
            }
        }
    }
}

/// The characters that drawing `text` needs a glyph for: each character of
/// the text but the control characters, once each, in increasing order.
pub fn required_chars(text: &str) -> (r: Vec<char>)
    ensures
        needed_chars(text@, r@),
{
    let chars = chars_of(text);
    let mut r: Vec<char> = Vec::new();
    let mut i: usize = 0;
    while i < chars.len()
        invariant
            0 <= i <= chars@.len(),
            chars@ == text@,
            increasing(r@),
            forall|x: char|
                #![all_triggers]
                r@.contains(x) <==> (chars@.take(i as int).contains(x) && !is_control(x)),
        decreases chars@.len() - i,
    {
        let c = chars[i];
        let ghost before = r@;
        if !is_control_char(c) {
            insert_in_order(&mut r, c);
        }
        proof {
            let t = chars@.take(i as int);
            let t1 = chars@.take(i + 1);
            assert(t1 == t.push(c));
            assert forall|x: char| t1.contains(x) <==> (t.contains(x) || x == c) by {
                if t1.contains(x) {
                    let k = choose|k: int| 0 <= k < t1.len() && t1[k] == x;
                    if k < t.len() {
                        assert(t[k] == x);
                    }
                }
                if t.contains(x) {
                    let k = choose|k: int| 0 <= k < t.len() && t[k] == x;
                    assert(t1[k] == x);
                }
                if x == c {
                    assert(t1[i as int] == c);
                }
            }
            assert forall|x: char| r@.contains(x) <==> (t1.contains(x) && !is_control(x)) by {
                if !is_control(c) {
                    assert(r@.contains(x) <==> (before.contains(x) || x == c));
                }
                assert(before.contains(x) <==> (t.contains(x) && !is_control(x)));
            }
        }
        i = i + 1;
    }
    proof {
        assert(chars@.take(chars@.len() as int) == chars@);
        assert forall|x: char| r@.contains(x) <==> (text@.contains(x) && !is_control(x)) by {
            assert(r@.contains(x) <==> (chars@.take(i as int).contains(x) && !is_control(x)));
        }
    }
    r
}

// ---------------------------------------------------------------------------
// Which characters a face has glyphs for
// ---------------------------------------------------------------------------

/// The glyph index that the face in `face` (the `index`-th face of a font
/// file or collection) maps each of `chars` to, or `None` where printpdf
/// cannot read the face.
pub uninterp spec fn font_glyphs(face: Seq<u8>, index: u32, chars: Seq<char>) -> Option<
    Seq<Option<u16>>,
>;

/// Reads a face with printpdf's `ParsedFont::from_bytes` and looks each
/// character up with `lookup_glyph_index` (its code point as the key).
/// The contract claims only that the answer is the named function of the
/// bytes, the face index and the characters, with one entry per character;
/// the result of parsing a font file is left unsaid.
#[verifier::external_body]
fn font_glyphs_of(face: &[u8], index: u32, chars: &[char]) -> (r: Option<Vec<Option<u16>>>)
    ensures
        match r {
            Some(v) => font_glyphs(face@, index, chars@) == Some(v@) && v@.len() == chars@.len(),
            None => font_glyphs(face@, index, chars@) is None,
        },
{
    let font = printpdf::ParsedFont::from_bytes(face, index as usize, &mut Vec::new())?;
    Some(chars.iter().map(|c| font.lookup_glyph_index(*c as u32)).collect())
}

/// The characters of `chars` whose entry in `glyphs` is a glyph, in order.
pub open spec fn with_glyph(chars: Seq<char>, glyphs: Seq<Option<u16>>) -> Seq<char>
    decreases chars.len(),
{
    if chars.len() == 0 {
        Seq::empty()
    } else {
        let rest = with_glyph(chars.drop_last(), glyphs);
        if glyphs[chars.len() - 1] is Some {
            rest.push(chars.last())
        } else {
            rest
        }
    }
}

/// What a face covers of `chars`, given what printpdf reads from it.
pub open spec fn face_coverage(chars: Seq<char>, glyphs: Option<Seq<Option<u16>>>) -> Option<
    Seq<char>,
> {
    match glyphs {
        Some(g) => Some(with_glyph(chars, g)),
        None => None,
    }
}

/// The characters of `chars` that the face has a glyph for, in their order,
/// or `None` where the face cannot be read.
pub fn glyph_coverage(face: &[u8], index: u32, chars: &[char]) -> (r: Option<Vec<char>>)
    ensures
        match r {
            Some(v) => face_coverage(chars@, font_glyphs(face@, index, chars@)) == Some(v@),
            None => face_coverage(chars@, font_glyphs(face@, index, chars@)) is None,
        },
{
    match font_glyphs_of(face, index, chars) {
        None => None,
        Some(glyphs) => Some(chars_with_glyph(chars, &glyphs)),
    }
}

/// The characters of `chars` whose entry in `glyphs` is a glyph.
pub fn chars_with_glyph(chars: &[char], glyphs: &Vec<Option<u16>>) -> (v: Vec<char>)
    requires
        glyphs@.len() == chars@.len(),
    ensures
        v@ == with_glyph(chars@, glyphs@),
{
    let mut v: Vec<char> = Vec::new();
    let mut i: usize = 0;
    while i < chars.len()
        invariant
            0 <= i <= chars@.len(),
            glyphs@.len() == chars@.len(),
            v@ == with_glyph(chars@.take(i as int), glyphs@),
        decreases chars@.len() - i,
    {
        let ghost t1 = chars@.take(i + 1);
        assert(t1.drop_last() == chars@.take(i as int));
        if glyphs[i].is_some() {
            v.push(chars[i]);
        }
        i = i + 1;
    }
    assert(chars@.take(chars@.len() as int) == chars@);
    v
}

// ---------------------------------------------------------------------------
// Picking the faces
// ---------------------------------------------------------------------------

/// The characters of `rem` that `cov` holds, in their order in `rem`.
pub open spec fn kept_chars(rem: Seq<char>, cov: Seq<char>) -> Seq<char>
    decreases rem.len(),
{
    if rem.len() == 0 {
        Seq::empty()
    } else if cov.contains(rem.last()) {
        kept_chars(rem.drop_last(), cov).push(rem.last())
    } else {
        kept_chars(rem.drop_last(), cov)
    }
}

/// The characters of `rem` that `cov` does not hold, in their order in `rem`.
pub open spec fn left_chars(rem: Seq<char>, cov: Seq<char>) -> Seq<char>
    decreases rem.len(),
{
    if rem.len() == 0 {
        Seq::empty()
    } else if cov.contains(rem.last()) {
        left_chars(rem.drop_last(), cov)
    } else {
        left_chars(rem.drop_last(), cov).push(rem.last())
    }
}

/// Each character of `rem` is either kept or left.
pub proof fn lemma_kept_left_len(rem: Seq<char>, cov: Seq<char>)
    ensures
        kept_chars(rem, cov).len() + left_chars(rem, cov).len() == rem.len(),
    decreases rem.len(),
{
    if rem.len() > 0 {
        lemma_kept_left_len(rem.drop_last(), cov);
    }
}

/// The view of what was read from each face.
pub open spec fn coverage_entry(o: Option<Vec<char>>) -> Option<Seq<char>> {
    match o {
        Some(v) => Some(v@),
        None => None,
    }
}

/// The coverage of each face, as sequences of characters.
pub open spec fn coverage_view(coverage: Seq<Option<Vec<char>>>) -> Seq<Option<Seq<char>>> {
    coverage.map_values(|o: Option<Vec<char>>| coverage_entry(o))
}

/// What face `f` covers: nothing where it has no entry or could not be read.
pub open spec fn covered_by(cov: Seq<Option<Seq<char>>>, f: usize) -> Seq<char> {
    if f < cov.len() {
        match cov[f as int] {
            Some(c) => c,
            None => Seq::empty(),
        }
    } else {
        Seq::empty()
    }
}

/// How many of the characters still missing face `f` would supply.
pub open spec fn gain(rem: Seq<char>, cov: Seq<Option<Seq<char>>>, f: usize) -> nat {
    kept_chars(rem, covered_by(cov, f)).len()
}

/// The face that one greedy step takes from `cands[i..]`, given the best so
/// far: faces already used and faces that supply nothing are passed over, a
/// face replaces the best only when it supplies strictly more, and a face
/// that supplies everything still missing ends the search.
pub open spec fn best_face(
    cands: Seq<usize>,
    i: nat,
    used: Seq<usize>,
    rem: Seq<char>,
    cov: Seq<Option<Seq<char>>>,
    best: Option<(usize, nat)>,
) -> Option<usize>
    decreases cands.len() - i,
{
    if i >= cands.len() {
        match best {
            Some((f, _)) => Some(f),
            None => None,
        }
    } else {
        let f = cands[i as int];
        let n = gain(rem, cov, f);
        if used.contains(f) || n == 0 || (best matches Some((_, m)) && n <= m) {
            best_face(cands, i + 1, used, rem, cov, best)
        } else if n == rem.len() {
            Some(f)
        } else {
            best_face(cands, i + 1, used, rem, cov, Some((f, n)))
        }
    }
}

/// The face that the next step takes: the first step looks at the preferred
/// faces and falls back on all faces; later steps look at all faces.
pub open spec fn next_face(
    preferred: Seq<usize>,
    all: Seq<usize>,
    used: Seq<usize>,
    rem: Seq<char>,
    cov: Seq<Option<Seq<char>>>,
) -> Option<usize> {
    if used.len() == 0 {
        match best_face(preferred, 0, used, rem, cov, None) {
            Some(f) => Some(f),
            None => best_face(all, 0, used, rem, cov, None),
        }
    } else {
        best_face(all, 0, used, rem, cov, None)
    }
}

/// A face that a step takes supplies at least one missing character.
pub proof fn lemma_best_face_gains(
    cands: Seq<usize>,
    i: nat,
    used: Seq<usize>,
    rem: Seq<char>,
    cov: Seq<Option<Seq<char>>>,
    best: Option<(usize, nat)>,
)
    requires
        best matches Some((f, _)) ==> gain(rem, cov, f) > 0,
    ensures
        best_face(cands, i, used, rem, cov, best) matches Some(f) ==> gain(rem, cov, f) > 0,
    decreases cands.len() - i,
{
    if i < cands.len() {
        let f = cands[i as int];
        let n = gain(rem, cov, f);
        if used.contains(f) || n == 0 || (best matches Some((_, m)) && n <= m) {
            lemma_best_face_gains(cands, i + 1, used, rem, cov, best);
        } else if n != rem.len() {
            lemma_best_face_gains(cands, i + 1, used, rem, cov, Some((f, n)));
        }
    }
}

/// The next step, when it takes a face, leaves fewer characters missing.
pub proof fn lemma_next_face_shrinks(
    preferred: Seq<usize>,
    all: Seq<usize>,
    used: Seq<usize>,
    rem: Seq<char>,
    cov: Seq<Option<Seq<char>>>,
)
    ensures
        next_face(preferred, all, used, rem, cov) matches Some(f) ==> left_chars(
            rem,
            covered_by(cov, f),
        ).len() < rem.len(),
{
    lemma_best_face_gains(preferred, 0, used, rem, cov, None);
    lemma_best_face_gains(all, 0, used, rem, cov, None);
    if let Some(f) = next_face(preferred, all, used, rem, cov) {
        lemma_kept_left_len(rem, covered_by(cov, f));
    }
}

/// Greedy choice from a state: the faces taken so far and the characters
/// still missing. Steps go on while something is missing and a face helps.
pub open spec fn greedy(
    preferred: Seq<usize>,
    all: Seq<usize>,
    cov: Seq<Option<Seq<char>>>,
    used: Seq<usize>,
    rem: Seq<char>,
) -> (Seq<usize>, Seq<char>)
    decreases rem.len(),
{
    if rem.len() == 0 {
        (used, rem)
    } else {
        match next_face(preferred, all, used, rem, cov) {
            None => (used, rem),
            Some(f) => {
                proof {
                    lemma_next_face_shrinks(preferred, all, used, rem, cov);
                }
                greedy(preferred, all, cov, used.push(f), left_chars(rem, covered_by(cov, f)))
            },
        }
    }
}

/// The error text when some characters have no face: the first eight of
/// them, in order.
pub open spec fn missing_fonts_message(left: Seq<char>) -> Seq<char> {
    "Unable to build translated PDF because no installed font supports: "@ + left.take(
        if left.len() < 8 {
            left.len() as int
        } else {
            8
        },
    )
}

/// The faces that draw the required characters, in the order taken, or the
/// error text when some character is left without one.
pub open spec fn font_choice(
    required: Seq<char>,
    preferred: Seq<usize>,
    all: Seq<usize>,
    cov: Seq<Option<Seq<char>>>,
) -> Result<Seq<usize>, Seq<char>> {
    let (used, left) = greedy(preferred, all, cov, Seq::empty(), required);
    if left.len() == 0 {
        Ok(used)
    } else {
        Err(missing_fonts_message(left))
    }
}

/// Whether `s` holds `c`.
fn holds_char(s: &Vec<char>, c: char) -> (r: bool)
    ensures
        r == s@.contains(c),
{
    let mut i: usize = 0;
    while i < s.len()
        invariant
            0 <= i <= s@.len(),
            forall|j: int| 0 <= j < i ==> s@[j] != c,
        decreases s@.len() - i,
    {
        if s[i] == c {
            return true;
        }
        i = i + 1;
    }
    false
}

/// Whether `s` holds face `f`.
fn holds_face(s: &Vec<usize>, f: usize) -> (r: bool)
    ensures
        r == s@.contains(f),
{
    let mut i: usize = 0;
    while i < s.len()
        invariant
            0 <= i <= s@.len(),
            forall|j: int| 0 <= j < i ==> s@[j] != f,
        decreases s@.len() - i,
    {
        if s[i] == f {
            return true;
        }
        i = i + 1;
    }
    false
}

/// How many characters of `rem` are in `cov`.
fn kept_count(rem: &Vec<char>, cov: &Vec<char>) -> (n: usize)
    ensures
        n == kept_chars(rem@, cov@).len(),
{
    let mut n: usize = 0;
    let mut i: usize = 0;
    while i < rem.len()
        invariant
            0 <= i <= rem@.len(),
            n == kept_chars(rem@.take(i as int), cov@).len(),
            n <= i,
        decreases rem@.len() - i,
    {
        let ghost t1 = rem@.take(i + 1);
        assert(t1.drop_last() == rem@.take(i as int));
        if holds_char(cov, rem[i]) {
            n = n + 1;
        }
        i = i + 1;
    }
    assert(rem@.take(rem@.len() as int) == rem@);
    n
}

/// The characters of `rem` that are not in `cov`.
fn left_after(rem: &Vec<char>, cov: &Vec<char>) -> (v: Vec<char>)
    ensures
        v@ == left_chars(rem@, cov@),
{
    let mut v: Vec<char> = Vec::new();
    let mut i: usize = 0;
    while i < rem.len()
        invariant
            0 <= i <= rem@.len(),
            v@ == left_chars(rem@.take(i as int), cov@),
        decreases rem@.len() - i,
    {
        let ghost t1 = rem@.take(i + 1);
        assert(t1.drop_last() == rem@.take(i as int));
        if !holds_char(cov, rem[i]) {
            v.push(rem[i]);
        }
        i = i + 1;
    }
    assert(rem@.take(rem@.len() as int) == rem@);
    v
}

/// How many of the missing characters face `f` supplies.
fn gain_of(rem: &Vec<char>, coverage: &Vec<Option<Vec<char>>>, f: usize) -> (n: usize)
    ensures
        n == gain(rem@, coverage_view(coverage@), f),
{
    proof {
        lemma_kept_left_len(rem@, covered_by(coverage_view(coverage@), f));
    }
    if f < coverage.len() {
        match &coverage[f] {
            Some(c) => kept_count(rem, c),
            None => {
                proof {
                    assert(kept_chars(rem@, Seq::<char>::empty()).len() == 0) by {
                        lemma_nothing_kept(rem@);
                    }
                }
                0
            },
        }
    } else {
        proof {
            lemma_nothing_kept(rem@);
        }
        0
    }
}

/// Nothing is kept by an empty coverage.
proof fn lemma_nothing_kept(rem: Seq<char>)
    ensures
        kept_chars(rem, Seq::<char>::empty()).len() == 0,
    decreases rem.len(),
{
    if rem.len() > 0 {
        lemma_nothing_kept(rem.drop_last());
    }
}

/// The characters still missing after face `f` is taken.
fn left_after_face(rem: &Vec<char>, coverage: &Vec<Option<Vec<char>>>, f: usize) -> (v: Vec<char>)
    ensures
        v@ == left_chars(rem@, covered_by(coverage_view(coverage@), f)),
{
    if f < coverage.len() {
        match &coverage[f] {
            Some(c) => left_after(rem, c),
            None => {
                let empty: Vec<char> = Vec::new();
                left_after(rem, &empty)
            },
        }
    } else {
        let empty: Vec<char> = Vec::new();
        left_after(rem, &empty)
    }
}

/// One greedy step over `cands`.
fn best_of(
    cands: &Vec<usize>,
    used: &Vec<usize>,
    rem: &Vec<char>,
    coverage: &Vec<Option<Vec<char>>>,
) -> (r: Option<usize>)
    ensures
        r == best_face(cands@, 0, used@, rem@, coverage_view(coverage@), None),
{
    let ghost cov = coverage_view(coverage@);
    let mut best: Option<(usize, usize)> = None;
    let mut i: usize = 0;
    while i < cands.len()
        invariant
            0 <= i <= cands@.len(),
            cov == coverage_view(coverage@),
            best_face(
                cands@,
                i as nat,
                used@,
                rem@,
                cov,
                match best {
                    Some((f, n)) => Some((f, n as nat)),
                    None => None,
                },
            ) == best_face(cands@, 0, used@, rem@, cov, None),
        decreases cands@.len() - i,
    {
        let f = cands[i];
        let n = gain_of(rem, coverage, f);
        let passed = holds_face(used, f) || n == 0 || match best {
            Some((_, m)) => n <= m,
            None => false,
        };
        if passed {
        } else if n == rem.len() {
            return Some(f);
        } else {
            best = Some((f, n));
        }
        i = i + 1;
    }
    match best {
        Some((f, _)) => Some(f),
        None => None,
    }
}

/// Chooses the faces a PDF is drawn with. `required` lists the characters
/// the text needs, `preferred` and `all` list faces by their index in
/// `coverage`, and `coverage` holds, per face, the characters of `required`
/// it has glyphs for (`None` where the face could not be read). The result
/// lists the faces in the order they were taken, or the error text naming
/// the first eight characters that no face covers.
pub fn select_pdf_fonts(
    required: &Vec<char>,
    preferred: &Vec<usize>,
    all: &Vec<usize>,
    coverage: &Vec<Option<Vec<char>>>,
) -> (r: Result<Vec<usize>, String>)
    ensures
        match r {
            Ok(v) => font_choice(required@, preferred@, all@, coverage_view(coverage@)) == Ok::<
                Seq<usize>,
                Seq<char>,
            >(v@),
            Err(s) => font_choice(required@, preferred@, all@, coverage_view(coverage@)) == Err::<
                Seq<usize>,
                Seq<char>,
            >(s@),
        },
{
    let ghost cov = coverage_view(coverage@);
    let mut used: Vec<usize> = Vec::new();
    let mut rem: Vec<char> = slice_chars(required.as_slice(), 0, required.len());
    assert(rem@ == required@);
    loop
        invariant
            cov == coverage_view(coverage@),
            greedy(preferred@, all@, cov, used@, rem@) == greedy(
                preferred@,
                all@,
                cov,
                Seq::empty(),
                required@,
            ),
        ensures
            greedy(preferred@, all@, cov, Seq::empty(), required@) == (used@, rem@),
        decreases rem@.len(),
    {
        if rem.len() == 0 {
            break;
        }
        let next = if used.len() == 0 {
            match best_of(preferred, &used, &rem, coverage) {
                Some(f) => Some(f),
                None => best_of(all, &used, &rem, coverage),
            }
        } else {
            best_of(all, &used, &rem, coverage)
        };
        assert(next == next_face(preferred@, all@, used@, rem@, cov));
        match next {
            None => {
                break;
            },
            Some(f) => {
                proof {
                    lemma_next_face_shrinks(preferred@, all@, used@, rem@, cov);
                }
                let rest = left_after_face(&rem, coverage, f);
                used.push(f);
                rem = rest;
            },
        }
    }
    if rem.len() == 0 {
        Ok(used)
    } else {
        let k: usize = if rem.len() < 8 {
            rem.len()
        } else {
            8
        };
        let first = slice_chars(rem.as_slice(), 0, k);
        let missing = string_from_chars(first.as_slice());
        Err(
            concat_str(
                "Unable to build translated PDF because no installed font supports: ",
                missing.as_str(),
            ),
        )
    }
}

} // verus!

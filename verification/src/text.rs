//! Character-level text operations shared by the translation pipeline.
//!
//! Text is handled as sequences of Unicode scalar values (`char`), which is
//! also how the specifications speak about `String` and `&str` values.
use vstd::prelude::*;

verus! {

// ---------------------------------------------------------------------------
// Conversions between strings and character vectors
// ---------------------------------------------------------------------------

/// Builds a `String` from characters with `String::from_iter`.
/// The contract claims that the string holds exactly the given characters,
/// in order, as std documents for collecting characters into a `String`.
#[verifier::external_body]
pub fn string_from_chars(chars: &[char]) -> (s: String)
    ensures
        s@ == chars@,
{
    String::from_iter(chars)
}

/// The characters of a string slice, in order.
pub fn chars_of(s: &str) -> (v: Vec<char>)
    ensures
        v@ == s@,
{
    let mut v: Vec<char> = Vec::new();
    for c in it: s.chars()
        invariant
            v@ == it.seq().take(it.index() as int),
            it.seq() == s@,
    {
        v.push(c);
    }
    v
}

/// Appends the characters of `s` to `out`.
pub fn push_str_chars(out: &mut Vec<char>, s: &[char])
    ensures
        final(out)@ == old(out)@ + s@,
{
    let mut i: usize = 0;
    while i < s.len()
        invariant
            i <= s@.len(),
            out@ == old(out)@ + s@.take(i as int),
        decreases s@.len() - i,
    {
        out.push(s[i]);
        i = i + 1;
        assert(s@.take(i as int) == s@.take(i - 1).push(s@[i - 1]));
    }
    assert(s@.take(s@.len() as int) == s@);
}

/// A copy of the characters in `s[start..end]`.
pub fn slice_chars(s: &[char], start: usize, end: usize) -> (v: Vec<char>)
    requires
        start <= end <= s@.len(),
    ensures
        v@ == s@.subrange(start as int, end as int),
{
    let mut v: Vec<char> = Vec::new();
    let mut i: usize = start;
    while i < end
        invariant
            start <= i <= end,
            end <= s@.len(),
            v@ == s@.subrange(start as int, i as int),
        decreases end - i,
    {
        v.push(s[i]);
        i = i + 1;
        assert(s@.subrange(start as int, i as int) == s@.subrange(start as int, i - 1).push(
            s@[i - 1],
        ));
    }
    v
}

/// Whether two character sequences are equal.
pub fn chars_equal(a: &[char], b: &[char]) -> (r: bool)
    ensures
        r == (a@ == b@),
{
    if a.len() != b.len() {
        return false;
    }
    let mut i: usize = 0;
    while i < a.len()
        invariant
            a@.len() == b@.len(),
            i <= a@.len(),
            forall|j: int| 0 <= j < i ==> a@[j] == b@[j],
        decreases a@.len() - i,
    {
        if a[i] != b[i] {
            return false;
        }
        i = i + 1;
    }
    assert(a@ =~= b@);
    true
}

// ---------------------------------------------------------------------------
// Whitespace and trimming
// ---------------------------------------------------------------------------

/// The Unicode `White_Space` property, which `char::is_whitespace` and the
/// `trim` family of `str` follow.
pub open spec fn is_ws(c: char) -> bool {
    let u = c as u32;
    ||| 0x09 <= u <= 0x0D
    ||| u == 0x20
    ||| u == 0x85
    ||| u == 0xA0
    ||| u == 0x1680
    ||| 0x2000 <= u <= 0x200A
    ||| u == 0x2028
    ||| u == 0x2029
    ||| u == 0x202F
    ||| u == 0x205F
    ||| u == 0x3000
}

/// `char::is_whitespace`.
pub fn is_whitespace(c: char) -> (r: bool)
    ensures
        r == is_ws(c),
{
    let u = c as u32;
    (0x09 <= u && u <= 0x0D) || u == 0x20 || u == 0x85 || u == 0xA0 || u == 0x1680 || (0x2000
        <= u && u <= 0x200A) || u == 0x2028 || u == 0x2029 || u == 0x202F || u == 0x205F || u
        == 0x3000
}

/// Number of whitespace characters at the start of `s`.
pub open spec fn lead_ws(s: Seq<char>) -> nat
    decreases s.len(),
{
    if s.len() > 0 && is_ws(s[0]) {
        1 + lead_ws(s.drop_first())
    } else {
        0
    }
}

/// Number of whitespace characters at the end of `s`.
pub open spec fn trail_ws(s: Seq<char>) -> nat
    decreases s.len(),
{
    if s.len() > 0 && is_ws(s.last()) {
        1 + trail_ws(s.drop_last())
    } else {
        0
    }
}

/// `str::trim_start`.
pub open spec fn trim_start(s: Seq<char>) -> Seq<char> {
    s.skip(lead_ws(s) as int)
}

/// `str::trim_end`.
pub open spec fn trim_end(s: Seq<char>) -> Seq<char> {
    s.take(s.len() - trail_ws(s))
}

/// `str::trim`.
pub open spec fn trim(s: Seq<char>) -> Seq<char> {
    trim_end(trim_start(s))
}

/// Every character of `s` is whitespace.
pub open spec fn all_ws(s: Seq<char>) -> bool {
    forall|i: int| 0 <= i < s.len() ==> #[trigger] is_ws(s[i])
}

/// `lead_ws(s)` is the unique count of a whitespace prefix that is followed by
/// a non-whitespace character or by the end of `s`.
pub proof fn lemma_lead_ws(s: Seq<char>)
    ensures
        lead_ws(s) <= s.len(),
        forall|i: int| 0 <= i < lead_ws(s) ==> #[trigger] is_ws(s[i]),
        lead_ws(s) < s.len() ==> !is_ws(s[lead_ws(s) as int]),
    decreases s.len(),
{
    if s.len() > 0 && is_ws(s[0]) {
        lemma_lead_ws(s.drop_first());
        assert forall|i: int| 0 <= i < lead_ws(s) implies #[trigger] is_ws(s[i]) by {
            if i > 0 {
                assert(s[i] == s.drop_first()[i - 1]);
            }
        }
    }
}

/// A whitespace prefix followed by a non-whitespace character (or the end)
/// has length `lead_ws(s)`.
pub proof fn lemma_lead_ws_unique(s: Seq<char>, n: int)
    requires
        0 <= n <= s.len(),
        forall|i: int| 0 <= i < n ==> #[trigger] is_ws(s[i]),
        n < s.len() ==> !is_ws(s[n]),
    ensures
        lead_ws(s) == n,
    decreases n,
{
    if n > 0 {
        assert(is_ws(s[0]));
        let t = s.drop_first();
        assert forall|i: int| 0 <= i < n - 1 implies #[trigger] is_ws(t[i]) by {
            assert(t[i] == s[i + 1]);
        }
        if n - 1 < t.len() {
            assert(t[n - 1] == s[n]);
        }
        lemma_lead_ws_unique(t, n - 1);
    }
}

/// `trail_ws(s)` is the unique count of a whitespace suffix that is preceded
/// by a non-whitespace character or by the start of `s`.
pub proof fn lemma_trail_ws(s: Seq<char>)
    ensures
        trail_ws(s) <= s.len(),
        forall|i: int| s.len() - trail_ws(s) <= i < s.len() ==> #[trigger] is_ws(s[i]),
        trail_ws(s) < s.len() ==> !is_ws(s[s.len() - trail_ws(s) - 1]),
    decreases s.len(),
{
    if s.len() > 0 && is_ws(s.last()) {
        let t = s.drop_last();
        lemma_trail_ws(t);
        assert forall|i: int| s.len() - trail_ws(s) <= i < s.len() implies #[trigger] is_ws(
            s[i],
        ) by {
            if i < s.len() - 1 {
                assert(s[i] == t[i]);
            }
        }
        if trail_ws(s) < s.len() {
            assert(s[s.len() - trail_ws(s) - 1] == t[t.len() - trail_ws(t) - 1]);
        }
    }
}

/// A whitespace suffix preceded by a non-whitespace character (or the start)
/// has length `trail_ws(s)`.
pub proof fn lemma_trail_ws_unique(s: Seq<char>, n: int)
    requires
        0 <= n <= s.len(),
        forall|i: int| s.len() - n <= i < s.len() ==> #[trigger] is_ws(s[i]),
        n < s.len() ==> !is_ws(s[s.len() - n - 1]),
    ensures
        trail_ws(s) == n,
    decreases n,
{
    if n > 0 {
        assert(is_ws(s[s.len() - 1]));
        let t = s.drop_last();
        assert forall|i: int| t.len() - (n - 1) <= i < t.len() implies #[trigger] is_ws(t[i]) by {
            assert(t[i] == s[i]);
        }
        if n - 1 < t.len() {
            assert(t[t.len() - (n - 1) - 1] == s[s.len() - n - 1]);
        }
        lemma_trail_ws_unique(t, n - 1);
    }
}

/// `trim(s)` is empty exactly when every character of `s` is whitespace.
pub proof fn lemma_trim_empty(s: Seq<char>)
    ensures
        (trim(s).len() == 0) == all_ws(s),
        (trim_start(s).len() == 0) == all_ws(s),
        (trim_end(s).len() == 0) == all_ws(s),
{
    lemma_lead_ws(s);
    lemma_trail_ws(s);
    let l = lead_ws(s);
    let t = trim_start(s);
    lemma_trail_ws(t);
    if all_ws(s) {
        lemma_lead_ws_unique(s, s.len() as int);
        lemma_trail_ws_unique(s, s.len() as int);
    } else {
        if l == s.len() {
            assert(all_ws(s));
        }
        assert(t.len() > 0);
        assert(!is_ws(t[0]));
        if trail_ws(t) == t.len() {
            assert(is_ws(t[0]));
        }
        if trail_ws(s) == s.len() {
            assert(all_ws(s));
        }
    }
}

/// When `s` has a non-whitespace character, `trim(s)` is the range between
/// the leading and the trailing whitespace.
pub proof fn lemma_trim_range(s: Seq<char>)
    requires
        !all_ws(s),
    ensures
        lead_ws(s) + trail_ws(s) < s.len(),
        trim(s) == s.subrange(lead_ws(s) as int, s.len() - trail_ws(s)),
        trim_start(s) == s.subrange(lead_ws(s) as int, s.len() as int),
        trim_end(s) == s.subrange(0, s.len() - trail_ws(s)),
{
    lemma_lead_ws(s);
    lemma_trail_ws(s);
    let l = lead_ws(s) as int;
    let r = trail_ws(s) as int;
    if l == s.len() {
        assert(all_ws(s));
    }
    if l + r >= s.len() {
        assert forall|i: int| 0 <= i < s.len() implies #[trigger] is_ws(s[i]) by {
            if i >= l {
                assert(s.len() - r <= i);
            }
        }
    }
    let t = trim_start(s);
    assert(t == s.subrange(l, s.len() as int));
    assert forall|i: int| t.len() - r <= i < t.len() implies #[trigger] is_ws(t[i]) by {
        assert(t[i] == s[i + l]);
    }
    if r < t.len() {
        assert(t[t.len() - r - 1] == s[s.len() - r - 1]);
    }
    lemma_trail_ws_unique(t, r);
    assert(trim(s) =~= s.subrange(l, s.len() - r));
}

/// The number of leading whitespace characters of `s`.
pub fn leading_ws_count(s: &[char]) -> (n: usize)
    ensures
        n == lead_ws(s@),
{
    let mut i: usize = 0;
    while i < s.len() && is_whitespace(s[i])
        invariant
            i <= s@.len(),
            forall|j: int| 0 <= j < i ==> #[trigger] is_ws(s@[j]),
        decreases s@.len() - i,
    {
        i = i + 1;
    }
    proof {
        lemma_lead_ws_unique(s@, i as int);
    }
    i
}

/// The number of trailing whitespace characters of `s`.
pub fn trailing_ws_count(s: &[char]) -> (n: usize)
    ensures
        n == trail_ws(s@),
{
    let mut n: usize = 0;
    while n < s.len() && is_whitespace(s[s.len() - 1 - n])
        invariant
            n <= s@.len(),
            forall|j: int| s@.len() - n <= j < s@.len() ==> #[trigger] is_ws(s@[j]),
        decreases s@.len() - n,
    {
        n = n + 1;
    }
    proof {
        lemma_trail_ws_unique(s@, n as int);
    }
    n
}

/// Whether every character of `s` is whitespace, i.e. `s.trim().is_empty()`.
pub fn is_blank(s: &[char]) -> (r: bool)
    ensures
        r == all_ws(s@),
        r == (trim(s@).len() == 0),
{
    proof {
        lemma_trim_empty(s@);
        lemma_lead_ws(s@);
    }
    let n = leading_ws_count(s);
    if n == s.len() {
        proof {
            assert forall|i: int| 0 <= i < s@.len() implies #[trigger] is_ws(s@[i]) by {}
        }
        true
    } else {
        false
    }
}

/// `s.trim()` as a vector of characters.
pub fn trim_chars(s: &[char]) -> (v: Vec<char>)
    ensures
        v@ == trim(s@),
{
    proof {
        lemma_trim_empty(s@);
    }
    if is_blank(s) {
        return Vec::new();
    }
    proof {
        lemma_trim_range(s@);
    }
    let l = leading_ws_count(s);
    let r = trailing_ws_count(s);
    slice_chars(s, l, s.len() - r)
}

/// `s.trim()` as a `String`.
pub fn trim_str(s: &str) -> (t: String)
    ensures
        t@ == trim(s@),
{
    let chars = chars_of(s);
    let trimmed = trim_chars(chars.as_slice());
    string_from_chars(trimmed.as_slice())
}

// ---------------------------------------------------------------------------
// Line endings
// ---------------------------------------------------------------------------

/// `text.replace("\r\n", "\n").replace('\r', "\n")`: a carriage return that
/// precedes a line feed is dropped, and every other carriage return becomes a
/// line feed.
pub open spec fn normalize_newlines(s: Seq<char>) -> Seq<char>
    decreases s.len(),
{
    if s.len() == 0 {
        s
    } else if s[0] == '\r' && s.len() > 1 && s[1] == '\n' {
        seq!['\n'] + normalize_newlines(s.skip(2))
    } else if s[0] == '\r' {
        seq!['\n'] + normalize_newlines(s.skip(1))
    } else {
        seq![s[0]] + normalize_newlines(s.skip(1))
    }
}

/// A sequence without carriage returns is unchanged by newline normalization.
pub proof fn lemma_normalize_no_cr(s: Seq<char>)
    requires
        !s.contains('\r'),
    ensures
        normalize_newlines(s) == s,
    decreases s.len(),
{
    if s.len() > 0 {
        assert(s[0] != '\r');
        assert(!s.skip(1).contains('\r')) by {
            if s.skip(1).contains('\r') {
                let k = choose|k: int| 0 <= k < s.skip(1).len() && s.skip(1)[k] == '\r';
                assert(s[k + 1] == '\r');
            }
        }
        lemma_normalize_no_cr(s.skip(1));
        assert(seq![s[0]] + s.skip(1) =~= s);
    }
}

/// Normalized text contains no carriage return.
pub proof fn lemma_normalize_has_no_cr(s: Seq<char>)
    ensures
        !normalize_newlines(s).contains('\r'),
    decreases s.len(),
{
    if s.len() > 0 {
        if s[0] == '\r' && s.len() > 1 && s[1] == '\n' {
            lemma_normalize_has_no_cr(s.skip(2));
        } else {
            lemma_normalize_has_no_cr(s.skip(1));
        }
        let n = normalize_newlines(s);
        if n.contains('\r') {
            let k = choose|k: int| 0 <= k < n.len() && n[k] == '\r';
            if s[0] == '\r' && s.len() > 1 && s[1] == '\n' {
                assert(n[k] == normalize_newlines(s.skip(2))[k - 1]);
            } else {
                assert(k > 0);
                assert(n[k] == normalize_newlines(s.skip(1))[k - 1]);
            }
        }
    }
}

/// Line endings of `s` normalized to `\n`.
pub fn normalize_newline_chars(s: &[char]) -> (v: Vec<char>)
    ensures
        v@ == normalize_newlines(s@),
{
    let mut out: Vec<char> = Vec::new();
    let mut i: usize = 0;
    assert(s@.skip(0) =~= s@);
    while i < s.len()
        invariant
            i <= s@.len(),
            out@ + normalize_newlines(s@.skip(i as int)) == normalize_newlines(s@),
        decreases s@.len() - i,
    {
        let ghost rest = s@.skip(i as int);
        if s[i] == '\r' && i + 1 < s.len() && s[i + 1] == '\n' {
            assert(rest.skip(2) =~= s@.skip(i + 2));
            out.push('\n');
            i = i + 2;
        } else {
            assert(rest.skip(1) =~= s@.skip(i + 1));
            if s[i] == '\r' {
                out.push('\n');
            } else {
                out.push(s[i]);
            }
            i = i + 1;
        }
    }
    assert(s@.skip(i as int).len() == 0);
    out
}

// ---------------------------------------------------------------------------
// Searching and splitting
// ---------------------------------------------------------------------------

/// `pat` occurs in `s` at index `i`.
pub open spec fn match_at(s: Seq<char>, pat: Seq<char>, i: int) -> bool {
    0 <= i && i + pat.len() <= s.len() && s.subrange(i, i + pat.len()) == pat
}

/// The first index `j >= i` at which `pat` occurs in `s`, or -1.
pub open spec fn find_from(s: Seq<char>, pat: Seq<char>, i: int) -> int
    decreases s.len() + 1 - i,
{
    if i < 0 || i + pat.len() > s.len() {
        -1
    } else if match_at(s, pat, i) {
        i
    } else {
        find_from(s, pat, i + 1)
    }
}

/// `str::contains` with a string pattern.
pub open spec fn contains_seq(s: Seq<char>, pat: Seq<char>) -> bool {
    find_from(s, pat, 0) >= 0
}

/// `str::split` with a non-empty string pattern: the pieces between the
/// leftmost non-overlapping occurrences of `pat`.
pub open spec fn split_seq(s: Seq<char>, pat: Seq<char>) -> Seq<Seq<char>>
    decreases s.len(),
{
    if pat.len() == 0 {
        seq![s]
    } else {
        let j = find_from(s, pat, 0);
        if j < 0 {
            seq![s]
        } else {
            proof {
                lemma_find_from(s, pat, 0);
            }
            seq![s.take(j)] + split_seq(s.skip(j + pat.len()), pat)
        }
    }
}

/// `str::ends_with` with a string pattern.
pub open spec fn ends_with_seq(s: Seq<char>, pat: Seq<char>) -> bool {
    pat.len() <= s.len() && s.skip(s.len() - pat.len()) == pat
}

/// `str::starts_with` with a string pattern.
pub open spec fn starts_with_seq(s: Seq<char>, pat: Seq<char>) -> bool {
    pat.len() <= s.len() && s.take(pat.len() as int) == pat
}

/// Facts about `find_from`.
pub proof fn lemma_find_from(s: Seq<char>, pat: Seq<char>, i: int)
    requires
        0 <= i,
    ensures
        find_from(s, pat, i) >= 0 ==> i <= find_from(s, pat, i) && match_at(
            s,
            pat,
            find_from(s, pat, i),
        ),
        forall|k: int|
            i <= k && (find_from(s, pat, i) < 0 || k < find_from(s, pat, i)) ==> !match_at(
                s,
                pat,
                k,
            ),
    decreases s.len() + 1 - i,
{
    if i + pat.len() > s.len() {
    } else if match_at(s, pat, i) {
    } else {
        lemma_find_from(s, pat, i + 1);
    }
}

/// Whether `pat` occurs at index `i` of `s`.
pub fn matches_at(s: &[char], pat: &[char], i: usize) -> (r: bool)
    ensures
        r == match_at(s@, pat@, i as int),
{
    if i > s.len() || pat.len() > s.len() - i {
        return false;
    }
    let mut k: usize = 0;
    while k < pat.len()
        invariant
            i + pat@.len() <= s@.len(),
            s@.len() <= usize::MAX,
            k <= pat@.len(),
            forall|j: int| 0 <= j < k ==> s@[i + j] == pat@[j],
        decreases pat@.len() - k,
    {
        if s[i + k] != pat[k] {
            assert(s@.subrange(i as int, i + pat@.len())[k as int] != pat@[k as int]);
            return false;
        }
        k = k + 1;
    }
    assert(s@.subrange(i as int, i + pat@.len()) =~= pat@);
    true
}

/// The first index at or after `from` where `pat` occurs in `s`.
pub fn find_chars(s: &[char], pat: &[char], from: usize) -> (r: Option<usize>)
    ensures
        match r {
            Some(j) => find_from(s@, pat@, from as int) == j as int,
            None => find_from(s@, pat@, from as int) < 0,
        },
{
    let mut i: usize = from;
    if i > s.len() || pat.len() > s.len() - i {
        return None;
    }
    if pat.len() == 0 {
        assert(s@.subrange(i as int, i as int) =~= pat@);
        return Some(i);
    }
    while pat.len() <= s.len() - i
        invariant
            from <= i,
            i <= s@.len(),
            pat@.len() > 0,
            find_from(s@, pat@, from as int) == find_from(s@, pat@, i as int),
        decreases s@.len() - i,
    {
        if matches_at(s, pat, i) {
            return Some(i);
        }
        i = i + 1;
    }
    None
}

/// Whether `pat` occurs in `s`.
pub fn contains_chars(s: &[char], pat: &[char]) -> (r: bool)
    ensures
        r == contains_seq(s@, pat@),
{
    find_chars(s, pat, 0).is_some()
}

/// Whether `s` ends with `pat`.
pub fn ends_with_chars(s: &[char], pat: &[char]) -> (r: bool)
    ensures
        r == ends_with_seq(s@, pat@),
{
    if pat.len() > s.len() {
        return false;
    }
    let r = matches_at(s, pat, s.len() - pat.len());
    assert(s@.subrange(s@.len() - pat@.len(), s@.len() as int) =~= s@.skip(
        s@.len() - pat@.len(),
    ));
    r
}

/// Whether `s` starts with `pat`.
pub fn starts_with_chars(s: &[char], pat: &[char]) -> (r: bool)
    ensures
        r == starts_with_seq(s@, pat@),
{
    if pat.len() > s.len() {
        return false;
    }
    let r = matches_at(s, pat, 0);
    assert(s@.subrange(0, pat@.len() as int) =~= s@.take(pat@.len() as int));
    r
}

/// `s.split(pat)` with a non-empty pattern.
pub fn split_chars(s: &[char], pat: &[char]) -> (parts: Vec<Vec<char>>)
    requires
        pat@.len() > 0,
    ensures
        parts@.map_values(|p: Vec<char>| p@) == split_seq(s@, pat@),
{
    let mut parts: Vec<Vec<char>> = Vec::new();
    let mut start: usize = 0;
    assert(s@.skip(0) =~= s@);
    assert(parts@.map_values(|p: Vec<char>| p@) =~= Seq::<Seq<char>>::empty());
    loop
        invariant
            pat@.len() > 0,
            start <= s@.len(),
            parts@.map_values(|p: Vec<char>| p@) + split_seq(s@.skip(start as int), pat@)
                == split_seq(s@, pat@),
        decreases s@.len() - start,
    {
        let ghost rest = s@.skip(start as int);
        match find_chars(s, pat, start) {
            Some(j) => {
                proof {
                    lemma_find_shift(s@, pat@, start as int);
                    lemma_find_from(s@, pat@, start as int);
                    assert(find_from(rest, pat@, 0) == j - start);
                    assert(rest.take(j - start) =~= s@.subrange(start as int, j as int));
                    assert(rest.skip(j - start + pat@.len()) =~= s@.skip(j + pat@.len()));
                }
                let piece = slice_chars(s, start, j);
                let ghost before = parts@;
                parts.push(piece);
                proof {
                    assert(parts@.map_values(|p: Vec<char>| p@) =~= before.map_values(
                        |p: Vec<char>| p@,
                    ).push(piece@));
                }
                assert(j + pat@.len() <= s@.len());
                assert(s@.len() == s.len());
                start = j + pat.len();
            },
            None => {
                proof {
                    lemma_find_shift(s@, pat@, start as int);
                }
                let piece = slice_chars(s, start, s.len());
                let ghost before = parts@;
                parts.push(piece);
                proof {
                    assert(piece@ =~= rest);
                    assert(parts@.map_values(|p: Vec<char>| p@) =~= before.map_values(
                        |p: Vec<char>| p@,
                    ).push(piece@));
                }
                return parts;
            },
        }
    }
}

/// Searching a suffix is searching the whole sequence from an offset.
pub proof fn lemma_find_shift(s: Seq<char>, pat: Seq<char>, start: int)
    requires
        0 <= start <= s.len(),
    ensures
        find_from(s.skip(start), pat, 0) >= 0 <==> find_from(s, pat, start) >= 0,
        find_from(s, pat, start) >= 0 ==> find_from(s.skip(start), pat, 0) == find_from(
            s,
            pat,
            start,
        ) - start,
{
    lemma_find_shift_from(s, pat, start, 0);
}

proof fn lemma_find_shift_from(s: Seq<char>, pat: Seq<char>, start: int, k: int)
    requires
        0 <= start <= s.len(),
        0 <= k,
    ensures
        find_from(s.skip(start), pat, k) >= 0 <==> find_from(s, pat, start + k) >= 0,
        find_from(s, pat, start + k) >= 0 ==> find_from(s.skip(start), pat, k) == find_from(
            s,
            pat,
            start + k,
        ) - start,
    decreases s.len() + 1 - start - k,
{
    let t = s.skip(start);
    if k + pat.len() > t.len() {
    } else {
        assert(t.subrange(k, k + pat.len()) =~= s.subrange(start + k, start + k + pat.len()));
        if match_at(t, pat, k) {
        } else {
            lemma_find_shift_from(s, pat, start, k + 1);
        }
    }
}

/// The number of leftmost non-overlapping occurrences of `pat` in `s`
/// (`s.match_indices(pat).count()`).
pub open spec fn count_matches(s: Seq<char>, pat: Seq<char>) -> nat {
    (split_seq(s, pat).len() - 1) as nat
}

/// `split_seq` always yields at least one piece.
pub proof fn lemma_split_nonempty(s: Seq<char>, pat: Seq<char>)
    ensures
        split_seq(s, pat).len() >= 1,
    decreases s.len(),
{
    if pat.len() > 0 {
        let j = find_from(s, pat, 0);
        if j >= 0 {
            lemma_find_from(s, pat, 0);
            lemma_split_nonempty(s.skip(j + pat.len()), pat);
        }
    }
}

// ---------------------------------------------------------------------------
// Counting and taking characters
// ---------------------------------------------------------------------------

/// The UTF-8 length of one character.
pub open spec fn char_utf8_len(c: char) -> nat {
    let u = c as u32;
    if u < 0x80 {
        1
    } else if u < 0x800 {
        2
    } else if u < 0x10000 {
        3
    } else {
        4
    }
}

/// The UTF-8 length of a character sequence (`str::len`).
pub open spec fn utf8_len(s: Seq<char>) -> nat
    decreases s.len(),
{
    if s.len() == 0 {
        0
    } else {
        utf8_len(s.drop_last()) + char_utf8_len(s.last())
    }
}

/// `char::len_utf8`.
pub fn len_utf8(c: char) -> (n: usize)
    ensures
        n == char_utf8_len(c),
{
    let u = c as u32;
    if u < 0x80 {
        1
    } else if u < 0x800 {
        2
    } else if u < 0x10000 {
        3
    } else {
        4
    }
}

/// UTF-8 length grows with the prefix.
pub proof fn lemma_utf8_len_take(s: Seq<char>, i: int)
    requires
        0 <= i < s.len(),
    ensures
        utf8_len(s.take(i + 1)) == utf8_len(s.take(i)) + char_utf8_len(s[i]),
{
    assert(s.take(i + 1).drop_last() =~= s.take(i));
}

/// UTF-8 lengths are bounded by four bytes a character.
pub proof fn lemma_utf8_len_bound(s: Seq<char>)
    ensures
        s.len() <= utf8_len(s) <= 4 * s.len(),
    decreases s.len(),
{
    if s.len() > 0 {
        lemma_utf8_len_bound(s.drop_last());
    }
}


// ---------------------------------------------------------------------------
// Joining and replacing
// ---------------------------------------------------------------------------

/// `parts.join(sep)`.
pub open spec fn join_seq(parts: Seq<Seq<char>>, sep: Seq<char>) -> Seq<char>
    decreases parts.len(),
{
    if parts.len() == 0 {
        Seq::empty()
    } else if parts.len() == 1 {
        parts[0]
    } else {
        join_seq(parts.drop_last(), sep) + sep + parts.last()
    }
}

/// `s.replace(from, to)` with a non-empty pattern.
pub open spec fn replace_seq(s: Seq<char>, from: Seq<char>, to: Seq<char>) -> Seq<char> {
    join_seq(split_seq(s, from), to)
}

/// Joining one more part.
pub proof fn lemma_join_push(parts: Seq<Seq<char>>, p: Seq<char>, sep: Seq<char>)
    ensures
        join_seq(parts.push(p), sep) == if parts.len() == 0 {
            p
        } else {
            join_seq(parts, sep) + sep + p
        },
{
    assert(parts.push(p).drop_last() =~= parts);
}

/// Joining a part in front of others.
pub proof fn lemma_join_front(t: Seq<char>, rest: Seq<Seq<char>>, sep: Seq<char>)
    requires
        rest.len() > 0,
    ensures
        join_seq(seq![t] + rest, sep) == t + sep + join_seq(rest, sep),
    decreases rest.len(),
{
    if rest.len() == 1 {
        assert((seq![t] + rest).drop_last() =~= seq![t]);
        assert(join_seq(seq![t], sep) == t);
        assert(join_seq(rest, sep) == rest[0]);
    } else {
        lemma_join_front(t, rest.drop_last(), sep);
        assert((seq![t] + rest).drop_last() =~= seq![t] + rest.drop_last());
        assert((seq![t] + rest).last() == rest.last());
        assert(t + sep + join_seq(rest.drop_last(), sep) + sep + rest.last() =~= t + sep + (
        join_seq(rest.drop_last(), sep) + sep + rest.last()));
    }
}

/// Splitting at a non-empty pattern and joining with it again gives the text
/// back.
pub proof fn lemma_join_split(s: Seq<char>, pat: Seq<char>)
    requires
        pat.len() > 0,
    ensures
        join_seq(split_seq(s, pat), pat) == s,
    decreases s.len(),
{
    let j = find_from(s, pat, 0);
    if j >= 0 {
        lemma_find_from(s, pat, 0);
        let rest = s.skip(j + pat.len());
        lemma_join_split(rest, pat);
        lemma_split_nonempty(rest, pat);
        lemma_join_front(s.take(j), split_seq(rest, pat), pat);
        assert(s.subrange(j, j + pat.len()) == pat);
        assert(s.take(j) + pat + rest =~= s);
    }
}

/// `parts.join(sep)` over character vectors.
pub fn join_chars(parts: &Vec<Vec<char>>, sep: &[char]) -> (v: Vec<char>)
    ensures
        v@ == join_seq(parts@.map_values(|p: Vec<char>| p@), sep@),
{
    let ghost ps = parts@.map_values(|p: Vec<char>| p@);
    let mut out: Vec<char> = Vec::new();
    let mut i: usize = 0;
    while i < parts.len()
        invariant
            i <= parts@.len(),
            ps == parts@.map_values(|p: Vec<char>| p@),
            out@ == join_seq(ps.take(i as int), sep@),
        decreases parts@.len() - i,
    {
        proof {
            lemma_join_push(ps.take(i as int), ps[i as int], sep@);
            assert(ps.take(i + 1) =~= ps.take(i as int).push(ps[i as int]));
        }
        if i > 0 {
            push_str_chars(&mut out, sep);
        }
        push_str_chars(&mut out, parts[i].as_slice());
        i = i + 1;
    }
    assert(ps.take(parts@.len() as int) =~= ps);
    out
}

/// `s.replace(from, to)` over characters, for a non-empty pattern.
pub fn replace_chars(s: &[char], from: &[char], to: &[char]) -> (v: Vec<char>)
    requires
        from@.len() > 0,
    ensures
        v@ == replace_seq(s@, from@, to@),
{
    let parts = split_chars(s, from);
    join_chars(&parts, to)
}

// ---------------------------------------------------------------------------
// Decimal numbers
// ---------------------------------------------------------------------------

/// The digit character of `d` (for `d < 10`).
pub open spec fn digit_char(d: nat) -> char {
    if d == 0 {
        '0'
    } else if d == 1 {
        '1'
    } else if d == 2 {
        '2'
    } else if d == 3 {
        '3'
    } else if d == 4 {
        '4'
    } else if d == 5 {
        '5'
    } else if d == 6 {
        '6'
    } else if d == 7 {
        '7'
    } else if d == 8 {
        '8'
    } else {
        '9'
    }
}

/// The decimal representation of `n`, as `Display` writes an unsigned integer.
pub open spec fn decimal(n: nat) -> Seq<char>
    decreases n,
{
    if n < 10 {
        seq![digit_char(n)]
    } else {
        decimal(n / 10).push(digit_char(n % 10))
    }
}

fn digit(d: u64) -> (c: char)
    requires
        d < 10,
    ensures
        c == digit_char(d as nat),
{
    if d == 0 {
        '0'
    } else if d == 1 {
        '1'
    } else if d == 2 {
        '2'
    } else if d == 3 {
        '3'
    } else if d == 4 {
        '4'
    } else if d == 5 {
        '5'
    } else if d == 6 {
        '6'
    } else if d == 7 {
        '7'
    } else if d == 8 {
        '8'
    } else {
        '9'
    }
}

/// Appends the decimal representation of `n`.
pub fn push_decimal(out: &mut Vec<char>, n: u64)
    ensures
        final(out)@ == old(out)@ + decimal(n as nat),
    decreases n,
{
    if n < 10 {
        out.push(digit(n));
    } else {
        push_decimal(out, n / 10);
        out.push(digit(n % 10));
    }
}

/// `n.to_string()`.
pub fn decimal_string(n: u64) -> (s: String)
    ensures
        s@ == decimal(n as nat),
{
    let mut v: Vec<char> = Vec::new();
    push_decimal(&mut v, n);
    assert(v@ =~= decimal(n as nat));
    string_from_chars(v.as_slice())
}

/// The first `n` characters of `s` (`s.chars().take(n).collect()`).
pub fn take_chars(s: &str, n: usize) -> (r: String)
    ensures
        r@ == s@.take(if n <= s@.len() { n as int } else { s@.len() as int }),
{
    let v = chars_of(s);
    let end = if n <= v.len() { n } else { v.len() };
    let t = slice_chars(v.as_slice(), 0, end);
    string_from_chars(t.as_slice())
}

/// Concatenation of two strings.
pub fn concat_str(a: &str, b: &str) -> (r: String)
    ensures
        r@ == a@ + b@,
{
    let mut r = String::from_str(a);
    r.append(b);
    r
}

// ---------------------------------------------------------------------------
// ASCII case
// ---------------------------------------------------------------------------

/// `char::to_ascii_lowercase`.
pub open spec fn ascii_lower_char(c: char) -> char {
    if 65 <= c as u32 <= 90 {
        ((c as u32) + 32) as char
    } else {
        c
    }
}

/// `str::to_ascii_lowercase`.
pub open spec fn ascii_lower(s: Seq<char>) -> Seq<char> {
    s.map_values(|c: char| ascii_lower_char(c))
}

/// `char::to_ascii_lowercase`.
pub fn to_ascii_lower_char(c: char) -> (r: char)
    ensures
        r == ascii_lower_char(c),
{
    if c >= 'A' && c <= 'Z' {
        let b = (c as u8) + 32;
        assert(b as u32 == (c as u32) + 32);
        b as char
    } else {
        c
    }
}

/// `s.to_ascii_lowercase()` over characters.
pub fn ascii_lower_chars(s: &[char]) -> (v: Vec<char>)
    ensures
        v@ == ascii_lower(s@),
{
    let mut v: Vec<char> = Vec::new();
    let mut i: usize = 0;
    while i < s.len()
        invariant
            i <= s@.len(),
            v@ == ascii_lower(s@.take(i as int)),
        decreases s@.len() - i,
    {
        v.push(to_ascii_lower_char(s[i]));
        i = i + 1;
        assert(ascii_lower(s@.take(i as int)) =~= ascii_lower(s@.take(i - 1)).push(
            ascii_lower_char(s@[i - 1]),
        ));
    }
    assert(s@.take(s@.len() as int) =~= s@);
    v
}
} // verus!

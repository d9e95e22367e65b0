//! JSON documents as the library reads them: the texts of a document to be
//! translated, and the translated texts put back in their places.
//!
//! Turning bytes into a `JsonValue` and back is the application's part; the
//! library decides which strings are translated and where each result goes.
use vstd::prelude::*;

use crate::text::{all_ws, chars_of, is_blank};

verus! {

/// A JSON value. Object members keep the order in which they were read;
/// numbers keep the text they were written with.
#[derive(Debug)]
pub enum JsonValue {
    Null,
    Bool(bool),
    Number(String),
    Str(String),
    Array(Vec<JsonValue>),
    Object(Vec<(String, JsonValue)>),
}

/// A string that holds something besides whitespace is translated.
pub open spec fn translatable(s: Seq<char>) -> bool {
    !all_ws(s)
}

/// The translatable strings of a value, in document order.
pub open spec fn json_texts(v: JsonValue) -> Seq<Seq<char>>
    decreases v, 0nat,
{
    match v {
        JsonValue::Str(s) => if translatable(s@) {
            seq![s@]
        } else {
            Seq::empty()
        },
        JsonValue::Array(items) => {
            proof {
                assert(decreases_to!(v => items));
            }
            items_texts(items@, items@.len() as int)
        },
        JsonValue::Object(entries) => {
            proof {
                assert(decreases_to!(v => entries));
            }
            entries_texts(entries@, entries@.len() as int)
        },
        _ => Seq::empty(),
    }
}

/// The translatable strings of the first `n` items.
pub open spec fn items_texts(items: Seq<JsonValue>, n: int) -> Seq<Seq<char>>
    decreases items, n,
{
    if n <= 0 || n > items.len() {
        Seq::empty()
    } else {
        items_texts(items, n - 1) + json_texts(items[n - 1])
    }
}

/// The translatable strings of the values of the first `n` members.
pub open spec fn entries_texts(entries: Seq<(String, JsonValue)>, n: int) -> Seq<Seq<char>>
    decreases entries, n,
{
    if n <= 0 || n > entries.len() {
        Seq::empty()
    } else {
        entries_texts(entries, n - 1) + json_texts(entries[n - 1].1)
    }
}

/// How many values of a value are left as they are: blank strings, nulls,
/// booleans and numbers.
pub open spec fn json_skipped(v: JsonValue) -> nat
    decreases v, 0nat,
{
    match v {
        JsonValue::Str(s) => if translatable(s@) {
            0
        } else {
            1
        },
        JsonValue::Array(items) => {
            proof {
                assert(decreases_to!(v => items));
            }
            items_skipped(items@, items@.len() as int)
        },
        JsonValue::Object(entries) => {
            proof {
                assert(decreases_to!(v => entries));
            }
            entries_skipped(entries@, entries@.len() as int)
        },
        _ => 1,
    }
}

/// Values left as they are among the first `n` items.
pub open spec fn items_skipped(items: Seq<JsonValue>, n: int) -> nat
    decreases items, n,
{
    if n <= 0 || n > items.len() {
        0
    } else {
        items_skipped(items, n - 1) + json_skipped(items[n - 1])
    }
}

/// Values left as they are among the values of the first `n` members.
pub open spec fn entries_skipped(entries: Seq<(String, JsonValue)>, n: int) -> nat
    decreases entries, n,
{
    if n <= 0 || n > entries.len() {
        0
    } else {
        entries_skipped(entries, n - 1) + json_skipped(entries[n - 1].1)
    }
}

/// The characters of each string.
pub open spec fn strings_view(v: Seq<String>) -> Seq<Seq<char>> {
    v.map_values(|s: String| s@)
}

/// Whether a string is translated.
pub fn is_translatable(s: &str) -> (r: bool)
    ensures
        r == translatable(s@),
{
    let chars = chars_of(s);
    !is_blank(chars.as_slice())
}

/// Appends the translatable strings of `value` to `texts`, in document order,
/// and counts the values left as they are in `skipped`.
pub fn collect_json_texts(value: &JsonValue, texts: &mut Vec<String>, skipped: &mut usize)
    requires
        *old(skipped) + json_skipped(*value) <= usize::MAX,
    ensures
        strings_view(final(texts)@) == strings_view(old(texts)@) + json_texts(*value),
        *final(skipped) == *old(skipped) + json_skipped(*value),
    decreases value,
{
    match value {
        JsonValue::Str(text) => {
            if is_translatable(text.as_str()) {
                let ghost before = texts@;
                texts.push(String::from_str(text.as_str()));
                assert(strings_view(texts@) =~= strings_view(before) + seq![text@]);
            } else {
                *skipped = *skipped + 1;
                assert(strings_view(texts@) =~= strings_view(texts@) + Seq::<Seq<char>>::empty());
            }
        },
        JsonValue::Array(items) => {
            let ghost start = texts@;
            let ghost start_skipped = *skipped;
            let mut i: usize = 0;
            while i < items.len()
                invariant
                    i <= items@.len(),
                    strings_view(texts@) == strings_view(start) + items_texts(items@, i as int),
                    *skipped == start_skipped + items_skipped(items@, i as int),
                    start_skipped + items_skipped(items@, items@.len() as int) <= usize::MAX,
                    *value == JsonValue::Array(*items),
                decreases items@.len() - i,
            {
                proof {
                    lemma_items_skipped_prefix(items@, i + 1, items@.len() as int);
                    assert(decreases_to!(*value => (*value)->Array_0));
                    assert(decreases_to!((*value)->Array_0 => (*value)->Array_0@));
                    assert(decreases_to!(items@ => items@[i as int]));
                    assert(decreases_to!(*value => items@[i as int]));
                }
                let ghost mid = texts@;
                collect_json_texts(&items[i], texts, skipped);
                i = i + 1;
                assert(strings_view(texts@) =~= strings_view(start) + items_texts(items@, i as int));
            }
        },
        JsonValue::Object(entries) => {
            let ghost start = texts@;
            let ghost start_skipped = *skipped;
            let mut i: usize = 0;
            while i < entries.len()
                invariant
                    i <= entries@.len(),
                    strings_view(texts@) == strings_view(start) + entries_texts(entries@, i as int),
                    *skipped == start_skipped + entries_skipped(entries@, i as int),
                    start_skipped + entries_skipped(entries@, entries@.len() as int) <= usize::MAX,
                    *value == JsonValue::Object(*entries),
                decreases entries@.len() - i,
            {
                proof {
                    lemma_entries_skipped_prefix(entries@, i + 1, entries@.len() as int);
                    assert(decreases_to!(*value => (*value)->Object_0));
                    assert(decreases_to!((*value)->Object_0 => (*value)->Object_0@));
                    assert(decreases_to!(entries@ => entries@[i as int]));
                    assert(decreases_to!(entries@[i as int] => entries@[i as int].1));
                    assert(decreases_to!(*value => entries@[i as int].1));
                }
                collect_json_texts(&entries[i].1, texts, skipped);
                i = i + 1;
                assert(strings_view(texts@) =~= strings_view(start) + entries_texts(entries@, i as int));
            }
        },
        _ => {
            *skipped = *skipped + 1;
            assert(strings_view(texts@) =~= strings_view(texts@) + Seq::<Seq<char>>::empty());
        },
    }
}

proof fn lemma_items_skipped_prefix(items: Seq<JsonValue>, i: int, n: int)
    requires
        0 <= i <= n <= items.len(),
    ensures
        items_skipped(items, i) <= items_skipped(items, n),
    decreases n - i,
{
    if i < n {
        lemma_items_skipped_prefix(items, i, n - 1);
    }
}

proof fn lemma_entries_skipped_prefix(entries: Seq<(String, JsonValue)>, i: int, n: int)
    requires
        0 <= i <= n <= entries.len(),
    ensures
        entries_skipped(entries, i) <= entries_skipped(entries, n),
    decreases n - i,
{
    if i < n {
        lemma_entries_skipped_prefix(entries, i, n - 1);
    }
}

/// `b` is `a` with its translatable strings replaced, in document order, by
/// `ts[k]`, `ts[k + 1]`, ...; every other value and every member name is kept.
pub open spec fn json_replaced(a: JsonValue, b: JsonValue, ts: Seq<Seq<char>>, k: int) -> bool
    decreases a,
{
    match a {
        JsonValue::Null => b is Null,
        JsonValue::Bool(x) => b == JsonValue::Bool(x),
        JsonValue::Number(n) => b is Number && b->Number_0@ == n@,
        JsonValue::Str(s) => b is Str && b->Str_0@ == (if translatable(s@) {
            ts[k]
        } else {
            s@
        }),
        JsonValue::Array(xs) => {
            &&& b is Array
            &&& b->Array_0@.len() == xs@.len()
            &&& forall|i: int|
                0 <= i < xs@.len() ==> json_replaced(
                    #[trigger] xs@[i],
                    b->Array_0@[i],
                    ts,
                    k + items_texts(xs@, i).len(),
                )
        },
        JsonValue::Object(es) => {
            &&& b is Object
            &&& b->Object_0@.len() == es@.len()
            &&& forall|i: int|
                0 <= i < es@.len() ==> (#[trigger] es@[i]).0@ == b->Object_0@[i].0@ && json_replaced(
                    es@[i].1,
                    b->Object_0@[i].1,
                    ts,
                    k + entries_texts(es@, i).len(),
                )
        },
    }
}

proof fn lemma_items_texts_prefix(items: Seq<JsonValue>, i: int, n: int)
    requires
        0 <= i <= n <= items.len(),
    ensures
        items_texts(items, i).len() <= items_texts(items, n).len(),
    decreases n - i,
{
    if i < n {
        lemma_items_texts_prefix(items, i, n - 1);
    }
}

proof fn lemma_entries_texts_prefix(entries: Seq<(String, JsonValue)>, i: int, n: int)
    requires
        0 <= i <= n <= entries.len(),
    ensures
        entries_texts(entries, i).len() <= entries_texts(entries, n).len(),
    decreases n - i,
{
    if i < n {
        lemma_entries_texts_prefix(entries, i, n - 1);
    }
}

/// `value` with its translatable strings replaced by `translations[*index]`,
/// `translations[*index + 1]`, ..., in document order.
fn replaced_value(value: JsonValue, translations: &[String], index: &mut usize) -> (r: JsonValue)
    requires
        *old(index) + json_texts(value).len() <= translations@.len(),
    ensures
        *final(index) == *old(index) + json_texts(value).len(),
        json_replaced(value, r, strings_view(translations@), *old(index) as int),
    decreases value, 1nat,
{
    match value {
        JsonValue::Str(text) => {
            if is_translatable(text.as_str()) {
                let t = String::from_str(translations[*index].as_str());
                *index = *index + 1;
                JsonValue::Str(t)
            } else {
                JsonValue::Str(text)
            }
        },
        JsonValue::Array(items) => JsonValue::Array(replaced_items(items, translations, index)),
        JsonValue::Object(entries) => JsonValue::Object(replaced_entries(entries, translations, index)),
        JsonValue::Null => JsonValue::Null,
        JsonValue::Bool(b) => JsonValue::Bool(b),
        JsonValue::Number(n) => JsonValue::Number(n),
    }
}

/// The items with their translatable strings replaced in order.
#[verifier::loop_isolation(false)]
fn replaced_items(items: Vec<JsonValue>, translations: &[String], index: &mut usize) -> (r: Vec<JsonValue>)
    requires
        *old(index) + items_texts(items@, items@.len() as int).len() <= translations@.len(),
    ensures
        *final(index) == *old(index) + items_texts(items@, items@.len() as int).len(),
        r@.len() == items@.len(),
        forall|i: int|
            0 <= i < items@.len() ==> json_replaced(
                #[trigger] items@[i],
                r@[i],
                strings_view(translations@),
                *old(index) + items_texts(items@, i).len(),
            ),
    decreases items, 0nat,
{
    let ghost xs = items@;
    let ghost ts = strings_view(translations@);
    let ghost start = *index as int;
    let mut rest = items;
    let mut out: Vec<JsonValue> = Vec::new();
    proof {
        lemma_items_texts_prefix(xs, 0, xs.len() as int);
    }
    while rest.len() > 0
        invariant
            xs.len() == out@.len() + rest@.len(),
            rest@ == xs.skip(out@.len() as int),
            *index == start + items_texts(xs, out@.len() as int).len(),
            forall|i: int|
                0 <= i < out@.len() ==> json_replaced(
                    #[trigger] xs[i],
                    out@[i],
                    ts,
                    start + items_texts(xs, i).len(),
                ),
        decreases rest@.len(),
    {
        let ghost j = out@.len() as int;
        let item = rest.remove(0);
        proof {
            assert(item == xs[j]);
            assert(decreases_to!(xs => xs[j]));
            lemma_items_texts_prefix(xs, j + 1, xs.len() as int);
        }
        let r = replaced_value(item, translations, index);
        out.push(r);
        proof {
            assert(rest@ =~= xs.skip(out@.len() as int));
        }
    }
    out
}

/// The members with the translatable strings of their values replaced in
/// order; the names are kept.
#[verifier::loop_isolation(false)]
#[verifier::rlimit(40)]
fn replaced_entries(entries: Vec<(String, JsonValue)>, translations: &[String], index: &mut usize) -> (r: Vec<(String, JsonValue)>)
    requires
        *old(index) + entries_texts(entries@, entries@.len() as int).len() <= translations@.len(),
    ensures
        *final(index) == *old(index) + entries_texts(entries@, entries@.len() as int).len(),
        r@.len() == entries@.len(),
        forall|i: int|
            0 <= i < entries@.len() ==> (#[trigger] entries@[i]).0@ == r@[i].0@ && json_replaced(
                entries@[i].1,
                r@[i].1,
                strings_view(translations@),
                *old(index) + entries_texts(entries@, i).len(),
            ),
    decreases entries, 0nat,
{
    let ghost es = entries@;
    let ghost ts = strings_view(translations@);
    let ghost start = *index as int;
    let mut rest = entries;
    let mut out: Vec<(String, JsonValue)> = Vec::new();
    proof {
        lemma_entries_texts_prefix(es, 0, es.len() as int);
    }
    while rest.len() > 0
        invariant
            es.len() == out@.len() + rest@.len(),
            rest@ == es.skip(out@.len() as int),
            *index == start + entries_texts(es, out@.len() as int).len(),
            forall|i: int|
                0 <= i < out@.len() ==> (#[trigger] es[i]).0@ == out@[i].0@ && json_replaced(
                    es[i].1,
                    out@[i].1,
                    ts,
                    start + entries_texts(es, i).len(),
                ),
        decreases rest@.len(),
    {
        let ghost j = out@.len() as int;
        let (key, item) = rest.remove(0);
        proof {
            assert(es[j] == (key, item));
            assert(decreases_to!(es => es[j]));
            assert(decreases_to!(es[j] => es[j].1));
            lemma_entries_texts_prefix(es, j + 1, es.len() as int);
        }
        let r = replaced_value(item, translations, index);
        out.push((key, r));
        proof {
            assert(rest@ =~= es.skip(out@.len() as int));
        }
    }
    out
}

/// Puts the translations back into `value`: its translatable strings, in
/// document order, become `translations[*translation_index]`, ...; the index
/// moves past the translations used.
pub fn apply_json_texts(value: &mut JsonValue, translations: &[String], translation_index: &mut usize)
    requires
        *old(translation_index) + json_texts(*old(value)).len() <= translations@.len(),
    ensures
        *final(translation_index) == *old(translation_index) + json_texts(*old(value)).len(),
        json_replaced(
            *old(value),
            *final(value),
            strings_view(translations@),
            *old(translation_index) as int,
        ),
{
    let mut taken = JsonValue::Null;
    std::mem::swap(&mut taken, value);
    *value = replaced_value(taken, translations, translation_index);
}

/// Two values hold the same things: the same kinds, strings, numbers and
/// member names, in the same order.
pub open spec fn json_same(a: JsonValue, b: JsonValue) -> bool
    decreases a,
{
    match a {
        JsonValue::Null => b is Null,
        JsonValue::Bool(x) => b == JsonValue::Bool(x),
        JsonValue::Number(n) => b is Number && b->Number_0@ == n@,
        JsonValue::Str(s) => b is Str && b->Str_0@ == s@,
        JsonValue::Array(xs) => {
            &&& b is Array
            &&& b->Array_0@.len() == xs@.len()
            &&& forall|i: int| 0 <= i < xs@.len() ==> json_same(#[trigger] xs@[i], b->Array_0@[i])
        },
        JsonValue::Object(es) => {
            &&& b is Object
            &&& b->Object_0@.len() == es@.len()
            &&& forall|i: int|
                0 <= i < es@.len() ==> (#[trigger] es@[i]).0@ == b->Object_0@[i].0@ && json_same(
                    es@[i].1,
                    b->Object_0@[i].1,
                )
        },
    }
}

proof fn lemma_items_texts_is_prefix(items: Seq<JsonValue>, i: int, n: int)
    requires
        0 <= i <= n <= items.len(),
    ensures
        items_texts(items, n).subrange(0, items_texts(items, i).len() as int) == items_texts(items, i),
    decreases n - i,
{
    if i < n {
        lemma_items_texts_is_prefix(items, i, n - 1);
        lemma_items_texts_prefix(items, i, n - 1);
        assert(items_texts(items, n).subrange(0, items_texts(items, i).len() as int) =~= items_texts(
            items,
            n - 1,
        ).subrange(0, items_texts(items, i).len() as int));
    } else {
        assert(items_texts(items, n).subrange(0, items_texts(items, i).len() as int) =~= items_texts(items, i));
    }
}

proof fn lemma_entries_texts_is_prefix(entries: Seq<(String, JsonValue)>, i: int, n: int)
    requires
        0 <= i <= n <= entries.len(),
    ensures
        entries_texts(entries, n).subrange(0, entries_texts(entries, i).len() as int) == entries_texts(
            entries,
            i,
        ),
    decreases n - i,
{
    if i < n {
        lemma_entries_texts_is_prefix(entries, i, n - 1);
        lemma_entries_texts_prefix(entries, i, n - 1);
        assert(entries_texts(entries, n).subrange(0, entries_texts(entries, i).len() as int) =~= entries_texts(
            entries,
            n - 1,
        ).subrange(0, entries_texts(entries, i).len() as int));
    } else {
        assert(entries_texts(entries, n).subrange(0, entries_texts(entries, i).len() as int) =~= entries_texts(
            entries,
            i,
        ));
    }
}

proof fn lemma_item_texts_slice(xs: Seq<JsonValue>, i: int, ts: Seq<Seq<char>>, k: int)
    requires
        0 <= i < xs.len(),
        0 <= k,
        k + items_texts(xs, xs.len() as int).len() <= ts.len(),
        ts.subrange(k, k + items_texts(xs, xs.len() as int).len()) == items_texts(xs, xs.len() as int),
    ensures
        ({
            let ki = k + items_texts(xs, i).len();
            &&& ki + json_texts(xs[i]).len() <= ts.len()
            &&& ts.subrange(ki, ki + json_texts(xs[i]).len()) == json_texts(xs[i])
        }),
{
    let n = xs.len() as int;
    let ki = k + items_texts(xs, i).len();
    lemma_items_texts_is_prefix(xs, i + 1, n);
    lemma_items_texts_prefix(xs, i + 1, n);
    let whole = items_texts(xs, n);
    let part = json_texts(xs[i]);
    let lo = items_texts(xs, i).len() as int;
    let hi = items_texts(xs, i + 1).len() as int;
    assert(items_texts(xs, i + 1) == items_texts(xs, i) + part);
    assert(whole.subrange(0, hi) == items_texts(xs, i) + part);
    assert(whole.subrange(lo, hi) =~= part) by {
        assert forall|j: int| 0 <= j < hi - lo implies whole.subrange(lo, hi)[j] == part[j] by {
            assert(whole.subrange(lo, hi)[j] == whole.subrange(0, hi)[lo + j]);
        }
    }
    assert(ts.subrange(ki, ki + part.len()) =~= whole.subrange(lo, hi)) by {
        assert forall|j: int| 0 <= j < part.len() implies ts.subrange(ki, ki + part.len())[j] == whole.subrange(
            lo,
            hi,
        )[j] by {
            assert(ts.subrange(k, k + whole.len())[lo + j] == whole[lo + j]);
        }
    }
}

proof fn lemma_entry_texts_slice(es: Seq<(String, JsonValue)>, i: int, ts: Seq<Seq<char>>, k: int)
    requires
        0 <= i < es.len(),
        0 <= k,
        k + entries_texts(es, es.len() as int).len() <= ts.len(),
        ts.subrange(k, k + entries_texts(es, es.len() as int).len()) == entries_texts(es, es.len() as int),
    ensures
        ({
            let ki = k + entries_texts(es, i).len();
            &&& ki + json_texts(es[i].1).len() <= ts.len()
            &&& ts.subrange(ki, ki + json_texts(es[i].1).len()) == json_texts(es[i].1)
        }),
{
    let n = es.len() as int;
    let ki = k + entries_texts(es, i).len();
    lemma_entries_texts_is_prefix(es, i + 1, n);
    lemma_entries_texts_prefix(es, i + 1, n);
    let whole = entries_texts(es, n);
    let part = json_texts(es[i].1);
    let lo = entries_texts(es, i).len() as int;
    let hi = entries_texts(es, i + 1).len() as int;
    assert(entries_texts(es, i + 1) == entries_texts(es, i) + part);
    assert(whole.subrange(0, hi) == entries_texts(es, i) + part);
    assert(whole.subrange(lo, hi) =~= part) by {
        assert forall|j: int| 0 <= j < hi - lo implies whole.subrange(lo, hi)[j] == part[j] by {
            assert(whole.subrange(lo, hi)[j] == whole.subrange(0, hi)[lo + j]);
        }
    }
    assert(ts.subrange(ki, ki + part.len()) =~= whole.subrange(lo, hi)) by {
        assert forall|j: int| 0 <= j < part.len() implies ts.subrange(ki, ki + part.len())[j] == whole.subrange(
            lo,
            hi,
        )[j] by {
            assert(ts.subrange(k, k + whole.len())[lo + j] == whole[lo + j]);
        }
    }
}

proof fn lemma_replaced_with_own_texts(a: JsonValue, b: JsonValue, ts: Seq<Seq<char>>, k: int)
    requires
        json_replaced(a, b, ts, k),
        0 <= k,
        k + json_texts(a).len() <= ts.len(),
        ts.subrange(k, k + json_texts(a).len()) == json_texts(a),
    ensures
        json_same(a, b),
    decreases a,
{
    match a {
        JsonValue::Str(s) => {
            if translatable(s@) {
                assert(ts[k] == ts.subrange(k, k + 1)[0]);
            }
        },
        JsonValue::Array(xs) => {
            assert forall|i: int| 0 <= i < xs@.len() implies json_same(#[trigger] xs@[i], b->Array_0@[i]) by {
                lemma_item_texts_slice(xs@, i, ts, k);
                assert(decreases_to!(a => xs));
                assert(decreases_to!(xs => xs@));
                lemma_replaced_with_own_texts(xs@[i], b->Array_0@[i], ts, k + items_texts(xs@, i).len());
            }
        },
        JsonValue::Object(es) => {
            assert forall|i: int| 0 <= i < es@.len() implies (#[trigger] es@[i]).0@ == b->Object_0@[i].0@
                && json_same(es@[i].1, b->Object_0@[i].1) by {
                lemma_entry_texts_slice(es@, i, ts, k);
                assert(decreases_to!(a => es));
                assert(decreases_to!(es => es@));
                assert(decreases_to!(es@[i] => es@[i].1));
                lemma_replaced_with_own_texts(es@[i].1, b->Object_0@[i].1, ts, k + entries_texts(es@, i).len());
            }
        },
        _ => {},
    }
}

/// Putting back the very texts that were collected from a value, in order,
/// leaves every string, number and member name of the value as it was.
pub proof fn lemma_apply_collected_texts(a: JsonValue, b: JsonValue)
    requires
        json_replaced(a, b, json_texts(a), 0),
    ensures
        json_same(a, b),
{
    assert(json_texts(a).subrange(0, json_texts(a).len() as int) =~= json_texts(a));
    lemma_replaced_with_own_texts(a, b, json_texts(a), 0);
}

} // verus!

//! The paragraphs of Office XML: their text, found by element names, and the
//! same paragraphs with a translation in place of their text runs.
//!
//! `quick_xml` reads the events of a document; what the events mean here, and
//! the bytes written back, is this module's logic.
use quick_xml::events::Event;
use vstd::prelude::*;

use crate::files::FileError;
use crate::text::{chars_of, is_blank, string_from_chars};

verus! {

/// The kinds of events `quick_xml` reads.
#[derive(Debug, Clone, Copy, PartialEq, Eq, Structural)]
pub enum XmlKind {
    Start,
    End,
    Empty,
    Text,
    CData,
    Comment,
    Decl,
    PI,
    DocType,
    Eof,
}

/// An event read from a document: its kind, its element name (for start,
/// end and empty elements), the bytes `quick_xml` holds for it (what a
/// `Writer` writes between the delimiters), and the reader's position after
/// it.
#[derive(Debug)]
pub struct XmlEvent {
    pub kind: XmlKind,
    pub name: Vec<u8>,
    pub content: Vec<u8>,
    pub end: usize,
}

/// The view of an event.
pub open spec fn event_view(e: XmlEvent) -> (XmlKind, Seq<u8>, Seq<u8>, nat) {
    (e.kind, e.name@, e.content@, e.end as nat)
}

/// The views of events.
pub open spec fn events_view(es: Seq<XmlEvent>) -> Seq<(XmlKind, Seq<u8>, Seq<u8>, nat)> {
    es.map_values(|e: XmlEvent| event_view(e))
}

/// `quick_xml::Reader`, known to the verifier as an opaque type.
#[verifier::external_type_specification]
#[verifier::external_body]
#[verifier::reject_recursive_types(R)]
pub struct ExXmlReader<R>(quick_xml::Reader<R>);

/// The bytes a reader reads.
pub uninterp spec fn xml_reader_source(r: quick_xml::Reader<&[u8]>) -> Seq<u8>;

/// How many events a reader has read.
pub uninterp spec fn xml_reader_count(r: quick_xml::Reader<&[u8]>) -> nat;

/// Where a reader stands in its bytes (`Reader::buffer_position`).
pub uninterp spec fn xml_reader_position(r: quick_xml::Reader<&[u8]>) -> nat;

/// The event `quick_xml` reads as the `k`-th from the bytes (text not
/// trimmed): its kind, the bytes it holds and the reader's position after it;
/// or the words of its error.
pub uninterp spec fn xml_event_at(bytes: Seq<u8>, k: nat) -> Result<(XmlKind, Seq<u8>, nat), Seq<char>>;

/// A reader of the bytes with `quick_xml::Reader::from_reader`, set not to
/// trim text. It has read nothing and stands at the start.
#[verifier::external_body]
fn xml_reader<'a>(bytes: &'a [u8]) -> (r: quick_xml::Reader<&'a [u8]>)
    ensures
        xml_reader_source(r) == bytes@,
        xml_reader_count(r) == 0,
        xml_reader_position(r) == 0,
{
    let mut reader = quick_xml::Reader::from_reader(bytes);
    reader.config_mut().trim_text(false);
    reader
}

/// Reads the next event with `Reader::read_event`: its kind, the bytes it
/// holds (`Event` dereferences to them) and the position after it
/// (`Reader::buffer_position`). The contract names the event as
/// [`xml_event_at`] of the bytes and the count of events read before, and
/// states what the source shows of positions: an event other than the end of
/// the document takes at least one byte, and none reads past the end.
#[verifier::external_body]
fn xml_read<'a>(reader: &mut quick_xml::Reader<&'a [u8]>) -> (r: Result<(XmlKind, Vec<u8>, usize), String>)
    ensures
        xml_reader_source(*final(reader)) == xml_reader_source(*old(reader)),
        xml_reader_count(*final(reader)) == xml_reader_count(*old(reader)) + 1,
        match r {
            Ok((kind, content, end)) => {
                &&& xml_event_at(xml_reader_source(*old(reader)), xml_reader_count(*old(reader)))
                    == Ok::<(XmlKind, Seq<u8>, nat), Seq<char>>((kind, content@, end as nat))
                &&& xml_reader_position(*final(reader)) == end
                &&& end <= xml_reader_source(*old(reader)).len()
                &&& kind != XmlKind::Eof ==> xml_reader_position(*old(reader)) < end
            },
            Err(m) => xml_event_at(xml_reader_source(*old(reader)), xml_reader_count(*old(reader)))
                == Err::<(XmlKind, Seq<u8>, nat), Seq<char>>(m@),
        },
{
    let event = reader.read_event().map_err(|error| error.to_string())?;
    let kind = match &event {
        Event::Start(_) => XmlKind::Start,
        Event::End(_) => XmlKind::End,
        Event::Empty(_) => XmlKind::Empty,
        Event::Text(_) => XmlKind::Text,
        Event::CData(_) => XmlKind::CData,
        Event::Comment(_) => XmlKind::Comment,
        Event::Decl(_) => XmlKind::Decl,
        Event::PI(_) => XmlKind::PI,
        Event::DocType(_) => XmlKind::DocType,
        Event::Eof => XmlKind::Eof,
    };
    Ok((kind, event.to_vec(), reader.buffer_position() as usize))
}

/// A byte `quick_xml` counts as whitespace: space, tab, carriage return or
/// line feed.
pub open spec fn xml_space(b: u8) -> bool {
    b == 32 || b == 9 || b == 13 || b == 10
}

/// The length of the name at the start of a tag's bytes: up to the first
/// whitespace.
pub open spec fn name_length(content: Seq<u8>, i: int) -> int
    decreases content.len() - i,
{
    if i < 0 || i >= content.len() || xml_space(content[i]) {
        if i < 0 {
            0
        } else if i > content.len() {
            content.len() as int
        } else {
            i
        }
    } else {
        name_length(content, i + 1)
    }
}

/// The element name of an event, as `quick_xml` gives it: for a start or
/// empty element, its bytes up to the first whitespace; for an end element,
/// its bytes; none for other events.
pub open spec fn element_name(kind: XmlKind, content: Seq<u8>) -> Seq<u8> {
    if kind == XmlKind::Start || kind == XmlKind::Empty {
        content.take(name_length(content, 0))
    } else if kind == XmlKind::End {
        content
    } else {
        Seq::empty()
    }
}

/// The element name of an event (see [`element_name`]).
fn event_name(kind: XmlKind, content: &Vec<u8>) -> (r: Vec<u8>)
    ensures
        r@ == element_name(kind, content@),
{
    if kind == XmlKind::Start || kind == XmlKind::Empty {
        let mut i: usize = 0;
        while i < content.len() && !(content[i] == 32 || content[i] == 9 || content[i] == 13 || content[i] == 10)
            invariant
                i <= content@.len(),
                name_length(content@, 0) == name_length(content@, i as int),
            decreases content@.len() - i,
        {
            i = i + 1;
        }
        let r = byte_range(content.as_slice(), 0, i);
        assert(r@ =~= content@.take(i as int));
        r
    } else if kind == XmlKind::End {
        byte_range(content.as_slice(), 0, content.len())
    } else {
        Vec::new()
    }
}

/// Reads the next event and names its element.
fn xml_next<'a>(reader: &mut quick_xml::Reader<&'a [u8]>) -> (r: Result<XmlEvent, String>)
    ensures
        xml_reader_source(*final(reader)) == xml_reader_source(*old(reader)),
        xml_reader_count(*final(reader)) == xml_reader_count(*old(reader)) + 1,
        match r {
            Ok(e) => {
                &&& xml_event_at(xml_reader_source(*old(reader)), xml_reader_count(*old(reader)))
                    == Ok::<(XmlKind, Seq<u8>, nat), Seq<char>>((e.kind, e.content@, e.end as nat))
                &&& e.name@ == element_name(e.kind, e.content@)
                &&& xml_reader_position(*final(reader)) == e.end
                &&& e.end <= xml_reader_source(*old(reader)).len()
                &&& e.kind != XmlKind::Eof ==> xml_reader_position(*old(reader)) < e.end
            },
            Err(m) => xml_event_at(xml_reader_source(*old(reader)), xml_reader_count(*old(reader)))
                == Err::<(XmlKind, Seq<u8>, nat), Seq<char>>(m@),
        },
{
    match xml_read(reader) {
        Ok((kind, content, end)) => {
            let name = event_name(kind, &content);
            Ok(XmlEvent { kind, name, content, end })
        },
        Err(m) => Err(m),
    }
}

/// The event a view stands for, as `quick_xml` reads it.
pub open spec fn read_as(e: EventView) -> (XmlKind, Seq<u8>, nat) {
    (e.0, e.2, e.3)
}

/// The events of a document, read to its end: each as `quick_xml` reads it,
/// the last one the end of the document and no earlier one.
pub open spec fn xml_events_of(bytes: Seq<u8>, evs: Seq<(XmlKind, Seq<u8>, Seq<u8>, nat)>) -> bool {
    &&& evs.len() > 0
    &&& evs.last().0 == XmlKind::Eof
    &&& forall|k: int|
        0 <= k < evs.len() ==> xml_event_at(bytes, k as nat) == Ok::<(XmlKind, Seq<u8>, nat), Seq<char>>(
            read_as(#[trigger] evs[k]),
        ) && evs[k].1 == element_name(evs[k].0, evs[k].2)
    &&& forall|k: int| 0 <= k < evs.len() - 1 ==> (#[trigger] evs[k]).0 != XmlKind::Eof
}

/// Reading stops at the `k`-th event with this error, all earlier events
/// having been read.
pub open spec fn xml_fails_at(bytes: Seq<u8>, k: nat, m: Seq<char>) -> bool {
    &&& xml_event_at(bytes, k) == Err::<(XmlKind, Seq<u8>, nat), Seq<char>>(m)
    &&& forall|j: nat|
        j < k ==> (#[trigger] xml_event_at(bytes, j)) is Ok && xml_event_at(bytes, j)->Ok_0.0
            != XmlKind::Eof
}

/// The document can be read to its end.
pub open spec fn xml_readable(bytes: Seq<u8>) -> bool {
    exists|evs: Seq<EventView>| xml_events_of(bytes, evs)
}

/// A document whose reading stops at an error cannot be read to its end.
proof fn lemma_fails_unreadable(bytes: Seq<u8>, k: nat, m: Seq<char>)
    requires
        xml_fails_at(bytes, k, m),
    ensures
        !xml_readable(bytes),
{
    if xml_readable(bytes) {
        let evs = choose|evs: Seq<EventView>| xml_events_of(bytes, evs);
        if k < evs.len() {
            assert(xml_event_at(bytes, k) == Ok::<(XmlKind, Seq<u8>, nat), Seq<char>>(read_as(evs[k as int])));
        } else {
            let j = (evs.len() - 1) as nat;
            assert(xml_event_at(bytes, j) == Ok::<(XmlKind, Seq<u8>, nat), Seq<char>>(read_as(evs[j as int])));
            assert(xml_event_at(bytes, j) is Ok && xml_event_at(bytes, j)->Ok_0.0 != XmlKind::Eof);
        }
    }
}

/// The positions after the events grow with each event but the last, and
/// none is past the end of the bytes.
pub open spec fn events_in_order(evs: Seq<EventView>, len: nat) -> bool {
    &&& forall|k: int| 0 <= k < evs.len() ==> (#[trigger] evs[k]).3 <= len
    &&& forall|k: int| 0 <= k < evs.len() - 1 ==> 0 < (#[trigger] evs[k]).3
    &&& forall|i: int, j: int| 0 <= i < j < evs.len() - 1 ==> (#[trigger] evs[i]).3 < (#[trigger] evs[j]).3
}

/// Reads all the events of a document; an error of the reader is reported
/// as an XML error.
pub fn read_xml_events(bytes: &[u8]) -> (r: Result<Vec<XmlEvent>, FileError>)
    ensures
        match r {
            Ok(evs) => xml_events_of(bytes@, events_view(evs@)) && events_in_order(events_view(evs@), bytes@.len()),
            Err(e) => e == FileError::Xml(e->Xml_0) && exists|k: nat| xml_fails_at(bytes@, k, e->Xml_0@),
        },
        r is Ok <==> xml_readable(bytes@),
{
    let mut reader = xml_reader(bytes);
    let mut evs: Vec<XmlEvent> = Vec::new();
    loop
        invariant
            xml_reader_source(reader) == bytes@,
            xml_reader_count(reader) == evs@.len(),
            xml_reader_position(reader) <= bytes@.len(),
            forall|k: int|
                0 <= k < evs@.len() ==> xml_event_at(bytes@, k as nat) == Ok::<
                    (XmlKind, Seq<u8>, nat),
                    Seq<char>,
                >(read_as(#[trigger] events_view(evs@)[k])) && events_view(evs@)[k].1 == element_name(
                    events_view(evs@)[k].0,
                    events_view(evs@)[k].2,
                ),
            forall|k: int| 0 <= k < evs@.len() ==> (#[trigger] events_view(evs@)[k]).0 != XmlKind::Eof,
            forall|k: int| 0 <= k < evs@.len() ==> 0 < (#[trigger] events_view(evs@)[k]).3 <= bytes@.len(),
            forall|i: int, j: int| 0 <= i < j < evs@.len() ==> (#[trigger] events_view(evs@)[i]).3 < (#[trigger] events_view(evs@)[j]).3,
            evs@.len() > 0 ==> xml_reader_position(reader) == events_view(evs@).last().3,
            evs@.len() == 0 ==> xml_reader_position(reader) == 0,
        decreases bytes@.len() - xml_reader_position(reader),
    {
        match xml_next(&mut reader) {
            Ok(e) => {
                let eof = e.kind == XmlKind::Eof;
                let ghost before = evs@;
                evs.push(e);
                assert(events_view(evs@) =~= events_view(before).push(event_view(evs@.last())));
                if eof {
                    assert(events_view(evs@).drop_last() =~= events_view(before));
                    assert(xml_events_of(bytes@, events_view(evs@)));
                    return Ok(evs);
                }
            },
            Err(m) => {
                proof {
                    let k = evs@.len();
                    assert forall|j: nat| j < k implies (#[trigger] xml_event_at(bytes@, j)) is Ok
                        && xml_event_at(bytes@, j)->Ok_0.0 != XmlKind::Eof by {
                        assert(events_view(evs@)[j as int] == event_view(evs@[j as int]));
                    }
                    assert(xml_fails_at(bytes@, k, m@));
                    assert(exists|k: nat| xml_fails_at(bytes@, k, m@));
                    lemma_fails_unreadable(bytes@, k, m@);
                }
                let err = FileError::Xml(m);
                assert(err->Xml_0@ == m@);
                assert(exists|k: nat| xml_fails_at(bytes@, k, err->Xml_0@));
                return Err(err);
            },
        }
    }
}

// ---------------------------------------------------------------------------
// The text of a paragraph
// ---------------------------------------------------------------------------

/// Type of an event view.
pub type EventView = (XmlKind, Seq<u8>, Seq<u8>, nat);

/// Whether, after the events, the reader is inside an element named `tag`:
/// a start tag of that name enters it and an end tag of that name leaves it.
pub open spec fn inside_after(evs: Seq<EventView>, tag: Seq<u8>) -> bool
    decreases evs.len(),
{
    if evs.len() == 0 {
        false
    } else {
        let e = evs.last();
        if e.0 == XmlKind::Start && e.1 == tag {
            true
        } else if e.0 == XmlKind::End && e.1 == tag {
            false
        } else {
            inside_after(evs.drop_last(), tag)
        }
    }
}

/// The raw texts inside elements named `tag`, in order.
pub open spec fn tag_texts(evs: Seq<EventView>, tag: Seq<u8>) -> Seq<Seq<u8>>
    decreases evs.len(),
{
    if evs.len() == 0 {
        Seq::empty()
    } else {
        let e = evs.last();
        if e.0 == XmlKind::Text && inside_after(evs.drop_last(), tag) {
            tag_texts(evs.drop_last(), tag).push(e.2)
        } else {
            tag_texts(evs.drop_last(), tag)
        }
    }
}

/// What `quick_xml::escape::unescape` makes of a text: the text with its
/// entities and character references resolved, or the words of its error.
pub uninterp spec fn xml_unescaped(raw: Seq<char>) -> Result<Seq<char>, Seq<char>>;

/// Resolves entities with `quick_xml::escape::unescape`; the contract names
/// the result as [`xml_unescaped`] of the text.
#[verifier::external_body]
fn xml_unescape(raw: &str) -> (r: Result<String, String>)
    ensures
        match r {
            Ok(t) => xml_unescaped(raw@) == Ok::<Seq<char>, Seq<char>>(t@),
            Err(e) => xml_unescaped(raw@) == Err::<Seq<char>, Seq<char>>(e@),
        },
{
    quick_xml::escape::unescape(raw).map(|text| text.into_owned()).map_err(|error| error.to_string())
}

/// The message for a text run that is not UTF-8.
pub open spec fn invalid_text_message() -> Seq<char> {
    "Document XML contains invalid UTF-8 text"@
}

/// The raw texts decoded and joined: each must be UTF-8 and its entities are
/// resolved; the first that fails gives the error.
pub open spec fn decoded_texts(raws: Seq<Seq<u8>>) -> Result<Seq<char>, Seq<char>>
    decreases raws.len(),
{
    if raws.len() == 0 {
        Ok(Seq::empty())
    } else {
        match decoded_texts(raws.drop_last()) {
            Err(m) => Err(m),
            Ok(t) => if !vstd::utf8::valid_utf8(raws.last()) {
                Err(invalid_text_message())
            } else {
                match xml_unescaped(vstd::utf8::decode_utf8(raws.last())) {
                    Ok(u) => Ok(t + u),
                    Err(e) => Err(e),
                }
            },
        }
    }
}

proof fn lemma_decoded_error_stays(ev: Seq<EventView>, tag: Seq<u8>, n: int, m: Seq<char>)
    requires
        0 <= n <= ev.len(),
        decoded_texts(tag_texts(ev.take(n), tag)) == Err::<Seq<char>, Seq<char>>(m),
    ensures
        decoded_texts(tag_texts(ev, tag)) == Err::<Seq<char>, Seq<char>>(m),
    decreases ev.len() - n,
{
    if n < ev.len() {
        let a = tag_texts(ev.take(n), tag);
        assert(ev.take(n + 1).drop_last() =~= ev.take(n));
        let b = tag_texts(ev.take(n + 1), tag);
        if b != a {
            assert(b.drop_last() =~= a);
        }
        lemma_decoded_error_stays(ev, tag, n + 1, m);
    } else {
        assert(ev.take(n) =~= ev);
    }
}

/// The text of the elements named `tag` among the events (see
/// [`decoded_texts`]); a failure is reported as a message.
pub fn events_text(evs: &Vec<XmlEvent>, tag: &[u8]) -> (r: Result<String, FileError>)
    ensures
        match decoded_texts(tag_texts(events_view(evs@), tag@)) {
            Ok(t) => r is Ok && r->Ok_0@ == t,
            Err(m) => r is Err && r->Err_0 == FileError::Message(r->Err_0->Message_0)
                && r->Err_0->Message_0@ == m,
        },
{
    let ghost ev = events_view(evs@);
    let mut out = String::new();
    let mut inside = false;
    let mut i: usize = 0;
    while i < evs.len()
        invariant
            i <= evs@.len(),
            ev == events_view(evs@),
            inside == inside_after(ev.take(i as int), tag@),
            decoded_texts(tag_texts(ev.take(i as int), tag@)) == Ok::<Seq<char>, Seq<char>>(out@),
        decreases evs@.len() - i,
    {
        let e = &evs[i];
        let ghost prefix = ev.take(i as int);
        proof {
            assert(ev.take(i + 1).drop_last() =~= prefix);
            assert(ev.take(i + 1).last() == event_view(evs@[i as int]));
        }
        let same_name = bytes_equal(e.name.as_slice(), tag);
        if e.kind == XmlKind::Start && same_name {
            inside = true;
        } else if e.kind == XmlKind::End && same_name {
            inside = false;
        } else if e.kind == XmlKind::Text && inside {
            let raw = match crate::responses::utf8_text(e.content.as_slice()) {
                Ok(raw) => raw,
                Err(_) => {
                    proof {
                        let t = tag_texts(ev.take(i + 1), tag@);
                        assert(t.drop_last() =~= tag_texts(prefix, tag@));
                        lemma_decoded_error_stays(ev, tag@, i + 1, invalid_text_message());
                    }
                    return Err(FileError::Message(String::from_str("Document XML contains invalid UTF-8 text")));
                },
            };
            match xml_unescape(raw.as_str()) {
                Ok(t) => {
                    proof {
                        let tt = tag_texts(ev.take(i + 1), tag@);
                        assert(tt == tag_texts(prefix, tag@).push(e.content@));
                        assert(tt.drop_last() =~= tag_texts(prefix, tag@));
                        assert(tt.last() == e.content@);
                    }
                    out.append(t.as_str());
                },
                Err(m) => {
                    proof {
                        let t = tag_texts(ev.take(i + 1), tag@);
                        assert(t.drop_last() =~= tag_texts(prefix, tag@));
                        lemma_decoded_error_stays(ev, tag@, i + 1, m@);
                    }
                    return Err(FileError::Message(m));
                },
            }
        }
        i = i + 1;
    }
    assert(ev.take(evs@.len() as int) =~= ev);
    Ok(out)
}

/// Whether two byte strings are equal.
pub fn bytes_equal(a: &[u8], b: &[u8]) -> (r: bool)
    ensures
        r == (a@ == b@),
{
    if a.len() != b.len() {
        return false;
    }
    let mut i: usize = 0;
    while i < a.len()
        invariant
            i <= a@.len(),
            a@.len() == b@.len(),
            forall|j: int| 0 <= j < i ==> a@[j] == b@[j],
        decreases a@.len() - i,
    {
        if a[i] != b[i] {
            return false;
        }
        i = i + 1;
    }
    assert(a@ =~= b@);
    true
}

/// The text of the elements named `text_tag` in a piece of XML: each text
/// run inside them, entities resolved, joined in order.
pub fn xml_text(xml: &[u8], text_tag: &[u8]) -> (r: Result<String, FileError>)
    ensures
        r is Ok ==> exists|evs: Seq<EventView>|
            xml_events_of(xml@, evs) && decoded_texts(tag_texts(evs, text_tag@)) == Ok::<
                Seq<char>,
                Seq<char>,
            >(r->Ok_0@),
        r is Ok <==> text_readable(xml@, text_tag@),
        r is Ok ==> r->Ok_0@ == decoded_texts(tag_texts(document_events(xml@), text_tag@))->Ok_0,
{
    let evs = match read_xml_events(xml) {
        Ok(evs) => evs,
        Err(e) => {
            return Err(e);
        },
    };
    proof {
        lemma_document_events(xml@, events_view(evs@));
    }
    events_text(&evs, text_tag)
}

/// The document reads to its end and the texts of its elements named `tag`
/// decode.
pub open spec fn text_readable(bytes: Seq<u8>, tag: Seq<u8>) -> bool {
    xml_readable(bytes) && decoded_texts(tag_texts(document_events(bytes), tag)) is Ok
}

// ---------------------------------------------------------------------------
// A paragraph with its text replaced
// ---------------------------------------------------------------------------

/// `<` as bytes.
pub open spec fn lt() -> Seq<u8> {
    seq![60u8]
}

/// `>` as bytes.
pub open spec fn gt() -> Seq<u8> {
    seq![62u8]
}

/// What a `quick_xml` `Writer` without indentation writes for an event: the
/// held bytes between the delimiters of its kind.
pub open spec fn written_event(e: EventView) -> Seq<u8> {
    match e.0 {
        XmlKind::Start => lt() + e.2 + gt(),
        XmlKind::End => seq![60u8, 47u8] + e.2 + gt(),
        XmlKind::Empty => lt() + e.2 + seq![47u8, 62u8],
        XmlKind::Text => e.2,
        XmlKind::CData => seq![60u8, 33u8, 91u8, 67u8, 68u8, 65u8, 84u8, 65u8, 91u8] + e.2 + seq![
            93u8,
            93u8,
            62u8,
        ],
        XmlKind::Comment => seq![60u8, 33u8, 45u8, 45u8] + e.2 + seq![45u8, 45u8, 62u8],
        XmlKind::Decl => seq![60u8, 63u8] + e.2 + seq![63u8, 62u8],
        XmlKind::PI => seq![60u8, 63u8] + e.2 + seq![63u8, 62u8],
        XmlKind::DocType => seq![60u8, 33u8, 68u8, 79u8, 67u8, 84u8, 89u8, 80u8, 69u8, 32u8] + e.2
            + gt(),
        XmlKind::Eof => Seq::empty(),
    }
}

/// The bytes written for an event (see [`written_event`]).
fn write_event(out: &mut Vec<u8>, e: &XmlEvent)
    ensures
        final(out)@ == old(out)@ + written_event(event_view(*e)),
{
    let (before, after): (&[u8], &[u8]) = match e.kind {
        XmlKind::Start => (&[60u8], &[62u8]),
        XmlKind::End => (&[60u8, 47u8], &[62u8]),
        XmlKind::Empty => (&[60u8], &[47u8, 62u8]),
        XmlKind::Text => (&[], &[]),
        XmlKind::CData => (&[60u8, 33u8, 91u8, 67u8, 68u8, 65u8, 84u8, 65u8, 91u8], &[93u8, 93u8, 62u8]),
        XmlKind::Comment => (&[60u8, 33u8, 45u8, 45u8], &[45u8, 45u8, 62u8]),
        XmlKind::Decl => (&[60u8, 63u8], &[63u8, 62u8]),
        XmlKind::PI => (&[60u8, 63u8], &[63u8, 62u8]),
        XmlKind::DocType => (&[60u8, 33u8, 68u8, 79u8, 67u8, 84u8, 89u8, 80u8, 69u8, 32u8], &[62u8]),
        XmlKind::Eof => {
            assert(written_event(event_view(*e)) =~= Seq::<u8>::empty());
            assert(out@ + Seq::<u8>::empty() =~= out@);
            return;
        },
    };
    let ghost start = out@;
    extend_bytes(out, before);
    extend_bytes(out, e.content.as_slice());
    extend_bytes(out, after);
    proof {
        assert(out@ =~= start + (before@ + e.content@ + after@));
        match e.kind {
            XmlKind::Start => {
                assert(before@ =~= lt());
                assert(after@ =~= gt());
            },
            XmlKind::End => {
                assert(before@ =~= seq![60u8, 47u8]);
                assert(after@ =~= gt());
            },
            XmlKind::Empty => {
                assert(before@ =~= lt());
                assert(after@ =~= seq![47u8, 62u8]);
            },
            XmlKind::Text => {
                assert(before@ =~= Seq::<u8>::empty());
                assert(after@ =~= Seq::<u8>::empty());
                assert(before@ + e.content@ + after@ =~= e.content@);
            },
            XmlKind::CData => {
                assert(before@ =~= seq![60u8, 33u8, 91u8, 67u8, 68u8, 65u8, 84u8, 65u8, 91u8]);
                assert(after@ =~= seq![93u8, 93u8, 62u8]);
            },
            XmlKind::Comment => {
                assert(before@ =~= seq![60u8, 33u8, 45u8, 45u8]);
                assert(after@ =~= seq![45u8, 45u8, 62u8]);
            },
            XmlKind::Decl => {
                assert(before@ =~= seq![60u8, 63u8]);
                assert(after@ =~= seq![63u8, 62u8]);
            },
            XmlKind::PI => {
                assert(before@ =~= seq![60u8, 63u8]);
                assert(after@ =~= seq![63u8, 62u8]);
            },
            XmlKind::DocType => {
                assert(before@ =~= seq![60u8, 33u8, 68u8, 79u8, 67u8, 84u8, 89u8, 80u8, 69u8, 32u8]);
                assert(after@ =~= gt());
            },
            XmlKind::Eof => {},
        }
    }
}

/// Appends bytes.
pub fn extend_bytes(out: &mut Vec<u8>, bytes: &[u8])
    ensures
        final(out)@ == old(out)@ + bytes@,
{
    let mut i: usize = 0;
    while i < bytes.len()
        invariant
            i <= bytes@.len(),
            out@ == old(out)@ + bytes@.take(i as int),
        decreases bytes@.len() - i,
    {
        out.push(bytes[i]);
        i = i + 1;
        assert(bytes@.take(i as int) =~= bytes@.take(i - 1).push(bytes@[i - 1]));
    }
    assert(bytes@.take(bytes@.len() as int) =~= bytes@);
}

/// What escaping turns a character into: `<`, `>`, `&`, `'` and `"` become
/// entities, other characters stay.
pub open spec fn escape_char(c: char) -> Seq<char> {
    if c == '<' {
        "&lt;"@
    } else if c == '>' {
        "&gt;"@
    } else if c == '&' {
        "&amp;"@
    } else if c == '\'' {
        "&apos;"@
    } else if c == '"' {
        "&quot;"@
    } else {
        seq![c]
    }
}

/// A text with its special characters written as entities.
pub open spec fn xml_escaped(s: Seq<char>) -> Seq<char>
    decreases s.len(),
{
    if s.len() == 0 {
        Seq::empty()
    } else {
        xml_escaped(s.drop_last()) + escape_char(s.last())
    }
}

/// Escapes a text with `quick_xml::escape::escape`, which replaces `<`, `>`,
/// `&`, `'` and `"` by their entities (see [`xml_escaped`]), and gives its
/// UTF-8 bytes.
#[verifier::external_body]
fn xml_escape(text: &str) -> (r: Vec<u8>)
    ensures
        r@ == vstd::utf8::encode_utf8(xml_escaped(text@)),
{
    quick_xml::escape::escape(text).as_bytes().to_vec()
}

/// Whether the reader is inside an element named `tag`, and whether the
/// translation was written already, after the events.
pub open spec fn replace_state(evs: Seq<EventView>, tag: Seq<u8>) -> (bool, bool)
    decreases evs.len(),
{
    if evs.len() == 0 {
        (false, false)
    } else {
        let (inside, wrote) = replace_state(evs.drop_last(), tag);
        let e = evs.last();
        if e.0 == XmlKind::Start && e.1 == tag {
            (true, wrote)
        } else if e.0 == XmlKind::End && e.1 == tag {
            (false, wrote)
        } else if e.0 == XmlKind::Text && inside {
            (inside, true)
        } else {
            (inside, wrote)
        }
    }
}

/// The events written again with the first text run inside an element named
/// `tag` replaced by `escaped`, and the later ones left out.
pub open spec fn replaced_xml(evs: Seq<EventView>, tag: Seq<u8>, escaped: Seq<u8>) -> Seq<u8>
    decreases evs.len(),
{
    if evs.len() == 0 {
        Seq::empty()
    } else {
        let (inside, wrote) = replace_state(evs.drop_last(), tag);
        let e = evs.last();
        replaced_xml(evs.drop_last(), tag, escaped) + if e.0 == XmlKind::Text && inside {
            if !wrote {
                escaped
            } else {
                Seq::empty()
            }
        } else {
            written_event(e)
        }
    }
}

/// The events written again with the translation in place of the text of
/// the elements named `tag` (see [`replaced_xml`]).
pub fn events_with_text(evs: &Vec<XmlEvent>, tag: &[u8], translated: &str) -> (r: Vec<u8>)
    ensures
        r@ == replaced_xml(events_view(evs@), tag@, vstd::utf8::encode_utf8(xml_escaped(translated@))),
{
    let ghost ev = events_view(evs@);
    let escaped = xml_escape(translated);
    let mut out: Vec<u8> = Vec::new();
    let mut inside = false;
    let mut wrote = false;
    let mut i: usize = 0;
    while i < evs.len()
        invariant
            i <= evs@.len(),
            ev == events_view(evs@),
            (inside, wrote) == replace_state(ev.take(i as int), tag@),
            out@ == replaced_xml(ev.take(i as int), tag@, escaped@),
        decreases evs@.len() - i,
    {
        let e = &evs[i];
        proof {
            assert(ev.take(i + 1).drop_last() =~= ev.take(i as int));
            assert(ev.take(i + 1).last() == event_view(evs@[i as int]));
        }
        let same_name = bytes_equal(e.name.as_slice(), tag);
        if e.kind == XmlKind::Start && same_name {
            inside = true;
            write_event(&mut out, e);
        } else if e.kind == XmlKind::End && same_name {
            inside = false;
            write_event(&mut out, e);
        } else if e.kind == XmlKind::Text && inside {
            if !wrote {
                extend_bytes(&mut out, escaped.as_slice());
                wrote = true;
            } else {
                assert(out@ + Seq::<u8>::empty() =~= out@);
            }
        } else {
            write_event(&mut out, e);
        }
        i = i + 1;
    }
    assert(ev.take(evs@.len() as int) =~= ev);
    out
}

/// A piece of XML with the translation in place of the text of the elements
/// named `text_tag`: the first text run inside them holds the escaped
/// translation, later runs are dropped, and everything else is written back.
pub fn replace_xml_text(xml: &[u8], text_tag: &[u8], translated: &str) -> (r: Result<Vec<u8>, FileError>)
    ensures
        r is Ok ==> exists|evs: Seq<EventView>|
            xml_events_of(xml@, evs) && r->Ok_0@ == replaced_xml(
                evs,
                text_tag@,
                vstd::utf8::encode_utf8(xml_escaped(translated@)),
            ),
        r is Err ==> r->Err_0 == FileError::Xml(r->Err_0->Xml_0) && exists|k: nat|
            xml_fails_at(xml@, k, r->Err_0->Xml_0@),
        r is Ok <==> xml_readable(xml@),
        r is Ok ==> r->Ok_0@ == replaced_xml(
            document_events(xml@),
            text_tag@,
            vstd::utf8::encode_utf8(xml_escaped(translated@)),
        ),
{
    let evs = match read_xml_events(xml) {
        Ok(evs) => evs,
        Err(e) => {
            return Err(e);
        },
    };
    proof {
        lemma_document_events(xml@, events_view(evs@));
    }
    Ok(events_with_text(&evs, text_tag, translated))
}

// ---------------------------------------------------------------------------
// Paragraphs of a document
// ---------------------------------------------------------------------------

/// The position before the `k`-th event: after the one before it, or 0.
pub open spec fn position_before(evs: Seq<EventView>, k: int) -> nat {
    if k <= 0 {
        0
    } else {
        evs[k - 1].3
    }
}

/// Where a paragraph that is open after the events started, and how deep the
/// reader is inside it. A start tag named `tag` opens a paragraph when none
/// is open; inside one, every start tag goes a level deeper and every end tag
/// a level up, and an end tag named `tag` at the outer level closes it.
pub open spec fn block_state(evs: Seq<EventView>, tag: Seq<u8>) -> (Option<nat>, nat)
    decreases evs.len(),
{
    if evs.len() == 0 {
        (None, 0)
    } else {
        let (open, depth) = block_state(evs.drop_last(), tag);
        let e = evs.last();
        let before = position_before(evs, evs.len() - 1);
        if e.0 == XmlKind::Start {
            if open is None {
                if e.1 == tag {
                    (Some(before), 1)
                } else {
                    (open, depth)
                }
            } else {
                (open, depth + 1)
            }
        } else if e.0 == XmlKind::End && open is Some {
            let d = if depth == 0 {
                0
            } else {
                (depth - 1) as nat
            };
            if d == 0 && e.1 == tag {
                (None, d)
            } else {
                (open, d)
            }
        } else {
            (open, depth)
        }
    }
}

/// The spans of the paragraphs named `tag`, from the `<` of their start tag
/// to the end of their end tag, in order.
pub open spec fn block_spans(evs: Seq<EventView>, tag: Seq<u8>) -> Seq<(nat, nat)>
    decreases evs.len(),
{
    if evs.len() == 0 {
        Seq::empty()
    } else {
        let (open, depth) = block_state(evs.drop_last(), tag);
        let e = evs.last();
        let d = if depth == 0 {
            0
        } else {
            (depth - 1) as nat
        };
        if e.0 == XmlKind::End && open is Some && d == 0 && e.1 == tag {
            block_spans(evs.drop_last(), tag).push((open->Some_0, e.3))
        } else {
            block_spans(evs.drop_last(), tag)
        }
    }
}

/// A paragraph of a document: its span, its bytes and its text.
#[derive(Debug)]
pub struct XmlBlock {
    pub start: usize,
    pub end: usize,
    pub original: Vec<u8>,
    pub text: String,
}

/// Each paragraph ends before the next one starts.
pub open spec fn blocks_in_order(bs: Seq<XmlBlock>) -> bool {
    &&& forall|i: int| 0 <= i < bs.len() ==> (#[trigger] bs[i]).start <= bs[i].end
    &&& forall|i: int, j: int| 0 <= i < j < bs.len() ==> (#[trigger] bs[i]).end <= (#[trigger] bs[j]).start
}

/// A paragraph found at the span: within the bytes, holding the bytes of
/// the span, and with the text of its elements named `text_tag`.
#[verifier::opaque]
pub open spec fn found_block(b: XmlBlock, span: (nat, nat), bytes: Seq<u8>, text_tag: Seq<u8>) -> bool {
    &&& (b.start as nat, b.end as nat) == span
    &&& b.start <= b.end <= bytes.len()
    &&& b.original@ == bytes.subrange(b.start as int, b.end as int)
    &&& exists|bevs: Seq<EventView>|
        xml_events_of(b.original@, bevs) && decoded_texts(tag_texts(bevs, text_tag)) == Ok::<
            Seq<char>,
            Seq<char>,
        >(b.text@)
}

/// A copy of `bytes[start..end]`.
pub fn byte_range(bytes: &[u8], start: usize, end: usize) -> (r: Vec<u8>)
    requires
        start <= end <= bytes@.len(),
    ensures
        r@ == bytes@.subrange(start as int, end as int),
{
    let mut r: Vec<u8> = Vec::new();
    let mut i = start;
    while i < end
        invariant
            start <= i <= end,
            end <= bytes@.len(),
            r@ == bytes@.subrange(start as int, i as int),
        decreases end - i,
    {
        r.push(bytes[i]);
        i = i + 1;
        assert(r@ =~= bytes@.subrange(start as int, i as int));
    }
    r
}

/// The texts of all the paragraphs named `block_tag` of a document read and
/// decode.
pub open spec fn paragraphs_readable(bytes: Seq<u8>, block_tag: Seq<u8>, text_tag: Seq<u8>) -> bool {
    forall|i: int|
        0 <= i < block_spans(document_events(bytes), block_tag).len() ==> text_readable(
            bytes.subrange(
                (#[trigger] block_spans(document_events(bytes), block_tag)[i]).0 as int,
                block_spans(document_events(bytes), block_tag)[i].1 as int,
            ),
            text_tag,
        )
}

/// The paragraphs found in the first events are the first of those found in
/// all of them.
proof fn lemma_block_spans_prefix(evs: Seq<EventView>, tag: Seq<u8>, n: int)
    requires
        0 <= n <= evs.len(),
    ensures
        block_spans(evs.take(n), tag).len() <= block_spans(evs, tag).len(),
        forall|j: int|
            0 <= j < block_spans(evs.take(n), tag).len() ==> block_spans(evs.take(n), tag)[j]
                == block_spans(evs, tag)[j],
    decreases evs.len() - n,
{
    if n < evs.len() {
        lemma_block_spans_prefix(evs, tag, n + 1);
        assert(evs.take(n + 1).drop_last() =~= evs.take(n));
    } else {
        assert(evs.take(n) =~= evs);
    }
}

/// The paragraphs named `block_tag` of a document: for each, its span, its
/// bytes, and the text of its elements named `text_tag` (see [`xml_text`]).
/// It is refused when the document or one of its paragraphs is not readable.
#[verifier::rlimit(50)]
pub fn extract_xml_blocks(bytes: &[u8], block_tag: &[u8], text_tag: &[u8]) -> (r: Result<
    Vec<XmlBlock>,
    FileError,
>)
    ensures
        r is Ok ==> exists|evs: Seq<EventView>|
            {
                &&& xml_events_of(bytes@, evs)
                &&& blocks_in_order(r->Ok_0@)
                &&& (r->Ok_0@.len() > 0 ==> r->Ok_0@.last().end <= bytes@.len())
                &&& r->Ok_0@.len() == block_spans(evs, block_tag@).len()
                &&& forall|i: int|
                    0 <= i < r->Ok_0@.len() ==> found_block(
                        #[trigger] r->Ok_0@[i],
                        block_spans(evs, block_tag@)[i],
                        bytes@,
                        text_tag@,
                    )
            },
        r is Ok <==> xml_readable(bytes@) && paragraphs_readable(bytes@, block_tag@, text_tag@),
        r is Ok ==> block_spans_of(r->Ok_0@) == block_spans(document_events(bytes@), block_tag@),
        r is Ok ==> r->Ok_0@.map_values(|b: XmlBlock| b.text@) == paragraph_texts(bytes@, block_tag@, text_tag@),
        r is Ok ==> forall|i: int|
            0 <= i < r->Ok_0@.len() ==> (#[trigger] r->Ok_0@[i]).original@ == bytes@.subrange(
                r->Ok_0@[i].start as int,
                r->Ok_0@[i].end as int,
            ),
{
    let evs = match read_xml_events(bytes) {
        Ok(evs) => evs,
        Err(e) => {
            return Err(e);
        },
    };
    let ghost ev = events_view(evs@);
    let mut blocks: Vec<XmlBlock> = Vec::new();
    let mut open: Option<usize> = None;
    let mut depth: usize = 0;
    let mut i: usize = 0;
    while i < evs.len()
        invariant
            i <= evs@.len(),
            ev == events_view(evs@),
            xml_events_of(bytes@, ev),
            events_in_order(ev, bytes@.len()),
            depth <= i,
            block_state(ev.take(i as int), block_tag@) == (
                match open {
                    Some(s) => Some(s as nat),
                    None => None,
                },
                depth as nat,
            ),
            i < ev.len() ==> (open matches Some(s) ==> s <= position_before(ev, i as int)),
            i < ev.len() && blocks@.len() > 0 ==> blocks@.last().end <= position_before(ev, i as int),
            blocks@.len() > 0 ==> (open matches Some(s) ==> blocks@.last().end <= s),
            blocks_in_order(blocks@),
            blocks@.len() > 0 ==> blocks@.last().end <= bytes@.len(),
            blocks@.len() == block_spans(ev.take(i as int), block_tag@).len(),
            forall|j: int|
                0 <= j < blocks@.len() ==> found_block(
                    #[trigger] blocks@[j],
                    block_spans(ev.take(i as int), block_tag@)[j],
                    bytes@,
                    text_tag@,
                ),
        decreases evs@.len() - i,
    {
        let e = &evs[i];
        let ghost prefix = ev.take(i as int);
        proof {
            assert(ev.take(i + 1).drop_last() =~= prefix);
            assert(ev.take(i + 1).last() == event_view(evs@[i as int]));
            assert(ev[i as int] == event_view(evs@[i as int]));
            assert(ev.take(i + 1).len() - 1 == i);
            assert(position_before(ev.take(i + 1), i as int) == position_before(ev, i as int));
            if i + 1 < ev.len() {
                assert(ev[i as int].0 != XmlKind::Eof);
                if i > 0 {
                    assert(ev[i - 1].3 < ev[i as int].3);
                }
            }
        }
        let ghost before_blocks = blocks@;
        if e.kind == XmlKind::Start {
            if open.is_none() {
                if bytes_equal(e.name.as_slice(), block_tag) {
                    let before = if i == 0 {
                        0
                    } else {
                        evs[i - 1].end
                    };
                    open = Some(before);
                    depth = 1;
                }
            } else {
                depth = depth + 1;
            }
        } else if e.kind == XmlKind::End && open.is_some() {
            depth = if depth == 0 {
                0
            } else {
                depth - 1
            };
            if depth == 0 && bytes_equal(e.name.as_slice(), block_tag) {
                let start = match open {
                    Some(s) => s,
                    None => 0,
                };
                let end = e.end;
                let original = byte_range(bytes, start, end);
                let text = match xml_text(original.as_slice(), text_tag) {
                    Ok(t) => t,
                    Err(err) => {
                        proof {
                            let k = blocks@.len() as int;
                            assert(block_spans(ev.take(i + 1), block_tag@) == block_spans(prefix, block_tag@).push(
                                (start as nat, end as nat),
                            ));
                            lemma_block_spans_prefix(ev, block_tag@, i + 1);
                            lemma_document_events(bytes@, ev);
                            assert(block_spans(ev.take(i + 1), block_tag@)[k] == (start as nat, end as nat));
                            assert(block_spans(document_events(bytes@), block_tag@)[k] == (start as nat, end as nat));
                            assert(!text_readable(bytes@.subrange(start as int, end as int), text_tag@));
                        }
                        return Err(err);
                    },
                };
                let ghost ov = original@;
                let ghost tv = text@;
                let ghost old_blocks = blocks@;
                blocks.push(XmlBlock { start, end, original, text });
                proof {
                    assert forall|a: int, c: int| 0 <= a < c < blocks@.len() implies (#[trigger] blocks@[a]).end
                        <= (#[trigger] blocks@[c]).start by {
                        if c == blocks@.len() - 1 && a < c {
                            assert(blocks@[a] == old_blocks[a]);
                            if a < old_blocks.len() - 1 {
                                assert(old_blocks[a].end <= old_blocks.last().start);
                            }
                        } else {
                            assert(blocks@[a] == old_blocks[a]);
                            assert(blocks@[c] == old_blocks[c]);
                        }
                    }
                }
                open = None;
                proof {
                    let b = blocks@.last();
                    assert(b.start == start && b.end == end && b.original@ == ov && b.text@ == tv);
                    reveal(found_block);
                    assert(found_block(b, (start as nat, end as nat), bytes@, text_tag@));
                    assert(block_spans(ev.take(i + 1), block_tag@) == block_spans(prefix, block_tag@).push(
                        (start as nat, end as nat),
                    ));
                }
            }
        }
        proof {
            if blocks@.len() == before_blocks.len() {
                assert(block_spans(ev.take(i + 1), block_tag@) == block_spans(prefix, block_tag@));
            }
        }
        i = i + 1;
        proof {
            assert forall|j: int| 0 <= j < blocks@.len() implies found_block(
                #[trigger] blocks@[j],
                block_spans(ev.take(i as int), block_tag@)[j],
                bytes@,
                text_tag@,
            ) by {
                if j < before_blocks.len() {
                    assert(blocks@[j] == before_blocks[j]);
                } else {
                    assert(blocks@[j] == blocks@.last());
                }
            }
        }
    }
    assert(ev.take(evs@.len() as int) =~= ev);
    proof {
        lemma_document_events(bytes@, ev);
        reveal(found_block);
        assert forall|j: int| 0 <= j < block_spans(document_events(bytes@), block_tag@).len() implies text_readable(
            bytes@.subrange(
                (#[trigger] block_spans(document_events(bytes@), block_tag@)[j]).0 as int,
                block_spans(document_events(bytes@), block_tag@)[j].1 as int,
            ),
            text_tag@,
        ) by {
            let b = blocks@[j];
            assert(found_block(b, block_spans(ev, block_tag@)[j], bytes@, text_tag@));
            let bevs = choose|bevs: Seq<EventView>|
                xml_events_of(b.original@, bevs) && decoded_texts(tag_texts(bevs, text_tag@))
                    == Ok::<Seq<char>, Seq<char>>(b.text@);
            lemma_document_events(b.original@, bevs);
        }
        lemma_block_texts(bytes@, block_tag@, text_tag@, blocks@, ev);
        assert(block_spans_of(blocks@) =~= block_spans(ev, block_tag@));
    }
    Ok(blocks)
}

/// The document with each paragraph replaced by its piece: the bytes
/// before the first paragraph, its piece, the bytes up to the next, ... (the
/// bytes after the last paragraph not included).
pub open spec fn spliced_prefix(bytes: Seq<u8>, spans: Seq<(nat, nat)>, pieces: Seq<Seq<u8>>) -> Seq<u8>
    decreases spans.len(),
{
    if spans.len() == 0 {
        Seq::empty()
    } else {
        let prev_end = if spans.len() == 1 {
            0
        } else {
            spans[spans.len() - 2].1
        };
        spliced_prefix(bytes, spans.drop_last(), pieces) + bytes.subrange(prev_end as int, spans.last().0 as int)
            + pieces[spans.len() - 1]
    }
}

/// The whole document with its paragraphs replaced by the pieces.
pub open spec fn spliced(bytes: Seq<u8>, spans: Seq<(nat, nat)>, pieces: Seq<Seq<u8>>) -> Seq<u8> {
    let last_end = if spans.len() == 0 {
        0
    } else {
        spans.last().1
    };
    spliced_prefix(bytes, spans, pieces) + bytes.subrange(last_end as int, bytes.len() as int)
}

/// The piece that replaces a paragraph: a paragraph without text stays as it
/// was; another one gets the translation in place of its text runs.
pub open spec fn block_piece(b: XmlBlock, translation: Seq<char>, text_tag: Seq<u8>, piece: Seq<u8>) -> bool {
    if crate::text::all_ws(b.text@) {
        piece == b.original@
    } else {
        exists|evs: Seq<EventView>|
            xml_events_of(b.original@, evs) && piece == replaced_xml(
                evs,
                text_tag,
                vstd::utf8::encode_utf8(xml_escaped(translation)),
            )
    }
}

/// The piece that replaces a paragraph (see [`block_piece`]).
pub open spec fn translated_piece(b: XmlBlock, translation: Seq<char>, text_tag: Seq<u8>) -> Seq<u8> {
    if crate::text::all_ws(b.text@) {
        b.original@
    } else {
        replaced_xml(
            document_events(b.original@),
            text_tag,
            vstd::utf8::encode_utf8(xml_escaped(translation)),
        )
    }
}

/// The spans of paragraphs.
pub open spec fn block_spans_of(bs: Seq<XmlBlock>) -> Seq<(nat, nat)> {
    bs.map_values(|b: XmlBlock| (b.start as nat, b.end as nat))
}

/// The translated document: each paragraph, in order, gets the next
/// translation (see [`block_piece`]); the bytes between and around the
/// paragraphs are kept. Paragraphs beyond the translations given are kept
/// too.
pub fn translated_xml_document(
    bytes: &[u8],
    blocks: &Vec<XmlBlock>,
    translations: &Vec<String>,
    text_tag: &[u8],
) -> (r: Result<Vec<u8>, FileError>)
    requires
        blocks_in_order(blocks@),
        blocks@.len() > 0 ==> blocks@.last().end <= bytes@.len(),
    ensures
        r is Ok ==> ({
            let n = if blocks@.len() <= translations@.len() {
                blocks@.len()
            } else {
                translations@.len()
            };
            exists|pieces: Seq<Seq<u8>>|
                {
                    &&& pieces.len() == n
                    &&& forall|i: int|
                        0 <= i < n ==> block_piece(blocks@[i], translations@[i]@, text_tag@, #[trigger] pieces[i])
                    &&& r->Ok_0@ == spliced(bytes@, block_spans_of(blocks@).take(n as int), pieces)
                }
        }),
        r is Err ==> r->Err_0 == FileError::Xml(r->Err_0->Xml_0),
        r is Ok <==> forall|i: int|
            0 <= i < blocks@.len() && i < translations@.len() ==> (crate::text::all_ws(
                (#[trigger] blocks@[i]).text@,
            ) || xml_readable(blocks@[i].original@)),
        r is Ok ==> ({
            let n = if blocks@.len() <= translations@.len() {
                blocks@.len()
            } else {
                translations@.len()
            };
            r->Ok_0@ == spliced(
                bytes@,
                block_spans_of(blocks@).take(n as int),
                Seq::new(n as nat, |i: int| translated_piece(blocks@[i], translations@[i]@, text_tag@)),
            )
        }),
{
    let n = if blocks.len() <= translations.len() {
        blocks.len()
    } else {
        translations.len()
    };
    let ghost spans = block_spans_of(blocks@);
    let ghost mut pieces: Seq<Seq<u8>> = Seq::empty();
    let mut out: Vec<u8> = Vec::new();
    let mut last: usize = 0;
    let mut i: usize = 0;
    while i < n
        invariant
            i <= n,
            n <= blocks@.len(),
            n <= translations@.len(),
            spans == block_spans_of(blocks@),
            blocks_in_order(blocks@),
            blocks@.len() > 0 ==> blocks@.last().end <= bytes@.len(),
            pieces.len() == i,
            forall|j: int|
                0 <= j < i ==> block_piece(blocks@[j], translations@[j]@, text_tag@, #[trigger] pieces[j]),
            out@ == spliced_prefix(bytes@, spans.take(i as int), pieces),
            last == (if i == 0 {
                0
            } else {
                blocks@[i - 1].end
            }),
            last <= bytes@.len(),
            i < blocks@.len() ==> last <= blocks@[i as int].start,
        decreases n - i,
    {
        let block = &blocks[i];
        proof {
            assert(blocks@[i as int].end <= blocks@.last().end) by {
                if i < blocks@.len() - 1 {
                    assert(blocks@[i as int].end <= blocks@.last().start);
                }
            }
            if i + 1 < blocks@.len() {
                assert(blocks@[i as int].end <= blocks@[i + 1].start);
            }
        }
        let gap = byte_range(bytes, last, block.start);
        extend_bytes(&mut out, gap.as_slice());
        let piece = if is_blank(chars_of(block.text.as_str()).as_slice()) {
            byte_range(block.original.as_slice(), 0, block.original.len())
        } else {
            match replace_xml_text(block.original.as_slice(), text_tag, translations[i].as_str()) {
                Ok(p) => p,
                Err(e) => {
                    proof {
                        assert(!crate::text::all_ws(blocks@[i as int].text@));
                        assert(!xml_readable(blocks@[i as int].original@));
                    }
                    return Err(e);
                },
            }
        };
        proof {
            assert(block.original@.subrange(0, block.original@.len() as int) =~= block.original@);
        }
        let ghost old_pieces = pieces;
        extend_bytes(&mut out, piece.as_slice());
        proof {
            pieces = pieces.push(piece@);
            assert(spans.take(i + 1).drop_last() =~= spans.take(i as int));
            assert(spans.take(i + 1).last() == (block.start as nat, block.end as nat));
            assert forall|j: int| 0 <= j < i + 1 implies block_piece(
                blocks@[j],
                translations@[j]@,
                text_tag@,
                #[trigger] pieces[j],
            ) by {
                if j < i {
                    assert(pieces[j] == old_pieces[j]);
                }
            }
            assert(spliced_prefix(bytes@, spans.take(i as int), pieces) == spliced_prefix(
                bytes@,
                spans.take(i as int),
                old_pieces,
            )) by {
                lemma_spliced_prefix_pieces(bytes@, spans.take(i as int), old_pieces, pieces);
            }
            if i > 0 {
                assert(spans.take(i + 1)[i - 1] == spans[i - 1]);
            }
        }
        last = block.end;
        i = i + 1;
    }
    let tail = byte_range(bytes, last, bytes.len());
    extend_bytes(&mut out, tail.as_slice());
    proof {
        if n > 0 {
            assert(spans.take(n as int).last() == spans[n - 1]);
        }
        assert forall|j: int| 0 <= j < blocks@.len() && j < translations@.len() implies (crate::text::all_ws(
            (#[trigger] blocks@[j]).text@,
        ) || xml_readable(blocks@[j].original@)) by {
            assert(block_piece(blocks@[j], translations@[j]@, text_tag@, pieces[j]));
        }
        let exact = Seq::new(n as nat, |k: int| translated_piece(blocks@[k], translations@[k]@, text_tag@));
        assert forall|j: int| 0 <= j < n implies #[trigger] pieces[j] == exact[j] by {
            assert(block_piece(blocks@[j], translations@[j]@, text_tag@, pieces[j]));
            if !crate::text::all_ws(blocks@[j].text@) {
                let evs = choose|evs: Seq<EventView>|
                    xml_events_of(blocks@[j].original@, evs) && pieces[j] == replaced_xml(
                        evs,
                        text_tag@,
                        vstd::utf8::encode_utf8(xml_escaped(translations@[j]@)),
                    );
                lemma_document_events(blocks@[j].original@, evs);
            }
        }
        assert(pieces =~= exact);
    }
    Ok(out)
}

proof fn lemma_spliced_prefix_pieces(
    bytes: Seq<u8>,
    spans: Seq<(nat, nat)>,
    a: Seq<Seq<u8>>,
    b: Seq<Seq<u8>>,
)
    requires
        spans.len() <= a.len(),
        spans.len() <= b.len(),
        forall|j: int| 0 <= j < spans.len() ==> a[j] == b[j],
    ensures
        spliced_prefix(bytes, spans, a) == spliced_prefix(bytes, spans, b),
    decreases spans.len(),
{
    if spans.len() > 0 {
        lemma_spliced_prefix_pieces(bytes, spans.drop_last(), a, b);
    }
}

/// The events of a document are determined by its bytes.
pub proof fn lemma_xml_events_unique(bytes: Seq<u8>, a: Seq<EventView>, b: Seq<EventView>)
    requires
        xml_events_of(bytes, a),
        xml_events_of(bytes, b),
    ensures
        a == b,
{
    if a.len() < b.len() {
        assert(xml_event_at(bytes, (a.len() - 1) as nat) == Ok::<(XmlKind, Seq<u8>, nat), Seq<char>>(read_as(a[a.len() - 1])));
        assert(xml_event_at(bytes, (a.len() - 1) as nat) == Ok::<(XmlKind, Seq<u8>, nat), Seq<char>>(read_as(b[a.len() - 1])));
        assert(b[a.len() - 1].0 != XmlKind::Eof);
    } else if b.len() < a.len() {
        assert(xml_event_at(bytes, (b.len() - 1) as nat) == Ok::<(XmlKind, Seq<u8>, nat), Seq<char>>(read_as(a[b.len() - 1])));
        assert(xml_event_at(bytes, (b.len() - 1) as nat) == Ok::<(XmlKind, Seq<u8>, nat), Seq<char>>(read_as(b[b.len() - 1])));
        assert(a[b.len() - 1].0 != XmlKind::Eof);
    } else {
        assert forall|k: int| 0 <= k < a.len() implies a[k] == b[k] by {
            assert(xml_event_at(bytes, k as nat) == Ok::<(XmlKind, Seq<u8>, nat), Seq<char>>(read_as(a[k])));
            assert(xml_event_at(bytes, k as nat) == Ok::<(XmlKind, Seq<u8>, nat), Seq<char>>(read_as(b[k])));
            assert(a[k].1 == element_name(a[k].0, a[k].2));
            assert(b[k].1 == element_name(b[k].0, b[k].2));
        }
        assert(a =~= b);
    }
}

/// The events of a document read to its end (see [`xml_events_of`]).
pub open spec fn document_events(bytes: Seq<u8>) -> Seq<EventView> {
    choose|evs: Seq<EventView>| xml_events_of(bytes, evs)
}

/// The events a reading gave are the document's events.
pub proof fn lemma_document_events(bytes: Seq<u8>, evs: Seq<EventView>)
    requires
        xml_events_of(bytes, evs),
    ensures
        document_events(bytes) == evs,
{
    lemma_xml_events_unique(bytes, evs, document_events(bytes));
}

/// The texts of the paragraphs named `block_tag` of a document, from their
/// elements named `text_tag`.
pub open spec fn paragraph_texts(bytes: Seq<u8>, block_tag: Seq<u8>, text_tag: Seq<u8>) -> Seq<Seq<char>> {
    let spans = block_spans(document_events(bytes), block_tag);
    Seq::new(
        spans.len(),
        |i: int|
            decoded_texts(
                tag_texts(document_events(bytes.subrange(spans[i].0 as int, spans[i].1 as int)), text_tag),
            )->Ok_0,
    )
}

/// The texts of the paragraphs found are those of [`paragraph_texts`].
pub proof fn lemma_block_texts(bytes: Seq<u8>, block_tag: Seq<u8>, text_tag: Seq<u8>, blocks: Seq<XmlBlock>, evs: Seq<EventView>)
    requires
        xml_events_of(bytes, evs),
        blocks.len() == block_spans(evs, block_tag).len(),
        forall|i: int|
            0 <= i < blocks.len() ==> found_block(#[trigger] blocks[i], block_spans(evs, block_tag)[i], bytes, text_tag),
    ensures
        blocks.map_values(|b: XmlBlock| b.text@) == paragraph_texts(bytes, block_tag, text_tag),
{
    reveal(found_block);
    lemma_document_events(bytes, evs);
    let p = paragraph_texts(bytes, block_tag, text_tag);
    assert forall|i: int| 0 <= i < blocks.len() implies blocks.map_values(|b: XmlBlock| b.text@)[i]
        == p[i] by {
        let b = blocks[i];
        let bevs = choose|bevs: Seq<EventView>|
            xml_events_of(b.original@, bevs) && decoded_texts(tag_texts(bevs, text_tag))
                == Ok::<Seq<char>, Seq<char>>(b.text@);
        lemma_document_events(b.original@, bevs);
    }
    assert(blocks.map_values(|b: XmlBlock| b.text@) =~= p);
}

} // verus!

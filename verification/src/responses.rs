//! Replies of an OpenAI-compatible Responses API: the lines of a streamed
//! reply, the text they carry, error events, generated images, provider
//! errors and model lists.
//!
//! Reading the network and turning JSON text into a [`JsonValue`] is the
//! application's part; what a reply means is decided here.
use base64::Engine;
use vstd::prelude::*;

use crate::ai::AiError;
use crate::files::{extension, extension_of, guessed_media_type, is_ext, output_media_type};
use crate::models::{AiConversationLog, Provider, ProviderModel, TranslateRequest};
use crate::files::concat_all;
use crate::json::JsonValue;
use crate::store::{first_key_index, lemma_first_key_index, lemma_first_key_index_unique};
use crate::text::{chars_equal, chars_of, concat_str, starts_with_chars, starts_with_seq, trim, trim_chars, string_from_chars};

verus! {

// ---------------------------------------------------------------------------
// Looking into values
// ---------------------------------------------------------------------------

/// The names of an object's members.
pub open spec fn member_names(es: Seq<(String, JsonValue)>) -> Seq<Seq<char>> {
    es.map_values(|e: (String, JsonValue)| e.0@)
}

/// The member `key` of an object (the first one of that name); `None` for
/// other values.
pub open spec fn json_field(v: JsonValue, key: Seq<char>) -> Option<JsonValue> {
    match v {
        JsonValue::Object(es) => {
            let i = first_key_index(member_names(es@), key);
            if i >= 0 {
                Some(es@[i].1)
            } else {
                None
            }
        },
        _ => None,
    }
}

/// The characters of a string value.
pub open spec fn as_text(v: Option<JsonValue>) -> Option<Seq<char>> {
    match v {
        Some(JsonValue::Str(s)) => Some(s@),
        _ => None,
    }
}

/// The member `key` of an object, when it is a string.
pub open spec fn field_text(v: JsonValue, key: Seq<char>) -> Option<Seq<char>> {
    as_text(json_field(v, key))
}

/// The member `inner` of the member `outer` of an object.
pub open spec fn nested_field(v: JsonValue, outer: Seq<char>, inner: Seq<char>) -> Option<JsonValue> {
    match json_field(v, outer) {
        Some(w) => json_field(w, inner),
        None => None,
    }
}

/// The characters of an optional string.
pub open spec fn opt_text(s: Option<String>) -> Option<Seq<char>> {
    match s {
        Some(t) => Some(t@),
        None => None,
    }
}

/// Looks up the member `key` of an object.
pub fn field<'a>(v: &'a JsonValue, key: &str) -> (r: Option<&'a JsonValue>)
    ensures
        match r {
            Some(x) => json_field(*v, key@) == Some(*x),
            None => json_field(*v, key@) is None,
        },
{
    match v {
        JsonValue::Object(es) => {
            let k = chars_of(key);
            let ghost names = member_names(es@);
            let mut i: usize = 0;
            while i < es.len()
                invariant
                    i <= es@.len(),
                    names == member_names(es@),
                    *v == JsonValue::Object(*es),
                    k@ == key@,
                    forall|j: int| 0 <= j < i ==> names[j] != key@,
                decreases es@.len() - i,
            {
                let name = chars_of(es[i].0.as_str());
                assert(names[i as int] == es@[i as int].0@);
                if chars_equal(name.as_slice(), k.as_slice()) {
                    proof {
                        lemma_first_key_index_unique(names, key@, i as int);
                        assert(json_field(*v, key@) == Some(es@[i as int].1));
                    }
                    return Some(&es[i].1);
                }
                i = i + 1;
            }
            proof {
                lemma_first_key_index_unique(names, key@, -1);
            }
            None
        },
        _ => None,
    }
}

/// The characters of a string value, copied.
pub fn text_of(v: Option<&JsonValue>) -> (r: Option<String>)
    ensures
        opt_text(r) == as_text(
            match v {
                Some(x) => Some(*x),
                None => None,
            },
        ),
{
    match v {
        Some(JsonValue::Str(s)) => Some(s.clone()),
        _ => None,
    }
}

/// The member `key` of an object, when it is a string, copied.
pub fn field_text_of(v: &JsonValue, key: &str) -> (r: Option<String>)
    ensures
        opt_text(r) == field_text(*v, key@),
{
    text_of(field(v, key))
}

/// The member `inner` of the member `outer` of an object.
pub fn nested<'a>(v: &'a JsonValue, outer: &str, inner: &str) -> (r: Option<&'a JsonValue>)
    ensures
        match r {
            Some(x) => nested_field(*v, outer@, inner@) == Some(*x),
            None => nested_field(*v, outer@, inner@) is None,
        },
{
    match field(v, outer) {
        Some(w) => field(w, inner),
        None => None,
    }
}

/// Whether an optional string equals `expected`.
fn text_is(s: &Option<String>, expected: &str) -> (r: bool)
    ensures
        r == (opt_text(*s) == Some(expected@)),
{
    match s {
        Some(t) => {
            let a = chars_of(t.as_str());
            let b = chars_of(expected);
            chars_equal(a.as_slice(), b.as_slice())
        },
        None => false,
    }
}

// ---------------------------------------------------------------------------
// Output text
// ---------------------------------------------------------------------------

/// The `type` of an event, or the empty text.
pub open spec fn event_type(v: JsonValue) -> Seq<char> {
    match field_text(v, "type"@) {
        Some(t) => t,
        None => Seq::empty(),
    }
}

/// The text an output-text delta adds (events of no type count as deltas).
pub open spec fn delta_piece(v: JsonValue) -> Option<Seq<char>> {
    let t = event_type(v);
    if t.len() == 0 || t == "response.output_text.delta"@ {
        field_text(v, "delta"@)
    } else {
        None
    }
}

/// The whole output text of a reply: `output_text`, then
/// `response.output_text`, then the `text` of an `output_text.done` event.
pub open spec fn output_text_piece(v: JsonValue) -> Option<Seq<char>> {
    match field_text(v, "output_text"@) {
        Some(t) => Some(t),
        None => match as_text(nested_field(v, "response"@, "output_text"@)) {
            Some(t) => Some(t),
            None => if event_type(v) == "response.output_text.done"@ {
                field_text(v, "text"@)
            } else {
                None
            },
        },
    }
}

/// The `output` member, or else `response.output`.
pub open spec fn output_value(v: JsonValue) -> Option<JsonValue> {
    match json_field(v, "output"@) {
        Some(o) => Some(o),
        None => nested_field(v, "response"@, "output"@),
    }
}

/// The text of one content part: its `text`, when its `type` is `output_text`.
pub open spec fn content_part_texts(c: JsonValue) -> Seq<Seq<char>> {
    if field_text(c, "type"@) == Some("output_text"@) {
        match field_text(c, "text"@) {
            Some(t) => seq![t],
            None => Seq::empty(),
        }
    } else {
        Seq::empty()
    }
}

/// The texts of the first `n` content parts.
pub open spec fn content_texts(cs: Seq<JsonValue>, n: int) -> Seq<Seq<char>>
    decreases n,
{
    if n <= 0 || n > cs.len() {
        Seq::empty()
    } else {
        content_texts(cs, n - 1) + content_part_texts(cs[n - 1])
    }
}

/// The texts of one output item: those of its `content` array.
pub open spec fn item_texts(item: JsonValue) -> Seq<Seq<char>> {
    match json_field(item, "content"@) {
        Some(JsonValue::Array(cs)) => content_texts(cs@, cs@.len() as int),
        _ => Seq::empty(),
    }
}

/// The texts of the first `n` output items.
pub open spec fn output_item_texts(items: Seq<JsonValue>, n: int) -> Seq<Seq<char>>
    decreases n,
{
    if n <= 0 || n > items.len() {
        Seq::empty()
    } else {
        output_item_texts(items, n - 1) + item_texts(items[n - 1])
    }
}

/// The texts of an `output` array, in order.
pub open spec fn output_texts(o: JsonValue) -> Seq<Seq<char>> {
    match o {
        JsonValue::Array(items) => output_item_texts(items@, items@.len() as int),
        _ => Seq::empty(),
    }
}

/// The texts a reply value adds to the content, in order. A delta is always
/// added; the whole-output forms only while nothing has been received yet.
pub open spec fn response_pieces(v: JsonValue, started: bool) -> Seq<Seq<char>> {
    match delta_piece(v) {
        Some(d) => seq![d],
        None => if started {
            Seq::empty()
        } else {
            match output_text_piece(v) {
                Some(t) => seq![t],
                None => match output_value(v) {
                    Some(o) => output_texts(o),
                    None => Seq::empty(),
                },
            }
        },
    }
}

/// Once text has been received, a reply value adds only an output-text
/// delta: any other value (a completed response, a done event, a whole
/// output) leaves the content as it is and reports nothing, so a translation
/// is never repeated. A delta is added the same way whether or not text came
/// before it.
pub proof fn lemma_after_text_only_deltas(v: JsonValue, content: Seq<char>)
    ensures
        delta_piece(v) is None ==> response_pieces(v, true).len() == 0 && content + concat_all(
            response_pieces(v, true),
        ) == content && reported_contents(content, response_pieces(v, true)).len() == 0,
        delta_piece(v) matches Some(d) ==> response_pieces(v, true) == seq![d]
            && response_pieces(v, false) == seq![d],
{
    if delta_piece(v) is None {
        assert(response_pieces(v, true) =~= Seq::<Seq<char>>::empty());
        assert(concat_all(Seq::<Seq<char>>::empty()) =~= Seq::<char>::empty());
        assert(content + Seq::<char>::empty() =~= content);
    }
}

/// After the pieces are appended one by one, the content after each step.
pub open spec fn reported_contents(start: Seq<char>, pieces: Seq<Seq<char>>) -> Seq<Seq<char>> {
    Seq::new(pieces.len(), |i: int| start + concat_all(pieces.take(i + 1)))
}

/// The characters of each string.
pub open spec fn texts_view(v: Seq<String>) -> Seq<Seq<char>> {
    v.map_values(|s: String| s@)
}

/// Appends `piece` to `content` and records the content that results.
fn append_piece(content: &mut String, piece: &str, reports: &mut Vec<String>)
    ensures
        final(content)@ == old(content)@ + piece@,
        texts_view(final(reports)@) == texts_view(old(reports)@).push(final(content)@),
{
    content.append(piece);
    let ghost before = reports@;
    reports.push(content.clone());
    assert(texts_view(reports@) =~= texts_view(before).push(content@));
}

proof fn lemma_reported_push(start: Seq<char>, pieces: Seq<Seq<char>>, p: Seq<char>)
    ensures
        reported_contents(start, pieces.push(p)) == reported_contents(start, pieces).push(
            start + concat_all(pieces.push(p)),
        ),
        start + concat_all(pieces.push(p)) == (start + concat_all(pieces)) + p,
{
    assert(pieces.push(p).drop_last() =~= pieces);
    assert(pieces.push(p).take(pieces.len() + 1 as int) =~= pieces.push(p));
    let a = reported_contents(start, pieces.push(p));
    let b = reported_contents(start, pieces).push(start + concat_all(pieces.push(p)));
    assert forall|i: int| 0 <= i < a.len() implies #[trigger] a[i] == b[i] by {
        if i < pieces.len() {
            assert(pieces.push(p).take(i + 1) =~= pieces.take(i + 1));
        }
    }
    assert(a =~= b);
}

/// Appends the texts of an `output` array to `content`, reporting the
/// content after each.
fn append_response_output(output: &JsonValue, content: &mut String) -> (reports: Vec<String>)
    ensures
        final(content)@ == old(content)@ + concat_all(output_texts(*output)),
        texts_view(reports@) == reported_contents(old(content)@, output_texts(*output)),
{
    let mut reports: Vec<String> = Vec::new();
    let ghost start = content@;
    match output {
        JsonValue::Array(items) => {
            let mut i: usize = 0;
            while i < items.len()
                invariant
                    i <= items@.len(),
                    content@ == start + concat_all(output_item_texts(items@, i as int)),
                    texts_view(reports@) == reported_contents(start, output_item_texts(items@, i as int)),
                decreases items@.len() - i,
            {
                let ghost done = output_item_texts(items@, i as int);
                let item = &items[i];
                match field(item, "content") {
                    Some(JsonValue::Array(cs)) => {
                        let mut j: usize = 0;
                        assert(content_texts(cs@, 0) =~= Seq::<Seq<char>>::empty());
                        assert(done + content_texts(cs@, 0) =~= done);
                        while j < cs.len()
                            invariant
                                j <= cs@.len(),
                                content@ == start + concat_all(done + content_texts(cs@, j as int)),
                                texts_view(reports@) == reported_contents(
                                    start,
                                    done + content_texts(cs@, j as int),
                                ),
                            decreases cs@.len() - j,
                        {
                            let ghost sofar = done + content_texts(cs@, j as int);
                            let kind = field_text_of(&cs[j], "type");
                            if text_is(&kind, "output_text") {
                                let text = field_text_of(&cs[j], "text");
                                match text {
                                    Some(t) => {
                                        proof {
                                            lemma_reported_push(start, sofar, t@);
                                        }
                                        append_piece(content, t.as_str(), &mut reports);
                                        assert(done + content_texts(cs@, j + 1) =~= sofar.push(t@));
                                    },
                                    None => {
                                        assert(done + content_texts(cs@, j + 1) =~= sofar);
                                    },
                                }
                            } else {
                                assert(done + content_texts(cs@, j + 1) =~= sofar);
                            }
                            j = j + 1;
                        }
                        assert(output_item_texts(items@, i + 1) =~= done + content_texts(cs@, cs@.len() as int));
                    },
                    _ => {
                        assert(output_item_texts(items@, i + 1) =~= done);
                    },
                }
                i = i + 1;
            }
        },
        _ => {
            assert(reported_contents(start, Seq::empty()) =~= Seq::empty());
            assert(concat_all(Seq::<Seq<char>>::empty()) =~= Seq::empty());
        },
    }
    reports
}

/// Appends what a reply value carries to `content` (see [`response_pieces`]),
/// and returns the content after each addition, for streaming it.
pub fn append_response_value(value: &JsonValue, content: &mut String) -> (reports: Vec<String>)
    ensures
        final(content)@ == old(content)@ + concat_all(response_pieces(*value, old(content)@.len() > 0)),
        texts_view(reports@) == reported_contents(
            old(content)@,
            response_pieces(*value, old(content)@.len() > 0),
        ),
{
    let ghost start = content@;
    let mut reports: Vec<String> = Vec::new();
    proof {
        assert(concat_all(Seq::<Seq<char>>::empty()) =~= Seq::empty());
        assert(reported_contents(start, Seq::empty()) =~= Seq::empty());
        assert(Seq::<Seq<char>>::empty().push(Seq::<char>::empty()) =~= seq![Seq::<char>::empty()]);
    }
    let kind = field_text_of(value, "type");
    let untyped = match &kind {
        Some(t) => t.as_str().is_empty(),
        None => true,
    };
    let delta = if untyped || text_is(&kind, "response.output_text.delta") {
        field_text_of(value, "delta")
    } else {
        None
    };
    if let Some(d) = delta {
        proof {
            lemma_reported_push(start, Seq::empty(), d@);
            assert(Seq::<Seq<char>>::empty().push(d@) =~= seq![d@]);
        }
        append_piece(content, d.as_str(), &mut reports);
        return reports;
    }
    if !content.as_str().is_empty() {
        return reports;
    }
    let mut whole = field_text_of(value, "output_text");
    if whole.is_none() {
        whole = text_of(nested(value, "response", "output_text"));
    }
    proof {
        reveal_strlit("response.output_text.done");
    }
    if whole.is_none() && text_is(&kind, "response.output_text.done") {
        whole = field_text_of(value, "text");
    }
    if let Some(t) = whole {
        proof {
            lemma_reported_push(start, Seq::empty(), t@);
            assert(Seq::<Seq<char>>::empty().push(t@) =~= seq![t@]);
        }
        append_piece(content, t.as_str(), &mut reports);
        return reports;
    }
    let output = match field(value, "output") {
        Some(o) => Some(o),
        None => nested(value, "response", "output"),
    };
    match output {
        Some(o) => append_response_output(o, content),
        None => reports,
    }
}

// ---------------------------------------------------------------------------
// Streamed lines
// ---------------------------------------------------------------------------

/// What `std::str::from_utf8` reports of bytes that are not UTF-8.
pub uninterp spec fn utf8_error_text(bytes: Seq<u8>) -> Seq<char>;

/// Reads bytes as UTF-8 with `std::str::from_utf8`. As std documents, the
/// bytes are accepted exactly when they are valid UTF-8, and the text then
/// holds the characters they encode; the wording of the error is left named.
#[verifier::external_body]
pub fn utf8_text(bytes: &[u8]) -> (r: Result<String, String>)
    ensures
        match r {
            Ok(s) => vstd::utf8::valid_utf8(bytes@) && s@ == vstd::utf8::decode_utf8(bytes@),
            Err(e) => !vstd::utf8::valid_utf8(bytes@) && e@ == utf8_error_text(bytes@),
        },
{
    std::str::from_utf8(bytes).map(str::to_string).map_err(|error| error.to_string())
}

/// A line of a streamed reply: nothing to read, or a JSON payload.
#[derive(Debug)]
pub enum StreamLine {
    Ignored,
    Payload(String),
}

/// The JSON text a streamed line carries: blank lines, comments (`:`) and
/// `event:` lines carry none; `data:` is dropped; `[DONE]` ends the stream.
pub open spec fn stream_payload(line: Seq<char>) -> Option<Seq<char>> {
    let l = trim(line);
    if l.len() == 0 || starts_with_seq(l, ":"@) || starts_with_seq(l, "event:"@) {
        None
    } else {
        let p = if starts_with_seq(l, "data:"@) {
            trim(l.skip("data:"@.len() as int))
        } else {
            l
        };
        if p == "[DONE]"@ || p.len() == 0 {
            None
        } else {
            Some(p)
        }
    }
}

/// The message for a streamed line that is not UTF-8.
pub open spec fn invalid_utf8_message(bytes: Seq<u8>) -> Seq<char> {
    "Responses API returned invalid UTF-8: "@ + utf8_error_text(bytes)
}

/// Reads one line of a streamed reply.
pub fn stream_line(line: &[u8]) -> (r: Result<StreamLine, AiError>)
    ensures
        match r {
            Ok(StreamLine::Ignored) => vstd::utf8::valid_utf8(line@) && stream_payload(
                vstd::utf8::decode_utf8(line@),
            ) is None,
            Ok(StreamLine::Payload(p)) => vstd::utf8::valid_utf8(line@) && stream_payload(
                vstd::utf8::decode_utf8(line@),
            ) == Some(p@),
            Err(e) => !vstd::utf8::valid_utf8(line@) && e == AiError::Message(e->Message_0)
                && e->Message_0@ == invalid_utf8_message(line@),
        },
{
    let text = match utf8_text(line) {
        Ok(text) => text,
        Err(error) => {
            return Err(AiError::Message(concat_str("Responses API returned invalid UTF-8: ", error.as_str())));
        },
    };
    let chars = chars_of(text.as_str());
    let l = trim_chars(chars.as_slice());
    let colon = chars_of(":");
    let event = chars_of("event:");
    if l.len() == 0 || starts_with_chars(l.as_slice(), colon.as_slice()) || starts_with_chars(
        l.as_slice(),
        event.as_slice(),
    ) {
        return Ok(StreamLine::Ignored);
    }
    let data = chars_of("data:");
    let p = if starts_with_chars(l.as_slice(), data.as_slice()) {
        let rest = crate::text::slice_chars(l.as_slice(), data.len(), l.len());
        assert(rest@ =~= l@.skip("data:"@.len() as int));
        trim_chars(rest.as_slice())
    } else {
        l
    };
    let done = chars_of("[DONE]");
    if p.len() == 0 || chars_equal(p.as_slice(), done.as_slice()) {
        return Ok(StreamLine::Ignored);
    }
    Ok(StreamLine::Payload(string_from_chars(p.as_slice())))
}

/// The message of an `error` event: `error.message`, then `message`, then a
/// fixed text; `None` for other events.
pub open spec fn error_event_message(v: JsonValue) -> Option<Seq<char>> {
    if field_text(v, "type"@) == Some("error"@) {
        Some(
            match as_text(nested_field(v, "error"@, "message"@)) {
                Some(m) => m,
                None => match field_text(v, "message"@) {
                    Some(m) => m,
                    None => "Responses API returned an error event"@,
                },
            },
        )
    } else {
        None
    }
}

/// Handles one event of a streamed reply: an error event is refused with its
/// message and leaves the content as it was; any other event adds its text
/// (see [`append_response_value`]) and returns the contents to stream.
pub fn append_stream_event(value: &JsonValue, content: &mut String) -> (r: Result<Vec<String>, AiError>)
    ensures
        match error_event_message(*value) {
            Some(m) => r is Err && r->Err_0 == AiError::Message(r->Err_0->Message_0)
                && r->Err_0->Message_0@ == m && final(content)@ == old(content)@,
            None => r is Ok && final(content)@ == old(content)@ + concat_all(
                response_pieces(*value, old(content)@.len() > 0),
            ) && texts_view(r->Ok_0@) == reported_contents(
                old(content)@,
                response_pieces(*value, old(content)@.len() > 0),
            ),
        },
{
    let kind = field_text_of(value, "type");
    if text_is(&kind, "error") {
        let mut message = text_of(nested(value, "error", "message"));
        if message.is_none() {
            message = field_text_of(value, "message");
        }
        let text = match message {
            Some(m) => m,
            None => String::from_str("Responses API returned an error event"),
        };
        return Err(AiError::Message(text));
    }
    Ok(append_response_value(value, content))
}

/// The message for a streamed payload that is not JSON.
pub fn invalid_stream_json(error: &str, payload: &str) -> (r: AiError)
    ensures
        r == AiError::Message(r->Message_0),
        r->Message_0@ == "Responses API returned invalid JSON: "@ + error@ + "; response: "@ + payload@,
{
    let mut m = String::from_str("Responses API returned invalid JSON: ");
    m.append(error);
    m.append("; response: ");
    m.append(payload);
    AiError::Message(m)
}

// ---------------------------------------------------------------------------
// Generated images
// ---------------------------------------------------------------------------

/// What the `base64` crate's standard engine decodes from a text: the bytes,
/// or the words of its error.
pub uninterp spec fn base64_decoded(text: Seq<char>) -> Result<Seq<u8>, Seq<char>>;

/// Decodes standard base64 with `base64::engine::general_purpose::STANDARD`.
/// The contract names what comes back as [`base64_decoded`] of the text.
#[verifier::external_body]
pub fn decode_base64(text: &str) -> (r: Result<Vec<u8>, String>)
    ensures
        match r {
            Ok(b) => base64_decoded(text@) == Ok::<Seq<u8>, Seq<char>>(b@),
            Err(e) => base64_decoded(text@) == Err::<Seq<u8>, Seq<char>>(e@),
        },
{
    base64::engine::general_purpose::STANDARD.decode(text).map_err(|error| error.to_string())
}

/// The `result` of the first `image_generation_call` item from index `i` on
/// that has a string result.
pub open spec fn first_image_result(items: Seq<JsonValue>, i: int) -> Option<Seq<char>>
    decreases items.len() - i,
{
    if i < 0 || i >= items.len() {
        None
    } else if field_text(items[i], "type"@) == Some("image_generation_call"@) && field_text(
        items[i],
        "result"@,
    ) is Some {
        field_text(items[i], "result"@)
    } else {
        first_image_result(items, i + 1)
    }
}

/// The `b64_json` of the first item of a reply's `data` array, as image
/// editing replies carry it.
pub open spec fn data_image(v: JsonValue) -> Option<Seq<char>> {
    match json_field(v, "data"@) {
        Some(JsonValue::Array(items)) => if items@.len() > 0 {
            field_text(items@[0], "b64_json"@)
        } else {
            None
        },
        _ => None,
    }
}

/// The encoded image of a reply: from its `output` array, or else from
/// `data[0].b64_json`.
pub open spec fn encoded_image(v: JsonValue) -> Option<Seq<char>> {
    let from_output = match output_value(v) {
        Some(JsonValue::Array(items)) => first_image_result(items@, 0),
        _ => None,
    };
    match from_output {
        Some(e) => Some(e),
        None => data_image(v),
    }
}

/// The base64 text of an encoded image: a `data:` URL gives what follows its
/// first comma; the result is trimmed.
pub open spec fn image_payload(e: Seq<char>) -> Seq<char> {
    let rest = e.skip("data:"@.len() as int);
    if starts_with_seq(e, "data:"@) && crate::text::find_from(rest, ","@, 0) >= 0 {
        trim(rest.skip(crate::text::find_from(rest, ","@, 0) + 1))
    } else {
        trim(e)
    }
}

/// The message for a reply without an image.
pub open spec fn missing_image_message() -> Seq<char> {
    "Responses API response did not contain an image_generation_call result"@
}

/// The image a reply carries, decoded from base64.
pub fn decode_responses_image(value: &JsonValue) -> (r: Result<Vec<u8>, AiError>)
    ensures
        match encoded_image(*value) {
            None => r is Err && r->Err_0 == AiError::Message(r->Err_0->Message_0)
                && r->Err_0->Message_0@ == missing_image_message(),
            Some(e) => match base64_decoded(image_payload(e)) {
                Ok(bytes) => r is Ok && r->Ok_0@ == bytes,
                Err(m) => r is Err && r->Err_0 == AiError::Message(r->Err_0->Message_0)
                    && r->Err_0->Message_0@ == "Responses API returned invalid image base64 data: "@
                    + m,
            },
        },
{
    let output = match field(value, "output") {
        Some(o) => Some(o),
        None => nested(value, "response", "output"),
    };
    let mut encoded: Option<String> = None;
    if let Some(JsonValue::Array(items)) = output {
        let mut i: usize = 0;
        while i < items.len()
            invariant_except_break
                i <= items@.len(),
                encoded is None,
                first_image_result(items@, 0) == first_image_result(items@, i as int),
            ensures
                encoded is Some ==> opt_text(encoded) == first_image_result(items@, 0),
                encoded is None ==> first_image_result(items@, 0) is None,
            decreases items@.len() - i,
        {
            let kind = field_text_of(&items[i], "type");
            let result = field_text_of(&items[i], "result");
            if text_is(&kind, "image_generation_call") && result.is_some() {
                encoded = result;
                break;
            }
            i = i + 1;
        }
    }
    if encoded.is_none() {
        if let Some(JsonValue::Array(items)) = field(value, "data") {
            if items.len() > 0 {
                encoded = field_text_of(&items[0], "b64_json");
            }
        }
    }
    assert(encoded is Some ==> opt_text(encoded) == encoded_image(*value));
    assert(encoded is None ==> encoded_image(*value) is None);
    let encoded = match encoded {
        Some(e) => e,
        None => {
            return Err(AiError::Message(String::from_str(
                "Responses API response did not contain an image_generation_call result",
            )));
        },
    };
    let e = chars_of(encoded.as_str());
    let data = chars_of("data:");
    let payload = if starts_with_chars(e.as_slice(), data.as_slice()) {
        let rest = crate::text::slice_chars(e.as_slice(), data.len(), e.len());
        assert(rest@ =~= e@.skip("data:"@.len() as int));
        let comma = chars_of(",");
        match crate::text::find_chars(rest.as_slice(), comma.as_slice(), 0) {
            Some(k) => {
                proof {
                    reveal_strlit(",");
                    crate::text::lemma_find_from(rest@, comma@, 0);
                }
                let tail = crate::text::slice_chars(rest.as_slice(), k + 1, rest.len());
                assert(tail@ =~= rest@.skip(k + 1));
                trim_chars(tail.as_slice())
            },
            None => trim_chars(e.as_slice()),
        }
    } else {
        trim_chars(e.as_slice())
    };
    let text = string_from_chars(payload.as_slice());
    match decode_base64(text.as_str()) {
        Ok(bytes) => Ok(bytes),
        Err(error) => Err(AiError::Message(concat_str(
            "Responses API returned invalid image base64 data: ",
            error.as_str(),
        ))),
    }
}

// ---------------------------------------------------------------------------
// Provider errors
// ---------------------------------------------------------------------------

/// The message a provider's error body gives: `error.message`, then `error`,
/// then `message`.
pub open spec fn provider_error_text(body: JsonValue) -> Option<Seq<char>> {
    match as_text(nested_field(body, "error"@, "message"@)) {
        Some(m) => Some(m),
        None => match field_text(body, "error"@) {
            Some(m) => Some(m),
            None => field_text(body, "message"@),
        },
    }
}

/// `Provider returned HTTP <status>`, followed by `: <message>` when the body
/// gives one.
pub open spec fn provider_error_spec(body: JsonValue, status: u16) -> Seq<char> {
    match provider_error_text(body) {
        Some(m) => "Provider returned HTTP "@ + crate::text::decimal(status as nat) + ": "@ + m,
        None => "Provider returned HTTP "@ + crate::text::decimal(status as nat),
    }
}

/// The message for a provider's error reply.
pub fn provider_error(body: &JsonValue, status: u16) -> (r: String)
    ensures
        r@ == provider_error_spec(*body, status),
{
    let mut message = text_of(nested(body, "error", "message"));
    if message.is_none() {
        message = field_text_of(body, "error");
    }
    if message.is_none() {
        message = field_text_of(body, "message");
    }
    let code = crate::text::decimal_string(status as u64);
    let mut r = String::from_str("Provider returned HTTP ");
    r.append(code.as_str());
    match message {
        Some(m) => {
            r.append(": ");
            r.append(m.as_str());
        },
        None => {},
    }
    r
}

/// How many characters of a reply body an error message quotes.
pub const MAX_RESPONSE_EXCERPT_CHARS: usize = 2000;

/// The start of a reply body for an error message: at most
/// [`MAX_RESPONSE_EXCERPT_CHARS`] characters, followed by `...` when cut.
pub open spec fn response_excerpt_spec(body: Seq<char>) -> Seq<char> {
    if body.len() > MAX_RESPONSE_EXCERPT_CHARS {
        body.take(MAX_RESPONSE_EXCERPT_CHARS as int) + "..."@
    } else {
        body
    }
}

/// The start of a reply body for an error message (see
/// [`response_excerpt_spec`]).
pub fn response_excerpt(body: &str) -> (r: String)
    ensures
        r@ == response_excerpt_spec(body@),
{
    let chars = chars_of(body);
    if chars.len() > MAX_RESPONSE_EXCERPT_CHARS {
        let head = crate::text::slice_chars(chars.as_slice(), 0, MAX_RESPONSE_EXCERPT_CHARS);
        assert(head@ =~= body@.take(MAX_RESPONSE_EXCERPT_CHARS as int));
        let mut r = string_from_chars(head.as_slice());
        r.append("...");
        r
    } else {
        String::from_str(body)
    }
}

/// What a provider's reply to a JSON request comes to. A status outside
/// 200..=299 is an error, worded from the body when the body is JSON; a
/// successful reply must be JSON. `status_text` is how the status is shown
/// (`404 Not Found`), and `parsed` is the body read as JSON or the words of
/// the parse error.
pub open spec fn provider_reply_spec(
    status: u16,
    status_text: Seq<char>,
    content_type: Option<Seq<char>>,
    body: Seq<char>,
    parsed: Result<JsonValue, Seq<char>>,
    provider_name: Seq<char>,
) -> Result<JsonValue, Seq<char>> {
    let ct = match content_type {
        Some(c) => c,
        None => "unknown"@,
    };
    if !(200 <= status && status <= 299) {
        match parsed {
            Ok(v) => Err(provider_error_spec(v, status)),
            Err(_) => Err(
                provider_name + " returned HTTP "@ + status_text + " (Content-Type: "@ + ct + "): "@
                    + response_excerpt_spec(body),
            ),
        }
    } else {
        match parsed {
            Ok(v) => Ok(v),
            Err(e) => Err(
                provider_name + " returned invalid JSON (HTTP "@ + status_text + ", Content-Type: "@
                    + ct + "): "@ + e + "; response body: "@ + response_excerpt_spec(body),
            ),
        }
    }
}

/// The view of a parse result.
pub open spec fn parsed_view(p: Result<JsonValue, String>) -> Result<JsonValue, Seq<char>> {
    match p {
        Ok(v) => Ok(v),
        Err(e) => Err(e@),
    }
}

/// Decides what a provider's reply to a JSON request comes to (see
/// [`provider_reply_spec`]); every refusal is an [`AiError::Message`].
pub fn provider_reply(
    status: u16,
    status_text: &str,
    content_type: Option<&str>,
    body: &str,
    parsed: Result<JsonValue, String>,
    provider_name: &str,
) -> (r: Result<JsonValue, AiError>)
    ensures
        match provider_reply_spec(
            status,
            status_text@,
            match content_type {
                Some(c) => Some(c@),
                None => None,
            },
            body@,
            parsed_view(parsed),
            provider_name@,
        ) {
            Ok(v) => r is Ok && r->Ok_0 == v,
            Err(m) => r is Err && r->Err_0 == AiError::Message(r->Err_0->Message_0)
                && r->Err_0->Message_0@ == m,
        },
{
    let ct = match content_type {
        Some(c) => c,
        None => "unknown",
    };
    if !(200 <= status && status <= 299) {
        match parsed {
            Ok(v) => Err(AiError::Message(provider_error(&v, status))),
            Err(_) => {
                let mut m = String::from_str(provider_name);
                m.append(" returned HTTP ");
                m.append(status_text);
                m.append(" (Content-Type: ");
                m.append(ct);
                m.append("): ");
                let excerpt = response_excerpt(body);
                m.append(excerpt.as_str());
                Err(AiError::Message(m))
            },
        }
    } else {
        match parsed {
            Ok(v) => Ok(v),
            Err(e) => {
                let mut m = String::from_str(provider_name);
                m.append(" returned invalid JSON (HTTP ");
                m.append(status_text);
                m.append(", Content-Type: ");
                m.append(ct);
                m.append("): ");
                m.append(e.as_str());
                m.append("; response body: ");
                let excerpt = response_excerpt(body);
                m.append(excerpt.as_str());
                Err(AiError::Message(m))
            },
        }
    }
}

/// The error kept for a provider reply whose status is not a success: the
/// error of [`provider_reply`], or a plain message when that reply was
/// accepted after all.
pub fn unsuccessful_reply_error(reply: Result<JsonValue, AiError>) -> (r: AiError)
    ensures
        match reply {
            Err(e) => r == e,
            Ok(_) => r == AiError::Message(r->Message_0)
                && r->Message_0@ == "Provider returned an unsuccessful HTTP response"@,
        },
{
    match reply {
        Err(e) => e,
        Ok(_) => AiError::Message(String::from_str("Provider returned an unsuccessful HTTP response")),
    }
}

// ---------------------------------------------------------------------------
// Model lists
// ---------------------------------------------------------------------------

/// The value of an ASCII digit.
pub open spec fn digit_value(c: char) -> nat {
    ((c as u32) - ('0' as u32)) as nat
}

/// Every character is an ASCII digit, and there is at least one.
pub open spec fn all_digits(t: Seq<char>) -> bool {
    t.len() > 0 && forall|i: int| 0 <= i < t.len() ==> '0' <= #[trigger] t[i] <= '9'
}

/// The number written by decimal digits.
pub open spec fn digits_value(t: Seq<char>) -> nat
    decreases t.len(),
{
    if t.len() == 0 {
        0
    } else {
        digits_value(t.drop_last()) * 10 + digit_value(t.last())
    }
}

/// The unsigned integer a JSON number holds when it is one that fits in 64
/// bits (a number written with a sign, a fraction or an exponent is not).
pub open spec fn json_u64(v: Option<JsonValue>) -> Option<nat> {
    match v {
        Some(JsonValue::Number(t)) => if all_digits(t@) && digits_value(t@) <= u64::MAX {
            Some(digits_value(t@))
        } else {
            None
        },
        _ => None,
    }
}

/// A number never shrinks as digits are added.
pub proof fn lemma_digits_value_grows(t: Seq<char>, k: int)
    requires
        all_digits(t),
        0 <= k <= t.len(),
    ensures
        digits_value(t.take(k)) <= digits_value(t),
    decreases t.len() - k,
{
    if k < t.len() {
        let u = t.take(k + 1);
        assert(u.drop_last() =~= t.take(k));
        if k + 1 < t.len() {
            lemma_digits_value_grows(t, k + 1);
        } else {
            assert(u =~= t);
        }
    } else {
        assert(t.take(k) =~= t);
    }
}

/// The unsigned integer a JSON value holds (see [`json_u64`]).
#[verifier::loop_isolation(false)]
pub fn as_u64(v: Option<&JsonValue>) -> (r: Option<u64>)
    ensures
        match r {
            Some(n) => json_u64(
                match v {
                    Some(x) => Some(*x),
                    None => None,
                },
            ) == Some(n as nat),
            None => json_u64(
                match v {
                    Some(x) => Some(*x),
                    None => None,
                },
            ) is None,
        },
{
    let t = match v {
        Some(JsonValue::Number(t)) => t,
        _ => {
            return None;
        },
    };
    let c = chars_of(t.as_str());
    if c.len() == 0 {
        return None;
    }
    let mut value: u64 = 0;
    let mut i: usize = 0;
    while i < c.len()
        invariant
            i <= c@.len(),
            c@ == t@,
            c@.len() > 0,
            forall|j: int| 0 <= j < i ==> '0' <= #[trigger] c@[j] <= '9',
            value == digits_value(c@.take(i as int)),
        decreases c@.len() - i,
    {
        let ch = c[i];
        if !('0' <= ch && ch <= '9') {
            assert(!all_digits(c@)) by {
                assert(c@[i as int] == ch);
            }
            return None;
        }
        let d: u64 = (ch as u32 - '0' as u32) as u64;
        assert(c@.take(i + 1).drop_last() =~= c@.take(i as int));
        let next = match value.checked_mul(10) {
            Some(m) => m.checked_add(d),
            None => None,
        };
        match next {
            Some(n) => {
                value = n;
            },
            None => {
                proof {
                    assert(digit_value(c@[i as int]) == d);
                    assert(digits_value(c@.take(i + 1)) == value * 10 + d);
                    assert(digits_value(c@.take(i + 1)) > u64::MAX);
                    if all_digits(c@) {
                        lemma_digits_value_grows(c@, i + 1);
                    }
                }
                return None;
            },
        }
        i = i + 1;
    }
    assert(c@.take(c@.len() as int) =~= c@);
    Some(value)
}

/// The context size a model entry declares: `context_length`,
/// `context_window` or `max_model_len`, the first that holds an unsigned
/// integer, else `metadata.context_length`.
pub open spec fn model_context(item: JsonValue) -> Option<nat> {
    match json_u64(json_field(item, "context_length"@)) {
        Some(n) => Some(n),
        None => match json_u64(json_field(item, "context_window"@)) {
            Some(n) => Some(n),
            None => match json_u64(json_field(item, "max_model_len"@)) {
                Some(n) => Some(n),
                None => json_u64(nested_field(item, "metadata"@, "context_length"@)),
            },
        },
    }
}

/// A model entry as listed: its trimmed id and its context size (converted to
/// `usize`); entries without a non-blank string id are left out.
pub open spec fn listed_model(item: JsonValue) -> Option<(Seq<char>, Option<usize>)> {
    match field_text(item, "id"@) {
        Some(id) => if trim(id).len() > 0 {
            Some(
                (
                    trim(id),
                    match model_context(item) {
                        Some(n) => Some(n as usize),
                        None => None,
                    },
                ),
            )
        } else {
            None
        },
        None => None,
    }
}

/// The models listed among the first `n` entries.
pub open spec fn listed_models(items: Seq<JsonValue>, n: int) -> Seq<(Seq<char>, Option<usize>)>
    decreases n,
{
    if n <= 0 || n > items.len() {
        Seq::empty()
    } else {
        match listed_model(items[n - 1]) {
            Some(m) => listed_models(items, n - 1).push(m),
            None => listed_models(items, n - 1),
        }
    }
}

/// The view of a provider model.
pub open spec fn model_view(m: ProviderModel) -> (Seq<char>, Option<usize>) {
    (m.id@, m.context_size)
}

/// The models of a model list reply: the `data` array must be there, and at
/// least one usable model must be listed.
pub fn model_list(value: &JsonValue) -> (r: Result<Vec<ProviderModel>, AiError>)
    ensures
        match json_field(*value, "data"@) {
            Some(JsonValue::Array(items)) => {
                let models = listed_models(items@, items@.len() as int);
                if models.len() > 0 {
                    r is Ok && r->Ok_0@.map_values(|m: ProviderModel| model_view(m)) == models
                } else {
                    r is Err && r->Err_0 == AiError::Message(r->Err_0->Message_0)
                        && r->Err_0->Message_0@ == "The provider returned no usable models"@
                }
            },
            _ => r is Err && r->Err_0 == AiError::Message(r->Err_0->Message_0)
                && r->Err_0->Message_0@ == "Model discovery response did not contain data"@,
        },
{
    let items = match field(value, "data") {
        Some(JsonValue::Array(items)) => items,
        _ => {
            return Err(AiError::Message(String::from_str("Model discovery response did not contain data")));
        },
    };
    let mut models: Vec<ProviderModel> = Vec::new();
    let mut i: usize = 0;
    while i < items.len()
        invariant
            i <= items@.len(),
            models@.map_values(|m: ProviderModel| model_view(m)) == listed_models(items@, i as int),
        decreases items@.len() - i,
    {
        let item = &items[i];
        let ghost before = models@;
        match field_text_of(item, "id") {
            Some(id) => {
                let trimmed = crate::text::trim_str(id.as_str());
                if trimmed.as_str().is_empty() {
                    assert(listed_models(items@, i + 1) == listed_models(items@, i as int));
                } else {
                    let mut context = as_u64(field(item, "context_length"));
                    if context.is_none() {
                        context = as_u64(field(item, "context_window"));
                    }
                    if context.is_none() {
                        context = as_u64(field(item, "max_model_len"));
                    }
                    if context.is_none() {
                        context = as_u64(nested(item, "metadata", "context_length"));
                    }
                    let context_size = match context {
                        Some(n) => Some(n as usize),
                        None => None,
                    };
                    models.push(ProviderModel { id: trimmed, context_size });
                    assert(models@.map_values(|m: ProviderModel| model_view(m)) =~= before.map_values(
                        |m: ProviderModel| model_view(m),
                    ).push(model_view(models@.last())));
                }
            },
            None => {},
        }
        i = i + 1;
    }
    if models.len() == 0 {
        assert(listed_models(items@, items@.len() as int).len() == 0);
        return Err(AiError::Message(String::from_str("The provider returned no usable models")));
    }
    Ok(models)
}

// ---------------------------------------------------------------------------
// Requests
// ---------------------------------------------------------------------------

/// A member whose value is the string `text`.
pub open spec fn text_member(e: (String, JsonValue), key: Seq<char>, text: Seq<char>) -> bool {
    e.0@ == key && e.1 is Str && e.1->Str_0@ == text
}

/// A member whose value is the boolean `b`.
pub open spec fn bool_member(e: (String, JsonValue), key: Seq<char>, b: bool) -> bool {
    e.0@ == key && e.1 == JsonValue::Bool(b)
}

/// A member whose value is an object with the single string member `inner`.
pub open spec fn object_member(
    e: (String, JsonValue),
    key: Seq<char>,
    inner: Seq<char>,
    text: Seq<char>,
) -> bool {
    &&& e.0@ == key
    &&& e.1 is Object
    &&& e.1->Object_0@.len() == 1
    &&& text_member(e.1->Object_0@[0], inner, text)
}

/// A string member.
fn text_entry(key: &str, text: &str) -> (r: (String, JsonValue))
    ensures
        text_member(r, key@, text@),
{
    (String::from_str(key), JsonValue::Str(String::from_str(text)))
}

/// The body of a streamed text request: `model`, `instructions` (the system
/// message), `input` (the user message), `stream: true`, and `reasoning` with
/// the effort when one is requested.
pub fn responses_request_body(model: &str, system: &str, user: &str, reasoning_effort: &str) -> (r: JsonValue)
    ensures
        r is Object,
        ({
            let es = r->Object_0@;
            &&& text_member(es[0], "model"@, model@)
            &&& text_member(es[1], "instructions"@, system@)
            &&& text_member(es[2], "input"@, user@)
            &&& bool_member(es[3], "stream"@, true)
            &&& if reasoning_effort@.len() > 0 && reasoning_effort@ != "none"@ {
                es.len() == 5 && object_member(es[4], "reasoning"@, "effort"@, reasoning_effort@)
            } else {
                es.len() == 4
            }
        }),
{
    let mut es: Vec<(String, JsonValue)> = Vec::new();
    es.push(text_entry("model", model));
    es.push(text_entry("instructions", system));
    es.push(text_entry("input", user));
    es.push((String::from_str("stream"), JsonValue::Bool(true)));
    if crate::ai::reasoning_requested(reasoning_effort) {
        let mut inner: Vec<(String, JsonValue)> = Vec::new();
        inner.push(text_entry("effort", reasoning_effort));
        es.push((String::from_str("reasoning"), JsonValue::Object(inner)));
    }
    JsonValue::Object(es)
}

/// The reply text of a translation: trimmed, and refused when nothing is left.
pub fn translation_reply(response: Result<String, AiError>) -> (r: Result<String, AiError>)
    ensures
        match response {
            Err(e) => r == Err::<String, AiError>(e),
            Ok(t) => if trim(t@).len() == 0 {
                r is Err && r->Err_0 == AiError::Message(r->Err_0->Message_0)
                    && r->Err_0->Message_0@ == "The AI provider returned an empty response"@
            } else {
                r is Ok && r->Ok_0@ == trim(t@)
            },
        },
{
    match response {
        Err(e) => Err(e),
        Ok(t) => {
            let trimmed = crate::text::trim_str(t.as_str());
            if trimmed.as_str().is_empty() {
                Err(AiError::Message(String::from_str("The AI provider returned an empty response")))
            } else {
                Ok(trimmed)
            }
        },
    }
}

/// A text translation needs text: a blank text is refused before the
/// languages are checked.
pub fn check_translation_request(request: &TranslateRequest) -> (r: Result<(), AiError>)
    ensures
        trim(request.text@).len() == 0 ==> r is Err && r->Err_0 == AiError::Message(r->Err_0->Message_0)
            && r->Err_0->Message_0@ == "Text to translate is empty"@,
        trim(request.text@).len() > 0 ==> (r is Ok <==> crate::ai::languages_given(*request)),
        trim(request.text@).len() > 0 && r is Err ==> r->Err_0 == AiError::Message(r->Err_0->Message_0)
            && r->Err_0->Message_0@ == crate::ai::languages_message(),
{
    let text = crate::text::trim_str(request.text.as_str());
    if text.as_str().is_empty() {
        return Err(AiError::Message(String::from_str("Text to translate is empty")));
    }
    crate::ai::validate_languages(request)
}

/// The instruction for a document summary.
pub const SUMMARY_INSTRUCTION: &'static str = "Identify the source document's main topic and domain for a translator. Mention only the most important proper nouns, specialized terms, dates, numbers or references needed to understand the text. Keep it very short: this is a topic note, not a full summary. Do not translate the document, add a preamble, or include general commentary; return only the note.";

/// Whether an error text stands for success: empty, or the text of `()`.
pub open spec fn success_text(error_text: Seq<char>) -> bool {
    error_text.len() == 0 || error_text == "()"@
}

/// The record of one conversation with a provider. As the service keeps it,
/// the error text is recorded in both cases, empty on success.
pub fn conversation_log(
    id: String,
    timestamp: String,
    operation: &str,
    provider: &Provider,
    request: String,
    response: &str,
    duration_ms: u64,
    error_text: &str,
) -> (r: AiConversationLog)
    ensures
        r.id@ == id@,
        r.timestamp@ == timestamp@,
        r.operation@ == operation@,
        r.provider@ == provider.name@,
        r.model@ == provider.model@,
        r.request@ == request@,
        r.response@ == response@,
        r.duration_ms == duration_ms,
        r.success == success_text(error_text@),
        r.error is Some && r.error->Some_0@ == error_text@,
{
    let e = chars_of(error_text);
    let unit = chars_of("()");
    let success = e.len() == 0 || chars_equal(e.as_slice(), unit.as_slice());
    AiConversationLog {
        id,
        timestamp,
        operation: String::from_str(operation),
        provider: provider.name.clone(),
        model: provider.model.clone(),
        request,
        response: String::from_str(response),
        duration_ms,
        success,
        error: Some(String::from_str(error_text)),
    }
}

// ---------------------------------------------------------------------------
// Image requests
// ---------------------------------------------------------------------------

/// The image format asked of the provider for a file: `png`, `jpeg` or `webp`.
pub open spec fn image_format_spec(filename: Seq<char>) -> Option<Seq<char>> {
    let e = extension_of(filename);
    if e == "png"@ {
        Some("png"@)
    } else if e == "jpg"@ || e == "jpeg"@ {
        Some("jpeg"@)
    } else if e == "webp"@ {
        Some("webp"@)
    } else {
        None
    }
}

/// The image format asked of the provider for a file; other files are
/// refused.
pub fn image_output_format(filename: &str) -> (r: Result<String, AiError>)
    ensures
        match image_format_spec(filename@) {
            Some(f) => r is Ok && r->Ok_0@ == f,
            None => r is Err && r->Err_0 == AiError::Message(r->Err_0->Message_0)
                && r->Err_0->Message_0@ == "Unsupported image format"@,
        },
{
    let e = extension(filename);
    if is_ext(&e, "png") {
        Ok(String::from_str("png"))
    } else if is_ext(&e, "jpg") || is_ext(&e, "jpeg") {
        Ok(String::from_str("jpeg"))
    } else if is_ext(&e, "webp") {
        Ok(String::from_str("webp"))
    } else {
        Err(AiError::Message(String::from_str("Unsupported image format")))
    }
}

/// The signature a PNG file starts with.
pub open spec fn png_signature() -> Seq<u8> {
    seq![0x89u8, 0x50u8, 0x4eu8, 0x47u8, 0x0du8, 0x0au8, 0x1au8, 0x0au8]
}

/// The signature a JPEG file starts with.
pub open spec fn jpeg_signature() -> Seq<u8> {
    seq![0xffu8, 0xd8u8, 0xffu8]
}

/// `RIFF`, which a WebP file starts with.
pub open spec fn riff_tag() -> Seq<u8> {
    seq![0x52u8, 0x49u8, 0x46u8, 0x46u8]
}

/// `WEBP`, at bytes 8 to 11 of a WebP file.
pub open spec fn webp_tag() -> Seq<u8> {
    seq![0x57u8, 0x45u8, 0x42u8, 0x50u8]
}

/// The bytes start with `prefix`.
pub open spec fn bytes_start_with(bytes: Seq<u8>, prefix: Seq<u8>) -> bool {
    prefix.len() <= bytes.len() && bytes.take(prefix.len() as int) == prefix
}

/// The bytes are an image of the type the file name gives.
pub open spec fn image_format_matches_spec(filename: Seq<char>, bytes: Seq<u8>) -> bool {
    let e = extension_of(filename);
    if e == "png"@ {
        bytes_start_with(bytes, png_signature())
    } else if e == "jpg"@ || e == "jpeg"@ {
        bytes_start_with(bytes, jpeg_signature())
    } else if e == "webp"@ {
        bytes_start_with(bytes, riff_tag()) && bytes.len() >= 12 && bytes.subrange(8, 12) == webp_tag()
    } else {
        false
    }
}

fn starts_with_bytes(bytes: &[u8], prefix: &[u8], at: usize) -> (r: bool)
    requires
        at <= bytes@.len(),
    ensures
        r == (at + prefix@.len() <= bytes@.len() && bytes@.subrange(at as int, at + prefix@.len()) == prefix@),
{
    if prefix.len() > bytes.len() - at {
        return false;
    }
    let mut i: usize = 0;
    while i < prefix.len()
        invariant
            i <= prefix@.len(),
            at + prefix@.len() <= bytes@.len(),
            bytes@.len() == bytes.len(),
            forall|j: int| 0 <= j < i ==> bytes@[at + j] == prefix@[j],
        decreases prefix@.len() - i,
    {
        if bytes[at + i] != prefix[i] {
            assert(bytes@.subrange(at as int, at + prefix@.len())[i as int] != prefix@[i as int]);
            return false;
        }
        i = i + 1;
    }
    assert(bytes@.subrange(at as int, at + prefix@.len()) =~= prefix@);
    true
}

/// Whether the bytes are an image of the type the file name gives.
pub fn image_format_matches(filename: &str, bytes: &[u8]) -> (r: bool)
    ensures
        r == image_format_matches_spec(filename@, bytes@),
{
    let e = extension(filename);
    if is_ext(&e, "png") {
        let sig: [u8; 8] = [0x89, 0x50, 0x4e, 0x47, 0x0d, 0x0a, 0x1a, 0x0a];
        let r = starts_with_bytes(bytes, &sig, 0);
        assert(sig@ =~= png_signature());
        assert(bytes@.subrange(0, 8) =~= bytes@.take(8));
        r
    } else if is_ext(&e, "jpg") || is_ext(&e, "jpeg") {
        let sig: [u8; 3] = [0xff, 0xd8, 0xff];
        let r = starts_with_bytes(bytes, &sig, 0);
        assert(sig@ =~= jpeg_signature());
        assert(bytes@.subrange(0, 3) =~= bytes@.take(3));
        r
    } else if is_ext(&e, "webp") {
        let riff: [u8; 4] = [0x52, 0x49, 0x46, 0x46];
        let webp: [u8; 4] = [0x57, 0x45, 0x42, 0x50];
        assert(riff@ =~= riff_tag());
        assert(webp@ =~= webp_tag());
        assert(bytes@.subrange(0, 4) =~= bytes@.take(4));
        if !starts_with_bytes(bytes, &riff, 0) {
            return false;
        }
        if bytes.len() < 12 {
            return false;
        }
        starts_with_bytes(bytes, &webp, 8)
    } else {
        false
    }
}

/// What the `base64` crate's standard engine encodes bytes as.
pub uninterp spec fn base64_encoded(bytes: Seq<u8>) -> Seq<char>;

/// Encodes bytes as standard base64 with
/// `base64::engine::general_purpose::STANDARD`; the contract names the text
/// as [`base64_encoded`] of the bytes.
#[verifier::external_body]
pub fn encode_base64(bytes: &[u8]) -> (r: String)
    ensures
        r@ == base64_encoded(bytes@),
{
    base64::engine::general_purpose::STANDARD.encode(bytes)
}

/// The instruction sent with an image to translate.
pub open spec fn image_prompt(source_language: Seq<char>, target_language: Seq<char>) -> Seq<char> {
    "Translate every readable text element in this image from "@ + source_language + " to "@
        + target_language
        + ". Preserve all non-text pixels, composition, layout, visual style, font scale and colors. Replace the original text with the translation and return the edited image only."@
}

/// An image translation ready to be sent: its body, the text logged for it,
/// and the format asked for.
#[derive(Debug)]
pub struct ImageRequest {
    pub body: JsonValue,
    pub log_text: String,
    pub output_format: String,
}

/// The request text logged for an image translation.
pub open spec fn image_log_spec(filename: Seq<char>, mime: Seq<char>, size: nat, prompt: Seq<char>) -> Seq<char> {
    "IMAGE: "@ + filename + " ("@ + mime + ", "@ + crate::text::decimal(size) + " bytes)\n\nINSTRUCTION:\n"@
        + prompt
}

/// Prepares the translation of an image by a provider: the provider must take
/// images and the file must be a PNG, JPEG or WebP image. The body asks for
/// the image back, edited, in the same format: one user message holding the
/// instruction and the image as a `data:` URL, and the image generation tool.
pub fn image_request(provider: &Provider, request: &TranslateRequest, filename: &str, image: &[u8]) -> (r:
    Result<ImageRequest, AiError>)
    ensures
        !provider.supports_images ==> r is Err && r->Err_0 == AiError::Message(r->Err_0->Message_0)
            && r->Err_0->Message_0@ == "Selected provider does not support image input/output"@,
        provider.supports_images && image_format_spec(filename@) is None ==> r is Err
            && r->Err_0 == AiError::Message(r->Err_0->Message_0) && r->Err_0->Message_0@
            == "Unsupported image format"@,
        provider.supports_images && image_format_spec(filename@) is Some ==> r is Ok && ({
            let q = r->Ok_0;
            let prompt = image_prompt(request.source_language@, request.target_language@);
            let mime = guessed_media_type(filename@);
            let es = q.body->Object_0@;
            &&& q.output_format@ == image_format_spec(filename@)->Some_0
            &&& q.log_text@ == image_log_spec(filename@, mime, image@.len(), prompt)
            &&& q.body is Object && es.len() == 4
            &&& text_member(es[0], "model"@, provider.model@)
            &&& es[1].0@ == "input"@ && image_input(es[1].1, prompt, "data:"@ + mime + ";base64,"@
                + base64_encoded(image@))
            &&& es[2].0@ == "tools"@ && image_tools(es[2].1, q.output_format@)
            &&& bool_member(es[3], "stream"@, false)
        }),
{
    if !provider.supports_images {
        return Err(AiError::Message(String::from_str("Selected provider does not support image input/output")));
    }
    let output_format = match image_output_format(filename) {
        Ok(f) => f,
        Err(e) => {
            return Err(e);
        },
    };
    let mut prompt = String::from_str("Translate every readable text element in this image from ");
    prompt.append(request.source_language.as_str());
    prompt.append(" to ");
    prompt.append(request.target_language.as_str());
    prompt.append(
        ". Preserve all non-text pixels, composition, layout, visual style, font scale and colors. Replace the original text with the translation and return the edited image only.",
    );
    let mime = output_media_type(filename);
    let encoded = encode_base64(image);
    let mut url = String::from_str("data:");
    url.append(mime.as_str());
    url.append(";base64,");
    url.append(encoded.as_str());

    let mut parts: Vec<JsonValue> = Vec::new();
    let mut text_part: Vec<(String, JsonValue)> = Vec::new();
    text_part.push(text_entry("type", "input_text"));
    text_part.push(text_entry("text", prompt.as_str()));
    parts.push(JsonValue::Object(text_part));
    let mut image_part: Vec<(String, JsonValue)> = Vec::new();
    image_part.push(text_entry("type", "input_image"));
    image_part.push(text_entry("image_url", url.as_str()));
    parts.push(JsonValue::Object(image_part));
    let mut message: Vec<(String, JsonValue)> = Vec::new();
    message.push(text_entry("role", "user"));
    message.push((String::from_str("content"), JsonValue::Array(parts)));
    let mut input: Vec<JsonValue> = Vec::new();
    input.push(JsonValue::Object(message));

    let mut tool: Vec<(String, JsonValue)> = Vec::new();
    tool.push(text_entry("type", "image_generation"));
    tool.push(text_entry("output_format", output_format.as_str()));
    let mut tools: Vec<JsonValue> = Vec::new();
    tools.push(JsonValue::Object(tool));

    let mut es: Vec<(String, JsonValue)> = Vec::new();
    es.push(text_entry("model", provider.model.as_str()));
    es.push((String::from_str("input"), JsonValue::Array(input)));
    es.push((String::from_str("tools"), JsonValue::Array(tools)));
    es.push((String::from_str("stream"), JsonValue::Bool(false)));

    let size = crate::text::decimal_string(image.len() as u64);
    let mut log_text = String::from_str("IMAGE: ");
    log_text.append(filename);
    log_text.append(" (");
    log_text.append(mime.as_str());
    log_text.append(", ");
    log_text.append(size.as_str());
    log_text.append(" bytes)\n\nINSTRUCTION:\n");
    log_text.append(prompt.as_str());
    Ok(ImageRequest { body: JsonValue::Object(es), log_text, output_format })
}

/// The `input` of an image request: one user message whose content is the
/// instruction followed by the image URL.
pub open spec fn image_input(v: JsonValue, prompt: Seq<char>, url: Seq<char>) -> bool {
    &&& v is Array && v->Array_0@.len() == 1
    &&& {
        let m = v->Array_0@[0];
        &&& m is Object && m->Object_0@.len() == 2
        &&& text_member(m->Object_0@[0], "role"@, "user"@)
        &&& m->Object_0@[1].0@ == "content"@
        &&& {
            let c = m->Object_0@[1].1;
            &&& c is Array && c->Array_0@.len() == 2
            &&& c->Array_0@[0] is Object && c->Array_0@[0]->Object_0@.len() == 2
            &&& text_member(c->Array_0@[0]->Object_0@[0], "type"@, "input_text"@)
            &&& text_member(c->Array_0@[0]->Object_0@[1], "text"@, prompt)
            &&& c->Array_0@[1] is Object && c->Array_0@[1]->Object_0@.len() == 2
            &&& text_member(c->Array_0@[1]->Object_0@[0], "type"@, "input_image"@)
            &&& text_member(c->Array_0@[1]->Object_0@[1], "image_url"@, url)
        }
    }
}

/// The `tools` of an image request: image generation in the given format.
pub open spec fn image_tools(v: JsonValue, format: Seq<char>) -> bool {
    &&& v is Array && v->Array_0@.len() == 1
    &&& v->Array_0@[0] is Object && v->Array_0@[0]->Object_0@.len() == 2
    &&& text_member(v->Array_0@[0]->Object_0@[0], "type"@, "image_generation"@)
    &&& text_member(v->Array_0@[0]->Object_0@[1], "output_format"@, format)
}

/// The image a provider sent back: decoded from the reply, and of the format
/// that was asked for.
pub fn image_reply(reply: &JsonValue, filename: &str, output_format: &str) -> (r: Result<Vec<u8>, AiError>)
    ensures
        match encoded_image(*reply) {
            None => r is Err && r->Err_0 == AiError::Message(r->Err_0->Message_0)
                && r->Err_0->Message_0@ == missing_image_message(),
            Some(e) => match base64_decoded(image_payload(e)) {
                Ok(bytes) => if image_format_matches_spec(filename@, bytes) {
                    r is Ok && r->Ok_0@ == bytes
                } else {
                    r is Err && r->Err_0 == AiError::Message(r->Err_0->Message_0)
                        && r->Err_0->Message_0@ == "Image provider did not return the requested "@
                        + output_format@ + " format"@
                },
                Err(m) => r is Err && r->Err_0 == AiError::Message(r->Err_0->Message_0)
                    && r->Err_0->Message_0@ == "Responses API returned invalid image base64 data: "@
                    + m,
            },
        },
{
    let decoded = match decode_responses_image(reply) {
        Ok(d) => d,
        Err(e) => {
            return Err(e);
        },
    };
    if !image_format_matches(filename, decoded.as_slice()) {
        let mut m = String::from_str("Image provider did not return the requested ");
        m.append(output_format);
        m.append(" format");
        return Err(AiError::Message(m));
    }
    Ok(decoded)
}

// ---------------------------------------------------------------------------
// Connections and retries
// ---------------------------------------------------------------------------

/// How the HTTP client for a provider is set up: whether the system proxy is
/// ignored, the proxy to use, and the timeout in seconds (at least one) —
/// between chunks of a streamed reply, or for the whole request.
#[derive(Debug)]
pub struct ClientPlan {
    pub no_proxy: bool,
    pub proxy: Option<String>,
    pub timeout_seconds: u64,
    pub streaming: bool,
}

/// How the HTTP client for a provider is set up: without a proxy, through
/// the proxy of the settings (when one is given, trimmed), or through the
/// system's proxy.
pub fn client_plan(proxy_mode: crate::models::ProxyMode, proxy_url: &str, timeout_seconds: u64, streaming: bool) -> (r:
    ClientPlan)
    ensures
        r.timeout_seconds == if timeout_seconds < 1 {
            1
        } else {
            timeout_seconds
        },
        r.streaming == streaming,
        match proxy_mode {
            crate::models::ProxyMode::Direct => r.no_proxy && r.proxy is None,
            crate::models::ProxyMode::Settings => r.no_proxy && if trim(proxy_url@).len() == 0 {
                r.proxy is None
            } else {
                r.proxy is Some && r.proxy->Some_0@ == trim(proxy_url@)
            },
            crate::models::ProxyMode::System => !r.no_proxy && r.proxy is None,
        },
{
    let timeout = if timeout_seconds < 1 {
        1
    } else {
        timeout_seconds
    };
    let (no_proxy, proxy) = match proxy_mode {
        crate::models::ProxyMode::Direct => (true, None),
        crate::models::ProxyMode::Settings => {
            let url = crate::text::trim_str(proxy_url);
            if url.as_str().is_empty() {
                (true, None)
            } else {
                (true, Some(url))
            }
        },
        crate::models::ProxyMode::System => (false, None),
    };
    ClientPlan { no_proxy, proxy, timeout_seconds: timeout, streaming }
}

/// How a failed HTTP request went wrong.
#[derive(Debug, Clone, Copy)]
pub struct RequestFailure {
    pub timeout: bool,
    pub connect: bool,
    pub request: bool,
    pub body: bool,
    pub decode: bool,
}

/// The category named in the message of a failed request.
pub open spec fn failure_category(f: RequestFailure) -> Seq<char> {
    if f.timeout {
        "timeout"@
    } else if f.connect {
        "connect"@
    } else if f.body || f.decode {
        "response body"@
    } else if f.request {
        "request"@
    } else {
        "unknown"@
    }
}

/// The error of a failed request: `<operation> [<category>]: <details>`,
/// where the details are the error and its causes.
pub fn request_error(operation: &str, failure: RequestFailure, details: &str) -> (r: AiError)
    ensures
        r == AiError::Request(r->Request_0),
        r->Request_0@ == operation@ + " ["@ + failure_category(failure) + "]: "@ + details@,
{
    let category = if failure.timeout {
        "timeout"
    } else if failure.connect {
        "connect"
    } else if failure.body || failure.decode {
        "response body"
    } else if failure.request {
        "request"
    } else {
        "unknown"
    };
    let mut m = String::from_str(operation);
    m.append(" [");
    m.append(category);
    m.append("]: ");
    m.append(details);
    AiError::Request(m)
}

/// A failed request is tried again unless it timed out, when the connection,
/// the request, or the reply's body failed.
pub open spec fn retryable_spec(f: RequestFailure) -> bool {
    !f.timeout && (f.connect || f.request || f.body || f.decode)
}

/// How many times a request is tried at most.
pub const MAX_REQUEST_ATTEMPTS: usize = 3;

/// After attempt number `attempt` failed: the delay before trying again, in
/// milliseconds (250 per attempt), or `None` when the request is not tried
/// again.
pub fn request_retry_delay(failure: RequestFailure, attempt: usize) -> (r: Option<u64>)
    requires
        attempt >= 1,
    ensures
        retryable_spec(failure) && attempt < MAX_REQUEST_ATTEMPTS ==> r is Some && r->Some_0 == 250 * attempt,
        !(retryable_spec(failure) && attempt < MAX_REQUEST_ATTEMPTS) ==> r is None,
{
    if !failure.timeout && (failure.connect || failure.request || failure.body || failure.decode) && attempt
        < MAX_REQUEST_ATTEMPTS {
        Some(250 * attempt as u64)
    } else {
        None
    }
}

/// Takes the complete lines (each up to and with its line feed) from the
/// front of the bytes received so far; what is left has no line feed.
pub fn take_lines(pending: &mut Vec<u8>) -> (r: Vec<Vec<u8>>)
    ensures
        r@.map_values(|l: Vec<u8>| l@).fold_left(Seq::<u8>::empty(), |acc: Seq<u8>, l: Seq<u8>| acc + l)
            + final(pending)@ == old(pending)@,
        forall|i: int| 0 <= i < r@.len() ==> (#[trigger] r@[i])@.len() > 0 && r@[i]@.last() == 10u8
            && !r@[i]@.drop_last().contains(10u8),
        !final(pending)@.contains(10u8),
{
    let ghost original = pending@;
    let mut lines: Vec<Vec<u8>> = Vec::new();
    let mut start: usize = 0;
    let mut i: usize = 0;
    let ghost joined: Seq<u8> = Seq::empty();
    while i < pending.len()
        invariant
            start <= i <= pending@.len(),
            pending@ == original,
            lines@.map_values(|l: Vec<u8>| l@).fold_left(Seq::<u8>::empty(), |acc: Seq<u8>, l: Seq<u8>| acc + l)
                == original.take(start as int),
            forall|k: int| 0 <= k < lines@.len() ==> (#[trigger] lines@[k])@.len() > 0 && lines@[k]@.last() == 10u8
                && !lines@[k]@.drop_last().contains(10u8),
            forall|k: int| start <= k < i ==> original[k] != 10u8,
        decreases pending@.len() - i,
    {
        if pending[i] == 10 {
            let line = crate::xml::byte_range(pending.as_slice(), start, i + 1);
            let ghost before = lines@;
            lines.push(line);
            proof {
                let f = |acc: Seq<u8>, l: Seq<u8>| acc + l;
                let m = lines@.map_values(|l: Vec<u8>| l@);
                assert(m.drop_last() =~= before.map_values(|l: Vec<u8>| l@));
                assert(m.fold_left(Seq::<u8>::empty(), f) == m.drop_last().fold_left(Seq::<u8>::empty(), f) + m.last());
                assert(original.take(start as int) + original.subrange(start as int, i + 1) =~= original.take(i + 1));
                assert(line@.drop_last() =~= original.subrange(start as int, i as int));
                assert(!line@.drop_last().contains(10u8)) by {
                    if line@.drop_last().contains(10u8) {
                        let k = choose|k: int| 0 <= k < line@.drop_last().len() && line@.drop_last()[k] == 10u8;
                        assert(original[start + k] == 10u8);
                    }
                }
            }
            start = i + 1;
        }
        i = i + 1;
    }
    let rest = crate::xml::byte_range(pending.as_slice(), start, pending.len());
    proof {
        assert(original.take(start as int) + rest@ =~= original);
        assert(!rest@.contains(10u8)) by {
            if rest@.contains(10u8) {
                let k = choose|k: int| 0 <= k < rest@.len() && rest@[k] == 10u8;
                assert(original[start + k] == 10u8);
            }
        }
    }
    *pending = rest;
    lines
}

/// The content of a streamed reply once it has ended. The first error of a
/// line comes first; a reply that carried no text is refused.
pub fn stream_outcome(content: String, parse_error: Option<AiError>) -> (r: Result<String, AiError>)
    ensures
        match parse_error {
            Some(e) => r == Err::<String, AiError>(e),
            None => if content@.len() == 0 {
                r is Err && r->Err_0 == AiError::Message(r->Err_0->Message_0)
                    && r->Err_0->Message_0@ == "Responses API returned no output text"@
            } else {
                r == Ok::<String, AiError>(content)
            },
        },
{
    match parse_error {
        Some(e) => Err(e),
        None => if content.as_str().is_empty() {
            Err(AiError::Message(String::from_str("Responses API returned no output text")))
        } else {
            Ok(content)
        },
    }
}

} // verus!

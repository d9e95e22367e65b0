//! What the Web service decides: the address it serves at, the headers of a
//! download, the history entries it records, what an import holds, and the
//! status and message of each refusal.
use vstd::prelude::*;

use crate::ai::AiError;
use crate::json::JsonValue;
use crate::models::{HistoryEntry, Provider, TranslateRequest, TranslationResult};
use crate::store::StoreError;
use crate::text::{chars_of, contains_chars, contains_seq, decimal, decimal_string, string_from_chars};

verus! {

/// The address of the Web interface: `http://host:port`, with an IPv6 host
/// (one holding `:`) in brackets.
pub open spec fn web_url_spec(host: Seq<char>, port: u16) -> Seq<char> {
    if contains_seq(host, ":"@) {
        "http://["@ + host + "]:"@ + decimal(port as nat)
    } else {
        "http://"@ + host + ":"@ + decimal(port as nat)
    }
}

/// The address of the Web interface (see [`web_url_spec`]).
pub fn web_url(host: &str, port: u16) -> (r: String)
    ensures
        r@ == web_url_spec(host@, port),
{
    let ipv6 = contains_chars(chars_of(host).as_slice(), chars_of(":").as_slice());
    let p = decimal_string(port as u64);
    let mut r = if ipv6 {
        String::from_str("http://[")
    } else {
        String::from_str("http://")
    };
    r.append(host);
    if ipv6 {
        r.append("]:");
    } else {
        r.append(":");
    }
    r.append(p.as_str());
    r
}

/// A byte that stays as it is in a URL: an ASCII letter or digit, or one of
/// `.`, `-`, `_` and `~`.
pub open spec fn unreserved(b: u8) -> bool {
    (48 <= b <= 57) || (65 <= b <= 90) || (97 <= b <= 122) || b == 46 || b == 45 || b == 95 || b == 126
}

/// The upper-case hexadecimal digit of a value below 16.
pub open spec fn hex_digit(v: u8) -> char {
    if v < 10 {
        ((48 + v) as u8) as char
    } else {
        ((55 + v) as u8) as char
    }
}

/// How a byte is written in a URL: itself, or `%` and two hexadecimal digits.
pub open spec fn encoded_byte(b: u8) -> Seq<char> {
    if unreserved(b) {
        seq![b as char]
    } else {
        seq!['%', hex_digit(b / 16), hex_digit(b % 16)]
    }
}

/// Bytes percent-encoded for a URL.
pub open spec fn percent_encoded(bytes: Seq<u8>) -> Seq<char>
    decreases bytes.len(),
{
    if bytes.len() == 0 {
        Seq::empty()
    } else {
        percent_encoded(bytes.drop_last()) + encoded_byte(bytes.last())
    }
}

fn hex(v: u8) -> (c: char)
    requires
        v < 16,
    ensures
        c == hex_digit(v),
{
    if v < 10 {
        (48 + v) as char
    } else {
        (55 + v) as char
    }
}

/// Bytes percent-encoded for a URL (see [`percent_encoded`]).
pub fn percent_encode(bytes: &[u8]) -> (r: String)
    ensures
        r@ == percent_encoded(bytes@),
{
    let mut out: Vec<char> = Vec::new();
    let mut i: usize = 0;
    while i < bytes.len()
        invariant
            i <= bytes@.len(),
            out@ == percent_encoded(bytes@.take(i as int)),
        decreases bytes@.len() - i,
    {
        let b = bytes[i];
        proof {
            assert(bytes@.take(i + 1).drop_last() =~= bytes@.take(i as int));
            assert(bytes@.take(i + 1).last() == b);
        }
        let keep = (48 <= b && b <= 57) || (65 <= b && b <= 90) || (97 <= b && b <= 122) || b == 46 || b
            == 45 || b == 95 || b == 126;
        if keep {
            out.push(b as char);
        } else {
            out.push('%');
            out.push(hex(b / 16));
            out.push(hex(b % 16));
        }
        assert(out@ =~= percent_encoded(bytes@.take(i + 1)));
        i = i + 1;
    }
    assert(bytes@.take(bytes@.len() as int) =~= bytes@);
    string_from_chars(out.as_slice())
}

/// A character kept in the plain file name of a download: an ASCII letter
/// or digit, `.`, `-` or `_`; any other becomes `_`.
pub open spec fn fallback_char(c: char) -> char {
    if ('0' <= c <= '9') || ('A' <= c <= 'Z') || ('a' <= c <= 'z') || c == '.' || c == '-' || c == '_' {
        c
    } else {
        '_'
    }
}

/// The `Content-Disposition` of a download: an attachment with a plain
/// ASCII file name (`translation` when the name is empty) and the exact
/// name in UTF-8, percent-encoded.
pub open spec fn content_disposition_spec(filename: Seq<char>) -> Seq<char> {
    let fallback = filename.map_values(|c: char| fallback_char(c));
    "attachment; filename=\""@ + (if fallback.len() == 0 {
        "translation"@
    } else {
        fallback
    }) + "\"; filename*=UTF-8''"@ + percent_encoded(vstd::utf8::encode_utf8(filename))
}

/// The UTF-8 bytes of a string.
fn utf8_bytes(s: &str) -> (r: Vec<u8>)
    ensures
        r@ == vstd::utf8::encode_utf8(s@),
{
    vstd::slice::slice_to_vec(s.as_bytes())
}

/// The `Content-Disposition` of a download (see
/// [`content_disposition_spec`]).
pub fn content_disposition(filename: &str) -> (r: String)
    ensures
        r@ == content_disposition_spec(filename@),
{
    let chars = chars_of(filename);
    let mut fallback: Vec<char> = Vec::new();
    let mut i: usize = 0;
    while i < chars.len()
        invariant
            i <= chars@.len(),
            fallback@ == chars@.take(i as int).map_values(|c: char| fallback_char(c)),
        decreases chars@.len() - i,
    {
        let c = chars[i];
        let keep = ('0' <= c && c <= '9') || ('A' <= c && c <= 'Z') || ('a' <= c && c <= 'z') || c == '.' || c
            == '-' || c == '_';
        fallback.push(
            if keep {
                c
            } else {
                '_'
            },
        );
        assert(fallback@ =~= chars@.take(i + 1).map_values(|c: char| fallback_char(c)));
        i = i + 1;
    }
    assert(chars@.take(chars@.len() as int) =~= chars@);
    let mut r = String::from_str("attachment; filename=\"");
    if fallback.len() == 0 {
        r.append("translation");
    } else {
        let f = string_from_chars(fallback.as_slice());
        r.append(f.as_str());
    }
    r.append("\"; filename*=UTF-8''");
    let encoded = percent_encode(utf8_bytes(filename).as_slice());
    r.append(encoded.as_str());
    r
}

/// The name of an uploaded file: what follows its last `/` or `\`, or
/// `document` when the upload has no name.
pub open spec fn uploaded_name_spec(name: Option<Seq<char>>) -> Seq<char> {
    match name {
        None => "document"@,
        Some(n) => n.skip(last_separator(n, n.len() as int) + 1),
    }
}

/// The index of the last `/` or `\` before `end`, or -1.
pub open spec fn last_separator(n: Seq<char>, end: int) -> int
    decreases end,
{
    if end <= 0 || end > n.len() {
        -1
    } else if n[end - 1] == '/' || n[end - 1] == '\\' {
        end - 1
    } else {
        last_separator(n, end - 1)
    }
}

/// The name of an uploaded file (see [`uploaded_name_spec`]).
pub fn uploaded_filename(name: Option<&str>) -> (r: String)
    ensures
        r@ == uploaded_name_spec(
            match name {
                Some(n) => Some(n@),
                None => None,
            },
        ),
{
    match name {
        None => String::from_str("document"),
        Some(n) => {
            let chars = chars_of(n);
            let mut end: usize = chars.len();
            while end > 0 && chars[end - 1] != '/' && chars[end - 1] != '\\'
                invariant
                    end <= chars@.len(),
                    chars@ == n@,
                    last_separator(n@, n@.len() as int) == last_separator(n@, end as int),
                decreases end,
            {
                end = end - 1;
            }
            let tail = crate::text::slice_chars(chars.as_slice(), end, chars.len());
            assert(tail@ =~= n@.skip(last_separator(n@, n@.len() as int) + 1));
            string_from_chars(tail.as_slice())
        },
    }
}

// ---------------------------------------------------------------------------
// History
// ---------------------------------------------------------------------------

/// The history entry of a text translation, with the given id and time.
pub fn history_for_text(
    request: &TranslateRequest,
    result: &TranslationResult,
    id: String,
    created_at: String,
) -> (r: HistoryEntry)
    ensures
        r.id@ == id@,
        r.kind@ == "text"@,
        r.source_language@ == request.source_language@,
        r.target_language@ == request.target_language@,
        r.source_text@ == request.text@,
        r.translated_text@ == result.translated_text@,
        r.filename is None,
        r.provider@ == result.provider@,
        r.model@ == result.model@,
        r.created_at@ == created_at@,
{
    HistoryEntry {
        id,
        kind: String::from_str("text"),
        source_language: request.source_language.clone(),
        target_language: request.target_language.clone(),
        source_text: request.text.clone(),
        translated_text: result.translated_text.clone(),
        filename: None,
        provider: result.provider.clone(),
        model: result.model.clone(),
        created_at,
    }
}

/// The history entry of a file translation, with the given id and time: the
/// provider's id stands for the provider and the model is left empty.
pub fn history_for_file(request: &TranslateRequest, filename: &str, id: String, created_at: String) -> (r:
    HistoryEntry)
    ensures
        r.id@ == id@,
        r.kind@ == "file"@,
        r.source_language@ == request.source_language@,
        r.target_language@ == request.target_language@,
        r.source_text@.len() == 0,
        r.translated_text@.len() == 0,
        r.filename is Some && r.filename->Some_0@ == filename@,
        r.provider@ == request.provider_id@,
        r.model@.len() == 0,
        r.created_at@ == created_at@,
{
    HistoryEntry {
        id,
        kind: String::from_str("file"),
        source_language: request.source_language.clone(),
        target_language: request.target_language.clone(),
        source_text: String::new(),
        translated_text: String::new(),
        filename: Some(String::from_str(filename)),
        provider: request.provider_id.clone(),
        model: String::new(),
        created_at,
    }
}

// ---------------------------------------------------------------------------
// Refusals
// ---------------------------------------------------------------------------

/// A refused request: its HTTP status and message.
#[derive(Debug)]
pub struct ApiError {
    pub status: u16,
    pub message: String,
}

/// A bad request (400).
pub fn bad_request(message: &str) -> (r: ApiError)
    ensures
        r.status == 400 && r.message@ == message@,
{
    ApiError { status: 400, message: String::from_str(message) }
}

/// Something not found (404).
pub fn not_found(message: &str) -> (r: ApiError)
    ensures
        r.status == 404 && r.message@ == message@,
{
    ApiError { status: 404, message: String::from_str(message) }
}

/// A failure of the service itself (500).
pub fn internal(message: &str) -> (r: ApiError)
    ensures
        r.status == 500 && r.message@ == message@,
{
    ApiError { status: 500, message: String::from_str(message) }
}

/// A refusal of the store: invalid input is a bad request.
pub fn from_store(error: StoreError) -> (r: ApiError)
    ensures
        match error {
            StoreError::InvalidInput(m) => r.status == 400 && r.message@ == m@,
        },
{
    match error {
        StoreError::InvalidInput(m) => ApiError { status: 400, message: m },
    }
}

/// A failure of the AI provider: a bad gateway (502) with the error's text.
pub fn from_ai(error: &AiError) -> (r: ApiError)
    ensures
        r.status == 502 && r.message@ == error.display_spec(),
{
    ApiError { status: 502, message: error.display_text() }
}

// ---------------------------------------------------------------------------
// Imports and provider tests
// ---------------------------------------------------------------------------

/// What an import replaces.
#[derive(Debug, Clone, Copy, PartialEq, Eq, Structural)]
pub enum ImportKind {
    Glossaries,
    Prompts,
}

/// What an import replaces, by the name in its path; other names are
/// refused.
pub fn import_kind(kind: &str) -> (r: Result<ImportKind, ApiError>)
    ensures
        kind@ == "glossaries"@ ==> r == Ok::<ImportKind, ApiError>(ImportKind::Glossaries),
        kind@ == "prompts"@ ==> r == Ok::<ImportKind, ApiError>(ImportKind::Prompts),
        kind@ != "glossaries"@ && kind@ != "prompts"@ ==> r is Err && r->Err_0.status == 400
            && r->Err_0.message@ == "Unknown import type"@,
{
    proof {
        reveal_strlit("glossaries");
        reveal_strlit("prompts");
        assert("prompts"@.len() != "glossaries"@.len());
    }
    let k = chars_of(kind);
    if crate::text::chars_equal(k.as_slice(), chars_of("glossaries").as_slice()) {
        Ok(ImportKind::Glossaries)
    } else if crate::text::chars_equal(k.as_slice(), chars_of("prompts").as_slice()) {
        Ok(ImportKind::Prompts)
    } else {
        Err(bad_request("Unknown import type"))
    }
}

/// The items of an import: the body itself when it is an array, else the
/// member named `field` of an export object (taken out of it).
pub fn import_items(body: JsonValue, field: &str) -> (r: Result<JsonValue, ApiError>)
    ensures
        match body {
            JsonValue::Array(_) => r == Ok::<JsonValue, ApiError>(body),
            JsonValue::Object(_) => match crate::responses::json_field(body, field@) {
                Some(v) => r == Ok::<JsonValue, ApiError>(v),
                None => r is Err && r->Err_0.status == 400 && r->Err_0.message@ == "Expected a '"@
                    + field@ + "' array"@,
            },
            _ => r is Err && r->Err_0.status == 400 && r->Err_0.message@
                == "Expected a JSON array or export object"@,
        },
{
    match body {
        JsonValue::Array(items) => Ok(JsonValue::Array(items)),
        JsonValue::Object(entries) => {
            let ghost whole = JsonValue::Object(entries);
            assert(whole == body);
            assert(entries@.len() == entries.len());
            let ghost names = crate::responses::member_names(entries@);
            let k = chars_of(field);
            let mut rest = entries;
            let mut i: usize = 0;
            while rest.len() > 0
                invariant
                    names == crate::responses::member_names(whole->Object_0@),
                    whole is Object,
                    i + rest@.len() == whole->Object_0@.len(),
                    whole->Object_0@.len() <= usize::MAX,
                    whole == body,
                    rest@ == whole->Object_0@.skip(i as int),
                    k@ == field@,
                    forall|j: int| 0 <= j < i ==> names[j] != field@,
                decreases rest@.len(),
            {
                let (name, value) = rest.remove(0);
                assert(names[i as int] == name@);
                if crate::text::chars_equal(chars_of(name.as_str()).as_slice(), k.as_slice()) {
                    proof {
                        crate::store::lemma_first_key_index_unique(names, field@, i as int);
                        assert(whole->Object_0@[i as int] == (name, value));
                    }
                    return Ok(value);
                }
                assert(rest@ =~= whole->Object_0@.skip(i + 1));
                i = i + 1;
            }
            proof {
                crate::store::lemma_first_key_index_unique(names, field@, -1);
            }
            let mut m = String::from_str("Expected a '");
            m.append(field);
            m.append("' array");
            Err(ApiError { status: 400, message: m })
        },
        _ => Err(bad_request("Expected a JSON array or export object")),
    }
}

/// The request that tests a provider: `Reply with OK only.` from English to
/// English, with no prompt, glossary, reasoning or summary.
pub fn provider_test_request(provider_id: &str) -> (r: TranslateRequest)
    ensures
        r.text@ == "Reply with OK only."@,
        r.source_language@ == "English"@,
        r.target_language@ == "English"@,
        r.provider_id@ == provider_id@,
        r.prompt_id is None,
        r.glossary_ids@.len() == 0,
        r.reasoning_effort@ == "none"@,
        !r.summarize,
        r.context_summary is None,
{
    TranslateRequest {
        text: String::from_str("Reply with OK only."),
        source_language: String::from_str("English"),
        target_language: String::from_str("English"),
        provider_id: String::from_str(provider_id),
        prompt_id: None,
        glossary_ids: Vec::new(),
        reasoning_effort: crate::models::default_reasoning_effort(),
        summarize: false,
        context_summary: None,
    }
}

/// The provider to test, by id; an unknown id is a bad request.
pub fn provider_to_test(providers: &Vec<Provider>, id: &str) -> (r: Result<Provider, ApiError>)
    ensures
        ({
            let i = crate::ai::first_provider_index(providers@, id@);
            if i >= 0 {
                r == Ok::<Provider, ApiError>(providers@[i])
            } else {
                r is Err && r->Err_0.status == 400 && r->Err_0.message@ == "Provider was not found"@
            }
        }),
{
    proof {
        crate::ai::lemma_first_provider_index(providers@, id@);
    }
    match crate::ai::find_provider(providers, id) {
        Some(i) => Ok(providers[i].duplicate()),
        None => Err(bad_request("Provider was not found")),
    }
}

/// The message of a provider that answered its test.
pub fn provider_test_message(name: &str) -> (r: String)
    ensures
        r@ == name@ + " responded successfully"@,
{
    crate::text::concat_str(name, " responded successfully")
}

// ---------------------------------------------------------------------------
// Dropped files
// ---------------------------------------------------------------------------

/// The largest file accepted, in bytes (75 MiB).
pub const MAX_FILE_BYTES: u64 = 78643200;

/// Whether a dropped path can be read as a file: it must be a file of at
/// most [`MAX_FILE_BYTES`] bytes.
pub fn dropped_file_check(is_file: bool, size: u64) -> (r: Result<(), String>)
    ensures
        !is_file ==> r is Err && r->Err_0@ == "Dropped path is not a file"@,
        is_file && size > MAX_FILE_BYTES ==> r is Err && r->Err_0@ == "Dropped file exceeds the 75 MB limit"@,
        is_file && size <= MAX_FILE_BYTES ==> r is Ok,
{
    if !is_file {
        return Err(String::from_str("Dropped path is not a file"));
    }
    if size > MAX_FILE_BYTES {
        return Err(String::from_str("Dropped file exceeds the 75 MB limit"));
    }
    Ok(())
}

/// A dropped file as the desktop shell hands it on: its name (`document`
/// when it has none) and its bytes in base64.
#[derive(Debug)]
pub struct DroppedFile {
    pub name: String,
    pub content_base64: String,
}

/// A dropped file as the desktop shell hands it on.
pub fn dropped_file(name: Option<&str>, bytes: &[u8]) -> (r: DroppedFile)
    ensures
        r.name@ == match name {
            Some(n) => n@,
            None => "document"@,
        },
        r.content_base64@ == crate::responses::base64_encoded(bytes@),
{
    DroppedFile {
        name: String::from_str(
            match name {
                Some(n) => n,
                None => "document",
            },
        ),
        content_base64: crate::responses::encode_base64(bytes),
    }
}

} // verus!

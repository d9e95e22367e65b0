//! What the AI client decides and computes: request validation, prompt
//! rendering, the batch format and the handling of provider replies.
//! Sending the HTTP requests is the application's part.
use vstd::prelude::*;

use crate::models::{AppData, Glossary, GlossaryEntry, PromptTemplate, Provider, TranslateRequest};
use crate::text::{
    lemma_join_front,
    all_ws, chars_equal, find_from, match_at, chars_of, concat_str, contains_chars, contains_seq, decimal,
    decimal_string, ends_with_chars, ends_with_seq, is_blank, is_whitespace, is_ws, join_chars,
    join_seq, normalize_newline_chars, normalize_newlines, push_str_chars, replace_chars,
    replace_seq, slice_chars, split_chars, split_seq, string_from_chars, trim, trim_chars,
    trim_str,
};

verus! {

/// An error of an AI operation.
#[derive(Debug)]
pub enum AiError {
    /// A plain message for the user.
    Message(String),
    /// The HTTP request to the provider failed.
    Request(String),
    /// The provider's batch reply did not have the expected shape.
    BatchFormat(String),
}

impl AiError {
    /// The text the error displays.
    pub open spec fn display_spec(&self) -> Seq<char> {
        match self {
            AiError::Message(m) => m@,
            AiError::Request(m) => "Network request failed: "@ + m@,
            AiError::BatchFormat(m) => "AI response format error: "@ + m@,
        }
    }

    /// The text the error displays.
    pub fn display_text(&self) -> (r: String)
        ensures
            r@ == self.display_spec(),
    {
        match self {
            AiError::Message(m) => m.clone(),
            AiError::Request(m) => concat_str("Network request failed: ", m.as_str()),
            AiError::BatchFormat(m) => concat_str("AI response format error: ", m.as_str()),
        }
    }
}

/// The line that separates the segments of a batch, in requests and replies.
pub const SEGMENT_SEPARATOR: &'static str = "\n---TRANOVA-SEGMENT-7F3A---\n";

/// The number of characters a document summary keeps before it is cut.
pub const MAX_DOCUMENT_SUMMARY_CHARS: usize = 512;

/// The characters of [`SEGMENT_SEPARATOR`].
pub open spec fn segment_separator() -> Seq<char> {
    "\n---TRANOVA-SEGMENT-7F3A---\n"@
}

/// The separator without its surrounding line feeds.
pub open spec fn segment_marker() -> Seq<char> {
    "---TRANOVA-SEGMENT-7F3A---"@
}

/// The separator as characters.
pub fn separator_chars() -> (v: Vec<char>)
    ensures
        v@ == segment_separator(),
        v@.len() == 28,
{
    proof {
        reveal_strlit("\n---TRANOVA-SEGMENT-7F3A---\n");
    }
    chars_of(SEGMENT_SEPARATOR)
}

/// The separator marker as characters.
pub fn marker_chars() -> (v: Vec<char>)
    ensures
        v@ == segment_marker(),
        v@.len() == 26,
{
    proof {
        reveal_strlit("---TRANOVA-SEGMENT-7F3A---");
    }
    chars_of("---TRANOVA-SEGMENT-7F3A---")
}

/// Whether `text`, with its line endings normalized, contains the segment
/// separator; such a segment cannot be sent in a batch.
pub fn contains_segment_separator(text: &str) -> (r: bool)
    ensures
        r == contains_seq(normalize_newlines(text@), segment_separator()),
{
    let chars = chars_of(text);
    let normalized = normalize_newline_chars(chars.as_slice());
    let sep = separator_chars();
    contains_chars(normalized.as_slice(), sep.as_slice())
}

// ---------------------------------------------------------------------------
// The batch format
// ---------------------------------------------------------------------------

/// The trimmed pieces of a batch reply: the reply's line endings are
/// normalized, it is split at every separator, each piece is trimmed, and an
/// empty last piece (a trailing separator) is dropped.
pub open spec fn batch_pieces(response: Seq<char>) -> Seq<Seq<char>> {
    let parts = split_seq(normalize_newlines(response), segment_separator()).map_values(
        |p: Seq<char>| trim(p),
    );
    if parts.len() > 0 && parts.last().len() == 0 {
        parts.drop_last()
    } else {
        parts
    }
}

/// A reply is accepted when it has exactly one non-empty piece per segment.
pub open spec fn batch_pieces_ok(pieces: Seq<Seq<char>>, expected: nat) -> bool {
    pieces.len() == expected && forall|i: int| 0 <= i < pieces.len() ==> pieces[i].len() > 0
}

/// The message of a reply with the wrong number of pieces.
pub open spec fn batch_count_message(found: nat, expected: nat) -> Seq<char> {
    "AI returned "@ + decimal(found) + " separated segments for "@ + decimal(expected)
        + " input segments"@
}

fn count_message(found: usize, expected: usize) -> (m: String)
    ensures
        m@ == batch_count_message(found as nat, expected as nat),
{
    let a = decimal_string(found as u64);
    let b = decimal_string(expected as u64);
    let mut m = String::from_str("AI returned ");
    m.append(a.as_str());
    m.append(" separated segments for ");
    m.append(b.as_str());
    m.append(" input segments");
    m
}

/// Splits a batch reply into the translations of `expected` segments.
pub fn parse_batch_response(response: &str, expected: usize) -> (r: Result<Vec<String>, AiError>)
    ensures
        match r {
            Ok(v) => batch_pieces_ok(batch_pieces(response@), expected as nat) && v@.map_values(
                |s: String| s@,
            ) == batch_pieces(response@),
            Err(AiError::BatchFormat(m)) => !batch_pieces_ok(batch_pieces(response@), expected as nat)
                && m@ == batch_count_message(batch_pieces(response@).len(), expected as nat),
            Err(_) => false,
        },
{
    let chars = chars_of(response);
    let normalized = normalize_newline_chars(chars.as_slice());
    let sep = separator_chars();
    let raw = split_chars(normalized.as_slice(), sep.as_slice());
    let ghost raw_view = raw@.map_values(|p: Vec<char>| p@);
    let ghost parts = raw_view.map_values(|p: Seq<char>| trim(p));
    let mut pieces: Vec<Vec<char>> = Vec::new();
    let mut i: usize = 0;
    while i < raw.len()
        invariant
            i <= raw@.len(),
            raw_view == raw@.map_values(|p: Vec<char>| p@),
            parts == raw_view.map_values(|p: Seq<char>| trim(p)),
            pieces@.map_values(|p: Vec<char>| p@) == parts.take(i as int),
        decreases raw@.len() - i,
    {
        let t = trim_chars(raw[i].as_slice());
        let ghost before = pieces@;
        pieces.push(t);
        proof {
            assert(pieces@.map_values(|p: Vec<char>| p@) =~= before.map_values(|p: Vec<char>| p@).push(t@));
            assert(parts.take(i + 1) =~= parts.take(i as int).push(parts[i as int]));
        }
        i = i + 1;
    }
    assert(parts.take(raw@.len() as int) =~= parts);
    assert(parts == batch_pieces_parts(response@));
    if pieces.len() > 0 && pieces[pieces.len() - 1].len() == 0 {
        let ghost before = pieces@;
        pieces.pop();
        proof {
            assert(pieces@.map_values(|p: Vec<char>| p@) =~= before.map_values(|p: Vec<char>| p@).drop_last());
        }
    }
    let ghost pv = pieces@.map_values(|p: Vec<char>| p@);
    assert(pv == batch_pieces(response@));
    let mut all_nonempty = true;
    let mut k: usize = 0;
    while k < pieces.len()
        invariant
            k <= pieces@.len(),
            pv == pieces@.map_values(|p: Vec<char>| p@),
            all_nonempty == (forall|j: int| 0 <= j < k ==> pv[j].len() > 0),
        decreases pieces@.len() - k,
    {
        assert(pv[k as int] == pieces@[k as int]@);
        if pieces[k].len() == 0 {
            all_nonempty = false;
        }
        k = k + 1;
    }
    if pieces.len() != expected || !all_nonempty {
        return Err(AiError::BatchFormat(count_message(pieces.len(), expected)));
    }
    let mut out: Vec<String> = Vec::new();
    let mut j: usize = 0;
    while j < pieces.len()
        invariant
            j <= pieces@.len(),
            pv == pieces@.map_values(|p: Vec<char>| p@),
            out@.map_values(|s: String| s@) == pv.take(j as int),
        decreases pieces@.len() - j,
    {
        let s = string_from_chars(pieces[j].as_slice());
        let ghost before = out@;
        out.push(s);
        proof {
            assert(out@.map_values(|s: String| s@) =~= before.map_values(|s: String| s@).push(s@));
            assert(pv.take(j + 1) =~= pv.take(j as int).push(pv[j as int]));
        }
        j = j + 1;
    }
    assert(pv.take(pieces@.len() as int) =~= pv);
    Ok(out)
}

/// The trimmed pieces of a batch reply before a trailing empty piece is dropped.
pub open spec fn batch_pieces_parts(response: Seq<char>) -> Seq<Seq<char>> {
    split_seq(normalize_newlines(response), segment_separator()).map_values(|p: Seq<char>| trim(p))
}

/// The user input of a batch: the segments joined by the separator.
pub open spec fn batch_input(texts: Seq<Seq<char>>) -> Seq<char> {
    join_seq(texts, segment_separator())
}

/// The system instruction that tells the model how to answer a batch.
pub open spec fn batch_instruction_spec(count: nat) -> Seq<char> {
    "The user input contains "@ + decimal(count)
        + " independent segments separated by the exact delimiter below. Translate every segment in order. Return only the translated segments in the same order, separated by the exact delimiter. Do not add labels, numbering, markdown or commentary.\n\nDELIMITER:\n"@
        + segment_separator()
}

/// The system instruction that tells the model how to answer a batch of
/// `count` segments.
pub fn batch_instruction(count: usize) -> (r: String)
    ensures
        r@ == batch_instruction_spec(count as nat),
{
    let n = decimal_string(count as u64);
    let mut r = String::from_str("The user input contains ");
    r.append(n.as_str());
    r.append(
        " independent segments separated by the exact delimiter below. Translate every segment in order. Return only the translated segments in the same order, separated by the exact delimiter. Do not add labels, numbering, markdown or commentary.\n\nDELIMITER:\n",
    );
    r.append(SEGMENT_SEPARATOR);
    r
}

/// A batch request and its extra instruction, ready to be sent.
#[derive(Debug)]
pub struct BatchPlan {
    pub request: TranslateRequest,
    pub instruction: String,
}

/// Some segment holds the separator once its line endings are normalized.
pub open spec fn any_holds_separator(texts: Seq<String>) -> bool {
    exists|i: int|
        0 <= i < texts.len() && contains_seq(
            normalize_newlines(#[trigger] texts[i]@),
            segment_separator(),
        )
}

/// What `translate_batch` does before it calls the provider: an empty batch
/// needs no call (`Ok(None)`); otherwise the languages are checked, every
/// segment must be free of the separator, and the request's text becomes
/// the segments joined by the separator.
pub fn prepare_batch(request: &TranslateRequest, texts: &Vec<String>) -> (r: Result<
    Option<BatchPlan>,
    AiError,
>)
    ensures
        texts@.len() == 0 ==> r matches Ok(None),
        texts@.len() > 0 ==> match r {
            Ok(None) => false,
            Ok(Some(plan)) => {
                &&& languages_given(*request)
                &&& !any_holds_separator(texts@)
                &&& plan.request.text@ == batch_input(texts@.map_values(|s: String| s@))
                &&& plan.request.source_language == request.source_language
                &&& plan.request.target_language == request.target_language
                &&& plan.request.provider_id == request.provider_id
                &&& plan.request.prompt_id == request.prompt_id
                &&& plan.request.glossary_ids@ == request.glossary_ids@
                &&& plan.request.reasoning_effort == request.reasoning_effort
                &&& plan.request.summarize == request.summarize
                &&& plan.request.context_summary == request.context_summary
                &&& plan.instruction@ == batch_instruction_spec(texts@.len())
            },
            Err(AiError::Message(m)) => !languages_given(*request) && m@ == languages_message(),
            Err(AiError::BatchFormat(m)) => languages_given(*request) && any_holds_separator(
                texts@,
            ) && m@ == "A source segment contains the batch separator"@,
            Err(_) => false,
        },
{
    if texts.len() == 0 {
        return Ok(None);
    }
    validate_languages(request)?;
    let mut i: usize = 0;
    while i < texts.len()
        invariant
            i <= texts@.len(),
            languages_given(*request),
            forall|j: int|
                0 <= j < i ==> !contains_seq(
                    normalize_newlines(#[trigger] texts@[j]@),
                    segment_separator(),
                ),
        decreases texts@.len() - i,
    {
        if contains_segment_separator(texts[i].as_str()) {
            proof {
                assert(contains_seq(normalize_newlines(texts@[i as int]@), segment_separator()));
                assert(any_holds_separator(texts@));
            }
            return Err(
                AiError::BatchFormat(
                    String::from_str("A source segment contains the batch separator"),
                ),
            );
        }
        i = i + 1;
    }
    let mut parts: Vec<Vec<char>> = Vec::new();
    let mut k: usize = 0;
    while k < texts.len()
        invariant
            k <= texts@.len(),
            parts@.map_values(|p: Vec<char>| p@) == texts@.map_values(|s: String| s@).take(
                k as int,
            ),
        decreases texts@.len() - k,
    {
        let c = chars_of(texts[k].as_str());
        let ghost before = parts@;
        parts.push(c);
        proof {
            assert(parts@.map_values(|p: Vec<char>| p@) =~= before.map_values(|p: Vec<char>| p@).push(c@));
            assert(texts@.map_values(|s: String| s@).take(k + 1) =~= texts@.map_values(
                |s: String| s@,
            ).take(k as int).push(texts@[k as int]@));
        }
        k = k + 1;
    }
    assert(texts@.map_values(|s: String| s@).take(texts@.len() as int) =~= texts@.map_values(
        |s: String| s@,
    ));
    let sep = separator_chars();
    let joined = join_chars(&parts, sep.as_slice());
    let mut batch_request = request.duplicate();
    batch_request.text = string_from_chars(joined.as_slice());
    Ok(Some(BatchPlan { request: batch_request, instruction: batch_instruction(texts.len()) }))
}

// ---------------------------------------------------------------------------
// Requests
// ---------------------------------------------------------------------------

/// Both languages of a request are given (not blank).
pub open spec fn languages_given(request: TranslateRequest) -> bool {
    trim(request.source_language@).len() > 0 && trim(request.target_language@).len() > 0
}

/// The message of a request without languages.
pub open spec fn languages_message() -> Seq<char> {
    "Source and target languages are required"@
}

/// A request must name both its source and its target language.
pub fn validate_languages(request: &TranslateRequest) -> (r: Result<(), AiError>)
    ensures
        match r {
            Ok(()) => languages_given(*request),
            Err(AiError::Message(m)) => !languages_given(*request) && m@ == languages_message(),
            Err(_) => false,
        },
{
    let source = trim_str(request.source_language.as_str());
    let target = trim_str(request.target_language.as_str());
    if source.as_str().is_empty() || target.as_str().is_empty() {
        proof {
            assert(source@.len() == 0 || target@.len() == 0);
        }
        return Err(AiError::Message(String::from_str("Source and target languages are required")));
    }
    proof {
        assert(source@.len() > 0 && target@.len() > 0) by {
            if source@.len() == 0 {
            }
        }
    }
    Ok(())
}

/// The index of the first provider with the given id, or -1.
pub open spec fn first_provider_index(providers: Seq<Provider>, id: Seq<char>) -> int
    decreases providers.len(),
{
    if providers.len() == 0 {
        -1
    } else {
        let i = first_provider_index(providers.drop_last(), id);
        if i >= 0 {
            i
        } else if providers.last().id@ == id {
            providers.len() - 1
        } else {
            -1
        }
    }
}

/// Facts about `first_provider_index`.
pub proof fn lemma_first_provider_index(providers: Seq<Provider>, id: Seq<char>)
    ensures
        -1 <= first_provider_index(providers, id) < providers.len(),
        first_provider_index(providers, id) >= 0 ==> providers[first_provider_index(
            providers,
            id,
        )].id@ == id,
        forall|j: int|
            0 <= j < providers.len() && (first_provider_index(providers, id) < 0 || j
                < first_provider_index(providers, id)) ==> providers[j].id@ != id,
    decreases providers.len(),
{
    if providers.len() > 0 {
        let p = providers.drop_last();
        lemma_first_provider_index(p, id);
        assert forall|j: int|
            0 <= j < providers.len() && (first_provider_index(providers, id) < 0 || j
                < first_provider_index(providers, id)) implies providers[j].id@ != id by {
            if j < providers.len() - 1 {
                assert(providers[j] == p[j]);
            }
        }
    }
}

/// The index of the first provider with the given id.
pub fn find_provider(providers: &Vec<Provider>, id: &str) -> (r: Option<usize>)
    ensures
        match r {
            Some(i) => first_provider_index(providers@, id@) == i,
            None => first_provider_index(providers@, id@) < 0,
        },
{
    proof {
        lemma_first_provider_index(providers@, id@);
    }
    let idc = chars_of(id);
    let mut i: usize = 0;
    while i < providers.len()
        invariant
            i <= providers@.len(),
            idc@ == id@,
            forall|j: int| 0 <= j < i ==> providers@[j].id@ != id@,
        decreases providers@.len() - i,
    {
        let pid = chars_of(providers[i].id.as_str());
        if chars_equal(pid.as_slice(), idc.as_slice()) {
            proof {
                lemma_first_provider_index(providers@, id@);
                if first_provider_index(providers@, id@) < i {
                }
            }
            return Some(i);
        }
        i = i + 1;
    }
    None
}

impl Provider {
    /// A copy of this provider.
    pub fn duplicate(&self) -> (r: Provider)
        ensures
            r == *self,
    {
        Provider {
            id: self.id.clone(),
            name: self.name.clone(),
            base_url: self.base_url.clone(),
            model: self.model.clone(),
            reasoning_parser: self.reasoning_parser,
            api_key: self.api_key.clone(),
            proxy_mode: self.proxy_mode,
            enabled: self.enabled,
            supports_images: self.supports_images,
            context_size: self.context_size,
            max_segments: self.max_segments,
            max_concurrent: self.max_concurrent,
            text_translation_model: self.text_translation_model,
        }
    }
}

/// The message of a missing or disabled provider.
pub open spec fn provider_unavailable_message() -> Seq<char> {
    "Selected AI provider does not exist or is disabled"@
}

/// The first provider with the given id, when it is enabled.
pub fn enabled_provider(data: &AppData, id: &str) -> (r: Result<Provider, AiError>)
    ensures
        ({
            let i = first_provider_index(data.providers@, id@);
            match r {
                Ok(p) => i >= 0 && data.providers@[i].enabled && p == data.providers@[i],
                Err(AiError::Message(m)) => (i < 0 || !data.providers@[i].enabled) && m@
                    == provider_unavailable_message(),
                Err(_) => false,
            }
        }),
{
    proof {
        lemma_first_provider_index(data.providers@, id@);
    }
    match find_provider(&data.providers, id) {
        Some(i) => {
            if data.providers[i].enabled {
                Ok(data.providers[i].duplicate())
            } else {
                Err(
                    AiError::Message(
                        String::from_str("Selected AI provider does not exist or is disabled"),
                    ),
                )
            }
        },
        None => Err(
            AiError::Message(
                String::from_str("Selected AI provider does not exist or is disabled"),
            ),
        ),
    }
}

/// The request of a document summary: the request's settings (reasoning
/// effort included) with the sample text and no earlier context summary.
pub fn document_summary_request(request: &TranslateRequest, text: &str) -> (r: TranslateRequest)
    ensures
        r.text@ == text@,
        r.context_summary.is_none(),
        r.source_language == request.source_language,
        r.target_language == request.target_language,
        r.provider_id == request.provider_id,
        r.prompt_id == request.prompt_id,
        r.glossary_ids@ == request.glossary_ids@,
        r.reasoning_effort == request.reasoning_effort,
        r.summarize == request.summarize,
{
    let mut summary_request = request.duplicate();
    summary_request.text = String::from_str(text);
    summary_request.context_summary = None;
    summary_request
}

/// The index of the last whitespace character of `s`, or -1.
pub open spec fn last_ws_index(s: Seq<char>) -> int
    decreases s.len(),
{
    if s.len() == 0 {
        -1
    } else if is_ws(s.last()) {
        s.len() - 1
    } else {
        last_ws_index(s.drop_last())
    }
}

/// A document summary as it is kept: trimmed, and when longer than
/// [`MAX_DOCUMENT_SUMMARY_CHARS`] characters, cut at the last whitespace of
/// its first 512 characters and ended with `...`.
pub open spec fn truncated_summary(summary: Seq<char>) -> Seq<char> {
    let s = trim(summary);
    if s.len() <= 512 {
        s
    } else {
        let t = s.take(512);
        let k = last_ws_index(t);
        (if k >= 0 {
            t.take(k)
        } else {
            t
        }) + "..."@
    }
}

proof fn lemma_last_ws_index(s: Seq<char>)
    ensures
        -1 <= last_ws_index(s) < s.len(),
        last_ws_index(s) >= 0 ==> is_ws(s[last_ws_index(s)]),
        forall|j: int| last_ws_index(s) < j < s.len() ==> !is_ws(#[trigger] s[j]),
    decreases s.len(),
{
    if s.len() > 0 && !is_ws(s.last()) {
        let t = s.drop_last();
        lemma_last_ws_index(t);
        assert forall|j: int| last_ws_index(s) < j < s.len() implies !is_ws(#[trigger] s[j]) by {
            if j < s.len() - 1 {
                assert(s[j] == t[j]);
            }
        }
    }
}

/// A document summary cut to size (see [`truncated_summary`]).
pub fn truncate_document_summary(summary: &str) -> (r: String)
    ensures
        r@ == truncated_summary(summary@),
        r@.len() <= MAX_DOCUMENT_SUMMARY_CHARS + 3,
{
    proof {
        reveal_strlit("...");
    }
    let chars = chars_of(summary);
    let s = trim_chars(chars.as_slice());
    if s.len() <= MAX_DOCUMENT_SUMMARY_CHARS {
        return string_from_chars(s.as_slice());
    }
    let t = slice_chars(s.as_slice(), 0, MAX_DOCUMENT_SUMMARY_CHARS);
    assert(t@ =~= s@.take(512));
    let mut end: usize = t.len();
    while end > 0 && !is_whitespace(t[end - 1])
        invariant
            end <= t@.len(),
            forall|j: int| end <= j < t@.len() ==> !is_ws(#[trigger] t@[j]),
        decreases end,
    {
        end = end - 1;
    }
    proof {
        lemma_last_ws_index(t@);
        if end > 0 {
            assert(is_ws(t@[end - 1]));
            assert(last_ws_index(t@) == end - 1);
        } else {
            assert(last_ws_index(t@) < 0);
        }
    }
    let kept = if end > 0 {
        slice_chars(t.as_slice(), 0, end - 1)
    } else {
        t
    };
    let mut out = kept;
    let dots = chars_of("...");
    push_str_chars(&mut out, dots.as_slice());
    string_from_chars(out.as_slice())
}

// ---------------------------------------------------------------------------
// Prompts
// ---------------------------------------------------------------------------

/// The glossary line of one entry: `- source => target`, with ` (note)`
/// when the note is not blank.
pub open spec fn entry_line(e: GlossaryEntry) -> Seq<char> {
    match e.note {
        Some(note) if trim(note@).len() > 0 => "- "@ + e.source@ + " => "@ + e.target@ + " ("@
            + note@ + ")"@,
        _ => "- "@ + e.source@ + " => "@ + e.target@,
    }
}

/// A glossary is selected when the request lists its id.
pub open spec fn glossary_selected(g: Glossary, ids: Seq<String>) -> bool {
    exists|j: int| 0 <= j < ids.len() && (#[trigger] ids[j])@ == g.id@
}

/// The glossary lines of the selected glossaries, in order.
pub open spec fn glossary_lines(gs: Seq<Glossary>, ids: Seq<String>) -> Seq<Seq<char>>
    decreases gs.len(),
{
    if gs.len() == 0 {
        Seq::empty()
    } else {
        glossary_lines(gs.drop_last(), ids) + if glossary_selected(gs.last(), ids) {
            gs.last().entries@.map_values(|e: GlossaryEntry| entry_line(e))
        } else {
            Seq::empty()
        }
    }
}

/// The glossary lines of a list of glossaries are those of its first part
/// followed by those of the rest: every selected glossary contributes, none
/// replaces another.
pub proof fn lemma_glossary_lines_concat(a: Seq<Glossary>, b: Seq<Glossary>, ids: Seq<String>)
    ensures
        glossary_lines(a + b, ids) == glossary_lines(a, ids) + glossary_lines(b, ids),
    decreases b.len(),
{
    if b.len() == 0 {
        assert(a + b =~= a);
        assert(glossary_lines(a, ids) + Seq::<Seq<char>>::empty() =~= glossary_lines(a, ids));
    } else {
        lemma_glossary_lines_concat(a, b.drop_last(), ids);
        assert((a + b).drop_last() =~= a + b.drop_last());
        assert((a + b).last() == b.last());
        let tail = if glossary_selected(b.last(), ids) {
            b.last().entries@.map_values(|e: GlossaryEntry| entry_line(e))
        } else {
            Seq::empty()
        };
        assert(glossary_lines(a, ids) + glossary_lines(b.drop_last(), ids) + tail
            =~= glossary_lines(a, ids) + (glossary_lines(b.drop_last(), ids) + tail));
    }
}

/// One glossary contributes the lines of all its entries, in order, when the
/// request lists its id, and nothing otherwise.
pub proof fn lemma_glossary_lines_one(g: Glossary, ids: Seq<String>)
    ensures
        glossary_selected(g, ids) ==> glossary_lines(seq![g], ids).len() == g.entries@.len()
            && forall|k: int|
            0 <= k < g.entries@.len() ==> glossary_lines(seq![g], ids)[k] == entry_line(
                #[trigger] g.entries@[k],
            ),
        !glossary_selected(g, ids) ==> glossary_lines(seq![g], ids).len() == 0,
{
    let one = seq![g];
    assert(one.drop_last() =~= Seq::<Glossary>::empty());
    assert(one.last() == g);
    assert(glossary_lines(one.drop_last(), ids) =~= Seq::<Seq<char>>::empty());
    let lines = g.entries@.map_values(|e: GlossaryEntry| entry_line(e));
    if glossary_selected(g, ids) {
        assert(glossary_lines(one, ids) == glossary_lines(one.drop_last(), ids) + lines);
        assert(glossary_lines(one, ids) =~= lines);
    } else {
        assert(glossary_lines(one, ids) =~= Seq::<Seq<char>>::empty());
    }
}

/// Every entry of every selected glossary has its line among the glossary
/// lines, after the lines of the glossaries before it.
pub proof fn lemma_selected_entries_listed(gs: Seq<Glossary>, ids: Seq<String>, i: int, k: int)
    requires
        0 <= i < gs.len(),
        glossary_selected(gs[i], ids),
        0 <= k < gs[i].entries@.len(),
    ensures
        glossary_lines(gs, ids)[glossary_lines(gs.take(i), ids).len() + k] == entry_line(
            gs[i].entries@[k],
        ),
        glossary_lines(gs.take(i), ids).len() + k < glossary_lines(gs, ids).len(),
{
    let before = gs.take(i);
    let after = gs.skip(i + 1);
    assert(gs =~= before + seq![gs[i]] + after);
    lemma_glossary_lines_concat(before + seq![gs[i]], after, ids);
    lemma_glossary_lines_concat(before, seq![gs[i]], ids);
    lemma_glossary_lines_one(gs[i], ids);
}

/// The terminology text of a request.
pub open spec fn glossary_text(data: AppData, request: TranslateRequest) -> Seq<char> {
    join_seq(glossary_lines(data.glossaries@, request.glossary_ids@), "\n"@)
}

/// The template used when the request names no known prompt.
pub open spec fn fallback_template() -> Seq<char> {
    "Translate"@ + FALLBACK_TEMPLATE_REST@
}

/// The fallback template after its first word.
pub const FALLBACK_TEMPLATE_REST: &'static str = " from {{source_language}} to {{target_language}}. Preserve the original meaning, formatting and markup. Return only the translation.\n\n{{glossary}}";

fn fallback_template_chars() -> (v: Vec<char>)
    ensures
        v@ == fallback_template(),
{
    let mut v = chars_of("Translate");
    push_str_chars(&mut v, chars_of(FALLBACK_TEMPLATE_REST).as_slice());
    v
}

/// The index of the first prompt with the given id, or -1.
pub open spec fn first_prompt_index(prompts: Seq<PromptTemplate>, id: Seq<char>) -> int
    decreases prompts.len(),
{
    if prompts.len() == 0 {
        -1
    } else {
        let i = first_prompt_index(prompts.drop_last(), id);
        if i >= 0 {
            i
        } else if prompts.last().id@ == id {
            prompts.len() - 1
        } else {
            -1
        }
    }
}

/// The template of a request: its prompt's content, or the fallback.
pub open spec fn template_of(data: AppData, request: TranslateRequest) -> Seq<char> {
    match request.prompt_id {
        Some(id) => {
            let i = first_prompt_index(data.prompts@, id@);
            if i >= 0 {
                data.prompts@[i].content@
            } else {
                fallback_template()
            }
        },
        None => fallback_template(),
    }
}

/// The template with the languages and the terminology filled in.
pub open spec fn rendered_template(data: AppData, request: TranslateRequest) -> Seq<char> {
    let g = glossary_text(data, request);
    let terms = if g.len() == 0 {
        "No special terminology."@
    } else {
        g
    };
    replace_seq(
        replace_seq(
            replace_seq(
                template_of(data, request),
                "{{source_language}}"@,
                request.source_language@,
            ),
            "{{target_language}}"@,
            request.target_language@,
        ),
        "{{glossary}}"@,
        terms,
    )
}

/// The system message of a request.
pub open spec fn system_message(data: AppData, request: TranslateRequest) -> Seq<char> {
    let rendered = rendered_template(data, request);
    let base = if contains_seq(rendered, "{{text}}"@) {
        replace_seq(rendered, "{{text}}"@, Seq::empty())
    } else {
        rendered
    };
    match request.context_summary {
        Some(summary) if trim(summary@).len() > 0 => base + "\n\nTranslation context summary:\n"@
            + summary@,
        _ => base,
    }
}

/// The user message of a request.
pub open spec fn user_message(data: AppData, request: TranslateRequest) -> Seq<char> {
    let rendered = rendered_template(data, request);
    if contains_seq(rendered, "{{text}}"@) {
        replace_seq(rendered, "{{text}}"@, request.text@)
    } else {
        "Text to translate:\n"@ + request.text@
    }
}

fn entry_line_chars(e: &GlossaryEntry) -> (v: Vec<char>)
    ensures
        v@ == entry_line(*e),
{
    let mut out = chars_of("- ");
    push_str_chars(&mut out, chars_of(e.source.as_str()).as_slice());
    push_str_chars(&mut out, chars_of(" => ").as_slice());
    push_str_chars(&mut out, chars_of(e.target.as_str()).as_slice());
    match &e.note {
        Some(note) => {
            let nc = chars_of(note.as_str());
            if !is_blank(nc.as_slice()) {
                push_str_chars(&mut out, chars_of(" (").as_slice());
                push_str_chars(&mut out, nc.as_slice());
                push_str_chars(&mut out, chars_of(")").as_slice());
            }
        },
        None => {},
    }
    out
}

fn id_listed(ids: &Vec<String>, id: &String) -> (r: bool)
    ensures
        r == exists|j: int| 0 <= j < ids@.len() && (#[trigger] ids@[j])@ == id@,
{
    let mut i: usize = 0;
    while i < ids.len()
        invariant
            i <= ids@.len(),
            forall|j: int| 0 <= j < i ==> (#[trigger] ids@[j])@ != id@,
        decreases ids@.len() - i,
    {
        if ids[i] == *id {
            return true;
        }
        i = i + 1;
    }
    false
}

fn glossary_line_list(data: &AppData, request: &TranslateRequest) -> (lines: Vec<Vec<char>>)
    ensures
        lines@.map_values(|p: Vec<char>| p@) == glossary_lines(
            data.glossaries@,
            request.glossary_ids@,
        ),
{
    let mut lines: Vec<Vec<char>> = Vec::new();
    let mut i: usize = 0;
    while i < data.glossaries.len()
        invariant
            i <= data.glossaries@.len(),
            lines@.map_values(|p: Vec<char>| p@) == glossary_lines(
                data.glossaries@.take(i as int),
                request.glossary_ids@,
            ),
        decreases data.glossaries@.len() - i,
    {
        let g = &data.glossaries[i];
        let ghost before = lines@.map_values(|p: Vec<char>| p@);
        proof {
            assert(data.glossaries@.take(i + 1).drop_last() =~= data.glossaries@.take(i as int));
        }
        if id_listed(&request.glossary_ids, &g.id) {
            let mut k: usize = 0;
            while k < g.entries.len()
                invariant
                    k <= g.entries@.len(),
                    lines@.map_values(|p: Vec<char>| p@) == before + g.entries@.take(
                        k as int,
                    ).map_values(|e: GlossaryEntry| entry_line(e)),
                decreases g.entries@.len() - k,
            {
                let line = entry_line_chars(&g.entries[k]);
                let ghost prev = lines@;
                lines.push(line);
                proof {
                    assert(lines@.map_values(|p: Vec<char>| p@) =~= prev.map_values(
                        |p: Vec<char>| p@,
                    ).push(line@));
                    assert(g.entries@.take(k + 1).map_values(|e: GlossaryEntry| entry_line(e))
                        =~= g.entries@.take(k as int).map_values(
                        |e: GlossaryEntry| entry_line(e),
                    ).push(entry_line(g.entries@[k as int])));
                }
                k = k + 1;
            }
            assert(g.entries@.take(g.entries@.len() as int) =~= g.entries@);
        } else {
            assert(before + Seq::<Seq<char>>::empty() =~= before);
        }
        i = i + 1;
    }
    assert(data.glossaries@.take(data.glossaries@.len() as int) =~= data.glossaries@);
    lines
}

fn find_prompt(prompts: &Vec<PromptTemplate>, id: &String) -> (r: Option<usize>)
    ensures
        match r {
            Some(i) => first_prompt_index(prompts@, id@) == i && i < prompts@.len(),
            None => first_prompt_index(prompts@, id@) < 0,
        },
{
    let mut i: usize = 0;
    while i < prompts.len()
        invariant
            i <= prompts@.len(),
            first_prompt_index(prompts@.take(i as int), id@) < 0,
        decreases prompts@.len() - i,
    {
        proof {
            assert(prompts@.take(i + 1).drop_last() =~= prompts@.take(i as int));
        }
        if prompts[i].id == *id {
            proof {
                lemma_first_prompt_prefix(prompts@, id@, i as int + 1);
            }
            return Some(i);
        }
        i = i + 1;
    }
    assert(prompts@.take(prompts@.len() as int) =~= prompts@);
    None
}

proof fn lemma_first_prompt_prefix(prompts: Seq<PromptTemplate>, id: Seq<char>, n: int)
    requires
        0 <= n <= prompts.len(),
        first_prompt_index(prompts.take(n), id) >= 0,
    ensures
        first_prompt_index(prompts, id) == first_prompt_index(prompts.take(n), id),
    decreases prompts.len() - n,
{
    if n < prompts.len() {
        assert(prompts.take(n + 1).drop_last() =~= prompts.take(n));
        lemma_first_prompt_prefix(prompts, id, n + 1);
    } else {
        assert(prompts.take(n) =~= prompts);
    }
}

/// The system and user messages of a request.
pub fn build_messages(data: &AppData, request: &TranslateRequest) -> (r: (String, String))
    ensures
        r.0@ == system_message(*data, *request),
        r.1@ == user_message(*data, *request),
{
    proof {
        reveal_strlit("{{source_language}}");
        reveal_strlit("{{target_language}}");
        reveal_strlit("{{glossary}}");
        reveal_strlit("{{text}}");
    }
    let lines = glossary_line_list(data, request);
    let newline = chars_of("\n");
    let glossary = join_chars(&lines, newline.as_slice());
    let template: Vec<char> = match &request.prompt_id {
        Some(id) => match find_prompt(&data.prompts, id) {
            Some(i) => chars_of(data.prompts[i].content.as_str()),
            None => fallback_template_chars(),
        },
        None => fallback_template_chars(),
    };
    let terms = if glossary.len() == 0 {
        chars_of("No special terminology.")
    } else {
        glossary
    };
    let step1 = replace_chars(
        template.as_slice(),
        chars_of("{{source_language}}").as_slice(),
        chars_of(request.source_language.as_str()).as_slice(),
    );
    let step2 = replace_chars(
        step1.as_slice(),
        chars_of("{{target_language}}").as_slice(),
        chars_of(request.target_language.as_str()).as_slice(),
    );
    let rendered = replace_chars(
        step2.as_slice(),
        chars_of("{{glossary}}").as_slice(),
        terms.as_slice(),
    );
    let slot = chars_of("{{text}}");
    let has_text_slot = contains_chars(rendered.as_slice(), slot.as_slice());
    let mut system = if has_text_slot {
        let empty: Vec<char> = Vec::new();
        replace_chars(rendered.as_slice(), slot.as_slice(), empty.as_slice())
    } else {
        let mut copy: Vec<char> = Vec::new();
        push_str_chars(&mut copy, rendered.as_slice());
        assert(copy@ =~= rendered@);
        copy
    };
    match &request.context_summary {
        Some(summary) => {
            let sc = chars_of(summary.as_str());
            if !is_blank(sc.as_slice()) {
                push_str_chars(&mut system, chars_of("\n\nTranslation context summary:\n").as_slice());
                push_str_chars(&mut system, sc.as_slice());
            }
        },
        None => {},
    }
    let user = if has_text_slot {
        replace_chars(
            rendered.as_slice(),
            slot.as_slice(),
            chars_of(request.text.as_str()).as_slice(),
        )
    } else {
        let mut u = chars_of("Text to translate:\n");
        push_str_chars(&mut u, chars_of(request.text.as_str()).as_slice());
        u
    };
    (string_from_chars(system.as_slice()), string_from_chars(user.as_slice()))
}

/// The system message with an operation's extra instruction appended.
pub open spec fn instructed_system(
    data: AppData,
    request: TranslateRequest,
    extra: Option<Seq<char>>,
) -> Seq<char> {
    match extra {
        Some(instruction) => system_message(data, request) + "\n\n"@ + instruction,
        None => system_message(data, request),
    }
}

/// The messages sent for an operation: the request's messages, the system
/// message followed by the extra instruction when there is one.
pub fn compose_messages(data: &AppData, request: &TranslateRequest, extra: Option<&str>) -> (r: (
    String,
    String,
))
    ensures
        r.0@ == instructed_system(
            *data,
            *request,
            match extra {
                Some(e) => Some(e@),
                None => None,
            },
        ),
        r.1@ == user_message(*data, *request),
{
    let (mut system, user) = build_messages(data, request);
    match extra {
        Some(instruction) => {
            system.append("\n\n");
            system.append(instruction);
        },
        None => {},
    }
    (system, user)
}

/// How a request is written into the conversation log.
pub open spec fn request_log_text(system: Seq<char>, user: Seq<char>) -> Seq<char> {
    "SYSTEM:\n"@ + system + "\n\nUSER:\n"@ + user
}

/// How a request is written into the conversation log.
pub fn request_log(system: &str, user: &str) -> (r: String)
    ensures
        r@ == request_log_text(system@, user@),
{
    let mut r = String::from_str("SYSTEM:\n");
    r.append(system);
    r.append("\n\nUSER:\n");
    r.append(user);
    r
}

/// A reasoning effort other than `""` and `"none"` is sent to the provider.
pub fn reasoning_requested(effort: &str) -> (r: bool)
    ensures
        r == (effort@.len() > 0 && effort@ != "none"@),
{
    proof {
        reveal_strlit("none");
        reveal_strlit("");
    }
    let e = chars_of(effort);
    let none = chars_of("none");
    !(e.len() == 0 || chars_equal(e.as_slice(), none.as_slice()))
}

/// The API key sent as a bearer token: the trimmed key, unless it is blank.
pub fn bearer_key(api_key: &str) -> (r: Option<String>)
    ensures
        match r {
            Some(k) => trim(api_key@).len() > 0 && k@ == trim(api_key@),
            None => trim(api_key@).len() == 0,
        },
{
    let k = trim_str(api_key);
    if k.as_str().is_empty() {
        assert(k@.len() == 0);
        None
    } else {
        Some(k)
    }
}

/// `text` with every trailing `/` removed (`str::trim_end_matches('/')`).
pub open spec fn trim_trailing_slashes(s: Seq<char>) -> Seq<char>
    decreases s.len(),
{
    if s.len() > 0 && s.last() == '/' {
        trim_trailing_slashes(s.drop_last())
    } else {
        s
    }
}

/// The URL of an API endpoint: the trimmed base URL without trailing
/// slashes, followed by `suffix` unless it already ends with it.
pub open spec fn endpoint_spec(base_url: Seq<char>, suffix: Seq<char>) -> Seq<char> {
    let base = trim_trailing_slashes(trim(base_url));
    if ends_with_seq(base, suffix) {
        base
    } else {
        base + suffix
    }
}

/// The URL of an API endpoint (see [`endpoint_spec`]).
pub fn endpoint(base_url: &str, suffix: &str) -> (r: String)
    ensures
        r@ == endpoint_spec(base_url@, suffix@),
{
    let chars = chars_of(base_url);
    let trimmed = trim_chars(chars.as_slice());
    let mut end: usize = trimmed.len();
    assert(trimmed@.take(end as int) =~= trimmed@);
    while end > 0 && trimmed[end - 1] == '/'
        invariant
            end <= trimmed@.len(),
            trim_trailing_slashes(trimmed@) == trim_trailing_slashes(trimmed@.take(end as int)),
        decreases end,
    {
        proof {
            assert(trimmed@.take(end as int).drop_last() =~= trimmed@.take(end - 1));
        }
        end = end - 1;
    }
    let base = slice_chars(trimmed.as_slice(), 0, end);
    assert(base@ =~= trimmed@.take(end as int));
    let suffix_chars = chars_of(suffix);
    if ends_with_chars(base.as_slice(), suffix_chars.as_slice()) {
        string_from_chars(base.as_slice())
    } else {
        let mut out = base;
        push_str_chars(&mut out, suffix_chars.as_slice());
        string_from_chars(out.as_slice())
    }
}


// ---------------------------------------------------------------------------
// The batch format round trip
// ---------------------------------------------------------------------------

proof fn lemma_separator_facts()
    ensures
        segment_separator().len() == 28,
        segment_marker().len() == 26,
        segment_separator()[0] == '\n',
        segment_separator()[27] == '\n',
        segment_separator().subrange(1, 27) == segment_marker(),
        !segment_marker().contains('\n'),
        !segment_separator().contains('\r'),
{
    reveal_strlit("\n---TRANOVA-SEGMENT-7F3A---\n");
    reveal_strlit("---TRANOVA-SEGMENT-7F3A---");
    assert(segment_separator().subrange(1, 27) =~= segment_marker());
}

/// A text that does not contain the marker has no separator in it.
proof fn lemma_no_marker_no_match(t: Seq<char>, k: int)
    requires
        !contains_seq(t, segment_marker()),
        0 <= k,
    ensures
        !match_at(t, segment_marker(), k),
{
    crate::text::lemma_find_from(t, segment_marker(), 0);
}

/// In `t + sep + r`, with no marker in `t`, the first separator is the one
/// right after `t`.
proof fn lemma_first_separator(t: Seq<char>, r: Seq<char>)
    requires
        !contains_seq(t, segment_marker()),
    ensures
        find_from(t + segment_separator() + r, segment_separator(), 0) == t.len(),
{
    lemma_separator_facts();
    let sep = segment_separator();
    let m = segment_marker();
    let s = t + sep + r;
    assert forall|k: int| 0 <= k < t.len() implies !match_at(s, sep, k) by {
        if match_at(s, sep, k) {
            assert(s.subrange(k, k + 28) == sep);
            if k + 27 <= t.len() {
                assert(t.subrange(k + 1, k + 27) =~= s.subrange(k + 1, k + 27));
                assert(s.subrange(k + 1, k + 27) =~= sep.subrange(1, 27));
                lemma_no_marker_no_match(t, k + 1);
            } else {
                // The line feed that starts the separator lies inside the marker.
                let p = t.len() - k;
                assert(1 <= p < 27);
                assert(s[t.len() as int] == '\n');
                assert(sep[p] == s[k + p]);
                assert(m[p - 1] == sep[p]);
                assert(m.contains('\n'));
            }
        }
    }
    assert(s.subrange(t.len() as int, t.len() as int + 28) =~= sep);
    lemma_find_from_first(s, sep, t.len() as int);
}

/// `find_from` finds the first match.
proof fn lemma_find_from_first(s: Seq<char>, pat: Seq<char>, j: int)
    requires
        0 <= j,
        match_at(s, pat, j),
        forall|k: int| 0 <= k < j ==> !match_at(s, pat, k),
    ensures
        find_from(s, pat, 0) == j,
{
    lemma_find_from_first_from(s, pat, j, 0);
}

proof fn lemma_find_from_first_from(s: Seq<char>, pat: Seq<char>, j: int, i: int)
    requires
        0 <= i <= j,
        match_at(s, pat, j),
        forall|k: int| i <= k < j ==> !match_at(s, pat, k),
    ensures
        find_from(s, pat, i) == j,
    decreases j - i,
{
    if i < j {
        lemma_find_from_first_from(s, pat, j, i + 1);
    }
}

/// Splitting joined segments that hold no marker gives the segments back.
proof fn lemma_split_join(ts: Seq<Seq<char>>)
    requires
        ts.len() > 0,
        forall|i: int| 0 <= i < ts.len() ==> !contains_seq(#[trigger] ts[i], segment_marker()),
    ensures
        split_seq(join_seq(ts, segment_separator()), segment_separator()) == ts,
    decreases ts.len(),
{
    lemma_separator_facts();
    let sep = segment_separator();
    let t = ts[0];
    if ts.len() == 1 {
        assert(join_seq(ts, sep) == t);
        // No separator in `t`: a separator match would contain the marker.
        assert(find_from(t, sep, 0) < 0) by {
            crate::text::lemma_find_from(t, sep, 0);
            let j = find_from(t, sep, 0);
            if j >= 0 {
                assert(t.subrange(j, j + 28) == sep);
                assert(t.subrange(j + 1, j + 27) =~= sep.subrange(1, 27));
                lemma_no_marker_no_match(t, j + 1);
            }
        }
        assert(ts =~= seq![t]);
    } else {
        let rest = ts.drop_first();
        assert(ts =~= seq![t] + rest);
        lemma_join_front(t, rest, sep);
        let r = join_seq(rest, sep);
        assert forall|i: int| 0 <= i < rest.len() implies !contains_seq(
            #[trigger] rest[i],
            segment_marker(),
        ) by {
            assert(rest[i] == ts[i + 1]);
        }
        lemma_split_join(rest);
        lemma_first_separator(t, r);
        let s = t + sep + r;
        assert(s.take(t.len() as int) =~= t);
        assert(s.skip(t.len() as int + 28) =~= r);
    }
}

/// Joined segments without carriage returns need no newline normalization.
proof fn lemma_join_no_cr(ts: Seq<Seq<char>>)
    requires
        forall|i: int| 0 <= i < ts.len() ==> !(#[trigger] ts[i]).contains('\r'),
    ensures
        !join_seq(ts, segment_separator()).contains('\r'),
    decreases ts.len(),
{
    lemma_separator_facts();
    if ts.len() > 1 {
        lemma_join_no_cr(ts.drop_last());
        let a = join_seq(ts.drop_last(), segment_separator());
        let b = ts.last();
        assert(ts.last() == ts[ts.len() - 1]);
        let s = a + segment_separator() + b;
        if s.contains('\r') {
            let k = choose|k: int| 0 <= k < s.len() && s[k] == '\r';
            if k < a.len() {
                assert(a[k] == '\r');
            } else if k < a.len() + 28 {
                assert(segment_separator()[k - a.len()] == '\r');
            } else {
                assert(b[k - a.len() - 28] == '\r');
            }
        }
    } else if ts.len() == 1 {
        assert(ts[0] == join_seq(ts, segment_separator()));
    }
}

/// The batch format is faithful: segments without carriage returns, without
/// the separator marker and with some non-whitespace text, once joined by the
/// separator, are read back as the same segments, trimmed, and the reply is
/// accepted.
pub proof fn lemma_batch_round_trip(texts: Seq<Seq<char>>)
    requires
        texts.len() > 0,
        forall|i: int| 0 <= i < texts.len() ==> !(#[trigger] texts[i]).contains('\r'),
        forall|i: int|
            0 <= i < texts.len() ==> !contains_seq(#[trigger] texts[i], segment_marker()),
        forall|i: int| 0 <= i < texts.len() ==> trim(#[trigger] texts[i]).len() > 0,
    ensures
        batch_pieces(batch_input(texts)) == texts.map_values(|t: Seq<char>| trim(t)),
        batch_pieces_ok(batch_pieces(batch_input(texts)), texts.len()),
{
    let joined = batch_input(texts);
    lemma_join_no_cr(texts);
    crate::text::lemma_normalize_no_cr(joined);
    lemma_split_join(texts);
    let parts = texts.map_values(|t: Seq<char>| trim(t));
    assert(split_seq(normalize_newlines(joined), segment_separator()).map_values(
        |p: Seq<char>| trim(p),
    ) == parts);
    assert(parts.last() == trim(texts[texts.len() - 1]));
    assert forall|i: int| 0 <= i < parts.len() implies parts[i].len() > 0 by {
        assert(parts[i] == trim(texts[i]));
    }
}
} // verus!

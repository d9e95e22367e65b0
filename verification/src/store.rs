//! The application's stored data and the rules for changing it: validation,
//! normalization, replacement by id and the size limits of history and logs.
//! Reading and writing the data file is the application's part.
use vstd::prelude::*;

use crate::ai::{first_provider_index, lemma_first_provider_index, trim_trailing_slashes};
use crate::models::{
    AiConversationLog, AppData, AppSettings, Glossary, GlossaryEntry, HistoryEntry, PromptTemplate,
    Provider, SystemLogEntry,
};
use crate::text::{
    ascii_lower, ascii_lower_chars, chars_equal, chars_of, is_blank, slice_chars,
    starts_with_chars, starts_with_seq, string_from_chars, trim, trim_chars, trim_str,
};

verus! {

/// A change the store refuses.
#[derive(Debug)]
pub enum StoreError {
    /// The input is invalid; the message says why.
    InvalidInput(String),
}

/// The maximum number of history entries kept.
pub const MAX_HISTORY: usize = 100;

/// The maximum number of system log lines kept.
pub const MAX_SYSTEM_LOGS: usize = 500;

/// The maximum number of AI conversations kept.
pub const MAX_AI_CONVERSATIONS: usize = 200;

/// The maximum number of characters of a history text.
pub const MAX_HISTORY_TEXT_CHARS: usize = 20_000;

/// `s.take(n)`, or `s` when it is shorter.
pub open spec fn take_at_most<T>(s: Seq<T>, n: nat) -> Seq<T> {
    if s.len() <= n {
        s
    } else {
        s.take(n as int)
    }
}

/// `x.clamp(lo, hi)`.
pub open spec fn clamp(x: int, lo: int, hi: int) -> int {
    if x < lo {
        lo
    } else if x > hi {
        hi
    } else {
        x
    }
}

// ---------------------------------------------------------------------------
// Keys
// ---------------------------------------------------------------------------

/// The index of the first key equal to `k`, or -1.
pub open spec fn first_key_index(keys: Seq<Seq<char>>, k: Seq<char>) -> int
    decreases keys.len(),
{
    if keys.len() == 0 {
        -1
    } else {
        let i = first_key_index(keys.drop_last(), k);
        if i >= 0 {
            i
        } else if keys.last() == k {
            keys.len() - 1
        } else {
            -1
        }
    }
}

/// Facts about `first_key_index`.
pub proof fn lemma_first_key_index(keys: Seq<Seq<char>>, k: Seq<char>)
    ensures
        -1 <= first_key_index(keys, k) < keys.len(),
        first_key_index(keys, k) >= 0 ==> keys[first_key_index(keys, k)] == k,
        forall|j: int|
            0 <= j < keys.len() && (first_key_index(keys, k) < 0 || j < first_key_index(keys, k))
                ==> keys[j] != k,
    decreases keys.len(),
{
    if keys.len() > 0 {
        let p = keys.drop_last();
        lemma_first_key_index(p, k);
        assert forall|j: int|
            0 <= j < keys.len() && (first_key_index(keys, k) < 0 || j < first_key_index(keys, k))
                implies keys[j] != k by {
            if j < keys.len() - 1 {
                assert(keys[j] == p[j]);
            }
        }
    }
}

/// The first index whose key is `k`: the unique index `i` with `keys[i] == k`
/// and no earlier equal key.
pub proof fn lemma_first_key_index_unique(keys: Seq<Seq<char>>, k: Seq<char>, i: int)
    requires
        -1 <= i < keys.len(),
        i >= 0 ==> keys[i] == k,
        forall|j: int| 0 <= j < keys.len() && (i < 0 || j < i) ==> keys[j] != k,
    ensures
        first_key_index(keys, k) == i,
{
    lemma_first_key_index(keys, k);
    let f = first_key_index(keys, k);
    if f >= 0 && (i < 0 || f < i) {
        assert(keys[f] == k);
    }
    if i >= 0 && (f < 0 || i < f) {
        assert(keys[i] != k);
    }
}

/// The ids of the providers.
pub open spec fn provider_ids(ps: Seq<Provider>) -> Seq<Seq<char>> {
    ps.map_values(|p: Provider| p.id@)
}

/// The ids of the glossaries.
pub open spec fn glossary_ids(gs: Seq<Glossary>) -> Seq<Seq<char>> {
    gs.map_values(|g: Glossary| g.id@)
}

/// The ids of the prompts.
pub open spec fn prompt_ids(ps: Seq<PromptTemplate>) -> Seq<Seq<char>> {
    ps.map_values(|p: PromptTemplate| p.id@)
}

/// `items` with `item` in place of the first item with the same key, or with
/// `item` appended when there is none.
pub open spec fn upserted<T>(items: Seq<T>, keys: Seq<Seq<char>>, item: T, key: Seq<char>) -> Seq<T> {
    let i = first_key_index(keys, key);
    if i >= 0 {
        items.update(i, item)
    } else {
        items.push(item)
    }
}

fn find_key(keys: &Vec<Vec<char>>, k: &[char]) -> (r: Option<usize>)
    ensures
        match r {
            Some(i) => first_key_index(keys@.map_values(|v: Vec<char>| v@), k@) == i && i
                < keys@.len(),
            None => first_key_index(keys@.map_values(|v: Vec<char>| v@), k@) < 0,
        },
{
    let ghost ks = keys@.map_values(|v: Vec<char>| v@);
    let mut i: usize = 0;
    while i < keys.len()
        invariant
            i <= keys@.len(),
            ks == keys@.map_values(|v: Vec<char>| v@),
            forall|j: int| 0 <= j < i ==> ks[j] != k@,
        decreases keys@.len() - i,
    {
        if chars_equal(keys[i].as_slice(), k) {
            proof {
                lemma_first_key_index_unique(ks, k@, i as int);
            }
            return Some(i);
        }
        i = i + 1;
    }
    proof {
        lemma_first_key_index_unique(ks, k@, -1);
    }
    None
}

fn provider_key_list(ps: &Vec<Provider>) -> (r: Vec<Vec<char>>)
    ensures
        r@.map_values(|v: Vec<char>| v@) == provider_ids(ps@),
{
    let mut r: Vec<Vec<char>> = Vec::new();
    let mut i: usize = 0;
    while i < ps.len()
        invariant
            i <= ps@.len(),
            r@.map_values(|v: Vec<char>| v@) == provider_ids(ps@.take(i as int)),
        decreases ps@.len() - i,
    {
        let c = chars_of(ps[i].id.as_str());
        let ghost before = r@;
        r.push(c);
        proof {
            assert(r@.map_values(|v: Vec<char>| v@) =~= before.map_values(|v: Vec<char>| v@).push(c@));
            assert(provider_ids(ps@.take(i + 1)) =~= provider_ids(ps@.take(i as int)).push(ps@[i as int].id@));
        }
        i = i + 1;
    }
    assert(ps@.take(ps@.len() as int) =~= ps@);
    r
}

fn glossary_key_list(gs: &Vec<Glossary>) -> (r: Vec<Vec<char>>)
    ensures
        r@.map_values(|v: Vec<char>| v@) == glossary_ids(gs@),
{
    let mut r: Vec<Vec<char>> = Vec::new();
    let mut i: usize = 0;
    while i < gs.len()
        invariant
            i <= gs@.len(),
            r@.map_values(|v: Vec<char>| v@) == glossary_ids(gs@.take(i as int)),
        decreases gs@.len() - i,
    {
        let c = chars_of(gs[i].id.as_str());
        let ghost before = r@;
        r.push(c);
        proof {
            assert(r@.map_values(|v: Vec<char>| v@) =~= before.map_values(|v: Vec<char>| v@).push(c@));
            assert(glossary_ids(gs@.take(i + 1)) =~= glossary_ids(gs@.take(i as int)).push(gs@[i as int].id@));
        }
        i = i + 1;
    }
    assert(gs@.take(gs@.len() as int) =~= gs@);
    r
}

fn prompt_key_list(ps: &Vec<PromptTemplate>) -> (r: Vec<Vec<char>>)
    ensures
        r@.map_values(|v: Vec<char>| v@) == prompt_ids(ps@),
{
    let mut r: Vec<Vec<char>> = Vec::new();
    let mut i: usize = 0;
    while i < ps.len()
        invariant
            i <= ps@.len(),
            r@.map_values(|v: Vec<char>| v@) == prompt_ids(ps@.take(i as int)),
        decreases ps@.len() - i,
    {
        let c = chars_of(ps[i].id.as_str());
        let ghost before = r@;
        r.push(c);
        proof {
            assert(r@.map_values(|v: Vec<char>| v@) =~= before.map_values(|v: Vec<char>| v@).push(c@));
            assert(prompt_ids(ps@.take(i + 1)) =~= prompt_ids(ps@.take(i as int)).push(ps@[i as int].id@));
        }
        i = i + 1;
    }
    assert(ps@.take(ps@.len() as int) =~= ps@);
    r
}

/// Replaces the provider with the same id, or appends it.
fn upsert_provider(items: &mut Vec<Provider>, item: Provider)
    ensures
        final(items)@ == upserted(old(items)@, provider_ids(old(items)@), item, item.id@),
{
    let keys = provider_key_list(items);
    let k = chars_of(item.id.as_str());
    match find_key(&keys, k.as_slice()) {
        Some(i) => {
            items.set(i, item);
        },
        None => {
            items.push(item);
        },
    }
}

/// Replaces the glossary with the same id, or appends it.
fn upsert_glossary(items: &mut Vec<Glossary>, item: Glossary)
    ensures
        final(items)@ == upserted(old(items)@, glossary_ids(old(items)@), item, item.id@),
{
    let keys = glossary_key_list(items);
    let k = chars_of(item.id.as_str());
    match find_key(&keys, k.as_slice()) {
        Some(i) => {
            items.set(i, item);
        },
        None => {
            items.push(item);
        },
    }
}

/// Replaces the prompt with the same id, or appends it.
fn upsert_prompt(items: &mut Vec<PromptTemplate>, item: PromptTemplate)
    ensures
        final(items)@ == upserted(old(items)@, prompt_ids(old(items)@), item, item.id@),
{
    let keys = prompt_key_list(items);
    let k = chars_of(item.id.as_str());
    match find_key(&keys, k.as_slice()) {
        Some(i) => {
            items.set(i, item);
        },
        None => {
            items.push(item);
        },
    }
}

// ---------------------------------------------------------------------------
// Logging
// ---------------------------------------------------------------------------

/// A log level in lower case: `debug`, `warn`, `error`, and `info` for
/// anything else.
pub open spec fn normalized_level(level: Seq<char>) -> Seq<char> {
    let l = ascii_lower(trim(level));
    if l == "debug"@ {
        "debug"@
    } else if l == "warn"@ {
        "warn"@
    } else if l == "error"@ {
        "error"@
    } else {
        "info"@
    }
}

/// The level of a log line as it is stored.
pub fn normalize_log_level(level: &str) -> (r: String)
    ensures
        r@ == normalized_level(level@),
{
    let chars = chars_of(level);
    let t = trim_chars(chars.as_slice());
    let l = ascii_lower_chars(t.as_slice());
    if chars_equal(l.as_slice(), chars_of("debug").as_slice()) {
        String::from_str("debug")
    } else if chars_equal(l.as_slice(), chars_of("warn").as_slice()) {
        String::from_str("warn")
    } else if chars_equal(l.as_slice(), chars_of("error").as_slice()) {
        String::from_str("error")
    } else {
        String::from_str("info")
    }
}

/// The rank of a level: debug 0, info 1, warn 2, error 3, and 1 otherwise.
pub open spec fn level_rank(level: Seq<char>) -> nat {
    if level == "debug"@ {
        0
    } else if level == "info"@ {
        1
    } else if level == "warn"@ {
        2
    } else if level == "error"@ {
        3
    } else {
        1
    }
}

fn rank(level: &str) -> (r: u8)
    ensures
        r == level_rank(level@),
{
    let l = chars_of(level);
    if chars_equal(l.as_slice(), chars_of("debug").as_slice()) {
        0
    } else if chars_equal(l.as_slice(), chars_of("info").as_slice()) {
        1
    } else if chars_equal(l.as_slice(), chars_of("warn").as_slice()) {
        2
    } else if chars_equal(l.as_slice(), chars_of("error").as_slice()) {
        3
    } else {
        1
    }
}

/// A line of the given level is logged: logging is on and the level ranks at
/// least as high as the configured one.
pub open spec fn logs_level(settings: AppSettings, level: Seq<char>) -> bool {
    settings.logging_enabled && level_rank(level) >= level_rank(settings.log_level@)
}

/// Whether a line of the given level is logged.
pub fn logging_enabled(settings: &AppSettings, level: &str) -> (r: bool)
    ensures
        r == logs_level(*settings, level@),
{
    if !settings.logging_enabled {
        return false;
    }
    rank(level) >= rank(settings.log_level.as_str())
}

// ---------------------------------------------------------------------------
// Providers
// ---------------------------------------------------------------------------

/// A provider as it is saved: names and URL trimmed (the URL without trailing
/// slashes) and the limits clamped to their ranges.
pub open spec fn normalized_provider(p: Provider, q: Provider) -> bool {
    &&& q.id@ == trim(p.id@)
    &&& q.name@ == trim(p.name@)
    &&& q.base_url@ == trim_trailing_slashes(trim(p.base_url@))
    &&& q.model@ == trim(p.model@)
    &&& q.context_size == clamp(p.context_size as int, 1_024, 2_000_000)
    &&& q.max_segments == clamp(p.max_segments as int, 1, 1_024)
    &&& q.max_concurrent == clamp(p.max_concurrent as int, 1, 64)
    &&& q.reasoning_parser == p.reasoning_parser
    &&& q.api_key == p.api_key
    &&& q.proxy_mode == p.proxy_mode
    &&& q.enabled == p.enabled
    &&& q.supports_images == p.supports_images
    &&& q.text_translation_model == p.text_translation_model
}

/// The normalized provider has every required field.
pub open spec fn provider_complete(q: Provider) -> bool {
    q.id@.len() > 0 && q.name@.len() > 0 && q.base_url@.len() > 0 && q.model@.len() > 0
}

/// The normalized provider's URL is an HTTP(S) URL.
pub open spec fn provider_url_ok(q: Provider) -> bool {
    starts_with_seq(q.base_url@, "http://"@) || starts_with_seq(q.base_url@, "https://"@)
}

fn clamp_usize(x: usize, lo: usize, hi: usize) -> (r: usize)
    requires
        lo <= hi,
    ensures
        r == clamp(x as int, lo as int, hi as int),
{
    if x < lo {
        lo
    } else if x > hi {
        hi
    } else {
        x
    }
}

fn trimmed_url(url: &str) -> (r: String)
    ensures
        r@ == trim_trailing_slashes(trim(url@)),
{
    let chars = chars_of(url);
    let t = trim_chars(chars.as_slice());
    let mut end: usize = t.len();
    assert(t@.take(end as int) =~= t@);
    while end > 0 && t[end - 1] == '/'
        invariant
            end <= t@.len(),
            trim_trailing_slashes(t@) == trim_trailing_slashes(t@.take(end as int)),
        decreases end,
    {
        proof {
            assert(t@.take(end as int).drop_last() =~= t@.take(end - 1));
        }
        end = end - 1;
    }
    let base = slice_chars(t.as_slice(), 0, end);
    assert(base@ =~= t@.take(end as int));
    string_from_chars(base.as_slice())
}

/// Normalizes a provider and checks that it is complete.
pub fn validate_provider(provider: Provider) -> (r: Result<Provider, StoreError>)
    ensures
        match r {
            Ok(q) => normalized_provider(provider, q) && provider_complete(q) && provider_url_ok(
                q,
            ),
            Err(StoreError::InvalidInput(m)) => exists|q: Provider|
                normalized_provider(provider, q) && ((!provider_complete(q) && m@
                    == "Provider id, name, API URL and model are required"@) || (provider_complete(
                    q,
                ) && !provider_url_ok(q) && m@
                    == "Provider URL must begin with http:// or https://"@)),
        },
{
    let q = Provider {
        id: trim_str(provider.id.as_str()),
        name: trim_str(provider.name.as_str()),
        base_url: trimmed_url(provider.base_url.as_str()),
        model: trim_str(provider.model.as_str()),
        reasoning_parser: provider.reasoning_parser,
        api_key: provider.api_key,
        proxy_mode: provider.proxy_mode,
        enabled: provider.enabled,
        supports_images: provider.supports_images,
        context_size: clamp_usize(provider.context_size, 1_024, 2_000_000),
        max_segments: clamp_usize(provider.max_segments, 1, 1_024),
        max_concurrent: clamp_usize(provider.max_concurrent, 1, 64),
        text_translation_model: provider.text_translation_model,
    };
    assert(normalized_provider(provider, q));
    if q.id.as_str().is_empty() || q.name.as_str().is_empty() || q.base_url.as_str().is_empty()
        || q.model.as_str().is_empty() {
        assert(!provider_complete(q));
        return Err(
            StoreError::InvalidInput(
                String::from_str("Provider id, name, API URL and model are required"),
            ),
        );
    }
    let url = chars_of(q.base_url.as_str());
    if !(starts_with_chars(url.as_slice(), chars_of("http://").as_slice()) || starts_with_chars(
        url.as_slice(),
        chars_of("https://").as_slice(),
    )) {
        assert(provider_complete(q) && !provider_url_ok(q));
        return Err(
            StoreError::InvalidInput(
                String::from_str("Provider URL must begin with http:// or https://"),
            ),
        );
    }
    Ok(q)
}

// ---------------------------------------------------------------------------
// Settings
// ---------------------------------------------------------------------------

/// What parsing the Web listening address as an IP address found.
#[derive(Debug, Clone, Copy, PartialEq, Eq, Structural)]
pub enum HostCheck {
    /// It is not an IP address.
    Invalid,
    /// It is an IP address of another interface than loopback.
    Remote,
    /// It is a loopback address.
    Loopback,
}

/// The Web listening address as it is checked and saved: trimmed, with
/// `localhost` written as `127.0.0.1`.
pub open spec fn web_host_spec(host: Seq<char>) -> Seq<char> {
    if trim(host) == "localhost"@ {
        "127.0.0.1"@
    } else {
        trim(host)
    }
}

/// The Web listening address as it is checked and saved.
pub fn normalized_web_host(host: &str) -> (r: String)
    ensures
        r@ == web_host_spec(host@),
{
    let t = trim_str(host);
    if chars_equal(chars_of(t.as_str()).as_slice(), chars_of("localhost").as_slice()) {
        String::from_str("127.0.0.1")
    } else {
        t
    }
}

/// The interface language as it is saved: `zh-CN`, or `en` for anything else.
pub open spec fn language_spec(language: Seq<char>) -> Seq<char> {
    if language == "zh-CN"@ {
        "zh-CN"@
    } else {
        "en"@
    }
}

/// Settings as they are saved, when they are accepted.
pub open spec fn saved_settings(s: AppSettings, r: AppSettings) -> bool {
    &&& r.language@ == language_spec(s.language@)
    &&& r.proxy_url == s.proxy_url
    &&& r.web_host@ == web_host_spec(s.web_host@)
    &&& r.web_port == s.web_port
    &&& r.ai_timeout_seconds == clamp(s.ai_timeout_seconds as int, 10, 3_600)
    &&& r.logging_enabled == s.logging_enabled
    &&& r.log_level@ == normalized_level(s.log_level@)
    &&& r.download_location == s.download_location
    &&& r.custom_download_directory@ == trim(s.custom_download_directory@)
    &&& r.auto_download_files == s.auto_download_files
    &&& r.ask_download_location == s.ask_download_location
    &&& r.last_download_directory@ == trim(s.last_download_directory@)
}

/// The message when the Web address is not an IP address.
pub open spec fn invalid_host_message() -> Seq<char> {
    "Web access must use a loopback IP address"@
}

/// The message when the Web address is not a loopback address.
pub open spec fn remote_host_message() -> Seq<char> {
    "Web access is limited to this device for security; use 127.0.0.1 or ::1"@
}

/// The message when the Web port is a privileged port.
pub open spec fn port_message() -> Seq<char> {
    "Web port must be between 1024 and 65535"@
}

/// Settings with their values normalized, or the reason they are refused.
/// `host` is what parsing `normalized_web_host(&settings.web_host)` found.
pub fn normalize_settings(settings: AppSettings, host: HostCheck) -> (r: Result<
    AppSettings,
    StoreError,
>)
    ensures
        match r {
            Ok(s) => host == HostCheck::Loopback && settings.web_port >= 1024 && saved_settings(
                settings,
                s,
            ),
            Err(StoreError::InvalidInput(m)) => {
                ||| host == HostCheck::Invalid && m@ == invalid_host_message()
                ||| host == HostCheck::Remote && m@ == remote_host_message()
                ||| host == HostCheck::Loopback && settings.web_port < 1024 && m@ == port_message()
            },
        },
{
    let language = if chars_equal(
        chars_of(settings.language.as_str()).as_slice(),
        chars_of("zh-CN").as_slice(),
    ) {
        String::from_str("zh-CN")
    } else {
        String::from_str("en")
    };
    let web_host = normalized_web_host(settings.web_host.as_str());
    match host {
        HostCheck::Invalid => {
            return Err(
                StoreError::InvalidInput(
                    String::from_str("Web access must use a loopback IP address"),
                ),
            );
        },
        HostCheck::Remote => {
            return Err(
                StoreError::InvalidInput(
                    String::from_str(
                        "Web access is limited to this device for security; use 127.0.0.1 or ::1",
                    ),
                ),
            );
        },
        HostCheck::Loopback => {},
    }
    if settings.web_port < 1024 {
        return Err(
            StoreError::InvalidInput(String::from_str("Web port must be between 1024 and 65535")),
        );
    }
    let timeout = if settings.ai_timeout_seconds < 10 {
        10
    } else if settings.ai_timeout_seconds > 3_600 {
        3_600
    } else {
        settings.ai_timeout_seconds
    };
    Ok(
        AppSettings {
            language,
            proxy_url: settings.proxy_url,
            web_host,
            web_port: settings.web_port,
            ai_timeout_seconds: timeout,
            logging_enabled: settings.logging_enabled,
            log_level: normalize_log_level(settings.log_level.as_str()),
            download_location: settings.download_location,
            custom_download_directory: trim_str(settings.custom_download_directory.as_str()),
            auto_download_files: settings.auto_download_files,
            ask_download_location: settings.ask_download_location,
            last_download_directory: trim_str(settings.last_download_directory.as_str()),
        },
    )
}

// ---------------------------------------------------------------------------
// History
// ---------------------------------------------------------------------------

/// A history entry as it is stored: both texts cut to 20,000 characters.
pub open spec fn stored_history(e: HistoryEntry, r: HistoryEntry) -> bool {
    &&& r.id == e.id
    &&& r.kind == e.kind
    &&& r.source_language == e.source_language
    &&& r.target_language == e.target_language
    &&& r.source_text@ == take_at_most(e.source_text@, 20_000)
    &&& r.translated_text@ == take_at_most(e.translated_text@, 20_000)
    &&& r.filename == e.filename
    &&& r.provider == e.provider
    &&& r.model == e.model
    &&& r.created_at == e.created_at
}

/// A history entry is acceptable: its id and languages are not blank.
pub open spec fn history_entry_ok(e: HistoryEntry) -> bool {
    trim(e.id@).len() > 0 && trim(e.source_language@).len() > 0 && trim(
        e.target_language@,
    ).len() > 0
}

/// The entries whose id differs from `id`, in order.
pub open spec fn without_history_id(h: Seq<HistoryEntry>, id: Seq<char>) -> Seq<HistoryEntry>
    decreases h.len(),
{
    if h.len() == 0 {
        Seq::empty()
    } else if h.last().id@ == id {
        without_history_id(h.drop_last(), id)
    } else {
        without_history_id(h.drop_last(), id).push(h.last())
    }
}

impl HistoryEntry {
    /// A copy of this entry.
    pub fn duplicate(&self) -> (r: HistoryEntry)
        ensures
            r == *self,
    {
        HistoryEntry {
            id: self.id.clone(),
            kind: self.kind.clone(),
            source_language: self.source_language.clone(),
            target_language: self.target_language.clone(),
            source_text: self.source_text.clone(),
            translated_text: self.translated_text.clone(),
            filename: crate::models::copy_opt_string(&self.filename),
            provider: self.provider.clone(),
            model: self.model.clone(),
            created_at: self.created_at.clone(),
        }
    }
}

fn remove_history_id(history: &mut Vec<HistoryEntry>, id: &str)
    ensures
        final(history)@ == without_history_id(old(history)@, id@),
{
    let ghost h = history@;
    let idc = chars_of(id);
    let mut kept: Vec<HistoryEntry> = Vec::new();
    let mut all: Vec<HistoryEntry> = Vec::new();
    std::mem::swap(&mut all, history);
    let ghost mut i: int = 0;
    for entry in it: all
        invariant
            h == it.seq(),
            i == it.index(),
            0 <= i <= h.len(),
            idc@ == id@,
            kept@ == without_history_id(h.take(i), id@),
    {
        proof {
            assert(h.take(i + 1).drop_last() =~= h.take(i));
            assert(h.take(i + 1).last() == entry);
        }
        if !chars_equal(chars_of(entry.id.as_str()).as_slice(), idc.as_slice()) {
            kept.push(entry);
        }
        proof {
            i = i + 1;
        }
    }
    assert(h.take(i) =~= h);
    *history = kept;
}

/// The messages of a refused history entry.
pub open spec fn history_message() -> Seq<char> {
    "History entry languages and id are required"@
}

// ---------------------------------------------------------------------------
// Glossaries and prompts
// ---------------------------------------------------------------------------

/// A glossary entry is kept when its source and target are not blank.
pub open spec fn entry_kept(e: GlossaryEntry) -> bool {
    trim(e.source@).len() > 0 && trim(e.target@).len() > 0
}

/// The entries that are kept, in order.
pub open spec fn kept_entries(es: Seq<GlossaryEntry>) -> Seq<GlossaryEntry>
    decreases es.len(),
{
    if es.len() == 0 {
        Seq::empty()
    } else if entry_kept(es.last()) {
        kept_entries(es.drop_last()).push(es.last())
    } else {
        kept_entries(es.drop_last())
    }
}

fn keep_complete_entries(entries: Vec<GlossaryEntry>) -> (r: Vec<GlossaryEntry>)
    ensures
        r@ == kept_entries(entries@),
{
    let ghost es = entries@;
    let mut kept: Vec<GlossaryEntry> = Vec::new();
    let ghost mut i: int = 0;
    for entry in it: entries
        invariant
            es == it.seq(),
            i == it.index(),
            0 <= i <= es.len(),
            kept@ == kept_entries(es.take(i)),
    {
        proof {
            assert(es.take(i + 1).drop_last() =~= es.take(i));
            assert(es.take(i + 1).last() == entry);
        }
        let complete = !is_blank(chars_of(entry.source.as_str()).as_slice()) && !is_blank(
            chars_of(entry.target.as_str()).as_slice(),
        );
        if complete {
            kept.push(entry);
        }
        proof {
            i = i + 1;
        }
    }
    assert(es.take(i) =~= es);
    kept
}

/// Two glossaries hold the same values.
pub open spec fn same_glossary(a: Glossary, b: Glossary) -> bool {
    &&& a.id == b.id
    &&& a.name == b.name
    &&& a.source_language == b.source_language
    &&& a.target_language == b.target_language
    &&& a.updated_at == b.updated_at
    &&& a.entries@ == b.entries@
}

/// `after` is `before` with (a copy of) `g` in place of the first glossary
/// with its id, or appended.
pub open spec fn glossary_upserted(before: Seq<Glossary>, after: Seq<Glossary>, g: Glossary) -> bool {
    let k = first_key_index(glossary_ids(before), g.id@);
    if k >= 0 {
        &&& after.len() == before.len()
        &&& same_glossary(after[k], g)
        &&& forall|j: int| 0 <= j < before.len() && j != k ==> after[j] == before[j]
    } else {
        &&& after.len() == before.len() + 1
        &&& same_glossary(after.last(), g)
        &&& forall|j: int| 0 <= j < before.len() ==> after[j] == before[j]
    }
}

/// A glossary is acceptable: its id and name are not blank.
pub open spec fn glossary_ok(g: Glossary) -> bool {
    trim(g.id@).len() > 0 && trim(g.name@).len() > 0
}

/// A prompt is acceptable: its id, name and content are not blank.
pub open spec fn prompt_ok(p: PromptTemplate) -> bool {
    trim(p.id@).len() > 0 && trim(p.name@).len() > 0 && trim(p.content@).len() > 0
}

/// The prompts that remain after deleting `id`: all of them when `id` is the
/// built-in prompt's id, otherwise those with another id.
pub open spec fn remaining_prompts(ps: Seq<PromptTemplate>, id: Seq<char>) -> Seq<PromptTemplate>
    decreases ps.len(),
{
    if ps.len() == 0 {
        Seq::empty()
    } else if ps.last().id@ != id || id == crate::models::default_prompt_id() {
        remaining_prompts(ps.drop_last(), id).push(ps.last())
    } else {
        remaining_prompts(ps.drop_last(), id)
    }
}

/// The providers with another id, in order.
pub open spec fn providers_without(ps: Seq<Provider>, id: Seq<char>) -> Seq<Provider>
    decreases ps.len(),
{
    if ps.len() == 0 {
        Seq::empty()
    } else if ps.last().id@ != id {
        providers_without(ps.drop_last(), id).push(ps.last())
    } else {
        providers_without(ps.drop_last(), id)
    }
}

/// The glossaries with another id, in order.
pub open spec fn glossaries_without(gs: Seq<Glossary>, id: Seq<char>) -> Seq<Glossary>
    decreases gs.len(),
{
    if gs.len() == 0 {
        Seq::empty()
    } else if gs.last().id@ != id {
        glossaries_without(gs.drop_last(), id).push(gs.last())
    } else {
        glossaries_without(gs.drop_last(), id)
    }
}

/// Imported glossaries merged in order: each acceptable one replaces the
/// glossary with its id or is appended.
pub open spec fn merged_glossaries(gs: Seq<Glossary>, imported: Seq<Glossary>) -> Seq<Glossary>
    decreases imported.len(),
{
    if imported.len() == 0 {
        gs
    } else {
        let before = merged_glossaries(gs, imported.drop_last());
        let g = imported.last();
        if glossary_ok(g) {
            upserted(before, glossary_ids(before), g, g.id@)
        } else {
            before
        }
    }
}

/// Imported prompts merged in order: each acceptable one replaces the prompt
/// with its id or is appended.
pub open spec fn merged_prompts(ps: Seq<PromptTemplate>, imported: Seq<PromptTemplate>) -> Seq<
    PromptTemplate,
>
    decreases imported.len(),
{
    if imported.len() == 0 {
        ps
    } else {
        let before = merged_prompts(ps, imported.drop_last());
        let p = imported.last();
        if prompt_ok(p) {
            upserted(before, prompt_ids(before), p, p.id@)
        } else {
            before
        }
    }
}

// ---------------------------------------------------------------------------
// The store
// ---------------------------------------------------------------------------

/// `after` is `before` with at most its history changed.
pub open spec fn only_history_changed(before: AppData, after: AppData) -> bool {
    after == (AppData { history: after.history, ..before })
}

/// `after` is `before` with at most its providers changed.
pub open spec fn only_providers_changed(before: AppData, after: AppData) -> bool {
    after == (AppData { providers: after.providers, ..before })
}

/// `after` is `before` with at most its glossaries changed.
pub open spec fn only_glossaries_changed(before: AppData, after: AppData) -> bool {
    after == (AppData { glossaries: after.glossaries, ..before })
}

/// `after` is `before` with at most its prompts changed.
pub open spec fn only_prompts_changed(before: AppData, after: AppData) -> bool {
    after == (AppData { prompts: after.prompts, ..before })
}

/// `after` is `before` with at most its settings changed.
pub open spec fn only_settings_changed(before: AppData, after: AppData) -> bool {
    after == (AppData { settings: after.settings, ..before })
}

/// `after` is `before` with at most its system log changed.
pub open spec fn only_system_logs_changed(before: AppData, after: AppData) -> bool {
    after == (AppData { system_logs: after.system_logs, ..before })
}

/// `after` is `before` with at most its conversations changed.
pub open spec fn only_conversations_changed(before: AppData, after: AppData) -> bool {
    after == (AppData { ai_conversations: after.ai_conversations, ..before })
}

/// The application's data with the operations that change it.
pub struct AppStore {
    data: AppData,
}

impl AppStore {
    /// The data held.
    pub closed spec fn data_spec(&self) -> AppData {
        self.data
    }

    /// A store holding `data`.
    pub fn new(data: AppData) -> (r: AppStore)
        ensures
            r.data_spec() == data,
    {
        AppStore { data }
    }

    /// The data held.
    pub fn data(&self) -> (r: &AppData)
        ensures
            *r == self.data_spec(),
    {
        &self.data
    }

    /// A copy of the settings.
    pub fn settings(&self) -> (r: AppSettings)
        ensures
            r == self.data_spec().settings,
    {
        duplicate_settings(&self.data.settings)
    }

    /// Copies of both logs: the system log and the conversations with
    /// providers.
    pub fn logs(&self) -> (r: (Vec<SystemLogEntry>, Vec<AiConversationLog>))
        ensures
            r.0@ == self.data_spec().system_logs@,
            r.1@ == self.data_spec().ai_conversations@,
    {
        (copy_system_logs(&self.data.system_logs), copy_conversations(&self.data.ai_conversations))
    }

    /// A copy of all the data.
    pub fn snapshot(&self) -> (r: AppData)
        ensures
            r.providers@ == self.data_spec().providers@,
            r.prompts@ == self.data_spec().prompts@,
            r.glossaries@.len() == self.data_spec().glossaries@.len(),
            forall|i: int|
                0 <= i < r.glossaries@.len() ==> same_glossary(
                    #[trigger] r.glossaries@[i],
                    self.data_spec().glossaries@[i],
                ),
            r.settings == self.data_spec().settings,
            r.history@ == self.data_spec().history@,
            r.system_logs@ == self.data_spec().system_logs@,
            r.ai_conversations@ == self.data_spec().ai_conversations@,
    {
        let d = &self.data;
        let mut providers: Vec<Provider> = Vec::new();
        let mut i: usize = 0;
        while i < d.providers.len()
            invariant
                i <= d.providers@.len(),
                providers@ == d.providers@.take(i as int),
            decreases d.providers@.len() - i,
        {
            providers.push(d.providers[i].duplicate());
            i = i + 1;
            assert(d.providers@.take(i as int) =~= d.providers@.take(i - 1).push(d.providers@[i - 1]));
        }
        assert(d.providers@.take(d.providers@.len() as int) =~= d.providers@);
        let mut prompts: Vec<PromptTemplate> = Vec::new();
        let mut i: usize = 0;
        while i < d.prompts.len()
            invariant
                i <= d.prompts@.len(),
                prompts@ == d.prompts@.take(i as int),
            decreases d.prompts@.len() - i,
        {
            prompts.push(duplicate_prompt(&d.prompts[i]));
            i = i + 1;
            assert(d.prompts@.take(i as int) =~= d.prompts@.take(i - 1).push(d.prompts@[i - 1]));
        }
        assert(d.prompts@.take(d.prompts@.len() as int) =~= d.prompts@);
        let mut glossaries: Vec<Glossary> = Vec::new();
        let mut i: usize = 0;
        while i < d.glossaries.len()
            invariant
                i <= d.glossaries@.len(),
                glossaries@.len() == i,
                forall|j: int| 0 <= j < i ==> same_glossary(#[trigger] glossaries@[j], d.glossaries@[j]),
            decreases d.glossaries@.len() - i,
        {
            glossaries.push(duplicate_glossary(&d.glossaries[i]));
            i = i + 1;
        }
        let mut history: Vec<HistoryEntry> = Vec::new();
        let mut i: usize = 0;
        while i < d.history.len()
            invariant
                i <= d.history@.len(),
                history@ == d.history@.take(i as int),
            decreases d.history@.len() - i,
        {
            history.push(d.history[i].duplicate());
            i = i + 1;
            assert(d.history@.take(i as int) =~= d.history@.take(i - 1).push(d.history@[i - 1]));
        }
        assert(d.history@.take(d.history@.len() as int) =~= d.history@);
        AppData {
            providers,
            prompts,
            glossaries,
            settings: duplicate_settings(&d.settings),
            history,
            system_logs: copy_system_logs(&d.system_logs),
            ai_conversations: copy_conversations(&d.ai_conversations),
        }
    }

    /// The first provider with the given id.
    pub fn provider(&self, id: &str) -> (r: Option<Provider>)
        ensures
            ({
                let ps = self.data_spec().providers@;
                let i = first_provider_index(ps, id@);
                match r {
                    Some(p) => i >= 0 && p == ps[i],
                    None => i < 0,
                }
            }),
    {
        proof {
            lemma_first_provider_index(self.data.providers@, id@);
        }
        match crate::ai::find_provider(&self.data.providers, id) {
            Some(i) => Some(self.data.providers[i].duplicate()),
            None => None,
        }
    }

    /// Records a system log line when logging is on for its level: the line,
    /// with its level normalized and its scope trimmed, goes first, and only
    /// the 500 newest lines are kept. Returns whether it was recorded.
    pub fn add_system_log(
        &mut self,
        level: &str,
        scope: &str,
        message: String,
        id: String,
        timestamp: String,
    ) -> (logged: bool)
        ensures
            logged == logs_level(old(self).data_spec().settings, level@),
            !logged ==> final(self).data_spec() == old(self).data_spec(),
            logged ==> exists|entry: SystemLogEntry|
                {
                    &&& entry.id == id
                    &&& entry.timestamp == timestamp
                    &&& entry.level@ == normalized_level(level@)
                    &&& entry.scope@ == trim(scope@)
                    &&& entry.message == message
                    &&& final(self).data_spec().system_logs@ == take_at_most(
                        seq![entry] + old(self).data_spec().system_logs@,
                        500,
                    )
                },
            only_system_logs_changed(old(self).data_spec(), final(self).data_spec()),
    {
        if !logging_enabled(&self.data.settings, level) {
            return false;
        }
        let entry = SystemLogEntry {
            id,
            timestamp,
            level: normalize_log_level(level),
            scope: trim_str(scope),
            message,
        };
        let ghost e = entry;
        let ghost before = self.data.system_logs@;
        self.data.system_logs.insert(0, entry);
        assert(self.data.system_logs@ =~= seq![e] + before);
        if self.data.system_logs.len() > MAX_SYSTEM_LOGS {
            self.data.system_logs.truncate(MAX_SYSTEM_LOGS);
        }
        assert(self.data.system_logs@ == take_at_most(seq![e] + before, 500));
        assert({
            &&& e.id == id
            &&& e.timestamp == timestamp
            &&& e.level@ == normalized_level(level@)
            &&& e.scope@ == trim(scope@)
            &&& e.message == message
            &&& self.data.system_logs@ == take_at_most(seq![e] + before, 500)
        });
        true
    }

    /// Records an AI conversation when logging is on: it goes first, and only
    /// the 200 newest conversations are kept. Returns whether it was recorded.
    pub fn add_ai_conversation(&mut self, entry: AiConversationLog) -> (logged: bool)
        ensures
            logged == old(self).data_spec().settings.logging_enabled,
            !logged ==> final(self).data_spec() == old(self).data_spec(),
            logged ==> final(self).data_spec().ai_conversations@ == take_at_most(
                seq![entry] + old(self).data_spec().ai_conversations@,
                200,
            ),
            only_conversations_changed(old(self).data_spec(), final(self).data_spec()),
    {
        if !self.data.settings.logging_enabled {
            return false;
        }
        let ghost before = self.data.ai_conversations@;
        self.data.ai_conversations.insert(0, entry);
        assert(self.data.ai_conversations@ =~= seq![entry] + before);
        if self.data.ai_conversations.len() > MAX_AI_CONVERSATIONS {
            self.data.ai_conversations.truncate(MAX_AI_CONVERSATIONS);
        }
        true
    }

    /// Adds a history entry: it must have an id and both languages; its texts
    /// are cut to 20,000 characters; an entry with the same id is replaced;
    /// the entry goes first; only the 100 newest entries are kept.
    pub fn add_history(&mut self, entry: HistoryEntry) -> (r: Result<HistoryEntry, StoreError>)
        ensures
            match r {
                Ok(stored) => {
                    &&& history_entry_ok(entry)
                    &&& stored_history(entry, stored)
                    &&& final(self).data_spec().history@ == take_at_most(
                        seq![stored] + without_history_id(
                            old(self).data_spec().history@,
                            entry.id@,
                        ),
                        100,
                    )
                    &&& only_history_changed(old(self).data_spec(), final(self).data_spec())
                },
                Err(StoreError::InvalidInput(m)) => !history_entry_ok(entry) && final(self).data_spec() == old(self).data_spec() && m@ == history_message(),
            },
    {
        if is_blank(chars_of(entry.id.as_str()).as_slice()) || is_blank(
            chars_of(entry.source_language.as_str()).as_slice(),
        ) || is_blank(chars_of(entry.target_language.as_str()).as_slice()) {
            return Err(
                StoreError::InvalidInput(
                    String::from_str("History entry languages and id are required"),
                ),
            );
        }
        let source_text = crate::text::take_chars(entry.source_text.as_str(), MAX_HISTORY_TEXT_CHARS);
        let translated_text = crate::text::take_chars(
            entry.translated_text.as_str(),
            MAX_HISTORY_TEXT_CHARS,
        );
        proof {
            assert(entry.source_text@.take(entry.source_text@.len() as int) =~= entry.source_text@);
            assert(entry.translated_text@.take(entry.translated_text@.len() as int)
                =~= entry.translated_text@);
        }
        let stored = HistoryEntry {
            id: entry.id,
            kind: entry.kind,
            source_language: entry.source_language,
            target_language: entry.target_language,
            source_text,
            translated_text,
            filename: entry.filename,
            provider: entry.provider,
            model: entry.model,
            created_at: entry.created_at,
        };
        remove_history_id(&mut self.data.history, stored.id.as_str());
        let ghost before = self.data.history@;
        let copy = stored.duplicate();
        self.data.history.insert(0, copy);
        assert(self.data.history@ =~= seq![stored] + before);
        if self.data.history.len() > MAX_HISTORY {
            self.data.history.truncate(MAX_HISTORY);
        }
        assert(self.data.history@ == take_at_most(seq![stored] + before, 100));
        assert(stored_history(entry, stored));
        Ok(stored)
    }

    /// Removes the history entries with the given id.
    pub fn delete_history(&mut self, id: &str)
        ensures
            final(self).data_spec().history@ == without_history_id(
                old(self).data_spec().history@,
                id@,
            ),
            only_history_changed(old(self).data_spec(), final(self).data_spec()),
    {
        remove_history_id(&mut self.data.history, id);
    }

    /// Removes every history entry.
    pub fn clear_history(&mut self)
        ensures
            final(self).data_spec().history@.len() == 0,
            only_history_changed(old(self).data_spec(), final(self).data_spec()),
    {
        self.data.history.clear();
    }

    /// Saves a provider, normalized and checked, in place of the provider
    /// with its id, or appended.
    pub fn save_provider(&mut self, provider: Provider) -> (r: Result<Provider, StoreError>)
        ensures
            match r {
                Ok(q) => {
                    &&& normalized_provider(provider, q)
                    &&& provider_complete(q)
                    &&& provider_url_ok(q)
                    &&& final(self).data_spec().providers@ == upserted(
                        old(self).data_spec().providers@,
                        provider_ids(old(self).data_spec().providers@),
                        q,
                        q.id@,
                    )
                    &&& only_providers_changed(old(self).data_spec(), final(self).data_spec())
                },
                Err(StoreError::InvalidInput(m)) => final(self).data_spec() == old(self).data_spec() && exists|q: Provider|
                    normalized_provider(provider, q) && ((!provider_complete(q) && m@
                        == "Provider id, name, API URL and model are required"@) || (
                    provider_complete(q) && !provider_url_ok(q) && m@
                        == "Provider URL must begin with http:// or https://"@)),
            },
    {
        let q = validate_provider(provider)?;
        let copy = q.duplicate();
        upsert_provider(&mut self.data.providers, copy);
        Ok(q)
    }

    /// Removes the providers with the given id.
    pub fn delete_provider(&mut self, id: &str)
        ensures
            final(self).data_spec().providers@ == providers_without(
                old(self).data_spec().providers@,
                id@,
            ),
            only_providers_changed(old(self).data_spec(), final(self).data_spec()),
    {
        let ghost ps = self.data.providers@;
        let idc = chars_of(id);
        let mut kept: Vec<Provider> = Vec::new();
        let mut all: Vec<Provider> = Vec::new();
        std::mem::swap(&mut all, &mut self.data.providers);
        let ghost mut i: int = 0;
        for p in it: all
            invariant
                ps == it.seq(),
                i == it.index(),
                0 <= i <= ps.len(),
                idc@ == id@,
                kept@ == providers_without(ps.take(i), id@),
        {
            proof {
                assert(ps.take(i + 1).drop_last() =~= ps.take(i));
                assert(ps.take(i + 1).last() == p);
            }
            if !chars_equal(chars_of(p.id.as_str()).as_slice(), idc.as_slice()) {
                kept.push(p);
            }
            proof {
                i = i + 1;
            }
        }
        assert(ps.take(i) =~= ps);
        self.data.providers = kept;
    }

    /// Saves a glossary without its incomplete entries, in place of the
    /// glossary with its id, or appended. Its id and name must not be blank.
    pub fn save_glossary(&mut self, glossary: Glossary) -> (r: Result<Glossary, StoreError>)
        ensures
            match r {
                Ok(g) => {
                    &&& glossary_ok(glossary)
                    &&& g.id == glossary.id
                    &&& g.name == glossary.name
                    &&& g.source_language == glossary.source_language
                    &&& g.target_language == glossary.target_language
                    &&& g.updated_at == glossary.updated_at
                    &&& g.entries@ == kept_entries(glossary.entries@)
                    &&& glossary_upserted(
                        old(self).data_spec().glossaries@,
                        final(self).data_spec().glossaries@,
                        g,
                    )
                    &&& only_glossaries_changed(old(self).data_spec(), final(self).data_spec())
                },
                Err(StoreError::InvalidInput(m)) => !glossary_ok(glossary) && final(self).data_spec() == old(self).data_spec() && m@ == "Glossary name and id are required"@,
            },
    {
        if is_blank(chars_of(glossary.id.as_str()).as_slice()) || is_blank(
            chars_of(glossary.name.as_str()).as_slice(),
        ) {
            return Err(
                StoreError::InvalidInput(String::from_str("Glossary name and id are required")),
            );
        }
        let Glossary { id, name, source_language, target_language, entries, updated_at } =
            glossary;
        let entries = keep_complete_entries(entries);
        let g = Glossary { id, name, source_language, target_language, entries, updated_at };
        let copy = duplicate_glossary(&g);
        let ghost c = copy;
        let ghost before = self.data.glossaries@;
        upsert_glossary(&mut self.data.glossaries, copy);
        proof {
            lemma_first_key_index(glossary_ids(before), c.id@);
            assert(glossary_ids(before).len() == before.len());
        }
        Ok(g)
    }

    /// Removes the glossaries with the given id.
    pub fn delete_glossary(&mut self, id: &str)
        ensures
            final(self).data_spec().glossaries@ == glossaries_without(
                old(self).data_spec().glossaries@,
                id@,
            ),
            only_glossaries_changed(old(self).data_spec(), final(self).data_spec()),
    {
        let ghost gs = self.data.glossaries@;
        let idc = chars_of(id);
        let mut kept: Vec<Glossary> = Vec::new();
        let mut all: Vec<Glossary> = Vec::new();
        std::mem::swap(&mut all, &mut self.data.glossaries);
        let ghost mut i: int = 0;
        for g in it: all
            invariant
                gs == it.seq(),
                i == it.index(),
                0 <= i <= gs.len(),
                idc@ == id@,
                kept@ == glossaries_without(gs.take(i), id@),
        {
            proof {
                assert(gs.take(i + 1).drop_last() =~= gs.take(i));
                assert(gs.take(i + 1).last() == g);
            }
            if !chars_equal(chars_of(g.id.as_str()).as_slice(), idc.as_slice()) {
                kept.push(g);
            }
            proof {
                i = i + 1;
            }
        }
        assert(gs.take(i) =~= gs);
        self.data.glossaries = kept;
    }

    /// Saves a prompt in place of the prompt with its id, or appended. Its
    /// id, name and content must not be blank.
    pub fn save_prompt(&mut self, prompt: PromptTemplate) -> (r: Result<PromptTemplate, StoreError>)
        ensures
            match r {
                Ok(p) => {
                    &&& prompt_ok(prompt)
                    &&& p == prompt
                    &&& final(self).data_spec().prompts@ == upserted(
                        old(self).data_spec().prompts@,
                        prompt_ids(old(self).data_spec().prompts@),
                        p,
                        p.id@,
                    )
                    &&& only_prompts_changed(old(self).data_spec(), final(self).data_spec())
                },
                Err(StoreError::InvalidInput(m)) => !prompt_ok(prompt) && final(self).data_spec()
                    == old(self).data_spec() && m@ == "Prompt id, name and content are required"@,
            },
    {
        if is_blank(chars_of(prompt.id.as_str()).as_slice()) || is_blank(
            chars_of(prompt.name.as_str()).as_slice(),
        ) || is_blank(chars_of(prompt.content.as_str()).as_slice()) {
            return Err(
                StoreError::InvalidInput(
                    String::from_str("Prompt id, name and content are required"),
                ),
            );
        }
        let copy = duplicate_prompt(&prompt);
        upsert_prompt(&mut self.data.prompts, copy);
        Ok(prompt)
    }

    /// Removes the prompts with the given id, unless it is the built-in
    /// prompt's id.
    pub fn delete_prompt(&mut self, id: &str)
        ensures
            final(self).data_spec().prompts@ == remaining_prompts(
                old(self).data_spec().prompts@,
                id@,
            ),
            only_prompts_changed(old(self).data_spec(), final(self).data_spec()),
    {
        let ghost ps = self.data.prompts@;
        let idc = chars_of(id);
        let protected = chars_equal(idc.as_slice(), chars_of("faithful-translation").as_slice());
        let mut kept: Vec<PromptTemplate> = Vec::new();
        let mut all: Vec<PromptTemplate> = Vec::new();
        std::mem::swap(&mut all, &mut self.data.prompts);
        let ghost mut i: int = 0;
        for p in it: all
            invariant
                ps == it.seq(),
                i == it.index(),
                0 <= i <= ps.len(),
                idc@ == id@,
                protected == (id@ == crate::models::default_prompt_id()),
                kept@ == remaining_prompts(ps.take(i), id@),
        {
            proof {
                assert(ps.take(i + 1).drop_last() =~= ps.take(i));
                assert(ps.take(i + 1).last() == p);
            }
            if protected || !chars_equal(chars_of(p.id.as_str()).as_slice(), idc.as_slice()) {
                kept.push(p);
            }
            proof {
                i = i + 1;
            }
        }
        assert(ps.take(i) =~= ps);
        self.data.prompts = kept;
    }

    /// Saves settings, normalized, when they are accepted (see
    /// [`normalize_settings`]).
    pub fn save_settings(&mut self, settings: AppSettings, host: HostCheck) -> (r: Result<
        AppSettings,
        StoreError,
    >)
        ensures
            match r {
                Ok(s) => host == HostCheck::Loopback && settings.web_port >= 1024 && saved_settings(
                    settings,
                    s,
                ) && final(self).data_spec().settings == s && only_settings_changed(
                    old(self).data_spec(),
                    final(self).data_spec(),
                ),
                Err(StoreError::InvalidInput(m)) => final(self).data_spec() == old(self).data_spec()
                    && {
                    ||| host == HostCheck::Invalid && m@ == invalid_host_message()
                    ||| host == HostCheck::Remote && m@ == remote_host_message()
                    ||| host == HostCheck::Loopback && settings.web_port < 1024 && m@
                        == port_message()
                },
            },
    {
        let s = normalize_settings(settings, host)?;
        let copy = duplicate_settings(&s);
        self.data.settings = copy;
        Ok(s)
    }

    /// Remembers the directory of the last download; it must not be blank.
    pub fn set_last_download_directory(&mut self, directory: &str) -> (r: Result<(), StoreError>)
        ensures
            match r {
                Ok(()) => trim(directory@).len() > 0
                    && final(self).data_spec().settings.last_download_directory@ == trim(
                    directory@,
                ) && only_settings_changed(old(self).data_spec(), final(self).data_spec())
                    && final(self).data_spec().settings == (AppSettings {
                    last_download_directory: final(self).data_spec().settings.last_download_directory,
                    ..old(self).data_spec().settings
                }),
                Err(StoreError::InvalidInput(m)) => trim(directory@).len() == 0 && final(self).data_spec() == old(self).data_spec() && m@ == "A download directory is required"@,
            },
    {
        let d = trim_str(directory);
        if d.as_str().is_empty() {
            return Err(
                StoreError::InvalidInput(String::from_str("A download directory is required")),
            );
        }
        self.data.settings.last_download_directory = d;
        Ok(())
    }

    /// Merges imported glossaries: each with an id and a name replaces the
    /// glossary with its id, or is appended.
    pub fn replace_glossaries(&mut self, glossaries: Vec<Glossary>)
        ensures
            final(self).data_spec().glossaries@ == merged_glossaries(
                old(self).data_spec().glossaries@,
                glossaries@,
            ),
            only_glossaries_changed(old(self).data_spec(), final(self).data_spec()),
    {
        let ghost start = self.data.glossaries@;
        let ghost imported = glossaries@;
        let ghost mut i: int = 0;
        assert(imported.take(0) =~= Seq::<Glossary>::empty());
        for g in it: glossaries
            invariant
                imported == it.seq(),
                i == it.index(),
                0 <= i <= imported.len(),
                self.data.glossaries@ == merged_glossaries(start, imported.take(i)),
                only_glossaries_changed(old(self).data, self.data),
        {
            proof {
                assert(imported.take(i + 1).drop_last() =~= imported.take(i));
                assert(imported.take(i + 1).last() == g);
            }
            let ok = !is_blank(chars_of(g.id.as_str()).as_slice()) && !is_blank(
                chars_of(g.name.as_str()).as_slice(),
            );
            if ok {
                upsert_glossary(&mut self.data.glossaries, g);
            }
            proof {
                i = i + 1;
            }
        }
        assert(imported.take(i) =~= imported);
    }

    /// Merges imported prompts: each with an id, a name and content replaces
    /// the prompt with its id, or is appended.
    pub fn replace_prompts(&mut self, prompts: Vec<PromptTemplate>)
        ensures
            final(self).data_spec().prompts@ == merged_prompts(
                old(self).data_spec().prompts@,
                prompts@,
            ),
            only_prompts_changed(old(self).data_spec(), final(self).data_spec()),
    {
        let ghost start = self.data.prompts@;
        let ghost imported = prompts@;
        let ghost mut i: int = 0;
        assert(imported.take(0) =~= Seq::<PromptTemplate>::empty());
        for p in it: prompts
            invariant
                imported == it.seq(),
                i == it.index(),
                0 <= i <= imported.len(),
                self.data.prompts@ == merged_prompts(start, imported.take(i)),
                only_prompts_changed(old(self).data, self.data),
        {
            proof {
                assert(imported.take(i + 1).drop_last() =~= imported.take(i));
                assert(imported.take(i + 1).last() == p);
            }
            let ok = !is_blank(chars_of(p.id.as_str()).as_slice()) && !is_blank(
                chars_of(p.name.as_str()).as_slice(),
            ) && !is_blank(chars_of(p.content.as_str()).as_slice());
            if ok {
                upsert_prompt(&mut self.data.prompts, p);
            }
            proof {
                i = i + 1;
            }
        }
        assert(imported.take(i) =~= imported);
    }
}

fn duplicate_prompt(p: &PromptTemplate) -> (r: PromptTemplate)
    ensures
        r == *p,
{
    PromptTemplate {
        id: p.id.clone(),
        name: p.name.clone(),
        content: p.content.clone(),
        updated_at: p.updated_at.clone(),
    }
}

fn duplicate_settings(s: &AppSettings) -> (r: AppSettings)
    ensures
        r == *s,
{
    AppSettings {
        language: s.language.clone(),
        proxy_url: s.proxy_url.clone(),
        web_host: s.web_host.clone(),
        web_port: s.web_port,
        ai_timeout_seconds: s.ai_timeout_seconds,
        logging_enabled: s.logging_enabled,
        log_level: s.log_level.clone(),
        download_location: s.download_location,
        custom_download_directory: s.custom_download_directory.clone(),
        auto_download_files: s.auto_download_files,
        ask_download_location: s.ask_download_location,
        last_download_directory: s.last_download_directory.clone(),
    }
}

fn duplicate_glossary(g: &Glossary) -> (r: Glossary)
    ensures
        r.id == g.id,
        r.name == g.name,
        r.source_language == g.source_language,
        r.target_language == g.target_language,
        r.updated_at == g.updated_at,
        r.entries@ == g.entries@,
{
    let mut entries: Vec<GlossaryEntry> = Vec::new();
    let mut i: usize = 0;
    while i < g.entries.len()
        invariant
            i <= g.entries@.len(),
            entries@ == g.entries@.take(i as int),
        decreases g.entries@.len() - i,
    {
        let e = &g.entries[i];
        entries.push(
            GlossaryEntry {
                source: e.source.clone(),
                target: e.target.clone(),
                note: crate::models::copy_opt_string(&e.note),
            },
        );
        i = i + 1;
        assert(g.entries@.take(i as int) =~= g.entries@.take(i - 1).push(g.entries@[i - 1]));
    }
    assert(g.entries@.take(g.entries@.len() as int) =~= g.entries@);
    Glossary {
        id: g.id.clone(),
        name: g.name.clone(),
        source_language: g.source_language.clone(),
        target_language: g.target_language.clone(),
        entries,
        updated_at: g.updated_at.clone(),
    }
}


// ---------------------------------------------------------------------------
// Laws
// ---------------------------------------------------------------------------

/// Removing an id removes exactly the entries with that id.
pub proof fn lemma_without_history_id(h: Seq<HistoryEntry>, id: Seq<char>)
    ensures
        forall|j: int|
            0 <= j < without_history_id(h, id).len() ==> (#[trigger] without_history_id(
                h,
                id,
            )[j]).id@ != id,
        without_history_id(h, id).len() <= h.len(),
        forall|e: HistoryEntry| h.contains(e) && e.id@ != id ==> without_history_id(h, id).contains(e),
    decreases h.len(),
{
    if h.len() > 0 {
        let p = h.drop_last();
        lemma_without_history_id(p, id);
        let w = without_history_id(p, id);
        assert forall|e: HistoryEntry| h.contains(e) && e.id@ != id implies without_history_id(
            h,
            id,
        ).contains(e) by {
            let k = choose|k: int| 0 <= k < h.len() && h[k] == e;
            if k < h.len() - 1 {
                assert(p[k] == e);
                assert(p.contains(e));
                let m = choose|m: int| 0 <= m < w.len() && w[m] == e;
                if h.last().id@ != id {
                    assert(without_history_id(h, id)[m] == e);
                }
            } else {
                assert(without_history_id(h, id).last() == e);
            }
        }
    }
}

/// An added history entry is the newest one and the only one with its id;
/// the history never holds more than 100 entries; and every other entry that
/// fits stays, in the same order.
pub proof fn lemma_history_add(history: Seq<HistoryEntry>, stored: HistoryEntry)
    ensures
        ({
            let after = take_at_most(seq![stored] + without_history_id(history, stored.id@), 100);
            &&& after.len() <= 100
            &&& after[0] == stored
            &&& forall|j: int| 1 <= j < after.len() ==> (#[trigger] after[j]).id@ != stored.id@
            &&& forall|j: int|
                1 <= j < after.len() ==> after[j] == without_history_id(history, stored.id@)[j - 1]
        }),
{
    lemma_without_history_id(history, stored.id@);
    let w = without_history_id(history, stored.id@);
    let after = take_at_most(seq![stored] + w, 100);
    assert forall|j: int| 1 <= j < after.len() implies (#[trigger] after[j]).id@ != stored.id@ by {
        assert(after[j] == w[j - 1]);
    }
}

/// Deleting any prompt keeps the built-in prompt: every prompt with the
/// built-in id stays.
pub proof fn lemma_default_prompt_kept(ps: Seq<PromptTemplate>, id: Seq<char>)
    ensures
        forall|p: PromptTemplate|
            ps.contains(p) && p.id@ == crate::models::default_prompt_id() ==> remaining_prompts(
                ps,
                id,
            ).contains(p),
    decreases ps.len(),
{
    if ps.len() > 0 {
        let q = ps.drop_last();
        lemma_default_prompt_kept(q, id);
        assert forall|p: PromptTemplate|
            ps.contains(p) && p.id@ == crate::models::default_prompt_id() implies remaining_prompts(
            ps,
            id,
        ).contains(p) by {
            let k = choose|k: int| 0 <= k < ps.len() && ps[k] == p;
            if k < ps.len() - 1 {
                assert(q[k] == p);
                assert(q.contains(p));
                let r = remaining_prompts(q, id);
                let m = choose|m: int| 0 <= m < r.len() && r[m] == p;
                if ps.last().id@ != id || id == crate::models::default_prompt_id() {
                    assert(remaining_prompts(ps, id)[m] == p);
                }
            } else {
                assert(remaining_prompts(ps, id).last() == p);
            }
        }
    }
}

/// The keys are pairwise distinct.
pub open spec fn keys_unique(keys: Seq<Seq<char>>) -> bool {
    forall|i: int, j: int| 0 <= i < j < keys.len() ==> keys[i] != keys[j]
}

/// Replacing by id keeps ids unique: saving a provider never creates a second
/// provider with the same id.
pub proof fn lemma_provider_ids_stay_unique(ps: Seq<Provider>, q: Provider)
    requires
        keys_unique(provider_ids(ps)),
    ensures
        keys_unique(provider_ids(upserted(ps, provider_ids(ps), q, q.id@))),
{
    let keys = provider_ids(ps);
    lemma_first_key_index(keys, q.id@);
    let after = upserted(ps, keys, q, q.id@);
    let k = first_key_index(keys, q.id@);
    let ak = provider_ids(after);
    assert forall|i: int, j: int| 0 <= i < j < ak.len() implies ak[i] != ak[j] by {
        if k >= 0 {
            assert(ak[i] == (if i == k { q.id@ } else { keys[i] }));
            assert(ak[j] == (if j == k { q.id@ } else { keys[j] }));
        } else {
            if j == ps.len() {
                assert(ak[j] == q.id@);
                assert(ak[i] == keys[i]);
            } else {
                assert(ak[i] == keys[i]);
                assert(ak[j] == keys[j]);
            }
        }
    }
}
/// Copies of system log lines.
fn copy_system_logs(logs: &Vec<SystemLogEntry>) -> (r: Vec<SystemLogEntry>)
    ensures
        r@ == logs@,
{
    let mut out: Vec<SystemLogEntry> = Vec::new();
    let mut i: usize = 0;
    while i < logs.len()
        invariant
            i <= logs@.len(),
            out@ == logs@.take(i as int),
        decreases logs@.len() - i,
    {
        let e = &logs[i];
        out.push(
            SystemLogEntry {
                id: e.id.clone(),
                timestamp: e.timestamp.clone(),
                level: e.level.clone(),
                scope: e.scope.clone(),
                message: e.message.clone(),
            },
        );
        i = i + 1;
        assert(logs@.take(i as int) =~= logs@.take(i - 1).push(logs@[i - 1]));
    }
    assert(logs@.take(logs@.len() as int) =~= logs@);
    out
}

/// Copies of recorded conversations.
fn copy_conversations(logs: &Vec<AiConversationLog>) -> (r: Vec<AiConversationLog>)
    ensures
        r@ == logs@,
{
    let mut out: Vec<AiConversationLog> = Vec::new();
    let mut i: usize = 0;
    while i < logs.len()
        invariant
            i <= logs@.len(),
            out@ == logs@.take(i as int),
        decreases logs@.len() - i,
    {
        let e = &logs[i];
        out.push(
            AiConversationLog {
                id: e.id.clone(),
                timestamp: e.timestamp.clone(),
                operation: e.operation.clone(),
                provider: e.provider.clone(),
                model: e.model.clone(),
                request: e.request.clone(),
                response: e.response.clone(),
                duration_ms: e.duration_ms,
                success: e.success,
                error: match &e.error {
                    Some(m) => Some(m.clone()),
                    None => None,
                },
            },
        );
        i = i + 1;
        assert(logs@.take(i as int) =~= logs@.take(i - 1).push(logs@[i - 1]));
    }
    assert(logs@.take(logs@.len() as int) =~= logs@);
    out
}

} // verus!

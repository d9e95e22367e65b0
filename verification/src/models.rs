//! The data model shared by the store, the AI client and the file pipeline.
use vstd::prelude::*;

verus! {

/// An OpenAI-compatible AI provider configured by the user.
#[derive(Debug, Clone)]
pub struct Provider {
    pub id: String,
    pub name: String,
    pub base_url: String,
    pub model: String,
    pub reasoning_parser: ReasoningParser,
    pub api_key: String,
    pub proxy_mode: ProxyMode,
    pub enabled: bool,
    pub supports_images: bool,
    pub context_size: usize,
    pub max_segments: usize,
    pub max_concurrent: usize,
    pub text_translation_model: bool,
}

/// How a provider's reasoning output is parsed.
#[derive(Debug, Clone, Copy, PartialEq, Eq, Structural)]
pub enum ReasoningParser {
    Auto,
    Openai,
    Qwen3,
    DeepseekR1,
    DeepseekV3,
    Glm45,
    Gemma4,
    Granite,
}

impl Default for ReasoningParser {
    fn default() -> (r: Self)
        ensures
            r == ReasoningParser::Auto,
    {
        ReasoningParser::Auto
    }
}

/// Which proxy a provider's requests go through.
#[derive(Debug, Clone, Copy, PartialEq, Eq, Structural)]
pub enum ProxyMode {
    /// No proxy at all (serialized as `none`).
    Direct,
    Settings,
    System,
}

impl Default for ProxyMode {
    fn default() -> (r: Self)
        ensures
            r == ProxyMode::Settings,
    {
        ProxyMode::Settings
    }
}

/// The value a missing `enabled` flag takes.
pub fn default_true() -> (r: bool)
    ensures
        r,
{
    true
}

/// The context size, in tokens, that a provider has when none is given.
pub fn default_context_size() -> (r: usize)
    ensures
        r == 32_768,
{
    32_768
}

/// The number of segments a batch holds at most when none is given.
pub fn default_max_segments() -> (r: usize)
    ensures
        r == 16,
{
    16
}

/// The number of concurrent requests a provider allows when none is given.
pub fn default_max_concurrent() -> (r: usize)
    ensures
        r == 2,
{
    2
}

/// One source term of a glossary and its translation.
#[derive(Debug, Clone)]
pub struct GlossaryEntry {
    pub source: String,
    pub target: String,
    pub note: Option<String>,
}

/// A named list of terminology for a language pair.
#[derive(Debug, Clone)]
pub struct Glossary {
    pub id: String,
    pub name: String,
    pub source_language: String,
    pub target_language: String,
    pub entries: Vec<GlossaryEntry>,
    pub updated_at: String,
}

/// A reusable translation instruction with `{{...}}` placeholders.
#[derive(Debug, Clone)]
pub struct PromptTemplate {
    pub id: String,
    pub name: String,
    pub content: String,
    pub updated_at: String,
}

/// User settings.
#[derive(Debug, Clone)]
pub struct AppSettings {
    pub language: String,
    pub proxy_url: String,
    pub web_host: String,
    pub web_port: u16,
    pub ai_timeout_seconds: u64,
    pub logging_enabled: bool,
    pub log_level: String,
    pub download_location: DownloadLocation,
    pub custom_download_directory: String,
    pub auto_download_files: bool,
    pub ask_download_location: bool,
    pub last_download_directory: String,
}

/// Where translated files are downloaded to.
#[derive(Debug, Clone, Copy, PartialEq, Eq, Structural)]
pub enum DownloadLocation {
    Source,
    Downloads,
    Custom,
}

impl Default for DownloadLocation {
    fn default() -> (r: Self)
        ensures
            r == DownloadLocation::Source,
    {
        DownloadLocation::Source
    }
}

/// The interface language used when none is given.
pub fn default_language() -> (r: String)
    ensures
        r@ == "en"@,
{
    String::from_str("en")
}

/// The Web listening address used when none is given.
pub fn default_web_host() -> (r: String)
    ensures
        r@ == "127.0.0.1"@,
{
    String::from_str("127.0.0.1")
}

/// The Web listening port used when none is given.
pub fn default_web_port() -> (r: u16)
    ensures
        r == 48731,
{
    48731
}

/// The AI request timeout, in seconds, used when none is given.
pub fn default_ai_timeout_seconds() -> (r: u64)
    ensures
        r == 180,
{
    180
}

/// The log level used when none is given.
pub fn default_log_level() -> (r: String)
    ensures
        r@ == "info"@,
{
    String::from_str("info")
}

/// The settings of a fresh installation.
pub open spec fn is_default_settings(s: AppSettings) -> bool {
    &&& s.language@ == "en"@
    &&& s.proxy_url@.len() == 0
    &&& s.web_host@ == "127.0.0.1"@
    &&& s.web_port == 48731
    &&& s.ai_timeout_seconds == 180
    &&& !s.logging_enabled
    &&& s.log_level@ == "info"@
    &&& s.download_location == DownloadLocation::Source
    &&& s.custom_download_directory@.len() == 0
    &&& !s.auto_download_files
    &&& !s.ask_download_location
    &&& s.last_download_directory@.len() == 0
}

impl Default for AppSettings {
    fn default() -> (r: Self)
        ensures
            is_default_settings(r),
    {
        AppSettings {
            language: default_language(),
            proxy_url: String::new(),
            web_host: default_web_host(),
            web_port: default_web_port(),
            ai_timeout_seconds: default_ai_timeout_seconds(),
            logging_enabled: false,
            log_level: default_log_level(),
            download_location: DownloadLocation::Source,
            custom_download_directory: String::new(),
            auto_download_files: false,
            ask_download_location: false,
            last_download_directory: String::new(),
        }
    }
}

/// Everything the application persists.
#[derive(Debug, Clone)]
pub struct AppData {
    pub providers: Vec<Provider>,
    pub prompts: Vec<PromptTemplate>,
    pub glossaries: Vec<Glossary>,
    pub settings: AppSettings,
    pub history: Vec<HistoryEntry>,
    pub system_logs: Vec<SystemLogEntry>,
    pub ai_conversations: Vec<AiConversationLog>,
}

/// The id of the built-in prompt, which is never deleted.
pub open spec fn default_prompt_id() -> Seq<char> {
    "faithful-translation"@
}

/// The built-in prompt.
pub open spec fn is_default_prompt(p: PromptTemplate) -> bool {
    &&& p.id@ == default_prompt_id()
    &&& p.name@ == "Faithful translation"@
    &&& p.content@
        == "Translate faithfully from {{source_language}} to {{target_language}}. Preserve the original meaning, tone, formatting, markup and line breaks. Use the terminology below when relevant. Return only the translated text.\n\n{{glossary}}"@
    &&& p.updated_at@ == "2026-01-01T00:00:00Z"@
}

/// The prompts of a fresh installation: the built-in prompt alone.
pub fn default_prompts() -> (r: Vec<PromptTemplate>)
    ensures
        r@.len() == 1,
        is_default_prompt(r@[0]),
{
    let mut prompts: Vec<PromptTemplate> = Vec::new();
    prompts.push(
        PromptTemplate {
            id: String::from_str("faithful-translation"),
            name: String::from_str("Faithful translation"),
            content: String::from_str(
                "Translate faithfully from {{source_language}} to {{target_language}}. Preserve the original meaning, tone, formatting, markup and line breaks. Use the terminology below when relevant. Return only the translated text.\n\n{{glossary}}",
            ),
            updated_at: String::from_str("2026-01-01T00:00:00Z"),
        },
    );
    prompts
}

impl Default for AppData {
    fn default() -> (r: Self)
        ensures
            r.providers@.len() == 0,
            r.prompts@.len() == 1,
            is_default_prompt(r.prompts@[0]),
            r.glossaries@.len() == 0,
            is_default_settings(r.settings),
            r.history@.len() == 0,
            r.system_logs@.len() == 0,
            r.ai_conversations@.len() == 0,
    {
        AppData {
            providers: Vec::new(),
            prompts: default_prompts(),
            glossaries: Vec::new(),
            settings: AppSettings::default(),
            history: Vec::new(),
            system_logs: Vec::new(),
            ai_conversations: Vec::new(),
        }
    }
}

/// One translation in the history.
#[derive(Debug, Clone)]
pub struct HistoryEntry {
    pub id: String,
    pub kind: String,
    pub source_language: String,
    pub target_language: String,
    pub source_text: String,
    pub translated_text: String,
    pub filename: Option<String>,
    pub provider: String,
    pub model: String,
    pub created_at: String,
}

/// The options of a file translation, as the Web form sends them.
#[derive(Debug, Clone)]
pub struct TranslateOptions {
    pub source_language: String,
    pub target_language: String,
    pub provider_id: String,
    pub prompt_id: Option<String>,
    pub glossary_ids: Vec<String>,
    pub reasoning_effort: String,
    pub summarize: bool,
    pub output_mode: FileOutputMode,
}

/// Whether a translated file holds the translation alone or both texts.
#[derive(Debug, Clone, Copy, PartialEq, Eq, Structural)]
pub enum FileOutputMode {
    Translated,
    Bilingual,
}

impl Default for FileOutputMode {
    fn default() -> (r: Self)
        ensures
            r == FileOutputMode::Translated,
    {
        FileOutputMode::Translated
    }
}

impl TranslateOptions {
    /// A translation request with these options and no text.
    pub fn into_request(self) -> (r: TranslateRequest)
        ensures
            r.text@.len() == 0,
            r.source_language == self.source_language,
            r.target_language == self.target_language,
            r.provider_id == self.provider_id,
            r.prompt_id == self.prompt_id,
            r.glossary_ids@ == self.glossary_ids@,
            r.reasoning_effort == self.reasoning_effort,
            r.summarize == self.summarize,
            r.context_summary.is_none(),
    {
        TranslateRequest {
            text: String::new(),
            source_language: self.source_language,
            target_language: self.target_language,
            provider_id: self.provider_id,
            prompt_id: self.prompt_id,
            glossary_ids: self.glossary_ids,
            reasoning_effort: self.reasoning_effort,
            summarize: self.summarize,
            context_summary: None,
        }
    }
}

/// A request to translate text.
#[derive(Debug, Clone)]
pub struct TranslateRequest {
    pub text: String,
    pub source_language: String,
    pub target_language: String,
    pub provider_id: String,
    pub prompt_id: Option<String>,
    pub glossary_ids: Vec<String>,
    pub reasoning_effort: String,
    pub summarize: bool,
    pub context_summary: Option<String>,
}

/// The reasoning effort used when none is given.
pub fn default_reasoning_effort() -> (r: String)
    ensures
        r@ == "none"@,
{
    String::from_str("none")
}

/// A copy of a string.
pub fn copy_string(s: &String) -> (r: String)
    ensures
        r == *s,
        r@ == s@,
{
    s.clone()
}

/// A copy of an optional string.
pub fn copy_opt_string(s: &Option<String>) -> (r: Option<String>)
    ensures
        r == *s,
{
    match s {
        Some(v) => Some(v.clone()),
        None => None,
    }
}

/// A copy of a vector of strings.
pub fn copy_strings(v: &Vec<String>) -> (r: Vec<String>)
    ensures
        r@ == v@,
{
    let mut r: Vec<String> = Vec::new();
    let mut i: usize = 0;
    while i < v.len()
        invariant
            i <= v@.len(),
            r@ == v@.take(i as int),
        decreases v@.len() - i,
    {
        r.push(v[i].clone());
        i = i + 1;
        assert(v@.take(i as int) == v@.take(i - 1).push(v@[i - 1]));
    }
    assert(v@.take(v@.len() as int) == v@);
    r
}

impl TranslateRequest {
    /// The two requests hold the same values.
    pub open spec fn same_as(self, other: TranslateRequest) -> bool {
        &&& self.text == other.text
        &&& self.source_language == other.source_language
        &&& self.target_language == other.target_language
        &&& self.provider_id == other.provider_id
        &&& self.prompt_id == other.prompt_id
        &&& self.glossary_ids@ == other.glossary_ids@
        &&& self.reasoning_effort == other.reasoning_effort
        &&& self.summarize == other.summarize
        &&& self.context_summary == other.context_summary
    }

    /// A copy of this request.
    pub fn duplicate(&self) -> (r: TranslateRequest)
        ensures
            r.same_as(*self),
    {
        TranslateRequest {
            text: copy_string(&self.text),
            source_language: copy_string(&self.source_language),
            target_language: copy_string(&self.target_language),
            provider_id: copy_string(&self.provider_id),
            prompt_id: copy_opt_string(&self.prompt_id),
            glossary_ids: copy_strings(&self.glossary_ids),
            reasoning_effort: copy_string(&self.reasoning_effort),
            summarize: self.summarize,
            context_summary: copy_opt_string(&self.context_summary),
        }
    }
}

/// The result of a text translation.
#[derive(Debug)]
pub struct TranslationResult {
    pub translated_text: String,
    pub provider: String,
    pub model: String,
}

/// Progress of a file translation.
#[derive(Debug, Clone)]
pub struct FileProgress {
    pub stage: String,
    pub total_segments: usize,
    pub translated_segments: usize,
    pub failed_segments: usize,
    pub skipped_segments: usize,
    pub total_batches: usize,
    pub completed_batches: usize,
    pub streaming_batch: Option<usize>,
    pub streaming_segments: usize,
    pub streaming_batch_segments: usize,
    pub streaming_text: Option<String>,
}

/// A batch of a file that could not be translated.
#[derive(Debug, Clone)]
pub struct FileBatchFailure {
    pub id: usize,
    pub segment_count: usize,
    pub attempts: usize,
    pub error: String,
}

/// The state of a file translation job.
#[derive(Debug, Clone, Copy, PartialEq, Eq, Structural)]
pub enum FileJobState {
    Queued,
    Processing,
    Completed,
    Failed,
    Cancelled,
}

/// What the Web interface shows of a file translation job.
#[derive(Debug, Clone)]
pub struct FileJobStatus {
    pub id: String,
    pub filename: String,
    pub output_mode: FileOutputMode,
    pub state: FileJobState,
    pub stage: String,
    pub total_segments: usize,
    pub translated_segments: usize,
    pub failed_segments: usize,
    pub skipped_segments: usize,
    pub total_batches: usize,
    pub completed_batches: usize,
    pub failed_batches: Vec<FileBatchFailure>,
    pub streaming_batch: Option<usize>,
    pub streaming_segments: usize,
    pub streaming_batch_segments: usize,
    pub streaming_text: Option<String>,
    pub result_filename: String,
    pub media_type: String,
    pub error: Option<String>,
    pub created_at: String,
    pub source_path: Option<String>,
    pub downloaded_path: Option<String>,
}

/// One line of the system log.
#[derive(Debug, Clone)]
pub struct SystemLogEntry {
    pub id: String,
    pub timestamp: String,
    pub level: String,
    pub scope: String,
    pub message: String,
}

/// One recorded exchange with an AI provider.
#[derive(Debug, Clone)]
pub struct AiConversationLog {
    pub id: String,
    pub timestamp: String,
    pub operation: String,
    pub provider: String,
    pub model: String,
    pub request: String,
    pub response: String,
    pub duration_ms: u64,
    pub success: bool,
    pub error: Option<String>,
}

/// Both logs, as the Web interface shows them.
#[derive(Debug, Clone)]
pub struct LogsData {
    pub system: Vec<SystemLogEntry>,
    pub conversations: Vec<AiConversationLog>,
}

/// A model that a provider offers.
#[derive(Debug, Clone)]
pub struct ProviderModel {
    pub id: String,
    pub context_size: Option<usize>,
}

} // verus!

//! Settings: where they come from, and which of them wins.
use vstd::prelude::*;
use vstd::string::StringExecFns;
use crate::client::{self, lossy_text};
use crate::text::{
    self, choose_label, same_text, text_contains, text_starts_with, to_chars, trim_chars, trim_text,
};

verus! {

/// The model that is used where no other is known.
pub const DEFAULT_MODEL: &'static str = "gpt-4";

/// Where requests go if the user names no other place.
pub const DEFAULT_BASE_URL: &'static str = "https://api.openai.com/v1";

/// Where settings are kept if the user names no other place.
pub const DEFAULT_CONFIG_PATH: &'static str = "llmperf-rs.yaml";

/// Where the settings of the whole system are kept.
pub const SYSTEM_CONFIG_PATH: &'static str = "/etc/llmperf-rs/llmperf-rs.yaml";

/// The settings. `S` is how a span of time in seconds is written down; such a
/// value is only handed on.
#[derive(Debug, Clone, PartialEq)]
pub struct Config<S> {
    pub base_url: Option<String>,
    pub api_key: Option<String>,
    pub model: String,
    pub lang: String,
    pub time_slice_interval: S,
    pub test: Option<TestConfig<S>>,
    pub chat: Option<ChatConfig>,
}

/// The settings of a test.
#[derive(Debug, Clone, PartialEq)]
pub struct TestConfig<S> {
    pub concurrent: Option<usize>,
    pub context: Option<String>,
    pub max_tokens: Option<u32>,
    pub env_monitor: Option<bool>,
    pub time_slice: Option<S>,
}

/// The settings of a chat.
#[derive(Debug, Clone, PartialEq, Eq)]
pub struct ChatConfig {
    pub max_tokens: Option<u32>,
    pub prompt: Option<String>,
}

/// Where requests go and the key that they carry, from outside the settings:
/// from the command line, or from the environment.
#[derive(Debug, Clone, PartialEq, Eq)]
pub struct CliOverrides {
    pub base_url: Option<String>,
    pub api_key: Option<String>,
}

/// The first value if there is one, and else the second.
pub open spec fn or_else<T>(a: Option<T>, b: Option<T>) -> Option<T> {
    match a {
        Some(_) => a,
        None => b,
    }
}

/// Takes the first value if there is one, and else the second.
pub fn first_of<T>(a: Option<T>, b: Option<T>) -> (c: Option<T>)
    ensures
        c == or_else(a, b),
{
    match a {
        Some(v) => Some(v),
        None => b,
    }
}

/// The model that is used where no other is known.
pub fn default_model() -> (model: String)
    ensures
        model@ == "gpt-4"@,
{
    DEFAULT_MODEL.to_owned()
}

/// Which file settings are read from.
#[derive(Debug, Clone, Copy, PartialEq, Eq, Structural)]
pub enum ConfigSource {
    /// The one that was asked for.
    Given,
    /// The one of the whole system.
    System,
    /// None.
    Nowhere,
}

/// Chooses the file that settings are read from: the one that was asked for,
/// or else the one of the whole system.
pub fn choose_source(given_exists: bool, system_exists: bool) -> (source: ConfigSource)
    ensures
        source is Given <==> given_exists,
        source is System <==> !given_exists && system_exists,
        source is Nowhere <==> !given_exists && !system_exists,
{
    if given_exists {
        ConfigSource::Given
    } else if system_exists {
        ConfigSource::System
    } else {
        ConfigSource::Nowhere
    }
}

/// The language that labels are in: that of the settings, or else the one
/// that was detected.
pub fn choose_lang(configured: Option<String>, detected: String) -> (lang: String)
    ensures
        lang == (match configured {
            Some(lang) => lang,
            None => detected,
        }),
{
    match configured {
        Some(lang) => lang,
        None => detected,
    }
}

// ---------------------------------------------------------------------------
// Questions to the user
// ---------------------------------------------------------------------------

/// What the user is asked for.
#[derive(Debug, Clone, Copy, PartialEq, Eq, Structural)]
pub enum Question {
    BaseUrl,
    ApiKey,
}

/// The question that comes next: the user is asked for what is missing, first
/// where requests go, and then for the key.
pub open spec fn missing<S>(config: Config<S>) -> Option<Question> {
    if config.base_url is None {
        Some(Question::BaseUrl)
    } else if config.api_key is None {
        Some(Question::ApiKey)
    } else {
        None
    }
}

/// How many things the user has to be asked for.
pub open spec fn questions_left<S>(config: Config<S>) -> nat {
    (if config.base_url is None {
        1nat
    } else {
        0
    }) + (if config.api_key is None {
        1nat
    } else {
        0
    })
}

/// Asks a question.
pub fn question_text(question: Question, lang: &str) -> (s: String)
    ensures
        question is BaseUrl ==> s@ == text::label(lang@ == "zh"@, "API 地址"@, "Base URL"@)
            + " [default: "@ + DEFAULT_BASE_URL@ + "]: "@,
        question is ApiKey ==> s@ == "API Key: "@,
{
    match question {
        Question::BaseUrl => choose_label(
            same_text(lang, "zh"),
            "API 地址",
            "Base URL",
        ).to_owned().concat(" [default: ").concat(DEFAULT_BASE_URL).concat("]: "),
        Question::ApiKey => "API Key: ".to_owned(),
    }
}

/// What `input` says, without white space around it, or `default` where it
/// says nothing.
pub open spec fn input_or(input: Seq<char>, default: Seq<char>) -> Seq<char> {
    if text::trim(input).len() > 0 {
        text::trim(input)
    } else {
        default
    }
}

fn read_input(input: &str, default: &str) -> (s: String)
    ensures
        s@ == input_or(input@, default@),
{
    let trimmed: String = trim_text(input);
    if trimmed.as_str().is_empty() {
        default.to_owned()
    } else {
        trimmed
    }
}

/// Asks whether to save the settings.
pub fn save_question(lang: &str) -> (s: &'static str)
    ensures
        s@ == text::label(
            lang@ == "zh"@,
            "是否保存配置文件? (y/N): "@,
            "Save config file? (y/N): "@,
        ),
{
    choose_label(same_text(lang, "zh"), "是否保存配置文件? (y/N): ", "Save config file? (y/N): ")
}

/// Whether an answer is a yes: the letter `y` and nothing else.
pub open spec fn is_yes(input: Seq<char>) -> bool {
    text::trim(input) == seq!['y'] || text::trim(input) == seq!['Y']
}

/// Reads whether to save the settings.
pub fn wants_save(input: &str) -> (yes: bool)
    ensures
        yes == is_yes(input@),
{
    let answer: Vec<char> = trim_chars(&to_chars(input));
    let yes: bool = answer.len() == 1 && (answer[0] == 'y' || answer[0] == 'Y');
    proof {
        if answer@.len() == 1 {
            assert(answer@ =~= seq![answer@[0]]);
        }
        assert(seq!['y'].len() == 1 && seq!['y'][0] == 'y');
        assert(seq!['Y'].len() == 1 && seq!['Y'][0] == 'Y');
    }
    yes
}

/// Asks where to save the settings.
pub fn path_question(lang: &str) -> (s: String)
    ensures
        s@ == text::label(lang@ == "zh"@, "保存路径"@, "Save path"@) + " [default: "@
            + DEFAULT_CONFIG_PATH@ + "]: "@,
{
    choose_label(same_text(lang, "zh"), "保存路径", "Save path").to_owned().concat(
        " [default: ",
    ).concat(DEFAULT_CONFIG_PATH).concat("]: ")
}

/// Reads where to save the settings.
pub fn save_path(input: &str) -> (path: String)
    ensures
        path@ == input_or(input@, DEFAULT_CONFIG_PATH@),
{
    read_input(input, DEFAULT_CONFIG_PATH)
}

/// Says where the settings were saved.
pub fn saved_text(path: &str, lang: &str) -> (s: String)
    ensures
        s@ == text::label(lang@ == "zh"@, "配置文件已保存"@, "Config saved"@) + ": "@ + path@,
{
    choose_label(same_text(lang, "zh"), "配置文件已保存", "Config saved").to_owned().concat(
        ": ",
    ).concat(path)
}

impl<S> Config<S> {
    /// The settings of a user who has made none.
    pub fn without_file(time_slice_interval: S) -> (config: Self)
        ensures
            config.base_url is None,
            config.api_key is None,
            config.model@ == "gpt-4"@,
            config.lang@ == "en"@,
            config.time_slice_interval == time_slice_interval,
            config.test is None,
            config.chat is None,
    {
        Config {
            base_url: None,
            api_key: None,
            model: default_model(),
            lang: "en".to_owned(),
            time_slice_interval,
            test: None,
            chat: None,
        }
    }

    /// Fills the settings in: the command line comes first, then the settings
    /// themselves, then the environment.
    pub fn resolve(self, overrides: CliOverrides, env: CliOverrides) -> (config: Self)
        ensures
            config.base_url == or_else(overrides.base_url, or_else(self.base_url, env.base_url)),
            config.api_key == or_else(overrides.api_key, or_else(self.api_key, env.api_key)),
            config.model == self.model,
            config.lang == self.lang,
            config.time_slice_interval == self.time_slice_interval,
            config.test == self.test,
            config.chat == self.chat,
    {
        Config {
            base_url: first_of(overrides.base_url, first_of(self.base_url, env.base_url)),
            api_key: first_of(overrides.api_key, first_of(self.api_key, env.api_key)),
            model: self.model,
            lang: self.lang,
            time_slice_interval: self.time_slice_interval,
            test: self.test,
            chat: self.chat,
        }
    }

    /// The question that comes next, if anything is missing.
    pub fn next_question(&self) -> (question: Option<Question>)
        ensures
            question == missing(*self),
    {
        if self.base_url.is_none() {
            Some(Question::BaseUrl)
        } else if self.api_key.is_none() {
            Some(Question::ApiKey)
        } else {
            None
        }
    }

    /// Whether the user is asked to save the settings: if something was
    /// missing, or if there is no file yet.
    pub fn asks_to_save(&self, source: ConfigSource) -> (ask: bool)
        ensures
            ask == (missing(*self) is Some || source is Nowhere),
    {
        self.next_question().is_some() || match source {
            ConfigSource::Nowhere => true,
            _ => false,
        }
    }

    /// Takes the answer to a question. There is a default for where requests
    /// go, but none for the key.
    pub fn prompt_credentials(&mut self, question: Question, input: &str) -> (result: Result<
        (),
        String,
    >)
        ensures
            result is Err <==> question is ApiKey && text::trim(input@).len() == 0,
            result matches Err(e) ==> e@ == text::label(
                old(self).lang@ == "zh"@,
                "API Key 不能为空"@,
                "API Key is required"@,
            ),
            question is BaseUrl ==> text::opt_text(final(self).base_url) == Some(
                input_or(input@, DEFAULT_BASE_URL@),
            ) && final(self).api_key == old(self).api_key,
            question is ApiKey ==> final(self).base_url == old(self).base_url,
            question is ApiKey && result is Ok ==> text::opt_text(final(self).api_key) == Some(
                text::trim(input@),
            ),
            result is Err ==> final(self).api_key == old(self).api_key,
            result is Ok && missing(*old(self)) == Some(question) ==> questions_left(*final(self))
                + 1 == questions_left(*old(self)),
            final(self).model == old(self).model,
            final(self).lang == old(self).lang,
            final(self).time_slice_interval == old(self).time_slice_interval,
            final(self).test == old(self).test,
            final(self).chat == old(self).chat,
    {
        match question {
            Question::BaseUrl => {
                self.base_url = Some(read_input(input, DEFAULT_BASE_URL));
            },
            Question::ApiKey => {
                let key: String = trim_text(input);
                if key.as_str().is_empty() {
                    return Err(
                        choose_label(
                            same_text(self.lang.as_str(), "zh"),
                            "API Key 不能为空",
                            "API Key is required",
                        ).to_owned(),
                    );
                }
                self.api_key = Some(key);
            },
        }
        Ok(())
    }
}

/// The command line wins over the settings, and the settings over the
/// environment; nothing is missing that one of them gives.
pub proof fn law_priority<T>(line: Option<T>, file: Option<T>, env: Option<T>)
    ensures
        line is Some ==> or_else(line, or_else(file, env)) == line,
        line is None && file is Some ==> or_else(line, or_else(file, env)) == file,
        line is None && file is None ==> or_else(line, or_else(file, env)) == env,
{
}

// ---------------------------------------------------------------------------
// The language of the system
// ---------------------------------------------------------------------------

/// What says which language a system uses. What a system does not have is
/// left out.
#[derive(Debug, Clone)]
pub struct LangEvidence {
    /// The variables that name a locale.
    pub variables: Vec<String>,
    /// What the program `locale` prints.
    pub locale: Option<Vec<u8>>,
    /// The file with the locale of the system.
    pub locale_conf: Option<String>,
    /// The list of preferred languages.
    pub preferred: Option<Vec<u8>>,
    /// The name of the current culture.
    pub culture: Option<Vec<u8>>,
}

/// Whether a variable names a Chinese locale.
pub open spec fn names_zh(variables: Seq<String>) -> bool {
    exists|i: int|
        0 <= i < variables.len() && text::starts_with((#[trigger] variables[i])@, "zh"@)
}

/// Whether a system uses Chinese.
pub open spec fn speaks_zh(evidence: LangEvidence) -> bool {
    ||| names_zh(evidence.variables@)
    ||| evidence.locale matches Some(s) && text::contains(client::utf8_text(s@), "zh"@)
    ||| evidence.locale_conf matches Some(s) && (text::contains(s@, "zh_CN"@) || text::contains(
        s@,
        "zh_TW"@,
    ))
    ||| evidence.preferred matches Some(s) && text::contains(client::utf8_text(s@), "zh"@)
    ||| evidence.culture matches Some(s) && text::starts_with(client::utf8_text(s@), "zh"@)
}

fn any_zh(variables: &Vec<String>) -> (found: bool)
    ensures
        found == names_zh(variables@),
{
    for i in 0..variables.len()
        invariant
            forall|k: int| 0 <= k < i ==> !text::starts_with((#[trigger] variables@[k])@, "zh"@),
    {
        if text_starts_with(variables[i].as_str(), "zh") {
            return true;
        }
    }
    false
}

fn bytes_contain_zh(bytes: &Option<Vec<u8>>) -> (found: bool)
    ensures
        found == (bytes matches Some(s) && text::contains(client::utf8_text(s@), "zh"@)),
{
    match bytes {
        Some(s) => text_contains(lossy_text(s).as_str(), "zh"),
        None => false,
    }
}

/// Tells the language of a system: Chinese if anything says so, and else
/// English.
pub fn detect_system_lang(evidence: &LangEvidence) -> (lang: String)
    ensures
        lang@ == (if speaks_zh(*evidence) {
            "zh"@
        } else {
            "en"@
        }),
{
    if any_zh(&evidence.variables) || bytes_contain_zh(&evidence.locale) || bytes_contain_zh(
        &evidence.preferred,
    ) {
        return "zh".to_owned();
    }
    if let Some(s) = &evidence.locale_conf {
        if text_contains(s.as_str(), "zh_CN") || text_contains(s.as_str(), "zh_TW") {
            return "zh".to_owned();
        }
    }
    if let Some(s) = &evidence.culture {
        if text_starts_with(lossy_text(s).as_str(), "zh") {
            return "zh".to_owned();
        }
    }
    "en".to_owned()
}

// ---------------------------------------------------------------------------
// Laws
// ---------------------------------------------------------------------------

/// The user is asked where requests go where that is missing, then for the
/// key where that is, and for nothing else.
pub proof fn law_questions<S>(config: Config<S>)
    ensures
        missing(config) == Some(Question::BaseUrl) <==> config.base_url is None,
        missing(config) == Some(Question::ApiKey) <==> config.base_url is Some
            && config.api_key is None,
        missing(config) is None <==> config.base_url is Some && config.api_key is Some,
        missing(config) is None <==> questions_left(config) == 0,
        questions_left(config) == 2 <==> config.base_url is None && config.api_key is None,
        questions_left(config) <= 2,
{
}

/// What the user types is taken without the white space around it, and the
/// default where nothing else was typed.
pub proof fn law_input(before: Seq<char>, input: Seq<char>, after: Seq<char>, default: Seq<char>)
    requires
        forall|i: int| 0 <= i < before.len() ==> text::is_whitespace(#[trigger] before[i]),
        forall|i: int| 0 <= i < after.len() ==> text::is_whitespace(#[trigger] after[i]),
        input.len() > 0 ==> !text::is_whitespace(input[0]) && !text::is_whitespace(input.last()),
    ensures
        input.len() > 0 ==> input_or(before + input + after, default) == input,
        input.len() == 0 ==> input_or(before + input + after, default) == default,
{
    text::law_trim(before, input, after);
}

/// Only the letter, small or large, is a yes, with any white space around it.
pub proof fn law_yes(before: Seq<char>, input: Seq<char>, after: Seq<char>)
    requires
        forall|i: int| 0 <= i < before.len() ==> text::is_whitespace(#[trigger] before[i]),
        forall|i: int| 0 <= i < after.len() ==> text::is_whitespace(#[trigger] after[i]),
        input.len() > 0 ==> !text::is_whitespace(input[0]) && !text::is_whitespace(input.last()),
    ensures
        is_yes(before + input + after) <==> input.len() == 1 && (input[0] == 'y' || input[0] == 'Y'),
{
    text::law_trim(before, input, after);
    assert(seq!['y'].len() == 1 && seq!['y'][0] == 'y');
    assert(seq!['Y'].len() == 1 && seq!['Y'][0] == 'Y');
    if input.len() == 1 {
        assert(input =~= seq![input[0]]);
    }
}

/// The defaults that the user is offered.
pub proof fn law_defaults()
    ensures
        DEFAULT_MODEL@ == "gpt-4"@,
        DEFAULT_BASE_URL@ == "https://api.openai.com/v1"@,
        DEFAULT_CONFIG_PATH@ == "llmperf-rs.yaml"@,
        SYSTEM_CONFIG_PATH@ == "/etc/llmperf-rs/llmperf-rs.yaml"@,
{
}

/// One piece of evidence is enough: a variable that starts with the name of
/// the language, a locale or a list of languages that holds it, a file that
/// names one of two locales, or a culture that starts with it.
pub proof fn law_one_piece_of_evidence(
    evidence: LangEvidence,
    i: int,
    before: Seq<char>,
    after: Seq<char>,
)
    ensures
        0 <= i < evidence.variables@.len() && evidence.variables@[i]@ == "zh"@ + after
            ==> speaks_zh(evidence),
        evidence.locale matches Some(s) ==> (s@ == vstd::utf8::encode_utf8(before + "zh"@ + after)
            ==> speaks_zh(evidence)),
        evidence.locale_conf matches Some(s) ==> (s@ == before + "zh_CN"@ + after || s@ == before
            + "zh_TW"@ + after ==> speaks_zh(evidence)),
        evidence.preferred matches Some(s) ==> (s@ == vstd::utf8::encode_utf8(
            before + "zh"@ + after,
        ) ==> speaks_zh(evidence)),
        evidence.culture matches Some(s) ==> (s@ == vstd::utf8::encode_utf8("zh"@ + after)
            ==> speaks_zh(evidence)),
{
    text::law_starts_with(after, "zh"@, after);
    text::law_contains(before, "zh"@, after);
    text::law_contains(before, "zh_CN"@, after);
    text::law_contains(before, "zh_TW"@, after);
    client::law_utf8_reads_back(before + "zh"@ + after);
    client::law_utf8_reads_back("zh"@ + after);
}

/// Without evidence the language is another one: no variable starts with its
/// name, nothing else holds it, and the file names neither of two locales.
pub proof fn law_no_evidence(evidence: LangEvidence)
    requires
        forall|i: int|
            0 <= i < evidence.variables@.len() ==> (#[trigger] evidence.variables@[i])@.len() < 2
                || evidence.variables@[i]@[0] != 'z' || evidence.variables@[i]@[1] != 'h',
        evidence.locale matches Some(s) ==> !text::contains(client::utf8_text(s@), "zh"@),
        evidence.preferred matches Some(s) ==> !text::contains(client::utf8_text(s@), "zh"@),
        evidence.culture matches Some(s) ==> client::utf8_text(s@).len() < 2 || client::utf8_text(
            s@,
        )[0] != 'z' || client::utf8_text(s@)[1] != 'h',
        evidence.locale_conf matches Some(s) ==> !text::contains(s@, "zh_CN"@) && !text::contains(
            s@,
            "zh_TW"@,
        ),
    ensures
        !speaks_zh(evidence),
{
    reveal_strlit("zh");
    assert forall|i: int| 0 <= i < evidence.variables@.len() implies !text::starts_with(
        (#[trigger] evidence.variables@[i])@,
        "zh"@,
    ) by {
        let v = evidence.variables@[i]@;
        text::law_starts_with(v, "zh"@, v);
    }
    if let Some(s) = evidence.culture {
        let v = client::utf8_text(s@);
        text::law_starts_with(v, "zh"@, v);
    }
}

} // verus!

//! What the command line and the settings together ask for.
use vstd::prelude::*;
use vstd::string::StringExecFns;
use crate::config::{self, first_of, ChatConfig, Config, TestConfig};
use crate::number::{self, decimal_text};
use crate::text::{self, choose_label, same_text, sub_chars, to_chars, to_text};

verus! {

/// Options that can stand before a subcommand or behind it. `P` is how a path
/// is written down.
#[derive(Debug, Clone, PartialEq, Eq)]
pub struct CommonOptions<P> {
    pub base_url: Option<String>,
    pub api_key: Option<String>,
    pub model: Option<String>,
    pub json: bool,
    pub lang: Option<String>,
    pub save_config: Option<P>,
}

/// Joins the options behind a subcommand with those before it. The ones behind
/// it win.
pub fn effective_options<P>(sub: CommonOptions<P>, base: CommonOptions<P>) -> (options:
    CommonOptions<P>)
    ensures
        options.base_url == config::or_else(sub.base_url, base.base_url),
        options.api_key == config::or_else(sub.api_key, base.api_key),
        options.model == config::or_else(sub.model, base.model),
        options.json == (sub.json || base.json),
        options.lang == config::or_else(sub.lang, base.lang),
        options.save_config == config::or_else(sub.save_config, base.save_config),
{
    CommonOptions {
        base_url: first_of(sub.base_url, base.base_url),
        api_key: first_of(sub.api_key, base.api_key),
        model: first_of(sub.model, base.model),
        json: sub.json || base.json,
        lang: first_of(sub.lang, base.lang),
        save_config: first_of(sub.save_config, base.save_config),
    }
}

/// Puts the language and the model of the command line into the settings.
pub fn apply_options<S>(config: &mut Config<S>, lang: Option<String>, model: Option<String>)
    ensures
        final(config).lang == (match lang {
            Some(lang) => lang,
            None => old(config).lang,
        }),
        final(config).model == (match model {
            Some(model) => model,
            None => old(config).model,
        }),
        final(config).base_url == old(config).base_url,
        final(config).api_key == old(config).api_key,
        final(config).time_slice_interval == old(config).time_slice_interval,
        final(config).test == old(config).test,
        final(config).chat == old(config).chat,
{
    if let Some(lang) = lang {
        config.lang = lang;
    }
    if let Some(model) = model {
        config.model = model;
    }
}

/// The value of an option, and whether the user left it to its default.
#[derive(Debug, Clone, PartialEq, Eq)]
pub struct Setting<T> {
    pub value: T,
    pub is_default: bool,
}

/// The options of a test.
#[derive(Debug, Clone, PartialEq)]
pub struct TestOptions<S> {
    pub concurrent: Setting<usize>,
    pub context: Setting<String>,
    pub max_tokens: Setting<u32>,
    pub env_monitor: Setting<bool>,
    pub time_slice: Option<S>,
}

/// The options of a chat.
#[derive(Debug, Clone, PartialEq, Eq)]
pub struct ChatOptions {
    pub prompt: Option<String>,
    pub max_tokens: Setting<u32>,
}

/// The subcommand that was given.
#[derive(Debug, Clone, PartialEq)]
pub enum Command<S> {
    Test(TestOptions<S>),
    Chat(ChatOptions),
    Unspecified,
}

/// What a test is run with.
#[derive(Debug, Clone, PartialEq)]
pub struct TestParams<S> {
    pub concurrent: usize,
    pub context: String,
    pub max_tokens: u32,
    pub env_monitor: bool,
    pub time_slice: Option<S>,
}

/// The value of an option: what the user gave, or else what the settings say,
/// or else the default.
pub open spec fn chosen<T>(setting: Setting<T>, configured: Option<T>) -> T {
    if setting.is_default && configured is Some {
        configured->0
    } else {
        setting.value
    }
}

/// The options of a test as they are without a subcommand.
pub open spec fn options_of<S>(command: Command<S>) -> (
    Setting<usize>,
    Setting<Seq<char>>,
    Setting<u32>,
    Setting<bool>,
    Option<S>,
) {
    match command {
        Command::Test(o) => (
            o.concurrent,
            Setting { value: o.context.value@, is_default: o.context.is_default },
            o.max_tokens,
            o.env_monitor,
            o.time_slice,
        ),
        _ => (
            Setting { value: 1, is_default: true },
            Setting { value: "1024"@, is_default: true },
            Setting { value: 256, is_default: true },
            Setting { value: false, is_default: true },
            None,
        ),
    }
}

/// The settings of a test, which may be missing.
pub open spec fn concurrent_of<S>(test: Option<TestConfig<S>>) -> Option<usize> {
    match test {
        Some(t) => t.concurrent,
        None => None,
    }
}

/// The context sizes in the settings.
pub open spec fn context_of<S>(test: Option<TestConfig<S>>) -> Option<Seq<char>> {
    match test {
        Some(t) => text::opt_text(t.context),
        None => None,
    }
}

/// The longest answer in the settings of a test.
pub open spec fn max_tokens_of<S>(test: Option<TestConfig<S>>) -> Option<u32> {
    match test {
        Some(t) => t.max_tokens,
        None => None,
    }
}

/// Whether the settings ask for a description of the machine.
pub open spec fn env_monitor_of<S>(test: Option<TestConfig<S>>) -> Option<bool> {
    match test {
        Some(t) => t.env_monitor,
        None => None,
    }
}

/// The length of a slice of time in the settings of a test.
pub open spec fn time_slice_of<S>(test: Option<TestConfig<S>>) -> Option<S> {
    match test {
        Some(t) => t.time_slice,
        None => None,
    }
}

/// The longest answer in the settings of a chat.
pub open spec fn chat_max_tokens_of(chat: Option<ChatConfig>) -> Option<u32> {
    match chat {
        Some(c) => c.max_tokens,
        None => None,
    }
}

/// The prompt in the settings of a chat.
pub open spec fn chat_prompt_of(chat: Option<ChatConfig>) -> Option<Seq<char>> {
    match chat {
        Some(c) => text::opt_text(c.prompt),
        None => None,
    }
}

fn choose_setting<T: Copy>(setting: &Setting<T>, configured: Option<T>) -> (value: T)
    ensures
        value == chosen(*setting, configured),
{
    match configured {
        Some(v) => if setting.is_default {
            v
        } else {
            setting.value
        },
        None => setting.value,
    }
}

fn clone_text(s: &Option<String>) -> (t: Option<String>)
    ensures
        t == *s,
{
    match s {
        Some(s) => Some(s.clone()),
        None => None,
    }
}

/// What a test is run with: what the user gave, or else what the settings
/// say, or else the defaults.
pub fn test_params<S: Copy>(command: &Command<S>, test: &Option<TestConfig<S>>) -> (params:
    TestParams<S>)
    ensures
        params.concurrent == chosen(options_of(*command).0, concurrent_of(*test)),
        params.context@ == chosen(options_of(*command).1, context_of(*test)),
        params.max_tokens == chosen(options_of(*command).2, max_tokens_of(*test)),
        params.env_monitor == chosen(options_of(*command).3, env_monitor_of(*test)),
        params.time_slice == config::or_else(options_of(*command).4, time_slice_of(*test)),
{
    let concurrent_set: Option<usize> = match test {
        Some(t) => t.concurrent,
        None => None,
    };
    let context_set: Option<String> = match test {
        Some(t) => clone_text(&t.context),
        None => None,
    };
    let max_tokens_set: Option<u32> = match test {
        Some(t) => t.max_tokens,
        None => None,
    };
    let env_monitor_set: Option<bool> = match test {
        Some(t) => t.env_monitor,
        None => None,
    };
    let time_slice_set: Option<S> = match test {
        Some(t) => t.time_slice,
        None => None,
    };
    match command {
        Command::Test(o) => {
            let context: String = match context_set {
                Some(c) => if o.context.is_default {
                    c
                } else {
                    o.context.value.clone()
                },
                None => o.context.value.clone(),
            };
            TestParams {
                concurrent: choose_setting(&o.concurrent, concurrent_set),
                context,
                max_tokens: choose_setting(&o.max_tokens, max_tokens_set),
                env_monitor: choose_setting(&o.env_monitor, env_monitor_set),
                time_slice: first_of(o.time_slice, time_slice_set),
            }
        },
        _ => {
            let context: String = match context_set {
                Some(c) => c,
                None => "1024".to_owned(),
            };
            TestParams {
                concurrent: concurrent_set.unwrap_or(1),
                context,
                max_tokens: max_tokens_set.unwrap_or(256),
                env_monitor: env_monitor_set.unwrap_or(false),
                time_slice: time_slice_set,
            }
        },
    }
}

/// The longest answer of a chat: what the user gave, or else what the
/// settings say, or else the default.
pub fn chat_max_tokens<S>(command: &Command<S>, chat: &Option<ChatConfig>) -> (n: u32)
    ensures
        n == (match *command {
            Command::Chat(o) => chosen(o.max_tokens, chat_max_tokens_of(*chat)),
            _ => chosen(
                Setting { value: 1024u32, is_default: true },
                chat_max_tokens_of(*chat),
            ),
        }),
{
    let configured: Option<u32> = match chat {
        Some(c) => c.max_tokens,
        None => None,
    };
    match command {
        Command::Chat(o) => choose_setting(&o.max_tokens, configured),
        _ => configured.unwrap_or(1024),
    }
}

/// The prompt that a chat starts with: that of the command line for a chat
/// that was asked for there, and else that of the settings.
pub fn chat_prompt<S>(command: &Command<S>, chat: &Option<ChatConfig>) -> (prompt: Option<String>)
    ensures
        text::opt_text(prompt) == (match *command {
            Command::Chat(o) => text::opt_text(o.prompt),
            _ => chat_prompt_of(*chat),
        }),
{
    match command {
        Command::Chat(o) => clone_text(&o.prompt),
        _ => match chat {
            Some(c) => clone_text(&c.prompt),
            None => None,
        },
    }
}

/// The settings to save: as they are, but for the part of the subcommand,
/// which becomes what it would run with.
pub fn config_to_save<S: Copy>(
    config: Config<S>,
    command: &Command<S>,
    params: TestParams<S>,
    chat_tokens: u32,
) -> (saved: Config<S>)
    ensures
        saved.base_url == config.base_url,
        saved.api_key == config.api_key,
        saved.model == config.model,
        saved.lang == config.lang,
        saved.time_slice_interval == config.time_slice_interval,
        saved.test == (match *command {
            Command::Test(_) => Some(
                TestConfig {
                    concurrent: Some(params.concurrent),
                    context: Some(params.context),
                    max_tokens: Some(params.max_tokens),
                    env_monitor: Some(params.env_monitor),
                    time_slice: params.time_slice,
                },
            ),
            _ => config.test,
        }),
        saved.chat == (match *command {
            Command::Chat(o) => Some(
                ChatConfig { max_tokens: Some(chat_tokens), prompt: o.prompt },
            ),
            _ => config.chat,
        }),
{
    let mut saved: Config<S> = config;
    match command {
        Command::Test(_) => {
            saved.test = Some(
                TestConfig {
                    concurrent: Some(params.concurrent),
                    context: Some(params.context),
                    max_tokens: Some(params.max_tokens),
                    env_monitor: Some(params.env_monitor),
                    time_slice: params.time_slice,
                },
            );
        },
        Command::Chat(o) => {
            saved.chat = Some(
                ChatConfig { max_tokens: Some(chat_tokens), prompt: clone_text(&o.prompt) },
            );
        },
        Command::Unspecified => {},
    }
    saved
}

/// What the program does.
#[derive(Debug, Clone, Copy, PartialEq, Eq, Structural)]
pub enum Mode {
    Test,
    Chat,
}

/// What the program does: what the subcommand says; and without one, a chat
/// if the settings are about a chat only, and else a test.
pub open spec fn mode_of<S>(command: Command<S>, has_test: bool, has_chat: bool) -> Mode {
    match command {
        Command::Test(_) => Mode::Test,
        Command::Chat(_) => Mode::Chat,
        Command::Unspecified => if has_chat && !has_test {
            Mode::Chat
        } else {
            Mode::Test
        },
    }
}

/// Decides what the program does.
pub fn choose_mode<S>(command: &Command<S>, config: &Config<S>) -> (mode: Mode)
    ensures
        mode == mode_of(*command, config.test is Some, config.chat is Some),
{
    match command {
        Command::Test(_) => Mode::Test,
        Command::Chat(_) => Mode::Chat,
        Command::Unspecified => if config.chat.is_some() && config.test.is_none() {
            Mode::Chat
        } else {
            Mode::Test
        },
    }
}

/// Whether the user is told that a chat gives no results as data.
pub fn ignores_json<S>(command: &Command<S>, json: bool) -> (yes: bool)
    ensures
        yes == (json && *command is Chat),
{
    match command {
        Command::Chat(_) => json,
        _ => false,
    }
}

/// The length of a slice of time: that of the test, or else that of the
/// settings.
pub fn choose_time_slice<S: Copy>(time_slice: Option<S>, interval: S) -> (slice: S)
    ensures
        slice == (match time_slice {
            Some(slice) => slice,
            None => interval,
        }),
{
    match time_slice {
        Some(slice) => slice,
        None => interval,
    }
}

/// Where a prompt comes from.
#[derive(Debug, Clone, PartialEq, Eq)]
pub enum PromptSource {
    /// It is this text.
    Text(String),
    /// It is what this file holds.
    File(String),
}

/// Reads where a prompt comes from: behind an at sign stands the path of a
/// file, and everything else is the prompt itself.
pub fn resolve_prompt(prompt: &str) -> (source: PromptSource)
    ensures
        source is File <==> prompt@.len() > 0 && prompt@[0] == '@',
        source matches PromptSource::File(path) ==> path@ == prompt@.skip(1),
        source matches PromptSource::Text(s) ==> s@ == prompt@,
{
    let chars: Vec<char> = to_chars(prompt);
    if chars.len() > 0 && chars[0] == '@' {
        let path: Vec<char> = sub_chars(&chars, 1, chars.len());
        assert(path@ =~= prompt@.skip(1));
        PromptSource::File(to_text(&path))
    } else {
        PromptSource::Text(prompt.to_owned())
    }
}

// ---------------------------------------------------------------------------
// What is printed before a test
// ---------------------------------------------------------------------------

/// Numbers in brackets.
pub open spec fn list_text(numbers: Seq<u32>) -> Seq<char> {
    "["@ + text::join(
        Seq::new(numbers.len(), |i: int| number::decimal(numbers[i] as nat)),
        ", "@,
    ) + "]"@
}

/// Writes numbers in brackets.
fn write_list(numbers: &Vec<u32>) -> (s: String)
    ensures
        s@ == list_text(numbers@),
{
    let ghost all = Seq::new(numbers@.len(), |i: int| number::decimal(numbers@[i] as nat));
    let mut inner: String = String::new();
    assert(inner@ =~= text::join(all.take(0), ", "@));
    for i in 0..numbers.len()
        invariant
            all == Seq::new(numbers@.len(), |i: int| number::decimal(numbers@[i] as nat)),
            inner@ == text::join(all.take(i as int), ", "@),
    {
        if i > 0 {
            inner.append(", ");
        }
        inner.append(decimal_text(numbers[i] as u128).as_str());
        assert(all.take(i + 1).drop_last() =~= all.take(i as int));
        assert(all.take(i + 1).last() == number::decimal(numbers@[i as int] as nat));
    }
    assert(all.take(all.len() as int) =~= all);
    "[".to_owned().concat(inner.as_str()).concat("]")
}

/// What is printed before a test.
pub open spec fn header_text(
    concurrent: usize,
    sizes: Seq<u32>,
    max_tokens: u32,
    model: Seq<char>,
    slice: Seq<char>,
    zh: bool,
) -> Seq<char> {
    "\n=== "@ + text::label(zh, "运行测试"@, "Running Tests"@) + " ===\n"@ + text::label(
        zh,
        "并发"@,
        "Concurrent"@,
    ) + ": "@ + number::decimal(concurrent as nat) + "\n"@ + text::label(
        zh,
        "上下文大小"@,
        "Context sizes"@,
    ) + ": "@ + list_text(sizes) + "\n"@ + text::label(zh, "最大Token"@, "Max tokens"@) + ": "@
        + number::decimal(max_tokens as nat) + "\n"@ + text::label(zh, "模型"@, "Model"@) + ": "@
        + model + "\n"@ + text::label(zh, "采样间隔"@, "Slice interval"@) + ": "@ + slice
        + "s\n\n"@
}

/// Writes what is printed before a test, given the length of a slice as text.
pub fn test_header(
    concurrent: usize,
    sizes: &Vec<u32>,
    max_tokens: u32,
    model: &str,
    slice: &str,
    lang: &str,
) -> (s: String)
    ensures
        s@ == header_text(concurrent, sizes@, max_tokens, model@, slice@, lang@ == "zh"@),
{
    let zh: bool = same_text(lang, "zh");
    let mut s: String = "\n=== ".to_owned();
    s.append(choose_label(zh, "运行测试", "Running Tests"));
    s.append(" ===\n");
    s.append(choose_label(zh, "并发", "Concurrent"));
    s.append(": ");
    s.append(decimal_text(concurrent as u128).as_str());
    s.append("\n");
    s.append(choose_label(zh, "上下文大小", "Context sizes"));
    s.append(": ");
    s.append(write_list(sizes).as_str());
    s.append("\n");
    s.append(choose_label(zh, "最大Token", "Max tokens"));
    s.append(": ");
    s.append(decimal_text(max_tokens as u128).as_str());
    s.append("\n");
    s.append(choose_label(zh, "模型", "Model"));
    s.append(": ");
    s.append(model);
    s.append("\n");
    s.append(choose_label(zh, "采样间隔", "Slice interval"));
    s.append(": ");
    s.append(slice);
    s.append("s\n\n");
    s
}

/// The head of the description of the machine.
pub fn environment_header(lang: &str) -> (s: String)
    ensures
        s@ == "\n=== "@ + text::label(lang@ == "zh"@, "环境信息"@, "Environment Information"@)
            + " ===\n"@,
{
    "\n=== ".to_owned().concat(
        choose_label(same_text(lang, "zh"), "环境信息", "Environment Information"),
    ).concat(" ===\n")
}

// ---------------------------------------------------------------------------
// Laws
// ---------------------------------------------------------------------------

/// A test that was saved comes back: without a subcommand and with nothing
/// but the saved settings, the same test is run.
pub proof fn law_saved_test_comes_back<S>(params: TestParams<S>)
    ensures
        ({
            let saved = Some(
                TestConfig {
                    concurrent: Some(params.concurrent),
                    context: Some(params.context),
                    max_tokens: Some(params.max_tokens),
                    env_monitor: Some(params.env_monitor),
                    time_slice: params.time_slice,
                },
            );
            let again = options_of(Command::<S>::Unspecified);
            &&& mode_of(Command::<S>::Unspecified, true, false) is Test
            &&& chosen(again.0, concurrent_of(saved)) == params.concurrent
            &&& chosen(again.1, context_of(saved)) == params.context@
            &&& chosen(again.2, max_tokens_of(saved)) == params.max_tokens
            &&& chosen(again.3, env_monitor_of(saved)) == params.env_monitor
            &&& config::or_else(again.4, time_slice_of(saved)) == params.time_slice
        }),
{
}

/// A chat that was saved comes back: without a subcommand and with nothing
/// but the saved settings, the same chat is run.
pub proof fn law_saved_chat_comes_back<S>(max_tokens: u32, prompt: Option<String>)
    ensures
        ({
            let saved = Some(ChatConfig { max_tokens: Some(max_tokens), prompt });
            &&& mode_of(Command::<S>::Unspecified, false, true) is Chat
            &&& chosen(
                Setting { value: 1024u32, is_default: true },
                chat_max_tokens_of(saved),
            ) == max_tokens
            &&& chat_prompt_of(saved) == text::opt_text(prompt)
        }),
{
}

/// What the user gives on the command line wins over the settings.
pub proof fn law_given_option_wins<T>(setting: Setting<T>, configured: Option<T>)
    requires
        !setting.is_default,
    ensures
        chosen(setting, configured) == setting.value,
{
}

/// An option that the user left to its default is taken from the settings,
/// and from its default where they do not say.
pub proof fn law_default_gives_way<T>(setting: Setting<T>, configured: T)
    requires
        setting.is_default,
    ensures
        chosen(setting, Some(configured)) == configured,
        chosen(setting, None) == setting.value,
{
}

/// Without the subcommand of a test, a test has one request of 1024 tokens
/// that may be answered with 256, and no description of the machine; with it,
/// what it says.
pub proof fn law_test_options<S>(command: Command<S>)
    ensures
        command matches Command::Test(o) ==> {
            let found = options_of(command);
            &&& found.0 == o.concurrent && found.2 == o.max_tokens && found.3 == o.env_monitor
            &&& found.1.value == o.context.value@ && found.1.is_default == o.context.is_default
            &&& found.4 == o.time_slice
        },
        command !is Test ==> {
            let found = options_of(command);
            &&& found.0.value == 1 && found.1.value == "1024"@ && found.2.value == 256
            &&& !found.3.value && found.4 is None
            &&& found.0.is_default && found.1.is_default && found.2.is_default
            &&& found.3.is_default
        },
{
}

/// The settings of a test and of a chat are what their parts say, and nothing
/// is set where a part is missing.
pub proof fn law_settings<S>(test: TestConfig<S>, chat: ChatConfig)
    ensures
        concurrent_of(Some(test)) == test.concurrent,
        max_tokens_of(Some(test)) == test.max_tokens,
        env_monitor_of(Some(test)) == test.env_monitor,
        time_slice_of(Some(test)) == test.time_slice,
        context_of(Some(test)) is Some <==> test.context is Some,
        test.context matches Some(context) ==> context_of(Some(test)) == Some(context@),
        chat_max_tokens_of(Some(chat)) == chat.max_tokens,
        chat_prompt_of(Some(chat)) is Some <==> chat.prompt is Some,
        chat.prompt matches Some(prompt) ==> chat_prompt_of(Some(chat)) == Some(prompt@),
        concurrent_of(None::<TestConfig<S>>) is None,
        context_of(None::<TestConfig<S>>) is None,
        max_tokens_of(None::<TestConfig<S>>) is None,
        env_monitor_of(None::<TestConfig<S>>) is None,
        time_slice_of(None::<TestConfig<S>>) is None,
        chat_max_tokens_of(None) is None,
        chat_prompt_of(None) is None,
{
}

/// A subcommand decides what the program does; without one, it chats where
/// there are settings for a chat and none for a test, and tests otherwise.
pub proof fn law_mode<S>(command: Command<S>, has_test: bool, has_chat: bool)
    ensures
        mode_of(command, has_test, has_chat) is Chat <==> command is Chat || (
        command is Unspecified && has_chat && !has_test),
        mode_of(command, has_test, has_chat) is Test <==> command is Test || (
        command is Unspecified && (has_test || !has_chat)),
{
}

/// A list of numbers stands in brackets, with a comma and a space before each
/// number but the first.
pub proof fn law_list_text(numbers: Seq<u32>, number: u32)
    ensures
        list_text(Seq::empty()) == "["@ + "]"@,
        list_text(seq![number]) == "["@ + number::decimal(number as nat) + "]"@,
        numbers.len() > 0 ==> list_text(numbers.push(number)) == list_text(numbers).drop_last()
            + ", "@ + number::decimal(number as nat) + "]"@,
{
    reveal_strlit("]");
    let texts = Seq::new(numbers.len(), |i: int| number::decimal(numbers[i] as nat));
    let more = numbers.push(number);
    let more_texts = Seq::new(more.len(), |i: int| number::decimal(more[i] as nat));
    assert(more_texts =~= texts.push(number::decimal(number as nat)));
    text::law_join(texts, number::decimal(number as nat), ", "@);
    let one = seq![number];
    assert(Seq::new(one.len(), |i: int| number::decimal(one[i] as nat)) =~= seq![
        number::decimal(number as nat),
    ]);
    let none = Seq::<u32>::empty();
    assert(Seq::new(none.len(), |i: int| number::decimal(none[i] as nat)) =~= Seq::<
        Seq<char>,
    >::empty());
    assert(list_text(none) =~= "["@ + "]"@);
    if numbers.len() > 0 {
        let inner = text::join(texts, ", "@);
        assert(list_text(numbers).drop_last() =~= "["@ + inner);
        assert(list_text(more) =~= "["@ + inner + ", "@ + number::decimal(number as nat) + "]"@);
    }
}

/// Before a test its settings are printed, each behind its label.
pub proof fn law_header(
    concurrent: usize,
    sizes: Seq<u32>,
    max_tokens: u32,
    model: Seq<char>,
    slice: Seq<char>,
)
    ensures
        header_text(concurrent, sizes, max_tokens, model, slice, false) == "\n=== "@
            + "Running Tests"@ + " ===\n"@ + "Concurrent"@ + ": "@ + number::decimal(
            concurrent as nat,
        ) + "\n"@ + "Context sizes"@ + ": "@ + list_text(sizes) + "\n"@ + "Max tokens"@ + ": "@
            + number::decimal(max_tokens as nat) + "\n"@ + "Model"@ + ": "@ + model + "\n"@
            + "Slice interval"@ + ": "@ + slice + "s\n\n"@,
        header_text(concurrent, sizes, max_tokens, model, slice, true) == "\n=== "@ + "运行测试"@
            + " ===\n"@ + "并发"@ + ": "@ + number::decimal(concurrent as nat) + "\n"@
            + "上下文大小"@ + ": "@ + list_text(sizes) + "\n"@ + "最大Token"@ + ": "@
            + number::decimal(max_tokens as nat) + "\n"@ + "模型"@ + ": "@ + model + "\n"@
            + "采样间隔"@ + ": "@ + slice + "s\n\n"@,
{
}

} // verus!

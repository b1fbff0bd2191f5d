//! A chat with a model: its commands, its history, and what it prints.
use vstd::prelude::*;
use vstd::string::StringExecFns;
use crate::client::ChatMessage;
use crate::config::{self, first_of, DEFAULT_MODEL};
use crate::number::{self, decimal_text};
use crate::stream::ChatStreamResult;
use crate::text::{self, choose_label, same_text, to_chars, trim_text};

verus! {

// ---------------------------------------------------------------------------
// Before the chat
// ---------------------------------------------------------------------------

/// The model that the user or the settings name, if any.
pub fn named_model(explicit: Option<String>, configured: Option<String>) -> (model: Option<String>)
    ensures
        model == config::or_else(explicit, configured),
{
    first_of(explicit, configured)
}

/// The model where none is named: the first one that the endpoint offers, or
/// else the default.
pub fn fallback_model(offered: Option<String>) -> (model: String)
    ensures
        model@ == (match offered {
            Some(m) => m@,
            None => "gpt-4"@,
        }),
{
    match offered {
        Some(m) => m,
        None => DEFAULT_MODEL.to_owned(),
    }
}

/// What kind of chat it is.
#[derive(Debug, Clone, PartialEq, Eq)]
pub enum ChatPlan {
    /// One prompt and one answer.
    OneShot(String),
    /// The user types.
    Interactive,
    /// An answer as data was asked for, but there is no prompt.
    MissingPrompt,
}

/// Decides what kind of chat it is.
pub fn plan_chat(prompt: Option<String>, json: bool) -> (plan: ChatPlan)
    ensures
        plan == (match prompt {
            Some(p) => ChatPlan::OneShot(p),
            None => if json {
                ChatPlan::MissingPrompt
            } else {
                ChatPlan::Interactive
            },
        }),
{
    match prompt {
        Some(p) => ChatPlan::OneShot(p),
        None => if json {
            ChatPlan::MissingPrompt
        } else {
            ChatPlan::Interactive
        },
    }
}

/// Whether thinking is on, in words.
pub open spec fn thinking_line(on: bool, zh: bool) -> Seq<char> {
    text::label(zh, "思考"@, "Thinking"@) + ": "@ + (if on {
        text::label(zh, "开启"@, "on"@)
    } else {
        text::label(zh, "关闭"@, "off"@)
    }) + "\n"@
}

/// The commands of a chat.
pub open spec fn help_text(zh: bool) -> Seq<char> {
    "Commands:\n  /clear - "@ + text::label(zh, "清空对话历史"@, "Clear conversation"@)
        + "\n  /exit  - "@ + text::label(zh, "退出聊天"@, "Exit chat"@) + "\n  /help  - "@
        + text::label(zh, "帮助"@, "help"@) + "\n  /think - "@ + text::label(
        zh,
        "开关思考"@,
        "Toggle thinking"@,
    ) + "\n"@
}

fn write_thinking(on: bool, zh: bool) -> (s: String)
    ensures
        s@ == thinking_line(on, zh),
{
    let state: &'static str = if on {
        choose_label(zh, "开启", "on")
    } else {
        choose_label(zh, "关闭", "off")
    };
    choose_label(zh, "思考", "Thinking").to_owned().concat(": ").concat(state).concat("\n")
}

fn write_help(zh: bool) -> (s: String)
    ensures
        s@ == help_text(zh),
{
    "Commands:\n  /clear - ".to_owned().concat(
        choose_label(zh, "清空对话历史", "Clear conversation"),
    ).concat("\n  /exit  - ").concat(choose_label(zh, "退出聊天", "Exit chat")).concat(
        "\n  /help  - ",
    ).concat(choose_label(zh, "帮助", "help")).concat("\n  /think - ").concat(
        choose_label(zh, "开关思考", "Toggle thinking"),
    ).concat("\n")
}

/// What is printed when a chat starts.
pub fn welcome_text(model: &str, enable_thinking: bool, lang: &str) -> (s: String)
    ensures
        s@ == "\n=== Chat Mode ===\nModel: "@ + model@ + "\n"@ + thinking_line(
            enable_thinking,
            lang@ == "zh"@,
        ) + help_text(lang@ == "zh"@) + "-----------\n\n"@,
{
    let zh: bool = same_text(lang, "zh");
    "\n=== Chat Mode ===\nModel: ".to_owned().concat(model).concat("\n").concat(
        write_thinking(enable_thinking, zh).as_str(),
    ).concat(write_help(zh).as_str()).concat("-----------\n\n")
}

/// What stands before what the user types.
pub fn user_label(lang: &str) -> (s: &'static str)
    ensures
        s@ == text::label(lang@ == "zh"@, "用户"@, "You"@),
{
    choose_label(same_text(lang, "zh"), "用户", "You")
}

// ---------------------------------------------------------------------------
// The conversation
// ---------------------------------------------------------------------------

/// A chat in which the user types.
#[derive(Debug)]
pub struct ChatSession {
    pub messages: Vec<ChatMessage>,
    pub enable_thinking: bool,
    pub lang: String,
}

/// What a conversation says: who said what.
pub open spec fn said(messages: Seq<ChatMessage>) -> Seq<(Seq<char>, Seq<char>)> {
    Seq::new(messages.len(), |i: int| (messages[i].role@, messages[i].content@))
}

/// What a chat depends on.
#[verifier::ext_equal]
pub struct SessionView {
    pub said: Seq<(Seq<char>, Seq<char>)>,
    pub thinking: bool,
    pub zh: bool,
}

/// What comes after the user typed a line.
#[derive(Debug, Clone, PartialEq, Eq)]
pub enum ChatAction {
    /// Wait for the next line.
    Nothing,
    /// Print this, and wait for the next line.
    Say(String),
    /// Print this, and leave.
    Exit(String),
    /// Send the conversation.
    Send,
}

/// Whether a line is a command.
pub open spec fn is_command(input: Seq<char>) -> bool {
    input.len() > 0 && input[0] == '/'
}

/// The chat after the user typed `input`, without white space around it.
pub open spec fn after_input(session: SessionView, input: Seq<char>) -> SessionView {
    if input.len() == 0 {
        session
    } else if is_command(input) {
        if input == "/clear"@ {
            SessionView { said: Seq::empty(), ..session }
        } else if input == "/think"@ {
            SessionView { thinking: !session.thinking, ..session }
        } else {
            session
        }
    } else {
        SessionView { said: session.said.push(("user"@, input)), ..session }
    }
}

/// Whether `action` is what comes after the user typed `input`, without white
/// space around it.
pub open spec fn follows(action: ChatAction, session: SessionView, input: Seq<char>) -> bool {
    if input.len() == 0 {
        action is Nothing
    } else if is_command(input) {
        if input == "/clear"@ {
            action matches ChatAction::Say(s) && s@ == text::label(
                session.zh,
                "对话历史已清空"@,
                "Conversation cleared"@,
            ) + "\n"@
        } else if input == "/exit"@ || input == "/quit"@ {
            action matches ChatAction::Exit(s) && s@ == text::label(
                session.zh,
                "退出聊天模式"@,
                "Exiting chat mode"@,
            ) + "\n"@
        } else if input == "/help"@ {
            action matches ChatAction::Say(s) && s@ == help_text(session.zh)
        } else if input == "/think"@ {
            action matches ChatAction::Say(s) && s@ == thinking_line(
                !session.thinking,
                session.zh,
            )
        } else {
            action matches ChatAction::Say(s) && s@ == text::label(
                session.zh,
                "未知命令"@,
                "Unknown command"@,
            ) + ": "@ + input + ". "@ + text::label(session.zh, "使用"@, "Use"@) + " /help "@
                + text::label(session.zh, "查看可用命令"@, "for available commands"@) + "\n"@
        }
    } else {
        action is Send
    }
}

/// The rates of an answer, as text.
#[derive(Debug, Clone)]
pub struct RateTexts {
    pub prefill: String,
    pub decode: String,
}

/// A number that may be missing.
pub open spec fn or_zero(n: Option<u32>) -> u32 {
    match n {
        Some(n) => n,
        None => 0,
    }
}

/// The line on one phase of an answer.
pub open spec fn phase_line(phase: Seq<char>, tokens: u32, rate: Seq<char>, zh: bool) -> Seq<char> {
    phase + ": "@ + number::decimal(tokens as nat) + " | "@ + phase + ": "@ + rate + " "@
        + text::label(zh, "tokens/s"@, "tok/s"@) + "\n"@
}

/// The statistics of an answer: a line for each phase that has tokens.
pub open spec fn stats_text(result: ChatStreamResult, texts: RateTexts, zh: bool) -> Seq<char> {
    let input = or_zero(result.prompt_tokens);
    let output = or_zero(result.completion_tokens);
    if input > 0 || output > 0 {
        "\n--- "@ + text::label(zh, "统计信息"@, "Statistics"@) + " ---\n"@ + (if input > 0 {
            phase_line("Prefill"@, input, texts.prefill@, zh)
        } else {
            Seq::empty()
        }) + (if output > 0 {
            phase_line("Decode"@, output, texts.decode@, zh)
        } else {
            Seq::empty()
        })
    } else {
        Seq::empty()
    }
}

/// What is printed behind an answer.
pub open spec fn answer_text(result: ChatStreamResult, texts: RateTexts, zh: bool) -> Seq<char> {
    (if result.content@.len() == 0 {
        "(empty response)\n"@
    } else {
        Seq::empty()
    }) + stats_text(result, texts, zh)
}

/// What is printed where there is no answer.
pub open spec fn error_text(error: Seq<char>, zh: bool) -> Seq<char> {
    text::label(zh, "错误"@, "Error"@) + ": "@ + error + "\n"@
}

fn write_phase(phase: &str, tokens: u32, rate: &str, zh: bool) -> (s: String)
    ensures
        s@ == phase_line(phase@, tokens, rate@, zh),
{
    phase.to_owned().concat(": ").concat(decimal_text(tokens as u128).as_str()).concat(
        " | ",
    ).concat(phase).concat(": ").concat(rate).concat(" ").concat(
        choose_label(zh, "tokens/s", "tok/s"),
    ).concat("\n")
}

/// Writes the statistics of an answer.
pub fn print_stats(result: &ChatStreamResult, texts: &RateTexts, lang: &str) -> (s: String)
    ensures
        s@ == stats_text(*result, *texts, lang@ == "zh"@),
{
    let zh: bool = same_text(lang, "zh");
    let input: u32 = result.prompt_tokens.unwrap_or(0);
    let output: u32 = result.completion_tokens.unwrap_or(0);
    let mut s: String = String::new();
    if input > 0 || output > 0 {
        s.append("\n--- ");
        s.append(choose_label(zh, "统计信息", "Statistics"));
        s.append(" ---\n");
        if input > 0 {
            s.append(write_phase("Prefill", input, texts.prefill.as_str(), zh).as_str());
        }
        if output > 0 {
            s.append(write_phase("Decode", output, texts.decode.as_str(), zh).as_str());
        }
    }
    assert(s@ =~= stats_text(*result, *texts, lang@ == "zh"@));
    s
}

/// Writes what is printed behind an answer.
pub fn print_answer(result: &ChatStreamResult, texts: &RateTexts, lang: &str) -> (s: String)
    ensures
        s@ == answer_text(*result, *texts, lang@ == "zh"@),
{
    let mut s: String = String::new();
    if result.content.as_str().is_empty() {
        s.append("(empty response)\n");
    }
    s.append(print_stats(result, texts, lang).as_str());
    assert(s@ =~= answer_text(*result, *texts, lang@ == "zh"@));
    s
}

/// Writes what is printed where there is no answer.
pub fn print_error(error: &str, lang: &str) -> (s: String)
    ensures
        s@ == error_text(error@, lang@ == "zh"@),
{
    choose_label(same_text(lang, "zh"), "错误", "Error").to_owned().concat(": ").concat(
        error,
    ).concat("\n")
}

/// What is printed before a single prompt is sent: nothing where the answer
/// is wanted as data.
pub fn one_shot_opening(prompt: &str, lang: &str, json: bool) -> (s: String)
    ensures
        s@ == (if json {
            Seq::empty()
        } else {
            "\n"@ + text::label(lang@ == "zh"@, "用户"@, "You"@) + " "@ + prompt@ + "\nAI "@
        }),
{
    if json {
        let s: String = String::new();
        assert(s@ =~= Seq::<char>::empty());
        s
    } else {
        "\n".to_owned().concat(user_label(lang)).concat(" ").concat(prompt).concat("\nAI ")
    }
}

/// How a chat of one prompt ends.
#[derive(Debug, Clone, PartialEq, Eq)]
pub enum OneShotEnd {
    /// This is printed.
    Text(String),
    /// The answer is printed as data.
    AnswerData,
    /// The error is printed as data, and the program fails.
    ErrorData,
}

/// Decides how a chat of one prompt ends.
pub fn one_shot_end(
    result: &Result<(ChatStreamResult, RateTexts), String>,
    lang: &str,
    json: bool,
) -> (end: OneShotEnd)
    ensures
        json ==> (end is AnswerData <==> *result is Ok) && (end is ErrorData <==> *result is Err),
        !json ==> end is Text,
        end matches OneShotEnd::Text(s) ==> s@ == (match *result {
            Ok((answer, texts)) => answer_text(answer, texts, lang@ == "zh"@),
            Err(e) => error_text(e@, lang@ == "zh"@),
        }),
{
    match result {
        Ok((answer, texts)) => if json {
            OneShotEnd::AnswerData
        } else {
            OneShotEnd::Text(print_answer(answer, texts, lang))
        },
        Err(e) => if json {
            OneShotEnd::ErrorData
        } else {
            OneShotEnd::Text(print_error(e.as_str(), lang))
        },
    }
}

/// Says that the server answered with an error status.
pub fn http_error_text(status: &str, body: &str) -> (s: String)
    ensures
        s@ == "HTTP error: "@ + status@ + " - "@ + body@,
{
    "HTTP error: ".to_owned().concat(status).concat(" - ").concat(body)
}

impl ChatSession {
    /// What the chat depends on.
    pub open spec fn view_of(&self) -> SessionView {
        SessionView {
            said: said(self.messages@),
            thinking: self.enable_thinking,
            zh: self.lang@ == "zh"@,
        }
    }

    /// A chat in which nothing was said yet.
    pub fn new(enable_thinking: bool, lang: &str) -> (session: Self)
        ensures
            session.view_of() == (SessionView {
                said: Seq::empty(),
                thinking: enable_thinking,
                zh: lang@ == "zh"@,
            }),
            session.lang@ == lang@,
    {
        let session: ChatSession = ChatSession {
            messages: Vec::new(),
            enable_thinking,
            lang: lang.to_owned(),
        };
        assert(session.view_of().said =~= Seq::empty());
        session
    }

    fn say(&mut self, role: &str, content: &str)
        ensures
            final(self).view_of() == (SessionView {
                said: old(self).view_of().said.push((role@, content@)),
                ..old(self).view_of()
            }),
            final(self).lang == old(self).lang,
    {
        let ghost before = said(self.messages@);
        self.messages.push(ChatMessage { role: role.to_owned(), content: content.to_owned() });
        assert(said(self.messages@) =~= before.push((role@, content@)));
    }

    /// Takes a line that the user typed: a command, or something to say.
    pub fn take_input(&mut self, line: &str) -> (action: ChatAction)
        ensures
            follows(action, old(self).view_of(), text::trim(line@)),
            final(self).view_of() == after_input(old(self).view_of(), text::trim(line@)),
            final(self).lang == old(self).lang,
            text::trim(line@).len() == 0 ==> action is Nothing && final(self).messages@ == old(
                self,
            ).messages@,
            action is Send <==> text::trim(line@).len() > 0 && text::trim(line@)[0] != '/',
            text::trim(line@).len() > 0 && text::trim(line@)[0] != '/' ==> said(
                final(self).messages@,
            ) == said(old(self).messages@).push(("user"@, text::trim(line@))),
    {
        let zh: bool = same_text(self.lang.as_str(), "zh");
        let input: String = trim_text(line);
        if input.as_str().is_empty() {
            return ChatAction::Nothing;
        }
        let chars: Vec<char> = to_chars(input.as_str());
        if chars[0] != '/' {
            self.say("user", input.as_str());
            return ChatAction::Send;
        }
        if same_text(input.as_str(), "/clear") {
            self.messages = Vec::new();
            assert(said(self.messages@) =~= Seq::empty());
            return ChatAction::Say(
                choose_label(zh, "对话历史已清空", "Conversation cleared").to_owned().concat("\n"),
            );
        }
        proof {
            reveal_strlit("/clear");
            reveal_strlit("/exit");
            reveal_strlit("/quit");
            reveal_strlit("/help");
            reveal_strlit("/think");
            assert("/exit"@[1] == 'e' && "/quit"@[1] == 'q' && "/help"@[1] == 'h' && "/think"@[1]
                == 't');
        }
        if same_text(input.as_str(), "/exit") || same_text(input.as_str(), "/quit") {
            return ChatAction::Exit(
                choose_label(zh, "退出聊天模式", "Exiting chat mode").to_owned().concat("\n"),
            );
        }
        if same_text(input.as_str(), "/help") {
            return ChatAction::Say(write_help(zh));
        }
        if same_text(input.as_str(), "/think") {
            self.enable_thinking = !self.enable_thinking;
            return ChatAction::Say(write_thinking(self.enable_thinking, zh));
        }
        ChatAction::Say(
            choose_label(zh, "未知命令", "Unknown command").to_owned().concat(": ").concat(
                input.as_str(),
            ).concat(". ").concat(choose_label(zh, "使用", "Use")).concat(" /help ").concat(
                choose_label(zh, "查看可用命令", "for available commands"),
            ).concat("\n"),
        )
    }

    /// The conversation so far, to be sent.
    pub fn outgoing(&self) -> (messages: Vec<ChatMessage>)
        ensures
            said(messages@) == self.view_of().said,
    {
        let mut messages: Vec<ChatMessage> = Vec::new();
        assert(said(messages@) =~= said(self.messages@).take(0));
        for i in 0..self.messages.len()
            invariant
                said(messages@) == said(self.messages@).take(i as int),
        {
            let ghost before = said(messages@);
            let m: &ChatMessage = &self.messages[i];
            messages.push(ChatMessage { role: m.role.clone(), content: m.content.clone() });
            assert(said(messages@) =~= before.push((m.role@, m.content@)));
            assert(said(self.messages@).take(i + 1) =~= said(self.messages@).take(i as int).push(
                (m.role@, m.content@),
            ));
        }
        assert(said(self.messages@).take(self.messages.len() as int) =~= said(self.messages@));
        messages
    }

    /// Takes an answer into the conversation, and returns what is printed
    /// behind it.
    pub fn take_answer(&mut self, result: &ChatStreamResult, texts: &RateTexts) -> (s: String)
        ensures
            s@ == answer_text(*result, *texts, old(self).view_of().zh),
            final(self).view_of() == (SessionView {
                said: old(self).view_of().said.push(("assistant"@, result.content@)),
                ..old(self).view_of()
            }),
            final(self).lang == old(self).lang,
    {
        self.say("assistant", result.content.as_str());
        print_answer(result, texts, self.lang.as_str())
    }
}

/// Switching the thinking of the model twice changes nothing.
pub proof fn law_think_twice(session: SessionView, input: Seq<char>)
    requires
        input == "/think"@,
    ensures
        after_input(after_input(session, input), input) == session,
{
    reveal_strlit("/think");
    reveal_strlit("/clear");
    assert("/think"@[1] == 't' && "/clear"@[1] == 'c');
    assert(after_input(after_input(session, input), input) =~= session);
}

/// A command is never said to the model: the conversation stays as it is, or
/// is cleared.
pub proof fn law_commands_are_not_said(session: SessionView, input: Seq<char>)
    requires
        input.len() > 0,
        input[0] == '/',
    ensures
        after_input(session, input).said == (if input == "/clear"@ {
            Seq::empty()
        } else {
            session.said
        }),
        forall|action: ChatAction| follows(action, session, input) ==> action !is Send,
{
}

/// A line whose first character is no slash is sent at the end of the
/// conversation, whatever else it holds; nothing before it is lost, and the
/// settings stay.
pub proof fn law_conversation_grows(session: SessionView, input: Seq<char>)
    requires
        input.len() > 0,
        input[0] != '/',
    ensures
        after_input(session, input).said == session.said.push(("user"@, input)),
        after_input(session, input).thinking == session.thinking,
        after_input(session, input).zh == session.zh,
        forall|action: ChatAction| follows(action, session, input) <==> action is Send,
{
}

/// A line of nothing but white space is passed over.
pub proof fn law_empty_line(session: SessionView, input: Seq<char>)
    requires
        input.len() == 0,
    ensures
        after_input(session, input) == session,
        forall|action: ChatAction| follows(action, session, input) <==> action is Nothing,
{
}

/// Clearing empties the conversation, switching turns the thinking on or off,
/// and every other command leaves the chat as it is.
pub proof fn law_commands_change(session: SessionView, input: Seq<char>)
    requires
        input.len() > 0,
        input[0] == '/',
    ensures
        ({
            let after = after_input(session, input);
            &&& after.said == (if input == "/clear"@ {
                Seq::empty()
            } else {
                session.said
            })
            &&& after.thinking == (if input == "/think"@ {
                !session.thinking
            } else {
                session.thinking
            })
            &&& after.zh == session.zh
        }),
{
    lemma_commands();
}

proof fn lemma_commands()
    ensures
        "/clear"@.len() == 6 && "/clear"@[0] == '/' && "/clear"@[1] == 'c',
        "/exit"@.len() == 5 && "/exit"@[0] == '/' && "/exit"@[1] == 'e',
        "/quit"@.len() == 5 && "/quit"@[0] == '/' && "/quit"@[1] == 'q',
        "/help"@.len() == 5 && "/help"@[0] == '/' && "/help"@[1] == 'h',
        "/think"@.len() == 6 && "/think"@[0] == '/' && "/think"@[1] == 't',
{
    reveal_strlit("/clear");
    reveal_strlit("/exit");
    reveal_strlit("/quit");
    reveal_strlit("/help");
    reveal_strlit("/think");
}

/// Two commands leave the chat, and no other line does; what is printed is the
/// farewell in the language of the chat.
pub proof fn law_leaving(session: SessionView, input: Seq<char>, action: ChatAction)
    requires
        follows(action, session, input),
    ensures
        action is Exit <==> input == "/exit"@ || input == "/quit"@,
        action matches ChatAction::Exit(s) ==> s@ == (if session.zh {
            "退出聊天模式"@
        } else {
            "Exiting chat mode"@
        }) + "\n"@,
{
    lemma_commands();
}

/// Each command that stays in the chat is answered in the language of the
/// chat; one that is not known is repeated in the answer.
pub proof fn law_command_answers(session: SessionView, action: ChatAction)
    ensures
        follows(action, session, "/clear"@) ==> (action matches ChatAction::Say(s) && s@ == (
        if session.zh {
            "对话历史已清空"@
        } else {
            "Conversation cleared"@
        }) + "\n"@),
        follows(action, session, "/think"@) ==> (action matches ChatAction::Say(s) && s@ == (
        if session.zh {
            "思考"@
        } else {
            "Thinking"@
        }) + ": "@ + (if after_input(session, "/think"@).thinking {
            if session.zh {
                "开启"@
            } else {
                "on"@
            }
        } else {
            if session.zh {
                "关闭"@
            } else {
                "off"@
            }
        }) + "\n"@),
        follows(action, session, "/help"@) ==> (action matches ChatAction::Say(s) && s@
            == "Commands:\n  /clear - "@ + (if session.zh {
            "清空对话历史"@
        } else {
            "Clear conversation"@
        }) + "\n  /exit  - "@ + (if session.zh {
            "退出聊天"@
        } else {
            "Exit chat"@
        }) + "\n  /help  - "@ + (if session.zh {
            "帮助"@
        } else {
            "help"@
        }) + "\n  /think - "@ + (if session.zh {
            "开关思考"@
        } else {
            "Toggle thinking"@
        }) + "\n"@),
        forall|input: Seq<char>|
            #![trigger follows(action, session, input)]
            follows(action, session, input) && input.len() > 0 && input[0] == '/' && input
                != "/clear"@ && input != "/exit"@ && input != "/quit"@ && input != "/help"@ && input
                != "/think"@ ==> (action matches ChatAction::Say(s) && s@ == (if session.zh {
                "未知命令"@
            } else {
                "Unknown command"@
            }) + ": "@ + input + ". "@ + (if session.zh {
                "使用"@
            } else {
                "Use"@
            }) + " /help "@ + (if session.zh {
                "查看可用命令"@
            } else {
                "for available commands"@
            }) + "\n"@),
{
    lemma_commands();
}

/// A chat says what its fields hold, in order.
pub proof fn law_session_view(session: ChatSession)
    ensures
        session.view_of().said.len() == session.messages@.len(),
        forall|i: int|
            0 <= i < session.messages@.len() ==> #[trigger] session.view_of().said[i] == (
                session.messages@[i].role@,
                session.messages@[i].content@,
            ),
        session.view_of().thinking == session.enable_thinking,
        session.view_of().zh <==> session.lang@ == "zh"@,
{
}

/// The statistics of an answer have a line for the input where there are input
/// tokens, and one for the output where there are output tokens; where there
/// are neither, there are no statistics.
pub proof fn law_stats(result: ChatStreamResult, texts: RateTexts, zh: bool, input: u32, output: u32)
    requires
        result.prompt_tokens == Some(input) || (result.prompt_tokens is None && input == 0),
        result.completion_tokens == Some(output) || (result.completion_tokens is None && output
            == 0),
    ensures
        ({
            let unit = if zh {
                "tokens/s"@
            } else {
                "tok/s"@
            };
            let head = "\n--- "@ + (if zh {
                "统计信息"@
            } else {
                "Statistics"@
            }) + " ---\n"@;
            let prefill = "Prefill"@ + ": "@ + number::decimal(input as nat) + " | "@ + "Prefill"@
                + ": "@ + texts.prefill@ + " "@ + unit + "\n"@;
            let decode = "Decode"@ + ": "@ + number::decimal(output as nat) + " | "@ + "Decode"@
                + ": "@ + texts.decode@ + " "@ + unit + "\n"@;
            let text = stats_text(result, texts, zh);
            &&& input == 0 && output == 0 ==> text == Seq::<char>::empty()
            &&& input > 0 && output == 0 ==> text == head + prefill
            &&& input == 0 && output > 0 ==> text == head + decode
            &&& input > 0 && output > 0 ==> text == head + prefill + decode
        }),
{
    let none = Seq::<char>::empty();
    let head = "\n--- "@ + text::label(zh, "统计信息"@, "Statistics"@) + " ---\n"@;
    let prefill = phase_line("Prefill"@, input, texts.prefill@, zh);
    assert(head + none =~= head);
    assert(head + prefill + none =~= head + prefill);
}

/// Before the statistics stands a remark where the answer is empty, and
/// nothing where it is not.
pub proof fn law_answer(result: ChatStreamResult, texts: RateTexts, zh: bool)
    ensures
        result.content@.len() == 0 ==> answer_text(result, texts, zh) == "(empty response)\n"@
            + stats_text(result, texts, zh),
        result.content@.len() > 0 ==> answer_text(result, texts, zh) == stats_text(
            result,
            texts,
            zh,
        ),
{
    assert(Seq::<char>::empty() + stats_text(result, texts, zh) =~= stats_text(result, texts, zh));
}

/// An error is printed as it is, behind its label.
pub proof fn law_error_text(error: Seq<char>)
    ensures
        error_text(error, false) == "Error"@ + ": "@ + error + "\n"@,
        error_text(error, true) == "错误"@ + ": "@ + error + "\n"@,
{
}

} // verus!

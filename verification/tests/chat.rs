use llmperf_rs::chat::{
    fallback_model, http_error_text, named_model, one_shot_end, one_shot_opening, plan_chat,
    print_answer, print_error, print_stats, user_label, welcome_text, ChatAction, ChatPlan,
    ChatSession, OneShotEnd, RateTexts,
};
use llmperf_rs::stream::ChatStreamResult;

fn result(content: &str, input: Option<u32>, output: Option<u32>) -> ChatStreamResult {
    ChatStreamResult {
        content: content.to_string(),
        prompt_tokens: input,
        completion_tokens: output,
        prefill: None,
        decode: None,
        total_nanos: 0,
    }
}

fn texts() -> RateTexts {
    RateTexts { prefill: "1.00".to_string(), decode: "2.00".to_string() }
}

fn say(s: &str) -> ChatAction {
    ChatAction::Say(s.to_string())
}

fn history(session: &ChatSession) -> Vec<(String, String)> {
    session.outgoing().into_iter().map(|m| (m.role, m.content)).collect()
}

fn said(role: &str, content: &str) -> (String, String) {
    (role.to_string(), content.to_string())
}

#[test]
fn model_by_name_or_offer() {
    let some = |s: &str| Some(s.to_string());
    assert_eq!(named_model(some("a"), some("b")), some("a"));
    assert_eq!(named_model(None, some("b")), some("b"));
    assert_eq!(named_model(None, None), None);
    assert_eq!(fallback_model(some("x")), "x");
    assert_eq!(fallback_model(None), "gpt-4");
}

#[test]
fn kind_of_chat() {
    assert_eq!(plan_chat(Some("p".to_string()), false), ChatPlan::OneShot("p".to_string()));
    assert_eq!(plan_chat(Some("p".to_string()), true), ChatPlan::OneShot("p".to_string()));
    assert_eq!(plan_chat(None, true), ChatPlan::MissingPrompt);
    assert_eq!(plan_chat(None, false), ChatPlan::Interactive);
}

#[test]
fn welcome_lists_the_commands() {
    assert_eq!(
        welcome_text("m", true, "en"),
        "\n=== Chat Mode ===\nModel: m\nThinking: on\nCommands:\n  /clear - Clear conversation\n  \
         /exit  - Exit chat\n  /help  - help\n  /think - Toggle thinking\n-----------\n\n"
    );
    assert!(welcome_text("m", false, "zh").contains("思考: 关闭\n"));
    assert_eq!(user_label("en"), "You");
    assert_eq!(user_label("zh"), "用户");
}

#[test]
fn conversation_grows_and_is_cleared() {
    let mut session = ChatSession::new(true, "en");
    assert_eq!(session.take_input("  hello \n"), ChatAction::Send);
    assert_eq!(history(&session), vec![said("user", "hello")]);
    session.take_answer(&result("hi", Some(1), Some(1)), &texts());
    assert_eq!(session.take_input("more"), ChatAction::Send);
    assert_eq!(
        history(&session),
        vec![said("user", "hello"), said("assistant", "hi"), said("user", "more")]
    );
    assert_eq!(session.take_input("/clear\n"), say("Conversation cleared\n"));
    assert!(history(&session).is_empty());
}

#[test]
fn commands_are_not_said() {
    let mut session = ChatSession::new(true, "en");
    session.take_input("a");
    assert_eq!(session.take_input(" \n"), ChatAction::Nothing);
    assert_eq!(session.take_input("/exit"), ChatAction::Exit("Exiting chat mode\n".to_string()));
    assert_eq!(session.take_input("/quit"), ChatAction::Exit("Exiting chat mode\n".to_string()));
    assert_eq!(
        session.take_input("/help"),
        say("Commands:\n  /clear - Clear conversation\n  /exit  - Exit chat\n  /help  - help\n  /think - Toggle thinking\n")
    );
    assert_eq!(
        session.take_input("/clear now"),
        say("Unknown command: /clear now. Use /help for available commands\n")
    );
    assert_eq!(history(&session), vec![said("user", "a")]);
}

#[test]
fn thinking_is_switched() {
    let mut session = ChatSession::new(true, "zh");
    assert_eq!(session.take_input("/think"), say("思考: 关闭\n"));
    assert!(!session.enable_thinking);
    assert_eq!(session.take_input("/think"), say("思考: 开启\n"));
    assert!(session.enable_thinking);
    assert_eq!(session.take_input("/x"), say("未知命令: /x. 使用 /help 查看可用命令\n"));
}

#[test]
fn answer_ends_with_statistics() {
    let mut session = ChatSession::new(true, "en");
    let printed = session.take_answer(&result("", Some(5), Some(7)), &texts());
    assert_eq!(
        printed,
        "(empty response)\n\n--- Statistics ---\nPrefill: 5 | Prefill: 1.00 tok/s\nDecode: 7 | Decode: 2.00 tok/s\n"
    );
    assert_eq!(history(&session), vec![said("assistant", "")]);
}

#[test]
fn statistics_leave_out_what_is_not_there() {
    assert_eq!(print_stats(&result("x", Some(0), None), &texts(), "en"), "");
    assert_eq!(
        print_stats(&result("x", None, Some(7)), &texts(), "zh"),
        "\n--- 统计信息 ---\nDecode: 7 | Decode: 2.00 tokens/s\n"
    );
    assert_eq!(print_answer(&result("x", None, None), &texts(), "en"), "");
}

#[test]
fn errors_in_both_languages() {
    assert_eq!(print_error("e", "en"), "Error: e\n");
    assert_eq!(print_error("e", "zh"), "错误: e\n");
    assert_eq!(http_error_text("500 x", "b"), "HTTP error: 500 x - b");
}

#[test]
fn one_prompt_and_its_end() {
    assert_eq!(one_shot_opening("p", "en", false), "\nYou p\nAI ");
    assert_eq!(one_shot_opening("p", "zh", false), "\n用户 p\nAI ");
    assert_eq!(one_shot_opening("p", "en", true), "");
    let good = Ok((result("x", None, Some(7)), texts()));
    let bad = Err("e".to_string());
    assert_eq!(one_shot_end(&good, "en", true), OneShotEnd::AnswerData);
    assert_eq!(one_shot_end(&bad, "en", true), OneShotEnd::ErrorData);
    let printed = "\n--- Statistics ---\nDecode: 7 | Decode: 2.00 tok/s\n".to_string();
    assert_eq!(one_shot_end(&good, "en", false), OneShotEnd::Text(printed));
    assert_eq!(one_shot_end(&bad, "en", false), OneShotEnd::Text("Error: e\n".to_string()));
}

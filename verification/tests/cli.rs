use llmperf_rs::cli::{
    apply_options, chat_max_tokens, chat_prompt, choose_mode, choose_time_slice, config_to_save,
    effective_options, environment_header, ignores_json, resolve_prompt, test_header, test_params,
    ChatOptions, Command, CommonOptions, Mode, PromptSource, Setting, TestOptions, TestParams,
};
use llmperf_rs::config::{ChatConfig, Config, TestConfig};

fn common(base_url: Option<&str>, json: bool, save: Option<&str>) -> CommonOptions<String> {
    CommonOptions {
        base_url: base_url.map(|s| s.to_string()),
        api_key: None,
        model: None,
        json,
        lang: None,
        save_config: save.map(|s| s.to_string()),
    }
}

fn options(is_default: bool) -> TestOptions<f64> {
    TestOptions {
        concurrent: Setting { value: 1, is_default },
        context: Setting { value: "1024".to_string(), is_default },
        max_tokens: Setting { value: 256, is_default },
        env_monitor: Setting { value: false, is_default },
        time_slice: None,
    }
}

fn saved_test() -> TestConfig<f64> {
    TestConfig {
        concurrent: Some(4),
        context: Some("4096".to_string()),
        max_tokens: Some(128),
        env_monitor: Some(true),
        time_slice: Some(1.5),
    }
}

fn default_params() -> TestParams<f64> {
    TestParams {
        concurrent: 1,
        context: "1024".to_string(),
        max_tokens: 256,
        env_monitor: false,
        time_slice: None,
    }
}

fn saved_params() -> TestParams<f64> {
    TestParams {
        concurrent: 4,
        context: "4096".to_string(),
        max_tokens: 128,
        env_monitor: true,
        time_slice: Some(1.5),
    }
}

#[test]
fn options_behind_the_subcommand_win() {
    let o = effective_options(common(Some("sub"), false, None), common(Some("base"), true, Some("p")));
    assert_eq!(o.base_url, Some("sub".to_string()));
    assert!(o.json);
    assert_eq!(o.save_config, Some("p".to_string()));
    let o = effective_options(common(None, false, None), common(Some("base"), false, None));
    assert_eq!(o.base_url, Some("base".to_string()));
    assert!(!o.json);
}

#[test]
fn language_and_model_of_the_line_win() {
    let mut c = Config::without_file(3.0);
    apply_options(&mut c, None, None);
    assert_eq!((c.lang.as_str(), c.model.as_str()), ("en", "gpt-4"));
    apply_options(&mut c, Some("zh".to_string()), Some("m".to_string()));
    assert_eq!((c.lang.as_str(), c.model.as_str()), ("zh", "m"));
}

#[test]
fn parameters_of_a_test() {
    let left_alone = Command::Test(options(true));
    let given = Command::Test(options(false));
    assert_eq!(test_params(&left_alone, &None), default_params());
    assert_eq!(test_params(&left_alone, &Some(saved_test())), saved_params());
    let mixed = test_params(&given, &Some(saved_test()));
    assert_eq!(mixed, TestParams { time_slice: Some(1.5), ..default_params() });
    let sliced = Command::Test(TestOptions { time_slice: Some(9.0), ..options(true) });
    assert_eq!(test_params(&sliced, &Some(saved_test())).time_slice, Some(9.0));
}

#[test]
fn parameters_without_a_subcommand() {
    assert_eq!(test_params(&Command::Unspecified, &None), default_params());
    assert_eq!(test_params(&Command::Unspecified, &Some(saved_test())), saved_params());
}

fn chat(is_default: bool, prompt: Option<&str>) -> Command<f64> {
    Command::Chat(ChatOptions {
        prompt: prompt.map(|s| s.to_string()),
        max_tokens: Setting { value: 1024, is_default },
    })
}

fn saved_chat() -> Option<ChatConfig> {
    Some(ChatConfig { max_tokens: Some(77), prompt: Some("saved".to_string()) })
}

#[test]
fn parameters_of_a_chat() {
    assert_eq!(chat_max_tokens(&chat(true, None), &saved_chat()), 77);
    assert_eq!(chat_max_tokens(&chat(false, None), &saved_chat()), 1024);
    assert_eq!(chat_max_tokens(&chat(true, None), &None), 1024);
    assert_eq!(chat_max_tokens(&Command::<f64>::Unspecified, &saved_chat()), 77);
    assert_eq!(chat_max_tokens(&Command::<f64>::Unspecified, &None), 1024);
    assert_eq!(chat_prompt(&chat(true, Some("p")), &saved_chat()), Some("p".to_string()));
    assert_eq!(chat_prompt(&chat(true, None), &saved_chat()), None);
    assert_eq!(chat_prompt(&Command::<f64>::Unspecified, &saved_chat()), Some("saved".to_string()));
    assert_eq!(chat_prompt(&Command::<f64>::Unspecified, &None), None);
}

#[test]
fn mode_by_subcommand_or_settings() {
    let plain = Config::without_file(3.0);
    let with_chat = Config { chat: saved_chat(), ..Config::without_file(3.0) };
    let with_both = Config { chat: saved_chat(), test: Some(saved_test()), ..Config::without_file(3.0) };
    assert_eq!(choose_mode(&Command::Unspecified, &plain), Mode::Test);
    assert_eq!(choose_mode(&Command::Unspecified, &with_chat), Mode::Chat);
    assert_eq!(choose_mode(&Command::Unspecified, &with_both), Mode::Test);
    assert_eq!(choose_mode(&Command::Test(options(true)), &with_chat), Mode::Test);
    assert_eq!(choose_mode(&chat(true, None), &plain), Mode::Chat);
}

#[test]
fn saved_scenarios_come_back() {
    let command = Command::Test(TestOptions {
        concurrent: Setting { value: 8, is_default: false },
        ..options(true)
    });
    let params = test_params(&command, &None);
    let saved = config_to_save(Config::without_file(3.0), &command, params.clone(), 1024);
    assert!(saved.chat.is_none());
    assert_eq!(choose_mode(&Command::Unspecified, &saved), Mode::Test);
    assert_eq!(test_params(&Command::Unspecified, &saved.test), params);

    let command = chat(false, Some("hello"));
    let saved = config_to_save(Config::without_file(3.0), &command, default_params(), 50);
    assert!(saved.test.is_none());
    assert_eq!(choose_mode(&Command::Unspecified, &saved), Mode::Chat);
    assert_eq!(chat_max_tokens(&Command::<f64>::Unspecified, &saved.chat), 50);
    assert_eq!(chat_prompt(&Command::<f64>::Unspecified, &saved.chat), Some("hello".to_string()));

    let saved = config_to_save(Config::without_file(3.0), &Command::Unspecified, default_params(), 50);
    assert!(saved.test.is_none() && saved.chat.is_none());
}

#[test]
fn slice_of_the_test_wins() {
    assert_eq!(choose_time_slice(Some(1.0), 3.0), 1.0);
    assert_eq!(choose_time_slice(None, 3.0), 3.0);
}

#[test]
fn prompts_from_files() {
    assert_eq!(resolve_prompt("@a.txt"), PromptSource::File("a.txt".to_string()));
    assert_eq!(resolve_prompt("@"), PromptSource::File("".to_string()));
    assert_eq!(resolve_prompt("a@b"), PromptSource::Text("a@b".to_string()));
    assert_eq!(resolve_prompt(""), PromptSource::Text("".to_string()));
}

#[test]
fn header_of_a_test() {
    assert_eq!(
        test_header(2, &vec![1024, 2048], 256, "m", "3", "en"),
        "\n=== Running Tests ===\nConcurrent: 2\nContext sizes: [1024, 2048]\nMax tokens: 256\n\
         Model: m\nSlice interval: 3s\n\n"
    );
    assert_eq!(
        test_header(1, &vec![], 1, "m", "0.5", "zh"),
        "\n=== 运行测试 ===\n并发: 1\n上下文大小: []\n最大Token: 1\n模型: m\n采样间隔: 0.5s\n\n"
    );
    assert_eq!(environment_header("en"), "\n=== Environment Information ===\n");
    assert_eq!(environment_header("zh"), "\n=== 环境信息 ===\n");
}

#[test]
fn chat_gives_no_data() {
    assert!(ignores_json(&chat(true, None), true));
    assert!(!ignores_json(&chat(true, None), false));
    assert!(!ignores_json(&Command::Test(options(true)), true));
}

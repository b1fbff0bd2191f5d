use llmperf_rs::config::{
    choose_lang, choose_source, default_model, detect_system_lang, path_question, question_text,
    save_path, save_question, saved_text, wants_save, CliOverrides, Config, ConfigSource,
    LangEvidence, Question,
};

fn overrides(base_url: Option<&str>, api_key: Option<&str>) -> CliOverrides {
    CliOverrides {
        base_url: base_url.map(|s| s.to_string()),
        api_key: api_key.map(|s| s.to_string()),
    }
}

fn config(base_url: Option<&str>, api_key: Option<&str>) -> Config<f64> {
    Config {
        base_url: base_url.map(|s| s.to_string()),
        api_key: api_key.map(|s| s.to_string()),
        ..Config::without_file(3.0)
    }
}

#[test]
fn settings_of_a_new_user() {
    let c = Config::without_file(3.0);
    assert_eq!((c.base_url, c.api_key), (None, None));
    assert_eq!(c.model, "gpt-4");
    assert_eq!(c.model, default_model());
    assert_eq!(c.lang, "en");
    assert_eq!(c.time_slice_interval, 3.0);
    assert!(c.test.is_none() && c.chat.is_none());
}

#[test]
fn line_then_file_then_environment() {
    let c = config(Some("file"), None).resolve(overrides(None, None), overrides(Some("env"), Some("env")));
    assert_eq!(c.base_url, Some("file".to_string()));
    assert_eq!(c.api_key, Some("env".to_string()));
    let c = config(Some("file"), Some("file")).resolve(overrides(Some("line"), None), overrides(Some("env"), None));
    assert_eq!(c.base_url, Some("line".to_string()));
    assert_eq!(c.api_key, Some("file".to_string()));
}

#[test]
fn source_of_the_settings() {
    assert_eq!(choose_source(true, true), ConfigSource::Given);
    assert_eq!(choose_source(true, false), ConfigSource::Given);
    assert_eq!(choose_source(false, true), ConfigSource::System);
    assert_eq!(choose_source(false, false), ConfigSource::Nowhere);
}

#[test]
fn language_of_the_settings_wins() {
    assert_eq!(choose_lang(Some("zh".to_string()), "en".to_string()), "zh");
    assert_eq!(choose_lang(None, "en".to_string()), "en");
}

#[test]
fn user_is_asked_for_what_is_missing() {
    let mut c = config(None, None);
    assert_eq!(c.next_question(), Some(Question::BaseUrl));
    assert!(c.prompt_credentials(Question::BaseUrl, " \n").is_ok());
    assert_eq!(c.base_url, Some("https://api.openai.com/v1".to_string()));
    assert_eq!(c.next_question(), Some(Question::ApiKey));
    assert_eq!(c.prompt_credentials(Question::ApiKey, " \n"), Err("API Key is required".to_string()));
    assert_eq!(c.next_question(), Some(Question::ApiKey));
    assert!(c.prompt_credentials(Question::ApiKey, " k \n").is_ok());
    assert_eq!(c.api_key, Some("k".to_string()));
    assert_eq!(c.next_question(), None);
    c.lang = "zh".to_string();
    assert_eq!(c.prompt_credentials(Question::ApiKey, ""), Err("API Key 不能为空".to_string()));
    assert!(c.prompt_credentials(Question::BaseUrl, " http://x \n").is_ok());
    assert_eq!(c.base_url, Some("http://x".to_string()));
}

#[test]
fn user_is_asked_to_save() {
    let full = config(Some("u"), Some("k"));
    assert!(full.asks_to_save(ConfigSource::Nowhere));
    assert!(!full.asks_to_save(ConfigSource::Given));
    assert!(!full.asks_to_save(ConfigSource::System));
    assert!(config(None, Some("k")).asks_to_save(ConfigSource::Given));
}

#[test]
fn answers_about_saving() {
    assert!(wants_save("y\n") && wants_save(" Y "));
    assert!(!wants_save("") && !wants_save("yes") && !wants_save("n"));
    assert_eq!(save_path(" \n"), "llmperf-rs.yaml");
    assert_eq!(save_path(" a/b.yaml\n"), "a/b.yaml");
}

#[test]
fn questions_in_both_languages() {
    assert_eq!(question_text(Question::BaseUrl, "en"), "Base URL [default: https://api.openai.com/v1]: ");
    assert_eq!(question_text(Question::BaseUrl, "zh"), "API 地址 [default: https://api.openai.com/v1]: ");
    assert_eq!(question_text(Question::ApiKey, "zh"), "API Key: ");
    assert_eq!(save_question("en"), "Save config file? (y/N): ");
    assert_eq!(save_question("zh"), "是否保存配置文件? (y/N): ");
    assert_eq!(path_question("en"), "Save path [default: llmperf-rs.yaml]: ");
    assert_eq!(saved_text("p", "en"), "Config saved: p");
    assert_eq!(saved_text("p", "zh"), "配置文件已保存: p");
}

fn evidence() -> LangEvidence {
    LangEvidence { variables: vec![], locale: None, locale_conf: None, preferred: None, culture: None }
}

#[test]
fn language_of_the_system() {
    let zh = |e: LangEvidence| detect_system_lang(&e) == "zh";
    assert_eq!(detect_system_lang(&evidence()), "en");
    let variables = |v: &str| LangEvidence { variables: vec!["C".to_string(), v.to_string()], ..evidence() };
    assert!(zh(variables("zh_CN.UTF-8")));
    assert!(!zh(variables("en_zh")));
    let locale = |s: &str| LangEvidence { locale: Some(s.as_bytes().to_vec()), ..evidence() };
    assert!(zh(locale("LANG=zh_TW")));
    assert!(!zh(locale("LANG=en_US")));
    let conf = |s: &str| LangEvidence { locale_conf: Some(s.to_string()), ..evidence() };
    assert!(zh(conf("LANG=zh_TW.UTF-8")) && zh(conf("LANG=zh_CN")));
    assert!(!zh(conf("LANG=zh_HK")));
    assert!(zh(LangEvidence { preferred: Some(b"(\"zh-Hans\")".to_vec()), ..evidence() }));
    let culture = |s: &str| LangEvidence { culture: Some(s.as_bytes().to_vec()), ..evidence() };
    assert!(zh(culture("zh-CN\r\n")));
    assert!(!zh(culture("en-zh")));
}

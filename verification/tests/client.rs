use llmperf_rs::client::{
    chat_request, count_tokens, estimate_tokens, first_model, process_sse_buffer, response_delta,
    response_deltas, sse_payload, user_prompt, ApiClient, ChatResponse, Choice, DeltaMessage,
    ModelEntry, ModelsResponse, SseDelta, Usage,
};
use serde_json::Value;

fn text_of(value: Option<&Value>) -> Option<String> {
    value.and_then(|v| v.as_str()).map(|s| s.to_string())
}

fn count_of(value: Option<&Value>) -> Option<u32> {
    value.and_then(|v| v.as_u64()).map(|n| n as u32)
}

fn read_response(data: &str) -> Option<ChatResponse> {
    let value: Value = serde_json::from_str(data).ok()?;
    let choices = value.get("choices").and_then(|c| c.as_array()).map(|list| {
        list.iter()
            .map(|c| Choice {
                delta: c.get("delta").map(|d| DeltaMessage {
                    content: text_of(d.get("content")),
                    reasoning_content: text_of(d.get("reasoning_content")),
                }),
            })
            .collect::<Vec<Choice>>()
    });
    let usage = value.get("usage").map(|u| Usage {
        prompt_tokens: count_of(u.get("prompt_tokens")),
        completion_tokens: count_of(u.get("completion_tokens")),
        total_tokens: count_of(u.get("total_tokens")),
    });
    Some(ChatResponse { choices, usage })
}

fn parse_sse_line(line: &str) -> Option<SseDelta> {
    let data = sse_payload(line)?;
    read_response(&data).map(response_delta)
}

fn contents_of(payloads: Vec<String>) -> Vec<String> {
    let responses = payloads.iter().map(|p| read_response(p)).collect::<Vec<_>>();
    response_deltas(responses).into_iter().filter_map(|d| d.content).collect()
}

#[test]
fn test_count_tokens_english() {
    let count = count_tokens("hello world");
    assert!(count > 0 && count <= 3, "Expected 2 tokens, got {}", count);
}

#[test]
fn test_count_tokens_empty() {
    assert_eq!(count_tokens(""), 0);
}

#[test]
fn test_estimate_tokens_ascii() {
    let est = estimate_tokens("hello world");
    assert_eq!(est, 2);
}

#[test]
fn test_estimate_tokens_chinese() {
    let est = estimate_tokens("你好吗");
    assert_eq!(est, 1);
}

#[test]
fn test_parse_sse_line_valid() {
    let line = r#"data: {"choices":[{"delta":{"content":"hi"}}]}"#;
    let delta = parse_sse_line(line).unwrap();
    assert_eq!(delta.content.unwrap(), "hi");
}

#[test]
fn test_parse_sse_line_done() {
    assert!(parse_sse_line("data: [DONE]").is_none());
}

#[test]
fn test_parse_sse_line_empty() {
    assert!(parse_sse_line("").is_none());
    assert!(parse_sse_line("event: ping").is_none());
}

#[test]
fn test_process_sse_buffer_multiline() {
    let mut buffer: Vec<u8> = Vec::new();
    let input = "data: {\"choices\":[{\"delta\":{\"content\":\"a\"}}]}\ndata: {\"choices\":[{\"delta\":{\"content\":\"b\"}}]}\n";
    let contents = contents_of(process_sse_buffer(&mut buffer, input.as_bytes()));
    assert_eq!(contents, vec!["a", "b"]);
}

#[test]
fn test_process_sse_buffer_split_multibyte() {
    // A multi-byte UTF-8 char (中 = E4 B8 AD) split across TCP chunks must
    // not be dropped: the buffer holds raw bytes until a complete line
    // (terminated by '\n') is available, so the char reassembles correctly.
    let mut buffer: Vec<u8> = Vec::new();
    let prefix = b"data: {\"choices\":[{\"delta\":{\"content\":\"";
    let suffix = b"\"}}]}\n";
    let mut contents: Vec<String> = Vec::new();

    // Chunk 1: line up to the first two bytes of 中 (E4 B8), no newline yet
    let mut chunk1 = prefix.to_vec();
    chunk1.extend_from_slice(&[0xE4, 0xB8]);
    contents.extend(contents_of(process_sse_buffer(&mut buffer, &chunk1)));
    assert!(contents.is_empty(), "partial line must not be parsed yet");

    // Chunk 2: the tail byte of 中 (AD) + 好 (E5 A5 BD) + line terminator
    let mut chunk2: Vec<u8> = vec![0xAD, 0xE5, 0xA5, 0xBD];
    chunk2.extend_from_slice(suffix);
    contents.extend(contents_of(process_sse_buffer(&mut buffer, &chunk2)));

    assert_eq!(contents, vec!["中好"]);
}

#[test]
fn exact_token_counts() {
    assert_eq!(count_tokens("hello world"), 2);
    assert_eq!(count_tokens(" the"), 1);
    assert_eq!(count_tokens("<|endoftext|>"), 1);
}

fn tokenizer_count(text: &str) -> usize {
    tiktoken_rs::cl100k_base_singleton().encode_with_special_tokens(text).len()
}

#[test]
fn count_is_that_of_the_tokenizer() {
    for text in ["", "hello world", "你好，世界！", " \n\t ", "<|endoftext|>x<|fim_prefix|>", "don't 12345 ++"] {
        assert_eq!(count_tokens(text), tokenizer_count(text), "{:?}", text);
    }
}

#[test]
fn long_runs_of_lines_are_counted() {
    assert_eq!(count_tokens(&"\n".repeat(600_000)), 18_750);
}

#[test]
fn long_white_space_at_the_end_is_counted() {
    let text = " ".repeat(500_001);
    assert_eq!(count_tokens(&text), tokenizer_count(&text));
}

#[test]
fn long_white_space_before_a_word_is_counted() {
    let text = format!("{}a", " ".repeat(600_000));
    assert_eq!(count_tokens(&text), tokenizer_count(&text));
}

#[test]
fn text_that_the_tokenizer_refuses_is_estimated() {
    let text = format!("{}a", " ".repeat(1_100_003));
    assert_eq!(count_tokens(&text), 275_001);
    assert_eq!(count_tokens(&text), estimate_tokens(&text));
}

#[test]
fn long_runs_are_counted() {
    for (c, n) in [("a", 200_000), ("!", 200_000), ("7", 200_000), ("中", 100_000)] {
        let text = c.repeat(n);
        assert_eq!(count_tokens(&text), tokenizer_count(&text));
    }
}

#[test]
fn payload_is_what_follows_the_field_name() {
    assert_eq!(sse_payload("data: x \r\n"), Some("x".to_string()));
    assert_eq!(sse_payload("  data:x"), Some("x".to_string()));
    assert_eq!(sse_payload("data:data: x"), Some("x".to_string()));
    assert_eq!(sse_payload("data:"), None);
    assert_eq!(sse_payload("data: [DONE]"), None);
    assert_eq!(sse_payload("id: 1"), None);
}

#[test]
fn chunks_do_not_matter() {
    let input = "data: 一\n\ndata: two\r\n: comment\ndata: drei\ndata: rest".as_bytes();
    let mut whole: Vec<u8> = Vec::new();
    let expected = process_sse_buffer(&mut whole, input);
    assert_eq!(expected, vec!["一", "two", "drei"]);
    for cut in 0..input.len() {
        let mut buffer: Vec<u8> = Vec::new();
        let mut found = process_sse_buffer(&mut buffer, &input[..cut]);
        found.extend(process_sse_buffer(&mut buffer, &input[cut..]));
        assert_eq!(found, expected);
        assert_eq!(buffer, whole);
    }
}

#[test]
fn bytes_that_are_no_text_are_replaced() {
    let mut buffer: Vec<u8> = Vec::new();
    let found = process_sse_buffer(&mut buffer, b"data: a\xffb\n");
    assert_eq!(found, vec!["a\u{fffd}b"]);
}

#[test]
fn reasoning_stands_in_for_content() {
    let delta = parse_sse_line(r#"data: {"choices":[{"delta":{"reasoning_content":"hm"}}]}"#).unwrap();
    assert_eq!(delta.content, Some("hm".to_string()));
    let delta = parse_sse_line(
        r#"data: {"choices":[{"delta":{"content":"","reasoning_content":"hm"}}]}"#,
    )
    .unwrap();
    assert_eq!(delta.content, Some("".to_string()));
    assert!(parse_sse_line("data: not json").is_none());
}

#[test]
fn usage_comes_without_choices() {
    let delta = parse_sse_line(
        r#"data: {"choices":[],"usage":{"prompt_tokens":3,"completion_tokens":5}}"#,
    )
    .unwrap();
    assert_eq!(delta.content, None);
    let usage = delta.usage.unwrap();
    assert_eq!(usage.prompt_tokens, Some(3));
    assert_eq!(usage.completion_tokens, Some(5));
    assert_eq!(usage.total_tokens, None);
}

#[test]
fn client_builds_urls_and_header() {
    let client = ApiClient::new("http://h/v1".to_string(), "k".to_string());
    assert_eq!(client.chat_url(), "http://h/v1/chat/completions");
    assert_eq!(client.models_url(), "http://h/v1/models");
    assert_eq!(client.authorization(), "Bearer k");
}

#[test]
fn request_asks_for_a_stream_with_usage() {
    let request = chat_request("m", user_prompt("hi"), 7, false);
    assert_eq!(request.model, "m");
    assert_eq!(request.messages.len(), 1);
    assert_eq!(request.messages[0].role, "user");
    assert_eq!(request.messages[0].content, "hi");
    assert_eq!(request.max_tokens, 7);
    assert!(request.stream && request.include_usage);
    assert!(!request.thinking && !request.enable_thinking);
}

#[test]
fn first_model_of_the_list() {
    let entry = |id: &str| ModelEntry { id: id.to_string() };
    let list = ModelsResponse { data: vec![entry("a"), entry("b")] };
    assert_eq!(first_model(Some(list)), Some("a".to_string()));
    assert_eq!(first_model(Some(ModelsResponse { data: vec![] })), None);
    assert_eq!(first_model(None), None);
}

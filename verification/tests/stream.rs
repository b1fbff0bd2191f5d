use llmperf_rs::client::{
    count_tokens, ChatMessage, ChatResponse, Choice, DeltaMessage, TokenEvent, Usage,
};
use llmperf_rs::stream::{local_prompt_tokens, ChatStream, StreamTracker};
use llmperf_rs::timing::Rate;
use std::time::Duration;

fn piece(content: &str) -> Option<ChatResponse> {
    let delta = DeltaMessage { content: Some(content.to_string()), reasoning_content: None };
    Some(ChatResponse { choices: Some(vec![Choice { delta: Some(delta) }]), usage: None })
}

fn usage(prompt: Option<u32>, completion: Option<u32>) -> Option<ChatResponse> {
    let usage = Usage { prompt_tokens: prompt, completion_tokens: completion, total_tokens: None };
    Some(ChatResponse { choices: None, usage: Some(usage) })
}

fn received(id: usize, time: u64, content: &str) -> TokenEvent {
    TokenEvent::TokensReceived { request_id: id, time, content: content.to_string() }
}

#[test]
fn first_token_comes_once() {
    let mut tracker = StreamTracker::new(4, 100);
    let events = tracker.absorb(vec![piece(""), None, piece("a"), piece("b")], 10);
    assert_eq!(
        events,
        vec![
            TokenEvent::FirstToken { request_id: 4, time: 10 },
            received(4, 10, "a"),
            received(4, 10, "b"),
        ]
    );
    assert_eq!(tracker.absorb(vec![piece("c")], 20), vec![received(4, 20, "c")]);
}

#[test]
fn tracker_starts_and_reads_chunks() {
    let mut tracker = StreamTracker::new(1, 9);
    assert_eq!(
        tracker.started(5, 1024),
        TokenEvent::RequestStarted { request_id: 1, start_time: 5, prompt_tokens: 9, context_size: 1024 }
    );
    assert_eq!(tracker.receive(b"data: x\ndat"), vec!["x"]);
    assert_eq!(tracker.receive(b"a: y\n"), vec!["y"]);
}

#[test]
fn finished_request_reports_usage() {
    let mut tracker = StreamTracker::new(0, 100);
    tracker.absorb(vec![usage(Some(90), Some(7))], 1);
    assert_eq!(
        tracker.finished(50),
        TokenEvent::Completed {
            request_id: 0,
            time: 50,
            completion_tokens: 7,
            prompt_tokens: 90,
            server_usage: true,
            success: true,
            error: None,
        }
    );
    // A later block replaces what was reported before.
    tracker.absorb(vec![usage(None, None)], 2);
    assert_eq!(
        tracker.finished(51),
        TokenEvent::Completed {
            request_id: 0,
            time: 51,
            completion_tokens: 0,
            prompt_tokens: 100,
            server_usage: false,
            success: true,
            error: None,
        }
    );
}

fn error_of(event: TokenEvent) -> (bool, Option<String>, u32) {
    match event {
        TokenEvent::Completed { success, error, prompt_tokens, .. } => (success, error, prompt_tokens),
        _ => panic!("not the end of a request"),
    }
}

#[test]
fn failures_say_why() {
    let mut tracker = StreamTracker::new(0, 100);
    tracker.absorb(vec![usage(Some(90), Some(7))], 1);
    let end = |message: &str, prompt: u32| (false, Some(message.to_string()), prompt);
    assert_eq!(error_of(tracker.interrupted(5)), end("interrupted", 90));
    assert_eq!(error_of(tracker.broken(5, "cut")), end("Stream error: cut", 90));
    assert_eq!(error_of(tracker.not_sent(5, "down")), end("Request failed: down", 100));
    assert_eq!(error_of(tracker.http_error(5, "500 x", "oops")), end("HTTP 500 x: oops", 100));
}

#[test]
fn chat_totals_by_local_counts() {
    let mut stream = ChatStream::new();
    assert_eq!(stream.receive(b"data: x\n"), vec!["x"]);
    assert_eq!(stream.absorb(vec![piece("hello")], 2_000_000), vec!["hello"]);
    assert_eq!(stream.absorb(vec![piece(" world"), None], 12_000_000), vec![" world"]);
    let result = stream.finish(50, 20_000_000);
    let tokens = count_tokens("hello world") as u32;
    assert_eq!(result.content, "hello world");
    assert_eq!(result.prompt_tokens, Some(50));
    assert_eq!(result.completion_tokens, Some(tokens));
    assert_eq!(result.prefill, Some(Rate { tokens: 50, nanos: 2_000_000 }));
    assert_eq!(result.decode, Some(Rate { tokens: tokens as u128, nanos: 10_000_000 }));
    assert_eq!(result.total_nanos, 20_000_000);
}

#[test]
fn chat_totals_by_the_server() {
    let mut stream = ChatStream::new();
    stream.absorb(vec![piece("a"), usage(Some(3), None)], 5);
    stream.absorb(vec![usage(None, Some(9))], 6);
    let result = stream.finish(50, 7);
    assert_eq!(result.prompt_tokens, Some(3));
    assert_eq!(result.completion_tokens, Some(9));
    // One piece only: the decoding took no time that could be measured.
    assert_eq!(result.decode, None);
    assert_eq!(result.prefill, Some(Rate { tokens: 3, nanos: 5 }));
}

#[test]
fn chat_without_an_answer() {
    let result = ChatStream::new().finish(8, 7);
    assert_eq!(result.content, "");
    assert_eq!(result.prompt_tokens, Some(8));
    assert_eq!(result.completion_tokens, Some(0));
    assert_eq!(result.prefill, None);
    assert_eq!(result.decode, None);
}

#[test]
fn input_tokens_of_a_conversation() {
    let message = |content: &str| ChatMessage { role: "user".to_string(), content: content.to_string() };
    let messages = vec![message("hello world"), message("again")];
    assert_eq!(local_prompt_tokens(&messages), count_tokens("hello world\nagain") as u32);
    assert_eq!(local_prompt_tokens(&vec![]), 0);
}

fn decode_of(first: u64, last: u64) -> Option<Rate> {
    let mut stream = ChatStream::new();
    stream.absorb(vec![piece("hello")], first);
    stream.absorb(vec![piece(" world")], last);
    stream.finish(1, last).decode
}

#[test]
fn chat_decoding_is_measured_by_a_difference_of_seconds() {
    // 0.101 - 0.1 is a little more than 0.001 in double precision, and 0.002 - 0.001 is not.
    assert_eq!(decode_of(100_000_000, 101_000_000), Some(Rate { tokens: 2, nanos: 1_000_000 }));
    assert_eq!(decode_of(1_000_000, 2_000_000), None);
    assert_eq!(decode_of(1_000_000, 2_000_001), Some(Rate { tokens: 2, nanos: 1_000_001 }));
    for first in (0..200u64).map(|k| k * 1_000_000) {
        let last = first + 1_000_000;
        let time = Duration::from_nanos(last).as_secs_f64() - Duration::from_nanos(first).as_secs_f64();
        assert_eq!(decode_of(first, last).is_some(), time > 0.001, "{}", first);
    }
}

use llmperf_rs::client::{count_tokens, TokenEvent};
use llmperf_rs::double::Seconds;
use llmperf_rs::live_display::{LiveDisplay, LiveTestResult, RequestState, RowTexts, TimeBucket};
use llmperf_rs::timing::Rate;
use llmperf_rs::utils::display_width;

const MS: u64 = 1_000_000;

fn started(id: usize, time: u64, tokens: u32) -> TokenEvent {
    TokenEvent::RequestStarted { request_id: id, start_time: time, prompt_tokens: tokens, context_size: tokens }
}

fn first(id: usize, time: u64) -> TokenEvent {
    TokenEvent::FirstToken { request_id: id, time }
}

fn output(id: usize, time: u64, content: &str) -> TokenEvent {
    TokenEvent::TokensReceived { request_id: id, time, content: content.to_string() }
}

fn completed(id: usize, time: u64, usage: Option<u32>, error: Option<&str>) -> TokenEvent {
    TokenEvent::Completed {
        request_id: id,
        time,
        completion_tokens: usage.unwrap_or(0),
        prompt_tokens: 1000,
        server_usage: usage.is_some(),
        success: error.is_none(),
        error: error.map(|e| e.to_string()),
    }
}

fn display(events: Vec<TokenEvent>) -> LiveDisplay {
    let mut display = LiveDisplay::new(3, 3000 * MS, "en", false, 0);
    for event in events {
        display.process_event(event);
    }
    display
}

#[test]
fn new_request_waits() {
    let r = RequestState::new(7);
    assert_eq!(r.request_id, 7);
    assert!(!r.is_prefill() && !r.is_decode() && !r.completed);
}

#[test]
fn phases_follow_the_events() {
    let mut d = display(vec![started(1, 10, 1000)]);
    assert!(d.requests[1].is_prefill() && !d.requests[1].is_decode());
    d.process_event(first(1, 20));
    assert!(!d.requests[1].is_prefill() && d.requests[1].is_decode());
    d.process_event(completed(1, 30, None, None));
    assert!(!d.requests[1].is_prefill() && !d.requests[1].is_decode());
    assert!(d.requests[1].completed && d.requests[1].success);
    assert!(d.requests[0].start_time.is_none() && d.requests[2].start_time.is_none());
}

#[test]
fn unknown_requests_are_ignored() {
    let d = display(vec![started(3, 10, 1000), first(9, 5)]);
    assert!(d.requests.iter().all(|r| r.start_time.is_none() && r.first_token_time.is_none()));
}

#[test]
fn tokens_are_counted_over_the_whole_output() {
    let d = display(vec![
        started(0, 0, 1000),
        first(0, MS),
        output(0, MS, "hel"),
        output(0, MS, "lo wor"),
        output(0, MS, "ld"),
    ]);
    let pieces = count_tokens("hel") + count_tokens("lo wor") + count_tokens("ld");
    let whole = count_tokens("hello world") as u32;
    assert!(pieces as u32 > whole);
    assert_eq!(d.requests[0].completion_tokens, whole);
    assert_eq!(d.requests[0].slice_tokens, whole);
    assert_eq!(d.requests[0].output_text, "hello world");
}

#[test]
fn usage_of_the_server_is_final() {
    let events = |usage| vec![
        started(0, 0, 1000),
        first(0, MS),
        output(0, MS, "hello world"),
        completed(0, 5 * MS, usage, None),
    ];
    assert_eq!(display(events(Some(9))).requests[0].completion_tokens, 9);
    assert_eq!(display(events(Some(1))).requests[0].completion_tokens, 1);
    let d = display(events(None));
    assert_eq!(d.requests[0].completion_tokens, 2);
    assert_eq!(d.requests[0].final_decode, Some(Rate { tokens: 2, nanos: 4 * MS }));
    assert_eq!(d.requests[0].prompt_tokens, 1000);
}

#[test]
fn short_decoding_has_no_rate() {
    let d = display(vec![started(0, 0, 1000), first(0, MS), completed(0, 2 * MS, Some(5), None)]);
    assert_eq!(d.requests[0].final_decode, None);
}

#[test]
fn tick_collects_a_slice() {
    let mut d = display(vec![started(0, 0, 1000), first(0, MS), output(0, MS, "hello world"), started(1, 0, 50)]);
    d.tick(2999 * MS);
    assert!(d.buckets.is_empty());
    assert_eq!(d.spinner_idx, 1);
    d.tick(3000 * MS);
    assert_eq!(
        d.buckets,
        vec![TimeBucket {
            prefill_input_tokens: 1000,
            prefill_active: 1,
            decode_output_tokens: 2,
            decode_active: 1,
            duration_nanos: 3000 * MS,
        }]
    );
    assert_eq!(d.last_slice_time, 3000 * MS);
    assert_eq!(d.requests[0].slice_tokens, 0);
    assert_eq!(d.requests[0].slice_decode_start, Some(3000 * MS));
    assert_eq!(d.requests[1].slice_decode_start, None);
    assert_eq!(d.requests[0].completion_tokens, 2);
}

#[test]
fn bucket_holds_output_of_requests_that_are_over() {
    let mut d = display(vec![started(0, 0, 10), output(0, MS, "hello world"), completed(0, 2 * MS, None, None)]);
    d.tick(3000 * MS);
    assert_eq!(d.buckets[0].decode_output_tokens, 2);
    assert_eq!(d.buckets[0].decode_active, 1);
}

#[test]
fn spinner_goes_round() {
    let mut d = display(vec![]);
    for _ in 0..10 {
        d.tick(1);
    }
    assert_eq!(d.spinner_idx, 0);
}

#[test]
fn figures_of_each_phase() {
    let mut d = display(vec![started(0, 0, 1000), started(1, 0, 1000), first(1, 100 * MS)]);
    d.process_event(output(1, 100 * MS, "hello world"));
    let row = d.format_request_metrics(0, 150 * MS);
    assert_eq!(row.status, "⠋ Prefill");
    assert_eq!((row.prefill, row.decode, row.nanos), (None, None, Some(150 * MS)));
    let row = d.format_request_metrics(1, 150 * MS);
    assert_eq!(row.status, "Decode");
    assert_eq!(row.prefill, Some(Rate { tokens: 1000, nanos: 100 * MS }));
    assert_eq!(row.decode, Some(Rate { tokens: 2, nanos: 50 * MS }));
    let row = d.format_request_metrics(1, 110 * MS);
    assert_eq!(row.decode, None);
    let row = d.format_request_metrics(2, 150 * MS);
    assert_eq!(row.status, "Wait");
    assert_eq!((row.prefill, row.decode, row.nanos), (None, None, None));
    d.process_event(completed(1, 200 * MS, Some(50), None));
    let row = d.format_request_metrics(1, 900 * MS);
    assert_eq!(row.status, "Done");
    assert_eq!(row.decode, Some(Rate { tokens: 50, nanos: 100 * MS }));
    assert_eq!(row.nanos, Some(200 * MS));
    d.process_event(completed(0, 300 * MS, None, Some("x")));
    let row = d.format_request_metrics(0, 900 * MS);
    assert_eq!(row.status, "Fail");
    assert_eq!(row.decode, None);
}

#[test]
fn labels_in_chinese() {
    let mut d = LiveDisplay::new(1, 3000 * MS, "zh", false, 0);
    assert_eq!(d.format_request_metrics(0, 0).status, "等待");
    d.process_event(started(0, 0, 1));
    d.process_event(completed(0, 1, None, None));
    assert_eq!(d.format_request_metrics(0, 0).status, "完成");
    d.process_event(completed(0, 1, None, Some("x")));
    assert_eq!(d.format_request_metrics(0, 0).status, "失败");
}

#[test]
fn system_rates_share_the_clock() {
    let mut d = display(vec![started(0, 0, 1000), first(0, 100 * MS), started(1, 50 * MS, 500), first(1, 150 * MS)]);
    d.process_event(output(0, 100 * MS, "hello world"));
    let (prefill, decode) = d.calc_system_throughput(200 * MS);
    assert_eq!(prefill, Some(Rate { tokens: 1500, nanos: 150 * MS }));
    assert_eq!(decode, Some(Rate { tokens: 2, nanos: 200 * MS }));
    assert_eq!(d.calc_system_throughput(9 * MS), (None, None));
    // A prefill that is still running adds nothing.
    d.process_event(started(2, 0, 9999));
    assert_eq!(d.calc_system_throughput(200 * MS).0, prefill);
}

fn rows(n: usize) -> Vec<RowTexts> {
    (0..n)
        .map(|i| RowTexts {
            prefill: if i == 0 { Some("58.3".to_string()) } else { None },
            decode: None,
            time: if i == 0 { Some("4.4".to_string()) } else { None },
        })
        .collect()
}

#[test]
fn table_lines_line_up() {
    let d = display(vec![started(0, 0, 1024), first(0, MS), output(0, MS, "hello world")]);
    let lines = d.build_table_lines("5.2", &rows(3), "2280", "119.5", 10 * MS);
    let rule = "-".repeat(93);
    assert_eq!(
        lines,
        vec![
            "  Elapsed 5.2s",
            "   #    |   Ctx    |    Status    |  Prefill(t/s)  |  Decode(t/s)   |  Out Toks  |  Time(s)  ",
            rule.as_str(),
            "   1    |   1024   |    Decode    |           58.3 |              - |          2 |        4.4",
            "   2    |    0     |     Wait     |              - |              - |          - |          -",
            "   3    |    0     |     Wait     |              - |              - |          - |          -",
            rule.as_str(),
            " System    Prefill: 2280 input t/s | Decode: 119.5 output t/s",
        ]
    );
}

#[test]
fn table_in_chinese_is_as_wide() {
    let d = LiveDisplay::new(1, 1, "zh", false, 0);
    let lines = d.build_table_lines("0.0", &rows(1), "0", "0.0", 0);
    assert_eq!(lines[0], "  运行 0.0s");
    assert_eq!(lines[4], lines[2]);
    assert_eq!(display_width(&lines[1]), lines[2].len());
    assert_eq!(display_width(&lines[3]), lines[2].len());
    assert_eq!(lines[5], " 系统吞吐  Prefill: 0 input t/s | Decode: 0.0 output t/s");
}

#[test]
fn frames_overwrite_each_other() {
    let mut d = display(vec![]);
    let lines = vec!["a".to_string(), "b".to_string()];
    assert_eq!(d.render(&lines), "\x1b[2Ka\n\x1b[2Kb\n");
    assert_eq!(d.last_render_lines, 2);
    assert_eq!(d.render(&lines), "\x1b[2A\r\x1b[2Ka\n\x1b[2Kb\n");
    assert_eq!(d.final_render(5 * MS, &lines), "\x1b[2A\r\x1b[2Ka\n\x1b[2Kb\n\n");
    assert_eq!(d.buckets.len(), 1);
    assert_eq!(d.buckets[0].duration_nanos, 5 * MS);
}

#[test]
fn silent_display_draws_nothing() {
    let mut d = LiveDisplay::new(1, 1, "en", true, 0);
    let lines = vec!["a".to_string()];
    assert_eq!(d.render(&lines), "");
    assert_eq!(d.final_render(MS - 1, &lines), "");
    assert_eq!(d.last_render_lines, 0);
    assert!(d.buckets.is_empty());
}

fn one_result(d: &LiveDisplay, now: u64) -> LiveTestResult {
    let mut results = d.collect_results(now);
    assert_eq!(results.len(), 1);
    results.remove(0)
}

#[test]
fn results_of_requests_that_were_sent() {
    let mut d = display(vec![started(1, 10, 1000), first(1, 30)]);
    let r = one_result(&d, 100);
    assert_eq!((r.request_id, r.start, r.prefilled), (1, 10, true));
    assert_eq!((r.prefill_nanos, r.decode_secs, r.total_nanos), (20, Seconds::between(20, 90), 90));
    d.process_event(completed(1, 60, Some(4), None));
    let r = one_result(&d, 100);
    assert_eq!((r.prefill_nanos, r.decode_secs, r.total_nanos), (20, Seconds::between(20, 50), 50));
    assert_eq!((r.completion_tokens, r.prompt_tokens, r.context_size), (4, 1000, 1000));
    assert!(r.success && r.error.is_none());
}

#[test]
fn result_without_a_first_token() {
    let d = display(vec![started(0, 10, 1000), completed(0, 60, None, Some("gone"))]);
    let r = one_result(&d, 100);
    assert_eq!((r.prefilled, r.prefill_nanos, r.decode_secs.units, r.total_nanos), (false, 50, 0, 50));
    assert_eq!(r.error, Some("gone".to_string()));
    assert!(!r.success);
}

#[test]
fn slices_do_not_change_results() {
    let mut d = display(vec![started(0, 0, 1000), first(0, MS), output(0, MS, "hello world")]);
    let before = one_result(&d, 9000 * MS);
    d.tick(4000 * MS);
    let after = one_result(&d, 9000 * MS);
    assert_eq!(before.completion_tokens, after.completion_tokens);
    assert_eq!(before.decode_secs, after.decode_secs);
}

#[test]
fn decoding_is_the_rest() {
    let d = display(vec![started(0, 5 * MS, 1), first(0, 5 * MS), completed(0, 9 * MS, Some(1), None)]);
    let r = one_result(&d, 0);
    assert_eq!(r.prefill_nanos, 0);
    assert_eq!(r.decode_secs, Seconds::of_nanos(4 * MS));
}

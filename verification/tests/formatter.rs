use llmperf_rs::double::Seconds;
use llmperf_rs::formatter::{
    build_json_results, calc_throughput_stats, count_successes, print_final_results,
    ThroughputTexts,
};
use llmperf_rs::live_display::LiveTestResult;
use llmperf_rs::timing::Rate;

const MS: u64 = 1_000_000;

fn good(id: usize, start: u64, prefill: u64, total: u64) -> LiveTestResult {
    LiveTestResult {
        request_id: id,
        start: start * MS,
        prefilled: true,
        context_size: 1024,
        prompt_tokens: 1000,
        completion_tokens: 100,
        prefill_nanos: prefill * MS,
        decode_secs: Seconds::between(prefill * MS, total * MS),
        total_nanos: total * MS,
        success: true,
        error: None,
    }
}

fn bad(id: usize, error: Option<&str>) -> LiveTestResult {
    LiveTestResult {
        success: false,
        error: error.map(|e| e.to_string()),
        ..good(id, 0, 10, 500)
    }
}

fn texts() -> ThroughputTexts {
    ThroughputTexts {
        prefill: "1.00".to_string(),
        decode: "2.00".to_string(),
        total_time: "3.00".to_string(),
    }
}

#[test]
fn sequential_requests_average() {
    let stats = calc_throughput_stats(&vec![good(0, 0, 100, 400), good(1, 400, 100, 400)]);
    assert_eq!(stats.prompt_tokens, 2000);
    assert_eq!(stats.completion_tokens, 200);
    assert_eq!(stats.total_nanos, 800 * MS);
    assert_eq!(stats.prefill, Some(Rate { tokens: 2000, nanos: 200 * MS }));
    assert_eq!(stats.decode, Some(Rate { tokens: 200, nanos: 600 * MS }));
}

#[test]
fn parallel_requests_share_the_clock() {
    let stats = calc_throughput_stats(&vec![good(0, 0, 100, 400), good(1, 50, 100, 400)]);
    assert_eq!(stats.total_nanos, 450 * MS);
    assert_eq!(stats.prefill, Some(Rate { tokens: 2000, nanos: 150 * MS }));
    assert_eq!(stats.decode, Some(Rate { tokens: 200, nanos: 350 * MS }));
}

#[test]
fn failures_do_not_count() {
    let results = vec![bad(0, None), good(1, 0, 100, 400)];
    assert_eq!(count_successes(&results), 1);
    let stats = calc_throughput_stats(&results);
    assert_eq!(stats.prompt_tokens, 1000);
    assert_eq!(stats.total_nanos, 400 * MS);
}

#[test]
fn short_phases_have_no_rate() {
    let stats = calc_throughput_stats(&vec![good(0, 0, 1, 2)]);
    assert_eq!(stats.prefill, None);
    assert_eq!(stats.decode, None);
    assert_eq!(stats.total_nanos, 2 * MS);
}

#[test]
fn report_without_requests() {
    assert_eq!(
        print_final_results(&vec![], &texts(), "en"),
        "=== Test Results ===\nTotal: 0\nSuccess: 0\nFailed: 0\n"
    );
}

#[test]
fn report_on_success_and_failure() {
    let long = "x".repeat(60);
    let results = vec![good(0, 0, 100, 400), bad(1, Some(&long)), bad(2, None)];
    let expected = format!(
        "=== Test Results ===\nTotal: 3\nSuccess: 1\nFailed: 2\n\n--- System Throughput ---\n\
         Total input tokens: 1000\nTotal output tokens: 100\nPrefill: 1.00 input tok/s\n\
         Decode: 2.00 output tok/s\nTotal time: 3.00s\n\n\n=== Failed Requests ===\n\
         \u{20}\u{20}#    | Error\n{}\n\u{20}\u{20}2    | {}\n\u{20}\u{20}3    | Unknown error\n\n",
        "-".repeat(60),
        "x".repeat(50)
    );
    assert_eq!(print_final_results(&results, &texts(), "en"), expected);
}

#[test]
fn report_in_chinese() {
    let expected = "=== 测试结果 ===\n总请求: 1\n成功: 1\n失败: 0\n\n--- 系统吞吐 ---\n\
        输入Token总计: 1000\n输出Token总计: 100\nPrefill: 1.00 input tok/s\n\
        Decode: 2.00 output tok/s\n总耗时: 3.00s\n\n";
    assert_eq!(print_final_results(&vec![good(0, 0, 100, 400)], &texts(), "zh"), expected);
}

#[test]
fn long_errors_are_cut_at_a_character() {
    let error = "错".repeat(30);
    let report = print_final_results(&vec![bad(0, Some(&error))], &texts(), "en");
    assert!(report.contains(&format!("| {}\n", "错".repeat(16))));
}

#[test]
fn report_as_data() {
    let results = vec![good(0, 0, 100, 400), bad(1, Some("e")), good(2, 400, 1, 400)];
    let report = build_json_results(&results, "m", 3, 256, Some("env".to_string()));
    assert_eq!(report.model, "m");
    assert_eq!((report.concurrent, report.max_tokens), (3, 256));
    assert_eq!((report.total, report.success, report.failed), (3, 2, 1));
    assert_eq!(report.environment, Some("env".to_string()));
    assert_eq!(report.system_throughput, calc_throughput_stats(&results));
    let ids = report.requests.iter().map(|r| r.request_id).collect::<Vec<_>>();
    assert_eq!(ids, vec![1, 2, 3]);
    assert_eq!(report.requests[0].prefill, Some(Rate { tokens: 1000, nanos: 100 * MS }));
    assert_eq!(report.requests[2].prefill, None);
    assert_eq!(report.requests[1].error, Some("e".to_string()));
    assert!(!report.requests[1].success);
    assert_eq!(report.requests[0].decode_secs, Seconds::between(100 * MS, 400 * MS));
}

#[test]
fn no_success_no_throughput() {
    let report = build_json_results(&vec![bad(0, None)], "m", 1, 1, None);
    assert_eq!(report.system_throughput.prompt_tokens, 0);
    assert_eq!(report.system_throughput.total_nanos, 0);
    assert_eq!(report.system_throughput.prefill, None);
    assert_eq!(report.system_throughput.decode, None);
    assert_eq!(report.environment, None);
}

#[test]
fn decoding_is_measured_by_a_difference_of_seconds() {
    // 0.101 - 0.1 is a little more than 0.001 in double precision, and 0.002 - 0.001 is not.
    let stats = calc_throughput_stats(&vec![good(0, 0, 100, 101), good(1, 500, 100, 140)]);
    assert_eq!(stats.decode, Some(Rate { tokens: 200, nanos: 41 * MS }));
    let stats = calc_throughput_stats(&vec![good(0, 0, 1, 2), good(1, 500, 100, 140)]);
    assert_eq!(stats.decode, Some(Rate { tokens: 200, nanos: 40 * MS }));
}

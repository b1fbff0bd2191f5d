//! What a finished test is reported as.
use vstd::prelude::*;
use vstd::string::StringExecFns;
use crate::bytes::{self, clip_text};
use crate::double::{self, find_end, Seconds};
use crate::live_display::{self, LiveTestResult, ResultView};
use crate::number::{self, decimal_text};
use crate::text::{self, choose_label, repeat_char, same_text};
use crate::timing::{self, union_duration, Rate, MILLISECOND};
use crate::utils::{self, pad_center};

verus! {

// ---------------------------------------------------------------------------
// Throughput
// ---------------------------------------------------------------------------

/// The throughput of a whole test.
#[derive(Debug, Clone, Copy, PartialEq, Eq, Structural)]
pub struct ThroughputStats {
    pub prompt_tokens: u128,
    pub completion_tokens: u128,
    /// The time during which at least one request ran.
    pub total_nanos: u64,
    /// The input tokens over the time during which at least one prefill ran.
    pub prefill: Option<Rate>,
    /// The output tokens over the time during which at least one request
    /// decoded.
    pub decode: Option<Rate>,
}

/// The results of the requests that succeeded, or of those that failed.
pub open spec fn with_success(results: Seq<ResultView>, success: bool) -> Seq<ResultView>
    decreases results.len(),
{
    if results.len() == 0 {
        Seq::empty()
    } else {
        let before = with_success(results.drop_last(), success);
        if results.last().success == success {
            before.push(results.last())
        } else {
            before
        }
    }
}

/// The input tokens of all results.
pub open spec fn sum_prompt(results: Seq<ResultView>) -> nat
    decreases results.len(),
{
    if results.len() == 0 {
        0
    } else {
        sum_prompt(results.drop_last()) + results.last().prompt_tokens as nat
    }
}

/// The output tokens of all results.
pub open spec fn sum_completion(results: Seq<ResultView>) -> nat
    decreases results.len(),
{
    if results.len() == 0 {
        0
    } else {
        sum_completion(results.drop_last()) + results.last().completion_tokens as nat
    }
}

/// When the prefills ran, without those that were too short to measure.
pub open spec fn prefill_spans(results: Seq<ResultView>) -> Seq<(u64, u64)>
    decreases results.len(),
{
    if results.len() == 0 {
        Seq::empty()
    } else {
        let before = prefill_spans(results.drop_last());
        let r = results.last();
        if r.prefilled && r.prefill_nanos > MILLISECOND {
            before.push((r.start, double::end_of(r.start, r.prefill_nanos)))
        } else {
            before
        }
    }
}

/// When output came in, without what was too short to measure.
pub open spec fn decode_spans(results: Seq<ResultView>) -> Seq<(u64, u64)>
    decreases results.len(),
{
    if results.len() == 0 {
        Seq::empty()
    } else {
        let before = decode_spans(results.drop_last());
        let r = results.last();
        if r.prefilled && r.decode_secs.units > double::thousandth() {
            before.push(
                (
                    double::end_of(r.start, r.prefill_nanos),
                    double::end_of(r.start, r.total_nanos),
                ),
            )
        } else {
            before
        }
    }
}

/// When the requests ran.
pub open spec fn full_spans(results: Seq<ResultView>) -> Seq<(u64, u64)>
    decreases results.len(),
{
    if results.len() == 0 {
        Seq::empty()
    } else {
        let r = results.last();
        full_spans(results.drop_last()).push((r.start, double::end_of(r.start, r.total_nanos)))
    }
}

/// A number of tokens over the time during which one of the intervals was
/// active, if that can be measured.
pub open spec fn rate_over(tokens: nat, intervals: Seq<(u64, u64)>) -> Option<Rate> {
    let nanos = timing::busy_time(intervals);
    if nanos > MILLISECOND {
        Some(Rate { tokens: tokens as u128, nanos: nanos as u64 })
    } else {
        None
    }
}

/// The throughput of the whole system: all tokens over the time during which
/// the system was busy, never a sum of the rates of the requests.
pub open spec fn throughput(results: Seq<ResultView>) -> ThroughputStats {
    ThroughputStats {
        prompt_tokens: sum_prompt(results) as u128,
        completion_tokens: sum_completion(results) as u128,
        total_nanos: timing::busy_time(full_spans(results)) as u64,
        prefill: rate_over(sum_prompt(results), prefill_spans(results)),
        decode: rate_over(sum_completion(results), decode_spans(results)),
    }
}

/// The throughput of the requests that succeeded.
pub fn calc_throughput_stats(results: &Vec<LiveTestResult>) -> (stats: ThroughputStats)
    ensures
        stats == throughput(with_success(live_display::result_views(results@), true)),
        stats.prompt_tokens == live_display::result_views(results@).fold_left(
            0int,
            |sum: int, r: ResultView|
                if r.success {
                    sum + r.prompt_tokens
                } else {
                    sum
                },
        ),
        stats.completion_tokens == live_display::result_views(results@).fold_left(
            0int,
            |sum: int, r: ResultView|
                if r.success {
                    sum + r.completion_tokens
                } else {
                    sum
                },
        ),
        stats.prefill matches Some(rate) ==> rate.tokens == stats.prompt_tokens,
        stats.decode matches Some(rate) ==> rate.tokens == stats.completion_tokens,
{
    let ghost all = live_display::result_views(results@);
    proof {
        law_totals(all);
    }
    let mut prompt_tokens: u128 = 0;
    let mut completion_tokens: u128 = 0;
    let mut prefills: Vec<(u64, u64)> = Vec::new();
    let mut decodes: Vec<(u64, u64)> = Vec::new();
    let mut fulls: Vec<(u64, u64)> = Vec::new();
    for i in 0..results.len()
        invariant
            all == live_display::result_views(results@),
            prompt_tokens == sum_prompt(with_success(all.take(i as int), true)),
            completion_tokens == sum_completion(with_success(all.take(i as int), true)),
            prefills@ == prefill_spans(with_success(all.take(i as int), true)),
            decodes@ == decode_spans(with_success(all.take(i as int), true)),
            fulls@ == full_spans(with_success(all.take(i as int), true)),
            prompt_tokens <= i * u32::MAX,
            completion_tokens <= i * u32::MAX,
    {
        let r: &LiveTestResult = &results[i];
        proof {
            assert(all.take(i + 1).drop_last() =~= all.take(i as int));
            assert(all[i as int] == r@);
            assert((i + 1) * u32::MAX == i * u32::MAX + u32::MAX) by (nonlinear_arith);
            assert(i * u32::MAX <= 0xffff_ffff_ffff_ffff * u32::MAX) by (nonlinear_arith)
                requires
                    i <= 0xffff_ffff_ffff_ffff,
            ;
            let before = with_success(all.take(i as int), true);
            assert(before.push(r@).drop_last() =~= before);
        }
        if r.success {
            prompt_tokens = prompt_tokens + r.prompt_tokens as u128;
            completion_tokens = completion_tokens + r.completion_tokens as u128;
            if r.prefilled && r.prefill_nanos > MILLISECOND {
                prefills.push((r.start, find_end(r.start, r.prefill_nanos)));
            }
            if r.prefilled && r.decode_secs.over_a_thousandth() {
                decodes.push(
                    (find_end(r.start, r.prefill_nanos), find_end(r.start, r.total_nanos)),
                );
            }
            fulls.push((r.start, find_end(r.start, r.total_nanos)));
        }
    }
    assert(all.take(all.len() as int) =~= all);
    let prefill_nanos: u64 = union_duration(&prefills);
    let decode_nanos: u64 = union_duration(&decodes);
    let prefill: Option<Rate> = if prefill_nanos > MILLISECOND {
        Some(Rate { tokens: prompt_tokens, nanos: prefill_nanos })
    } else {
        None
    };
    let decode: Option<Rate> = if decode_nanos > MILLISECOND {
        Some(Rate { tokens: completion_tokens, nanos: decode_nanos })
    } else {
        None
    };
    ThroughputStats {
        prompt_tokens,
        completion_tokens,
        total_nanos: union_duration(&fulls),
        prefill,
        decode,
    }
}

/// Every request either succeeded or failed.
pub proof fn law_successes_and_failures(results: Seq<ResultView>)
    ensures
        with_success(results, true).len() + with_success(results, false).len() == results.len(),
    decreases results.len(),
{
    if results.len() > 0 {
        law_successes_and_failures(results.drop_last());
    }
}

/// When a request was over.
pub open spec fn end_of_result(r: ResultView) -> u64 {
    double::end_of(r.start, r.total_nanos)
}

/// Whether each request started when the one before it was over.
pub open spec fn one_after_another(results: Seq<ResultView>) -> bool {
    forall|i: int, j: int|
        0 <= i < j < results.len() ==> end_of_result(#[trigger] results[i]) <= (
        #[trigger] results[j]).start
}

/// The sum of the times that requests took.
pub open spec fn sum_total(results: Seq<ResultView>) -> nat
    decreases results.len(),
{
    if results.len() == 0 {
        0
    } else {
        let r = results.last();
        sum_total(results.drop_last()) + timing::span(r.start, end_of_result(r))
    }
}

proof fn lemma_full_spans(results: Seq<ResultView>)
    ensures
        full_spans(results).len() == results.len(),
        forall|i: int|
            0 <= i < results.len() ==> #[trigger] full_spans(results)[i] == (
                results[i].start,
                end_of_result(results[i]),
            ),
        timing::sum_of_spans(full_spans(results)) == sum_total(results),
    decreases results.len(),
{
    if results.len() > 0 {
        let before = results.drop_last();
        lemma_full_spans(before);
        let r = results.last();
        let spans = full_spans(results);
        assert(spans.drop_last() =~= full_spans(before));
        assert(spans.last() == (r.start, end_of_result(r)));
        assert forall|i: int| 0 <= i < results.len() implies #[trigger] spans[i] == (
            results[i].start,
            end_of_result(results[i]),
        ) by {
            if i < before.len() {
                assert(spans[i] == full_spans(before)[i]);
                assert(before[i] == results[i]);
            }
        }
    }
}

/// Where requests ran one after the other, the total time is the sum of
/// their times.
pub proof fn law_sequential_requests_add_up(results: Seq<ResultView>)
    requires
        one_after_another(results),
    ensures
        timing::busy_time(full_spans(results)) == sum_total(results),
{
    let spans = full_spans(results);
    lemma_full_spans(results);
    assert forall|i: int, j: int| 0 <= i < j < spans.len() implies timing::moments(
        #[trigger] spans[i],
    ).disjoint(timing::moments(#[trigger] spans[j])) by {
        assert(end_of_result(results[i]) <= results[j].start);
    }
    timing::law_separate_intervals_add_up(spans);
}

/// Where requests all ran at one moment `t`, the total time is the time on
/// the clock, from the first start to the last end.
pub proof fn law_parallel_requests_span_the_clock(
    results: Seq<ResultView>,
    t: int,
    first: int,
    last: int,
)
    requires
        0 <= first < results.len(),
        0 <= last < results.len(),
        forall|i: int|
            0 <= i < results.len() ==> {
                &&& (#[trigger] results[i]).start <= t < end_of_result(results[i])
                &&& results[first].start <= results[i].start
                &&& end_of_result(results[i]) <= end_of_result(results[last])
            },
    ensures
        timing::busy_time(full_spans(results)) == end_of_result(results[last])
            - results[first].start,
{
    let spans = full_spans(results);
    lemma_full_spans(results);
    assert forall|i: int| 0 <= i < spans.len() implies {
        &&& (#[trigger] spans[i]).0 <= t < spans[i].1
        &&& spans[first].0 <= spans[i].0
        &&& spans[i].1 <= spans[last].1
    } by {
        assert(results[i].start <= t);
    }
    timing::law_shared_moment_spans(spans, t, first, last);
}

/// A request that took less than two to the power of fifty nanoseconds was
/// over that many nanoseconds after its start.
pub proof fn law_short_requests_end_in_time(r: ResultView)
    requires
        r.total_nanos < 1_125_899_906_842_624,
        r.start + r.total_nanos <= u64::MAX,
    ensures
        end_of_result(r) == r.start + r.total_nanos,
{
    double::law_short_spans_are_kept(r.total_nanos as nat);
}

// ---------------------------------------------------------------------------
// As text
// ---------------------------------------------------------------------------

/// The rates and the time of a test, as text.
#[derive(Debug, Clone)]
pub struct ThroughputTexts {
    pub prefill: String,
    pub decode: String,
    pub total_time: String,
}

/// A label and a number, on a line.
pub open spec fn counted(label: Seq<char>, n: nat) -> Seq<char> {
    label + ": "@ + number::decimal(n) + "\n"@
}

/// The section on the throughput of the whole system.
pub open spec fn throughput_section(
    stats: ThroughputStats,
    texts: ThroughputTexts,
    zh: bool,
) -> Seq<char> {
    "\n--- "@ + text::label(zh, "系统吞吐"@, "System Throughput"@) + " ---\n"@ + counted(
        text::label(zh, "输入Token总计"@, "Total input tokens"@),
        stats.prompt_tokens as nat,
    ) + counted(
        text::label(zh, "输出Token总计"@, "Total output tokens"@),
        stats.completion_tokens as nat,
    ) + "Prefill: "@ + texts.prefill@ + " input tok/s\n"@ + "Decode: "@ + texts.decode@
        + " output tok/s\n"@ + text::label(zh, "总耗时"@, "Total time"@) + ": "@
        + texts.total_time@ + "s\n\n"@
}

/// Why a request failed, in at most fifty bytes.
pub open spec fn short_error(error: Option<Seq<char>>) -> Seq<char> {
    bytes::clipped(
        match error {
            Some(e) => e,
            None => "Unknown error"@,
        },
        50,
    )
}

/// The lines on requests that failed.
pub open spec fn failed_rows(results: Seq<ResultView>) -> Seq<char>
    decreases results.len(),
{
    if results.len() == 0 {
        Seq::empty()
    } else {
        let r = results.last();
        failed_rows(results.drop_last()) + utils::padded_center(
            number::decimal((r.request_id + 1) as nat),
            6,
        ) + " | "@ + short_error(r.error) + "\n"@
    }
}

/// The section on the requests that failed.
pub open spec fn failed_section(results: Seq<ResultView>, zh: bool) -> Seq<char> {
    "\n=== "@ + text::label(zh, "失败请求"@, "Failed Requests"@) + " ===\n"@
        + utils::padded_center("#"@, 6) + " | "@ + text::label(zh, "错误"@, "Error"@) + "\n"@
        + text::repeated('-', 60) + "\n"@ + failed_rows(results) + "\n"@
}

/// The report on a finished test: how many requests there were, the
/// throughput if any succeeded, and the errors if any failed.
pub open spec fn final_report(results: Seq<ResultView>, texts: ThroughputTexts, zh: bool) -> Seq<
    char,
> {
    let good = with_success(results, true);
    let bad = with_success(results, false);
    "=== "@ + text::label(zh, "测试结果"@, "Test Results"@) + " ===\n"@ + counted(
        text::label(zh, "总请求"@, "Total"@),
        results.len(),
    ) + counted(text::label(zh, "成功"@, "Success"@), good.len()) + counted(
        text::label(zh, "失败"@, "Failed"@),
        bad.len(),
    ) + (if good.len() > 0 {
        throughput_section(throughput(good), texts, zh)
    } else {
        Seq::empty()
    }) + (if bad.len() > 0 {
        failed_section(bad, zh)
    } else {
        Seq::empty()
    })
}

/// How many requests succeeded.
pub fn count_successes(results: &Vec<LiveTestResult>) -> (n: usize)
    ensures
        n == with_success(live_display::result_views(results@), true).len(),
        n <= results.len(),
{
    let ghost all = live_display::result_views(results@);
    let mut n: usize = 0;
    for i in 0..results.len()
        invariant
            all == live_display::result_views(results@),
            n == with_success(all.take(i as int), true).len(),
            n <= i,
    {
        assert(all.take(i + 1).drop_last() =~= all.take(i as int));
        assert(all.take(i + 1).last() == results@[i as int]@);
        if results[i].success {
            n = n + 1;
        }
    }
    assert(all.take(all.len() as int) =~= all);
    n
}

fn counted_line(label: &str, n: u128) -> (line: String)
    ensures
        line@ == counted(label@, n as nat),
{
    label.to_owned().concat(": ").concat(decimal_text(n).as_str()).concat("\n")
}

/// The section on the throughput of the whole system.
fn print_system_throughput(stats: &ThroughputStats, texts: &ThroughputTexts, zh: bool) -> (s:
    String)
    ensures
        s@ == throughput_section(*stats, *texts, zh),
{
    let mut s: String = "\n--- ".to_owned();
    s.append(choose_label(zh, "系统吞吐", "System Throughput"));
    s.append(" ---\n");
    s.append(
        counted_line(
            choose_label(zh, "输入Token总计", "Total input tokens"),
            stats.prompt_tokens,
        ).as_str(),
    );
    s.append(
        counted_line(
            choose_label(zh, "输出Token总计", "Total output tokens"),
            stats.completion_tokens,
        ).as_str(),
    );
    s.append("Prefill: ");
    s.append(texts.prefill.as_str());
    s.append(" input tok/s\n");
    s.append("Decode: ");
    s.append(texts.decode.as_str());
    s.append(" output tok/s\n");
    s.append(choose_label(zh, "总耗时", "Total time"));
    s.append(": ");
    s.append(texts.total_time.as_str());
    s.append("s\n\n");
    s
}

/// The section on the requests that failed.
fn print_failed_requests(results: &Vec<LiveTestResult>, zh: bool) -> (s: String)
    ensures
        s@ == failed_section(with_success(live_display::result_views(results@), false), zh),
{
    let ghost all = live_display::result_views(results@);
    let mut rows: String = String::new();
    assert(rows@ =~= failed_rows(with_success(all.take(0), false)));
    for i in 0..results.len()
        invariant
            all == live_display::result_views(results@),
            rows@ == failed_rows(with_success(all.take(i as int), false)),
    {
        let r: &LiveTestResult = &results[i];
        proof {
            assert(all.take(i + 1).drop_last() =~= all.take(i as int));
            assert(all.take(i + 1).last() == r@);
            let before = with_success(all.take(i as int), false);
            assert(before.push(r@).drop_last() =~= before);
        }
        if !r.success {
            let error: String = match &r.error {
                Some(e) => clip_text(e.as_str(), 50),
                None => clip_text("Unknown error", 50),
            };
            rows.append(pad_center(decimal_text(r.request_id as u128 + 1).as_str(), 6).as_str());
            rows.append(" | ");
            rows.append(error.as_str());
            rows.append("\n");
        }
    }
    assert(all.take(all.len() as int) =~= all);
    let mut s: String = "\n=== ".to_owned();
    s.append(choose_label(zh, "失败请求", "Failed Requests"));
    s.append(" ===\n");
    s.append(pad_center("#", 6).as_str());
    s.append(" | ");
    s.append(choose_label(zh, "错误", "Error"));
    s.append("\n");
    s.append(repeat_char('-', 60).as_str());
    s.append("\n");
    s.append(rows.as_str());
    s.append("\n");
    s
}

/// What is printed about a finished test, given its rates and its time as
/// text.
pub fn print_final_results(results: &Vec<LiveTestResult>, texts: &ThroughputTexts, lang: &str) -> (s:
    String)
    ensures
        s@ == final_report(live_display::result_views(results@), *texts, lang@ == "zh"@),
{
    let zh: bool = same_text(lang, "zh");
    let good: usize = count_successes(results);
    let bad: usize = results.len() - good;
    proof {
        law_successes_and_failures(live_display::result_views(results@));
    }
    let mut s: String = "=== ".to_owned();
    s.append(choose_label(zh, "测试结果", "Test Results"));
    s.append(" ===\n");
    s.append(counted_line(choose_label(zh, "总请求", "Total"), results.len() as u128).as_str());
    s.append(counted_line(choose_label(zh, "成功", "Success"), good as u128).as_str());
    s.append(counted_line(choose_label(zh, "失败", "Failed"), bad as u128).as_str());
    let ghost head = s@;
    if good > 0 {
        let stats: ThroughputStats = calc_throughput_stats(results);
        s.append(print_system_throughput(&stats, texts, zh).as_str());
    } else {
        assert(head =~= head + Seq::<char>::empty());
    }
    let ghost middle = s@;
    if bad > 0 {
        s.append(print_failed_requests(results, zh).as_str());
    } else {
        assert(middle =~= middle + Seq::<char>::empty());
    }
    s
}

// ---------------------------------------------------------------------------
// As data
// ---------------------------------------------------------------------------

/// What a request is reported as.
#[derive(Debug)]
pub struct RequestReport {
    /// The number of the request, from one.
    pub request_id: usize,
    pub success: bool,
    pub context_size: u32,
    pub prompt_tokens: u32,
    pub completion_tokens: u32,
    pub prefill: Option<Rate>,
    pub prefill_nanos: u64,
    pub decode_secs: Seconds,
    pub total_nanos: u64,
    pub error: Option<String>,
}

/// What a finished test is reported as.
#[derive(Debug)]
pub struct TestReport {
    pub model: String,
    pub concurrent: usize,
    pub max_tokens: u32,
    pub total: usize,
    pub success: usize,
    pub failed: usize,
    pub system_throughput: ThroughputStats,
    pub requests: Vec<RequestReport>,
    pub environment: Option<String>,
}

/// Whether `report` is the report on the result `r`. A prefill has a rate if
/// it is over and took more than a millisecond.
pub open spec fn reports(report: RequestReport, r: ResultView) -> bool {
    &&& report.request_id == r.request_id + 1
    &&& report.success == r.success
    &&& report.context_size == r.context_size
    &&& report.prompt_tokens == r.prompt_tokens
    &&& report.completion_tokens == r.completion_tokens
    &&& report.prefill == (if r.prefilled && r.prefill_nanos > MILLISECOND {
        Some(Rate { tokens: r.prompt_tokens as u128, nanos: r.prefill_nanos })
    } else {
        None
    })
    &&& report.prefill_nanos == r.prefill_nanos
    &&& report.decode_secs == r.decode_secs
    &&& report.total_nanos == r.total_nanos
    &&& text::opt_text(report.error) == r.error
}

/// The report on a finished test, with what is known of the machine.
pub fn build_json_results(
    results: &Vec<LiveTestResult>,
    model: &str,
    concurrent: usize,
    max_tokens: u32,
    environment: Option<String>,
) -> (report: TestReport)
    requires
        live_display::all_numbered(live_display::result_views(results@)),
    ensures
        report.model@ == model@,
        report.concurrent == concurrent,
        report.max_tokens == max_tokens,
        report.total == results.len(),
        report.success == with_success(live_display::result_views(results@), true).len(),
        report.failed == with_success(live_display::result_views(results@), false).len(),
        report.system_throughput == throughput(
            with_success(live_display::result_views(results@), true),
        ),
        report.requests.len() == results.len(),
        forall|i: int|
            0 <= i < results.len() ==> reports(#[trigger] report.requests[i], results[i]@),
        report.environment == environment,
{
    let ghost all = live_display::result_views(results@);
    let success: usize = count_successes(results);
    proof {
        law_successes_and_failures(all);
    }
    let mut requests: Vec<RequestReport> = Vec::new();
    for i in 0..results.len()
        invariant
            all == live_display::result_views(results@),
            live_display::all_numbered(all),
            requests.len() == i,
            forall|k: int| 0 <= k < i ==> reports(#[trigger] requests[k], results[k]@),
    {
        let r: &LiveTestResult = &results[i];
        assert(all[i as int] == r@);
        let prefill: Option<Rate> = if r.prefilled && r.prefill_nanos > MILLISECOND {
            Some(Rate { tokens: r.prompt_tokens as u128, nanos: r.prefill_nanos })
        } else {
            None
        };
        let error: Option<String> = match &r.error {
            Some(e) => Some(e.clone()),
            None => None,
        };
        requests.push(
            RequestReport {
                request_id: r.request_id + 1,
                success: r.success,
                context_size: r.context_size,
                prompt_tokens: r.prompt_tokens,
                completion_tokens: r.completion_tokens,
                prefill,
                prefill_nanos: r.prefill_nanos,
                decode_secs: r.decode_secs,
                total_nanos: r.total_nanos,
                error,
            },
        );
    }
    TestReport {
        model: model.to_owned(),
        concurrent,
        max_tokens,
        total: results.len(),
        success,
        failed: results.len() - success,
        system_throughput: calc_throughput_stats(results),
        requests,
        environment,
    }
}

/// A test of which no request succeeded has no throughput at all.
pub proof fn law_no_success_no_throughput(results: Seq<ResultView>)
    requires
        with_success(results, true).len() == 0,
    ensures
        throughput(with_success(results, true)) == (ThroughputStats {
            prompt_tokens: 0,
            completion_tokens: 0,
            total_nanos: 0,
            prefill: None,
            decode: None,
        }),
{
    let none = Seq::<(u64, u64)>::empty();
    assert(timing::busy_moments(none) =~= Set::<int>::empty());
}

// ---------------------------------------------------------------------------
// Laws
// ---------------------------------------------------------------------------

proof fn lemma_totals(results: Seq<ResultView>)
    requires
        results.len() <= u64::MAX,
    ensures
        sum_prompt(with_success(results, true)) == results.fold_left(
            0int,
            |sum: int, r: ResultView|
                if r.success {
                    sum + r.prompt_tokens
                } else {
                    sum
                },
        ),
        sum_completion(with_success(results, true)) == results.fold_left(
            0int,
            |sum: int, r: ResultView|
                if r.success {
                    sum + r.completion_tokens
                } else {
                    sum
                },
        ),
        sum_prompt(with_success(results, true)) <= results.len() * u32::MAX,
        sum_completion(with_success(results, true)) <= results.len() * u32::MAX,
        sum_prompt(with_success(results, true)) <= u128::MAX,
        sum_completion(with_success(results, true)) <= u128::MAX,
    decreases results.len(),
{
    if results.len() > 0 {
        let fewer = results.drop_last();
        lemma_totals(fewer);
        let before = with_success(fewer, true);
        assert(before.push(results.last()).drop_last() =~= before);
    }
    let n = results.len() as int;
    assert(n * u32::MAX <= 0xffff_ffff_ffff_ffff * u32::MAX) by (nonlinear_arith)
        requires
            n <= 0xffff_ffff_ffff_ffff,
    ;
    assert((n - 1) * u32::MAX + u32::MAX == n * u32::MAX) by (nonlinear_arith);
}

/// The total of input tokens is the sum over all requests that succeeded, and
/// so is the total of output tokens. The rates have these totals as their
/// tokens.
pub proof fn law_totals(results: Seq<ResultView>)
    requires
        results.len() <= u64::MAX,
    ensures
        ({
            let stats = throughput(with_success(results, true));
            &&& stats.prompt_tokens == results.fold_left(
                0int,
                |sum: int, r: ResultView|
                    if r.success {
                        sum + r.prompt_tokens
                    } else {
                        sum
                    },
            )
            &&& stats.completion_tokens == results.fold_left(
                0int,
                |sum: int, r: ResultView|
                    if r.success {
                        sum + r.completion_tokens
                    } else {
                        sum
                    },
            )
            &&& stats.prefill matches Some(rate) ==> rate.tokens == stats.prompt_tokens
            &&& stats.decode matches Some(rate) ==> rate.tokens == stats.completion_tokens
        }),
{
    lemma_totals(results);
}

/// One more request that succeeded raises the totals by its own tokens, and
/// one that failed changes nothing at all. Without a request the totals are
/// zero.
pub proof fn law_one_more_result(results: Seq<ResultView>, r: ResultView)
    requires
        results.len() < u64::MAX,
    ensures
        ({
            let before = throughput(with_success(results, true));
            let after = throughput(with_success(results.push(r), true));
            &&& r.success ==> after.prompt_tokens == before.prompt_tokens + r.prompt_tokens
            &&& r.success ==> after.completion_tokens == before.completion_tokens
                + r.completion_tokens
            &&& !r.success ==> after == before
        }),
        throughput(with_success(Seq::empty(), true)).prompt_tokens == 0,
        throughput(with_success(Seq::empty(), true)).completion_tokens == 0,
{
    lemma_totals(results);
    lemma_totals(results.push(r));
    let good = with_success(results, true);
    assert(results.push(r).drop_last() =~= results);
    assert(good.push(r).drop_last() =~= good);
}

/// The requests that succeeded, or that failed, are exactly those, in order.
pub proof fn law_with_success(results: Seq<ResultView>, success: bool)
    ensures
        with_success(results, success) == results.filter(|r: ResultView| r.success == success),
    decreases results.len(),
{
    reveal(Seq::filter);
    if results.len() > 0 {
        law_with_success(results.drop_last(), success);
    }
}

proof fn lemma_span_moments(results: Seq<ResultView>, t: int)
    ensures
        timing::busy_moments(full_spans(with_success(results, true))).contains(t) <==> exists|i: int|
            0 <= i < results.len() && (#[trigger] results[i]).success && results[i].start <= t
                < double::end_of(results[i].start, results[i].total_nanos),
        timing::busy_moments(prefill_spans(with_success(results, true))).contains(t) <==> exists|
            i: int,
        |
            0 <= i < results.len() && (#[trigger] results[i]).success && results[i].prefilled
                && results[i].prefill_nanos > 1_000_000 && results[i].start <= t < double::end_of(
                results[i].start,
                results[i].prefill_nanos,
            ),
        timing::busy_moments(decode_spans(with_success(results, true))).contains(t) <==> exists|
            i: int,
        |
            0 <= i < results.len() && (#[trigger] results[i]).success && results[i].prefilled
                && results[i].decode_secs.units > double::thousandth() && double::end_of(
                results[i].start,
                results[i].prefill_nanos,
            ) <= t < double::end_of(results[i].start, results[i].total_nanos),
    decreases results.len(),
{
    let good = with_success(results, true);
    if results.len() == 0 {
    } else {
        let fewer = results.drop_last();
        let r = results.last();
        let before = with_success(fewer, true);
        lemma_span_moments(fewer, t);
        assert(before.push(r).drop_last() =~= before);
        assert(forall|i: int| 0 <= i < fewer.len() ==> fewer[i] == #[trigger] results[i]);
        assert(forall|i: int| 0 <= i < fewer.len() ==> #[trigger] fewer[i] == results[i]);
        assert(results[results.len() - 1] == r);
        timing::lemma_busy_push(
            full_spans(before),
            (r.start, double::end_of(r.start, r.total_nanos)),
        );
        timing::lemma_busy_push(
            prefill_spans(before),
            (r.start, double::end_of(r.start, r.prefill_nanos)),
        );
        timing::lemma_busy_push(
            decode_spans(before),
            (double::end_of(r.start, r.prefill_nanos), double::end_of(r.start, r.total_nanos)),
        );
    }
}

/// The total time is the number of moments at which at least one request that
/// succeeded ran.
pub proof fn law_total_time(results: Seq<ResultView>)
    ensures
        throughput(with_success(results, true)).total_nanos == Set::new(
            |t: int|
                exists|i: int|
                    0 <= i < results.len() && (#[trigger] results[i]).success && results[i].start
                        <= t < double::end_of(results[i].start, results[i].total_nanos),
        ).len(),
{
    let spans = full_spans(with_success(results, true));
    let all = Set::new(
        |t: int|
            exists|i: int|
                0 <= i < results.len() && (#[trigger] results[i]).success && results[i].start <= t
                    < double::end_of(results[i].start, results[i].total_nanos),
    );
    assert forall|t: int| timing::busy_moments(spans).contains(t) <==> all.contains(t) by {
        lemma_span_moments(results, t);
    }
    assert(timing::busy_moments(spans) =~= all);
    timing::law_busy_time(spans);
}

/// The time of the input rate is the number of moments at which at least one
/// request that succeeded was in a prefill of more than a millisecond. There
/// is a rate where that is more than a millisecond, and nowhere else.
pub proof fn law_prefill_time(results: Seq<ResultView>)
    ensures
        ({
            let time = Set::new(
                |t: int|
                    exists|i: int|
                        0 <= i < results.len() && (#[trigger] results[i]).success
                            && results[i].prefilled && results[i].prefill_nanos > 1_000_000
                            && results[i].start <= t < double::end_of(
                            results[i].start,
                            results[i].prefill_nanos,
                        ),
            ).len();
            let prefill = throughput(with_success(results, true)).prefill;
            &&& prefill is Some <==> time > 1_000_000
            &&& prefill matches Some(rate) ==> rate.nanos == time
        }),
{
    let spans = prefill_spans(with_success(results, true));
    let all = Set::new(
        |t: int|
            exists|i: int|
                0 <= i < results.len() && (#[trigger] results[i]).success && results[i].prefilled
                    && results[i].prefill_nanos > 1_000_000 && results[i].start <= t
                    < double::end_of(results[i].start, results[i].prefill_nanos),
    );
    assert forall|t: int| timing::busy_moments(spans).contains(t) <==> all.contains(t) by {
        lemma_span_moments(results, t);
    }
    assert(timing::busy_moments(spans) =~= all);
    timing::law_busy_time(spans);
}

/// The time of the output rate is the number of moments at which at least one
/// request that succeeded decoded, from the end of its prefill to its end, of
/// those that decoded for more than a thousandth of a second. There is a rate
/// where that is more than a millisecond, and nowhere else.
pub proof fn law_decode_time(results: Seq<ResultView>)
    ensures
        ({
            let time = Set::new(
                |t: int|
                    exists|i: int|
                        0 <= i < results.len() && (#[trigger] results[i]).success
                            && results[i].prefilled && results[i].decode_secs.units
                            > double::thousandth() && double::end_of(
                            results[i].start,
                            results[i].prefill_nanos,
                        ) <= t < double::end_of(results[i].start, results[i].total_nanos),
            ).len();
            let decode = throughput(with_success(results, true)).decode;
            &&& decode is Some <==> time > 1_000_000
            &&& decode matches Some(rate) ==> rate.nanos == time
        }),
{
    let spans = decode_spans(with_success(results, true));
    let all = Set::new(
        |t: int|
            exists|i: int|
                0 <= i < results.len() && (#[trigger] results[i]).success && results[i].prefilled
                    && results[i].decode_secs.units > double::thousandth() && double::end_of(
                    results[i].start,
                    results[i].prefill_nanos,
                ) <= t < double::end_of(results[i].start, results[i].total_nanos),
    );
    assert forall|t: int| timing::busy_moments(spans).contains(t) <==> all.contains(t) by {
        lemma_span_moments(results, t);
    }
    assert(timing::busy_moments(spans) =~= all);
    timing::law_busy_time(spans);
}

/// The throughput does not depend on the order of the results.
pub proof fn law_order_of_results(a: Seq<ResultView>, b: Seq<ResultView>)
    requires
        a.to_multiset() == b.to_multiset(),
        a.len() <= u64::MAX,
    ensures
        throughput(with_success(a, true)) == throughput(with_success(b, true)),
{
    a.to_multiset_ensures();
    b.to_multiset_ensures();
    assert(a.len() == b.len());
    lemma_totals(a);
    lemma_totals(b);
    let prompt = |sum: int, r: ResultView|
        if r.success {
            sum + r.prompt_tokens
        } else {
            sum
        };
    let completion = |sum: int, r: ResultView|
        if r.success {
            sum + r.completion_tokens
        } else {
            sum
        };
    vstd::seq_lib::lemma_fold_left_permutation(a, b, prompt, 0int);
    vstd::seq_lib::lemma_fold_left_permutation(a, b, completion, 0int);
    assert forall|i: int| 0 <= i < a.len() implies b.contains(#[trigger] a[i]) by {
        assert(a.contains(a[i]));
        assert(a.to_multiset().count(a[i]) > 0);
    }
    assert forall|i: int| 0 <= i < b.len() implies a.contains(#[trigger] b[i]) by {
        assert(b.contains(b[i]));
        assert(b.to_multiset().count(b[i]) > 0);
    }
    let x = with_success(a, true);
    let y = with_success(b, true);
    assert forall|t: int| #![auto]
        {
            &&& timing::busy_moments(full_spans(x)).contains(t) <==> timing::busy_moments(
                full_spans(y),
            ).contains(t)
            &&& timing::busy_moments(prefill_spans(x)).contains(t) <==> timing::busy_moments(
                prefill_spans(y),
            ).contains(t)
            &&& timing::busy_moments(decode_spans(x)).contains(t) <==> timing::busy_moments(
                decode_spans(y),
            ).contains(t)
        } by {
        lemma_span_moments(a, t);
        lemma_span_moments(b, t);
    }
    assert(timing::busy_moments(full_spans(x)) =~= timing::busy_moments(full_spans(y)));
    assert(timing::busy_moments(prefill_spans(x)) =~= timing::busy_moments(prefill_spans(y)));
    assert(timing::busy_moments(decode_spans(x)) =~= timing::busy_moments(decode_spans(y)));
}

/// An error is shown from its start, as far as its whole characters fit in
/// fifty bytes; one that fits is shown whole.
pub proof fn law_short_error(error: Seq<char>)
    ensures
        vstd::utf8::encode_utf8(error).len() <= 50 ==> short_error(Some(error)) == error,
        vstd::utf8::encode_utf8(error).len() > 50 ==> exists|k: int|
            0 <= k < error.len() && short_error(Some(error)) == error.take(k)
                && vstd::utf8::encode_utf8(error.take(k)).len() <= 50
                && vstd::utf8::encode_utf8(#[trigger] error.take(k + 1)).len() > 50,
        short_error(None) == "Unknown error"@,
{
    bytes::law_clipped(error, 50);
    reveal_strlit("Unknown error");
    bytes::law_ascii_is_a_byte_each("Unknown error"@);
    bytes::law_clipped("Unknown error"@, 50);
}

/// A request that failed has a line of its own, behind those before it, with
/// its number, counted from one, and its error.
pub proof fn law_failed_rows(results: Seq<ResultView>, r: ResultView)
    ensures
        failed_rows(Seq::empty()) == Seq::<char>::empty(),
        failed_rows(results.push(r)) == failed_rows(results) + utils::padded_center(
            number::decimal((r.request_id + 1) as nat),
            6,
        ) + " | "@ + short_error(r.error) + "\n"@,
{
    assert(results.push(r).drop_last() =~= results);
}

/// The report counts all requests, those that succeeded and those that
/// failed; it goes on with the throughput where any succeeded, and with the
/// errors where any failed.
pub proof fn law_report(results: Seq<ResultView>, texts: ThroughputTexts, zh: bool)
    ensures
        ({
            let good = results.filter(|r: ResultView| r.success == true);
            let bad = results.filter(|r: ResultView| r.success == false);
            let head = "=== "@ + (if zh {
                "测试结果"@
            } else {
                "Test Results"@
            }) + " ===\n"@ + ((if zh {
                "总请求"@
            } else {
                "Total"@
            }) + ": "@ + number::decimal(results.len()) + "\n"@) + ((if zh {
                "成功"@
            } else {
                "Success"@
            }) + ": "@ + number::decimal(good.len()) + "\n"@) + ((if zh {
                "失败"@
            } else {
                "Failed"@
            }) + ": "@ + number::decimal(bad.len()) + "\n"@);
            let rates = throughput_section(throughput(good), texts, zh);
            let errors = failed_section(bad, zh);
            &&& good.len() == 0 && bad.len() == 0 ==> final_report(results, texts, zh) == head
            &&& good.len() > 0 && bad.len() == 0 ==> final_report(results, texts, zh) == head + rates
            &&& good.len() == 0 && bad.len() > 0 ==> final_report(results, texts, zh) == head
                + errors
            &&& good.len() > 0 && bad.len() > 0 ==> final_report(results, texts, zh) == head + rates
                + errors
        }),
{
    law_with_success(results, true);
    law_with_success(results, false);
    let good = results.filter(|r: ResultView| r.success == true);
    let bad = results.filter(|r: ResultView| r.success == false);
    assert(with_success(results, true) == good);
    assert(with_success(results, false) == bad);
    let none = Seq::<char>::empty();
    let report = final_report(results, texts, zh);
    let head = "=== "@ + text::label(zh, "测试结果"@, "Test Results"@) + " ===\n"@ + counted(
        text::label(zh, "总请求"@, "Total"@),
        results.len(),
    ) + counted(text::label(zh, "成功"@, "Success"@), good.len()) + counted(
        text::label(zh, "失败"@, "Failed"@),
        bad.len(),
    );
    assert(head + none =~= head);
    if good.len() > 0 {
        let both = head + throughput_section(throughput(good), texts, zh);
        assert(both + none =~= both);
    }
}

/// The section on the throughput shows both totals, both rates and the time.
pub proof fn law_throughput_section(stats: ThroughputStats, texts: ThroughputTexts, zh: bool)
    ensures
        throughput_section(stats, texts, zh) == "\n--- "@ + (if zh {
            "系统吞吐"@
        } else {
            "System Throughput"@
        }) + " ---\n"@ + ((if zh {
            "输入Token总计"@
        } else {
            "Total input tokens"@
        }) + ": "@ + number::decimal(stats.prompt_tokens as nat) + "\n"@) + ((if zh {
            "输出Token总计"@
        } else {
            "Total output tokens"@
        }) + ": "@ + number::decimal(stats.completion_tokens as nat) + "\n"@) + "Prefill: "@
            + texts.prefill@ + " input tok/s\n"@ + "Decode: "@ + texts.decode@
            + " output tok/s\n"@ + (if zh {
            "总耗时"@
        } else {
            "Total time"@
        }) + ": "@ + texts.total_time@ + "s\n\n"@,
{
}

/// The section on requests that failed has a head, a rule and a line for each.
pub proof fn law_failed_section(results: Seq<ResultView>, zh: bool)
    ensures
        failed_section(results, zh) == "\n=== "@ + (if zh {
            "失败请求"@
        } else {
            "Failed Requests"@
        }) + " ===\n"@ + utils::padded_center("#"@, 6) + " | "@ + (if zh {
            "错误"@
        } else {
            "Error"@
        }) + "\n"@ + text::repeated('-', 60) + "\n"@ + failed_rows(results) + "\n"@,
{
}

/// A report on a request has its number, counted from one, and what its result
/// holds, with the rate of a prefill of more than a millisecond.
pub proof fn law_request_report(report: RequestReport, r: ResultView)
    requires
        reports(report, r),
    ensures
        report.request_id == r.request_id + 1,
        report.success == r.success && report.context_size == r.context_size,
        report.prompt_tokens == r.prompt_tokens && report.completion_tokens == r.completion_tokens,
        report.prefill is Some <==> r.prefilled && r.prefill_nanos > 1_000_000,
        report.prefill matches Some(rate) ==> rate.tokens == r.prompt_tokens && rate.nanos
            == r.prefill_nanos,
        report.prefill_nanos == r.prefill_nanos && report.decode_secs == r.decode_secs,
        report.total_nanos == r.total_nanos,
        report.error is Some <==> r.error is Some,
        report.error matches Some(error) ==> r.error == Some(error@),
{
}

} // verus!

//! The state of a running test, and the table that shows it.
use vstd::prelude::*;
use vstd::string::StringExecFns;
use crate::client::{self, count_tokens, SseDelta, TokenEvent};
use crate::double::{self, Seconds};
use crate::number::{self, decimal_text};
use crate::stream;
use crate::text::{self, choose_label, join_texts, repeat_char, same_text};
use crate::timing::{
    self, elapsed, is_busy_over_a_thousandth, union_duration, Rate, MILLISECOND,
};
use crate::utils::{self, display_width, pad_center, pad_left};

verus! {

/// How many signs the spinner goes through.
pub const SPINNER_SIZE: usize = 10;

/// Ten milliseconds. The rates of a slice are not shown before.
pub const SHORTEST_SLICE: u64 = 10_000_000;

// ---------------------------------------------------------------------------
// One request
// ---------------------------------------------------------------------------

/// The state of a single request.
#[derive(Debug, Clone)]
pub struct RequestState {
    pub request_id: usize,
    pub start_time: Option<u64>,
    pub first_token_time: Option<u64>,
    pub end_time: Option<u64>,
    pub prompt_tokens: u32,
    /// The context size that was asked for, for display.
    pub context_size: u32,
    pub completed: bool,
    pub success: bool,
    pub error: Option<String>,
    pub completion_tokens: u32,
    /// The tokens that came in during the current slice of time.
    pub slice_tokens: u32,
    pub slice_decode_start: Option<u64>,
    pub final_decode: Option<Rate>,
    /// All the output that came in, over which tokens are counted.
    pub output_text: String,
}

/// What a request's state says.
#[verifier::ext_equal]
pub struct RequestView {
    pub request_id: usize,
    pub start_time: Option<u64>,
    pub first_token_time: Option<u64>,
    pub end_time: Option<u64>,
    pub prompt_tokens: u32,
    pub context_size: u32,
    pub completed: bool,
    pub success: bool,
    pub error: Option<Seq<char>>,
    pub completion_tokens: u32,
    pub slice_tokens: u32,
    pub slice_decode_start: Option<u64>,
    pub final_decode: Option<Rate>,
    pub output_text: Seq<char>,
}

impl View for RequestState {
    type V = RequestView;

    open spec fn view(&self) -> RequestView {
        RequestView {
            request_id: self.request_id,
            start_time: self.start_time,
            first_token_time: self.first_token_time,
            end_time: self.end_time,
            prompt_tokens: self.prompt_tokens,
            context_size: self.context_size,
            completed: self.completed,
            success: self.success,
            error: text::opt_text(self.error),
            completion_tokens: self.completion_tokens,
            slice_tokens: self.slice_tokens,
            slice_decode_start: self.slice_decode_start,
            final_decode: self.final_decode,
            output_text: self.output_text@,
        }
    }
}

/// A request that was not sent yet.
pub open spec fn waiting_request(request_id: usize) -> RequestView {
    RequestView {
        request_id,
        start_time: None,
        first_token_time: None,
        end_time: None,
        prompt_tokens: 0,
        context_size: 0,
        completed: false,
        success: false,
        error: None,
        completion_tokens: 0,
        slice_tokens: 0,
        slice_decode_start: None,
        final_decode: None,
        output_text: Seq::empty(),
    }
}

/// The request that an event is about.
pub open spec fn event_request(event: TokenEvent) -> usize {
    match event {
        TokenEvent::RequestStarted { request_id, .. } => request_id,
        TokenEvent::FirstToken { request_id, .. } => request_id,
        TokenEvent::TokensReceived { request_id, .. } => request_id,
        TokenEvent::Completed { request_id, .. } => request_id,
    }
}

/// The tokens of a slice, once the count over the whole output went from
/// `before` to `total`.
pub open spec fn slice_after(slice: u32, before: u32, total: u32) -> u32 {
    if slice + total - before < 0 {
        0
    } else if slice + total - before > u32::MAX {
        u32::MAX
    } else {
        (slice + total - before) as u32
    }
}

/// The rate of some tokens from one point in time to another, where it can be
/// measured: that took more than a millisecond, and there were tokens.
pub open spec fn measured(tokens: u32, from: u64, to: u64) -> Option<Rate> {
    if timing::span(from, to) > MILLISECOND && tokens > 0 {
        Some(Rate { tokens: tokens as u128, nanos: timing::span(from, to) as u64 })
    } else {
        None
    }
}

/// A request after an event that is about it. The tokens that the server
/// reported are final; where it reported none, those of the whole output are
/// counted.
pub open spec fn after_event(r: RequestView, event: TokenEvent) -> RequestView {
    match event {
        TokenEvent::RequestStarted { start_time, prompt_tokens, context_size, .. } => RequestView {
            start_time: Some(start_time),
            prompt_tokens,
            context_size,
            ..r
        },
        TokenEvent::FirstToken { time, .. } => RequestView {
            first_token_time: Some(time),
            slice_decode_start: Some(time),
            ..r
        },
        TokenEvent::TokensReceived { content, .. } => {
            let output = r.output_text + content@;
            let total = client::token_count(output) as u32;
            RequestView {
                output_text: output,
                slice_tokens: slice_after(r.slice_tokens, r.completion_tokens, total),
                completion_tokens: total,
                ..r
            }
        },
        TokenEvent::Completed {
            time,
            completion_tokens,
            prompt_tokens,
            server_usage,
            success,
            error,
            ..
        } => {
            let tokens = if server_usage {
                completion_tokens
            } else {
                client::token_count(r.output_text) as u32
            };
            RequestView {
                completed: true,
                success,
                error: text::opt_text(error),
                end_time: Some(time),
                completion_tokens: tokens,
                prompt_tokens,
                final_decode: match r.first_token_time {
                    Some(first) => if measured(tokens, first, time) is Some {
                        measured(tokens, first, time)
                    } else {
                        r.final_decode
                    },
                    None => r.final_decode,
                },
                ..r
            }
        },
    }
}

impl RequestState {
    /// A request that was not sent yet.
    pub fn new(request_id: usize) -> (r: Self)
        ensures
            r@ == waiting_request(request_id),
    {
        let r: RequestState = RequestState {
            request_id,
            start_time: None,
            first_token_time: None,
            end_time: None,
            prompt_tokens: 0,
            context_size: 0,
            completed: false,
            success: false,
            error: None,
            completion_tokens: 0,
            slice_tokens: 0,
            slice_decode_start: None,
            final_decode: None,
            output_text: String::new(),
        };
        assert(r@ =~= waiting_request(request_id));
        r
    }

    /// Whether the request waits for its first token.
    pub fn is_prefill(&self) -> (yes: bool)
        ensures
            yes == in_prefill(self@),
    {
        self.start_time.is_some() && self.first_token_time.is_none() && !self.completed
    }

    /// Whether output comes in.
    pub fn is_decode(&self) -> (yes: bool)
        ensures
            yes == in_decode(self@),
    {
        self.first_token_time.is_some() && !self.completed
    }

    /// Takes an event that is about this request.
    pub fn apply(&mut self, event: TokenEvent)
        ensures
            final(self)@ == after_event(old(self)@, event),
    {
        match event {
            TokenEvent::RequestStarted { start_time, prompt_tokens, context_size, .. } => {
                self.start_time = Some(start_time);
                self.prompt_tokens = prompt_tokens;
                self.context_size = context_size;
            },
            TokenEvent::FirstToken { time, .. } => {
                self.first_token_time = Some(time);
                self.slice_decode_start = Some(time);
            },
            TokenEvent::TokensReceived { content, .. } => {
                self.output_text.append(content.as_str());
                let total: u32 = count_tokens(self.output_text.as_str()) as u32;
                let slice: i64 = self.slice_tokens as i64 + total as i64
                    - self.completion_tokens as i64;
                self.slice_tokens = if slice < 0 {
                    0
                } else if slice > u32::MAX as i64 {
                    u32::MAX
                } else {
                    slice as u32
                };
                self.completion_tokens = total;
            },
            TokenEvent::Completed {
                time,
                completion_tokens,
                prompt_tokens,
                server_usage,
                success,
                error,
                ..
            } => {
                self.completed = true;
                self.success = success;
                self.error = error;
                self.end_time = Some(time);
                self.completion_tokens = if server_usage {
                    completion_tokens
                } else {
                    count_tokens(self.output_text.as_str()) as u32
                };
                self.prompt_tokens = prompt_tokens;
                if let Some(first) = self.first_token_time {
                    let nanos: u64 = elapsed(first, time);
                    if nanos > MILLISECOND && self.completion_tokens > 0 {
                        self.final_decode = Some(
                            Rate { tokens: self.completion_tokens as u128, nanos },
                        );
                    }
                }
            },
        }
        assert(self@ =~= after_event(old(self)@, event));
    }
}

/// Whether a request waits for its first token.
pub open spec fn in_prefill(r: RequestView) -> bool {
    r.start_time is Some && r.first_token_time is None && !r.completed
}

/// Whether the output of a request comes in.
pub open spec fn in_decode(r: RequestView) -> bool {
    r.first_token_time is Some && !r.completed
}

/// A request that was sent is waiting for its first token, receiving output
/// or over, and no two of these at once.
pub proof fn law_one_phase(r: RequestView)
    requires
        r.start_time is Some,
    ensures
        in_prefill(r) || in_decode(r) || r.completed,
        !(in_prefill(r) && in_decode(r)),
        !(in_prefill(r) && r.completed),
        !(in_decode(r) && r.completed),
{
}

/// A request after some events that are about it.
pub open spec fn after_events(r: RequestView, events: Seq<TokenEvent>) -> RequestView
    decreases events.len(),
{
    if events.len() == 0 {
        r
    } else {
        after_event(after_events(r, events.drop_last()), events.last())
    }
}

/// The text of a request is all the output that its events report, in order.
pub proof fn law_output_accumulates(r: RequestView, events: Seq<TokenEvent>)
    ensures
        after_events(r, events).output_text == r.output_text + stream::events_output(events),
    decreases events.len(),
{
    if events.len() > 0 {
        law_output_accumulates(r, events.drop_last());
        assert(after_events(r, events).output_text =~= r.output_text + stream::events_output(
            events,
        ));
    } else {
        assert(after_events(r, events).output_text =~= r.output_text + stream::events_output(
            events,
        ));
    }
}

/// Once a request is over, its output tokens are what the server reported; or,
/// where it reported none, the count over all the output, not the sum of the
/// counts of the pieces.
pub proof fn law_final_token_count(r: RequestView, events: Seq<TokenEvent>)
    requires
        events.len() > 0,
        events.last() is Completed,
    ensures
        events.last()->server_usage ==> after_events(r, events).completion_tokens
            == events.last()->completion_tokens,
        !events.last()->server_usage ==> after_events(r, events).completion_tokens
            == client::token_count(r.output_text + stream::events_output(events)) as u32,
{
    law_output_accumulates(r, events.drop_last());
    assert(stream::events_output(events) == stream::events_output(events.drop_last()));
}

/// A request whose server reported no usage ends with the tokens of all the
/// output that its stream held, however it was cut into chunks.
pub proof fn law_stream_to_token_count(
    request_id: usize,
    state: stream::StreamState,
    chunks: Seq<(u64, Seq<SseDelta>)>,
    started: TokenEvent,
    completed: TokenEvent,
)
    requires
        started is RequestStarted,
        completed is Completed,
        !completed->server_usage,
        !state.first_token_sent,
    ensures
        after_events(
            waiting_request(request_id),
            seq![started] + stream::run_events(state, request_id, chunks) + seq![completed],
        ).completion_tokens == client::token_count(stream::run_output(chunks)) as u32,
{
    let middle = stream::run_events(state, request_id, chunks);
    let events = seq![started] + middle + seq![completed];
    stream::law_stream_events(state, request_id, chunks);
    stream::lemma_events_output_concat(seq![started] + middle, seq![completed]);
    stream::lemma_events_output_concat(seq![started], middle);
    reveal_with_fuel(stream::events_output, 2);
    assert(stream::events_output(seq![started]) =~= Seq::<char>::empty());
    assert(stream::events_output(seq![completed]) =~= Seq::<char>::empty());
    assert(events.last() == completed);
    law_final_token_count(waiting_request(request_id), events);
    assert(Seq::<char>::empty() + stream::events_output(events) =~= stream::run_output(chunks));
}

// ---------------------------------------------------------------------------
// All requests of a test
// ---------------------------------------------------------------------------

/// What happened during one slice of time.
#[derive(Debug, Clone, Copy, PartialEq, Eq, Structural)]
pub struct TimeBucket {
    pub prefill_input_tokens: u128,
    pub prefill_active: usize,
    pub decode_output_tokens: u128,
    pub decode_active: usize,
    pub duration_nanos: u64,
}

/// The state of a running test.
#[derive(Debug)]
pub struct LiveDisplay {
    pub requests: Vec<RequestState>,
    /// How long a slice of time lasts.
    pub time_slice_nanos: u64,
    pub lang: String,
    /// How many lines the table took when it was drawn last.
    pub last_render_lines: usize,
    pub test_start: u64,
    pub last_slice_time: u64,
    pub buckets: Vec<TimeBucket>,
    pub spinner_idx: usize,
    /// Whether nothing is drawn.
    pub silent: bool,
}

/// What the states of requests say.
pub open spec fn request_views(requests: Seq<RequestState>) -> Seq<RequestView> {
    Seq::new(requests.len(), |i: int| requests[i]@)
}

/// Whether the prefill of a request is over, so that it can be measured.
pub open spec fn prefilled(r: RequestView) -> bool {
    r.start_time is Some && r.first_token_time is Some
}

/// Whether a request adds to the output of a slice.
pub open spec fn counts_in_slice(r: RequestView) -> bool {
    in_decode(r) || (r.completed && r.slice_tokens > 0)
}

/// The input tokens of all requests whose prefill is over.
pub open spec fn prefill_tokens(requests: Seq<RequestView>) -> nat
    decreases requests.len(),
{
    if requests.len() == 0 {
        0
    } else {
        prefill_tokens(requests.drop_last()) + (if prefilled(requests.last()) {
            requests.last().prompt_tokens as nat
        } else {
            0
        })
    }
}

/// How many requests there are whose prefill is over.
pub open spec fn prefill_count(requests: Seq<RequestView>) -> nat
    decreases requests.len(),
{
    if requests.len() == 0 {
        0
    } else {
        prefill_count(requests.drop_last()) + (if prefilled(requests.last()) {
            1nat
        } else {
            0
        })
    }
}

/// When the prefills that are over ran.
pub open spec fn prefill_intervals(requests: Seq<RequestView>) -> Seq<(u64, u64)>
    decreases requests.len(),
{
    if requests.len() == 0 {
        Seq::empty()
    } else {
        let before = prefill_intervals(requests.drop_last());
        let r = requests.last();
        if prefilled(r) {
            before.push((r.start_time->0, r.first_token_time->0))
        } else {
            before
        }
    }
}

/// The output tokens of the current slice.
pub open spec fn decode_tokens(requests: Seq<RequestView>) -> nat
    decreases requests.len(),
{
    if requests.len() == 0 {
        0
    } else {
        decode_tokens(requests.drop_last()) + (if counts_in_slice(requests.last()) {
            requests.last().slice_tokens as nat
        } else {
            0
        })
    }
}

/// How many requests add to the output of the current slice.
pub open spec fn decode_count(requests: Seq<RequestView>) -> nat
    decreases requests.len(),
{
    if requests.len() == 0 {
        0
    } else {
        decode_count(requests.drop_last()) + (if counts_in_slice(requests.last()) {
            1nat
        } else {
            0
        })
    }
}

/// The bucket of a slice.
pub open spec fn bucket_of(requests: Seq<RequestView>, nanos: u64) -> TimeBucket {
    TimeBucket {
        prefill_input_tokens: prefill_tokens(requests) as u128,
        prefill_active: prefill_count(requests) as usize,
        decode_output_tokens: decode_tokens(requests) as u128,
        decode_active: decode_count(requests) as usize,
        duration_nanos: nanos,
    }
}

/// The buckets after the slice that ends now was collected. Nothing is kept
/// of a slice of less than a millisecond.
pub open spec fn collected(
    buckets: Seq<TimeBucket>,
    requests: Seq<RequestView>,
    nanos: nat,
) -> Seq<TimeBucket> {
    if nanos < MILLISECOND {
        buckets
    } else {
        buckets.push(bucket_of(requests, nanos as u64))
    }
}

/// A request at the start of a slice.
pub open spec fn new_slice(r: RequestView, now: u64) -> RequestView {
    RequestView {
        slice_tokens: 0,
        slice_decode_start: if in_decode(r) {
            Some(now)
        } else {
            None
        },
        ..r
    }
}

/// The figures of one request in the table.
#[derive(Debug)]
pub struct RowFigures {
    pub status: String,
    /// The rate of the prefill, where it can be shown.
    pub prefill: Option<Rate>,
    /// The rate of the decoding, where it can be shown.
    pub decode: Option<Rate>,
    /// How long the request has been running, if it was sent.
    pub nanos: Option<u64>,
}

/// The sign that the spinner shows.
pub open spec fn spinner(index: int) -> Seq<char> {
    seq![
        "⠋"@, "⠙"@, "⠹"@, "⠸"@, "⠼"@, "⠴"@, "⠦"@, "⠧"@, "⠇"@, "⠏"@,
    ][index]
}

/// What the table says about the state of a request.
pub open spec fn status_of(r: RequestView, zh: bool, index: int) -> Seq<char> {
    if r.start_time is None {
        if zh {
            "等待"@
        } else {
            "Wait"@
        }
    } else if r.completed {
        if r.success {
            if zh {
                "完成"@
            } else {
                "Done"@
            }
        } else {
            if zh {
                "失败"@
            } else {
                "Fail"@
            }
        }
    } else if in_prefill(r) {
        spinner(index) + " Prefill"@
    } else {
        "Decode"@
    }
}

/// The rate of a prefill. It can only be measured once the first token came
/// in; there is no estimate before.
pub open spec fn prefill_figure(r: RequestView) -> Option<Rate> {
    match (r.start_time, r.first_token_time) {
        (Some(start), Some(first)) => measured(r.prompt_tokens, start, first),
        _ => None,
    }
}

/// The rate of the decoding: that of the whole output once the request is
/// over, and until then that of the current slice.
pub open spec fn decode_figure(r: RequestView, slice_elapsed: u64, now: u64) -> Option<Rate> {
    if r.start_time is None {
        None
    } else if r.completed {
        if r.success {
            r.final_decode
        } else {
            None
        }
    } else if in_decode(r) {
        let nanos = match r.slice_decode_start {
            Some(start) => timing::span(start, now) as u64,
            None => slice_elapsed,
        };
        if nanos > SHORTEST_SLICE && r.slice_tokens > 0 {
            Some(Rate { tokens: r.slice_tokens as u128, nanos })
        } else {
            None
        }
    } else {
        None
    }
}

/// How long a request has been running.
pub open spec fn running_time(r: RequestView, now: u64) -> Option<u64> {
    match r.start_time {
        Some(start) => Some(
            timing::span(
                start,
                match r.end_time {
                    Some(end) => end,
                    None => now,
                },
            ) as u64,
        ),
        None => None,
    }
}

/// The input rate of the whole system: the tokens of all prefills that are
/// over, over the time during which at least one of them ran. Prefills that
/// ran at the same time share it.
pub open spec fn system_prefill(requests: Seq<RequestView>, slice_elapsed: u64) -> Option<Rate> {
    let intervals = prefill_intervals(requests);
    if slice_elapsed >= SHORTEST_SLICE && timing::busy_over_a_thousandth(intervals) {
        Some(
            Rate {
                tokens: prefill_tokens(requests) as u128,
                nanos: timing::busy_time(intervals) as u64,
            },
        )
    } else {
        None
    }
}

/// The output rate of the whole system: the tokens that came in during the
/// current slice, over the time since it started.
pub open spec fn system_decode(requests: Seq<RequestView>, slice_elapsed: u64) -> Option<Rate> {
    if slice_elapsed >= SHORTEST_SLICE {
        Some(Rate { tokens: decode_tokens(requests) as u128, nanos: slice_elapsed })
    } else {
        None
    }
}

/// The sign that the spinner shows.
fn spinner_sign(index: usize) -> (sign: &'static str)
    requires
        index < SPINNER_SIZE,
    ensures
        sign@ == spinner(index as int),
{
    match index {
        0 => "⠋",
        1 => "⠙",
        2 => "⠹",
        3 => "⠸",
        4 => "⠼",
        5 => "⠴",
        6 => "⠦",
        7 => "⠧",
        8 => "⠇",
        _ => "⠏",
    }
}

/// The figures of one request as text. What cannot be shown is left out.
#[derive(Debug)]
pub struct RowTexts {
    pub prefill: Option<String>,
    pub decode: Option<String>,
    pub time: Option<String>,
}

/// A text, or a dash where there is none.
pub open spec fn or_dash(s: Option<String>) -> Seq<char> {
    match s {
        Some(s) => s@,
        None => "-"@,
    }
}

/// A line of the table.
pub open spec fn table_row(cells: Seq<Seq<char>>) -> Seq<char> {
    " "@ + text::join(cells, " | "@)
}

/// The cells of the head of the table.
pub open spec fn header_cells(zh: bool) -> Seq<Seq<char>> {
    seq![
        utils::padded_center("#"@, 6),
        utils::padded_center(text::label(zh, "上下文"@, "Ctx"@), 8),
        utils::padded_center(text::label(zh, "状态"@, "Status"@), 12),
        utils::padded_center("Prefill(t/s)"@, 14),
        utils::padded_center("Decode(t/s)"@, 14),
        utils::padded_center(text::label(zh, "输出Token"@, "Out Toks"@), 10),
        utils::padded_center(text::label(zh, "耗时(s)"@, "Time(s)"@), 10),
    ]
}

/// The cells of the row of a request.
pub open spec fn request_cells(r: RequestView, zh: bool, index: int, row: RowTexts) -> Seq<
    Seq<char>,
> {
    seq![
        utils::padded_center(number::decimal((r.request_id + 1) as nat), 6),
        utils::padded_center(number::decimal(r.context_size as nat), 8),
        utils::padded_center(status_of(r, zh, index), 12),
        utils::padded_left(or_dash(row.prefill), 14),
        utils::padded_left(or_dash(row.decode), 14),
        utils::padded_left(
            if r.completion_tokens > 0 {
                number::decimal(r.completion_tokens as nat)
            } else {
                "-"@
            },
            10,
        ),
        utils::padded_left(or_dash(row.time), 10),
    ]
}

/// A rule as wide as the head of the table.
pub open spec fn table_rule(zh: bool) -> Seq<char> {
    text::repeated('-', utils::columns(table_row(header_cells(zh))))
}

/// The lines of the table: the time, the head, a row for each request between
/// two rules, and the rates of the whole system.
pub open spec fn table_lines(
    requests: Seq<RequestView>,
    zh: bool,
    index: int,
    elapsed: Seq<char>,
    rows: Seq<RowTexts>,
    prefill: Seq<char>,
    decode: Seq<char>,
) -> Seq<Seq<char>> {
    seq![
        text::label(zh, "  运行 "@, "  Elapsed "@) + elapsed + "s"@,
        table_row(header_cells(zh)),
        table_rule(zh),
    ] + Seq::new(
        requests.len(),
        |i: int| table_row(request_cells(requests[i], zh, index, rows[i])),
    ) + seq![
        table_rule(zh),
        text::label(zh, " 系统吞吐  Prefill: "@, " System    Prefill: "@) + prefill
            + " input t/s | Decode: "@ + decode + " output t/s"@,
    ]
}

/// Lines that overwrite what stands on the screen.
pub open spec fn drawn(lines: Seq<Seq<char>>) -> Seq<char>
    decreases lines.len(),
{
    if lines.len() == 0 {
        Seq::empty()
    } else {
        drawn(lines.drop_last()) + "\x1b[2K"@ + lines.last() + "\n"@
    }
}

/// What is written to the terminal to draw `lines` over the `previous` lines.
pub open spec fn frame(previous: nat, lines: Seq<Seq<char>>) -> Seq<char> {
    (if previous > 0 {
        "\x1b["@ + number::decimal(previous) + "A\r"@
    } else {
        Seq::empty()
    }) + drawn(lines)
}

fn text_or_dash(s: &Option<String>) -> (t: String)
    ensures
        t@ == or_dash(*s),
{
    match s {
        Some(s) => s.clone(),
        None => "-".to_owned(),
    }
}

/// Makes a line of the table.
fn make_row(cells: &Vec<String>) -> (line: String)
    ensures
        line@ == table_row(text::texts(cells@)),
{
    " ".to_owned().concat(join_texts(cells, " | ").as_str())
}

/// Makes the head of the table.
fn make_header(zh: bool) -> (line: String)
    ensures
        line@ == table_row(header_cells(zh)),
{
    let mut cells: Vec<String> = Vec::new();
    cells.push(pad_center("#", 6));
    cells.push(pad_center(choose_label(zh, "上下文", "Ctx"), 8));
    cells.push(pad_center(choose_label(zh, "状态", "Status"), 12));
    cells.push(pad_center("Prefill(t/s)", 14));
    cells.push(pad_center("Decode(t/s)", 14));
    cells.push(pad_center(choose_label(zh, "输出Token", "Out Toks"), 10));
    cells.push(pad_center(choose_label(zh, "耗时(s)", "Time(s)"), 10));
    assert(text::texts(cells@) =~= header_cells(zh));
    make_row(&cells)
}

/// What a request came to.
#[derive(Debug, Clone)]
pub struct LiveTestResult {
    pub request_id: usize,
    pub start: u64,
    /// Whether the first token came in, so that the prefill is over.
    pub prefilled: bool,
    pub context_size: u32,
    pub prompt_tokens: u32,
    pub completion_tokens: u32,
    pub prefill_nanos: u64,
    /// The difference of the other two spans in seconds.
    pub decode_secs: Seconds,
    pub total_nanos: u64,
    pub success: bool,
    pub error: Option<String>,
}

/// What a result says.
#[verifier::ext_equal]
pub struct ResultView {
    pub request_id: usize,
    pub start: u64,
    pub prefilled: bool,
    pub context_size: u32,
    pub prompt_tokens: u32,
    pub completion_tokens: u32,
    pub prefill_nanos: u64,
    pub decode_secs: Seconds,
    pub total_nanos: u64,
    pub success: bool,
    pub error: Option<Seq<char>>,
}

impl View for LiveTestResult {
    type V = ResultView;

    open spec fn view(&self) -> ResultView {
        ResultView {
            request_id: self.request_id,
            start: self.start,
            prefilled: self.prefilled,
            context_size: self.context_size,
            prompt_tokens: self.prompt_tokens,
            completion_tokens: self.completion_tokens,
            prefill_nanos: self.prefill_nanos,
            decode_secs: self.decode_secs,
            total_nanos: self.total_nanos,
            success: self.success,
            error: text::opt_text(self.error),
        }
    }
}

/// What results say.
pub open spec fn result_views(results: Seq<LiveTestResult>) -> Seq<ResultView> {
    Seq::new(results.len(), |i: int| results[i]@)
}

/// Whether all results can be numbered from one.
pub open spec fn all_numbered(results: Seq<ResultView>) -> bool {
    forall|i: int| 0 <= i < results.len() ==> (#[trigger] results[i]).request_id < usize::MAX
}

/// What a request that was sent came to. Without a first token all its time
/// was prefill; one that is not over runs until now.
pub open spec fn result_of(r: RequestView, now: u64) -> ResultView {
    let start = r.start_time->0;
    let total = running_time(r, now)->0;
    let prefill = match r.first_token_time {
        Some(first) => timing::span(start, first) as u64,
        None => total,
    };
    ResultView {
        request_id: r.request_id,
        start,
        prefilled: r.first_token_time is Some,
        context_size: r.context_size,
        prompt_tokens: r.prompt_tokens,
        completion_tokens: r.completion_tokens,
        prefill_nanos: prefill,
        decode_secs: Seconds {
            units: double::seconds_between(prefill as nat, total as nat) as u128,
        },
        total_nanos: total,
        success: r.success,
        error: r.error,
    }
}

/// What all requests that were sent came to.
pub open spec fn results_of(requests: Seq<RequestView>, now: u64) -> Seq<ResultView>
    decreases requests.len(),
{
    if requests.len() == 0 {
        Seq::empty()
    } else {
        let before = results_of(requests.drop_last(), now);
        if requests.last().start_time is Some {
            before.push(result_of(requests.last(), now))
        } else {
            before
        }
    }
}

/// The decoding of a result is what the prefill leaves of its time: none
/// where there was no first token, and all where the first token came at once.
pub proof fn law_decoding_is_the_rest(r: RequestView, now: u64)
    requires
        r.start_time is Some,
    ensures
        ({
            let result = result_of(r, now);
            &&& result.decode_secs.units == double::seconds_between(
                result.prefill_nanos as nat,
                result.total_nanos as nat,
            )
            &&& r.first_token_time is None ==> result.decode_secs.units == 0
            &&& result.prefill_nanos == 0 ==> result.decode_secs.units == double::seconds(
                result.total_nanos as nat,
            )
        }),
{
    let result = result_of(r, now);
    double::lemma_between(result.prefill_nanos, result.total_nanos);
    double::lemma_between_same(result.total_nanos as nat);
    double::lemma_between_zero(result.total_nanos as nat);
}

/// A prefill that is still running adds nothing to the input rate of the
/// whole system.
pub proof fn law_running_prefill_adds_nothing(
    requests: Seq<RequestView>,
    r: RequestView,
    slice_elapsed: u64,
)
    requires
        in_prefill(r),
    ensures
        system_prefill(requests.push(r), slice_elapsed) == system_prefill(requests, slice_elapsed),
{
    assert(requests.push(r).drop_last() =~= requests);
}

/// The tokens of the current slice, of all requests.
pub open spec fn slice_total(requests: Seq<RequestView>) -> nat
    decreases requests.len(),
{
    if requests.len() == 0 {
        0
    } else {
        slice_total(requests.drop_last()) + requests.last().slice_tokens as nat
    }
}

/// A bucket holds all the output of its slice, but for output that came in
/// before a first token of a request that is not over.
pub proof fn law_bucket_holds_the_slice(requests: Seq<RequestView>)
    requires
        forall|i: int|
            0 <= i < requests.len() && (#[trigger] requests[i]).slice_tokens > 0
                ==> requests[i].first_token_time is Some || requests[i].completed,
    ensures
        decode_tokens(requests) == slice_total(requests),
    decreases requests.len(),
{
    if requests.len() > 0 {
        let before = requests.drop_last();
        assert forall|i: int|
            0 <= i < before.len() && (#[trigger] before[i]).slice_tokens
                > 0 implies before[i].first_token_time is Some || before[i].completed by {
            assert(before[i] == requests[i]);
        }
        law_bucket_holds_the_slice(before);
        assert(requests[requests.len() - 1] == requests.last());
    }
}

/// A new slice starts without output.
pub proof fn law_next_slice_starts_empty(requests: Seq<RequestView>, now: u64)
    ensures
        decode_tokens(requests.map_values(|r: RequestView| new_slice(r, now))) == 0,
    decreases requests.len(),
{
    let next = |r: RequestView| new_slice(r, now);
    if requests.len() > 0 {
        law_next_slice_starts_empty(requests.drop_last(), now);
        assert(requests.map_values(next).drop_last() =~= requests.drop_last().map_values(next));
    }
}

/// A new slice changes nothing of what a request came to.
pub proof fn law_slices_do_not_change_results(requests: Seq<RequestView>, at: u64, now: u64)
    ensures
        results_of(requests.map_values(|r: RequestView| new_slice(r, at)), now) == results_of(
            requests,
            now,
        ),
    decreases requests.len(),
{
    let next = |r: RequestView| new_slice(r, at);
    if requests.len() > 0 {
        law_slices_do_not_change_results(requests.drop_last(), at, now);
        assert(requests.map_values(next).drop_last() =~= requests.drop_last().map_values(next));
    }
}

impl LiveDisplay {
    /// What the requests' states say.
    pub open spec fn views(&self) -> Seq<RequestView> {
        request_views(self.requests@)
    }

    /// Whether labels are in Chinese.
    pub open spec fn is_zh(&self) -> bool {
        self.lang@ == "zh"@
    }

    /// Whether the requests are numbered by their places, and the spinner
    /// shows one of its signs.
    pub open spec fn wf(&self) -> bool {
        &&& forall|i: int| 0 <= i < self.requests.len() ==> (#[trigger] self.requests[i]).request_id == i
        &&& self.spinner_idx < SPINNER_SIZE
    }

    /// Everything but the requests and the buckets.
    pub open spec fn same_settings(&self, other: &LiveDisplay) -> bool {
        &&& self.time_slice_nanos == other.time_slice_nanos
        &&& self.lang == other.lang
        &&& self.test_start == other.test_start
        &&& self.silent == other.silent
    }

    /// A test that starts now, with requests that were not sent yet.
    pub fn new(
        total_concurrent: usize,
        time_slice_nanos: u64,
        lang: &str,
        silent: bool,
        now: u64,
    ) -> (display: Self)
        ensures
            display.wf(),
            display.views() == Seq::new(
                total_concurrent as nat,
                |i: int| waiting_request(i as usize),
            ),
            display.time_slice_nanos == time_slice_nanos,
            display.lang@ == lang@,
            display.last_render_lines == 0,
            display.test_start == now,
            display.last_slice_time == now,
            display.buckets@.len() == 0,
            display.spinner_idx == 0,
            display.silent == silent,
    {
        let mut requests: Vec<RequestState> = Vec::new();
        for i in 0..total_concurrent
            invariant
                requests.len() == i,
                forall|k: int| 0 <= k < i ==> (#[trigger] requests[k])@ == waiting_request(k as usize),
        {
            requests.push(RequestState::new(i));
        }
        assert forall|k: int| 0 <= k < requests.len() implies (#[trigger] requests[k]).request_id
            == k by {
            assert(requests[k]@ == waiting_request(k as usize));
            assert(requests[k]@.request_id == requests[k].request_id);
        }
        let display: LiveDisplay = LiveDisplay {
            requests,
            time_slice_nanos,
            lang: lang.to_owned(),
            last_render_lines: 0,
            test_start: now,
            last_slice_time: now,
            buckets: Vec::new(),
            spinner_idx: 0,
            silent,
        };
        assert(display.views() =~= Seq::new(
            total_concurrent as nat,
            |i: int| waiting_request(i as usize),
        ));
        display
    }

    /// Takes an event. One that is about no request of the test changes
    /// nothing.
    pub fn process_event(&mut self, event: TokenEvent)
        requires
            old(self).wf(),
        ensures
            final(self).wf(),
            final(self).views() == (if event_request(event) < old(self).requests.len() {
                old(self).views().update(
                    event_request(event) as int,
                    after_event(old(self).views()[event_request(event) as int], event),
                )
            } else {
                old(self).views()
            }),
            final(self).same_settings(old(self)),
            final(self).last_render_lines == old(self).last_render_lines,
            final(self).last_slice_time == old(self).last_slice_time,
            final(self).buckets == old(self).buckets,
            final(self).spinner_idx == old(self).spinner_idx,
    {
        let id: usize = match &event {
            TokenEvent::RequestStarted { request_id, .. } => *request_id,
            TokenEvent::FirstToken { request_id, .. } => *request_id,
            TokenEvent::TokensReceived { request_id, .. } => *request_id,
            TokenEvent::Completed { request_id, .. } => *request_id,
        };
        if id < self.requests.len() {
            let ghost before = self.requests@[id as int];
            let ghost e = event;
            let request: &mut RequestState = &mut self.requests[id];
            request.apply(event);
            assert(self.requests@[id as int]@ == after_event(before@, e));
            assert(self.requests@[id as int]@.request_id == before@.request_id);
            assert(self.views() =~= old(self).views().update(id as int, after_event(before@, e)));
        } else {
            assert(self.views() =~= old(self).views());
        }
    }

    /// Collects the slice that ends now. Only prefills that are over are
    /// counted, with all their tokens.
    fn collect_bucket(&mut self, now: u64)
        requires
            old(self).wf(),
        ensures
            final(self).wf(),
            final(self).requests == old(self).requests,
            final(self).buckets@ == collected(
                old(self).buckets@,
                old(self).views(),
                timing::span(old(self).last_slice_time, now),
            ),
            final(self).same_settings(old(self)),
            final(self).last_render_lines == old(self).last_render_lines,
            final(self).last_slice_time == old(self).last_slice_time,
            final(self).spinner_idx == old(self).spinner_idx,
    {
        let nanos: u64 = elapsed(self.last_slice_time, now);
        if nanos < MILLISECOND {
            return;
        }
        let ghost all = self.views();
        let mut prefill_input_tokens: u128 = 0;
        let mut prefill_active: usize = 0;
        let mut decode_output_tokens: u128 = 0;
        let mut decode_active: usize = 0;
        for i in 0..self.requests.len()
            invariant
                all == request_views(self.requests@),
                prefill_input_tokens == prefill_tokens(all.take(i as int)),
                prefill_active == prefill_count(all.take(i as int)),
                decode_output_tokens == decode_tokens(all.take(i as int)),
                decode_active == decode_count(all.take(i as int)),
                prefill_active <= i,
                decode_active <= i,
                prefill_input_tokens <= i * u32::MAX,
                decode_output_tokens <= i * u32::MAX,
        {
            let r: &RequestState = &self.requests[i];
            proof {
                assert(all.take(i + 1).drop_last() =~= all.take(i as int));
                assert(all.take(i + 1).last() == r@);
                assert((i + 1) * u32::MAX == i * u32::MAX + u32::MAX) by (nonlinear_arith);
                assert(i * u32::MAX <= 0xffff_ffff_ffff_ffff * u32::MAX) by (nonlinear_arith)
                    requires
                        i <= 0xffff_ffff_ffff_ffff,
                ;
            }
            if r.start_time.is_some() && r.first_token_time.is_some() {
                prefill_active = prefill_active + 1;
                prefill_input_tokens = prefill_input_tokens + r.prompt_tokens as u128;
            }
            if r.is_decode() || (r.completed && r.slice_tokens > 0) {
                decode_active = decode_active + 1;
                decode_output_tokens = decode_output_tokens + r.slice_tokens as u128;
            }
        }
        assert(all.take(all.len() as int) =~= all);
        self.buckets.push(
            TimeBucket {
                prefill_input_tokens,
                prefill_active,
                decode_output_tokens,
                decode_active,
                duration_nanos: nanos,
            },
        );
    }

    /// Starts a new slice for every request.
    fn reset_slice_counters(&mut self, now: u64)
        requires
            old(self).wf(),
        ensures
            final(self).wf(),
            final(self).views() == old(self).views().map_values(
                |r: RequestView| new_slice(r, now),
            ),
            final(self).buckets == old(self).buckets,
            final(self).same_settings(old(self)),
            final(self).last_render_lines == old(self).last_render_lines,
            final(self).last_slice_time == old(self).last_slice_time,
            final(self).spinner_idx == old(self).spinner_idx,
    {
        let count: usize = self.requests.len();
        for i in 0..count
            invariant
                self.wf(),
                self.requests.len() == count,
                self.requests.len() == old(self).requests.len(),
                forall|k: int|
                    0 <= k < self.requests.len() ==> (#[trigger] self.requests@[k])@ == (if k < i {
                        new_slice(old(self).requests@[k]@, now)
                    } else {
                        old(self).requests@[k]@
                    }),
                self.buckets == old(self).buckets,
                self.same_settings(old(self)),
                self.last_render_lines == old(self).last_render_lines,
                self.last_slice_time == old(self).last_slice_time,
                self.spinner_idx == old(self).spinner_idx,
        {
            let ghost before = self.requests@[i as int];
            let request: &mut RequestState = &mut self.requests[i];
            request.slice_tokens = 0;
            request.slice_decode_start = if request.is_decode() {
                Some(now)
            } else {
                None
            };
            assert(self.requests@[i as int]@ =~= new_slice(before@, now));
            assert(self.requests@[i as int].request_id == before.request_id);
        }
        assert(self.views() =~= old(self).views().map_values(|r: RequestView| new_slice(r, now)));
    }

    /// Advances the display: ends the current slice if it lasted long enough,
    /// and turns the spinner.
    pub fn tick(&mut self, now: u64)
        requires
            old(self).wf(),
        ensures
            final(self).wf(),
            ({
                let nanos = timing::span(old(self).last_slice_time, now);
                if nanos >= old(self).time_slice_nanos {
                    &&& final(self).buckets@ == collected(
                        old(self).buckets@,
                        old(self).views(),
                        nanos,
                    )
                    &&& final(self).last_slice_time == now
                    &&& final(self).views() == old(self).views().map_values(
                        |r: RequestView| new_slice(r, now),
                    )
                } else {
                    &&& final(self).buckets == old(self).buckets
                    &&& final(self).last_slice_time == old(self).last_slice_time
                    &&& final(self).requests == old(self).requests
                }
            }),
            final(self).spinner_idx == (old(self).spinner_idx + 1) % SPINNER_SIZE as int,
            final(self).same_settings(old(self)),
            final(self).last_render_lines == old(self).last_render_lines,
    {
        if elapsed(self.last_slice_time, now) >= self.time_slice_nanos {
            self.collect_bucket(now);
            self.last_slice_time = now;
            self.reset_slice_counters(now);
        }
        self.spinner_idx = (self.spinner_idx + 1) % SPINNER_SIZE;
    }

    /// The state, the rates and the running time of a request.
    pub fn format_request_metrics(&self, index: usize, now: u64) -> (row: RowFigures)
        requires
            self.wf(),
            index < self.requests.len(),
        ensures
            row.status@ == status_of(
                self.requests[index as int]@,
                self.is_zh(),
                self.spinner_idx as int,
            ),
            row.prefill == prefill_figure(self.requests[index as int]@),
            row.decode == decode_figure(
                self.requests[index as int]@,
                timing::span(self.last_slice_time, now) as u64,
                now,
            ),
            row.nanos == running_time(self.requests[index as int]@, now),
    {
        let zh: bool = same_text(self.lang.as_str(), "zh");
        let r: &RequestState = &self.requests[index];
        let start: u64 = match r.start_time {
            Some(start) => start,
            None => {
                let status: String = choose_label(zh, "等待", "Wait").to_owned();
                return RowFigures { status, prefill: None, decode: None, nanos: None };
            },
        };
        let prefill: Option<Rate> = match r.first_token_time {
            Some(first) => {
                let nanos: u64 = elapsed(start, first);
                if nanos > MILLISECOND && r.prompt_tokens > 0 {
                    Some(Rate { tokens: r.prompt_tokens as u128, nanos })
                } else {
                    None
                }
            },
            None => None,
        };
        let end: u64 = match r.end_time {
            Some(end) => end,
            None => now,
        };
        let nanos: Option<u64> = Some(elapsed(start, end));
        if r.completed {
            if r.success {
                let status: String = choose_label(zh, "完成", "Done").to_owned();
                return RowFigures { status, prefill, decode: r.final_decode, nanos };
            }
            let status: String = choose_label(zh, "失败", "Fail").to_owned();
            return RowFigures { status, prefill, decode: None, nanos };
        }
        if r.is_prefill() {
            let status: String = spinner_sign(self.spinner_idx).to_owned().concat(" Prefill");
            return RowFigures { status, prefill, decode: None, nanos };
        }
        let decode_nanos: u64 = match r.slice_decode_start {
            Some(from) => elapsed(from, now),
            None => elapsed(self.last_slice_time, now),
        };
        let decode: Option<Rate> = if decode_nanos > SHORTEST_SLICE && r.slice_tokens > 0 {
            Some(Rate { tokens: r.slice_tokens as u128, nanos: decode_nanos })
        } else {
            None
        };
        RowFigures { status: "Decode".to_owned(), prefill, decode, nanos }
    }

    /// The input and the output rate of the whole system in the current
    /// slice.
    pub fn calc_system_throughput(&self, slice_elapsed: u64) -> (rates: (
        Option<Rate>,
        Option<Rate>,
    ))
        ensures
            rates.0 == system_prefill(self.views(), slice_elapsed),
            rates.1 == system_decode(self.views(), slice_elapsed),
            rates.0 matches Some(rate) ==> rate.nanos == Set::new(
                |t: int|
                    exists|i: int|
                        0 <= i < self.requests.len() && (
                        #[trigger] self.requests[i]).start_time is Some
                            && self.requests[i].first_token_time is Some
                            && self.requests[i].start_time->0 <= t
                            < self.requests[i].first_token_time->0,
            ).len(),
    {
        proof {
            law_system_prefill(self.views(), slice_elapsed);
            lemma_views_have_the_moments(self.requests@);
        }
        if slice_elapsed < SHORTEST_SLICE {
            return (None, None);
        }
        let ghost all = self.views();
        let mut tokens: u128 = 0;
        let mut output: u128 = 0;
        let mut intervals: Vec<(u64, u64)> = Vec::new();
        for i in 0..self.requests.len()
            invariant
                all == request_views(self.requests@),
                tokens == prefill_tokens(all.take(i as int)),
                intervals@ == prefill_intervals(all.take(i as int)),
                output == decode_tokens(all.take(i as int)),
                tokens <= i * u32::MAX,
                output <= i * u32::MAX,
        {
            let r: &RequestState = &self.requests[i];
            proof {
                assert(all.take(i + 1).drop_last() =~= all.take(i as int));
                assert(all.take(i + 1).last() == r@);
                assert((i + 1) * u32::MAX == i * u32::MAX + u32::MAX) by (nonlinear_arith);
                assert(i * u32::MAX <= 0xffff_ffff_ffff_ffff * u32::MAX) by (nonlinear_arith)
                    requires
                        i <= 0xffff_ffff_ffff_ffff,
                ;
            }
            if let (Some(start), Some(first)) = (r.start_time, r.first_token_time) {
                tokens = tokens + r.prompt_tokens as u128;
                intervals.push((start, first));
            }
            if r.is_decode() || (r.completed && r.slice_tokens > 0) {
                output = output + r.slice_tokens as u128;
            }
        }
        assert(all.take(all.len() as int) =~= all);
        let prefill: Option<Rate> = if is_busy_over_a_thousandth(&intervals) {
            Some(Rate { tokens, nanos: union_duration(&intervals) })
        } else {
            None
        };
        (prefill, Some(Rate { tokens: output, nanos: slice_elapsed }))
    }

    /// Builds the lines of the table from the figures of its rows, of the time
    /// since the test started and of the whole system, as text.
    pub fn build_table_lines(
        &self,
        elapsed: &str,
        rows: &Vec<RowTexts>,
        system_prefill: &str,
        system_decode: &str,
        now: u64,
    ) -> (lines: Vec<String>)
        requires
            self.wf(),
            rows.len() == self.requests.len(),
        ensures
            text::texts(lines@) == table_lines(
                self.views(),
                self.is_zh(),
                self.spinner_idx as int,
                elapsed@,
                rows@,
                system_prefill@,
                system_decode@,
            ),
    {
        let zh: bool = same_text(self.lang.as_str(), "zh");
        let header: String = make_header(zh);
        let rule: String = repeat_char('-', display_width(header.as_str()));
        let mut lines: Vec<String> = Vec::new();
        lines.push(
            choose_label(zh, "  运行 ", "  Elapsed ").to_owned().concat(elapsed).concat("s"),
        );
        lines.push(header);
        lines.push(rule.clone());
        let ghost head = seq![
            text::label(zh, "  运行 "@, "  Elapsed "@) + elapsed@ + "s"@,
            table_row(header_cells(zh)),
            table_rule(zh),
        ];
        assert(text::texts(lines@) =~= head);
        let ghost body = Seq::new(
            self.views().len(),
            |i: int|
                table_row(
                    request_cells(self.views()[i], zh, self.spinner_idx as int, rows@[i]),
                ),
        );
        for i in 0..self.requests.len()
            invariant
                self.wf(),
                zh == self.is_zh(),
                rows.len() == self.requests.len(),
                body == Seq::new(
                    self.views().len(),
                    |i: int|
                        table_row(
                            request_cells(self.views()[i], zh, self.spinner_idx as int, rows@[i]),
                        ),
                ),
                text::texts(lines@) =~= head + body.take(i as int),
        {
            let r: &RequestState = &self.requests[i];
            let row: &RowTexts = &rows[i];
            let figures: RowFigures = self.format_request_metrics(i, now);
            let tokens: String = if r.completion_tokens > 0 {
                decimal_text(r.completion_tokens as u128)
            } else {
                "-".to_owned()
            };
            let mut cells: Vec<String> = Vec::new();
            cells.push(pad_center(decimal_text(r.request_id as u128 + 1).as_str(), 6));
            cells.push(pad_center(decimal_text(r.context_size as u128).as_str(), 8));
            cells.push(pad_center(figures.status.as_str(), 12));
            cells.push(pad_left(text_or_dash(&row.prefill).as_str(), 14));
            cells.push(pad_left(text_or_dash(&row.decode).as_str(), 14));
            cells.push(pad_left(tokens.as_str(), 10));
            cells.push(pad_left(text_or_dash(&row.time).as_str(), 10));
            assert(text::texts(cells@) =~= request_cells(r@, zh, self.spinner_idx as int, *row));
            let line: String = make_row(&cells);
            assert(self.views()[i as int] == r@);
            assert(body[i as int] == line@);
            let ghost before = text::texts(lines@);
            lines.push(line);
            assert(text::texts(lines@) =~= before.push(body[i as int]));
        }
        assert(body.take(body.len() as int) =~= body);
        assert(text::texts(lines@) =~= head + body);
        lines.push(rule);
        lines.push(
            choose_label(zh, " 系统吞吐  Prefill: ", " System    Prefill: ").to_owned().concat(
                system_prefill,
            ).concat(" input t/s | Decode: ").concat(system_decode).concat(" output t/s"),
        );
        assert(text::texts(lines@) =~= head + body + seq![
            table_rule(zh),
            text::label(zh, " 系统吞吐  Prefill: "@, " System    Prefill: "@) + system_prefill@
                + " input t/s | Decode: "@ + system_decode@ + " output t/s"@,
        ]);
        lines
    }

    /// What is written to the terminal to draw the table over the one that
    /// was drawn before. Nothing is drawn where the display is silent.
    pub fn render(&mut self, lines: &Vec<String>) -> (output: String)
        ensures
            output@ == (if old(self).silent {
                Seq::empty()
            } else {
                frame(old(self).last_render_lines as nat, text::texts(lines@))
            }),
            final(self).last_render_lines == (if old(self).silent {
                old(self).last_render_lines
            } else {
                lines.len()
            }),
            final(self).requests == old(self).requests,
            final(self).buckets == old(self).buckets,
            final(self).same_settings(old(self)),
            final(self).last_slice_time == old(self).last_slice_time,
            final(self).spinner_idx == old(self).spinner_idx,
    {
        let mut output: String = String::new();
        if self.silent {
            assert(output@ =~= Seq::<char>::empty());
            return output;
        }
        if self.last_render_lines > 0 {
            output.append("\x1b[");
            output.append(decimal_text(self.last_render_lines as u128).as_str());
            output.append("A\r");
        }
        let ghost start = output@;
        let ghost all = text::texts(lines@);
        assert(start =~= (if old(self).last_render_lines > 0 {
            "\x1b["@ + number::decimal(old(self).last_render_lines as nat) + "A\r"@
        } else {
            Seq::empty()
        }));
        assert(output@ =~= start + drawn(all.take(0)));
        for i in 0..lines.len()
            invariant
                all == text::texts(lines@),
                output@ == start + drawn(all.take(i as int)),
        {
            output.append("\x1b[2K");
            output.append(lines[i].as_str());
            output.append("\n");
            assert(all.take(i + 1).drop_last() =~= all.take(i as int));
            assert(all.take(i + 1).last() == lines@[i as int]@);
            assert(output@ =~= start + drawn(all.take(i + 1)));
        }
        assert(all.take(all.len() as int) =~= all);
        self.last_render_lines = lines.len();
        output
    }

    /// Ends the display: collects what is left of the current slice, and
    /// draws the table once more, with an empty line behind it.
    pub fn final_render(&mut self, now: u64, lines: &Vec<String>) -> (output: String)
        requires
            old(self).wf(),
        ensures
            final(self).wf(),
            output@ == (if old(self).silent {
                Seq::empty()
            } else {
                frame(old(self).last_render_lines as nat, text::texts(lines@)) + "\n"@
            }),
            final(self).buckets@ == collected(
                old(self).buckets@,
                old(self).views(),
                timing::span(old(self).last_slice_time, now),
            ),
            final(self).last_render_lines == (if old(self).silent {
                old(self).last_render_lines
            } else {
                lines.len()
            }),
            final(self).requests == old(self).requests,
            final(self).same_settings(old(self)),
            final(self).last_slice_time == old(self).last_slice_time,
            final(self).spinner_idx == old(self).spinner_idx,
    {
        self.collect_bucket(now);
        let mut output: String = self.render(lines);
        if !self.silent {
            output.append("\n");
        }
        output
    }

    /// What each request that was sent came to.
    pub fn collect_results(&self, now: u64) -> (results: Vec<LiveTestResult>)
        requires
            self.wf(),
        ensures
            result_views(results@) == results_of(self.views(), now),
            all_numbered(result_views(results@)),
    {
        let ghost all = self.views();
        let mut results: Vec<LiveTestResult> = Vec::new();
        assert(result_views(results@) =~= results_of(all.take(0), now));
        for i in 0..self.requests.len()
            invariant
                self.wf(),
                all == self.views(),
                result_views(results@) == results_of(all.take(i as int), now),
                all_numbered(result_views(results@)),
        {
            let r: &RequestState = &self.requests[i];
            assert(all.take(i + 1).drop_last() =~= all.take(i as int));
            assert(all.take(i + 1).last() == r@);
            if let Some(start) = r.start_time {
                let end: u64 = match r.end_time {
                    Some(end) => end,
                    None => now,
                };
                let total_nanos: u64 = elapsed(start, end);
                let prefill_nanos: u64 = match r.first_token_time {
                    Some(first) => elapsed(start, first),
                    None => total_nanos,
                };
                let error: Option<String> = match &r.error {
                    Some(e) => Some(e.clone()),
                    None => None,
                };
                let result: LiveTestResult = LiveTestResult {
                    request_id: r.request_id,
                    start,
                    prefilled: r.first_token_time.is_some(),
                    context_size: r.context_size,
                    prompt_tokens: r.prompt_tokens,
                    completion_tokens: r.completion_tokens,
                    prefill_nanos,
                    decode_secs: Seconds::between(prefill_nanos, total_nanos),
                    total_nanos,
                    success: r.success,
                    error,
                };
                assert(result@ =~= result_of(r@, now));
                let ghost before = result_views(results@);
                let ghost view = result@;
                results.push(result);
                assert(result_views(results@) =~= before.push(view));
            }
        }
        assert(all.take(all.len() as int) =~= all);
        results
    }
}

// ---------------------------------------------------------------------------
// Laws
// ---------------------------------------------------------------------------

/// The view of a request says what its fields hold, and those of a list stand
/// in the order of the list.
pub proof fn law_request_view(requests: Seq<RequestState>, i: int)
    requires
        0 <= i < requests.len(),
    ensures
        request_views(requests).len() == requests.len(),
        ({
            let r = requests[i];
            let v = request_views(requests)[i];
            &&& v.request_id == r.request_id && v.start_time == r.start_time
            &&& v.first_token_time == r.first_token_time && v.end_time == r.end_time
            &&& v.prompt_tokens == r.prompt_tokens && v.context_size == r.context_size
            &&& v.completed == r.completed && v.success == r.success
            &&& v.completion_tokens == r.completion_tokens && v.slice_tokens == r.slice_tokens
            &&& v.slice_decode_start == r.slice_decode_start && v.final_decode == r.final_decode
            &&& v.output_text == r.output_text@
            &&& v.error is Some <==> r.error is Some
            &&& r.error matches Some(error) ==> v.error == Some(error@)
        }),
{
}

/// The view of a result says what its fields hold, and those of a list stand
/// in the order of the list.
pub proof fn law_result_view(results: Seq<LiveTestResult>, i: int)
    requires
        0 <= i < results.len(),
    ensures
        result_views(results).len() == results.len(),
        ({
            let r = results[i];
            let v = result_views(results)[i];
            &&& v.request_id == r.request_id && v.start == r.start && v.prefilled == r.prefilled
            &&& v.context_size == r.context_size && v.prompt_tokens == r.prompt_tokens
            &&& v.completion_tokens == r.completion_tokens && v.prefill_nanos == r.prefill_nanos
            &&& v.decode_secs == r.decode_secs && v.total_nanos == r.total_nanos
            &&& v.success == r.success
            &&& v.error is Some <==> r.error is Some
            &&& r.error matches Some(error) ==> v.error == Some(error@)
        }),
{
}

/// A request that was not sent yet has no times, no tokens and no output.
pub proof fn law_waiting_request(request_id: usize)
    ensures
        ({
            let r = waiting_request(request_id);
            &&& r.request_id == request_id
            &&& r.start_time is None && r.first_token_time is None && r.end_time is None
            &&& r.prompt_tokens == 0 && r.context_size == 0 && r.completion_tokens == 0
            &&& r.slice_tokens == 0 && r.slice_decode_start is None && r.final_decode is None
            &&& !r.completed && !r.success && r.error is None && r.output_text.len() == 0
        }),
{
}

/// Each event is about the request that it names.
pub proof fn law_event_request(id: usize, event: TokenEvent)
    requires
        event matches TokenEvent::RequestStarted { request_id, .. } ==> request_id == id,
        event matches TokenEvent::FirstToken { request_id, .. } ==> request_id == id,
        event matches TokenEvent::TokensReceived { request_id, .. } ==> request_id == id,
        event matches TokenEvent::Completed { request_id, .. } ==> request_id == id,
    ensures
        event_request(event) == id,
{
}

/// The start of a request sets its start, its input tokens and its context
/// size, and leaves the rest.
pub proof fn law_started(
    r: RequestView,
    request_id: usize,
    start_time: u64,
    prompt_tokens: u32,
    context_size: u32,
)
    ensures
        ({
            let n = after_event(
                r,
                TokenEvent::RequestStarted { request_id, start_time, prompt_tokens, context_size },
            );
            &&& n.start_time == Some(start_time)
            &&& n.prompt_tokens == prompt_tokens
            &&& n.context_size == context_size
            &&& n == (RequestView {
                start_time: n.start_time,
                prompt_tokens: n.prompt_tokens,
                context_size: n.context_size,
                ..r
            })
        }),
{
}

/// The first token sets the end of the prefill, from which the slice is
/// measured, and leaves the rest.
pub proof fn law_first_token(r: RequestView, request_id: usize, time: u64)
    ensures
        ({
            let n = after_event(r, TokenEvent::FirstToken { request_id, time });
            &&& n.first_token_time == Some(time)
            &&& n.slice_decode_start == Some(time)
            &&& n == (RequestView {
                first_token_time: n.first_token_time,
                slice_decode_start: n.slice_decode_start,
                ..r
            })
        }),
{
}

/// A piece of output stands behind the output before it. The tokens are those
/// of all the output, and the slice grows by as many as they do; it does not
/// fall below none, nor rise above what it can hold.
pub proof fn law_output_comes_in(r: RequestView, request_id: usize, time: u64, content: String)
    ensures
        ({
            let n = after_event(r, TokenEvent::TokensReceived { request_id, time, content });
            let slice = r.slice_tokens + n.completion_tokens - r.completion_tokens;
            &&& n.output_text == r.output_text + content@
            &&& client::token_count(r.output_text + content@) <= u32::MAX ==> n.completion_tokens
                == client::token_count(r.output_text + content@)
            &&& 0 <= slice <= u32::MAX ==> n.slice_tokens == slice
            &&& slice < 0 ==> n.slice_tokens == 0
            &&& slice > u32::MAX ==> n.slice_tokens == u32::MAX
            &&& n == (RequestView {
                output_text: n.output_text,
                completion_tokens: n.completion_tokens,
                slice_tokens: n.slice_tokens,
                ..r
            })
        }),
{
}

/// The end of a request sets its end, whether it succeeded, and its tokens:
/// those of the server, or those of all its output where the server reported
/// none. The rate of its output is that of these tokens since the first one,
/// if it took more than a millisecond.
pub proof fn law_completed(
    r: RequestView,
    request_id: usize,
    time: u64,
    completion_tokens: u32,
    prompt_tokens: u32,
    server_usage: bool,
    success: bool,
    error: Option<String>,
)
    ensures
        ({
            let n = after_event(
                r,
                TokenEvent::Completed {
                    request_id,
                    time,
                    completion_tokens,
                    prompt_tokens,
                    server_usage,
                    success,
                    error,
                },
            );
            &&& n.completed && n.success == success && n.end_time == Some(time)
            &&& n.error is Some <==> error is Some
            &&& error matches Some(e) ==> n.error == Some(e@)
            &&& n.prompt_tokens == prompt_tokens
            &&& server_usage ==> n.completion_tokens == completion_tokens
            &&& !server_usage && client::token_count(r.output_text) <= u32::MAX
                ==> n.completion_tokens == client::token_count(r.output_text)
            &&& r.first_token_time matches Some(first) ==> (time - first > 1_000_000
                && n.completion_tokens > 0 ==> n.final_decode == Some(
                (Rate { tokens: n.completion_tokens as u128, nanos: (time - first) as u64 }),
            ))
            &&& r.first_token_time matches Some(first) ==> (time - first <= 1_000_000
                || n.completion_tokens == 0 ==> n.final_decode == r.final_decode)
            &&& r.first_token_time is None ==> n.final_decode == r.final_decode
            &&& n == (RequestView {
                completed: n.completed,
                success: n.success,
                end_time: n.end_time,
                error: n.error,
                prompt_tokens: n.prompt_tokens,
                completion_tokens: n.completion_tokens,
                final_decode: n.final_decode,
                ..r
            })
        }),
{
}

proof fn lemma_prefill_moments(requests: Seq<RequestView>, t: int)
    ensures
        timing::busy_moments(prefill_intervals(requests)).contains(t) <==> exists|i: int|
            0 <= i < requests.len() && (#[trigger] requests[i]).start_time is Some
                && requests[i].first_token_time is Some && requests[i].start_time->0 <= t
                < requests[i].first_token_time->0,
    decreases requests.len(),
{
    let intervals = prefill_intervals(requests);
    if requests.len() > 0 {
        let fewer = requests.drop_last();
        let r = requests.last();
        let before = prefill_intervals(fewer);
        lemma_prefill_moments(fewer, t);
        if timing::busy_moments(intervals).contains(t) {
            let k = choose|k: int|
                0 <= k < intervals.len() && #[trigger] timing::moments(intervals[k]).contains(t);
            if k < before.len() {
                assert(timing::moments(before[k]).contains(t));
                let i = choose|i: int|
                    0 <= i < fewer.len() && (#[trigger] fewer[i]).start_time is Some
                        && fewer[i].first_token_time is Some && fewer[i].start_time->0 <= t
                        < fewer[i].first_token_time->0;
                assert(requests[i] == fewer[i]);
            } else {
                assert(requests[requests.len() - 1] == r);
            }
        }
        if exists|i: int|
            0 <= i < requests.len() && (#[trigger] requests[i]).start_time is Some
                && requests[i].first_token_time is Some && requests[i].start_time->0 <= t
                < requests[i].first_token_time->0 {
            let i = choose|i: int|
                0 <= i < requests.len() && (#[trigger] requests[i]).start_time is Some
                    && requests[i].first_token_time is Some && requests[i].start_time->0 <= t
                    < requests[i].first_token_time->0;
            if i < fewer.len() {
                assert(fewer[i] == requests[i]);
                let k = choose|k: int|
                    0 <= k < before.len() && #[trigger] timing::moments(before[k]).contains(t);
                assert(intervals[k] == before[k]);
                assert(timing::moments(intervals[k]).contains(t));
            } else {
                assert(intervals.last() == (r.start_time->0, r.first_token_time->0));
                assert(timing::moments(intervals[intervals.len() - 1]).contains(t));
            }
        }
    }
}

proof fn lemma_prefill_sums(requests: Seq<RequestView>)
    requires
        requests.len() <= u64::MAX,
    ensures
        prefill_tokens(requests) == requests.fold_left(
            0int,
            |sum: int, r: RequestView|
                if r.start_time is Some && r.first_token_time is Some {
                    sum + r.prompt_tokens
                } else {
                    sum
                },
        ),
        prefill_count(requests) == requests.filter(
            |r: RequestView| r.start_time is Some && r.first_token_time is Some,
        ).len(),
        prefill_tokens(requests) <= requests.len() * u32::MAX,
        prefill_tokens(requests) <= u128::MAX,
        prefill_count(requests) <= requests.len(),
    decreases requests.len(),
{
    reveal(Seq::filter);
    if requests.len() > 0 {
        lemma_prefill_sums(requests.drop_last());
    }
    let n = requests.len() as int;
    assert(n * u32::MAX <= 0xffff_ffff_ffff_ffff * u32::MAX) by (nonlinear_arith)
        requires
            n <= 0xffff_ffff_ffff_ffff,
    ;
    assert((n - 1) * u32::MAX + u32::MAX == n * u32::MAX) by (nonlinear_arith);
}

proof fn lemma_decode_sums(requests: Seq<RequestView>)
    requires
        requests.len() <= u64::MAX,
    ensures
        decode_tokens(requests) == requests.fold_left(
            0int,
            |sum: int, r: RequestView|
                if r.first_token_time is Some || r.completed {
                    sum + r.slice_tokens
                } else {
                    sum
                },
        ),
        decode_count(requests) == requests.filter(
            |r: RequestView|
                if r.completed {
                    r.slice_tokens > 0
                } else {
                    r.first_token_time is Some
                },
        ).len(),
        decode_tokens(requests) <= requests.len() * u32::MAX,
        decode_tokens(requests) <= u128::MAX,
        decode_count(requests) <= requests.len(),
    decreases requests.len(),
{
    reveal(Seq::filter);
    if requests.len() > 0 {
        lemma_decode_sums(requests.drop_last());
    }
    let n = requests.len() as int;
    assert(n * u32::MAX <= 0xffff_ffff_ffff_ffff * u32::MAX) by (nonlinear_arith)
        requires
            n <= 0xffff_ffff_ffff_ffff,
    ;
    assert((n - 1) * u32::MAX + u32::MAX == n * u32::MAX) by (nonlinear_arith);
}

/// The input rate of the whole system has the input tokens of all requests
/// whose first token came in. Its time is the number of moments at which at
/// least one of them was between its start and its first token.
pub proof fn law_system_prefill(requests: Seq<RequestView>, slice_elapsed: u64)
    requires
        requests.len() <= u64::MAX,
    ensures
        system_prefill(requests, slice_elapsed) matches Some(rate) ==> {
            &&& rate.tokens == requests.fold_left(
                0int,
                |sum: int, r: RequestView|
                    if r.start_time is Some && r.first_token_time is Some {
                        sum + r.prompt_tokens
                    } else {
                        sum
                    },
            )
            &&& rate.nanos == Set::new(
                |t: int|
                    exists|i: int|
                        0 <= i < requests.len() && (#[trigger] requests[i]).start_time is Some
                            && requests[i].first_token_time is Some && requests[i].start_time->0
                            <= t < requests[i].first_token_time->0,
            ).len()
        },
{
    let intervals = prefill_intervals(requests);
    let all = Set::new(
        |t: int|
            exists|i: int|
                0 <= i < requests.len() && (#[trigger] requests[i]).start_time is Some
                    && requests[i].first_token_time is Some && requests[i].start_time->0 <= t
                    < requests[i].first_token_time->0,
    );
    assert forall|t: int|
        timing::busy_moments(intervals).contains(t) <==> all.contains(t) by {
        lemma_prefill_moments(requests, t);
    }
    assert(timing::busy_moments(intervals) =~= all);
    timing::law_busy_time(intervals);
    lemma_prefill_sums(requests);
}

/// There is an input rate of the whole system once the slice has lasted ten
/// milliseconds and a request waited more than one for its first token; there
/// is none before, nor without a first token. For a single request nothing
/// else matters.
pub proof fn law_system_prefill_is_shown(requests: Seq<RequestView>, slice_elapsed: u64)
    ensures
        slice_elapsed < 10_000_000 ==> system_prefill(requests, slice_elapsed) is None,
        slice_elapsed >= 10_000_000 && (exists|i: int|
            0 <= i < requests.len() && (#[trigger] requests[i]).start_time is Some
                && requests[i].first_token_time is Some && requests[i].first_token_time->0
                - requests[i].start_time->0 > 1_000_000) ==> system_prefill(
            requests,
            slice_elapsed,
        ) is Some,
        (forall|i: int|
            0 <= i < requests.len() ==> (#[trigger] requests[i]).first_token_time is None)
            ==> system_prefill(requests, slice_elapsed) is None,
        requests.len() == 1 && slice_elapsed >= 10_000_000 ==> (system_prefill(
            requests,
            slice_elapsed,
        ) is Some <==> requests[0].start_time is Some && requests[0].first_token_time is Some
            && requests[0].first_token_time->0 - requests[0].start_time->0 > 1_000_000),
{
    let intervals = prefill_intervals(requests);
    timing::law_busy_over_a_thousandth(intervals);
    if exists|i: int|
        0 <= i < requests.len() && (#[trigger] requests[i]).start_time is Some
            && requests[i].first_token_time is Some && requests[i].first_token_time->0
            - requests[i].start_time->0 > 1_000_000 {
        let i = choose|i: int|
            0 <= i < requests.len() && (#[trigger] requests[i]).start_time is Some
                && requests[i].first_token_time is Some && requests[i].first_token_time->0
                - requests[i].start_time->0 > 1_000_000;
        lemma_prefill_interval_of(requests, i);
        let k = choose|k: int|
            0 <= k < intervals.len() && #[trigger] intervals[k] == (
                requests[i].start_time->0,
                requests[i].first_token_time->0,
            );
        assert(intervals[k].1 - intervals[k].0 > 1_000_000);
    }
    if forall|i: int|
        0 <= i < requests.len() ==> (#[trigger] requests[i]).first_token_time is None {
        lemma_no_prefill_interval(requests);
    }
    if requests.len() == 1 {
        assert(requests.drop_last() =~= Seq::<RequestView>::empty());
        assert(prefill_intervals(requests.drop_last()) =~= Seq::<(u64, u64)>::empty());
        assert(requests.last() == requests[0]);
    }
}

proof fn lemma_prefill_interval_of(requests: Seq<RequestView>, i: int)
    requires
        0 <= i < requests.len(),
        requests[i].start_time is Some,
        requests[i].first_token_time is Some,
    ensures
        exists|k: int|
            0 <= k < prefill_intervals(requests).len() && #[trigger] prefill_intervals(requests)[k]
                == (requests[i].start_time->0, requests[i].first_token_time->0),
    decreases requests.len(),
{
    let intervals = prefill_intervals(requests);
    let fewer = requests.drop_last();
    if i < fewer.len() {
        assert(fewer[i] == requests[i]);
        lemma_prefill_interval_of(fewer, i);
        let before = prefill_intervals(fewer);
        let k = choose|k: int|
            0 <= k < before.len() && #[trigger] before[k] == (
                fewer[i].start_time->0,
                fewer[i].first_token_time->0,
            );
        assert(intervals[k] == before[k]);
    } else {
        assert(intervals[intervals.len() - 1] == (
            requests[i].start_time->0,
            requests[i].first_token_time->0,
        ));
    }
}

proof fn lemma_no_prefill_interval(requests: Seq<RequestView>)
    requires
        forall|i: int|
            0 <= i < requests.len() ==> (#[trigger] requests[i]).first_token_time is None,
    ensures
        prefill_intervals(requests).len() == 0,
    decreases requests.len(),
{
    if requests.len() > 0 {
        let fewer = requests.drop_last();
        assert forall|i: int| 0 <= i < fewer.len() implies (
        #[trigger] fewer[i]).first_token_time is None by {
            assert(fewer[i] == requests[i]);
        }
        lemma_no_prefill_interval(fewer);
        assert(requests[requests.len() - 1] == requests.last());
    }
}

/// Where no two prefills overlap, the time of the input rate of the whole
/// system is the sum of their lengths.
pub proof fn law_separate_prefills_add_up(requests: Seq<RequestView>, slice_elapsed: u64)
    requires
        forall|i: int, j: int|
            0 <= i < j < requests.len() && (#[trigger] requests[i]).start_time is Some
                && requests[i].first_token_time is Some && (
            #[trigger] requests[j]).start_time is Some && requests[j].first_token_time is Some
                ==> requests[i].first_token_time->0 <= requests[j].start_time->0
                || requests[j].first_token_time->0 <= requests[i].start_time->0,
        forall|i: int|
            0 <= i < requests.len() && (#[trigger] requests[i]).start_time is Some
                && requests[i].first_token_time is Some ==> requests[i].start_time->0
                <= requests[i].first_token_time->0,
    ensures
        system_prefill(requests, slice_elapsed) matches Some(rate) ==> rate.nanos
            == requests.fold_left(
            0int,
            |sum: int, r: RequestView|
                if r.start_time is Some && r.first_token_time is Some {
                    sum + (r.first_token_time->0 - r.start_time->0)
                } else {
                    sum
                },
        ),
{
    let intervals = prefill_intervals(requests);
    lemma_separate_prefills(requests);
    timing::law_separate_intervals_add_up(intervals);
    timing::law_busy_time(intervals);
}

proof fn lemma_separate_prefills(requests: Seq<RequestView>)
    requires
        forall|i: int, j: int|
            0 <= i < j < requests.len() && (#[trigger] requests[i]).start_time is Some
                && requests[i].first_token_time is Some && (
            #[trigger] requests[j]).start_time is Some && requests[j].first_token_time is Some
                ==> requests[i].first_token_time->0 <= requests[j].start_time->0
                || requests[j].first_token_time->0 <= requests[i].start_time->0,
        forall|i: int|
            0 <= i < requests.len() && (#[trigger] requests[i]).start_time is Some
                && requests[i].first_token_time is Some ==> requests[i].start_time->0
                <= requests[i].first_token_time->0,
    ensures
        timing::separate(prefill_intervals(requests)),
        timing::sum_of_spans(prefill_intervals(requests)) == requests.fold_left(
            0int,
            |sum: int, r: RequestView|
                if r.start_time is Some && r.first_token_time is Some {
                    sum + (r.first_token_time->0 - r.start_time->0)
                } else {
                    sum
                },
        ),
    decreases requests.len(),
{
    if requests.len() > 0 {
        let fewer = requests.drop_last();
        let r = requests.last();
        let before = prefill_intervals(fewer);
        let intervals = prefill_intervals(requests);
        assert forall|i: int, j: int|
            0 <= i < j < fewer.len() && (#[trigger] fewer[i]).start_time is Some
                && fewer[i].first_token_time is Some && (#[trigger] fewer[j]).start_time is Some
                && fewer[j].first_token_time is Some implies fewer[i].first_token_time->0
            <= fewer[j].start_time->0 || fewer[j].first_token_time->0
            <= fewer[i].start_time->0 by {
            assert(fewer[i] == requests[i] && fewer[j] == requests[j]);
        }
        assert forall|i: int|
            0 <= i < fewer.len() && (#[trigger] fewer[i]).start_time is Some
                && fewer[i].first_token_time is Some implies fewer[i].start_time->0
            <= fewer[i].first_token_time->0 by {
            assert(fewer[i] == requests[i]);
        }
        lemma_separate_prefills(fewer);
        let last = requests.len() - 1;
        assert(requests[last] == r);
        if r.start_time is Some && r.first_token_time is Some {
            let x = (r.start_time->0, r.first_token_time->0);
            assert(intervals == before.push(x));
            assert(intervals.drop_last() =~= before);
            assert(r.start_time->0 <= r.first_token_time->0);
            assert forall|a: int, b: int| 0 <= a < b < intervals.len() implies timing::moments(
                #[trigger] intervals[a],
            ).disjoint(timing::moments(#[trigger] intervals[b])) by {
                if b == before.len() {
                    assert forall|t: int|
                        timing::moments(intervals[a]).contains(t) implies !timing::moments(
                        x,
                    ).contains(t) by {
                        assert(timing::moments(before[a]).contains(t));
                        lemma_prefill_moments(fewer, t);
                        let i = choose|i: int|
                            0 <= i < fewer.len() && (#[trigger] fewer[i]).start_time is Some
                                && fewer[i].first_token_time is Some && fewer[i].start_time->0 <= t
                                < fewer[i].first_token_time->0;
                        assert(fewer[i] == requests[i]);
                    }
                } else {
                    assert(intervals[a] == before[a] && intervals[b] == before[b]);
                }
            }
        }
    }
}

/// The output rate of the whole system is shown once the slice has lasted ten
/// milliseconds. Its tokens are those that came in during the slice, of all
/// requests that decode or are over, and its time is that of the slice.
pub proof fn law_system_decode(requests: Seq<RequestView>, slice_elapsed: u64)
    requires
        requests.len() <= u64::MAX,
    ensures
        slice_elapsed < 10_000_000 ==> system_decode(requests, slice_elapsed) is None,
        slice_elapsed >= 10_000_000 ==> system_decode(requests, slice_elapsed) is Some,
        system_decode(requests, slice_elapsed) matches Some(rate) ==> {
            &&& rate.nanos == slice_elapsed
            &&& rate.tokens == requests.fold_left(
                0int,
                |sum: int, r: RequestView|
                    if r.first_token_time is Some || r.completed {
                        sum + r.slice_tokens
                    } else {
                        sum
                    },
            )
        },
{
    lemma_decode_sums(requests);
}

/// A slice of at least a millisecond leaves one bucket, behind those before
/// it, with its tokens, the number of requests that they came from, and its
/// length; a shorter one leaves none.
pub proof fn law_bucket(buckets: Seq<TimeBucket>, requests: Seq<RequestView>, nanos: u64)
    requires
        requests.len() <= usize::MAX,
    ensures
        nanos < 1_000_000 ==> collected(buckets, requests, nanos as nat) == buckets,
        nanos >= 1_000_000 ==> ({
            let all = collected(buckets, requests, nanos as nat);
            let bucket = all.last();
            &&& all.len() == buckets.len() + 1
            &&& all.drop_last() == buckets
            &&& bucket.duration_nanos == nanos
            &&& bucket.prefill_input_tokens == requests.fold_left(
                0int,
                |sum: int, r: RequestView|
                    if r.start_time is Some && r.first_token_time is Some {
                        sum + r.prompt_tokens
                    } else {
                        sum
                    },
            )
            &&& bucket.prefill_active == requests.filter(
                |r: RequestView| r.start_time is Some && r.first_token_time is Some,
            ).len()
            &&& bucket.decode_output_tokens == requests.fold_left(
                0int,
                |sum: int, r: RequestView|
                    if r.first_token_time is Some || r.completed {
                        sum + r.slice_tokens
                    } else {
                        sum
                    },
            )
            &&& bucket.decode_active == requests.filter(
                |r: RequestView|
                    if r.completed {
                        r.slice_tokens > 0
                    } else {
                        r.first_token_time is Some
                    },
            ).len()
        }),
{
    lemma_prefill_sums(requests);
    lemma_decode_sums(requests);
    if nanos >= 1_000_000 {
        assert(collected(buckets, requests, nanos as nat).drop_last() =~= buckets);
    }
}

/// A new slice has no tokens yet. It is measured from its start for a request
/// whose output comes in, and for no other; nothing else changes.
pub proof fn law_new_slice(r: RequestView, now: u64)
    ensures
        ({
            let n = new_slice(r, now);
            &&& n.slice_tokens == 0
            &&& r.first_token_time is Some && !r.completed ==> n.slice_decode_start == Some(now)
            &&& r.first_token_time is None || r.completed ==> n.slice_decode_start is None
            &&& n == (RequestView {
                slice_tokens: n.slice_tokens,
                slice_decode_start: n.slice_decode_start,
                ..r
            })
        }),
{
}

/// The status tells requests that were not sent, that succeeded, that failed,
/// that wait for their first token and that decode apart.
pub proof fn law_status(r: RequestView, index: int)
    requires
        0 <= index < 10,
    ensures
        r.start_time is None ==> status_of(r, false, index) == "Wait"@ && status_of(r, true, index)
            == "等待"@,
        r.start_time is Some && r.completed && r.success ==> status_of(r, false, index) == "Done"@
            && status_of(r, true, index) == "完成"@,
        r.start_time is Some && r.completed && !r.success ==> status_of(r, false, index) == "Fail"@
            && status_of(r, true, index) == "失败"@,
        r.start_time is Some && !r.completed && r.first_token_time is None ==> {
            &&& status_of(r, false, index) == status_of(r, true, index)
            &&& status_of(r, false, index) == seq![
                '⠋', '⠙', '⠹', '⠸', '⠼', '⠴', '⠦', '⠧', '⠇', '⠏',
            ].subrange(index, index + 1) + " Prefill"@
        },
        r.start_time is Some && !r.completed && r.first_token_time is Some ==> {
            &&& status_of(r, false, index) == "Decode"@
            &&& status_of(r, true, index) == "Decode"@
        },
{
    reveal_strlit("⠋");
    reveal_strlit("⠙");
    reveal_strlit("⠹");
    reveal_strlit("⠸");
    reveal_strlit("⠼");
    reveal_strlit("⠴");
    reveal_strlit("⠦");
    reveal_strlit("⠧");
    reveal_strlit("⠇");
    reveal_strlit("⠏");
    assert(spinner(index) =~= seq!['⠋', '⠙', '⠹', '⠸', '⠼', '⠴', '⠦', '⠧', '⠇', '⠏'].subrange(
        index,
        index + 1,
    ));
}

/// The rate of a prefill is that of the input tokens from the start to the
/// first token. It is shown where there are such tokens and this took more
/// than a millisecond, and nowhere else.
pub proof fn law_prefill_figure(r: RequestView)
    ensures
        prefill_figure(r) is Some <==> r.start_time is Some && r.first_token_time is Some
            && r.prompt_tokens > 0 && r.first_token_time->0 - r.start_time->0 > 1_000_000,
        prefill_figure(r) matches Some(rate) ==> rate.tokens == r.prompt_tokens
            && r.start_time->0 + rate.nanos == r.first_token_time->0,
{
}

/// The rate of the output is the final one where a request succeeded, and
/// else that of the slice, where more than ten milliseconds of it passed and
/// tokens came in. There is none for one that failed or has no first token.
pub proof fn law_decode_figure(r: RequestView, slice_elapsed: u64, now: u64)
    ensures
        r.start_time is Some && r.completed && r.success ==> decode_figure(r, slice_elapsed, now)
            == r.final_decode,
        r.start_time is None || (r.completed && !r.success) || (!r.completed
            && r.first_token_time is None) ==> decode_figure(r, slice_elapsed, now) is None,
        r.start_time is Some && !r.completed && r.first_token_time is Some ==> {
            let figure = decode_figure(r, slice_elapsed, now);
            &&& figure matches Some(rate) ==> rate.tokens == r.slice_tokens && (
            r.slice_decode_start matches Some(start) ==> start + rate.nanos == now)
            &&& r.slice_decode_start matches Some(start) ==> (figure is Some <==> now - start
                > 10_000_000 && r.slice_tokens > 0)
            &&& r.slice_decode_start is None ==> (figure is Some <==> slice_elapsed > 10_000_000
                && r.slice_tokens > 0) && (figure matches Some(rate) ==> rate.nanos
                == slice_elapsed)
        },
{
}

/// A request that was sent has been running from its start until its end, or
/// until now where it is not over.
pub proof fn law_running_time(r: RequestView, now: u64)
    ensures
        running_time(r, now) is Some <==> r.start_time is Some,
        r.start_time matches Some(start) ==> {
            &&& r.end_time matches Some(end) ==> (start <= end ==> start + running_time(r, now)->0
                == end) && (start > end ==> running_time(r, now)->0 == 0)
            &&& r.end_time is None ==> (start <= now ==> start + running_time(r, now)->0 == now)
                && (start > now ==> running_time(r, now)->0 == 0)
        },
{
}

/// A result has the numbers of its request, its start, the time until its
/// first token, and all its time; without a first token the two are the same.
pub proof fn law_result(r: RequestView, now: u64)
    requires
        r.start_time is Some,
    ensures
        ({
            let result = result_of(r, now);
            let start = r.start_time->0;
            &&& result.request_id == r.request_id && result.context_size == r.context_size
            &&& result.prompt_tokens == r.prompt_tokens
            &&& result.completion_tokens == r.completion_tokens
            &&& result.success == r.success && result.error == r.error
            &&& result.start == start
            &&& result.prefilled <==> r.first_token_time is Some
            &&& r.first_token_time matches Some(first) ==> (start <= first ==> start
                + result.prefill_nanos == first) && (start > first ==> result.prefill_nanos == 0)
            &&& r.first_token_time is None ==> result.prefill_nanos == result.total_nanos
            &&& r.end_time matches Some(end) ==> (start <= end ==> start + result.total_nanos
                == end) && (start > end ==> result.total_nanos == 0)
            &&& r.end_time is None ==> (start <= now ==> start + result.total_nanos == now) && (start
                > now ==> result.total_nanos == 0)
        }),
{
}

/// There is a result for each request that was sent, and for no other, in
/// their order.
pub proof fn law_results(requests: Seq<RequestView>, now: u64)
    ensures
        results_of(requests, now) == requests.filter(
            |r: RequestView| r.start_time is Some,
        ).map_values(|r: RequestView| result_of(r, now)),
    decreases requests.len(),
{
    reveal(Seq::filter);
    let sent = |r: RequestView| r.start_time is Some;
    let result = |r: RequestView| result_of(r, now);
    if requests.len() > 0 {
        law_results(requests.drop_last(), now);
        assert(results_of(requests, now) =~= requests.filter(sent).map_values(result));
    } else {
        assert(results_of(requests, now) =~= requests.filter(sent).map_values(result));
    }
}

/// The table has the time, the head, a rule, a row for each request, a rule
/// and the rates of the whole system. A row shows the number of the request,
/// counted from one, its context size, its status and its figures.
pub proof fn law_table(
    requests: Seq<RequestView>,
    zh: bool,
    index: int,
    elapsed: Seq<char>,
    rows: Seq<RowTexts>,
    prefill: Seq<char>,
    decode: Seq<char>,
    i: int,
)
    ensures
        ({
            let all = table_lines(requests, zh, index, elapsed, rows, prefill, decode);
            let r = requests[i];
            let tokens = if r.completion_tokens > 0 {
                number::decimal(r.completion_tokens as nat)
            } else {
                "-"@
            };
            &&& all.len() == requests.len() + 5
            &&& zh ==> all[0] == "  运行 "@ + elapsed + "s"@ && all.last()
                == " 系统吞吐  Prefill: "@ + prefill + " input t/s | Decode: "@ + decode
                + " output t/s"@
            &&& !zh ==> all[0] == "  Elapsed "@ + elapsed + "s"@ && all.last()
                == " System    Prefill: "@ + prefill + " input t/s | Decode: "@ + decode
                + " output t/s"@
            &&& all[2] == all[requests.len() as int + 3]
            &&& all[2].len() == utils::columns(all[1])
            &&& forall|k: int| 0 <= k < all[2].len() ==> #[trigger] all[2][k] == '-'
            &&& 0 <= i < requests.len() ==> all[3 + i] == " "@ + text::join(
                seq![
                    utils::padded_center(number::decimal((r.request_id + 1) as nat), 6),
                    utils::padded_center(number::decimal(r.context_size as nat), 8),
                    utils::padded_center(status_of(r, zh, index), 12),
                    utils::padded_left(or_dash(rows[i].prefill), 14),
                    utils::padded_left(or_dash(rows[i].decode), 14),
                    utils::padded_left(tokens, 10),
                    utils::padded_left(or_dash(rows[i].time), 10),
                ],
                " | "@,
            )
        }),
{
    let all = table_lines(requests, zh, index, elapsed, rows, prefill, decode);
    if 0 <= i < requests.len() {
        assert(all[3 + i] == table_row(request_cells(requests[i], zh, index, rows[i])));
    }
}

/// The head of the table names its columns.
pub proof fn law_table_head(
    requests: Seq<RequestView>,
    index: int,
    elapsed: Seq<char>,
    rows: Seq<RowTexts>,
    prefill: Seq<char>,
    decode: Seq<char>,
)
    ensures
        table_lines(requests, false, index, elapsed, rows, prefill, decode)[1] == " "@ + text::join(
            seq![
                utils::padded_center("#"@, 6),
                utils::padded_center("Ctx"@, 8),
                utils::padded_center("Status"@, 12),
                utils::padded_center("Prefill(t/s)"@, 14),
                utils::padded_center("Decode(t/s)"@, 14),
                utils::padded_center("Out Toks"@, 10),
                utils::padded_center("Time(s)"@, 10),
            ],
            " | "@,
        ),
        table_lines(requests, true, index, elapsed, rows, prefill, decode)[1] == " "@ + text::join(
            seq![
                utils::padded_center("#"@, 6),
                utils::padded_center("上下文"@, 8),
                utils::padded_center("状态"@, 12),
                utils::padded_center("Prefill(t/s)"@, 14),
                utils::padded_center("Decode(t/s)"@, 14),
                utils::padded_center("输出Token"@, 10),
                utils::padded_center("耗时(s)"@, 10),
            ],
            " | "@,
        ),
{
}

/// What cannot be shown is a dash.
pub proof fn law_dash(s: Option<String>)
    ensures
        s is None ==> or_dash(s) == "-"@,
        s matches Some(t) ==> or_dash(s) == t@,
{
}

/// Each line is written over what stood in its place, and ends with a line
/// feed; before the first one the cursor goes up by the lines that were drawn
/// before.
pub proof fn law_frame(previous: nat, lines: Seq<Seq<char>>, line: Seq<char>)
    ensures
        frame(0, Seq::empty()) == Seq::<char>::empty(),
        frame(previous, lines.push(line)) == frame(previous, lines) + "\x1b[2K"@ + line + "\n"@,
        previous > 0 ==> frame(previous, Seq::empty()) == "\x1b["@ + number::decimal(previous)
            + "A\r"@,
{
    assert(lines.push(line).drop_last() =~= lines);
    assert(frame(0, Seq::empty()) =~= Seq::<char>::empty());
    assert(frame(previous, lines.push(line)) =~= frame(previous, lines) + "\x1b[2K"@ + line
        + "\n"@);
    assert(previous > 0 ==> frame(previous, Seq::empty()) =~= "\x1b["@ + number::decimal(previous)
        + "A\r"@);
}

/// A request that was sent waits for its first token until it comes in or the
/// request is over, and decodes from then on until it is over.
pub proof fn law_phases(r: RequestView)
    ensures
        in_prefill(r) <==> r.start_time is Some && r.first_token_time is None && !r.completed,
        in_decode(r) <==> r.first_token_time is Some && !r.completed,
{
}

/// A display shows its own requests, in Chinese where its language is, and its
/// settings are its slice, its language, its start and whether it is silent.
pub proof fn law_display(display: LiveDisplay, other: LiveDisplay)
    ensures
        display.views() == request_views(display.requests@),
        display.is_zh() <==> display.lang@ == "zh"@,
        display.same_settings(&other) <==> display.time_slice_nanos == other.time_slice_nanos
            && display.lang == other.lang && display.test_start == other.test_start
            && display.silent == other.silent,
        display.wf() ==> display.spinner_idx < 10,
{
}

proof fn lemma_views_have_the_moments(requests: Seq<RequestState>)
    ensures
        Set::new(
            |t: int|
                exists|i: int|
                    0 <= i < request_views(requests).len() && (#[trigger] request_views(
                        requests,
                    )[i]).start_time is Some && request_views(
                        requests,
                    )[i].first_token_time is Some && request_views(requests)[i].start_time->0 <= t
                        < request_views(requests)[i].first_token_time->0,
        ) == Set::new(
            |t: int|
                exists|i: int|
                    0 <= i < requests.len() && (#[trigger] requests[i]).start_time is Some
                        && requests[i].first_token_time is Some && requests[i].start_time->0 <= t
                        < requests[i].first_token_time->0,
        ),
{
    let views = request_views(requests);
    let a = Set::new(
        |t: int|
            exists|i: int|
                0 <= i < request_views(requests).len() && (#[trigger] request_views(
                    requests,
                )[i]).start_time is Some && request_views(requests)[i].first_token_time is Some
                    && request_views(requests)[i].start_time->0 <= t < request_views(
                    requests,
                )[i].first_token_time->0,
    );
    let b = Set::new(
        |t: int|
            exists|i: int|
                0 <= i < requests.len() && (#[trigger] requests[i]).start_time is Some
                    && requests[i].first_token_time is Some && requests[i].start_time->0 <= t
                    < requests[i].first_token_time->0,
    );
    assert forall|t: int| a.contains(t) <==> b.contains(t) by {
        if a.contains(t) {
            let i = choose|i: int|
                0 <= i < views.len() && (#[trigger] views[i]).start_time is Some
                    && views[i].first_token_time is Some && views[i].start_time->0 <= t
                    < views[i].first_token_time->0;
            assert(requests[i].start_time == views[i].start_time);
        }
        if b.contains(t) {
            let i = choose|i: int|
                0 <= i < requests.len() && (#[trigger] requests[i]).start_time is Some
                    && requests[i].first_token_time is Some && requests[i].start_time->0 <= t
                    < requests[i].first_token_time->0;
            assert(views[i].start_time == requests[i].start_time);
        }
    }
    assert(a =~= b);
}

} // verus!

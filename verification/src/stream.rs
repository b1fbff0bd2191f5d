//! What becomes of a streamed answer: the events of a measured request, and
//! the totals of a chat.
use vstd::prelude::*;
use vstd::string::StringExecFns;
use crate::client::{
    self, count_tokens, process_sse_buffer, response_deltas, ChatMessage, ChatResponse, SseDelta,
    TokenEvent,
};
use crate::double::{self, Seconds};
use crate::text;
use crate::timing::{self, Rate};

verus! {

// ---------------------------------------------------------------------------
// A measured request
// ---------------------------------------------------------------------------

/// The state of a measured request while its answer streams in.
#[derive(Debug)]
pub struct StreamTracker {
    pub request_id: usize,
    /// The input tokens by the local count.
    pub prompt_tokens: u32,
    pub first_token_sent: bool,
    pub server_completion_tokens: Option<u32>,
    pub server_prompt_tokens: Option<u32>,
    /// The bytes of a line that is not complete yet.
    pub buffer: Vec<u8>,
}

/// What the events of a measured request depend on.
pub struct StreamState {
    pub first_token_sent: bool,
    pub completion_tokens: Option<u32>,
    pub prompt_tokens: Option<u32>,
}

/// Whether a delta holds output.
pub open spec fn has_output(delta: SseDelta) -> bool {
    delta.content is Some && delta.content->0@.len() > 0
}

/// The state after one delta: a usage block replaces what the server had
/// reported before.
pub open spec fn after_delta(state: StreamState, delta: SseDelta) -> StreamState {
    StreamState {
        first_token_sent: state.first_token_sent || has_output(delta),
        completion_tokens: match delta.usage {
            Some(usage) => usage.completion_tokens,
            None => state.completion_tokens,
        },
        prompt_tokens: match delta.usage {
            Some(usage) => usage.prompt_tokens,
            None => state.prompt_tokens,
        },
    }
}

/// The state after some deltas.
pub open spec fn after_deltas(state: StreamState, deltas: Seq<SseDelta>) -> StreamState
    decreases deltas.len(),
{
    if deltas.len() == 0 {
        state
    } else {
        after_delta(after_deltas(state, deltas.drop_last()), deltas.last())
    }
}

/// The events of one delta: its output, and before the first output of a
/// request the mark that the first token came in.
pub open spec fn delta_events(
    state: StreamState,
    request_id: usize,
    time: u64,
    delta: SseDelta,
) -> Seq<TokenEvent> {
    if !has_output(delta) {
        Seq::empty()
    } else {
        let output = TokenEvent::TokensReceived { request_id, time, content: delta.content->0 };
        if state.first_token_sent {
            seq![output]
        } else {
            seq![TokenEvent::FirstToken { request_id, time }, output]
        }
    }
}

/// The events of some deltas.
pub open spec fn deltas_events(
    state: StreamState,
    request_id: usize,
    time: u64,
    deltas: Seq<SseDelta>,
) -> Seq<TokenEvent>
    decreases deltas.len(),
{
    if deltas.len() == 0 {
        Seq::empty()
    } else {
        deltas_events(state, request_id, time, deltas.drop_last()) + delta_events(
            after_deltas(state, deltas.drop_last()),
            request_id,
            time,
            deltas.last(),
        )
    }
}

/// Whether `event` ends a request as the other arguments say.
pub open spec fn completes(
    event: TokenEvent,
    id: usize,
    at: u64,
    completion: u32,
    prompt: u32,
    reported: bool,
    good: bool,
    message: Option<Seq<char>>,
) -> bool {
    event matches TokenEvent::Completed {
        request_id,
        time,
        completion_tokens,
        prompt_tokens,
        server_usage,
        success,
        error,
    } && request_id == id && time == at && completion_tokens == completion && prompt_tokens
        == prompt && server_usage == reported && success == good && text::opt_text(error)
        == message
}

impl StreamTracker {
    /// What the events depend on.
    pub open spec fn state(&self) -> StreamState {
        StreamState {
            first_token_sent: self.first_token_sent,
            completion_tokens: self.server_completion_tokens,
            prompt_tokens: self.server_prompt_tokens,
        }
    }

    /// The completion tokens that the server reported, or 0.
    pub open spec fn reported_completion(&self) -> u32 {
        match self.server_completion_tokens {
            Some(n) => n,
            None => 0,
        }
    }

    /// The input tokens that the server reported, or the local count.
    pub open spec fn best_prompt(&self) -> u32 {
        match self.server_prompt_tokens {
            Some(n) => n,
            None => self.prompt_tokens,
        }
    }

    /// A request of which nothing came in yet.
    pub fn new(request_id: usize, prompt_tokens: u32) -> (tracker: Self)
        ensures
            tracker.request_id == request_id,
            tracker.prompt_tokens == prompt_tokens,
            !tracker.first_token_sent,
            tracker.server_completion_tokens is None,
            tracker.server_prompt_tokens is None,
            tracker.buffer@.len() == 0,
    {
        StreamTracker {
            request_id,
            prompt_tokens,
            first_token_sent: false,
            server_completion_tokens: None,
            server_prompt_tokens: None,
            buffer: Vec::new(),
        }
    }

    /// The event that the request was sent.
    pub fn started(&self, start_time: u64, context_size: u32) -> (event: TokenEvent)
        ensures
            event == (TokenEvent::RequestStarted {
                request_id: self.request_id,
                start_time,
                prompt_tokens: self.prompt_tokens,
                context_size,
            }),
    {
        TokenEvent::RequestStarted {
            request_id: self.request_id,
            start_time,
            prompt_tokens: self.prompt_tokens,
            context_size,
        }
    }

    /// Takes a chunk of bytes and returns the payloads that it completes.
    pub fn receive(&mut self, bytes: &[u8]) -> (payloads: Vec<String>)
        ensures
            final(self).buffer@ == text::split_on(old(self).buffer@ + bytes@, 10u8).last(),
            text::texts(payloads@) == client::payloads_of(
                text::split_on(old(self).buffer@ + bytes@, 10u8).drop_last(),
            ),
            final(self).request_id == old(self).request_id,
            final(self).prompt_tokens == old(self).prompt_tokens,
            final(self).state() == old(self).state(),
    {
        process_sse_buffer(&mut self.buffer, bytes)
    }

    /// Takes what the payloads of a chunk were read as, in order, and returns
    /// the events that they cause; `None` stands for a payload that could not
    /// be read.
    pub fn absorb(&mut self, responses: Vec<Option<ChatResponse>>, now: u64) -> (events: Vec<
        TokenEvent,
    >)
        ensures
            events@ == deltas_events(
                old(self).state(),
                old(self).request_id,
                now,
                client::deltas_of(responses@),
            ),
            final(self).state() == after_deltas(
                old(self).state(),
                client::deltas_of(responses@),
            ),
            final(self).request_id == old(self).request_id,
            final(self).prompt_tokens == old(self).prompt_tokens,
            final(self).buffer == old(self).buffer,
    {
        let deltas: Vec<SseDelta> = response_deltas(responses);
        let ghost all = deltas@;
        let mut events: Vec<TokenEvent> = Vec::new();
        for delta in it: deltas
            invariant
                it.seq() == all,
                events@ == deltas_events(
                    old(self).state(),
                    old(self).request_id,
                    now,
                    all.take(it.index() as int),
                ),
                self.state() == after_deltas(old(self).state(), all.take(it.index() as int)),
                self.request_id == old(self).request_id,
                self.prompt_tokens == old(self).prompt_tokens,
                self.buffer == old(self).buffer,
        {
            let ghost before = events@;
            let ghost state = self.state();
            assert(all.take(it.index() + 1).drop_last() =~= all.take(it.index() as int));
            if let Some(usage) = delta.usage {
                self.server_completion_tokens = usage.completion_tokens;
                self.server_prompt_tokens = usage.prompt_tokens;
            }
            if let Some(content) = delta.content {
                if !content.as_str().is_empty() {
                    if !self.first_token_sent {
                        self.first_token_sent = true;
                        events.push(
                            TokenEvent::FirstToken { request_id: self.request_id, time: now },
                        );
                    }
                    events.push(
                        TokenEvent::TokensReceived {
                            request_id: self.request_id,
                            time: now,
                            content,
                        },
                    );
                }
            }
            assert(events@ =~= before + delta_events(
                state,
                self.request_id,
                now,
                all[it.index() as int],
            ));
        }
        assert(all.take(all.len() as int) =~= all);
        events
    }

    /// The event that the stream ended.
    pub fn finished(&self, now: u64) -> (event: TokenEvent)
        ensures
            completes(
                event,
                self.request_id,
                now,
                self.reported_completion(),
                self.best_prompt(),
                self.server_completion_tokens is Some,
                true,
                None,
            ),
    {
        self.over(now, true, None)
    }

    /// The event that the request was interrupted.
    pub fn interrupted(&self, now: u64) -> (event: TokenEvent)
        ensures
            completes(
                event,
                self.request_id,
                now,
                self.reported_completion(),
                self.best_prompt(),
                self.server_completion_tokens is Some,
                false,
                Some("interrupted"@),
            ),
    {
        self.over(now, false, Some("interrupted".to_owned()))
    }

    /// The event that the stream broke off, with the cause.
    pub fn broken(&self, now: u64, cause: &str) -> (event: TokenEvent)
        ensures
            completes(
                event,
                self.request_id,
                now,
                self.reported_completion(),
                self.best_prompt(),
                self.server_completion_tokens is Some,
                false,
                Some("Stream error: "@ + cause@),
            ),
    {
        self.over(now, false, Some("Stream error: ".to_owned().concat(cause)))
    }

    /// The event that the request could not be sent, with the cause.
    pub fn not_sent(&self, now: u64, cause: &str) -> (event: TokenEvent)
        ensures
            completes(
                event,
                self.request_id,
                now,
                0,
                self.prompt_tokens,
                false,
                false,
                Some("Request failed: "@ + cause@),
            ),
    {
        self.refused(now, "Request failed: ".to_owned().concat(cause))
    }

    /// The event that the server answered with an error status.
    pub fn http_error(&self, now: u64, status: &str, body: &str) -> (event: TokenEvent)
        ensures
            completes(
                event,
                self.request_id,
                now,
                0,
                self.prompt_tokens,
                false,
                false,
                Some("HTTP "@ + status@ + ": "@ + body@),
            ),
    {
        self.refused(now, "HTTP ".to_owned().concat(status).concat(": ").concat(body))
    }

    /// The end of a request that gave no stream.
    fn refused(&self, now: u64, message: String) -> (event: TokenEvent)
        ensures
            completes(
                event,
                self.request_id,
                now,
                0,
                self.prompt_tokens,
                false,
                false,
                Some(message@),
            ),
    {
        TokenEvent::Completed {
            request_id: self.request_id,
            time: now,
            completion_tokens: 0,
            prompt_tokens: self.prompt_tokens,
            server_usage: false,
            success: false,
            error: Some(message),
        }
    }

    /// The end of a request that gave a stream.
    fn over(&self, now: u64, success: bool, error: Option<String>) -> (event: TokenEvent)
        ensures
            completes(
                event,
                self.request_id,
                now,
                self.reported_completion(),
                self.best_prompt(),
                self.server_completion_tokens is Some,
                success,
                text::opt_text(error),
            ),
    {
        TokenEvent::Completed {
            request_id: self.request_id,
            time: now,
            completion_tokens: self.server_completion_tokens.unwrap_or(0),
            prompt_tokens: self.server_prompt_tokens.unwrap_or(self.prompt_tokens),
            server_usage: self.server_completion_tokens.is_some(),
            success,
            error,
        }
    }
}

/// All the output of some deltas, one piece after the other.
pub open spec fn deltas_output(deltas: Seq<SseDelta>) -> Seq<char>
    decreases deltas.len(),
{
    if deltas.len() == 0 {
        Seq::empty()
    } else {
        let before = deltas_output(deltas.drop_last());
        match deltas.last().content {
            Some(content) => before + content@,
            None => before,
        }
    }
}

/// All the output that events report, one piece after the other.
pub open spec fn events_output(events: Seq<TokenEvent>) -> Seq<char>
    decreases events.len(),
{
    if events.len() == 0 {
        Seq::empty()
    } else {
        let before = events_output(events.drop_last());
        match events.last() {
            TokenEvent::TokensReceived { content, .. } => before + content@,
            _ => before,
        }
    }
}

pub(crate) proof fn lemma_events_output_concat(a: Seq<TokenEvent>, b: Seq<TokenEvent>)
    ensures
        events_output(a + b) == events_output(a) + events_output(b),
    decreases b.len(),
{
    if b.len() == 0 {
        assert(a + b =~= a);
        assert(events_output(a) + events_output(b) =~= events_output(a));
    } else {
        lemma_events_output_concat(a, b.drop_last());
        assert((a + b).drop_last() =~= a + b.drop_last());
        assert(events_output(a + b) =~= events_output(a) + events_output(b));
    }
}

/// The events of a request report all the output that came in, and nothing
/// else.
pub proof fn law_events_report_all_output(
    state: StreamState,
    request_id: usize,
    time: u64,
    deltas: Seq<SseDelta>,
)
    ensures
        events_output(deltas_events(state, request_id, time, deltas)) == deltas_output(deltas),
    decreases deltas.len(),
{
    if deltas.len() > 0 {
        let before = deltas.drop_last();
        law_events_report_all_output(state, request_id, time, before);
        let last = delta_events(after_deltas(state, before), request_id, time, deltas.last());
        lemma_events_output_concat(deltas_events(state, request_id, time, before), last);
        reveal_with_fuel(events_output, 3);
        if has_output(deltas.last()) {
            assert(last.last() == TokenEvent::TokensReceived {
                request_id,
                time,
                content: deltas.last().content->0,
            });
            assert(events_output(last) =~= deltas.last().content->0@);
        } else {
            assert(events_output(last) =~= Seq::<char>::empty());
        }
        assert(events_output(deltas_events(state, request_id, time, deltas)) =~= deltas_output(
            deltas,
        ));
    }
}

/// Whether an event says that the first token of a request came in.
pub open spec fn reports_first_token(event: TokenEvent, id: usize) -> bool {
    event matches TokenEvent::FirstToken { request_id, .. } && request_id == id
}

/// Whether an event reports output of a request, which is not empty.
pub open spec fn reports_output(event: TokenEvent, id: usize) -> bool {
    event matches TokenEvent::TokensReceived { request_id, content, .. } && request_id == id
        && content@.len() > 0
}

/// The first token is reported once, and before any output: where nothing was
/// reported yet, the first event is the first token, and every other event
/// reports output.
pub proof fn law_first_token_once(
    state: StreamState,
    request_id: usize,
    time: u64,
    deltas: Seq<SseDelta>,
)
    ensures
        ({
            let events = deltas_events(state, request_id, time, deltas);
            let after = after_deltas(state, deltas);
            &&& after.first_token_sent == (state.first_token_sent || events.len() > 0)
            &&& !state.first_token_sent && events.len() > 0 ==> events[0]
                == (TokenEvent::FirstToken { request_id, time })
            &&& forall|i: int|
                0 <= i < events.len() && (state.first_token_sent || i > 0) ==> reports_output(
                    #[trigger] events[i],
                    request_id,
                )
        }),
    decreases deltas.len(),
{
    if deltas.len() > 0 {
        law_first_token_once(state, request_id, time, deltas.drop_last());
    }
}

/// Chunks of a stream: when each came in, and what it added.
pub open spec fn run_state(state: StreamState, chunks: Seq<(u64, Seq<SseDelta>)>) -> StreamState
    decreases chunks.len(),
{
    if chunks.len() == 0 {
        state
    } else {
        after_deltas(run_state(state, chunks.drop_last()), chunks.last().1)
    }
}

/// The events of a stream, chunk after chunk.
pub open spec fn run_events(
    state: StreamState,
    request_id: usize,
    chunks: Seq<(u64, Seq<SseDelta>)>,
) -> Seq<TokenEvent>
    decreases chunks.len(),
{
    if chunks.len() == 0 {
        Seq::empty()
    } else {
        run_events(state, request_id, chunks.drop_last()) + deltas_events(
            run_state(state, chunks.drop_last()),
            request_id,
            chunks.last().0,
            chunks.last().1,
        )
    }
}

/// All the output of a stream.
pub open spec fn run_output(chunks: Seq<(u64, Seq<SseDelta>)>) -> Seq<char>
    decreases chunks.len(),
{
    if chunks.len() == 0 {
        Seq::empty()
    } else {
        run_output(chunks.drop_last()) + deltas_output(chunks.last().1)
    }
}

/// However many chunks a stream comes in, its events report all its output,
/// in order; the first of them is that the first token came in, and every
/// other one reports output, never an empty piece. All are about the request.
pub proof fn law_stream_events(
    state: StreamState,
    request_id: usize,
    chunks: Seq<(u64, Seq<SseDelta>)>,
)
    requires
        !state.first_token_sent,
    ensures
        ({
            let events = run_events(state, request_id, chunks);
            &&& events_output(events) == run_output(chunks)
            &&& run_state(state, chunks).first_token_sent == (events.len() > 0)
            &&& events.len() > 0 ==> reports_first_token(events[0], request_id)
            &&& forall|i: int|
                0 < i < events.len() ==> reports_output(#[trigger] events[i], request_id)
        }),
    decreases chunks.len(),
{
    if chunks.len() > 0 {
        let before = chunks.drop_last();
        law_stream_events(state, request_id, before);
        let mid = run_state(state, before);
        let (time, deltas) = chunks.last();
        law_events_report_all_output(mid, request_id, time, deltas);
        law_first_token_once(mid, request_id, time, deltas);
        lemma_events_output_concat(
            run_events(state, request_id, before),
            deltas_events(mid, request_id, time, deltas),
        );
    }
}

// ---------------------------------------------------------------------------
// A chat
// ---------------------------------------------------------------------------

/// The totals of a streamed answer.
#[derive(Debug, Clone, PartialEq, Eq)]
pub struct ChatStreamResult {
    pub content: String,
    pub prompt_tokens: Option<u32>,
    pub completion_tokens: Option<u32>,
    /// The input tokens over the time to the first token.
    pub prefill: Option<Rate>,
    /// The output tokens over the time from the first token to the last.
    pub decode: Option<Rate>,
    pub total_nanos: u64,
}

/// The state of a chat while an answer streams in. Times are spans since the
/// request was sent.
#[derive(Debug)]
pub struct ChatStream {
    pub content: String,
    pub first_token: Option<u64>,
    pub last_token: Option<u64>,
    pub server_completion_tokens: Option<u32>,
    pub server_prompt_tokens: Option<u32>,
    /// The bytes of a line that is not complete yet.
    pub buffer: Vec<u8>,
}

/// A newer report of a token count, or the older one where there is none.
pub open spec fn newer(report: Option<u32>, before: Option<u32>) -> Option<u32> {
    if report is Some {
        report
    } else {
        before
    }
}

/// The completion tokens that a server reported last.
pub open spec fn last_completion(before: Option<u32>, deltas: Seq<SseDelta>) -> Option<u32>
    decreases deltas.len(),
{
    if deltas.len() == 0 {
        before
    } else {
        let earlier = last_completion(before, deltas.drop_last());
        match deltas.last().usage {
            Some(usage) => newer(usage.completion_tokens, earlier),
            None => earlier,
        }
    }
}

/// The input tokens that a server reported last.
pub open spec fn last_prompt(before: Option<u32>, deltas: Seq<SseDelta>) -> Option<u32>
    decreases deltas.len(),
{
    if deltas.len() == 0 {
        before
    } else {
        let earlier = last_prompt(before, deltas.drop_last());
        match deltas.last().usage {
            Some(usage) => newer(usage.prompt_tokens, earlier),
            None => earlier,
        }
    }
}

/// The pieces of content of some deltas.
pub open spec fn content_pieces(deltas: Seq<SseDelta>) -> Seq<String>
    decreases deltas.len(),
{
    if deltas.len() == 0 {
        Seq::empty()
    } else {
        let before = content_pieces(deltas.drop_last());
        match deltas.last().content {
            Some(content) => before.push(content),
            None => before,
        }
    }
}

/// The rate of the prefill: measured once a first token came in, and zero
/// where it took no time or there was no input.
pub open spec fn prefill_rate(first_token: Option<u64>, prompt_tokens: u32) -> Option<Rate> {
    match first_token {
        Some(nanos) => Some(
            Rate {
                tokens: if nanos > 0 {
                    prompt_tokens as u128
                } else {
                    0
                },
                nanos,
            },
        ),
        None => None,
    }
}

/// The rate of the decoding: measured where it gave output and took more than
/// a thousandth of a second, by the difference of two numbers of seconds in
/// double precision.
pub open spec fn decode_rate(
    first_token: Option<u64>,
    last_token: Option<u64>,
    output_tokens: u32,
) -> Option<Rate> {
    match (first_token, last_token) {
        (Some(first), Some(last)) => if double::seconds_between(first as nat, last as nat)
            > double::thousandth() && output_tokens > 0 {
            Some(Rate { tokens: output_tokens as u128, nanos: timing::span(first, last) as u64 })
        } else {
            None
        },
        _ => None,
    }
}

/// What the messages of a conversation say.
pub open spec fn contents(messages: Seq<ChatMessage>) -> Seq<Seq<char>> {
    Seq::new(messages.len(), |i: int| messages[i].content@)
}

/// Counts the input tokens of a conversation: those of its contents, one to a
/// line.
pub fn local_prompt_tokens(messages: &Vec<ChatMessage>) -> (n: u32)
    ensures
        n == client::token_count(text::join(contents(messages@), "\n"@)) as u32,
{
    let ghost all = contents(messages@);
    let mut prompt: String = String::new();
    assert(prompt@ =~= text::join(all.take(0), "\n"@));
    for i in 0..messages.len()
        invariant
            all == contents(messages@),
            prompt@ == text::join(all.take(i as int), "\n"@),
    {
        if i > 0 {
            prompt.append("\n");
        }
        prompt.append(messages[i].content.as_str());
        assert(all.take(i + 1).drop_last() =~= all.take(i as int));
        assert(all.take(i + 1).last() == messages@[i as int].content@);
    }
    assert(all.take(messages.len() as int) =~= all);
    count_tokens(prompt.as_str()) as u32
}

impl ChatStream {
    /// A chat of whose answer nothing came in yet.
    pub fn new() -> (stream: Self)
        ensures
            stream.content@.len() == 0,
            stream.first_token is None,
            stream.last_token is None,
            stream.server_completion_tokens is None,
            stream.server_prompt_tokens is None,
            stream.buffer@.len() == 0,
    {
        ChatStream {
            content: String::new(),
            first_token: None,
            last_token: None,
            server_completion_tokens: None,
            server_prompt_tokens: None,
            buffer: Vec::new(),
        }
    }

    /// Takes a chunk of bytes and returns the payloads that it completes.
    pub fn receive(&mut self, bytes: &[u8]) -> (payloads: Vec<String>)
        ensures
            final(self).buffer@ == text::split_on(old(self).buffer@ + bytes@, 10u8).last(),
            text::texts(payloads@) == client::payloads_of(
                text::split_on(old(self).buffer@ + bytes@, 10u8).drop_last(),
            ),
            final(self).content == old(self).content,
            final(self).first_token == old(self).first_token,
            final(self).last_token == old(self).last_token,
            final(self).server_completion_tokens == old(self).server_completion_tokens,
            final(self).server_prompt_tokens == old(self).server_prompt_tokens,
    {
        process_sse_buffer(&mut self.buffer, bytes)
    }

    /// Takes what the payloads of a chunk were read as, in order, and returns
    /// the pieces of content to show; `None` stands for a payload that could
    /// not be read.
    pub fn absorb(&mut self, responses: Vec<Option<ChatResponse>>, now: u64) -> (pieces: Vec<
        String,
    >)
        ensures
            pieces@ == content_pieces(client::deltas_of(responses@)),
            final(self).content@ == old(self).content@ + deltas_output(
                client::deltas_of(responses@),
            ),
            final(self).first_token == (if old(self).first_token is None && pieces@.len() > 0 {
                Some(now)
            } else {
                old(self).first_token
            }),
            final(self).last_token == (if pieces@.len() > 0 {
                Some(now)
            } else {
                old(self).last_token
            }),
            final(self).server_completion_tokens == last_completion(
                old(self).server_completion_tokens,
                client::deltas_of(responses@),
            ),
            final(self).server_prompt_tokens == last_prompt(
                old(self).server_prompt_tokens,
                client::deltas_of(responses@),
            ),
            final(self).buffer == old(self).buffer,
    {
        let deltas: Vec<SseDelta> = response_deltas(responses);
        let ghost all = deltas@;
        let mut pieces: Vec<String> = Vec::new();
        assert(self.content@ =~= old(self).content@ + deltas_output(all.take(0)));
        for delta in it: deltas
            invariant
                it.seq() == all,
                pieces@ == content_pieces(all.take(it.index() as int)),
                self.content@ == old(self).content@ + deltas_output(all.take(it.index() as int)),
                self.first_token == (if old(self).first_token is None && pieces@.len() > 0 {
                    Some(now)
                } else {
                    old(self).first_token
                }),
                self.last_token == (if pieces@.len() > 0 {
                    Some(now)
                } else {
                    old(self).last_token
                }),
                self.server_completion_tokens == last_completion(
                    old(self).server_completion_tokens,
                    all.take(it.index() as int),
                ),
                self.server_prompt_tokens == last_prompt(
                    old(self).server_prompt_tokens,
                    all.take(it.index() as int),
                ),
                self.buffer == old(self).buffer,
        {
            let ghost shown = self.content@;
            assert(all.take(it.index() + 1).drop_last() =~= all.take(it.index() as int));
            if let Some(usage) = delta.usage {
                if let Some(n) = usage.completion_tokens {
                    self.server_completion_tokens = Some(n);
                }
                if let Some(n) = usage.prompt_tokens {
                    self.server_prompt_tokens = Some(n);
                }
            }
            if let Some(content) = delta.content {
                if self.first_token.is_none() {
                    self.first_token = Some(now);
                }
                self.last_token = Some(now);
                self.content.append(content.as_str());
                assert(self.content@ =~= old(self).content@ + (deltas_output(
                    all.take(it.index() as int),
                ) + content@));
                pieces.push(content);
            }
        }
        assert(all.take(all.len() as int) =~= all);
        pieces
    }

    /// The input tokens that the server reported, or the local count.
    pub open spec fn best_prompt(&self, local_prompt_tokens: u32) -> u32 {
        match self.server_prompt_tokens {
            Some(n) => n,
            None => local_prompt_tokens,
        }
    }

    /// The output tokens that the server reported, or the count over the
    /// whole text.
    pub open spec fn best_completion(&self) -> u32 {
        match self.server_completion_tokens {
            Some(n) => n,
            None => client::token_count(self.content@) as u32,
        }
    }

    /// The totals, once the stream has ended.
    pub fn finish(self, local_prompt_tokens: u32, total_nanos: u64) -> (result: ChatStreamResult)
        ensures
            result.content == self.content,
            result.prompt_tokens == Some(self.best_prompt(local_prompt_tokens)),
            result.completion_tokens == Some(self.best_completion()),
            result.prefill == prefill_rate(
                self.first_token,
                self.best_prompt(local_prompt_tokens),
            ),
            result.decode == decode_rate(
                self.first_token,
                self.last_token,
                self.best_completion(),
            ),
            result.total_nanos == total_nanos,
    {
        let prompt_tokens: u32 = self.server_prompt_tokens.unwrap_or(local_prompt_tokens);
        let output_tokens: u32 = match self.server_completion_tokens {
            Some(n) => n,
            None => count_tokens(self.content.as_str()) as u32,
        };
        let prefill: Option<Rate> = match self.first_token {
            Some(nanos) => {
                let tokens: u128 = if nanos > 0 {
                    prompt_tokens as u128
                } else {
                    0
                };
                Some(Rate { tokens, nanos })
            },
            None => None,
        };
        let decode: Option<Rate> = match (self.first_token, self.last_token) {
            (Some(first), Some(last)) => {
                if Seconds::between(first, last).over_a_thousandth() && output_tokens > 0 {
                    Some(
                        Rate {
                            tokens: output_tokens as u128,
                            nanos: timing::elapsed(first, last),
                        },
                    )
                } else {
                    None
                }
            },
            _ => None,
        };
        ChatStreamResult {
            content: self.content,
            prompt_tokens: Some(prompt_tokens),
            completion_tokens: Some(output_tokens),
            prefill,
            decode,
            total_nanos,
        }
    }
}

// ---------------------------------------------------------------------------
// Laws
// ---------------------------------------------------------------------------

/// The last usage block that a server sent counts, and it counts whole; where
/// there is none, what was known before stays.
pub proof fn law_last_usage_counts(
    state: StreamState,
    before: Seq<SseDelta>,
    delta: SseDelta,
    after: Seq<SseDelta>,
)
    requires
        forall|i: int| 0 <= i < after.len() ==> (#[trigger] after[i]).usage is None,
    ensures
        delta.usage matches Some(usage) ==> {
            let n = after_deltas(state, before + seq![delta] + after);
            n.completion_tokens == usage.completion_tokens && n.prompt_tokens == usage.prompt_tokens
        },
        after_deltas(state, after).completion_tokens == state.completion_tokens,
        after_deltas(state, after).prompt_tokens == state.prompt_tokens,
    decreases after.len(),
{
    let all = before + seq![delta] + after;
    if after.len() > 0 {
        let fewer = after.drop_last();
        assert forall|i: int| 0 <= i < fewer.len() implies (#[trigger] fewer[i]).usage is None by {
            assert(fewer[i] == after[i]);
        }
        law_last_usage_counts(state, before, delta, fewer);
        assert(all.drop_last() =~= before + seq![delta] + fewer);
        assert(after[after.len() - 1] == after.last());
    } else {
        assert(all.drop_last() =~= before);
    }
}

/// A first token came in where one had before, or where some delta has
/// content that is not empty.
pub proof fn law_first_token_came_in(state: StreamState, deltas: Seq<SseDelta>)
    ensures
        after_deltas(state, deltas).first_token_sent <==> state.first_token_sent || exists|i: int|
            0 <= i < deltas.len() && (#[trigger] deltas[i]).content is Some
                && deltas[i].content->0@.len() > 0,
    decreases deltas.len(),
{
    if deltas.len() > 0 {
        let fewer = deltas.drop_last();
        law_first_token_came_in(state, fewer);
        assert(deltas[deltas.len() - 1] == deltas.last());
        if exists|i: int|
            0 <= i < fewer.len() && (#[trigger] fewer[i]).content is Some
                && fewer[i].content->0@.len() > 0 {
            let i = choose|i: int|
                0 <= i < fewer.len() && (#[trigger] fewer[i]).content is Some
                    && fewer[i].content->0@.len() > 0;
            assert(deltas[i] == fewer[i]);
        }
        if exists|i: int|
            0 <= i < deltas.len() && (#[trigger] deltas[i]).content is Some
                && deltas[i].content->0@.len() > 0 {
            let i = choose|i: int|
                0 <= i < deltas.len() && (#[trigger] deltas[i]).content is Some
                    && deltas[i].content->0@.len() > 0;
            if i < fewer.len() {
                assert(fewer[i] == deltas[i]);
            }
        }
    }
}

/// A delta with content that is not empty adds one event with that content,
/// and before it, where no first token came in yet, the event that says so.
/// Any other delta adds no event.
pub proof fn law_one_more_delta(
    state: StreamState,
    request_id: usize,
    time: u64,
    deltas: Seq<SseDelta>,
    delta: SseDelta,
)
    ensures
        ({
            let before = deltas_events(state, request_id, time, deltas);
            let after = deltas_events(state, request_id, time, deltas.push(delta));
            let sent = state.first_token_sent || exists|i: int|
                0 <= i < deltas.len() && (#[trigger] deltas[i]).content is Some
                    && deltas[i].content->0@.len() > 0;
            &&& delta.content is None || delta.content->0@.len() == 0 ==> after == before
            &&& delta.content matches Some(content) ==> (content@.len() > 0 && sent ==> after
                == before.push(TokenEvent::TokensReceived { request_id, time, content }))
            &&& delta.content matches Some(content) ==> (content@.len() > 0 && !sent ==> after
                == before.push(TokenEvent::FirstToken { request_id, time }).push(
                TokenEvent::TokensReceived { request_id, time, content },
            ))
        }),
        deltas_events(state, request_id, time, Seq::empty()) == Seq::<TokenEvent>::empty(),
{
    let before = deltas_events(state, request_id, time, deltas);
    let after = deltas_events(state, request_id, time, deltas.push(delta));
    assert(deltas.push(delta).drop_last() =~= deltas);
    law_first_token_came_in(state, deltas);
    if delta.content is None || delta.content->0@.len() == 0 {
        assert(after =~= before);
    } else {
        let output = TokenEvent::TokensReceived { request_id, time, content: delta.content->0 };
        if after_deltas(state, deltas).first_token_sent {
            assert(after =~= before.push(output));
        } else {
            assert(after =~= before.push(TokenEvent::FirstToken { request_id, time }).push(output));
        }
    }
}

/// The event that ends a request has the number, the time, the tokens and the
/// message that it was made with.
pub proof fn law_completes(
    event: TokenEvent,
    id: usize,
    at: u64,
    completion: u32,
    prompt: u32,
    reported: bool,
    good: bool,
    message: Option<Seq<char>>,
)
    requires
        completes(event, id, at, completion, prompt, reported, good, message),
    ensures
        event is Completed,
        event->Completed_request_id == id,
        event->Completed_time == at,
        event->completion_tokens == completion,
        event->Completed_prompt_tokens == prompt,
        event->server_usage == reported,
        event->success == good,
        event->error is Some <==> message is Some,
        event->error matches Some(e) ==> message == Some(e@),
{
}

/// What the server reported goes before the local count; the output tokens
/// that it did not report are none.
pub proof fn law_tracker_totals(tracker: StreamTracker)
    ensures
        tracker.server_completion_tokens matches Some(n) ==> tracker.reported_completion() == n,
        tracker.server_completion_tokens is None ==> tracker.reported_completion() == 0,
        tracker.server_prompt_tokens matches Some(n) ==> tracker.best_prompt() == n,
        tracker.server_prompt_tokens is None ==> tracker.best_prompt() == tracker.prompt_tokens,
        tracker.state().first_token_sent == tracker.first_token_sent,
        tracker.state().completion_tokens == tracker.server_completion_tokens,
        tracker.state().prompt_tokens == tracker.server_prompt_tokens,
{
}

/// The last number of output tokens that a server reported counts in a chat,
/// and so does the last number of input tokens, each by itself; without a
/// report what was known before stays.
pub proof fn law_last_report_counts(
    known: Option<u32>,
    before: Seq<SseDelta>,
    delta: SseDelta,
    after: Seq<SseDelta>,
)
    ensures
        (forall|i: int|
            0 <= i < after.len() && (#[trigger] after[i]).usage is Some
                ==> after[i].usage->0.completion_tokens is None) ==> {
            &&& last_completion(known, after) == known
            &&& delta.usage matches Some(usage) ==> (usage.completion_tokens matches Some(n)
                ==> last_completion(known, before + seq![delta] + after) == Some(n))
        },
        (forall|i: int|
            0 <= i < after.len() && (#[trigger] after[i]).usage is Some
                ==> after[i].usage->0.prompt_tokens is None) ==> {
            &&& last_prompt(known, after) == known
            &&& delta.usage matches Some(usage) ==> (usage.prompt_tokens matches Some(n)
                ==> last_prompt(known, before + seq![delta] + after) == Some(n))
        },
    decreases after.len(),
{
    let all = before + seq![delta] + after;
    if after.len() > 0 {
        let fewer = after.drop_last();
        law_last_report_counts(known, before, delta, fewer);
        assert(all.drop_last() =~= before + seq![delta] + fewer);
        assert(after[after.len() - 1] == after.last());
        assert(forall|i: int| 0 <= i < fewer.len() ==> #[trigger] fewer[i] == after[i]);
    } else {
        assert(all.drop_last() =~= before);
    }
}

/// The pieces of a chat are the contents of the deltas that have one, in
/// order, and its text is all of them, one behind the other.
pub proof fn law_content_pieces(deltas: Seq<SseDelta>, delta: SseDelta)
    ensures
        content_pieces(deltas) == deltas.filter_map(|d: SseDelta| d.content),
        deltas_output(Seq::empty()) == Seq::<char>::empty(),
        delta.content matches Some(content) ==> deltas_output(deltas.push(delta)) == deltas_output(
            deltas,
        ) + content@,
        delta.content is None ==> deltas_output(deltas.push(delta)) == deltas_output(deltas),
    decreases deltas.len(),
{
    let content = |d: SseDelta| d.content;
    assert(deltas.push(delta).drop_last() =~= deltas);
    if deltas.len() > 0 {
        law_content_pieces(deltas.drop_last(), delta);
        assert(content_pieces(deltas) =~= deltas.filter_map(content));
    } else {
        assert(content_pieces(deltas) =~= deltas.filter_map(content));
    }
    assert(deltas_output(deltas.push(delta)) =~= deltas_output(deltas) + (match delta.content {
        Some(content) => content@,
        None => Seq::empty(),
    }));
}

/// The input rate of a chat is that of all input tokens over the time until
/// the first token; none of them count where that came at once, and there is
/// no rate without a first token.
pub proof fn law_prefill_rate(first_token: Option<u64>, prompt_tokens: u32)
    ensures
        prefill_rate(first_token, prompt_tokens) is Some <==> first_token is Some,
        prefill_rate(first_token, prompt_tokens) matches Some(rate) ==> {
            &&& rate.nanos == first_token->0
            &&& rate.nanos > 0 ==> rate.tokens == prompt_tokens
            &&& rate.nanos == 0 ==> rate.tokens == 0
        },
{
}

/// The output rate of a chat is that of all output tokens from the first to
/// the last one. There is none without output, nor where this took less than
/// a thousandth of a second; there is one where it took longer.
pub proof fn law_decode_rate(first: u64, last: u64, output_tokens: u32)
    requires
        first <= last < 1_125_899_906_842_624,
    ensures
        decode_rate(Some(first), Some(last), output_tokens) matches Some(rate) ==> rate.tokens
            == output_tokens && first + rate.nanos == last,
        output_tokens == 0 || last - first <= 999_998 ==> decode_rate(
            Some(first),
            Some(last),
            output_tokens,
        ) is None,
        output_tokens > 0 && last - first >= 1_000_002 ==> decode_rate(
            Some(first),
            Some(last),
            output_tokens,
        ) is Some,
        decode_rate(None, Some(last), output_tokens) is None,
        decode_rate(Some(first), None, output_tokens) is None,
{
    double::law_between_thousandth(first as nat, last as nat);
}

/// Where the first token came at once the threshold is exact: an answer has an
/// output rate where it took more than a million nanoseconds, and nowhere
/// else.
pub proof fn law_decode_rate_from_zero(last: u64, output_tokens: u32)
    ensures
        decode_rate(Some(0), Some(last), output_tokens) is Some <==> output_tokens > 0 && last
            > 1_000_000,
{
    double::lemma_between_zero(last as nat);
    double::law_thousandth(last as nat);
}

/// What the server reported goes before what is counted here, over the whole
/// text.
pub proof fn law_chat_totals(stream: ChatStream, local_prompt_tokens: u32)
    ensures
        stream.server_prompt_tokens matches Some(n) ==> stream.best_prompt(local_prompt_tokens) == n,
        stream.server_prompt_tokens is None ==> stream.best_prompt(local_prompt_tokens)
            == local_prompt_tokens,
        stream.server_completion_tokens matches Some(n) ==> stream.best_completion() == n,
        stream.server_completion_tokens is None && client::token_count(stream.content@) <= u32::MAX
            ==> stream.best_completion() == client::token_count(stream.content@),
{
}

/// The contents of a conversation are those of its messages, in order.
pub proof fn law_contents(messages: Seq<ChatMessage>)
    ensures
        contents(messages).len() == messages.len(),
        forall|i: int|
            0 <= i < messages.len() ==> #[trigger] contents(messages)[i] == messages[i].content@,
{
}

} // verus!

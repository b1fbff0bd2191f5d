//! Counting tokens, reading a stream of server-sent events, and turning what
//! a chat endpoint streams into events and totals.
use vstd::prelude::*;
use vstd::string::StringExecFns;
use vstd::utf8::*;
use crate::bytes;
use crate::text::{
    self, chars_stand_at, same_chars, strip_repeated_chars, to_chars, to_text, trim_chars,
};

verus! {

// ---------------------------------------------------------------------------
// Counting tokens
// ---------------------------------------------------------------------------

/// The tokens of a text in the `cl100k_base` encoding, if the tokenizer can
/// take it.
pub uninterp spec fn cl100k_tokens(text: Seq<char>) -> Option<Seq<u32>>;

/// How much each character adds to an estimate: one for ASCII, two for any
/// other.
pub open spec fn char_weight(c: char) -> nat {
    if (c as u32) < 0x80 {
        1
    } else {
        2
    }
}

/// The sum of the weights of the characters of `text`.
pub open spec fn text_weight(text: Seq<char>) -> nat
    decreases text.len(),
{
    if text.len() == 0 {
        0
    } else {
        text_weight(text.drop_last()) + char_weight(text.last())
    }
}

/// The estimated number of tokens of `text`: a token for four ASCII
/// characters, or for two others.
pub open spec fn estimated_tokens(text: Seq<char>) -> nat {
    text_weight(text) / 4
}

/// The number of tokens of `text`: what the tokenizer says, or the estimate
/// where it fails on the text.
pub open spec fn token_count(text: Seq<char>) -> nat {
    match cl100k_tokens(text) {
        Some(tokens) => tokens.len(),
        None => estimated_tokens(text),
    }
}

/// `CoreBPE::encode` with all the `special_tokens` allowed, on the tokenizer
/// that `tiktoken_rs::cl100k_base_singleton` loads once. The tokens depend on
/// the text alone, and each stands for at least one byte of it, so there are
/// never more tokens than bytes. The call fails, and gives nothing, where the
/// matcher that splits the text exceeds its limits, which depends on the text
/// alone too.
#[verifier::external_body]
fn cl100k_encode(text: &str) -> (tokens: Option<Vec<u32>>)
    ensures
        tokens is Some <==> cl100k_tokens(text@) is Some,
        tokens matches Some(t) ==> cl100k_tokens(text@) == Some(t@) && t@.len() <= encode_utf8(
            text@,
        ).len(),
{
    let bpe = tiktoken_rs::cl100k_base_singleton();
    bpe.encode(text, &bpe.special_tokens()).ok().map(|found| found.0)
}

/// Counts the tokens of `text`, and falls back to an estimate by its
/// characters where the tokenizer fails.
pub fn count_tokens(text: &str) -> (n: usize)
    ensures
        n == token_count(text@),
        n <= encode_utf8(text@).len(),
{
    match cl100k_encode(text) {
        Some(tokens) => tokens.len(),
        None => {
            proof {
                lemma_weight_at_most_bytes(text@);
            }
            estimate_tokens(text)
        },
    }
}

proof fn lemma_weight_at_most_bytes(text: Seq<char>)
    ensures
        text_weight(text) <= encode_utf8(text).len(),
    decreases text.len(),
{
    if text.len() > 0 {
        lemma_weight_at_most_bytes(text.drop_last());
        assert(text =~= text.drop_last().push(text.last()));
        bytes::lemma_encode_push(text.drop_last(), text.last());
    }
}

/// Estimates the tokens of `text` by its characters.
pub fn estimate_tokens(text: &str) -> (n: usize)
    ensures
        n == estimated_tokens(text@),
{
    let chars: Vec<char> = to_chars(text);
    let mut weight: u128 = 0;
    for i in 0..chars.len()
        invariant
            weight == text_weight(chars@.take(i as int)),
            weight <= 2 * i,
    {
        assert(chars@.take(i + 1).drop_last() =~= chars@.take(i as int));
        if (chars[i] as u32) < 0x80 {
            weight = weight + 1;
        } else {
            weight = weight + 2;
        }
    }
    assert(chars@.take(chars.len() as int) =~= chars@);
    (weight / 4) as usize
}

// ---------------------------------------------------------------------------
// Server-sent events
// ---------------------------------------------------------------------------

/// What bytes that are not UTF-8 read, with replacement characters in place
/// of what cannot be decoded.
pub uninterp spec fn utf8_repaired(bytes: Seq<u8>) -> Seq<char>;

/// What bytes read as UTF-8.
pub open spec fn utf8_text(bytes: Seq<u8>) -> Seq<char> {
    if valid_utf8(bytes) {
        decode_utf8(bytes)
    } else {
        utf8_repaired(bytes)
    }
}

/// `String::from_utf8_lossy`: valid UTF-8 is decoded, and in anything else
/// each invalid sequence gives way to a replacement character.
#[verifier::external_body]
pub(crate) fn lossy_text(bytes: &Vec<u8>) -> (s: String)
    ensures
        valid_utf8(bytes@) ==> s@ == decode_utf8(bytes@),
        !valid_utf8(bytes@) ==> s@ == utf8_repaired(bytes@),
{
    String::from_utf8_lossy(bytes).into_owned()
}

/// The payload of a line of a stream of events: what follows `data:`. Other
/// lines, empty payloads and the end marker have none.
pub open spec fn payload_of(line: Seq<char>) -> Option<Seq<char>> {
    let trimmed = text::trim(line);
    let data = text::trim(text::strip_repeated(trimmed, "data:"@));
    if text::starts_with(trimmed, "data:"@) && data.len() > 0 && data != "[DONE]"@ {
        Some(data)
    } else {
        None
    }
}

/// The payloads of lines of bytes, without the lines that have none.
pub open spec fn payloads_of(lines: Seq<Seq<u8>>) -> Seq<Seq<char>>
    decreases lines.len(),
{
    if lines.len() == 0 {
        Seq::empty()
    } else {
        let before = payloads_of(lines.drop_last());
        match payload_of(utf8_text(lines.last().push(10u8))) {
            Some(data) => before.push(data),
            None => before,
        }
    }
}

/// Reads the payload of one line.
pub fn sse_payload(line: &str) -> (data: Option<String>)
    ensures
        data is Some <==> payload_of(line@) is Some,
        data matches Some(d) ==> payload_of(line@) == Some(d@),
        forall|d: Seq<char>|
            line@ == #[trigger] ("data: "@ + d) && d.len() > 0 && !text::is_whitespace(d[0])
                && !text::is_whitespace(d.last()) && d != "[DONE]"@ ==> (data matches Some(s) && s@
                == d),
{
    proof {
        assert forall|d: Seq<char>|
            line@ == #[trigger] ("data: "@ + d) && d.len() > 0 && !text::is_whitespace(d[0])
                && !text::is_whitespace(d.last()) && d != "[DONE]"@ implies payload_of(line@)
            == Some(d) by {
            law_payload_of_a_line(d);
        }
    }
    let trimmed: Vec<char> = trim_chars(&to_chars(line));
    let prefix: Vec<char> = to_chars("data:");
    proof {
        reveal_strlit("data:");
    }
    if !chars_stand_at(&trimmed, 0, &prefix) {
        return None;
    }
    let data: Vec<char> = trim_chars(&strip_repeated_chars(&trimmed, &prefix));
    if data.len() == 0 || same_chars(&data, &to_chars("[DONE]")) {
        return None;
    }
    Some(to_text(&data))
}

/// Adds `bytes` to `buffer`, takes every complete line out of it, and returns
/// the payloads of those lines.
///
/// The buffer holds raw bytes, since a chunk may end inside a character: only
/// complete lines are decoded.
pub fn process_sse_buffer(buffer: &mut Vec<u8>, bytes: &[u8]) -> (payloads: Vec<String>)
    ensures
        final(buffer)@ == text::split_on(old(buffer)@ + bytes@, 10u8).last(),
        text::texts(payloads@) == payloads_of(text::split_on(old(buffer)@ + bytes@, 10u8).drop_last()),
{
    let ghost all = old(buffer)@ + bytes@;
    let held: usize = buffer.len();
    let mut payloads: Vec<String> = Vec::new();
    let mut line: Vec<u8> = Vec::new();
    let ghost mut done: Seq<Seq<u8>> = Seq::empty();
    assert(done.push(line@) =~= text::split_on(all.take(0), 10u8));
    assert(text::texts(payloads@) =~= payloads_of(done));
    let mut i: usize = 0;
    let mut k: usize = 0;
    while i < held || k < bytes.len()
        invariant
            held == buffer.len(),
            buffer@ == old(buffer)@,
            all == buffer@ + bytes@,
            i <= held,
            k <= bytes.len(),
            k > 0 ==> i == held,
            done.push(line@) == text::split_on(all.take(i + k), 10u8),
            text::texts(payloads@) == payloads_of(done),
        decreases held - i + bytes.len() - k,
    {
        let ghost n = i + k;
        let b: u8 = if i < held {
            buffer[i]
        } else {
            bytes[k]
        };
        if i < held {
            i = i + 1;
        } else {
            k = k + 1;
        }
        assert(b == all[n]);
        assert(all.take(n + 1).drop_last() =~= all.take(n));
        assert(done.push(line@).drop_last() =~= done);
        if b == 10u8 {
            let ghost before = line@;
            line.push(b);
            let text: String = lossy_text(&line);
            let ghost got = text::texts(payloads@);
            if let Some(data) = sse_payload(text.as_str()) {
                let ghost d = data@;
                payloads.push(data);
                assert(text::texts(payloads@) =~= got.push(d));
            }
            proof {
                assert(done.push(before).drop_last() =~= done);
                done = done.push(before);
            }
            line = Vec::new();
        } else {
            line.push(b);
        }
    }
    assert(all.take(all.len() as int) =~= all);
    assert(done.push(line@).drop_last() =~= done);
    *buffer = line;
    payloads
}

proof fn lemma_split_concat<T>(a: Seq<T>, b: Seq<T>, sep: T)
    ensures
        text::split_on(a + b, sep).drop_last() == text::split_on(a, sep).drop_last() + text::split_on(
            text::split_on(a, sep).last() + b,
            sep,
        ).drop_last(),
        text::split_on(a + b, sep).last() == text::split_on(text::split_on(a, sep).last() + b, sep).last(),
    decreases b.len(),
{
    text::lemma_split_nonempty(a, sep);
    let tail = text::split_on(a, sep).last();
    if b.len() == 0 {
        lemma_split_last_has_no_sep(a, sep);
        lemma_split_without_sep(tail, sep);
        assert(a + b =~= a);
        assert(tail + b =~= tail);
        assert(text::split_on(tail, sep).drop_last() =~= Seq::<Seq<T>>::empty());
        assert(text::split_on(a, sep).drop_last() + Seq::<Seq<T>>::empty() =~= text::split_on(
            a,
            sep,
        ).drop_last());
    } else {
        let b0 = b.drop_last();
        lemma_split_concat(a, b0, sep);
        text::lemma_split_nonempty(tail + b0, sep);
        text::lemma_split_nonempty(a + b0, sep);
        assert((a + b).drop_last() =~= a + b0);
        assert((tail + b).drop_last() =~= tail + b0);
        let x = text::split_on(a + b0, sep);
        let y = text::split_on(tail + b0, sep);
        let p = text::split_on(a, sep).drop_last();
        if b.last() == sep {
            assert(x.push(Seq::<T>::empty()).drop_last() =~= x);
            assert(y.push(Seq::<T>::empty()).drop_last() =~= y);
            assert(x =~= x.drop_last().push(x.last()));
            assert(y =~= y.drop_last().push(y.last()));
            assert(x =~= p + y);
        } else {
            assert(x.drop_last().push(x.last().push(b.last())).drop_last() =~= x.drop_last());
            assert(y.drop_last().push(y.last().push(b.last())).drop_last() =~= y.drop_last());
        }
    }
}

proof fn lemma_split_without_sep<T>(s: Seq<T>, sep: T)
    requires
        !s.contains(sep),
    ensures
        text::split_on(s, sep) == seq![s],
    decreases s.len(),
{
    if s.len() > 0 {
        assert forall|x: T| s.drop_last().contains(x) implies s.contains(x) by {
            let i = choose|i: int| 0 <= i < s.drop_last().len() && s.drop_last()[i] == x;
            assert(s[i] == x);
        }
        lemma_split_without_sep(s.drop_last(), sep);
        assert(s.contains(s.last())) by {
            assert(s[s.len() - 1] == s.last());
        }
        assert(s.drop_last().push(s.last()) =~= s);
        assert(text::split_on(s, sep) =~= seq![s]);
    } else {
        assert(s =~= Seq::<T>::empty());
    }
}

proof fn lemma_split_last_has_no_sep<T>(s: Seq<T>, sep: T)
    ensures
        !text::split_on(s, sep).last().contains(sep),
    decreases s.len(),
{
    if s.len() > 0 {
        lemma_split_last_has_no_sep(s.drop_last(), sep);
    }
}

proof fn lemma_payloads_concat(a: Seq<Seq<u8>>, b: Seq<Seq<u8>>)
    ensures
        payloads_of(a + b) == payloads_of(a) + payloads_of(b),
    decreases b.len(),
{
    if b.len() == 0 {
        assert(a + b =~= a);
        assert(payloads_of(a) + payloads_of(b) =~= payloads_of(a));
    } else {
        lemma_payloads_concat(a, b.drop_last());
        assert((a + b).drop_last() =~= a + b.drop_last());
        assert(payloads_of(a + b) =~= payloads_of(a) + payloads_of(b));
    }
}

/// Nothing is lost or torn where a stream is cut into chunks: what two chunks
/// give, one after the other, is what they give in one piece.
pub proof fn law_chunks_do_not_matter(buffer: Seq<u8>, a: Seq<u8>, b: Seq<u8>)
    ensures
        ({
            let first = text::split_on(buffer + a, 10u8);
            let second = text::split_on(first.last() + b, 10u8);
            let whole = text::split_on(buffer + (a + b), 10u8);
            &&& whole.last() == second.last()
            &&& payloads_of(whole.drop_last()) == payloads_of(first.drop_last()) + payloads_of(
                second.drop_last(),
            )
        }),
{
    assert(buffer + (a + b) =~= (buffer + a) + b);
    lemma_split_concat(buffer + a, b, 10u8);
    let first = text::split_on(buffer + a, 10u8);
    let second = text::split_on(first.last() + b, 10u8);
    lemma_payloads_concat(first.drop_last(), second.drop_last());
}

/// What a stream leaves in the buffer once all its chunks have been read.
pub open spec fn stream_rest(chunks: Seq<Seq<u8>>) -> Seq<u8>
    decreases chunks.len(),
{
    if chunks.len() == 0 {
        Seq::empty()
    } else {
        text::split_on(stream_rest(chunks.drop_last()) + chunks.last(), 10u8).last()
    }
}

/// The payloads that a stream gives, chunk after chunk.
pub open spec fn stream_payloads(chunks: Seq<Seq<u8>>) -> Seq<Seq<char>>
    decreases chunks.len(),
{
    if chunks.len() == 0 {
        Seq::empty()
    } else {
        stream_payloads(chunks.drop_last()) + payloads_of(
            text::split_on(stream_rest(chunks.drop_last()) + chunks.last(), 10u8).drop_last(),
        )
    }
}

/// All the bytes of a stream.
pub open spec fn stream_bytes(chunks: Seq<Seq<u8>>) -> Seq<u8>
    decreases chunks.len(),
{
    if chunks.len() == 0 {
        Seq::empty()
    } else {
        stream_bytes(chunks.drop_last()) + chunks.last()
    }
}

/// The payloads of lines of text.
pub open spec fn line_payloads(lines: Seq<Seq<char>>) -> Seq<Seq<char>>
    decreases lines.len(),
{
    if lines.len() == 0 {
        Seq::empty()
    } else {
        let before = line_payloads(lines.drop_last());
        match payload_of(lines.last().push('\n')) {
            Some(data) => before.push(data),
            None => before,
        }
    }
}

proof fn lemma_stream_is_its_bytes(chunks: Seq<Seq<u8>>)
    ensures
        stream_rest(chunks) == text::split_on(stream_bytes(chunks), 10u8).last(),
        stream_payloads(chunks) == payloads_of(text::split_on(stream_bytes(chunks), 10u8).drop_last()),
    decreases chunks.len(),
{
    let none = Seq::<u8>::empty();
    if chunks.len() == 0 {
        assert(text::split_on(none, 10u8).drop_last() =~= Seq::<Seq<u8>>::empty());
    } else {
        let before = stream_bytes(chunks.drop_last());
        lemma_stream_is_its_bytes(chunks.drop_last());
        law_chunks_do_not_matter(none, before, chunks.last());
        assert(none + before =~= before);
        assert(none + (before + chunks.last()) =~= before + chunks.last());
    }
}

/// The lines of the bytes of a text are the bytes of the lines of the text.
proof fn lemma_split_encoded(s: Seq<char>)
    ensures
        text::split_on(encode_utf8(s), 10u8) == text::split_on(s, '\n').map_values(
            |line: Seq<char>| encode_utf8(line),
        ),
    decreases s.len(),
{
    let enc = |line: Seq<char>| encode_utf8(line);
    if s.len() == 0 {
        assert(encode_utf8(s) =~= Seq::<u8>::empty());
        assert(text::split_on(encode_utf8(s), 10u8) =~= text::split_on(s, '\n').map_values(enc));
    } else {
        let t = s.drop_last();
        let c = s.last();
        assert(s =~= t.push(c));
        bytes::lemma_encode_push(t, c);
        lemma_split_encoded(t);
        bytes::lemma_line_feed_byte(c);
        text::lemma_split_nonempty(t, '\n');
        let eb = encode_scalar(c as u32);
        let before = text::split_on(encode_utf8(t), 10u8);
        let lines = text::split_on(t, '\n');
        lemma_split_concat(encode_utf8(t), eb, 10u8);
        text::lemma_split_nonempty(encode_utf8(t) + eb, 10u8);
        lemma_split_last_has_no_sep(encode_utf8(t), 10u8);
        let after = text::split_on(encode_utf8(s), 10u8);
        if c == '\n' {
            assert((encode_utf8(t) + eb).drop_last() =~= encode_utf8(t));
            assert(after == before.push(Seq::<u8>::empty()));
            assert(encode_utf8(Seq::<char>::empty()) =~= Seq::<u8>::empty());
            assert(after =~= text::split_on(s, '\n').map_values(enc));
        } else {
            let joined = before.last() + eb;
            assert(!joined.contains(10u8));
            lemma_split_without_sep(joined, 10u8);
            assert(text::split_on(joined, 10u8).drop_last() =~= Seq::<Seq<u8>>::empty());
            assert(after.drop_last() =~= before.drop_last());
            assert(after =~= after.drop_last().push(after.last()));
            bytes::lemma_encode_push(lines.last(), c);
            assert(after =~= text::split_on(s, '\n').map_values(enc));
        }
    }
}

proof fn lemma_encoded_payloads(lines: Seq<Seq<char>>)
    ensures
        payloads_of(lines.map_values(|line: Seq<char>| encode_utf8(line))) == line_payloads(lines),
    decreases lines.len(),
{
    let enc = |line: Seq<char>| encode_utf8(line);
    if lines.len() > 0 {
        lemma_encoded_payloads(lines.drop_last());
        assert(lines.map_values(enc).drop_last() =~= lines.drop_last().map_values(enc));
        let line = lines.last();
        bytes::lemma_encode_push(line, '\n');
        bytes::lemma_line_feed_byte('\n');
        assert(encode_utf8(line.push('\n')) =~= encode_utf8(line).push(10u8));
        encode_utf8_valid_utf8(line.push('\n'));
        encode_utf8_decode_utf8(line.push('\n'));
    }
}

/// However a stream of UTF-8 text is cut into chunks, even inside a
/// character, it gives the payloads of the lines of the text.
pub proof fn law_stream_gives_its_lines(chunks: Seq<Seq<u8>>, s: Seq<char>)
    requires
        stream_bytes(chunks) == encode_utf8(s),
    ensures
        stream_payloads(chunks) == line_payloads(text::split_on(s, '\n').drop_last()),
        stream_rest(chunks) == encode_utf8(text::split_on(s, '\n').last()),
{
    let enc = |line: Seq<char>| encode_utf8(line);
    lemma_stream_is_its_bytes(chunks);
    lemma_split_encoded(s);
    text::lemma_split_nonempty(s, '\n');
    let lines = text::split_on(s, '\n');
    lemma_encoded_payloads(lines.drop_last());
    assert(lines.map_values(enc).drop_last() =~= lines.drop_last().map_values(enc));
}

// ---------------------------------------------------------------------------
// Messages
// ---------------------------------------------------------------------------

/// Events emitted during streaming, for tracking a request as it runs.
#[derive(Debug, Clone, PartialEq, Eq)]
pub enum TokenEvent {
    /// The request has been sent and waits for its first token.
    RequestStarted {
        request_id: usize,
        start_time: u64,
        prompt_tokens: u32,
        /// The context size that was asked for, which may differ from the
        /// number of input tokens that the server counts.
        context_size: u32,
    },
    /// The first token came in: the end of the prefill.
    FirstToken { request_id: usize, time: u64 },
    /// A piece of output came in. Tokens are counted over the whole text that
    /// came in so far, since a piece may end inside a token.
    TokensReceived { request_id: usize, time: u64, content: String },
    /// The request is over.
    Completed {
        request_id: usize,
        time: u64,
        /// The completion tokens that the server reported, or 0.
        completion_tokens: u32,
        prompt_tokens: u32,
        /// Whether `completion_tokens` is what the server reported.
        server_usage: bool,
        success: bool,
        error: Option<String>,
    },
}

/// A message of a conversation.
#[derive(Debug, Clone, PartialEq, Eq)]
pub struct ChatMessage {
    pub role: String,
    pub content: String,
}

/// What is sent to a chat endpoint, but for the sampling temperature.
#[derive(Debug, Clone, PartialEq, Eq)]
pub struct ChatRequest {
    pub model: String,
    pub messages: Vec<ChatMessage>,
    pub max_tokens: u32,
    pub stream: bool,
    pub include_usage: bool,
    /// Two switches for the thinking of a model, since servers differ in the
    /// one that they read.
    pub thinking: bool,
    pub enable_thinking: bool,
}

/// One chunk of a streamed answer.
#[derive(Debug, Clone, PartialEq, Eq)]
pub struct ChatResponse {
    pub choices: Option<Vec<Choice>>,
    pub usage: Option<Usage>,
}

/// One of the alternatives in a chunk.
#[derive(Debug, Clone, PartialEq, Eq)]
pub struct Choice {
    pub delta: Option<DeltaMessage>,
}

/// What a chunk adds to the answer.
#[derive(Debug, Clone, PartialEq, Eq)]
pub struct DeltaMessage {
    pub content: Option<String>,
    pub reasoning_content: Option<String>,
}

/// The token counts that a server reports.
#[derive(Debug, Clone, Copy, PartialEq, Eq, Structural)]
pub struct Usage {
    pub prompt_tokens: Option<u32>,
    pub completion_tokens: Option<u32>,
    pub total_tokens: Option<u32>,
}

/// What one event of a stream adds.
#[derive(Debug, Clone, PartialEq, Eq)]
pub struct SseDelta {
    pub content: Option<String>,
    pub usage: Option<Usage>,
}

/// The models that an endpoint offers.
#[derive(Debug, Clone, PartialEq, Eq)]
pub struct ModelsResponse {
    pub data: Vec<ModelEntry>,
}

/// A model that an endpoint offers.
#[derive(Debug, Clone, PartialEq, Eq)]
pub struct ModelEntry {
    pub id: String,
}

/// A client of an endpoint: where requests go, and the key that they carry.
#[derive(Debug, Clone, PartialEq, Eq)]
pub struct ApiClient {
    pub base_url: String,
    pub api_key: String,
}

impl ApiClient {
    /// A client of the endpoint at `base_url`.
    pub fn new(base_url: String, api_key: String) -> (client: Self)
        ensures
            client.base_url == base_url,
            client.api_key == api_key,
    {
        ApiClient { base_url, api_key }
    }

    /// Where chat requests go.
    pub fn chat_url(&self) -> (url: String)
        ensures
            url@ == self.base_url@ + "/chat/completions"@,
    {
        self.base_url.clone().concat("/chat/completions")
    }

    /// Where the list of models is.
    pub fn models_url(&self) -> (url: String)
        ensures
            url@ == self.base_url@ + "/models"@,
    {
        self.base_url.clone().concat("/models")
    }

    /// The value of the header that carries the key.
    pub fn authorization(&self) -> (value: String)
        ensures
            value@ == "Bearer "@ + self.api_key@,
    {
        "Bearer ".to_owned().concat(self.api_key.as_str())
    }
}

/// A streaming request that asks for usage counts, with thinking on or off.
pub fn chat_request(
    model: &str,
    messages: Vec<ChatMessage>,
    max_tokens: u32,
    enable_thinking: bool,
) -> (request: ChatRequest)
    ensures
        request.model@ == model@,
        request.messages == messages,
        request.max_tokens == max_tokens,
        request.stream && request.include_usage,
        request.thinking == enable_thinking && request.enable_thinking == enable_thinking,
{
    ChatRequest {
        model: model.to_owned(),
        messages,
        max_tokens,
        stream: true,
        include_usage: true,
        thinking: enable_thinking,
        enable_thinking,
    }
}

/// A conversation of one message of the user.
pub fn user_prompt(prompt: &str) -> (messages: Vec<ChatMessage>)
    ensures
        messages.len() == 1,
        messages[0].role@ == "user"@,
        messages[0].content@ == prompt@,
{
    let mut messages: Vec<ChatMessage> = Vec::new();
    messages.push(ChatMessage { role: "user".to_owned(), content: prompt.to_owned() });
    messages
}

/// The first model of a list, which serves where none is configured. There is
/// none if the list could not be had or is empty.
pub fn first_model(models: Option<ModelsResponse>) -> (id: Option<String>)
    ensures
        id == (match models {
            Some(m) if m.data.len() > 0 => Some(m.data[0].id),
            _ => None,
        }),
{
    match models {
        Some(m) => {
            let mut data: Vec<ModelEntry> = m.data;
            if data.len() > 0 {
                let first: ModelEntry = data.swap_remove(0);
                Some(first.id)
            } else {
                None
            }
        },
        None => None,
    }
}

/// The delta of the first choice of a chunk.
pub open spec fn first_delta(response: ChatResponse) -> Option<DeltaMessage> {
    match response.choices {
        Some(choices) if choices.len() > 0 => choices[0].delta,
        _ => None,
    }
}

/// What a chunk adds to the answer: the content of its first choice, or else
/// what that choice adds to the reasoning.
pub open spec fn delta_of(response: ChatResponse) -> SseDelta {
    SseDelta {
        content: match first_delta(response) {
            Some(delta) => if delta.content is Some {
                delta.content
            } else {
                delta.reasoning_content
            },
            None => None,
        },
        usage: response.usage,
    }
}

/// Takes what a chunk adds to the answer.
pub fn response_delta(response: ChatResponse) -> (delta: SseDelta)
    ensures
        delta == delta_of(response),
{
    let usage: Option<Usage> = response.usage;
    let content: Option<String> = match response.choices {
        Some(c) => {
            let mut choices: Vec<Choice> = c;
            if choices.len() > 0 {
                let first: Choice = choices.swap_remove(0);
                match first.delta {
                    Some(d) => match d.content {
                        Some(content) => Some(content),
                        None => d.reasoning_content,
                    },
                    None => None,
                }
            } else {
                None
            }
        },
        None => None,
    };
    SseDelta { content, usage }
}

/// What the payloads of a stream add, without those that could not be read.
pub open spec fn deltas_of(responses: Seq<Option<ChatResponse>>) -> Seq<SseDelta>
    decreases responses.len(),
{
    if responses.len() == 0 {
        Seq::empty()
    } else {
        let before = deltas_of(responses.drop_last());
        match responses.last() {
            Some(response) => before.push(delta_of(response)),
            None => before,
        }
    }
}

/// Takes what each payload adds; `None` stands for one that could not be
/// read.
pub fn response_deltas(responses: Vec<Option<ChatResponse>>) -> (deltas: Vec<SseDelta>)
    ensures
        deltas@ == deltas_of(responses@),
{
    let mut deltas: Vec<SseDelta> = Vec::new();
    for r in it: responses
        invariant
            it.seq() == responses@,
            deltas@ == deltas_of(responses@.take(it.index() as int)),
    {
        assert(responses@.take(it.index() + 1).drop_last() =~= responses@.take(it.index() as int));
        if let Some(response) = r {
            deltas.push(response_delta(response));
        }
    }
    assert(responses@.take(responses@.len() as int) =~= responses@);
    deltas
}

// ---------------------------------------------------------------------------
// Laws
// ---------------------------------------------------------------------------

/// Where the tokenizer takes a text, its tokens are counted; where it does
/// not, four ASCII characters make a token, and so do two others.
pub proof fn law_token_count(text: Seq<char>)
    ensures
        cl100k_tokens(text) matches Some(tokens) ==> token_count(text) == tokens.len(),
        cl100k_tokens(text) is None ==> token_count(text) == (text.filter(
            |c: char| (c as u32) < 128,
        ).len() + 2 * text.filter(|c: char| (c as u32) >= 128).len()) / 4,
{
    lemma_weight(text);
}

proof fn lemma_weight(text: Seq<char>)
    ensures
        text_weight(text) == text.filter(|c: char| (c as u32) < 128).len() + 2 * text.filter(
            |c: char| (c as u32) >= 128,
        ).len(),
    decreases text.len(),
{
    reveal(Seq::filter);
    if text.len() > 0 {
        lemma_weight(text.drop_last());
    }
}

/// The weights of the parts of a text add up to that of the text, so the
/// estimates of two parts are at most one token short of that of the whole.
pub proof fn law_estimate_adds_up(a: Seq<char>, b: Seq<char>)
    ensures
        text_weight(a + b) == text_weight(a) + text_weight(b),
        estimated_tokens(a) + estimated_tokens(b) <= estimated_tokens(a + b)
            <= estimated_tokens(a) + estimated_tokens(b) + 1,
    decreases b.len(),
{
    if b.len() == 0 {
        assert(a + b =~= a);
    } else {
        law_estimate_adds_up(a, b.drop_last());
        assert((a + b).drop_last() =~= a + b.drop_last());
    }
}

/// Bytes that are not UTF-8 are repaired, and all others are decoded.
pub proof fn law_utf8_is_repaired(bytes: Seq<u8>)
    ensures
        !valid_utf8(bytes) ==> utf8_text(bytes) == utf8_repaired(bytes),
        valid_utf8(bytes) ==> encode_utf8(utf8_text(bytes)) == bytes,
{
    if valid_utf8(bytes) {
        decode_utf8_encode_utf8(bytes);
    }
}

/// The bytes of a text read as that text.
pub proof fn law_utf8_reads_back(s: Seq<char>)
    ensures
        utf8_text(encode_utf8(s)) == s,
{
    encode_utf8_valid_utf8(s);
    encode_utf8_decode_utf8(s);
}

proof fn lemma_data_mark()
    ensures
        "data:"@.len() == 5,
        "data:"@[0] == 'd',
        "data:"@[4] == ':',
        !text::is_whitespace('d'),
        !text::is_whitespace(':'),
        "data: "@ == "data:"@ + seq![' '],
        "[DONE]"@.len() == 6,
        "[DONE]"@[0] == '[',
        "[DONE]"@[5] == ']',
        "\n"@ == seq!['\n'],
        "\r\n"@ == seq!['\r', '\n'],
{
    reveal_strlit("data:");
    reveal_strlit("data: ");
    reveal_strlit("[DONE]");
    reveal_strlit("\n");
    reveal_strlit("\r\n");
    assert("data: "@ =~= "data:"@ + seq![' ']);
}

proof fn lemma_stripped(gap: Seq<char>, data: Seq<char>)
    requires
        forall|i: int| 0 <= i < gap.len() ==> text::is_whitespace(#[trigger] gap[i]),
        gap.len() > 0 || data.len() < 5 || data.take(5) != "data:"@,
    ensures
        text::strip_repeated("data:"@ + gap + data, "data:"@) == gap + data,
{
    lemma_data_mark();
    let rest = gap + data;
    assert("data:"@ + gap + data =~= "data:"@ + rest);
    if gap.len() > 0 {
        assert(rest[0] == gap[0]);
        if rest.len() >= 5 {
            assert(rest.take(5)[0] == gap[0]);
        }
    } else {
        assert(rest =~= data);
    }
    text::law_strip_repeated(rest, "data:"@);
}

/// Whatever text follows the mark of a data line is its payload, of any
/// length and with any white space around the line or behind the mark, unless
/// it is empty or the end marker.
pub proof fn law_payload(before: Seq<char>, gap: Seq<char>, data: Seq<char>, after: Seq<char>)
    requires
        forall|i: int| 0 <= i < before.len() ==> text::is_whitespace(#[trigger] before[i]),
        forall|i: int| 0 <= i < gap.len() ==> text::is_whitespace(#[trigger] gap[i]),
        forall|i: int| 0 <= i < after.len() ==> text::is_whitespace(#[trigger] after[i]),
        data.len() > 0,
        !text::is_whitespace(data[0]),
        !text::is_whitespace(data.last()),
        gap.len() > 0 || data.len() < 5 || data.take(5) != "data:"@,
    ensures
        data != "[DONE]"@ ==> payload_of(before + ("data:"@ + gap + data) + after) == Some(data),
        data == "[DONE]"@ ==> payload_of(before + ("data:"@ + gap + data) + after) is None,
{
    lemma_data_mark();
    let inner = "data:"@ + gap + data;
    assert(inner[0] == 'd');
    assert(inner.last() == data.last());
    text::law_trim(before, inner, after);
    assert(inner =~= "data:"@ + (gap + data));
    text::law_starts_with(inner, "data:"@, gap + data);
    lemma_stripped(gap, data);
    text::law_trim(gap, data, Seq::empty());
    assert(text::trim(text::strip_repeated(inner, "data:"@)) == data);
}

/// A line of a stream that holds a text behind the mark and a space has that
/// text as its payload, however the line ends.
pub proof fn law_payload_of_a_line(data: Seq<char>)
    requires
        data.len() > 0,
        !text::is_whitespace(data[0]),
        !text::is_whitespace(data.last()),
        data != "[DONE]"@,
    ensures
        payload_of("data: "@ + data) == Some(data),
        payload_of("data: "@ + data + "\n"@) == Some(data),
        payload_of("data: "@ + data + "\r\n"@) == Some(data),
        data.len() < 5 || data.take(5) != "data:"@ ==> payload_of("data:"@ + data) == Some(data),
{
    lemma_data_mark();
    let none = Seq::<char>::empty();
    let gap = seq![' '];
    law_payload(none, gap, data, none);
    assert(none + ("data:"@ + gap + data) + none =~= "data: "@ + data);
    law_payload(none, gap, data, "\n"@);
    assert(none + ("data:"@ + gap + data) + "\n"@ =~= "data: "@ + data + "\n"@);
    law_payload(none, gap, data, "\r\n"@);
    assert(none + ("data:"@ + gap + data) + "\r\n"@ =~= "data: "@ + data + "\r\n"@);
    if data.len() < 5 || data.take(5) != "data:"@ {
        law_payload(none, none, data, none);
        assert(none + ("data:"@ + none + data) + none =~= "data:"@ + data);
    }
}

/// A mark that is repeated counts once.
pub proof fn law_repeated_mark(data: Seq<char>)
    requires
        data.len() > 0,
        !text::is_whitespace(data.last()),
    ensures
        payload_of("data:"@ + ("data:"@ + data)) == payload_of("data:"@ + data),
{
    lemma_data_mark();
    let none = Seq::<char>::empty();
    let once = "data:"@ + data;
    let twice = "data:"@ + once;
    assert(once.last() == data.last() && twice.last() == data.last());
    text::law_trim(none, once, none);
    text::law_trim(none, twice, none);
    text::law_starts_with(once, "data:"@, data);
    text::law_starts_with(twice, "data:"@, once);
    text::law_strip_repeated(once, "data:"@);
}

/// A line that does not start with the mark has no payload, and neither has
/// one with nothing but white space behind the mark.
pub proof fn law_no_payload(
    before: Seq<char>,
    inner: Seq<char>,
    after: Seq<char>,
)
    requires
        forall|i: int| 0 <= i < before.len() ==> text::is_whitespace(#[trigger] before[i]),
        forall|i: int| 0 <= i < after.len() ==> text::is_whitespace(#[trigger] after[i]),
        inner.len() > 0 ==> !text::is_whitespace(inner[0]) && !text::is_whitespace(inner.last()),
    ensures
        inner.len() < 5 || inner.take(5) != "data:"@ ==> payload_of(before + inner + after) is None,
        payload_of(before + "data:"@ + after) is None,
{
    lemma_data_mark();
    let none = Seq::<char>::empty();
    text::law_trim(before, inner, after);
    if inner.len() >= 5 {
        assert(inner.subrange(0, 5) =~= inner.take(5));
    }
    let mark = "data:"@;
    text::law_trim(before, mark, after);
    text::law_starts_with(mark, mark, none);
    text::law_strip_repeated(none, mark);
    assert(mark + none =~= mark);
    text::law_trim(none, none, none);
}

/// The bytes of a line without a line feed have no line feed among them.
proof fn lemma_no_line_feed(line: Seq<char>)
    requires
        !line.contains('\n'),
    ensures
        !encode_utf8(line).contains(10u8),
    decreases line.len(),
{
    if line.len() > 0 {
        let fewer = line.drop_last();
        assert(!fewer.contains('\n')) by {
            if fewer.contains('\n') {
                let i = choose|i: int| 0 <= i < fewer.len() && fewer[i] == '\n';
                assert(line[i] == '\n');
            }
        }
        lemma_no_line_feed(fewer);
        assert(line[line.len() - 1] == line.last());
        bytes::lemma_line_feed_byte(line.last());
        bytes::lemma_encode_push(fewer, line.last());
        assert(fewer.push(line.last()) =~= line);
        let a = encode_utf8(fewer);
        let b = encode_scalar(line.last() as u32);
        if (a + b).contains(10u8) {
            let i = choose|i: int| 0 <= i < (a + b).len() && (a + b)[i] == 10u8;
            if i < a.len() {
                assert(a[i] == 10u8);
            } else {
                assert(b[i - a.len()] == 10u8);
            }
        }
    }
}

/// When the bytes of a whole line come in, its payload comes out before those
/// of what follows, and what follows is read as if the line had not been
/// there.
pub proof fn law_line_comes_in(line: Seq<char>, more: Seq<u8>)
    requires
        !line.contains('\n'),
    ensures
        ({
            let all = text::split_on(encode_utf8(line + "\n"@) + more, 10u8);
            let others = text::split_on(more, 10u8);
            &&& all.last() == others.last()
            &&& payload_of(line + "\n"@) matches Some(data) ==> payloads_of(all.drop_last()) == seq![
                data,
            ] + payloads_of(others.drop_last())
            &&& payload_of(line + "\n"@) is None ==> payloads_of(all.drop_last()) == payloads_of(
                others.drop_last(),
            )
        }),
{
    lemma_data_mark();
    let first = encode_utf8(line);
    let others = text::split_on(more, 10u8);
    lemma_no_line_feed(line);
    bytes::lemma_encode_push(line, '\n');
    bytes::lemma_line_feed_byte('\n');
    assert(line + "\n"@ =~= line.push('\n'));
    assert(encode_utf8(line + "\n"@) + more =~= first + seq![10u8] + more);
    text::law_split(first, 10u8, more);
    text::lemma_split_nonempty(more, 10u8);
    let all = seq![first] + others;
    assert(all.drop_last() =~= seq![first] + others.drop_last());
    lemma_payloads_concat(seq![first], others.drop_last());
    assert(seq![first].drop_last() =~= Seq::<Seq<u8>>::empty());
    assert(payloads_of(seq![first].drop_last()) =~= Seq::<Seq<char>>::empty());
    assert(first.push(10u8) =~= encode_utf8(line.push('\n')));
    law_utf8_reads_back(line.push('\n'));
    match payload_of(line.push('\n')) {
        Some(data) => {
            assert(payloads_of(seq![first]) =~= seq![data]);
        },
        None => {
            assert(payloads_of(seq![first]) =~= Seq::<Seq<char>>::empty());
            assert(Seq::<Seq<char>>::empty() + payloads_of(others.drop_last()) =~= payloads_of(
                others.drop_last(),
            ));
        },
    }
}

/// When the bytes of a data line come in, the text behind its mark comes out
/// first, whatever follows; what does not end in a line feed is kept back.
pub proof fn law_data_comes_in(data: Seq<char>, more: Seq<u8>)
    requires
        data.len() > 0,
        !text::is_whitespace(data[0]),
        !text::is_whitespace(data.last()),
        !data.contains('\n'),
        data != "[DONE]"@,
    ensures
        payloads_of(
            text::split_on(encode_utf8("data: "@ + data + "\n"@) + more, 10u8).drop_last(),
        ) == seq![data] + payloads_of(text::split_on(more, 10u8).drop_last()),
        !more.contains(10u8) ==> text::split_on(more, 10u8).last() == more && payloads_of(
            text::split_on(more, 10u8).drop_last(),
        ) == Seq::<Seq<char>>::empty(),
{
    lemma_data_mark();
    let line = "data: "@ + data;
    reveal_strlit("data: ");
    assert(!line.contains('\n')) by {
        if line.contains('\n') {
            let i = choose|i: int| 0 <= i < line.len() && line[i] == '\n';
            assert(i >= 6);
            assert(data[i - 6] == '\n');
        }
    }
    law_payload_of_a_line(data);
    law_line_comes_in(line, more);
    if !more.contains(10u8) {
        text::law_split(more, 10u8, more);
        assert(seq![more].drop_last() =~= Seq::<Seq<u8>>::empty());
    }
}

/// The text of a chunk is the content of its first choice, or the reasoning
/// of that choice where it has no content; what other choices hold does not
/// matter. Its usage is that of the chunk.
pub proof fn law_delta(response: ChatResponse, choices: Vec<Choice>)
    ensures
        delta_of(response).usage == response.usage,
        response.choices is None ==> delta_of(response).content is None,
        response.choices == Some(choices) ==> {
            &&& choices@.len() == 0 || choices@[0].delta is None ==> delta_of(response).content is None
            &&& choices@.len() > 0 ==> (choices@[0].delta matches Some(d) ==> {
                &&& d.content is Some ==> delta_of(response).content == d.content
                &&& d.content is None ==> delta_of(response).content == d.reasoning_content
            })
        },
{
}

/// A chunk that could not be read adds nothing, wherever it stands; every
/// other one adds what it holds, in order.
pub proof fn law_deltas(
    before: Seq<Option<ChatResponse>>,
    response: ChatResponse,
    after: Seq<Option<ChatResponse>>,
)
    ensures
        deltas_of(before + seq![None] + after) == deltas_of(before) + deltas_of(after),
        deltas_of(before + seq![Some(response)] + after) == deltas_of(before) + seq![
            delta_of(response),
        ] + deltas_of(after),
        deltas_of(Seq::empty()) == Seq::<SseDelta>::empty(),
    decreases after.len(),
{
    let a = before + seq![None] + after;
    let b = before + seq![Some(response)] + after;
    if after.len() == 0 {
        assert(a.drop_last() =~= before);
        assert(b.drop_last() =~= before);
        assert(deltas_of(a) =~= deltas_of(before) + deltas_of(after));
        assert(deltas_of(b) =~= deltas_of(before) + seq![delta_of(response)] + deltas_of(after));
    } else {
        law_deltas(before, response, after.drop_last());
        assert(a.drop_last() =~= before + seq![None] + after.drop_last());
        assert(b.drop_last() =~= before + seq![Some(response)] + after.drop_last());
        assert(deltas_of(a) =~= deltas_of(before) + deltas_of(after));
        assert(deltas_of(b) =~= deltas_of(before) + seq![delta_of(response)] + deltas_of(after));
    }
}

/// Four ASCII characters make an estimated token, and so do two others.
pub proof fn law_estimate(text: Seq<char>)
    ensures
        estimated_tokens(text) == (text.filter(|c: char| (c as u32) < 128).len() + 2 * text.filter(
            |c: char| (c as u32) >= 128,
        ).len()) / 4,
{
    lemma_weight(text);
}

} // verus!

//! Test plans, and the prompts that are sent.
use vstd::prelude::*;
use vstd::string::StringExecFns;
use vstd::arithmetic::div_mod::*;
use rand::Rng;
use crate::bytes;
use crate::client::{self, count_tokens};
use crate::double::{self, scale};
use crate::number::{self, hex_text, parse_u32};
use crate::text::{self, split_chars, to_chars, trim_text};

verus! {

// ---------------------------------------------------------------------------
// Context sizes
// ---------------------------------------------------------------------------

/// The number of 32 bits that `s` writes, or `default`.
pub open spec fn number_or(s: Seq<char>, default: u32) -> u32 {
    match number::parse_unsigned(s, u32::MAX as nat) {
        Some(n) => n as u32,
        None => default,
    }
}

/// The numbers `start`, `start + step` and so on, up to `end`.
pub open spec fn steps(start: u32, step: u32, end: u32) -> Seq<u32> {
    if start > end {
        Seq::empty()
    } else {
        Seq::new(
            ((end - start) / step as int + 1) as nat,
            |k: int| (start + k * step) as u32,
        )
    }
}

/// Whether `input` is a range `start:step:end` that does not advance.
pub open spec fn stands_still(input: Seq<char>) -> bool {
    let parts = text::split_on(input, ':');
    parts.len() == 3 && number_or(parts[1], 1024) == 0 && number_or(parts[0], 1024) <= number_or(
        parts[2],
        16384,
    )
}

/// The context sizes that `input` asks for: those of a range
/// `start:step:end`, or else a single one. What cannot be read as a number
/// stands for 1024, and for 16384 as an end.
pub open spec fn context_sizes(input: Seq<char>) -> Seq<u32> {
    let parts = text::split_on(input, ':');
    if parts.len() == 3 {
        steps(
            number_or(parts[0], 1024),
            number_or(parts[1], 1024),
            number_or(parts[2], 16384),
        )
    } else {
        seq![number_or(input, 1024)]
    }
}

fn read_number(s: &Vec<char>, default: u32) -> (n: u32)
    ensures
        n == number_or(s@, default),
{
    match parse_u32(s) {
        Some(n) => n,
        None => default,
    }
}

/// Whether `input` is a range that does not advance, for which there is no
/// list of context sizes.
pub fn never_advances(input: &str) -> (yes: bool)
    ensures
        yes == stands_still(input@),
{
    let parts: Vec<Vec<char>> = split_chars(&to_chars(input), ':');
    let ghost all = text::char_lists(parts@);
    if parts.len() == 3 {
        assert(all[0] == parts@[0]@ && all[1] == parts@[1]@ && all[2] == parts@[2]@);
        let start: u32 = read_number(&parts[0], 1024);
        let step: u32 = read_number(&parts[1], 1024);
        let end: u32 = read_number(&parts[2], 16384);
        step == 0 && start <= end
    } else {
        false
    }
}

/// Reads context sizes: a single number, or a range `start:step:end`.
pub fn parse_step_format(input: &str) -> (values: Vec<u32>)
    requires
        !stands_still(input@),
    ensures
        values@ == context_sizes(input@),
{
    let chars: Vec<char> = to_chars(input);
    let parts: Vec<Vec<char>> = split_chars(&chars, ':');
    let ghost all = text::char_lists(parts@);
    let mut values: Vec<u32> = Vec::new();
    if parts.len() != 3 {
        values.push(read_number(&chars, 1024));
        assert(values@ =~= context_sizes(input@));
        return values;
    }
    assert(all[0] == parts@[0]@ && all[1] == parts@[1]@ && all[2] == parts@[2]@);
    let start: u32 = read_number(&parts[0], 1024);
    let step: u32 = read_number(&parts[1], 1024);
    let end: u32 = read_number(&parts[2], 16384);
    let mut current: u64 = start as u64;
    let ghost mut k: int = 0;
    while current <= end as u64
        invariant
            start <= end ==> step > 0,
            k == values.len(),
            current == start + k * step,
            k > 0 ==> start + (k - 1) * step <= end,
            forall|j: int| 0 <= j < k ==> #[trigger] values@[j] == (start + j * step) as u32,
        decreases end + step - current,
    {
        values.push(current as u32);
        current = current + step as u64;
        proof {
            assert((k + 1) * step == k * step + step) by (nonlinear_arith);
            k = k + 1;
        }
    }
    proof {
        if start <= end {
            let q = k - 1;
            let r = end - start - q * step;
            assert(k * step == q * step + step) by (nonlinear_arith)
                requires
                    q == k - 1,
            ;
            assert(k > 0);
            lemma_fundamental_div_mod_converse(end - start, step as int, q, r);
        }
    }
    assert(values@ =~= context_sizes(input@));
    values
}

/// A range starts at its start, goes on by its step, and ends at the last
/// number that is not behind its end.
pub proof fn law_range(start: u32, step: u32, end: u32)
    requires
        start <= end,
        step > 0,
    ensures
        ({
            let all = steps(start, step, end);
            &&& all.len() > 0
            &&& all[0] == start
            &&& forall|k: int| 0 <= k < all.len() ==> #[trigger] all[k] == start + k * step
            &&& all.last() <= end < all.last() + step
        }),
{
    let all = steps(start, step, end);
    let n = (end - start) / step as int;
    lemma_fundamental_div_mod(end - start, step as int);
    assert(step * n == n * step) by (nonlinear_arith);
    assert forall|k: int| 0 <= k < all.len() implies #[trigger] all[k] == start + k * step by {
        assert(0 <= k * step <= n * step) by (nonlinear_arith)
            requires
                0 <= k <= n,
                step > 0,
        ;
    }
    assert(n >= 0) by (nonlinear_arith)
        requires
            end - start == step * n + (end - start) % step as int,
            0 <= (end - start) % (step as int) < step,
            end >= start,
    ;
    assert(all[0] == start + 0 * step);
    assert(all.last() == start + n * step);
}

// ---------------------------------------------------------------------------
// The order of requests
// ---------------------------------------------------------------------------

/// A request that waits to be sent.
#[derive(Debug, Clone, PartialEq, Eq)]
pub struct RequestSpec {
    pub request_id: usize,
    pub context_size: u32,
    pub prompt: Option<String>,
}

/// Lists all the requests of a test in the order in which they are sent: all
/// those of one context size, then all those of the next.
pub fn plan_requests(
    context_sizes: &Vec<u32>,
    concurrent: usize,
    custom_prompt: &Option<String>,
) -> (plan: Vec<RequestSpec>)
    requires
        context_sizes.len() * concurrent <= usize::MAX,
    ensures
        plan.len() == context_sizes.len() * concurrent,
        forall|i: int|
            0 <= i < plan.len() ==> {
                &&& (#[trigger] plan[i]).request_id == i
                &&& plan[i].context_size == context_sizes[i / concurrent as int]
                &&& text::opt_text(plan[i].prompt) == text::opt_text(*custom_prompt)
            },
{
    let mut plan: Vec<RequestSpec> = Vec::new();
    assert(0 * concurrent == 0) by (nonlinear_arith);
    for c in 0..context_sizes.len()
        invariant
            context_sizes.len() * concurrent <= usize::MAX,
            plan.len() == c * concurrent,
            forall|i: int|
                0 <= i < plan.len() ==> {
                    &&& (#[trigger] plan[i]).request_id == i
                    &&& plan[i].context_size == context_sizes[i / concurrent as int]
                    &&& text::opt_text(plan[i].prompt) == text::opt_text(*custom_prompt)
                },
    {
        assert((c + 1) * concurrent == c * concurrent + concurrent) by (nonlinear_arith);
        assert((c + 1) * concurrent <= context_sizes.len() * concurrent) by (nonlinear_arith)
            requires
                c + 1 <= context_sizes.len(),
        ;
        for k in 0..concurrent
            invariant
                c < context_sizes.len(),
                c * concurrent + concurrent <= usize::MAX,
                plan.len() == c * concurrent + k,
                forall|i: int|
                    0 <= i < plan.len() ==> {
                        &&& (#[trigger] plan[i]).request_id == i
                        &&& plan[i].context_size == context_sizes[i / concurrent as int]
                        &&& text::opt_text(plan[i].prompt) == text::opt_text(*custom_prompt)
                    },
        {
            let prompt: Option<String> = match custom_prompt {
                Some(p) => Some(p.clone()),
                None => None,
            };
            let request_id: usize = plan.len();
            proof {
                lemma_fundamental_div_mod_converse(
                    request_id as int,
                    concurrent as int,
                    c as int,
                    k as int,
                );
            }
            plan.push(RequestSpec { request_id, context_size: context_sizes[c], prompt });
        }
    }
    plan
}

/// What the loop that shows a running test found when it looked for events.
#[derive(Debug, Clone, Copy, PartialEq, Eq, Structural)]
pub enum Poll {
    /// The user asked to stop.
    Stopped,
    /// An event came in.
    Event,
    /// Every request is over.
    Closed,
    /// Nothing came in for a while.
    Timeout,
}

/// What the loop does next.
#[derive(Debug, Clone, Copy, PartialEq, Eq, Structural)]
pub struct LoopStep {
    /// Take the events that wait.
    pub drain: bool,
    /// Give running requests a moment to report that they were interrupted,
    /// and take those events too.
    pub linger: bool,
    /// Advance the display.
    pub tick: bool,
    /// Leave the loop.
    pub done: bool,
}

/// Decides what the loop that shows a running test does next: it leaves when
/// the user asks to stop, which it looks at first, or when every request is
/// over.
pub fn next_step(poll: Poll) -> (step: LoopStep)
    ensures
        step.drain == (poll is Stopped || poll is Event),
        step.linger == (poll is Stopped),
        step.tick == (poll !is Stopped),
        step.done == (poll is Stopped || poll is Closed),
{
    match poll {
        Poll::Stopped => LoopStep { drain: true, linger: true, tick: false, done: true },
        Poll::Event => LoopStep { drain: true, linger: false, tick: true, done: false },
        Poll::Closed => LoopStep { drain: false, linger: false, tick: true, done: true },
        Poll::Timeout => LoopStep { drain: false, linger: false, tick: true, done: false },
    }
}

// ---------------------------------------------------------------------------
// Noise
// ---------------------------------------------------------------------------

/// How many words noise is made of.
pub const POOL_SIZE: usize = 52;

/// How many words at the end of a draft are counted to correct its length.
pub const SAMPLE_SIZE: usize = 200;

/// The words that noise is made of.
pub open spec fn pool() -> Seq<Seq<char>> {
    seq![
        "one"@, "two"@, "three"@, "four"@, "five"@, "six"@, "seven"@, "eight"@,
        "nine"@, "ten"@, "the"@, "is"@, "at"@, "we"@, "be"@, "to"@,
        "of"@, "in"@, "it"@, "on"@, "that"@, "this"@, "a"@, "an"@,
        "or"@, "and"@, "but"@, "for"@, "not"@, "with"@, "as"@, "can"@,
        "will"@, "have"@, "has"@, "had"@, "were"@, "was"@, "are"@, "been"@,
        "being"@, "do"@, "does"@, "did"@, "made"@, "from"@, "which"@, "their"@,
        "they"@, "them"@, "than"@, "then"@,
    ]
}

/// The cost of a word in tokens: that of the word after a space, and at least
/// one.
pub open spec fn word_cost(word: Seq<char>) -> nat {
    let n = client::token_count(" "@ + word);
    if n > 1 {
        n
    } else {
        1
    }
}

/// The cost of a list of words, given by their places in the pool.
pub open spec fn cost_of(picks: Seq<usize>) -> nat
    decreases picks.len(),
{
    if picks.len() == 0 {
        0
    } else {
        cost_of(picks.drop_last()) + word_cost(pool()[picks.last() as int])
    }
}

/// Whether all the places are in the pool.
pub open spec fn in_pool(picks: Seq<usize>) -> bool {
    forall|i: int| 0 <= i < picks.len() ==> #[trigger] picks[i] < POOL_SIZE
}

/// The words at some places of the pool, with a space between any two.
pub open spec fn phrase(picks: Seq<usize>) -> Seq<char> {
    text::join(Seq::new(picks.len(), |i: int| pool()[picks[i] as int]), " "@)
}

/// Whether words were drawn until their cost reached `target`, and no
/// further.
pub open spec fn drafted(picks: Seq<usize>, target: nat) -> bool {
    &&& in_pool(picks)
    &&& cost_of(picks) >= target
    &&& picks.len() > 0 ==> cost_of(picks.drop_last()) < target
}

/// How many words at the end of a draft are counted.
pub open spec fn sample_size(target: nat) -> nat {
    if target < SAMPLE_SIZE {
        target
    } else {
        SAMPLE_SIZE as nat
    }
}

/// The words at the end of a draft that are counted.
pub open spec fn sample(picks: Seq<usize>, target: nat) -> Seq<usize> {
    picks.skip(picks.len() - sample_size(target))
}

/// The length of a draft in tokens: its cost, times the ratio of what the words
/// at its end really take and of their cost, in double precision. A draft that is no longer than the words that would
/// be counted is taken to have the length that it was meant to have.
pub open spec fn corrected(picks: Seq<usize>, target: nat) -> nat {
    if target == 0 || picks.len() <= sample_size(target) {
        target
    } else {
        let end = sample(picks, target);
        let total = double::scaled(
            cost_of(picks),
            client::token_count(phrase(end)),
            cost_of(end),
        );
        if total > usize::MAX {
            usize::MAX as nat
        } else {
            total
        }
    }
}

/// How many words a draft lacks.
pub open spec fn lacking(picks: Seq<usize>, target: nat) -> nat {
    if corrected(picks, target) < target {
        (target - corrected(picks, target)) as nat
    } else {
        0
    }
}

/// A draft without the words that it has too many, of which the first one is
/// always kept.
pub open spec fn shortened(picks: Seq<usize>, target: nat) -> Seq<usize> {
    let total = corrected(picks, target);
    if total <= target {
        picks
    } else if total - target >= picks.len() {
        picks.take(1)
    } else {
        picks.take(picks.len() - (total - target))
    }
}

/// Whether `noise` is a text of about `target` tokens: a draft of words,
/// without those that it has too many, or with as many more as it lacks.
pub open spec fn is_noise(noise: Seq<char>, target: nat) -> bool {
    exists|picks: Seq<usize>, more: Seq<usize>|
        #![trigger drafted(picks, target), in_pool(more)]
        drafted(picks, target) && in_pool(more) && more.len() == lacking(picks, target) && noise
            == phrase(shortened(picks, target) + more)
}

/// A draft goes beyond what it was meant to cost by less than its last word.
pub proof fn law_draft_is_close(picks: Seq<usize>, target: nat)
    requires
        drafted(picks, target),
        picks.len() > 0,
    ensures
        target <= cost_of(picks) < target + word_cost(pool()[picks.last() as int]),
{
}

proof fn lemma_pool_words_are_short()
    ensures
        pool().len() == POOL_SIZE,
        forall|i: int| 0 <= i < POOL_SIZE ==> (#[trigger] pool()[i]).len() <= 5,
{
    reveal_strlit("one");
    reveal_strlit("two");
    reveal_strlit("three");
    reveal_strlit("four");
    reveal_strlit("five");
    reveal_strlit("six");
    reveal_strlit("seven");
    reveal_strlit("eight");
    reveal_strlit("nine");
    reveal_strlit("ten");
    reveal_strlit("the");
    reveal_strlit("is");
    reveal_strlit("at");
    reveal_strlit("we");
    reveal_strlit("be");
    reveal_strlit("to");
    reveal_strlit("of");
    reveal_strlit("in");
    reveal_strlit("it");
    reveal_strlit("on");
    reveal_strlit("that");
    reveal_strlit("this");
    reveal_strlit("a");
    reveal_strlit("an");
    reveal_strlit("or");
    reveal_strlit("and");
    reveal_strlit("but");
    reveal_strlit("for");
    reveal_strlit("not");
    reveal_strlit("with");
    reveal_strlit("as");
    reveal_strlit("can");
    reveal_strlit("will");
    reveal_strlit("have");
    reveal_strlit("has");
    reveal_strlit("had");
    reveal_strlit("were");
    reveal_strlit("was");
    reveal_strlit("are");
    reveal_strlit("been");
    reveal_strlit("being");
    reveal_strlit("do");
    reveal_strlit("does");
    reveal_strlit("did");
    reveal_strlit("made");
    reveal_strlit("from");
    reveal_strlit("which");
    reveal_strlit("their");
    reveal_strlit("they");
    reveal_strlit("them");
    reveal_strlit("than");
    reveal_strlit("then");
}

/// `Rng::gen_range` of the thread's generator: any number below `n`.
#[verifier::external_body]
fn random_below(n: usize) -> (i: usize)
    requires
        n > 0,
    ensures
        i < n,
{
    rand::thread_rng().gen_range(0..n)
}

/// `Rng::gen` of the thread's generator: any number.
#[verifier::external_body]
fn random_u64() -> (n: u64) {
    rand::thread_rng().gen()
}

/// The words that noise is made of.
fn word_pool() -> (words: Vec<&'static str>)
    ensures
        words.len() == POOL_SIZE,
        forall|i: int| 0 <= i < POOL_SIZE ==> (#[trigger] words[i])@ == pool()[i],
{
    let words: Vec<&'static str> = vec![
        "one", "two", "three", "four", "five", "six", "seven", "eight",
        "nine", "ten", "the", "is", "at", "we", "be", "to",
        "of", "in", "it", "on", "that", "this", "a", "an",
        "or", "and", "but", "for", "not", "with", "as", "can",
        "will", "have", "has", "had", "were", "was", "are", "been",
        "being", "do", "does", "did", "made", "from", "which", "their",
        "they", "them", "than", "then",
    ];
    words
}

/// Computes the cost of every word of the pool.
fn word_costs(words: &Vec<&'static str>) -> (costs: Vec<usize>)
    requires
        words.len() == POOL_SIZE,
        forall|i: int| 0 <= i < POOL_SIZE ==> (#[trigger] words[i])@ == pool()[i],
    ensures
        costs.len() == POOL_SIZE,
        forall|i: int| 0 <= i < POOL_SIZE ==> #[trigger] costs[i] == word_cost(pool()[i]),
        forall|i: int| 0 <= i < POOL_SIZE ==> 1 <= #[trigger] costs[i] <= 24,
{
    proof {
        lemma_pool_words_are_short();
        reveal_strlit(" ");
    }
    let mut costs: Vec<usize> = Vec::new();
    for i in 0..POOL_SIZE
        invariant
            words.len() == POOL_SIZE,
            pool().len() == POOL_SIZE,
            " "@.len() == 1,
            forall|i: int| 0 <= i < POOL_SIZE ==> (#[trigger] words[i])@ == pool()[i],
            forall|i: int| 0 <= i < POOL_SIZE ==> (#[trigger] pool()[i]).len() <= 5,
            costs.len() == i,
            forall|k: int| 0 <= k < i ==> #[trigger] costs[k] == word_cost(pool()[k]),
            forall|k: int| 0 <= k < i ==> 1 <= #[trigger] costs[k] <= 24,
    {
        let spaced: String = " ".to_owned().concat(words[i]);
        proof {
            bytes::lemma_four_bytes_at_most(spaced@);
        }
        let n: usize = count_tokens(spaced.as_str());
        costs.push(
            if n > 1 {
                n
            } else {
                1
            },
        );
    }
    costs
}

proof fn lemma_cost_push(picks: Seq<usize>, pick: usize)
    ensures
        cost_of(picks.push(pick)) == cost_of(picks) + word_cost(pool()[pick as int]),
{
    assert(picks.push(pick).drop_last() =~= picks);
}

/// Adds up the cost of some words.
fn total_cost(picks: &Vec<usize>, from: usize, costs: &Vec<usize>) -> (total: u128)
    requires
        from <= picks.len(),
        in_pool(picks@),
        costs.len() == POOL_SIZE,
        forall|i: int| 0 <= i < POOL_SIZE ==> #[trigger] costs[i] == word_cost(pool()[i]),
        forall|i: int| 0 <= i < POOL_SIZE ==> 1 <= #[trigger] costs[i] <= 24,
    ensures
        total == cost_of(picks@.skip(from as int)),
        picks.len() - from <= total <= 24 * (picks.len() - from),
{
    let ghost all = picks@.skip(from as int);
    let mut total: u128 = 0;
    for i in from..picks.len()
        invariant
            from <= picks.len(),
            in_pool(picks@),
            all == picks@.skip(from as int),
            costs.len() == POOL_SIZE,
            forall|i: int| 0 <= i < POOL_SIZE ==> #[trigger] costs[i] == word_cost(pool()[i]),
            forall|i: int| 0 <= i < POOL_SIZE ==> 1 <= #[trigger] costs[i] <= 24,
            total == cost_of(all.take(i - from)),
            i - from <= total <= 24 * (i - from),
    {
        proof {
            lemma_cost_push(all.take(i - from), picks@[i as int]);
            assert(all.take(i + 1 - from) =~= all.take(i - from).push(picks@[i as int]));
        }
        assert(picks@[i as int] < POOL_SIZE);
        total = total + costs[picks[i]] as u128;
    }
    assert(all.take(all.len() as int) =~= all);
    total
}

/// Draws words until their cost reaches `target`.
fn draw_words(target: u32, costs: &Vec<usize>) -> (picks: Vec<usize>)
    requires
        costs.len() == POOL_SIZE,
        forall|i: int| 0 <= i < POOL_SIZE ==> #[trigger] costs[i] == word_cost(pool()[i]),
        forall|i: int| 0 <= i < POOL_SIZE ==> 1 <= #[trigger] costs[i] <= 24,
    ensures
        drafted(picks@, target as nat),
        picks.len() <= target,
{
    let mut picks: Vec<usize> = Vec::new();
    let mut estimated: u64 = 0;
    while estimated < target as u64
        invariant
            costs.len() == POOL_SIZE,
            forall|i: int| 0 <= i < POOL_SIZE ==> #[trigger] costs[i] == word_cost(pool()[i]),
            forall|i: int| 0 <= i < POOL_SIZE ==> 1 <= #[trigger] costs[i] <= 24,
            in_pool(picks@),
            estimated == cost_of(picks@),
            picks.len() <= estimated,
            picks.len() <= target,
            picks.len() > 0 ==> cost_of(picks@.drop_last()) < target,
        decreases target + 24 - estimated,
    {
        let pick: usize = random_below(POOL_SIZE);
        proof {
            lemma_cost_push(picks@, pick);
            assert(picks@.push(pick).drop_last() =~= picks@);
        }
        estimated = estimated + costs[pick] as u64;
        picks.push(pick);
    }
    picks
}

/// The words at some places of the pool, with a space between any two.
fn make_phrase(picks: &Vec<usize>, from: usize, words: &Vec<&'static str>) -> (s: String)
    requires
        from <= picks.len(),
        in_pool(picks@),
        words.len() == POOL_SIZE,
        forall|i: int| 0 <= i < POOL_SIZE ==> (#[trigger] words[i])@ == pool()[i],
    ensures
        s@ == phrase(picks@.skip(from as int)),
{
    let ghost part = picks@.skip(from as int);
    let ghost all = Seq::new(part.len(), |i: int| pool()[part[i] as int]);
    let mut s: String = String::new();
    assert(s@ =~= text::join(all.take(0), " "@));
    for i in from..picks.len()
        invariant
            from <= picks.len(),
            in_pool(picks@),
            words.len() == POOL_SIZE,
            forall|i: int| 0 <= i < POOL_SIZE ==> (#[trigger] words[i])@ == pool()[i],
            part == picks@.skip(from as int),
            all == Seq::new(part.len(), |i: int| pool()[part[i] as int]),
            s@ == text::join(all.take(i - from), " "@),
    {
        if i > from {
            s.push(' ');
            proof {
                reveal_strlit(" ");
                assert(" "@ =~= seq![' ']);
                let before = text::join(all.take(i - from), " "@);
                assert(before.push(' ') =~= before + " "@);
            }
        }
        assert(picks@[i as int] < POOL_SIZE);
        s.append(words[picks[i]]);
        assert(all.take(i + 1 - from).drop_last() =~= all.take(i - from));
        assert(all.take(i + 1 - from).last() == pool()[picks@[i as int] as int]);
    }
    assert(all.take(all.len() as int) =~= all);
    s
}

proof fn lemma_phrase_is_short(picks: Seq<usize>)
    requires
        in_pool(picks),
    ensures
        phrase(picks).len() <= 6 * picks.len(),
    decreases picks.len(),
{
    let all = Seq::new(picks.len(), |i: int| pool()[picks[i] as int]);
    lemma_pool_words_are_short();
    reveal_strlit(" ");
    if picks.len() > 0 {
        let before = picks.drop_last();
        assert forall|i: int| 0 <= i < before.len() implies #[trigger] before[i] < POOL_SIZE by {
            assert(before[i] == picks[i]);
        }
        lemma_phrase_is_short(before);
        assert(all.drop_last() =~= Seq::new(before.len(), |i: int| pool()[before[i] as int]));
        assert(picks[picks.len() - 1] < POOL_SIZE);
        assert(all.last().len() <= 5);
    }
}

/// The length of a draft in tokens, corrected by what the words at its end
/// really take.
fn corrected_length(
    picks: &Vec<usize>,
    target: u32,
    words: &Vec<&'static str>,
    costs: &Vec<usize>,
) -> (total: usize)
    requires
        in_pool(picks@),
        picks.len() <= u32::MAX,
        words.len() == POOL_SIZE,
        forall|i: int| 0 <= i < POOL_SIZE ==> (#[trigger] words[i])@ == pool()[i],
        costs.len() == POOL_SIZE,
        forall|i: int| 0 <= i < POOL_SIZE ==> #[trigger] costs[i] == word_cost(pool()[i]),
        forall|i: int| 0 <= i < POOL_SIZE ==> 1 <= #[trigger] costs[i] <= 24,
    ensures
        total == corrected(picks@, target as nat),
{
    let size: usize = if (target as u64) < (SAMPLE_SIZE as u64) {
        target as usize
    } else {
        SAMPLE_SIZE
    };
    if target == 0 || picks.len() <= size {
        return target as usize;
    }
    let from: usize = picks.len() - size;
    let ghost end = sample(picks@, target as nat);
    assert(end =~= picks@.skip(from as int));
    let estimated: u128 = total_cost(picks, 0, costs);
    assert(picks@.skip(0) =~= picks@);
    let sampled: u128 = total_cost(picks, from, costs);
    let tail: String = make_phrase(picks, from, words);
    let actual: usize = count_tokens(tail.as_str());
    proof {
        lemma_phrase_is_short(end);
        bytes::lemma_four_bytes_at_most(phrase(end));
    }
    let total: u128 = scale(estimated as u64, actual as u32, sampled as u32);
    if total > usize::MAX as u128 {
        usize::MAX
    } else {
        total as usize
    }
}

/// How many more words a draft needs, once the words at its end have been
/// counted.
pub fn words_lacking(picks: &Vec<usize>, target: u32) -> (n: u32)
    requires
        in_pool(picks@),
        picks.len() <= u32::MAX,
    ensures
        n == lacking(picks@, target as nat),
{
    let words: Vec<&'static str> = word_pool();
    let costs: Vec<usize> = word_costs(&words);
    let total: usize = corrected_length(picks, target, &words, &costs);
    if (total as u64) < (target as u64) {
        target - total as u32
    } else {
        0
    }
}

/// Makes noise of a draft and of the words that it lacks.
pub fn compose_noise(picks: &Vec<usize>, more: &Vec<usize>, target: u32) -> (noise: String)
    requires
        in_pool(picks@),
        picks.len() <= u32::MAX,
        in_pool(more@),
    ensures
        noise@ == phrase(shortened(picks@, target as nat) + more@),
{
    let words: Vec<&'static str> = word_pool();
    let costs: Vec<usize> = word_costs(&words);
    let total: usize = corrected_length(picks, target, &words, &costs);
    let keep: usize = if total as u64 <= target as u64 {
        picks.len()
    } else {
        let excess: u64 = total as u64 - target as u64;
        if excess >= picks.len() as u64 {
            1
        } else {
            picks.len() - excess as usize
        }
    };
    let mut chosen: Vec<usize> = Vec::new();
    assert(keep <= picks.len());
    for i in 0..keep
        invariant
            keep <= picks.len(),
            in_pool(picks@),
            chosen@ =~= picks@.take(i as int),
    {
        chosen.push(picks[i]);
    }
    assert(chosen@ =~= shortened(picks@, target as nat));
    for i in 0..more.len()
        invariant
            chosen@ =~= shortened(picks@, target as nat) + more@.take(i as int),
    {
        chosen.push(more[i]);
    }
    assert(chosen@ =~= shortened(picks@, target as nat) + more@);
    assert(in_pool(chosen@)) by {
        assert forall|i: int| 0 <= i < chosen@.len() implies #[trigger] chosen@[i] < POOL_SIZE by {
            let kept = shortened(picks@, target as nat);
            if i < kept.len() {
                assert(chosen@[i] == picks@[i]);
            } else {
                assert(chosen@[i] == more@[i - kept.len()]);
            }
        }
    }
    assert(chosen@.skip(0) =~= chosen@);
    make_phrase(&chosen, 0, &words)
}

/// Makes noise of about `target_tokens` tokens out of random words.
pub fn generate_random_prompt(target_tokens: u32) -> (noise: String)
    ensures
        is_noise(noise@, target_tokens as nat),
{
    let words: Vec<&'static str> = word_pool();
    let costs: Vec<usize> = word_costs(&words);
    let picks: Vec<usize> = draw_words(target_tokens, &costs);
    let lack: u32 = words_lacking(&picks, target_tokens);
    let mut more: Vec<usize> = Vec::new();
    for i in 0..lack
        invariant
            more.len() == i,
            in_pool(more@),
    {
        more.push(random_below(POOL_SIZE));
    }
    compose_noise(&picks, &more, target_tokens)
}

// ---------------------------------------------------------------------------
// Prompts
// ---------------------------------------------------------------------------

/// The task that follows the noise where no other is given: it keeps the
/// length of the output comparable across runs.
pub const DEFAULT_REPEAT_PROMPT: &'static str =
    "Please repeat the text above exactly, without adding anything else.";

/// The text of a nonce.
pub open spec fn nonce_text(nonce: u64) -> Seq<char> {
    "[nonce:"@ + number::hex_digits(nonce as nat, 16) + "]"@
}

/// The task of a prompt: the given one without white space around it, or the
/// default where none is given or nothing is left of it.
pub open spec fn task_of(custom: Option<Seq<char>>) -> Seq<char> {
    match custom {
        Some(prompt) => if text::trim(prompt).len() > 0 {
            text::trim(prompt)
        } else {
            DEFAULT_REPEAT_PROMPT@
        },
        None => DEFAULT_REPEAT_PROMPT@,
    }
}

/// The tokens of what stands around the noise.
pub open spec fn overhead(nonce: Seq<char>, task: Seq<char>) -> nat {
    client::token_count(nonce + "\n\n"@) + client::token_count("\n\n"@ + task)
}

/// How many tokens are left for the noise, and at least one.
pub open spec fn noise_tokens(context_size: u32, nonce: Seq<char>, task: Seq<char>) -> nat {
    let used = overhead(nonce, task) as u32;
    if context_size > used {
        (context_size - used) as nat
    } else {
        1
    }
}

/// A prompt: a nonce, noise and a task, with an empty line between any two.
pub open spec fn prompt_of(nonce: Seq<char>, noise: Seq<char>, task: Seq<char>) -> Seq<char> {
    nonce + "\n\n"@ + noise + "\n\n"@ + task
}

/// Writes a nonce.
pub fn format_nonce(nonce: u64) -> (s: String)
    ensures
        s@ == nonce_text(nonce),
{
    "[nonce:".to_owned().concat(hex_text(nonce).as_str()).concat("]")
}

/// A random nonce, so that no two requests start alike and the server cannot
/// reuse what it cached for another one.
pub fn generate_random_nonce() -> (s: String)
    ensures
        exists|nonce: u64| s@ == #[trigger] nonce_text(nonce),
{
    format_nonce(random_u64())
}

/// Chooses the task of a prompt.
pub fn choose_task(custom_prompt: Option<&str>) -> (task: String)
    ensures
        task@ == task_of(text::opt_str(custom_prompt)),
{
    if let Some(prompt) = custom_prompt {
        let task: String = trim_text(prompt);
        if !task.as_str().is_empty() {
            return task;
        }
    }
    DEFAULT_REPEAT_PROMPT.to_owned()
}

/// Computes how many tokens are left for the noise.
pub fn noise_budget(context_size: u32, nonce: &str, task: &str) -> (n: u32)
    ensures
        n == noise_tokens(context_size, nonce@, task@),
        client::token_count(nonce@ + "\n\n"@) + client::token_count("\n\n"@ + task@)
            < context_size ==> n + client::token_count(nonce@ + "\n\n"@) + client::token_count(
            "\n\n"@ + task@,
        ) == context_size,
{
    let before: usize = count_tokens(nonce.to_owned().concat("\n\n").as_str());
    let after: usize = count_tokens("\n\n".to_owned().concat(task).as_str());
    let used: u32 = (before as u128 + after as u128) as u32;
    if context_size > used {
        context_size - used
    } else {
        1
    }
}

/// Puts a prompt together.
pub fn assemble_prompt(nonce: &str, noise: &str, task: &str) -> (prompt: String)
    ensures
        prompt@ == prompt_of(nonce@, noise@, task@),
{
    nonce.to_owned().concat("\n\n").concat(noise).concat("\n\n").concat(task)
}

/// Whether `prompt` is a test prompt with this nonce and noise: the noise
/// fills the context up to what the nonce and the task take.
pub open spec fn is_test_prompt(
    prompt: Seq<char>,
    context_size: u32,
    custom: Option<Seq<char>>,
    nonce: u64,
    noise: Seq<char>,
) -> bool {
    let task = task_of(custom);
    &&& is_noise(noise, noise_tokens(context_size, nonce_text(nonce), task))
    &&& prompt == prompt_of(nonce_text(nonce), noise, task)
}

/// Makes a test prompt of about `context_size` tokens: a random nonce, noise,
/// and the given task or the default one.
pub fn build_test_prompt(context_size: u32, custom_prompt: Option<&str>) -> (prompt: String)
    ensures
        exists|nonce: u64, noise: Seq<char>| #[trigger]
            is_test_prompt(prompt@, context_size, text::opt_str(custom_prompt), nonce, noise),
{
    let task: String = choose_task(custom_prompt);
    let nonce: String = generate_random_nonce();
    let ghost number = choose|number: u64| nonce@ == #[trigger] nonce_text(number);
    let budget: u32 = noise_budget(context_size, nonce.as_str(), task.as_str());
    let noise: String = generate_random_prompt(budget);
    let prompt: String = assemble_prompt(nonce.as_str(), noise.as_str(), task.as_str());
    assert(is_test_prompt(prompt@, context_size, text::opt_str(custom_prompt), number, noise@));
    prompt
}

/// Every test prompt starts with its nonce and ends with its task.
pub proof fn law_prompt_starts_and_ends(
    prompt: Seq<char>,
    context_size: u32,
    custom: Option<Seq<char>>,
    nonce: u64,
    noise: Seq<char>,
)
    requires
        is_test_prompt(prompt, context_size, custom, nonce, noise),
    ensures
        text::starts_with(prompt, "[nonce:"@),
        text::starts_with(prompt, nonce_text(nonce)),
        prompt.len() >= task_of(custom).len(),
        prompt.skip(prompt.len() - task_of(custom).len()) == task_of(custom),
{
    let task = task_of(custom);
    assert(prompt.subrange(0, "[nonce:"@.len() as int) =~= "[nonce:"@);
    assert(prompt.subrange(0, nonce_text(nonce).len() as int) =~= nonce_text(nonce));
    assert(prompt.skip(prompt.len() - task.len()) =~= task);
}

proof fn lemma_hex_injective(a: nat, b: nat, k: nat)
    requires
        hex_fits(a, k),
        hex_fits(b, k),
        number::hex_digits(a, k) == number::hex_digits(b, k),
    ensures
        a == b,
    decreases k,
{
    if k > 0 {
        let x = number::hex_digits(a, k);
        let y = number::hex_digits(b, k);
        assert(x.drop_last() =~= number::hex_digits(a / 16, (k - 1) as nat));
        assert(y.drop_last() =~= number::hex_digits(b / 16, (k - 1) as nat));
        assert(x.last() == y.last());
        lemma_hex_injective(a / 16, b / 16, (k - 1) as nat);
    }
}

/// Whether `k` hexadecimal digits are enough for `n`.
spec fn hex_fits(n: nat, k: nat) -> bool
    decreases k,
{
    if k == 0 {
        n == 0
    } else {
        hex_fits(n / 16, (k - 1) as nat)
    }
}

proof fn lemma_hex_length(n: nat, k: nat)
    ensures
        number::hex_digits(n, k).len() == k,
    decreases k,
{
    if k > 0 {
        lemma_hex_length(n / 16, (k - 1) as nat);
    }
}

/// Prompts with different nonces differ, whatever else they hold, and they do
/// so within their nonces.
pub proof fn law_different_nonces(
    a: u64,
    b: u64,
    noise_a: Seq<char>,
    noise_b: Seq<char>,
    task_a: Seq<char>,
    task_b: Seq<char>,
)
    requires
        a != b,
    ensures
        nonce_text(a).len() == nonce_text(b).len(),
        prompt_of(nonce_text(a), noise_a, task_a).take(nonce_text(a).len() as int) != prompt_of(
            nonce_text(b),
            noise_b,
            task_b,
        ).take(nonce_text(b).len() as int),
{
    let ha = number::hex_digits(a as nat, 16);
    let hb = number::hex_digits(b as nat, 16);
    lemma_hex_length(a as nat, 16);
    lemma_hex_length(b as nat, 16);
    reveal_with_fuel(hex_fits, 17);
    if ha == hb {
        lemma_hex_injective(a as nat, b as nat, 16);
    }
    let na = nonce_text(a);
    let nb = nonce_text(b);
    assert(prompt_of(na, noise_a, task_a).take(na.len() as int) =~= na);
    assert(prompt_of(nb, noise_b, task_b).take(nb.len() as int) =~= nb);
    let p = "[nonce:"@.len() as int;
    if na == nb {
        assert(na.subrange(p, p + 16) =~= ha);
        assert(nb.subrange(p, p + 16) =~= hb);
    }
}

/// The noise fills the context: its tokens and those of the nonce and the task
/// with their separators make the context size, wherever that is larger than
/// what the nonce and the task take. Elsewhere the noise is one token.
pub proof fn law_noise_fills_the_context(context_size: u32, nonce: Seq<char>, task: Seq<char>)
    ensures
        ({
            let used = client::token_count(nonce + "\n\n"@) + client::token_count("\n\n"@ + task);
            let left = noise_tokens(context_size, nonce, task);
            &&& used < context_size ==> left + used == context_size
            &&& context_size <= used <= u32::MAX ==> left == 1
        }),
        1 <= noise_tokens(context_size, nonce, task),
        noise_tokens(context_size, nonce, task) <= context_size || noise_tokens(
            context_size,
            nonce,
            task,
        ) == 1,
{
}

/// A larger context has as many more tokens of noise, once there is room for
/// more than one.
pub proof fn law_noise_grows_with_the_context(
    context_size: u32,
    more: u32,
    nonce: Seq<char>,
    task: Seq<char>,
)
    requires
        client::token_count(nonce + "\n\n"@) + client::token_count("\n\n"@ + task) < context_size,
        context_size + more <= u32::MAX,
    ensures
        noise_tokens((context_size + more) as u32, nonce, task) == noise_tokens(
            context_size,
            nonce,
            task,
        ) + more,
{
}

/// A test prompt holds the noise that fills its context.
pub proof fn law_prompt_fills_the_context(
    prompt: Seq<char>,
    context_size: u32,
    custom: Option<Seq<char>>,
    nonce: u64,
    noise: Seq<char>,
)
    requires
        is_test_prompt(prompt, context_size, custom, nonce, noise),
        client::token_count(nonce_text(nonce) + "\n\n"@) + client::token_count(
            "\n\n"@ + task_of(custom),
        ) < context_size,
    ensures
        prompt == nonce_text(nonce) + "\n\n"@ + noise + "\n\n"@ + task_of(custom),
        is_noise(
            noise,
            (context_size - client::token_count(nonce_text(nonce) + "\n\n"@) - client::token_count(
                "\n\n"@ + task_of(custom),
            )) as nat,
        ),
{
}

proof fn lemma_decimal_has_no_colon(n: nat)
    ensures
        !number::decimal(n).contains(':'),
{
    number::law_decimal_digits(n);
    let s = number::decimal(n);
    if s.contains(':') {
        let i = choose|i: int| 0 <= i < s.len() && s[i] == ':';
        assert(48 <= s[i] as u32 <= 57);
    }
}

proof fn lemma_three_parts(start: Seq<char>, step: Seq<char>, end: Seq<char>)
    requires
        !start.contains(':'),
        !step.contains(':'),
        !end.contains(':'),
    ensures
        text::split_on(start + seq![':'] + (step + seq![':'] + end), ':') == seq![start, step, end],
{
    text::law_split(start, ':', step + seq![':'] + end);
    text::law_split(step, ':', end);
    text::law_split(end, ':', end);
    assert(seq![start] + (seq![step] + seq![end]) =~= seq![start, step, end]);
}

/// A number alone asks for that context size.
pub proof fn law_single_size(n: u32)
    ensures
        context_sizes(number::decimal(n as nat)) == seq![n],
        !stands_still(number::decimal(n as nat)),
{
    let s = number::decimal(n as nat);
    lemma_decimal_has_no_colon(n as nat);
    text::law_split(s, ':', s);
    number::law_decimal_round_trip(n as nat, u32::MAX as nat);
}

/// Three numbers with colons between them ask for the sizes from the first to
/// the third, by the second; they do not advance where the second is zero and
/// the first is not behind the third.
pub proof fn law_range_of_sizes(start: u32, step: u32, end: u32)
    ensures
        ({
            let input = number::decimal(start as nat) + seq![':'] + (number::decimal(step as nat)
                + seq![':'] + number::decimal(end as nat));
            let all = context_sizes(input);
            &&& stands_still(input) <==> step == 0 && start <= end
            &&& start > end ==> all.len() == 0
            &&& start <= end && step > 0 ==> {
                &&& all.len() > 0
                &&& forall|k: int| 0 <= k < all.len() ==> #[trigger] all[k] == start + k * step
                &&& all.last() <= end < all.last() + step
            }
        }),
{
    let a = number::decimal(start as nat);
    let b = number::decimal(step as nat);
    let c = number::decimal(end as nat);
    lemma_decimal_has_no_colon(start as nat);
    lemma_decimal_has_no_colon(step as nat);
    lemma_decimal_has_no_colon(end as nat);
    lemma_three_parts(a, b, c);
    number::law_decimal_round_trip(start as nat, u32::MAX as nat);
    number::law_decimal_round_trip(step as nat, u32::MAX as nat);
    number::law_decimal_round_trip(end as nat, u32::MAX as nat);
    if start <= end && step > 0 {
        law_range(start, step, end);
    }
}

/// What cannot be read as a number in a range stands for 1024, and for 16384
/// as its end; what is no range and cannot be read stands for 1024 alone.
pub proof fn law_unreadable_sizes(start: Seq<char>, step: Seq<char>, end: Seq<char>)
    requires
        !start.contains(':'),
        !step.contains(':'),
        !end.contains(':'),
    ensures
        number::parse_unsigned(start, u32::MAX as nat) is None ==> context_sizes(
            start + seq![':'] + (step + seq![':'] + end),
        ) == context_sizes(number::decimal(1024) + seq![':'] + (step + seq![':'] + end)),
        number::parse_unsigned(step, u32::MAX as nat) is None ==> context_sizes(
            start + seq![':'] + (step + seq![':'] + end),
        ) == context_sizes(start + seq![':'] + (number::decimal(1024) + seq![':'] + end)),
        number::parse_unsigned(end, u32::MAX as nat) is None ==> context_sizes(
            start + seq![':'] + (step + seq![':'] + end),
        ) == context_sizes(start + seq![':'] + (step + seq![':'] + number::decimal(16384))),
        number::parse_unsigned(start, u32::MAX as nat) is None ==> context_sizes(start) == seq![
            1024u32,
        ],
        context_sizes(start + seq![':'] + end) == seq![1024u32],
{
    let a = number::decimal(1024);
    let b = number::decimal(16384);
    lemma_decimal_has_no_colon(1024);
    lemma_decimal_has_no_colon(16384);
    number::law_decimal_round_trip(1024, u32::MAX as nat);
    number::law_decimal_round_trip(16384, u32::MAX as nat);
    lemma_three_parts(start, step, end);
    lemma_three_parts(a, step, end);
    lemma_three_parts(start, a, end);
    lemma_three_parts(start, step, b);
    text::law_split(start, ':', end);
    text::law_split(end, ':', end);
    let two = start + seq![':'] + end;
    assert(two[start.len() as int] == ':');
    number::law_parse_rejects(two, start.len() as int, u32::MAX as nat);
}

/// A word more costs what the tokenizer counts for it behind a space, and at
/// least one token.
pub proof fn law_cost(picks: Seq<usize>, pick: usize)
    ensures
        cost_of(Seq::empty()) == 0,
        client::token_count(" "@ + pool()[pick as int]) >= 1 ==> cost_of(picks.push(pick))
            == cost_of(picks) + client::token_count(" "@ + pool()[pick as int]),
        client::token_count(" "@ + pool()[pick as int]) == 0 ==> cost_of(picks.push(pick))
            == cost_of(picks) + 1,
{
    assert(picks.push(pick).drop_last() =~= picks);
}

/// A word more stands behind a space, unless it is the first.
pub proof fn law_phrase(picks: Seq<usize>, pick: usize)
    ensures
        phrase(Seq::empty()) == Seq::<char>::empty(),
        phrase(seq![pick]) == pool()[pick as int],
        picks.len() > 0 ==> phrase(picks.push(pick)) == phrase(picks) + " "@ + pool()[pick as int],
{
    let words = Seq::new(picks.len(), |i: int| pool()[picks[i] as int]);
    let more = picks.push(pick);
    let more_words = Seq::new(more.len(), |i: int| pool()[more[i] as int]);
    assert(more_words =~= words.push(pool()[pick as int]));
    text::law_join(words, pool()[pick as int], " "@);
    let one = seq![pick];
    let one_word = Seq::new(one.len(), |i: int| pool()[one[i] as int]);
    assert(one_word =~= seq![pool()[pick as int]]);
    let none = Seq::<usize>::empty();
    let no_word = Seq::new(none.len(), |i: int| pool()[none[i] as int]);
    assert(no_word =~= Seq::<Seq<char>>::empty());
}

/// The length of a draft is what was asked for where no words are left beside
/// those to be counted, and else its cost times what its last words take over
/// what they cost; at most 200 words are counted, and no more than the tokens
/// asked for.
pub proof fn law_corrected(picks: Seq<usize>, target: nat, counted: nat)
    requires
        counted == 200 && target >= 200 || counted == target && target < 200,
    ensures
        target == 0 || picks.len() <= counted ==> corrected(picks, target) == target,
        target > 0 && picks.len() > counted ==> ({
            let end = picks.subrange(picks.len() - counted, picks.len() as int);
            let total = double::scaled(
                cost_of(picks),
                client::token_count(phrase(end)),
                cost_of(end),
            );
            &&& total <= usize::MAX ==> corrected(picks, target) == total
            &&& total > usize::MAX ==> corrected(picks, target) == usize::MAX
        }),
{
    if picks.len() > counted {
        assert(sample(picks, target) =~= picks.subrange(
            picks.len() - counted,
            picks.len() as int,
        ));
    }
}

/// A draft that is too long loses a word from its end for each token too many,
/// but never its first one; one that is too short lacks a word for each token
/// that is missing; and no draft does both.
pub proof fn law_draft_is_evened_out(picks: Seq<usize>, target: nat)
    requires
        picks.len() > 0,
    ensures
        ({
            let kept = shortened(picks, target);
            let total = corrected(picks, target);
            &&& total <= target ==> kept == picks && total + lacking(picks, target) == target
            &&& total > target ==> lacking(picks, target) == 0 && 1 <= kept.len() <= picks.len()
                && kept == picks.subrange(0, kept.len() as int)
            &&& total > target && kept.len() > 1 ==> kept.len() + total == picks.len() + target
            &&& total > target && kept.len() == 1 ==> picks.len() + target <= 1 + total
        }),
{
    let kept = shortened(picks, target);
    assert(kept.len() <= picks.len() ==> (corrected(picks, target) > target ==> kept
        =~= picks.subrange(0, kept.len() as int)));
}

/// Noise is made of words of the pool, with a space between any two.
pub proof fn law_noise_is_words(noise: Seq<char>, target: nat)
    requires
        is_noise(noise, target),
    ensures
        exists|picks: Seq<usize>|
            (forall|i: int| 0 <= i < picks.len() ==> (#[trigger] picks[i]) < 52) && noise
                == #[trigger] phrase(picks),
{
    let (picks, more) = choose|picks: Seq<usize>, more: Seq<usize>|
        #![trigger drafted(picks, target), in_pool(more)]
        drafted(picks, target) && in_pool(more) && more.len() == lacking(picks, target) && noise
            == phrase(shortened(picks, target) + more);
    let kept = shortened(picks, target);
    let all = kept + more;
    assert(kept =~= picks.take(kept.len() as int));
    assert forall|i: int| 0 <= i < all.len() implies (#[trigger] all[i]) < 52 by {
        if i < kept.len() {
            assert(all[i] == picks[i]);
        } else {
            assert(all[i] == more[i - kept.len()]);
        }
    }
}

/// No tokens of noise are no noise.
pub proof fn law_no_noise(noise: Seq<char>)
    requires
        is_noise(noise, 0),
    ensures
        noise == Seq::<char>::empty(),
{
    let (picks, more) = choose|picks: Seq<usize>, more: Seq<usize>|
        #![trigger drafted(picks, 0), in_pool(more)]
        drafted(picks, 0) && in_pool(more) && more.len() == lacking(picks, 0) && noise == phrase(
            shortened(picks, 0) + more,
        );
    assert(shortened(picks, 0) + more =~= Seq::<usize>::empty());
    law_phrase(picks, 0);
}

/// A nonce is sixteen hexadecimal digits between its marks.
pub proof fn law_nonce(nonce: u64)
    ensures
        nonce_text(nonce).len() == 24,
        nonce_text(nonce).subrange(0, 7) == "[nonce:"@,
        nonce_text(nonce).subrange(7, 23) == number::hex_digits(nonce as nat, 16),
        nonce_text(nonce)[23] == ']',
{
    reveal_strlit("[nonce:");
    reveal_strlit("]");
    lemma_hex_length(nonce as nat, 16);
    assert(nonce_text(nonce).subrange(0, 7) =~= "[nonce:"@);
    assert(nonce_text(nonce).subrange(7, 23) =~= number::hex_digits(nonce as nat, 16));
}

/// A task that was given is taken without the white space around it; where
/// there is none, or nothing but white space, the text is to be repeated.
pub proof fn law_task(before: Seq<char>, task: Seq<char>, after: Seq<char>)
    requires
        forall|i: int| 0 <= i < before.len() ==> text::is_whitespace(#[trigger] before[i]),
        forall|i: int| 0 <= i < after.len() ==> text::is_whitespace(#[trigger] after[i]),
        task.len() > 0 ==> !text::is_whitespace(task[0]) && !text::is_whitespace(task.last()),
    ensures
        task.len() > 0 ==> task_of(Some(before + task + after)) == task,
        task_of(Some(before + after))
            == "Please repeat the text above exactly, without adding anything else."@,
        task_of(None) == "Please repeat the text above exactly, without adding anything else."@,
{
    text::law_trim(before, task, after);
    text::law_trim(before, Seq::empty(), after);
    assert(before + Seq::<char>::empty() + after =~= before + after);
}

/// A draft is made of words of the pool. It reaches what it was meant to cost,
/// and would not without its last word.
pub proof fn law_drafted(picks: Seq<usize>, target: nat)
    ensures
        drafted(picks, target) <==> {
            &&& forall|i: int| 0 <= i < picks.len() ==> (#[trigger] picks[i]) < 52
            &&& cost_of(picks) >= target
            &&& picks.len() > 0 ==> cost_of(picks.drop_last()) < target
        },
{
}

/// Noise is a draft of about the tokens asked for, without the words that it
/// has too many, and with as many more words of the pool as it lacks.
pub proof fn law_noise(noise: Seq<char>, target: nat)
    requires
        is_noise(noise, target),
    ensures
        exists|picks: Seq<usize>, more: Seq<usize>|
            {
                &&& forall|i: int| 0 <= i < picks.len() ==> (#[trigger] picks[i]) < 52
                &&& forall|i: int| 0 <= i < more.len() ==> (#[trigger] more[i]) < 52
                &&& cost_of(picks) >= target
                &&& picks.len() > 0 ==> cost_of(picks.drop_last()) < target
                &&& more.len() == lacking(picks, target)
                &&& noise == #[trigger] phrase(shortened(picks, target) + more)
            },
{
    let (picks, more) = choose|picks: Seq<usize>, more: Seq<usize>|
        #![trigger drafted(picks, target), in_pool(more)]
        drafted(picks, target) && in_pool(more) && more.len() == lacking(picks, target) && noise
            == phrase(shortened(picks, target) + more);
    assert(noise == phrase(shortened(picks, target) + more));
}

/// The pool has fifty-two words of at most five letters.
pub proof fn law_pool()
    ensures
        pool().len() == 52,
        forall|i: int| 0 <= i < 52 ==> (#[trigger] pool()[i]).len() <= 5,
{
    lemma_pool_words_are_short();
}

/// A range advances or not by the numbers that it is read as.
pub proof fn law_unreadable_range(start: Seq<char>, step: Seq<char>, end: Seq<char>)
    requires
        !start.contains(':'),
        !step.contains(':'),
        !end.contains(':'),
    ensures
        number::parse_unsigned(start, u32::MAX as nat) is None ==> (stands_still(
            start + seq![':'] + (step + seq![':'] + end),
        ) <==> stands_still(number::decimal(1024) + seq![':'] + (step + seq![':'] + end))),
        number::parse_unsigned(step, u32::MAX as nat) is None ==> !stands_still(
            start + seq![':'] + (step + seq![':'] + end),
        ),
        number::parse_unsigned(end, u32::MAX as nat) is None ==> (stands_still(
            start + seq![':'] + (step + seq![':'] + end),
        ) <==> stands_still(start + seq![':'] + (step + seq![':'] + number::decimal(16384)))),
        !stands_still(start),
        !stands_still(start + seq![':'] + end),
{
    let a = number::decimal(1024);
    let b = number::decimal(16384);
    lemma_decimal_has_no_colon(1024);
    lemma_decimal_has_no_colon(16384);
    number::law_decimal_round_trip(1024, u32::MAX as nat);
    number::law_decimal_round_trip(16384, u32::MAX as nat);
    lemma_three_parts(start, step, end);
    lemma_three_parts(a, step, end);
    lemma_three_parts(start, step, b);
    text::law_split(start, ':', end);
    text::law_split(end, ':', end);
}

/// A prompt is its nonce, its noise and its task, with an empty line between
/// any two; a context that the nonce and the task fill leaves one token of
/// noise.
pub proof fn law_prompt(
    prompt: Seq<char>,
    context_size: u32,
    custom: Option<Seq<char>>,
    nonce: u64,
    noise: Seq<char>,
    task: Seq<char>,
)
    ensures
        prompt_of(nonce_text(nonce), noise, task) == nonce_text(nonce) + "\n\n"@ + noise + "\n\n"@
            + task,
        is_test_prompt(prompt, context_size, custom, nonce, noise) ==> prompt == nonce_text(nonce)
            + "\n\n"@ + noise + "\n\n"@ + task_of(custom),
        is_test_prompt(prompt, context_size, custom, nonce, noise) && context_size
            <= client::token_count(nonce_text(nonce) + "\n\n"@) + client::token_count(
            "\n\n"@ + task_of(custom),
        ) <= u32::MAX ==> is_noise(noise, 1),
{
}

} // verus!

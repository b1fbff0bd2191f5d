//! What is known of the machine that a test runs on.
use vstd::prelude::*;
use vstd::string::StringExecFns;
use crate::client::{self, lossy_text};
use crate::number::{self, decimal_text, parse_chars, parse_u32};
use crate::text::{
    self, chars_contain, chars_stand_at, choose_label, join_chars, same_text, split_chars,
    split_lines, split_words, to_chars, to_text, trim_chars,
};

verus! {

/// A gibibyte.
pub const GIB: u64 = 1_073_741_824;

/// What describes the machine.
pub struct EnvMonitor;

/// What the system says about the machine.
#[derive(Debug, Clone)]
pub struct SystemFacts {
    pub os_name: Option<String>,
    pub os_version: Option<String>,
    /// The brand of the first processor, if there is one.
    pub cpu_model: Option<String>,
    pub cpu_cores: usize,
}

// ---------------------------------------------------------------------------
// Memory modules
// ---------------------------------------------------------------------------

/// How often `x` occurs in `s`.
pub open spec fn occurrences(s: Seq<u32>, x: u32) -> nat
    decreases s.len(),
{
    if s.len() == 0 {
        0
    } else {
        occurrences(s.drop_last(), x) + (if s.last() == x {
            1nat
        } else {
            0
        })
    }
}

/// Whether each number is smaller than the one before it.
pub open spec fn descending(s: Seq<u32>) -> bool {
    forall|i: int, j: int| 0 <= i < j < s.len() ==> s[i] > s[j]
}

/// Whether two lists hold the same numbers.
pub open spec fn same_numbers(a: Seq<u32>, b: Seq<u32>) -> bool {
    forall|x: u32| a.contains(x) <==> b.contains(x)
}

/// The text of a group of modules of one size.
pub open spec fn group_text(sizes: Seq<u32>, size: u32) -> Seq<char> {
    number::decimal(size as nat) + "G*"@ + number::decimal(occurrences(sizes, size))
}

/// The text of groups of modules.
pub open spec fn groups_text(sizes: Seq<u32>, groups: Seq<u32>) -> Seq<char> {
    text::join(Seq::new(groups.len(), |i: int| group_text(sizes, groups[i])), " "@)
}

/// Whether `s` lists the modules: each size that occurs, the largest first,
/// with the number of modules of that size.
pub open spec fn lists_modules(s: Seq<char>, sizes: Seq<u32>) -> bool {
    exists|groups: Seq<u32>|
        #[trigger] descending(groups) && same_numbers(groups, sizes) && s == groups_text(
            sizes,
            groups,
        )
}

proof fn lemma_descending_unique(a: Seq<u32>, b: Seq<u32>)
    requires
        descending(a),
        descending(b),
        same_numbers(a, b),
    ensures
        a == b,
    decreases a.len(),
{
    if a.len() == 0 {
        if b.len() > 0 {
            assert(b.contains(b[0]));
            assert(a.contains(b[0]));
        }
        assert(a =~= b);
    } else {
        assert(a.contains(a.last()));
        assert(b.contains(a.last()));
        assert(b.contains(b.last()));
        assert(a.contains(b.last()));
        let i = choose|i: int| 0 <= i < b.len() && b[i] == a.last();
        let j = choose|j: int| 0 <= j < a.len() && a[j] == b.last();
        assert(a.last() == b.last());
        let a0 = a.drop_last();
        let b0 = b.drop_last();
        assert forall|x: u32| a0.contains(x) <==> b0.contains(x) by {
            if a0.contains(x) {
                let k = choose|k: int| 0 <= k < a0.len() && a0[k] == x;
                assert(a[k] == x && x > a.last());
                assert(a.contains(x));
                assert(b.contains(x));
                let m = choose|m: int| 0 <= m < b.len() && b[m] == x;
                assert(b0[m] == x);
            }
            if b0.contains(x) {
                let k = choose|k: int| 0 <= k < b0.len() && b0[k] == x;
                assert(b[k] == x && x > b.last());
                assert(b.contains(x));
                assert(a.contains(x));
                let m = choose|m: int| 0 <= m < a.len() && a[m] == x;
                assert(a0[m] == x);
            }
        }
        lemma_descending_unique(a0, b0);
        assert(a =~= a0.push(a.last()));
        assert(b =~= b0.push(b.last()));
    }
}

/// There is one text that lists some modules.
pub proof fn law_one_module_list(s: Seq<char>, t: Seq<char>, sizes: Seq<u32>)
    requires
        lists_modules(s, sizes),
        lists_modules(t, sizes),
    ensures
        s == t,
{
    let a = choose|groups: Seq<u32>|
        #[trigger] descending(groups) && same_numbers(groups, sizes) && s == groups_text(
            sizes,
            groups,
        );
    let b = choose|groups: Seq<u32>|
        #[trigger] descending(groups) && same_numbers(groups, sizes) && t == groups_text(
            sizes,
            groups,
        );
    lemma_descending_unique(a, b);
}

proof fn lemma_occurrences_count(s: Seq<u32>, x: u32)
    ensures
        occurrences(s, x) == s.to_multiset().count(x),
        s.contains(x) <==> occurrences(s, x) > 0,
    decreases s.len(),
{
    broadcast use vstd::seq_lib::group_to_multiset_ensures;

    if s.len() > 0 {
        let t = s.drop_last();
        lemma_occurrences_count(t, x);
        assert(s =~= t.push(s.last()));
        if t.contains(x) {
            let i = choose|i: int| 0 <= i < t.len() && t[i] == x;
            assert(s[i] == x);
        }
        if s.contains(x) && s.last() != x {
            let i = choose|i: int| 0 <= i < s.len() && s[i] == x;
            assert(t[i] == x);
        }
        if s.last() == x {
            assert(s[s.len() - 1] == x);
        }
    }
}

/// The order in which modules are found does not matter.
pub proof fn law_module_order_does_not_matter(a: Seq<u32>, b: Seq<u32>, s: Seq<char>)
    requires
        a.to_multiset() == b.to_multiset(),
        lists_modules(s, a),
    ensures
        lists_modules(s, b),
{
    let groups = choose|groups: Seq<u32>|
        #[trigger] descending(groups) && same_numbers(groups, a) && s == groups_text(a, groups);
    assert forall|x: u32| groups.contains(x) <==> b.contains(x) by {
        lemma_occurrences_count(a, x);
        lemma_occurrences_count(b, x);
    }
    let p = Seq::new(groups.len(), |i: int| group_text(a, groups[i]));
    let q = Seq::new(groups.len(), |i: int| group_text(b, groups[i]));
    assert forall|i: int| 0 <= i < groups.len() implies p[i] == q[i] by {
        lemma_occurrences_count(a, groups[i]);
        lemma_occurrences_count(b, groups[i]);
    }
    assert(p =~= q);
    assert(descending(groups));
}

/// The sizes that occur, the largest first.
fn distinct_sizes(sizes: &[u32]) -> (groups: Vec<u32>)
    ensures
        descending(groups@),
        same_numbers(groups@, sizes@),
{
    let mut groups: Vec<u32> = Vec::new();
    for i in 0..sizes.len()
        invariant
            descending(groups@),
            same_numbers(groups@, sizes@.take(i as int)),
    {
        let x: u32 = sizes[i];
        let ghost before = groups@;
        let mut at: usize = 0;
        while at < groups.len() && groups[at] > x
            invariant
                at <= groups.len(),
                forall|k: int| 0 <= k < at ==> groups@[k] > x,
            decreases groups.len() - at,
        {
            at = at + 1;
        }
        let known: bool = at < groups.len() && groups[at] == x;
        if !known {
            groups.insert(at, x);
        }
        let ghost seen = sizes@.take(i as int);
        let ghost next = sizes@.take(i + 1);
        proof {
            assert(next =~= seen.push(x));
            assert forall|y: u32| groups@.contains(y) <==> next.contains(y) by {
                if next.contains(y) {
                    let k = choose|k: int| 0 <= k < next.len() && next[k] == y;
                    if k < i {
                        assert(seen[k] == y);
                        assert(seen.contains(y));
                        assert(before.contains(y));
                        let m = choose|m: int| 0 <= m < before.len() && before[m] == y;
                        if known || m < at {
                            assert(groups@[m] == y);
                        } else {
                            assert(groups@[m + 1] == y);
                        }
                    } else {
                        assert(groups@[at as int] == y);
                    }
                }
                if groups@.contains(y) {
                    let m = choose|m: int| 0 <= m < groups@.len() && groups@[m] == y;
                    if y == x {
                        assert(next[i as int] == y);
                    } else {
                        assert(before.contains(y)) by {
                            if known || m < at {
                                assert(before[m] == y);
                            } else {
                                assert(before[m - 1] == y);
                            }
                        }
                        assert(seen.contains(y));
                        let k = choose|k: int| 0 <= k < seen.len() && seen[k] == y;
                        assert(next[k] == y);
                    }
                }
            }
        }
    }
    assert(sizes@.take(sizes@.len() as int) =~= sizes@);
    groups
}

/// How often `x` occurs.
fn count_size(sizes: &[u32], x: u32) -> (n: usize)
    ensures
        n == occurrences(sizes@, x),
{
    let mut n: usize = 0;
    for i in 0..sizes.len()
        invariant
            n == occurrences(sizes@.take(i as int), x),
            n <= i,
    {
        assert(sizes@.take(i + 1).drop_last() =~= sizes@.take(i as int));
        if sizes[i] == x {
            n = n + 1;
        }
    }
    assert(sizes@.take(sizes@.len() as int) =~= sizes@);
    n
}

// ---------------------------------------------------------------------------
// What programs print
// ---------------------------------------------------------------------------

/// The size that a line of `dmidecode` gives, if it is about a module that is
/// there.
pub open spec fn dmidecode_size(line: Seq<char>) -> Option<u32> {
    let trimmed = text::trim(line);
    let words = text::words(trimmed);
    if text::starts_with(trimmed, "Size:"@) && !text::contains(trimmed, "No Module"@) && words.len()
        > 1 {
        match number::parse_unsigned(words[1], u32::MAX as nat) {
            Some(n) => if n > 0 {
                Some(n as u32)
            } else {
                None
            },
            None => None,
        }
    } else {
        None
    }
}

/// The sizes that the lines of `dmidecode` give.
pub open spec fn dmidecode_sizes(lines: Seq<Seq<char>>) -> Seq<u32>
    decreases lines.len(),
{
    if lines.len() == 0 {
        Seq::empty()
    } else {
        let before = dmidecode_sizes(lines.drop_last());
        match dmidecode_size(lines.last()) {
            Some(n) => before.push(n),
            None => before,
        }
    }
}

/// The size in whole gibibytes that a line of `wmic` gives.
pub open spec fn wmic_size(line: Seq<char>) -> Option<u32> {
    match number::parse_unsigned(text::trim(line), u64::MAX as nat) {
        Some(n) => if n / GIB as nat > 0 {
            Some((n / GIB as nat) as u32)
        } else {
            None
        },
        None => None,
    }
}

/// The sizes that the lines of `wmic` give.
pub open spec fn wmic_sizes(lines: Seq<Seq<char>>) -> Seq<u32>
    decreases lines.len(),
{
    if lines.len() == 0 {
        Seq::empty()
    } else {
        let before = wmic_sizes(lines.drop_last());
        match wmic_size(lines.last()) {
            Some(n) => before.push(n),
            None => before,
        }
    }
}

/// What follows the first line.
pub open spec fn without_head(lines: Seq<Seq<char>>) -> Seq<Seq<char>> {
    if lines.len() == 0 {
        lines
    } else {
        lines.skip(1)
    }
}

fn read_dmidecode_line(line: &Vec<char>) -> (size: Option<u32>)
    ensures
        size == dmidecode_size(line@),
{
    let trimmed: Vec<char> = trim_chars(line);
    if !chars_stand_at(&trimmed, 0, &to_chars("Size:")) || chars_contain(
        &trimmed,
        &to_chars("No Module"),
    ) {
        return None;
    }
    let words: Vec<Vec<char>> = split_words(&trimmed);
    let ghost all = text::char_lists(words@);
    if words.len() < 2 {
        return None;
    }
    assert(all[1] == words@[1]@);
    match parse_u32(&words[1]) {
        Some(n) => if n > 0 {
            Some(n)
        } else {
            None
        },
        None => None,
    }
}

/// The sizes of the modules that `dmidecode -t memory` lists.
pub fn linux_dimm_sizes(output: &Vec<u8>) -> (sizes: Vec<u32>)
    ensures
        sizes@ == dmidecode_sizes(text::lines(client::utf8_text(output@))),
{
    let lines: Vec<Vec<char>> = split_lines(&to_chars(lossy_text(output).as_str()));
    let ghost all = text::char_lists(lines@);
    let mut sizes: Vec<u32> = Vec::new();
    for i in 0..lines.len()
        invariant
            all == text::char_lists(lines@),
            sizes@ == dmidecode_sizes(all.take(i as int)),
    {
        assert(all.take(i + 1).drop_last() =~= all.take(i as int));
        assert(all.take(i + 1).last() == lines@[i as int]@);
        if let Some(n) = read_dmidecode_line(&lines[i]) {
            sizes.push(n);
        }
    }
    assert(all.take(all.len() as int) =~= all);
    sizes
}

/// The sizes of the modules that `wmic memorychip get Capacity` lists.
pub fn windows_dimm_sizes(output: &Vec<u8>) -> (sizes: Vec<u32>)
    ensures
        sizes@ == wmic_sizes(without_head(text::lines(client::utf8_text(output@)))),
{
    let lines: Vec<Vec<char>> = split_lines(&to_chars(lossy_text(output).as_str()));
    let ghost all = text::char_lists(lines@);
    let ghost rest = without_head(all);
    let mut sizes: Vec<u32> = Vec::new();
    if lines.len() == 0 {
        return sizes;
    }
    for i in 1..lines.len()
        invariant
            lines.len() > 0,
            all == text::char_lists(lines@),
            rest == all.skip(1),
            sizes@ == wmic_sizes(rest.take(i - 1)),
    {
        assert(rest.take(i as int).drop_last() =~= rest.take(i - 1));
        assert(rest.take(i as int).last() == lines@[i as int]@);
        if let Some(n) = parse_chars(&trim_chars(&lines[i]), u64::MAX) {
            let gib: u64 = n / GIB;
            if gib > 0 {
                sizes.push(gib as u32);
            }
        }
    }
    assert(rest.take(rest.len() as int) =~= rest);
    sizes
}

// ---------------------------------------------------------------------------
// Graphics cards
// ---------------------------------------------------------------------------

/// What descriptions of graphics cards say: their numbers and their names.
pub open spec fn card_views(cards: Seq<(String, String)>) -> Seq<(Seq<char>, Seq<char>)> {
    Seq::new(cards.len(), |i: int| (cards[i].0@, cards[i].1@))
}

/// The graphics card that a line of `nvidia-smi` gives: its index, and its
/// name and memory in megabytes.
pub open spec fn nvidia_card(line: Seq<char>) -> Option<(Seq<char>, Seq<char>)> {
    let parts = text::split_on(line, ',');
    if parts.len() >= 3 {
        let memory = match number::parse_unsigned(text::trim(parts[2]), u64::MAX as nat) {
            Some(n) => n,
            None => 0,
        };
        Some(
            (
                text::trim(parts[0]),
                text::trim(parts[1]) + " "@ + number::decimal(memory) + "MB"@,
            ),
        )
    } else {
        None
    }
}

/// The graphics cards that the lines of `nvidia-smi` give.
pub open spec fn nvidia_cards(lines: Seq<Seq<char>>) -> Seq<(Seq<char>, Seq<char>)>
    decreases lines.len(),
{
    if lines.len() == 0 {
        Seq::empty()
    } else {
        let before = nvidia_cards(lines.drop_last());
        match nvidia_card(lines.last()) {
            Some(card) => before.push(card),
            None => before,
        }
    }
}

/// The name of the graphics card that a line of `wmic` gives, with its memory
/// in whole gibibytes: the last word is the memory, and what stands before it
/// the name.
pub open spec fn wmic_card(line: Seq<char>) -> Option<Seq<char>> {
    let words = text::words(text::trim(line));
    if words.len() >= 2 {
        match number::parse_unsigned(words.last(), u64::MAX as nat) {
            Some(n) => if n / GIB as nat > 0 {
                Some(
                    text::join(words.drop_last(), " "@) + " "@ + number::decimal(n / GIB as nat)
                        + "G"@,
                )
            } else {
                None
            },
            None => None,
        }
    } else {
        None
    }
}

/// The graphics cards that the lines of `wmic` give, numbered from one.
pub open spec fn wmic_cards(lines: Seq<Seq<char>>) -> Seq<(Seq<char>, Seq<char>)>
    decreases lines.len(),
{
    if lines.len() == 0 {
        Seq::empty()
    } else {
        let before = wmic_cards(lines.drop_last());
        match wmic_card(lines.last()) {
            Some(name) => before.push((number::decimal(before.len() + 1), name)),
            None => before,
        }
    }
}

/// The lines on graphics cards.
pub open spec fn card_lines(cards: Seq<(Seq<char>, Seq<char>)>) -> Seq<char>
    decreases cards.len(),
{
    if cards.len() == 0 {
        Seq::empty()
    } else {
        card_lines(cards.drop_last()) + "GPU "@ + cards.last().0 + ": "@ + cards.last().1 + "\n"@
    }
}

/// What is known of the machine.
pub open spec fn environment(
    facts: SystemFacts,
    memory: Seq<char>,
    cards: Seq<(Seq<char>, Seq<char>)>,
    zh: bool,
) -> Seq<char> {
    text::label(zh, "操作系统"@, "OS"@) + ": "@ + text_or(facts.os_name, Seq::empty()) + " "@
        + text_or(facts.os_version, Seq::empty()) + "\n"@ + "CPU: "@ + text_or(
        facts.cpu_model,
        "Unknown"@,
    ) + " ("@ + number::decimal(facts.cpu_cores as nat) + " "@ + text::label(
        zh,
        "核心"@,
        "cores"@,
    ) + ")\n"@ + text::label(zh, "内存"@, "Memory"@) + ": "@ + memory + "\n"@ + card_lines(cards)
}

/// A text, or another one where there is none.
pub open spec fn text_or(s: Option<String>, other: Seq<char>) -> Seq<char> {
    match s {
        Some(s) => s@,
        None => other,
    }
}

fn append_text_or(s: &mut String, part: &Option<String>, other: &str)
    ensures
        final(s)@ == old(s)@ + text_or(*part, other@),
{
    match part {
        Some(p) => s.append(p.as_str()),
        None => s.append(other),
    }
}

fn read_nvidia_line(line: &Vec<char>) -> (card: Option<(String, String)>)
    ensures
        card is Some <==> nvidia_card(line@) is Some,
        card matches Some(c) ==> nvidia_card(line@) == Some((c.0@, c.1@)),
{
    let parts: Vec<Vec<char>> = split_chars(line, ',');
    let ghost all = text::char_lists(parts@);
    if parts.len() < 3 {
        return None;
    }
    assert(all[0] == parts@[0]@ && all[1] == parts@[1]@ && all[2] == parts@[2]@);
    let memory: u64 = match parse_chars(&trim_chars(&parts[2]), u64::MAX) {
        Some(n) => n,
        None => 0,
    };
    let name: String = to_text(&trim_chars(&parts[1])).concat(" ").concat(
        decimal_text(memory as u128).as_str(),
    ).concat("MB");
    Some((to_text(&trim_chars(&parts[0])), name))
}

fn read_wmic_card_line(line: &Vec<char>) -> (name: Option<String>)
    ensures
        name is Some <==> wmic_card(line@) is Some,
        name matches Some(n) ==> wmic_card(line@) == Some(n@),
{
    let mut words: Vec<Vec<char>> = split_words(&trim_chars(line));
    let ghost all = text::char_lists(words@);
    if words.len() < 2 {
        return None;
    }
    assert(all.last() == words@.last()@);
    let last: Vec<char> = words.pop().unwrap();
    assert(text::char_lists(words@) =~= all.drop_last());
    match parse_chars(&last, u64::MAX) {
        Some(n) => {
            let gib: u64 = n / GIB;
            if gib > 0 {
                Some(
                    join_chars(&words, " ").concat(" ").concat(
                        decimal_text(gib as u128).as_str(),
                    ).concat("G"),
                )
            } else {
                None
            }
        },
        None => None,
    }
}

impl EnvMonitor {
    /// Lists memory modules by their sizes, the largest first.
    pub fn format_dimm_config(dimm_sizes: &[u32]) -> (s: String)
        ensures
            lists_modules(s@, dimm_sizes@),
    {
        let groups: Vec<u32> = distinct_sizes(dimm_sizes);
        let ghost all = Seq::new(
            groups@.len(),
            |i: int| group_text(dimm_sizes@, groups@[i]),
        );
        let mut config: String = String::new();
        assert(config@ =~= text::join(all.take(0), " "@));
        for i in 0..groups.len()
            invariant
                all == Seq::new(
                    groups@.len(),
                    |i: int| group_text(dimm_sizes@, groups@[i]),
                ),
                config@ == text::join(all.take(i as int), " "@),
        {
            if i > 0 {
                config.append(" ");
            }
            config.append(decimal_text(groups[i] as u128).as_str());
            config.append("G*");
            config.append(decimal_text(count_size(dimm_sizes, groups[i]) as u128).as_str());
            proof {
                assert(all.take(i + 1).drop_last() =~= all.take(i as int));
                let piece = group_text(dimm_sizes@, groups@[i as int]);
                assert(all.take(i + 1).last() == piece);
                assert(config@ =~= text::join(all.take(i + 1), " "@));
            }
        }
        assert(all.take(all.len() as int) =~= all);
        assert(descending(groups@));
        config
    }

    /// Describes the memory: by its modules if any are known, and else by its
    /// size and what of it is free, in whole gibibytes.
    pub fn format_memory_info(dimm_sizes: &[u32], total: u64, available: u64) -> (s: String)
        ensures
            dimm_sizes@.len() > 0 ==> lists_modules(s@, dimm_sizes@),
            dimm_sizes@.len() == 0 ==> s@ == number::decimal((total / GIB) as nat)
                + " GB total, "@ + number::decimal((available / GIB) as nat) + " GB available"@,
    {
        if dimm_sizes.len() > 0 {
            return EnvMonitor::format_dimm_config(dimm_sizes);
        }
        decimal_text((total / GIB) as u128).concat(" GB total, ").concat(
            decimal_text((available / GIB) as u128).as_str(),
        ).concat(" GB available")
    }

    /// Reads the graphics cards that `nvidia-smi` lists, if it could be run.
    pub fn get_nvidia_info(output: Option<Vec<u8>>) -> (info: Result<
        Vec<(String, String)>,
        String,
    >)
        ensures
            info is Ok <==> output is Some,
            info matches Ok(cards) ==> card_views(cards@) == nvidia_cards(
                text::lines(text::trim(client::utf8_text(output->0@))),
            ),
            info matches Err(e) ==> e@ == "No GPU info available"@,
    {
        let output: Vec<u8> = match output {
            Some(output) => output,
            None => {
                return Err("No GPU info available".to_owned());
            },
        };
        let lines: Vec<Vec<char>> = split_lines(
            &trim_chars(&to_chars(lossy_text(&output).as_str())),
        );
        let ghost all = text::char_lists(lines@);
        let mut cards: Vec<(String, String)> = Vec::new();
        assert(card_views(cards@) =~= nvidia_cards(all.take(0)));
        for i in 0..lines.len()
            invariant
                all == text::char_lists(lines@),
                card_views(cards@) == nvidia_cards(all.take(i as int)),
        {
            assert(all.take(i + 1).drop_last() =~= all.take(i as int));
            assert(all.take(i + 1).last() == lines@[i as int]@);
            if let Some(card) = read_nvidia_line(&lines[i]) {
                let ghost before = card_views(cards@);
                let ghost view = (card.0@, card.1@);
                cards.push(card);
                assert(card_views(cards@) =~= before.push(view));
            }
        }
        assert(all.take(all.len() as int) =~= all);
        Ok(cards)
    }

    /// Reads the graphics cards that `wmic` lists, if it could be run. It is
    /// an error if there are none.
    pub fn get_gpu_info_windows(output: Option<Vec<u8>>) -> (info: Result<
        Vec<(String, String)>,
        String,
    >)
        ensures
            ({
                let cards = match output {
                    Some(output) => wmic_cards(
                        without_head(text::lines(client::utf8_text(output@))),
                    ),
                    None => Seq::empty(),
                };
                &&& info is Ok <==> cards.len() > 0
                &&& info matches Ok(found) ==> card_views(found@) == cards
                &&& info matches Err(e) ==> e@ == "No GPU info available"@
            }),
    {
        let mut cards: Vec<(String, String)> = Vec::new();
        if let Some(output) = output {
            let lines: Vec<Vec<char>> = split_lines(&to_chars(lossy_text(&output).as_str()));
            let ghost all = text::char_lists(lines@);
            let ghost rest = without_head(all);
            assert(card_views(cards@) =~= wmic_cards(rest.take(0)));
            let mut i: usize = 1;
            while i < lines.len()
                invariant
                    1 <= i,
                    all == text::char_lists(lines@),
                    rest == without_head(all),
                    i <= lines.len() || (i == 1 && lines.len() == 0),
                    card_views(cards@) == wmic_cards(rest.take(i - 1)),
                    cards.len() <= i,
                decreases lines.len() - i,
            {
                assert(rest.take(i as int).drop_last() =~= rest.take(i - 1));
                assert(rest.take(i as int).last() == lines@[i as int]@);
                if let Some(name) = read_wmic_card_line(&lines[i]) {
                    let ghost before = card_views(cards@);
                    let number: String = decimal_text(cards.len() as u128 + 1);
                    let ghost view = (number@, name@);
                    cards.push((number, name));
                    assert(card_views(cards@) =~= before.push(view));
                }
                i = i + 1;
            }
            assert(rest.take(i - 1) =~= rest);
        }
        if cards.len() == 0 {
            return Err("No GPU info available".to_owned());
        }
        Ok(cards)
    }

    /// Describes the machine: the system, the processor, the memory, and a
    /// line for each graphics card.
    pub fn collect_with_lang(
        lang: &str,
        facts: &SystemFacts,
        memory: &str,
        cards: &Vec<(String, String)>,
    ) -> (s: String)
        ensures
            s@ == environment(*facts, memory@, card_views(cards@), lang@ == "zh"@),
    {
        let zh: bool = same_text(lang, "zh");
        let mut s: String = choose_label(zh, "操作系统", "OS").to_owned();
        s.append(": ");
        append_text_or(&mut s, &facts.os_name, "");
        s.append(" ");
        append_text_or(&mut s, &facts.os_version, "");
        proof {
            reveal_strlit("");
            assert(""@ =~= Seq::<char>::empty());
        }
        s.append("\n");
        s.append("CPU: ");
        append_text_or(&mut s, &facts.cpu_model, "Unknown");
        s.append(" (");
        s.append(decimal_text(facts.cpu_cores as u128).as_str());
        s.append(" ");
        s.append(choose_label(zh, "核心", "cores"));
        s.append(")\n");
        s.append(choose_label(zh, "内存", "Memory"));
        s.append(": ");
        s.append(memory);
        s.append("\n");
        let ghost head = s@;
        let ghost all = card_views(cards@);
        assert(s@ =~= head + card_lines(all.take(0)));
        for i in 0..cards.len()
            invariant
                all == card_views(cards@),
                s@ == head + card_lines(all.take(i as int)),
        {
            s.append("GPU ");
            s.append(cards[i].0.as_str());
            s.append(": ");
            s.append(cards[i].1.as_str());
            s.append("\n");
            assert(all.take(i + 1).drop_last() =~= all.take(i as int));
            assert(s@ =~= head + card_lines(all.take(i + 1)));
        }
        assert(all.take(all.len() as int) =~= all);
        s
    }
}

// ---------------------------------------------------------------------------
// Laws
// ---------------------------------------------------------------------------

/// How often a size occurs is how many modules have it.
pub proof fn law_occurrences(sizes: Seq<u32>, size: u32)
    ensures
        occurrences(sizes, size) == sizes.to_multiset().count(size),
    decreases sizes.len(),
{
    broadcast use vstd::multiset::group_multiset_axioms;

    sizes.to_multiset_ensures();
    if sizes.len() > 0 {
        let fewer = sizes.drop_last();
        law_occurrences(fewer, size);
        fewer.to_multiset_ensures();
        assert(fewer.push(sizes.last()) =~= sizes);
    } else {
        assert(sizes =~= Seq::<u32>::empty());
    }
}

/// A list of modules has each size that occurs once, in descending order, with
/// the number of modules that have it.
pub proof fn law_modules(s: Seq<char>, sizes: Seq<u32>)
    requires
        lists_modules(s, sizes),
    ensures
        exists|groups: Seq<u32>|
            {
                &&& #[trigger] groups.to_set() == sizes.to_set()
                &&& forall|i: int, j: int| 0 <= i < j < groups.len() ==> groups[i] > groups[j]
                &&& s == text::join(
                    Seq::new(
                        groups.len(),
                        |i: int|
                            number::decimal(groups[i] as nat) + "G*"@ + number::decimal(
                                sizes.to_multiset().count(groups[i]),
                            ),
                    ),
                    " "@,
                )
            },
{
    let groups = choose|groups: Seq<u32>|
        #[trigger] descending(groups) && same_numbers(groups, sizes) && s == groups_text(
            sizes,
            groups,
        );
    assert forall|x: u32| groups.to_set().contains(x) <==> sizes.to_set().contains(x) by {
        assert(groups.contains(x) <==> sizes.contains(x));
    }
    assert(groups.to_set() =~= sizes.to_set());
    let a = Seq::new(groups.len(), |i: int| group_text(sizes, groups[i]));
    let b = Seq::new(
        groups.len(),
        |i: int|
            number::decimal(groups[i] as nat) + "G*"@ + number::decimal(
                sizes.to_multiset().count(groups[i]),
            ),
    );
    assert forall|i: int| 0 <= i < groups.len() implies a[i] == b[i] by {
        law_occurrences(sizes, groups[i]);
    }
    assert(a =~= b);
}

/// Modules of one size are listed as that size and their number.
pub proof fn law_uniform_modules(s: Seq<char>, sizes: Seq<u32>, size: u32)
    requires
        lists_modules(s, sizes),
        sizes.len() > 0,
        forall|i: int| 0 <= i < sizes.len() ==> #[trigger] sizes[i] == size,
    ensures
        s == number::decimal(size as nat) + "G*"@ + number::decimal(sizes.len()),
{
    let groups = choose|groups: Seq<u32>|
        #[trigger] descending(groups) && same_numbers(groups, sizes) && s == groups_text(
            sizes,
            groups,
        );
    assert(sizes.contains(sizes[0]));
    assert(groups.contains(size));
    assert forall|i: int| 0 <= i < groups.len() implies groups[i] == size by {
        assert(groups.contains(groups[i]));
        assert(sizes.contains(groups[i]));
    }
    assert(groups.len() == 1) by {
        if groups.len() > 1 {
            assert(groups[0] > groups[1]);
        }
    }
    lemma_all_occur(sizes, size);
    assert(Seq::new(groups.len(), |i: int| group_text(sizes, groups[i])) =~= seq![
        group_text(sizes, size),
    ]);
    text::law_join(Seq::empty(), group_text(sizes, size), " "@);
}

proof fn lemma_all_occur(sizes: Seq<u32>, size: u32)
    requires
        forall|i: int| 0 <= i < sizes.len() ==> #[trigger] sizes[i] == size,
    ensures
        occurrences(sizes, size) == sizes.len(),
    decreases sizes.len(),
{
    if sizes.len() > 0 {
        let fewer = sizes.drop_last();
        assert forall|i: int| 0 <= i < fewer.len() implies #[trigger] fewer[i] == size by {
            assert(fewer[i] == sizes[i]);
        }
        lemma_all_occur(fewer, size);
        assert(sizes[sizes.len() - 1] == size);
    }
}

/// No modules are listed as nothing.
pub proof fn law_no_modules(s: Seq<char>, sizes: Seq<u32>)
    requires
        lists_modules(s, sizes),
        sizes.len() == 0,
    ensures
        s == Seq::<char>::empty(),
{
    let groups = choose|groups: Seq<u32>|
        #[trigger] descending(groups) && same_numbers(groups, sizes) && s == groups_text(
            sizes,
            groups,
        );
    if groups.len() > 0 {
        assert(groups.contains(groups[0]));
        assert(sizes.contains(groups[0]));
    }
    assert(Seq::new(groups.len(), |i: int| group_text(sizes, groups[i])) =~= Seq::<
        Seq<char>,
    >::empty());
}

/// A line of `dmidecode` on a module that is there gives the number that
/// follows the mark, if it is not zero and fits; one without the mark, or on a
/// place without a module, gives none.
pub proof fn law_dmidecode_line(
    before: Seq<char>,
    first: char,
    n: nat,
    second: char,
    rest: Seq<char>,
    after: Seq<char>,
)
    requires
        forall|i: int| 0 <= i < before.len() ==> text::is_whitespace(#[trigger] before[i]),
        forall|i: int| 0 <= i < after.len() ==> text::is_whitespace(#[trigger] after[i]),
        text::is_whitespace(first),
        text::is_whitespace(second),
        rest.len() > 0,
        !text::is_whitespace(rest.last()),
    ensures
        ({
            let inner = "Size:"@ + seq![first] + (number::decimal(n) + seq![second] + rest);
            let size = dmidecode_size(before + inner + after);
            &&& text::contains(inner, "No Module"@) ==> size is None
            &&& !text::contains(inner, "No Module"@) && 0 < n <= u32::MAX ==> size == Some(n as u32)
            &&& n == 0 || n > u32::MAX ==> size is None
        }),
{
    reveal_strlit("Size:");
    let digits = number::decimal(n);
    let tail = digits + seq![second] + rest;
    let inner = "Size:"@ + seq![first] + tail;
    assert(inner.last() == rest.last());
    assert(inner[0] == 'S');
    text::law_trim(before, inner, after);
    assert(inner =~= "Size:"@ + (seq![first] + tail));
    text::law_starts_with(inner, "Size:"@, seq![first] + tail);
    text::law_words("Size:"@, first, tail);
    lemma_decimal_is_a_word(n);
    text::law_words(digits, second, rest);
    assert(text::words(inner)[1] == digits);
    number::law_decimal_round_trip(n, n);
    if n <= u32::MAX {
        number::law_decimal_round_trip(n, u32::MAX as nat);
    } else {
        assert(number::parse_unsigned(digits, u32::MAX as nat) is None);
    }
}

proof fn lemma_decimal_is_a_word(n: nat)
    ensures
        number::decimal(n).len() > 0,
        forall|i: int|
            0 <= i < number::decimal(n).len() ==> !text::is_whitespace(
                #[trigger] number::decimal(n)[i],
            ),
        number::decimal(n)[0] != '+',
{
    number::law_decimal_digits(n);
    let s = number::decimal(n);
    assert forall|i: int| 0 <= i < s.len() implies !text::is_whitespace(#[trigger] s[i]) by {
        assert(48 <= s[i] as u32 <= 57);
    }
    assert(48 <= s[0] as u32 <= 57);
}

/// The same holds where nothing follows the number.
pub proof fn law_short_dmidecode_line(before: Seq<char>, white: char, n: nat, after: Seq<char>)
    requires
        forall|i: int| 0 <= i < before.len() ==> text::is_whitespace(#[trigger] before[i]),
        forall|i: int| 0 <= i < after.len() ==> text::is_whitespace(#[trigger] after[i]),
        text::is_whitespace(white),
    ensures
        ({
            let inner = "Size:"@ + seq![white] + number::decimal(n);
            let size = dmidecode_size(before + inner + after);
            &&& text::contains(inner, "No Module"@) ==> size is None
            &&& !text::contains(inner, "No Module"@) && 0 < n <= u32::MAX ==> size == Some(n as u32)
            &&& n == 0 || n > u32::MAX ==> size is None
        }),
        dmidecode_size(before + "Size:"@ + after) is None,
{
    reveal_strlit("Size:");
    let digits = number::decimal(n);
    let inner = "Size:"@ + seq![white] + digits;
    lemma_decimal_is_a_word(n);
    assert(digits[digits.len() - 1] == digits.last());
    assert(inner.last() == digits.last());
    assert(inner[0] == 'S');
    text::law_trim(before, inner, after);
    assert(inner =~= "Size:"@ + (seq![white] + digits));
    text::law_starts_with(inner, "Size:"@, seq![white] + digits);
    text::law_words("Size:"@, white, digits);
    text::law_words(digits, white, digits);
    assert(text::words(inner)[1] == digits);
    number::law_decimal_round_trip(n, n);
    if n <= u32::MAX {
        number::law_decimal_round_trip(n, u32::MAX as nat);
    } else {
        assert(number::parse_unsigned(digits, u32::MAX as nat) is None);
    }
    text::law_trim(before, "Size:"@, after);
}

/// A line of `dmidecode` that does not start with the mark gives no size.
pub proof fn law_other_dmidecode_line(before: Seq<char>, inner: Seq<char>, after: Seq<char>)
    requires
        forall|i: int| 0 <= i < before.len() ==> text::is_whitespace(#[trigger] before[i]),
        forall|i: int| 0 <= i < after.len() ==> text::is_whitespace(#[trigger] after[i]),
        inner.len() > 0 ==> !text::is_whitespace(inner[0]) && !text::is_whitespace(inner.last()),
        inner.len() < 5 || inner.take(5) != "Size:"@,
    ensures
        dmidecode_size(before + inner + after) is None,
{
    reveal_strlit("Size:");
    text::law_trim(before, inner, after);
    if inner.len() >= 5 {
        assert(inner.subrange(0, 5) =~= inner.take(5));
    }
}

/// A line of `wmic` gives the whole gibibytes of its number of bytes, where
/// there are any.
pub proof fn law_wmic_line(before: Seq<char>, n: nat, after: Seq<char>, gib: nat)
    requires
        forall|i: int| 0 <= i < before.len() ==> text::is_whitespace(#[trigger] before[i]),
        forall|i: int| 0 <= i < after.len() ==> text::is_whitespace(#[trigger] after[i]),
        n <= u64::MAX,
        gib * 1_073_741_824 <= n < (gib + 1) * 1_073_741_824,
        gib <= u32::MAX,
    ensures
        gib > 0 ==> wmic_size(before + number::decimal(n) + after) == Some(gib as u32),
        gib == 0 ==> wmic_size(before + number::decimal(n) + after) is None,
{
    lemma_decimal_is_a_word(n);
    text::law_trim(before, number::decimal(n), after);
    number::law_decimal_round_trip(n, u64::MAX as nat);
    assert(n / 1_073_741_824 == gib);
}

/// The sizes are those of the lines that give one, in order; the first line of
/// `wmic` is a head.
pub proof fn law_sizes_of_lines(lines: Seq<Seq<char>>, line: Seq<char>)
    ensures
        dmidecode_sizes(lines) == lines.filter_map(|line: Seq<char>| dmidecode_size(line)),
        wmic_sizes(lines) == lines.filter_map(|line: Seq<char>| wmic_size(line)),
        without_head(seq![line] + lines) == lines,
        without_head(Seq::empty()) == Seq::<Seq<char>>::empty(),
    decreases lines.len(),
{
    let a = |line: Seq<char>| dmidecode_size(line);
    let b = |line: Seq<char>| wmic_size(line);
    if lines.len() > 0 {
        law_sizes_of_lines(lines.drop_last(), line);
    }
    assert(dmidecode_sizes(lines) =~= lines.filter_map(a));
    assert(wmic_sizes(lines) =~= lines.filter_map(b));
    assert((seq![line] + lines).skip(1) =~= lines);
}

/// A line of `nvidia-smi` gives the index, the name and the memory of a card,
/// without the white space around them; what cannot be read as memory counts
/// as zero, and what stands behind a third comma does not matter.
pub proof fn law_nvidia_line(
    index: Seq<char>,
    name: Seq<char>,
    before: Seq<char>,
    memory: nat,
    after: Seq<char>,
    rest: Seq<char>,
)
    requires
        !index.contains(','),
        !name.contains(','),
        !before.contains(','),
        !after.contains(','),
        forall|i: int| 0 <= i < before.len() ==> text::is_whitespace(#[trigger] before[i]),
        forall|i: int| 0 <= i < after.len() ==> text::is_whitespace(#[trigger] after[i]),
    ensures
        ({
            let third = before + number::decimal(memory) + after;
            let card = (
                text::trim(index),
                text::trim(name) + " "@ + number::decimal(memory) + "MB"@,
            );
            &&& memory <= u64::MAX ==> nvidia_card(
                index + seq![','] + (name + seq![','] + third),
            ) == Some(card)
            &&& memory <= u64::MAX ==> nvidia_card(
                index + seq![','] + (name + seq![','] + (third + seq![','] + rest)),
            ) == Some(card)
        }),
        nvidia_card(index + seq![','] + (name + seq![','] + before)) == Some(
            (text::trim(index), text::trim(name) + " "@ + number::decimal(0) + "MB"@),
        ),
        nvidia_card(index) is None,
        nvidia_card(index + seq![','] + name) is None,
{
    let digits = number::decimal(memory);
    let third = before + digits + after;
    lemma_decimal_is_a_word(memory);
    number::law_decimal_digits(memory);
    assert(!third.contains(',')) by {
        if third.contains(',') {
            let i = choose|i: int| 0 <= i < third.len() && third[i] == ',';
            if i < before.len() {
                assert(before[i] == ',');
            } else if i < before.len() + digits.len() {
                assert(48 <= digits[i - before.len()] as u32 <= 57);
            } else {
                assert(after[i - before.len() - digits.len()] == ',');
            }
        }
    }
    text::law_split(index, ',', name + seq![','] + third);
    text::law_split(name, ',', third);
    text::law_split(third, ',', rest);
    text::law_split(index, ',', name + seq![','] + (third + seq![','] + rest));
    text::law_split(name, ',', third + seq![','] + rest);
    text::law_split(index, ',', name + seq![','] + before);
    text::law_split(name, ',', before);
    text::law_split(before, ',', before);
    text::law_split(index, ',', name);
    text::lemma_split_nonempty(rest, ',');
    text::law_trim(before, digits, after);
    text::law_trim(before, Seq::empty(), Seq::empty());
    assert(before + Seq::<char>::empty() =~= before);
    if memory <= u64::MAX {
        number::law_decimal_round_trip(memory, u64::MAX as nat);
    }
    let a = text::split_on(index + seq![','] + (name + seq![','] + third), ',');
    assert(a[0] == index && a[1] == name && a[2] == third);
    let b = text::split_on(
        index + seq![','] + (name + seq![','] + (third + seq![','] + rest)),
        ',',
    );
    assert(b[0] == index && b[1] == name && b[2] == third);
    let c = text::split_on(index + seq![','] + (name + seq![','] + before), ',');
    assert(c[0] == index && c[1] == name && c[2] == before);
}

/// A line of `wmic` on a card ends with its memory in bytes. It gives the
/// words before it, and the whole gibibytes, where there are any of both.
pub proof fn law_wmic_card_line(name: Seq<char>, white: char, n: nat, gib: nat)
    requires
        name.len() > 0,
        !text::is_whitespace(name[0]),
        text::is_whitespace(white),
        n <= u64::MAX,
        gib * 1_073_741_824 <= n < (gib + 1) * 1_073_741_824,
    ensures
        gib > 0 ==> wmic_card(name + seq![white] + number::decimal(n)) == Some(
            text::join(text::words(name), " "@) + " "@ + number::decimal(gib) + "G"@,
        ),
        gib == 0 ==> wmic_card(name + seq![white] + number::decimal(n)) is None,
        wmic_card(number::decimal(n)) is None,
{
    let digits = number::decimal(n);
    let line = name + seq![white] + digits;
    let none = Seq::<char>::empty();
    lemma_decimal_is_a_word(n);
    assert(line[0] == name[0] && line.last() == digits.last());
    assert(digits[digits.len() - 1] == digits.last());
    text::law_trim(none, line, none);
    text::law_trim(none, digits, none);
    text::law_words_on_both_sides(name, white, digits);
    text::law_words(digits, white, none);
    lemma_starts_with_a_word(name);
    let words = text::words(name) + seq![digits];
    assert(words.drop_last() =~= text::words(name));
    number::law_decimal_round_trip(n, u64::MAX as nat);
    assert(n / 1_073_741_824 == gib);
}

proof fn lemma_starts_with_a_word(s: Seq<char>)
    requires
        s.len() > 0,
        !text::is_whitespace(s[0]),
    ensures
        text::words(s).len() > 0,
    decreases s.len(),
{
    if s.len() > 1 {
        lemma_starts_with_a_word(s.drop_last());
    }
}

/// The cards are those of the lines that give one, in order; those of `wmic`
/// are numbered from one.
pub proof fn law_cards_of_lines(lines: Seq<Seq<char>>)
    ensures
        nvidia_cards(lines) == lines.filter_map(|line: Seq<char>| nvidia_card(line)),
        wmic_cards(lines).len() == lines.filter_map(|line: Seq<char>| wmic_card(line)).len(),
        forall|i: int|
            0 <= i < wmic_cards(lines).len() ==> #[trigger] wmic_cards(lines)[i] == (
                number::decimal((i + 1) as nat),
                lines.filter_map(|line: Seq<char>| wmic_card(line))[i],
            ),
    decreases lines.len(),
{
    let a = |line: Seq<char>| nvidia_card(line);
    let b = |line: Seq<char>| wmic_card(line);
    if lines.len() > 0 {
        law_cards_of_lines(lines.drop_last());
    }
    assert(nvidia_cards(lines) =~= lines.filter_map(a));
}

/// Views of cards are taken card by card, in order.
pub proof fn law_card_views(cards: Seq<(String, String)>)
    ensures
        card_views(cards).len() == cards.len(),
        forall|i: int|
            0 <= i < cards.len() ==> #[trigger] card_views(cards)[i] == (cards[i].0@, cards[i].1@),
{
}

/// Each card has a line of its own, behind those before it.
pub proof fn law_card_lines(
    cards: Seq<(Seq<char>, Seq<char>)>,
    key: Seq<char>,
    value: Seq<char>,
)
    ensures
        card_lines(Seq::empty()) == Seq::<char>::empty(),
        card_lines(cards.push((key, value))) == card_lines(cards) + "GPU "@ + key + ": "@ + value
            + "\n"@,
{
    assert(cards.push((key, value)).drop_last() =~= cards);
}

/// The description has the system, the processor with the number of its
/// cores, the memory and the cards; a processor without a name is unknown.
pub proof fn law_environment(
    facts: SystemFacts,
    memory: Seq<char>,
    cards: Seq<(Seq<char>, Seq<char>)>,
    os: Seq<char>,
    version: Seq<char>,
    cpu: Seq<char>,
)
    requires
        facts.os_name matches Some(s) ==> os == s@,
        facts.os_name is None ==> os == Seq::<char>::empty(),
        facts.os_version matches Some(s) ==> version == s@,
        facts.os_version is None ==> version == Seq::<char>::empty(),
        facts.cpu_model matches Some(s) ==> cpu == s@,
        facts.cpu_model is None ==> cpu == "Unknown"@,
    ensures
        environment(facts, memory, cards, false) == "OS"@ + ": "@ + os + " "@ + version + "\n"@
            + "CPU: "@ + cpu + " ("@ + number::decimal(facts.cpu_cores as nat) + " "@ + "cores"@
            + ")\n"@ + "Memory"@ + ": "@ + memory + "\n"@ + card_lines(cards),
        environment(facts, memory, cards, true) == "操作系统"@ + ": "@ + os + " "@ + version
            + "\n"@ + "CPU: "@ + cpu + " ("@ + number::decimal(facts.cpu_cores as nat) + " "@
            + "核心"@ + ")\n"@ + "内存"@ + ": "@ + memory + "\n"@ + card_lines(cards),
{
}

} // verus!

//! Numbers as text.
use vstd::prelude::*;
use crate::text::to_text;

verus! {

/// The character of a decimal digit.
pub open spec fn digit_char(d: nat) -> char {
    (48 + d) as char
}

/// `n` in decimal, without leading zeros.
pub open spec fn decimal(n: nat) -> Seq<char>
    decreases n,
{
    if n < 10 {
        seq![digit_char(n)]
    } else {
        decimal(n / 10).push(digit_char(n % 10))
    }
}

/// Writes `n` in decimal.
pub fn decimal_text(n: u128) -> (s: String)
    ensures
        s@ == decimal(n as nat),
{
    let mut low: Vec<char> = Vec::new();
    let mut rest: u128 = n;
    assert(decimal(n as nat) =~= decimal(rest as nat) + low@.reverse());
    while rest >= 10
        invariant
            decimal(n as nat) == decimal(rest as nat) + low@.reverse(),
        decreases rest,
    {
        let ghost before = low@;
        let d: u8 = (rest % 10) as u8;
        let c: char = (48 + d) as char;
        low.push(c);
        assert(low@.reverse() =~= seq![c] + before.reverse());
        assert(decimal(rest as nat) == decimal((rest / 10) as nat).push(c));
        assert(decimal((rest / 10) as nat).push(c) + before.reverse() =~= decimal(
            (rest / 10) as nat,
        ) + low@.reverse());
        rest = rest / 10;
    }
    let c: char = (48 + rest as u8) as char;
    let mut digits: Vec<char> = Vec::new();
    digits.push(c);
    let mut i: usize = low.len();
    while i > 0
        invariant
            i <= low.len(),
            digits@ =~= seq![c] + low@.skip(i as int).reverse(),
        decreases i,
    {
        i = i - 1;
        digits.push(low[i]);
        assert(low@.skip(i as int) =~= seq![low@[i as int]] + low@.skip(i + 1));
    }
    assert(low@.skip(0) =~= low@);
    to_text(&digits)
}

/// Whether `c` is a decimal digit.
pub open spec fn is_digit(c: char) -> bool {
    48 <= c as u32 <= 57
}

/// The number that a sequence of decimal digits stands for.
pub open spec fn digits_value(s: Seq<char>) -> nat
    decreases s.len(),
{
    if s.len() == 0 {
        0
    } else {
        digits_value(s.drop_last()) * 10 + (s.last() as u32 - 48) as nat
    }
}

/// The digits of a number that may start with a plus sign.
pub open spec fn after_plus(s: Seq<char>) -> Seq<char> {
    if s.len() > 0 && s[0] == '+' {
        s.skip(1)
    } else {
        s
    }
}

/// The unsigned number that `s` writes in decimal, where it is at most `max`:
/// digits only, at least one, with a plus sign or nothing before them.
pub open spec fn parse_unsigned(s: Seq<char>, max: nat) -> Option<nat> {
    let digits = after_plus(s);
    if digits.len() > 0 && (forall|i: int| 0 <= i < digits.len() ==> is_digit(#[trigger] digits[i]))
        && digits_value(digits) <= max {
        Some(digits_value(digits))
    } else {
        None
    }
}

proof fn lemma_digits_value_grows(s: Seq<char>, i: int)
    requires
        0 <= i <= s.len(),
    ensures
        digits_value(s.take(i)) <= digits_value(s),
    decreases s.len(),
{
    if i < s.len() {
        assert(s.drop_last().take(i) =~= s.take(i));
        lemma_digits_value_grows(s.drop_last(), i);
    } else {
        assert(s.take(i) =~= s);
    }
}

/// Reads an unsigned decimal number of at most `max`.
pub fn parse_chars(s: &Vec<char>, max: u64) -> (n: Option<u64>)
    ensures
        n is Some <==> parse_unsigned(s@, max as nat) is Some,
        n matches Some(v) ==> parse_unsigned(s@, max as nat) == Some(v as nat),
{
    let first: usize = if s.len() > 0 && s[0] == '+' {
        1
    } else {
        0
    };
    let ghost digits = after_plus(s@);
    assert(digits =~= s@.skip(first as int));
    if first == s.len() {
        return None;
    }
    let mut value: u64 = 0;
    for i in first..s.len()
        invariant
            digits == s@.skip(first as int),
            digits == after_plus(s@),
            first < s.len(),
            value <= max,
            value == digits_value(digits.take(i - first)),
            forall|k: int| 0 <= k < i - first ==> is_digit(#[trigger] digits[k]),
    {
        let u: u32 = s[i] as u32;
        assert(digits[i - first] == s@[i as int]);
        if u < 48 || u > 57 {
            return None;
        }
        let ghost next = digits.take(i + 1 - first);
        assert(next.drop_last() =~= digits.take(i - first));
        proof {
            lemma_digits_value_grows(digits, i + 1 - first);
        }
        let wide: u128 = value as u128 * 10 + (u - 48) as u128;
        if wide > max as u128 {
            return None;
        }
        value = wide as u64;
    }
    assert(digits.take(digits.len() as int) =~= digits);
    Some(value)
}

/// Reads a number of 32 bits.
pub fn parse_u32(s: &Vec<char>) -> (n: Option<u32>)
    ensures
        n is Some <==> parse_unsigned(s@, u32::MAX as nat) is Some,
        n matches Some(v) ==> parse_unsigned(s@, u32::MAX as nat) == Some(v as nat),
{
    match parse_chars(s, u32::MAX as u64) {
        Some(v) => Some(v as u32),
        None => None,
    }
}

proof fn lemma_decimal_reads_back(n: nat)
    ensures
        decimal(n).len() > 0,
        forall|i: int| 0 <= i < decimal(n).len() ==> is_digit(#[trigger] decimal(n)[i]),
        digits_value(decimal(n)) == n,
    decreases n,
{
    if n < 10 {
        let s = decimal(n);
        assert(s.drop_last() =~= Seq::<char>::empty());
        assert(digits_value(s.drop_last()) == 0);
    } else {
        lemma_decimal_reads_back(n / 10);
        let s = decimal(n);
        assert(s.drop_last() =~= decimal(n / 10));
    }
}

/// A number that was written in decimal is read back as itself.
pub proof fn law_decimal_round_trip(n: nat, max: nat)
    requires
        n <= max,
    ensures
        parse_unsigned(decimal(n), max) == Some(n),
{
    lemma_decimal_reads_back(n);
    assert(decimal(n)[0] != '+');
}

/// The character of a hexadecimal digit, in lower case.
pub open spec fn hex_char(d: nat) -> char {
    if d < 10 {
        (48 + d) as char
    } else {
        (87 + d) as char
    }
}

/// The last `k` hexadecimal digits of `n`.
pub open spec fn hex_digits(n: nat, k: nat) -> Seq<char>
    decreases k,
{
    if k == 0 {
        Seq::empty()
    } else {
        hex_digits(n / 16, (k - 1) as nat).push(hex_char(n % 16))
    }
}

/// Writes the 16 hexadecimal digits of `n`.
pub fn hex_text(n: u64) -> (s: String)
    ensures
        s@ == hex_digits(n as nat, 16),
{
    let mut low: Vec<char> = Vec::new();
    let mut rest: u64 = n;
    let mut k: usize = 16;
    assert(hex_digits(n as nat, 16) =~= hex_digits(rest as nat, 16) + low@.reverse());
    while k > 0
        invariant
            k <= 16,
            low.len() == 16 - k,
            hex_digits(n as nat, 16) == hex_digits(rest as nat, k as nat) + low@.reverse(),
        decreases k,
    {
        let ghost before = low@;
        let d: u8 = (rest % 16) as u8;
        let c: char = if d < 10 {
            (48 + d) as char
        } else {
            (87 + d) as char
        };
        low.push(c);
        assert(low@.reverse() =~= seq![c] + before.reverse());
        assert(hex_digits(rest as nat, k as nat) == hex_digits(
            (rest / 16) as nat,
            (k - 1) as nat,
        ).push(c));
        assert(hex_digits((rest / 16) as nat, (k - 1) as nat).push(c) + before.reverse()
            =~= hex_digits((rest / 16) as nat, (k - 1) as nat) + low@.reverse());
        rest = rest / 16;
        k = k - 1;
    }
    assert(hex_digits(n as nat, 16) =~= low@.reverse());
    let mut digits: Vec<char> = Vec::new();
    let mut i: usize = low.len();
    while i > 0
        invariant
            i <= low.len(),
            digits@ =~= low@.skip(i as int).reverse(),
        decreases i,
    {
        i = i - 1;
        digits.push(low[i]);
        assert(low@.skip(i as int) =~= seq![low@[i as int]] + low@.skip(i + 1));
    }
    assert(low@.skip(0) =~= low@);
    to_text(&digits)
}

/// A number below ten is written as its digit, and a larger one as the number
/// of its tens with the digit of its ones behind it.
pub proof fn law_decimal(n: nat, d: nat)
    requires
        d < 10,
    ensures
        decimal(d) == seq![(48 + d) as char],
        n > 0 ==> decimal(10 * n + d) == decimal(n).push((48 + d) as char),
{
    assert((10 * n + d) / 10 == n);
    assert((10 * n + d) % 10 == d);
}

/// A number is written in digits only, without a zero in front.
pub proof fn law_decimal_digits(n: nat)
    ensures
        decimal(n).len() > 0,
        forall|i: int| 0 <= i < decimal(n).len() ==> 48 <= (#[trigger] decimal(n)[i]) as u32 <= 57,
        n > 0 ==> decimal(n)[0] != '0',
    decreases n,
{
    lemma_decimal_reads_back(n);
    if n >= 10 {
        law_decimal_digits(n / 10);
        assert(decimal(n)[0] == decimal(n / 10)[0]);
    }
}

/// One more digit behind a number makes it ten times as large, and larger by
/// the digit; what would exceed the largest number is not read.
pub proof fn law_parse_digit(s: Seq<char>, c: char, max: nat)
    requires
        forall|i: int| 0 <= i < s.len() ==> 48 <= (#[trigger] s[i]) as u32 <= 57,
        48 <= c as u32 <= 57,
    ensures
        s.len() == 0 ==> parse_unsigned(s.push(c), max) == (if c as u32 - 48 <= max {
            Some((c as u32 - 48) as nat)
        } else {
            None
        }),
        s.len() > 0 && parse_unsigned(s, max) is None ==> parse_unsigned(s.push(c), max) is None,
        s.len() > 0 ==> (parse_unsigned(s, max) matches Some(v) ==> parse_unsigned(s.push(c), max)
            == (if 10 * v + (c as u32 - 48) <= max {
            Some((10 * v + (c as u32 - 48)) as nat)
        } else {
            None
        })),
{
    let t = s.push(c);
    assert(t.drop_last() =~= s);
    assert(digits_value(t) == digits_value(s) * 10 + (c as u32 - 48) as nat);
    assert(t[0] != '+') by {
        if s.len() > 0 {
            assert(t[0] == s[0]);
        }
    }
    assert(s.len() > 0 ==> s[0] != '+');
    assert forall|i: int| 0 <= i < t.len() implies is_digit(#[trigger] t[i]) by {
        if i < s.len() {
            assert(t[i] == s[i]);
        }
    }
    assert(forall|i: int| 0 <= i < s.len() ==> is_digit(#[trigger] s[i]));
    if s.len() == 0 {
        assert(digits_value(s) == 0);
    }
}

/// A plus sign in front of a number does not change it, and a second one is
/// not read.
pub proof fn law_parse_plus(s: Seq<char>, max: nat)
    ensures
        s.len() == 0 || s[0] != '+' ==> parse_unsigned(seq!['+'] + s, max) == parse_unsigned(s, max),
        s.len() > 0 && s[0] == '+' ==> parse_unsigned(seq!['+'] + s, max) is None,
{
    assert((seq!['+'] + s).skip(1) =~= s);
    if s.len() > 0 && s[0] == '+' {
        assert(!is_digit(s[0]));
    }
}

/// Nothing is read where there is no digit, or anything else than a digit
/// behind the first place.
pub proof fn law_parse_rejects(s: Seq<char>, i: int, max: nat)
    requires
        0 <= i < s.len(),
        !(48 <= s[i] as u32 <= 57),
        i > 0 || s[i] != '+' || s.len() == 1,
    ensures
        parse_unsigned(s, max) is None,
        parse_unsigned(Seq::empty(), max) is None,
{
    let digits = after_plus(s);
    if s[0] == '+' {
        if i > 0 {
            assert(digits[i - 1] == s[i]);
            assert(!is_digit(digits[i - 1]));
        }
    } else {
        assert(!is_digit(digits[i]));
    }
}

/// A hexadecimal text has the digits asked for, the last of them first to
/// change: sixteen times a number and a digit is written as the number with
/// that digit behind it.
pub proof fn law_hex_digits(n: nat, d: nat, k: nat)
    requires
        d < 16,
    ensures
        hex_digits(n, 0) == Seq::<char>::empty(),
        hex_digits(16 * n + d, k + 1) == hex_digits(n, k).push(
            if d < 10 {
                (48 + d) as char
            } else {
                (87 + d) as char
            },
        ),
{
    assert((16 * n + d) / 16 == n);
    assert((16 * n + d) % 16 == d);
}

} // verus!

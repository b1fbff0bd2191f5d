//! Arithmetic in double precision, and seconds.
//!
//! A number in double precision is a whole number of units here, of a size
//! that is a fixed power of two: small enough that every such number that
//! comes up is a whole number of units. A sum, a difference, a product or a
//! quotient is rounded to fifty-three binary digits, to the nearest such
//! number, and to the one with an even last digit where two are equally near.
use vstd::prelude::*;
use vstd::arithmetic::div_mod::*;
use vstd::arithmetic::mul::*;

verus! {

/// The first number that has more than fifty-three binary digits.
pub const MANTISSA_LIMIT: u128 = 9_007_199_254_740_992;

/// How many units a second has: two to the power of eighty-three.
pub const SECOND: u128 = 9_671_406_556_917_033_397_649_408;

/// How many nanoseconds a second has.
pub const NANOS: u128 = 1_000_000_000;

/// The largest number of units that is rounded: two to the power of one
/// hundred and twenty-six.
pub const LARGEST: u128 = 85_070_591_730_234_615_865_843_651_857_942_052_864;

/// What the last of the digits of `x` that are kept is worth.
pub open spec fn last_digit(x: nat) -> nat
    decreases x,
{
    if x < MANTISSA_LIMIT {
        1
    } else {
        2 * last_digit(x / 2)
    }
}

/// The whole number that is nearest to `p / q`, and the even one where two
/// are.
pub open spec fn nearest(p: nat, q: nat) -> nat {
    let down = p / q;
    let rest = p % q;
    if 2 * rest < q || (2 * rest == q && down % 2 == 0) {
        down
    } else {
        down + 1
    }
}

/// `p / q`, rounded.
pub open spec fn quotient(p: nat, q: nat) -> nat {
    let digit = last_digit(p / q);
    nearest(p, q * digit) * digit
}

/// `x`, rounded.
pub open spec fn rounded(x: nat) -> nat {
    quotient(x, 1)
}

/// Some nanoseconds in seconds: the whole seconds, and the rest divided.
pub open spec fn seconds(nanos: nat) -> nat {
    rounded((nanos / NANOS as nat) * SECOND as nat + quotient(
        (nanos % NANOS as nat) * SECOND as nat,
        NANOS as nat,
    ))
}

/// The seconds from one number of nanoseconds to a larger one: the difference
/// of the two numbers of seconds.
pub open spec fn seconds_between(from: nat, to: nat) -> nat {
    if seconds(to) >= seconds(from) {
        rounded((seconds(to) - seconds(from)) as nat)
    } else {
        0
    }
}

/// The nanoseconds that are nearest to a number of units of a second.
pub open spec fn nanos_of(units: nat) -> nat {
    (units / SECOND as nat) * NANOS as nat + nearest(
        (units % SECOND as nat) * NANOS as nat,
        SECOND as nat,
    )
}

/// What is left of some nanoseconds once they have been written in seconds.
pub open spec fn kept(nanos: nat) -> nat {
    nanos_of(seconds(nanos))
}

/// When a span ends that starts at `start` and lasts for some nanoseconds,
/// written in seconds; at the latest at the last point in time that there is.
pub open spec fn end_of(start: u64, nanos: u64) -> u64 {
    if start + kept(nanos as nat) > u64::MAX {
        u64::MAX
    } else {
        (start + kept(nanos as nat)) as u64
    }
}

/// A thousandth of a second.
pub open spec fn thousandth() -> nat {
    quotient(SECOND as nat, 1000)
}

/// A number of seconds in double precision.
#[derive(Debug, Clone, Copy, PartialEq, Eq, Structural)]
pub struct Seconds {
    /// The number of units, of which a second has `SECOND`.
    pub units: u128,
}

proof fn lemma_last_digit(x: nat)
    ensures
        last_digit(x) >= 1,
        x / last_digit(x) < MANTISSA_LIMIT,
        last_digit(x) > 1 ==> x / last_digit(x) >= MANTISSA_LIMIT / 2,
        last_digit(x) <= x || last_digit(x) == 1,
    decreases x,
{
    if x >= MANTISSA_LIMIT {
        lemma_last_digit(x / 2);
        lemma_div_denominator(x as int, 2, last_digit(x / 2) as int);
    }
}

proof fn lemma_nearest(p: nat, q: nat)
    requires
        q > 0,
    ensures
        p / q <= nearest(p, q) <= p / q + 1,
        p % q == 0 ==> nearest(p, q) == p / q,
{
}

/// Whether `x` has no more digits than are kept.
pub open spec fn is_double(x: nat) -> bool {
    x % last_digit(x) == 0
}

proof fn lemma_last_digit_grows(x: nat, y: nat)
    requires
        x <= y,
    ensures
        last_digit(x) == last_digit(y) || 2 * last_digit(x) <= last_digit(y),
    decreases y,
{
    if x >= MANTISSA_LIMIT {
        lemma_last_digit_grows(x / 2, y / 2);
    } else if y >= MANTISSA_LIMIT {
        lemma_last_digit(y / 2);
    }
}

/// Rounding does not go below a number that needs none.
pub proof fn lemma_rounded_from_below(x: nat, y: nat)
    requires
        is_double(x),
        x <= y,
    ensures
        x <= rounded(y),
{
    let d = last_digit(x);
    let u = last_digit(y);
    lemma_last_digit(x);
    lemma_last_digit(y);
    lemma_last_digit_grows(x, y);
    lemma_nearest(y, u);
    lemma_fundamental_div_mod(x as int, d as int);
    assert(y / 1 == y);
    assert(1 * u == u);
    let n = nearest(y, u);
    if d == u {
        lemma_div_is_ordered(x as int, y as int, u as int);
        assert((x / u) * u <= n * u) by (nonlinear_arith)
            requires
                x / u <= n,
                u >= 1,
        ;
        assert((x / u) * u == u * (x / u)) by (nonlinear_arith);
    } else {
        let k = x / d;
        let m = y / u;
        assert(d * k <= m * u) by (nonlinear_arith)
            requires
                0 <= k < MANTISSA_LIMIT,
                m >= MANTISSA_LIMIT / 2,
                2 * d <= u,
                d >= 1,
        ;
        assert(m * u <= n * u) by (nonlinear_arith)
            requires
                m <= n,
                u >= 1,
        ;
    }
}

proof fn lemma_last_digit_of_multiple(y: nat, n: nat)
    requires
        y >= MANTISSA_LIMIT,
        MANTISSA_LIMIT / 2 <= n < MANTISSA_LIMIT,
    ensures
        last_digit(n * last_digit(y)) == last_digit(y),
    decreases y,
{
    let u = last_digit(y / 2);
    lemma_last_digit(y / 2);
    assert(n * (2 * u) == 2 * (n * u)) by (nonlinear_arith);
    assert(n * u >= n) by (nonlinear_arith)
        requires
            u >= 1,
            n >= 0,
    ;
    let x = n * last_digit(y);
    assert(x == 2 * (n * u));
    assert(x / 2 == n * u);
    assert(last_digit(x) == 2 * last_digit(x / 2));
    if y / 2 >= MANTISSA_LIMIT {
        lemma_last_digit_of_multiple(y / 2, n);
    } else {
        assert(u == 1);
        assert(n * u == n) by (nonlinear_arith)
            requires
                u == 1,
        ;
    }
}

/// What was rounded needs no more rounding.
pub proof fn lemma_quotient_is_double(p: nat, q: nat)
    requires
        q > 0,
    ensures
        is_double(quotient(p, q)),
{
    let y = p / q;
    let u = last_digit(y);
    lemma_last_digit(y);
    lemma_div_denominator(p as int, q as int, u as int);
    lemma_nearest(p, q * u);
    let n = nearest(p, q * u);
    let x = n * u;
    assert(quotient(p, q) == x);
    let half = (MANTISSA_LIMIT / 2) as nat;
    if y < MANTISSA_LIMIT {
        assert(x == n) by (nonlinear_arith)
            requires
                x == n * u,
                u == 1,
        ;
        if n == MANTISSA_LIMIT {
            assert(last_digit(half) == 1);
            assert(n / 2 == half);
            assert(last_digit(n) == 2);
        } else {
            assert(last_digit(n) == 1);
        }
        assert(is_double(x));
    } else if n < MANTISSA_LIMIT {
        lemma_last_digit(y / 2);
        lemma_last_digit_of_multiple(y, n);
        lemma_mod_multiples_basic(n as int, u as int);
        assert(is_double(x));
    } else {
        lemma_last_digit(y / 2);
        assert(n == 2 * half);
        assert(2 * half * u == 2 * (half * u)) by (nonlinear_arith);
        lemma_last_digit_of_multiple(y, half);
        assert(half * u >= half) by (nonlinear_arith)
            requires
                u >= 1,
                half >= 0,
        ;
        assert(x / 2 == half * u);
        assert(last_digit(x) == 2 * u);
        assert(x == half * (2 * u)) by (nonlinear_arith)
            requires
                x == 2 * (half * u),
        ;
        lemma_mod_multiples_basic(half as int, (2 * u) as int);
        assert(is_double(x));
    }
}

/// A thousandth of a second is less than a second.
pub proof fn lemma_thousandth()
    ensures
        thousandth() < SECOND,
{
    let p = SECOND as nat;
    let digit = last_digit(p / 1000);
    lemma_last_digit(p / 1000);
    lemma_nearest(p, 1000 * digit);
    lemma_div_denominator(p as int, 1000, digit as int);
    lemma_fundamental_div_mod((p / 1000) as int, digit as int);
    let n = nearest(p, 1000 * digit);
    let m = (p / 1000) / digit;
    assert(n * digit <= m * digit + digit) by (nonlinear_arith)
        requires
            n <= m + 1,
            digit >= 1,
    ;
    assert(m * digit == digit * m) by (nonlinear_arith);
}

/// Computes what the last of the digits of `x` that are kept is worth.
fn find_last_digit(x: u128) -> (digit: u128)
    ensures
        digit == last_digit(x as nat),
        1 <= digit,
        digit <= x || digit == 1,
{
    let mut digit: u128 = 1;
    let mut rest: u128 = x;
    while rest >= MANTISSA_LIMIT
        invariant
            last_digit(x as nat) == digit * last_digit(rest as nat),
            digit * rest <= x,
            digit >= 1,
        decreases rest,
    {
        proof {
            let half = rest / 2;
            assert(digit * (2 * last_digit(half as nat)) == (2 * digit) * last_digit(half as nat))
                by (nonlinear_arith);
            assert((2 * digit) * half <= digit * rest) by (nonlinear_arith)
                requires
                    2 * half <= rest,
                    digit >= 1,
            ;
            assert(2 * digit <= (2 * digit) * half) by (nonlinear_arith)
                requires
                    half >= 1,
                    digit >= 1,
            ;
        }
        digit = 2 * digit;
        rest = rest / 2;
    }
    proof {
        lemma_last_digit(x as nat);
        assert(digit * 1 == digit) by (nonlinear_arith);
    }
    digit
}

/// Divides `p` by `q`, and rounds.
pub fn divide(p: u128, q: u128) -> (x: u128)
    requires
        1 <= q <= LARGEST,
        p <= LARGEST,
    ensures
        x == quotient(p as nat, q as nat),
        x <= 2 * (p / q) + 1,
{
    let down: u128 = p / q;
    let digit: u128 = find_last_digit(down);
    proof {
        lemma_fundamental_div_mod(p as int, q as int);
        assert(q * digit <= p + q) by (nonlinear_arith)
            requires
                p == q * down + p % q,
                p % q >= 0,
                digit <= down || digit == 1,
                q >= 1,
                down >= 0,
        ;
    }
    let divisor: u128 = q * digit;
    proof {
        assert(divisor >= 1) by (nonlinear_arith)
            requires
                divisor == q * digit,
                q >= 1,
                digit >= 1,
        ;
        lemma_div_denominator(p as int, q as int, digit as int);
    }
    let whole: u128 = p / divisor;
    let rest: u128 = p % divisor;
    let up: bool = rest > divisor - rest || (rest == divisor - rest && whole % 2 == 1);
    let count: u128 = if up {
        whole + 1
    } else {
        whole
    };
    proof {
        assert(whole == down / digit);
        lemma_fundamental_div_mod(down as int, digit as int);
        assert(digit * whole == whole * digit) by (nonlinear_arith);
        assert(count * digit <= whole * digit + digit) by (nonlinear_arith)
            requires
                count <= whole + 1,
                digit >= 1,
        ;
    }
    count * digit
}

/// Rounds `x`.
pub fn round(x: u128) -> (r: u128)
    requires
        x <= LARGEST,
    ensures
        r == rounded(x as nat),
        r <= 2 * x + 1,
{
    divide(x, 1)
}

/// Multiplies `x` by the ratio of `a` and `b`, in double precision, and drops
/// what stands behind the point. The units of the ratio are small enough for
/// a `b` of at most 8192.
pub open spec fn scaled(x: nat, a: nat, b: nat) -> nat {
    rounded(x * quotient(a * RATIO as nat, b)) / RATIO as nat
}

/// How many units a ratio of one has: two to the power of sixty-six.
pub const RATIO: u128 = 73_786_976_294_838_206_464;

/// Multiplies `x` by the ratio of `a` and `b`, in double precision, and drops
/// what stands behind the point.
pub fn scale(x: u64, a: u32, b: u32) -> (y: u128)
    requires
        x <= 0xff_ffff_ffff,
        a <= 0xffff,
        1 <= b <= 8192,
    ensures
        y == scaled(x as nat, a as nat, b as nat),
{
    let ratio: u128 = divide(a as u128 * RATIO, b as u128);
    proof {
        let p = a * RATIO;
        assert(p / (b as int) <= p) by (nonlinear_arith)
            requires
                p >= 0,
                b >= 1,
        ;
        assert(x * ratio <= 0xff_ffff_ffff * (2 * 0xffff * RATIO + 1)) by (nonlinear_arith)
            requires
                0 <= x <= 0xff_ffff_ffff,
                0 <= ratio <= 2 * 0xffff * RATIO + 1,
        ;
    }
    round(x as u128 * ratio) / RATIO
}

/// A difference of seconds is a number of units that can be held.
pub proof fn lemma_between(from: u64, to: u64)
    ensures
        seconds_between(from as nat, to as nat) <= LARGEST,
{
    lemma_seconds_bound(from);
    lemma_seconds_bound(to);
    if seconds(to as nat) >= seconds(from as nat) {
        lemma_rounded_bound((seconds(to as nat) - seconds(from as nat)) as nat);
    }
}

proof fn lemma_rounded_bound(x: nat)
    ensures
        rounded(x) <= 2 * x + 1,
{
    let u = last_digit(x);
    lemma_last_digit(x);
    lemma_nearest(x, u);
    assert(x / 1 == x);
    assert(1 * u == u);
    lemma_fundamental_div_mod(x as int, u as int);
    let n = nearest(x, u);
    let m = x / u;
    assert(n * u <= m * u + u) by (nonlinear_arith)
        requires
            n <= m + 1,
            u >= 1,
    ;
    assert(m * u == u * m) by (nonlinear_arith);
}

proof fn lemma_quotient_bound(p: nat, q: nat)
    requires
        q > 0,
    ensures
        quotient(p, q) <= 2 * (p / q) + 1,
{
    let x = p / q;
    let u = last_digit(x);
    lemma_last_digit(x);
    lemma_div_denominator(p as int, q as int, u as int);
    lemma_nearest(p, q * u);
    lemma_fundamental_div_mod(x as int, u as int);
    let n = nearest(p, q * u);
    let m = x / u;
    assert(n * u <= m * u + u) by (nonlinear_arith)
        requires
            n <= m + 1,
            u >= 1,
    ;
    assert(m * u == u * m) by (nonlinear_arith);
}

proof fn lemma_seconds_bound(nanos: u64)
    ensures
        seconds(nanos as nat) <= LARGEST / 4,
{
    let p = (nanos as nat % NANOS as nat) * SECOND as nat;
    lemma_quotient_bound(p, NANOS as nat);
    lemma_rounded_bound((nanos as nat / NANOS as nat) * SECOND as nat + quotient(p, NANOS as nat));
}

/// Between a moment and itself there are no seconds.
pub proof fn lemma_between_same(nanos: nat)
    ensures
        seconds_between(nanos, nanos) == 0,
{
    lemma_quotient_of_zero(1);
}

proof fn lemma_quotient_of_zero(q: nat)
    requires
        q > 0,
    ensures
        quotient(0, q) == 0,
{
    assert(0nat / q == 0) by {
        lemma_div_basics(q as int);
    }
    assert(q * 1 == q);
    assert(0nat % q == 0) by {
        lemma_small_mod(0, q);
    }
    assert(last_digit(0) == 1);
    assert(nearest(0, q) == 0);
    assert(0 * 1nat == 0);
}

/// From zero on, the difference is the number of seconds itself.
pub proof fn lemma_between_zero(nanos: nat)
    ensures
        seconds_between(0, nanos) == seconds(nanos),
{
    lemma_quotient_of_zero(NANOS as nat);
    lemma_quotient_of_zero(1);
    assert(seconds(0) == 0);
    lemma_quotient_is_double(
        (nanos / NANOS as nat) * SECOND as nat + quotient(
            (nanos % NANOS as nat) * SECOND as nat,
            NANOS as nat,
        ),
        1,
    );
    lemma_rounded_keeps(seconds(nanos));
}

/// A number that needs no rounding is kept.
pub proof fn lemma_rounded_keeps(x: nat)
    requires
        is_double(x),
    ensures
        rounded(x) == x,
{
    let u = last_digit(x);
    lemma_last_digit(x);
    lemma_nearest(x, u);
    assert(x / 1 == x);
    assert(1 * u == u);
    lemma_fundamental_div_mod(x as int, u as int);
    assert((x / u) * u == u * (x / u)) by (nonlinear_arith);
}

impl Seconds {
    /// Some nanoseconds in seconds.
    pub fn of_nanos(nanos: u64) -> (s: Self)
        ensures
            s.units == seconds(nanos as nat),
            s.units <= LARGEST / 4,
    {
        let whole: u128 = nanos as u128 / NANOS;
        let rest: u128 = nanos as u128 % NANOS;
        let part: u128 = divide(rest * SECOND, NANOS);
        Seconds { units: round(whole * SECOND + part) }
    }

    /// The seconds from one number of nanoseconds to a larger one.
    pub fn between(from: u64, to: u64) -> (s: Self)
        ensures
            s.units == seconds_between(from as nat, to as nat),
    {
        let a: Seconds = Seconds::of_nanos(from);
        let b: Seconds = Seconds::of_nanos(to);
        if b.units >= a.units {
            Seconds { units: round(b.units - a.units) }
        } else {
            Seconds { units: 0 }
        }
    }

    /// The nanoseconds that are nearest.
    pub fn to_nanos(&self) -> (nanos: u128)
        requires
            self.units <= LARGEST,
        ensures
            nanos == nanos_of(self.units as nat),
            nanos <= u128::MAX / 2,
    {
        let whole: u128 = self.units / SECOND;
        let part: u128 = (self.units % SECOND) * NANOS;
        let down: u128 = part / SECOND;
        let rest: u128 = part % SECOND;
        let up: bool = rest > SECOND - rest || (rest == SECOND - rest && down % 2 == 1);
        whole * NANOS + if up {
            down + 1
        } else {
            down
        }
    }

    /// The sum of two numbers of seconds.
    pub fn plus(&self, other: Seconds) -> (s: Self)
        requires
            self.units + other.units <= LARGEST,
        ensures
            s.units == rounded((self.units + other.units) as nat),
    {
        Seconds { units: round(self.units + other.units) }
    }

    /// Whether this is more than a thousandth of a second.
    pub fn over_a_thousandth(&self) -> (yes: bool)
        ensures
            yes == (self.units > thousandth()),
    {
        self.units > divide(SECOND, 1000)
    }
}

/// A hundredth of a second.
pub open spec fn hundredth() -> nat {
    quotient(SECOND as nat, 100)
}

proof fn lemma_quotient_error(p: nat, q: nat)
    requires
        q > 0,
    ensures
        quotient(p, q) <= p / q + last_digit(p / q),
        p / q < quotient(p, q) + last_digit(p / q),
{
    let x = p / q;
    let u = last_digit(x);
    lemma_last_digit(x);
    lemma_div_denominator(p as int, q as int, u as int);
    lemma_nearest(p, q * u);
    lemma_fundamental_div_mod(x as int, u as int);
    let n = nearest(p, q * u);
    let m = x / u;
    assert(m * u <= n * u <= m * u + u) by (nonlinear_arith)
        requires
            m <= n <= m + 1,
            u >= 1,
    ;
    assert(m * u == u * m) by (nonlinear_arith);
}

proof fn lemma_last_digit_is_small(x: nat)
    ensures
        last_digit(x) == 1 || last_digit(x) * (MANTISSA_LIMIT / 2) <= x,
{
    let u = last_digit(x);
    lemma_last_digit(x);
    lemma_fundamental_div_mod(x as int, u as int);
    let m = x / u;
    if u > 1 {
        assert(u * (MANTISSA_LIMIT / 2) <= u * m) by (nonlinear_arith)
            requires
                m >= MANTISSA_LIMIT / 2,
                u >= 1,
        ;
    }
}

proof fn lemma_quotient_scales(p: nat, q: nat, k: nat)
    requires
        q > 0,
        k > 0,
    ensures
        quotient(k * p, k * q) == quotient(p, q),
{
    lemma_ratio_scales(p, q, k);
    let digit = last_digit(p / q);
    lemma_last_digit(p / q);
    assert(q * digit > 0) by (nonlinear_arith)
        requires
            q > 0,
            digit > 0,
    ;
    lemma_ratio_scales(p, q * digit, k);
    assert((k * q) * digit == k * (q * digit)) by (nonlinear_arith);
    let rest = p % (q * digit);
    let d = q * digit;
    assert(2 * rest < d <==> 2 * (k * rest) < k * d) by (nonlinear_arith)
        requires
            k > 0,
    ;
    assert(2 * rest == d <==> 2 * (k * rest) == k * d) by (nonlinear_arith)
        requires
            k > 0,
    ;
}

proof fn lemma_ratio_scales(p: nat, q: nat, k: nat)
    requires
        q > 0,
        k > 0,
    ensures
        k * q > 0,
        (k * p) / (k * q) == p / q,
        (k * p) % (k * q) == k * (p % q),
{
    lemma_fundamental_div_mod(p as int, q as int);
    let d = p / q;
    let r = p % q;
    assert(k * p == (k * q) * d + k * r) by (nonlinear_arith)
        requires
            p == q * d + r,
    ;
    assert(0 <= k * r < k * q) by (nonlinear_arith)
        requires
            0 <= r < q,
            k > 0,
    ;
    assert((k * q) * d == d * (k * q)) by (nonlinear_arith);
    lemma_fundamental_div_mod_converse(
        (k * p) as int,
        (k * q) as int,
        d as int,
        (k * r) as int,
    );
}

proof fn lemma_part_of_a_second(nanos: nat)
    requires
        nanos < NANOS,
    ensures
        seconds(nanos) == quotient(nanos * SECOND as nat, NANOS as nat),
{
    let part = quotient(nanos * SECOND as nat, NANOS as nat);
    lemma_quotient_is_double(nanos * SECOND as nat, NANOS as nat);
    lemma_rounded_keeps(part);
}

/// Within a second, more nanoseconds are more seconds.
pub proof fn law_nanos_are_told_apart(m: nat, n: nat)
    requires
        m < n < NANOS,
    ensures
        seconds(m) < seconds(n),
{
    lemma_part_of_a_second(m);
    lemma_part_of_a_second(n);
    let a = m * SECOND as nat;
    let b = n * SECOND as nat;
    lemma_quotient_error(a, NANOS as nat);
    lemma_quotient_error(b, NANOS as nat);
    lemma_last_digit_is_small(a / NANOS as nat);
    lemma_last_digit_is_small(b / NANOS as nat);
}

proof fn lemma_whole_seconds(nanos: nat)
    requires
        nanos >= NANOS,
    ensures
        2 * seconds(nanos) > SECOND,
{
    let x = (nanos / NANOS as nat) * SECOND as nat + quotient(
        (nanos % NANOS as nat) * SECOND as nat,
        NANOS as nat,
    );
    assert(x >= SECOND) by (nonlinear_arith)
        requires
            x >= (nanos / NANOS as nat) * SECOND as nat,
            nanos / NANOS as nat >= 1,
    ;
    lemma_quotient_error(x, 1);
    lemma_last_digit_is_small(x);
    assert(x / 1 == x);
    assert(seconds(nanos) == rounded(x));
    let u = last_digit(x);
    assert(2 * u <= x) by (nonlinear_arith)
        requires
            u == 1 || u * (MANTISSA_LIMIT / 2) <= x,
            x >= SECOND,
            u >= 0,
    ;
    assert(x < rounded(x) + u);
}

proof fn lemma_threshold(nanos: nat, count: nat, parts: nat)
    requires
        0 < count,
        100 <= parts,
        count * parts == NANOS,
    ensures
        seconds(nanos) > quotient(SECOND as nat, parts) <==> nanos > count,
        seconds(nanos) < quotient(SECOND as nat, parts) <==> nanos < count,
{
    assert(count < NANOS) by (nonlinear_arith)
        requires
            count * parts == NANOS,
            parts >= 100,
            count > 0,
    ;
    lemma_part_of_a_second(count);
    lemma_quotient_scales(SECOND as nat, parts, count);
    assert(seconds(count) == quotient(SECOND as nat, parts));
    if nanos >= NANOS {
        lemma_whole_seconds(nanos);
        let part = SECOND as nat / parts;
        assert(100 * part <= SECOND) by (nonlinear_arith)
            requires
                part == SECOND as nat / parts,
                parts >= 100,
        ;
        lemma_quotient_error(SECOND as nat, parts);
        lemma_last_digit_is_small(part);
    } else if nanos < count {
        law_nanos_are_told_apart(nanos, count);
    } else if nanos > count {
        law_nanos_are_told_apart(count, nanos);
    }
}

/// A span is longer, or shorter, than a thousandth of a second in double
/// precision exactly where it is longer, or shorter, than a million
/// nanoseconds.
pub proof fn law_thousandth(nanos: nat)
    ensures
        seconds(nanos) > thousandth() <==> nanos > 1_000_000,
        seconds(nanos) < thousandth() <==> nanos < 1_000_000,
{
    lemma_threshold(nanos, 1_000_000, 1000);
}

/// A span is longer, or shorter, than a hundredth of a second in double
/// precision exactly where it is longer, or shorter, than ten million
/// nanoseconds.
pub proof fn law_hundredth(nanos: nat)
    ensures
        seconds(nanos) > hundredth() <==> nanos > 10_000_000,
        seconds(nanos) < hundredth() <==> nanos < 10_000_000,
{
    lemma_threshold(nanos, 10_000_000, 100);
}

/// When a span ends that starts at `start` and lasts for some nanoseconds,
/// written in seconds.
pub fn find_end(start: u64, nanos: u64) -> (end: u64)
    ensures
        end == end_of(start, nanos),
{
    let end: u128 = start as u128 + Seconds::of_nanos(nanos).to_nanos();
    if end > u64::MAX as u128 {
        u64::MAX
    } else {
        end as u64
    }
}

proof fn lemma_nearest_nanos(units: nat, nanos: nat)
    requires
        2 * (nanos * SECOND) < 2 * (units * NANOS) + SECOND,
        2 * (units * NANOS) < 2 * (nanos * SECOND) + SECOND,
    ensures
        nanos_of(units) == nanos,
{
    let whole = units / SECOND as nat;
    let part = units % SECOND as nat;
    assert(units == whole * SECOND + part);
    let down = (part * NANOS as nat) / SECOND as nat;
    let rest = (part * NANOS as nat) % SECOND as nat;
    assert(part * NANOS as nat == down * SECOND + rest);
    let all = whole * NANOS + down;
    assert(units * NANOS == all * SECOND + rest);
    if nanos <= all {
        assert(nanos == all);
    } else {
        assert(nanos == all + 1);
    }
}

/// Nothing is lost where a span of less than two to the power of fifty
/// nanoseconds, about thirteen days, is written in seconds.
pub proof fn law_short_spans_are_kept(nanos: nat)
    requires
        nanos < 1_125_899_906_842_624,
    ensures
        kept(nanos) == nanos,
{
    let whole = nanos / NANOS as nat;
    let part = nanos % NANOS as nat;
    let p = part * SECOND as nat;
    let q = quotient(p, NANOS as nat);
    let x = whole * SECOND as nat + q;
    lemma_quotient_error(p, NANOS as nat);
    lemma_last_digit_is_small(p / NANOS as nat);
    lemma_quotient_error(x, 1);
    lemma_last_digit_is_small(x);
    assert(x / 1 == x);
    assert(nanos == whole * NANOS + part);
    lemma_nearest_nanos(seconds(nanos), nanos);
}

/// A number of seconds needs no more rounding.
pub proof fn lemma_seconds_is_double(nanos: nat)
    ensures
        is_double(seconds(nanos)),
{
    lemma_quotient_is_double(
        (nanos / NANOS as nat) * SECOND as nat + quotient(
            (nanos % NANOS as nat) * SECOND as nat,
            NANOS as nat,
        ),
        1,
    );
}

/// What is nearest to a quotient is off by at most one half, and even where it
/// is off by one half.
pub proof fn law_nearest(p: nat, q: nat)
    requires
        q > 0,
    ensures
        2 * (nearest(p, q) * q) <= 2 * p + q,
        2 * p <= 2 * (nearest(p, q) * q) + q,
        2 * (nearest(p, q) * q) == 2 * p + q || 2 * p == 2 * (nearest(p, q) * q) + q ==> nearest(
            p,
            q,
        ) % 2 == 0,
{
    lemma_fundamental_div_mod(p as int, q as int);
    let down = p / q;
    assert((down + 1) * q == down * q + q) by (nonlinear_arith);
    assert(q * down == down * q) by (nonlinear_arith);
}

/// Fifty-three binary digits are kept: all those of a smaller number, and one
/// less of a number that is twice as large.
pub proof fn law_last_digit(x: nat)
    ensures
        x < 9_007_199_254_740_992 ==> last_digit(x) == 1,
        2 * x >= 9_007_199_254_740_992 ==> last_digit(2 * x) == 2 * last_digit(x) && last_digit(
            2 * x + 1,
        ) == 2 * last_digit(x),
{
    assert((2 * x) / 2 == x);
    assert((2 * x + 1) / 2 == x);
}

/// A quotient is rounded to the nearest number that keeps its digits: it is
/// off by at most half of what the last digit is worth.
pub proof fn law_quotient(p: nat, q: nat)
    requires
        q > 0,
    ensures
        ({
            let digit = last_digit(p / q);
            let x = quotient(p, q);
            &&& exists|n: nat| x == #[trigger] (n * digit)
            &&& 2 * (x * q) <= 2 * p + q * digit
            &&& 2 * p <= 2 * (x * q) + q * digit
        }),
{
    let digit = last_digit(p / q);
    lemma_last_digit(p / q);
    assert(q * digit > 0) by (nonlinear_arith)
        requires
            q > 0,
            digit > 0,
    ;
    law_nearest(p, q * digit);
    let n = nearest(p, q * digit);
    assert((n * digit) * q == n * (q * digit)) by (nonlinear_arith);
    assert(quotient(p, q) == n * digit);
}

/// Nanoseconds that are written in seconds are off by less than a third of a
/// nanosecond, below two to the power of fifty of them.
pub proof fn law_seconds_are_close(nanos: nat)
    requires
        nanos < 1_125_899_906_842_624,
    ensures
        3 * (seconds(nanos) * NANOS) < 3 * (nanos * SECOND) + SECOND,
        3 * (nanos * SECOND) < 3 * (seconds(nanos) * NANOS) + SECOND,
{
    let whole = nanos / NANOS as nat;
    let part = nanos % NANOS as nat;
    let p = part * SECOND as nat;
    let q = quotient(p, NANOS as nat);
    let x = whole * SECOND as nat + q;
    lemma_quotient_error(p, NANOS as nat);
    lemma_last_digit_is_small(p / NANOS as nat);
    lemma_quotient_error(x, 1);
    lemma_last_digit_is_small(x);
    assert(x / 1 == x);
    assert(nanos == whole * NANOS + part);
}

/// A difference of seconds is off by less than a nanosecond, below two to the
/// power of fifty nanoseconds.
pub proof fn law_between_is_close(from: nat, to: nat)
    requires
        from <= to < 1_125_899_906_842_624,
    ensures
        seconds_between(from, to) * NANOS < (to - from) * SECOND + SECOND,
        (to - from) * SECOND < seconds_between(from, to) * NANOS + SECOND,
{
    law_seconds_are_close(from);
    law_seconds_are_close(to);
    let a = seconds(from);
    let b = seconds(to);
    assert(from == to ==> a == b);
    if b >= a {
        let x = (b - a) as nat;
        lemma_quotient_error(x, 1);
        lemma_last_digit_is_small(x);
        assert(x / 1 == x);
        let u = last_digit(x);
        let r = rounded(x);
        assert(r == quotient(x, 1));
        assert(3 * (b * NANOS) < 3 * (1_125_899_906_842_623 * SECOND) + SECOND);
        assert(3 * (u * NANOS) <= SECOND) by {
            if u != 1 {
                assert(u * 4_503_599_627_370_496 <= b);
                assert(3 * ((u * 4_503_599_627_370_496) * NANOS) <= 3 * (b * NANOS));
            }
        }
        assert(r <= x + u && x < r + u);
        assert(r * NANOS <= x * NANOS + u * NANOS);
        assert(x * NANOS < r * NANOS + u * NANOS);
        assert(x * NANOS == b * NANOS - a * NANOS);
        assert(3 * (r * NANOS) < 3 * (to * SECOND) - 3 * (from * SECOND) + 3 * SECOND);
        assert(3 * (to * SECOND) - 3 * (from * SECOND) < 3 * (r * NANOS) + 3 * SECOND);
        assert(seconds_between(from, to) == r);
    } else {
        assert(from < to);
    }
}

/// A difference of seconds is more than a thousandth of a second where there
/// are two nanoseconds more than a million between, and less where there are
/// two fewer.
pub proof fn law_between_thousandth(from: nat, to: nat)
    requires
        from <= to < 1_125_899_906_842_624,
    ensures
        to - from >= 1_000_002 ==> seconds_between(from, to) > thousandth(),
        to - from <= 999_998 ==> seconds_between(from, to) < thousandth(),
{
    law_between_is_close(from, to);
    law_quotient(SECOND as nat, 1000);
    lemma_last_digit_is_small(SECOND as nat / 1000);
}

/// A ratio of one changes nothing.
pub proof fn law_scaled_by_one(x: nat, a: nat)
    requires
        a > 0,
        x < 9_007_199_254_740_992,
    ensures
        scaled(x, a, a) == x,
{
    let ratio = RATIO as nat;
    lemma_quotient_scales(ratio, 1, a);
    assert(a * 1 == a);
    lemma_power_is_double(x, ratio);
    assert(1 * ratio == ratio);
    lemma_power_is_double(1, ratio);
    lemma_rounded_keeps(ratio);
    lemma_rounded_keeps(x * ratio);
    lemma_div_multiples_vanish(x as int, ratio as int);
    assert(x * ratio == ratio * x) by (nonlinear_arith);
}

proof fn lemma_power_is_double(x: nat, ratio: nat)
    requires
        x < MANTISSA_LIMIT,
        ratio == RATIO,
    ensures
        is_double(x * ratio),
{
    lemma_doublings(x, 66);
    vstd::arithmetic::power2::lemma2_to64();
    vstd::arithmetic::power2::lemma_pow2_unfold(65);
    vstd::arithmetic::power2::lemma_pow2_unfold(66);
}

proof fn lemma_doublings(x: nat, k: nat)
    requires
        x < MANTISSA_LIMIT,
    ensures
        is_double(x * vstd::arithmetic::power2::pow2(k)),
    decreases k,
{
    if k == 0 {
        vstd::arithmetic::power2::lemma2_to64();
        assert(x * 1 == x);
        assert(x % 1 == 0);
    } else {
        let half = vstd::arithmetic::power2::pow2((k - 1) as nat);
        lemma_doublings(x, (k - 1) as nat);
        vstd::arithmetic::power2::lemma_pow2_unfold(k);
        let y = x * half;
        assert(x * (2 * half) == 2 * y) by (nonlinear_arith)
            requires
                y == x * half,
        ;
        law_last_digit(y);
        if 2 * y >= MANTISSA_LIMIT {
            lemma_last_digit(y);
            lemma_ratio_scales(y, last_digit(y), 2);
        } else {
            assert((2 * y) % 1 == 0);
        }
    }
}

/// A span of less than two to the power of fifty nanoseconds ends that many
/// nanoseconds after its start, and not behind the last point in time.
pub proof fn law_end_of(start: u64, nanos: u64)
    requires
        nanos < 1_125_899_906_842_624,
    ensures
        start + nanos <= u64::MAX ==> end_of(start, nanos) == start + nanos,
        start + nanos > u64::MAX ==> end_of(start, nanos) == u64::MAX,
{
    law_short_spans_are_kept(nanos as nat);
}

/// Whole seconds and the rest are rounded by themselves, and then their sum
/// is; back in nanoseconds, whole seconds are kept and the rest is rounded to
/// the nearest nanosecond.
pub proof fn law_seconds_and_nanoseconds(whole: nat, part: nat, units: nat)
    requires
        part < 1_000_000_000,
        units < SECOND,
    ensures
        seconds(whole * 1_000_000_000 + part) == rounded(
            whole * SECOND as nat + quotient(part * SECOND as nat, 1_000_000_000),
        ),
        nanos_of(whole * SECOND as nat + units) == whole * 1_000_000_000 + nearest(
            units * 1_000_000_000,
            SECOND as nat,
        ),
        SECOND == 9_671_406_556_917_033_397_649_408,
{
    let n = whole * 1_000_000_000 + part;
    lemma_fundamental_div_mod_converse(n as int, 1_000_000_000, whole as int, part as int);
    let m = whole * SECOND as nat + units;
    lemma_fundamental_div_mod_converse(m as int, SECOND as int, whole as int, units as int);
}

/// A span ends its nanoseconds after its start, as far as they are kept when
/// they are written in seconds.
pub proof fn law_end_of_any_span(start: u64, nanos: u64)
    ensures
        start + nanos_of(seconds(nanos as nat)) <= u64::MAX ==> end_of(start, nanos) == start
            + nanos_of(seconds(nanos as nat)),
        start + nanos_of(seconds(nanos as nat)) > u64::MAX ==> end_of(start, nanos) == u64::MAX,
{
}

/// A difference of seconds is that of the two numbers of seconds, rounded, and
/// none where the second is not larger.
pub proof fn law_between(from: nat, to: nat)
    ensures
        seconds(from) <= seconds(to) ==> seconds_between(from, to) == rounded(
            (seconds(to) - seconds(from)) as nat,
        ),
        seconds(from) > seconds(to) ==> seconds_between(from, to) == 0,
        thousandth() == quotient(SECOND as nat, 1000),
{
}

/// A number times a ratio is what the rounded product of the number and the
/// rounded ratio has before the point.
pub proof fn law_scaled(x: nat, a: nat, b: nat)
    ensures
        ({
            let unit = 73_786_976_294_838_206_464nat;
            let product = rounded(x * quotient(a * unit, b));
            scaled(x, a, b) * unit <= product < (scaled(x, a, b) + 1) * unit
        }),
{
    let product = rounded(x * quotient(a * RATIO as nat, b));
    lemma_fundamental_div_mod(product as int, RATIO as int);
}

} // verus!

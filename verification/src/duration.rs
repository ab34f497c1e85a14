//! Human-readable durations: `"600ms"`, `"15s"`, `"10m"`, `"2h"`.
//!
//! Also `"off"` and `"never"`, for settings that can be disabled: the disabled
//! case is part of the type, not a sentinel value a user has to guess at.

use vstd::arithmetic::div_mod::{lemma_fundamental_div_mod, lemma_fundamental_div_mod_converse};
use vstd::arithmetic::power::pow;
use vstd::arithmetic::power2::{lemma_pow2_adds, lemma_pow2_pos, lemma_pow2_unfold, pow2};
use vstd::prelude::*;

use crate::double::{
    at_most, exact, is_double, large_doubles, nearest, not_small, one_is_a_power, round,
    rounding_keeps_order, same_value, shifted, small_mantissas, to_double, ONE,
};
use crate::strings::{
    all_digits, ascii_lower, ascii_lowercase, concat, debug_quoted, decimal, decimal_round_trip,
    decimal_value, from_chars, is_digit, is_white, parse_digits, quote, same, slice_chars, to_chars,
    to_decimal, trim_chars, trimmed,
};

verus! {

broadcast use vstd::seq::group_seq_axioms;

/// A duration that must be present, in milliseconds.
#[derive(Debug, Clone, Copy, PartialEq, Eq, Structural)]
pub struct Dur(pub u128);

/// A duration that may be switched off entirely.
#[derive(Debug, Clone, Copy, PartialEq, Eq)]
pub struct MaybeDuration(pub Option<Dur>);

impl Default for MaybeDuration {
    fn default() -> (r: MaybeDuration)
        ensures
            r == MaybeDuration(None),
    {
        MaybeDuration(None)
    }
}

impl MaybeDuration {
    /// Switched off.
    pub fn off() -> (r: MaybeDuration)
        ensures
            r == MaybeDuration(None),
    {
        MaybeDuration(None)
    }

    pub fn secs(n: u64) -> (r: MaybeDuration)
        ensures
            r == MaybeDuration(Some(Dur((n * 1000) as u128))),
    {
        MaybeDuration(Some(Dur::from_secs(n)))
    }

    pub fn millis(n: u64) -> (r: MaybeDuration)
        ensures
            r == MaybeDuration(Some(Dur(n as u128))),
    {
        MaybeDuration(Some(Dur::from_millis(n)))
    }

    /// The milliseconds, as far as they fit in 64 bits; nothing when off.
    pub open spec fn ms(self) -> Option<u64> {
        match self.0 {
            Some(d) => Some(d.ms()),
            None => None,
        }
    }

    pub fn as_millis(self) -> (r: Option<u64>)
        ensures
            r == self.ms(),
    {
        match self.0 {
            Some(d) => Some(d.as_millis()),
            None => None,
        }
    }

    pub fn is_off(self) -> (r: bool)
        ensures
            r == (self.0 is None),
    {
        self.0.is_none()
    }

    /// How the duration reads in a file: `off`, or as [`Dur`] does.
    pub open spec fn text(self) -> Seq<char> {
        match self.0 {
            None => "off"@,
            Some(d) => rendered(d),
        }
    }

    /// The duration as it is written in a file.
    pub fn to_string(&self) -> (r: String)
        ensures
            r@ == self.text(),
    {
        match self.0 {
            None => "off".to_owned(),
            Some(d) => render(d),
        }
    }
}

impl Dur {
    /// The milliseconds, as far as they fit in 64 bits.
    pub open spec fn ms(self) -> u64 {
        (self.0 as int % 0x1_0000_0000_0000_0000) as u64
    }

    pub fn from_millis(n: u64) -> (r: Dur)
        ensures
            r == Dur(n as u128),
            r.ms() == n,
    {
        Dur(n as u128)
    }

    pub fn from_secs(n: u64) -> (r: Dur)
        ensures
            r == Dur((n * 1000) as u128),
            n * 1000 <= u64::MAX ==> r.ms() == n * 1000,
    {
        Dur(n as u128 * 1000)
    }

    pub fn as_millis(self) -> (r: u64)
        ensures
            r == self.ms(),
    {
        (self.0 % 0x1_0000_0000_0000_0000) as u64
    }

    /// The duration as it is written in a file.
    pub fn to_string(&self) -> (r: String)
        ensures
            r@ == rendered(*self),
    {
        render(*self)
    }
}

/// The shortest exact form of a duration.
pub open spec fn rendered(d: Dur) -> Seq<char> {
    let ms = d.ms() as nat;
    if ms == 0 {
        "0s"@
    } else if ms % 3_600_000 == 0 {
        decimal(ms / 3_600_000) + "h"@
    } else if ms % 60_000 == 0 {
        decimal(ms / 60_000) + "m"@
    } else if ms % 1000 == 0 {
        decimal(ms / 1000) + "s"@
    } else {
        decimal(ms) + "ms"@
    }
}

/// Write a duration in its shortest exact form.
pub fn render(d: Dur) -> (r: String)
    ensures
        r@ == rendered(d),
{
    let ms: u64 = d.as_millis();
    if ms == 0 {
        return "0s".to_owned();
    }
    if ms % 3_600_000 == 0 {
        concat(to_decimal(ms / 3_600_000).as_str(), "h")
    } else if ms % 60_000 == 0 {
        concat(to_decimal(ms / 60_000).as_str(), "m")
    } else if ms % 1000 == 0 {
        concat(to_decimal(ms / 1000).as_str(), "s")
    } else {
        concat(to_decimal(ms).as_str(), "ms")
    }
}

// --- parsing --------------------------------------------------------------

/// How many leading characters are digits or decimal points.
pub open spec fn number_len(s: Seq<char>) -> nat
    decreases s.len(),
{
    if s.len() > 0 && (is_digit(s[0]) || s[0] == '.') {
        1 + number_len(s.drop_first())
    } else {
        0
    }
}

/// How many characters stand before the first decimal point.
pub open spec fn whole_len(s: Seq<char>) -> nat
    decreases s.len(),
{
    if s.len() > 0 && s[0] != '.' {
        1 + whole_len(s.drop_first())
    } else {
        0
    }
}

/// The digits before the decimal point.
pub open spec fn whole_part(s: Seq<char>) -> Seq<char> {
    s.take(whole_len(s) as int)
}

/// The digits after the decimal point, if there is one.
pub open spec fn fraction_part(s: Seq<char>) -> Seq<char> {
    if whole_len(s) < s.len() {
        s.skip(whole_len(s) as int + 1)
    } else {
        Seq::empty()
    }
}

/// Whether a text is a decimal number: digits with at most one point among
/// them, and at least one digit.
pub open spec fn is_number(s: Seq<char>) -> bool {
    &&& all_digits(whole_part(s))
    &&& all_digits(fraction_part(s))
    &&& whole_part(s).len() + fraction_part(s).len() > 0
}

/// Milliseconds in a unit.
pub open spec fn unit_ms(unit: Seq<char>) -> Option<nat> {
    if unit == "ms"@ {
        Some(1)
    } else if unit == "s"@ {
        Some(1000)
    } else if unit == "m"@ {
        Some(60_000)
    } else if unit == "h"@ {
        Some(3_600_000)
    } else {
        None
    }
}

/// The quotient rounded to the nearest whole number, halves upwards.
pub open spec fn rounded(n: nat, d: nat) -> nat {
    (2 * n + d) / (2 * d)
}

/// The milliseconds in `number` units of `unit` milliseconds each, and no more
/// than 64 bits hold. The number is taken to a double and so is its product
/// with the unit, before that is rounded.
pub open spec fn scaled_ms(number: Seq<char>, unit: nat) -> nat {
    let digits = decimal_value(whole_part(number) + fraction_part(number));
    millis_of(digits, pow(10, fraction_part(number).len()) as nat, unit)
}

/// The milliseconds in `n / d` units of `unit` milliseconds each.
pub open spec fn millis_of(n: nat, d: nat, unit: nat) -> nat {
    let value = nearest(n, d);
    let millis = if unit == 1 {
        value
    } else {
        nearest(value * unit, ONE as nat)
    };
    let whole = rounded(millis, ONE as nat);
    if whole <= u64::MAX {
        whole
    } else {
        u64::MAX as nat
    }
}

/// What a text means as a duration, or why it is refused.
pub open spec fn parsed(s: Seq<char>) -> Result<Dur, Seq<char>> {
    let t = trimmed(s);
    let split = number_len(t) as int;
    let number = t.take(split);
    let unit = trimmed(t.skip(split));
    if t.len() == 0 {
        Err("empty duration"@)
    } else if split == t.len() {
        Err(debug_quoted(t) + " has no unit; use ms, s, m or h"@)
    } else if !is_number(number) {
        Err(debug_quoted(number) + " is not a number in "@ + debug_quoted(t))
    } else {
        match unit_ms(unit) {
            Some(u) => Ok(Dur(scaled_ms(number, u) as u128)),
            None => Err(
                "unknown unit "@ + debug_quoted(unit) + " in "@ + debug_quoted(t)
                    + "; use ms, s, m or h"@,
            ),
        }
    }
}

proof fn number_len_bound(s: Seq<char>)
    ensures
        number_len(s) <= s.len(),
        whole_len(s) <= s.len(),
    decreases s.len(),
{
    if s.len() > 0 {
        number_len_bound(s.drop_first());
    }
}

proof fn pow_ten_step(n: nat)
    ensures
        pow(10, n + 1) == 10 * pow(10, n),
        pow(10, n) > 0,
        pow(10, 0) == 1,
{
    vstd::arithmetic::power::lemma_pow_positive(10, n);
    vstd::arithmetic::power::lemma_pow0(10);
    reveal(pow);
    assert(pow(10, n + 1) == 10 * pow(10, n));
}

// --- the bits of a decimal fraction ---------------------------------------

/// The number that some decimal digits stand for.
spec fn digits_value(s: Seq<u8>) -> nat
    decreases s.len(),
{
    if s.len() == 0 {
        0
    } else {
        10 * digits_value(s.drop_last()) + s.last() as nat
    }
}

spec fn are_digits(s: Seq<u8>) -> bool {
    forall|i: int| 0 <= i < s.len() ==> #[trigger] s[i] < 10
}

proof fn digits_are_bounded(s: Seq<u8>)
    requires
        are_digits(s),
    ensures
        digits_value(s) < pow(10, s.len()),
    decreases s.len(),
{
    pow_ten_step(0);
    if s.len() > 0 {
        digits_are_bounded(s.drop_last());
        pow_ten_step((s.len() - 1) as nat);
        assert(s[s.len() - 1] < 10);
    }
}

/// Putting a digit in front of a number adds its place value.
proof fn value_of_front(s: Seq<u8>)
    requires
        s.len() > 0,
    ensures
        digits_value(s) == s[0] * pow(10, (s.len() - 1) as nat) + digits_value(s.drop_first()),
    decreases s.len(),
{
    pow_ten_step(0);
    if s.len() == 1 {
        assert(s.drop_first() == Seq::<u8>::empty());
        assert(s.drop_last() == Seq::<u8>::empty());
        assert(s[0] * 1 == s[0]);
    } else {
        let f = s.drop_last();
        value_of_front(f);
        assert((s.len() - 1) as nat == (s.len() - 2) as nat + 1);
        assert(f.drop_first() == s.drop_first().drop_last());
        assert(s.drop_first().last() == s.last());
        let n = (s.len() - 2) as nat;
        pow_ten_step(n);
        let d = s[0] as int;
        let p = pow(10, n);
        assert(d * (10 * p) == (d * p) * 10) by (nonlinear_arith);
    }
}

/// Double a decimal fraction, and give what goes over the point.
fn double_digits(v: &mut Vec<u8>) -> (carry: u8)
    requires
        are_digits(old(v)@),
    ensures
        are_digits(final(v)@),
        final(v)@.len() == old(v)@.len(),
        carry <= 1,
        2 * digits_value(old(v)@) == carry * pow(10, old(v)@.len()) + digits_value(final(v)@),
{
    let ghost was = v@;
    let n: usize = v.len();
    let mut carry: u8 = 0;
    let mut i: usize = n;
    proof {
        pow_ten_step(0);
        assert(was.skip(n as int) == Seq::<u8>::empty());
        assert(digits_value(was.skip(n as int)) == 0);
    }
    while i > 0
        invariant
            i <= n,
            n == v@.len(),
            n == was.len(),
            are_digits(was),
            are_digits(v@),
            carry <= 1,
            forall|j: int| 0 <= j < i ==> v@[j] == was[j],
            2 * digits_value(was.skip(i as int)) == carry * pow(10, (n - i) as nat) + digits_value(
                v@.skip(i as int),
            ),
        decreases i,
    {
        let ghost (c0, d0) = (carry as int, was[i - 1] as int);
        let ghost before = v@;
        assert(was[i - 1] < 10);
        let sum: u8 = v[i - 1] * 2 + carry;
        let digit: u8 = if sum >= 10 {
            sum - 10
        } else {
            sum
        };
        carry = if sum >= 10 {
            1
        } else {
            0
        };
        v.set(i - 1, digit);
        proof {
            let a = was.skip(i - 1);
            let b = v@.skip(i - 1);
            value_of_front(a);
            value_of_front(b);
            assert(a.drop_first() == was.skip(i as int));
            assert(b.drop_first() == before.skip(i as int));
            let k = (n - i) as nat;
            pow_ten_step(k);
            assert((n - (i - 1)) as nat == k + 1);
            let (p, c, d) = (pow(10, k), carry as int, digit as int);
            let (x, y) = (
                digits_value(was.skip(i as int)) as int,
                digits_value(before.skip(i as int)) as int,
            );
            assert(2 * (d0 * p + x) == c * (10 * p) + (d * p + y)) by (nonlinear_arith)
                requires
                    2 * x == c0 * p + y,
                    2 * d0 + c0 == 10 * c + d,
            ;
        }
        i = i - 1;
    }
    assert(was.skip(0) == was);
    assert(v@.skip(0) == v@);
    carry
}

/// The first `k` binary digits of a decimal fraction, and whether there is
/// more to it.
fn fraction_bits(fraction: &[char], k: u32) -> (r: (u128, bool))
    requires
        all_digits(fraction@),
        k <= 100,
    ensures
        ({
            let x = decimal_value(fraction@) * pow2(k as nat);
            let p = pow(10, fraction@.len()) as nat;
            &&& r.0 == x / p
            &&& r.1 == (x % p != 0)
            &&& r.0 < pow2(k as nat)
        }),
{
    let mut v: Vec<u8> = Vec::new();
    let mut i: usize = 0;
    assert(fraction@.take(0) == Seq::<char>::empty());
    while i < fraction.len()
        invariant
            i <= fraction@.len(),
            v@.len() == i,
            all_digits(fraction@),
            are_digits(v@),
            digits_value(v@) == decimal_value(fraction@.take(i as int)),
        decreases fraction.len() - i,
    {
        assert(is_digit(fraction@[i as int]));
        let ghost before = v@;
        v.push(fraction[i] as u8 - 48);
        i = i + 1;
        assert(v@.drop_last() == before);
        assert(fraction@.take(i as int).drop_last() == fraction@.take(i - 1));
    }
    assert(fraction@.take(fraction@.len() as int) == fraction@);
    let ghost f = digits_value(v@);
    let ghost len = v@.len();
    let ghost p = pow(10, len) as nat;
    let mut bits: u128 = 0;
    let mut j: u32 = 0;
    proof {
        pow_ten_step(len);
        digits_are_bounded(v@);
        vstd::arithmetic::power2::lemma2_to64();
    }
    while j < k
        invariant
            j <= k <= 100,
            v@.len() == len,
            are_digits(v@),
            p == pow(10, len),
            p > 0,
            digits_value(v@) < p,
            f * pow2(j as nat) == bits * p + digits_value(v@),
            bits < pow2(j as nat),
        decreases k - j,
    {
        let ghost before = digits_value(v@) as int;
        let ghost b0 = bits as int;
        proof {
            lemma_pow2_unfold((j + 1) as nat);
            vstd::arithmetic::power2::lemma_pow2_adds(50, 50);
            vstd::arithmetic::power2::lemma2_to64();
            vstd::arithmetic::power2::lemma2_to64_rest();
            if j < 100 {
                vstd::arithmetic::power2::lemma_pow2_strictly_increases(j as nat, 100);
            }
            assert(0x4_0000_0000_0000int * 0x4_0000_0000_0000int == 0x10_0000_0000_0000_0000_0000_0000int)
                by (nonlinear_arith);
        }
        let carry = double_digits(&mut v);
        bits = 2 * bits + carry as u128;
        proof {
            digits_are_bounded(v@);
            let (q, c, after) = (pow2(j as nat) as int, carry as int, digits_value(v@) as int);
            assert(f * (2 * q) == (2 * b0 + c) * p + after) by (nonlinear_arith)
                requires
                    f * q == b0 * p + before,
                    2 * before == c * p + after,
            ;
        }
        j = j + 1;
    }
    proof {
        lemma_fundamental_div_mod_converse(
            (f * pow2(k as nat)) as int,
            p as int,
            bits as int,
            digits_value(v@) as int,
        );
    }
    let mut rest: bool = false;
    let mut n: usize = 0;
    assert(v@.take(0) == Seq::<u8>::empty());
    while n < v.len()
        invariant
            n <= v@.len(),
            rest == (digits_value(v@.take(n as int)) != 0),
        decreases v.len() - n,
    {
        rest = rest || v[n] != 0;
        n = n + 1;
        assert(v@.take(n as int).drop_last() == v@.take(n - 1));
    }
    assert(v@.take(v@.len() as int) == v@);
    (bits, rest)
}

/// The value of two runs of digits, one after the other.
proof fn value_of_concat(a: Seq<char>, b: Seq<char>)
    requires
        all_digits(b),
    ensures
        decimal_value(a + b) == decimal_value(a) * pow(10, b.len()) + decimal_value(b),
    decreases b.len(),
{
    pow_ten_step(0);
    if b.len() == 0 {
        assert(a + b == a);
    } else {
        let f = b.drop_last();
        assert(all_digits(f));
        value_of_concat(a, f);
        assert((a + b).drop_last() == a + f);
        pow_ten_step(f.len());
        let v = decimal_value(a);
        let p = pow(10, f.len());
        assert(v * (10 * p) == (v * p) * 10) by (nonlinear_arith);
    }
}

/// What is far below a millisecond comes to nothing.
proof fn next_to_nothing(n: nat, d: nat, unit: nat)
    requires
        d > 0,
        0 < unit <= 3_600_000,
        n * ONE as nat <= pow2(92) * d,
    ensures
        millis_of(n, d, unit) == 0,
{
    let one = ONE as nat;
    small_mantissas(1, 92);
    at_most(n, d, pow2(92));
    let value = nearest(n, d);
    one_is_a_power();
    vstd::arithmetic::power2::lemma_pow2_adds(92, 22);
    vstd::arithmetic::power2::lemma_pow2_adds(114, 6);
    vstd::arithmetic::power2::lemma2_to64();
    vstd::arithmetic::power2::lemma_pow2_pos(92);
    let top = pow2(114);
    assert(value * unit <= top) by (nonlinear_arith)
        requires
            value <= pow2(92),
            unit <= 0x40_0000,
            top == pow2(92) * 0x40_0000,
    ;
    assert((value * unit) * one <= top * one) by (nonlinear_arith)
        requires
            value * unit <= top,
    ;
    small_mantissas(1, 114);
    at_most(value * unit, one, top);
    let m = if unit == 1 {
        value
    } else {
        nearest(value * unit, one)
    };
    assert(value * 1 == value);
    assert(one == top * 64);
    assert(m <= top);
    assert((2 * m + one) / (2 * one) == 0) by {
        vstd::arithmetic::div_mod::lemma_basic_div((2 * m + one) as int, (2 * one) as int);
    }
}

/// What 64 bits do not hold is cut off at what they hold.
proof fn too_much(n: nat, d: nat, unit: nat)
    requires
        d > 0,
        unit > 0,
        n >= 0x1_0000_0000_0000_0000 * d,
    ensures
        millis_of(n, d, unit) == u64::MAX,
{
    let one = ONE as nat;
    let big: nat = 0x1_0000_0000_0000_0000;
    let top = big * one;
    one_is_a_power();
    vstd::arithmetic::power2::lemma_pow2_adds(64, 120);
    small_mantissas(1, 184);
    assert((big * d) * one == top * d) by (nonlinear_arith)
        requires
            top == big * one,
    ;
    exact(big * d, d, top);
    rounding_keeps_order(big * d, n, d);
    let value = nearest(n, d);
    assert(value * unit >= top) by (nonlinear_arith)
        requires
            value >= top,
            unit >= 1,
    ;
    exact(top, one, top);
    rounding_keeps_order(top, value * unit, one);
    let m = if unit == 1 {
        value
    } else {
        nearest(value * unit, one)
    };
    assert((2 * m + one) / (2 * one) >= big) by (nonlinear_arith)
        requires
            m >= big * one,
            one > 0,
    ;
}

/// The milliseconds from a value that was taken down by a power of two, where
/// it is still large enough for that to change nothing else.
proof fn from_scaled(n: nat, d: nat, unit: nat, s: nat, y: nat, z: nat)
    requires
        d > 0,
        0 < unit,
        s < 120,
        y == nearest(n, d * pow2(s)),
        (n * ONE as nat) / (d * pow2(s)) >= 0x10_0000_0000_0000,
        z == (if unit == 1 {
            y
        } else {
            nearest(y * unit, ONE as nat)
        }),
    ensures
        millis_of(n, d, unit) == ({
            let whole = (z + pow2((119 - s) as nat)) / pow2((120 - s) as nat);
            if whole <= u64::MAX {
                whole
            } else {
                u64::MAX as nat
            }
        }),
{
    let one = ONE as nat;
    let c = pow2(s);
    lemma_pow2_pos(s);
    assert(d * c > 0) by (nonlinear_arith)
        requires
            d > 0,
            c > 0,
    ;
    shifted(n, d * c, s);
    assert((c * n) * d == n * (d * c)) by (nonlinear_arith);
    same_value(c * n, d * c, n, d);
    let value = nearest(n, d);
    assert(value == c * y);
    not_small(n, d * c);
    assert(value * unit == c * (y * unit)) by (nonlinear_arith)
        requires
            value == c * y,
    ;
    assert((y * unit) * one / one == y * unit) by {
        vstd::arithmetic::div_mod::lemma_div_by_multiple((y * unit) as int, one as int);
    }
    assert(y * unit >= 0x10_0000_0000_0000) by (nonlinear_arith)
        requires
            y >= 0x10_0000_0000_0000,
            unit >= 1,
    ;
    shifted(y * unit, one, s);
    let m = c * z;
    // (2 c z + one) / (2 one), with 2 c taken out of both.
    one_is_a_power();
    let (h, q) = (pow2((119 - s) as nat), pow2((120 - s) as nat));
    lemma_pow2_adds(s, (120 - s) as nat);
    lemma_pow2_unfold((120 - s) as nat);
    let c2 = 2 * c;
    assert(2 * m + one == c2 * (z + h) && 2 * one == c2 * q) by (nonlinear_arith)
        requires
            m == c * z,
            c2 == 2 * c,
            one == c * q,
            q == 2 * h,
    ;
    lemma_pow2_pos((120 - s) as nat);
    vstd::arithmetic::div_mod::lemma_div_multiples_vanish_quotient(
        c2 as int,
        (z + h) as int,
        q as int,
    );
}

/// The milliseconds of a decimal number of units.
fn scale(whole: &[char], fraction: &[char], unit: u64) -> (r: u64)
    requires
        all_digits(whole@),
        all_digits(fraction@),
        0 < unit <= 3_600_000,
    ensures
        r == millis_of(
            decimal_value(whole@ + fraction@),
            pow(10, fraction@.len()) as nat,
            unit as nat,
        ),
{
    let ghost n = decimal_value(whole@ + fraction@);
    let ghost p = pow(10, fraction@.len()) as nat;
    let ghost f = decimal_value(fraction@);
    proof {
        pow_ten_step(fraction@.len());
        value_of_concat(whole@, fraction@);
    }
    let w: u64 = if whole.len() == 0 {
        0
    } else {
        match parse_digits(whole) {
            Some(w) => w,
            None => {
                proof {
                    let v = decimal_value(whole@);
                    assert(n >= 0x1_0000_0000_0000_0000 * p) by (nonlinear_arith)
                        requires
                            n == v * p + f,
                            v >= 0x1_0000_0000_0000_0000,
                    ;
                    too_much(n, p, unit as nat);
                }
                return u64::MAX;
            },
        }
    };
    assert(n == w * p + f);
    proof {
        one_is_a_power();
        lemma_powers();
    }
    if w >= 0x100_0000 {
        let (bits, rest) = fraction_bits(fraction, 33);
        let twice: u128 = w as u128 * 0x2_0000_0000 + bits;
        proof {
            halves_of(n, p, w as nat, f, 33, 88, twice as nat);
        }
        let y: u128 = round(twice, rest, Ghost(n), Ghost(p * pow2(88)));
        proof {
            bounded(n, p * pow2(88), twice as nat);
        }
        let z: u128 = times_unit(y, unit);
        proof {
            from_scaled(n, p, unit as nat, 88, y as nat, z as nat);
        }
        cut_off((z + 0x8000_0000) / 0x1_0000_0000)
    } else {
        let (bits, rest) = fraction_bits(fraction, 81);
        let twice: u128 = w as u128 * 0x2_0000_0000_0000_0000_0000 + bits;
        proof {
            halves_of(n, p, w as nat, f, 81, 40, twice as nat);
        }
        if twice < 0x20_0000_0000_0000 {
            proof {
                small_enough(n, p, twice as nat);
                next_to_nothing(n, p, unit as nat);
            }
            return 0;
        }
        let y: u128 = round(twice, rest, Ghost(n), Ghost(p * pow2(40)));
        proof {
            bounded(n, p * pow2(40), twice as nat);
        }
        let z: u128 = times_unit(y, unit);
        proof {
            from_scaled(n, p, unit as nat, 40, y as nat, z as nat);
        }
        cut_off((z + 0x8000_0000_0000_0000_0000) / 0x1_0000_0000_0000_0000_0000)
    }
}

proof fn lemma_powers()
    ensures
        pow2(31) == 0x8000_0000,
        pow2(32) == 0x1_0000_0000,
        pow2(33) == 0x2_0000_0000,
        pow2(79) == 0x8000_0000_0000_0000_0000,
        pow2(80) == 0x1_0000_0000_0000_0000_0000,
        pow2(81) == 0x2_0000_0000_0000_0000_0000,
        pow2(105) == 0x0200_0000_0000_0000_0000_0000_0000,
        pow2(126) == 0x4000_0000_0000_0000_0000_0000_0000_0000,
{
    vstd::arithmetic::power2::lemma2_to64();
    vstd::arithmetic::power2::lemma2_to64_rest();
    lemma_pow2_adds(64, 15);
    lemma_pow2_adds(64, 16);
    lemma_pow2_adds(64, 17);
    lemma_pow2_adds(64, 41);
    lemma_pow2_adds(64, 62);
}

/// No more than 64 bits hold.
fn cut_off(x: u128) -> (r: u64)
    ensures
        r == (if x <= u64::MAX {
            x
        } else {
            u64::MAX as u128
        }),
{
    if x > 0xffff_ffff_ffff_ffff {
        0xffff_ffff_ffff_ffff
    } else {
        x as u64
    }
}

/// A double taken by a unit.
fn times_unit(y: u128, unit: u64) -> (z: u128)
    requires
        y <= pow2(104),
        0 < unit <= 3_600_000,
    ensures
        z == (if unit == 1 {
            y as nat
        } else {
            nearest(y as nat * unit as nat, ONE as nat)
        }),
        z <= pow2(126),
{
    if unit == 1 {
        proof {
            vstd::arithmetic::power2::lemma_pow2_strictly_increases(104, 126);
        }
        return y;
    }
    proof {
        one_is_a_power();
        vstd::arithmetic::power2::lemma2_to64();
        vstd::arithmetic::power2::lemma2_to64_rest();
        lemma_pow2_adds(60, 44);
        lemma_pow2_adds(104, 22);
        assert(0 <= y * unit < 0x4000_0000_0000_0000_0000_0000_0000_0000) by (nonlinear_arith)
            requires
                0 <= y <= 0x100_0000_0000_0000_0000_0000_0000,
                0 < unit <= 3_600_000,
        ;
        small_mantissas(1, 126);
        assert((y * unit) * ONE <= pow2(126) * ONE) by (nonlinear_arith)
            requires
                y * unit <= pow2(126),
        ;
        at_most(y as nat * unit as nat, ONE as nat, pow2(126));
    }
    to_double(y * unit as u128)
}

/// A decimal number in halves of a part, taken down by a power of two: the
/// whole part and the bits of the fraction, one after the other.
proof fn halves_of(n: nat, p: nat, w: nat, f: nat, k: nat, s: nat, twice: nat)
    requires
        p > 0,
        n == w * p + f,
        k + s == 121,
        twice == w * pow2(k) + (f * pow2(k)) / p,
    ensures
        twice == (2 * (n * ONE as nat)) / (p * pow2(s)),
        ((f * pow2(k)) % p != 0) == ((2 * (n * ONE as nat)) % (p * pow2(s)) != 0),
        p * pow2(s) > 0,
        n * pow2(k) < (twice + 1) * p,
{
    let (a, c) = (pow2(k), pow2(s));
    lemma_pow2_pos(s);
    one_is_a_power();
    lemma_pow2_adds(k, s);
    lemma_pow2_unfold(121);
    let one = ONE as nat;
    assert(a * c == 2 * one);
    let x = f * a;
    lemma_fundamental_div_mod(x as int, p as int);
    let (q, r) = (x / p, x % p);
    let y = 2 * (n * one);
    assert(y == twice * (p * c) + r * c && r * c < p * c && p * c > 0) by (nonlinear_arith)
        requires
            y == 2 * (n * one),
            a * c == 2 * one,
            n == w * p + f,
            x == f * a,
            x == p * q + r,
            twice == w * a + q,
            0 <= r < p,
            c > 0,
    ;
    lemma_fundamental_div_mod_converse(y as int, (p * c) as int, twice as int, (r * c) as int);
    assert((r != 0) == (r * c != 0)) by (nonlinear_arith)
        requires
            c > 0,
    ;
    assert(n * a < (twice + 1) * p) by (nonlinear_arith)
        requires
            n == w * p + f,
            x == f * a,
            x == p * q + r,
            r < p,
            twice == w * a + q,
    ;
}

proof fn small_enough(n: nat, p: nat, twice: nat)
    requires
        p > 0,
        twice < 0x20_0000_0000_0000,
        n * pow2(81) < (twice + 1) * p,
    ensures
        n * ONE as nat <= pow2(92) * p,
{
    one_is_a_power();
    lemma_powers();
    lemma_pow2_adds(53, 39);
    lemma_pow2_adds(81, 39);
    let (a, b) = (pow2(81), pow2(39));
    assert(n * a <= 0x20_0000_0000_0000 * p) by (nonlinear_arith)
        requires
            n * a < (twice + 1) * p,
            twice + 1 <= 0x20_0000_0000_0000,
    ;
    assert(n * (a * b) <= (0x20_0000_0000_0000 * b) * p) by (nonlinear_arith)
        requires
            n * a <= 0x20_0000_0000_0000 * p,
    ;
}

/// A value is no more than what it was rounded from allows.
proof fn bounded(n: nat, d: nat, twice: nat)
    requires
        d > 0,
        twice == (2 * (n * ONE as nat)) / d,
        0x20_0000_0000_0000 <= twice < pow2(105),
    ensures
        nearest(n, d) <= pow2(104),
        (n * ONE as nat) / d >= 0x10_0000_0000_0000,
{
    let x = n * ONE as nat;
    lemma_fundamental_div_mod((2 * x) as int, d as int);
    lemma_pow2_unfold(105);
    let b = pow2(104);
    assert(d * (twice + 1) == d * twice + d) by (nonlinear_arith);
    assert(d * (twice + 1) <= 2 * (b * d)) by (nonlinear_arith)
        requires
            twice + 1 <= 2 * b,
    ;
    small_mantissas(1, 104);
    at_most(n, d, b);
    vstd::arithmetic::div_mod::lemma_div_denominator((2 * x) as int, d as int, 2);
    vstd::arithmetic::div_mod::lemma_div_denominator((2 * x) as int, 2, d as int);
    assert(d * 2 == 2 * d);
}

/// Split off the leading digits and points.
fn split_number(t: &[char]) -> (r: usize)
    ensures
        r == number_len(t@),
        r <= t.len(),
{
    let mut i: usize = 0;
    assert(t@.skip(0) == t@);
    while i < t.len() && (('0' <= t[i] && t[i] <= '9') || t[i] == '.')
        invariant
            i <= t.len(),
            i + number_len(t@.skip(i as int)) == number_len(t@),
        decreases t.len() - i,
    {
        assert(t@.skip(i as int).drop_first() == t@.skip(i + 1));
        i = i + 1;
    }
    i
}

fn all_ascii_digits(s: &[char]) -> (r: bool)
    ensures
        r == all_digits(s@),
{
    let mut i: usize = 0;
    while i < s.len()
        invariant
            i <= s.len(),
            forall|j: int| 0 <= j < i ==> is_digit(s@[j]),
        decreases s.len() - i,
    {
        if !('0' <= s[i] && s[i] <= '9') {
            assert(!is_digit(s@[i as int]));
            return false;
        }
        i = i + 1;
    }
    true
}

/// Parse `"250ms"`, `"15s"`, `"10m"`, `"2h"`. A bare number is rejected:
/// silently guessing seconds versus milliseconds is exactly the kind of
/// ambiguity that produces a screen that blanks 1000× too early.
///
/// A fraction is allowed (`"1.5s"`). The number is read as a double, and what
/// it comes to in milliseconds, a double too, is rounded to the nearest one.
pub fn parse(s: &str) -> (r: Result<Dur, String>)
    ensures
        match (r, parsed(s@)) {
            (Ok(d), Ok(e)) => d == e,
            (Err(m), Err(e)) => m@ == e,
            _ => false,
        },
{
    let all = to_chars(s);
    let t = trim_chars(&all);
    if t.len() == 0 {
        return Err("empty duration".to_owned());
    }
    let text = from_chars(&t);
    let split = split_number(&t);
    if split == t.len() {
        return Err(concat(quote(text.as_str()).as_str(), " has no unit; use ms, s, m or h"));
    }
    let number = slice_chars(&t, 0, split);
    assert(number@ == t@.take(split as int));
    let rest = slice_chars(&t, split, t.len());
    assert(rest@ == t@.skip(split as int));
    let unit = trim_chars(&rest);

    let mut dot: usize = 0;
    proof {
        number_len_bound(number@);
        assert(number@.skip(0) == number@);
    }
    while dot < number.len() && number[dot] != '.'
        invariant
            dot <= number.len(),
            dot + whole_len(number@.skip(dot as int)) == whole_len(number@),
        decreases number.len() - dot,
    {
        assert(number@.skip(dot as int).drop_first() == number@.skip(dot + 1));
        dot = dot + 1;
    }
    let whole = slice_chars(&number, 0, dot);
    assert(whole@ == whole_part(number@));
    let fraction = if dot < number.len() {
        slice_chars(&number, dot + 1, number.len())
    } else {
        Vec::new()
    };
    assert(fraction@ == fraction_part(number@));

    if !all_ascii_digits(&whole) || !all_ascii_digits(&fraction) || (whole.len() == 0
        && fraction.len() == 0) {
        let mut m = quote(from_chars(&number).as_str());
        m.append(" is not a number in ");
        m.append(quote(text.as_str()).as_str());
        return Err(m);
    }
    let unit_text = from_chars(&unit);
    let factor: u64 = if same(unit_text.as_str(), "ms") {
        1
    } else if same(unit_text.as_str(), "s") {
        1000
    } else if same(unit_text.as_str(), "m") {
        60_000
    } else if same(unit_text.as_str(), "h") {
        3_600_000
    } else {
        let mut m = concat("unknown unit ", quote(unit_text.as_str()).as_str());
        m.append(" in ");
        m.append(quote(text.as_str()).as_str());
        m.append("; use ms, s, m or h");
        return Err(m);
    };
    let ms = scale(&whole, &fraction, factor);
    Ok(Dur::from_millis(ms))
}

/// What a text means as a duration that may be off, or why it is refused.
pub open spec fn parsed_maybe(s: Seq<char>) -> Result<MaybeDuration, Seq<char>> {
    let t = trimmed(s);
    if ascii_lower(t) == "off"@ || ascii_lower(t) == "never"@ {
        Ok(MaybeDuration(None))
    } else {
        match parsed(t) {
            Ok(d) => Ok(MaybeDuration(Some(d))),
            Err(e) => Err(e),
        }
    }
}

/// Parse a duration that may be `off` or `never`, in any case.
pub fn parse_maybe(s: &str) -> (r: Result<MaybeDuration, String>)
    ensures
        match (r, parsed_maybe(s@)) {
            (Ok(d), Ok(e)) => d == e,
            (Err(m), Err(e)) => m@ == e,
            _ => false,
        },
{
    let all = to_chars(s);
    let t = trim_chars(&all);
    let lower = from_chars(&ascii_lowercase(&t));
    if same(lower.as_str(), "off") || same(lower.as_str(), "never") {
        return Ok(MaybeDuration(None));
    }
    match parse(from_chars(&t).as_str()) {
        Ok(d) => Ok(MaybeDuration(Some(d))),
        Err(e) => Err(e),
    }
}

// --- laws -----------------------------------------------------------------

/// A text without white space at either end is its own trimming.
proof fn trimmed_is_same(s: Seq<char>)
    requires
        s.len() > 0,
        !is_white(s[0]),
        !is_white(s.last()),
    ensures
        trimmed(s) == s,
{
}

/// Digits followed by something else: the digits are the number.
proof fn number_len_of_digits(d: Seq<char>, rest: Seq<char>)
    requires
        all_digits(d),
        rest.len() > 0,
        !is_digit(rest[0]),
        rest[0] != '.',
    ensures
        number_len(d + rest) == d.len(),
    decreases d.len(),
{
    if d.len() > 0 {
        assert(is_digit(d[0]));
        assert((d + rest).drop_first() == d.drop_first() + rest);
        assert(all_digits(d.drop_first()));
        number_len_of_digits(d.drop_first(), rest);
    } else {
        assert(d + rest == rest);
    }
}

proof fn whole_len_of_digits(d: Seq<char>)
    requires
        all_digits(d),
    ensures
        whole_len(d) == d.len(),
    decreases d.len(),
{
    if d.len() > 0 {
        assert(is_digit(d[0]));
        assert(all_digits(d.drop_first()));
        whole_len_of_digits(d.drop_first());
    }
}

/// Whether a number of milliseconds is a double. Up to 2^53 every one is.
pub open spec fn fits_double(ms: nat) -> bool {
    is_double(ms * ONE as nat)
}

/// A part of what is a double is a double.
proof fn parts_fit(n: nat, u: nat)
    requires
        u == 1 || u == 1000 || u == 60_000 || u == 3_600_000,
        n * u <= u64::MAX,
        fits_double(n * u),
    ensures
        fits_double(n),
{
    let one = ONE as nat;
    one_is_a_power();
    if u == 1 {
        assert(n * 1 == n);
    } else if n <= 0x20_0000_0000_0000 {
        small_mantissas(n, 120);
        assert(pow2(120) * n == n * one);
    } else {
        assert(u == 1000) by (nonlinear_arith)
            requires
                n > 0x20_0000_0000_0000,
                n * u <= 0xffff_ffff_ffff_ffff,
                u == 1000 || u == 60_000 || u == 3_600_000,
        ;
        let x = (n * 1000) * one;
        vstd::arithmetic::power2::lemma2_to64();
        lemma_pow2_adds(10, 120);
        lemma_pow2_adds(7, 120);
        let g = pow2(130);
        assert(x >= g * 0x10_0000_0000_0000nat) by (nonlinear_arith)
            requires
                x == (n * 1000) * one,
                g == 1024 * one,
                n > 0x20_0000_0000_0000,
        ;
        large_doubles(x, 130);
        lemma_fundamental_div_mod(x as int, g as int);
        let q = x / g;
        assert(1000 * n == 1024 * q) by (nonlinear_arith)
            requires
                x == (n * 1000) * one,
                x == g * q,
                g == 1024 * one,
                one > 0,
        ;
        let k = (85 * q - 83 * n) as nat;
        assert(n == 128 * k);
        small_mantissas(k, 127);
        assert(pow2(127) * k == n * one) by (nonlinear_arith)
            requires
                pow2(127) == 128 * one,
                n == 128 * k,
        ;
    }
}

/// A whole number of units reads as that many milliseconds.
proof fn whole_number_parses(n: nat, unit: Seq<char>, u: nat)
    requires
        unit_ms(unit) == Some(u),
        n * u <= u64::MAX,
        fits_double(n * u),
    ensures
        parsed(decimal(n) + unit) == Ok::<Dur, Seq<char>>(Dur((n * u) as u128)),
{
    reveal_strlit("ms");
    reveal_strlit("s");
    reveal_strlit("m");
    reveal_strlit("h");
    let d = decimal(n);
    let t = d + unit;
    decimal_round_trip(n);
    assert(is_digit(d[0]));
    assert(unit.len() > 0 && !is_white(unit[0]) && !is_white(unit.last()) && !is_digit(unit[0])
        && unit[0] != '.');
    assert(t.last() == unit.last());
    trimmed_is_same(t);
    number_len_of_digits(d, unit);
    assert(t.take(d.len() as int) == d);
    assert(t.skip(d.len() as int) == unit);
    trimmed_is_same(unit);
    whole_len_of_digits(d);
    assert(whole_part(d) == d);
    assert(fraction_part(d) == Seq::<char>::empty());
    assert(d + Seq::<char>::empty() == d);
    pow_ten_step(0);
    let one = ONE as nat;
    parts_fit(n, u);
    exact(n, 1, n * one);
    let m = (n * u) * one;
    assert((n * one) * u == m) by (nonlinear_arith)
        requires
            m == (n * u) * one,
    ;
    exact(m, one, m);
    assert(n * 1 == n);
    assert((2 * m + one) / (2 * one) == n * u) by {
        let k = (n * u) as int;
        assert(2 * m + one == k * (2 * one) + one) by (nonlinear_arith)
            requires
                m == k * one,
        ;
        lemma_fundamental_div_mod_converse((2 * m + one) as int, (2 * one) as int, k, one as int);
    }
}

/// Reading back a rendered duration gives the duration that was rendered. A
/// number is read as a double, so this is so of the durations whose
/// milliseconds are one.
pub proof fn render_parse_round_trip(d: Dur)
    requires
        d.0 <= u64::MAX,
        fits_double(d.0 as nat),
    ensures
        parsed(rendered(d)) == Ok::<Dur, Seq<char>>(d),
{
    let ms = d.ms() as nat;
    assert(ms == d.0);
    if ms == 0 {
        reveal_strlit("0s");
        reveal_strlit("ms");
        reveal_strlit("s");
        assert("s"@.len() != "ms"@.len());
        assert(decimal(0) == seq![crate::strings::digit(0)]);
        assert(decimal(0) + "s"@ == "0s"@);
        whole_number_parses(0, "s"@, 1000);
    } else if ms % 3_600_000 == 0 {
        reveal_strlit("ms");
        reveal_strlit("s");
        reveal_strlit("m");
        reveal_strlit("h");
        assert("h"@[0] != "s"@[0] && "h"@[0] != "m"@[0]);
        whole_number_parses(ms / 3_600_000, "h"@, 3_600_000);
    } else if ms % 60_000 == 0 {
        reveal_strlit("ms");
        reveal_strlit("s");
        reveal_strlit("m");
        assert("m"@[0] != "s"@[0] && "m"@.len() != "ms"@.len());
        whole_number_parses(ms / 60_000, "m"@, 60_000);
    } else if ms % 1000 == 0 {
        reveal_strlit("ms");
        reveal_strlit("s");
        assert("s"@.len() != "ms"@.len());
        whole_number_parses(ms / 1000, "s"@, 1000);
    } else {
        whole_number_parses(ms, "ms"@, 1);
    }
}

/// The same for a duration that may be off.
pub proof fn maybe_render_parse_round_trip(d: MaybeDuration)
    requires
        d.0 matches Some(x) ==> x.0 <= u64::MAX && fits_double(x.0 as nat),
    ensures
        parsed_maybe(d.text()) == Ok::<MaybeDuration, Seq<char>>(d),
{
    reveal_strlit("off");
    reveal_strlit("never");
    match d.0 {
        None => {
            let t = "off"@;
            trimmed_is_same(t);
            assert(ascii_lower(t) == t);
        },
        Some(x) => {
            render_parse_round_trip(x);
            let t = rendered(x);
            rendered_ends(x);
            trimmed_is_same(t);
            assert(ascii_lower(t)[0] == t[0]);
            assert("off"@[0] == 'o');
            assert("never"@[0] == 'n');
        },
    }
}

/// A rendered duration begins with a digit and ends with a letter.
proof fn rendered_ends(d: Dur)
    ensures
        rendered(d).len() > 0,
        is_digit(rendered(d)[0]),
        !is_white(rendered(d).last()),
{
    reveal_strlit("0s");
    reveal_strlit("ms");
    reveal_strlit("s");
    reveal_strlit("m");
    reveal_strlit("h");
    let ms = d.ms() as nat;
    decimal_round_trip(ms / 3_600_000);
    decimal_round_trip(ms / 60_000);
    decimal_round_trip(ms / 1000);
    decimal_round_trip(ms);
    assert(is_digit(decimal(ms / 3_600_000)[0]));
    assert(is_digit(decimal(ms / 60_000)[0]));
    assert(is_digit(decimal(ms / 1000)[0]));
    assert(is_digit(decimal(ms)[0]));
}

/// A whole number of milliseconds, seconds, minutes or hours is as long as it
/// says, up to as many milliseconds as doubles count exactly.
pub proof fn units_are_what_they_say(n: nat)
    requires
        n * 3_600_000 <= 0x20_0000_0000_0000,
    ensures
        parsed(decimal(n) + "ms"@) == Ok::<Dur, Seq<char>>(Dur(n as u128)),
        parsed(decimal(n) + "s"@) == Ok::<Dur, Seq<char>>(Dur((n * 1000) as u128)),
        parsed(decimal(n) + "m"@) == Ok::<Dur, Seq<char>>(Dur((n * 60 * 1000) as u128)),
        parsed(decimal(n) + "h"@) == Ok::<Dur, Seq<char>>(Dur((n * 60 * 60 * 1000) as u128)),
{
    reveal_strlit("ms");
    reveal_strlit("s");
    reveal_strlit("m");
    reveal_strlit("h");
    assert("s"@.len() != "ms"@.len() && "m"@.len() != "ms"@.len() && "h"@.len() != "ms"@.len());
    assert("h"@[0] != "s"@[0] && "h"@[0] != "m"@[0] && "m"@[0] != "s"@[0]);
    one_is_a_power();
    small_mantissas(n * 1, 120);
    small_mantissas(n * 1000, 120);
    small_mantissas(n * 60_000, 120);
    small_mantissas(n * 3_600_000, 120);
    let one = ONE as nat;
    assert(pow2(120) * (n * 1) == (n * 1) * one) by (nonlinear_arith)
        requires
            pow2(120) == one,
    ;
    assert(pow2(120) * (n * 1000) == (n * 1000) * one) by (nonlinear_arith)
        requires
            pow2(120) == one,
    ;
    assert(pow2(120) * (n * 60_000) == (n * 60_000) * one) by (nonlinear_arith)
        requires
            pow2(120) == one,
    ;
    assert(pow2(120) * (n * 3_600_000) == (n * 3_600_000) * one) by (nonlinear_arith)
        requires
            pow2(120) == one,
    ;
    whole_number_parses(n, "ms"@, 1);
    whole_number_parses(n, "s"@, 1000);
    whole_number_parses(n, "m"@, 60_000);
    whole_number_parses(n, "h"@, 3_600_000);
}

} // verus!

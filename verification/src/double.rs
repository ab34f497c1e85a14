//! IEEE 754 double-precision arithmetic on numbers that are not negative, in
//! whole numbers.
//!
//! A double is held as a count of parts, [`ONE`] of them to one. A part is so
//! small that every double from 2^-68 up is a whole number of parts; what is
//! smaller is taken to the nearest part.

use vstd::arithmetic::div_mod::{
    lemma_div_denominator, lemma_fundamental_div_mod, lemma_fundamental_div_mod_converse,
};
use vstd::arithmetic::power2::{lemma_pow2_unfold, pow2};
use vstd::prelude::*;

use crate::single::half_even;

verus! {

/// How many parts there are to one: 2^120.
pub const ONE: u128 = 0x0100_0000_0000_0000_0000_0000_0000_0000;

/// The mantissa of a double is below this: 2^53.
pub const MANTISSA: u128 = 0x20_0000_0000_0000;

/// How far apart doubles lie near a number of parts: as far as it takes for
/// the number to be fewer than 2^53 such steps, and one part at least.
pub open spec fn grid(x: nat) -> nat
    decreases x,
{
    if x < MANTISSA {
        1
    } else {
        2 * grid(x / 2)
    }
}

/// The double nearest to the fraction `n / d`, in parts; halfway between two,
/// the one with the even mantissa.
pub open spec fn nearest(n: nat, d: nat) -> nat {
    let g = grid((n * ONE as nat) / d);
    half_even(n * ONE as nat, d * g) * g
}

// --- rounding -------------------------------------------------------------

/// The quotient and the remainder decide how a quotient is rounded.
proof fn half_even_is(n: nat, d: nat, q: nat, r: nat)
    requires
        d > 0,
        n == q * d + r,
        r < d,
    ensures
        half_even(n, d) == (if 2 * r > d || (2 * r == d && q % 2 == 1) {
            q + 1
        } else {
            q
        }),
{
    lemma_fundamental_div_mod_converse(n as int, d as int, q as int, r as int);
}

/// A number of parts is at least 2^52 steps, and below 2^53, unless it is
/// small anyway.
pub proof fn grid_fits(x: nat)
    ensures
        1 <= grid(x),
        x < grid(x) * MANTISSA,
        x >= MANTISSA ==> 2 * x >= grid(x) * MANTISSA,
        x < MANTISSA ==> grid(x) == 1,
    decreases x,
{
    if x >= MANTISSA {
        grid_fits(x / 2);
    }
}

/// The double nearest to a fraction, from the doubled number of parts, rounded
/// down, and whether anything was rounded off.
pub(crate) fn round(twice: u128, inexact: bool, Ghost(n): Ghost<nat>, Ghost(d): Ghost<nat>) -> (r: u128)
    requires
        d > 0,
        twice == (2 * (n * ONE as nat)) / d,
        inexact == ((2 * (n * ONE as nat)) % d != 0),
    ensures
        r == nearest(n, d),
{
    let ghost x = n * ONE as nat;
    let ghost left = (2 * x) % d;
    let mut m: u128 = twice / 2;
    let mut half: bool = twice % 2 == 1;
    let mut rest: bool = inexact;
    let mut g: u128 = 1;
    let ghost mut low: nat = 0;
    proof {
        lemma_fundamental_div_mod((2 * x) as int, d as int);
        grid_fits((twice / 2) as nat);
    }
    while m >= 0x20_0000_0000_0000
        invariant
            1 <= g,
            low < g,
            twice == (2 * m + (if half {
                1int
            } else {
                0
            })) * g + low,
            rest == (inexact || low > 0),
            grid((twice / 2) as nat) == g * grid(m as nat),
            g > 1 ==> m >= 0x10_0000_0000_0000,
        decreases m,
    {
        let ghost h: int = if half {
            1
        } else {
            0
        };
        let ghost (m0, g0, low0) = (m as int, g as int, low as int);
        rest = rest || half;
        half = m % 2 == 1;
        m = m / 2;
        proof {
            let b: int = if half {
                1
            } else {
                0
            };
            assert(m0 == 2 * m + b);
            low = (h * g0 + low0) as nat;
            assert((2 * m0 + h) * g0 + low0 == (2 * m + b) * (2 * g0) + (h * g0 + low0))
                by (nonlinear_arith)
                requires
                    m0 == 2 * m + b,
            ;
            assert(h * g0 == (if h == 1 {
                g0
            } else {
                0
            })) by (nonlinear_arith)
                requires
                    h == 0 || h == 1,
            ;
            assert(g0 * grid(m0 as nat) == (2 * g0) * grid(m as nat)) by (nonlinear_arith)
                requires
                    grid(m0 as nat) == 2 * grid(m as nat),
            ;
            assert(2 * m * (2 * g0) <= twice) by (nonlinear_arith)
                requires
                    twice == (2 * m + b) * (2 * g0) + low,
                    b >= 0,
                    g0 >= 1,
                    low >= 0,
            ;
            assert(2 * g0 <= twice) by (nonlinear_arith)
                requires
                    2 * m * (2 * g0) <= twice,
                    m >= 1,
                    g0 >= 1,
            ;
        }
        g = g * 2;
    }
    let ghost h: int = if half {
        1
    } else {
        0
    };
    let up: bool = half && (rest || m % 2 == 1);
    proof {
        let (mi, gi, di, li, r0) = (m as int, g as int, d as int, low as int, left as int);
        assert(grid(m as nat) == 1);
        lemma_div_denominator((2 * x) as int, di, 2);
        assert((2 * x) / (d * 2) == x / d) by {
            lemma_div_denominator((2 * x) as int, 2, di);
            assert(2 * d == d * 2);
        }
        assert(twice / 2 == x / d);
        // 2 x == (2 m + h) g d + (low d + left)
        let step = gi * di;
        let over = li * di + r0;
        assert(2 * x == (2 * mi + h) * step + over) by (nonlinear_arith)
            requires
                2 * x == di * ((2 * mi + h) * gi + li) + r0,
                step == gi * di,
                over == li * di + r0,
        ;
        assert(0 <= over < step) by (nonlinear_arith)
            requires
                0 <= li < gi,
                0 <= r0 < di,
                over == li * di + r0,
                step == gi * di,
        ;
        assert((over > 0) == rest) by (nonlinear_arith)
            requires
                over == li * di + r0,
                0 <= li,
                0 <= r0,
                di > 0,
                rest == (r0 != 0 || li > 0),
        ;
        assert((2 * mi + h) * step == 2 * (mi * step) + h * step) by (nonlinear_arith);
        assert(h * step == (if h == 1 {
            step
        } else {
            0
        })) by (nonlinear_arith)
            requires
                h == 0 || h == 1,
        ;
        let r = x - mi * step;
        assert(2 * r == h * step + over);
        assert(d * g as nat == step) by (nonlinear_arith)
            requires
                step == gi * di,
                gi == g,
                di == d,
        ;
        half_even_is(x, d * g as nat, m as nat, r as nat);
        assert((mi + 1) * gi == mi * gi + gi) by (nonlinear_arith);
        assert(0 <= mi * gi && (g > 1 ==> 0x10_0000_0000_0000 * gi <= mi * gi)) by (nonlinear_arith)
            requires
                gi >= 1,
                mi >= 0,
                g > 1 ==> mi >= 0x10_0000_0000_0000,
                gi == g,
        ;
        assert(2 * (mi * gi) <= twice) by (nonlinear_arith)
            requires
                twice == (2 * mi + h) * gi + li,
                h >= 0,
                li >= 0,
                gi >= 1,
        ;
        assert(mi * 1 == mi);
    }
    let mantissa: u128 = if up {
        m + 1
    } else {
        m
    };
    proof {
        assert(grid((n * ONE as nat) / d) == g) by {
            assert(g * 1 == g);
        }
        assert(half_even(n * ONE as nat, d * g as nat) == mantissa);
    }
    mantissa * g
}

// --- what rounding keeps --------------------------------------------------

/// Whether a number of parts is a double: a whole number of the steps that
/// doubles are apart there.
pub open spec fn is_double(x: nat) -> bool {
    x % grid(x) == 0
}

proof fn half_even_scales(n: nat, d: nat, c: nat)
    requires
        d > 0,
        c > 0,
    ensures
        half_even(c * n, c * d) == half_even(n, d),
        (c * n) / (c * d) == n / d,
{
    let (q, r) = (n / d, n % d);
    lemma_fundamental_div_mod(n as int, d as int);
    assert(c * n == q * (c * d) + c * r && c * r < c * d && c * d > 0) by (nonlinear_arith)
        requires
            n == d * q + r,
            r < d,
            c > 0,
    ;
    assert(2 * (c * r) > c * d <==> 2 * r > d) by (nonlinear_arith)
        requires
            c > 0,
    ;
    assert(2 * (c * r) == c * d <==> 2 * r == d) by (nonlinear_arith)
        requires
            c > 0,
    ;
    half_even_is(n, d, q, r);
    half_even_is(c * n, c * d, q, c * r);
    lemma_fundamental_div_mod_converse((c * n) as int, (c * d) as int, q as int, (c * r) as int);
}

proof fn multiplied(n: nat, d: nat, c: nat)
    requires
        d > 0,
        c > 0,
    ensures
        nearest(c * n, c * d) == nearest(n, d),
{
    let x = n * ONE as nat;
    assert((c * n) * ONE as nat == c * x) by (nonlinear_arith)
        requires
            x == n * ONE as nat,
    ;
    half_even_scales(x, d, c);
    let g = grid(x / d);
    grid_fits(x / d);
    assert((c * d) * g == c * (d * g) && d * g > 0) by (nonlinear_arith)
        requires
            d > 0,
            g >= 1,
    ;
    half_even_scales(x, d * g, c);
}

/// The nearest double depends on the value of a fraction only.
pub proof fn same_value(n: nat, d: nat, n2: nat, d2: nat)
    requires
        d > 0,
        d2 > 0,
        n * d2 == n2 * d,
    ensures
        nearest(n, d) == nearest(n2, d2),
{
    multiplied(n, d, d2);
    multiplied(n2, d2, d);
    assert(d2 * n == d * n2 && d2 * d == d * d2) by (nonlinear_arith)
        requires
            n * d2 == n2 * d,
    ;
}

/// Doubling commutes with rounding.
pub proof fn doubled(n: nat, d: nat)
    requires
        d > 0,
        (n * ONE as nat) / d >= 0x10_0000_0000_0000,
    ensures
        nearest(2 * n, d) == 2 * nearest(n, d),
        ((2 * n) * ONE as nat) / d >= 0x10_0000_0000_0000,
{
    let x = n * ONE as nat;
    let w = x / d;
    assert((2 * n) * ONE as nat == 2 * x) by (nonlinear_arith)
        requires
            x == n * ONE as nat,
    ;
    lemma_fundamental_div_mod(x as int, d as int);
    let r = x % d;
    let b: nat = if 2 * r >= d {
        1
    } else {
        0
    };
    let left = (2 * r - b * d) as nat;
    assert(b * d == (if b == 1 {
        d
    } else {
        0
    })) by (nonlinear_arith)
        requires
            b == 0 || b == 1,
    ;
    assert(2 * x == (2 * w + b) * d + left) by (nonlinear_arith)
        requires
            x == d * w + r,
            left == 2 * r - b * d,
    ;
    lemma_fundamental_div_mod_converse((2 * x) as int, d as int, (2 * w + b) as int, left as int);
    let w2 = (2 * x) / d;
    assert(w2 / 2 == w && w2 >= MANTISSA);
    let g = grid(w);
    grid_fits(w);
    assert(grid(w2) == 2 * g);
    assert(d * (2 * g) == 2 * (d * g) && d * g > 0) by (nonlinear_arith)
        requires
            d > 0,
            g >= 1,
    ;
    half_even_scales(x, d * g, 2);
    let h = half_even(x, d * g);
    assert(h * (2 * g) == 2 * (h * g)) by (nonlinear_arith);
}

/// Taking a number by a power of two commutes with rounding.
pub proof fn shifted(n: nat, d: nat, k: nat)
    requires
        d > 0,
        (n * ONE as nat) / d >= 0x10_0000_0000_0000,
    ensures
        nearest(pow2(k) * n, d) == pow2(k) * nearest(n, d),
        ((pow2(k) * n) * ONE as nat) / d >= 0x10_0000_0000_0000,
    decreases k,
{
    if k == 0 {
        vstd::arithmetic::power2::lemma2_to64();
    } else {
        let j = (k - 1) as nat;
        shifted(n, d, j);
        lemma_pow2_unfold(k);
        let m = pow2(j) * n;
        doubled(m, d);
        assert(pow2(k) * n == 2 * m) by (nonlinear_arith)
            requires
                pow2(k) == 2 * pow2(j),
                m == pow2(j) * n,
        ;
        assert(pow2(k) * nearest(n, d) == 2 * (pow2(j) * nearest(n, d))) by (nonlinear_arith)
            requires
                pow2(k) == 2 * pow2(j),
        ;
    }
}

/// Steps between smaller numbers divide steps between larger ones.
proof fn grids_nest(x: nat, y: nat)
    requires
        x <= y,
    ensures
        grid(y) % grid(x) == 0,
        grid(x) <= grid(y),
    decreases y,
{
    grid_fits(x);
    grid_fits(y);
    if x >= MANTISSA {
        grids_nest(x / 2, y / 2);
        grid_fits(x / 2);
        let (a, b) = (grid(x / 2) as int, grid(y / 2) as int);
        lemma_fundamental_div_mod(b, a);
        let q = b / a;
        assert(2 * b == q * (2 * a)) by (nonlinear_arith)
            requires
                b == a * q,
        ;
        vstd::arithmetic::div_mod::lemma_mod_multiples_basic(q, 2 * a);
    } else {
        assert(grid(y) % 1 == 0);
    }
}

proof fn divides(a: nat, b: nat, c: nat)
    requires
        a > 0,
        b > 0,
        b % a == 0,
        c % b == 0,
    ensures
        c % a == 0,
{
    lemma_fundamental_div_mod(b as int, a as int);
    lemma_fundamental_div_mod(c as int, b as int);
    let (p, q) = (b as int / a as int, c as int / b as int);
    assert(c == (q * p) * a) by (nonlinear_arith)
        requires
            b == a * p,
            c == b * q,
    ;
    vstd::arithmetic::div_mod::lemma_mod_multiples_basic(q * p, a as int);
}

/// Rounding does not take a number past a double.
pub proof fn at_most(n: nat, d: nat, b: nat)
    requires
        d > 0,
        n * ONE as nat <= b * d,
        is_double(b),
    ensures
        nearest(n, d) <= b,
{
    let x = n * ONE as nat;
    let w = x / d;
    lemma_fundamental_div_mod(x as int, d as int);
    assert(w <= b) by (nonlinear_arith)
        requires
            x == d * w + x % d,
            x % d >= 0,
            x <= b * d,
            d > 0,
    ;
    let g = grid(w);
    grid_fits(w);
    grid_fits(b);
    grids_nest(w, b);
    divides(g, grid(b), b);
    lemma_fundamental_div_mod(b as int, g as int);
    let k = b / g;
    let dg = d * g;
    assert(x <= k * dg && dg > 0) by (nonlinear_arith)
        requires
            x <= b * d,
            b == g * k,
            dg == d * g,
            d > 0,
            g >= 1,
    ;
    lemma_fundamental_div_mod(x as int, dg as int);
    let (q, r) = (x / dg, x % dg);
    half_even_is(x, dg, q, r);
    assert(q < k || (q == k && r == 0)) by (nonlinear_arith)
        requires
            x == dg * q + r,
            0 <= r < dg,
            x <= k * dg,
    ;
    let h = half_even(x, dg);
    assert(h * g <= g * k) by (nonlinear_arith)
        requires
            h <= k,
    ;
}

/// A double taken by a power of two is a double.
pub proof fn double_scales(x: nat, k: nat)
    requires
        is_double(x),
    ensures
        is_double(pow2(k) * x),
    decreases k,
{
    if k == 0 {
        vstd::arithmetic::power2::lemma2_to64();
    } else {
        let j = (k - 1) as nat;
        double_scales(x, j);
        lemma_pow2_unfold(k);
        let y = pow2(j) * x;
        assert(pow2(k) * x == 2 * y) by (nonlinear_arith)
            requires
                pow2(k) == 2 * pow2(j),
                y == pow2(j) * x,
        ;
        grid_fits(y);
        if 2 * y >= MANTISSA {
            let g = grid(y) as int;
            lemma_fundamental_div_mod(y as int, g);
            let q = y as int / g;
            assert(2 * y == q * (2 * g)) by (nonlinear_arith)
                requires
                    y == g * q,
            ;
            vstd::arithmetic::div_mod::lemma_mod_multiples_basic(q, 2 * g);
            assert((2 * y) / 2 == y);
        } else {
            assert((2 * y) % 1 == 0);
        }
    }
}

proof fn grid_is_a_power(x: nat) -> (k: nat)
    ensures
        grid(x) == pow2(k),
    decreases x,
{
    if x < MANTISSA {
        vstd::arithmetic::power2::lemma2_to64();
        0
    } else {
        let j = grid_is_a_power(x / 2);
        lemma_pow2_unfold(j + 1);
        j + 1
    }
}

/// A whole number below 2^53, or that number itself, is a double once it is
/// taken by a power of two.
pub proof fn small_mantissas(m: nat, k: nat)
    requires
        m <= MANTISSA,
    ensures
        is_double(pow2(k) * m),
{
    grid_fits(m);
    if m == MANTISSA {
        assert(grid(0x10_0000_0000_0000) == 1);
        assert(grid(m) == 2);
    } else {
        assert(m % 1 == 0);
    }
    double_scales(m, k);
}

/// What comes of rounding is a double, whatever was rounded.
pub proof fn rounded_is_double(n: nat, d: nat)
    requires
        d > 0,
    ensures
        is_double(nearest(n, d)),
{
    let x = n * ONE as nat;
    let w = x / d;
    let g = grid(w);
    let dg = d * g;
    grid_fits(w);
    lemma_fundamental_div_mod(x as int, d as int);
    assert(dg > 0) by (nonlinear_arith)
        requires
            dg == d * g,
            d > 0,
            g >= 1,
    ;
    lemma_fundamental_div_mod(x as int, dg as int);
    let (q, r) = (x / dg, x % dg);
    half_even_is(x, dg, q, r);
    let mant = MANTISSA as int;
    assert(x < mant * dg) by (nonlinear_arith)
        requires
            x == d * w + x % d,
            x % d < d,
            w + 1 <= g * mant,
            dg == d * g,
            d > 0,
    ;
    assert(q < mant) by (nonlinear_arith)
        requires
            x == dg * q + r,
            0 <= r,
            x < mant * dg,
            dg > 0,
    ;
    let h = half_even(x, dg);
    let k = grid_is_a_power(w);
    small_mantissas(h, k);
    assert(h * g == g * h) by (nonlinear_arith);
}

/// A fraction that is a double is left alone.
pub proof fn exact(n: nat, d: nat, w: nat)
    requires
        d > 0,
        n * ONE as nat == w * d,
        is_double(w),
    ensures
        nearest(n, d) == w,
{
    let x = n * ONE as nat;
    vstd::arithmetic::div_mod::lemma_div_by_multiple(w as int, d as int);
    assert(x / d == w);
    let g = grid(w);
    grid_fits(w);
    lemma_fundamental_div_mod(w as int, g as int);
    let k = w / g;
    let dg = d * g;
    assert(x == k * dg + 0 && dg > 0 && k * g == w) by (nonlinear_arith)
        requires
            x == w * d,
            w == g * k,
            dg == d * g,
            d > 0,
            g >= 1,
    ;
    half_even_is(x, dg, k, 0);
}

/// Rounding keeps the order.
pub proof fn rounding_keeps_order(a: nat, b: nat, d: nat)
    requires
        d > 0,
        a <= b,
    ensures
        nearest(a, d) <= nearest(b, d),
{
    let one = ONE as nat;
    let (x, y) = (a * one, b * one);
    assert(x <= y) by (nonlinear_arith)
        requires
            x == a * one,
            y == b * one,
            a <= b,
    ;
    let (v, w) = (x / d, y / d);
    vstd::arithmetic::div_mod::lemma_div_is_ordered(x as int, y as int, d as int);
    let (g, h) = (grid(v), grid(w));
    grid_fits(v);
    grid_fits(w);
    grids_nest(v, w);
    let mant = MANTISSA as int;
    if g == h {
        let e = d * g;
        assert(e > 0) by (nonlinear_arith)
            requires
                e == d * g,
                d > 0,
                g >= 1,
        ;
        lemma_fundamental_div_mod(x as int, e as int);
        lemma_fundamental_div_mod(y as int, e as int);
        half_even_is(x, e, x / e, x % e);
        half_even_is(y, e, y / e, y % e);
        let (p, q, r, t) = (x / e, y / e, x % e, y % e);
        assert(p < q || (p == q && r <= t)) by (nonlinear_arith)
            requires
                x == e * p + r,
                y == e * q + t,
                0 <= r < e,
                0 <= t < e,
                x <= y,
        ;
        let (i, j) = (half_even(x, e), half_even(y, e));
        assert(i * g <= j * g) by (nonlinear_arith)
            requires
                i <= j,
        ;
    } else {
        // The lower one stays at or below the first step of the higher ones.
        let k = grid_is_a_power(v);
        small_mantissas(MANTISSA as nat, k);
        let top = (g * mant) as nat;
        assert(pow2(k) * MANTISSA as nat == top);
        lemma_fundamental_div_mod(x as int, d as int);
        assert(x <= top * d) by (nonlinear_arith)
            requires
                x == d * v + x % d,
                x % d < d,
                v + 1 <= top,
                d > 0,
        ;
        at_most(a, d, top);
        let e = d * h;
        lemma_fundamental_div_mod(h as int, g as int);
        let c = h / g;
        assert(h >= 2 * g) by (nonlinear_arith)
            requires
                h == g * c,
                h > g,
                g >= 1,
        ;
        assert(w >= MANTISSA);
        lemma_fundamental_div_mod(y as int, d as int);
        assert(e > 0 && 2 * y >= mant * e) by (nonlinear_arith)
            requires
                y == d * w + y % d,
                y % d >= 0,
                2 * w >= h * mant,
                e == d * h,
                d > 0,
                h >= 1,
        ;
        lemma_fundamental_div_mod(y as int, e as int);
        let (q, t) = (y / e, y % e);
        half_even_is(y, e, q, t);
        assert(2 * q >= mant) by (nonlinear_arith)
            requires
                y == e * q + t,
                t < e,
                2 * y >= mant * e,
                e > 0,
                mant == 0x20_0000_0000_0000,
        ;
        let j = half_even(y, e);
        assert(j * h >= top) by (nonlinear_arith)
            requires
                2 * j >= mant,
                h >= 2 * g,
                top == g * mant,
                mant > 0,
                g >= 1,
        ;
    }
}

/// What is not below 2^52 parts does not fall below them.
pub proof fn not_small(n: nat, d: nat)
    requires
        d > 0,
        (n * ONE as nat) / d >= 0x10_0000_0000_0000,
    ensures
        nearest(n, d) >= 0x10_0000_0000_0000,
{
    let x = n * ONE as nat;
    let w = x / d;
    let g = grid(w);
    let dg = d * g;
    grid_fits(w);
    lemma_fundamental_div_mod(x as int, d as int);
    assert(dg > 0) by (nonlinear_arith)
        requires
            dg == d * g,
            d > 0,
            g >= 1,
    ;
    lemma_fundamental_div_mod(x as int, dg as int);
    let (q, r) = (x / dg, x % dg);
    half_even_is(x, dg, q, r);
    assert(2 * w >= g * 0x20_0000_0000_0000);
    assert(q >= 0x10_0000_0000_0000) by (nonlinear_arith)
        requires
            x == d * w + x % d,
            x % d >= 0,
            2 * w >= g * 0x20_0000_0000_0000,
            dg == d * g,
            x == dg * q + r,
            r < dg,
            d > 0,
    ;
    let h = half_even(x, dg);
    assert(h * g >= 0x10_0000_0000_0000) by (nonlinear_arith)
        requires
            h >= 0x10_0000_0000_0000,
            g >= 1,
    ;
}

/// A large double is a multiple of the steps between doubles of its size.
pub proof fn large_doubles(x: nat, k: nat)
    requires
        is_double(x),
        x >= pow2(k) * 0x10_0000_0000_0000nat,
    ensures
        x % pow2(k) == 0,
{
    vstd::arithmetic::power2::lemma_pow2_pos(k);
    grid_fits(x);
    large_grids(x, k);
    divides(pow2(k), grid(x), x);
}

proof fn large_grids(w: nat, k: nat)
    requires
        w >= pow2(k) * 0x10_0000_0000_0000nat,
    ensures
        grid(w) % pow2(k) == 0,
    decreases k,
{
    if k == 0 {
        vstd::arithmetic::power2::lemma2_to64();
    } else {
        let j = (k - 1) as nat;
        lemma_pow2_unfold(k);
        vstd::arithmetic::power2::lemma_pow2_pos(j);
        assert(w >= 0x20_0000_0000_0000 && w / 2 >= pow2(j) * 0x10_0000_0000_0000nat);
        large_grids(w / 2, j);
        let (a, b) = (grid(w / 2) as int, pow2(j) as int);
        lemma_fundamental_div_mod(a, b);
        let q = a / b;
        assert(2 * a == q * (2 * b)) by (nonlinear_arith)
            requires
                a == b * q,
        ;
        vstd::arithmetic::div_mod::lemma_mod_multiples_basic(q, 2 * b);
    }
}

// --- arithmetic -----------------------------------------------------------

pub proof fn one_is_a_power()
    ensures
        ONE == pow2(120),
        MANTISSA == pow2(53),
        pow2(64) == 0x1_0000_0000_0000_0000,
        pow2(67) == 0x8_0000_0000_0000_0000,
{
    vstd::arithmetic::power2::lemma2_to64();
    vstd::arithmetic::power2::lemma2_to64_rest();
    vstd::arithmetic::power2::lemma_pow2_adds(60, 60);
    vstd::arithmetic::power2::lemma_pow2_adds(60, 7);
    assert(0x1000_0000_0000_0000int * 0x1000_0000_0000_0000int == ONE) by (nonlinear_arith)
        requires
            ONE == 0x0100_0000_0000_0000_0000_0000_0000_0000int,
    ;
}

/// The double nearest to a fraction that is at most one.
pub fn ratio(n: u128, d: u128) -> (r: u128)
    requires
        n <= d,
        0 < d <= 0x2_0000_0000_0000_0000,
    ensures
        r == nearest(n as nat, d as nat),
        r <= ONE,
{
    let top: u128 = n * 0x4000_0000_0000_0000;
    let q: u128 = top / d;
    let left: u128 = top % d;
    let more: u128 = left * 0x800_0000_0000_0000;
    let ghost (ni, di) = (n as int, d as int);
    proof {
        lemma_fundamental_div_mod(top as int, di);
        lemma_fundamental_div_mod(more as int, di);
        assert(q <= 0x4000_0000_0000_0000) by (nonlinear_arith)
            requires
                top == di * q + left,
                left >= 0,
                top <= di * 0x4000_0000_0000_0000,
                di > 0,
        ;
        assert(more as int / di < 0x800_0000_0000_0000) by (nonlinear_arith)
            requires
                more == di * (more as int / di) + more as int % di,
                more as int % di >= 0,
                more == left * 0x800_0000_0000_0000,
                left < di,
                di > 0,
        ;
    }
    let twice: u128 = q * 0x800_0000_0000_0000 + more / d;
    proof {
        let x = 2 * (n as nat * ONE as nat);
        assert(x == ni * 0x200_0000_0000_0000_0000_0000_0000_0000) by (nonlinear_arith)
            requires
                x == 2 * (ni * 0x0100_0000_0000_0000_0000_0000_0000_0000),
        ;
        assert(x == top * 0x800_0000_0000_0000);
        assert(x == di * twice + more as int % di) by (nonlinear_arith)
            requires
                x == top * 0x800_0000_0000_0000,
                top == di * q + left,
                more == left * 0x800_0000_0000_0000,
                more == di * (more as int / di) + more as int % di,
                twice == q * 0x800_0000_0000_0000 + more as int / di,
        ;
        assert(di * twice == twice * di) by (nonlinear_arith);
        lemma_fundamental_div_mod_converse(x as int, di, twice as int, more as int % di);
        one_is_a_power();
        small_mantissas(1, 120);
        at_most(n as nat, d as nat, ONE as nat);
        assert(n as nat * ONE as nat <= ONE as nat * d as nat) by (nonlinear_arith)
            requires
                n <= d,
        ;
    }
    round(twice, more % d != 0, Ghost(n as nat), Ghost(d as nat))
}

/// The double nearest to a `k`th of some parts.
pub fn share(x: u128, k: u128) -> (r: u128)
    requires
        x < 0x4000_0000_0000_0000_0000_0000_0000_0000,
        0 < k < 0x1_0000_0000,
    ensures
        r == nearest(x as nat, k as nat * ONE as nat),
{
    let twice: u128 = 2 * x / k;
    let left: u128 = 2 * x % k;
    proof {
        let n = 2 * (x as nat * ONE as nat);
        let d = k as nat * ONE as nat;
        lemma_fundamental_div_mod(2 * x as int, k as int);
        assert(n == d * twice + left * ONE && left * ONE < d && d > 0) by (nonlinear_arith)
            requires
                n == 2 * (x * ONE),
                d == k * ONE,
                2 * x == k * twice + left,
                0 <= left < k,
                ONE > 0,
        ;
        assert(d * twice == twice * d) by (nonlinear_arith);
        lemma_fundamental_div_mod_converse(
            n as int,
            d as int,
            twice as int,
            left * ONE as int,
        );
        assert((left != 0) == (left * ONE as int != 0)) by (nonlinear_arith)
            requires
                ONE > 0,
        ;
    }
    round(twice, left != 0, Ghost(x as nat), Ghost(k as nat * ONE as nat))
}

/// The double nearest to some parts.
pub fn to_double(x: u128) -> (r: u128)
    requires
        x < 0x4000_0000_0000_0000_0000_0000_0000_0000,
    ensures
        r == nearest(x as nat, ONE as nat),
{
    share(x, 1)
}

/// The double nearest to a product of two, neither of them tiny.
pub fn product(a: u128, b: u128) -> (r: u128)
    requires
        a % 0x1_0000_0000_0000_0000 == 0,
        a <= 0x80_0000_0000_0000_0000_0000_0000_0000,
        b % 0x8_0000_0000_0000_0000 == 0,
        b <= ONE,
    ensures
        r == nearest(a as nat * b as nat, ONE as nat * ONE as nat),
{
    let p: u128 = a / 0x1_0000_0000_0000_0000;
    let q: u128 = b / 0x8_0000_0000_0000_0000;
    assert(0 <= p * q <= 0x80_0000_0000_0000 * 0x20_0000_0000_0000) by (nonlinear_arith)
        requires
            0 <= p <= 0x80_0000_0000_0000,
            0 <= q <= 0x20_0000_0000_0000,
    ;
    let twice: u128 = p * q * 0x1000;
    proof {
        let one = ONE as nat;
        let n = 2 * ((a as nat * b as nat) * one);
        let d = one * one;
        assert(n == twice * d + 0 && d > 0) by (nonlinear_arith)
            requires
                n == 2 * ((a * b) * one),
                d == one * one,
                a == p * 0x1_0000_0000_0000_0000,
                b == q * 0x8_0000_0000_0000_0000,
                twice == p * q * 0x1000,
                one == 0x0100_0000_0000_0000_0000_0000_0000_0000int,
        ;
        lemma_fundamental_div_mod_converse(n as int, d as int, twice as int, 0);
    }
    round(twice, false, Ghost(a as nat * b as nat), Ghost(ONE as nat * ONE as nat))
}

/// The double nearest to a whole number, which is a whole number too.
pub fn count(n: u128) -> (r: u128)
    requires
        n < 0x4000_0000_0000_0000_0000_0000_0000_0000,
    ensures
        r as nat * ONE as nat == nearest(n as nat, 1),
{
    proof {
        one_is_a_power();
    }
    if n < 0x20_0000_0000_0000 {
        proof {
            small_mantissas(n as nat, 120);
            assert(pow2(120) * n as nat == n as nat * ONE as nat) by (nonlinear_arith)
                requires
                    pow2(120) == ONE,
            ;
            exact(n as nat, 1, n as nat * ONE as nat);
        }
        return n;
    }
    let r = to_double(n);
    proof {
        vstd::arithmetic::div_mod::lemma_div_by_multiple(n as int, ONE as int);
        shifted(n as nat, ONE as nat, 120);
        assert(pow2(120) * n as nat == ONE as nat * n as nat);
        multiplied(n as nat, 1, ONE as nat);
        assert(pow2(120) * r as nat == r as nat * ONE as nat) by (nonlinear_arith)
            requires
                pow2(120) == ONE,
        ;
    }
    r
}

} // verus!

//! Laws of rounding and of percentages.

use vstd::prelude::*;

use crate::double::{double_quotient, lemma_nearest_positive, lemma_powers_divide};
use crate::double::{lemma_step_shape, lemma_unit_shape, nearest_double, nearest_to};
use crate::double::{percentage_of, quotient_unit, round_half_even, rounding_step};
use crate::double::{DOUBLE_LIMIT, MANTISSA_LEAST};

verus! {

/// The distance of two numbers.
pub open spec fn distance(a: nat, b: nat) -> nat {
    if a <= b {
        (b - a) as nat
    } else {
        (a - b) as nat
    }
}

/// Rounding gives the nearest integer, and the even one of two that are as near.
pub proof fn lemma_rounding_is_nearest(n: nat, d: nat)
    requires
        d > 0,
    ensures
        2 * distance(round_half_even(n, d) * d, n) <= d,
        2 * distance(round_half_even(n, d) * d, n) == d ==> round_half_even(n, d) % 2 == 0,
{
    let q = n / d;
    let r = n % d;
    assert(n == q * d + r && r < d && (q + 1) * d == q * d + d) by (nonlinear_arith)
        requires
            d > 0,
            q == n / d,
            r == n % d,
    ;
}

/// Rounding keeps a multiple of the divisor.
pub proof fn lemma_rounding_keeps_multiples(k: nat, d: nat)
    requires
        d > 0,
    ensures
        round_half_even(k * d, d) == k,
{
    assert((k * d) / d == k && (k * d) % d == 0) by (nonlinear_arith)
        requires
            d > 0,
    ;
}

/// A number of a precision differs from the integer that it stands for by no more than the
/// precision allows: below the limit not at all, and above by one part in the limit.
pub proof fn lemma_nearest_is_near(n: nat, half: nat)
    requires
        half > 0,
    ensures
        n < 2 * half ==> nearest_to(n, 2 * half) == n,
        distance(nearest_to(n, 2 * half), n) * (2 * half) <= n,
{
    let step = rounding_step(n, 2 * half);
    let r = round_half_even(n, step);
    lemma_step_shape(n, half);
    lemma_rounding_is_nearest(n, step);
    let away = distance(r * step, n);
    if step == 1 {
        assert(n * 1 == n) by (nonlinear_arith);
        lemma_rounding_keeps_multiples(n, 1);
        assert(r * 1 == r) by (nonlinear_arith);
        assert(0 * (2 * half) == 0) by (nonlinear_arith);
    } else {
        assert(away * (2 * half) <= n) by (nonlinear_arith)
            requires
                2 * away <= step,
                half * step <= n,
                0 <= away,
        ;
    }
}

/// A quotient differs from the exact one by no more than the precision allows.
pub proof fn lemma_quotient_is_near(n: nat, d: nat)
    requires
        n > 0,
        d > 0,
    ensures
        double_quotient(n, d).1 > 0,
        distance(double_quotient(n, d).0 * d, n * double_quotient(n, d).1) * DOUBLE_LIMIT <= n
            * double_quotient(n, d).1,
{
    let unit = quotient_unit(n, d);
    lemma_unit_shape(n, d);
    lemma_rounding_is_nearest(n * unit, d);
    let away = distance(round_half_even(n * unit, d) * d, (n * unit));
    let scaled = n * unit;
    assert(away * (2 * MANTISSA_LEAST) <= scaled) by (nonlinear_arith)
        requires
            2 * away <= d,
            d * MANTISSA_LEAST <= scaled,
            0 <= away,
    ;
}

/// Two to the power of 50: percentages are right to one part in it.
pub const ACCURACY: u64 = 1125899906842624;

/// Nothing is 0 percent of anything, and anything is 0 percent of nothing.
pub proof fn lemma_nothing_is_0_percent(part: nat, whole: nat)
    ensures
        percentage_of(0, whole) == (0nat, 1nat),
        percentage_of(part, 0) == (0nat, 1nat),
{
    lemma_nearest_is_near(0, MANTISSA_LEAST as nat);
}

/// A percentage stands to 100 as the part stands to the whole, up to rounding.
pub proof fn lemma_percentage_is_the_share(part: nat, whole: nat)
    requires
        0 < part <= whole,
    ensures
        percentage_of(part, whole).1 > 0,
        distance(
            percentage_of(part, whole).0 * whole,
            100 * (part * percentage_of(part, whole).1),
        ) * ACCURACY <= 100 * (part * percentage_of(part, whole).1),
{
    let half = MANTISSA_LEAST as nat;
    let limit = DOUBLE_LIMIT as int;
    let n = nearest_double(part);
    let d = nearest_double(whole);
    lemma_nearest_positive(part, DOUBLE_LIMIT as nat);
    lemma_nearest_positive(whole, DOUBLE_LIMIT as nat);
    lemma_nearest_is_near(part, half);
    lemma_nearest_is_near(whole, half);
    lemma_quotient_is_near(n, d);
    let q = double_quotient(n, d);
    let m = q.0;
    let u = q.1;
    lemma_nearest_is_near(100 * m, half);
    let p = nearest_double(100 * m);
    let a = part * u;
    let b = m * whole;
    let c = n * u;
    let e = p * whole;
    let md = m * d;
    let f = (100 * m) * whole;
    assert(f == 100 * b) by (nonlinear_arith)
        requires
            f == (100 * m) * whole,
            b == m * whole,
    ;
    assert(distance(b, md) * limit <= b) by {
        let away = distance(whole, d);
        assert(away * limit <= whole);
        assert(distance(b, md) == m * away) by (nonlinear_arith)
            requires
                b == m * whole,
                md == m * d,
                away == if whole <= d {
                    d - whole
                } else {
                    whole - d
                },
        {
            assert(m * d - m * whole == m * (d - whole));
            assert(m * whole - m * d == m * (whole - d));
        }
        assert((m * away) * limit <= m * whole) by (nonlinear_arith)
            requires
                away * limit <= whole,
        ;
    }
    assert(distance(c, a) * limit <= a) by {
        let away = distance(n, part);
        assert(distance(c, a) == u * away) by (nonlinear_arith)
            requires
                c == n * u,
                a == part * u,
                away == if n <= part {
                    part - n
                } else {
                    n - part
                },
        {
            assert(part * u - n * u == u * (part - n));
            assert(n * u - part * u == u * (n - part));
        }
        assert((u * away) * limit <= part * u) by (nonlinear_arith)
            requires
                away * limit <= part,
        ;
    }
    assert(distance(e, f) * limit <= f) by {
        let away = distance(p, (100 * m));
        assert(distance(e, f) == whole * away) by (nonlinear_arith)
            requires
                e == p * whole,
                f == (100 * m) * whole,
                away == if p <= 100 * m {
                    100 * m - p
                } else {
                    p - 100 * m
                },
        {
            assert((100 * m) * whole - p * whole == whole * (100 * m - p));
            assert(p * whole - (100 * m) * whole == whole * (p - 100 * m));
        }
        assert((whole * away) * limit <= (100 * m) * whole) by (nonlinear_arith)
            requires
                away * limit <= 100 * m,
        ;
    }
}

/// A whole is 100 percent of itself, exactly.
pub proof fn lemma_whole_is_100_percent(whole: nat)
    requires
        whole > 0,
    ensures
        percentage_of(whole, whole).0 == 100 * percentage_of(whole, whole).1,
{
    let half = MANTISSA_LEAST as nat;
    let limit = DOUBLE_LIMIT as nat;
    let n = nearest_double(whole);
    lemma_nearest_positive(whole, limit);
    let unit = quotient_unit(n, n);
    lemma_unit_shape(n, n);
    assert(n * unit == unit * n) by (nonlinear_arith);
    lemma_rounding_keeps_multiples(unit, n);
    lemma_step_shape(100 * unit, half);
    let step = rounding_step(100 * unit, limit);
    assert(step <= unit) by (nonlinear_arith)
        requires
            step == 1 || half * step <= 100 * unit,
            half >= 100,
            unit >= 1,
    ;
    lemma_powers_divide(step, unit);
    let k = unit / step;
    assert(100 * unit == (100 * k) * step) by (nonlinear_arith)
        requires
            unit % step == 0,
            step > 0,
            k == unit / step,
    {
        assert(unit == k * step);
    }
    lemma_rounding_keeps_multiples(100 * k, step);
}

/// Of two parts of a whole the larger has the larger percentage.
pub proof fn lemma_more_is_a_larger_percentage(less: nat, more: nat, whole: nat)
    requires
        0 < less < more <= whole,
        whole <= 0x1_0000_0000_0000,
    ensures
        percentage_of(less, whole).0 * percentage_of(more, whole).1 < percentage_of(more, whole).0
            * percentage_of(less, whole).1,
{
    lemma_percentage_is_the_share(less, whole);
    lemma_percentage_is_the_share(more, whole);
    let k = ACCURACY as int;
    let p = percentage_of(less, whole).0 as int;
    let u = percentage_of(less, whole).1 as int;
    let q = percentage_of(more, whole).0 as int;
    let v = percentage_of(more, whole).1 as int;
    let w = whole as int;
    let a = less * u;
    let b = more * v;
    assert((p * w) * k <= 100 * a * (k + 1)) by (nonlinear_arith)
        requires
            (p * w - 100 * a) * k <= 100 * a,
    ;
    assert((q * w) * k >= 100 * b * (k - 1)) by (nonlinear_arith)
        requires
            (100 * b - q * w) * k <= 100 * b,
    ;
    assert((p * v) * (w * k) <= (100 * less * (k + 1)) * (u * v)) by (nonlinear_arith)
        requires
            (p * w) * k <= 100 * a * (k + 1),
            a == less * u,
            v > 0,
    ;
    assert((q * u) * (w * k) >= (100 * more * (k - 1)) * (u * v)) by (nonlinear_arith)
        requires
            (q * w) * k >= 100 * b * (k - 1),
            b == more * v,
            u > 0,
    ;
    assert(100 * less * (k + 1) < 100 * more * (k - 1)) by (nonlinear_arith)
        requires
            less < more,
            less <= 0x1_0000_0000_0000,
            k == 1125899906842624,
    ;
    assert((p * v) * (w * k) < (q * u) * (w * k)) by (nonlinear_arith)
        requires
            (p * v) * (w * k) <= (100 * less * (k + 1)) * (u * v),
            (q * u) * (w * k) >= (100 * more * (k - 1)) * (u * v),
            100 * less * (k + 1) < 100 * more * (k - 1),
            u > 0,
            v > 0,
    ;
    assert(p * v < q * u) by (nonlinear_arith)
        requires
            (p * v) * (w * k) < (q * u) * (w * k),
            w > 0,
            k > 0,
    ;
}

} // verus!

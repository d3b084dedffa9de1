//! The integers, quotients and products of double- and single-precision arithmetic,
//! computed exactly.
//!
//! A double-precision number has 53 significant binary digits, a single-precision number
//! has 24. Converting an integer, dividing and multiplying each give the nearest such
//! number, and the even one of two that are as near.

use vstd::prelude::*;

verus! {

/// Two to the power of 53: below it every integer is a double-precision number.
pub const DOUBLE_LIMIT: u64 = 9007199254740992;

/// Two to the power of 24: below it every integer is a single-precision number.
pub const SINGLE_LIMIT: u64 = 16777216;

/// `n / d` rounded to the nearest integer, and to the even one of two that are as near.
pub open spec fn round_half_even(n: nat, d: nat) -> nat {
    let q = n / d;
    let r = n % d;
    if 2 * r > d || (2 * r == d && q % 2 == 1) {
        q + 1
    } else {
        q
    }
}

/// The distance of the numbers of a precision around the integer `n`, where all integers
/// below `limit` are such numbers.
pub open spec fn rounding_step(n: nat, limit: nat) -> nat
    decreases n,
{
    if n < limit || n == 0 {
        1
    } else {
        2 * rounding_step(n / 2, limit)
    }
}

/// The number of a precision that is nearest to the integer `n`.
pub open spec fn nearest_to(n: nat, limit: nat) -> nat {
    round_half_even(n, rounding_step(n, limit)) * rounding_step(n, limit)
}

/// The double-precision number nearest to the integer `n`.
pub open spec fn nearest_double(n: nat) -> nat {
    nearest_to(n, DOUBLE_LIMIT as nat)
}

/// The single-precision number nearest to the integer `n`.
pub open spec fn nearest_single(n: nat) -> nat {
    nearest_to(n, SINGLE_LIMIT as nat)
}

/// `n / d` rounded to the nearest integer, and to the even one of two that are as near.
pub fn rounded(n: u128, d: u128) -> (r: u128)
    requires
        0 < d <= 0x4000_0000_0000_0000_0000_0000_0000_0000,
        n <= 0x8000_0000_0000_0000_0000_0000_0000_0000,
    ensures
        r == round_half_even(n as nat, d as nat),
        n / d <= r <= n / d + 1,
        r <= n,
{
    let q: u128 = n / d;
    let rest: u128 = n % d;
    proof {
        assert(n / d <= n) by (nonlinear_arith)
            requires
                d > 0,
        ;
        assert(q == n && rest > 0 ==> d == 1) by (nonlinear_arith)
            requires
                d > 0,
                q == n / d,
                rest == n % d,
        ;
    }
    if 2 * rest > d || (2 * rest == d && q % 2 == 1) {
        q + 1
    } else {
        q
    }
}

fn step_of(n: u128, limit: u64) -> (r: u128)
    requires
        n <= 0x1_0000_0000_0000_0000_0000,
        limit >= SINGLE_LIMIT,
    ensures
        r == rounding_step(n as nat, limit as nat),
        r >= 1,
        r == 1 || r * 0x10_0000 <= n,
        n < limit ==> r == 1,
{
    let mut rest: u128 = n;
    let mut step: u128 = 1;
    assert(1 * rest == rest) by (nonlinear_arith);
    while rest >= limit as u128
        invariant
            n <= 0x1_0000_0000_0000_0000_0000,
            limit >= SINGLE_LIMIT,
            rounding_step(n as nat, limit as nat) == step * rounding_step(
                rest as nat,
                limit as nat,
            ),
            step >= 1,
            step == 1 || step * 0x10_0000 <= n,
            step * rest <= n,
            n < limit ==> rest == n,
        decreases rest,
    {
        proof {
            let half = rounding_step(rest as nat / 2, limit as nat);
            assert(step * (2 * half) == (step * 2) * half) by (nonlinear_arith);
            assert((step * 2) * (rest / 2) <= step * rest) by (nonlinear_arith)
                requires
                    step >= 1,
                    rest >= 0,
            ;
            assert(step * 0x20_0000 <= step * rest) by (nonlinear_arith)
                requires
                    rest >= 0x20_0000,
                    step >= 1,
            ;
        }
        rest = rest / 2;
        step = step * 2;
    }
    assert(step * 1 == step) by (nonlinear_arith);
    step
}

/// The number of a precision that is nearest to `n`.
pub fn nearest(n: u128, limit: u64) -> (r: u128)
    requires
        n <= 0x1_0000_0000_0000_0000_0000,
        limit >= SINGLE_LIMIT,
    ensures
        r == nearest_to(n as nat, limit as nat),
        r * 0x10_0000 <= n * 0x10_0001,
        n <= 2 * r,
        n < limit ==> r == n,
{
    let step: u128 = step_of(n, limit);
    let steps: u128 = rounded(n, step);
    proof {
        let q = n as nat / step as nat;
        assert(q * step <= n <= q * step + step) by (nonlinear_arith)
            requires
                q == n as nat / step as nat,
                step >= 1,
        ;
        assert(q * step <= steps * step <= q * step + step) by (nonlinear_arith)
            requires
                q <= steps <= q + 1,
                step >= 1,
        ;
        if step == 1 {
            assert(n as nat / 1 == n && n as nat % 1 == 0);
            assert(steps * step == n) by (nonlinear_arith)
                requires
                    steps == n,
                    step == 1,
            ;
        }
    }
    steps * step
}

proof fn lemma_step_bound(n: nat, limit: nat)
    requires
        n > 0,
        limit > 1,
    ensures
        1 <= rounding_step(n, limit) <= n,
    decreases n,
{
    if n >= limit {
        lemma_step_bound(n / 2, limit);
    }
}

/// Rounding takes no positive number to zero.
pub proof fn lemma_nearest_positive(n: nat, limit: nat)
    requires
        limit > 1,
    ensures
        nearest_to(n, limit) > 0 <==> n > 0,
{
    if n > 0 {
        lemma_step_bound(n, limit);
        let step = rounding_step(n, limit);
        assert(n / step >= 1) by (nonlinear_arith)
            requires
                1 <= step <= n,
        ;
        let steps = round_half_even(n, step);
        assert(steps * step >= 1) by (nonlinear_arith)
            requires
                steps >= 1,
                step >= 1,
        ;
    } else {
        assert(rounding_step(0, limit) == 1);
        assert(0nat / 1 == 0 && 0nat % 1 == 0);
    }
}

// ------------------------------------------------------------
// Fractions
// ------------------------------------------------------------

/// The least double-precision mantissa of 53 digits: two to the power of 52.
pub const MANTISSA_LEAST: u64 = 4503599627370496;

/// The largest numerator and the largest denominator that are computed with.
pub const NUMERATOR_MOST: u64 = 0x4000_0000_0000_0000;

pub const DENOMINATOR_MOST: u128 = 0x2000_0000_0000_0000_0000_0000_0000_0000;

/// A number that is not negative, as numerator and denominator.
#[derive(Clone, Copy, Debug)]
pub struct Fraction {
    numerator: u64,
    denominator: u128,
}

impl View for Fraction {
    type V = (nat, nat);

    closed spec fn view(&self) -> (nat, nat) {
        (self.numerator as nat, self.denominator as nat)
    }
}

impl Fraction {
    #[verifier::type_invariant]
    spec fn in_bounds(self) -> bool {
        &&& self.numerator <= NUMERATOR_MOST
        &&& 0 < self.denominator <= DENOMINATOR_MOST
    }

    /// The numerator.
    pub fn numerator(&self) -> (r: u64)
        ensures
            r == self@.0,
            r <= NUMERATOR_MOST,
    {
        proof {
            use_type_invariant(self);
        }
        self.numerator
    }

    /// The denominator.
    pub fn denominator(&self) -> (r: u128)
        ensures
            r == self@.1,
            0 < r <= DENOMINATOR_MOST,
    {
        proof {
            use_type_invariant(self);
        }
        self.denominator
    }
}

/// The power of two that brings `n / d` to 53 binary digits before the point.
pub open spec fn quotient_unit(n: nat, d: nat) -> nat
    decreases 2 * (d * MANTISSA_LEAST) - n,
{
    if n == 0 || n >= d * MANTISSA_LEAST {
        1
    } else {
        2 * quotient_unit(2 * n, d)
    }
}

/// The double-precision quotient of two numbers, the first less than the second times two
/// to the power of 52.
pub open spec fn double_quotient(n: nat, d: nat) -> (nat, nat) {
    if n == 0 {
        (0, 1)
    } else {
        (round_half_even(n * quotient_unit(n, d), d), quotient_unit(n, d))
    }
}

fn quotient(n: u128, d: u128) -> (r: Fraction)
    requires
        0 < d <= 0x40_0000_0000_0000_0000,
        n <= 0x10_0000 * d,
    ensures
        r@ == double_quotient(n as nat, d as nat),
        r@.0 <= DOUBLE_LIMIT + 1,
{
    if n == 0 {
        return Fraction { numerator: 0, denominator: 1 };
    }
    let enough: u128 = d * MANTISSA_LEAST as u128;
    let mut shifted: u128 = n;
    let mut unit: u128 = 1;
    assert(n * 1 == n) by (nonlinear_arith);
    while shifted < enough
        invariant
            0 < n,
            0 < d <= 0x40_0000_0000_0000_0000,
            enough == d * MANTISSA_LEAST,
            shifted == n * unit,
            1 <= unit <= shifted,
            shifted <= 2 * enough,
            quotient_unit(n as nat, d as nat) == unit * quotient_unit(shifted as nat, d as nat),
        decreases 2 * enough - shifted,
    {
        proof {
            let rest = quotient_unit(2 * shifted as nat, d as nat);
            assert(unit * (2 * rest) == (unit * 2) * rest) by (nonlinear_arith);
            assert(n * unit * 2 == n * (unit * 2)) by (nonlinear_arith);
        }
        shifted = shifted * 2;
        unit = unit * 2;
    }
    proof {
        assert(unit * 1 == unit) by (nonlinear_arith);
        assert(shifted / d <= 2 * MANTISSA_LEAST) by (nonlinear_arith)
            requires
                shifted <= 2 * (d * MANTISSA_LEAST),
                d > 0,
        ;
    }
    let mantissa: u128 = rounded(shifted, d);
    Fraction { numerator: mantissa as u64, denominator: unit }
}

/// A part of a whole in percent, as double-precision arithmetic gives it: the quotient of
/// the two numbers, times a hundred.
pub open spec fn percentage_of(part: nat, whole: nat) -> (nat, nat) {
    if whole == 0 {
        (0, 1)
    } else {
        let q = double_quotient(nearest_double(part), nearest_double(whole));
        (nearest_double(100 * q.0), q.1)
    }
}

/// `part` in percent of `whole`.
pub fn percentage(part: u64, whole: u64) -> (r: Fraction)
    requires
        part <= whole,
    ensures
        r@ == percentage_of(part as nat, whole as nat),
{
    if whole == 0 {
        return Fraction { numerator: 0, denominator: 1 };
    }
    let n: u128 = nearest(part as u128, DOUBLE_LIMIT);
    let d: u128 = nearest(whole as u128, DOUBLE_LIMIT);
    let q = quotient(n, d);
    proof {
        use_type_invariant(&q);
    }
    let numerator: u128 = nearest(100 * q.numerator as u128, DOUBLE_LIMIT);
    Fraction { numerator: numerator as u64, denominator: q.denominator }
}

/// A share as single-precision arithmetic gives it: the double-precision quotient of two
/// double-precision numbers, converted.
pub open spec fn single_share(part: nat, whole: nat) -> (nat, nat) {
    let q = double_quotient(part, whole);
    (nearest_single(q.0), q.1)
}

/// A single-precision number times a hundred.
pub open spec fn single_percent(share: (nat, nat)) -> (nat, nat) {
    (nearest_single(100 * share.0), share.1)
}

/// The share of `part` in `whole`, in single precision.
pub fn share(part: u128, whole: u128) -> (r: Fraction)
    requires
        0 < whole <= 0x40_0000_0000_0000_0000,
        part <= 0x10_0000 * whole,
    ensures
        r@ == single_share(part as nat, whole as nat),
        r@.0 <= 2 * (DOUBLE_LIMIT + 1),
{
    let q = quotient(part, whole);
    proof {
        use_type_invariant(&q);
    }
    let numerator: u128 = nearest(q.numerator as u128, SINGLE_LIMIT);
    Fraction { numerator: numerator as u64, denominator: q.denominator }
}

/// A share in percent, in single precision.
pub fn share_percent(share: Fraction) -> (r: Fraction)
    requires
        share@.0 <= 2 * (DOUBLE_LIMIT + 1),
    ensures
        r@ == single_percent(share@),
{
    proof {
        use_type_invariant(&share);
    }
    let numerator: u128 = nearest(100 * share.numerator as u128, SINGLE_LIMIT);
    Fraction { numerator: numerator as u64, denominator: share.denominator }
}

// ------------------------------------------------------------
// Bounds
// ------------------------------------------------------------

/// Whether `n` is a power of two.
pub open spec fn is_power(n: nat) -> bool
    decreases n,
{
    n == 1 || (n > 1 && n % 2 == 0 && is_power(n / 2))
}

/// Of two powers of two the smaller divides the larger.
pub proof fn lemma_powers_divide(a: nat, b: nat)
    requires
        is_power(a),
        is_power(b),
        a <= b,
    ensures
        b % a == 0,
    decreases a,
{
    if a > 1 {
        let x = a / 2;
        let y = b / 2;
        lemma_powers_divide(x, y);
        assert(b % a == 0) by (nonlinear_arith)
            requires
                a == 2 * x,
                b == 2 * y,
                x > 0,
                y % x == 0,
        {
            let k = y / x;
            assert(y == k * x);
            assert(b == k * a);
            assert((k * a) % a == 0);
        }
    }
}

/// The step is a power of two, and the number lies between half the limit and the limit
/// of steps, unless all integers are numbers.
pub proof fn lemma_step_shape(n: nat, half: nat)
    requires
        half > 0,
    ensures
        is_power(rounding_step(n, 2 * half)),
        rounding_step(n, 2 * half) > 0,
        n < 2 * half * rounding_step(n, 2 * half),
        rounding_step(n, 2 * half) > 1 ==> half * rounding_step(n, 2 * half) <= n,
        n < 2 * half ==> rounding_step(n, 2 * half) == 1,
    decreases n,
{
    let limit = 2 * half;
    if n >= limit {
        let inner = rounding_step(n / 2, limit);
        lemma_step_shape(n / 2, half);
        let step = rounding_step(n, limit);
        assert(step == 2 * inner);
        assert(n < limit * step) by (nonlinear_arith)
            requires
                n / 2 < limit * inner,
                step == 2 * inner,
        ;
        assert(half * step <= n) by (nonlinear_arith)
            requires
                step == 2 * inner,
                inner == 1 || half * inner <= n / 2,
                2 * half <= n,
        ;
    } else {
        assert(limit * 1 == limit) by (nonlinear_arith);
    }
}

/// Rounding `n / d` does not pass a whole number that `n / d` does not pass.
proof fn lemma_round_at_most(n: nat, d: nat, most: nat)
    requires
        d > 0,
        n <= most * d,
    ensures
        round_half_even(n, d) <= most,
{
    let q = n / d;
    let r = n % d;
    assert(n == q * d + r && r < d) by (nonlinear_arith)
        requires
            d > 0,
            q == n / d,
            r == n % d,
    ;
    assert(q <= most && (q == most ==> r == 0)) by (nonlinear_arith)
        requires
            n == q * d + r,
            n <= most * d,
            d > 0,
            0 <= r,
    ;
}

proof fn lemma_round_at_least(n: nat, d: nat, least: nat)
    requires
        d > 0,
        least * d <= n,
    ensures
        least <= round_half_even(n, d),
{
    assert(least <= n / d) by (nonlinear_arith)
        requires
            d > 0,
            least * d <= n,
    ;
}

/// Rounding does not pass a number of the precision, where that is a multiple of the step.
proof fn lemma_nearest_at_most(n: nat, limit: nat, most: nat)
    requires
        rounding_step(n, limit) > 0,
        n <= most,
        most % rounding_step(n, limit) == 0,
    ensures
        nearest_to(n, limit) <= most,
{
    let step = rounding_step(n, limit);
    let steps = most / step;
    assert(most == steps * step) by (nonlinear_arith)
        requires
            step > 0,
            most % step == 0,
            steps == most / step,
    ;
    lemma_round_at_most(n, step, steps);
    let r = round_half_even(n, step);
    assert(r * step <= steps * step) by (nonlinear_arith)
        requires
            r <= steps,
    ;
}

/// Rounding keeps the order of numbers.
pub proof fn lemma_nearest_ordered(a: nat, b: nat, half: nat)
    requires
        a <= b,
        half > 0,
    ensures
        nearest_to(a, 2 * half) <= nearest_to(b, 2 * half),
{
    let limit = 2 * half;
    let x = rounding_step(a, limit);
    let y = rounding_step(b, limit);
    lemma_step_shape(a, half);
    lemma_step_shape(b, half);
    if x == y {
        let steps = round_half_even(b, y);
        assert(round_half_even(a, x) <= steps) by {
            lemma_same_step_ordered(a, b, x);
        }
        let r = round_half_even(a, x);
        assert(r * x <= steps * x) by (nonlinear_arith)
            requires
                r <= steps,
        ;
    } else if x < y {
        lemma_powers_divide(x, y);
        assert(2 * x <= y) by (nonlinear_arith)
            requires
                0 < x < y,
                y % x == 0,
        ;
        let edge = limit * x;
        assert(edge % x == 0 && edge <= half * y) by (nonlinear_arith)
            requires
                edge == limit * x,
                limit == 2 * half,
                2 * x <= y,
                x > 0,
        ;
        lemma_nearest_at_most(a, limit, edge);
        lemma_round_at_least(b, y, half);
        let steps = round_half_even(b, y);
        assert(half * y <= steps * y) by (nonlinear_arith)
            requires
                half <= steps,
        ;
    } else {
        lemma_powers_divide(y, x);
        assert(2 * y <= x) by (nonlinear_arith)
            requires
                0 < y < x,
                x % y == 0,
        ;
        assert(limit * y <= half * x) by (nonlinear_arith)
            requires
                limit == 2 * half,
                2 * y <= x,
        ;
    }
}

proof fn lemma_same_step_ordered(a: nat, b: nat, d: nat)
    requires
        a <= b,
        d > 0,
    ensures
        round_half_even(a, d) <= round_half_even(b, d),
{
    let p = a / d;
    let q = b / d;
    assert(a == p * d + a % d && b == q * d + b % d && p <= q) by (nonlinear_arith)
        requires
            a <= b,
            d > 0,
            p == a / d,
            q == b / d,
    ;
    assert(p == q ==> a % d <= b % d);
}

/// The unit of a quotient is a power of two, and brings it to all its digits.
pub proof fn lemma_unit_shape(n: nat, d: nat)
    requires
        0 < n,
        0 < d,
    ensures
        is_power(quotient_unit(n, d)),
        quotient_unit(n, d) >= 1,
        d * MANTISSA_LEAST <= n * quotient_unit(n, d),
    decreases 2 * (d * MANTISSA_LEAST) - n,
{
    let enough = d * MANTISSA_LEAST;
    if n < enough {
        let inner = quotient_unit(2 * n, d);
        lemma_unit_shape(2 * n, d);
        assert(n * (2 * inner) == (2 * n) * inner) by (nonlinear_arith);
    } else {
        assert(n * 1 == n) by (nonlinear_arith);
    }
}

/// A part of a whole, in percent, is above 0 and at most 100.
pub proof fn lemma_percentage_bounds(part: nat, whole: nat)
    requires
        0 < part <= whole,
    ensures
        percentage_of(part, whole).1 > 0,
        percentage_of(part, whole).0 > 0,
        percentage_of(part, whole).0 <= 100 * percentage_of(part, whole).1,
{
    let half = MANTISSA_LEAST as nat;
    let limit = DOUBLE_LIMIT as nat;
    assert(limit == 2 * half);
    let n = nearest_double(part);
    let d = nearest_double(whole);
    lemma_nearest_positive(part, limit);
    lemma_nearest_positive(whole, limit);
    lemma_nearest_ordered(part, whole, half);
    let unit = quotient_unit(n, d);
    lemma_unit_shape(n, d);
    let m = round_half_even(n * unit, d);
    assert(n * unit <= unit * d) by (nonlinear_arith)
        requires
            n <= d,
    ;
    lemma_round_at_most(n * unit, d, unit);
    assert(half * d <= n * unit) by (nonlinear_arith)
        requires
            d * half <= n * unit,
    ;
    lemma_round_at_least(n * unit, d, half);
    lemma_nearest_positive(100 * m, limit);
    lemma_step_shape(100 * m, half);
    let step = rounding_step(100 * m, limit);
    assert(step <= unit) by (nonlinear_arith)
        requires
            step == 1 || half * step <= 100 * m,
            m <= unit,
            half >= 100,
            unit >= 1,
    ;
    lemma_powers_divide(step, unit);
    assert((100 * unit) % step == 0) by (nonlinear_arith)
        requires
            unit % step == 0,
            step > 0,
    {
        let k = unit / step;
        assert(unit == k * step);
        assert(100 * unit == (100 * k) * step);
        assert(((100 * k) * step) % step == 0);
    }
    lemma_nearest_at_most(100 * m, limit, 100 * unit);
}

} // verus!

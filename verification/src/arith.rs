//! Facts about the arithmetic of single-precision values.

use crate::num;
use crate::num::Num;
use crate::rounding;
use vstd::arithmetic::power2::*;
use vstd::prelude::*;

verus! {

/// `m` halves.
pub open spec fn halves(m: nat) -> Num {
    Num::Finite { negative: false, units: m * pow2(148) }
}

/// Halves are represented exactly up to two to the 24 of them; a whole
/// number is twice as many halves.
pub proof fn lemma_halves(m: nat)
    requires
        m <= 0x100_0000,
    ensures
        num::is_magnitude(m * pow2(148)),
        num::one() == 2 * pow2(148),
        num::whole(m) == halves(2 * m),
        num::fraction(1, 2) == halves(1),
{
    lemma2_to64();
    lemma_pow2_unfold(149);
    lemma_pow2_pos(148);
    rounding::lemma_scaled_magnitude(m, 148);
    rounding::lemma_scaled_magnitude(1, 148);
    rounding::lemma_whole_exact(m);
    let h = pow2(148);
    assert(num::scaled(m, 148) == m * h);
    assert(num::scaled(1, 148) == 1 * h);
    assert(m * (2 * h) == (2 * m) * h) by (nonlinear_arith);
    rounding::lemma_exact(1 * h);
    assert((1 * num::one()) * 1 == (1 * h) * 2);
    rounding::lemma_nearest_same(1 * num::one(), 2, 1 * h, 1);
}

pub proof fn lemma_halves_plus(a: nat, b: nat)
    requires
        a + b <= 0x100_0000,
    ensures
        halves(a).plus(halves(b)) == halves(a + b),
{
    let h = pow2(148);
    lemma_pow2_pos(148);
    lemma_halves(a + b);
    assert(a * h + b * h == (a + b) * h) by (nonlinear_arith);
    rounding::lemma_exact((a + b) * h);
}

pub proof fn lemma_halves_minus(a: nat, b: nat)
    requires
        b <= a <= 0x100_0000,
    ensures
        halves(a).minus(halves(b)) == halves((a - b) as nat),
{
    let h = pow2(148);
    let d = (a - b) as nat;
    lemma_pow2_pos(148);
    lemma_halves(d);
    assert(a * h - b * h == d * h) by (nonlinear_arith)
        requires
            d == a - b,
    ;
    assert(d * h >= 0) by (nonlinear_arith);
    rounding::lemma_exact(d * h);
}

/// Halves times a whole number.
pub proof fn lemma_halves_times(a: nat, n: nat)
    requires
        a * n <= 0x100_0000,
    ensures
        halves(a).times(halves(2 * n)) == halves(a * n),
{
    let h = pow2(148);
    lemma_pow2_pos(148);
    lemma_halves(a * n);
    let (u, v) = (a * h, (2 * n) * h);
    assert((u * v) * 1 == ((a * n) * h) * num::one()) by (nonlinear_arith)
        requires
            u == a * h,
            v == (2 * n) * h,
            num::one() == 2 * h,
    ;
    rounding::lemma_nearest_same(u * v, num::one(), (a * n) * h, 1);
    rounding::lemma_exact((a * n) * h);
}

/// A multiple over the number it is a multiple of.
pub proof fn lemma_whole_ratio(n: nat, times: nat)
    requires
        n > 0,
        times > 0,
        n * times <= 0x100_0000,
    ensures
        num::whole(n * times).over(num::whole(n)) == num::whole(times),
{
    let one = num::one();
    lemma_pow2_pos(149);
    assert(n <= n * times && times <= n * times) by (nonlinear_arith)
        requires
            n > 0,
            times > 0,
    ;
    rounding::lemma_whole_exact(n);
    rounding::lemma_whole_exact(times);
    rounding::lemma_whole_exact(n * times);
    let (u, v) = ((n * times) * one, n * one);
    assert((u * one) * 1 == (times * one) * v) by (nonlinear_arith)
        requires
            u == (n * times) * one,
            v == n * one,
    ;
    assert(v > 0) by (nonlinear_arith)
        requires
            v == n * one,
            n > 0,
            one > 0,
    ;
    rounding::lemma_nearest_same(u * one, v, times * one, 1);
}

/// The signed result of rounding `num / den` units.
pub open spec fn rounded_signed(num: int, den: nat) -> int {
    if num < 0 {
        num::rounded(true, (-num) as nat, den).signed()
    } else {
        num::rounded(false, num as nat, den).signed()
    }
}

pub proof fn lemma_rounded_monotone(a: int, b: int, den: nat)
    requires
        den > 0,
        a <= b,
    ensures
        rounded_signed(a, den) <= rounded_signed(b, den),
        rounded_signed(0, den) == 0,
{
    lemma_pow2_pos(277);
    lemma_rounds_to_zero(den);
    if a >= 0 {
        rounding::lemma_nearest_monotone(a as nat, b as nat, den);
    } else if b < 0 {
        rounding::lemma_nearest_monotone((-b) as nat, (-a) as nat, den);
    }
}

proof fn lemma_rounds_to_zero(den: nat)
    requires
        den > 0,
    ensures
        num::nearest(0, den) == 0,
{
    lemma2_to64();
    lemma_pow2_pos(277);
    rounding::lemma_scaled_magnitude(0, 0);
    assert(num::scaled(0, 0) == 0);
    rounding::lemma_nearest_at_most(0, den, 0);
}

/// A sum of finite numbers is the sum of their values, rounded.
pub proof fn lemma_plus_signed(x: Num, y: Num)
    requires
        x is Finite,
        y is Finite,
    ensures
        x.plus(y).signed() == rounded_signed(x.signed() + y.signed(), 1),
        x.plus(y).is_number(),
{
    lemma_rounds_to_zero(1);
    lemma_pow2_pos(277);
}

/// A product of finite numbers is the product of their values, rounded.
pub proof fn lemma_times_signed(x: Num, y: Num)
    requires
        x is Finite,
        y is Finite,
    ensures
        x.times(y).signed() == rounded_signed(x.signed() * y.signed(), num::one()),
        x.times(y).is_number(),
{
    let (u, v) = (x->Finite_units as int, y->Finite_units as int);
    lemma_pow2_pos(277);
    lemma_pow2_pos(149);
    lemma_rounds_to_zero(num::one());
    assert((-u) * v == -(u * v) && u * (-v) == -(u * v) && (-u) * (-v) == u * v && u * v >= 0)
        by (nonlinear_arith)
        requires
            u >= 0,
            v >= 0,
    ;
}

/// Adding the same finite number keeps the order.
pub proof fn lemma_plus_monotone(x: Num, y: Num, c: Num)
    requires
        x.is_number(),
        y.is_number(),
        x is Finite ==> x->Finite_units < num::past_finite(),
        y is Finite ==> y->Finite_units < num::past_finite(),
        c is Finite,
        x.signed() <= y.signed(),
    ensures
        x.plus(c).is_number(),
        y.plus(c).is_number(),
        x.plus(c).signed() <= y.plus(c).signed(),
{
    if x is Finite {
        lemma_plus_signed(x, c);
    }
    if y is Finite {
        lemma_plus_signed(y, c);
    }
    if x is Finite && y is Finite {
        lemma_rounded_monotone(x.signed() + c.signed(), y.signed() + c.signed(), 1);
    }
}

/// Multiplying finite numbers by the same finite one that is not below zero
/// keeps the order.
pub proof fn lemma_times_monotone(x: Num, y: Num, c: Num)
    requires
        x is Finite,
        y is Finite,
        c is Finite,
        c.signed() >= 0,
        x.signed() <= y.signed(),
    ensures
        x.times(c).is_number(),
        y.times(c).is_number(),
        x.times(c).signed() <= y.times(c).signed(),
{
    lemma_times_signed(x, c);
    lemma_times_signed(y, c);
    lemma_pow2_pos(149);
    let (a, b, d) = (x.signed(), y.signed(), c.signed());
    assert(a * d <= b * d) by (nonlinear_arith)
        requires
            a <= b,
            d >= 0,
    ;
    lemma_rounded_monotone(a * d, b * d, num::one());
}

/// Holding to a range keeps the order.
pub proof fn lemma_held_monotone(x: Num, y: Num, low: Num, high: Num)
    requires
        x.is_number(),
        y.is_number(),
        low.is_number(),
        high.is_number(),
        low.signed() <= high.signed(),
        x.signed() <= y.signed(),
    ensures
        x.held(low, high).is_number(),
        low.signed() <= x.held(low, high).signed() <= y.held(low, high).signed() <= high.signed(),
{
}

/// A finite value of at most `most`, either side of zero.
pub open spec fn within(x: Num, most: nat) -> bool {
    x matches Num::Finite { units, .. } && units <= most * num::one()
}

pub proof fn lemma_within_plus(x: Num, y: Num, a: nat, b: nat)
    requires
        within(x, a),
        within(y, b),
        a + b <= 0x100_0000,
    ensures
        within(x.plus(y), a + b),
        within(x.minus(y), a + b),
{
    let one = num::one();
    rounding::lemma_whole_exact(a + b);
    let most = (a + b) * one;
    assert(most == a * one + b * one) by (nonlinear_arith)
        requires
            most == (a + b) * one,
    ;
    assert(most * 1 == most);
    lemma_within_sum(x, y, most);
    lemma_within_sum(x, y.negated(), most);
}

proof fn lemma_within_sum(x: Num, y: Num, most: nat)
    requires
        x is Finite,
        y is Finite,
        x->Finite_units + y->Finite_units <= most,
        num::is_magnitude(most),
    ensures
        x.plus(y) matches Num::Finite { units, .. } && units <= most,
{
    let sum = x.signed() + y.signed();
    if sum != 0 {
        let size = if sum < 0 {
            (-sum) as nat
        } else {
            sum as nat
        };
        rounding::lemma_nearest_at_most(size, 1, most);
    }
}

pub proof fn lemma_within_times(x: Num, y: Num, a: nat, b: nat)
    requires
        within(x, a),
        within(y, b),
        a * b <= 0x100_0000,
    ensures
        within(x.times(y), a * b),
{
    let one = num::one();
    lemma_pow2_pos(149);
    rounding::lemma_whole_exact(a * b);
    let (u, v) = (x->Finite_units, y->Finite_units);
    assert(u * v <= ((a * b) * one) * one) by (nonlinear_arith)
        requires
            u <= a * one,
            v <= b * one,
    ;
    rounding::lemma_nearest_at_most(u * v, one, (a * b) * one);
}

pub proof fn lemma_within_fraction(n: nat, d: nat, most: nat)
    requires
        d > 0,
        n <= most * d,
        most <= 0x100_0000,
    ensures
        within(num::fraction(n, d), most),
        num::fraction(n, d).signed() >= 0,
{
    let one = num::one();
    rounding::lemma_whole_exact(most);
    assert(n * one <= (most * one) * d) by (nonlinear_arith)
        requires
            n <= most * d,
    ;
    rounding::lemma_nearest_at_most(n * one, d, most * one);
}

/// A sum of finite numbers is representable; it is the negative zero only
/// where both are.
pub proof fn lemma_sum_is_representable(x: Num, y: Num)
    requires
        x is Finite,
        y is Finite,
    ensures
        x.plus(y).is_representable(),
        x.plus(y) is Finite && x.plus(y).signed() == 0 && x.plus(y).sign() ==> x.sign()
            && x.signed() == 0,
{
    let sum = x.signed() + y.signed();
    rounding::lemma_whole_exact(0);
    assert(0 * num::one() == 0);
    if sum < 0 {
        rounding::lemma_rounded_representable(true, (-sum) as nat, 1);
        lemma_rounds_away_from_zero((-sum) as nat);
    } else if sum > 0 {
        rounding::lemma_rounded_representable(false, sum as nat, 1);
    }
}

/// A sum of at least one unit does not round to nothing.
proof fn lemma_rounds_away_from_zero(n: nat)
    requires
        n > 0,
    ensures
        num::nearest(n, 1) > 0,
{
    lemma2_to64();
    rounding::lemma_scaled_magnitude(1, 0);
    assert(num::scaled(1, 0) == 1);
    rounding::lemma_exact(1);
    rounding::lemma_nearest_monotone(1, n, 1);
}

} // verus!

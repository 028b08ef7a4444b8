//! How far single-precision results lie from the exact ones.

use crate::arith;
use crate::num;
use crate::num::Num;
use crate::rounding;
use vstd::arithmetic::power2::*;
use vstd::prelude::*;

verus! {

/// One part in two to the 24 of one: what a rounding moves a number of
/// magnitude 1 by, at most.
pub open spec fn grain() -> nat {
    pow2(125)
}

/// `a` and `b` lie no further apart than `most`.
pub open spec fn near(a: int, b: int, most: nat) -> bool {
    -most <= a - b <= most
}

pub proof fn lemma_grain()
    ensures
        num::one() == 0x100_0000 * grain(),
        grain() >= 0x100_0000,
        num::past_finite() >= 0x1000_0000 * num::one(),
{
    lemma2_to64();
    lemma_pow2_adds(24, 125);
    lemma_pow2_adds(128, 149);
    rounding::lemma_pow2_ordered(28, 128);
    rounding::lemma_pow2_ordered(24, 125);
    let one = num::one();
    assert(pow2(128) * one >= 0x1000_0000 * one) by (nonlinear_arith)
        requires
            pow2(128) >= 0x1000_0000,
    ;
}

/// The rounding of `n / den` units, where it is at most `most`.
proof fn lemma_rounded_near(n: int, den: nat, most: nat)
    requires
        den > 0,
        most <= 0x100_0000,
        -((most * num::one()) * den) <= n <= (most * num::one()) * den,
    ensures
        near(arith::rounded_signed(n, den) * den, n, (most * grain() + 1) * den),
        -(most * num::one()) <= arith::rounded_signed(n, den) <= most * num::one(),
{
    let size: nat = if n < 0 {
        (-n) as nat
    } else {
        n as nat
    };
    let one = num::one();
    let g = grain();
    lemma_grain();
    rounding::lemma_whole_exact(most);
    rounding::lemma_nearest_at_most(size, den, most * one);
    rounding::lemma_nearest_error(size, den);
    let r = num::nearest(size, den);
    assert((most * one) * den == 0x100_0000 * ((most * g) * den)) by (nonlinear_arith)
        requires
            one == 0x100_0000 * g,
    ;
    assert((most * g + 1) * den == (most * g) * den + den) by (nonlinear_arith);
    assert((-r) * den == -(r * den)) by (nonlinear_arith);
    assert(arith::rounded_signed(n, den) == if n < 0 {
        -r
    } else {
        r as int
    });
}

/// A sum is off by the rounding alone.
pub proof fn lemma_plus_near(x: Num, y: Num, most: nat)
    requires
        x is Finite,
        y is Finite,
        most <= 0x100_0000,
        -(most * num::one()) <= x.signed() + y.signed() <= most * num::one(),
    ensures
        x.plus(y) is Finite,
        near(x.plus(y).signed(), x.signed() + y.signed(), most * grain() + 1),
        -(most * num::one()) <= x.plus(y).signed() <= most * num::one(),
{
    let sum = x.signed() + y.signed();
    assert((most * num::one()) * 1 == most * num::one());
    lemma_rounded_near(sum, 1, most);
    arith::lemma_plus_signed(x, y);
    lemma_finite_result(x.plus(y), most);
    assert((most * grain() + 1) * 1 == most * grain() + 1);
}

/// A difference is off by the rounding alone.
pub proof fn lemma_minus_near(x: Num, y: Num, most: nat)
    requires
        x is Finite,
        y is Finite,
        most <= 0x100_0000,
        -(most * num::one()) <= x.signed() - y.signed() <= most * num::one(),
    ensures
        x.minus(y) is Finite,
        near(x.minus(y).signed(), x.signed() - y.signed(), most * grain() + 1),
        -(most * num::one()) <= x.minus(y).signed() <= most * num::one(),
{
    assert(y.negated().signed() == -y.signed());
    lemma_plus_near(x, y.negated(), most);
}

proof fn lemma_finite_result(x: Num, most: nat)
    requires
        x.is_number(),
        most <= 0x100_0000,
        -(most * num::one()) <= x.signed() <= most * num::one(),
    ensures
        x is Finite,
{
    lemma_grain();
    assert(most * num::one() < 0x1000_0000 * num::one()) by (nonlinear_arith)
        requires
            most <= 0x100_0000,
            num::one() > 0,
    ;
}

/// A product is off by the rounding alone.
pub proof fn lemma_times_near(x: Num, y: Num, most: nat)
    requires
        x is Finite,
        y is Finite,
        most <= 0x100_0000,
        -((most * num::one()) * num::one()) <= x.signed() * y.signed() <= (most * num::one())
            * num::one(),
    ensures
        x.times(y) is Finite,
        near(
            x.times(y).signed() * num::one(),
            x.signed() * y.signed(),
            (most * grain() + 1) * num::one(),
        ),
        -(most * num::one()) <= x.times(y).signed() <= most * num::one(),
{
    let one = num::one();
    lemma_grain();
    lemma_rounded_near(x.signed() * y.signed(), one, most);
    arith::lemma_times_signed(x, y);
    lemma_finite_result(x.times(y), most);
}

/// A fraction is off by the rounding alone.
pub proof fn lemma_fraction_near(n: nat, d: nat, most: nat)
    requires
        d > 0,
        n <= most * d,
        most <= 0x100_0000,
    ensures
        num::fraction(n, d) is Finite,
        near(num::fraction(n, d).signed() * d, (n * num::one()) as int, (most * grain() + 1) * d),
        0 <= num::fraction(n, d).signed() <= most * num::one(),
{
    let one = num::one();
    lemma_grain();
    assert(0 <= n * one <= (most * one) * d) by (nonlinear_arith)
        requires
            n <= most * d,
    ;
    lemma_rounded_near((n * one) as int, d, most);
    arith::lemma_within_fraction(n, d, most);
}

/// A quotient is off by the rounding alone: by one part in two to the 24, or
/// by half a unit where it is that small. It is below zero where one of the
/// two is.
pub proof fn lemma_over_near(x: Num, y: Num)
    requires
        x is Finite,
        y is Finite,
        y.signed() != 0,
        x.over(y) is Finite,
    ensures
        ({
            let (u, v) = (x->Finite_units as int, y->Finite_units as int);
            let r = x.over(y)->Finite_units as int;
            &&& 0x100_0000 * (r * v - u * num::one()) <= u * num::one() + 0x80_0000 * v
            &&& 0x100_0000 * (u * num::one() - r * v) <= u * num::one() + 0x80_0000 * v
            &&& x.over(y).sign() == (x.sign() != y.sign())
        }),
{
    rounding::lemma_nearest_error(x->Finite_units * num::one(), y->Finite_units);
}

/// Halves are rounded away from zero to a whole number.
pub proof fn lemma_halves_go_away_from_zero(negative: bool, n: nat)
    ensures
        (Num::Finite { negative, units: (2 * n + 1) * pow2(148) }).to_nearest_whole() == (
        Num::Finite { negative, units: (n + 1) * num::one() }),
{
    let one = num::one();
    let h = pow2(148);
    lemma_pow2_unfold(149);
    lemma_pow2_pos(148);
    assert(2 * ((2 * n + 1) * h) + one == (n + 1) * (2 * one)) by (nonlinear_arith)
        requires
            one == 2 * h,
    ;
    vstd::arithmetic::div_mod::lemma_div_multiples_vanish((n + 1) as int, (2 * one) as int);
    assert((2 * one) * (n + 1) == (n + 1) * (2 * one)) by (nonlinear_arith);
}

} // verus!

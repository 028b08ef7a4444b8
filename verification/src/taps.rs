//! Where a resize reads from.

use crate::accuracy;
use crate::accuracy::near;
use crate::arith;
use crate::num;
use crate::num::Num;
use crate::rounding;
use crate::single::Single;
use vstd::arithmetic::div_mod::*;
use vstd::arithmetic::power2::*;
use vstd::prelude::*;

verus! {

/// Where along a source `extent` samples long the output step `step` of
/// `count` falls: `(step + 0.5) * extent / count - 0.5`, held to the source.
#[verifier::opaque]
pub open spec fn tap_position(count: nat, extent: nat, step: nat) -> Num {
    let per_step = num::whole(extent).over(num::whole(count));
    let half = num::fraction(1, 2);
    num::whole(step).plus(half).times(per_step).minus(half).held(
        num::whole(0),
        num::whole((extent - 1) as nat),
    )
}

/// The sample at or before the position.
pub open spec fn tap_low(count: nat, extent: nat, step: nat) -> nat {
    tap_position(count, extent, step).whole_part(usize::MAX as nat)
}

/// The sample after `low`, or the last one.
pub open spec fn next_sample(low: nat, extent: nat) -> nat {
    if low + 1 < extent {
        low + 1
    } else {
        (extent - 1) as nat
    }
}

/// The sample after the lower one, or the last one.
pub open spec fn tap_high(count: nat, extent: nat, step: nat) -> nat {
    next_sample(tap_low(count, extent, step), extent)
}

/// How far past the lower sample the position sits.
pub open spec fn tap_fraction(count: nat, extent: nat, step: nat) -> Num {
    tap_position(count, extent, step).minus(num::whole(tap_low(count, extent, step)))
}

/// `a` and `b` blended: `a + (b - a) * t`.
#[verifier::opaque]
pub open spec fn blended(a: Num, b: Num, t: Num) -> Num {
    a.plus(b.minus(a).times(t))
}

/// `a + (b - a) * t`
pub fn blend(a: &Single, b: &Single, t: &Single) -> (r: Single)
    ensures
        r@ == blended(a@, b@, t@),
{
    reveal(blended);
    a.plus(&b.minus(a).times(t))
}

/// A number blended with itself stays what it is; where it is zero, it may
/// change its sign.
pub proof fn lemma_blended_with_itself(a: Num, t: Num)
    requires
        a is Finite,
        a.is_representable(),
        t is Finite,
    ensures
        blended(a, a, t) is Finite,
        blended(a, a, t).is_representable(),
        blended(a, a, t).signed() == a.signed(),
        !(a.sign() && a.signed() == 0) ==> blended(a, a, t) == a,
{
    reveal(blended);
    let one = num::one();
    lemma_pow2_pos(149);
    lemma_pow2_pos(277);
    rounding::lemma_whole_exact(0);
    assert(0 * one == 0);
    let nothing = a.minus(a);
    assert(nothing == num::whole(0));
    assert(0 * t->Finite_units == 0);
    rounding::lemma_nearest_at_most(0, one, 0);
    assert(nothing.times(t) == (Num::Finite { negative: t.sign(), units: 0 }));
    if a.signed() != 0 {
        rounding::lemma_exact(a->Finite_units);
    }
}

/// A blend that the second number has no part in is the first one; where that
/// is zero, it may change its sign.
pub proof fn lemma_blended_by_nothing(a: Num, b: Num, t: Num, most: nat)
    requires
        arith::within(a, most),
        arith::within(b, most),
        a.is_representable(),
        2 * most <= 0x100_0000,
        t is Finite,
        t.signed() == 0,
    ensures
        blended(a, b, t) is Finite,
        blended(a, b, t).is_representable(),
        blended(a, b, t).signed() == a.signed(),
        !(a.sign() && a.signed() == 0) ==> blended(a, b, t) == a,
{
    reveal(blended);
    let one = num::one();
    lemma_pow2_pos(149);
    lemma_pow2_pos(277);
    rounding::lemma_whole_exact(0);
    assert(0 * one == 0);
    arith::lemma_within_plus(b, a, most, most);
    let difference = b.minus(a);
    assert(difference->Finite_units * 0 == 0);
    rounding::lemma_nearest_at_most(0, one, 0);
    let nothing = difference.times(t);
    assert(nothing == (Num::Finite { negative: difference.sign() != t.sign(), units: 0 }));
    if a.signed() != 0 {
        rounding::lemma_exact(a->Finite_units);
    }
}

/// Between nothing and everything the blend is the fraction itself.
pub proof fn lemma_blended_from_nothing_to_all(t: Num)
    requires
        t is Finite,
        t.is_representable(),
    ensures
        blended(num::whole(0), num::whole(1), t) is Finite,
        blended(num::whole(0), num::whole(1), t).is_representable(),
        blended(num::whole(0), num::whole(1), t).signed() == t.signed(),
{
    reveal(blended);
    let one = num::one();
    let (zero, full) = (num::whole(0), num::whole(1));
    let u = t->Finite_units;
    lemma_pow2_pos(149);
    rounding::lemma_whole_exact(0);
    rounding::lemma_whole_exact(1);
    assert(0 * one == 0 && 1 * one == one);
    rounding::lemma_exact(one);
    assert(full.minus(zero) == full);
    rounding::lemma_exact(u);
    assert((one * u) * 1 == u * one) by (nonlinear_arith);
    rounding::lemma_nearest_same(one * u, one, u, 1);
    assert(full.times(t) == t);
}

/// Where each of `count` output steps reads from along a source `extent`
/// samples long: the two samples it falls between, and how far along it
/// sits. The mapping is the bilinear `(step + 0.5) * extent / count - 0.5`,
/// which is what the model's own runtime and its exported upsamples use.
pub struct Taps {
    pub low: Vec<usize>,
    pub high: Vec<usize>,
    pub fraction: Vec<Single>,
}

/// The position of one output step, given how far apart the steps lie.
fn position(per_step: &Single, extent: usize, step: usize, Ghost(count): Ghost<nat>) -> (r: Single)
    requires
        extent > 0,
        per_step@ == num::whole(extent as nat).over(num::whole(count)),
    ensures
        r@ == tap_position(count, extent as nat, step as nat),
{
    reveal(tap_position);
    let half = Single::ratio(1, 2);
    Single::from_usize(step).plus(&half).times(per_step).minus(&half).held(
        &Single::from_usize(0),
        &Single::from_usize(extent - 1),
    )
}

/// The sample at or before the position of one output step.
pub fn low_tap(count: usize, extent: usize, step: usize) -> (r: usize)
    requires
        extent > 0,
    ensures
        r == tap_low(count as nat, extent as nat, step as nat),
{
    let per_step = Single::from_usize(extent).over(&Single::from_usize(count));
    position(&per_step, extent, step, Ghost(count as nat)).whole_part(usize::MAX as u64) as usize
}

/// The sample after `low`, or the last one.
pub fn sample_after(low: usize, extent: usize) -> (r: usize)
    requires
        low < usize::MAX,
        extent > 0,
    ensures
        r == next_sample(low as nat, extent as nat),
{
    if low + 1 < extent {
        low + 1
    } else {
        extent - 1
    }
}

/// No step of `count` falls on the largest index there can be. Sources of up
/// to two to the 24 samples, and resizes to no more than 4096 steps, need no
/// such test.
pub open spec fn steps_below_limit(count: nat, extent: nat) -> bool {
    forall|i: nat| i < count ==> #[trigger] tap_low(count, extent, i) < usize::MAX
}

impl Taps {
    /// These are the taps of the first `steps` of `count` output steps.
    pub open spec fn holds(&self, count: nat, extent: nat, steps: nat) -> bool {
        &&& self.low@.len() == steps
        &&& self.high@.len() == steps
        &&& self.fraction@.len() == steps
        &&& forall|i: int| #![trigger self.low@[i]]
            0 <= i < steps ==> self.low@[i] == tap_low(count, extent, i as nat)
        &&& forall|i: int| #![trigger self.high@[i]]
            0 <= i < steps ==> self.high@[i] == tap_high(count, extent, i as nat)
        &&& forall|i: int| #![trigger self.fraction@[i]]
            0 <= i < steps ==> self.fraction@[i]@ == tap_fraction(count, extent, i as nat)
    }

    pub fn build(count: usize, extent: usize) -> (r: Taps)
        requires
            count > 0 ==> extent > 0,
            extent <= 0x100_0000 || count <= 0x1000 || steps_below_limit(count as nat, extent as nat),
        ensures
            r.holds(count as nat, extent as nat, count as nat),
            r.low@.len() == count,
            r.high@.len() == count,
            r.fraction@.len() == count,
            forall|i: int|
                0 <= i < count ==> #[trigger] r.low@[i] == tap_low(
                    count as nat,
                    extent as nat,
                    i as nat,
                ),
            forall|i: int|
                0 <= i < count ==> #[trigger] r.high@[i] == tap_high(
                    count as nat,
                    extent as nat,
                    i as nat,
                ),
            forall|i: int|
                0 <= i < count ==> (#[trigger] r.fraction@[i])@ == tap_fraction(
                    count as nat,
                    extent as nat,
                    i as nat,
                ),
            forall|i: int|
                0 <= i < count && #[trigger] r.low@[i] + 1 < extent ==> r.high@[i] == r.low@[i] + 1,
            forall|i: int|
                0 <= i < count && #[trigger] r.low@[i] + 1 >= extent ==> r.high@[i] == extent - 1,
    {
        let mut map = Taps { low: Vec::new(), high: Vec::new(), fraction: Vec::new() };
        if count == 0 {
            return map;
        }
        proof {
            if extent <= 0x100_0000 || count <= 0x1000 {
                assert forall|i: nat| i < count implies #[trigger] tap_low(
                    count as nat,
                    extent as nat,
                    i,
                ) < usize::MAX by {
                    if extent <= 0x100_0000 {
                        lemma_taps_in_source(count as nat, extent as nat, i);
                    } else {
                        lemma_few_taps_in_source(count as nat, extent as nat, i);
                    }
                }
            }
        }
        let per_step = Single::from_usize(extent).over(&Single::from_usize(count));
        for step in 0..count
            invariant
                extent > 0,
                steps_below_limit(count as nat, extent as nat),
                per_step@ == num::whole(extent as nat).over(num::whole(count as nat)),
                map.holds(count as nat, extent as nat, step as nat),
        {
            let f = position(&per_step, extent, step, Ghost(count as nat));
            let base: usize = f.whole_part(usize::MAX as u64) as usize;
            assert(base == tap_low(count as nat, extent as nat, step as nat));
            map.low.push(base);
            map.high.push(sample_after(base, extent));
            map.fraction.push(f.minus(&Single::from_usize(base)));
        }
        map
    }
}

/// A source of up to two to the 24 samples is never read past its ends.
pub proof fn lemma_taps_in_source(count: nat, extent: nat, step: nat)
    requires
        0 < extent <= 0x100_0000,
    ensures
        tap_low(count, extent, step) < extent,
        tap_high(count, extent, step) < extent,
        tap_low(count, extent, step) <= tap_high(count, extent, step),
{
    reveal(tap_position);
    let position = tap_position(count, extent, step);
    let one = num::one();
    let last = (extent - 1) as nat;
    rounding::lemma_whole_exact(0);
    rounding::lemma_whole_exact(last);
    lemma_pow2_pos(149);
    lemma_pow2_pos(277);
    assert(0 * one == 0);
    assert(!num::whole(last).below(position));
    if position.is_number() {
        assert(position.signed() <= last * one);
        assert(last * one < num::past_finite());
        if position is Finite && !position.sign() {
            let units = position->Finite_units;
            lemma_div_is_ordered(
                units as int,
                (last * one) as int,
                one as int,
            );
            lemma_div_multiples_vanish(last as int, one as int);
            assert(one * last == last * one) by (nonlinear_arith);
        }
    }
}

/// Whole numbers of up to 64 bits are finite, and keep their order.
proof fn lemma_whole_finite(n: nat)
    requires
        n <= 0x1_0000_0000_0000_0000,
    ensures
        num::whole(n) is Finite,
        !num::whole(n).sign(),
        num::whole(n)->Finite_units <= pow2(213),
        num::whole(n).is_representable(),
        n > 0 ==> num::whole(n)->Finite_units >= num::one(),
{
    lemma2_to64();
    lemma_pow2_adds(64, 149);
    rounding::lemma_scaled_magnitude(1, 213);
    assert(num::scaled(1, 213) == pow2(213));
    let one = num::one();
    assert(n * one <= pow2(213) * 1) by (nonlinear_arith)
        requires
            n <= 0x1_0000_0000_0000_0000,
            pow2(213) == 0x1_0000_0000_0000_0000 * one,
    ;
    rounding::lemma_nearest_at_most(n * one, 1, pow2(213));
    rounding::lemma_rounded_representable(false, n * one, 1);
    if n > 0 {
        rounding::lemma_whole_exact(1);
        assert(1 * one <= n * one) by (nonlinear_arith)
            requires
                n > 0,
        ;
        rounding::lemma_nearest_monotone(1 * one, n * one, 1);
    }
}

/// The ratio of two whole numbers of up to 64 bits is finite.
proof fn lemma_per_step_finite(count: nat, extent: nat)
    requires
        0 < count <= 0x1_0000_0000_0000_0000,
        extent <= 0x1_0000_0000_0000_0000,
    ensures
        num::whole(extent).over(num::whole(count)) is Finite,
        num::whole(extent).over(num::whole(count)).signed() >= 0,
{
    lemma_whole_finite(count);
    lemma_whole_finite(extent);
    lemma2_to64();
    lemma_pow2_pos(149);
    rounding::lemma_scaled_magnitude(1, 213);
    assert(num::scaled(1, 213) == pow2(213));
    let (u, v) = (num::whole(extent)->Finite_units, num::whole(count)->Finite_units);
    let one = num::one();
    assert(u * one <= pow2(213) * v) by (nonlinear_arith)
        requires
            u <= pow2(213),
            one <= v,
    ;
    rounding::lemma_nearest_at_most(u * one, v, pow2(213));
}

/// The middle of a step is finite.
proof fn lemma_middle_finite(step: nat)
    requires
        step < 0x1_0000_0000_0000_0000,
    ensures
        num::whole(step).plus(num::fraction(1, 2)) is Finite,
        num::fraction(1, 2) == arith::halves(1),
{
    lemma_whole_finite(step);
    arith::lemma_halves(1);
    lemma2_to64();
    lemma_pow2_unfold(214);
    rounding::lemma_pow2_ordered(148, 213);
    rounding::lemma_scaled_magnitude(1, 214);
    assert(num::scaled(1, 214) == pow2(214));
    let sum = num::whole(step)->Finite_units + 1 * pow2(148);
    rounding::lemma_nearest_at_most(sum, 1, pow2(214));
}

/// A position is a number of the source, and representable.
pub proof fn lemma_position(count: nat, extent: nat, step: nat)
    requires
        step < count <= 0x1_0000_0000_0000_0000,
        0 < extent <= 0x1_0000_0000_0000_0000,
    ensures
        tap_position(count, extent, step) is Finite,
        tap_position(count, extent, step).is_representable(),
        0 <= tap_position(count, extent, step).signed() <= num::whole((extent - 1) as nat).signed(),
{
    reveal(tap_position);
    lemma_positions_ordered(count, extent, step, step);
    lemma_whole_finite(0);
    lemma_whole_finite((extent - 1) as nat);
    lemma_pow2_pos(277);
    let half = num::fraction(1, 2);
    let spread = num::whole(step).plus(half).times(num::whole(extent).over(num::whole(count)));
    let x = spread.minus(half);
    assert(x.is_representable()) by {
        if spread is Finite {
            let sum = spread.signed() - half.signed();
            if sum == 0 {
                rounding::lemma_whole_exact(0);
                assert(0 * num::one() == 0);
            } else if sum < 0 {
                rounding::lemma_rounded_representable(true, (-sum) as nat, 1);
            } else {
                rounding::lemma_rounded_representable(false, sum as nat, 1);
            }
        }
    }
}

/// A later step never falls before an earlier one.
pub proof fn lemma_positions_ordered(count: nat, extent: nat, step: nat, later: nat)
    requires
        step <= later < count <= 0x1_0000_0000_0000_0000,
        0 < extent <= 0x1_0000_0000_0000_0000,
    ensures
        tap_position(count, extent, step).is_number(),
        tap_position(count, extent, later).is_number(),
        0 <= tap_position(count, extent, step).signed() <= tap_position(
            count,
            extent,
            later,
        ).signed() <= num::whole((extent - 1) as nat).signed(),
{
    reveal(tap_position);
    let half = num::fraction(1, 2);
    let one = num::one();
    let per_step = num::whole(extent).over(num::whole(count));
    lemma_per_step_finite(count, extent);
    lemma_middle_finite(step);
    lemma_middle_finite(later);
    lemma_whole_finite(step);
    lemma_whole_finite(later);
    lemma_whole_finite((extent - 1) as nat);
    rounding::lemma_whole_exact(0);
    assert(0 * one == 0);
    assert(step * one <= later * one) by (nonlinear_arith)
        requires
            step <= later,
    ;
    rounding::lemma_nearest_monotone(step * one, later * one, 1);
    let (a, b) = (num::whole(step).plus(half), num::whole(later).plus(half));
    arith::lemma_plus_monotone(num::whole(step), num::whole(later), half);
    arith::lemma_times_monotone(a, b, per_step);
    let (c, d) = (a.times(per_step), b.times(per_step));
    arith::lemma_plus_monotone(c, d, half.negated());
    arith::lemma_held_monotone(
        c.minus(half),
        d.minus(half),
        num::whole(0),
        num::whole((extent - 1) as nat),
    );
}

/// How far past its lower sample a step sits is exact, and less than one.
pub proof fn lemma_fraction(count: nat, extent: nat, step: nat)
    requires
        step < count <= 0x1_0000_0000_0000_0000,
        0 < extent <= 0x1_0000_0000_0000_0000,
        tap_low(count, extent, step) < usize::MAX,
    ensures
        tap_fraction(count, extent, step) is Finite,
        tap_fraction(count, extent, step).is_representable(),
        tap_fraction(count, extent, step).signed() == tap_position(count, extent, step).signed()
            - tap_low(count, extent, step) * num::one(),
        0 <= tap_fraction(count, extent, step).signed() < num::one(),
{
    let position = tap_position(count, extent, step);
    let low = tap_low(count, extent, step);
    let one = num::one();
    lemma_position(count, extent, step);
    lemma_pow2_pos(149);
    lemma2_to64();
    let units = position->Finite_units;
    if position.sign() {
        assert(units == 0);
        assert(0int / one as int == 0) by (nonlinear_arith)
            requires
                one > 0,
        ;
    }
    assert(low == units / one);
    let (n, k) = choose|n: nat, k: nat| n < pow2(24) && units == #[trigger] num::scaled(n, k);
    lemma_fundamental_div_mod(units as int, one as int);
    lemma_mod_bound(units as int, one as int);
    assert(one * low == low * one) by (nonlinear_arith);
    let rest = units % one;
    assert(num::is_magnitude(low * one) && num::is_magnitude(rest)) by {
        rounding::lemma_whole_exact(0);
        assert(0 * one == 0);
        if k >= 149 {
            lemma_pow2_adds((k - 149) as nat, 149);
            let c = n * pow2((k - 149) as nat);
            assert(units == c * one) by (nonlinear_arith)
                requires
                    units == n * pow2(k),
                    c == n * pow2((k - 149) as nat),
                    pow2(k) == pow2((k - 149) as nat) * one,
            ;
            lemma_mod_multiples_basic(c as int, one as int);
        } else {
            let r = (149 - k) as nat;
            let q = pow2(k);
            lemma_pow2_pos(k);
            lemma_pow2_pos(r);
            lemma_pow2_adds(k, r);
            rounding::lemma_pow2_ordered(k, 149);
            assert(low <= 0x100_0000) by (nonlinear_arith)
                requires
                    low * one <= units,
                    units == n * q,
                    n < 0x100_0000,
                    q <= one,
                    one > 0,
            ;
            rounding::lemma_whole_exact(low);
            let m = n % pow2(r);
            lemma_truncate_middle(n as int, q as int, pow2(r) as int);
            assert(rest == num::scaled(m, k)) by {
                assert(q * n == n * q && q * pow2(r) == one && q * m == m * q) by (nonlinear_arith)
                    requires
                        one == q * pow2(r),
                ;
            }
            lemma_mod_decreases(n, pow2(r));
            assert(m < pow2(24));
        }
    }
    rounding::lemma_exact(low * one);
    rounding::lemma_exact(rest);
    assert(num::whole(low) == num::rounded(false, low * one, 1));
}

/// A resize that changes nothing reads each sample squarely. The source has
/// up to two to the 23 samples: halves of larger numbers are not represented.
pub proof fn lemma_identity_reads_squarely(n: nat, step: nat)
    requires
        step < n <= 0x80_0000,
    ensures
        tap_low(n, n, step) == step,
        tap_high(n, n, step) == if step + 1 < n {
            step + 1
        } else {
            step
        },
        tap_fraction(n, n, step) == num::whole(0),
{
    reveal(tap_position);
    assert(n * 1 == n);
    arith::lemma_whole_ratio(n, 1);
    arith::lemma_halves(0);
    arith::lemma_halves(1);
    arith::lemma_halves(step);
    arith::lemma_halves((n - 1) as nat);
    arith::lemma_halves_plus(2 * step, 1);
    assert((2 * step + 1) * 1 == 2 * step + 1);
    arith::lemma_halves_times(2 * step + 1, 1);
    arith::lemma_halves_minus(2 * step + 1, 1);
    lemma_halves_held(2 * step, (n - 1) as nat);
    lemma_halves_low(2 * step);
    arith::lemma_halves_minus(2 * step, 2 * step);
}

/// A two-to-one shrink reads halfway between the samples of each pair. The
/// output has up to two to the 22 steps: halves of larger positions are not
/// represented.
pub proof fn lemma_shrink_reads_between_pairs(n: nat, step: nat)
    requires
        step < n <= 0x40_0000,
    ensures
        tap_low(n, 2 * n, step) == 2 * step,
        tap_high(n, 2 * n, step) == 2 * step + 1,
        tap_fraction(n, 2 * n, step) == num::fraction(1, 2),
{
    reveal(tap_position);
    assert(n * 2 == 2 * n);
    arith::lemma_whole_ratio(n, 2);
    arith::lemma_halves(0);
    arith::lemma_halves(1);
    arith::lemma_halves(2);
    arith::lemma_halves(step);
    arith::lemma_halves(2 * step);
    arith::lemma_halves((2 * n - 1) as nat);
    arith::lemma_halves_plus(2 * step, 1);
    assert((2 * step + 1) * 2 == 4 * step + 2);
    arith::lemma_halves_times(2 * step + 1, 2);
    arith::lemma_halves_minus(4 * step + 2, 1);
    lemma_halves_held(4 * step + 1, (2 * n - 1) as nat);
    lemma_halves_low(4 * step + 1);
    arith::lemma_halves_minus(4 * step + 1, 4 * step);
}

proof fn lemma_halves_held(m: nat, last: nat)
    requires
        m <= 2 * last,
        last <= 0x100_0000,
    ensures
        arith::halves(m).held(num::whole(0), num::whole(last)) == arith::halves(m),
{
    arith::lemma_halves(0);
    arith::lemma_halves(last);
    let h = pow2(148);
    assert(0 <= m * h <= (2 * last) * h) by (nonlinear_arith)
        requires
            m <= 2 * last,
    ;
    assert((2 * 0) * h == 0);
}

proof fn lemma_halves_low(m: nat)
    requires
        m <= 0x100_0000,
    ensures
        arith::halves(m).whole_part(usize::MAX as nat) == m / 2,
{
    arith::lemma_halves(m);
    lemma_pow2_pos(148);
    let h = pow2(148);
    lemma_div_denominator((m * h) as int, h as int, 2);
    lemma_div_multiples_vanish(m as int, h as int);
    assert(h * m == m * h && h * 2 == 2 * h) by (nonlinear_arith);
}

/// What the four roundings of a position add up to stays short of a whole
/// sample, where there are no more than some thousands of steps.
proof fn lemma_roundings_add_up(e: nat, w: nat, p: nat, q: nat, r: nat, m: nat, c: nat)
    requires
        0 < c <= 0x1000,
        m < 2 * c,
        0 < e,
        w * 0x100_0000 <= e * 0x100_0001,
        (p * c) * 0x100_0000 <= w * 0x100_0001,
        (2 * q) * 0x100_0000 <= (m * p) * 0x100_0001,
        r * 0x100_0000 <= q * 0x100_0001,
    ensures
        r < e,
        q < 2 * e,
{
    let b: nat = 0x100_0000;
    let b1: nat = 0x100_0001;
    // c p <= (b1 / b)^2 e
    assert((p * c) * (b * b) <= e * (b1 * b1)) by (nonlinear_arith)
        requires
            (p * c) * b <= w * b1,
            w * b <= e * b1,
    ;
    // 2 c q <= (b1 / b) m (c p)
    assert((2 * c * q) * b <= (m * (p * c)) * b1) by (nonlinear_arith)
        requires
            (2 * q) * b <= (m * p) * b1,
    ;
    let s = (2 * c - 1) as nat;
    assert(m * (p * c) <= s * (p * c)) by (nonlinear_arith)
        requires
            m <= s,
    ;
    assert((s * (p * c)) * (b * b) <= (s * e) * (b1 * b1)) by (nonlinear_arith)
        requires
            (p * c) * (b * b) <= e * (b1 * b1),
    ;
    let x = s * (p * c);
    let y = 2 * c * q;
    assert(y * (b * b * b) <= (s * e) * (b1 * b1 * b1)) by (nonlinear_arith)
        requires
            y * b <= x * b1,
            x * (b * b) <= (s * e) * (b1 * b1),
    ;
    let z = 2 * c * r;
    assert(z * b <= y * b1) by (nonlinear_arith)
        requires
            r * b <= q * b1,
            z == 2 * c * r,
            y == 2 * c * q,
    ;
    assert(z * (b * b * b * b) <= (s * e) * (b1 * b1 * b1 * b1)) by (nonlinear_arith)
        requires
            z * b <= y * b1,
            y * (b * b * b) <= (s * e) * (b1 * b1 * b1),
    ;
    assert(s * (b1 * b1 * b1 * b1) < (2 * c) * (b * b * b * b)) by (nonlinear_arith)
        requires
            b == 0x100_0000,
            b1 == 0x100_0001,
            s == 2 * c - 1,
            0 < c <= 0x1000,
    ;
    if r >= e {
        assert(z * (b * b * b * b) >= (2 * c * e) * (b * b * b * b)) by (nonlinear_arith)
            requires
                z == 2 * c * r,
                r >= e,
        ;
        assert((s * e) * (b1 * b1 * b1 * b1) < (2 * c * e) * (b * b * b * b)) by (nonlinear_arith)
            requires
                s * (b1 * b1 * b1 * b1) < (2 * c) * (b * b * b * b),
                e > 0,
        ;
    }
    if q >= 2 * e {
        assert(y * (b * b * b) >= (4 * c * e) * (b * b * b)) by (nonlinear_arith)
            requires
                y == 2 * c * q,
                q >= 2 * e,
        ;
        assert(s * (b1 * b1 * b1) < (4 * c) * (b * b * b)) by (nonlinear_arith)
            requires
                b == 0x100_0000,
                b1 == 0x100_0001,
                s == 2 * c - 1,
                0 < c,
        ;
        assert((s * e) * (b1 * b1 * b1) < (4 * c * e) * (b * b * b)) by (nonlinear_arith)
            requires
                s * (b1 * b1 * b1) < (4 * c) * (b * b * b),
                e > 0,
        ;
    }
}

/// A source of any size is never read past its ends by a resize to no more
/// than 4096 steps.
pub proof fn lemma_few_taps_in_source(count: nat, extent: nat, step: nat)
    requires
        step < count <= 0x1000,
        0 < extent <= 0x1_0000_0000_0000_0000,
    ensures
        tap_low(count, extent, step) < extent,
        tap_high(count, extent, step) < extent,
        tap_low(count, extent, step) <= tap_high(count, extent, step),
{
    if extent <= 0x100_0000 {
        lemma_taps_in_source(count, extent, step);
    } else {
        lemma_few_positions(count, extent, step);
        let one = num::one();
        let position = tap_position(count, extent, step);
        lemma_pow2_pos(149);
        let units = position->Finite_units;
        assert(units / one < extent) by (nonlinear_arith)
            requires
                units < extent * one,
                one > 0,
        ;
    }
}

proof fn lemma_few_positions(count: nat, extent: nat, step: nat)
    requires
        step < count <= 0x1000,
        0x100_0000 < extent <= 0x1_0000_0000_0000_0000,
    ensures
        tap_position(count, extent, step) is Finite,
        tap_position(count, extent, step)->Finite_units < extent * num::one(),
{
    reveal(tap_position);
    lemma_position(count, extent, step);
    lemma_positions_ordered(count, extent, step, step);
    let one = num::one();
    let h = pow2(148);
    let e = extent * one;
    lemma2_to64();
    lemma_pow2_pos(148);
    arith::lemma_halves(step);
    arith::lemma_halves(1);
    arith::lemma_halves_plus(2 * step, 1);
    let m = 2 * step + 1;
    assert(num::whole(step).plus(num::fraction(1, 2)) == arith::halves(m));
    // The extent.
    rounding::lemma_whole_exact(0x100_0000);
    lemma_whole_finite(extent);
    let w = num::whole(extent)->Finite_units;
    assert(0x100_0000 * one <= e) by (nonlinear_arith)
        requires
            e == extent * one,
            0x100_0000 < extent,
    ;
    rounding::lemma_pow2_ordered(23, 148);
    rounding::lemma_nearest_monotone(0x100_0000 * one, e, 1);
    rounding::lemma_nearest_relative(e, 1);
    assert(w * 1 == w);
    // The ratio.
    rounding::lemma_whole_exact(count);
    lemma_per_step_finite(count, extent);
    let v = count * one;
    let p = num::whole(extent).over(num::whole(count))->Finite_units;
    assert(v > 0 && v <= w) by (nonlinear_arith)
        requires
            v == count * one,
            0 < count <= 0x1000,
            w >= 0x100_0000 * one,
            one > 0,
    ;
    assert(v * one <= w * one && v * 0x80_0000 <= w * one) by (nonlinear_arith)
        requires
            v <= w,
            one >= 0x80_0000,
            v > 0,
    ;
    assert(p == num::nearest(w * one, v));
    rounding::lemma_nearest_relative(w * one, v);
    assert((p * v) * 0x100_0000 <= (w * one) * 0x100_0001);
    assert((p * count) * 0x100_0000 <= w * 0x100_0001) by (nonlinear_arith)
        requires
            (p * v) * 0x100_0000 <= (w * one) * 0x100_0001,
            v == count * one,
            one > 0,
    ;
    rounding::lemma_whole_exact(1);
    assert(1 * one == one);
    rounding::lemma_nearest_monotone(v * one, w * one, v);
    assert((v * one) * 1 == one * v) by (nonlinear_arith);
    rounding::lemma_nearest_same(v * one, v, one, 1);
    rounding::lemma_exact(one);
    assert(p >= one);
    // The product.
    let u = m * h;
    let q = num::nearest(u * p, one);
    assert(u * p >= one * 0x80_0000) by (nonlinear_arith)
        requires
            u == m * h,
            m >= 1,
            h >= 0x80_0000,
            p >= one,
    ;
    rounding::lemma_nearest_relative(u * p, one);
    assert((2 * q) * 0x100_0000 <= (m * p) * 0x100_0001) by (nonlinear_arith)
        requires
            (q * one) * 0x100_0000 <= (u * p) * 0x100_0001,
            u == m * h,
            one == 2 * h,
            h > 0,
    ;
    lemma_held_short(count, extent, step, q, m, w, p);
}

/// The last step of the bound: half a sample back, and held to the source.
proof fn lemma_held_short(
    count: nat,
    extent: nat,
    step: nat,
    q: nat,
    m: nat,
    w: nat,
    p: nat,
)
    requires
        step < count <= 0x1000,
        0 < extent <= 0x1_0000_0000_0000_0000,
        m == 2 * step + 1,
        num::whole(step).plus(num::fraction(1, 2)) == arith::halves(m),
        num::whole(extent).over(num::whole(count)) == (Num::Finite { negative: false, units: p }),
        q == num::nearest((m * pow2(148)) * p, num::one()),
        w * 0x100_0000 <= (extent * num::one()) * 0x100_0001,
        (p * count) * 0x100_0000 <= w * 0x100_0001,
        (2 * q) * 0x100_0000 <= (m * p) * 0x100_0001,
        tap_position(count, extent, step) is Finite,
        0 <= tap_position(count, extent, step).signed() <= num::whole(
            (extent - 1) as nat,
        ).signed(),
    ensures
        tap_position(count, extent, step)->Finite_units < extent * num::one(),
{
    reveal(tap_position);
    let one = num::one();
    let e = extent * one;
    let half = num::fraction(1, 2);
    lemma_pow2_pos(149);
    lemma_pow2_pos(148);
    lemma2_to64();
    arith::lemma_halves(1);
    rounding::lemma_whole_exact(0);
    assert(0 * one == 0);
    lemma_whole_finite((extent - 1) as nat);
    assert(e > 0) by (nonlinear_arith)
        requires
            e == extent * one,
            extent > 0,
            one > 0,
    ;
    // The product is finite.
    lemma_roundings_add_up(e, w, p, q, 0, m, count);
    lemma_pow2_adds(64, 149);
    lemma_pow2_adds(65, 149);
    lemma_pow2_unfold(65);
    lemma_pow2_strictly_increases(214, 277);
    assert(2 * e <= pow2(214)) by (nonlinear_arith)
        requires
            e == extent * one,
            extent <= 0x1_0000_0000_0000_0000,
            pow2(214) == 0x2_0000_0000_0000_0000 * one,
    ;
    let product = arith::halves(m).times(num::whole(extent).over(num::whole(count)));
    assert(product == (Num::Finite { negative: false, units: q }));
    let x = product.minus(half);
    let back = q - 1 * pow2(148);
    if back > 0 {
        let size = back as nat;
        if size >= 0x80_0000 {
            let r = num::nearest(size, 1);
            rounding::lemma_nearest_relative(size, 1);
            assert(r * 1 == r);
            lemma_roundings_add_up(e, w, p, q, r, m, count);
            assert(x.signed() < e);
        } else {
            rounding::lemma_scaled_magnitude(0x80_0000, 0);
            assert(num::scaled(0x80_0000, 0) == 0x80_0000);
            rounding::lemma_nearest_at_most(size, 1, 0x80_0000);
            rounding::lemma_pow2_ordered(24, 149);
            assert(e >= one) by (nonlinear_arith)
                requires
                    e == extent * one,
                    extent > 0,
            ;
            assert(x.signed() < e);
        }
    } else {
        arith::lemma_plus_signed(product, half.negated());
        arith::lemma_rounded_monotone(back, 0, 1);
        assert(x.signed() <= 0);
    }
}

/// A rounded quotient of at least two to the 24 units lies within one part in
/// two to the 23 of the exact one.
proof fn lemma_nearest_ratio(num: nat, den: nat)
    requires
        den > 0,
        num >= den * 0x100_0000,
    ensures
        0x80_0000 * (num::nearest(num, den) * den) <= 0x80_0001 * num,
        0x7f_ffff * num <= 0x80_0000 * (num::nearest(num, den) * den),
{
    rounding::lemma_nearest_error(num, den);
}

/// What the roundings of a position add up to, from above.
proof fn lemma_spread_above(
    b: int,
    c: int,
    a: int,
    one: int,
    ex: int,
    e: int,
    co: int,
    y: int,
    p: int,
    mid: int,
    m: int,
    q: int,
)
    requires
        b > 0,
        c > 0,
        a > 0,
        one > 0,
        ex >= 0 && e >= 0 && co >= 0 && y >= 0 && p >= 0 && mid >= 0 && m >= 0 && q >= 0,
        b * e <= c * ex,
        b * (p * co) <= c * (e * one),
        b * (b * m) <= c * (c * mid),
        b * (q * one) <= c * (m * p),
        b * co >= a * y,
    ensures
        (b * b * b * b * a) * (q * y) <= (c * c * c * c * c) * (mid * ex),
{
    let (qo, mp) = (q * one, m * p);
    assert(b * (qo * co) <= c * (mp * co)) by (nonlinear_arith)
        requires
            b * qo <= c * mp,
            co >= 0,
    ;
    let (pc, eo) = (p * co, e * one);
    assert(mp * co == m * pc) by (nonlinear_arith)
        requires
            mp == m * p,
            pc == p * co,
    ;
    assert(b * (m * pc) <= c * (m * eo)) by (nonlinear_arith)
        requires
            b * pc <= c * eo,
            m >= 0,
    ;
    let (k, n) = (qo * co, m * eo);
    let j = m * pc;
    assert(b * (b * k) <= c * (c * n)) by (nonlinear_arith)
        requires
            b * k <= c * j,
            b * j <= c * n,
            b > 0,
            c > 0,
    ;
    let (qc, me) = (q * co, m * e);
    assert(k == qc * one && n == me * one) by (nonlinear_arith)
        requires
            k == qo * co,
            qo == q * one,
            qc == q * co,
            n == m * eo,
            eo == e * one,
            me == m * e,
    ;
    assert((b * b) * qc <= (c * c) * me) by (nonlinear_arith)
        requires
            b * (b * k) <= c * (c * n),
            k == qc * one,
            n == me * one,
            one > 0,
    ;
    let (bm, be) = (b * (b * m), b * e);
    let (cm, cx) = (c * (c * mid), c * ex);
    assert(0 <= bm && 0 <= be) by (nonlinear_arith)
        requires
            bm == b * (b * m),
            be == b * e,
            b > 0,
            m >= 0,
            e >= 0,
    ;
    assert(bm * be <= cm * cx) by (nonlinear_arith)
        requires
            0 <= bm <= cm,
            0 <= be <= cx,
    ;
    assert((b * b * b) * me == bm * be) by (nonlinear_arith)
        requires
            me == m * e,
            bm == b * (b * m),
            be == b * e,
    ;
    let mx = mid * ex;
    assert(cm * cx == (c * c * c) * mx) by (nonlinear_arith)
        requires
            mx == mid * ex,
            cm == c * (c * mid),
            cx == c * ex,
    ;
    let b3 = b * b * b;
    let (b2, c2) = (b * b, c * c);
    assert(b3 > 0 && c2 > 0) by (nonlinear_arith)
        requires
            b3 == b * b * b,
            b > 0,
            c2 == c * c,
            c > 0,
    ;
    let c3 = c * c * c;
    assert(b3 * (b2 * qc) <= c2 * (c3 * mx)) by (nonlinear_arith)
        requires
            b2 * qc <= c2 * me,
            b3 * me <= c3 * mx,
            b3 > 0,
            c2 > 0,
    ;
    let bc = b * co;
    let ay = a * y;
    assert(q * bc >= q * ay) by (nonlinear_arith)
        requires
            bc >= ay,
            q >= 0,
    ;
    let b4 = b * b * b * b;
    assert(b4 > 0) by (nonlinear_arith)
        requires
            b4 == b * b * b * b,
            b > 0,
    ;
    assert(b4 * (q * ay) <= b4 * (q * bc)) by (nonlinear_arith)
        requires
            q * bc >= q * ay,
            b4 > 0,
    ;
    assert(b4 * (q * bc) == b3 * (b2 * qc)) by (nonlinear_arith)
        requires
            b4 == b * b * b * b,
            b3 == b * b * b,
            b2 == b * b,
            bc == b * co,
            qc == q * co,
    ;
    assert(b4 * (q * ay) == (b * b * b * b * a) * (q * y)) by (nonlinear_arith)
        requires
            b4 == b * b * b * b,
            ay == a * y,
    ;
    assert(c2 * (c3 * mx) == (c * c * c * c * c) * mx) by (nonlinear_arith)
        requires
            c2 == c * c,
            c3 == c * c * c,
    ;
}

/// What the roundings of a position add up to, from below.
proof fn lemma_spread_below(
    b: int,
    c: int,
    a: int,
    one: int,
    ex: int,
    e: int,
    co: int,
    y: int,
    p: int,
    mid: int,
    m: int,
    q: int,
)
    requires
        b > 0,
        c > 0,
        a > 0,
        one > 0,
        ex >= 0 && e >= 0 && co >= 0 && y >= 0 && p >= 0 && mid >= 0 && m >= 0 && q >= 0,
        b * e >= c * ex,
        b * (p * co) >= c * (e * one),
        b * (b * m) >= c * (c * mid),
        b * (q * one) >= c * (m * p),
        b * co <= a * y,
    ensures
        (b * b * b * b * a) * (q * y) >= (c * c * c * c * c) * (mid * ex),
{
    let (qo, mp) = (q * one, m * p);
    assert(b * (qo * co) >= c * (mp * co)) by (nonlinear_arith)
        requires
            b * qo >= c * mp,
            co >= 0,
    ;
    let (pc, eo) = (p * co, e * one);
    assert(mp * co == m * pc) by (nonlinear_arith)
        requires
            mp == m * p,
            pc == p * co,
    ;
    assert(b * (m * pc) >= c * (m * eo)) by (nonlinear_arith)
        requires
            b * pc >= c * eo,
            m >= 0,
    ;
    let (k, n) = (qo * co, m * eo);
    let j = m * pc;
    assert(b * (b * k) >= c * (c * n)) by (nonlinear_arith)
        requires
            b * k >= c * j,
            b * j >= c * n,
            b > 0,
            c > 0,
    ;
    let (qc, me) = (q * co, m * e);
    assert(k == qc * one && n == me * one) by (nonlinear_arith)
        requires
            k == qo * co,
            qo == q * one,
            qc == q * co,
            n == m * eo,
            eo == e * one,
            me == m * e,
    ;
    assert((b * b) * qc >= (c * c) * me) by (nonlinear_arith)
        requires
            b * (b * k) >= c * (c * n),
            k == qc * one,
            n == me * one,
            one > 0,
    ;
    let (bm, be) = (b * (b * m), b * e);
    let (cm, cx) = (c * (c * mid), c * ex);
    assert(0 <= cm && 0 <= cx) by (nonlinear_arith)
        requires
            cm == c * (c * mid),
            cx == c * ex,
            c > 0,
            mid >= 0,
            ex >= 0,
    ;
    assert(bm * be >= cm * cx) by (nonlinear_arith)
        requires
            0 <= cm <= bm,
            0 <= cx <= be,
    ;
    assert((b * b * b) * me == bm * be) by (nonlinear_arith)
        requires
            me == m * e,
            bm == b * (b * m),
            be == b * e,
    ;
    let mx = mid * ex;
    assert(cm * cx == (c * c * c) * mx) by (nonlinear_arith)
        requires
            mx == mid * ex,
            cm == c * (c * mid),
            cx == c * ex,
    ;
    let b3 = b * b * b;
    let (b2, c2) = (b * b, c * c);
    assert(b3 > 0 && c2 > 0) by (nonlinear_arith)
        requires
            b3 == b * b * b,
            b > 0,
            c2 == c * c,
            c > 0,
    ;
    let c3 = c * c * c;
    assert(b3 * (b2 * qc) >= c2 * (c3 * mx)) by (nonlinear_arith)
        requires
            b2 * qc >= c2 * me,
            b3 * me >= c3 * mx,
            b3 > 0,
            c2 > 0,
    ;
    let bc = b * co;
    let ay = a * y;
    assert(q * bc <= q * ay) by (nonlinear_arith)
        requires
            bc <= ay,
            q >= 0,
    ;
    let b4 = b * b * b * b;
    assert(b4 > 0) by (nonlinear_arith)
        requires
            b4 == b * b * b * b,
            b > 0,
    ;
    assert(b4 * (q * ay) >= b4 * (q * bc)) by (nonlinear_arith)
        requires
            q * bc <= q * ay,
            b4 > 0,
    ;
    assert(b4 * (q * bc) == b3 * (b2 * qc)) by (nonlinear_arith)
        requires
            b4 == b * b * b * b,
            b3 == b * b * b,
            b2 == b * b,
            bc == b * co,
            qc == q * co,
    ;
    assert(b4 * (q * ay) == (b * b * b * b * a) * (q * y)) by (nonlinear_arith)
        requires
            b4 == b * b * b * b,
            ay == a * y,
    ;
    assert(c2 * (c3 * mx) == (c * c * c * c * c) * mx) by (nonlinear_arith)
        requires
            c2 == c * c,
            c3 == c * c * c,
    ;
}

/// The position of a step before it is held to the source, `q` half a sample
/// past it, is off by less than one part in two to the 20 of the source.
proof fn lemma_spread_near(count: nat, extent: nat, step: nat) -> (q: nat)
    requires
        step < count <= 0x1_0000_0000_0000_0000,
        0 < extent <= 0x1_0000_0000_0000_0000,
    ensures
        num::whole(step).plus(num::fraction(1, 2)).times(num::whole(extent).over(num::whole(count)))
            == (Num::Finite { negative: false, units: q }),
        0x10_0000 * (2 * count * q - (2 * step + 1) * extent * num::one()) <= 2 * count * extent
            * num::one(),
        0x10_0000 * ((2 * step + 1) * extent * num::one() - 2 * count * q) <= 2 * count * extent
            * num::one(),
{
    let one = num::one();
    let h = pow2(148);
    let (r, up, down) = (0x80_0000int, 0x80_0001int, 0x7f_ffffint);
    lemma2_to64();
    lemma_pow2_pos(148);
    arith::lemma_halves(1);
    rounding::lemma_pow2_ordered(32, 148);
    lemma_whole_finite(extent);
    lemma_whole_finite(count);
    lemma_whole_finite(step);
    lemma_middle_finite(step);
    lemma_per_step_finite(count, extent);
    let (x, y) = (extent * one, count * one);
    let (e, c, s) = (
        num::whole(extent)->Finite_units,
        num::whole(count)->Finite_units,
        num::whole(step)->Finite_units,
    );
    assert(x >= one && y >= one) by (nonlinear_arith)
        requires
            x == extent * one,
            y == count * one,
            extent > 0,
            count > 0,
    ;
    lemma_nearest_ratio(x, 1);
    lemma_nearest_ratio(y, 1);
    assert(e * 1 == e && c * 1 == c);
    // The ratio.
    let p = num::whole(extent).over(num::whole(count))->Finite_units;
    assert(e * one >= c * 0x100_0000) by {
        lemma_pow2_adds(64, 149);
        lemma_pow2_adds(88, 125);
        lemma_pow2_adds(24, 125);
        rounding::lemma_pow2_ordered(88, 125);
        let g = pow2(125);
        assert(c * 0x100_0000 <= pow2(213) * 0x100_0000);
        assert(pow2(213) * 0x100_0000 == pow2(88) * one) by (nonlinear_arith)
            requires
                pow2(213) == pow2(88) * g,
                one == 0x100_0000 * g,
        ;
        rounding::lemma_pow2_ordered(88, 149);
        assert(e * one >= pow2(88) * one) by (nonlinear_arith)
            requires
                e >= one,
                one >= pow2(88),
        ;
    }
    lemma_nearest_ratio(e * one, c);
    assert(p == num::nearest(e * one, c));
    // The middle of the step.
    let mid = step * one + h;
    let m = num::whole(step).plus(num::fraction(1, 2))->Finite_units;
    assert(1 * h == h);
    assert(m == num::nearest(s + h, 1));
    assert(m * 1 == m);
    lemma_nearest_ratio(s + h, 1);
    if step > 0 {
        assert(step * one >= one) by (nonlinear_arith)
            requires
                step > 0,
        ;
        lemma_nearest_ratio(step * one, 1);
        assert(s * 1 == s);
    } else {
        rounding::lemma_whole_exact(0);
        assert(0 * one == 0);
        assert(s == 0);
    }
    assert(r * (s + h) <= up * mid && down * mid <= r * (s + h));
    assert(r * (r * m) <= up * (up * mid) && r * (r * m) >= down * (down * mid));
    // The product.
    let q = num::nearest(m * p, one);
    assert(p >= pow2(84)) by {
        lemma_pow2_adds(84, 149);
        lemma_pow2_adds(65, 84);
        rounding::lemma_scaled_magnitude(1, 84);
        assert(num::scaled(1, 84) == pow2(84));
        rounding::lemma_exact(pow2(84));
        assert(pow2(84) * c <= e * one) by {
            lemma_pow2_adds(84, 213);
            lemma_pow2_adds(148, 149);
            lemma_pow2_unfold(149);
            rounding::lemma_pow2_ordered(297, 298);
            lemma_pow2_adds(149, 149);
            assert(pow2(84) * c <= pow2(84) * pow2(213)) by (nonlinear_arith)
                requires
                    c <= pow2(213),
            ;
            assert(e * one >= one * one) by (nonlinear_arith)
                requires
                    e >= one,
            ;
        }
        rounding::lemma_nearest_monotone(pow2(84) * c, e * one, c);
        lemma_nearest_same_multiple(pow2(84), c);
    }
    assert(m >= h) by {
        rounding::lemma_exact(1 * h);
        rounding::lemma_nearest_monotone(h, s + h, 1);
    }
    assert(m * p >= one * 0x100_0000) by {
        rounding::lemma_pow2_ordered(25, 84);
        lemma_pow2_unfold(25);
        assert(m * p >= h * 0x200_0000) by (nonlinear_arith)
            requires
                m >= h,
                p >= 0x200_0000,
        ;
    }
    lemma_nearest_ratio(m * p, one);
    lemma_spread_above(
        r,
        up,
        down,
        one as int,
        x as int,
        e as int,
        c as int,
        y as int,
        p as int,
        mid as int,
        m as int,
        q as int,
    );
    lemma_spread_below(
        r,
        down,
        up,
        one as int,
        x as int,
        e as int,
        c as int,
        y as int,
        p as int,
        mid as int,
        m as int,
        q as int,
    );
    let (qy, mx) = ((q * y) as int, (mid * x) as int);
    assert(mx >= 0 && qy >= 0);
    assert(0x10_0000 * (qy - mx) <= mx && 0x10_0000 * (mx - qy) <= mx) by (nonlinear_arith)
        requires
            (r * r * r * r * down) * qy <= (up * up * up * up * up) * mx,
            (r * r * r * r * up) * qy >= (down * down * down * down * down) * mx,
            r == 0x80_0000,
            up == 0x80_0001,
            down == 0x7f_ffff,
            mx >= 0,
            qy >= 0,
    ;
    lemma_spread_scaled(count, extent, step, q);
    lemma_spread_finite(count, extent, step, q);
    q
}

proof fn lemma_nearest_same_multiple(n: nat, den: nat)
    requires
        den > 0,
        num::is_magnitude(n),
    ensures
        num::nearest(n * den, den) == n,
{
    assert((n * den) * 1 == n * den);
    rounding::lemma_nearest_same(n * den, den, n, 1);
    rounding::lemma_exact(n);
}

/// The same bounds without the units they were taken in.
proof fn lemma_spread_scaled(count: nat, extent: nat, step: nat, q: nat)
    requires
        ({
            let qy = q * (count * num::one());
            let mx = (step * num::one() + pow2(148)) * (extent * num::one());
            &&& 0x10_0000 * (qy - mx) <= mx
            &&& 0x10_0000 * (mx - qy) <= mx
        }),
        step < count,
    ensures
        0x10_0000 * (2 * count * q - (2 * step + 1) * extent * num::one()) <= 2 * count * extent
            * num::one(),
        0x10_0000 * ((2 * step + 1) * extent * num::one() - 2 * count * q) <= 2 * count * extent
            * num::one(),
{
    let one = num::one();
    let h = pow2(148);
    arith::lemma_halves(1);
    lemma_pow2_pos(148);
    let qy = q * (count * one);
    let mx = (step * one + h) * (extent * one);
    let a = 2 * count * q;
    let b = (2 * step + 1) * extent * one;
    assert(2 * qy == a * one) by (nonlinear_arith)
        requires
            qy == q * (count * one),
            a == 2 * count * q,
    ;
    assert(2 * mx == b * one) by (nonlinear_arith)
        requires
            mx == (step * one + h) * (extent * one),
            b == (2 * step + 1) * extent * one,
            one == 2 * h,
    ;
    assert(0x10_0000 * (a - b) <= b && 0x10_0000 * (b - a) <= b) by (nonlinear_arith)
        requires
            0x10_0000 * (a * one - b * one) <= b * one,
            0x10_0000 * (b * one - a * one) <= b * one,
            one > 0,
    ;
    let top = 2 * count * extent * one;
    assert(b <= top) by (nonlinear_arith)
        requires
            b == (2 * step + 1) * extent * one,
            top == 2 * count * extent * one,
            step < count,
    ;
}

/// What lies that close to the source is finite.
proof fn lemma_spread_finite(count: nat, extent: nat, step: nat, q: nat)
    requires
        step < count <= 0x1_0000_0000_0000_0000,
        0 < extent <= 0x1_0000_0000_0000_0000,
        0x10_0000 * (2 * count * q - (2 * step + 1) * extent * num::one()) <= 2 * count * extent
            * num::one(),
    ensures
        q <= 2 * (extent * num::one()) < num::past_finite(),
{
    let one = num::one();
    let x = extent * one;
    lemma2_to64();
    lemma_pow2_pos(149);
    lemma_pow2_adds(65, 149);
    lemma_pow2_unfold(65);
    lemma_pow2_strictly_increases(214, 277);
    assert((2 * step + 1) * extent * one == (2 * step + 1) * x) by (nonlinear_arith)
        requires
            x == extent * one,
    ;
    assert(2 * count * extent * one == (2 * count) * x) by (nonlinear_arith)
        requires
            x == extent * one,
    ;
    assert(2 * count * q == (2 * count) * q);
    assert((2 * step + 1) * x <= (2 * count) * x) by (nonlinear_arith)
        requires
            step < count,
    ;
    let n = 2 * count;
    assert(q <= 2 * x) by (nonlinear_arith)
        requires
            n * q <= 2 * (n * x),
            n > 0,
    ;
    assert(2 * x <= pow2(214)) by (nonlinear_arith)
        requires
            x == extent * one,
            extent <= 0x1_0000_0000_0000_0000,
            pow2(214) == 0x2_0000_0000_0000_0000 * one,
    ;
}

/// Steps lie where they belong: the middle of the step `step` of `count`
/// falls as far along the source as along the output. The position lies
/// within one part in two to the 19 of the source of
/// `(step + 1/2) * extent / count - 1/2`, held to the samples there are.
pub proof fn lemma_position_is_proportional(count: nat, extent: nat, step: nat)
    requires
        step < count <= 0x1_0000_0000_0000_0000,
        0 < extent <= 0x1_0000_0000_0000_0000,
    ensures
        tap_position(count, extent, step) is Finite,
        ({
            let exact = (2 * step + 1) * extent - count;
            let last = 2 * count * (extent - 1);
            let held = if exact < 0 {
                0
            } else if exact > last {
                last
            } else {
                exact
            };
            let position = 2 * count * tap_position(count, extent, step).signed();
            &&& 0x8_0000 * (position - held * num::one()) <= 2 * count * extent * num::one()
            &&& 0x8_0000 * (held * num::one() - position) <= 2 * count * extent * num::one()
        }),
{
    reveal(tap_position);
    let one = num::one();
    let h = pow2(148);
    let half = num::fraction(1, 2);
    lemma_position(count, extent, step);
    let q = lemma_spread_near(count, extent, step);
    lemma_spread_finite(count, extent, step, q);
    arith::lemma_halves(1);
    lemma_pow2_pos(148);
    lemma2_to64();
    rounding::lemma_pow2_ordered(32, 148);
    assert(1 * h == h);
    let product = num::whole(step).plus(half).times(num::whole(extent).over(num::whole(count)));
    let x = product.minus(half);
    let t = extent * one;
    assert(t >= one) by (nonlinear_arith)
        requires
            t == extent * one,
            extent > 0,
    ;
    // Half a sample back.
    let back = q - h;
    let size: nat = if back < 0 {
        (-back) as nat
    } else {
        back as nat
    };
    arith::lemma_plus_signed(product, half.negated());
    rounding::lemma_nearest_error(size, 1);
    let r = num::nearest(size, 1);
    assert(r * 1 == r);
    assert(r < num::past_finite()) by {
        lemma_pow2_adds(65, 149);
        lemma_pow2_unfold(65);
        lemma_pow2_unfold(215);
        lemma_pow2_strictly_increases(215, 277);
        assert(2 * t <= pow2(214)) by (nonlinear_arith)
            requires
                t == extent * one,
                extent <= 0x1_0000_0000_0000_0000,
                pow2(214) == 0x2_0000_0000_0000_0000 * one,
        ;
    }
    assert(x.signed() == if back < 0 {
        -r
    } else {
        r as int
    });
    assert(0x40_0000 * (x.signed() - back) <= t && 0x40_0000 * (back - x.signed()) <= t);
    // The last sample.
    let w = num::whole((extent - 1) as nat);
    lemma_whole_finite((extent - 1) as nat);
    let z = (extent - 1) * one;
    assert(z == t - one) by (nonlinear_arith)
        requires
            z == (extent - 1) * one,
            t == extent * one,
    ;
    rounding::lemma_nearest_error(z as nat, 1);
    assert(w.signed() * 1 == w.signed());
    assert(0x40_0000 * (w.signed() - z) <= t && 0x40_0000 * (z - w.signed()) <= t);
    // Both, as often as there are halves of steps.
    let n = 2 * count;
    let exact = (2 * step + 1) * extent - count;
    let v = x.signed();
    assert(exact * one == (2 * step + 1) * extent * one - n * h) by (nonlinear_arith)
        requires
            exact == (2 * step + 1) * extent - count,
            n == 2 * count,
            one == 2 * h,
    ;
    let tn = n * t;
    assert(2 * count * extent * one == tn) by (nonlinear_arith)
        requires
            tn == n * t,
            n == 2 * count,
            t == extent * one,
    ;
    assert(0x40_0000 * (n * v - n * back) <= tn && 0x40_0000 * (n * back - n * v) <= tn)
        by (nonlinear_arith)
        requires
            0x40_0000 * (v - back) <= t,
            0x40_0000 * (back - v) <= t,
            tn == n * t,
            n > 0,
    ;
    assert(n * back == n * q - n * h) by (nonlinear_arith)
        requires
            back == q - h,
    ;
    assert(2 * count * q == n * q);
    let u = w.signed();
    assert(0x40_0000 * (n * u - n * z) <= tn && 0x40_0000 * (n * z - n * u) <= tn)
        by (nonlinear_arith)
        requires
            0x40_0000 * (u - z) <= t,
            0x40_0000 * (z - u) <= t,
            tn == n * t,
            n > 0,
    ;
    let last = 2 * count * (extent - 1);
    assert(last * one == n * z) by (nonlinear_arith)
        requires
            last == 2 * count * (extent - 1),
            n == 2 * count,
            z == (extent - 1) * one,
    ;
    lemma_pow2_pos(149);
    rounding::lemma_whole_exact(0);
    assert(0 * one == 0);
    let position = tap_position(count, extent, step).signed();
    assert(position == if v < 0 {
        0
    } else if u < v {
        u
    } else {
        v
    });
    assert((v < 0 ==> n * v < 0) && (v >= 0 ==> n * v >= 0) && (u < v ==> n * u < n * v) && (v <= u
        ==> n * v <= n * u)) by (nonlinear_arith)
        requires
            n > 0,
    ;
    assert(n * 0 == 0);
    assert(2 * count * position == n * position);
    assert((exact < 0 ==> exact * one < 0) && (exact >= 0 ==> exact * one >= 0) && (exact > last
        ==> exact * one > last * one) && (exact <= last ==> exact * one <= last * one))
        by (nonlinear_arith)
        requires
            one > 0,
    ;
    assert(last >= 0) by (nonlinear_arith)
        requires
            last == 2 * count * (extent - 1),
            extent > 0,
    ;
    assert(n * u >= 0) by (nonlinear_arith)
        requires
            n > 0,
            u >= 0,
    ;
    assert(last * one >= 0) by (nonlinear_arith)
        requires
            last >= 0,
    ;
}

/// A blend is off by the roundings alone.
pub proof fn lemma_blended_near(a: Num, b: Num, t: Num, most: nat)
    requires
        arith::within(a, most),
        arith::within(b, most),
        t is Finite,
        0 <= t.signed() <= num::one(),
        0 < most <= 0x10_0000,
    ensures
        arith::within(blended(a, b, t), 3 * most),
        near(
            num::one() * blended(a, b, t).signed(),
            (num::one() - t.signed()) * a.signed() + t.signed() * b.signed(),
            (8 * (most * accuracy::grain())) * num::one(),
        ),
{
    reveal(blended);
    let one = num::one();
    let g = accuracy::grain();
    accuracy::lemma_grain();
    let (x, y, f) = (a.signed(), b.signed(), t.signed());
    assert((2 * most) * one == 2 * (most * one)) by (nonlinear_arith);
    assert((3 * most) * one == 3 * (most * one)) by (nonlinear_arith);
    assert((2 * most) * g == 2 * (most * g)) by (nonlinear_arith);
    assert((3 * most) * g == 3 * (most * g)) by (nonlinear_arith);
    accuracy::lemma_minus_near(b, a, 2 * most);
    let d = b.minus(a).signed();
    let m = (2 * most) * one;
    assert(-(m * one) <= d * f <= m * one) by (nonlinear_arith)
        requires
            -m <= d <= m,
            0 <= f <= one,
    ;
    accuracy::lemma_times_near(b.minus(a), t, 2 * most);
    let p = b.minus(a).times(t).signed();
    accuracy::lemma_plus_near(a, b.minus(a).times(t), 3 * most);
    let r = a.plus(b.minus(a).times(t)).signed();
    let mg = (most * g) as int;
    let (e1, e2, e3) = (d - (y - x), p * one - d * f, r - (x + p));
    let k = 2 * mg + 1;
    assert(-(k * one) <= e1 * f <= k * one) by (nonlinear_arith)
        requires
            -k <= e1 <= k,
            0 <= f <= one,
    ;
    let k3 = 3 * mg + 1;
    assert(-(k3 * one) <= e3 * one <= k3 * one) by (nonlinear_arith)
        requires
            -k3 <= e3 <= k3,
            one > 0,
    ;
    assert(one * r - ((one - f) * x + f * y) == e3 * one + e2 + e1 * f) by (nonlinear_arith)
        requires
            e1 == d - (y - x),
            e2 == p * one - d * f,
            e3 == r - (x + p),
    ;
    assert(mg >= 3) by (nonlinear_arith)
        requires
            mg == most * g,
            most >= 1,
            g >= 3,
    ;
    assert(k * one + k * one + k3 * one <= (8 * mg) * one) by (nonlinear_arith)
        requires
            k == 2 * mg + 1,
            k3 == 3 * mg + 1,
            mg >= 3,
    ;
}

/// A blend is the weighted mean of what it blends: `b` weighs `t`, and `a`
/// what is left. Of numbers of up to `most`, it lies within that many parts
/// in two to the 21 of the exact mean.
pub proof fn lemma_blended_is_the_mean(a: Num, b: Num, t: Num, most: nat)
    requires
        a is Finite,
        b is Finite,
        t is Finite,
        -(most * num::one()) <= a.signed() <= most * num::one(),
        -(most * num::one()) <= b.signed() <= most * num::one(),
        0 <= t.signed() <= num::one(),
        0 < most <= 0x10_0000,
    ensures
        blended(a, b, t) is Finite,
        ({
            let one = num::one() as int;
            let mean = (one - t.signed()) * a.signed() + t.signed() * b.signed();
            let blend = one * blended(a, b, t).signed();
            &&& 0x20_0000 * (blend - mean) <= (most * one) * one
            &&& 0x20_0000 * (mean - blend) <= (most * one) * one
        }),
{
    let one = num::one();
    let g = accuracy::grain();
    lemma_blended_near(a, b, t, most);
    accuracy::lemma_grain();
    assert(0x20_0000 * ((8 * (most * g)) * one) == (most * one) * one) by (nonlinear_arith)
        requires
            one == 0x100_0000 * g,
    ;
}

/// A step reads the two samples its position falls between, or the last one
/// twice, and is as far past the lower as its position is.
pub proof fn lemma_taps_straddle_position(count: nat, extent: nat, step: nat)
    requires
        step < count <= 0x1_0000_0000_0000_0000,
        0 < extent <= 0x1_0000_0000_0000_0000,
        tap_low(count, extent, step) < usize::MAX,
    ensures
        tap_fraction(count, extent, step) is Finite,
        ({
            let one = num::one() as int;
            let position = tap_position(count, extent, step).signed();
            let low = tap_low(count, extent, step);
            let high = tap_high(count, extent, step);
            let fraction = tap_fraction(count, extent, step).signed();
            &&& low * one <= position < (low + 1) * one
            &&& low + 1 < extent ==> high == low + 1
            &&& low + 1 >= extent ==> high == extent - 1
            &&& fraction == position - low * one
        }),
{
    lemma_fraction(count, extent, step);
    let one = num::one();
    let low = tap_low(count, extent, step);
    assert((low + 1) * one == low * one + one) by (nonlinear_arith);
}

/// Two blends of four numbers, and one of the two: off by the roundings
/// alone.
pub proof fn lemma_bilinear_near(
    a: Num,
    b: Num,
    c: Num,
    d: Num,
    across: Num,
    down: Num,
    most: nat,
)
    requires
        arith::within(a, most),
        arith::within(b, most),
        arith::within(c, most),
        arith::within(d, most),
        across is Finite,
        0 <= across.signed() <= num::one(),
        down is Finite,
        0 <= down.signed() <= num::one(),
        0 < most <= 0x1_0000,
    ensures
        ({
            let one = num::one() as int;
            let (x, y) = (across.signed(), down.signed());
            let top = (one - x) * a.signed() + x * b.signed();
            let bottom = (one - x) * c.signed() + x * d.signed();
            let value = blended(blended(a, b, across), blended(c, d, across), down);
            &&& arith::within(value, 9 * most)
            &&& near(
                (one * one) * value.signed(),
                (one - y) * top + y * bottom,
                (32 * (most * accuracy::grain())) * (num::one() * num::one()),
            )
        }),
{
    let one = num::one() as int;
    let g = accuracy::grain() as int;
    let (x, y) = (across.signed(), down.signed());
    let top = (one - x) * a.signed() + x * b.signed();
    let bottom = (one - x) * c.signed() + x * d.signed();
    let (p, q) = (blended(a, b, across), blended(c, d, across));
    lemma_blended_near(a, b, across, most);
    lemma_blended_near(c, d, across, most);
    lemma_blended_near(p, q, down, 3 * most);
    let r = blended(p, q, down).signed();
    let mg = most * g;
    assert((3 * most) * g == 3 * mg) by (nonlinear_arith)
        requires
            mg == most * g,
    ;
    let (u, v) = (p.signed(), q.signed());
    let e = one * r - ((one - y) * u + y * v);
    let (f, h) = (one * u - top, one * v - bottom);
    let k = (8 * mg) * one;
    assert(-(3 * k) <= e <= 3 * k) by (nonlinear_arith)
        requires
            -((8 * (3 * mg)) * one) <= e <= (8 * (3 * mg)) * one,
            k == (8 * mg) * one,
    ;
    assert(-(one * k) <= (one - y) * f + y * h <= one * k) by (nonlinear_arith)
        requires
            -k <= f <= k,
            -k <= h <= k,
            0 <= y <= one,
    ;
    assert(-(one * (3 * k)) <= one * e <= one * (3 * k)) by (nonlinear_arith)
        requires
            -(3 * k) <= e <= 3 * k,
            one >= 0,
    ;
    let z = one - y;
    let (ou, ov) = (one * u, one * v);
    let (or, zu, yv) = (one * r, z * u, y * v);
    assert(one * e == one * or - one * zu - one * yv) by (nonlinear_arith)
        requires
            e == or - (zu + yv),
    ;
    assert((one * one) * r == one * or) by (nonlinear_arith)
        requires
            or == one * r,
    ;
    assert(one * zu == z * ou) by (nonlinear_arith)
        requires
            zu == z * u,
            ou == one * u,
    ;
    assert(one * yv == y * ov) by (nonlinear_arith)
        requires
            yv == y * v,
            ov == one * v,
    ;
    assert(z * f == z * ou - z * top && y * h == y * ov - y * bottom) by (nonlinear_arith)
        requires
            f == ou - top,
            h == ov - bottom,
    ;
    assert(one * (3 * k) + one * k == (32 * mg) * (one * one)) by (nonlinear_arith)
        requires
            k == (8 * mg) * one,
    ;
    assert(3 * (3 * most) == 9 * most);
}

} // verus!

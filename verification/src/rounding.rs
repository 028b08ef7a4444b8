//! Facts about rounding to single precision.

use crate::num;
use crate::num::Num;
use vstd::arithmetic::div_mod::*;
use vstd::arithmetic::power2::*;
use vstd::prelude::*;

verus! {

/// Powers of two are ordered as their exponents are.
pub proof fn lemma_pow2_ordered(a: nat, b: nat)
    requires
        a <= b,
    ensures
        0 < pow2(a) <= pow2(b),
{
    lemma_pow2_pos(a);
    if a < b {
        lemma_pow2_strictly_increases(a, b);
    }
}

/// `n` is `num / den` rounded to a whole number, ties to the even one, said
/// without dividing.
pub open spec fn is_half_even(num: nat, den: nat, n: nat) -> bool {
    &&& (2 * n - 1) * den <= 2 * num <= (2 * n + 1) * den
    &&& (2 * num == (2 * n - 1) * den || 2 * num == (2 * n + 1) * den) ==> n % 2 == 0
}

pub proof fn lemma_half_even(num: nat, den: nat)
    requires
        den > 0,
    ensures
        is_half_even(num, den, num::half_even(num, den)),
{
    let low = num / den;
    let rest = num % den;
    lemma_fundamental_div_mod(num as int, den as int);
    let n = num::half_even(num, den);
    assert((2 * low - 1) * den == 2 * (den * low) - den) by (nonlinear_arith);
    assert((2 * low + 1) * den == 2 * (den * low) + den) by (nonlinear_arith);
    assert((2 * low + 3) * den == 2 * (den * low) + 3 * den) by (nonlinear_arith);
    assert(2 * (low + 1) - 1 == 2 * low + 1);
    assert(2 * (low + 1) + 1 == 2 * low + 3);
}

/// Only one whole number is the rounded one.
pub proof fn lemma_half_even_unique(num: nat, den: nat, n: nat)
    requires
        den > 0,
        is_half_even(num, den, n),
    ensures
        num::half_even(num, den) == n,
{
    let m = num::half_even(num, den);
    lemma_half_even(num, den);
    if m + 1 <= n {
        // Both bounds meet: only a tie between m and m + 1 is left.
        assert((2 * m + 1) * den <= (2 * n - 1) * den) by (nonlinear_arith)
            requires
                m + 1 <= n,
        ;
        if m + 2 <= n {
            assert((2 * m + 1) * den < (2 * n - 1) * den) by (nonlinear_arith)
                requires
                    m + 2 <= n,
                    den > 0,
            ;
        }
        assert(n == m + 1);
        assert(2 * num == (2 * m + 1) * den);
        assert(2 * num == (2 * n - 1) * den);
    } else if n + 1 <= m {
        assert((2 * n + 1) * den <= (2 * m - 1) * den) by (nonlinear_arith)
            requires
                n + 1 <= m,
        ;
        if n + 2 <= m {
            assert((2 * n + 1) * den < (2 * m - 1) * den) by (nonlinear_arith)
                requires
                    n + 2 <= m,
                    den > 0,
            ;
        }
        assert(m == n + 1);
        assert(2 * num == (2 * n + 1) * den);
        assert(2 * num == (2 * m - 1) * den);
    }
}

proof fn lemma_last_place_below(num: nat, den: nat, k: nat)
    requires
        den > 0,
        num < den * pow2(24 + k),
    ensures
        exists|j: nat| j <= k && num::is_last_place(num, den, j),
    decreases k,
{
    if k == 0 || num >= den * pow2((23 + k) as nat) {
        assert(num::is_last_place(num, den, k));
    } else {
        assert(24 + (k - 1) as nat == (23 + k) as nat);
        lemma_last_place_below(num, den, (k - 1) as nat);
    }
}

/// A last place there is, and only one.
pub proof fn lemma_last_place(num: nat, den: nat)
    requires
        den > 0,
    ensures
        num::is_last_place(num, den, num::last_place(num, den)),
        forall|k: nat| num::is_last_place(num, den, k) ==> k == num::last_place(num, den),
{
    lemma_below_own_power(num);
    lemma_pow2_ordered(num, 24 + num);
    assert(num < den * pow2(24 + num)) by (nonlinear_arith)
        requires
            num < pow2(24 + num),
            den > 0,
    ;
    lemma_last_place_below(num, den, num);
    let p = num::last_place(num, den);
    assert forall|k: nat| num::is_last_place(num, den, k) implies k == p by {
        if k < p {
            lemma_pow2_ordered(24 + k, (23 + p) as nat);
            assert(den * pow2(24 + k) <= den * pow2((23 + p) as nat)) by (nonlinear_arith)
                requires
                    pow2(24 + k) <= pow2((23 + p) as nat),
            ;
        } else if p < k {
            lemma_pow2_ordered(24 + p, (23 + k) as nat);
            assert(den * pow2(24 + p) <= den * pow2((23 + k) as nat)) by (nonlinear_arith)
                requires
                    pow2(24 + p) <= pow2((23 + k) as nat),
            ;
        }
    }
}

proof fn lemma_below_own_power(n: nat)
    ensures
        n < pow2(n),
    decreases n,
{
    if n == 0 {
        lemma2_to64();
    } else {
        lemma_below_own_power((n - 1) as nat);
        lemma_pow2_unfold(n);
    }
}

/// Rounding is settled by the last place and the rounded significand.
pub proof fn lemma_nearest_is(num: nat, den: nat, k: nat, n: nat)
    requires
        den > 0,
        num::is_last_place(num, den, k),
        is_half_even(num, den * pow2(k), n),
    ensures
        num::last_place(num, den) == k,
        num::nearest(num, den) == num::scaled(n, k),
{
    lemma_last_place(num, den);
    lemma_pow2_pos(k);
    assert(den * pow2(k) > 0) by (nonlinear_arith)
        requires
            den > 0,
            pow2(k) > 0,
    ;
    lemma_half_even_unique(num, den * pow2(k), n);
}

/// What rounding gives: a significand of at most 24 bits, or the power of
/// two just past them, at the last place.
pub proof fn lemma_nearest(num: nat, den: nat) -> (r: (nat, nat))
    requires
        den > 0,
    ensures
        num::is_last_place(num, den, r.0),
        is_half_even(num, den * pow2(r.0), r.1),
        num::nearest(num, den) == num::scaled(r.1, r.0),
        r.1 <= pow2(24),
        r.0 > 0 ==> r.1 >= pow2(23),
{
    let k = num::last_place(num, den);
    let d = den * pow2(k);
    let n = num::half_even(num, d);
    lemma_last_place(num, den);
    lemma_pow2_pos(k);
    assert(d > 0) by (nonlinear_arith)
        requires
            den > 0,
            pow2(k) > 0,
            d == den * pow2(k),
    ;
    lemma_half_even(num, d);
    lemma_pow2_adds(24, k);
    lemma_pow2_adds(23, k);
    lemma2_to64();
    assert(den * pow2(24 + k) == pow2(24) * d) by (nonlinear_arith)
        requires
            pow2(24 + k) == pow2(24) * pow2(k),
            d == den * pow2(k),
    ;
    if n > pow2(24) {
        assert((2 * n - 1) * d > 2 * (pow2(24) * d)) by (nonlinear_arith)
            requires
                n > pow2(24),
                d > 0,
        ;
    }
    if k > 0 && n < pow2(23) {
        assert(den * pow2((23 + k) as nat) == pow2(23) * d) by (nonlinear_arith)
            requires
                pow2(23 + k) == pow2(23) * pow2(k),
                d == den * pow2(k),
        ;
        assert((2 * n + 1) * d < 2 * (pow2(23) * d)) by (nonlinear_arith)
            requires
                n < pow2(23),
                d > 0,
        ;
    }
    (k, n)
}

/// Rounding a fraction to a whole number is the same with a common factor.
pub proof fn lemma_half_even_factor(num: nat, den: nat, c: nat, n: nat)
    requires
        c > 0,
        is_half_even(num, den, n),
    ensures
        is_half_even(num * c, den * c, n),
{
    assert((2 * n - 1) * (den * c) == ((2 * n - 1) * den) * c) by (nonlinear_arith);
    assert((2 * n + 1) * (den * c) == ((2 * n + 1) * den) * c) by (nonlinear_arith);
    assert(2 * (num * c) == (2 * num) * c) by (nonlinear_arith);
    let (a, b, d) = ((2 * n - 1) * den, 2 * num, (2 * n + 1) * den);
    assert(a * c <= b * c <= d * c && (a * c == b * c ==> a == b) && (b * c == d * c ==> b == d))
        by (nonlinear_arith)
        requires
            a <= b <= d,
            c > 0,
    ;
}

/// Rounding a magnitude is the same with a common factor.
pub proof fn lemma_nearest_factor(num: nat, den: nat, c: nat)
    requires
        den > 0,
        c > 0,
    ensures
        num::nearest(num * c, den * c) == num::nearest(num, den),
        num::last_place(num * c, den * c) == num::last_place(num, den),
{
    let (k, n) = lemma_nearest(num, den);
    lemma_nearest_is(num, den, k, n);
    lemma_half_even_factor(num, den * pow2(k), c, n);
    assert((den * pow2(k)) * c == (den * c) * pow2(k)) by (nonlinear_arith);
    assert(num * c < (den * c) * pow2(24 + k)) by (nonlinear_arith)
        requires
            num < den * pow2(24 + k),
            c > 0,
    ;
    if k > 0 {
        assert(num * c >= (den * c) * pow2((23 + k) as nat)) by (nonlinear_arith)
            requires
                num >= den * pow2((23 + k) as nat),
                c > 0,
        ;
    }
    assert(den * c > 0) by (nonlinear_arith)
        requires
            den > 0,
            c > 0,
    ;
    lemma_nearest_is(num * c, den * c, k, n);
}

/// The factor by which a shift to the left multiplies.
pub open spec fn up(shift: int) -> nat {
    if shift >= 0 {
        pow2(shift as nat)
    } else {
        1
    }
}

/// The factor by which a shift to the right divides.
pub open spec fn down(shift: int) -> nat {
    if shift >= 0 {
        1
    } else {
        pow2((-shift) as nat)
    }
}

pub proof fn lemma_up_down(shift: int)
    ensures
        up(shift) > 0,
        down(shift) > 0,
{
    if shift >= 0 {
        lemma_pow2_pos(shift as nat);
    } else {
        lemma_pow2_pos((-shift) as nat);
    }
}

/// To multiply by one power of two and divide by another is to shift by the
/// difference of the exponents.
pub proof fn lemma_shift_is_quotient(a: nat, b: nat)
    ensures
        pow2(a) * down(a - b) == up(a - b) * pow2(b),
{
    if a >= b {
        lemma_pow2_adds((a - b) as nat, b);
        assert(pow2(a) * 1 == pow2(a));
    } else {
        lemma_pow2_adds(a, (b - a) as nat);
        assert(1 * pow2(b) == pow2(b));
    }
}

/// Rounding depends on the fraction alone, not on how it is written.
pub proof fn lemma_nearest_same(num: nat, den: nat, num2: nat, den2: nat)
    requires
        den > 0,
        den2 > 0,
        num * den2 == num2 * den,
    ensures
        num::nearest(num, den) == num::nearest(num2, den2),
        num::last_place(num, den) == num::last_place(num2, den2),
{
    lemma_nearest_factor(num, den, den2);
    lemma_nearest_factor(num2, den2, den);
    assert(den * den2 == den2 * den) by (nonlinear_arith);
}

/// The last place of a significand of `len` bits, shifted.
pub proof fn lemma_shifted_last_place(m: nat, len: nat, shift: int, k: nat)
    requires
        len > 0,
        pow2((len - 1) as nat) <= m < pow2(len),
        k == if len + shift > 24 {
            len + shift - 24
        } else {
            0
        },
    ensures
        num::is_last_place(m * up(shift), down(shift), k),
{
    lemma_quotient_last_place(m, 1, len, shift, k);
    assert(1 * down(shift) == down(shift));
}

/// The rounded significand, where the place that is kept lies at or below
/// the lowest bit that is there: nothing is lost.
pub proof fn lemma_shifted_exact(m: nat, shift: int, k: nat)
    requires
        shift >= k,
    ensures
        is_half_even(m * up(shift), down(shift) * pow2(k), m * pow2((shift - k) as nat)),
{
    let n = m * pow2((shift - k) as nat);
    lemma_pow2_adds(k, (shift - k) as nat);
    let d = pow2(k);
    lemma_pow2_pos(k);
    assert(m * up(shift) == n * d) by (nonlinear_arith)
        requires
            up(shift) == d * pow2((shift - k) as nat),
            n == m * pow2((shift - k) as nat),
    ;
    assert(down(shift) * d == d) by (nonlinear_arith)
        requires
            down(shift) == 1,
    ;
    lemma_exact_half_even(n, d);
}

/// A whole number rounds to itself.
pub proof fn lemma_exact_half_even(n: nat, d: nat)
    requires
        d > 0,
    ensures
        is_half_even(n * d, d, n),
{
    assert((2 * n - 1) * d == 2 * (n * d) - d) by (nonlinear_arith);
    assert((2 * n + 1) * d == 2 * (n * d) + d) by (nonlinear_arith);
}

/// The rounded significand, where the lowest `r` bits are dropped.
pub proof fn lemma_shifted_half_even(m: nat, shift: int, k: nat, r: nat, n: nat)
    requires
        k - shift == r,
        is_half_even(m, pow2(r), n),
    ensures
        is_half_even(m * up(shift), down(shift) * pow2(k), n),
{
    if shift >= 0 {
        let c = pow2(shift as nat);
        lemma_pow2_pos(shift as nat);
        lemma_half_even_factor(m, pow2(r), c, n);
        lemma_pow2_adds(r, shift as nat);
        assert(down(shift) * pow2(k) == pow2(k)) by (nonlinear_arith)
            requires
                down(shift) == 1,
        ;
    } else {
        lemma_pow2_adds((-shift) as nat, k);
        assert(m * up(shift) == m) by (nonlinear_arith)
            requires
                up(shift) == 1,
        ;
    }
}

/// A significand that rounds at the last place is the only one that does.
pub proof fn lemma_half_even_unique_pair(num: nat, den: nat, k: nat, n: nat, n2: nat)
    requires
        den > 0,
        is_half_even(num, den * pow2(k), n),
        is_half_even(num, den * pow2(k), n2),
    ensures
        n == n2,
{
    lemma_pow2_pos(k);
    assert(den * pow2(k) > 0) by (nonlinear_arith)
        requires
            den > 0,
            pow2(k) > 0,
    ;
    lemma_half_even_unique(num, den * pow2(k), n);
    lemma_half_even_unique(num, den * pow2(k), n2);
}

/// The last place of a quotient whose whole part has `len` bits, shifted.
proof fn lemma_quotient_last_place(top: nat, d: nat, len: nat, shift: int, k: nat)
    requires
        d > 0,
        len > 0,
        pow2((len - 1) as nat) * d <= top < pow2(len) * d,
        k == if len + shift > 24 {
            len + shift - 24
        } else {
            0
        },
    ensures
        num::is_last_place(top * up(shift), d * down(shift), k),
{
    let (a, b) = (up(shift), down(shift));
    lemma_up_down(shift);
    // The bounds of the shifted last place hold of every number of `len` bits.
    lemma_pow2_pos((len - 1) as nat);
    lemma_pow2_unfold(len);
    let least = pow2((len - 1) as nat);
    lemma_bound_of_last_place(len, shift, k);
    assert(top * a < (d * b) * pow2(24 + k)) by (nonlinear_arith)
        requires
            top < pow2(len) * d,
            pow2(len) * a <= b * pow2(24 + k),
            a > 0,
            d > 0,
    ;
    if k > 0 {
        assert(top * a >= (d * b) * pow2((23 + k) as nat)) by (nonlinear_arith)
            requires
                top >= least * d,
                least * a >= b * pow2((23 + k) as nat),
                d > 0,
        ;
    }
}

proof fn lemma_bound_of_last_place(len: nat, shift: int, k: nat)
    requires
        len > 0,
        k == if len + shift > 24 {
            len + shift - 24
        } else {
            0
        },
    ensures
        pow2(len) * up(shift) <= down(shift) * pow2(24 + k),
        k > 0 ==> pow2((len - 1) as nat) * up(shift) >= down(shift) * pow2((23 + k) as nat),
{
    if shift >= 0 {
        let s = shift as nat;
        lemma_pow2_adds(len, s);
        lemma_pow2_adds((len - 1) as nat, s);
        lemma_pow2_ordered(len + s, 24 + k);
        assert(down(shift) * pow2(24 + k) == pow2(24 + k)) by (nonlinear_arith)
            requires
                down(shift) == 1,
        ;
        if k > 0 {
            assert((len - 1) as nat + s == (23 + k) as nat);
            assert(down(shift) * pow2((23 + k) as nat) == pow2((23 + k) as nat))
                by (nonlinear_arith)
                requires
                    down(shift) == 1,
            ;
        }
    } else {
        let s = (-shift) as nat;
        lemma_pow2_adds(s, 24 + k);
        lemma_pow2_ordered(len, s + (24 + k));
        assert(pow2(len) * up(shift) == pow2(len)) by (nonlinear_arith)
            requires
                up(shift) == 1,
        ;
        if k > 0 {
            lemma_pow2_adds(s, (23 + k) as nat);
            assert((len - 1) as nat == s + (23 + k) as nat);
            assert(pow2((len - 1) as nat) * up(shift) == pow2((len - 1) as nat))
                by (nonlinear_arith)
                requires
                    up(shift) == 1,
            ;
        }
    }
}

/// A quotient rounds as its whole part does, with one more bit that tells
/// whether anything is left over.
pub proof fn lemma_quotient(top: nat, d: nat, m: nat, t: int)
    requires
        d > 0,
        top / d >= pow2(26),
        m == 2 * (top / d) + if top % d != 0 {
            1int
        } else {
            0
        },
    ensures
        num::nearest(top * up(t), d * down(t)) == num::nearest(m * up(t - 1), down(t - 1)),
{
    let q = top / d;
    let rest = top % d;
    lemma_fundamental_div_mod(top as int, d as int);
    lemma_mod_bound(top as int, d as int);
    assert(d * q == q * d) by (nonlinear_arith);
    lemma_pow2_pos(26);
    let len = lemma_has_length(q);
    if len <= 26 {
        lemma_pow2_ordered(len, 26);
    }
    let k: nat = if len + t > 24 {
        (len + t - 24) as nat
    } else {
        0
    };
    // Where the bits of the quotient end.
    let least = pow2((len - 1) as nat);
    lemma_pow2_unfold(len);
    lemma_pow2_unfold(len + 1);
    assert(least * d <= q * d && q * d + d <= pow2(len) * d) by (nonlinear_arith)
        requires
            least <= q,
            q + 1 <= pow2(len),
            d > 0,
    ;
    lemma_quotient_last_place(top, d, len, t, k);
    assert((len + 1 - 1) as nat == len);
    lemma_shifted_last_place(m, len + 1, t - 1, k);
    // What is dropped.
    let r = (k - t) as nat;
    assert(r >= 1);
    let big = pow2(r);
    let half = pow2((r - 1) as nat);
    lemma_pow2_unfold(r);
    lemma_pow2_unfold(r + 1);
    lemma_pow2_pos(r);
    let n = num::half_even(m, pow2(r + 1));
    lemma_half_even(m, pow2(r + 1));
    lemma_shifted_half_even(m, t - 1, k, r + 1, n);
    let low = (2 * n - 1) * half;
    let high = (2 * n + 1) * half;
    assert((2 * n - 1) * pow2(r + 1) == 4 * low) by (nonlinear_arith)
        requires
            pow2(r + 1) == 4 * half,
            low == (2 * n - 1) * half,
    ;
    assert((2 * n + 1) * pow2(r + 1) == 4 * high) by (nonlinear_arith)
        requires
            pow2(r + 1) == 4 * half,
            high == (2 * n + 1) * half,
    ;
    assert(low <= q <= high);
    assert((2 * n - 1) * (d * big) == 2 * (low * d)) by (nonlinear_arith)
        requires
            big == 2 * half,
            low == (2 * n - 1) * half,
    ;
    assert((2 * n + 1) * (d * big) == 2 * (high * d)) by (nonlinear_arith)
        requires
            big == 2 * half,
            high == (2 * n + 1) * half,
    ;
    assert(low * d <= q * d && (low < q ==> low * d < q * d)) by (nonlinear_arith)
        requires
            low <= q,
            d > 0,
    ;
    assert(q * d <= high * d && (q < high ==> q * d + d <= high * d)) by (nonlinear_arith)
        requires
            q <= high,
            d > 0,
    ;
    assert(is_half_even(top, d * big, n));
    lemma_quotient_half_even(top, d, t, k, r, n);
    lemma_up_down(t);
    lemma_up_down(t - 1);
    assert(d * down(t) > 0) by (nonlinear_arith)
        requires
            d > 0,
            down(t) > 0,
    ;
    lemma_nearest_is(top * up(t), d * down(t), k, n);
    lemma_nearest_is(m * up(t - 1), down(t - 1), k, n);
}

/// The number of bits of a number that is not zero.
pub proof fn lemma_has_length(q: nat) -> (len: nat)
    requires
        q > 0,
    ensures
        len > 0,
        pow2((len - 1) as nat) <= q < pow2(len),
    decreases q,
{
    lemma2_to64();
    if q == 1 {
        1
    } else {
        let len = lemma_has_length(q / 2);
        lemma_pow2_unfold(len);
        lemma_pow2_unfold(len + 1);
        len + 1
    }
}

proof fn lemma_quotient_half_even(top: nat, d: nat, shift: int, k: nat, r: nat, n: nat)
    requires
        k - shift == r,
        is_half_even(top, d * pow2(r), n),
    ensures
        is_half_even(top * up(shift), (d * down(shift)) * pow2(k), n),
{
    if shift >= 0 {
        let c = pow2(shift as nat);
        lemma_pow2_pos(shift as nat);
        lemma_half_even_factor(top, d * pow2(r), c, n);
        lemma_pow2_adds(r, shift as nat);
        assert((d * pow2(r)) * c == (d * down(shift)) * pow2(k)) by (nonlinear_arith)
            requires
                down(shift) == 1,
                pow2(k) == pow2(r) * c,
        ;
    } else {
        lemma_pow2_adds((-shift) as nat, k);
        assert((d * down(shift)) * pow2(k) == d * pow2(r)) by (nonlinear_arith)
            requires
                pow2(r) == down(shift) * pow2(k),
        ;
        assert(top * up(shift) == top) by (nonlinear_arith)
            requires
                up(shift) == 1,
        ;
    }
}

/// A representable number rounds to itself.
pub proof fn lemma_exact(units: nat)
    requires
        num::is_magnitude(units),
    ensures
        num::nearest(units, 1) == units,
        forall|negative: bool|
            #[trigger] num::rounded(negative, units, 1) == (Num::Finite { negative, units }),
{
    let (n, k) = choose|n: nat, k: nat| n < pow2(24) && units == #[trigger] num::scaled(n, k);
    let p = num::last_place(units, 1);
    lemma_last_place(units, 1);
    if p > k {
        lemma_pow2_adds(24, k);
        lemma_pow2_pos(k);
        lemma_pow2_ordered(24 + k, (23 + p) as nat);
        assert(units < pow2(24 + k)) by (nonlinear_arith)
            requires
                units == n * pow2(k),
                n < pow2(24),
                pow2(24 + k) == pow2(24) * pow2(k),
                pow2(k) > 0,
        ;
    }
    assert(p <= k);
    let c = n * pow2((k - p) as nat);
    lemma_pow2_adds(p, (k - p) as nat);
    assert(units == c * pow2(p)) by (nonlinear_arith)
        requires
            units == n * pow2(k),
            c == n * pow2((k - p) as nat),
            pow2(k) == pow2(p) * pow2((k - p) as nat),
    ;
    lemma_pow2_pos(p);
    lemma_exact_half_even(c, pow2(p));
    assert(1 * pow2(p) == pow2(p));
    lemma_nearest_is(units, 1, p, c);
}

/// What rounds to a finite number rounds to a representable one.
pub proof fn lemma_rounded_representable(negative: bool, num: nat, den: nat)
    requires
        den > 0,
    ensures
        num::rounded(negative, num, den).is_representable(),
{
    let (k, n) = lemma_nearest(num, den);
    lemma2_to64();
    if n == pow2(24) {
        lemma_pow2_unfold(k + 1);
        assert(num::scaled(n, k) == num::scaled(pow2(23), k + 1)) by (nonlinear_arith)
            requires
                num::scaled(n, k) == n * pow2(k),
                num::scaled(pow2(23), k + 1) == pow2(23) * pow2(k + 1),
                pow2(k + 1) == 2 * pow2(k),
                n == 0x100_0000,
                pow2(23) == 0x80_0000,
        ;
    } else {
        assert(num::nearest(num, den) == num::scaled(n, k));
    }
}

/// A significand of up to 24 bits at a place from 0 to 253 is representable.
pub proof fn lemma_scaled_magnitude(n: nat, k: nat)
    requires
        n <= pow2(24),
        k <= 252,
    ensures
        num::is_magnitude(num::scaled(n, k)),
{
    lemma2_to64();
    lemma_pow2_unfold(k + 1);
    lemma_pow2_adds(24, k);
    lemma_pow2_pos(k);
    lemma_pow2_strictly_increases(24 + k, 277);
    assert(num::scaled(n, k) <= pow2(24 + k)) by (nonlinear_arith)
        requires
            num::scaled(n, k) == n * pow2(k),
            n <= pow2(24),
            pow2(24 + k) == pow2(24) * pow2(k),
    ;
    if n == pow2(24) {
        assert(num::scaled(n, k) == num::scaled(pow2(23), k + 1)) by (nonlinear_arith)
            requires
                num::scaled(n, k) == n * pow2(k),
                num::scaled(pow2(23), k + 1) == pow2(23) * pow2(k + 1),
                pow2(k + 1) == 2 * pow2(k),
                n == 0x100_0000,
                pow2(23) == 0x80_0000,
        ;
    }
}

/// Whole numbers up to two to the 24 are represented exactly.
pub proof fn lemma_whole_exact(n: nat)
    requires
        n <= 0x100_0000,
    ensures
        num::is_magnitude(n * num::one()),
        forall|negative: bool|
            #[trigger] num::rounded(negative, n * num::one(), 1) == (Num::Finite {
                negative,
                units: n * num::one(),
            }),
        num::whole(n) == (Num::Finite { negative: false, units: n * num::one() }),
{
    lemma2_to64();
    lemma_scaled_magnitude(n, 149);
    assert(num::scaled(n, 149) == n * num::one());
    lemma_exact(n * num::one());
    assert(num::whole(n) == num::rounded(false, n * num::one(), 1));
}

/// A larger number does not round to a smaller one.
pub proof fn lemma_nearest_monotone(num: nat, num2: nat, den: nat)
    requires
        den > 0,
        num <= num2,
    ensures
        num::nearest(num, den) <= num::nearest(num2, den),
{
    let (k, n) = lemma_nearest(num, den);
    let (k2, n2) = lemma_nearest(num2, den);
    if k == k2 {
        let d = den * pow2(k);
        lemma_pow2_pos(k);
        assert(d > 0) by (nonlinear_arith)
            requires
                den > 0,
                pow2(k) > 0,
                d == den * pow2(k),
        ;
        if n > n2 {
            assert((2 * n2 + 1) * d <= (2 * n - 1) * d) by (nonlinear_arith)
                requires
                    n2 + 1 <= n,
            ;
            if n > n2 + 1 {
                assert((2 * n2 + 1) * d < (2 * n - 1) * d) by (nonlinear_arith)
                    requires
                        n2 + 1 < n,
                        d > 0,
                ;
            }
        }
        assert(num::scaled(n, k) <= num::scaled(n2, k)) by (nonlinear_arith)
            requires
                n <= n2,
                num::scaled(n, k) == n * pow2(k),
                num::scaled(n2, k) == n2 * pow2(k),
        ;
    } else if k < k2 {
        lemma_pow2_adds(24, k);
        lemma_pow2_adds(23, k2);
        lemma_pow2_ordered(24 + k, 23 + k2);
        assert(num::scaled(n, k) <= pow2(24 + k)) by (nonlinear_arith)
            requires
                n <= pow2(24),
                num::scaled(n, k) == n * pow2(k),
                pow2(24 + k) == pow2(24) * pow2(k),
        ;
        assert(num::scaled(n2, k2) >= pow2(23 + k2)) by (nonlinear_arith)
            requires
                n2 >= pow2(23),
                num::scaled(n2, k2) == n2 * pow2(k2),
                pow2(23 + k2) == pow2(23) * pow2(k2),
        ;
    } else {
        lemma_pow2_ordered(24 + k2, (23 + k) as nat);
        assert(den * pow2(24 + k2) <= den * pow2((23 + k) as nat)) by (nonlinear_arith)
            requires
                pow2(24 + k2) <= pow2((23 + k) as nat),
        ;
    }
}

/// What is at most a representable number rounds to at most that number.
pub proof fn lemma_nearest_at_most(num: nat, den: nat, most: nat)
    requires
        den > 0,
        num <= most * den,
        num::is_magnitude(most),
    ensures
        num::nearest(num, den) <= most,
        forall|negative: bool|
            #[trigger] num::rounded(negative, num, den) == (Num::Finite {
                negative,
                units: num::nearest(num, den),
            }),
{
    lemma_nearest_monotone(num, most * den, den);
    lemma_nearest_factor(most, 1, den);
    assert(1 * den == den);
    lemma_exact(most);
}

/// Rounding adds at most one part in two to the 24 to a number that has its
/// 24 significant bits.
pub proof fn lemma_nearest_relative(num: nat, den: nat)
    requires
        den > 0,
        num >= den * 0x80_0000,
    ensures
        (num::nearest(num, den) * den) * 0x100_0000 <= num * 0x100_0001,
{
    let (k, n) = lemma_nearest(num, den);
    let d = den * pow2(k);
    lemma2_to64();
    if k > 0 {
        lemma_pow2_adds(23, k);
        assert(num >= 0x80_0000 * d) by (nonlinear_arith)
            requires
                num >= den * pow2((23 + k) as nat),
                pow2((23 + k) as nat) == 0x80_0000 * pow2(k),
                d == den * pow2(k),
        ;
    } else {
        assert(d == den) by (nonlinear_arith)
            requires
                d == den * pow2(k),
                pow2(k) == 1,
        ;
    }
    assert((2 * n - 1) * d == 2 * (n * d) - d) by (nonlinear_arith);
    assert(num::scaled(n, k) * den == n * d) by (nonlinear_arith)
        requires
            num::scaled(n, k) == n * pow2(k),
            d == den * pow2(k),
    ;
}

/// Rounding moves a number by no more than one part in two to the 24, or by
/// half a unit where it is that small.
pub proof fn lemma_nearest_error(num: nat, den: nat)
    requires
        den > 0,
    ensures
        0x100_0000 * (num::nearest(num, den) * den - num) <= num + 0x80_0000 * den,
        0x100_0000 * (num - num::nearest(num, den) * den) <= num + 0x80_0000 * den,
{
    let (k, n) = lemma_nearest(num, den);
    let p = pow2(k);
    let d = den * p;
    lemma2_to64();
    lemma_pow2_pos(k);
    let r = num::nearest(num, den);
    assert(r * den == n * d) by (nonlinear_arith)
        requires
            r == n * p,
            d == den * p,
    ;
    assert((2 * n - 1) * d == 2 * (n * d) - d && (2 * n + 1) * d == 2 * (n * d) + d)
        by (nonlinear_arith);
    if k > 0 {
        lemma_pow2_adds(23, k);
        assert(num >= 0x80_0000 * d) by (nonlinear_arith)
            requires
                num >= den * pow2((23 + k) as nat),
                pow2((23 + k) as nat) == 0x80_0000 * p,
                d == den * p,
        ;
        assert(d >= 0) by (nonlinear_arith)
            requires
                d == den * p,
        ;
    } else {
        assert(d == den) by (nonlinear_arith)
            requires
                d == den * p,
                p == 1,
        ;
    }
}

/// A number halfway between two whole ones is rounded to the even one.
pub proof fn lemma_ties_go_to_even(n: nat, den: nat)
    requires
        den > 0,
    ensures
        num::half_even((2 * n + 1) * den, 2 * den) % 2 == 0,
        n <= num::half_even((2 * n + 1) * den, 2 * den) <= n + 1,
{
    assert((2 * n + 1) * den == n * (2 * den) + den) by (nonlinear_arith);
    lemma_fundamental_div_mod_converse(
        ((2 * n + 1) * den) as int,
        (2 * den) as int,
        n as int,
        den as int,
    );
}

} // verus!

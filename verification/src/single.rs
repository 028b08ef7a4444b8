//! Single-precision numbers, held as their bit patterns and computed with in
//! whole numbers.

use crate::num;
use crate::num::Num;
use crate::rounding;
use vstd::arithmetic::div_mod::*;
use vstd::arithmetic::power2::*;
use vstd::prelude::*;

verus! {

/// The value that a bit pattern stands for: one bit of sign, eight of
/// exponent and 23 of fraction.
pub open spec fn decode(bits: u32) -> Num {
    let negative = bits >= 0x8000_0000;
    let exponent = (bits / 0x80_0000) % 0x100;
    let fraction = (bits % 0x80_0000) as nat;
    if exponent == 0xff {
        if fraction == 0 {
            Num::Infinite { negative }
        } else {
            Num::Nan
        }
    } else if exponent == 0 {
        Num::Finite { negative, units: fraction }
    } else {
        Num::Finite {
            negative,
            units: num::scaled(fraction + 0x80_0000, (exponent - 1) as nat),
        }
    }
}

/// A single-precision number.
#[derive(Clone, Copy, Debug)]
pub struct Single {
    pub bits: u32,
}

impl View for Single {
    type V = Num;

    open spec fn view(&self) -> Num {
        decode(self.bits)
    }
}

/// The number of bits of `m`, which is not zero.
fn bit_length(m: u64) -> (len: u32)
    requires
        m > 0,
    ensures
        1 <= len <= 64,
        pow2((len - 1) as nat) <= m < pow2(len as nat),
{
    proof {
        lemma_bit_length(m);
    }
    64 - m.leading_zeros()
}

proof fn lemma_bit_length(m: u64)
    requires
        m > 0,
    ensures
        ({
            let len = 64 - vstd::std_specs::bits::u64_leading_zeros(m);
            &&& 1 <= len <= 64
            &&& pow2((len - 1) as nat) <= m < pow2(len as nat)
        }),
    decreases m,
{
    reveal_with_fuel(vstd::std_specs::bits::u64_leading_zeros, 2);
    vstd::std_specs::bits::axiom_u64_leading_zeros(m);
    lemma2_to64();
    if m >= 2 {
        lemma_bit_length(m / 2);
        let len = 64 - vstd::std_specs::bits::u64_leading_zeros(m);
        lemma_pow2_unfold((len - 1) as nat);
        lemma_pow2_unfold(len as nat);
    }
}

/// `m` without its lowest `r` bits, rounded, ties to even.
fn drop_bits(m: u64, r: u32) -> (n: u64)
    requires
        0 < r,
        r >= 63 ==> m < 0x4000_0000_0000_0000,
    ensures
        n == num::half_even(m as nat, pow2(r as nat)),
{
    if r >= 63 {
        proof {
            lemma2_to64_rest();
            rounding::lemma_pow2_ordered(63, r as nat);
            lemma_small_mod(m as nat, pow2(r as nat));
            lemma_basic_div(m as int, pow2(r as nat) as int);
        }
        0
    } else {
        proof {
            lemma_pow2_pos(r as nat);
            vstd::bits::lemma_u64_shr_is_div(m, r as u64);
            lemma_fundamental_div_mod(m as int, pow2(r as nat) as int);
            lemma_pow2_unfold(r as nat);
            lemma_mod_bound(m as int, pow2(r as nat) as int);
            lemma2_to64_rest();
            rounding::lemma_pow2_ordered((r - 1) as nat, 62);
            assert(1 * pow2((r - 1) as nat) == pow2((r - 1) as nat));
            vstd::bits::lemma_u64_shl_is_mul(1, (r - 1) as u64);
        }
        let low: u64 = m >> r;
        let half: u64 = 1u64 << (r - 1);
        proof {
            let p = pow2(r as nat) as int;
            assert(low * p == p * (m as int / p)) by (nonlinear_arith)
                requires
                    low == m as int / p,
            ;
            assert(low < 0x8000_0000_0000_0000) by (nonlinear_arith)
                requires
                    low * p <= m,
                    p >= 2,
                    m <= u64::MAX,
            ;
            assert(low as nat * pow2(r as nat) == low * p);
            vstd::bits::lemma_u64_shl_is_mul(low, r as u64);
        }
        let rest: u64 = m - (low << r);
        if rest < half || (rest == half && low % 2 == 0) {
            low
        } else {
            low + 1
        }
    }
}

/// The significand `n` at the place `k`, written in the bits of exponent and
/// fraction: the carry out of the fraction falls into the exponent.
proof fn lemma_encoded(negative: bool, n: nat, k: nat, bits: u32)
    requires
        n <= 0x100_0000,
        k > 0 ==> n >= 0x80_0000,
        k <= 253,
        bits == k * 0x80_0000 + n + if negative {
            0x8000_0000int
        } else {
            0
        },
    ensures
        decode(bits) == if num::scaled(n, k) < num::past_finite() {
            Num::Finite { negative, units: num::scaled(n, k) }
        } else {
            Num::Infinite { negative }
        },
{
    lemma2_to64();
    lemma_pow2_adds(24, k);
    lemma_pow2_adds(23, k + 1);
    lemma_pow2_pos(k);
    rounding::lemma_pow2_ordered(24 + k, 277);
    assert(num::scaled(n, k) <= pow2(24 + k)) by (nonlinear_arith)
        requires
            n <= 0x100_0000,
            num::scaled(n, k) == n * pow2(k),
            pow2(24 + k) == 0x100_0000 * pow2(k),
    ;
    if n < 0x100_0000 {
        assert(num::scaled(n, k) < pow2(24 + k)) by (nonlinear_arith)
            requires
                n < 0x100_0000,
                num::scaled(n, k) == n * pow2(k),
                pow2(24 + k) == 0x100_0000 * pow2(k),
                pow2(k) > 0,
        ;
        if n < 0x80_0000 {
            assert(k == 0);
            assert(num::scaled(n, 0) == n) by (nonlinear_arith)
                requires
                    num::scaled(n, 0) == n * pow2(0),
                    pow2(0) == 1,
            ;
        }
    } else {
        assert(24 + k == 23 + (k + 1));
        assert(num::scaled(0x80_0000, k + 1) == pow2(24 + k));
        assert(num::scaled(0x100_0000, k) == pow2(24 + k));
        if k < 253 {
            lemma_pow2_strictly_increases(24 + k, 277);
        }
    }
}

/// The number `m` shifted by `shift` bits, in units, rounded.
fn pack(negative: bool, m: u64, shift: i32) -> (r: Single)
    requires
        -1000 <= shift <= 1000,
        shift < 0 ==> m < 0x4000_0000_0000_0000,
    ensures
        r@ == num::rounded(
            negative,
            m as nat * rounding::up(shift as int),
            rounding::down(shift as int),
        ),
{
    let sign: u32 = if negative {
        0x8000_0000
    } else {
        0
    };
    let ghost magnitude = m as nat * rounding::up(shift as int);
    let ghost den = rounding::down(shift as int);
    proof {
        rounding::lemma_up_down(shift as int);
    }
    if m == 0 {
        proof {
            assert(magnitude == 0) by (nonlinear_arith)
                requires
                    magnitude == m as nat * rounding::up(shift as int),
                    m == 0,
            ;
            lemma_pow2_pos(24);
            assert(den * pow2(24) > 0) by (nonlinear_arith)
                requires
                    den > 0,
                    pow2(24) > 0,
            ;
            assert(num::is_last_place(0, den, 0));
            lemma_pow2_pos(0);
            assert(den * pow2(0) > 0) by (nonlinear_arith)
                requires
                    den > 0,
                    pow2(0) > 0,
            ;
            rounding::lemma_exact_half_even(0, den * pow2(0));
            rounding::lemma_nearest_is(0, den, 0, 0);
            lemma_encoded(negative, 0, 0, sign);
        }
        return Single { bits: sign };
    }
    let len: i32 = bit_length(m) as i32;
    let k: i32 = if len + shift > 24 {
        len + shift - 24
    } else {
        0
    };
    proof {
        rounding::lemma_shifted_last_place(m as nat, len as nat, shift as int, k as nat);
    }
    let n: u64;
    if shift >= k {
        proof {
            lemma2_to64();
            lemma_shifted_small(m as nat, len as nat, (shift - k) as nat);
            rounding::lemma_shifted_exact(m as nat, shift as int, k as nat);
            vstd::bits::lemma_u64_shl_is_mul(m, (shift - k) as u64);
        }
        n = m << ((shift - k) as u32);
    } else {
        let r: u32 = (k - shift) as u32;
        n = drop_bits(m, r);
        proof {
            lemma_pow2_pos(r as nat);
            rounding::lemma_half_even(m as nat, pow2(r as nat));
            rounding::lemma_shifted_half_even(
                m as nat,
                shift as int,
                k as nat,
                r as nat,
                n as nat,
            );
        }
    }
    proof {
        rounding::lemma_nearest_is(magnitude, den, k as nat, n as nat);
        let (k2, n2) = rounding::lemma_nearest(magnitude, den);
        rounding::lemma_last_place(magnitude, den);
        rounding::lemma_half_even_unique_pair(magnitude, den, k as nat, n as nat, n2);
        lemma2_to64();
    }
    if k > 253 {
        proof {
            lemma_pow2_adds(23, k as nat);
            rounding::lemma_pow2_ordered(277, (23 + k) as nat);
            assert(num::scaled(n as nat, k as nat) >= pow2((23 + k) as nat)) by (nonlinear_arith)
                requires
                    n >= pow2(23),
                    num::scaled(n as nat, k as nat) == n as nat * pow2(k as nat),
                    pow2((23 + k) as nat) == pow2(23) * pow2(k as nat),
            ;
        }
        return Single { bits: sign + 0x7f80_0000 };
    }
    let bits: u32 = sign + (k as u32) * 0x80_0000 + n as u32;
    proof {
        lemma_encoded(negative, n as nat, k as nat, bits);
    }
    Single { bits }
}

/// A number of `len` bits that ends at or below the 24th place when shifted
/// fits in 24 bits.
proof fn lemma_shifted_small(m: nat, len: nat, d: nat)
    requires
        m < pow2(len),
        len + d <= 24,
    ensures
        m * pow2(d) < pow2(24),
{
    lemma_pow2_pos(d);
    lemma_pow2_adds(len, d);
    rounding::lemma_pow2_ordered(len + d, 24);
    assert(m * pow2(d) < pow2(len + d)) by (nonlinear_arith)
        requires
            m < pow2(len),
            pow2(d) > 0,
            pow2(len + d) == pow2(len) * pow2(d),
    ;
}

/// The significand and the place of a finite number.
pub struct Parts {
    pub negative: bool,
    pub significand: u64,
    pub place: u32,
}

impl Parts {
    pub open spec fn of(self, value: Num) -> bool {
        &&& self.significand < 0x100_0000
        &&& self.place <= 253
        &&& self.place > 0 ==> self.significand >= 0x80_0000
        &&& value == Num::Finite {
            negative: self.negative,
            units: num::scaled(self.significand as nat, self.place as nat),
        }
    }
}

impl Single {
    fn is_nan(&self) -> (r: bool)
        ensures
            r == (self@ is Nan),
    {
        (self.bits / 0x80_0000) % 0x100 == 0xff && self.bits % 0x80_0000 != 0
    }

    fn is_infinite(&self) -> (r: bool)
        ensures
            r == (self@ is Infinite),
    {
        (self.bits / 0x80_0000) % 0x100 == 0xff && self.bits % 0x80_0000 == 0
    }

    fn is_negative(&self) -> (r: bool)
        ensures
            self@.is_number() ==> r == self@.sign(),
    {
        self.bits >= 0x8000_0000
    }

    /// Significand and place of a finite number.
    fn parts(&self) -> (r: Parts)
        requires
            self@ is Finite,
        ensures
            r.of(self@),
    {
        let negative: bool = self.bits >= 0x8000_0000;
        let exponent: u32 = (self.bits / 0x80_0000) % 0x100;
        let fraction: u64 = (self.bits % 0x80_0000) as u64;
        if exponent == 0 {
            proof {
                lemma2_to64();
                assert(num::scaled(fraction as nat, 0) == fraction) by (nonlinear_arith)
                    requires
                        num::scaled(fraction as nat, 0) == fraction as nat * pow2(0),
                        pow2(0) == 1,
                ;
            }
            Parts { negative, significand: fraction, place: 0 }
        } else {
            Parts { negative, significand: fraction + 0x80_0000, place: exponent - 1 }
        }
    }
}

/// A sum keeps its larger part unchanged where the smaller one is too small
/// to count.
proof fn lemma_absorbed(n: nat, k: nat, rest: int)
    requires
        0x80_0000 <= n < 0x100_0000,
        k >= 2,
        -pow2((k - 2) as nat) < rest < pow2((k - 2) as nat),
    ensures
        num::scaled(n, k) + rest > 0,
        num::nearest((num::scaled(n, k) + rest) as nat, 1) == num::scaled(n, k),
{
    let u = num::scaled(n, k);
    let v = (u + rest) as nat;
    let q = pow2((k - 2) as nat);
    lemma2_to64();
    lemma_pow2_pos((k - 2) as nat);
    lemma_pow2_adds((k - 2) as nat, 1);
    lemma_pow2_adds((k - 2) as nat, 2);
    lemma_pow2_adds(24, k);
    lemma_pow2_adds(23, k);
    lemma_pow2_adds(22, k);
    let p = pow2(k);
    assert(p == 4 * q);
    assert(0x80_0000 * p <= u <= 0xff_ffff * p) by (nonlinear_arith)
        requires
            u == n * p,
            0x80_0000 <= n < 0x100_0000,
    ;
    if u + rest >= 0x80_0000 * p {
        assert(num::is_last_place(v, 1, k));
        assert((2 * n - 1) * (1 * p) == 2 * u - p) by (nonlinear_arith)
            requires
                u == n * p,
        ;
        assert((2 * n + 1) * (1 * p) == 2 * u + p) by (nonlinear_arith)
            requires
                u == n * p,
        ;
        rounding::lemma_nearest_is(v, 1, k, n);
    } else {
        assert(n == 0x80_0000) by (nonlinear_arith)
            requires
                u == n * p,
                u + rest < 0x80_0000 * p,
                -p < rest,
                0x80_0000 <= n,
        ;
        let j = (k - 1) as nat;
        let h = pow2(j);
        assert(h == 2 * q);
        assert(24 + j == 23 + k);
        assert((23 + j) as nat == 22 + k);
        assert(num::is_last_place(v, 1, j));
        let m: nat = 0x100_0000;
        assert((2 * m - 1) * (1 * h) == 2 * u - h) by (nonlinear_arith)
            requires
                m == 0x100_0000,
                u == 0x80_0000 * p,
                p == 2 * h,
        ;
        assert((2 * m + 1) * (1 * h) == 2 * u + h) by (nonlinear_arith)
            requires
                m == 0x100_0000,
                u == 0x80_0000 * p,
                p == 2 * h,
        ;
        rounding::lemma_nearest_is(v, 1, j, m);
        assert(num::scaled(m, j) == u) by (nonlinear_arith)
            requires
                num::scaled(m, j) == m * h,
                m == 0x100_0000,
                u == 0x80_0000 * p,
                p == 2 * h,
        ;
    }
}

/// Where the places of two numbers lie far apart, their sum is the larger.
proof fn lemma_far_apart(high: Parts, x: Num, low: Parts, y: Num)
    requires
        high.of(x),
        low.of(y),
        high.place >= low.place + 26,
    ensures
        x.plus(y) == x,
        y.plus(x) == x,
{
    let k = high.place as nat;
    let n = high.significand as nat;
    let u = num::scaled(n, k);
    let v = num::scaled(low.significand as nat, low.place as nat);
    lemma2_to64();
    lemma_pow2_adds(24, low.place as nat);
    rounding::lemma_pow2_ordered(24 + low.place as nat, (k - 2) as nat);
    assert(v < pow2((k - 2) as nat)) by (nonlinear_arith)
        requires
            v == low.significand as nat * pow2(low.place as nat),
            low.significand < 0x100_0000,
            0x100_0000 * pow2(low.place as nat) <= pow2((k - 2) as nat),
            pow2(low.place as nat) > 0,
    ;
    lemma_absorbed(n, k, v as int);
    lemma_absorbed(n, k, -v);
    lemma_pow2_adds(24, k);
    lemma_pow2_pos(k);
    rounding::lemma_pow2_ordered(24 + k, 277);
    assert(u < pow2(24 + k)) by (nonlinear_arith)
        requires
            u == n * pow2(k),
            n < 0x100_0000,
            pow2(24 + k) == 0x100_0000 * pow2(k),
            pow2(k) > 0,
    ;
}

/// Nothing rounds to nothing.
proof fn lemma_zero(negative: bool)
    ensures
        num::rounded(negative, 0, 1) == (Num::Finite { negative, units: 0 }),
        decode(0) == (Num::Finite { negative: false, units: 0 }),
        decode(0x8000_0000) == (Num::Finite { negative: true, units: 0 }),
{
    lemma2_to64();
    lemma_pow2_pos(277);
    rounding::lemma_exact_half_even(0, 1);
    rounding::lemma_nearest_is(0, 1, 0, 0);
    assert(num::scaled(0, 0) == 0);
}

fn zero(negative: bool) -> (r: Single)
    ensures
        r@ == (Num::Finite { negative, units: 0 }),
{
    proof {
        lemma_zero(negative);
    }
    if negative {
        Single { bits: 0x8000_0000 }
    } else {
        Single { bits: 0 }
    }
}

fn nan() -> (r: Single)
    ensures
        r@ == Num::Nan,
{
    Single { bits: 0x7fc0_0000 }
}

fn infinity(negative: bool) -> (r: Single)
    ensures
        r@ == (Num::Infinite { negative }),
{
    if negative {
        Single { bits: 0xff80_0000 }
    } else {
        Single { bits: 0x7f80_0000 }
    }
}

/// The sum of two finite numbers whose places lie close together.
fn near_sum(high: Parts, low: Parts, Ghost(x): Ghost<Num>, Ghost(y): Ghost<Num>) -> (r: Single)
    requires
        high.of(x),
        low.of(y),
        low.place <= high.place < low.place + 26,
    ensures
        r@ == x.plus(y),
{
    let gap: u32 = high.place - low.place;
    let ghost p = pow2(low.place as nat);
    proof {
        lemma2_to64();
        rounding::lemma_pow2_ordered(gap as nat, 25);
        assert(high.significand as nat * pow2(gap as nat) < 0x2_0000_0000_0000) by (nonlinear_arith)
            requires
                high.significand < 0x100_0000,
                0 < pow2(gap as nat) <= 0x200_0000,
        ;
        vstd::bits::lemma_u64_shl_is_mul(high.significand, gap as u64);
        lemma_pow2_adds(gap as nat, low.place as nat);
        lemma_pow2_pos(low.place as nat);
    }
    let a: u64 = high.significand << gap;
    let b: u64 = low.significand;
    let shift: i32 = low.place as i32;
    proof {
        assert(num::scaled(high.significand as nat, high.place as nat) == a * p) by (nonlinear_arith)
            requires
                num::scaled(high.significand as nat, high.place as nat)
                    == high.significand as nat * (pow2(gap as nat) * p),
                a == high.significand as nat * pow2(gap as nat),
        ;
        assert(num::scaled(low.significand as nat, low.place as nat) == b * p);
        assert((a + b) * p == a * p + b * p) by (nonlinear_arith);
        assert((a - b) * p == a * p - b * p) by (nonlinear_arith);
        assert((b - a) * p == b * p - a * p) by (nonlinear_arith);
        assert((a + b == 0 ==> (a + b) * p == 0) && (a + b > 0 ==> (a + b) * p > 0)
            && (a == b ==> (a - b) * p == 0) && (a > b ==> (a - b) * p > 0) && (b > a ==> (b - a)
            * p > 0)) by (nonlinear_arith)
            requires
                p > 0,
        ;
    }
    if high.negative == low.negative {
        if a + b == 0 {
            zero(high.negative)
        } else {
            pack(high.negative, a + b, shift)
        }
    } else if a > b {
        pack(high.negative, a - b, shift)
    } else if b > a {
        pack(low.negative, b - a, shift)
    } else {
        zero(false)
    }
}

impl Single {
    /// `self + other`
    pub fn plus(&self, other: &Single) -> (r: Single)
        ensures
            r@ == self@.plus(other@),
    {
        if self.is_nan() || other.is_nan() {
            return nan();
        }
        if self.is_infinite() {
            if other.is_infinite() && self.is_negative() != other.is_negative() {
                return nan();
            }
            return *self;
        }
        if other.is_infinite() {
            return *other;
        }
        let a = self.parts();
        let b = other.parts();
        if a.place >= b.place {
            if a.place - b.place >= 26 {
                proof {
                    lemma_far_apart(a, self@, b, other@);
                }
                *self
            } else {
                near_sum(a, b, Ghost(self@), Ghost(other@))
            }
        } else if b.place - a.place >= 26 {
            proof {
                lemma_far_apart(b, other@, a, self@);
            }
            *other
        } else {
            near_sum(b, a, Ghost(other@), Ghost(self@))
        }
    }
}

/// A product of significands, shifted, rounds as the product does.
proof fn lemma_product(a: Parts, x: Num, b: Parts, y: Num, m: nat, shift: int)
    requires
        a.of(x),
        b.of(y),
        m == a.significand * b.significand,
        shift == a.place + b.place - 149,
    ensures
        x.times(y) == num::rounded(
            a.negative != b.negative,
            m * rounding::up(shift),
            rounding::down(shift),
        ),
{
    let u = num::scaled(a.significand as nat, a.place as nat);
    let v = num::scaled(b.significand as nat, b.place as nat);
    let p = pow2((a.place + b.place) as nat);
    lemma_pow2_adds(a.place as nat, b.place as nat);
    lemma_pow2_pos(149);
    rounding::lemma_up_down(shift);
    rounding::lemma_shift_is_quotient((a.place + b.place) as nat, 149);
    assert(u * v == m * p) by (nonlinear_arith)
        requires
            u == a.significand as nat * pow2(a.place as nat),
            v == b.significand as nat * pow2(b.place as nat),
            p == pow2(a.place as nat) * pow2(b.place as nat),
            m == a.significand * b.significand,
    ;
    let (hi, lo) = (rounding::up(shift), rounding::down(shift));
    assert((u * v) * lo == (m * hi) * num::one()) by (nonlinear_arith)
        requires
            u * v == m * p,
            p * lo == hi * num::one(),
    ;
    rounding::lemma_nearest_same(u * v, num::one(), m * hi, lo);
}

/// A quotient of significands, taken to 37 bits and one more that tells
/// whether anything is left over, rounds as the quotient does.
proof fn lemma_ratio(a: Parts, x: Num, b: Parts, y: Num, j: nat, top: nat, m: nat, shift: int)
    requires
        a.of(x),
        b.of(y),
        a.significand > 0,
        b.significand > 0,
        top == a.significand as nat * pow2(j) * pow2(37),
        top >= pow2(60),
        m == 2 * (top / (b.significand as nat)) + if top % (b.significand as nat) != 0 {
            1int
        } else {
            0
        },
        shift == a.place - j + 111 - b.place,
    ensures
        x.over(y) == num::rounded(
            a.negative != b.negative,
            m * rounding::up(shift),
            rounding::down(shift),
        ),
{
    let u = num::scaled(a.significand as nat, a.place as nat);
    let v = num::scaled(b.significand as nat, b.place as nat);
    let d = b.significand as nat;
    let t = shift + 1;
    lemma2_to64();
    lemma2_to64_rest();
    assert(top / d >= pow2(26)) by (nonlinear_arith)
        requires
            top >= 0x1000_0000_0000_0000,
            0 < d < 0x100_0000,
            pow2(26) == 0x400_0000,
    ;
    rounding::lemma_quotient(top, d, m, t);
    // Both ways of writing the quotient are the same fraction.
    let ap = pow2(a.place as nat);
    let bp = pow2(b.place as nat);
    lemma_pow2_pos(a.place as nat);
    lemma_pow2_pos(b.place as nat);
    lemma_pow2_adds(a.place as nat, 149);
    lemma_pow2_adds(b.place as nat, j + 37);
    lemma_pow2_adds(j, 37);
    let e1 = (a.place + 149) as nat;
    let e2 = (b.place + j + 37) as nat;
    assert(b.place as nat + (j + 37) == e2);
    assert(t == e1 - e2);
    rounding::lemma_shift_is_quotient(e1, e2);
    rounding::lemma_up_down(t);
    let (hi, lo) = (rounding::up(t), rounding::down(t));
    let sig = a.significand as nat;
    let jp = pow2(j) * pow2(37);
    assert((u * num::one()) * (d * lo) == (top * hi) * v) by {
        assert(u * num::one() == sig * pow2(e1)) by (nonlinear_arith)
            requires
                u == sig * ap,
                pow2(e1) == ap * num::one(),
        ;
        assert(top == sig * jp) by (nonlinear_arith)
            requires
                top == sig * pow2(j) * pow2(37),
                jp == pow2(j) * pow2(37),
        ;
        assert((sig * pow2(e1)) * (d * lo) == (sig * d) * (pow2(e1) * lo)) by (nonlinear_arith);
        assert((top * hi) * v == (sig * d) * (hi * pow2(e2))) by (nonlinear_arith)
            requires
                top == sig * jp,
                v == d * bp,
                pow2(e2) == bp * jp,
        ;
    }
    assert(v > 0 && d * lo > 0) by (nonlinear_arith)
        requires
            v == d * bp,
            bp > 0,
            d > 0,
            lo > 0,
    ;
    rounding::lemma_nearest_same(u * num::one(), v, top * hi, d * lo);
}

impl Single {
    /// `-self`
    pub fn negated(&self) -> (r: Single)
        ensures
            r@ == self@.negated(),
    {
        if self.bits >= 0x8000_0000 {
            Single { bits: self.bits - 0x8000_0000 }
        } else {
            Single { bits: self.bits + 0x8000_0000 }
        }
    }

    /// `self - other`
    pub fn minus(&self, other: &Single) -> (r: Single)
        ensures
            r@ == self@.minus(other@),
    {
        self.plus(&other.negated())
    }

    /// `self * other`
    pub fn times(&self, other: &Single) -> (r: Single)
        ensures
            r@ == self@.times(other@),
    {
        if self.is_nan() || other.is_nan() {
            return nan();
        }
        let negative: bool = self.is_negative() != other.is_negative();
        if self.is_infinite() || other.is_infinite() {
            proof {
                lemma_pow2_pos(277);
            }
            if self.is_zero() || other.is_zero() {
                return nan();
            }
            return infinity(negative);
        }
        let a = self.parts();
        let b = other.parts();
        assert(a.significand * b.significand < 0x1_0000_0000_0000) by (nonlinear_arith)
            requires
                a.significand < 0x100_0000,
                b.significand < 0x100_0000,
        ;
        let m: u64 = a.significand * b.significand;
        let shift: i32 = a.place as i32 + b.place as i32 - 149;
        proof {
            lemma_product(a, self@, b, other@, m as nat, shift as int);
        }
        pack(negative, m, shift)
    }

    /// `self / other`
    pub fn over(&self, other: &Single) -> (r: Single)
        ensures
            r@ == self@.over(other@),
    {
        if self.is_nan() || other.is_nan() {
            return nan();
        }
        let negative: bool = self.is_negative() != other.is_negative();
        if self.is_infinite() {
            if other.is_infinite() {
                return nan();
            }
            return infinity(negative);
        }
        if other.is_infinite() {
            return zero(negative);
        }
        if other.is_zero() {
            if self.is_zero() {
                return nan();
            }
            return infinity(negative);
        }
        if self.is_zero() {
            proof {
                lemma_nothing_over(negative, other@->Finite_units);
            }
            return zero(negative);
        }
        let a = self.parts();
        let b = other.parts();
        proof {
            lemma_scaled_zero(a.significand as nat, a.place as nat);
            lemma_scaled_zero(b.significand as nat, b.place as nat);
            lemma2_to64();
            lemma2_to64_rest();
        }
        let len: u32 = bit_length(a.significand);
        proof {
            if len > 24 {
                rounding::lemma_pow2_ordered(24, (len - 1) as nat);
            }
        }
        let j: u32 = 24 - len;
        proof {
            let sig = a.significand as nat;
            lemma_shifted_small(sig, len as nat, j as nat);
            lemma_pow2_adds((len - 1) as nat, j as nat);
            lemma_pow2_pos(j as nat);
            assert(sig * pow2(j as nat) >= pow2(23)) by (nonlinear_arith)
                requires
                    sig >= pow2((len - 1) as nat),
                    pow2(23) == pow2((len - 1) as nat) * pow2(j as nat),
            ;
            vstd::bits::lemma_u64_shl_is_mul(a.significand, j as u64);
        }
        let x: u64 = a.significand << j;
        proof {
            vstd::bits::lemma_u64_shl_is_mul(x, 37);
        }
        let top: u64 = x << 37u32;
        let q: u64 = top / b.significand;
        let rest: u64 = top % b.significand;
        assert(q <= top) by (nonlinear_arith)
            requires
                q == top / b.significand,
                b.significand > 0,
        ;
        let m: u64 = 2 * q + if rest != 0 {
            1
        } else {
            0
        };
        let shift: i32 = a.place as i32 - j as i32 + 111 - b.place as i32;
        proof {
            lemma_ratio(
                a,
                self@,
                b,
                other@,
                j as nat,
                top as nat,
                m as nat,
                shift as int,
            );
        }
        pack(negative, m, shift)
    }

    fn is_zero(&self) -> (r: bool)
        ensures
            r == (self@ matches Num::Finite { units, .. } && units == 0),
    {
        proof {
            let exponent = (self.bits / 0x80_0000) % 0x100;
            if 0 < exponent < 0xff {
                lemma_scaled_zero(
                    (self.bits % 0x80_0000) as nat + 0x80_0000,
                    (exponent - 1) as nat,
                );
            }
        }
        self.bits % 0x8000_0000 == 0
    }
}

/// A scaled significand is zero only where the significand is.
proof fn lemma_scaled_zero(n: nat, k: nat)
    ensures
        num::scaled(n, k) == 0 <==> n == 0,
{
    lemma_pow2_pos(k);
    assert(n * pow2(k) == 0 <==> n == 0) by (nonlinear_arith)
        requires
            pow2(k) > 0,
    ;
}

proof fn lemma_nothing_over(negative: bool, v: nat)
    requires
        v > 0,
    ensures
        num::rounded(negative, 0 * num::one(), v) == (Num::Finite { negative, units: 0 }),
{
    assert(0 * num::one() == 0);
    lemma_zero(negative);
    rounding::lemma_nearest_same(0, v, 0, 1);
}

/// The magnitude bits order numbers as their sizes do.
proof fn lemma_magnitude_order(a: u32, b: u32)
    requires
        a < b <= 0x7f80_0000,
    ensures
        decode(a).signed() < decode(b).signed(),
{
    let (ea, fa) = ((a / 0x80_0000) as nat, (a % 0x80_0000) as nat);
    let (eb, fb) = ((b / 0x80_0000) as nat, (b % 0x80_0000) as nat);
    lemma2_to64();
    assert(ea < 255 && eb <= 255);
    if ea == eb {
        if ea > 0 {
            let p = pow2((ea - 1) as nat);
            lemma_pow2_pos((ea - 1) as nat);
            assert(num::scaled(fa + 0x80_0000, (ea - 1) as nat) < num::scaled(
                fb + 0x80_0000,
                (eb - 1) as nat,
            )) by (nonlinear_arith)
                requires
                    num::scaled(fa + 0x80_0000, (ea - 1) as nat) == (fa + 0x80_0000) * p,
                    num::scaled(fb + 0x80_0000, (eb - 1) as nat) == (fb + 0x80_0000) * p,
                    fa < fb,
                    p > 0,
            ;
        }
    } else {
        assert(ea < eb);
        lemma_pow2_adds(23, (eb - 1) as nat);
        let least = pow2(23 + (eb - 1) as nat);
        rounding::lemma_pow2_ordered(23, 23 + (eb - 1) as nat);
        if eb < 255 {
            assert(num::scaled(fb + 0x80_0000, (eb - 1) as nat) >= least) by (nonlinear_arith)
                requires
                    num::scaled(fb + 0x80_0000, (eb - 1) as nat) == (fb + 0x80_0000) * pow2(
                        (eb - 1) as nat,
                    ),
                    least == 0x80_0000 * pow2((eb - 1) as nat),
            ;
        } else {
            assert(least == pow2(277));
        }
        if ea > 0 {
            lemma_pow2_adds(24, (ea - 1) as nat);
            lemma_pow2_pos((ea - 1) as nat);
            rounding::lemma_pow2_ordered(24 + (ea - 1) as nat, 23 + (eb - 1) as nat);
            assert(num::scaled(fa + 0x80_0000, (ea - 1) as nat) < pow2(24 + (ea - 1) as nat))
                by (nonlinear_arith)
                requires
                    num::scaled(fa + 0x80_0000, (ea - 1) as nat) == (fa + 0x80_0000) * pow2(
                        (ea - 1) as nat,
                    ),
                    fa < 0x80_0000,
                    pow2(24 + (ea - 1) as nat) == 0x100_0000 * pow2((ea - 1) as nat),
                    pow2((ea - 1) as nat) > 0,
            ;
        }
    }
}

/// Sign and magnitude bits tell the value.
proof fn lemma_sign_and_magnitude(bits: u32)
    ensures
        ({
            let magnitude = (bits % 0x8000_0000) as u32;
            &&& decode(bits) is Nan <==> magnitude > 0x7f80_0000
            &&& bits >= 0x8000_0000 ==> decode(bits) == decode(magnitude).negated()
            &&& bits < 0x8000_0000 ==> magnitude == bits
            &&& magnitude > 0x7f80_0000 || decode(magnitude).signed() >= 0
            &&& decode(0).signed() == 0
        }),
{
    lemma_zero(false);
    lemma_pow2_pos(277);
}

/// A value that is a number has one bit pattern.
pub proof fn lemma_one_pattern(a: u32, b: u32)
    requires
        decode(a) == decode(b),
        decode(a).is_number(),
    ensures
        a == b,
{
    lemma_sign_and_magnitude(a);
    lemma_sign_and_magnitude(b);
    let (x, y) = ((a % 0x8000_0000) as u32, (b % 0x8000_0000) as u32);
    if x < y {
        lemma_magnitude_order(x, y);
    } else if y < x {
        lemma_magnitude_order(y, x);
    }
}

/// What a bit pattern stands for is representable.
pub proof fn lemma_decoded_representable(bits: u32)
    ensures
        decode(bits).is_representable(),
{
    lemma2_to64();
    let exponent = (bits / 0x80_0000) % 0x100;
    let fraction = (bits % 0x80_0000) as nat;
    if exponent == 0 {
        rounding::lemma_scaled_magnitude(fraction, 0);
        assert(num::scaled(fraction, 0) == fraction) by (nonlinear_arith)
            requires
                num::scaled(fraction, 0) == fraction * pow2(0),
                pow2(0) == 1,
        ;
    } else if exponent < 0xff {
        let n = fraction + 0x80_0000;
        let k = (exponent - 1) as nat;
        lemma_pow2_adds(24, k);
        lemma_pow2_pos(k);
        rounding::lemma_pow2_ordered(24 + k, 277);
        assert(num::scaled(n, k) < pow2(24 + k)) by (nonlinear_arith)
            requires
                num::scaled(n, k) == n * pow2(k),
                n < 0x100_0000,
                pow2(24 + k) == 0x100_0000 * pow2(k),
                pow2(k) > 0,
        ;
    }
}

impl Single {
    /// `self < other`
    pub fn below(&self, other: &Single) -> (r: bool)
        ensures
            r == self@.below(other@),
    {
        let a: u32 = self.bits % 0x8000_0000;
        let b: u32 = other.bits % 0x8000_0000;
        proof {
            lemma_sign_and_magnitude(self.bits);
            lemma_sign_and_magnitude(other.bits);
            if a <= 0x7f80_0000 && b <= 0x7f80_0000 {
                if a < b {
                    lemma_magnitude_order(a, b);
                } else if b < a {
                    lemma_magnitude_order(b, a);
                }
                if 0 < a {
                    lemma_magnitude_order(0, a);
                }
                if 0 < b {
                    lemma_magnitude_order(0, b);
                }
            }
        }
        if self.is_nan() || other.is_nan() {
            false
        } else if self.is_negative() {
            if other.is_negative() {
                b < a
            } else {
                a > 0 || b > 0
            }
        } else if other.is_negative() {
            false
        } else {
            a < b
        }
    }

    /// `self` held to the range from `low` to `high`.
    pub fn held(&self, low: &Single, high: &Single) -> (r: Single)
        ensures
            r@ == self@.held(low@, high@),
    {
        if self.below(low) {
            *low
        } else if high.below(self) {
            *high
        } else {
            *self
        }
    }

    /// The number nearest to the whole number `n`.
    pub fn from_usize(n: usize) -> (r: Single)
        ensures
            r@ == num::whole(n as nat),
    {
        pack(false, n as u64, 149)
    }

    /// The whole number `n`.
    pub fn from_u8(n: u8) -> (r: Single)
        ensures
            r@ == num::whole(n as nat),
    {
        pack(false, n as u64, 149)
    }

    /// The number nearest to the fraction `num / den`.
    pub fn ratio(num: usize, den: usize) -> (r: Single)
        requires
            num <= 0x100_0000,
            0 < den <= 0x100_0000,
        ensures
            r@ == num::fraction(num as nat, den as nat),
    {
        proof {
            let one = num::one();
            let (a, b) = (num as nat, den as nat);
            rounding::lemma_whole_exact(a);
            rounding::lemma_whole_exact(b);
            lemma_pow2_pos(149);
            assert(b * one > 0) by (nonlinear_arith)
                requires
                    b > 0,
                    one > 0,
            ;
            rounding::lemma_nearest_factor(a * one, b, one);
        }
        Single::from_usize(num).over(&Single::from_usize(den))
    }
}

/// The whole part of a significand at a place at or above that of one.
proof fn lemma_whole_part_above(m: nat, place: nat)
    requires
        place >= 149,
    ensures
        num::scaled(m, place) == (m * pow2((place - 149) as nat)) * num::one(),
        num::scaled(m, place) / num::one() == m * pow2((place - 149) as nat),
{
    let c = m * pow2((place - 149) as nat);
    lemma_pow2_adds((place - 149) as nat, 149);
    lemma_pow2_pos(149);
    assert(num::scaled(m, place) == c * num::one()) by (nonlinear_arith)
        requires
            num::scaled(m, place) == m * pow2(place),
            c == m * pow2((place - 149) as nat),
            pow2(place) == pow2((place - 149) as nat) * num::one(),
    ;
    lemma_div_multiples_vanish(c as int, num::one() as int);
    assert(num::one() * c == c * num::one()) by (nonlinear_arith);
}

/// The whole part of a significand at a place below that of one.
proof fn lemma_whole_part_below(m: nat, place: nat)
    requires
        place < 149,
    ensures
        num::scaled(m, place) / num::one() == m / pow2((149 - place) as nat),
{
    let r = (149 - place) as nat;
    lemma_pow2_adds(place, r);
    lemma_pow2_pos(place);
    lemma_pow2_pos(r);
    lemma_truncate_middle_free(m, pow2(place), pow2(r));
}

proof fn lemma_truncate_middle_free(m: nat, p: nat, q: nat)
    requires
        p > 0,
        q > 0,
    ensures
        (m * p) / (p * q) == m / q,
{
    lemma_div_denominator((m * p) as int, p as int, q as int);
    assert(p * m == m * p) by (nonlinear_arith);
    lemma_div_multiples_vanish(m as int, p as int);
}

impl Single {
    /// The whole part as an integer from 0 to `most`.
    pub fn whole_part(&self, most: u64) -> (r: u64)
        ensures
            r == self@.whole_part(most as nat),
    {
        if self.is_nan() {
            return 0;
        }
        if self.is_negative() {
            return 0;
        }
        if self.is_infinite() {
            return most;
        }
        let a = self.parts();
        let ghost m = a.significand as nat;
        if a.place >= 149 {
            let up: u32 = a.place - 149;
            proof {
                lemma_whole_part_above(m, a.place as nat);
                lemma2_to64();
                lemma2_to64_rest();
                rounding::lemma_pow2_ordered(0, up as nat);
            }
            if up > 40 {
                proof {
                    rounding::lemma_pow2_ordered(41, up as nat);
                    assert(m * pow2(up as nat) > most) by (nonlinear_arith)
                        requires
                            m >= 0x80_0000,
                            pow2(up as nat) >= 0x200_0000_0000,
                            most <= u64::MAX,
                    ;
                }
                return most;
            }
            proof {
                rounding::lemma_pow2_ordered(up as nat, 40);
                assert(m * pow2(up as nat) <= u64::MAX) by (nonlinear_arith)
                    requires
                        m < 0x100_0000,
                        pow2(up as nat) <= 0x100_0000_0000,
                ;
                vstd::bits::lemma_u64_shl_is_mul(a.significand, up as u64);
            }
            let whole: u64 = a.significand << up;
            if whole > most {
                most
            } else {
                whole
            }
        } else {
            let down: u32 = 149 - a.place;
            proof {
                lemma_whole_part_below(m, a.place as nat);
                lemma2_to64();
            }
            if down >= 24 {
                proof {
                    rounding::lemma_pow2_ordered(24, down as nat);
                    lemma_basic_div(m as int, pow2(down as nat) as int);
                }
                return 0;
            }
            proof {
                vstd::bits::lemma_u64_shr_is_div(a.significand, down as u64);
            }
            let whole: u64 = a.significand >> down;
            if whole > most {
                most
            } else {
                whole
            }
        }
    }

    /// The nearest whole number, halves going away from zero.
    pub fn to_nearest_whole(&self) -> (r: Single)
        ensures
            r@ == self@.to_nearest_whole(),
    {
        if self.is_nan() || self.is_infinite() {
            return *self;
        }
        let a = self.parts();
        let ghost m = a.significand as nat;
        let ghost units = num::scaled(m, a.place as nat);
        let ghost one = num::one();
        proof {
            lemma_pow2_pos(149);
            lemma2_to64();
        }
        if a.place >= 149 {
            proof {
                lemma_whole_part_above(m, a.place as nat);
                lemma_whole_stays(m * pow2((a.place - 149) as nat));
            }
            return *self;
        }
        let down: u32 = 149 - a.place;
        proof {
            lemma_nearest_whole_below(m, a.place as nat);
            rounding::lemma_pow2_ordered(0, (down - 1) as nat);
        }
        if down >= 26 {
            proof {
                rounding::lemma_pow2_ordered(25, (down - 1) as nat);
                lemma_pow2_unfold(down as nat);
                lemma_basic_div(
                    m + pow2((down - 1) as nat) as int,
                    pow2(down as nat) as int,
                );
                assert(0 * one == 0);
            }
            return zero(a.negative);
        }
        proof {
            rounding::lemma_pow2_ordered((down - 1) as nat, 24);
            assert(1 * pow2((down - 1) as nat) == pow2((down - 1) as nat));
            vstd::bits::lemma_u64_shl_is_mul(1, (down - 1) as u64);
        }
        let sum: u64 = a.significand + (1u64 << (down - 1));
        proof {
            vstd::bits::lemma_u64_shr_is_div(sum, down as u64);
            lemma_pow2_unfold(down as nat);
            assert(sum as nat / pow2(down as nat) <= 0x100_0000) by (nonlinear_arith)
                requires
                    sum < 0x200_0000,
                    pow2(down as nat) >= 2,
            ;
            rounding::lemma_whole_exact(sum as nat / pow2(down as nat));
        }
        let n: u64 = sum >> down;
        pack(a.negative, n, 149)
    }
}

/// A whole number is its own nearest whole number.
proof fn lemma_whole_stays(c: nat)
    ensures
        (2 * (c * num::one()) + num::one()) / (2 * num::one()) == c,
{
    let one = num::one();
    lemma_pow2_pos(149);
    assert(2 * (c * one) + one == c * (2 * one) + one) by (nonlinear_arith);
    lemma_fundamental_div_mod_converse(
        (c * (2 * one) + one) as int,
        2 * one as int,
        c as int,
        one as int,
    );
}

/// The nearest whole number of a significand at a place below that of one.
proof fn lemma_nearest_whole_below(m: nat, place: nat)
    requires
        place < 149,
    ensures
        (2 * num::scaled(m, place) + num::one()) / (2 * num::one()) == (m + pow2(
            (148 - place) as nat,
        )) / pow2((149 - place) as nat),
{
    let r = (149 - place) as nat;
    let p = pow2(place);
    let h = pow2((r - 1) as nat);
    lemma_pow2_adds(place, r);
    lemma_pow2_unfold(r);
    lemma_pow2_pos(place);
    lemma_pow2_pos(r);
    assert(2 * num::scaled(m, place) + num::one() == (m + h) * (2 * p)) by (nonlinear_arith)
        requires
            num::scaled(m, place) == m * p,
            num::one() == p * (2 * h),
    ;
    assert(2 * num::one() == (2 * p) * pow2(r)) by (nonlinear_arith)
        requires
            num::one() == p * pow2(r),
    ;
    lemma_truncate_middle_free(m + h, 2 * p, pow2(r));
}

/// The bit pattern in four bytes, the lowest first.
pub open spec fn le_word(b0: u8, b1: u8, b2: u8, b3: u8) -> u32 {
    (b0 + 0x100 * b1 + 0x1_0000 * b2 + 0x100_0000 * b3) as u32
}

impl Single {
    /// The four bytes of the bit pattern, the lowest first.
    pub fn to_le_bytes(&self) -> (r: [u8; 4])
        ensures
            le_word(r[0], r[1], r[2], r[3]) == self.bits,
            r[0] + 0x100 * r[1] + 0x1_0000 * r[2] + 0x100_0000 * r[3] == self.bits,
    {
        let b0: u8 = (self.bits % 0x100) as u8;
        let b1: u8 = ((self.bits / 0x100) % 0x100) as u8;
        let b2: u8 = ((self.bits / 0x1_0000) % 0x100) as u8;
        let b3: u8 = (self.bits / 0x100_0000) as u8;
        [b0, b1, b2, b3]
    }

    /// The number whose bit pattern four bytes hold, the lowest first.
    pub fn from_le_bytes(b0: u8, b1: u8, b2: u8, b3: u8) -> (r: Single)
        ensures
            r.bits == le_word(b0, b1, b2, b3),
            r.bits == b0 + 0x100 * b1 + 0x1_0000 * b2 + 0x100_0000 * b3,
    {
        Single {
            bits: b0 as u32 + 0x100 * b1 as u32 + 0x1_0000 * b2 as u32 + 0x100_0000 * b3 as u32,
        }
    }
}

/// One more in the exponent is twice the number, and the top bit its
/// negative; the pattern of one is one.
pub proof fn lemma_patterns_double(bits: u32)
    requires
        0x80_0000 <= bits < 0x7f00_0000,
    ensures
        decode(bits) is Finite,
        decode((bits + 0x80_0000) as u32) is Finite,
        decode((bits + 0x80_0000) as u32).signed() == 2 * decode(bits).signed(),
        decode((bits + 0x8000_0000) as u32) == decode(bits).negated(),
        decode(0x3f80_0000) == num::whole(1),
{
    let exponent = ((bits / 0x80_0000) % 0x100) as nat;
    let fraction = (bits % 0x80_0000) as nat;
    let next = (bits + 0x80_0000) as u32;
    assert(next / 0x80_0000 == bits / 0x80_0000 + 1 && next % 0x80_0000 == bits % 0x80_0000);
    lemma_pow2_unfold(exponent);
    let p = pow2((exponent - 1) as nat);
    assert((fraction + 0x80_0000) * (2 * p) == 2 * ((fraction + 0x80_0000) * p))
        by (nonlinear_arith);
    let other = (bits + 0x8000_0000) as u32;
    assert((other / 0x80_0000) % 0x100 == (bits / 0x80_0000) % 0x100 && other % 0x80_0000 == bits
        % 0x80_0000);
    rounding::lemma_whole_exact(1);
    lemma2_to64();
    lemma_pow2_adds(23, 126);
}

/// Within an exponent the next pattern is the next number, one step of the
/// last place on; below the first exponent, and in it, a step is one unit.
pub proof fn lemma_patterns_step(bits: u32)
    requires
        bits < 0x7f7f_ffff,
    ensures
        decode(0).signed() == 0,
        decode(bits) is Finite,
        decode((bits + 1) as u32) is Finite,
        decode((bits + 1) as u32).signed() - decode(bits).signed() == if bits < 0x100_0000 {
            1
        } else {
            pow2((bits / 0x80_0000 - 1) as nat) as int
        },
{
    let (e, f) = ((bits / 0x80_0000) as nat, (bits % 0x80_0000) as nat);
    let next = (bits + 1) as u32;
    lemma2_to64();
    if e > 0 {
        let p = pow2((e - 1) as nat);
        lemma_pow2_unfold(e);
        assert((f + 1 + 0x80_0000) * p == (f + 0x80_0000) * p + p) by (nonlinear_arith);
        assert(0x80_0000 * (2 * p) == (0x7f_ffff + 1 + 0x80_0000) * p) by (nonlinear_arith);
        if f + 1 < 0x80_0000 {
            assert(next / 0x80_0000 == e && next % 0x80_0000 == f + 1);
        } else {
            assert(next / 0x80_0000 == e + 1 && next % 0x80_0000 == 0);
        }
    } else {
        assert(num::scaled(0x80_0000, 0) == 0x80_0000 * pow2(0));
    }
}

} // verus!

//! The model of single-precision arithmetic: what a value is, and what each
//! operation on values gives.
//!
//! Every finite single-precision number is a whole number of units, one unit
//! being the smallest positive one, two to the minus 149. An operation gives
//! the exact result rounded to the nearest representable number, ties going
//! to the even one, so each is stated here over whole numbers alone.

use vstd::arithmetic::power2::*;
use vstd::prelude::*;

verus! {

/// A single-precision value. `units` is the magnitude of a finite one,
/// counted in units of two to the minus 149; zero keeps its sign.
pub enum Num {
    Nan,
    Infinite { negative: bool },
    Finite { negative: bool, units: nat },
}

/// How many units make one.
pub open spec fn one() -> nat {
    pow2(149)
}

/// The magnitude past the largest finite one, two to the 128, in units.
pub open spec fn past_finite() -> nat {
    pow2(277)
}

/// `k` is the place of the last bit that a number of magnitude `num / den`
/// units keeps: 24 significant bits, and none below one unit.
pub open spec fn is_last_place(num: nat, den: nat, k: nat) -> bool {
    &&& num < den * pow2(24 + k)
    &&& k > 0 ==> num >= den * pow2((23 + k) as nat)
}

/// The place of the last bit that a number of magnitude `num / den` keeps.
pub open spec fn last_place(num: nat, den: nat) -> nat {
    choose|k: nat| is_last_place(num, den, k)
}

/// `num / den` rounded to a whole number, ties to the even one.
pub open spec fn half_even(num: nat, den: nat) -> nat
    recommends
        den > 0,
{
    let low = num / den;
    let rest = num % den;
    if 2 * rest < den || (2 * rest == den && low % 2 == 0) {
        low
    } else {
        low + 1
    }
}

/// The representable magnitude nearest to `num / den` units, were there no
/// largest one.
pub open spec fn nearest(num: nat, den: nat) -> nat
    recommends
        den > 0,
{
    let k = last_place(num, den);
    half_even(num, den * pow2(k)) * pow2(k)
}

/// A result of magnitude `num / den` units, rounded; one that rounds past
/// the largest finite number is infinite.
pub open spec fn rounded(negative: bool, num: nat, den: nat) -> Num
    recommends
        den > 0,
{
    let units = nearest(num, den);
    if units < past_finite() {
        Num::Finite { negative, units }
    } else {
        Num::Infinite { negative }
    }
}

/// The single-precision number nearest to the fraction `num / den`.
pub open spec fn fraction(num: nat, den: nat) -> Num
    recommends
        den > 0,
{
    rounded(false, num * one(), den)
}

/// The single-precision number nearest to the whole number `n`.
pub open spec fn whole(n: nat) -> Num {
    rounded(false, n * one(), 1)
}

/// The significand `n` at the place `k`, in units.
pub open spec fn scaled(n: nat, k: nat) -> nat {
    n * pow2(k)
}

/// A magnitude that a finite single-precision number can have: 24
/// significant bits, below two to the 128.
pub open spec fn is_magnitude(units: nat) -> bool {
    &&& units < past_finite()
    &&& exists|n: nat, k: nat| n < pow2(24) && units == #[trigger] scaled(n, k)
}

impl Num {
    pub open spec fn is_number(self) -> bool {
        !(self is Nan)
    }

    pub open spec fn sign(self) -> bool {
        match self {
            Num::Nan => false,
            Num::Infinite { negative } => negative,
            Num::Finite { negative, .. } => negative,
        }
    }

    /// The value in units; an infinity stands just past every finite number.
    pub open spec fn signed(self) -> int {
        let size: int = match self {
            Num::Nan => 0,
            Num::Infinite { .. } => past_finite() as int,
            Num::Finite { units, .. } => units as int,
        };
        if self.sign() {
            -size
        } else {
            size
        }
    }

    /// A value that a bit pattern can hold.
    pub open spec fn is_representable(self) -> bool {
        self matches Num::Finite { units, .. } ==> is_magnitude(units)
    }

    pub open spec fn negated(self) -> Num {
        match self {
            Num::Nan => Num::Nan,
            Num::Infinite { negative } => Num::Infinite { negative: !negative },
            Num::Finite { negative, units } => Num::Finite { negative: !negative, units },
        }
    }

    /// `self < other`; false where either is no number.
    pub open spec fn below(self, other: Num) -> bool {
        self.is_number() && other.is_number() && self.signed() < other.signed()
    }

    pub open spec fn plus(self, other: Num) -> Num {
        match (self, other) {
            (Num::Nan, _) => Num::Nan,
            (_, Num::Nan) => Num::Nan,
            (Num::Infinite { negative: a }, Num::Infinite { negative: b }) => if a == b {
                self
            } else {
                Num::Nan
            },
            (Num::Infinite { .. }, _) => self,
            (_, Num::Infinite { .. }) => other,
            (Num::Finite { negative: a, .. }, Num::Finite { negative: b, .. }) => {
                let sum = self.signed() + other.signed();
                if sum == 0 {
                    Num::Finite { negative: a && b, units: 0 }
                } else if sum < 0 {
                    rounded(true, (-sum) as nat, 1)
                } else {
                    rounded(false, sum as nat, 1)
                }
            },
        }
    }

    pub open spec fn minus(self, other: Num) -> Num {
        self.plus(other.negated())
    }

    pub open spec fn times(self, other: Num) -> Num {
        let negative = self.sign() != other.sign();
        match (self, other) {
            (Num::Nan, _) => Num::Nan,
            (_, Num::Nan) => Num::Nan,
            (Num::Finite { units: u, .. }, Num::Finite { units: v, .. }) => rounded(
                negative,
                u * v,
                one(),
            ),
            _ => if self.signed() == 0 || other.signed() == 0 {
                Num::Nan
            } else {
                Num::Infinite { negative }
            },
        }
    }

    pub open spec fn over(self, other: Num) -> Num {
        let negative = self.sign() != other.sign();
        match (self, other) {
            (Num::Nan, _) => Num::Nan,
            (_, Num::Nan) => Num::Nan,
            (Num::Infinite { .. }, Num::Infinite { .. }) => Num::Nan,
            (Num::Infinite { .. }, _) => Num::Infinite { negative },
            (_, Num::Infinite { .. }) => Num::Finite { negative, units: 0 },
            (Num::Finite { units: u, .. }, Num::Finite { units: v, .. }) => if v == 0 {
                if u == 0 {
                    Num::Nan
                } else {
                    Num::Infinite { negative }
                }
            } else {
                rounded(negative, u * one(), v)
            },
        }
    }

    /// `self` held to the range from `low` to `high`; what is no number
    /// stays none.
    pub open spec fn held(self, low: Num, high: Num) -> Num {
        if self.below(low) {
            low
        } else if high.below(self) {
            high
        } else {
            self
        }
    }

    /// The nearest whole number, halves going away from zero.
    pub open spec fn to_nearest_whole(self) -> Num {
        match self {
            Num::Finite { negative, units } => Num::Finite {
                negative,
                units: ((2 * units + one()) / (2 * one())) * one(),
            },
            _ => self,
        }
    }

    /// The whole part as an integer from 0 to `most`: what is below zero, or
    /// no number, is 0, and what is above `most` is `most`.
    pub open spec fn whole_part(self, most: nat) -> nat {
        match self {
            Num::Nan => 0,
            Num::Infinite { negative } => if negative {
                0
            } else {
                most
            },
            Num::Finite { negative, units } => if negative {
                0
            } else if units / one() > most {
                most
            } else {
                units / one()
            },
        }
    }
}

} // verus!

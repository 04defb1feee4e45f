//! IEEE 754 binary64 arithmetic in integers.
//!
//! Positions and distances travel through this crate as the bit patterns of
//! binary64 numbers. The operations on them are integer arithmetic, so that
//! they give the same bits on every machine, and so that what they return can
//! be stated exactly: every finite number is a whole multiple of `2^-1074`,
//! and each operation is the exact one on such multiples, followed by one
//! rounding to the nearest number, halfway to the even one.
pub mod arithmetic;
pub mod binary32;
pub mod convert;
pub mod laws;
pub mod root;
pub mod rounding;

use vstd::arithmetic::power2::*;
use vstd::prelude::*;

verus! {

/// The sign bit of a pattern.
pub const SIGN_BIT: u64 = 0x8000_0000_0000_0000;

/// The lowest bit of the exponent field, which is also the hidden leading bit
/// of a normal significand.
pub const HIDDEN_BIT: u64 = 0x0010_0000_0000_0000;

/// The magnitude of an infinity; every larger magnitude is a NaN.
pub const INFINITE: u64 = 0x7ff0_0000_0000_0000;

/// The pattern that stands for every NaN that an operation gives.
pub const QUIET_NAN: u64 = 0x7ff8_0000_0000_0000;

/// A binary64 number, held as its bit pattern.
#[derive(Clone, Copy, Debug, PartialEq, Eq, Structural)]
pub struct Binary64 {
    pub bits: u64,
}

/// The integer nearest to `n / d`; halfway, the even one of the two.
pub open spec fn nearest_even(n: nat, d: nat) -> nat {
    let q = n / d;
    let r = n % d;
    if 2 * r < d || (2 * r == d && q % 2 == 0) {
        q
    } else {
        q + 1
    }
}

/// How many low bits of `n` lie beyond its leading ones, of which there are as
/// many as in `hidden`.
pub open spec fn excess_bits(n: nat, hidden: nat) -> nat
    decreases n,
{
    if n < 2 * hidden || hidden == 0 {
        0
    } else {
        1 + excess_bits(n / 2, hidden)
    }
}

/// The ratio `num / den`, a count of units, rounded to the nearest count that
/// a significand with the leading bit `hidden` can hold.
pub open spec fn round_units(num: nat, den: nat, hidden: nat) -> nat {
    let k = pow2(excess_bits(num / den, hidden));
    nearest_even(num, den * k) * k
}

/// The exponent field and the fraction of a number of so many units.
pub open spec fn magnitude_of(units: nat, hidden: nat) -> nat {
    let k = excess_bits(units, hidden);
    k * hidden + units / pow2(k)
}

impl Binary64 {
    /// The number that is `units` times `2^-1074`, up to its sign; infinity
    /// where that is too large.
    pub open spec fn of_units(negative: bool, units: nat) -> Binary64 {
        let magnitude = magnitude_of(units, HIDDEN_BIT as nat);
        Binary64::of_magnitude(
            negative,
            if magnitude < INFINITE {
                magnitude as u64
            } else {
                INFINITE
            },
        )
    }

    pub open spec fn of_magnitude(negative: bool, magnitude: u64) -> Binary64 {
        Binary64 {
            bits: if negative {
                (SIGN_BIT + magnitude) as u64
            } else {
                magnitude
            },
        }
    }

    pub open spec fn quiet_nan() -> Binary64 {
        Binary64 { bits: QUIET_NAN }
    }

    /// The sign bit is set.
    pub open spec fn negative(self) -> bool {
        self.bits >= SIGN_BIT
    }

    /// The pattern without its sign bit.
    pub open spec fn magnitude(self) -> int {
        if self.bits >= SIGN_BIT {
            self.bits - SIGN_BIT
        } else {
            self.bits as int
        }
    }

    pub open spec fn nan(self) -> bool {
        self.magnitude() > INFINITE
    }

    pub open spec fn infinite(self) -> bool {
        self.magnitude() == INFINITE
    }

    pub open spec fn finite(self) -> bool {
        self.magnitude() < INFINITE
    }

    /// The number is a zero of either sign.
    pub open spec fn zero(self) -> bool {
        self.magnitude() == 0
    }

    /// See [`Binary64::abs_units`].
    pub open spec fn significand(self) -> nat {
        if self.magnitude() < HIDDEN_BIT {
            self.magnitude() as nat
        } else {
            (HIDDEN_BIT + self.magnitude() % (HIDDEN_BIT as int)) as nat
        }
    }

    /// See [`Binary64::abs_units`].
    pub open spec fn exponent(self) -> nat {
        if self.magnitude() < HIDDEN_BIT {
            0
        } else {
            (self.magnitude() / (HIDDEN_BIT as int) - 1) as nat
        }
    }

    /// The absolute value of a finite number, in units of `2^-1074`.
    pub open spec fn abs_units(self) -> nat {
        self.significand() * pow2(self.exponent())
    }

    /// The value of a finite number, in units of `2^-1074`.
    pub open spec fn units(self) -> int {
        if self.negative() {
            -(self.abs_units() as int)
        } else {
            self.abs_units() as int
        }
    }

    /// `-self`.
    pub open spec fn negated(self) -> Binary64 {
        Binary64::of_magnitude(!self.negative(), self.magnitude() as u64)
    }

    /// `self + other`.
    pub open spec fn plus(self, other: Binary64) -> Binary64 {
        if self.nan() || other.nan() {
            Binary64::quiet_nan()
        } else if self.infinite() {
            if other.infinite() && self.negative() != other.negative() {
                Binary64::quiet_nan()
            } else {
                self
            }
        } else if other.infinite() {
            other
        } else {
            let sum = self.units() + other.units();
            if sum == 0 {
                // A sum of two negative zeros is the only negative zero.
                Binary64::of_units(self.negative() && other.negative(), 0)
            } else if sum < 0 {
                Binary64::of_units(true, round_units((-sum) as nat, 1, HIDDEN_BIT as nat))
            } else {
                Binary64::of_units(false, round_units(sum as nat, 1, HIDDEN_BIT as nat))
            }
        }
    }

    /// `self - other`.
    pub open spec fn minus(self, other: Binary64) -> Binary64 {
        self.plus(other.negated())
    }

    /// `self * other`.
    pub open spec fn times(self, other: Binary64) -> Binary64 {
        let negative = self.negative() != other.negative();
        if self.nan() || other.nan() {
            Binary64::quiet_nan()
        } else if self.infinite() || other.infinite() {
            if self.zero() || other.zero() {
                Binary64::quiet_nan()
            } else {
                Binary64::of_magnitude(negative, INFINITE)
            }
        } else {
            Binary64::of_units(
                negative,
                round_units(self.abs_units() * other.abs_units(), pow2(1074), HIDDEN_BIT as nat),
            )
        }
    }

    /// `self / other`.
    pub open spec fn over(self, other: Binary64) -> Binary64 {
        let negative = self.negative() != other.negative();
        if self.nan() || other.nan() || (self.infinite() && other.infinite()) || (self.zero()
            && other.zero()) {
            Binary64::quiet_nan()
        } else if self.infinite() || other.zero() {
            Binary64::of_magnitude(negative, INFINITE)
        } else if other.infinite() {
            Binary64::of_units(negative, 0)
        } else {
            Binary64::of_units(
                negative,
                round_units(self.abs_units() * pow2(1074), other.abs_units(), HIDDEN_BIT as nat),
            )
        }
    }

    /// The square root. A root that is not a binary64 number is never halfway
    /// between two of them, so that the nearest one is unique.
    pub open spec fn root(self) -> Binary64 {
        if self.nan() || (self.negative() && !self.zero()) {
            Binary64::quiet_nan()
        } else if self.zero() || self.infinite() {
            self
        } else {
            Binary64::of_units(false, round_root(self.abs_units() * pow2(1074)))
        }
    }

    /// The greatest integer that is not above a finite number.
    pub open spec fn floor(self) -> int {
        self.units() / (pow2(1074) as int)
    }

    /// The least integer that is not below a finite number.
    pub open spec fn ceil(self) -> int {
        -((-self.units()) / (pow2(1074) as int))
    }

    /// The floor, brought between two bounds; not for a NaN.
    pub open spec fn floor_between(self, low: int, high: int) -> int {
        let floor = if self.infinite() {
            if self.negative() {
                low
            } else {
                high
            }
        } else {
            self.floor()
        };
        if floor < low {
            low
        } else if floor > high {
            high
        } else {
            floor
        }
    }

    /// The floor as a 32-bit integer: a NaN gives 0, and what lies outside the
    /// range of the integers gives the nearer end of it.
    pub open spec fn floor_i32(self) -> int {
        if self.nan() {
            0
        } else {
            self.floor_between(i32::MIN as int, i32::MAX as int)
        }
    }

    /// The ceiling, brought between 1 and a bound; a NaN gives 1.
    pub open spec fn ceil_within(self, high: int) -> int {
        if self.nan() || self.negative() {
            1
        } else if self.infinite() || self.ceil() > high {
            high
        } else if self.ceil() < 1 {
            1
        } else {
            self.ceil()
        }
    }

    /// The number `v * 2^(x - 1074)`, where 53 bits can hold `v`.
    pub open spec fn of_scaled(v: int, x: nat) -> Binary64 {
        if v < 0 {
            Binary64::of_units(true, (-v) as nat * pow2(x))
        } else {
            Binary64::of_units(false, v as nat * pow2(x))
        }
    }

    /// An integer of at most 53 bits as a number.
    pub open spec fn of_integer(v: int) -> Binary64 {
        Binary64::of_scaled(v, 1074)
    }

    /// `self > other`, which never holds of a NaN.
    pub open spec fn above(self, other: Binary64) -> bool {
        if self.nan() || other.nan() {
            false
        } else if self.infinite() && other.infinite() {
            !self.negative() && other.negative()
        } else if self.infinite() {
            !self.negative()
        } else if other.infinite() {
            other.negative()
        } else {
            self.units() > other.units()
        }
    }

    /// `self <= other`, which never holds of a NaN.
    pub open spec fn at_most(self, other: Binary64) -> bool {
        !self.nan() && !other.nan() && !self.above(other)
    }
}

/// The integer part of the square root of `n`.
pub open spec fn root_floor(n: nat) -> nat {
    choose|r: nat| #[trigger] (r * r) <= n < (r + 1) * (r + 1)
}

/// The square root of `n`, rounded to the nearest count that 53 significant
/// bits can hold.
pub open spec fn round_root(n: nat) -> nat {
    let f = root_floor(n);
    let k = pow2(excess_bits(f, HIDDEN_BIT as nat));
    let q = f / k;
    // Twice the root, against the point halfway between `q * k` and the next.
    if 4 * n < ((2 * q + 1) * k) * ((2 * q + 1) * k) {
        q * k
    } else {
        (q + 1) * k
    }
}

} // verus!

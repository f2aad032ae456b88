//! IEEE 754 single-precision numbers by their bit patterns.
//!
//! The library stores, orders and hands on such numbers. It does no arithmetic on them.

use vstd::arithmetic::power2::{lemma2_to64, lemma_pow2_pos, lemma_pow2_unfold, pow2};
use vstd::prelude::*;

verus! {

/// The bit that holds the sign.
pub const SIGN_BIT: u32 = 0x8000_0000;

/// The bit pattern of positive infinity. A larger magnitude is not a number.
pub const INFINITY_BITS: u32 = 0x7f80_0000;

/// The bit pattern of 0.0.
pub const ZERO_BITS: u32 = 0;

/// The bit pattern of 1.0.
pub const ONE_BITS: u32 = 0x3f80_0000;

/// The bit pattern of -1.0.
pub const MINUS_ONE_BITS: u32 = 0xbf80_0000;

/// A single-precision number, held as the 32 bits that encode it.
#[derive(Clone, Copy, Debug, PartialEq, Eq, Structural)]
pub struct Single {
    pub bits: u32,
}

impl Single {
    /// The bits without the sign.
    pub open spec fn magnitude(self) -> int {
        if self.bits >= SIGN_BIT {
            self.bits - SIGN_BIT
        } else {
            self.bits as int
        }
    }

    /// Whether the bits encode no number.
    pub open spec fn is_nan(self) -> bool {
        self.magnitude() > INFINITY_BITS
    }

    /// An integer that orders the numbers as their values do. Both zeros have rank 0.
    pub open spec fn rank(self) -> int {
        if self.bits >= SIGN_BIT {
            -self.magnitude()
        } else {
            self.magnitude()
        }
    }

    /// `self < other`: false where either is no number.
    pub open spec fn lt(self, other: Single) -> bool {
        !self.is_nan() && !other.is_nan() && self.rank() < other.rank()
    }

    /// `self <= other`: false where either is no number.
    pub open spec fn le(self, other: Single) -> bool {
        !self.is_nan() && !other.is_nan() && self.rank() <= other.rank()
    }

    /// `self >= other`: false where either is no number.
    pub open spec fn ge(self, other: Single) -> bool {
        other.le(self)
    }

    /// The number with the given bit pattern.
    pub fn from_bits(bits: u32) -> (number: Single)
        ensures
            number == (Single { bits }),
    {
        Single { bits }
    }

    /// Whether the bits encode no number.
    fn not_a_number(self) -> (answer: bool)
        ensures
            answer == self.is_nan(),
    {
        let magnitude: u32 = if self.bits >= SIGN_BIT {
            self.bits - SIGN_BIT
        } else {
            self.bits
        };
        magnitude > INFINITY_BITS
    }

    /// `self < other`.
    pub fn less_than(self, other: Single) -> (answer: bool)
        ensures
            answer == self.lt(other),
    {
        if self.not_a_number() || other.not_a_number() {
            return false;
        }
        if self.bits >= SIGN_BIT {
            if other.bits >= SIGN_BIT {
                self.bits > other.bits
            } else {
                self.bits != SIGN_BIT || other.bits != 0
            }
        } else {
            other.bits < SIGN_BIT && self.bits < other.bits
        }
    }

    /// `self <= other`.
    pub fn at_most(self, other: Single) -> (answer: bool)
        ensures
            answer == self.le(other),
    {
        !self.not_a_number() && !other.not_a_number() && !other.less_than(self)
    }

    /// `self >= other`.
    pub fn at_least(self, other: Single) -> (answer: bool)
        ensures
            answer == self.ge(other),
    {
        other.at_most(self)
    }
}

/// What the bits of a number without its sign are worth, as a multiple of the smallest number
/// above 0: a significand of 24 bits, the first of them left out, times a power of two; below the
/// first power, the significand as it is.
pub open spec fn worth(bits: int) -> int {
    let exponent = bits / 0x80_0000;
    let significand = bits % 0x80_0000;
    if exponent == 0 {
        significand
    } else {
        (0x80_0000 + significand) * pow2((exponent - 1) as nat)
    }
}

/// What a finite number is worth, as a multiple of the smallest number above 0.
pub open spec fn value_of(bits: u32) -> int {
    if bits >= 0x8000_0000 {
        -worth(bits - 0x8000_0000)
    } else {
        worth(bits as int)
    }
}

/// One more in the bits is worth more.
proof fn lemma_worth_steps(bits: int)
    requires
        0 <= bits,
    ensures
        0 <= worth(bits) < worth(bits + 1),
{
    let exponent = bits / 0x80_0000;
    let significand = bits % 0x80_0000;
    lemma_pow2_pos((exponent - 1) as nat);
    if exponent > 0 {
        let power = pow2((exponent - 1) as nat) as int;
        assert(0 < (0x80_0000 + significand) * power) by (nonlinear_arith)
            requires
                0 <= significand,
                0 < power,
        ;
        if significand < 0x7f_ffff {
            assert((bits + 1) / 0x80_0000 == exponent);
            assert((bits + 1) % 0x80_0000 == significand + 1);
            assert((0x80_0000 + significand) * power < (0x80_0000 + significand + 1) * power)
                by (nonlinear_arith)
                requires
                    0 < power,
            ;
        } else {
            assert((bits + 1) / 0x80_0000 == exponent + 1);
            assert((bits + 1) % 0x80_0000 == 0);
            lemma_pow2_unfold(exponent as nat);
            assert((0x80_0000 + significand) * power < 0x80_0000 * (2 * power)) by (nonlinear_arith)
                requires
                    0 < power,
                    significand == 0x7f_ffff,
            ;
        }
    } else if significand < 0x7f_ffff {
        assert((bits + 1) / 0x80_0000 == 0);
    } else {
        assert((bits + 1) / 0x80_0000 == 1);
        assert((bits + 1) % 0x80_0000 == 0);
        lemma2_to64();
    }
}

/// More in the bits is worth more.
proof fn lemma_worth_grows(fewer: int, more: int)
    requires
        0 <= fewer <= more,
    ensures
        0 <= worth(fewer) <= worth(more),
        fewer < more ==> worth(fewer) < worth(more),
    decreases more - fewer,
{
    lemma_worth_steps(fewer);
    if fewer < more {
        lemma_worth_grows(fewer + 1, more);
    }
}

/// Finite numbers compare as their values do.
pub proof fn law_numbers_compare_by_value(left: Single, right: Single)
    requires
        left.bits % 0x8000_0000 < 0x7f80_0000,
        right.bits % 0x8000_0000 < 0x7f80_0000,
    ensures
        left.lt(right) <==> value_of(left.bits) < value_of(right.bits),
        left.le(right) <==> value_of(left.bits) <= value_of(right.bits),
        left.ge(right) <==> value_of(left.bits) >= value_of(right.bits),
        left.rank() == right.rank() <==> value_of(left.bits) == value_of(right.bits),
{
    let a = left.bits % 0x8000_0000;
    let b = right.bits % 0x8000_0000;
    assert(worth(0) == 0);
    lemma_worth_grows(0, a as int);
    lemma_worth_grows(0, b as int);
    if a <= b {
        lemma_worth_grows(a as int, b as int);
    } else {
        lemma_worth_grows(b as int, a as int);
    }
}

/// Infinity is above every finite number, negative infinity below, each equal to itself alone; what
/// is no number compares with nothing.
pub proof fn law_infinities_and_no_numbers(left: Single, right: Single)
    ensures
        left.bits == 0x7f80_0000 && right.bits % 0x8000_0000 < 0x7f80_0000 ==> right.lt(left)
            && right.le(left) && left.ge(right) && !left.lt(right) && !left.le(right)
            && !right.ge(left),
        left.bits == 0xff80_0000 && right.bits % 0x8000_0000 < 0x7f80_0000 ==> left.lt(right)
            && left.le(right) && right.ge(left) && !right.lt(left) && !right.le(left)
            && !left.ge(right),
        left.bits == 0xff80_0000 && right.bits == 0x7f80_0000 ==> left.lt(right) && left.le(right)
            && !left.ge(right),
        left.bits % 0x8000_0000 == 0x7f80_0000 ==> left.le(left) && left.ge(left) && !left.lt(left),
        left.bits % 0x8000_0000 > 0x7f80_0000 || right.bits % 0x8000_0000 > 0x7f80_0000
            ==> !left.lt(right) && !left.le(right) && !left.ge(right),
{
}

} // verus!

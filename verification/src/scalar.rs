//! Single-precision numbers by their bit patterns.
//!
//! The library never does arithmetic on real numbers. It only compares
//! them, and for that the 32-bit pattern of an IEEE-754 single-precision
//! number is enough: the pattern orders the number and gives it back
//! unchanged to whoever computed it.

use vstd::prelude::*;

verus! {

/// The sign bit of a bit pattern.
pub const SIGN_BIT: u32 = 0x8000_0000;

/// The bit pattern of positive infinity. Every pattern whose magnitude is
/// larger is not a number.
pub const INFINITY_BITS: u32 = 0x7f80_0000;

/// The bit pattern of `MIN_T`, the single-precision number nearest to 0.01.
pub const MIN_T_BITS: u32 = 0x3c23_d70a;

/// One IEEE-754 single-precision number, held by its bit pattern.
///
/// `==` on two values compares the patterns. The numeric comparisons are
/// `lt`, `le`, `gt`, `ge` and `same`; they follow IEEE-754: negative and
/// positive zero are equal, and a comparison with something that is not a
/// number is always false.
#[derive(Clone, Copy, Debug, PartialEq, Eq, Structural)]
pub struct Scalar {
    pub bits: u32,
}

/// Positive zero.
pub open spec fn zero() -> Scalar {
    Scalar { bits: 0 }
}

/// The smallest ray parameter is just above this: a root counts only if it
/// is strictly greater.
pub open spec fn min_t() -> Scalar {
    Scalar { bits: MIN_T_BITS }
}

impl Scalar {
    /// The pattern without its sign bit.
    pub open spec fn magnitude(self) -> int {
        if self.bits >= SIGN_BIT {
            self.bits - SIGN_BIT
        } else {
            self.bits as int
        }
    }

    /// The sign bit is set.
    pub open spec fn negative(self) -> bool {
        self.bits >= SIGN_BIT
    }

    /// The pattern stands for no number.
    pub open spec fn spec_is_nan(self) -> bool {
        self.magnitude() > INFINITY_BITS
    }

    /// The pattern stands for zero, of either sign.
    pub open spec fn spec_is_zero(self) -> bool {
        self.magnitude() == 0
    }

    /// The place of a number in the order of all numbers: for two patterns
    /// that stand for numbers, the smaller number has the smaller rank, and
    /// equal numbers have equal ranks.
    pub open spec fn rank(self) -> int {
        if self.negative() {
            -self.magnitude()
        } else {
            self.magnitude()
        }
    }

    /// Both patterns stand for numbers.
    pub open spec fn comparable(self, other: Scalar) -> bool {
        !self.spec_is_nan() && !other.spec_is_nan()
    }

    pub open spec fn spec_lt(self, other: Scalar) -> bool {
        self.comparable(other) && self.rank() < other.rank()
    }

    pub open spec fn spec_le(self, other: Scalar) -> bool {
        self.comparable(other) && self.rank() <= other.rank()
    }

    pub open spec fn spec_gt(self, other: Scalar) -> bool {
        other.spec_lt(self)
    }

    pub open spec fn spec_ge(self, other: Scalar) -> bool {
        other.spec_le(self)
    }

    pub open spec fn spec_same(self, other: Scalar) -> bool {
        self.comparable(other) && self.rank() == other.rank()
    }

    /// The number is acceptable as a ray parameter: strictly greater than
    /// `MIN_T`. Nothing else is asked of it, so positive infinity is
    /// acceptable too: a candidate that overflowed stands for a hit too far
    /// away to be told from no hit, and whoever shades the hit point must
    /// be ready for it.
    pub open spec fn spec_is_valid_t(self) -> bool {
        min_t().spec_lt(self)
    }

    pub open spec fn spec_max(self, other: Scalar) -> Scalar {
        if self.spec_gt(other) {
            self
        } else {
            other
        }
    }

    pub open spec fn spec_min(self, other: Scalar) -> Scalar {
        if self.spec_lt(other) {
            self
        } else {
            other
        }
    }

    /// Wraps a bit pattern.
    pub fn from_bits(bits: u32) -> (s: Scalar)
        ensures
            s.bits == bits,
    {
        Scalar { bits }
    }

    /// The bit pattern.
    pub fn to_bits(self) -> (bits: u32)
        ensures
            bits == self.bits,
    {
        self.bits
    }

    /// The pattern without its sign bit.
    fn abs_bits(self) -> (m: u32)
        ensures
            m == self.magnitude(),
    {
        if self.bits >= SIGN_BIT {
            self.bits - SIGN_BIT
        } else {
            self.bits
        }
    }

    /// The rank as a machine integer.
    fn key(self) -> (k: i64)
        ensures
            k == self.rank(),
    {
        let m: i64 = self.abs_bits() as i64;
        if self.bits >= SIGN_BIT {
            -m
        } else {
            m
        }
    }

    /// Whether the pattern stands for no number.
    #[verifier::when_used_as_spec(spec_is_nan)]
    pub fn is_nan(self) -> (r: bool)
        ensures
            r == self.spec_is_nan(),
    {
        self.abs_bits() > INFINITY_BITS
    }

    /// Whether the number is zero, of either sign.
    #[verifier::when_used_as_spec(spec_is_zero)]
    pub fn is_zero(self) -> (r: bool)
        ensures
            r == self.spec_is_zero(),
    {
        self.abs_bits() == 0
    }

    /// `self < other` as numbers.
    #[verifier::when_used_as_spec(spec_lt)]
    pub fn lt(self, other: Scalar) -> (r: bool)
        ensures
            r == self.spec_lt(other),
    {
        !self.is_nan() && !other.is_nan() && self.key() < other.key()
    }

    /// `self <= other` as numbers.
    #[verifier::when_used_as_spec(spec_le)]
    pub fn le(self, other: Scalar) -> (r: bool)
        ensures
            r == self.spec_le(other),
    {
        !self.is_nan() && !other.is_nan() && self.key() <= other.key()
    }

    /// `self > other` as numbers.
    #[verifier::when_used_as_spec(spec_gt)]
    pub fn gt(self, other: Scalar) -> (r: bool)
        ensures
            r == self.spec_gt(other),
    {
        other.lt(self)
    }

    /// `self >= other` as numbers.
    #[verifier::when_used_as_spec(spec_ge)]
    pub fn ge(self, other: Scalar) -> (r: bool)
        ensures
            r == self.spec_ge(other),
    {
        other.le(self)
    }

    /// `self == other` as numbers: the two zeros are the same, and what is
    /// not a number is the same as nothing, itself included.
    #[verifier::when_used_as_spec(spec_same)]
    pub fn same(self, other: Scalar) -> (r: bool)
        ensures
            r == self.spec_same(other),
    {
        !self.is_nan() && !other.is_nan() && self.key() == other.key()
    }

    /// Whether the number is acceptable as a ray parameter: strictly
    /// greater than `MIN_T`, positive infinity included.
    #[verifier::when_used_as_spec(spec_is_valid_t)]
    pub fn is_valid_t(self) -> (r: bool)
        ensures
            r == self.spec_is_valid_t(),
    {
        MIN_T_BITS < self.bits && self.bits <= INFINITY_BITS
    }

    /// The larger of two numbers; `other` where they do not compare.
    #[verifier::when_used_as_spec(spec_max)]
    pub fn max(self, other: Scalar) -> (r: Scalar)
        ensures
            r == self.spec_max(other),
    {
        if self.gt(other) {
            self
        } else {
            other
        }
    }

    /// The smaller of two numbers; `other` where they do not compare.
    #[verifier::when_used_as_spec(spec_min)]
    pub fn min(self, other: Scalar) -> (r: Scalar)
        ensures
            r == self.spec_min(other),
    {
        if self.lt(other) {
            self
        } else {
            other
        }
    }
}

/// A displacement or direction in space, by its three components.
#[derive(Clone, Copy, Debug, PartialEq, Eq, Structural)]
pub struct Vector {
    pub x: Scalar,
    pub y: Scalar,
    pub z: Scalar,
}

/// A position in space, by its three coordinates.
#[derive(Clone, Copy, Debug, PartialEq, Eq, Structural)]
pub struct Point {
    pub x: Scalar,
    pub y: Scalar,
    pub z: Scalar,
}

impl Point {
    /// The two positions are the same place: each coordinate of one is the
    /// same number as that of the other.
    pub open spec fn spec_same(self, other: Point) -> bool {
        self.x.same(other.x) && self.y.same(other.y) && self.z.same(other.z)
    }

    /// Whether the two positions are the same place.
    #[verifier::when_used_as_spec(spec_same)]
    pub fn same(self, other: Point) -> (r: bool)
        ensures
            r == self.spec_same(other),
    {
        self.x.same(other.x) && self.y.same(other.y) && self.z.same(other.z)
    }
}

/// A valid ray parameter is a positive number, so its rank is its bit
/// pattern: two valid parameters compare as their patterns do, and they
/// are the same number only if they are the same pattern.
pub proof fn lemma_valid_t_rank(t: Scalar)
    requires
        t.is_valid_t(),
    ensures
        !t.is_nan(),
        !t.negative(),
        t.rank() == t.bits,
        MIN_T_BITS < t.bits <= INFINITY_BITS,
{
}

} // verus!

//! A scalar value held as the bit pattern of an IEEE-754 binary32 number.
//!
//! Bit 31 is the sign; the remaining 31 bits (exponent and mantissa) read as
//! an unsigned integer grow with the magnitude of the number, up to infinity
//! at `0x7f80_0000`. Anything above that is a NaN. So the order of two
//! numbers is the order of their signed magnitudes, with both zeros equal.
use vstd::prelude::*;

verus! {

/// Bit pattern of the largest finite value.
pub const MAX_BITS: u32 = 0x7f7f_ffff;

/// Bit pattern of the most negative finite value.
pub const MIN_BITS: u32 = 0xff7f_ffff;

/// Bit pattern of positive infinity.
pub const INFINITY_BITS: u32 = 0x7f80_0000;

/// Bit pattern of negative infinity.
pub const NEG_INFINITY_BITS: u32 = 0xff80_0000;

/// Bit pattern of the sign bit.
pub const SIGN_BIT: u32 = 0x8000_0000;

#[derive(Clone, Copy, Debug, PartialEq, Eq, Structural)]
pub struct Scalar {
    pub bits: u32,
}

/// The magnitude field (exponent and mantissa) of a bit pattern.
pub open spec fn magnitude_of(bits: u32) -> int {
    if bits >= SIGN_BIT {
        bits - SIGN_BIT
    } else {
        bits as int
    }
}

impl Scalar {
    pub open spec fn negative(self) -> bool {
        self.bits >= SIGN_BIT
    }

    pub open spec fn magnitude(self) -> int {
        magnitude_of(self.bits)
    }

    /// Not a number: the exponent is all ones and the mantissa is not zero.
    pub open spec fn nan(self) -> bool {
        self.magnitude() > INFINITY_BITS
    }

    /// An integer that orders every non-NaN value as the number it encodes
    /// does; both zeros get rank 0.
    pub open spec fn rank(self) -> int {
        if self.negative() {
            -self.magnitude()
        } else {
            self.magnitude()
        }
    }

    /// `self < o` as IEEE-754 defines it: false whenever a NaN takes part.
    pub open spec fn spec_lt(self, o: Scalar) -> bool {
        !self.nan() && !o.nan() && self.rank() < o.rank()
    }

    /// `self <= o` as IEEE-754 defines it.
    pub open spec fn spec_le(self, o: Scalar) -> bool {
        !self.nan() && !o.nan() && self.rank() <= o.rank()
    }

    /// The lesser of two values, ignoring a NaN: one NaN gives the other value.
    pub open spec fn spec_min(self, o: Scalar) -> Scalar {
        if o.nan() {
            self
        } else if self.nan() {
            o
        } else if o.rank() < self.rank() {
            o
        } else {
            self
        }
    }

    /// The greater of two values, ignoring a NaN: one NaN gives the other value.
    pub open spec fn spec_max(self, o: Scalar) -> Scalar {
        if o.nan() {
            self
        } else if self.nan() {
            o
        } else if self.rank() < o.rank() {
            o
        } else {
            self
        }
    }

    pub fn from_bits(bits: u32) -> (r: Scalar)
        ensures
            r.bits == bits,
    {
        Scalar { bits }
    }

    pub fn to_bits(self) -> (r: u32)
        ensures
            r == self.bits,
    {
        self.bits
    }

    /// The largest finite value.
    pub fn max_value() -> (r: Scalar)
        ensures
            r.bits == MAX_BITS,
            !r.nan(),
            r.rank() == MAX_BITS as int,
    {
        Scalar { bits: MAX_BITS }
    }

    /// The most negative finite value.
    pub fn min_value() -> (r: Scalar)
        ensures
            r.bits == MIN_BITS,
            !r.nan(),
            r.rank() == -(MAX_BITS as int),
    {
        Scalar { bits: MIN_BITS }
    }

    /// Positive infinity, the greatest of all non-NaN values.
    pub fn infinity() -> (r: Scalar)
        ensures
            r.bits == INFINITY_BITS,
            !r.nan(),
            forall|s: Scalar| !s.nan() ==> s.rank() <= r.rank(),
    {
        Scalar { bits: INFINITY_BITS }
    }

    /// Negative infinity, the least of all non-NaN values.
    pub fn neg_infinity() -> (r: Scalar)
        ensures
            r.bits == NEG_INFINITY_BITS,
            !r.nan(),
            forall|s: Scalar| !s.nan() ==> r.rank() <= s.rank(),
    {
        Scalar { bits: NEG_INFINITY_BITS }
    }

    /// Positive zero.
    pub fn zero() -> (r: Scalar)
        ensures
            r.bits == 0,
            !r.nan(),
            r.rank() == 0,
    {
        Scalar { bits: 0 }
    }

    fn magnitude_exec(self) -> (r: u32)
        ensures
            r == self.magnitude(),
    {
        if self.bits >= SIGN_BIT {
            self.bits - SIGN_BIT
        } else {
            self.bits
        }
    }

    pub fn is_nan(self) -> (r: bool)
        ensures
            r == self.nan(),
    {
        self.magnitude_exec() > INFINITY_BITS
    }

    /// The value itself, or positive zero in place of a NaN.
    pub fn zero_if_nan(self) -> (r: Scalar)
        ensures
            r == (if self.nan() { Scalar { bits: 0 } } else { self }),
            !r.nan(),
    {
        if self.is_nan() {
            Scalar::zero()
        } else {
            self
        }
    }

    /// Compares two values by rank.
    fn rank_lt(self, o: Scalar) -> (r: bool)
        ensures
            r == (self.rank() < o.rank()),
    {
        let a = self.magnitude_exec();
        let b = o.magnitude_exec();
        let sa = self.bits >= SIGN_BIT;
        let sb = o.bits >= SIGN_BIT;
        if sa && sb {
            b < a
        } else if sa {
            a != 0 || b != 0
        } else if sb {
            false
        } else {
            a < b
        }
    }

    /// `self < o`; false if either is NaN.
    pub fn lt(self, o: Scalar) -> (r: bool)
        ensures
            r == self.spec_lt(o),
    {
        !self.is_nan() && !o.is_nan() && self.rank_lt(o)
    }

    /// `self <= o`; false if either is NaN.
    pub fn le(self, o: Scalar) -> (r: bool)
        ensures
            r == self.spec_le(o),
    {
        !self.is_nan() && !o.is_nan() && !o.rank_lt(self)
    }

    /// The lesser value, ignoring a NaN.
    pub fn min(self, o: Scalar) -> (r: Scalar)
        ensures
            r == self.spec_min(o),
    {
        if o.is_nan() {
            self
        } else if self.is_nan() {
            o
        } else if o.rank_lt(self) {
            o
        } else {
            self
        }
    }

    /// The greater value, ignoring a NaN.
    pub fn max(self, o: Scalar) -> (r: Scalar)
        ensures
            r == self.spec_max(o),
    {
        if o.is_nan() {
            self
        } else if self.is_nan() {
            o
        } else if self.rank_lt(o) {
            o
        } else {
            self
        }
    }
}

} // verus!

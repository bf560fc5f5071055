//! Path costs: non-negative lengths, possibly infinite.
//!
//! A cost is a double-precision number that is neither negative nor undefined.
//! It is held by its binary64 bit pattern, because on such numbers the order of
//! the patterns, read as unsigned integers, is the order of the numbers: the
//! search compares costs with integer comparisons that are verified, and only
//! adding two costs is left to the floating-point unit.
use vstd::prelude::*;

verus! {

/// The bit pattern of positive infinity, the largest cost there is.
pub const INFINITY_BITS: u64 = 0x7ff0_0000_0000_0000;

/// The bit pattern of the sum of the two non-negative numbers whose bit
/// patterns are `a` and `b`, rounded as binary64 addition rounds.
pub uninterp spec fn sum_bits(a: u64, b: u64) -> u64;

/// A non-negative length or `+inf`, by its binary64 bit pattern.
#[derive(Clone, Copy, Debug)]
pub struct Cost {
    bits: u64,
}

/// Adds two costs with `noisy_float`'s `+` on `N64`.
///
/// Both numbers are rebuilt from their bit patterns (`num_traits::FromBytes`),
/// checked by `noisy_float::types::n64` to be numbers, added, and the sum is
/// given back as its bit pattern. Claimed here and not proved: the sum of two
/// non-negative numbers depends on the two numbers alone, and is again a
/// non-negative number or `+inf`, never undefined and never negative zero.
#[verifier::external_body]
fn add_n64(a: u64, b: u64) -> (r: u64)
    requires
        a <= INFINITY_BITS,
        b <= INFINITY_BITS,
    ensures
        r == sum_bits(a, b),
        r <= INFINITY_BITS,
{
    let x = noisy_float::types::n64(num_traits::FromBytes::from_ne_bytes(&a.to_ne_bytes()));
    let y = noisy_float::types::n64(num_traits::FromBytes::from_ne_bytes(&b.to_ne_bytes()));
    (x + y).raw().to_bits()
}

impl Cost {
    #[verifier::type_invariant]
    spec fn in_range(self) -> bool {
        self.bits <= INFINITY_BITS
    }

    /// The bit pattern of the number.
    pub closed spec fn spec_bits(self) -> u64 {
        self.bits
    }

    /// Whether the cost is a number of the kind this type holds; every cost
    /// that a program can build is.
    pub open spec fn valid(self) -> bool {
        self.spec_bits() <= INFINITY_BITS
    }

    /// The cost zero.
    pub fn zero() -> (r: Cost)
        ensures
            r.spec_bits() == 0,
    {
        Cost { bits: 0 }
    }

    /// The infinite cost, above every length.
    pub fn infinity() -> (r: Cost)
        ensures
            r.spec_bits() == INFINITY_BITS,
    {
        Cost { bits: INFINITY_BITS }
    }

    /// The cost with the given bit pattern; none where the pattern is that of
    /// a negative number, of negative zero or of an undefined value.
    pub fn from_bits(bits: u64) -> (r: Option<Cost>)
        ensures
            bits <= INFINITY_BITS ==> r.is_some() && r.unwrap().spec_bits() == bits,
            bits > INFINITY_BITS ==> r.is_none(),
    {
        if bits <= INFINITY_BITS {
            Some(Cost { bits })
        } else {
            None
        }
    }

    /// The bit pattern of the number.
    pub fn bits(self) -> (r: u64)
        ensures
            r == self.spec_bits(),
            self.valid(),
    {
        proof {
            use_type_invariant(&self);
        }
        self.bits
    }

    /// Whether this cost is strictly below `other`.
    pub fn less(self, other: Cost) -> (r: bool)
        ensures
            r == (self.spec_bits() < other.spec_bits()),
    {
        self.bits < other.bits
    }

    /// The sum of two costs.
    pub fn plus(self, other: Cost) -> (r: Cost)
        ensures
            r.spec_bits() == sum_bits(self.spec_bits(), other.spec_bits()),
    {
        proof {
            use_type_invariant(&self);
            use_type_invariant(&other);
        }
        Cost { bits: add_n64(self.bits, other.bits) }
    }
}

} // verus!

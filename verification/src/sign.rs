//! The sign of a coordinate, with a band around zero that counts as zero.
use vstd::prelude::*;
use vstd::std_specs::cmp::{PartialOrdIs, PartialOrdSpec};

verus! {

/// Below the band around zero, inside it, or above it.
#[derive(Debug, Clone, Copy, PartialEq, Eq, Structural)]
pub enum Sign {
    Negative,
    Zero,
    Positive,
}

impl Sign {
    /// The sign of `value` for a band that reaches from `lowest_zero` to
    /// `highest_zero`, both ends left out.
    pub open spec fn spec_of<T: PartialOrd>(value: T, lowest_zero: T, highest_zero: T) -> Sign {
        if value.is_le(&lowest_zero) {
            Sign::Negative
        } else if value.is_ge(&highest_zero) {
            Sign::Positive
        } else {
            Sign::Zero
        }
    }

    /// The sign of `value`: negative at or below `lowest_zero`, else positive at
    /// or above `highest_zero`, else zero. A value that compares with neither
    /// bound is zero.
    pub fn of<T: PartialOrd>(value: T, lowest_zero: T, highest_zero: T) -> (r: Sign)
        ensures
            T::obeys_partial_cmp_spec() ==> r == Sign::spec_of(value, lowest_zero, highest_zero),
    {
        if value <= lowest_zero {
            Sign::Negative
        } else if value >= highest_zero {
            Sign::Positive
        } else {
            Sign::Zero
        }
    }
}

/// A vector that points from one end of a segment along it, and one that points
/// from the same end to a target, overlap when they lie on one line and the
/// target is at that end or on the segment's side of it.
///
/// `on_one_line` says that the cross product of the two is within the band
/// around zero; the signs are those of the coordinates, `x` first.
pub open spec fn spec_overlaps(on_one_line: bool, own: (Sign, Sign), target: (Sign, Sign)) -> bool {
    on_one_line && (target == (Sign::Zero, Sign::Zero) || (own.0 == target.0 && (own.0
        != Sign::Zero || own.1 == target.1 || target.1 == Sign::Zero)))
}

/// Decides whether the vector to a target runs back over a segment's own
/// vector, from the facts that their cross product and their coordinates'
/// signs give.
pub fn overlaps(on_one_line: bool, own: (Sign, Sign), target: (Sign, Sign)) -> (r: bool)
    ensures
        r == spec_overlaps(on_one_line, own, target),
{
    if on_one_line {
        if own.0 == target.0 {
            if own.0 == Sign::Zero {
                if own.1 == target.1 {
                    true
                } else {
                    target.1 == Sign::Zero
                }
            } else {
                true
            }
        } else {
            target.0 == Sign::Zero && target.1 == Sign::Zero
        }
    } else {
        false
    }
}

} // verus!

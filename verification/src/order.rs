//! Ordering two values and testing a closed range.
use vstd::prelude::*;
use vstd::std_specs::cmp::{PartialOrdIs, PartialOrdSpec};

verus! {

/// The pair `(v0, v1)` put in ascending order, as a specification.
pub open spec fn spec_min_max<T: PartialOrd>(v0: T, v1: T) -> (T, T) {
    if v0.is_lt(&v1) {
        (v0, v1)
    } else {
        (v1, v0)
    }
}

/// Whether `value` lies between `b0` and `b1`, whatever their order, both ends included.
pub open spec fn spec_contains<T: PartialOrd>(b0: T, b1: T, value: T) -> bool {
    let (low, high) = spec_min_max(b0, b1);
    low.is_le(&value) && value.is_le(&high)
}

/// Returns the two values with the smaller one first; `v1` comes first unless
/// `v0` is strictly below it.
pub fn min_max<T: PartialOrd>(v0: T, v1: T) -> (r: (T, T))
    ensures
        r.0 == v0 && r.1 == v1 || r.0 == v1 && r.1 == v0,
        T::obeys_partial_cmp_spec() ==> r == spec_min_max(v0, v1),
{
    if v0 < v1 {
        (v0, v1)
    } else {
        (v1, v0)
    }
}

/// Tells whether `value` lies in the closed range spanned by `b0` and `b1`.
pub fn contains<T: PartialOrd>(b0: T, b1: T, value: T) -> (r: bool)
    ensures
        T::obeys_partial_cmp_spec() ==> r == spec_contains(b0, b1, value),
{
    let (low, high) = min_max(b0, b1);
    low <= value && value <= high
}

/// On integers the range test is the plain double inequality.
pub proof fn contains_on_integers(b0: i64, b1: i64, value: i64)
    ensures
        spec_contains(b0, b1, value) <==> (b0 <= value <= b1 || b1 <= value <= b0),
{
}

/// Of three directions, whether `c` lies outside the open span from `a` up to
/// `b` if `a` is not above `b`, and inside the closed span from `b` up to `a` if
/// it is: an odd number of `a <= b`, `b <= c` and `a < c` hold.
pub open spec fn spec_on_far_side<T: PartialOrd>(a: T, b: T, c: T) -> bool {
    a.is_le(&b) ^ b.is_le(&c) ^ a.is_lt(&c)
}

/// Decides `spec_on_far_side`.
pub fn on_far_side<T: PartialOrd>(a: T, b: T, c: T) -> (r: bool)
    ensures
        T::obeys_partial_cmp_spec() ==> r == spec_on_far_side(a, b, c),
{
    let p = a <= b;
    let q = b <= c;
    let r = a < c;
    p ^ q ^ r
}

/// On integers, `on_far_side` is membership in the arc that runs from `b`
/// upwards, over the top and round again if need be, to `a`. The arc of two
/// equal bounds is the whole ring but for that one value.
pub proof fn on_far_side_on_integers(a: i64, b: i64, c: i64)
    ensures
        b < a ==> (spec_on_far_side(a, b, c) <==> b <= c <= a),
        a < b ==> (spec_on_far_side(a, b, c) <==> (c <= a || b <= c)),
        a == b ==> (spec_on_far_side(a, b, c) <==> c != a),
{
}

/// Whether a vertex can be left towards a target without entering its own
/// polygon, from five directions: from the vertex to the vertex before it, to
/// the vertex after it and to the target, and the first two turned half way
/// round. The target has to be on the far side both as the directions are and
/// as they are when turned, so that the place where directions wrap around
/// does not matter.
pub open spec fn spec_is_in_connectable_range<T: PartialOrd>(
    to_previous: T,
    to_next: T,
    to_target: T,
    from_previous: T,
    from_next: T,
) -> bool {
    spec_on_far_side(to_previous, to_next, to_target) && spec_on_far_side(
        from_previous,
        from_next,
        to_target,
    )
}

/// Decides `spec_is_in_connectable_range`.
pub fn is_in_connectable_range<T: PartialOrd + Copy>(
    to_previous: T,
    to_next: T,
    to_target: T,
    from_previous: T,
    from_next: T,
) -> (r: bool)
    ensures
        T::obeys_partial_cmp_spec() ==> r == spec_is_in_connectable_range(
            to_previous,
            to_next,
            to_target,
            from_previous,
            from_next,
        ),
{
    on_far_side(to_previous, to_next, to_target) && on_far_side(
        from_previous,
        from_next,
        to_target,
    )
}

/// Which point two overlapping segments of one line have in common first, seen
/// from the start of the first segment.
#[derive(Debug, Clone, Copy, PartialEq, Eq, Structural)]
pub enum Overlap {
    /// The segments do not touch.
    Disjoint,
    /// The start of the first segment lies on the second.
    OwnStart,
    /// The second segment's first point is the nearest.
    OtherStart,
    /// The second segment's second point is the nearest.
    OtherEnd,
}

/// The overlap of two segments of one line, each given by the coordinates of
/// its two ends along the line: `own` from `own.0` to `own.1`, `other` likewise.
pub open spec fn spec_collinear_overlap<T: PartialOrd>(own: (T, T), other: (T, T)) -> Overlap {
    let (low, high) = spec_min_max(other.0, other.1);
    if own.0.is_lt(&low) && own.1.is_lt(&low) {
        Overlap::Disjoint
    } else if own.0.is_gt(&high) && own.1.is_gt(&high) {
        Overlap::Disjoint
    } else if own.0.is_lt(&low) {
        if other.0.is_lt(&other.1) {
            Overlap::OtherStart
        } else {
            Overlap::OtherEnd
        }
    } else if own.0.is_gt(&high) {
        if other.0.is_lt(&other.1) {
            Overlap::OtherEnd
        } else {
            Overlap::OtherStart
        }
    } else {
        Overlap::OwnStart
    }
}

/// Finds the point that two segments of one line share and that is nearest to
/// the start of the first: that start itself if it lies on the second segment,
/// else the end of the second segment on its side; none if both ends of the
/// first lie beyond the same end of the second.
pub fn collinear_overlap<T: PartialOrd + Copy>(own: (T, T), other: (T, T)) -> (r: Overlap)
    ensures
        T::obeys_partial_cmp_spec() ==> r == spec_collinear_overlap(own, other),
{
    let (low, high) = min_max(other.0, other.1);
    if own.0 < low && own.1 < low {
        return Overlap::Disjoint;
    }
    if own.0 > high && own.1 > high {
        return Overlap::Disjoint;
    }
    if own.0 < low {
        if other.0 < other.1 {
            Overlap::OtherStart
        } else {
            Overlap::OtherEnd
        }
    } else if own.0 > high {
        if other.0 < other.1 {
            Overlap::OtherEnd
        } else {
            Overlap::OtherStart
        }
    } else {
        Overlap::OwnStart
    }
}

/// The coordinate of the point that an overlap names.
pub open spec fn overlap_coordinate(own: (i64, i64), other: (i64, i64), overlap: Overlap) -> i64 {
    match overlap {
        Overlap::OtherStart => other.0,
        Overlap::OtherEnd => other.1,
        _ => own.0,
    }
}

/// On integers: two segments of one line are disjoint exactly when they share
/// no coordinate; otherwise the point found lies on both, and no point of both
/// is nearer to the start of the first.
pub proof fn collinear_overlap_on_integers(own: (i64, i64), other: (i64, i64))
    ensures
        spec_collinear_overlap(own, other) == Overlap::Disjoint <==> !exists|x: i64|
            #[trigger] spec_contains(own.0, own.1, x) && spec_contains(other.0, other.1, x),
        spec_collinear_overlap(own, other) != Overlap::Disjoint ==> {
            let found = overlap_coordinate(own, other, spec_collinear_overlap(own, other));
            &&& spec_contains(own.0, own.1, found)
            &&& spec_contains(other.0, other.1, found)
            &&& forall|x: i64|
                #[trigger] spec_contains(own.0, own.1, x) && spec_contains(other.0, other.1, x) ==> {
                    ||| own.0 <= found <= x
                    ||| x <= found <= own.0
                }
        },
{
    if spec_collinear_overlap(own, other) != Overlap::Disjoint {
        let found = overlap_coordinate(own, other, spec_collinear_overlap(own, other));
        assert(spec_contains(own.0, own.1, found) && spec_contains(other.0, other.1, found));
    }
}

/// On integers, whether two segments of one line meet does not depend on which
/// of them is asked first. (Which point is found does: it is the one nearest to
/// the start of the segment that is asked.)
pub proof fn collinear_overlap_meets_both_ways(a: (i64, i64), b: (i64, i64))
    ensures
        spec_collinear_overlap(a, b) == Overlap::Disjoint <==> spec_collinear_overlap(b, a)
            == Overlap::Disjoint,
{
}

} // verus!

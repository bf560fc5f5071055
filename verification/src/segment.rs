//! A line segment between two points.
use vstd::prelude::*;
use vstd::std_specs::cmp::PartialEqSpec;

verus! {

/// The segment from `p0` to `p1`. Two segments are equal when they join the
/// same two points, in either direction.
#[derive(Debug)]
pub struct Segment<P> {
    pub p0: P,
    pub p1: P,
}

impl<P> Segment<P> {
    /// The segment from `p0` to `p1`.
    pub fn new(p0: P, p1: P) -> (r: Segment<P>)
        ensures
            r.p0 == p0,
            r.p1 == p1,
    {
        Segment { p0, p1 }
    }

    /// The same segment, run through from `p1` to `p0`.
    pub open spec fn reversed(self) -> Segment<P> {
        Segment { p0: self.p1, p1: self.p0 }
    }
}

impl<P: Copy> Segment<P> {
    /// The point at which the segment starts.
    pub fn p0(&self) -> (r: P)
        ensures
            r == self.p0,
    {
        self.p0
    }

    /// The point at which the segment ends.
    pub fn p1(&self) -> (r: P)
        ensures
            r == self.p1,
    {
        self.p1
    }
}

impl<P: Copy> Clone for Segment<P> {
    fn clone(&self) -> (r: Segment<P>)
        ensures
            r == *self,
    {
        *self
    }
}

impl<P: Copy> Copy for Segment<P> {

}

impl<P: PartialEq> vstd::std_specs::cmp::PartialEqSpecImpl for Segment<P> {
    open spec fn obeys_eq_spec() -> bool {
        P::obeys_eq_spec()
    }

    open spec fn eq_spec(&self, other: &Segment<P>) -> bool {
        (self.p0.eq_spec(&other.p0) && self.p1.eq_spec(&other.p1)) || (self.p0.eq_spec(&other.p1)
            && self.p1.eq_spec(&other.p0))
    }
}

impl<P: PartialEq> PartialEq for Segment<P> {
    fn eq(&self, other: &Segment<P>) -> (r: bool) {
        (self.p0 == other.p0 && self.p1 == other.p1) || (self.p0 == other.p1 && self.p1
            == other.p0)
    }
}

/// A segment equals its reverse, provided each of its two points equals
/// itself. (A point with an undefined coordinate does not, and then neither
/// does the segment.)
pub proof fn segment_equality_is_undirected<P: PartialEq>(p0: P, p1: P)
    requires
        p0.eq_spec(&p0),
        p1.eq_spec(&p1),
    ensures
        (Segment { p0, p1 }).eq_spec(&(Segment { p0, p1 }).reversed()),
        (Segment { p0, p1 }).eq_spec(&Segment { p0: p1, p1: p0 }),
        (Segment { p0, p1 }).eq_spec(&Segment { p0, p1 }),
{
}

/// Equality of segments is symmetric wherever equality of points is.
pub proof fn segment_equality_is_symmetric<P: PartialEq>(a: Segment<P>, b: Segment<P>)
    requires
        forall|x: P, y: P| #[trigger] x.eq_spec(&y) == y.eq_spec(&x),
    ensures
        a.eq_spec(&b) == b.eq_spec(&a),
{
}

} // verus!

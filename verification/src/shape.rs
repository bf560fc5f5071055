//! Polygons: an ordered run of vertices, closed from the last back to the first.
use crate::segment::Segment;
use vstd::prelude::*;

verus! {

/// The direction in which the vertices of a polygon run around it.
#[derive(Debug, Clone, Copy, PartialEq, Eq, Structural)]
pub enum ShapeWindingOrder {
    Clockwise,
    CounterClockwise,
}

/// A polygon, by its vertices in order. The last vertex is joined to the first.
#[derive(Debug)]
pub struct Shape<P> {
    pub vertices: Vec<P>,
}

/// The index before `index` on a ring of `len` places.
pub open spec fn ring_prev(len: int, index: int) -> int {
    if index == 0 {
        len - 1
    } else {
        index - 1
    }
}

/// The index after `index` on a ring of `len` places.
pub open spec fn ring_next(len: int, index: int) -> int {
    if index + 1 == len {
        0
    } else {
        index + 1
    }
}

/// The boundary segment that starts at vertex `index`: it ends at the next
/// vertex, and the one that starts at the last vertex ends at the first.
pub open spec fn boundary_segment<P>(vertices: Seq<P>, index: int) -> Segment<P> {
    Segment { p0: vertices[index], p1: vertices[ring_next(vertices.len() as int, index)] }
}

/// The boundary of a polygon: one segment for each vertex, in order.
pub open spec fn boundary<P>(vertices: Seq<P>) -> Seq<Segment<P>> {
    Seq::new(vertices.len(), |index: int| boundary_segment(vertices, index))
}

impl<P> Shape<P> {
    /// The polygon with the given vertices.
    pub fn new(vertices: Vec<P>) -> (r: Shape<P>)
        ensures
            r.vertices == vertices,
    {
        Shape { vertices }
    }

    /// The polygon without vertices.
    pub fn new_empty() -> (r: Shape<P>)
        ensures
            r.vertices@ == Seq::<P>::empty(),
    {
        Shape { vertices: Vec::new() }
    }

    /// Whether the polygon has no vertex.
    pub fn is_empty(&self) -> (r: bool)
        ensures
            r == (self.vertices@.len() == 0),
    {
        self.vertices.len() == 0
    }

    /// The boundary segments, to be walked through once.
    pub fn segments(&self) -> (r: Segments<'_, P>)
        ensures
            r.shape == self,
    {
        Segments { shape: self }
    }

    /// Turns the order of the vertices around.
    pub fn reverse(&mut self)
        ensures
            final(self).vertices@ == old(self).vertices@.reverse(),
    {
        let mut rest: Vec<P> = Vec::new();
        std::mem::swap(&mut rest, &mut self.vertices);
        while rest.len() > 0
            invariant
                rest@.len() <= old(self).vertices@.len(),
                rest@ == old(self).vertices@.subrange(0, rest@.len() as int),
                self.vertices@.len() == old(self).vertices@.len() - rest@.len(),
                forall|i: int|
                    0 <= i < self.vertices@.len() ==> self.vertices@[i] == old(
                        self,
                    ).vertices@[old(self).vertices@.len() - 1 - i],
            decreases rest@.len(),
        {
            let vertex = rest.pop().unwrap();
            self.vertices.push(vertex);
        }
        assert(self.vertices@ == old(self).vertices@.reverse());
    }
}

impl<P: Copy> Shape<P> {
    /// The vertex before vertex `index`; before the first comes the last.
    pub fn prev_vertex(&self, index: usize) -> (r: P)
        requires
            index < self.vertices@.len(),
        ensures
            r == self.vertices@[ring_prev(self.vertices@.len() as int, index as int)],
    {
        if index == 0 {
            self.vertices[self.vertices.len() - 1]
        } else {
            self.vertices[index - 1]
        }
    }

    /// The vertex after vertex `index`; after the last comes the first.
    pub fn next_vertex(&self, index: usize) -> (r: P)
        requires
            index < self.vertices@.len(),
        ensures
            r == self.vertices@[ring_next(self.vertices@.len() as int, index as int)],
    {
        if index == self.vertices.len() - 1 {
            self.vertices[0]
        } else {
            self.vertices[index + 1]
        }
    }

    /// The boundary segment that starts at vertex `index`.
    pub fn segment(&self, index: usize) -> (r: Segment<P>)
        requires
            index < self.vertices@.len(),
        ensures
            r == boundary(self.vertices@)[index as int],
    {
        Segment::new(self.vertices[index], self.next_vertex(index))
    }
}

/// The boundary segments of a polygon, not yet walked through.
pub struct Segments<'a, P> {
    pub shape: &'a Shape<P>,
}

impl<'a, P: Copy> Segments<'a, P> {
    /// Starts a walk through the segments, at the first.
    pub fn into_iter(self) -> (r: SegmentsIter<'a, P>)
        ensures
            r.shape == self.shape,
            r.position == 0,
    {
        SegmentsIter { shape: self.shape, position: 0 }
    }

    /// All the segments at once: as many as the polygon has vertices, so none
    /// for the empty polygon and one, from the vertex to itself, for a single
    /// vertex.
    pub fn to_vec(&self) -> (r: Vec<Segment<P>>)
        ensures
            r@ == boundary(self.shape.vertices@),
    {
        let mut r: Vec<Segment<P>> = Vec::new();
        let mut index: usize = 0;
        while index < self.shape.vertices.len()
            invariant
                index <= self.shape.vertices@.len(),
                r@.len() == index,
                forall|i: int| 0 <= i < index ==> r@[i] == boundary(self.shape.vertices@)[i],
            decreases self.shape.vertices@.len() - index,
        {
            r.push(self.shape.segment(index));
            index += 1;
        }
        assert(r@ == boundary(self.shape.vertices@));
        r
    }
}

/// A walk through the boundary segments of a polygon.
pub struct SegmentsIter<'a, P> {
    pub shape: &'a Shape<P>,
    /// The number of segments handed out so far.
    pub position: usize,
}

impl<'a, P: Copy> SegmentsIter<'a, P> {
    /// The next segment of the walk, or nothing once every vertex has had its
    /// segment.
    pub fn next(&mut self) -> (r: Option<Segment<P>>)
        requires
            old(self).position <= old(self).shape.vertices@.len(),
        ensures
            final(self).shape == old(self).shape,
            old(self).position < old(self).shape.vertices@.len() ==> r == Some(
                boundary(old(self).shape.vertices@)[old(self).position as int],
            ) && final(self).position == old(self).position + 1,
            old(self).position == old(self).shape.vertices@.len() ==> r.is_none()
                && final(self).position == old(self).position,
    {
        if self.position < self.shape.vertices.len() {
            let segment = self.shape.segment(self.position);
            self.position += 1;
            Some(segment)
        } else {
            None
        }
    }
}

} // verus!

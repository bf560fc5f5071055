//! Obstacles: a polygon run counter-clockwise, with each vertex marked as
//! reflex or not.
use crate::flags::Flags;
use crate::shape::{ring_next, ring_prev, Shape, ShapeWindingOrder};
use vstd::prelude::*;

verus! {

/// A polygon that paths have to go around. Only its reflex vertices, the
/// corners that a path can bend around, become nodes of the navigation graph.
pub struct NavigationObstacle<P> {
    shape: Shape<P>,
    concave_vertices: Flags,
}

/// The vertices in the order in which an obstacle keeps them: as given for a
/// counter-clockwise polygon, turned around for a clockwise one.
pub open spec fn counter_clockwise<P>(vertices: Seq<P>, winding: ShapeWindingOrder) -> Seq<P> {
    if winding == ShapeWindingOrder::Clockwise {
        vertices.reverse()
    } else {
        vertices
    }
}

/// What an offset corner consists of: whether its points are reflex, and the
/// points that take the place of the old vertex.
pub struct Corner<P> {
    pub reflex: bool,
    pub points: Vec<P>,
}

/// All the points of some corners, one corner after the other.
pub open spec fn corner_points<P>(corners: Seq<Corner<P>>) -> Seq<P>
    decreases corners.len(),
{
    if corners.len() == 0 {
        Seq::empty()
    } else {
        corner_points(corners.drop_last()) + corners.last().points@
    }
}

/// For each point of `corner_points`, whether its corner is reflex.
pub open spec fn corner_marks<P>(corners: Seq<Corner<P>>) -> Seq<bool>
    decreases corners.len(),
{
    if corners.len() == 0 {
        Seq::empty()
    } else {
        corner_marks(corners.drop_last()) + Seq::new(
            corners.last().points@.len(),
            |k: int| corners.last().reflex,
        )
    }
}

impl<P> NavigationObstacle<P> {
    #[verifier::type_invariant]
    spec fn marks_match(self) -> bool {
        self.concave_vertices@.len() == self.shape.vertices@.len()
    }

    /// The vertices, counter-clockwise.
    pub closed spec fn vertices(&self) -> Seq<P> {
        self.shape.vertices@
    }

    /// For each vertex, whether it is reflex.
    pub closed spec fn reflex(&self) -> Seq<bool> {
        self.concave_vertices@
    }
}

impl<P: Copy> NavigationObstacle<P> {
    /// Builds an obstacle from the vertices of a polygon and the direction in
    /// which they run, and asks `is_reflex` about each vertex, with the vertex
    /// before it and the one after it: `is_reflex(before, vertex, after)`.
    ///
    /// A clockwise polygon is turned around first, so that the vertices of every
    /// obstacle run counter-clockwise.
    pub fn new<F: Fn(P, P, P) -> bool>(
        vertices: Vec<P>,
        winding: ShapeWindingOrder,
        is_reflex: &F,
    ) -> (r: NavigationObstacle<P>)
        requires
            forall|before: P, vertex: P, after: P| is_reflex.requires((before, vertex, after)),
        ensures
            r.vertices() == counter_clockwise(vertices@, winding),
            r.reflex().len() == r.vertices().len(),
            forall|i: int|
                0 <= i < r.vertices().len() ==> is_reflex.ensures(
                    (
                        r.vertices()[ring_prev(r.vertices().len() as int, i)],
                        r.vertices()[i],
                        r.vertices()[ring_next(r.vertices().len() as int, i)],
                    ),
                    #[trigger] r.reflex()[i],
                ),
    {
        let mut shape = Shape::new(vertices);
        if winding == ShapeWindingOrder::Clockwise {
            shape.reverse();
        }
        let mut concave_vertices = Flags::with_capacity(shape.vertices.len());
        let mut vertex_index: usize = 0;
        while vertex_index < shape.vertices.len()
            invariant
                forall|before: P, vertex: P, after: P| is_reflex.requires((before, vertex, after)),
                vertex_index <= shape.vertices@.len(),
                concave_vertices@.len() == vertex_index,
                forall|i: int|
                    0 <= i < vertex_index ==> is_reflex.ensures(
                        (
                            shape.vertices@[ring_prev(shape.vertices@.len() as int, i)],
                            shape.vertices@[i],
                            shape.vertices@[ring_next(shape.vertices@.len() as int, i)],
                        ),
                        #[trigger] concave_vertices@[i],
                    ),
            decreases shape.vertices@.len() - vertex_index,
        {
            let vertex = shape.vertices[vertex_index];
            let mark = is_reflex(
                shape.prev_vertex(vertex_index),
                vertex,
                shape.next_vertex(vertex_index),
            );
            concave_vertices.push(mark);
            vertex_index += 1;
        }
        NavigationObstacle { shape, concave_vertices }
    }

    /// The outline of the obstacle.
    pub fn shape(&self) -> (r: &Shape<P>)
        ensures
            r.vertices@ == self.vertices(),
            self.reflex().len() == self.vertices().len(),
    {
        proof {
            use_type_invariant(self);
        }
        &self.shape
    }

    /// The number of vertices.
    pub fn len(&self) -> (r: usize)
        ensures
            r == self.vertices().len(),
            r == self.reflex().len(),
    {
        proof {
            use_type_invariant(self);
        }
        self.shape.vertices.len()
    }

    /// Whether vertex `index` is reflex.
    pub fn is_reflex(&self, index: usize) -> (r: bool)
        requires
            index < self.vertices().len(),
        ensures
            r == self.reflex()[index as int],
    {
        proof {
            use_type_invariant(self);
        }
        self.concave_vertices.get(index)
    }

    /// Builds the outline that keeps a clearance from this obstacle: each vertex
    /// gives way to the points that `corner` returns for it, asked as
    /// `corner(before, vertex, after)`, and every one of those points is marked
    /// as the corner says. A reflex corner is a fan of points around the old
    /// vertex, a convex one a single point further out; a corner without points
    /// drops its vertex. The obstacle itself stays as it is.
    pub fn expand<F: Fn(P, P, P) -> Corner<P>>(&self, corner: &F) -> (r: NavigationObstacle<P>)
        requires
            forall|before: P, vertex: P, after: P| corner.requires((before, vertex, after)),
        ensures
            r.reflex().len() == r.vertices().len(),
            exists|corners: Seq<Corner<P>>|
                {
                    &&& corners.len() == self.vertices().len()
                    &&& forall|i: int|
                        0 <= i < corners.len() ==> corner.ensures(
                            (
                                self.vertices()[ring_prev(self.vertices().len() as int, i)],
                                self.vertices()[i],
                                self.vertices()[ring_next(self.vertices().len() as int, i)],
                            ),
                            #[trigger] corners[i],
                        )
                    &&& r.vertices() == corner_points(corners)
                    &&& r.reflex() == corner_marks(corners)
                },
    {
        proof {
            use_type_invariant(self);
        }
        let mut concave_vertices = Flags::with_capacity(0);
        let mut expanded_vertices: Vec<P> = Vec::new();
        let ghost mut corners: Seq<Corner<P>> = Seq::empty();
        let mut vertex_index: usize = 0;
        while vertex_index < self.shape.vertices.len()
            invariant
                forall|before: P, vertex: P, after: P| corner.requires((before, vertex, after)),
                vertex_index <= self.shape.vertices@.len(),
                corners.len() == vertex_index,
                forall|i: int|
                    0 <= i < corners.len() ==> corner.ensures(
                        (
                            self.shape.vertices@[ring_prev(self.shape.vertices@.len() as int, i)],
                            self.shape.vertices@[i],
                            self.shape.vertices@[ring_next(self.shape.vertices@.len() as int, i)],
                        ),
                        #[trigger] corners[i],
                    ),
                expanded_vertices@ == corner_points(corners),
                concave_vertices@ == corner_marks(corners),
                concave_vertices@.len() == expanded_vertices@.len(),
            decreases self.shape.vertices@.len() - vertex_index,
        {
            let vertex = self.shape.vertices[vertex_index];
            let offset = corner(
                self.shape.prev_vertex(vertex_index),
                vertex,
                self.shape.next_vertex(vertex_index),
            );
            let ghost points_before = expanded_vertices@;
            let ghost marks_before = concave_vertices@;
            let mut k: usize = 0;
            while k < offset.points.len()
                invariant
                    k <= offset.points@.len(),
                    expanded_vertices@ == points_before + offset.points@.subrange(0, k as int),
                    concave_vertices@ == marks_before + Seq::new(k as nat, |j: int| offset.reflex),
                    marks_before.len() == points_before.len(),
                    concave_vertices@.len() == expanded_vertices@.len(),
                decreases offset.points@.len() - k,
            {
                expanded_vertices.push(offset.points[k]);
                assert(expanded_vertices.len() <= usize::MAX);
                concave_vertices.push(offset.reflex);
                k += 1;
                proof {
                    assert(expanded_vertices@ == points_before + offset.points@.subrange(
                        0,
                        k as int,
                    ));
                    assert(concave_vertices@ == marks_before + Seq::new(
                        k as nat,
                        |j: int| offset.reflex,
                    ));
                }
            }
            proof {
                assert(offset.points@.subrange(0, k as int) == offset.points@);
                let longer = corners.push(offset);
                assert(longer.drop_last() == corners);
                corners = longer;
            }
            vertex_index += 1;
        }
        NavigationObstacle { shape: Shape::new(expanded_vertices), concave_vertices }
    }
}

} // verus!

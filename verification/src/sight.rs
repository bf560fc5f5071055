//! What the plane is asked, and what the answers show: whether a vertex can be
//! left towards a target, and whether a segment crosses a boundary.
//!
//! The two questions are put to the caller, as functions. Nothing is assumed
//! of a function beyond what it states of itself, so every fact here is an
//! answer that the function may give to a question.
use crate::obstacle::NavigationObstacle;
use crate::segment::Segment;
use crate::shape::{boundary, ring_next, ring_prev};
use vstd::prelude::*;

verus! {

/// A vertex, by the index of its obstacle and its index in it.
#[derive(Debug, Clone, Copy)]
pub struct ShapeVertexIndex {
    pub shape_index: usize,
    pub vertex_index: usize,
}

/// The number of vertices of the first `upto` obstacles.
pub open spec fn vertex_count<P>(obstacles: Seq<NavigationObstacle<P>>, upto: int) -> int
    decreases upto,
{
    if upto <= 0 {
        0
    } else {
        vertex_count(obstacles, upto - 1) + obstacles[upto - 1].vertices().len()
    }
}

/// The number of vertices of all the obstacles.
pub open spec fn total_vertices<P>(obstacles: Seq<NavigationObstacle<P>>) -> int {
    vertex_count(obstacles, obstacles.len() as int)
}

/// Whether `o` is an obstacle and `v` a vertex of it.
pub open spec fn is_vertex<P>(obstacles: Seq<NavigationObstacle<P>>, o: int, v: int) -> bool {
    0 <= o < obstacles.len() && 0 <= v < obstacles[o].vertices().len()
}

/// The number of marks among the first `upto` of `marks`.
pub open spec fn marked(marks: Seq<bool>, upto: int) -> int
    decreases upto,
{
    if upto <= 0 {
        0
    } else {
        marked(marks, upto - 1) + if marks[upto - 1] {
            1int
        } else {
            0int
        }
    }
}

/// The number of reflex vertices of the first `upto` obstacles.
pub open spec fn corner_count<P>(obstacles: Seq<NavigationObstacle<P>>, upto: int) -> int
    decreases upto,
{
    if upto <= 0 {
        0
    } else {
        corner_count(obstacles, upto - 1) + marked(
            obstacles[upto - 1].reflex(),
            obstacles[upto - 1].vertices().len() as int,
        )
    }
}

/// The number of reflex vertices of all the obstacles: the number of nodes of
/// their navigation graph.
pub open spec fn total_corners<P>(obstacles: Seq<NavigationObstacle<P>>) -> int {
    corner_count(obstacles, obstacles.len() as int)
}

/// The number of reflex vertices that come before vertex `v` of obstacle `o`,
/// obstacle by obstacle and in each obstacle in order. For a reflex vertex
/// this is the id of its node: only reflex vertices have nodes, and the nodes
/// are numbered without gaps.
pub open spec fn node_id<P>(obstacles: Seq<NavigationObstacle<P>>, o: int, v: int) -> int {
    corner_count(obstacles, o) + marked(obstacles[o].reflex(), v)
}

/// Whether `(o, v)` is a reflex vertex.
pub open spec fn is_corner<P>(obstacles: Seq<NavigationObstacle<P>>, o: int, v: int) -> bool {
    is_vertex(obstacles, o, v) && obstacles[o].reflex()[v]
}

/// The place of a vertex.
pub open spec fn place<P>(obstacles: Seq<NavigationObstacle<P>>, o: int, v: int) -> P {
    obstacles[o].vertices()[v]
}

/// The count of vertices does not shrink with more obstacles, and grows by the
/// size of each obstacle it takes in.
pub proof fn lemma_vertex_count_grows<P>(obstacles: Seq<NavigationObstacle<P>>, low: int, high: int)
    requires
        0 <= low <= high,
    ensures
        0 <= vertex_count(obstacles, low) <= vertex_count(obstacles, high),
        low < high ==> vertex_count(obstacles, low) + obstacles[low].vertices().len()
            <= vertex_count(obstacles, high),
    decreases high,
{
    if low < high {
        lemma_vertex_count_grows(obstacles, low, high - 1);
    } else if low > 0 {
        lemma_vertex_count_grows(obstacles, low - 1, low - 1);
    }
}

/// The number of marks does not shrink with more of the sequence, and is no
/// more than was looked at.
pub proof fn lemma_marked_grows(marks: Seq<bool>, low: int, high: int)
    requires
        0 <= low <= high,
    ensures
        0 <= marked(marks, low) <= marked(marks, high),
        marked(marks, high) - marked(marks, low) <= high - low,
        low < high && marks[low] ==> marked(marks, low) < marked(marks, high),
    decreases high,
{
    if low < high {
        lemma_marked_grows(marks, low, high - 1);
    } else if low > 0 {
        lemma_marked_grows(marks, low - 1, low - 1);
    }
}

/// The count of reflex vertices does not shrink with more obstacles, and grows
/// by the reflex vertices of each obstacle it takes in.
pub proof fn lemma_corner_count_grows<P>(obstacles: Seq<NavigationObstacle<P>>, low: int, high: int)
    requires
        0 <= low <= high,
    ensures
        0 <= corner_count(obstacles, low) <= corner_count(obstacles, high),
        low < high ==> corner_count(obstacles, low) + marked(
            obstacles[low].reflex(),
            obstacles[low].vertices().len() as int,
        ) <= corner_count(obstacles, high),
    decreases high,
{
    if low < high {
        lemma_corner_count_grows(obstacles, low, high - 1);
        lemma_marked_grows(
            obstacles[high - 1].reflex(),
            0,
            obstacles[high - 1].vertices().len() as int,
        );
    } else if low > 0 {
        lemma_corner_count_grows(obstacles, low - 1, low - 1);
        lemma_marked_grows(
            obstacles[low - 1].reflex(),
            0,
            obstacles[low - 1].vertices().len() as int,
        );
    }
}

/// Nodes are numbered without gaps and without repeats, in the order of their
/// vertices: a reflex vertex `(o1, v1)` has a lower number than is counted up
/// to the place `(o0, v0)` exactly if it comes before that place.
pub proof fn lemma_node_id_orders<P>(
    obstacles: Seq<NavigationObstacle<P>>,
    o0: int,
    v0: int,
    o1: int,
    v1: int,
)
    requires
        0 <= o0 < obstacles.len(),
        0 <= v0 <= obstacles[o0].vertices().len(),
        is_corner(obstacles, o1, v1),
    ensures
        0 <= node_id(obstacles, o0, v0) <= total_corners(obstacles),
        0 <= node_id(obstacles, o1, v1) < total_corners(obstacles),
        node_id(obstacles, o1, v1) < node_id(obstacles, o0, v0) <==> (o1 < o0 || (o1 == o0 && v1
            < v0)),
        is_corner(obstacles, o0, v0) ==> node_id(obstacles, o0, v0) < total_corners(obstacles)
            && (node_id(obstacles, o1, v1) == node_id(obstacles, o0, v0) <==> (o1 == o0 && v1
            == v0)),
{
    let marks0 = obstacles[o0].reflex();
    let marks1 = obstacles[o1].reflex();
    let len0 = obstacles[o0].vertices().len() as int;
    let len1 = obstacles[o1].vertices().len() as int;
    lemma_corner_count_grows(obstacles, o0, obstacles.len() as int);
    lemma_corner_count_grows(obstacles, o1, obstacles.len() as int);
    lemma_marked_grows(marks0, 0, v0);
    lemma_marked_grows(marks0, v0, len0);
    lemma_marked_grows(marks1, 0, v1);
    lemma_marked_grows(marks1, v1, v1 + 1);
    lemma_marked_grows(marks1, v1 + 1, len1);
    if is_corner(obstacles, o0, v0) {
        lemma_marked_grows(marks0, v0, v0 + 1);
        lemma_marked_grows(marks0, v0 + 1, len0);
    }
    if o1 < o0 {
        lemma_corner_count_grows(obstacles, o1, o0);
    } else if o0 < o1 {
        lemma_corner_count_grows(obstacles, o0, o1);
    } else if v1 < v0 {
        lemma_marked_grows(marks0, v1 + 1, v0);
    } else if v0 < v1 {
        lemma_marked_grows(marks0, v0, v1);
        if is_corner(obstacles, o0, v0) {
            lemma_marked_grows(marks0, v0 + 1, v1);
        }
    }
}

/// Among the first `upto` marks, the place of the mark that has `k` marks before
/// it.
pub proof fn lemma_mark_at(marks: Seq<bool>, upto: int, k: int) -> (v: int)
    requires
        0 <= k < marked(marks, upto),
    ensures
        0 <= v < upto,
        marks[v],
        marked(marks, v) == k,
    decreases upto,
{
    if marks[upto - 1] && marked(marks, upto - 1) == k {
        upto - 1
    } else {
        lemma_mark_at(marks, upto - 1, k)
    }
}

/// Every node is the node of a reflex vertex: among the first `upto`
/// obstacles, the reflex vertex that has `id` reflex vertices before it.
pub proof fn lemma_node_has_corner<P>(
    obstacles: Seq<NavigationObstacle<P>>,
    upto: int,
    id: int,
) -> (r: (int, int))
    requires
        0 <= upto <= obstacles.len(),
        0 <= id < corner_count(obstacles, upto),
    ensures
        is_corner(obstacles, r.0, r.1),
        node_id(obstacles, r.0, r.1) == id,
    decreases upto,
{
    let before = corner_count(obstacles, upto - 1);
    if id >= before {
        let v = lemma_mark_at(
            obstacles[upto - 1].reflex(),
            obstacles[upto - 1].vertices().len() as int,
            id - before,
        );
        (upto - 1, v)
    } else {
        lemma_node_has_corner(obstacles, upto - 1, id)
    }
}

/// A plane with a vertex has at least one vertex.
pub proof fn lemma_vertex_is_counted<P>(obstacles: Seq<NavigationObstacle<P>>, o: int, v: int)
    requires
        is_vertex(obstacles, o, v),
    ensures
        total_vertices(obstacles) >= 1,
{
    lemma_vertex_count_grows(obstacles, o, obstacles.len() as int);
    lemma_vertex_count_grows(obstacles, 0, o);
}

/// `in_range` may answer `outcome` when asked whether vertex `(o, v)` can be
/// left towards `target`: the question names the vertex before it, the vertex
/// and the vertex after it.
pub open spec fn range_answer<P, R: Fn(P, P, P, P) -> bool>(
    in_range: &R,
    obstacles: Seq<NavigationObstacle<P>>,
    o: int,
    v: int,
    target: P,
    outcome: bool,
) -> bool {
    let vertices = obstacles[o].vertices();
    in_range.ensures(
        (
            vertices[ring_prev(vertices.len() as int, v)],
            vertices[v],
            vertices[ring_next(vertices.len() as int, v)],
            target,
        ),
        outcome,
    )
}

/// `crosses` may answer `outcome` when asked whether `segment` crosses the
/// boundary segment that starts at vertex `(o, v)`.
pub open spec fn crossing_answer<P, C: Fn(Segment<P>, Segment<P>) -> bool>(
    crosses: &C,
    obstacles: Seq<NavigationObstacle<P>>,
    segment: Segment<P>,
    o: int,
    v: int,
    outcome: bool,
) -> bool {
    crosses.ensures((segment, boundary(obstacles[o].vertices())[v]), outcome)
}

/// No boundary segment of any obstacle crosses `segment`, by the answers of
/// `crosses`.
pub open spec fn way_clear<P, C: Fn(Segment<P>, Segment<P>) -> bool>(
    crosses: &C,
    obstacles: Seq<NavigationObstacle<P>>,
    segment: Segment<P>,
) -> bool {
    forall|o: int, v: int| #[trigger]
        is_vertex(obstacles, o, v) ==> crossing_answer(crosses, obstacles, segment, o, v, false)
}

/// Some boundary segment crosses `segment`, by an answer of `crosses`.
pub open spec fn way_blocked<P, C: Fn(Segment<P>, Segment<P>) -> bool>(
    crosses: &C,
    obstacles: Seq<NavigationObstacle<P>>,
    segment: Segment<P>,
) -> bool {
    exists|o: int, v: int| #[trigger]
        is_vertex(obstacles, o, v) && crossing_answer(crosses, obstacles, segment, o, v, true)
}

/// Where the obstacles have no vertex at all, nothing blocks any segment.
pub proof fn lemma_empty_plane_is_clear<P, C: Fn(Segment<P>, Segment<P>) -> bool>(
    crosses: &C,
    obstacles: Seq<NavigationObstacle<P>>,
    segment: Segment<P>,
)
    requires
        total_vertices(obstacles) == 0,
    ensures
        !way_blocked(crosses, obstacles, segment),
        way_clear(crosses, obstacles, segment),
{
    assert forall|o: int, v: int| !#[trigger] is_vertex(obstacles, o, v) by {
        if is_vertex(obstacles, o, v) {
            lemma_vertex_is_counted(obstacles, o, v);
        }
    }
}

/// The boundary segment that starts at vertex `(oi, si)` is the edge that joins
/// the vertices `(o0, v0)` and `(o1, v1)` of one obstacle, the second right
/// before the first on the ring. The segment between two such neighbours runs
/// along that edge, so the edge is not asked about.
pub open spec fn is_joining_edge<P>(
    obstacles: Seq<NavigationObstacle<P>>,
    o0: int,
    v0: int,
    o1: int,
    v1: int,
    oi: int,
    si: int,
) -> bool {
    o0 == o1 && o1 == oi && ((v1 + 1 == v0 && si == v1) || (v0 == obstacles[o0].vertices().len()
        - 1 && v1 == 0 && si == v0))
}

/// Nothing stands between the vertices `(o0, v0)` and `(o1, v1)`: `crosses`
/// denies a crossing for every boundary segment but the edge that joins them.
pub open spec fn sight_clear<P, C: Fn(Segment<P>, Segment<P>) -> bool>(
    crosses: &C,
    obstacles: Seq<NavigationObstacle<P>>,
    o0: int,
    v0: int,
    o1: int,
    v1: int,
) -> bool {
    forall|oi: int, si: int| #[trigger]
        is_vertex(obstacles, oi, si) && !is_joining_edge(obstacles, o0, v0, o1, v1, oi, si)
            ==> crossing_answer(
            crosses,
            obstacles,
            Segment { p0: place(obstacles, o0, v0), p1: place(obstacles, o1, v1) },
            oi,
            si,
            false,
        )
}

/// Something stands between the two vertices: `crosses` reports a crossing for
/// a boundary segment other than the edge that joins them.
pub open spec fn sight_blocked<P, C: Fn(Segment<P>, Segment<P>) -> bool>(
    crosses: &C,
    obstacles: Seq<NavigationObstacle<P>>,
    o0: int,
    v0: int,
    o1: int,
    v1: int,
) -> bool {
    exists|oi: int, si: int| #[trigger]
        is_vertex(obstacles, oi, si) && !is_joining_edge(obstacles, o0, v0, o1, v1, oi, si)
            && crossing_answer(
            crosses,
            obstacles,
            Segment { p0: place(obstacles, o0, v0), p1: place(obstacles, o1, v1) },
            oi,
            si,
            true,
        )
}

/// The two vertices see each other: each can be left towards the other, and
/// nothing stands between them.
pub open spec fn mutually_visible<
    P,
    R: Fn(P, P, P, P) -> bool,
    C: Fn(Segment<P>, Segment<P>) -> bool,
>(
    in_range: &R,
    crosses: &C,
    obstacles: Seq<NavigationObstacle<P>>,
    o0: int,
    v0: int,
    o1: int,
    v1: int,
) -> bool {
    &&& range_answer(in_range, obstacles, o0, v0, place(obstacles, o1, v1), true)
    &&& range_answer(in_range, obstacles, o1, v1, place(obstacles, o0, v0), true)
    &&& sight_clear(crosses, obstacles, o0, v0, o1, v1)
}

/// The two vertices do not see each other: one of them cannot be left towards
/// the other, or something stands between them.
pub open spec fn mutually_hidden<
    P,
    R: Fn(P, P, P, P) -> bool,
    C: Fn(Segment<P>, Segment<P>) -> bool,
>(
    in_range: &R,
    crosses: &C,
    obstacles: Seq<NavigationObstacle<P>>,
    o0: int,
    v0: int,
    o1: int,
    v1: int,
) -> bool {
    ||| range_answer(in_range, obstacles, o0, v0, place(obstacles, o1, v1), false)
    ||| range_answer(in_range, obstacles, o1, v1, place(obstacles, o0, v0), false)
    ||| sight_blocked(crosses, obstacles, o0, v0, o1, v1)
}

/// A point sees a vertex: the vertex can be left towards the point, and no
/// boundary segment crosses the segment from the point to the vertex.
pub open spec fn point_visible<P, R: Fn(P, P, P, P) -> bool, C: Fn(Segment<P>, Segment<P>) -> bool>(
    in_range: &R,
    crosses: &C,
    obstacles: Seq<NavigationObstacle<P>>,
    o: int,
    v: int,
    point: P,
) -> bool {
    &&& range_answer(in_range, obstacles, o, v, point, true)
    &&& way_clear(crosses, obstacles, Segment { p0: point, p1: place(obstacles, o, v) })
}

/// A point does not see a vertex.
pub open spec fn point_hidden<P, R: Fn(P, P, P, P) -> bool, C: Fn(Segment<P>, Segment<P>) -> bool>(
    in_range: &R,
    crosses: &C,
    obstacles: Seq<NavigationObstacle<P>>,
    o: int,
    v: int,
    point: P,
) -> bool {
    ||| range_answer(in_range, obstacles, o, v, point, false)
    ||| way_blocked(crosses, obstacles, Segment { p0: point, p1: place(obstacles, o, v) })
}

/// Each question about the plane has one answer: neither function answers the
/// same question once with yes and once with no.
pub open spec fn answers_fixed<P, R: Fn(P, P, P, P) -> bool, C: Fn(Segment<P>, Segment<P>) -> bool>(
    in_range: &R,
    crosses: &C,
) -> bool {
    &&& forall|question: (P, P, P, P), first: bool, second: bool|
        #![trigger in_range.ensures(question, first), in_range.ensures(question, second)]
        in_range.ensures(question, first) && in_range.ensures(question, second) ==> first
            == second
    &&& forall|question: (Segment<P>, Segment<P>), first: bool, second: bool|
        #![trigger crosses.ensures(question, first), crosses.ensures(question, second)]
        crosses.ensures(question, first) && crosses.ensures(question, second) ==> first == second
}

/// Where every question has one answer, a segment is either clear or blocked,
/// never both.
pub proof fn lemma_clear_or_blocked<P, R: Fn(P, P, P, P) -> bool, C: Fn(Segment<P>, Segment<P>) -> bool>(
    in_range: &R,
    crosses: &C,
    obstacles: Seq<NavigationObstacle<P>>,
    segment: Segment<P>,
)
    requires
        answers_fixed(in_range, crosses),
    ensures
        !(way_clear(crosses, obstacles, segment) && way_blocked(crosses, obstacles, segment)),
{
    if way_clear(crosses, obstacles, segment) && way_blocked(crosses, obstacles, segment) {
        let (o, v) = choose|o: int, v: int| #[trigger]
            is_vertex(obstacles, o, v) && crossing_answer(
                crosses,
                obstacles,
                segment,
                o,
                v,
                true,
            );
        assert(crossing_answer(crosses, obstacles, segment, o, v, false));
    }
}

/// Where every question has one answer, two vertices either see each other or
/// do not, never both.
pub proof fn lemma_visible_or_hidden<
    P,
    R: Fn(P, P, P, P) -> bool,
    C: Fn(Segment<P>, Segment<P>) -> bool,
>(
    in_range: &R,
    crosses: &C,
    obstacles: Seq<NavigationObstacle<P>>,
    o0: int,
    v0: int,
    o1: int,
    v1: int,
)
    requires
        answers_fixed(in_range, crosses),
    ensures
        !(mutually_visible(in_range, crosses, obstacles, o0, v0, o1, v1) && mutually_hidden(
            in_range,
            crosses,
            obstacles,
            o0,
            v0,
            o1,
            v1,
        )),
{
    if sight_clear(crosses, obstacles, o0, v0, o1, v1) && sight_blocked(
        crosses,
        obstacles,
        o0,
        v0,
        o1,
        v1,
    ) {
        let segment = Segment { p0: place(obstacles, o0, v0), p1: place(obstacles, o1, v1) };
        let (oi, si) = choose|oi: int, si: int| #[trigger]
            is_vertex(obstacles, oi, si) && !is_joining_edge(obstacles, o0, v0, o1, v1, oi, si)
                && crossing_answer(crosses, obstacles, segment, oi, si, true);
        assert(crossing_answer(crosses, obstacles, segment, oi, si, false));
    }
}

/// Asks `crosses` about `segment` and each boundary segment of each obstacle,
/// in order, until one crosses.
pub fn intersects_with_obstacle<P: Copy, C: Fn(Segment<P>, Segment<P>) -> bool>(
    obstacles: &Vec<NavigationObstacle<P>>,
    crosses: &C,
    segment: Segment<P>,
) -> (r: bool)
    requires
        forall|a: Segment<P>, b: Segment<P>| crosses.requires((a, b)),
    ensures
        r ==> way_blocked(crosses, obstacles@, segment),
        !r ==> way_clear(crosses, obstacles@, segment),
{
    let mut oi: usize = 0;
    while oi < obstacles.len()
        invariant
            forall|a: Segment<P>, b: Segment<P>| crosses.requires((a, b)),
            oi <= obstacles@.len(),
            forall|o: int, v: int| #[trigger]
                is_vertex(obstacles@, o, v) && o < oi ==> crossing_answer(
                    crosses,
                    obstacles@,
                    segment,
                    o,
                    v,
                    false,
                ),
        decreases obstacles@.len() - oi,
    {
        let shape = obstacles[oi].shape();
        let mut si: usize = 0;
        while si < shape.vertices.len()
            invariant
                forall|a: Segment<P>, b: Segment<P>| crosses.requires((a, b)),
                oi < obstacles@.len(),
                shape.vertices@ == obstacles@[oi as int].vertices(),
                si <= shape.vertices@.len(),
                forall|o: int, v: int| #[trigger]
                    is_vertex(obstacles@, o, v) && (o < oi || (o == oi && v < si))
                        ==> crossing_answer(crosses, obstacles@, segment, o, v, false),
            decreases shape.vertices@.len() - si,
        {
            if crosses(segment, shape.segment(si)) {
                assert(is_vertex(obstacles@, oi as int, si as int));
                return true;
            }
            si += 1;
        }
        oi += 1;
    }
    false
}

/// Asks `crosses` about the segment between the vertices `(o0, v0)` and
/// `(o1, v1)` and each boundary segment but the edge that joins the two, in
/// order, until one crosses.
pub fn sight_is_blocked<P: Copy, C: Fn(Segment<P>, Segment<P>) -> bool>(
    obstacles: &Vec<NavigationObstacle<P>>,
    crosses: &C,
    first: ShapeVertexIndex,
    second: ShapeVertexIndex,
) -> (r: bool)
    requires
        forall|a: Segment<P>, b: Segment<P>| crosses.requires((a, b)),
        is_vertex(obstacles@, first.shape_index as int, first.vertex_index as int),
        is_vertex(obstacles@, second.shape_index as int, second.vertex_index as int),
    ensures
        r ==> sight_blocked(
            crosses,
            obstacles@,
            first.shape_index as int,
            first.vertex_index as int,
            second.shape_index as int,
            second.vertex_index as int,
        ),
        !r ==> sight_clear(
            crosses,
            obstacles@,
            first.shape_index as int,
            first.vertex_index as int,
            second.shape_index as int,
            second.vertex_index as int,
        ),
{
    let o0 = first.shape_index;
    let v0 = first.vertex_index;
    let o1 = second.shape_index;
    let v1 = second.vertex_index;
    let len0 = obstacles[o0].len();
    let segment = Segment::new(obstacles[o0].shape().vertices[v0], obstacles[o1].shape().vertices[v1]);
    let mut oi: usize = 0;
    while oi < obstacles.len()
        invariant
            forall|a: Segment<P>, b: Segment<P>| crosses.requires((a, b)),
            o0 == first.shape_index && v0 == first.vertex_index,
            o1 == second.shape_index && v1 == second.vertex_index,
            is_vertex(obstacles@, o0 as int, v0 as int),
            is_vertex(obstacles@, o1 as int, v1 as int),
            len0 == obstacles@[o0 as int].vertices().len(),
            segment == (Segment {
                p0: place(obstacles@, o0 as int, v0 as int),
                p1: place(obstacles@, o1 as int, v1 as int),
            }),
            oi <= obstacles@.len(),
            forall|o: int, v: int| #[trigger]
                is_vertex(obstacles@, o, v) && o < oi && !is_joining_edge(
                    obstacles@,
                    o0 as int,
                    v0 as int,
                    o1 as int,
                    v1 as int,
                    o,
                    v,
                ) ==> crossing_answer(crosses, obstacles@, segment, o, v, false),
        decreases obstacles@.len() - oi,
    {
        let shape = obstacles[oi].shape();
        let mut si: usize = 0;
        while si < shape.vertices.len()
            invariant
                forall|a: Segment<P>, b: Segment<P>| crosses.requires((a, b)),
                o0 == first.shape_index && v0 == first.vertex_index,
                o1 == second.shape_index && v1 == second.vertex_index,
                is_vertex(obstacles@, o0 as int, v0 as int),
                is_vertex(obstacles@, o1 as int, v1 as int),
                len0 == obstacles@[o0 as int].vertices().len(),
                segment == (Segment {
                    p0: place(obstacles@, o0 as int, v0 as int),
                    p1: place(obstacles@, o1 as int, v1 as int),
                }),
                oi < obstacles@.len(),
                shape.vertices@ == obstacles@[oi as int].vertices(),
                si <= shape.vertices@.len(),
                forall|o: int, v: int| #[trigger]
                    is_vertex(obstacles@, o, v) && (o < oi || (o == oi && v < si))
                        && !is_joining_edge(
                        obstacles@,
                        o0 as int,
                        v0 as int,
                        o1 as int,
                        v1 as int,
                        o,
                        v,
                    ) ==> crossing_answer(crosses, obstacles@, segment, o, v, false),
            decreases shape.vertices@.len() - si,
        {
            let joining = o0 == o1 && o1 == oi && ((v1 + 1 == v0 && si == v1) || (v0 == len0 - 1
                && v1 == 0 && si == len0 - 1));
            if !joining {
                if crosses(segment, shape.segment(si)) {
                    assert(is_vertex(obstacles@, oi as int, si as int));
                    return true;
                }
            }
            si += 1;
        }
        oi += 1;
    }
    false
}

/// Decides whether two vertices see each other: asks whether the first can be
/// left towards the second, then the second towards the first, then whether
/// anything stands between them, and stops at the first refusal.
pub fn vertices_see_each_other<
    P: Copy,
    R: Fn(P, P, P, P) -> bool,
    C: Fn(Segment<P>, Segment<P>) -> bool,
>(
    obstacles: &Vec<NavigationObstacle<P>>,
    in_range: &R,
    crosses: &C,
    first: ShapeVertexIndex,
    second: ShapeVertexIndex,
) -> (r: bool)
    requires
        forall|a: P, b: P, c: P, d: P| in_range.requires((a, b, c, d)),
        forall|a: Segment<P>, b: Segment<P>| crosses.requires((a, b)),
        is_vertex(obstacles@, first.shape_index as int, first.vertex_index as int),
        is_vertex(obstacles@, second.shape_index as int, second.vertex_index as int),
    ensures
        r ==> mutually_visible(
            in_range,
            crosses,
            obstacles@,
            first.shape_index as int,
            first.vertex_index as int,
            second.shape_index as int,
            second.vertex_index as int,
        ),
        !r ==> mutually_hidden(
            in_range,
            crosses,
            obstacles@,
            first.shape_index as int,
            first.vertex_index as int,
            second.shape_index as int,
            second.vertex_index as int,
        ),
{
    let shape0 = obstacles[first.shape_index].shape();
    let shape1 = obstacles[second.shape_index].shape();
    let vertex0 = shape0.vertices[first.vertex_index];
    let vertex1 = shape1.vertices[second.vertex_index];
    if !in_range(
        shape0.prev_vertex(first.vertex_index),
        vertex0,
        shape0.next_vertex(first.vertex_index),
        vertex1,
    ) {
        return false;
    }
    if !in_range(
        shape1.prev_vertex(second.vertex_index),
        vertex1,
        shape1.next_vertex(second.vertex_index),
        vertex0,
    ) {
        return false;
    }
    !sight_is_blocked(obstacles, crosses, first, second)
}

/// Decides whether a vertex sees a point: asks whether the vertex can be left
/// towards the point, and if so whether anything crosses the segment from the
/// point to the vertex.
pub fn vertex_sees_point<P: Copy, R: Fn(P, P, P, P) -> bool, C: Fn(Segment<P>, Segment<P>) -> bool>(
    obstacles: &Vec<NavigationObstacle<P>>,
    in_range: &R,
    crosses: &C,
    vertex: ShapeVertexIndex,
    point: P,
) -> (r: bool)
    requires
        forall|a: P, b: P, c: P, d: P| in_range.requires((a, b, c, d)),
        forall|a: Segment<P>, b: Segment<P>| crosses.requires((a, b)),
        is_vertex(obstacles@, vertex.shape_index as int, vertex.vertex_index as int),
    ensures
        r ==> point_visible(
            in_range,
            crosses,
            obstacles@,
            vertex.shape_index as int,
            vertex.vertex_index as int,
            point,
        ),
        !r ==> point_hidden(
            in_range,
            crosses,
            obstacles@,
            vertex.shape_index as int,
            vertex.vertex_index as int,
            point,
        ),
{
    let shape = obstacles[vertex.shape_index].shape();
    let place = shape.vertices[vertex.vertex_index];
    in_range(
        shape.prev_vertex(vertex.vertex_index),
        place,
        shape.next_vertex(vertex.vertex_index),
        point,
    ) && !intersects_with_obstacle(obstacles, crosses, Segment::new(point, place))
}

} // verus!

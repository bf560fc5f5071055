//! The graph of one query: the navigation graph with the start and the end of
//! the query attached.
use crate::a_star::{is_path, well_formed, AStarInput};
use crate::cost::Cost;
use crate::flags::Flags;
use crate::graph::{edge, nodes_laid_out, Node};
use crate::obstacle::NavigationObstacle;
use crate::segment::Segment;
use crate::sight::{
    answers_fixed, corner_count, is_corner, lemma_clear_or_blocked, lemma_node_has_corner,
    lemma_node_id_orders, node_id, place, point_hidden, point_visible, total_corners,
    vertex_sees_point,
    ShapeVertexIndex,
};
use vstd::prelude::*;

verus! {

/// The graph of one query: the navigation graph, and behind its nodes the
/// start and the end of the query.
///
/// The start leads to the nodes that see it. A node leads to the nodes that it
/// is linked to, and to the end if it sees the end: only then does the first of
/// its connections, which is the end's id, count.
pub struct NavigationAStarInput<'a, P, D> {
    pub navigation_graph: &'a Vec<Node<P>>,
    pub start_position: P,
    pub start_connections: Vec<usize>,
    pub end_position: P,
    pub end_candidates: Flags,
    pub measure: &'a D,
}

/// The bit pattern of a length that `measure` may give between two places.
pub open spec fn measured<P, D: Fn(P, P) -> Cost>(measure: &D, from: P, to: P) -> u64 {
    (choose|length: Cost| measure.ensures((from, to), length)).spec_bits()
}

impl<'a, P: Copy, D: Fn(P, P) -> Cost> NavigationAStarInput<'a, P, D> {
    /// The place of a node: of the start, of the end, or of a vertex.
    pub open spec fn spec_node_position(&self, node_id: int) -> P {
        if node_id == self.navigation_graph@.len() {
            self.start_position
        } else if node_id == self.navigation_graph@.len() + 1 {
            self.end_position
        } else {
            self.navigation_graph@[node_id].position
        }
    }

    /// The place of a node.
    pub fn get_node_position(&self, node_id: usize) -> (r: P)
        requires
            node_id < self.navigation_graph@.len() + 2,
        ensures
            r == self.spec_node_position(node_id as int),
    {
        if node_id == self.navigation_graph.len() {
            self.start_position
        } else if node_id > self.navigation_graph.len() {
            self.end_position
        } else {
            self.navigation_graph[node_id].position
        }
    }
}

impl<'a, P: Copy, D: Fn(P, P) -> Cost> AStarInput for NavigationAStarInput<'a, P, D> {
    open spec fn valid(&self) -> bool {
        let nodes = self.navigation_graph@.len();
        &&& nodes + 2 <= usize::MAX
        &&& self.end_candidates@.len() == nodes
        &&& forall|a: P, b: P| self.measure.requires((a, b))
        &&& forall|k: int|
            0 <= k < self.start_connections@.len() ==> (#[trigger] self.start_connections@[k])
                < nodes
        &&& forall|i: int, k: int|
            0 <= i < nodes && 0 <= k < self.navigation_graph@[i].connections@.len() ==> {
                let to = #[trigger] self.navigation_graph@[i].connections@[k];
                if k == 0 {
                    to == nodes + 1
                } else {
                    to < nodes
                }
            }
    }

    open spec fn fixed(&self) -> bool {
        forall|a: P, b: P, first: Cost, second: Cost|
            self.measure.ensures((a, b), first) && self.measure.ensures((a, b), second)
                ==> first.spec_bits() == second.spec_bits()
    }

    open spec fn spec_distance(&self, from: int, to: int) -> u64 {
        measured(self.measure, self.spec_node_position(from), self.spec_node_position(to))
    }

    open spec fn spec_heuristic(&self, node: int) -> u64 {
        measured(self.measure, self.spec_node_position(node), self.end_position)
    }

    open spec fn spec_len(&self) -> nat {
        self.navigation_graph@.len() + 2
    }

    open spec fn spec_start(&self) -> nat {
        self.navigation_graph@.len()
    }

    open spec fn spec_end(&self) -> nat {
        self.navigation_graph@.len() + 1
    }

    open spec fn spec_neighbors(&self, node: int) -> Seq<usize> {
        if node == self.navigation_graph@.len() {
            self.start_connections@
        } else {
            let connections = self.navigation_graph@[node].connections@;
            if self.end_candidates@[node] || connections.len() == 0 {
                connections
            } else {
                connections.subrange(1, connections.len() as int)
            }
        }
    }

    fn neighbors(&self, node: usize) -> (r: &[usize]) {
        if node == self.navigation_graph.len() {
            self.start_connections.as_slice()
        } else {
            let connections = self.navigation_graph[node].connections.as_slice();
            if self.end_candidates.get(node) || connections.len() == 0 {
                connections
            } else {
                // A node that does not see the end leaves out the end's id.
                &connections[1..connections.len()]
            }
        }
    }

    fn distance(&self, from: usize, to: usize) -> (r: Cost) {
        (self.measure)(self.get_node_position(from), self.get_node_position(to))
    }

    fn heuristic(&self, node: usize) -> (r: Cost) {
        (self.measure)(self.get_node_position(node), self.end_position)
    }

    fn len(&self) -> (r: usize) {
        self.navigation_graph.len() + 2
    }

    fn start(&self) -> (r: usize) {
        self.navigation_graph.len()
    }

    fn end(&self) -> (r: usize) {
        self.navigation_graph.len() + 1
    }
}

/// Node `id` belongs to a reflex vertex that sees `point`.
pub open spec fn node_sees<P, R: Fn(P, P, P, P) -> bool, C: Fn(Segment<P>, Segment<P>) -> bool>(
    in_range: &R,
    crosses: &C,
    obstacles: Seq<NavigationObstacle<P>>,
    id: int,
    point: P,
) -> bool {
    exists|o: int, v: int| #[trigger]
        is_corner(obstacles, o, v) && node_id(obstacles, o, v) == id && point_visible(
            in_range,
            crosses,
            obstacles,
            o,
            v,
            point,
        )
}

/// `points` is a way from `start` to `end` around the obstacles, bending at the
/// reflex vertices whose nodes are `nodes`: the first of them sees the start,
/// each is linked to the next, and the last sees the end.
pub open spec fn is_route<P, R: Fn(P, P, P, P) -> bool, C: Fn(Segment<P>, Segment<P>) -> bool>(
    in_range: &R,
    crosses: &C,
    obstacles: Seq<NavigationObstacle<P>>,
    graph: Seq<Node<P>>,
    start: P,
    end: P,
    nodes: Seq<usize>,
    points: Seq<P>,
) -> bool {
    &&& nodes.len() >= 1
    &&& points.len() == nodes.len() + 2
    &&& points[0] == start
    &&& points.last() == end
    &&& forall|i: int|
        0 <= i < nodes.len() ==> (#[trigger] nodes[i]) < graph.len() && points[i + 1]
            == graph[nodes[i] as int].position
    &&& node_sees(in_range, crosses, obstacles, nodes[0] as int, start)
    &&& node_sees(in_range, crosses, obstacles, nodes.last() as int, end)
    &&& forall|i: int|
        0 <= i < nodes.len() - 1 ==> edge(graph, #[trigger] nodes[i] as int, nodes[i + 1] as int)
}

/// The nodes below `upto` that see `point`, in ascending order.
pub open spec fn nodes_seeing<P, R: Fn(P, P, P, P) -> bool, C: Fn(Segment<P>, Segment<P>) -> bool>(
    in_range: &R,
    crosses: &C,
    obstacles: Seq<NavigationObstacle<P>>,
    point: P,
    upto: int,
) -> Seq<usize>
    decreases upto,
{
    if upto <= 0 {
        Seq::empty()
    } else {
        let before = nodes_seeing(in_range, crosses, obstacles, point, upto - 1);
        if node_sees(in_range, crosses, obstacles, upto - 1, point) {
            before.push((upto - 1) as usize)
        } else {
            before
        }
    }
}

/// For each of `nodes` nodes, whether it sees `point`.
pub open spec fn marks_seeing<P, R: Fn(P, P, P, P) -> bool, C: Fn(Segment<P>, Segment<P>) -> bool>(
    in_range: &R,
    crosses: &C,
    obstacles: Seq<NavigationObstacle<P>>,
    point: P,
    nodes: nat,
) -> Seq<bool> {
    Seq::new(nodes, |x: int| node_sees(in_range, crosses, obstacles, x, point))
}

/// `input` is the graph of the query from `start` to `end`: the navigation
/// graph, with the start leading to the nodes that see it and the nodes that
/// see the end leading to the end.
pub open spec fn is_query_graph<
    'a,
    P: Copy,
    R: Fn(P, P, P, P) -> bool,
    C: Fn(Segment<P>, Segment<P>) -> bool,
    D: Fn(P, P) -> Cost,
>(
    input: &NavigationAStarInput<'a, P, D>,
    in_range: &R,
    crosses: &C,
    measure: &D,
    obstacles: Seq<NavigationObstacle<P>>,
    graph: Seq<Node<P>>,
    start: P,
    end: P,
) -> bool {
    &&& input.navigation_graph@ == graph
    &&& input.start_position == start
    &&& input.end_position == end
    &&& input.measure == measure
    &&& input.start_connections@ == nodes_seeing(
        in_range,
        crosses,
        obstacles,
        start,
        graph.len() as int,
    )
    &&& input.end_candidates@ == marks_seeing(in_range, crosses, obstacles, end, graph.len())
}

/// The places of the nodes of a path through the graph of a query.
pub open spec fn places_of<'a, P: Copy, D: Fn(P, P) -> Cost>(
    input: &NavigationAStarInput<'a, P, D>,
    ids: Seq<usize>,
) -> Seq<P> {
    ids.map_values(|id: usize| input.spec_node_position(id as int))
}

/// Where every question has one answer, the node of a reflex vertex sees a
/// point exactly if the vertex is not hidden from it.
pub proof fn lemma_node_sees<P, R: Fn(P, P, P, P) -> bool, C: Fn(Segment<P>, Segment<P>) -> bool>(
    in_range: &R,
    crosses: &C,
    obstacles: Seq<NavigationObstacle<P>>,
    o: int,
    v: int,
    point: P,
)
    requires
        answers_fixed(in_range, crosses),
        is_corner(obstacles, o, v),
    ensures
        !(point_visible(in_range, crosses, obstacles, o, v, point) && point_hidden(
            in_range,
            crosses,
            obstacles,
            o,
            v,
            point,
        )),
        node_sees(in_range, crosses, obstacles, node_id(obstacles, o, v), point) <==> point_visible(
            in_range,
            crosses,
            obstacles,
            o,
            v,
            point,
        ),
{
    lemma_clear_or_blocked(
        in_range,
        crosses,
        obstacles,
        Segment { p0: point, p1: place(obstacles, o, v) },
    );
    if node_sees(in_range, crosses, obstacles, node_id(obstacles, o, v), point) {
        let (a, b) = choose|a: int, b: int| #[trigger]
            is_corner(obstacles, a, b) && node_id(obstacles, a, b) == node_id(obstacles, o, v)
                && point_visible(in_range, crosses, obstacles, a, b, point);
        lemma_node_id_orders(obstacles, o, v, a, b);
    }
}

/// A path that the search returns on the graph of a query is a way around the
/// obstacles: past the start it runs through nodes of the navigation graph, the
/// first sees the start, each is linked to the next, and the last sees the end.
pub proof fn lemma_search_path_is_route<
    'a,
    P: Copy,
    R: Fn(P, P, P, P) -> bool,
    C: Fn(Segment<P>, Segment<P>) -> bool,
    D: Fn(P, P) -> Cost,
>(
    input: &NavigationAStarInput<'a, P, D>,
    in_range: &R,
    crosses: &C,
    obstacles: Seq<NavigationObstacle<P>>,
    ids: Seq<usize>,
    points: Seq<P>,
)
    requires
        well_formed(input),
        is_path(input, ids),
        points.len() == ids.len(),
        forall|i: int| 0 <= i < ids.len() ==> points[i] == input.spec_node_position(ids[i] as int),
        forall|k: int|
            0 <= k < input.start_connections@.len() ==> node_sees(
                in_range,
                crosses,
                obstacles,
                (#[trigger] input.start_connections@[k]) as int,
                input.start_position,
            ),
        forall|x: int|
            0 <= x < input.navigation_graph@.len() && #[trigger] input.end_candidates@[x]
                ==> node_sees(in_range, crosses, obstacles, x, input.end_position),
    ensures
        ids.len() >= 3,
        is_route(
            in_range,
            crosses,
            obstacles,
            input.navigation_graph@,
            input.start_position,
            input.end_position,
            ids.subrange(1, ids.len() - 1),
            points,
        ),
{
    let n = input.navigation_graph@.len() as int;
    let graph = input.navigation_graph@;
    let last = ids.len() - 1;
    assert(ids[0] == n && ids[last] == n + 1);
    assert(ids.len() >= 2);
    // The node after the start is one that sees the start.
    let first = choose|k: int|
        0 <= k < input.spec_neighbors(ids[0] as int).len() && input.spec_neighbors(
            ids[0] as int,
        )[k] == ids[1];
    assert(input.start_connections@[first] == ids[1]);
    assert(ids.len() >= 3);
    // Every node between the start and the end is a node of the navigation graph.
    assert forall|i: int| 1 <= i < last implies (#[trigger] ids[i]) < n by {
        let from = ids[i - 1] as int;
        let k = choose|k: int|
            0 <= k < input.spec_neighbors(from).len() && input.spec_neighbors(from)[k] == ids[i];
        if from != n {
            let connections = graph[from].connections@;
            if input.end_candidates@[from] || connections.len() == 0 {
                assert(connections[k] == ids[i]);
            } else {
                assert(connections[k + 1] == ids[i]);
            }
        } else {
            assert(input.start_connections@[k] == ids[i]);
        }
    }
    let nodes = ids.subrange(1, last);
    assert forall|i: int| 0 <= i < nodes.len() - 1 implies edge(
        graph,
        #[trigger] nodes[i] as int,
        nodes[i + 1] as int,
    ) by {
        let from = ids[i + 1] as int;
        let to = ids[i + 2];
        assert(ids[i + 1] < n);
        assert(ids[i + 2] < n);
        let k = choose|k: int|
            0 <= k < input.spec_neighbors(from).len() && input.spec_neighbors(from)[k] == to;
        let connections = graph[from].connections@;
        if input.end_candidates@[from] || connections.len() == 0 {
            assert(connections[k] == to);
            assert(k != 0);
        } else {
            assert(connections[k + 1] == to);
        }
    }
    // The node before the end is one that sees the end.
    assert(node_sees(in_range, crosses, obstacles, nodes.last() as int, input.end_position)) by {
        let from = ids[last - 1] as int;
        assert(ids[last - 1] < n);
        let k = choose|k: int|
            0 <= k < input.spec_neighbors(from).len() && input.spec_neighbors(from)[k]
                == ids[last];
        let connections = graph[from].connections@;
        if !(input.end_candidates@[from] || connections.len() == 0) {
            assert(connections[k + 1] == ids[last]);
        }
    }
    assert forall|i: int| 0 <= i < nodes.len() implies (#[trigger] nodes[i]) < graph.len()
        && points[i + 1] == graph[nodes[i] as int].position by {
        assert(ids[i + 1] < n);
    }
}

/// `point` is the place of a reflex vertex of some obstacle.
pub open spec fn at_a_corner<P>(obstacles: Seq<NavigationObstacle<P>>, point: P) -> bool {
    exists|o: int, v: int| #[trigger] is_corner(obstacles, o, v) && place(obstacles, o, v) == point
}

/// A route has at least three points, and each of them but the first and the
/// last is the place of a reflex vertex.
pub proof fn lemma_route_bends_at_corners<
    P,
    R: Fn(P, P, P, P) -> bool,
    C: Fn(Segment<P>, Segment<P>) -> bool,
>(
    in_range: &R,
    crosses: &C,
    obstacles: Seq<NavigationObstacle<P>>,
    graph: Seq<Node<P>>,
    start: P,
    end: P,
    nodes: Seq<usize>,
    points: Seq<P>,
)
    requires
        is_route(in_range, crosses, obstacles, graph, start, end, nodes, points),
        graph.len() == total_corners(obstacles),
        nodes_laid_out(obstacles, graph, graph.len() as int),
    ensures
        points.len() >= 3,
        points[0] == start,
        points.last() == end,
        forall|i: int| 0 < i < points.len() - 1 ==> at_a_corner(obstacles, #[trigger] points[i]),
{
    assert forall|i: int| 0 < i < points.len() - 1 implies at_a_corner(
        obstacles,
        #[trigger] points[i],
    ) by {
        let id = nodes[i - 1] as int;
        assert(id < graph.len());
        let (o, v) = lemma_node_has_corner(obstacles, obstacles.len() as int, id);
        assert(is_corner(obstacles, o, v) && place(obstacles, o, v) == points[i]);
    }
}

/// Finds the nodes that see the start of a query and marks those that see its
/// end, going through the vertices in the order of their nodes and asking only
/// about the reflex ones.
pub fn query_connections<P: Copy, R: Fn(P, P, P, P) -> bool, C: Fn(Segment<P>, Segment<P>) -> bool>(
    obstacles: &Vec<NavigationObstacle<P>>,
    in_range: &R,
    crosses: &C,
    start: P,
    end: P,
    nodes_count: usize,
) -> (r: (Vec<usize>, Flags))
    requires
        forall|a: P, b: P, c: P, d: P| in_range.requires((a, b, c, d)),
        forall|a: Segment<P>, b: Segment<P>| crosses.requires((a, b)),
        nodes_count == total_corners(obstacles@),
    ensures
        r.1@.len() == nodes_count,
        forall|k: int|
            0 <= k < r.0@.len() ==> (#[trigger] r.0@[k]) < nodes_count && node_sees(
                in_range,
                crosses,
                obstacles@,
                r.0@[k] as int,
                start,
            ),
        forall|x: int|
            0 <= x < nodes_count && #[trigger] r.1@[x] ==> node_sees(
                in_range,
                crosses,
                obstacles@,
                x,
                end,
            ),
        answers_fixed(in_range, crosses) ==> r.0@ == nodes_seeing(
            in_range,
            crosses,
            obstacles@,
            start,
            nodes_count as int,
        ) && r.1@ == marks_seeing(in_range, crosses, obstacles@, end, nodes_count as nat),
{
    let mut node_id: usize = 0;
    let mut start_connections: Vec<usize> = Vec::new();
    let mut end_candidates = Flags::new_fill(false, nodes_count);
    let mut o: usize = 0;
    while o < obstacles.len()
        invariant
            forall|a: P, b: P, c: P, d: P| in_range.requires((a, b, c, d)),
            forall|a: Segment<P>, b: Segment<P>| crosses.requires((a, b)),
            nodes_count == total_corners(obstacles@),
            o <= obstacles@.len(),
            node_id == corner_count(obstacles@, o as int),
            end_candidates@.len() == nodes_count,
            forall|k: int|
                0 <= k < start_connections@.len() ==> (#[trigger] start_connections@[k])
                    < nodes_count && node_sees(
                    in_range,
                    crosses,
                    obstacles@,
                    start_connections@[k] as int,
                    start,
                ),
            forall|x: int|
                0 <= x < nodes_count && #[trigger] end_candidates@[x] ==> node_sees(
                    in_range,
                    crosses,
                    obstacles@,
                    x,
                    end,
                ),
            answers_fixed(in_range, crosses) ==> start_connections@ == nodes_seeing(
                in_range,
                crosses,
                obstacles@,
                start,
                node_id as int,
            ),
            answers_fixed(in_range, crosses) ==> forall|x: int|
                0 <= x < nodes_count ==> #[trigger] end_candidates@[x] == (x < node_id
                    && node_sees(in_range, crosses, obstacles@, x, end)),
        decreases obstacles@.len() - o,
    {
        let obstacle = &obstacles[o];
        let vertices = obstacle.len();
        let mut v: usize = 0;
        while v < vertices
            invariant
                forall|a: P, b: P, c: P, d: P| in_range.requires((a, b, c, d)),
                forall|a: Segment<P>, b: Segment<P>| crosses.requires((a, b)),
                nodes_count == total_corners(obstacles@),
                    o < obstacles@.len(),
                obstacle == &obstacles@[o as int],
                vertices == obstacles@[o as int].vertices().len(),
                v <= vertices,
                node_id == crate::sight::node_id(obstacles@, o as int, v as int),
                end_candidates@.len() == nodes_count,
                forall|k: int|
                    0 <= k < start_connections@.len() ==> (#[trigger] start_connections@[k])
                        < nodes_count && node_sees(
                        in_range,
                        crosses,
                        obstacles@,
                        start_connections@[k] as int,
                        start,
                    ),
                forall|x: int|
                    0 <= x < nodes_count && #[trigger] end_candidates@[x] ==> node_sees(
                        in_range,
                        crosses,
                        obstacles@,
                        x,
                        end,
                    ),
                answers_fixed(in_range, crosses) ==> start_connections@ == nodes_seeing(
                    in_range,
                    crosses,
                    obstacles@,
                    start,
                    node_id as int,
                ),
                answers_fixed(in_range, crosses) ==> forall|x: int|
                    0 <= x < nodes_count ==> #[trigger] end_candidates@[x] == (x < node_id
                        && node_sees(in_range, crosses, obstacles@, x, end)),
            decreases vertices - v,
        {
            // Only reflex vertices have nodes; the others are passed over.
            if obstacle.is_reflex(v) {
                let vertex = ShapeVertexIndex { shape_index: o, vertex_index: v };
                proof {
                    assert(is_corner(obstacles@, o as int, v as int));
                    lemma_node_id_orders(obstacles@, o as int, v as int, o as int, v as int);
                    if answers_fixed(in_range, crosses) {
                        lemma_node_sees(in_range, crosses, obstacles@, o as int, v as int, start);
                        lemma_node_sees(in_range, crosses, obstacles@, o as int, v as int, end);
                    }
                }
                if vertex_sees_point(obstacles, in_range, crosses, vertex, start) {
                    start_connections.push(node_id);
                }
                if vertex_sees_point(obstacles, in_range, crosses, vertex, end) {
                    end_candidates.set(node_id, true);
                }
                node_id += 1;
            }
            v += 1;
        }
        o += 1;
    }
    proof {
        if answers_fixed(in_range, crosses) {
            assert(end_candidates@ == marks_seeing(
                in_range,
                crosses,
                obstacles@,
                end,
                nodes_count as nat,
            ));
        }
    }
    (start_connections, end_candidates)
}

/// The places of the nodes of a path, in order.
pub fn path_places<'a, P: Copy, D: Fn(P, P) -> Cost>(
    input: &NavigationAStarInput<'a, P, D>,
    ids: &Vec<usize>,
) -> (r: Vec<P>)
    requires
        forall|i: int| 0 <= i < ids@.len() ==> (#[trigger] ids@[i]) < input.navigation_graph@.len() + 2,
    ensures
        r@ == places_of(input, ids@),
{
    let mut points: Vec<P> = Vec::new();
    let mut i: usize = 0;
    while i < ids.len()
        invariant
            i <= ids@.len(),
            forall|i: int|
                0 <= i < ids@.len() ==> (#[trigger] ids@[i]) < input.navigation_graph@.len() + 2,
            points@.len() == i,
            forall|j: int| 0 <= j < i ==> points@[j] == input.spec_node_position(ids@[j] as int),
        decreases ids@.len() - i,
    {
        points.push(input.get_node_position(ids[i]));
        i += 1;
    }
    assert(points@ == places_of(input, ids@));
    points
}

} // verus!

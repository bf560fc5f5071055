//! Path queries on a set of obstacles.
use crate::a_star::{a_star, is_path, well_formed, AStarInput};
use crate::cheapest::lengths_are_costs;
use crate::reach::{lengths_keep_finite, sums_do_not_shrink};
use crate::cost::Cost;
use crate::graph::{build_navigation_graph, graph_structure, links_in_order, links_justified, Node};
use crate::obstacle::NavigationObstacle;
use crate::query::{
    at_a_corner, is_query_graph, is_route, lemma_route_bends_at_corners,
    lemma_search_path_is_route, path_places, places_of, query_connections, NavigationAStarInput,
};
use crate::search::search;
use crate::segment::Segment;
use crate::shape::Shape;
use crate::sight::{
    answers_fixed, intersects_with_obstacle, lemma_clear_or_blocked, lemma_empty_plane_is_clear,
    total_corners, total_vertices, way_blocked, way_clear,
};
use vstd::prelude::*;

verus! {


/// The obstacles of a plane, their navigation graph, and the three functions
/// that measure the plane: `in_range(before, vertex, after, target)` says
/// whether a vertex can be left towards a target, `crosses(segment, boundary)`
/// whether a segment crosses a boundary segment, and `measure(from, to)` gives
/// the length between two places.
///
/// The graph is built once and serves every query; a query adds its two
/// endpoints on its own side and leaves the graph as it is.
pub struct Navigation<
    P,
    R: Fn(P, P, P, P) -> bool,
    C: Fn(Segment<P>, Segment<P>) -> bool,
    D: Fn(P, P) -> Cost,
> {
    obstacles: Vec<NavigationObstacle<P>>,
    navigation_graph: Vec<Node<P>>,
    in_range: R,
    crosses: C,
    measure: D,
}

impl<
    P,
    R: Fn(P, P, P, P) -> bool,
    C: Fn(Segment<P>, Segment<P>) -> bool,
    D: Fn(P, P) -> Cost,
> Navigation<P, R, C, D> {
    #[verifier::type_invariant]
    spec fn graph_fits(self) -> bool {
        &&& forall|a: P, b: P, c: P, d: P| self.in_range.requires((a, b, c, d))
        &&& forall|a: Segment<P>, b: Segment<P>| self.crosses.requires((a, b))
        &&& forall|a: P, b: P| self.measure.requires((a, b))
        &&& self.navigation_graph@.len() == total_corners(self.obstacles@)
        &&& self.navigation_graph@.len() + 2 <= usize::MAX
        &&& graph_structure(
            self.obstacles@,
            self.navigation_graph@,
            self.navigation_graph@.len() as int,
        )
        &&& links_justified(
            self.obstacles@,
            self.navigation_graph@,
            &self.in_range,
            &self.crosses,
        )
    }

    /// The obstacles.
    pub closed spec fn obstacles(&self) -> Seq<NavigationObstacle<P>> {
        self.obstacles@
    }

    /// The nodes of the navigation graph.
    pub closed spec fn graph(&self) -> Seq<Node<P>> {
        self.navigation_graph@
    }

    /// The function that says whether a vertex can be left towards a target.
    pub closed spec fn in_range(&self) -> R {
        self.in_range
    }

    /// The function that says whether a segment crosses a boundary segment.
    pub closed spec fn crosses(&self) -> C {
        self.crosses
    }

    /// The function that gives the length between two places.
    pub closed spec fn measure(&self) -> D {
        self.measure
    }
}

impl<
    P: Copy,
    R: Fn(P, P, P, P) -> bool,
    C: Fn(Segment<P>, Segment<P>) -> bool,
    D: Fn(P, P) -> Cost,
> Navigation<P, R, C, D> {
    /// Takes the obstacles and the three functions that measure the plane, and
    /// builds the navigation graph: a link between every two reflex vertices
    /// that see each other.
    pub fn new(obstacles: Vec<NavigationObstacle<P>>, in_range: R, crosses: C, measure: D) -> (r:
        Navigation<P, R, C, D>)
        requires
            forall|a: P, b: P, c: P, d: P| in_range.requires((a, b, c, d)),
            forall|a: Segment<P>, b: Segment<P>| crosses.requires((a, b)),
            forall|a: P, b: P| measure.requires((a, b)),
            total_corners(obstacles@) + 2 <= usize::MAX,
        ensures
            r.obstacles() == obstacles@,
            r.in_range() == in_range,
            r.crosses() == crosses,
            r.measure() == measure,
            r.graph().len() == total_corners(obstacles@),
            graph_structure(r.obstacles(), r.graph(), r.graph().len() as int),
            links_justified(r.obstacles(), r.graph(), &in_range, &crosses),
    {
        let navigation_graph = build_navigation_graph(&obstacles, &in_range, &crosses);
        Navigation { obstacles, navigation_graph, in_range, crosses, measure }
    }

    /// The number of nodes of the navigation graph: one for each reflex vertex
    /// of each obstacle. With it comes what holds of every navigation graph.
    pub fn node_count(&self) -> (r: usize)
        ensures
            r == self.graph().len(),
            r == total_corners(self.obstacles()),
            graph_structure(self.obstacles(), self.graph(), r as int),
            links_justified(self.obstacles(), self.graph(), &self.in_range(), &self.crosses()),
    {
        proof {
            use_type_invariant(self);
        }
        self.navigation_graph.len()
    }
}

impl<
    P: Copy,
    R: Fn(P, P, P, P) -> bool,
    C: Fn(Segment<P>, Segment<P>) -> bool,
    D: Fn(P, P) -> Cost,
> Navigation<P, R, C, D> {
    /// Finds a way from `start` to `end` that crosses no obstacle.
    ///
    /// Where no boundary segment crosses the segment from `start` to `end`, the
    /// way is that segment. Otherwise the nodes that see the start and those
    /// that see the end are found, and the search runs on the navigation graph
    /// with the two endpoints attached. The way then has at least three points
    /// and bends only at reflex vertices. Nothing is returned where the search
    /// finds no way.
    ///
    /// Where each question about the plane has one answer, the result is that
    /// of `search` on the graph of the query.
    pub fn find_path(&self, start: P, end: P) -> (r: Option<Vec<P>>)
        ensures
            !way_blocked(&self.crosses(), self.obstacles(), Segment { p0: start, p1: end })
                ==> r.is_some() && r.unwrap()@ == seq![start, end],
            total_vertices(self.obstacles()) == 0 ==> r.is_some() && r.unwrap()@ == seq![
                start,
                end,
            ],
            r.is_none() ==> way_blocked(
                &self.crosses(),
                self.obstacles(),
                Segment { p0: start, p1: end },
            ),
            r.is_some() ==> (r.unwrap()@ == seq![start, end] && way_clear(
                &self.crosses(),
                self.obstacles(),
                Segment { p0: start, p1: end },
            )) || (way_blocked(&self.crosses(), self.obstacles(), Segment { p0: start, p1: end })
                && exists|nodes: Seq<usize>| #[trigger]
                is_route(
                    &self.in_range(),
                    &self.crosses(),
                    self.obstacles(),
                    self.graph(),
                    start,
                    end,
                    nodes,
                    r.unwrap()@,
                )),
            answers_fixed(&self.in_range(), &self.crosses()) && way_blocked(
                &self.crosses(),
                self.obstacles(),
                Segment { p0: start, p1: end },
            ) ==> exists|input: NavigationAStarInput<P, D>|
                {
                    &&& #[trigger] is_query_graph(
                        &input,
                        &self.in_range(),
                        &self.crosses(),
                        &self.measure(),
                        self.obstacles(),
                        self.graph(),
                        start,
                        end,
                    )
                    &&& well_formed(&input)
                    &&& input.fixed() ==> match search(&input) {
                        Some(ids) => r.is_some() && r.unwrap()@ == places_of(&input, ids),
                        None => r.is_none(),
                    }
                    &&& input.fixed() && sums_do_not_shrink() && lengths_are_costs(&input)
                        && lengths_keep_finite(&input) ==> (r.is_some() <==> exists|
                        way: Seq<usize>,
                    | #![trigger is_path(&input, way)] is_path(&input, way))
                },
            r.is_some() && r.unwrap()@ != seq![start, end] ==> {
                &&& r.unwrap()@.len() >= 3
                &&& r.unwrap()@[0] == start
                &&& r.unwrap()@.last() == end
                &&& forall|i: int|
                    0 < i < r.unwrap()@.len() - 1 ==> at_a_corner(
                        self.obstacles(),
                        #[trigger] r.unwrap()@[i],
                    )
            },
    {
        let in_range = &self.in_range;
        let crosses = &self.crosses;
        let measure = &self.measure;
        proof {
            use_type_invariant(self);
            if total_vertices(self.obstacles@) == 0 {
                lemma_empty_plane_is_clear(
                    crosses,
                    self.obstacles@,
                    Segment { p0: start, p1: end },
                );
            }
            if answers_fixed(in_range, crosses) {
                lemma_clear_or_blocked(
                    in_range,
                    crosses,
                    self.obstacles@,
                    Segment { p0: start, p1: end },
                );
            }
        }
        if !intersects_with_obstacle(&self.obstacles, crosses, Segment::new(start, end)) {
            let mut direct: Vec<P> = Vec::new();
            direct.push(start);
            direct.push(end);
            assert(direct@ == seq![start, end]);
            return Some(direct);
        }
        let nodes_count = self.navigation_graph.len();
        let (start_connections, end_candidates) = query_connections(
            &self.obstacles,
            in_range,
            crosses,
            start,
            end,
            nodes_count,
        );
        let a_star_input = NavigationAStarInput {
            navigation_graph: &self.navigation_graph,
            start_position: start,
            start_connections,
            end_position: end,
            end_candidates,
            measure,
        };
        assert(well_formed(&a_star_input)) by {
            assert forall|node: int, k: int|
                0 <= node < a_star_input.spec_len() && node != a_star_input.spec_end() && 0 <= k
                    < a_star_input.spec_neighbors(node).len() implies (
            #[trigger] a_star_input.spec_neighbors(node)[k]) < a_star_input.spec_len() by {
                if node < nodes_count {
                    let connections = self.navigation_graph@[node].connections@;
                    if a_star_input.end_candidates@[node] || connections.len() == 0 {
                        assert(a_star_input.spec_neighbors(node)[k] == connections[k]);
                    } else {
                        assert(a_star_input.spec_neighbors(node)[k] == connections[k + 1]);
                    }
                }
            }
        }
        proof {
            if answers_fixed(in_range, crosses) {
                assert(is_query_graph(
                    &a_star_input,
                    &self.in_range(),
                    &self.crosses(),
                    &self.measure(),
                    self.obstacles(),
                    self.graph(),
                    start,
                    end,
                ));
            }
        }
        let found = a_star(&a_star_input);
        if found.is_none() {
            return None;
        }
        let ids = found.unwrap();
        let path = Some(path_places(&a_star_input, &ids));
        proof {
            lemma_search_path_is_route(
                &a_star_input,
                in_range,
                crosses,
                self.obstacles@,
                ids@,
                path.unwrap()@,
            );
            assert(is_route(
                &self.in_range(),
                &self.crosses(),
                self.obstacles(),
                self.graph(),
                start,
                end,
                ids@.subrange(1, ids@.len() - 1),
                path.unwrap()@,
            ));
            lemma_route_bends_at_corners(
                &self.in_range(),
                &self.crosses(),
                self.obstacles(),
                self.graph(),
                start,
                end,
                ids@.subrange(1, ids@.len() - 1),
                path.unwrap()@,
            );
        }
        path
    }
}

/// The links that leave node `i`, as segments from its place to the place of
/// each node that it is linked to.
pub open spec fn node_segments<P>(graph: Seq<Node<P>>, i: int) -> Seq<Segment<P>> {
    Seq::new(
        if graph[i].connections@.len() >= 1 {
            (graph[i].connections@.len() - 1) as nat
        } else {
            0nat
        },
        |k: int|
            Segment {
                p0: graph[i].position,
                p1: graph[graph[i].connections@[k + 1] as int].position,
            },
    )
}

/// The links that leave the first `upto` nodes, node by node.
pub open spec fn link_segments<P>(graph: Seq<Node<P>>, upto: int) -> Seq<Segment<P>>
    decreases upto,
{
    if upto <= 0 {
        Seq::empty()
    } else {
        link_segments(graph, upto - 1) + node_segments(graph, upto - 1)
    }
}

/// A look inside a `Navigation`, for drawing it. Nothing here changes it.
pub trait NavigationInternal<P> {
    /// The links of the navigation graph as segments, each in both directions.
    spec fn spec_internal_navigation_graph(&self) -> Seq<Segment<P>>;

    /// The outlines of the obstacles, as their vertices.
    spec fn spec_internal_obstacles(&self) -> Seq<Seq<P>>;

    /// Every link of the navigation graph, as a segment.
    fn internal_navigation_graph(&self) -> (r: Vec<Segment<P>>)
        ensures
            r@ == self.spec_internal_navigation_graph(),
    ;

    /// The outline of every obstacle.
    fn internal_obstacles(&self) -> (r: Vec<&Shape<P>>)
        ensures
            r@.len() == self.spec_internal_obstacles().len(),
            forall|i: int|
                0 <= i < r@.len() ==> (#[trigger] r@[i]).vertices@
                    == self.spec_internal_obstacles()[i],
    ;
}

impl<
    P: Copy,
    R: Fn(P, P, P, P) -> bool,
    C: Fn(Segment<P>, Segment<P>) -> bool,
    D: Fn(P, P) -> Cost,
> NavigationInternal<P> for Navigation<P, R, C, D> {
    open spec fn spec_internal_navigation_graph(&self) -> Seq<Segment<P>> {
        link_segments(self.graph(), self.graph().len() as int)
    }

    open spec fn spec_internal_obstacles(&self) -> Seq<Seq<P>> {
        Seq::new(self.obstacles().len(), |i: int| self.obstacles()[i].vertices())
    }

    fn internal_navigation_graph(&self) -> (r: Vec<Segment<P>>) {
        proof {
            use_type_invariant(self);
        }
        let mut segments: Vec<Segment<P>> = Vec::new();
        let mut i: usize = 0;
        while i < self.navigation_graph.len()
            invariant
                i <= self.navigation_graph@.len(),
                links_in_order(self.navigation_graph@),
                segments@ == link_segments(self.navigation_graph@, i as int),
            decreases self.navigation_graph@.len() - i,
        {
            let node0 = &self.navigation_graph[i];
            let ghost done = segments@;
            let mut k: usize = 1;
            while k < node0.connections.len()
                invariant
                    i < self.navigation_graph@.len(),
                    node0 == &self.navigation_graph@[i as int],
                    links_in_order(self.navigation_graph@),
                    1 <= k,
                    k <= node0.connections@.len() || (node0.connections@.len() == 0 && k == 1),
                    segments@.len() == done.len() + k - 1,
                    forall|j: int| 0 <= j < done.len() ==> segments@[j] == done[j],
                    forall|j: int|
                        0 <= j < k - 1 ==> segments@[done.len() + j] == node_segments(
                            self.navigation_graph@,
                            i as int,
                        )[j],
                decreases node0.connections@.len() - k,
            {
                let to = node0.connections[k];
                segments.push(Segment::new(node0.position, self.navigation_graph[to].position));
                k += 1;
            }
            proof {
                let added = node_segments(self.navigation_graph@, i as int);
                assert(segments@.len() == done.len() + added.len());
                assert forall|j: int| 0 <= j < segments@.len() implies segments@[j] == (done
                    + added)[j] by {
                    if j >= done.len() {
                        assert(segments@[done.len() + (j - done.len())] == added[j - done.len()]);
                    }
                }
                assert(segments@ =~= done + added);
            }
            i += 1;
        }
        segments
    }

    fn internal_obstacles(&self) -> (r: Vec<&Shape<P>>) {
        let mut outlines: Vec<&Shape<P>> = Vec::new();
        let mut i: usize = 0;
        while i < self.obstacles.len()
            invariant
                i <= self.obstacles@.len(),
                outlines@.len() == i,
                forall|j: int|
                    0 <= j < i ==> (#[trigger] outlines@[j]).vertices@
                        == self.obstacles@[j].vertices(),
            decreases self.obstacles@.len() - i,
        {
            outlines.push(self.obstacles[i].shape());
            i += 1;
        }
        outlines
    }
}

} // verus!

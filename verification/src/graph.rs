//! The navigation graph: one node for each reflex vertex of each obstacle, and a
//! link between every two of them that see each other.
use crate::obstacle::NavigationObstacle;
use crate::segment::Segment;
use crate::sight::{
    answers_fixed, corner_count, is_corner, is_vertex, lemma_node_id_orders,
    lemma_visible_or_hidden, mutually_hidden, mutually_visible, node_id, place, total_corners,
    vertices_see_each_other, ShapeVertexIndex,
};
use vstd::prelude::*;

verus! {

/// A node of the navigation graph: a reflex vertex of an obstacle. A vertex
/// that is not reflex has no node.
///
/// The node keeps in `connections`, first, the id that the end of a query has,
/// and behind it the nodes that the vertex sees, by ascending id. That first
/// entry stands for a link that a query may turn out to have; it is no link of
/// the graph.
pub struct Node<P> {
    pub connections: Vec<usize>,
    pub position: P,
}

/// Whether `connections` holds a link to `node`: behind the first entry.
pub open spec fn has_link(connections: Seq<usize>, node: int) -> bool {
    exists|k: int| 1 <= k < connections.len() && #[trigger] connections[k] == node
}

/// Whether the graph links `from` to `to`.
pub open spec fn edge<P>(graph: Seq<Node<P>>, from: int, to: int) -> bool {
    has_link(graph[from].connections@, to)
}

/// The links are in ascending order.
pub open spec fn ascending_links(connections: Seq<usize>) -> bool {
    forall|k: int, l: int| 1 <= k < l < connections.len() ==> connections[k] < connections[l]
}

/// Every reflex vertex whose node the graph has so far is at the place of its
/// node.
pub open spec fn nodes_laid_out<P>(
    obstacles: Seq<NavigationObstacle<P>>,
    graph: Seq<Node<P>>,
    nodes: int,
) -> bool {
    forall|o: int, v: int| #[trigger]
        is_corner(obstacles, o, v) && node_id(obstacles, o, v) < graph.len() ==> graph[node_id(
            obstacles,
            o,
            v,
        )].position == place(obstacles, o, v)
}

/// The first connection of every node is the id `nodes + 1`.
pub open spec fn end_comes_first<P>(graph: Seq<Node<P>>, nodes: int) -> bool {
    forall|i: int|
        0 <= i < graph.len() ==> (#[trigger] graph[i]).connections@.len() >= 1
            && graph[i].connections@[0] == nodes + 1
}

/// Every link leads to another node of the graph, never to the node itself,
/// and the links of a node ascend.
pub open spec fn links_in_order<P>(graph: Seq<Node<P>>) -> bool {
    forall|i: int|
        0 <= i < graph.len() ==> {
            &&& ascending_links(#[trigger] graph[i].connections@)
            &&& forall|k: int|
                1 <= k < graph[i].connections@.len() ==> graph[i].connections@[k] < graph.len()
                    && graph[i].connections@[k] != i
        }
}

/// Wherever one node links to another, the other links back.
pub open spec fn links_symmetric<P>(graph: Seq<Node<P>>) -> bool {
    forall|i: int, j: int|
        0 <= i < graph.len() && 0 <= j < graph.len() && #[trigger] edge(graph, i, j) ==> edge(
            graph,
            j,
            i,
        )
}

/// Two reflex vertices are linked only if they see each other, and left
/// unlinked only if they do not, as far as the graph has nodes for both.
pub open spec fn links_justified<
    P,
    R: Fn(P, P, P, P) -> bool,
    C: Fn(Segment<P>, Segment<P>) -> bool,
>(
    obstacles: Seq<NavigationObstacle<P>>,
    graph: Seq<Node<P>>,
    in_range: &R,
    crosses: &C,
) -> bool {
    forall|o0: int, v0: int, o1: int, v1: int|
        #![trigger is_corner(obstacles, o0, v0), is_corner(obstacles, o1, v1)]
        is_corner(obstacles, o0, v0) && is_corner(obstacles, o1, v1) && node_id(obstacles, o1, v1)
            < node_id(obstacles, o0, v0) < graph.len() ==> if edge(
            graph,
            node_id(obstacles, o0, v0),
            node_id(obstacles, o1, v1),
        ) {
            mutually_visible(in_range, crosses, obstacles, o0, v0, o1, v1)
        } else {
            mutually_hidden(in_range, crosses, obstacles, o0, v0, o1, v1)
        }
}

/// Where every question has one answer, the links of the graph are the pairs of
/// reflex vertices that see each other, no more and no fewer, in both
/// directions.
pub proof fn lemma_links_are_the_visible_pairs<
    P,
    R: Fn(P, P, P, P) -> bool,
    C: Fn(Segment<P>, Segment<P>) -> bool,
>(
    obstacles: Seq<NavigationObstacle<P>>,
    graph: Seq<Node<P>>,
    in_range: &R,
    crosses: &C,
    o0: int,
    v0: int,
    o1: int,
    v1: int,
)
    requires
        answers_fixed(in_range, crosses),
        graph.len() == total_corners(obstacles),
        links_symmetric(graph),
        links_justified(obstacles, graph, in_range, crosses),
        is_corner(obstacles, o0, v0),
        is_corner(obstacles, o1, v1),
        node_id(obstacles, o1, v1) < node_id(obstacles, o0, v0),
    ensures
        edge(graph, node_id(obstacles, o0, v0), node_id(obstacles, o1, v1)) <==> mutually_visible(
            in_range,
            crosses,
            obstacles,
            o0,
            v0,
            o1,
            v1,
        ),
        edge(graph, node_id(obstacles, o1, v1), node_id(obstacles, o0, v0)) <==> mutually_visible(
            in_range,
            crosses,
            obstacles,
            o0,
            v0,
            o1,
            v1,
        ),
{
    lemma_visible_or_hidden(in_range, crosses, obstacles, o0, v0, o1, v1);
    lemma_node_id_orders(obstacles, o0, v0, o1, v1);
}

/// What holds of the nodes that the graph has, whether it is complete or not.
pub open spec fn graph_structure<P>(
    obstacles: Seq<NavigationObstacle<P>>,
    graph: Seq<Node<P>>,
    nodes: int,
) -> bool {
    &&& nodes_laid_out(obstacles, graph, nodes)
    &&& end_comes_first(graph, nodes)
    &&& links_in_order(graph)
    &&& links_symmetric(graph)
}

/// The number of reflex vertices of all obstacles together.
pub fn count_corners<P: Copy>(obstacles: &Vec<NavigationObstacle<P>>) -> (r: usize)
    requires
        total_corners(obstacles@) <= usize::MAX,
    ensures
        r == total_corners(obstacles@),
{
    let mut count: usize = 0;
    let mut o: usize = 0;
    while o < obstacles.len()
        invariant
            o <= obstacles@.len(),
            count == corner_count(obstacles@, o as int),
            total_corners(obstacles@) <= usize::MAX,
        decreases obstacles@.len() - o,
    {
        let obstacle = &obstacles[o];
        let vertices = obstacle.len();
        let mut v: usize = 0;
        while v < vertices
            invariant
                o < obstacles@.len(),
                obstacle == &obstacles@[o as int],
                vertices == obstacles@[o as int].vertices().len(),
                v <= vertices,
                count == node_id(obstacles@, o as int, v as int),
                total_corners(obstacles@) <= usize::MAX,
            decreases vertices - v,
        {
            if obstacle.is_reflex(v) {
                proof {
                    lemma_node_id_orders(obstacles@, o as int, v as int, o as int, v as int);
                }
                count = count + 1;
            }
            v += 1;
        }
        o += 1;
    }
    count
}

/// While the node `before.len()` is being connected: the nodes that exist are
/// as they were, except that some have had the new node added to their links,
/// and those are the ones that the new node links to.
pub open spec fn grown_from<P>(before: Seq<Node<P>>, graph: Seq<Node<P>>, links: Seq<usize>) -> bool {
    &&& graph.len() == before.len()
    &&& forall|i: int|
        0 <= i < before.len() ==> {
            &&& (#[trigger] graph[i]).position == before[i].position
            &&& if has_link(links, i) {
                graph[i].connections@ == before[i].connections@.push(before.len() as usize)
            } else {
                graph[i].connections@ == before[i].connections@
            }
        }
}

proof fn lemma_grown_graph_is_sound<
    P,
    R: Fn(P, P, P, P) -> bool,
    C: Fn(Segment<P>, Segment<P>) -> bool,
>(
    obstacles: Seq<NavigationObstacle<P>>,
    before: Seq<Node<P>>,
    graph: Seq<Node<P>>,
    node: Node<P>,
    nodes: int,
    in_range: &R,
    crosses: &C,
    o0: int,
    v0: int,
)
    requires
        is_corner(obstacles, o0, v0),
        before.len() == node_id(obstacles, o0, v0),
        before.len() < usize::MAX,
        graph_structure(obstacles, before, nodes),
        links_justified(obstacles, before, in_range, crosses),
        grown_from(before, graph, node.connections@),
        node.position == place(obstacles, o0, v0),
        node.connections@.len() >= 1,
        node.connections@[0] == nodes + 1,
        ascending_links(node.connections@),
        forall|k: int|
            1 <= k < node.connections@.len() ==> (#[trigger] node.connections@[k]) < before.len(),
        forall|o1: int, v1: int| #[trigger]
            is_corner(obstacles, o1, v1) && node_id(obstacles, o1, v1) < before.len() ==> if has_link(node.connections@, node_id(obstacles, o1, v1)) {
                mutually_visible(in_range, crosses, obstacles, o0, v0, o1, v1)
            } else {
                mutually_hidden(in_range, crosses, obstacles, o0, v0, o1, v1)
            },
    ensures
        graph_structure(obstacles, graph.push(node), nodes),
        links_justified(obstacles, graph.push(node), in_range, crosses),
{
    let m = before.len() as int;
    let after = graph.push(node);
    assert forall|i: int, j: int| 0 <= i < m && 0 <= j < m implies (edge(after, i, j) <==> edge(
        before,
        i,
        j,
    )) by {
        if edge(after, i, j) {
            let k = choose|k: int|
                1 <= k < after[i].connections@.len() && #[trigger] after[i].connections@[k] == j;
            assert(before[i].connections@[k] == j);
        }
        if edge(before, i, j) {
            let k = choose|k: int|
                1 <= k < before[i].connections@.len() && #[trigger] before[i].connections@[k]
                    == j;
            assert(after[i].connections@[k] == j);
        }
    }
    assert forall|i: int| 0 <= i < m implies (edge(after, i, m) <==> has_link(
        node.connections@,
        i,
    )) by {
        if edge(after, i, m) {
            let k = choose|k: int|
                1 <= k < after[i].connections@.len() && #[trigger] after[i].connections@[k] == m;
            if !has_link(node.connections@, i) {
                assert(before[i].connections@[k] == m);
            }
        }
        if has_link(node.connections@, i) {
            let last = before[i].connections@.len() as int;
            assert(before[i].connections@.len() >= 1);
            assert(after[i].connections@[last] == m);
        }
    }
    assert(links_symmetric(after)) by {
        assert forall|i: int, j: int|
            0 <= i < after.len() && 0 <= j < after.len() && #[trigger] edge(
                after,
                i,
                j,
            ) implies edge(after, j, i) by {
            if i < m && j < m {
                assert(edge(before, i, j));
                assert(edge(before, j, i));
            } else if i < m {
                assert(has_link(node.connections@, i));
            } else if j < m {
                assert(has_link(node.connections@, j));
            } else {
                let k = choose|k: int|
                    1 <= k < node.connections@.len() && #[trigger] node.connections@[k] == j;
                assert(false);
            }
        }
    }
    assert(links_in_order(after)) by {
        assert forall|i: int| 0 <= i < after.len() implies {
            &&& ascending_links(#[trigger] after[i].connections@)
            &&& forall|k: int|
                1 <= k < after[i].connections@.len() ==> after[i].connections@[k] < after.len()
                    && after[i].connections@[k] != i
        } by {
            if i < m {
                assert(ascending_links(before[i].connections@));
            }
        }
    }
    assert(nodes_laid_out(obstacles, after, nodes)) by {
        assert forall|o: int, v: int| #[trigger]
            is_corner(obstacles, o, v) && node_id(obstacles, o, v) < after.len() implies after[node_id(
            obstacles,
            o,
            v,
        )].position == place(obstacles, o, v) by {
            lemma_node_id_orders(obstacles, o0, v0, o, v);
            let i = node_id(obstacles, o, v);
            if i < m {
                assert(graph[i].position == before[i].position);
            }
        }
    }
    assert(end_comes_first(after, nodes)) by {
        assert forall|i: int| 0 <= i < after.len() implies (#[trigger] after[i]).connections@.len()
            >= 1 && after[i].connections@[0] == nodes + 1 by {
            if i < m {
                assert(before[i].connections@.len() >= 1);
                assert(graph[i].position == before[i].position);
            }
        }
    }
    assert(links_justified(obstacles, after, in_range, crosses)) by {
        assert forall|a0: int, b0: int, a1: int, b1: int|
            #![trigger is_corner(obstacles, a0, b0), is_corner(obstacles, a1, b1)]
            is_corner(obstacles, a0, b0) && is_corner(obstacles, a1, b1) && node_id(
                obstacles,
                a1,
                b1,
            ) < node_id(obstacles, a0, b0) < after.len() implies if edge(
            after,
            node_id(obstacles, a0, b0),
            node_id(obstacles, a1, b1),
        ) {
            mutually_visible(in_range, crosses, obstacles, a0, b0, a1, b1)
        } else {
            mutually_hidden(in_range, crosses, obstacles, a0, b0, a1, b1)
        } by {
            lemma_node_id_orders(obstacles, o0, v0, a0, b0);
            lemma_node_id_orders(obstacles, o0, v0, a1, b1);
            lemma_node_id_orders(obstacles, a0, b0, a1, b1);
            let i = node_id(obstacles, a0, b0);
            let j = node_id(obstacles, a1, b1);
            if i < m {
                assert(edge(after, i, j) <==> edge(before, i, j));
            } else {
                assert(a0 == o0 && b0 == v0);
                assert(after[i].connections@ == node.connections@);
            }
        }
    }
}

/// Makes the node of the reflex vertex `(o0, v0)`, once the nodes of all
/// earlier reflex vertices exist. The vertex is tried against every earlier
/// reflex vertex, in order, and where the two see each other each gets a link
/// to the other.
fn connect_vertex<P: Copy, R: Fn(P, P, P, P) -> bool, C: Fn(Segment<P>, Segment<P>) -> bool>(
    obstacles: &Vec<NavigationObstacle<P>>,
    graph: &mut Vec<Node<P>>,
    in_range: &R,
    crosses: &C,
    o0: usize,
    v0: usize,
    nodes_count: usize,
) -> (node: Node<P>)
    requires
        forall|a: P, b: P, c: P, d: P| in_range.requires((a, b, c, d)),
        forall|a: Segment<P>, b: Segment<P>| crosses.requires((a, b)),
        is_corner(obstacles@, o0 as int, v0 as int),
        old(graph)@.len() == node_id(obstacles@, o0 as int, v0 as int),
        nodes_count == total_corners(obstacles@),
        nodes_count + 2 <= usize::MAX,
        graph_structure(obstacles@, old(graph)@, nodes_count as int),
        links_justified(obstacles@, old(graph)@, in_range, crosses),
    ensures
        final(graph)@.len() == old(graph)@.len(),
        graph_structure(obstacles@, final(graph)@.push(node), nodes_count as int),
        links_justified(obstacles@, final(graph)@.push(node), in_range, crosses),
{
    let ghost before = graph@;
    let obstacle0 = &obstacles[o0];
    let mut node = Node { connections: Vec::new(), position: obstacle0.shape().vertices[v0] };
    proof {
        lemma_node_id_orders(obstacles@, o0 as int, v0 as int, o0 as int, v0 as int);
    }
    node.connections.push(nodes_count + 1);
    let node0_id = graph.len();
    proof {
        assert forall|a1: int, b1: int| #[trigger] is_corner(obstacles@, a1, b1) implies node_id(
            obstacles@,
            a1,
            b1,
        ) >= 0 by {
            lemma_node_id_orders(obstacles@, a1, b1, a1, b1);
        }
    }
    let mut node1_id: usize = 0;
    let mut o1: usize = 0;
    while o1 <= o0
        invariant
            forall|a: P, b: P, c: P, d: P| in_range.requires((a, b, c, d)),
            forall|a: Segment<P>, b: Segment<P>| crosses.requires((a, b)),
            is_vertex(obstacles@, o0 as int, v0 as int),
            obstacles@[o0 as int].reflex()[v0 as int],
            before.len() == node_id(obstacles@, o0 as int, v0 as int),
            node0_id == before.len(),
            nodes_count == total_corners(obstacles@),
            nodes_count + 2 <= usize::MAX,
            graph_structure(obstacles@, before, nodes_count as int),
            o0 < obstacles.len(),
            o1 <= o0 + 1,
            o1 <= o0 ==> node1_id == corner_count(obstacles@, o1 as int),
            o1 == o0 + 1 ==> node1_id == node0_id,
            node1_id <= node0_id,
            grown_from(before, graph@, node.connections@),
            node.position == place(obstacles@, o0 as int, v0 as int),
            node.connections@.len() >= 1,
            node.connections@[0] == nodes_count + 1,
            ascending_links(node.connections@),
            forall|k: int|
                1 <= k < node.connections@.len() ==> (#[trigger] node.connections@[k]) < node1_id,
            forall|a1: int, b1: int| #[trigger]
                is_corner(obstacles@, a1, b1) && node_id(obstacles@, a1, b1) < node1_id
                    ==> if has_link(node.connections@, node_id(obstacles@, a1, b1)) {
                    mutually_visible(in_range, crosses, obstacles@, o0 as int, v0 as int, a1, b1)
                } else {
                    mutually_hidden(in_range, crosses, obstacles@, o0 as int, v0 as int, a1, b1)
                },
        decreases o0 + 1 - o1,
    {
        let obstacle1 = &obstacles[o1];
        let limit = if o1 == o0 {
            v0
        } else {
            obstacle1.len()
        };
        let mut v1: usize = 0;
        while v1 < limit
            invariant
                forall|a: P, b: P, c: P, d: P| in_range.requires((a, b, c, d)),
                forall|a: Segment<P>, b: Segment<P>| crosses.requires((a, b)),
                is_vertex(obstacles@, o0 as int, v0 as int),
                obstacles@[o0 as int].reflex()[v0 as int],
                before.len() == node_id(obstacles@, o0 as int, v0 as int),
                node0_id == before.len(),
                nodes_count == total_corners(obstacles@),
                nodes_count + 2 <= usize::MAX,
                graph_structure(obstacles@, before, nodes_count as int),
                o1 <= o0,
                obstacle1 == &obstacles@[o1 as int],
                limit <= obstacles@[o1 as int].vertices().len(),
                limit == if o1 == o0 {
                    v0 as int
                } else {
                    obstacles@[o1 as int].vertices().len() as int
                },
                v1 <= limit,
                node1_id == node_id(obstacles@, o1 as int, v1 as int),
                node1_id <= node0_id,
                grown_from(before, graph@, node.connections@),
                node.position == place(obstacles@, o0 as int, v0 as int),
                node.connections@.len() >= 1,
                node.connections@[0] == nodes_count + 1,
                ascending_links(node.connections@),
                forall|k: int|
                    1 <= k < node.connections@.len() ==> (#[trigger] node.connections@[k])
                        < node1_id,
                forall|a1: int, b1: int| #[trigger]
                    is_corner(obstacles@, a1, b1) && node_id(obstacles@, a1, b1) < node1_id
                        ==> if has_link(node.connections@, node_id(obstacles@, a1, b1)) {
                        mutually_visible(
                            in_range,
                            crosses,
                            obstacles@,
                            o0 as int,
                            v0 as int,
                            a1,
                            b1,
                        )
                    } else {
                        mutually_hidden(
                            in_range,
                            crosses,
                            obstacles@,
                            o0 as int,
                            v0 as int,
                            a1,
                            b1,
                        )
                    },
            decreases limit - v1,
        {
            // Only reflex vertices have nodes; the others are passed over.
            if obstacle1.is_reflex(v1) {
                proof {
                    lemma_node_id_orders(obstacles@, o0 as int, v0 as int, o1 as int, v1 as int);
                }
                let linked = vertices_see_each_other(
                    obstacles,
                    in_range,
                    crosses,
                    ShapeVertexIndex { shape_index: o0, vertex_index: v0 },
                    ShapeVertexIndex { shape_index: o1, vertex_index: v1 },
                );
                let ghost links_before = node.connections@;
                let ghost graph_before = graph@;
                if linked {
                    node.connections.push(node1_id);
                    graph[node1_id].connections.push(node0_id);
                }
                proof {
                    let links = node.connections@;
                    let here = node1_id as int;
                    assert forall|i: int| 0 <= i < before.len() implies (has_link(links, i) <==> (
                    has_link(links_before, i) || (linked && i == here))) by {
                        if has_link(links_before, i) {
                            let k = choose|k: int|
                                1 <= k < links_before.len() && #[trigger] links_before[k] == i;
                            assert(links[k] == i);
                        }
                        if linked && i == here {
                            assert(links[links_before.len() as int] == i);
                        }
                        if has_link(links, i) {
                            let k = choose|k: int| 1 <= k < links.len() && #[trigger] links[k] == i;
                            if k < links_before.len() {
                                assert(links_before[k] == i);
                            }
                        }
                    }
                    assert(!has_link(links_before, here)) by {
                        if has_link(links_before, here) {
                            let k = choose|k: int|
                                1 <= k < links_before.len() && #[trigger] links_before[k] == here;
                            assert(false);
                        }
                    }
                    assert(grown_from(before, graph@, links)) by {
                        assert forall|i: int| 0 <= i < before.len() implies {
                            &&& (#[trigger] graph@[i]).position == before[i].position
                            &&& if has_link(links, i) {
                                graph@[i].connections@ == before[i].connections@.push(
                                    before.len() as usize,
                                )
                            } else {
                                graph@[i].connections@ == before[i].connections@
                            }
                        } by {
                            assert(graph_before[i].position == before[i].position);
                            if i != here || !linked {
                                assert(graph@[i] == graph_before[i]);
                            }
                        }
                    }
                    assert forall|a1: int, b1: int| #[trigger]
                        is_corner(obstacles@, a1, b1) && node_id(obstacles@, a1, b1) < node1_id
                            + 1 implies if has_link(links, node_id(obstacles@, a1, b1)) {
                        mutually_visible(in_range, crosses, obstacles@, o0 as int, v0 as int, a1, b1)
                    } else {
                        mutually_hidden(in_range, crosses, obstacles@, o0 as int, v0 as int, a1, b1)
                    } by {
                        lemma_node_id_orders(obstacles@, o1 as int, v1 as int, a1, b1);
                        lemma_node_id_orders(obstacles@, o0 as int, v0 as int, a1, b1);
                    }
                }
                node1_id += 1;
            }
            v1 += 1;
        }
        proof {
            if o1 < o0 {
                assert(corner_count(obstacles@, o1 as int + 1) == node1_id);
            }
        }
        o1 += 1;
    }
    proof {
        lemma_grown_graph_is_sound(
            obstacles@,
            before,
            graph@,
            node,
            nodes_count as int,
            in_range,
            crosses,
            o0 as int,
            v0 as int,
        );
    }
    node
}

/// Builds the navigation graph of the obstacles: one node for each reflex
/// vertex, in the order of the vertices, obstacle by obstacle, and a link in
/// both directions between every two reflex vertices that see each other.
pub fn build_navigation_graph<
    P: Copy,
    R: Fn(P, P, P, P) -> bool,
    C: Fn(Segment<P>, Segment<P>) -> bool,
>(obstacles: &Vec<NavigationObstacle<P>>, in_range: &R, crosses: &C) -> (graph: Vec<Node<P>>)
    requires
        forall|a: P, b: P, c: P, d: P| in_range.requires((a, b, c, d)),
        forall|a: Segment<P>, b: Segment<P>| crosses.requires((a, b)),
        total_corners(obstacles@) + 2 <= usize::MAX,
    ensures
        graph@.len() == total_corners(obstacles@),
        graph_structure(obstacles@, graph@, graph@.len() as int),
        links_justified(obstacles@, graph@, in_range, crosses),
{
    let nodes_count = count_corners(obstacles);
    let mut graph: Vec<Node<P>> = Vec::new();
    let mut o0: usize = 0;
    proof {
        assert forall|o: int, v: int| #[trigger] is_corner(obstacles@, o, v) implies node_id(
            obstacles@,
            o,
            v,
        ) >= 0 by {
            lemma_node_id_orders(obstacles@, o, v, o, v);
        }
    }
    while o0 < obstacles.len()
        invariant
            forall|a: P, b: P, c: P, d: P| in_range.requires((a, b, c, d)),
            forall|a: Segment<P>, b: Segment<P>| crosses.requires((a, b)),
            nodes_count == total_corners(obstacles@),
            nodes_count + 2 <= usize::MAX,
            o0 <= obstacles@.len(),
            graph@.len() == corner_count(obstacles@, o0 as int),
            graph_structure(obstacles@, graph@, nodes_count as int),
            links_justified(obstacles@, graph@, in_range, crosses),
        decreases obstacles@.len() - o0,
    {
        let vertices = obstacles[o0].len();
        let mut v0: usize = 0;
        while v0 < vertices
            invariant
                forall|a: P, b: P, c: P, d: P| in_range.requires((a, b, c, d)),
                forall|a: Segment<P>, b: Segment<P>| crosses.requires((a, b)),
                nodes_count == total_corners(obstacles@),
                nodes_count + 2 <= usize::MAX,
                o0 < obstacles@.len(),
                vertices == obstacles@[o0 as int].vertices().len(),
                v0 <= vertices,
                graph@.len() == node_id(obstacles@, o0 as int, v0 as int),
                graph_structure(obstacles@, graph@, nodes_count as int),
                links_justified(obstacles@, graph@, in_range, crosses),
            decreases vertices - v0,
        {
            if obstacles[o0].is_reflex(v0) {
                let node = connect_vertex(
                    obstacles,
                    &mut graph,
                    in_range,
                    crosses,
                    o0,
                    v0,
                    nodes_count,
                );
                graph.push(node);
            }
            v0 += 1;
        }
        o0 += 1;
    }
    graph
}

} // verus!

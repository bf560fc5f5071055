//! When the search finds a cheapest path.
//!
//! The cost of a path is what the search itself computes for it: the lengths of
//! its edges, added from the start on, each sum rounded. Nothing here knows how
//! two costs are added; what is proved holds for every addition under which a
//! sum is no smaller than its first term, does not shrink when its first term
//! grows, and leaves a term as it is when the other is zero.
//!
//! The estimates have to be consistent: going along an edge, the cost so far
//! plus the estimate does not get smaller. And they have to keep order: of two
//! costs, the lower stays the lower when the estimate of a node is added. (An
//! estimate so large that it swallows the difference between two costs does
//! not.) Estimates that are all zero are both.
use crate::a_star::{
    is_path, lemma_recorded_path_is_path, links_sound, reached, recorded_path, walk_back,
    well_formed, AStarInput, NO_NODE,
};
use crate::cost::{sum_bits, INFINITY_BITS};
use crate::frontier::{entry_precedes, first_index, lemma_first_index_is_least, Entry};
use crate::search::{
    count_false, initial_state, lemma_count_false_set, lemma_relax_from, relax_from, relax_one,
    search, search_from, state_fits, SearchState,
};
use vstd::prelude::*;

verus! {

/// What rounded addition of costs is known to do, on bit patterns of costs: a
/// sum is a cost, is no smaller than its first term, does not shrink when the
/// first term grows, and adding zero, or adding to zero, changes nothing.
pub open spec fn sums_behave() -> bool {
    &&& forall|a: u64, b: u64|
        a <= INFINITY_BITS && b <= INFINITY_BITS ==> a <= #[trigger] sum_bits(a, b)
            <= INFINITY_BITS
    &&& forall|a: u64, b: u64, c: u64|
        a <= b <= INFINITY_BITS && c <= INFINITY_BITS ==> #[trigger] sum_bits(a, c)
            <= #[trigger] sum_bits(b, c)
    &&& forall|a: u64| a <= INFINITY_BITS ==> #[trigger] sum_bits(a, 0) == a
    &&& forall|a: u64| a <= INFINITY_BITS ==> #[trigger] sum_bits(0, a) == a
}

/// Every length that the graph reports is a cost.
pub open spec fn lengths_are_costs<Input: AStarInput + ?Sized>(input: &Input) -> bool {
    forall|from: int, to: int| #[trigger] input.spec_distance(from, to) <= INFINITY_BITS
}

/// The graph estimates nothing: the estimate of every node is zero.
pub open spec fn estimates_are_zero<Input: AStarInput + ?Sized>(input: &Input) -> bool {
    forall|node: int| #[trigger] input.spec_heuristic(node) == 0
}

/// What the search orders the frontier by: a cost plus the estimate of a node.
pub open spec fn with_estimate<Input: AStarInput + ?Sized>(
    input: &Input,
    node: int,
    cost: u64,
) -> u64 {
    sum_bits(cost, input.spec_heuristic(node))
}

/// The estimates guide the search: each is a cost; along an edge, a cost plus
/// the estimate does not get smaller; and of two costs the lower stays the
/// lower when the estimate of a node is added.
pub open spec fn estimates_guide<Input: AStarInput + ?Sized>(input: &Input) -> bool {
    &&& forall|node: int| #[trigger] input.spec_heuristic(node) <= INFINITY_BITS
    &&& forall|from: int, k: int, cost: u64|
        0 <= from < input.spec_len() && from != input.spec_end() && 0 <= k
            < input.spec_neighbors(from).len() && cost <= INFINITY_BITS ==> with_estimate(
            input,
            from,
            cost,
        ) <= with_estimate(
            input,
            input.spec_neighbors(from)[k] as int,
            #[trigger] sum_bits(
                cost,
                input.spec_distance(from, (#[trigger] input.spec_neighbors(from)[k]) as int),
            ),
        )
    &&& forall|node: int, low: u64, high: u64|
        0 <= node < input.spec_len() && low < high <= INFINITY_BITS ==> #[trigger] with_estimate(
            input,
            node,
            low,
        ) < #[trigger] with_estimate(input, node, high)
}

/// Estimates that are all zero guide the search.
pub proof fn lemma_zero_estimates_guide<Input: AStarInput + ?Sized>(input: &Input)
    requires
        sums_behave(),
        lengths_are_costs(input),
        estimates_are_zero(input),
    ensures
        estimates_guide(input),
{
    assert forall|from: int, k: int, cost: u64|
        0 <= from < input.spec_len() && from != input.spec_end() && 0 <= k
            < input.spec_neighbors(from).len() && cost <= INFINITY_BITS implies with_estimate(
        input,
        from,
        cost,
    ) <= with_estimate(
        input,
        input.spec_neighbors(from)[k] as int,
        #[trigger] sum_bits(
            cost,
            input.spec_distance(from, (#[trigger] input.spec_neighbors(from)[k]) as int),
        ),
    ) by {
        let to = input.spec_neighbors(from)[k] as int;
        assert(input.spec_heuristic(from) == 0);
        assert(input.spec_heuristic(to) == 0);
        assert(input.spec_distance(from, to) <= INFINITY_BITS);
    }
    assert forall|node: int, low: u64, high: u64|
        0 <= node < input.spec_len() && low < high <= INFINITY_BITS implies #[trigger] with_estimate(
        input,
        node,
        low,
    ) < #[trigger] with_estimate(input, node, high) by {
        assert(input.spec_heuristic(node) == 0);
    }
}

/// `path` leads from the start to `to` along edges of the graph, without
/// passing the end on its way.
pub open spec fn is_walk<Input: AStarInput + ?Sized>(
    input: &Input,
    path: Seq<usize>,
    to: int,
) -> bool {
    &&& path.len() > 0
    &&& path[0] == input.spec_start()
    &&& path.last() == to
    &&& forall|i: int| 0 <= i < path.len() ==> (#[trigger] path[i]) < input.spec_len()
    &&& forall|i: int|
        0 <= i < path.len() - 1 ==> (#[trigger] path[i]) != input.spec_end()
            && input.spec_neighbors(path[i] as int).contains(path[i + 1])
}

/// The cost of a path: the lengths of its edges, added one after the other to
/// what has been added so far.
pub open spec fn path_cost<Input: AStarInput + ?Sized>(input: &Input, path: Seq<usize>) -> u64
    decreases path.len(),
{
    if path.len() <= 1 {
        0
    } else {
        sum_bits(
            path_cost(input, path.drop_last()),
            input.spec_distance(path[path.len() - 2] as int, path.last() as int),
        )
    }
}

/// The cost of a path is a cost, and no smaller than the cost of the path
/// without its last edge.
pub proof fn lemma_path_cost_grows<Input: AStarInput + ?Sized>(input: &Input, path: Seq<usize>)
    requires
        sums_behave(),
        lengths_are_costs(input),
    ensures
        path_cost(input, path) <= INFINITY_BITS,
        path.len() >= 1 ==> path_cost(input, path.drop_last()) <= path_cost(input, path),
    decreases path.len(),
{
    if path.len() > 1 {
        lemma_path_cost_grows(input, path.drop_last());
    } else if path.len() == 1 {
        assert(path.drop_last().len() == 0);
    }
}

/// A walk without its last edge is a walk to the node before its last.
pub proof fn lemma_walk_without_last<Input: AStarInput + ?Sized>(
    input: &Input,
    path: Seq<usize>,
    to: int,
)
    requires
        is_walk(input, path, to),
        path.len() >= 2,
    ensures
        is_walk(input, path.drop_last(), path[path.len() - 2] as int),
        path[path.len() - 2] != input.spec_end(),
        input.spec_neighbors(path[path.len() - 2] as int).contains(path.last()),
{
    let shorter = path.drop_last();
    assert forall|i: int| 0 <= i < shorter.len() implies (#[trigger] shorter[i])
        < input.spec_len() by {
        assert(shorter[i] == path[i]);
    }
    assert forall|i: int| 0 <= i < shorter.len() - 1 implies (#[trigger] shorter[i])
        != input.spec_end() && input.spec_neighbors(shorter[i] as int).contains(shorter[i + 1]) by {
        assert(shorter[i] == path[i]);
        assert(shorter[i + 1] == path[i + 1]);
    }
    assert(path[path.len() - 2] != input.spec_end());
}

/// A walk with one more edge is a walk to where the edge leads.
pub proof fn lemma_walk_with_edge<Input: AStarInput + ?Sized>(
    input: &Input,
    path: Seq<usize>,
    from: int,
    to: usize,
)
    requires
        is_walk(input, path, from),
        from != input.spec_end(),
        to < input.spec_len(),
        input.spec_neighbors(from).contains(to),
    ensures
        is_walk(input, path.push(to), to as int),
        path_cost(input, path.push(to)) == sum_bits(
            path_cost(input, path),
            input.spec_distance(from, to as int),
        ),
{
    let longer = path.push(to);
    assert(longer.drop_last() == path);
    assert forall|i: int| 0 <= i < longer.len() - 1 implies (#[trigger] longer[i])
        != input.spec_end() && input.spec_neighbors(longer[i] as int).contains(longer[i + 1]) by {
        if i < path.len() - 1 {
            assert(longer[i] == path[i]);
            assert(longer[i + 1] == path[i + 1]);
        }
    }
}

/// Whether the frontier holds `entry`.
pub open spec fn has_entry(open_queue: Seq<Entry>, entry: Entry) -> bool {
    exists|i: int| 0 <= i < open_queue.len() && #[trigger] open_queue[i] == entry
}

/// Every cost the search knows is a cost, the start costs nothing, every node
/// that has been reached has a walk of exactly its known cost, and every other
/// node has infinite cost.
pub open spec fn costs_are_real<Input: AStarInput + ?Sized>(
    input: &Input,
    state: SearchState,
) -> bool {
    &&& state.g_score[input.spec_start() as int] == 0
    &&& forall|v: int| 0 <= v < input.spec_len() ==> #[trigger] state.g_score[v] <= INFINITY_BITS
    &&& forall|v: int|
        0 <= v < input.spec_len() && #[trigger] reached(state.came_from, input.spec_start(), v)
            ==> exists|q: Seq<usize>| #[trigger]
            is_walk(input, q, v) && path_cost(input, q) == state.g_score[v]
    &&& forall|v: int|
        0 <= v < input.spec_len() && !#[trigger] reached(
            state.came_from,
            input.spec_start(),
            v,
        ) ==> state.g_score[v] == INFINITY_BITS
}

/// A node costs at least what its predecessor costs plus the edge between them,
/// and the predecessor is a node that has been reached, is not the end, and has
/// that edge.
pub open spec fn links_cost<Input: AStarInput + ?Sized>(input: &Input, state: SearchState) -> bool {
    forall|v: int|
        0 <= v < input.spec_len() && (#[trigger] state.came_from[v]) != NO_NODE ==> {
            let u = state.came_from[v];
            &&& u < input.spec_len()
            &&& u != input.spec_end()
            &&& input.spec_neighbors(u as int).contains(v as usize)
            &&& reached(state.came_from, input.spec_start(), u as int)
            &&& sum_bits(state.g_score[u as int], input.spec_distance(u as int, v))
                <= state.g_score[v]
        }
}

/// The nodes in `done` have been expanded: each is a node other than the end,
/// has been reached, and costs no more than any walk to it.
pub open spec fn done_is_cheapest<Input: AStarInput + ?Sized>(
    input: &Input,
    state: SearchState,
    done: Set<int>,
) -> bool {
    &&& forall|x: int| #[trigger]
        done.contains(x) ==> 0 <= x < input.spec_len() && x != input.spec_end() && reached(
            state.came_from,
            input.spec_start(),
            x,
        )
    &&& forall|x: int, q: Seq<usize>|
        done.contains(x) && #[trigger] is_walk(input, q, x) ==> state.g_score[x] <= path_cost(
            input,
            q,
        )
    &&& forall|x: int|
        0 <= x < input.spec_len() && #[trigger] state.closed_set[x] ==> done.contains(x)
}

/// Every neighbour of a node in `done` costs no more than the way through that
/// node; for the node `current`, which is being expanded, this holds of the
/// first `upto` neighbours.
pub open spec fn done_is_relaxed<Input: AStarInput + ?Sized>(
    input: &Input,
    state: SearchState,
    done: Set<int>,
    current: int,
    upto: int,
) -> bool {
    forall|x: int, k: int|
        done.contains(x) && 0 <= k < input.spec_neighbors(x).len() && (x != current || k < upto)
            ==> state.g_score[(#[trigger] input.spec_neighbors(x)[k]) as int] <= sum_bits(
            state.g_score[x],
            input.spec_distance(x, input.spec_neighbors(x)[k] as int),
        )
}

/// Every node that has been reached and not expanded waits in the frontier with
/// its cost plus its estimate, and every entry of the frontier is a node that
/// has been reached, with no less than the node's cost plus its estimate.
pub open spec fn frontier_is_complete<Input: AStarInput + ?Sized>(
    input: &Input,
    state: SearchState,
    done: Set<int>,
) -> bool {
    &&& forall|v: int|
        0 <= v < input.spec_len() && #[trigger] reached(state.came_from, input.spec_start(), v)
            && !done.contains(v) ==> has_entry(
            state.open_queue,
            (v as usize, with_estimate(input, v, state.g_score[v])),
        )
    &&& forall|i: int|
        0 <= i < state.open_queue.len() ==> {
            let waiting = #[trigger] state.open_queue[i];
            &&& reached(state.came_from, input.spec_start(), waiting.0 as int)
            &&& with_estimate(input, waiting.0 as int, state.g_score[waiting.0 as int])
                <= waiting.1 <= INFINITY_BITS
        }
}

/// What holds between two steps of a search without estimates.
pub open spec fn settled<Input: AStarInput + ?Sized>(
    input: &Input,
    state: SearchState,
    done: Set<int>,
    current: int,
    upto: int,
) -> bool {
    &&& state_fits(input, state)
    &&& costs_are_real(input, state)
    &&& links_cost(input, state)
    &&& done_is_cheapest(input, state, done)
    &&& done_is_relaxed(input, state, done, current, upto)
    &&& frontier_is_complete(input, state, done)
}

/// Every walk to a node that has not been expanded costs, with the estimate of
/// that node, at least as much as some entry of the frontier; or it costs, with
/// the estimate, infinitely much.
proof fn lemma_frontier_cuts<Input: AStarInput + ?Sized>(
    input: &Input,
    state: SearchState,
    done: Set<int>,
    q: Seq<usize>,
    to: int,
) -> (i: int)
    requires
        well_formed(input),
        sums_behave(),
        lengths_are_costs(input),
        estimates_guide(input),
        settled(input, state, done, -1, 0),
        is_walk(input, q, to),
        !done.contains(to),
    ensures
        (0 <= i < state.open_queue.len() && state.open_queue[i].1 <= with_estimate(
            input,
            to,
            path_cost(input, q),
        )) || (i == -1 && with_estimate(input, to, path_cost(input, q)) == INFINITY_BITS),
    decreases q.len(),
{
    let start = input.spec_start();
    lemma_path_cost_grows(input, q);
    if q.len() == 1 {
        assert(to == start);
        assert(reached(state.came_from, start, to));
        let at = choose|i: int|
            0 <= i < state.open_queue.len() && #[trigger] state.open_queue[i] == (
                to as usize,
                with_estimate(input, to, state.g_score[to]),
            );
        at
    } else {
        let before = q[q.len() - 2] as int;
        let shorter = q.drop_last();
        lemma_walk_without_last(input, q, to);
        lemma_path_cost_grows(input, shorter);
        let k = choose|k: int|
            0 <= k < input.spec_neighbors(before).len() && input.spec_neighbors(before)[k]
                == q.last();
        assert(input.spec_neighbors(before)[k] as int == to);
        // Along the last edge, cost plus estimate does not get smaller.
        assert(with_estimate(input, before, path_cost(input, shorter)) <= with_estimate(
            input,
            to,
            sum_bits(path_cost(input, shorter), input.spec_distance(before, to)),
        ));
        if !done.contains(before) {
            lemma_frontier_cuts(input, state, done, shorter, before)
        } else {
            assert(state.g_score[input.spec_neighbors(before)[k] as int] <= sum_bits(
                state.g_score[before],
                input.spec_distance(before, input.spec_neighbors(before)[k] as int),
            ));
            assert(state.g_score[before] <= path_cost(input, shorter));
            assert(state.g_score[to] <= path_cost(input, q));
            if reached(state.came_from, start, to) {
                let at = choose|i: int|
                    0 <= i < state.open_queue.len() && #[trigger] state.open_queue[i] == (
                        to as usize,
                        with_estimate(input, to, state.g_score[to]),
                    );
                assert(with_estimate(input, to, state.g_score[to]) <= with_estimate(
                    input,
                    to,
                    path_cost(input, q),
                ));
                at
            } else {
                assert(state.g_score[to] == INFINITY_BITS);
                assert(path_cost(input, q) == INFINITY_BITS);
                -1
            }
        }
    }
}

/// The node that leaves the frontier costs no more than any walk to it.
proof fn lemma_first_is_cheapest<Input: AStarInput + ?Sized>(
    input: &Input,
    state: SearchState,
    done: Set<int>,
    q: Seq<usize>,
)
    requires
        well_formed(input),
        sums_behave(),
        lengths_are_costs(input),
        estimates_guide(input),
        settled(input, state, done, -1, 0),
        state.open_queue.len() > 0,
        is_walk(input, q, state.open_queue[first_index(state.open_queue)].0 as int),
    ensures
        state.g_score[state.open_queue[first_index(state.open_queue)].0 as int] <= path_cost(
            input,
            q,
        ),
{
    let first = first_index(state.open_queue);
    lemma_first_index_is_least(state.open_queue, state.open_queue.len());
    lemma_path_cost_grows(input, q);
    let node = state.open_queue[first].0 as int;
    let known = state.g_score[node];
    if !done.contains(node) && known > path_cost(input, q) {
        // Then the node would wait with more than the walk costs, estimate
        // included, and so would not be the first to leave.
        let i = lemma_frontier_cuts(input, state, done, q, node);
        assert(with_estimate(input, node, path_cost(input, q)) < with_estimate(
            input,
            node,
            known,
        ));
        if i != -1 {
            assert(entry_precedes(state.open_queue[first], state.open_queue[i]));
        }
        assert(false);
    }
}

/// Trying one edge from a node that is being expanded keeps what holds between
/// two steps, and then holds of one neighbour more.
#[verifier::rlimit(50)]
#[verifier::spinoff_prover]
proof fn lemma_relax_one_keeps_settled<Input: AStarInput + ?Sized>(
    input: &Input,
    state: SearchState,
    done: Set<int>,
    current: usize,
    i: int,
)
    requires
        well_formed(input),
        sums_behave(),
        lengths_are_costs(input),
        estimates_guide(input),
        input.spec_len() <= usize::MAX,
        settled(input, state, done, current as int, i),
        done.contains(current as int),
        0 <= i < input.spec_neighbors(current as int).len(),
    ensures
        settled(
            input,
            relax_one(input, state, current, input.spec_neighbors(current as int)[i]),
            done,
            current as int,
            i + 1,
        ),
{
    let start = input.spec_start();
    let neighbor = input.spec_neighbors(current as int)[i];
    let length = input.spec_distance(current as int, neighbor as int);
    let tentative = sum_bits(state.g_score[current as int], length);
    let after = relax_one(input, state, current, neighbor);
    assert(neighbor < input.spec_len());
    assert(state.g_score[current as int] <= INFINITY_BITS);
    // The way through `current` is a walk to the neighbour, and costs `tentative`.
    let through = choose|q: Seq<usize>| #[trigger]
        is_walk(input, q, current as int) && path_cost(input, q) == state.g_score[current as int];
    lemma_walk_with_edge(input, through, current as int, neighbor);
    let longer = through.push(neighbor);
    if tentative < state.g_score[neighbor as int] {
        assert(!done.contains(neighbor as int)) by {
            if done.contains(neighbor as int) {
                assert(is_walk(input, longer, neighbor as int));
            }
        }
        assert(neighbor != current);
        assert(neighbor != start);
        assert forall|v: int| 0 <= v < input.spec_len() implies (reached(
            after.came_from,
            start,
            v,
        ) <==> (reached(state.came_from, start, v) || v == neighbor)) by {}
        assert(costs_are_real(input, after)) by {
            assert forall|v: int|
                0 <= v < input.spec_len() && #[trigger] reached(
                    after.came_from,
                    start,
                    v,
                ) implies exists|q: Seq<usize>| #[trigger]
                is_walk(input, q, v) && path_cost(input, q) == after.g_score[v] by {
                if v == neighbor {
                    assert(is_walk(input, longer, v) && path_cost(input, longer)
                        == after.g_score[v]);
                } else {
                    assert(reached(state.came_from, start, v));
                    let q = choose|q: Seq<usize>| #[trigger]
                        is_walk(input, q, v) && path_cost(input, q) == state.g_score[v];
                    assert(is_walk(input, q, v) && path_cost(input, q) == after.g_score[v]);
                }
            }
            assert forall|v: int|
                0 <= v < input.spec_len() && !#[trigger] reached(
                    after.came_from,
                    start,
                    v,
                ) implies after.g_score[v] == INFINITY_BITS by {
                assert(!reached(state.came_from, start, v));
            }
        }
        assert(links_cost(input, after)) by {
            assert forall|v: int|
                0 <= v < input.spec_len() && (#[trigger] after.came_from[v]) != NO_NODE implies {
                let u = after.came_from[v];
                &&& u < input.spec_len()
                &&& u != input.spec_end()
                &&& input.spec_neighbors(u as int).contains(v as usize)
                &&& reached(after.came_from, start, u as int)
                &&& sum_bits(after.g_score[u as int], input.spec_distance(u as int, v))
                    <= after.g_score[v]
            } by {
                if v != neighbor {
                    let u = state.came_from[v];
                    assert(after.came_from[v] == u);
                    assert(reached(state.came_from, start, u as int));
                    assert(state.g_score[u as int] <= INFINITY_BITS);
                    if u == neighbor {
                        assert(sum_bits(tentative, input.spec_distance(u as int, v)) <= sum_bits(
                            state.g_score[u as int],
                            input.spec_distance(u as int, v),
                        ));
                    }
                } else {
                    assert(reached(state.came_from, start, current as int));
                }
            }
        }
        assert(done_is_cheapest(input, after, done)) by {
            assert forall|x: int| #[trigger] done.contains(x) implies 0 <= x < input.spec_len()
                && x != input.spec_end() && reached(after.came_from, start, x) by {
                assert(reached(state.came_from, start, x));
            }
            assert forall|x: int, q: Seq<usize>|
                done.contains(x) && #[trigger] is_walk(input, q, x) implies after.g_score[x]
                <= path_cost(input, q) by {
                assert(after.g_score[x] == state.g_score[x]);
            }
        }
        assert(done_is_relaxed(input, after, done, current as int, i + 1)) by {
            assert forall|x: int, k: int|
                done.contains(x) && 0 <= k < input.spec_neighbors(x).len() && (x != current
                    || k < i + 1) implies after.g_score[(#[trigger] input.spec_neighbors(
                x,
            )[k]) as int] <= sum_bits(
                after.g_score[x],
                input.spec_distance(x, input.spec_neighbors(x)[k] as int),
            ) by {
                let y = input.spec_neighbors(x)[k];
                assert(after.g_score[x] == state.g_score[x]);
                assert(y < input.spec_len());
                if x == current && k == i {
                } else {
                    assert(state.g_score[y as int] <= sum_bits(
                        state.g_score[x],
                        input.spec_distance(x, y as int),
                    ));
                    assert(after.g_score[y as int] <= state.g_score[y as int]);
                }
            }
        }
        assert(frontier_is_complete(input, after, done)) by {
            let last = state.open_queue.len() as int;
            assert(after.open_queue[last] == (
                neighbor,
                with_estimate(input, neighbor as int, tentative),
            ));
            assert forall|v: int|
                0 <= v < input.spec_len() && #[trigger] reached(after.came_from, start, v)
                    && !done.contains(v) implies has_entry(
                after.open_queue,
                (v as usize, with_estimate(input, v, after.g_score[v])),
            ) by {
                if v != neighbor {
                    assert(reached(state.came_from, start, v));
                    let at = choose|at: int|
                        0 <= at < state.open_queue.len() && #[trigger] state.open_queue[at] == (
                            v as usize,
                            with_estimate(input, v, state.g_score[v]),
                        );
                    assert(after.open_queue[at] == (
                        v as usize,
                        with_estimate(input, v, after.g_score[v]),
                    ));
                }
            }
            assert forall|at: int| 0 <= at < after.open_queue.len() implies {
                let waiting = #[trigger] after.open_queue[at];
                &&& reached(after.came_from, start, waiting.0 as int)
                &&& with_estimate(input, waiting.0 as int, after.g_score[waiting.0 as int])
                    <= waiting.1 <= INFINITY_BITS
            } by {
                if at < last {
                    let waiting = state.open_queue[at];
                    assert(after.open_queue[at] == waiting);
                    assert(reached(state.came_from, start, waiting.0 as int));
                    assert(waiting.0 < input.spec_len());
                    assert(after.g_score[waiting.0 as int] <= state.g_score[waiting.0 as int]);
                    assert(state.g_score[waiting.0 as int] <= INFINITY_BITS);
                    assert(with_estimate(
                        input,
                        waiting.0 as int,
                        after.g_score[waiting.0 as int],
                    ) <= with_estimate(input, waiting.0 as int, state.g_score[waiting.0 as int]));
                }
            }
        }
        assert(state_fits(input, after)) by {
            assert forall|at: int| 0 <= at < after.open_queue.len() implies (
            #[trigger] after.open_queue[at]).0 < input.spec_len() by {
                if at < state.open_queue.len() {
                    assert(after.open_queue[at] == state.open_queue[at]);
                }
            }
        }
    } else {
        assert(done_is_relaxed(input, after, done, current as int, i + 1));
    }
}

/// Expanding a node keeps what holds between two steps.
proof fn lemma_relax_from_keeps_settled<Input: AStarInput + ?Sized>(
    input: &Input,
    state: SearchState,
    done: Set<int>,
    current: usize,
    i: int,
)
    requires
        well_formed(input),
        sums_behave(),
        lengths_are_costs(input),
        estimates_guide(input),
        input.spec_len() <= usize::MAX,
        settled(input, state, done, current as int, i),
        done.contains(current as int),
        0 <= i <= input.spec_neighbors(current as int).len(),
    ensures
        settled(input, relax_from(input, state, current, i), done, -1, 0),
    decreases input.spec_neighbors(current as int).len() - i,
{
    let around = input.spec_neighbors(current as int);
    if i < around.len() {
        lemma_relax_one_keeps_settled(input, state, done, current, i);
        lemma_relax_from_keeps_settled(
            input,
            relax_one(input, state, current, around[i]),
            done,
            current,
            i + 1,
        );
    } else {
        assert(done_is_relaxed(input, state, done, -1, 0));
    }
}

/// In `order`, `from` stands before every place at which `node` stands.
pub open spec fn stands_before(order: Seq<int>, from: int, node: int) -> bool {
    exists|i: int|
        0 <= i < order.len() && #[trigger] order[i] == from && forall|j: int|
            0 <= j < order.len() && #[trigger] order[j] == node ==> i < j
}

/// `order` lists the nodes in `done`, each once, in the order in which they
/// were first expanded; and the predecessor of every node was expanded before
/// the node was, if the node has been expanded at all.
pub open spec fn expanded_in_order<Input: AStarInput + ?Sized>(
    input: &Input,
    state: SearchState,
    done: Set<int>,
    order: Seq<int>,
) -> bool {
    &&& order.no_duplicates()
    &&& forall|x: int| #[trigger] done.contains(x) <==> order.contains(x)
    &&& forall|v: int|
        0 <= v < input.spec_len() && (#[trigger] state.came_from[v]) != NO_NODE ==> stands_before(
            order,
            state.came_from[v] as int,
            v,
        )
}

/// Trying one edge keeps the predecessors in the order of expansion.
proof fn lemma_relax_one_keeps_order<Input: AStarInput + ?Sized>(
    input: &Input,
    state: SearchState,
    done: Set<int>,
    order: Seq<int>,
    current: usize,
    i: int,
)
    requires
        well_formed(input),
        sums_behave(),
        lengths_are_costs(input),
        input.spec_len() <= usize::MAX,
        settled(input, state, done, current as int, i),
        expanded_in_order(input, state, done, order),
        done.contains(current as int),
        0 <= i < input.spec_neighbors(current as int).len(),
    ensures
        expanded_in_order(
            input,
            relax_one(input, state, current, input.spec_neighbors(current as int)[i]),
            done,
            order,
        ),
{
    let neighbor = input.spec_neighbors(current as int)[i];
    let tentative = sum_bits(
        state.g_score[current as int],
        input.spec_distance(current as int, neighbor as int),
    );
    let after = relax_one(input, state, current, neighbor);
    assert(neighbor < input.spec_len());
    if tentative < state.g_score[neighbor as int] {
        let through = choose|q: Seq<usize>| #[trigger]
            is_walk(input, q, current as int) && path_cost(input, q)
                == state.g_score[current as int];
        lemma_walk_with_edge(input, through, current as int, neighbor);
        assert(!done.contains(neighbor as int)) by {
            if done.contains(neighbor as int) {
                assert(is_walk(input, through.push(neighbor), neighbor as int));
            }
        }
        assert forall|v: int|
            0 <= v < input.spec_len() && (#[trigger] after.came_from[v])
                != NO_NODE implies stands_before(order, after.came_from[v] as int, v) by {
            if v == neighbor {
                assert(order.contains(current as int));
                let at = choose|at: int| 0 <= at < order.len() && order[at] == current as int;
                assert(order[at] == current as int);
                assert forall|j: int| 0 <= j < order.len() && #[trigger] order[j] == v implies at
                    < j by {
                    assert(order.contains(v));
                }
            } else {
                assert(after.came_from[v] == state.came_from[v]);
            }
        }
    }
}

/// Expanding a node keeps the predecessors in the order of expansion.
proof fn lemma_relax_from_keeps_order<Input: AStarInput + ?Sized>(
    input: &Input,
    state: SearchState,
    done: Set<int>,
    order: Seq<int>,
    current: usize,
    i: int,
)
    requires
        well_formed(input),
        sums_behave(),
        lengths_are_costs(input),
        estimates_guide(input),
        input.spec_len() <= usize::MAX,
        settled(input, state, done, current as int, i),
        expanded_in_order(input, state, done, order),
        done.contains(current as int),
        0 <= i <= input.spec_neighbors(current as int).len(),
    ensures
        expanded_in_order(input, relax_from(input, state, current, i), done, order),
    decreases input.spec_neighbors(current as int).len() - i,
{
    let around = input.spec_neighbors(current as int);
    if i < around.len() {
        lemma_relax_one_keeps_order(input, state, done, order, current, i);
        lemma_relax_one_keeps_settled(input, state, done, current, i);
        lemma_relax_from_keeps_order(
            input,
            relax_one(input, state, current, around[i]),
            done,
            order,
            current,
            i + 1,
        );
    }
}

/// Fewer nodes have been expanded than the graph has: the end never is.
proof fn lemma_order_is_short<Input: AStarInput + ?Sized>(
    input: &Input,
    state: SearchState,
    done: Set<int>,
    order: Seq<int>,
)
    requires
        input.spec_end() < input.spec_len(),
        done_is_cheapest(input, state, done),
        expanded_in_order(input, state, done, order),
    ensures
        order.len() + 1 <= input.spec_len(),
{
    let nodes = vstd::set_lib::set_int_range(0, input.spec_len() as int);
    let others = nodes.remove(input.spec_end() as int);
    vstd::set_lib::lemma_int_range(0, input.spec_len() as int);
    order.unique_seq_to_set();
    assert(order.to_set().subset_of(others)) by {
        assert forall|x: int| order.to_set().contains(x) implies others.contains(x) by {
            assert(order.contains(x));
            assert(done.contains(x));
        }
    }
    vstd::set_lib::lemma_len_subset(order.to_set(), others);
}

/// Going back from a node that has been expanded meets a node without
/// predecessor within as many steps as nodes were expanded before it, and one.
proof fn lemma_walk_back_succeeds<Input: AStarInput + ?Sized>(
    input: &Input,
    state: SearchState,
    done: Set<int>,
    order: Seq<int>,
    i: int,
    fuel: nat,
)
    requires
        input.spec_len() <= usize::MAX,
        state_fits(input, state),
        links_cost(input, state),
        done_is_cheapest(input, state, done),
        expanded_in_order(input, state, done, order),
        0 <= i < order.len(),
        fuel >= i + 1,
    ensures
        walk_back(state.came_from, order[i] as usize, fuel).is_some(),
    decreases i,
{
    let node = order[i];
    assert(order.contains(node));
    assert(done.contains(node));
    let before = state.came_from[node];
    if before != NO_NODE {
        let earlier = choose|at: int|
            0 <= at < order.len() && #[trigger] order[at] == before as int && forall|j: int|
                0 <= j < order.len() && #[trigger] order[j] == node ==> at < j;
        assert(earlier < i);
        lemma_walk_back_succeeds(input, state, done, order, earlier, (fuel - 1) as nat);
    } else {
        assert(walk_back(state.came_from, before, (fuel - 1) as nat) == Some(
            Seq::<usize>::empty(),
        ));
    }
}

/// The path that the predecessors record for a node costs no more than the
/// node is known to cost.
proof fn lemma_walk_back_cost<Input: AStarInput + ?Sized>(
    input: &Input,
    state: SearchState,
    node: usize,
    fuel: nat,
)
    requires
        sums_behave(),
        lengths_are_costs(input),
        input.spec_len() <= usize::MAX,
        state_fits(input, state),
        costs_are_real(input, state),
        links_cost(input, state),
        node < input.spec_len(),
        reached(state.came_from, input.spec_start(), node as int),
        walk_back(state.came_from, node, fuel).is_some(),
    ensures
        walk_back(state.came_from, node, fuel).unwrap().len() > 0,
        walk_back(state.came_from, node, fuel).unwrap()[0] == node,
        path_cost(input, walk_back(state.came_from, node, fuel).unwrap().reverse())
            <= state.g_score[node as int],
    decreases fuel,
{
    let w = walk_back(state.came_from, node, fuel).unwrap();
    let before = state.came_from[node as int];
    assert(fuel > 0);
    if before == NO_NODE {
        assert(walk_back(state.came_from, before, (fuel - 1) as nat) == Some(
            Seq::<usize>::empty(),
        ));
        assert(w == seq![node]);
        assert(w.reverse().len() == 1);
    } else {
        lemma_walk_back_cost(input, state, before, (fuel - 1) as nat);
        let rest = walk_back(state.came_from, before, (fuel - 1) as nat).unwrap();
        assert(w == seq![node] + rest);
        let forward = w.reverse();
        assert(forward.drop_last() == rest.reverse());
        assert(forward.last() == node);
        assert(forward[forward.len() - 2] == before);
        lemma_path_cost_grows(input, rest.reverse());
        assert(state.g_score[before as int] <= INFINITY_BITS);
        assert(path_cost(input, forward) == sum_bits(
            path_cost(input, rest.reverse()),
            input.spec_distance(before as int, node as int),
        ));
        assert(sum_bits(
            path_cost(input, rest.reverse()),
            input.spec_distance(before as int, node as int),
        ) <= sum_bits(
            state.g_score[before as int],
            input.spec_distance(before as int, node as int),
        ));
    }
}

/// Taking the first entry out of the frontier keeps what holds between two
/// steps, where the node of that entry is in `done`.
proof fn lemma_pop_keeps_settled<Input: AStarInput + ?Sized>(
    input: &Input,
    state: SearchState,
    done: Set<int>,
    first: int,
)
    requires
        settled(input, state, done, -1, 0),
        0 <= first < state.open_queue.len(),
        done.contains(state.open_queue[first].0 as int),
    ensures
        settled(
            input,
            SearchState {
                open_queue: state.open_queue.remove(first),
                came_from: state.came_from,
                g_score: state.g_score,
                closed_set: state.closed_set,
            },
            done,
            -1,
            0,
        ),
{
    let popped = SearchState {
        open_queue: state.open_queue.remove(first),
        came_from: state.came_from,
        g_score: state.g_score,
        closed_set: state.closed_set,
    };
    let start = input.spec_start();
    assert forall|at: int| 0 <= at < popped.open_queue.len() implies {
        let waiting = #[trigger] popped.open_queue[at];
        &&& waiting.0 < input.spec_len()
        &&& reached(popped.came_from, start, waiting.0 as int)
        &&& with_estimate(input, waiting.0 as int, popped.g_score[waiting.0 as int])
            <= waiting.1 <= INFINITY_BITS
    } by {
        if at < first {
            assert(popped.open_queue[at] == state.open_queue[at]);
        } else {
            assert(popped.open_queue[at] == state.open_queue[at + 1]);
        }
    }
    assert forall|v: int|
        0 <= v < input.spec_len() && #[trigger] reached(popped.came_from, start, v)
            && !done.contains(v) implies has_entry(
        popped.open_queue,
        (v as usize, with_estimate(input, v, popped.g_score[v])),
    ) by {
        let at = choose|at: int|
            0 <= at < state.open_queue.len() && #[trigger] state.open_queue[at] == (
                v as usize,
                with_estimate(input, v, state.g_score[v]),
            );
        if at < first {
            assert(popped.open_queue[at] == state.open_queue[at]);
        } else {
            assert(at != first);
            assert(popped.open_queue[at - 1] == state.open_queue[at]);
        }
    }
}

/// Where the end leaves the frontier, the predecessors record a path for it,
/// and that path costs no more than any other.
proof fn lemma_end_is_reached_cheapest<Input: AStarInput + ?Sized>(
    input: &Input,
    state: SearchState,
    done: Set<int>,
    order: Seq<int>,
    other: Seq<usize>,
)
    requires
        well_formed(input),
        input.spec_len() <= usize::MAX,
        sums_behave(),
        lengths_are_costs(input),
        estimates_guide(input),
        settled(input, state, done, -1, 0),
        expanded_in_order(input, state, done, order),
        is_path(input, other),
        state.open_queue.len() > 0,
        state.open_queue[first_index(state.open_queue)].0 == input.spec_end(),
    ensures
        recorded_path(state.came_from, input.spec_end() as usize).is_some(),
        is_path(input, recorded_path(state.came_from, input.spec_end() as usize).unwrap()),
        path_cost(input, recorded_path(state.came_from, input.spec_end() as usize).unwrap())
            <= path_cost(input, other),
{
    let start = input.spec_start();
    let end = input.spec_end() as usize;
    let first = first_index(state.open_queue);
    lemma_first_index_is_least(state.open_queue, state.open_queue.len());
    assert(state.open_queue[first].0 == end);
    assert(reached(state.came_from, start, end as int));
    assert(is_walk(input, other, end as int));
    assert(links_sound(input, state.came_from));
    // Going back from the end meets the start.
    let before = state.came_from[end as int];
    if before != NO_NODE {
        let earlier = choose|at: int|
            0 <= at < order.len() && #[trigger] order[at] == before as int && forall|j: int|
                0 <= j < order.len() && #[trigger] order[j] == end as int ==> at < j;
        lemma_order_is_short(input, state, done, order);
        lemma_walk_back_succeeds(
            input,
            state,
            done,
            order,
            earlier,
            (state.came_from.len() - 1) as nat,
        );
    } else {
        assert(walk_back(state.came_from, before, (state.came_from.len() - 1) as nat) == Some(
            Seq::<usize>::empty(),
        ));
    }
    assert(recorded_path(state.came_from, end).is_some());
    lemma_recorded_path_is_path(input, state.came_from, end);
    lemma_walk_back_cost(input, state, end, state.came_from.len());
    lemma_first_is_cheapest(input, state, done, other);
}

/// The nodes expanded so far, with `node` behind them unless it is among them.
pub open spec fn with_expanded(done: Set<int>, order: Seq<int>, node: int) -> Seq<int> {
    if done.contains(node) {
        order
    } else {
        order.push(node)
    }
}

/// Where a node other than the end leaves the frontier to be expanded, what
/// holds between two steps holds with that node among the expanded ones.
proof fn lemma_first_joins_done<Input: AStarInput + ?Sized>(
    input: &Input,
    state: SearchState,
    done: Set<int>,
    order: Seq<int>,
)
    requires
        well_formed(input),
        input.spec_len() <= usize::MAX,
        sums_behave(),
        lengths_are_costs(input),
        estimates_guide(input),
        settled(input, state, done, -1, 0),
        expanded_in_order(input, state, done, order),
        state.open_queue.len() > 0,
        state.open_queue[first_index(state.open_queue)].0 != input.spec_end(),
    ensures
        ({
            let current = state.open_queue[first_index(state.open_queue)].0 as int;
            &&& 0 <= current < input.spec_len()
            &&& settled(input, state, done.insert(current), current, 0)
            &&& expanded_in_order(
                input,
                state,
                done.insert(current),
                with_expanded(done, order, current),
            )
        }),
{
    let start = input.spec_start();
    let first = first_index(state.open_queue);
    lemma_first_index_is_least(state.open_queue, state.open_queue.len());
    let current = state.open_queue[first].0;
    let expanded = done.insert(current as int);
    let longer = with_expanded(done, order, current as int);
    assert(reached(state.came_from, start, current as int));
    assert forall|q: Seq<usize>| #[trigger]
        is_walk(input, q, current as int) implies state.g_score[current as int] <= path_cost(
        input,
        q,
    ) by {
        lemma_first_is_cheapest(input, state, done, q);
    }
    assert(done_is_cheapest(input, state, expanded));
    assert(done_is_relaxed(input, state, expanded, current as int, 0));
    assert(frontier_is_complete(input, state, expanded));
    if !done.contains(current as int) {
        assert(!order.contains(current as int));
        assert forall|x: int| #[trigger] expanded.contains(x) <==> longer.contains(x) by {
            if order.contains(x) {
                let at = choose|at: int| 0 <= at < order.len() && order[at] == x;
                assert(longer[at] == x);
            }
            if x == current as int {
                assert(longer[order.len() as int] == x);
            }
            if longer.contains(x) {
                let at = choose|at: int| 0 <= at < longer.len() && longer[at] == x;
                if at < order.len() {
                    assert(order[at] == x);
                }
            }
        }
        assert forall|v: int|
            0 <= v < input.spec_len() && (#[trigger] state.came_from[v])
                != NO_NODE implies stands_before(longer, state.came_from[v] as int, v) by {
            let from = state.came_from[v] as int;
            let at = choose|at: int|
                0 <= at < order.len() && #[trigger] order[at] == from && forall|j: int|
                    0 <= j < order.len() && #[trigger] order[j] == v ==> at < j;
            assert(longer[at] == from);
            assert forall|j: int| 0 <= j < longer.len() && #[trigger] longer[j] == v implies at
                < j by {
                if j < order.len() {
                    assert(order[j] == v);
                }
            }
        }
    } else {
        assert(expanded =~= done);
    }
}

/// With nothing left in the frontier, every path to the end is infinitely long.
proof fn lemma_empty_frontier_means_no_path<Input: AStarInput + ?Sized>(
    input: &Input,
    state: SearchState,
    done: Set<int>,
    other: Seq<usize>,
)
    requires
        well_formed(input),
        sums_behave(),
        lengths_are_costs(input),
        estimates_guide(input),
        settled(input, state, done, -1, 0),
        is_path(input, other),
        state.open_queue.len() == 0,
    ensures
        path_cost(input, other) == INFINITY_BITS,
{
    let end = input.spec_end() as int;
    assert(is_walk(input, other, end));
    let i = lemma_frontier_cuts(input, state, done, other, end);
    lemma_path_cost_grows(input, other);
    if path_cost(input, other) < INFINITY_BITS {
        assert(with_estimate(input, end, path_cost(input, other)) < with_estimate(
            input,
            end,
            INFINITY_BITS,
        ));
    }
}

/// What holds between two steps of a search: see `settled` and
/// `expanded_in_order`.
#[verifier::opaque]
pub open spec fn between_steps<Input: AStarInput + ?Sized>(
    input: &Input,
    state: SearchState,
    done: Set<int>,
    order: Seq<int>,
) -> bool {
    settled(input, state, done, -1, 0) && expanded_in_order(input, state, done, order)
}

/// The state without the first entry of its frontier.
pub open spec fn without_first(state: SearchState) -> SearchState {
    SearchState {
        open_queue: state.open_queue.remove(first_index(state.open_queue)),
        came_from: state.came_from,
        g_score: state.g_score,
        closed_set: state.closed_set,
    }
}

/// The node of the first entry of the frontier.
pub open spec fn first_node(state: SearchState) -> usize {
    state.open_queue[first_index(state.open_queue)].0
}

/// Between two steps the state fits the graph, and the first entry of the
/// frontier, if there is one, holds a node.
proof fn lemma_between_steps_fits<Input: AStarInput + ?Sized>(
    input: &Input,
    state: SearchState,
    done: Set<int>,
    order: Seq<int>,
)
    requires
        between_steps(input, state, done, order),
    ensures
        state_fits(input, state),
        state.open_queue.len() > 0 ==> 0 <= first_index(state.open_queue)
            < state.open_queue.len() && first_node(state) < input.spec_len(),
{
    reveal(between_steps);
    if state.open_queue.len() > 0 {
        lemma_first_index_is_least(state.open_queue, state.open_queue.len());
    }
}

/// The step at which nothing is left: every path to the end is infinitely
/// long.
proof fn lemma_step_without_entries<Input: AStarInput + ?Sized>(
    input: &Input,
    state: SearchState,
    done: Set<int>,
    order: Seq<int>,
    other: Seq<usize>,
)
    requires
        well_formed(input),
        sums_behave(),
        lengths_are_costs(input),
        estimates_guide(input),
        between_steps(input, state, done, order),
        is_path(input, other),
        state.open_queue.len() == 0,
    ensures
        path_cost(input, other) == INFINITY_BITS,
{
    reveal(between_steps);
    lemma_empty_frontier_means_no_path(input, state, done, other);
}

/// The step at which the end leaves the frontier.
proof fn lemma_step_at_the_end<Input: AStarInput + ?Sized>(
    input: &Input,
    state: SearchState,
    done: Set<int>,
    order: Seq<int>,
    other: Seq<usize>,
)
    requires
        well_formed(input),
        input.spec_len() <= usize::MAX,
        sums_behave(),
        lengths_are_costs(input),
        estimates_guide(input),
        between_steps(input, state, done, order),
        is_path(input, other),
        state.open_queue.len() > 0,
        first_node(state) == input.spec_end(),
    ensures
        recorded_path(state.came_from, input.spec_end() as usize).is_some(),
        is_path(input, recorded_path(state.came_from, input.spec_end() as usize).unwrap()),
        path_cost(input, recorded_path(state.came_from, input.spec_end() as usize).unwrap())
            <= path_cost(input, other),
{
    reveal(between_steps);
    lemma_end_is_reached_cheapest(input, state, done, order, other);
}

/// The step at which a node that is done leaves the frontier.
proof fn lemma_step_over_done<Input: AStarInput + ?Sized>(
    input: &Input,
    state: SearchState,
    done: Set<int>,
    order: Seq<int>,
)
    requires
        between_steps(input, state, done, order),
        state.open_queue.len() > 0,
        first_node(state) < input.spec_len(),
        state.closed_set[first_node(state) as int],
    ensures
        between_steps(input, without_first(state), done, order),
{
    reveal(between_steps);
    lemma_first_index_is_least(state.open_queue, state.open_queue.len());
    lemma_pop_keeps_settled(input, state, done, first_index(state.open_queue));
}

/// The step at which a node leaves the frontier and is expanded.
proof fn lemma_step_expanding<Input: AStarInput + ?Sized>(
    input: &Input,
    state: SearchState,
    done: Set<int>,
    order: Seq<int>,
)
    requires
        well_formed(input),
        input.spec_len() <= usize::MAX,
        sums_behave(),
        lengths_are_costs(input),
        estimates_guide(input),
        between_steps(input, state, done, order),
        state.open_queue.len() > 0,
        first_node(state) != input.spec_end(),
        !state.closed_set[first_node(state) as int],
    ensures
        ({
            let current = first_node(state);
            let after = relax_from(input, without_first(state), current, 0);
            between_steps(
                input,
                after,
                done.insert(current as int),
                with_expanded(done, order, current as int),
            )
        }),
{
    reveal(between_steps);
    let first = first_index(state.open_queue);
    lemma_first_index_is_least(state.open_queue, state.open_queue.len());
    let current = first_node(state);
    let popped = without_first(state);
    let expanded = done.insert(current as int);
    let longer = with_expanded(done, order, current as int);
    lemma_first_joins_done(input, state, done, order);
    lemma_pop_keeps_settled_while_expanding(input, state, expanded, first);
    lemma_relax_from_keeps_settled(input, popped, expanded, current, 0);
    lemma_relax_from_keeps_order(input, popped, expanded, longer, current, 0);
}

/// A search with estimates that guide it, continued between two steps, returns
/// a path if there is one that is not infinitely long, and a path that it
/// returns costs no more than any other.
proof fn lemma_search_from_is_cheapest<Input: AStarInput + ?Sized>(
    input: &Input,
    state: SearchState,
    done: Set<int>,
    order: Seq<int>,
    other: Seq<usize>,
)
    requires
        well_formed(input),
        input.spec_len() <= usize::MAX,
        sums_behave(),
        lengths_are_costs(input),
        estimates_guide(input),
        between_steps(input, state, done, order),
        is_path(input, other),
    ensures
        search_from(input, state).is_some() ==> is_path(input, search_from(input, state).unwrap())
            && path_cost(input, search_from(input, state).unwrap()) <= path_cost(input, other),
        path_cost(input, other) < INFINITY_BITS ==> search_from(input, state).is_some(),
    decreases count_false(state.closed_set), state.open_queue.len(),
{
    lemma_between_steps_fits(input, state, done, order);
    if state.open_queue.len() == 0 {
        lemma_step_without_entries(input, state, done, order, other);
        assert(search_from(input, state).is_none());
    } else {
        let current = first_node(state);
        if current == input.spec_end() {
            lemma_step_at_the_end(input, state, done, order, other);
            assert(search_from(input, state) == recorded_path(state.came_from, current));
        } else if state.closed_set[current as int] {
            lemma_step_over_done(input, state, done, order);
            lemma_search_from_is_cheapest(input, without_first(state), done, order, other);
            assert(search_from(input, state) == search_from(input, without_first(state)));
        } else {
            let after = relax_from(input, without_first(state), current, 0);
            lemma_step_expanding(input, state, done, order);
            // The measure goes down, so the search goes on from `after`.
            lemma_relax_from(input, without_first(state), current, 0);
            lemma_count_false_set(state.closed_set, current as int);
            lemma_search_from_is_cheapest(
                input,
                after,
                done.insert(current as int),
                with_expanded(done, order, current as int),
                other,
            );
            assert(search_from(input, state) == search_from(input, after));
        }
    }
}

/// Taking the first entry out of the frontier, where its node is about to be
/// expanded, keeps what holds between two steps.
proof fn lemma_pop_keeps_settled_while_expanding<Input: AStarInput + ?Sized>(
    input: &Input,
    state: SearchState,
    done: Set<int>,
    first: int,
)
    requires
        settled(input, state, done, state.open_queue[first].0 as int, 0),
        0 <= first < state.open_queue.len(),
        done.contains(state.open_queue[first].0 as int),
    ensures
        settled(
            input,
            SearchState {
                open_queue: state.open_queue.remove(first),
                came_from: state.came_from,
                g_score: state.g_score,
                closed_set: state.closed_set,
            },
            done,
            state.open_queue[first].0 as int,
            0,
        ),
{
    let popped = SearchState {
        open_queue: state.open_queue.remove(first),
        came_from: state.came_from,
        g_score: state.g_score,
        closed_set: state.closed_set,
    };
    let start = input.spec_start();
    assert forall|at: int| 0 <= at < popped.open_queue.len() implies {
        let waiting = #[trigger] popped.open_queue[at];
        &&& waiting.0 < input.spec_len()
        &&& reached(popped.came_from, start, waiting.0 as int)
        &&& with_estimate(input, waiting.0 as int, popped.g_score[waiting.0 as int])
            <= waiting.1 <= INFINITY_BITS
    } by {
        if at < first {
            assert(popped.open_queue[at] == state.open_queue[at]);
        } else {
            assert(popped.open_queue[at] == state.open_queue[at + 1]);
        }
    }
    assert forall|v: int|
        0 <= v < input.spec_len() && #[trigger] reached(popped.came_from, start, v)
            && !done.contains(v) implies has_entry(
        popped.open_queue,
        (v as usize, with_estimate(input, v, popped.g_score[v])),
    ) by {
        let at = choose|at: int|
            0 <= at < state.open_queue.len() && #[trigger] state.open_queue[at] == (
                v as usize,
                with_estimate(input, v, state.g_score[v]),
            );
        if at < first {
            assert(popped.open_queue[at] == state.open_queue[at]);
        } else {
            assert(at != first);
            assert(popped.open_queue[at - 1] == state.open_queue[at]);
        }
    }
}

/// The state in which a search begins is one between two steps.
proof fn lemma_initial_state_is_settled<Input: AStarInput + ?Sized>(input: &Input)
    requires
        well_formed(input),
        input.spec_len() <= usize::MAX,
        sums_behave(),
        estimates_guide(input),
    ensures
        between_steps(input, initial_state(input), Set::<int>::empty(), Seq::<int>::empty()),
{
    reveal(between_steps);
    let state = initial_state(input);
    let start = input.spec_start();
    let done = Set::<int>::empty();
    assert forall|v: int| 0 <= v < input.spec_len() implies (reached(state.came_from, start, v)
        <==> v == start) by {}
    let alone = seq![start as usize];
    assert(is_walk(input, alone, start as int) && path_cost(input, alone) == 0);
    assert(costs_are_real(input, state)) by {
        assert forall|v: int|
            0 <= v < input.spec_len() && #[trigger] reached(
                state.came_from,
                start,
                v,
            ) implies exists|q: Seq<usize>| #[trigger]
            is_walk(input, q, v) && path_cost(input, q) == state.g_score[v] by {
            assert(is_walk(input, alone, v) && path_cost(input, alone) == state.g_score[v]);
        }
    }
    assert(input.spec_heuristic(start as int) <= INFINITY_BITS);
    assert(with_estimate(input, start as int, 0) == input.spec_heuristic(start as int));
    assert(state.open_queue[0] == (
        start as usize,
        with_estimate(input, start as int, state.g_score[start as int]),
    ));
    assert(frontier_is_complete(input, state, done));
}

/// With estimates that guide it, the search returns a cheapest path: the path
/// it returns leads from the start to the end, and no path from the start to
/// the end costs less. The cost of a path is the rounded sum of its lengths,
/// taken from the start on; lengths are costs, and sums behave as rounded sums
/// of costs do.
pub proof fn guided_search_is_cheapest<Input: AStarInput + ?Sized>(
    input: &Input,
    other: Seq<usize>,
)
    requires
        well_formed(input),
        input.spec_len() <= usize::MAX,
        sums_behave(),
        lengths_are_costs(input),
        estimates_guide(input),
        is_path(input, other),
        search(input).is_some(),
    ensures
        is_path(input, search(input).unwrap()),
        path_cost(input, search(input).unwrap()) <= path_cost(input, other),
{
    lemma_initial_state_is_settled(input);
    lemma_search_from_is_cheapest(
        input,
        initial_state(input),
        Set::<int>::empty(),
        Seq::<int>::empty(),
        other,
    );
}

/// With estimates that guide it, the search returns a path wherever a path
/// leads from the start to the end that is not infinitely long.
pub proof fn guided_search_finds_a_path<Input: AStarInput + ?Sized>(
    input: &Input,
    other: Seq<usize>,
)
    requires
        well_formed(input),
        input.spec_len() <= usize::MAX,
        sums_behave(),
        lengths_are_costs(input),
        estimates_guide(input),
        is_path(input, other),
        path_cost(input, other) < INFINITY_BITS,
    ensures
        search(input).is_some(),
{
    lemma_initial_state_is_settled(input);
    lemma_search_from_is_cheapest(
        input,
        initial_state(input),
        Set::<int>::empty(),
        Seq::<int>::empty(),
        other,
    );
}

/// A search that is given no estimate returns a cheapest path, and returns a
/// path wherever one leads from the start to the end that is not infinitely
/// long.
pub proof fn search_without_estimates_is_cheapest<Input: AStarInput + ?Sized>(
    input: &Input,
    other: Seq<usize>,
)
    requires
        well_formed(input),
        input.spec_len() <= usize::MAX,
        sums_behave(),
        lengths_are_costs(input),
        estimates_are_zero(input),
        is_path(input, other),
    ensures
        path_cost(input, other) < INFINITY_BITS ==> search(input).is_some(),
        search(input).is_some() ==> is_path(input, search(input).unwrap()) && path_cost(
            input,
            search(input).unwrap(),
        ) <= path_cost(input, other),
{
    lemma_zero_estimates_guide(input);
    if path_cost(input, other) < INFINITY_BITS {
        guided_search_finds_a_path(input, other);
    }
    if search(input).is_some() {
        guided_search_is_cheapest(input, other);
    }
}

} // verus!

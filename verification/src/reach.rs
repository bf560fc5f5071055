//! When the search finds a path at all.
//!
//! Whatever the estimates are, the search reaches every node that a path leads
//! to, provided that no edge is so long that it makes a finite cost infinite,
//! and that a sum is no smaller than its first term. (Without the first, a
//! node can be done while the only way on from it still costs infinitely much,
//! and stay done when a cheaper way to it turns up.)
use crate::a_star::{is_path, reached, recorded_path, walk_back, well_formed, AStarInput, NO_NODE};
use crate::cheapest::{first_node, lengths_are_costs, without_first};
use crate::cost::{sum_bits, INFINITY_BITS};
use crate::frontier::{first_index, lemma_first_index_is_least};
use crate::search::{
    count_false, initial_state, lemma_count_false_set, lemma_relax_from, relax_from, relax_one,
    search, search_from, state_fits, SearchState,
};
use vstd::prelude::*;

verus! {

/// A sum of two costs is no smaller than the first of them.
pub open spec fn sums_do_not_shrink() -> bool {
    forall|a: u64, b: u64|
        a <= INFINITY_BITS && b <= INFINITY_BITS ==> a <= #[trigger] sum_bits(a, b)
}

/// No edge of the graph is so long that it makes a finite cost infinite.
pub open spec fn lengths_keep_finite<Input: AStarInput + ?Sized>(input: &Input) -> bool {
    forall|from: int, k: int, cost: u64|
        0 <= from < input.spec_len() && from != input.spec_end() && 0 <= k
            < input.spec_neighbors(from).len() && cost < INFINITY_BITS ==> #[trigger] sum_bits(
            cost,
            input.spec_distance(from, input.spec_neighbors(from)[k] as int),
        ) < INFINITY_BITS
}

/// Node `u` has a lower cost than node `v`, or the same cost and got it
/// earlier.
pub open spec fn came_first(state: SearchState, stamp: Seq<nat>, u: int, v: int) -> bool {
    state.g_score[u] < state.g_score[v] || (state.g_score[u] == state.g_score[v] && stamp[u]
        < stamp[v])
}

/// What holds while a search is on its way. `expanded` are the nodes that have
/// been expanded, `stamp` says for each node when it last got its cost, and
/// `now` is later than every stamp. Of the node `current`, which is being
/// expanded, only the first `upto` neighbours are known to have been reached.
pub open spec fn searching<Input: AStarInput + ?Sized>(
    input: &Input,
    state: SearchState,
    expanded: Set<int>,
    stamp: Seq<nat>,
    now: nat,
    current: int,
    upto: int,
) -> bool {
    let n = input.spec_len() as int;
    let start = input.spec_start();
    &&& state_fits(input, state)
    &&& stamp.len() == n
    &&& forall|v: int| 0 <= v < n ==> #[trigger] stamp[v] < now
    &&& state.g_score[start as int] == 0
    &&& forall|v: int| 0 <= v < n ==> #[trigger] state.g_score[v] <= INFINITY_BITS
    &&& forall|v: int|
        0 <= v < n ==> (#[trigger] reached(state.came_from, start, v) <==> state.g_score[v]
            < INFINITY_BITS)
    &&& forall|v: int|
        0 <= v < n && (#[trigger] state.came_from[v]) != NO_NODE ==> state.came_from[v] < n
            && state.came_from[v] != input.spec_end() && came_first(
            state,
            stamp,
            state.came_from[v] as int,
            v,
        )
    &&& forall|v: int|
        0 <= v < n && #[trigger] reached(state.came_from, start, v) && !expanded.contains(v)
            ==> waits(state.open_queue, v)
    &&& forall|x: int| #[trigger]
        expanded.contains(x) ==> 0 <= x < n && x != input.spec_end() && reached(
            state.came_from,
            start,
            x,
        )
    &&& forall|x: int, k: int|
        expanded.contains(x) && 0 <= k < input.spec_neighbors(x).len() && (x != current || k
            < upto) ==> reached(
            state.came_from,
            start,
            (#[trigger] input.spec_neighbors(x)[k]) as int,
        )
    &&& forall|x: int| 0 <= x < n && #[trigger] state.closed_set[x] ==> expanded.contains(x)
    &&& forall|i: int|
        0 <= i < state.open_queue.len() ==> reached(
            state.came_from,
            start,
            (#[trigger] state.open_queue[i]).0 as int,
        )
}

/// Whether `node` waits in the frontier.
pub open spec fn waits(open_queue: Seq<(usize, u64)>, node: int) -> bool {
    exists|i: int| 0 <= i < open_queue.len() && (#[trigger] open_queue[i]).0 == node
}

/// The stamps after the edge to one neighbour has been tried.
pub open spec fn stamped<Input: AStarInput + ?Sized>(
    input: &Input,
    state: SearchState,
    stamp: Seq<nat>,
    now: nat,
    current: usize,
    neighbor: usize,
) -> Seq<nat> {
    if sum_bits(
        state.g_score[current as int],
        input.spec_distance(current as int, neighbor as int),
    ) < state.g_score[neighbor as int] {
        stamp.update(neighbor as int, now)
    } else {
        stamp
    }
}

/// Trying one edge from a node that is being expanded keeps the search on its
/// way, and the neighbour is then known to have been reached.
#[verifier::rlimit(50)]
#[verifier::spinoff_prover]
proof fn lemma_relax_one_keeps_searching<Input: AStarInput + ?Sized>(
    input: &Input,
    state: SearchState,
    expanded: Set<int>,
    stamp: Seq<nat>,
    now: nat,
    current: usize,
    i: int,
)
    requires
        well_formed(input),
        input.spec_len() <= usize::MAX,
        sums_do_not_shrink(),
        lengths_are_costs(input),
        lengths_keep_finite(input),
        searching(input, state, expanded, stamp, now, current as int, i),
        expanded.contains(current as int),
        0 <= i < input.spec_neighbors(current as int).len(),
    ensures
        searching(
            input,
            relax_one(input, state, current, input.spec_neighbors(current as int)[i]),
            expanded,
            stamped(input, state, stamp, now, current, input.spec_neighbors(current as int)[i]),
            now + 1,
            current as int,
            i + 1,
        ),
{
    let n = input.spec_len() as int;
    let start = input.spec_start();
    let neighbor = input.spec_neighbors(current as int)[i];
    let length = input.spec_distance(current as int, neighbor as int);
    let tentative = sum_bits(state.g_score[current as int], length);
    let after = relax_one(input, state, current, neighbor);
    let later = stamped(input, state, stamp, now, current, neighbor);
    assert(neighbor < n);
    assert(reached(state.came_from, start, current as int));
    assert(state.g_score[current as int] < INFINITY_BITS);
    assert(length <= INFINITY_BITS);
    assert(state.g_score[current as int] <= tentative < INFINITY_BITS);
    if tentative < state.g_score[neighbor as int] {
        assert(neighbor != current);
        assert(neighbor != start);
        assert forall|v: int| 0 <= v < n implies (reached(after.came_from, start, v) <==> (
        reached(state.came_from, start, v) || v == neighbor)) by {}
        assert forall|v: int|
            0 <= v < n && (#[trigger] after.came_from[v]) != NO_NODE implies after.came_from[v]
            < n && after.came_from[v] != input.spec_end() && came_first(
            after,
            later,
            after.came_from[v] as int,
            v,
        ) by {
            if v != neighbor {
                let from = state.came_from[v];
                assert(after.came_from[v] == from);
                assert(came_first(state, stamp, from as int, v));
            }
        }
        assert forall|v: int|
            0 <= v < n && #[trigger] reached(after.came_from, start, v) && !expanded.contains(
                v,
            ) implies waits(after.open_queue, v) by {
            if v == neighbor {
                assert(after.open_queue[state.open_queue.len() as int].0 == v);
            } else {
                assert(reached(state.came_from, start, v));
                let at = choose|at: int|
                    0 <= at < state.open_queue.len() && (#[trigger] state.open_queue[at]).0 == v;
                assert(after.open_queue[at].0 == v);
            }
        }
        assert forall|x: int| #[trigger] expanded.contains(x) implies 0 <= x < n && x
            != input.spec_end() && reached(after.came_from, start, x) by {
            assert(reached(state.came_from, start, x));
        }
        assert forall|x: int, k: int|
            expanded.contains(x) && 0 <= k < input.spec_neighbors(x).len() && (x != current || k
                < i + 1) implies reached(
            after.came_from,
            start,
            (#[trigger] input.spec_neighbors(x)[k]) as int,
        ) by {
            let y = input.spec_neighbors(x)[k];
            assert(y < n);
            if !(x == current && k == i) {
                assert(reached(state.came_from, start, y as int));
            }
        }
        assert forall|at: int| 0 <= at < after.open_queue.len() implies (
        #[trigger] after.open_queue[at]).0 < input.spec_len() && reached(
            after.came_from,
            start,
            after.open_queue[at].0 as int,
        ) by {
            if at < state.open_queue.len() {
                assert(after.open_queue[at] == state.open_queue[at]);
                assert(reached(state.came_from, start, state.open_queue[at].0 as int));
            }
        }
    } else {
        assert(state.g_score[neighbor as int] < INFINITY_BITS);
        assert(reached(state.came_from, start, neighbor as int));
    }
}

/// The stamps and the time after a node has been expanded.
pub open spec fn stamps_after<Input: AStarInput + ?Sized>(
    input: &Input,
    state: SearchState,
    stamp: Seq<nat>,
    now: nat,
    current: usize,
    i: int,
) -> (Seq<nat>, nat)
    decreases input.spec_neighbors(current as int).len() - i,
{
    let around = input.spec_neighbors(current as int);
    if 0 <= i < around.len() {
        stamps_after(
            input,
            relax_one(input, state, current, around[i]),
            stamped(input, state, stamp, now, current, around[i]),
            now + 1,
            current,
            i + 1,
        )
    } else {
        (stamp, now)
    }
}

/// Expanding a node keeps the search on its way.
proof fn lemma_relax_from_keeps_searching<Input: AStarInput + ?Sized>(
    input: &Input,
    state: SearchState,
    expanded: Set<int>,
    stamp: Seq<nat>,
    now: nat,
    current: usize,
    i: int,
)
    requires
        well_formed(input),
        input.spec_len() <= usize::MAX,
        sums_do_not_shrink(),
        lengths_are_costs(input),
        lengths_keep_finite(input),
        searching(input, state, expanded, stamp, now, current as int, i),
        expanded.contains(current as int),
        0 <= i <= input.spec_neighbors(current as int).len(),
    ensures
        searching(
            input,
            relax_from(input, state, current, i),
            expanded,
            stamps_after(input, state, stamp, now, current, i).0,
            stamps_after(input, state, stamp, now, current, i).1,
            -1,
            0,
        ),
    decreases input.spec_neighbors(current as int).len() - i,
{
    let around = input.spec_neighbors(current as int);
    if i < around.len() {
        lemma_relax_one_keeps_searching(input, state, expanded, stamp, now, current, i);
        lemma_relax_from_keeps_searching(
            input,
            relax_one(input, state, current, around[i]),
            expanded,
            stamped(input, state, stamp, now, current, around[i]),
            now + 1,
            current,
            i + 1,
        );
    }
}

/// The nodes that came before `v`.
pub open spec fn earlier_nodes(state: SearchState, stamp: Seq<nat>, n: int, v: int) -> Set<int> {
    Set::new(|x: int| 0 <= x < n && came_first(state, stamp, x, v))
}

/// Going back from a node meets a node without predecessor within as many
/// steps as nodes came before it, and one.
proof fn lemma_walk_back_ends<Input: AStarInput + ?Sized>(
    input: &Input,
    state: SearchState,
    expanded: Set<int>,
    stamp: Seq<nat>,
    now: nat,
    node: usize,
    fuel: nat,
)
    requires
        input.spec_len() <= usize::MAX,
        searching(input, state, expanded, stamp, now, -1, 0),
        node < input.spec_len(),
        fuel >= earlier_nodes(state, stamp, input.spec_len() as int, node as int).len() + 1,
    ensures
        walk_back(state.came_from, node, fuel).is_some(),
    decreases fuel,
{
    let n = input.spec_len() as int;
    let before = state.came_from[node as int];
    if before != NO_NODE {
        let mine = earlier_nodes(state, stamp, n, node as int);
        let theirs = earlier_nodes(state, stamp, n, before as int);
        vstd::set_lib::lemma_int_range(0, n);
        assert(mine.subset_of(vstd::set_lib::set_int_range(0, n)));
        vstd::set_lib::lemma_len_subset(mine, vstd::set_lib::set_int_range(0, n));
        assert(came_first(state, stamp, before as int, node as int));
        assert(mine.contains(before as int));
        assert(theirs.subset_of(mine.remove(before as int)));
        vstd::set_lib::lemma_len_subset(theirs, mine.remove(before as int));
        lemma_walk_back_ends(input, state, expanded, stamp, now, before, (fuel - 1) as nat);
    } else {
        assert(walk_back(state.came_from, before, (fuel - 1) as nat) == Some(
            Seq::<usize>::empty(),
        ));
    }
}

/// Where the end leaves the frontier, the predecessors record a path for it.
proof fn lemma_end_has_a_path<Input: AStarInput + ?Sized>(
    input: &Input,
    state: SearchState,
    expanded: Set<int>,
    stamp: Seq<nat>,
    now: nat,
)
    requires
        well_formed(input),
        input.spec_len() <= usize::MAX,
        searching(input, state, expanded, stamp, now, -1, 0),
    ensures
        recorded_path(state.came_from, input.spec_end() as usize).is_some(),
{
    let n = input.spec_len() as int;
    let end = input.spec_end() as int;
    let mine = earlier_nodes(state, stamp, n, end);
    let others = vstd::set_lib::set_int_range(0, n).remove(end);
    vstd::set_lib::lemma_int_range(0, n);
    assert(mine.subset_of(others));
    vstd::set_lib::lemma_len_subset(mine, others);
    lemma_walk_back_ends(input, state, expanded, stamp, now, end as usize, n as nat);
}

/// With nothing left in the frontier, every node on a path from the start has
/// been reached.
proof fn lemma_path_is_reached<Input: AStarInput + ?Sized>(
    input: &Input,
    state: SearchState,
    expanded: Set<int>,
    stamp: Seq<nat>,
    now: nat,
    other: Seq<usize>,
    i: int,
)
    requires
        well_formed(input),
        searching(input, state, expanded, stamp, now, -1, 0),
        state.open_queue.len() == 0,
        is_path(input, other),
        0 <= i < other.len(),
    ensures
        reached(state.came_from, input.spec_start(), other[i] as int),
    decreases i,
{
    if i > 0 {
        lemma_path_is_reached(input, state, expanded, stamp, now, other, i - 1);
        let from = other[i - 1] as int;
        assert(from < input.spec_len());
        assert(from != input.spec_end());
        if !expanded.contains(from) {
            assert(waits(state.open_queue, from));
        }
        let k = choose|k: int|
            0 <= k < input.spec_neighbors(from).len() && input.spec_neighbors(from)[k]
                == other[i];
        assert(reached(
            state.came_from,
            input.spec_start(),
            input.spec_neighbors(from)[k] as int,
        ));
    }
}

/// The search is on its way: see `searching`.
#[verifier::opaque]
pub open spec fn on_the_way<Input: AStarInput + ?Sized>(
    input: &Input,
    state: SearchState,
    expanded: Set<int>,
    stamp: Seq<nat>,
    now: nat,
) -> bool {
    searching(input, state, expanded, stamp, now, -1, 0)
}

/// On its way the state fits the graph, and the first entry of the frontier,
/// if there is one, holds a node.
proof fn lemma_on_the_way_fits<Input: AStarInput + ?Sized>(
    input: &Input,
    state: SearchState,
    expanded: Set<int>,
    stamp: Seq<nat>,
    now: nat,
)
    requires
        on_the_way(input, state, expanded, stamp, now),
    ensures
        state_fits(input, state),
        state.open_queue.len() > 0 ==> 0 <= first_index(state.open_queue)
            < state.open_queue.len() && first_node(state) < input.spec_len(),
{
    reveal(on_the_way);
    if state.open_queue.len() > 0 {
        lemma_first_index_is_least(state.open_queue, state.open_queue.len());
    }
}

/// The step at which nothing is left: no path leads from the start to the end.
proof fn lemma_step_without_entries<Input: AStarInput + ?Sized>(
    input: &Input,
    state: SearchState,
    expanded: Set<int>,
    stamp: Seq<nat>,
    now: nat,
    other: Seq<usize>,
)
    requires
        well_formed(input),
        on_the_way(input, state, expanded, stamp, now),
        state.open_queue.len() == 0,
    ensures
        !is_path(input, other),
{
    reveal(on_the_way);
    if is_path(input, other) {
        let end = input.spec_end() as int;
        lemma_path_is_reached(input, state, expanded, stamp, now, other, other.len() - 1);
        assert(reached(state.came_from, input.spec_start(), end));
        if !expanded.contains(end) {
            assert(waits(state.open_queue, end));
        }
    }
}

/// The step at which the end leaves the frontier.
proof fn lemma_step_at_the_end<Input: AStarInput + ?Sized>(
    input: &Input,
    state: SearchState,
    expanded: Set<int>,
    stamp: Seq<nat>,
    now: nat,
)
    requires
        well_formed(input),
        input.spec_len() <= usize::MAX,
        on_the_way(input, state, expanded, stamp, now),
    ensures
        recorded_path(state.came_from, input.spec_end() as usize).is_some(),
{
    reveal(on_the_way);
    lemma_end_has_a_path(input, state, expanded, stamp, now);
}

/// Taking the first entry out of the frontier keeps the search on its way,
/// where the node of that entry has been expanded or is being expanded.
proof fn lemma_pop_keeps_searching<Input: AStarInput + ?Sized>(
    input: &Input,
    state: SearchState,
    expanded: Set<int>,
    stamp: Seq<nat>,
    now: nat,
    current: int,
)
    requires
        searching(input, state, expanded, stamp, now, current, 0),
        state.open_queue.len() > 0,
        expanded.contains(first_node(state) as int),
    ensures
        searching(input, without_first(state), expanded, stamp, now, current, 0),
{
    let first = first_index(state.open_queue);
    lemma_first_index_is_least(state.open_queue, state.open_queue.len());
    let popped = without_first(state);
    let start = input.spec_start();
    assert forall|at: int| 0 <= at < popped.open_queue.len() implies (
    #[trigger] popped.open_queue[at]).0 < input.spec_len() && reached(
        popped.came_from,
        start,
        popped.open_queue[at].0 as int,
    ) by {
        if at < first {
            assert(popped.open_queue[at] == state.open_queue[at]);
        } else {
            assert(popped.open_queue[at] == state.open_queue[at + 1]);
        }
    }
    assert forall|v: int|
        0 <= v < input.spec_len() && #[trigger] reached(popped.came_from, start, v)
            && !expanded.contains(v) implies waits(popped.open_queue, v) by {
        let at = choose|at: int|
            0 <= at < state.open_queue.len() && (#[trigger] state.open_queue[at]).0 == v;
        if at < first {
            assert(popped.open_queue[at] == state.open_queue[at]);
        } else {
            assert(at != first);
            assert(popped.open_queue[at - 1] == state.open_queue[at]);
        }
    }
}

/// The step at which a node that is done leaves the frontier.
proof fn lemma_step_over_done<Input: AStarInput + ?Sized>(
    input: &Input,
    state: SearchState,
    expanded: Set<int>,
    stamp: Seq<nat>,
    now: nat,
)
    requires
        on_the_way(input, state, expanded, stamp, now),
        state.open_queue.len() > 0,
        first_node(state) < input.spec_len(),
        state.closed_set[first_node(state) as int],
    ensures
        on_the_way(input, without_first(state), expanded, stamp, now),
{
    reveal(on_the_way);
    lemma_pop_keeps_searching(input, state, expanded, stamp, now, -1);
}

/// The step at which a node leaves the frontier and is expanded.
proof fn lemma_step_expanding<Input: AStarInput + ?Sized>(
    input: &Input,
    state: SearchState,
    expanded: Set<int>,
    stamp: Seq<nat>,
    now: nat,
)
    requires
        well_formed(input),
        input.spec_len() <= usize::MAX,
        sums_do_not_shrink(),
        lengths_are_costs(input),
        lengths_keep_finite(input),
        on_the_way(input, state, expanded, stamp, now),
        state.open_queue.len() > 0,
        first_node(state) != input.spec_end(),
    ensures
        ({
            let current = first_node(state);
            let popped = without_first(state);
            on_the_way(
                input,
                relax_from(input, popped, current, 0),
                expanded.insert(current as int),
                stamps_after(input, popped, stamp, now, current, 0).0,
                stamps_after(input, popped, stamp, now, current, 0).1,
            )
        }),
{
    reveal(on_the_way);
    lemma_first_index_is_least(state.open_queue, state.open_queue.len());
    let current = first_node(state);
    let more = expanded.insert(current as int);
    let start = input.spec_start();
    assert(state.open_queue[first_index(state.open_queue)].0 == current);
    assert(current < input.spec_len());
    assert(reached(state.came_from, start, current as int));
    assert(searching(input, state, more, stamp, now, current as int, 0));
    lemma_pop_keeps_searching(input, state, more, stamp, now, current as int);
    lemma_relax_from_keeps_searching(input, without_first(state), more, stamp, now, current, 0);
}

/// Whatever the estimates, a search that is on its way returns a path if a
/// path leads from the start to the end.
proof fn lemma_search_from_finds<Input: AStarInput + ?Sized>(
    input: &Input,
    state: SearchState,
    expanded: Set<int>,
    stamp: Seq<nat>,
    now: nat,
    other: Seq<usize>,
)
    requires
        well_formed(input),
        input.spec_len() <= usize::MAX,
        sums_do_not_shrink(),
        lengths_are_costs(input),
        lengths_keep_finite(input),
        on_the_way(input, state, expanded, stamp, now),
        is_path(input, other),
    ensures
        search_from(input, state).is_some(),
    decreases count_false(state.closed_set), state.open_queue.len(),
{
    lemma_on_the_way_fits(input, state, expanded, stamp, now);
    if state.open_queue.len() == 0 {
        lemma_step_without_entries(input, state, expanded, stamp, now, other);
    } else {
        let current = first_node(state);
        if current == input.spec_end() {
            lemma_step_at_the_end(input, state, expanded, stamp, now);
            assert(search_from(input, state) == recorded_path(state.came_from, current));
        } else if state.closed_set[current as int] {
            lemma_step_over_done(input, state, expanded, stamp, now);
            lemma_search_from_finds(input, without_first(state), expanded, stamp, now, other);
            assert(search_from(input, state) == search_from(input, without_first(state)));
        } else {
            let popped = without_first(state);
            let after = relax_from(input, popped, current, 0);
            lemma_step_expanding(input, state, expanded, stamp, now);
            // The measure goes down, so the search goes on from `after`.
            lemma_relax_from(input, popped, current, 0);
            lemma_count_false_set(state.closed_set, current as int);
            lemma_search_from_finds(
                input,
                after,
                expanded.insert(current as int),
                stamps_after(input, popped, stamp, now, current, 0).0,
                stamps_after(input, popped, stamp, now, current, 0).1,
                other,
            );
            assert(search_from(input, state) == search_from(input, after));
        }
    }
}

/// Whatever the estimates, the search returns a path wherever a path leads
/// from the start to the end, provided that no edge makes a finite cost
/// infinite and that a sum is no smaller than its first term.
pub proof fn search_finds_a_path<Input: AStarInput + ?Sized>(input: &Input, other: Seq<usize>)
    requires
        well_formed(input),
        input.spec_len() <= usize::MAX,
        sums_do_not_shrink(),
        lengths_are_costs(input),
        lengths_keep_finite(input),
        is_path(input, other),
    ensures
        search(input).is_some(),
{
    let state = initial_state(input);
    let start = input.spec_start();
    let stamp = Seq::new(input.spec_len(), |v: int| 0nat);
    let nothing = Set::<int>::empty();
    assert(on_the_way(input, state, nothing, stamp, 1)) by {
        reveal(on_the_way);
        assert forall|v: int| 0 <= v < input.spec_len() implies (reached(
            state.came_from,
            start,
            v,
        ) <==> v == start) by {}
        assert(state.open_queue[0].0 == start);
        assert(waits(state.open_queue, start as int));
    }
    lemma_search_from_finds(input, state, nothing, stamp, 1, other);
}

} // verus!

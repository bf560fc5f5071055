//! What the search does, step by step, as a function of the graph's answers.
//!
//! The search keeps a frontier of nodes to expand, for each node the cheapest
//! known cost from the start and the node it was reached from, and a mark for
//! each node that is done. `search_from` says what it returns from any such
//! state; it is defined for graphs whose lengths and estimates are fixed.
use crate::a_star::{recorded_path, well_formed, AStarInput, NO_NODE};
use crate::cost::{sum_bits, INFINITY_BITS};
use crate::frontier::{first_index, lemma_first_index_is_least, Entry};
use vstd::prelude::*;

verus! {

/// The state of a search between two steps. Costs are held by their bit
/// patterns.
pub struct SearchState {
    /// The frontier: nodes with their estimates, in the order in which they
    /// were added.
    pub open_queue: Seq<Entry>,
    /// For each node, the node it was reached from, or the mark of none.
    pub came_from: Seq<usize>,
    /// For each node, the cheapest known cost from the start; infinite for a
    /// node not reached yet.
    pub g_score: Seq<u64>,
    /// For each node, whether it is done.
    pub closed_set: Seq<bool>,
}

/// The number of `false` entries.
pub open spec fn count_false(s: Seq<bool>) -> nat
    decreases s.len(),
{
    if s.len() == 0 {
        0
    } else {
        count_false(s.drop_last()) + if s.last() {
            0nat
        } else {
            1nat
        }
    }
}

/// Setting one `false` entry to `true` leaves one `false` entry fewer.
pub proof fn lemma_count_false_set(s: Seq<bool>, i: int)
    requires
        0 <= i < s.len(),
        !s[i],
    ensures
        count_false(s.update(i, true)) + 1 == count_false(s),
    decreases s.len(),
{
    if i == s.len() - 1 {
        assert(s.update(i, true).drop_last() == s.drop_last());
    } else {
        assert(s.update(i, true).drop_last() == s.drop_last().update(i, true));
        lemma_count_false_set(s.drop_last(), i);
    }
}

/// The state has an entry for each node, and the frontier holds nodes only.
pub open spec fn state_fits<Input: AStarInput + ?Sized>(input: &Input, state: SearchState) -> bool {
    &&& state.came_from.len() == input.spec_len()
    &&& state.g_score.len() == input.spec_len()
    &&& state.closed_set.len() == input.spec_len()
    &&& forall|k: int|
        0 <= k < state.open_queue.len() ==> (#[trigger] state.open_queue[k]).0 < input.spec_len()
}

/// The state in which a search begins: the start waits in the frontier with
/// its estimate and has cost zero, every other node has infinite cost, and no
/// node is done or has a predecessor.
pub open spec fn initial_state<Input: AStarInput + ?Sized>(input: &Input) -> SearchState {
    SearchState {
        open_queue: seq![
            (input.spec_start() as usize, input.spec_heuristic(input.spec_start() as int)),
        ],
        came_from: Seq::new(input.spec_len(), |i: int| NO_NODE),
        g_score: Seq::new(input.spec_len(), |i: int| INFINITY_BITS).update(
            input.spec_start() as int,
            0,
        ),
        closed_set: Seq::new(input.spec_len(), |i: int| false),
    }
}

/// Tries the edge from `current` to `neighbor`: where the cost through
/// `current` is strictly below the cheapest cost known for `neighbor`, the
/// neighbour takes that cost and `current` as its predecessor, joins the
/// frontier with the new cost plus its estimate, and `current` is done.
pub open spec fn relax_one<Input: AStarInput + ?Sized>(
    input: &Input,
    state: SearchState,
    current: usize,
    neighbor: usize,
) -> SearchState {
    let tentative = sum_bits(
        state.g_score[current as int],
        input.spec_distance(current as int, neighbor as int),
    );
    if tentative < state.g_score[neighbor as int] {
        SearchState {
            open_queue: state.open_queue.push(
                (neighbor, sum_bits(tentative, input.spec_heuristic(neighbor as int))),
            ),
            came_from: state.came_from.update(neighbor as int, current),
            g_score: state.g_score.update(neighbor as int, tentative),
            closed_set: state.closed_set.update(current as int, true),
        }
    } else {
        state
    }
}

/// Tries the edges from `current` to its neighbours from the `i`-th on, in
/// order.
pub open spec fn relax_from<Input: AStarInput + ?Sized>(
    input: &Input,
    state: SearchState,
    current: usize,
    i: int,
) -> SearchState
    decreases input.spec_neighbors(current as int).len() - i,
{
    let around = input.spec_neighbors(current as int);
    if 0 <= i < around.len() {
        relax_from(input, relax_one(input, state, current, around[i]), current, i + 1)
    } else {
        state
    }
}

/// Expanding a node keeps the state fitting, and either changes neither
/// frontier nor marks, or marks the node as done.
pub proof fn lemma_relax_from<Input: AStarInput + ?Sized>(
    input: &Input,
    state: SearchState,
    current: usize,
    i: int,
)
    requires
        well_formed(input),
        state_fits(input, state),
        current < input.spec_len(),
        current != input.spec_end(),
        0 <= i <= input.spec_neighbors(current as int).len(),
    ensures
        state_fits(input, relax_from(input, state, current, i)),
        ({
            let after = relax_from(input, state, current, i);
            (after.closed_set == state.closed_set && after.open_queue == state.open_queue)
                || after.closed_set == state.closed_set.update(current as int, true)
        }),
    decreases input.spec_neighbors(current as int).len() - i,
{
    let around = input.spec_neighbors(current as int);
    if i < around.len() {
        let next = relax_one(input, state, current, around[i]);
        assert(around[i] < input.spec_len());
        lemma_relax_from(input, next, current, i + 1);
        assert(state.closed_set.update(current as int, true).update(current as int, true)
            == state.closed_set.update(current as int, true));
    }
}

/// What the search returns from a state: nothing if the frontier is empty;
/// otherwise the entry that comes first leaves the frontier, and if its node is
/// the end, the path that the predecessors record for the end is returned; if
/// the node is done, the search goes on; if not, the node is expanded and the
/// search goes on from there.
pub open spec fn search_from<Input: AStarInput + ?Sized>(
    input: &Input,
    state: SearchState,
) -> Option<Seq<usize>>
    decreases count_false(state.closed_set), state.open_queue.len(),
    when well_formed(input) && state_fits(input, state)
    via search_from_decreases::<Input>
{
    if state.open_queue.len() == 0 {
        None
    } else {
        let first = first_index(state.open_queue);
        let current = state.open_queue[first].0;
        let popped = SearchState {
            open_queue: state.open_queue.remove(first),
            came_from: state.came_from,
            g_score: state.g_score,
            closed_set: state.closed_set,
        };
        if current == input.spec_end() {
            recorded_path(state.came_from, current)
        } else if state.closed_set[current as int] {
            search_from(input, popped)
        } else {
            search_from(input, relax_from(input, popped, current, 0))
        }
    }
}

#[via_fn]
proof fn search_from_decreases<Input: AStarInput + ?Sized>(input: &Input, state: SearchState) {
    if state.open_queue.len() > 0 {
        lemma_first_index_is_least(state.open_queue, state.open_queue.len());
        let first = first_index(state.open_queue);
        let current = state.open_queue[first].0;
        let popped = SearchState {
            open_queue: state.open_queue.remove(first),
            came_from: state.came_from,
            g_score: state.g_score,
            closed_set: state.closed_set,
        };
        if current != input.spec_end() && !state.closed_set[current as int] {
            lemma_relax_from(input, popped, current, 0);
            lemma_count_false_set(state.closed_set, current as int);
        }
    }
}

/// What a search returns.
pub open spec fn search<Input: AStarInput + ?Sized>(input: &Input) -> Option<Seq<usize>> {
    search_from(input, initial_state(input))
}

} // verus!

//! Informed search for a cheapest path on a graph that the caller describes.
use crate::cheapest::{
    estimates_guide, guided_search_finds_a_path, guided_search_is_cheapest, lengths_are_costs,
    path_cost, sums_behave,
};
use crate::cost::{Cost, INFINITY_BITS};
use crate::reach::{lengths_keep_finite, search_finds_a_path, sums_do_not_shrink};
use crate::flags::Flags;
use crate::frontier::{first_index, Frontier, NodeCost};
use crate::search::{
    count_false, initial_state, lemma_count_false_set, relax_from, relax_one, search, search_from,
    state_fits, SearchState,
};
use vstd::prelude::*;

verus! {

/// The mark of a node that no other node leads to yet.
pub const NO_NODE: usize = usize::MAX;

/// A graph of `len()` nodes, numbered from zero, with a start, an end, the
/// neighbours of each node, the length of each edge and an estimate of what is
/// left from each node to the end.
///
/// The six methods are what the search calls. The specification functions
/// beside them say, for the verifier, what the methods answer; a graph gives
/// its own. Those written here belong to a graph without nodes, which no
/// search accepts, and are what a graph has that is written without the
/// verifier.
pub trait AStarInput {
    /// What the graph's own data must satisfy before it is asked anything.
    open spec fn valid(&self) -> bool {
        true
    }

    /// The number of nodes.
    open spec fn spec_len(&self) -> nat {
        0
    }

    /// The node at which every path begins.
    open spec fn spec_start(&self) -> nat {
        0
    }

    /// The node at which every path ends.
    open spec fn spec_end(&self) -> nat {
        0
    }

    /// The nodes that an edge leads to from `node`, in the order in which the
    /// search tries them.
    open spec fn spec_neighbors(&self, node: int) -> Seq<usize> {
        Seq::empty()
    }

    /// Whether lengths and estimates are fixed: the same question always gets
    /// the answer that `spec_distance` or `spec_heuristic` gives. A graph that
    /// cannot promise this says no, and the search then promises less.
    open spec fn fixed(&self) -> bool {
        false
    }

    /// The bit pattern of the length of the edge between two nodes, where
    /// lengths are fixed.
    open spec fn spec_distance(&self, from: int, to: int) -> u64 {
        0
    }

    /// The bit pattern of the estimate for a node, where estimates are fixed.
    open spec fn spec_heuristic(&self, node: int) -> u64 {
        0
    }

    /// The neighbours of a node. The search never asks for those of the end.
    fn neighbors(&self, node: usize) -> (r: &[usize])
        requires
            self.valid(),
            node < self.spec_len(),
            node != self.spec_end(),
        ensures
            r@ == self.spec_neighbors(node as int),
    ;

    /// The length of the edge between two nodes.
    fn distance(&self, from: usize, to: usize) -> (r: Cost)
        requires
            self.valid(),
            from < self.spec_len(),
            to < self.spec_len(),
        ensures
            self.fixed() ==> r.spec_bits() == self.spec_distance(from as int, to as int),
    ;

    /// An estimate of the cost from `node` to the end. Where it never exceeds
    /// the true cost, the search has what it needs to prefer cheap paths.
    fn heuristic(&self, node: usize) -> (r: Cost)
        requires
            self.valid(),
            node < self.spec_len(),
        ensures
            self.fixed() ==> r.spec_bits() == self.spec_heuristic(node as int),
    ;

    /// The number of nodes.
    fn len(&self) -> (r: usize)
        requires
            self.valid(),
        ensures
            r == self.spec_len(),
    ;

    /// The node at which every path begins.
    fn start(&self) -> (r: usize)
        requires
            self.valid(),
        ensures
            r == self.spec_start(),
    ;

    /// The node at which every path ends.
    fn end(&self) -> (r: usize)
        requires
            self.valid(),
        ensures
            r == self.spec_end(),
    ;
}

/// The graph is valid, and its start, its end and every neighbour are nodes of it.
pub open spec fn well_formed<Input: AStarInput + ?Sized>(input: &Input) -> bool {
    &&& input.valid()
    &&& input.spec_start() < input.spec_len()
    &&& input.spec_end() < input.spec_len()
    &&& forall|node: int, k: int|
        0 <= node < input.spec_len() && node != input.spec_end() && 0 <= k
            < input.spec_neighbors(node).len() ==> (#[trigger] input.spec_neighbors(node)[k])
            < input.spec_len()
}

/// `path` leads from the start to the end along edges of the graph.
pub open spec fn is_path<Input: AStarInput + ?Sized>(input: &Input, path: Seq<usize>) -> bool {
    &&& path.len() > 0
    &&& path[0] == input.spec_start()
    &&& path.last() == input.spec_end()
    &&& forall|i: int| 0 <= i < path.len() ==> (#[trigger] path[i]) < input.spec_len()
    &&& forall|i: int|
        0 <= i < path.len() - 1 ==> (#[trigger] path[i]) != input.spec_end()
            && input.spec_neighbors(path[i] as int).contains(path[i + 1])
}

/// The nodes met by going from `node` to its predecessor, and on, until a node
/// without one: `node` first. There is no such walk within `fuel` steps where
/// the predecessors run in a circle.
pub open spec fn walk_back(came_from: Seq<usize>, node: usize, fuel: nat) -> Option<Seq<usize>>
    decreases fuel,
{
    if node == NO_NODE {
        Some(Seq::empty())
    } else if fuel == 0 || node >= came_from.len() {
        None
    } else {
        match walk_back(came_from, came_from[node as int], (fuel - 1) as nat) {
            Some(rest) => Some(seq![node] + rest),
            None => None,
        }
    }
}

/// The path that the predecessors record for `end`, from its first node to
/// `end` itself.
pub open spec fn recorded_path(came_from: Seq<usize>, end: usize) -> Option<Seq<usize>> {
    match walk_back(came_from, end, came_from.len()) {
        Some(nodes) => Some(nodes.reverse()),
        None => None,
    }
}

/// Every predecessor is a node or the mark of none.
pub open spec fn predecessors_in_range(came_from: Seq<usize>) -> bool {
    forall|x: int|
        0 <= x < came_from.len() ==> (#[trigger] came_from[x]) == NO_NODE || came_from[x]
            < came_from.len()
}

/// However many steps a walk back is given, it is the same walk if it ends.
pub proof fn lemma_walk_back_is_one(came_from: Seq<usize>, node: usize, fuel: nat, other: nat)
    requires
        walk_back(came_from, node, fuel).is_some(),
        walk_back(came_from, node, other).is_some(),
    ensures
        walk_back(came_from, node, fuel) == walk_back(came_from, node, other),
    decreases fuel,
{
    if node != NO_NODE {
        lemma_walk_back_is_one(
            came_from,
            came_from[node as int],
            (fuel - 1) as nat,
            (other - 1) as nat,
        );
    }
}

/// A walk back takes no more steps than it is given, and what is left of it
/// from any of its nodes on is the walk back from that node.
pub proof fn lemma_walk_back_from_within(came_from: Seq<usize>, node: usize, fuel: nat, j: int)
    requires
        walk_back(came_from, node, fuel).is_some(),
        0 <= j < walk_back(came_from, node, fuel).unwrap().len(),
    ensures
        walk_back(came_from, node, fuel).unwrap().len() <= fuel,
        walk_back(
            came_from,
            walk_back(came_from, node, fuel).unwrap()[j],
            (fuel - j) as nat,
        ) == Some(
            walk_back(came_from, node, fuel).unwrap().subrange(
                j,
                walk_back(came_from, node, fuel).unwrap().len() as int,
            ),
        ),
    decreases fuel,
{
    let w = walk_back(came_from, node, fuel).unwrap();
    let rest = walk_back(came_from, came_from[node as int], (fuel - 1) as nat).unwrap();
    assert(w == seq![node] + rest);
    if j == 0 {
        assert(w.subrange(0, w.len() as int) == w);
        if rest.len() > 0 {
            lemma_walk_back_from_within(came_from, came_from[node as int], (fuel - 1) as nat, 0);
        }
    } else {
        lemma_walk_back_from_within(came_from, came_from[node as int], (fuel - 1) as nat, j - 1);
        assert(w[j] == rest[j - 1]);
        assert(w.subrange(j, w.len() as int) == rest.subrange(j - 1, rest.len() as int));
    }
}

/// A path that the predecessors record visits no node twice, and has no more
/// nodes than there are.
pub proof fn lemma_recorded_path_is_simple(came_from: Seq<usize>, end: usize)
    requires
        recorded_path(came_from, end).is_some(),
    ensures
        recorded_path(came_from, end).unwrap().no_duplicates(),
        recorded_path(came_from, end).unwrap().len() <= came_from.len(),
{
    let fuel = came_from.len();
    let w = walk_back(came_from, end, fuel).unwrap();
    let path = w.reverse();
    if w.len() > 0 {
        lemma_walk_back_from_within(came_from, end, fuel, 0);
    }
    assert forall|i: int, j: int| 0 <= i < w.len() && 0 <= j < w.len() && i != j implies w[i]
        != w[j] by {
        if w[i] == w[j] {
            lemma_walk_back_from_within(came_from, end, fuel, i);
            lemma_walk_back_from_within(came_from, end, fuel, j);
            lemma_walk_back_is_one(came_from, w[i], (fuel - i) as nat, (fuel - j) as nat);
            assert(w.subrange(i, w.len() as int).len() != w.subrange(j, w.len() as int).len());
        }
    }
    assert forall|i: int, j: int|
        0 <= i < path.len() && 0 <= j < path.len() && i != j implies path[i] != path[j] by {
        assert(path[i] == w[w.len() - 1 - i]);
        assert(path[j] == w[w.len() - 1 - j]);
    }
}

/// Follows the predecessors from `end` back to a node that has none and
/// returns the nodes in the order of travel. Returns nothing where the
/// predecessors run in a circle, so that no such node is ever met. A path that
/// is returned visits no node twice.
pub fn reconstruct_path(came_from: &Vec<usize>, end: usize) -> (r: Option<Vec<usize>>)
    requires
        end < came_from.len(),
        predecessors_in_range(came_from@),
    ensures
        match recorded_path(came_from@, end) {
            Some(path) => r.is_some() && r.unwrap()@ == path,
            None => r.is_none(),
        },
        r.is_some() ==> r.unwrap()@.no_duplicates() && r.unwrap()@.len() <= came_from@.len(),
{
    proof {
        if recorded_path(came_from@, end).is_some() {
            lemma_recorded_path_is_simple(came_from@, end);
        }
    }
    let mut backwards: Vec<usize> = Vec::new();
    let mut current: usize = end;
    let mut fuel: usize = came_from.len();
    while current != NO_NODE && fuel > 0
        invariant
            predecessors_in_range(came_from@),
            current == NO_NODE || current < came_from.len(),
            fuel <= came_from.len(),
            walk_back(came_from@, end, came_from@.len()) == match walk_back(
                came_from@,
                current,
                fuel as nat,
            ) {
                Some(rest) => Some(backwards@ + rest),
                None => None,
            },
        decreases fuel,
    {
        proof {
            let rest = walk_back(came_from@, came_from@[current as int], (fuel - 1) as nat);
            if rest.is_some() {
                assert(backwards@.push(current) + rest.unwrap() == backwards@ + (seq![current]
                    + rest.unwrap()));
            }
        }
        backwards.push(current);
        current = came_from[current];
        fuel -= 1;
    }
    if current != NO_NODE {
        return None;
    }
    assert(backwards@ + Seq::<usize>::empty() == backwards@);
    let mut path: Vec<usize> = Vec::new();
    let mut left: usize = backwards.len();
    while left > 0
        invariant
            left <= backwards.len(),
            path@.len() == backwards@.len() - left,
            forall|i: int| 0 <= i < path@.len() ==> path@[i] == backwards@[backwards@.len() - 1 - i],
        decreases left,
    {
        left -= 1;
        path.push(backwards[left]);
    }
    assert(path@ == backwards@.reverse());
    Some(path)
}

/// Whether the search has found a way to `x`: it is the start, or has a
/// predecessor.
pub open spec fn reached(came_from: Seq<usize>, start: nat, x: int) -> bool {
    x == start || came_from[x] != NO_NODE
}

/// Every recorded predecessor is a node that the search has found a way to,
/// is not the end, and has an edge to the node that records it.
pub open spec fn links_sound<Input: AStarInput + ?Sized>(
    input: &Input,
    came_from: Seq<usize>,
) -> bool {
    forall|x: int|
        0 <= x < came_from.len() && (#[trigger] came_from[x]) != NO_NODE ==> {
            &&& came_from[x] < came_from.len()
            &&& came_from[x] != input.spec_end()
            &&& input.spec_neighbors(came_from[x] as int).contains(x as usize)
            &&& reached(came_from, input.spec_start(), came_from[x] as int)
        }
}

/// A walk back from a node that has been reached begins at that node, ends at
/// the start, and follows an edge of the graph at each step.
pub proof fn lemma_walk_back_follows_edges<Input: AStarInput + ?Sized>(
    input: &Input,
    came_from: Seq<usize>,
    node: usize,
    fuel: nat,
)
    requires
        came_from.len() == input.spec_len(),
        input.spec_start() < input.spec_len(),
        links_sound(input, came_from),
        node < came_from.len(),
        reached(came_from, input.spec_start(), node as int),
        walk_back(came_from, node, fuel).is_some(),
        node != NO_NODE,
    ensures
        ({
            let w = walk_back(came_from, node, fuel).unwrap();
            &&& w.len() > 0
            &&& w[0] == node
            &&& w.last() == input.spec_start()
            &&& forall|i: int| 0 <= i < w.len() ==> (#[trigger] w[i]) < input.spec_len()
            &&& forall|i: int|
                0 <= i < w.len() - 1 ==> (#[trigger] w[i + 1]) != input.spec_end()
                    && input.spec_neighbors(w[i + 1] as int).contains(w[i])
        }),
    decreases fuel,
{
    let w = walk_back(came_from, node, fuel).unwrap();
    let before = came_from[node as int];
    assert(fuel > 0);
    if before == NO_NODE {
        assert(walk_back(came_from, before, (fuel - 1) as nat) == Some(Seq::<usize>::empty()));
        assert(w == seq![node]);
    } else {
        lemma_walk_back_follows_edges(input, came_from, before, (fuel - 1) as nat);
        let rest = walk_back(came_from, before, (fuel - 1) as nat).unwrap();
        assert(w == seq![node] + rest);
        assert forall|i: int| 0 <= i < w.len() - 1 implies (#[trigger] w[i + 1])
            != input.spec_end() && input.spec_neighbors(w[i + 1] as int).contains(w[i]) by {
            if i > 0 {
                assert(w[i] == rest[i - 1]);
                assert(w[i + 1] == rest[i - 1 + 1]);
            }
        }
    }
}

/// Where the predecessors are sound and the end has been reached, the path
/// that they record for the end leads from the start to the end along edges.
pub proof fn lemma_recorded_path_is_path<Input: AStarInput + ?Sized>(
    input: &Input,
    came_from: Seq<usize>,
    end: usize,
)
    requires
        came_from.len() == input.spec_len(),
        input.spec_len() <= usize::MAX,
        input.spec_start() < input.spec_len(),
        end == input.spec_end(),
        end < input.spec_len(),
        links_sound(input, came_from),
        reached(came_from, input.spec_start(), end as int),
        recorded_path(came_from, end).is_some(),
    ensures
        is_path(input, recorded_path(came_from, end).unwrap()),
{
    lemma_walk_back_follows_edges(input, came_from, end, came_from.len());
    let w = walk_back(came_from, end, came_from.len()).unwrap();
    let path = w.reverse();
    assert forall|i: int| 0 <= i < path.len() - 1 implies (#[trigger] path[i])
        != input.spec_end() && input.spec_neighbors(path[i] as int).contains(path[i + 1]) by {
        let k = w.len() - 2 - i;
        assert(path[i] == w[k + 1]);
        assert(path[i + 1] == w[k]);
    }
}

fn filled_nodes(n: usize) -> (r: Vec<usize>)
    ensures
        r@ == Seq::new(n as nat, |i: int| NO_NODE),
{
    let mut r: Vec<usize> = Vec::new();
    while r.len() < n
        invariant
            r@.len() <= n,
            forall|i: int| 0 <= i < r@.len() ==> r@[i] == NO_NODE,
        decreases n - r.len(),
    {
        r.push(NO_NODE);
    }
    assert(r@ == Seq::new(n as nat, |i: int| NO_NODE));
    r
}

fn filled_costs(n: usize) -> (r: Vec<Cost>)
    ensures
        r@.len() == n,
        forall|i: int| 0 <= i < n ==> (#[trigger] r@[i]).spec_bits() == INFINITY_BITS,
{
    let mut r: Vec<Cost> = Vec::new();
    while r.len() < n
        invariant
            r@.len() <= n,
            forall|i: int| 0 <= i < r@.len() ==> (#[trigger] r@[i]).spec_bits() == INFINITY_BITS,
        decreases n - r.len(),
    {
        r.push(Cost::infinity());
    }
    r
}

/// The state of a running search, as the model sees it.
pub open spec fn model_of(
    open_queue: Seq<NodeCost>,
    came_from: Seq<usize>,
    g_score: Seq<Cost>,
    closed_set: Seq<bool>,
) -> SearchState {
    SearchState {
        open_queue: open_queue.map_values(|waiting: NodeCost| waiting.entry()),
        came_from,
        g_score: g_score.map_values(|cost: Cost| cost.spec_bits()),
        closed_set,
    }
}

/// Searches for a cheapest path from the start to the end.
///
/// Nodes leave the frontier by ascending estimate `g + heuristic`, equal
/// estimates by ascending node id. A node counts as done only once one of its
/// neighbours has been improved through it; until then it is expanded again
/// each time it leaves the frontier.
///
/// Where the graph's lengths and estimates are fixed, the result is that of
/// `search`: the steps above, from the state in which only the start waits.
/// With estimates that guide the search, that is a cheapest path, and there is
/// one whenever a path is not infinitely long; with other estimates it need not
/// be, because a node that is done stays done when a cheaper way to it turns
/// up. Whatever the estimates, a path is returned exactly when one leads from
/// the start to the end, provided that no edge is so long that it makes a
/// finite cost infinite; see `reach`.
/// Whatever the graph answers, a returned path leads from the start to the end
/// along edges of the graph and visits no node twice; and where the start is
/// the end, the path of that one node is returned.
pub fn a_star<Input: AStarInput>(input: &Input) -> (r: Option<Vec<usize>>)
    requires
        well_formed(input),
    ensures
        r.is_some() ==> is_path(input, r.unwrap()@),
        r.is_some() ==> r.unwrap()@.no_duplicates() && r.unwrap()@.len() <= input.spec_len(),
        input.spec_start() == input.spec_end() ==> r.is_some() && r.unwrap()@
            == seq![input.spec_start() as usize],
        input.fixed() ==> match search(input) {
            Some(path) => r.is_some() && r.unwrap()@ == path,
            None => r.is_none(),
        },
        input.fixed() && sums_behave() && lengths_are_costs(input) && estimates_guide(input)
            ==> forall|other: Seq<usize>| #[trigger]
            is_path(input, other) ==> {
                &&& path_cost(input, other) < INFINITY_BITS ==> r.is_some()
                &&& r.is_some() ==> path_cost(input, r.unwrap()@) <= path_cost(input, other)
            },
        input.fixed() && sums_do_not_shrink() && lengths_are_costs(input) && lengths_keep_finite(
            input,
        ) ==> (r.is_some() <==> exists|other: Seq<usize>| #[trigger] is_path(input, other)),
{
    let r = run_search(input);
    proof {
        if r.is_some() {
            assert(is_path(input, r.unwrap()@));
        }
        if input.fixed() && sums_do_not_shrink() && lengths_are_costs(input)
            && lengths_keep_finite(input) {
            if exists|other: Seq<usize>| #[trigger] is_path(input, other) {
                let other = choose|other: Seq<usize>| #[trigger] is_path(input, other);
                search_finds_a_path(input, other);
            }
        }
        if input.fixed() && sums_behave() && lengths_are_costs(input) && estimates_guide(input) {
            assert forall|other: Seq<usize>| #[trigger] is_path(input, other) implies {
                &&& path_cost(input, other) < INFINITY_BITS ==> r.is_some()
                &&& r.is_some() ==> path_cost(input, r.unwrap()@) <= path_cost(input, other)
            } by {
                if path_cost(input, other) < INFINITY_BITS {
                    guided_search_finds_a_path(input, other);
                }
                if search(input).is_some() {
                    guided_search_is_cheapest(input, other);
                }
            }
        }
    }
    r
}

/// The search itself: see `a_star`.
fn run_search<Input: AStarInput>(input: &Input) -> (r: Option<Vec<usize>>)
    requires
        well_formed(input),
    ensures
        input.spec_len() <= usize::MAX,
        r.is_some() ==> is_path(input, r.unwrap()@),
        r.is_some() ==> r.unwrap()@.no_duplicates() && r.unwrap()@.len() <= input.spec_len(),
        input.spec_start() == input.spec_end() ==> r.is_some() && r.unwrap()@
            == seq![input.spec_start() as usize],
        input.fixed() ==> match search(input) {
            Some(path) => r.is_some() && r.unwrap()@ == path,
            None => r.is_none(),
        },
{
    let n = input.len();
    let start = input.start();
    let end = input.end();
    let mut open_queue = Frontier::new();
    let mut closed_set = Flags::new_fill(false, n);
    open_queue.push(NodeCost { node: start, f_score: input.heuristic(start) });
    let mut came_from = filled_nodes(n);
    let mut g_score = filled_costs(n);
    g_score[start] = Cost::zero();
    let ghost mut untouched = true;
    proof {
        if input.fixed() {
            let state = model_of(open_queue@, came_from@, g_score@, closed_set@);
            assert(state.open_queue == initial_state(input).open_queue);
            assert(state.g_score == initial_state(input).g_score);
            assert(state.closed_set == initial_state(input).closed_set);
        }
    }
    loop
        invariant
            well_formed(input),
            n == input.spec_len(),
            start == input.spec_start(),
            end == input.spec_end(),
            came_from@.len() == n,
            g_score@.len() == n,
            closed_set@.len() == n,
            predecessors_in_range(came_from@),
            links_sound(input, came_from@),
            forall|k: int|
                0 <= k < open_queue@.len() ==> (#[trigger] open_queue@[k]).node < n && reached(
                    came_from@,
                    start as nat,
                    open_queue@[k].node as int,
                ),
            untouched ==> open_queue@.len() == 1 && open_queue@[0].node == start && came_from@
                == Seq::new(n as nat, |i: int| NO_NODE),
            !untouched ==> start != end,
            input.fixed() ==> search(input) == search_from(
                input,
                model_of(open_queue@, came_from@, g_score@, closed_set@),
            ),
        decreases count_false(closed_set@), open_queue@.len(),
    {
        let ghost state = model_of(open_queue@, came_from@, g_score@, closed_set@);
        let ghost first = first_index(state.open_queue);
        assert(state_fits(input, state)) by {
            assert forall|k: int| 0 <= k < state.open_queue.len() implies (
            #[trigger] state.open_queue[k]).0 < input.spec_len() by {
                assert(state.open_queue[k] == open_queue@[k].entry());
            }
        }
        let popped = open_queue.pop();
        if popped.is_none() {
            return None;
        }
        let current = popped.unwrap().node;
        let ghost state_popped = model_of(open_queue@, came_from@, g_score@, closed_set@);
        proof {
            assert(state.open_queue[first] == popped.unwrap().entry());
            assert(state_popped.open_queue == state.open_queue.remove(first));
        }
        if current == end {
            proof {
                if recorded_path(came_from@, end).is_some() {
                    lemma_recorded_path_is_path(input, came_from@, end);
                }
                if untouched {
                    assert(walk_back(came_from@, NO_NODE, (n - 1) as nat) == Some(
                        Seq::<usize>::empty(),
                    ));
                    assert(walk_back(came_from@, end, n as nat) == Some(
                        seq![end] + Seq::<usize>::empty(),
                    ));
                    assert((seq![end] + Seq::<usize>::empty()).reverse() == seq![end]);
                }
            }
            return reconstruct_path(&came_from, end);
        }
        proof {
            untouched = false;
        }
        if closed_set.get(current) {
            continue;
        }
        let ghost closed_before = closed_set@;
        let ghost queue_popped = open_queue@;
        let around = input.neighbors(current);
        let mut i: usize = 0;
        while i < around.len()
            invariant
                well_formed(input),
                n == input.spec_len(),
                start == input.spec_start(),
                end == input.spec_end(),
                current < n,
                current != end,
                reached(came_from@, start as nat, current as int),
                around@ == input.spec_neighbors(current as int),
                i <= around@.len(),
                came_from@.len() == n,
                g_score@.len() == n,
                closed_set@.len() == n,
                predecessors_in_range(came_from@),
                links_sound(input, came_from@),
                forall|k: int|
                    0 <= k < open_queue@.len() ==> (#[trigger] open_queue@[k]).node < n && reached(
                        came_from@,
                        start as nat,
                        open_queue@[k].node as int,
                    ),
                !closed_before[current as int],
                closed_before.len() == n,
                closed_set@ == closed_before && open_queue@ == queue_popped || closed_set@
                    == closed_before.update(current as int, true),
                !untouched,
                input.fixed() ==> relax_from(input, state_popped, current, 0) == relax_from(
                    input,
                    model_of(open_queue@, came_from@, g_score@, closed_set@),
                    current,
                    i as int,
                ),
            decreases around.len() - i,
        {
            let ghost state_now = model_of(open_queue@, came_from@, g_score@, closed_set@);
            let neighbor = around[i];
            assert(neighbor == input.spec_neighbors(current as int)[i as int]);
            let tentative_g_score = g_score[current].plus(input.distance(current, neighbor));
            if tentative_g_score.less(g_score[neighbor]) {
                let ghost links_before = came_from@;
                came_from[neighbor] = current;
                g_score[neighbor] = tentative_g_score;
                open_queue.push(
                    NodeCost {
                        node: neighbor,
                        f_score: tentative_g_score.plus(input.heuristic(neighbor)),
                    },
                );
                closed_set.set(current, true);
                proof {
                    assert(closed_before.update(current as int, true).update(current as int, true)
                        == closed_before.update(current as int, true));
                    assert forall|x: int|
                        0 <= x < n && reached(links_before, start as nat, x) implies reached(
                        came_from@,
                        start as nat,
                        x,
                    ) by {}
                    assert(links_sound(input, came_from@)) by {
                        assert forall|x: int|
                            0 <= x < came_from@.len() && (#[trigger] came_from@[x])
                                != NO_NODE implies {
                            &&& came_from@[x] < came_from@.len()
                            &&& came_from@[x] != input.spec_end()
                            &&& input.spec_neighbors(came_from@[x] as int).contains(x as usize)
                            &&& reached(came_from@, input.spec_start(), came_from@[x] as int)
                        } by {
                            if x != neighbor {
                                assert(links_before[x] == came_from@[x]);
                            }
                        }
                    }
                }
            }
            proof {
                if input.fixed() {
                    let state_next = model_of(open_queue@, came_from@, g_score@, closed_set@);
                    let modelled = relax_one(input, state_now, current, neighbor);
                    assert(state_next.open_queue == modelled.open_queue);
                    assert(state_next.g_score == modelled.g_score);
                    assert(state_next.came_from == modelled.came_from);
                    assert(state_next.closed_set == modelled.closed_set);
                }
            }
            i += 1;
        }
        proof {
            if closed_set@ != closed_before {
                lemma_count_false_set(closed_before, current as int);
            }
        }
    }
}

} // verus!

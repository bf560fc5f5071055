//! The search frontier: nodes waiting to be expanded, cheapest first.
use crate::cost::Cost;
use vstd::prelude::*;

verus! {

/// A node together with the estimate of the cheapest path through it.
#[derive(Clone, Copy, Debug)]
pub struct NodeCost {
    pub node: usize,
    pub f_score: Cost,
}

/// An entry of the frontier as plain numbers: the node, and the bit pattern of
/// its estimate.
pub type Entry = (usize, u64);

/// Whether entry `a` leaves the frontier no later than entry `b`: its estimate
/// is lower, or equal with a node id that is not higher.
pub open spec fn entry_precedes(a: Entry, b: Entry) -> bool {
    a.1 < b.1 || (a.1 == b.1 && a.0 <= b.0)
}

/// Among the first `k` entries, the index of the one that precedes the others;
/// of several that precede all others, the first.
pub open spec fn first_upto(queue: Seq<Entry>, k: nat) -> int
    decreases k,
{
    if k <= 1 {
        0
    } else {
        let best = first_upto(queue, (k - 1) as nat);
        if entry_precedes(queue[best], queue[k - 1]) {
            best
        } else {
            k - 1
        }
    }
}

/// The index of the entry that leaves the frontier next.
pub open spec fn first_index(queue: Seq<Entry>) -> int {
    first_upto(queue, queue.len())
}

/// The entry at `first_upto` precedes each of the first `k` entries, and no
/// entry before it precedes it.
pub proof fn lemma_first_index_is_least(queue: Seq<Entry>, k: nat)
    requires
        1 <= k <= queue.len(),
    ensures
        0 <= first_upto(queue, k) < k,
        forall|j: int|
            0 <= j < k ==> entry_precedes(queue[first_upto(queue, k)], #[trigger] queue[j]),
        forall|j: int|
            0 <= j < first_upto(queue, k) ==> !entry_precedes(
                #[trigger] queue[j],
                queue[first_upto(queue, k)],
            ),
    decreases k,
{
    if k > 1 {
        lemma_first_index_is_least(queue, (k - 1) as nat);
    }
}

impl NodeCost {
    /// The entry as plain numbers.
    pub open spec fn entry(self) -> Entry {
        (self.node, self.f_score.spec_bits())
    }

    /// Whether `self` leaves the frontier no later than `other`.
    pub open spec fn precedes(self, other: NodeCost) -> bool {
        entry_precedes(self.entry(), other.entry())
    }

    /// Decides `precedes`.
    pub fn goes_before(self, other: NodeCost) -> (r: bool)
        ensures
            r == self.precedes(other),
    {
        self.f_score.less(other.f_score) || (!other.f_score.less(self.f_score) && self.node
            <= other.node)
    }
}

/// The entries waiting to be expanded, in the order in which they were added.
pub struct Frontier {
    entries: Vec<NodeCost>,
}

impl View for Frontier {
    type V = Seq<NodeCost>;

    closed spec fn view(&self) -> Seq<NodeCost> {
        self.entries@
    }
}

impl Frontier {
    /// The waiting entries as plain numbers.
    pub open spec fn entries(&self) -> Seq<Entry> {
        self@.map_values(|waiting: NodeCost| waiting.entry())
    }

    /// An empty frontier.
    pub fn new() -> (r: Frontier)
        ensures
            r@ == Seq::<NodeCost>::empty(),
    {
        Frontier { entries: Vec::new() }
    }

    /// The number of waiting entries.
    pub fn len(&self) -> (r: usize)
        ensures
            r == self@.len(),
    {
        self.entries.len()
    }

    /// Adds an entry behind the others.
    pub fn push(&mut self, entry: NodeCost)
        ensures
            final(self)@ == old(self)@.push(entry),
    {
        self.entries.push(entry);
    }

    /// Takes out the entry that precedes all others: the lowest estimate, and
    /// among equal estimates the lowest node id; of several equal entries the
    /// one added first. Returns nothing, and changes nothing, when the frontier
    /// is empty.
    pub fn pop(&mut self) -> (r: Option<NodeCost>)
        ensures
            old(self)@.len() == 0 ==> r.is_none() && final(self)@ == old(self)@,
            old(self)@.len() > 0 ==> {
                let i = first_index(old(self).entries());
                &&& 0 <= i < old(self)@.len()
                &&& r == Some(old(self)@[i])
                &&& final(self)@ == old(self)@.remove(i)
                &&& forall|j: int|
                    0 <= j < old(self)@.len() ==> r.unwrap().precedes(#[trigger] old(self)@[j])
                &&& forall|j: int| 0 <= j < i ==> !(#[trigger] old(self)@[j]).precedes(r.unwrap())
            },
    {
        if self.entries.len() == 0 {
            return None;
        }
        let mut best: usize = 0;
        let mut k: usize = 1;
        while k < self.entries.len()
            invariant
                1 <= k <= self.entries.len(),
                best < k,
                self.entries@ == old(self).entries@,
                best == first_upto(self.entries(), k as nat),
            decreases self.entries.len() - k,
        {
            if !self.entries[best].goes_before(self.entries[k]) {
                best = k;
            }
            k += 1;
        }
        proof {
            let waiting = self.entries();
            lemma_first_index_is_least(waiting, waiting.len());
            assert forall|j: int| 0 <= j < self@.len() implies self@[best as int].precedes(
                #[trigger] self@[j],
            ) by {
                assert(waiting[j] == self@[j].entry());
            }
            assert forall|j: int| 0 <= j < best implies !(#[trigger] self@[j]).precedes(
                self@[best as int],
            ) by {
                assert(waiting[j] == self@[j].entry());
            }
        }
        let entry = self.entries.remove(best);
        Some(entry)
    }
}

} // verus!

use vstd::prelude::*;
use vstd::seq_lib::{to_multiset_build, to_multiset_contains, to_multiset_len, to_multiset_remove};

verus! {

/// Largest value a counter can hold; counters saturate there.
pub const COUNTER_MAX: u64 = 0xffff_ffff_ffff_ffff;

/// Adds two counters, stopping at `COUNTER_MAX`.
pub open spec fn sat_add(a: nat, b: nat) -> nat {
    if a + b > COUNTER_MAX { COUNTER_MAX as nat } else { a + b }
}

/// Adds two counters, stopping at `u64::MAX`.
pub fn counter_add(a: u64, b: u64) -> (r: u64)
    ensures
        r == sat_add(a as nat, b as nat),
{
    if a > COUNTER_MAX - b { COUNTER_MAX } else { a + b }
}

} // verus!

verus! {

/// Counters one worker accumulates while it traverses.
#[derive(Clone, Copy, Debug, PartialEq, Eq, Structural)]
pub struct TraversalStatistics {
    /// Nodes handed to pre-order processing.
    pub nodes_traversed: u64,
    /// Elements among those nodes.
    pub elements_traversed: u64,
    /// Nodes handed to post-order processing.
    pub postorder_handled: u64,
    /// Children dispatched, summed over all post-order calls.
    pub children_dispatched: u64,
}

/// Field-wise saturating sum of two sets of counters.
pub open spec fn merged(a: TraversalStatistics, b: TraversalStatistics) -> TraversalStatistics {
    TraversalStatistics {
        nodes_traversed: sat_add(a.nodes_traversed as nat, b.nodes_traversed as nat) as u64,
        elements_traversed: sat_add(a.elements_traversed as nat, b.elements_traversed as nat) as u64,
        postorder_handled: sat_add(a.postorder_handled as nat, b.postorder_handled as nat) as u64,
        children_dispatched: sat_add(a.children_dispatched as nat, b.children_dispatched as nat) as u64,
    }
}

/// The all-zero counters.
pub open spec fn zero_statistics() -> TraversalStatistics {
    TraversalStatistics {
        nodes_traversed: 0,
        elements_traversed: 0,
        postorder_handled: 0,
        children_dispatched: 0,
    }
}

impl TraversalStatistics {
    /// Fresh counters, all zero.
    pub fn new() -> (r: TraversalStatistics)
        ensures
            r == zero_statistics(),
    {
        TraversalStatistics {
            nodes_traversed: 0,
            elements_traversed: 0,
            postorder_handled: 0,
            children_dispatched: 0,
        }
    }

    /// Adds another worker's counters into these.
    pub fn merge(&mut self, other: &TraversalStatistics)
        ensures
            *final(self) == merged(*old(self), *other),
    {
        self.nodes_traversed = counter_add(self.nodes_traversed, other.nodes_traversed);
        self.elements_traversed = counter_add(self.elements_traversed, other.elements_traversed);
        self.postorder_handled = counter_add(self.postorder_handled, other.postorder_handled);
        self.children_dispatched = counter_add(self.children_dispatched, other.children_dispatched);
    }
}

/// Merging two workers' counters does not depend on which comes first.
pub proof fn lemma_merge_commutative(a: TraversalStatistics, b: TraversalStatistics)
    ensures
        merged(a, b) == merged(b, a),
{
}

/// Merging three workers' counters does not depend on how the merges are grouped.
pub proof fn lemma_merge_associative(
    a: TraversalStatistics,
    b: TraversalStatistics,
    c: TraversalStatistics,
)
    ensures
        merged(merged(a, b), c) == merged(a, merged(b, c)),
{
}

/// Zero counters change nothing when merged in.
pub proof fn lemma_merge_zero(a: TraversalStatistics)
    ensures
        merged(a, zero_statistics()) == a,
{
}

/// The counters of several workers merged one after the other, from zero.
pub open spec fn merged_all(s: Seq<TraversalStatistics>) -> TraversalStatistics
    decreases s.len(),
{
    if s.len() == 0 {
        zero_statistics()
    } else {
        merged(merged_all(s.drop_last()), s.last())
    }
}

/// Merges the counters of all workers into one report.
pub fn merge_all(workers: &Vec<TraversalStatistics>) -> (r: TraversalStatistics)
    ensures
        r == merged_all(workers@),
{
    let mut r = TraversalStatistics::new();
    let mut i: usize = 0;
    while i < workers.len()
        invariant
            i <= workers@.len(),
            r == merged_all(workers@.take(i as int)),
        decreases workers@.len() - i,
    {
        assert(workers@.take(i + 1).drop_last() == workers@.take(i as int));
        r.merge(&workers[i]);
        i = i + 1;
    }
    assert(workers@.take(workers@.len() as int) == workers@);
    r
}

proof fn lemma_merged_all_remove(s: Seq<TraversalStatistics>, i: int)
    requires
        0 <= i < s.len(),
    ensures
        merged_all(s) == merged(merged_all(s.remove(i)), s[i]),
    decreases s.len(),
{
    if i < s.len() - 1 {
        let d = s.drop_last();
        lemma_merged_all_remove(d, i);
        assert(d.remove(i) == s.remove(i).drop_last());
        assert(s.remove(i).last() == s.last());
        lemma_merge_associative(merged_all(d.remove(i)), d[i], s.last());
        lemma_merge_commutative(d[i], s.last());
        lemma_merge_associative(merged_all(d.remove(i)), s.last(), d[i]);
    } else {
        assert(s.remove(i) == s.drop_last());
    }
}

/// Merging the workers' counters gives the same totals whatever order the
/// workers are taken in.
pub proof fn lemma_merge_all_any_order(s1: Seq<TraversalStatistics>, s2: Seq<TraversalStatistics>)
    requires
        s1.to_multiset() == s2.to_multiset(),
    ensures
        merged_all(s1) == merged_all(s2),
    decreases s1.len(),
{
    to_multiset_len(s1);
    to_multiset_len(s2);
    if s1.len() == 0 {
        assert(s2.len() == 0);
    } else {
        let x = s1.last();
        let d1 = s1.drop_last();
        assert(s1.contains(x)) by {
            assert(s1[s1.len() - 1] == x);
        }
        to_multiset_contains(s1, x);
        to_multiset_contains(s2, x);
        let i = choose|i: int| 0 <= i < s2.len() && s2[i] == x;
        assert(d1.push(x) == s1);
        to_multiset_build(d1, x);
        to_multiset_remove(s2, i);
        assert(d1.to_multiset() =~= s1.to_multiset().remove(x));
        lemma_merge_all_any_order(d1, s2.remove(i));
        lemma_merged_all_remove(s2, i);
    }
}

} // verus!

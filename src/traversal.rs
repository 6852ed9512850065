use vstd::prelude::*;
use crate::stats::{counter_add, sat_add, TraversalStatistics, zero_statistics};
use crate::tree::Tree;

verus! {

/// What part of the tree below a root a traversal must style.
#[derive(Clone, Copy, Debug, PartialEq, Eq, Structural)]
pub enum PreTraverseToken {
    /// The root and everything below it.
    FullSubtree,
    /// Only the root's element children that have no style yet, and below them.
    UnstyledChildrenOnly,
}

impl PreTraverseToken {
    /// Whether only the root's unstyled children seed the traversal.
    pub fn traverse_unstyled_children_only(&self) -> (r: bool)
        ensures
            r == (*self == PreTraverseToken::UnstyledChildrenOnly),
    {
        match self {
            PreTraverseToken::FullSubtree => false,
            PreTraverseToken::UnstyledChildrenOnly => true,
        }
    }
}

/// A node waiting in the work queue, with its depth.
#[derive(Clone, Copy, Debug, PartialEq, Eq, Structural)]
pub struct WorkItem {
    pub node: usize,
    pub depth: usize,
}

/// What pre-order processing learns about the level it works on.
#[derive(Clone, Copy, Debug, PartialEq, Eq, Structural)]
pub struct PerLevelTraversalData {
    pub current_dom_depth: usize,
}

/// One call made by a driver into the traversal, as recorded by it.
#[derive(Clone, Copy, Debug, PartialEq, Eq, Structural)]
pub enum TraversalEvent {
    /// Pre-order processing of `node` at `depth`.
    PreOrder { node: usize, depth: usize },
    /// Post-order processing of `node` after `children` were dispatched.
    PostOrder { node: usize, children: usize },
}

/// Configuration shared read-only by all workers.
#[derive(Clone, Copy, Debug, PartialEq, Eq, Structural)]
pub struct SharedStyleContext {
    /// Whether statistics are reported once the traversal is done.
    pub dump_style_statistics: bool,
}

/// Scratch state owned by exactly one worker.
#[derive(Clone, Debug)]
pub struct ThreadLocalStyleContext {
    /// Counters of this worker.
    pub statistics: TraversalStatistics,
    /// Every pre- and post-order call this worker made, in order.
    pub events: Vec<TraversalEvent>,
}

/// Counters after one more recorded call.
pub open spec fn counted(tree: &Tree, s: TraversalStatistics, e: TraversalEvent) -> TraversalStatistics {
    match e {
        TraversalEvent::PreOrder { node, depth } => TraversalStatistics {
            nodes_traversed: sat_add(s.nodes_traversed as nat, 1) as u64,
            elements_traversed: sat_add(
                s.elements_traversed as nat,
                if tree.element(node as int) { 1 } else { 0 },
            ) as u64,
            ..s
        },
        TraversalEvent::PostOrder { node, children } => TraversalStatistics {
            postorder_handled: sat_add(s.postorder_handled as nat, 1) as u64,
            children_dispatched: sat_add(s.children_dispatched as nat, children as nat) as u64,
            ..s
        },
    }
}

/// Counters after a whole log of calls, starting from zero.
pub open spec fn counted_all(tree: &Tree, events: Seq<TraversalEvent>) -> TraversalStatistics
    decreases events.len(),
{
    if events.len() == 0 {
        zero_statistics()
    } else {
        counted(tree, counted_all(tree, events.drop_last()), events.last())
    }
}

impl ThreadLocalStyleContext {
    /// The counters agree with the recorded calls.
    pub open spec fn consistent(&self, tree: &Tree) -> bool {
        self.statistics == counted_all(tree, self.events@)
    }
}

/// The style traversal: decides what happens at each node. Children that do
/// not generate a box are passed over when `skip_undisplayed` is set.
#[derive(Clone, Copy, Debug, PartialEq, Eq, Structural)]
pub struct StyleTraversal {
    pub shared: SharedStyleContext,
    pub skip_undisplayed: bool,
}

impl StyleTraversal {
    /// Whether child `c` is eligible for traversal.
    pub open spec fn accepts(&self, tree: &Tree, c: usize) -> bool {
        !self.skip_undisplayed || tree.shown(c as int)
    }

    /// The eligible members of `s`, in order.
    pub open spec fn accepted(&self, tree: &Tree, s: Seq<usize>) -> Seq<usize>
        decreases s.len(),
    {
        if s.len() == 0 {
            Seq::empty()
        } else if self.accepts(tree, s.last()) {
            self.accepted(tree, s.drop_last()).push(s.last())
        } else {
            self.accepted(tree, s.drop_last())
        }
    }

    /// The eligible children of element `el`, in document order.
    pub open spec fn eligible_children(&self, tree: &Tree, el: int) -> Seq<usize> {
        self.accepted(tree, tree.kids(el))
    }

    /// Configuration shared by all workers.
    pub fn shared_context(&self) -> (r: &SharedStyleContext)
        ensures
            *r == self.shared,
    {
        &self.shared
    }

    /// This traversal runs on a single worker.
    pub fn is_parallel(&self) -> (r: bool)
        ensures
            !r,
    {
        false
    }

    /// Fresh scratch state for one worker.
    pub fn create_thread_local_context(&self) -> (r: ThreadLocalStyleContext)
        ensures
            r.events@ == Seq::<TraversalEvent>::empty(),
            r.statistics == zero_statistics(),
    {
        ThreadLocalStyleContext { statistics: TraversalStatistics::new(), events: Vec::new() }
    }

    /// Styles `node`: records the call and counts it.
    pub fn process_preorder(
        &self,
        data: &PerLevelTraversalData,
        tlc: &mut ThreadLocalStyleContext,
        tree: &Tree,
        node: usize,
    )
        requires
            tree.valid(node as int),
        ensures
            final(tlc).events@ == old(tlc).events@.push(
                TraversalEvent::PreOrder { node, depth: data.current_dom_depth },
            ),
            final(tlc).statistics == counted(
                tree,
                old(tlc).statistics,
                TraversalEvent::PreOrder { node, depth: data.current_dom_depth },
            ),
    {
        let e = TraversalEvent::PreOrder { node, depth: data.current_dom_depth };
        tlc.events.push(e);
        tlc.statistics.nodes_traversed = counter_add(tlc.statistics.nodes_traversed, 1);
        if tree.is_element(node) {
            tlc.statistics.elements_traversed = counter_add(tlc.statistics.elements_traversed, 1);
        }
    }

    /// The children of element `el` that the traversal descends into, in
    /// document order.
    pub fn traverse_children(
        &self,
        tlc: &mut ThreadLocalStyleContext,
        tree: &Tree,
        el: usize,
    ) -> (r: Vec<usize>)
        requires
            tree.wf(),
            tree.valid(el as int),
        ensures
            r@ == self.eligible_children(tree, el as int),
            *final(tlc) == *old(tlc),
    {
        let kids = tree.children(el);
        let mut r: Vec<usize> = Vec::new();
        let mut i: usize = 0;
        while i < kids.len()
            invariant
                tree.wf(),
                tree.valid(el as int),
                kids@ == tree.kids(el as int),
                i <= kids@.len(),
                r@ == self.accepted(tree, kids@.take(i as int)),
            decreases kids@.len() - i,
        {
            let c = kids[i];
            assert(kids@.take(i + 1).drop_last() == kids@.take(i as int));
            assert(tree.valid(c as int));
            let take = !self.skip_undisplayed || tree.is_displayed(c);
            if take {
                r.push(c);
            }
            i = i + 1;
        }
        assert(kids@.take(kids@.len() as int) == kids@);
        r
    }

    /// Finishes `node` once `children_to_process` children were dispatched:
    /// records the call and counts it.
    pub fn handle_postorder_traversal(
        &self,
        tlc: &mut ThreadLocalStyleContext,
        tree: &Tree,
        root: usize,
        node: usize,
        children_to_process: usize,
    )
        ensures
            final(tlc).events@ == old(tlc).events@.push(
                TraversalEvent::PostOrder { node, children: children_to_process },
            ),
            final(tlc).statistics == counted(
                tree,
                old(tlc).statistics,
                TraversalEvent::PostOrder { node, children: children_to_process },
            ),
    {
        tlc.events.push(TraversalEvent::PostOrder { node, children: children_to_process });
        tlc.statistics.postorder_handled = counter_add(tlc.statistics.postorder_handled, 1);
        tlc.statistics.children_dispatched = counter_add(
            tlc.statistics.children_dispatched,
            children_to_process as u64,
        );
    }
}

} // verus!

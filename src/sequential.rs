//! The sequential driver: one worker walks the tree breadth-first.
use vstd::prelude::*;
use vstd::set_lib::{lemma_int_range, lemma_len_subset, set_int_range};
use std::collections::VecDeque;
use crate::traversal::{
    counted, counted_all, PerLevelTraversalData, PreTraverseToken, StyleTraversal,
    ThreadLocalStyleContext, TraversalEvent, WorkItem,
};
use crate::tree::Tree;

verus! {

/// The work items that processing `item` puts at the back of the queue: the
/// eligible children of an element, one level deeper; nothing for another node.
pub open spec fn dispatched(trav: &StyleTraversal, tree: &Tree, item: WorkItem) -> Seq<WorkItem> {
    if tree.element(item.node as int) {
        trav.eligible_children(tree, item.node as int).map_values(
            |c: usize| WorkItem { node: c, depth: (item.depth + 1) as usize },
        )
    } else {
        Seq::empty()
    }
}

/// Everything dispatched while processing the items of `s`, in order.
pub open spec fn dispatched_all(trav: &StyleTraversal, tree: &Tree, s: Seq<WorkItem>) -> Seq<
    WorkItem,
>
    decreases s.len(),
{
    if s.len() == 0 {
        Seq::empty()
    } else {
        dispatched_all(trav, tree, s.drop_last()) + dispatched(trav, tree, s.last())
    }
}

/// Work items at `depth` for the members of `s` that are elements without style.
pub open spec fn unstyled_elements(tree: &Tree, s: Seq<usize>, depth: usize) -> Seq<WorkItem>
    decreases s.len(),
{
    if s.len() == 0 {
        Seq::empty()
    } else {
        let rest = unstyled_elements(tree, s.drop_last(), depth);
        let c = s.last();
        if tree.element(c as int) && !tree.styled(c as int) {
            rest.push(WorkItem { node: c, depth })
        } else {
            rest
        }
    }
}

/// The queue a traversal starts from.
pub open spec fn seeds(tree: &Tree, root: usize, token: PreTraverseToken) -> Seq<WorkItem> {
    match token {
        PreTraverseToken::FullSubtree => seq![WorkItem { node: root, depth: tree.depth_of(root as int) }],
        PreTraverseToken::UnstyledChildrenOnly => unstyled_elements(
            tree,
            tree.kids(root as int),
            (tree.depth_of(root as int) + 1) as usize,
        ),
    }
}

/// The nodes of a sequence of work items.
pub open spec fn nodes_of(s: Seq<WorkItem>) -> Seq<usize> {
    s.map_values(|w: WorkItem| w.node)
}

/// The two calls made for one work item: pre-order, then post-order with the
/// number of children dispatched in between.
pub open spec fn visit_events(trav: &StyleTraversal, tree: &Tree, item: WorkItem) -> Seq<
    TraversalEvent,
> {
    seq![
        TraversalEvent::PreOrder { node: item.node, depth: item.depth },
        TraversalEvent::PostOrder {
            node: item.node,
            children: dispatched(trav, tree, item).len() as usize,
        },
    ]
}

/// The calls made for the items of `order`, in order.
pub open spec fn events_of(trav: &StyleTraversal, tree: &Tree, order: Seq<WorkItem>) -> Seq<
    TraversalEvent,
>
    decreases order.len(),
{
    if order.len() == 0 {
        Seq::empty()
    } else {
        events_of(trav, tree, order.drop_last()) + visit_events(trav, tree, order.last())
    }
}

/// The work items of the pre-order calls in a log.
pub open spec fn preorder_items(events: Seq<TraversalEvent>) -> Seq<WorkItem>
    decreases events.len(),
{
    if events.len() == 0 {
        Seq::empty()
    } else {
        let rest = preorder_items(events.drop_last());
        match events.last() {
            TraversalEvent::PreOrder { node, depth } => rest.push(WorkItem { node, depth }),
            TraversalEvent::PostOrder { .. } => rest,
        }
    }
}

/// Midway through a traversal: `done` has been processed and `all` is `done`
/// followed by the queue. The queue is the seeds followed by what processing
/// `done` dispatched; no node is queued twice; every item carries its node's
/// depth; every item past the seeds was dispatched by a processed node that
/// comes before it; nothing above the root is reached, and the root itself only
/// as the single seed of a full traversal.
pub open spec fn frontier_ok(
    trav: &StyleTraversal,
    tree: &Tree,
    root: usize,
    token: PreTraverseToken,
    done: Seq<WorkItem>,
    all: Seq<WorkItem>,
) -> bool {
    &&& done.len() <= all.len()
    &&& all.take(done.len() as int) == done
    &&& all == seeds(tree, root, token) + dispatched_all(trav, tree, done)
    &&& queue_facts(tree, root, token, done.len(), all)
}

/// The facts of `frontier_ok` that speak of single items: `all` holds
/// distinct nodes of the tree at their own depth, each past the seeds linked to
/// a parent among the first `n_done`, none above the root.
#[verifier::opaque]
pub open spec fn queue_facts(tree: &Tree, root: usize, token: PreTraverseToken, n_done: nat, all: Seq<
    WorkItem,
>) -> bool {
    let seed = seeds(tree, root, token);
    &&& forall|k: int|
        #![trigger all[k]]
        0 <= k < all.len() ==> tree.valid(all[k].node as int) && all[k].depth == tree.depth_of(
            all[k].node as int,
        )
    &&& nodes_of(all).no_duplicates()
    &&& forall|k: int|
        #![trigger parent_queued_before(tree, all, n_done, k)]
        seed.len() <= k < all.len() ==> parent_queued_before(tree, all, n_done, k)
    &&& forall|k: int|
        #![trigger all[k]]
        0 <= k < all.len() ==> root < all[k].node || (k == 0 && token
            == PreTraverseToken::FullSubtree && all[k].node == root)
}

/// The parent of `all[k]` is the node of one of the first `n_done` items, and
/// that item comes before `all[k]`.
pub open spec fn parent_queued_before(tree: &Tree, all: Seq<WorkItem>, n_done: nat, k: int) -> bool {
    exists|j: int|
        #![trigger all[j]]
        0 <= j < k && j < n_done && tree.parent_of(all[k].node as int) == Some(all[j].node)
}

/// The first items of `all` are the seeds.
pub open spec fn begins_with_seeds(tree: &Tree, root: usize, token: PreTraverseToken, all: Seq<
    WorkItem,
>) -> bool {
    forall|m: int|
        #![trigger all[m]]
        0 <= m < seeds(tree, root, token).len() && m < all.len() ==> all[m] == seeds(
            tree,
            root,
            token,
        )[m]
}

/// `order` is the sequence of work items a traversal from `root` under `token`
/// processes: the seeds followed by everything the items of `order` dispatch,
/// each node at most once and at its own depth, each non-seed after the node
/// that dispatched it, and never a node outside the root's subtree.
pub open spec fn is_traversal_order(
    trav: &StyleTraversal,
    tree: &Tree,
    root: usize,
    token: PreTraverseToken,
    order: Seq<WorkItem>,
) -> bool {
    frontier_ok(trav, tree, root, token, order, order)
}

/// Depths never decrease along `order`: every node of a level comes before
/// any node of a deeper level.
pub open spec fn in_level_order(order: Seq<WorkItem>) -> bool {
    forall|a: int, b: int| 0 <= a < b < order.len() ==> order[a].depth <= order[b].depth
}

/// `all` is in level order, and the items from position `h` on are at most
/// one level deeper than the item at `h`.
pub open spec fn levels_ok(all: Seq<WorkItem>, h: int) -> bool {
    &&& in_level_order(all)
    &&& forall|b: int| h <= b < all.len() ==> all[b].depth <= all[h].depth + 1
}

proof fn lemma_accepted(trav: &StyleTraversal, tree: &Tree, s: Seq<usize>)
    ensures
        forall|x: usize| trav.accepted(tree, s).contains(x) ==> s.contains(x),
        s.no_duplicates() ==> trav.accepted(tree, s).no_duplicates(),
    decreases s.len(),
{
    if s.len() > 0 {
        let d = s.drop_last();
        lemma_accepted(trav, tree, d);
        assert forall|x: usize| d.contains(x) implies s.contains(x) by {
            let i = choose|i: int| 0 <= i < d.len() && d[i] == x;
            assert(s[i] == x);
        }
        if s.no_duplicates() {
            assert(d.no_duplicates());
            assert(!d.contains(s.last()));
        }
        assert(s.contains(s.last()));
    }
}

proof fn lemma_unstyled_elements(tree: &Tree, s: Seq<usize>, depth: usize)
    ensures
        forall|k: int|
            #![trigger unstyled_elements(tree, s, depth)[k]]
            0 <= k < unstyled_elements(tree, s, depth).len() ==> s.contains(
                unstyled_elements(tree, s, depth)[k].node,
            ) && unstyled_elements(tree, s, depth)[k].depth == depth,
        s.no_duplicates() ==> nodes_of(unstyled_elements(tree, s, depth)).no_duplicates(),
        forall|k: int|
            #![trigger unstyled_elements(tree, s, depth)[k]]
            0 <= k < unstyled_elements(tree, s, depth).len() ==> tree.element(
                unstyled_elements(tree, s, depth)[k].node as int,
            ) && !tree.styled(unstyled_elements(tree, s, depth)[k].node as int),
        forall|c: usize|
            s.contains(c) && tree.element(c as int) && !tree.styled(c as int) ==> nodes_of(
                unstyled_elements(tree, s, depth),
            ).contains(c),
    decreases s.len(),
{
    if s.len() > 0 {
        let d = s.drop_last();
        lemma_unstyled_elements(tree, d, depth);
        let rest = unstyled_elements(tree, d, depth);
        let r = unstyled_elements(tree, s, depth);
        assert forall|x: usize| d.contains(x) implies s.contains(x) by {
            let i = choose|i: int| 0 <= i < d.len() && d[i] == x;
            assert(s[i] == x);
        }
        assert forall|c: usize|
            s.contains(c) && tree.element(c as int) && !tree.styled(c as int) implies nodes_of(
            r).contains(c) by {
            let i = choose|i: int| 0 <= i < s.len() && s[i] == c;
            if i < d.len() {
                assert(d[i] == c);
                let m = choose|m: int| 0 <= m < nodes_of(rest).len() && nodes_of(rest)[m] == c;
                assert(nodes_of(r)[m] == c);
            } else {
                assert(nodes_of(r)[r.len() - 1] == c);
            }
        }
        assert(s.contains(s.last()));
        if s.no_duplicates() {
            assert(d.no_duplicates());
            assert(!d.contains(s.last()));
            assert forall|i: int, j: int|
                0 <= i < j < nodes_of(r).len() implies nodes_of(r)[i] != nodes_of(r)[j] by {
                assert(r[i] == rest[i]);
                if j < rest.len() {
                    assert(nodes_of(rest)[i] == nodes_of(r)[i]);
                    assert(nodes_of(rest)[j] == nodes_of(r)[j]);
                } else {
                    assert(d.contains(rest[i].node));
                }
            }
        }
    }
}

proof fn lemma_distinct_bounded(s: Seq<usize>, n: nat)
    requires
        s.no_duplicates(),
        forall|i: int| 0 <= i < s.len() ==> s[i] < n,
    ensures
        s.len() <= n,
{
    let t = s.map_values(|x: usize| x as int);
    assert(t.no_duplicates()) by {
        assert forall|i: int, j: int| 0 <= i < j < t.len() implies t[i] != t[j] by {
            assert(s[i] != s[j]);
        }
    }
    t.unique_seq_to_set();
    assert forall|x: int| t.to_set().contains(x) implies set_int_range(0, n as int).contains(x) by {
        let i = choose|i: int| 0 <= i < t.len() && t[i] == x;
    }
    lemma_int_range(0, n as int);
    lemma_len_subset(t.to_set(), set_int_range(0, n as int));
}

proof fn lemma_dispatched(trav: &StyleTraversal, tree: &Tree, item: WorkItem)
    requires
        tree.wf(),
        tree.valid(item.node as int),
        item.depth == tree.depth_of(item.node as int),
    ensures
        ({
            let dd = dispatched(trav, tree, item);
            &&& forall|k: int|
                #![trigger dd[k]]
                0 <= k < dd.len() ==> tree.valid(dd[k].node as int) && dd[k].depth
                    == tree.depth_of(dd[k].node as int) && item.node < dd[k].node
                    && tree.parent_of(dd[k].node as int) == Some(item.node)
            &&& nodes_of(dd).no_duplicates()
        }),
{
    let dd = dispatched(trav, tree, item);
    let kids = tree.kids(item.node as int);
    let el = trav.eligible_children(tree, item.node as int);
    lemma_accepted(trav, tree, kids);
    if tree.element(item.node as int) {
        assert forall|k: int|
            #![trigger dd[k]]
            0 <= k < dd.len() implies tree.valid(dd[k].node as int) && dd[k].depth
            == tree.depth_of(dd[k].node as int) && item.node < dd[k].node && tree.parent_of(
            dd[k].node as int) == Some(item.node) by {
            assert(dd.len() == el.len());
            assert(dd[k].node == el[k]);
            assert(el.contains(el[k]));
            assert(kids.contains(el[k]));
            let m = choose|m: int| 0 <= m < kids.len() && kids[m] == el[k];
            assert(tree.kids(item.node as int)[m] == el[k]);
        }
        assert forall|i: int, j: int|
            0 <= i < j < nodes_of(dd).len() implies nodes_of(dd)[i] != nodes_of(dd)[j] by {
            assert(el[i] != el[j]);
        }
    }
}

proof fn lemma_fresh(
    trav: &StyleTraversal,
    tree: &Tree,
    root: usize,
    token: PreTraverseToken,
    done: Seq<WorkItem>,
    all: Seq<WorkItem>,
    c: usize,
)
    requires
        tree.wf(),
        tree.valid(root as int),
        queue_facts(tree, root, token, done.len(), all),
        begins_with_seeds(tree, root, token, all),
        done.len() < all.len(),
        all[done.len() as int].node < c,
        tree.parent_of(c as int) == Some(all[done.len() as int].node),
    ensures
        !nodes_of(all).contains(c),
{
    reveal(queue_facts);
    let seed = seeds(tree, root, token);
    let h = done.len() as int;
    let item = all[h];
    if nodes_of(all).contains(c) {
        let m = choose|m: int| 0 <= m < nodes_of(all).len() && nodes_of(all)[m] == c;
        assert(all[m].node == c);
        assert(root < item.node || item.node == root);
        if m < seed.len() {
            assert(all[m] == seed[m]);
            if token == PreTraverseToken::UnstyledChildrenOnly {
                let kids = tree.kids(root as int);
                lemma_unstyled_elements(tree, kids, (tree.depth_of(root as int) + 1) as usize);
                assert(kids.contains(seed[m].node));
                let q = choose|q: int| 0 <= q < kids.len() && kids[q] == seed[m].node;
                assert(tree.kids(root as int)[q] == c);
            }
        } else {
            assert(tree.parent_of(all[m].node as int) == tree.parent_of(c as int));
            assert(parent_queued_before(tree, all, done.len(), m));
            let j = choose|j: int|
                #![trigger all[j]]
                0 <= j < m && j < done.len() && tree.parent_of(all[m].node as int) == Some(
                    all[j].node,
                );
            assert(nodes_of(all)[j] == nodes_of(all)[h]);
        }
    }
}

proof fn lemma_seeds_start(trav: &StyleTraversal, tree: &Tree, root: usize, token: PreTraverseToken)
    requires
        tree.wf(),
        tree.valid(root as int),
    ensures
        frontier_ok(trav, tree, root, token, Seq::empty(), seeds(tree, root, token)),
{
    reveal(queue_facts);
    let seed = seeds(tree, root, token);
    assert(dispatched_all(trav, tree, Seq::<WorkItem>::empty()) == Seq::<WorkItem>::empty());
    assert(seed + Seq::<WorkItem>::empty() == seed);
    assert(seed.take(0) == Seq::<WorkItem>::empty());
    if token == PreTraverseToken::UnstyledChildrenOnly {
        let kids = tree.kids(root as int);
        lemma_unstyled_elements(tree, kids, (tree.depth_of(root as int) + 1) as usize);
        assert forall|k: int| 0 <= k < seed.len() implies tree.valid(seed[k].node as int)
            && seed[k].depth == tree.depth_of(seed[k].node as int) && root < seed[k].node by {
            assert(kids.contains(seed[k].node));
            let m = choose|m: int| 0 <= m < kids.len() && kids[m] == seed[k].node;
            assert(tree.kids(root as int)[m] == seed[k].node);
        }
    } else {
        assert(nodes_of(seed).len() == 1);
    }
}

proof fn lemma_step_distinct(
    trav: &StyleTraversal,
    tree: &Tree,
    root: usize,
    token: PreTraverseToken,
    done: Seq<WorkItem>,
    all: Seq<WorkItem>,
)
    requires
        tree.wf(),
        tree.valid(root as int),
        queue_facts(tree, root, token, done.len(), all),
        begins_with_seeds(tree, root, token, all),
        done.len() < all.len(),
    ensures
        nodes_of(all + dispatched(trav, tree, all[done.len() as int])).no_duplicates(),
{
    reveal(queue_facts);
    let item = all[done.len() as int];
    let dd = dispatched(trav, tree, item);
    let all2 = all + dd;
    lemma_dispatched(trav, tree, item);
    // The dispatched children are new: each has `item` as parent, and no
    // earlier item can.
    assert forall|k: int, m: int|
        0 <= k < dd.len() && 0 <= m < all.len() implies all[m].node != dd[k].node by {
        lemma_fresh(trav, tree, root, token, done, all, dd[k].node);
        assert(nodes_of(all)[m] == all[m].node);
    }
    assert(nodes_of(all2).no_duplicates()) by {
        assert forall|i: int, j: int|
            0 <= i < j < nodes_of(all2).len() implies nodes_of(all2)[i] != nodes_of(all2)[j] by {
            if j < all.len() {
                assert(nodes_of(all)[i] != nodes_of(all)[j]);
            } else if i < all.len() {
                assert(all2[j] == dd[j - all.len()]);
            } else {
                assert(all2[j] == dd[j - all.len()]);
                assert(all2[i] == dd[i - all.len()]);
                assert(nodes_of(dd)[i - all.len()] != nodes_of(dd)[j - all.len()]);
            }
        }
    }
}

proof fn lemma_step(
    trav: &StyleTraversal,
    tree: &Tree,
    root: usize,
    token: PreTraverseToken,
    done: Seq<WorkItem>,
    all: Seq<WorkItem>,
)
    requires
        tree.wf(),
        tree.valid(root as int),
        frontier_ok(trav, tree, root, token, done, all),
        done.len() < all.len(),
    ensures
        frontier_ok(
            trav,
            tree,
            root,
            token,
            done.push(all[done.len() as int]),
            all + dispatched(trav, tree, all[done.len() as int]),
        ),
{
    let seed = seeds(tree, root, token);
    let h = done.len() as int;
    let item = all[h];
    let d2 = done.push(item);
    let dd = dispatched(trav, tree, item);
    let all2 = all + dd;
    assert(d2.drop_last() == done);
    assert(dispatched_all(trav, tree, d2) == dispatched_all(trav, tree, done) + dd);
    assert(all2 == seed + dispatched_all(trav, tree, d2));
    assert(all2.take(d2.len() as int) == d2) by {
        assert forall|i: int| 0 <= i < d2.len() implies all2[i] == d2[i] by {
            if i < h {
                assert(all.take(h)[i] == done[i]);
            }
        }
    }
    assert(begins_with_seeds(tree, root, token, all)) by {
        assert forall|m: int|
            #![trigger all[m]]
            0 <= m < seed.len() && m < all.len() implies all[m] == seed[m] by {
            assert((seed + dispatched_all(trav, tree, done))[m] == seed[m]);
        }
    }
    lemma_step_links(trav, tree, root, token, done, all);
}

proof fn lemma_step_items(
    trav: &StyleTraversal,
    tree: &Tree,
    root: usize,
    token: PreTraverseToken,
    done: Seq<WorkItem>,
    all: Seq<WorkItem>,
)
    requires
        tree.wf(),
        tree.valid(root as int),
        queue_facts(tree, root, token, done.len(), all),
        begins_with_seeds(tree, root, token, all),
        done.len() < all.len(),
    ensures
        ({
            let all2 = all + dispatched(trav, tree, all[done.len() as int]);
            &&& forall|k: int|
                #![trigger all2[k]]
                0 <= k < all2.len() ==> tree.valid(all2[k].node as int) && all2[k].depth
                    == tree.depth_of(all2[k].node as int)
            &&& nodes_of(all2).no_duplicates()
        }),
{
    let item = all[done.len() as int];
    let dd = dispatched(trav, tree, item);
    let all2 = all + dd;
    assert(tree.valid(item.node as int) && item.depth == tree.depth_of(item.node as int)) by {
        reveal(queue_facts);
    }
    lemma_dispatched(trav, tree, item);
    assert forall|k: int|
        #![trigger all2[k]]
        0 <= k < all2.len() implies tree.valid(all2[k].node as int) && all2[k].depth
        == tree.depth_of(all2[k].node as int) by {
        reveal(queue_facts);
        if k >= all.len() {
            assert(all2[k] == dd[k - all.len()]);
        }
    }
    lemma_step_distinct(trav, tree, root, token, done, all);
}

proof fn lemma_step_parents(
    trav: &StyleTraversal,
    tree: &Tree,
    root: usize,
    token: PreTraverseToken,
    done: Seq<WorkItem>,
    all: Seq<WorkItem>,
)
    requires
        tree.wf(),
        tree.valid(root as int),
        queue_facts(tree, root, token, done.len(), all),
        begins_with_seeds(tree, root, token, all),
        done.len() < all.len(),
    ensures
        ({
            let all2 = all + dispatched(trav, tree, all[done.len() as int]);
            let seed = seeds(tree, root, token);
            &&& forall|k: int|
                #![trigger parent_queued_before(tree, all2, done.len() + 1, k)]
                seed.len() <= k < all2.len() ==> parent_queued_before(tree, all2, done.len() + 1, k)
            &&& forall|k: int|
                #![trigger all2[k]]
                0 <= k < all2.len() ==> root < all2[k].node || (k == 0 && token
                    == PreTraverseToken::FullSubtree && all2[k].node == root)
        }),
{
    let seed = seeds(tree, root, token);
    let h = done.len() as int;
    let item = all[h];
    let dd = dispatched(trav, tree, item);
    let all2 = all + dd;
    assert(tree.valid(item.node as int) && item.depth == tree.depth_of(item.node as int)) by {
        reveal(queue_facts);
    }
    lemma_dispatched(trav, tree, item);
    assert forall|k: int|
        #![trigger parent_queued_before(tree, all2, done.len() + 1, k)]
        seed.len() <= k < all2.len() implies parent_queued_before(tree, all2, done.len() + 1, k) by {
        reveal(queue_facts);
        if k < all.len() {
            assert(all2[k] == all[k]);
            assert(parent_queued_before(tree, all, done.len(), k));
            let j = choose|j: int|
                #![trigger all[j]]
                0 <= j < k && j < done.len() && tree.parent_of(all[k].node as int) == Some(
                    all[j].node,
                );
            assert(all2[j] == all[j]);
        } else {
            assert(all2[k] == dd[k - all.len()]);
            assert(all2[h] == item);
        }
    }
    assert forall|k: int|
        #![trigger all2[k]]
        0 <= k < all2.len() implies root < all2[k].node || (k == 0 && token
        == PreTraverseToken::FullSubtree && all2[k].node == root) by {
        reveal(queue_facts);
        if k >= all.len() {
            assert(all2[k] == dd[k - all.len()]);
            assert(all[h] == item);
        }
    }
}

proof fn lemma_step_links(
    trav: &StyleTraversal,
    tree: &Tree,
    root: usize,
    token: PreTraverseToken,
    done: Seq<WorkItem>,
    all: Seq<WorkItem>,
)
    requires
        tree.wf(),
        tree.valid(root as int),
        queue_facts(tree, root, token, done.len(), all),
        begins_with_seeds(tree, root, token, all),
        done.len() < all.len(),
    ensures
        queue_facts(
            tree,
            root,
            token,
            done.len() + 1,
            all + dispatched(trav, tree, all[done.len() as int]),
        ),
{
    lemma_step_items(trav, tree, root, token, done, all);
    lemma_step_parents(trav, tree, root, token, done, all);
    reveal(queue_facts);
}

proof fn lemma_seeds_levels(tree: &Tree, root: usize, token: PreTraverseToken)
    ensures
        levels_ok(seeds(tree, root, token), 0),
{
    if token == PreTraverseToken::UnstyledChildrenOnly {
        lemma_unstyled_elements(tree, tree.kids(root as int), (tree.depth_of(root as int) + 1) as usize);
    }
}

proof fn lemma_step_levels(
    trav: &StyleTraversal,
    tree: &Tree,
    root: usize,
    token: PreTraverseToken,
    done: Seq<WorkItem>,
    all: Seq<WorkItem>,
)
    requires
        tree.wf(),
        tree.valid(root as int),
        frontier_ok(trav, tree, root, token, done, all),
        levels_ok(all, done.len() as int),
        done.len() < all.len(),
    ensures
        levels_ok(all + dispatched(trav, tree, all[done.len() as int]), done.len() + 1int),
{
    let h = done.len() as int;
    let item = all[h];
    let dd = dispatched(trav, tree, item);
    let all2 = all + dd;
    assert(tree.valid(item.node as int) && item.depth == tree.depth_of(item.node as int)) by {
        reveal(queue_facts);
    }
    lemma_dispatched(trav, tree, item);
    assert forall|k: int| 0 <= k < dd.len() implies #[trigger] dd[k].depth == item.depth + 1 by {
        assert(tree.parent_of(dd[k].node as int) == Some(item.node));
        assert(tree.kids(item.node as int).contains(dd[k].node));
        let m = choose|m: int|
            0 <= m < tree.kids(item.node as int).len() && tree.kids(item.node as int)[m]
                == dd[k].node;
        assert(tree.kids(item.node as int)[m] == dd[k].node);
    }
    assert forall|a: int, b: int| 0 <= a < b < all2.len() implies all2[a].depth <= all2[b].depth by {
        if b >= all.len() {
            assert(all2[b] == dd[b - all.len()]);
            if a >= all.len() {
                assert(all2[a] == dd[a - all.len()]);
            } else if a < h {
                assert(all[a].depth <= all[h].depth);
            }
        }
    }
    assert forall|b: int| h + 1 <= b < all2.len() implies #[trigger] all2[b].depth <= all2[h + 1].depth + 1 by {
        if h + 1 < all.len() {
            assert(all[h].depth <= all[h + 1].depth);
            if b >= all.len() {
                assert(all2[b] == dd[b - all.len()]);
            }
        } else {
            assert(all2[h + 1] == dd[0]);
            assert(all2[b] == dd[b - all.len()]);
        }
    }
}

proof fn lemma_preorder_items(trav: &StyleTraversal, tree: &Tree, order: Seq<WorkItem>)
    ensures
        preorder_items(events_of(trav, tree, order)) == order,
    decreases order.len(),
{
    if order.len() > 0 {
        let d = order.drop_last();
        lemma_preorder_items(trav, tree, d);
        let e = events_of(trav, tree, d);
        let v = visit_events(trav, tree, order.last());
        let e2 = e + v;
        assert(e2.drop_last() == e.push(v[0]));
        assert(e.push(v[0]).drop_last() == e);
        assert(e2.last() == v[1]);
        assert(e.push(v[0]).last() == v[0]);
        assert(preorder_items(e2) == preorder_items(e.push(v[0])));
        assert(preorder_items(e.push(v[0])) == preorder_items(e).push(order.last()));
        assert(d.push(order.last()) == order);
    }
}

/// Walks the tree below `root` breadth-first on one worker, as `token` asks,
/// and hands back that worker's scratch state. Each queued node is processed
/// in pre-order, its eligible children are put at the back of the queue one
/// level deeper, and then it is processed in post-order with the number of
/// children dispatched. The recorded pre-order items form the traversal
/// order, the log holds exactly the calls made for them, and the counters
/// agree with the log.
pub fn traverse_dom(
    traversal: &StyleTraversal,
    tree: &Tree,
    root: usize,
    token: PreTraverseToken,
) -> (r: ThreadLocalStyleContext)
    requires
        tree.wf(),
        tree.valid(root as int),
    ensures
        is_traversal_order(traversal, tree, root, token, preorder_items(r.events@)),
        in_level_order(preorder_items(r.events@)),
        r.events@ == events_of(traversal, tree, preorder_items(r.events@)),
        r.consistent(tree),
{
    let mut discovered: VecDeque<WorkItem> = VecDeque::new();
    let mut tlc = traversal.create_thread_local_context();
    let root_depth = tree.depth(root);
    let ghost seed = seeds(tree, root, token);

    if token.traverse_unstyled_children_only() {
        let kids = tree.children(root);
        let mut i: usize = 0;
        while i < kids.len()
            invariant
                tree.wf(),
                tree.valid(root as int),
                kids@ == tree.kids(root as int),
                root_depth == tree.depth_of(root as int),
                i <= kids@.len(),
                discovered@ == unstyled_elements(tree, kids@.take(i as int), (root_depth + 1) as usize),
            decreases kids@.len() - i,
        {
            let kid = kids[i];
            assert(kids@.take(i + 1).drop_last() == kids@.take(i as int));
            assert(tree.kids(root as int)[i as int] == kid);
            if tree.is_element(kid) && !tree.has_computed_style(kid) {
                discovered.push_back(WorkItem { node: kid, depth: root_depth + 1 });
            }
            i = i + 1;
        }
        assert(kids@.take(kids@.len() as int) == kids@);
    } else {
        discovered.push_back(WorkItem { node: root, depth: root_depth });
    }
    proof {
        lemma_seeds_start(traversal, tree, root, token);
        lemma_seeds_levels(tree, root, token);
        assert(Seq::<WorkItem>::empty() + discovered@ == discovered@);
    }

    // Breadth-first, as the parallel traversal does, so that siblings are
    // styled close together in time for the style sharing cache.
    let ghost mut done: Seq<WorkItem> = Seq::empty();
    while discovered.len() > 0
        invariant
            tree.wf(),
            tree.valid(root as int),
            frontier_ok(traversal, tree, root, token, done, done + discovered@),
            levels_ok(done + discovered@, done.len() as int),
            tlc.events@ == events_of(traversal, tree, done),
            tlc.consistent(tree),
        decreases 2 * tree.len() - done.len() - (done + discovered@).len(),
    {
        let ghost all = done + discovered@;
        proof {
            reveal(queue_facts);
            lemma_distinct_bounded(nodes_of(all), tree.len());
            assert(all[done.len() as int] == discovered@[0]);
        }
        let item = discovered.pop_front().unwrap();
        let node = item.node;
        let depth = item.depth;
        proof {
            reveal(queue_facts);
            assert(all[done.len() as int] == item);
        }
        let ghost rest = discovered@;
        let mut children_to_process: usize = 0;
        let traversal_data = PerLevelTraversalData { current_dom_depth: depth };
        traversal.process_preorder(&traversal_data, &mut tlc, tree, node);

        if tree.is_element(node) {
            let kids = traversal.traverse_children(&mut tlc, tree, node);
            proof {
                lemma_dispatched(traversal, tree, item);
            }
            let mut i: usize = 0;
            while i < kids.len()
                invariant
                    tree.wf(),
                    tree.valid(node as int),
                    tree.element(node as int),
                    depth == tree.depth_of(node as int),
                    item == (WorkItem { node, depth }),
                    kids@ == traversal.eligible_children(tree, node as int),
                    dispatched(traversal, tree, item).len() == kids@.len(),
                    forall|k: int|
                        #![trigger dispatched(traversal, tree, item)[k]]
                        0 <= k < dispatched(traversal, tree, item).len() ==> tree.depth_of(
                            dispatched(traversal, tree, item)[k].node as int,
                        ) == dispatched(traversal, tree, item)[k].depth,
                    i <= kids@.len(),
                    children_to_process == i,
                    discovered@ == rest + dispatched(traversal, tree, item).take(i as int),
                decreases kids@.len() - i,
            {
                let kid = kids[i];
                let ghost dd = dispatched(traversal, tree, item);
                assert(dd[i as int] == WorkItem { node: kid, depth: (depth + 1) as usize });
                assert(dd.take(i + 1) == dd.take(i as int).push(dd[i as int]));
                discovered.push_back(WorkItem { node: kid, depth: depth + 1 });
                children_to_process = children_to_process + 1;
                i = i + 1;
            }
            proof {
                let dd = dispatched(traversal, tree, item);
                assert(dd.take(dd.len() as int) == dd);
            }
        }
        proof {
            if !tree.element(node as int) {
                assert(rest + dispatched(traversal, tree, item) == rest);
            }
        }
        traversal.handle_postorder_traversal(&mut tlc, tree, root, node, children_to_process);
        proof {
            lemma_step(traversal, tree, root, token, done, all);
            lemma_step_levels(traversal, tree, root, token, done, all);
            let d2 = done.push(item);
            assert(d2.drop_last() == done);
            assert(all + dispatched(traversal, tree, item) == d2 + discovered@);
            let ev = events_of(traversal, tree, done);
            let e1 = ev.push(TraversalEvent::PreOrder { node, depth });
            let e2 = e1.push(TraversalEvent::PostOrder { node, children: children_to_process });
            assert(e2 == ev + visit_events(traversal, tree, item));
            assert(e2.drop_last() == e1);
            assert(e1.drop_last() == ev);
            assert(counted_all(tree, e1) == counted(tree, counted_all(tree, ev), e1.last()));
            assert(counted_all(tree, e2) == counted(tree, counted_all(tree, e1), e2.last()));
            done = d2;
            reveal(queue_facts);
            lemma_distinct_bounded(nodes_of(done + discovered@), tree.len());
        }
    }
    proof {
        assert(done + discovered@ == done);
        lemma_preorder_items(traversal, tree, done);
    }
    tlc
}

proof fn lemma_accept_all(trav: &StyleTraversal, tree: &Tree, s: Seq<usize>)
    requires
        !trav.skip_undisplayed,
    ensures
        trav.accepted(tree, s) == s,
    decreases s.len(),
{
    if s.len() > 0 {
        lemma_accept_all(trav, tree, s.drop_last());
        assert(s.drop_last().push(s.last()) == s);
    }
}

proof fn lemma_dispatched_all_contains(
    trav: &StyleTraversal,
    tree: &Tree,
    s: Seq<WorkItem>,
    j: int,
    x: WorkItem,
)
    requires
        0 <= j < s.len(),
        dispatched(trav, tree, s[j]).contains(x),
    ensures
        dispatched_all(trav, tree, s).contains(x),
    decreases s.len(),
{
    let d = s.drop_last();
    let a = dispatched_all(trav, tree, d);
    let b = dispatched(trav, tree, s.last());
    if j < d.len() {
        assert(d[j] == s[j]);
        lemma_dispatched_all_contains(trav, tree, d, j, x);
        let m = choose|m: int| 0 <= m < a.len() && a[m] == x;
        assert((a + b)[m] == x);
    } else {
        let m = choose|m: int| 0 <= m < b.len() && b[m] == x;
        assert((a + b)[a.len() + m] == x);
    }
}

proof fn lemma_order_descends(
    trav: &StyleTraversal,
    tree: &Tree,
    root: usize,
    token: PreTraverseToken,
    order: Seq<WorkItem>,
    k: int,
)
    requires
        tree.wf(),
        tree.valid(root as int),
        token == PreTraverseToken::FullSubtree,
        is_traversal_order(trav, tree, root, token, order),
        0 <= k < order.len(),
    ensures
        tree.is_inclusive_descendant(root as nat, order[k].node as nat),
    decreases k,
{
    reveal(queue_facts);
    let v = order[k].node;
    if k > 0 {
        assert(parent_queued_before(tree, order, order.len(), k));
        let j = choose|j: int|
            #![trigger order[j]]
            0 <= j < k && j < order.len() && tree.parent_of(v as int) == Some(order[j].node);
        lemma_order_descends(trav, tree, root, token, order, j);
        assert(tree.valid(v as int));
        assert(order[k] == order[k]);
    } else {
        assert(order[0] == seeds(tree, root, token)[0]);
    }
}

proof fn lemma_descendant_in_order(
    trav: &StyleTraversal,
    tree: &Tree,
    root: usize,
    order: Seq<WorkItem>,
    v: usize,
)
    requires
        tree.wf(),
        tree.valid(root as int),
        !trav.skip_undisplayed,
        is_traversal_order(trav, tree, root, PreTraverseToken::FullSubtree, order),
        v < tree.len(),
        tree.is_inclusive_descendant(root as nat, v as nat),
    ensures
        nodes_of(order).contains(v),
    decreases v,
{
    let seed = seeds(tree, root, PreTraverseToken::FullSubtree);
    if v == root {
        assert(order[0] == (seed + dispatched_all(trav, tree, order))[0]);
        assert(nodes_of(order)[0] == v);
    } else {
        let p = tree.parent_of(v as int).unwrap();
        assert(tree.valid(v as int));
        lemma_descendant_in_order(trav, tree, root, order, p);
        let j = choose|j: int| 0 <= j < nodes_of(order).len() && nodes_of(order)[j] == p;
        let item = order[j];
        assert(tree.kids(p as int).contains(v));
        let m = choose|m: int| 0 <= m < tree.kids(p as int).len() && tree.kids(p as int)[m] == v;
        assert(tree.valid(p as int));
        assert(tree.element(p as int));
        lemma_accept_all(trav, tree, tree.kids(p as int));
        let dd = dispatched(trav, tree, item);
        assert(dd[m] == WorkItem { node: v, depth: (item.depth + 1) as usize });
        assert(dd.contains(dd[m]));
        lemma_dispatched_all_contains(trav, tree, order, j, dd[m]);
        let da = dispatched_all(trav, tree, order);
        let q = choose|q: int| 0 <= q < da.len() && da[q] == dd[m];
        assert(order[seed.len() + q] == dd[m]);
        assert(nodes_of(order)[seed.len() + q] == v);
    }
}

/// A full traversal that passes over no child processes every node at or
/// below the root, each exactly once, and no other node.
pub proof fn lemma_full_traversal_is_exhaustive(
    trav: &StyleTraversal,
    tree: &Tree,
    root: usize,
    order: Seq<WorkItem>,
)
    requires
        tree.wf(),
        tree.valid(root as int),
        !trav.skip_undisplayed,
        is_traversal_order(trav, tree, root, PreTraverseToken::FullSubtree, order),
    ensures
        nodes_of(order).no_duplicates(),
        forall|v: usize|
            nodes_of(order).contains(v) <==> v < tree.len() && tree.is_inclusive_descendant(
                root as nat,
                v as nat,
            ),
{
    reveal(queue_facts);
    assert forall|v: usize|
        nodes_of(order).contains(v) <==> v < tree.len() && tree.is_inclusive_descendant(
            root as nat,
            v as nat,
        ) by {
        if nodes_of(order).contains(v) {
            let k = choose|k: int| 0 <= k < nodes_of(order).len() && nodes_of(order)[k] == v;
            lemma_order_descends(trav, tree, root, PreTraverseToken::FullSubtree, order, k);
            assert(tree.valid(order[k].node as int));
        }
        if v < tree.len() && tree.is_inclusive_descendant(root as nat, v as nat) {
            lemma_descendant_in_order(trav, tree, root, order, v);
        }
    }
}

/// When only the root's unstyled children are asked for, the root is never
/// processed, an element child without style is, a child with style is not,
/// and when no child is an element without style nothing is processed.
pub proof fn lemma_unstyled_children_only_seeding(
    trav: &StyleTraversal,
    tree: &Tree,
    root: usize,
    order: Seq<WorkItem>,
)
    requires
        tree.wf(),
        tree.valid(root as int),
        is_traversal_order(trav, tree, root, PreTraverseToken::UnstyledChildrenOnly, order),
    ensures
        !nodes_of(order).contains(root),
        forall|c: usize|
            tree.kids(root as int).contains(c) && tree.element(c as int) && !tree.styled(c as int)
                ==> nodes_of(order).contains(c),
        forall|c: usize|
            tree.kids(root as int).contains(c) && tree.styled(c as int) ==> !nodes_of(
                order,
            ).contains(c),
        forall|k: int|
            0 <= k < order.len() && tree.kids(root as int).contains(order[k].node) ==> order[k].depth
                == tree.depth_of(root as int) + 1,
        (forall|c: usize|
            tree.kids(root as int).contains(c) ==> !tree.element(c as int) || tree.styled(
                c as int,
            )) ==> order.len() == 0,
{
    reveal(queue_facts);
    let token = PreTraverseToken::UnstyledChildrenOnly;
    let seed = seeds(tree, root, token);
    let kids = tree.kids(root as int);
    let d = (tree.depth_of(root as int) + 1) as usize;
    lemma_unstyled_elements(tree, kids, d);
    assert(order == seed + dispatched_all(trav, tree, order));
    if nodes_of(order).contains(root) {
        let k = choose|k: int| 0 <= k < nodes_of(order).len() && nodes_of(order)[k] == root;
        assert(order[k].node == root);
    }
    assert forall|c: usize|
        kids.contains(c) && tree.element(c as int) && !tree.styled(c as int) implies nodes_of(
        order).contains(c) by {
        let m = choose|m: int| 0 <= m < nodes_of(seed).len() && nodes_of(seed)[m] == c;
        assert(order[m] == seed[m]);
        assert(nodes_of(order)[m] == c);
    }
    assert forall|c: usize| kids.contains(c) && tree.styled(c as int) implies !nodes_of(
        order).contains(c) by {
        if nodes_of(order).contains(c) {
            let k = choose|k: int| 0 <= k < nodes_of(order).len() && nodes_of(order)[k] == c;
            assert(order[k].node == c);
            if k < seed.len() {
                assert(order[k] == seed[k]);
            } else {
                assert(parent_queued_before(tree, order, order.len(), k));
                let j = choose|j: int|
                    #![trigger order[j]]
                    0 <= j < k && j < order.len() && tree.parent_of(c as int) == Some(order[j].node);
                let q = choose|q: int| 0 <= q < kids.len() && kids[q] == c;
                assert(tree.kids(root as int)[q] == c);
                assert(order[j].node == root);
            }
        }
    }
    assert forall|k: int|
        0 <= k < order.len() && kids.contains(order[k].node) implies order[k].depth
        == tree.depth_of(root as int) + 1 by {
        let q = choose|q: int| 0 <= q < kids.len() && kids[q] == order[k].node;
        assert(tree.kids(root as int)[q] == order[k].node);
    }
    if forall|c: usize| kids.contains(c) ==> !tree.element(c as int) || tree.styled(c as int) {
        if seed.len() > 0 {
            assert(kids.contains(seed[0].node));
        }
        if order.len() > 0 {
            assert(parent_queued_before(tree, order, order.len(), 0));
        }
    }
}

/// For every processed node, the log holds its pre-order call followed
/// directly by its post-order call, and the count that the post-order call
/// receives is the number of work items its processing dispatched: those
/// items, and no others, are what `dispatched_all` puts in the queue for it.
pub proof fn lemma_postorder_count_is_dispatch_count(
    trav: &StyleTraversal,
    tree: &Tree,
    order: Seq<WorkItem>,
    k: int,
)
    requires
        0 <= k < order.len(),
    ensures
        events_of(trav, tree, order).len() == 2 * order.len(),
        events_of(trav, tree, order)[2 * k] == (TraversalEvent::PreOrder {
            node: order[k].node,
            depth: order[k].depth,
        }),
        events_of(trav, tree, order)[2 * k + 1] == (TraversalEvent::PostOrder {
            node: order[k].node,
            children: dispatched(trav, tree, order[k]).len() as usize,
        }),
    decreases order.len(),
{
    let d = order.drop_last();
    let e = events_of(trav, tree, d);
    let v = visit_events(trav, tree, order.last());
    if k < d.len() {
        lemma_postorder_count_is_dispatch_count(trav, tree, d, k);
        assert(d[k] == order[k]);
        assert((e + v)[2 * k] == e[2 * k]);
        assert((e + v)[2 * k + 1] == e[2 * k + 1]);
    } else {
        if d.len() > 0 {
            lemma_postorder_count_is_dispatch_count(trav, tree, d, 0);
        } else {
            assert(e.len() == 0);
        }
        assert((e + v)[2 * k] == v[0]);
        assert((e + v)[2 * k + 1] == v[1]);
    }
}

} // verus!

use style_traversal::sequential::traverse_dom;
use style_traversal::stats::TraversalStatistics;
use style_traversal::traversal::{
    PreTraverseToken, SharedStyleContext, StyleTraversal, TraversalEvent,
};
use style_traversal::tree::Tree;

fn traversal(skip_undisplayed: bool) -> StyleTraversal {
    StyleTraversal {
        shared: SharedStyleContext { dump_style_statistics: false },
        skip_undisplayed,
    }
}

fn element(tree: &mut Tree, parent: usize) -> usize {
    tree.append_child(parent, true, false, true).unwrap()
}

fn preorder(events: &[TraversalEvent]) -> Vec<(usize, usize)> {
    events
        .iter()
        .filter_map(|e| match e {
            TraversalEvent::PreOrder { node, depth } => Some((*node, *depth)),
            TraversalEvent::PostOrder { .. } => None,
        })
        .collect()
}

/// root with children a, b, c, each with two children.
fn three_by_two() -> (Tree, Vec<usize>) {
    let mut t = Tree::with_root(true, false, true);
    let a = element(&mut t, 0);
    let b = element(&mut t, 0);
    let c = element(&mut t, 0);
    let a1 = element(&mut t, a);
    let a2 = element(&mut t, a);
    let b1 = element(&mut t, b);
    let b2 = element(&mut t, b);
    let c1 = element(&mut t, c);
    let c2 = element(&mut t, c);
    (t, vec![0, a, b, c, a1, a2, b1, b2, c1, c2])
}

#[test]
fn breadth_first_order_by_level() {
    let (t, expected) = three_by_two();
    let tlc = traverse_dom(&traversal(false), &t, 0, PreTraverseToken::FullSubtree);
    let order = preorder(&tlc.events);
    let nodes: Vec<usize> = order.iter().map(|p| p.0).collect();
    assert_eq!(nodes, expected);
    let depths: Vec<usize> = order.iter().map(|p| p.1).collect();
    assert_eq!(depths, vec![0, 1, 1, 1, 2, 2, 2, 2, 2, 2]);
}

#[test]
fn full_traversal_visits_each_node_once() {
    let mut t = Tree::with_root(true, false, true);
    let a = element(&mut t, 0);
    let b = element(&mut t, a);
    let _c = element(&mut t, b);
    let _text = t.append_child(a, false, false, true).unwrap();
    let _d = element(&mut t, 0);
    let tlc = traverse_dom(&traversal(false), &t, 0, PreTraverseToken::FullSubtree);
    let mut nodes: Vec<usize> = preorder(&tlc.events).iter().map(|p| p.0).collect();
    assert_eq!(nodes.len(), t.size());
    nodes.sort();
    assert_eq!(nodes, (0..t.size()).collect::<Vec<usize>>());
}

#[test]
fn traversal_of_a_subtree_stays_below_it() {
    let mut t = Tree::with_root(true, false, true);
    let a = element(&mut t, 0);
    let b = element(&mut t, 0);
    let a1 = element(&mut t, a);
    let _b1 = element(&mut t, b);
    let tlc = traverse_dom(&traversal(false), &t, a, PreTraverseToken::FullSubtree);
    assert_eq!(preorder(&tlc.events), vec![(a, 1), (a1, 2)]);
}

#[test]
fn unstyled_children_only_seeds_unstyled_children() {
    let mut t = Tree::with_root(true, true, true);
    let a = t.append_child(0, true, true, true).unwrap();
    let b = t.append_child(0, true, false, true).unwrap();
    let _a1 = element(&mut t, a);
    let tlc = traverse_dom(&traversal(false), &t, 0, PreTraverseToken::UnstyledChildrenOnly);
    assert_eq!(preorder(&tlc.events), vec![(b, 1)]);
}

#[test]
fn unstyled_children_only_with_all_children_styled_does_nothing() {
    let mut t = Tree::with_root(true, true, true);
    t.append_child(0, true, true, true).unwrap();
    t.append_child(0, true, true, true).unwrap();
    let tlc = traverse_dom(&traversal(false), &t, 0, PreTraverseToken::UnstyledChildrenOnly);
    assert!(tlc.events.is_empty());
    assert_eq!(tlc.statistics, TraversalStatistics::new());
}

#[test]
fn unstyled_children_only_skips_text_children() {
    let mut t = Tree::with_root(true, true, true);
    t.append_child(0, false, false, true).unwrap();
    let b = element(&mut t, 0);
    let tlc = traverse_dom(&traversal(false), &t, 0, PreTraverseToken::UnstyledChildrenOnly);
    assert_eq!(preorder(&tlc.events), vec![(b, 1)]);
}

#[test]
fn postorder_count_is_dispatched_children_only() {
    let mut t = Tree::with_root(true, false, true);
    let a = element(&mut t, 0);
    let hidden = t.append_child(0, true, false, false).unwrap();
    let c = element(&mut t, 0);
    let tlc = traverse_dom(&traversal(true), &t, 0, PreTraverseToken::FullSubtree);
    assert_eq!(
        tlc.events,
        vec![
            TraversalEvent::PreOrder { node: 0, depth: 0 },
            TraversalEvent::PostOrder { node: 0, children: 2 },
            TraversalEvent::PreOrder { node: a, depth: 1 },
            TraversalEvent::PostOrder { node: a, children: 0 },
            TraversalEvent::PreOrder { node: c, depth: 1 },
            TraversalEvent::PostOrder { node: c, children: 0 },
        ]
    );
    let all = traverse_dom(&traversal(false), &t, 0, PreTraverseToken::FullSubtree);
    assert_eq!(all.events[1], TraversalEvent::PostOrder { node: 0, children: 3 });
    assert!(all.events.contains(&TraversalEvent::PreOrder { node: hidden, depth: 1 }));
}

#[test]
fn text_nodes_dispatch_no_children() {
    let mut t = Tree::with_root(true, false, true);
    let text = t.append_child(0, false, false, true).unwrap();
    let tlc = traverse_dom(&traversal(false), &t, 0, PreTraverseToken::FullSubtree);
    assert_eq!(tlc.events[3], TraversalEvent::PostOrder { node: text, children: 0 });
}

#[test]
fn statistics_count_the_calls() {
    let mut t = Tree::with_root(true, false, true);
    let a = element(&mut t, 0);
    t.append_child(a, false, false, true).unwrap();
    element(&mut t, a);
    let tlc = traverse_dom(&traversal(false), &t, 0, PreTraverseToken::FullSubtree);
    assert_eq!(
        tlc.statistics,
        TraversalStatistics {
            nodes_traversed: 4,
            elements_traversed: 3,
            postorder_handled: 4,
            children_dispatched: 3,
        }
    );
}

#[test]
fn single_node_tree() {
    let t = Tree::with_root(true, false, true);
    let tlc = traverse_dom(&traversal(false), &t, 0, PreTraverseToken::FullSubtree);
    assert_eq!(
        tlc.events,
        vec![
            TraversalEvent::PreOrder { node: 0, depth: 0 },
            TraversalEvent::PostOrder { node: 0, children: 0 },
        ]
    );
}

#[test]
fn append_child_rejects_bad_parents() {
    let mut t = Tree::with_root(true, false, true);
    let text = t.append_child(0, false, false, true).unwrap();
    assert_eq!(t.append_child(text, true, false, true), None);
    assert_eq!(t.append_child(7, true, false, true), None);
    assert_eq!(t.size(), 2);
    assert_eq!(t.children(0), &vec![text]);
    assert_eq!(t.depth(text), 1);
}

#[test]
fn contract_queries() {
    let s = traversal(true);
    assert!(!s.is_parallel());
    assert!(!s.shared_context().dump_style_statistics);
    assert!(PreTraverseToken::UnstyledChildrenOnly.traverse_unstyled_children_only());
    assert!(!PreTraverseToken::FullSubtree.traverse_unstyled_children_only());
}

#[test]
fn well_formedness_check() {
    let (t, _) = three_by_two();
    assert!(t.is_well_formed());
    let mut bad = Tree::with_root(true, false, true);
    let a = element(&mut bad, 0);
    bad.nodes[a].children.push(0);
    assert!(!bad.is_well_formed());
    let mut twice = Tree::with_root(true, false, true);
    let b = element(&mut twice, 0);
    twice.nodes[0].children.push(b);
    assert!(!twice.is_well_formed());
    let mut deep = Tree::with_root(true, false, true);
    let c = element(&mut deep, 0);
    deep.nodes[c].depth = 5;
    assert!(!deep.is_well_formed());
}

use style_traversal::stats::{counter_add, merge_all, TraversalStatistics};

fn stats(a: u64, b: u64, c: u64, d: u64) -> TraversalStatistics {
    TraversalStatistics {
        nodes_traversed: a,
        elements_traversed: b,
        postorder_handled: c,
        children_dispatched: d,
    }
}

fn merged(a: TraversalStatistics, b: TraversalStatistics) -> TraversalStatistics {
    let mut r = a;
    r.merge(&b);
    r
}

#[test]
fn merge_adds_field_by_field() {
    assert_eq!(merged(stats(1, 2, 3, 4), stats(10, 20, 30, 40)), stats(11, 22, 33, 44));
}

#[test]
fn merge_order_does_not_matter() {
    let workers = [
        stats(5, 3, 5, 4),
        stats(0, 0, 0, 0),
        stats(17, 9, 17, 16),
        stats(u64::MAX - 3, 1, 2, 3),
    ];
    let expected = workers.iter().fold(TraversalStatistics::new(), |acc, w| merged(acc, *w));
    let perms: [[usize; 4]; 6] = [
        [3, 2, 1, 0],
        [1, 3, 0, 2],
        [2, 0, 3, 1],
        [0, 2, 1, 3],
        [3, 0, 2, 1],
        [1, 0, 3, 2],
    ];
    for p in perms.iter() {
        let got = p.iter().fold(TraversalStatistics::new(), |acc, &i| merged(acc, workers[i]));
        assert_eq!(got, expected);
    }
    let a = merged(merged(workers[0], workers[2]), workers[3]);
    let b = merged(workers[0], merged(workers[2], workers[3]));
    assert_eq!(a, b);
}

#[test]
fn counters_saturate() {
    assert_eq!(counter_add(u64::MAX - 1, 5), u64::MAX);
    assert_eq!(counter_add(2, 3), 5);
    assert_eq!(merged(stats(u64::MAX, 0, 0, 0), stats(1, 0, 0, 0)).nodes_traversed, u64::MAX);
}

#[test]
fn merge_all_workers() {
    let workers = vec![stats(1, 1, 1, 0), stats(2, 0, 2, 1), stats(3, 3, 3, 3)];
    assert_eq!(merge_all(&workers), stats(6, 4, 6, 4));
    let reversed: Vec<TraversalStatistics> = workers.iter().rev().cloned().collect();
    assert_eq!(merge_all(&reversed), merge_all(&workers));
    assert_eq!(merge_all(&vec![]), TraversalStatistics::new());
}

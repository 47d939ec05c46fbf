use coro_engine::disjoint_set::DisjointSet;

#[test]
fn test1() {
    let mut disjoint_set = DisjointSet::default();

    let a1 = disjoint_set.insert_set();
    let b2 = disjoint_set.insert_set();
    let c3 = disjoint_set.insert_set();

    disjoint_set.merge(a1, b2);

    assert_eq!(disjoint_set.find(a1), disjoint_set.find(b2));
    assert_ne!(disjoint_set.find(a1), disjoint_set.find(c3));
    assert_ne!(disjoint_set.find(b2), disjoint_set.find(c3));
}

#[test]
fn merging_chains_joins_everything() {
    let mut s = DisjointSet::new();
    let nodes: Vec<usize> = (0..8).map(|_| s.insert_set()).collect();
    for w in nodes.windows(2) {
        s.merge(w[0], w[1]);
    }
    let root = s.find(nodes[0]);
    for n in &nodes {
        assert_eq!(s.find(*n), root);
    }
}

#[test]
fn merge_is_idempotent_and_keeps_other_sets_apart() {
    let mut s = DisjointSet::new();
    let a = s.insert_set();
    let b = s.insert_set();
    let c = s.insert_set();
    s.merge(a, b);
    s.merge(a, b);
    s.merge(b, a);
    assert_eq!(s.find(a), s.find(b));
    assert_ne!(s.find(c), s.find(a));
}

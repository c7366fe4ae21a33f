use percolation::union_find::QuickFind;

#[test]
fn union_find_basics() {
    let mut qf = QuickFind::new(5);
    qf.union(1, 4);
    qf.union(0, 1);
    qf.union(4, 3);
    assert!(qf.connected(1, 4));
    assert_eq!(qf.connected(2, 3), false);
    qf.union(2, 0);
    assert!(qf.connected(2, 3));
}

#[test]
fn union_connects_and_persists() {
    let mut qf = QuickFind::new(6);
    qf.union(0, 1);
    assert!(qf.connected(0, 1));
    qf.union(2, 3);
    qf.union(4, 5);
    assert!(qf.connected(0, 1));
    assert!(qf.connected(2, 3));
    qf.union(3, 4);
    assert!(qf.connected(2, 5));
    assert!(qf.connected(0, 1));
    assert_eq!(qf.connected(0, 2), false);
}

#[test]
fn connectivity_is_an_equivalence() {
    let mut qf = QuickFind::new(4);
    assert!(qf.connected(2, 2));
    qf.union(0, 1);
    assert!(qf.connected(0, 1));
    assert!(qf.connected(1, 0));
    qf.union(1, 2);
    assert!(qf.connected(0, 2));
    assert!(qf.connected(2, 0));
    assert_eq!(qf.connected(0, 3), false);
}

#[test]
fn component_sizes_count_members() {
    let mut qf = QuickFind::new(5);
    assert_eq!(qf.component_size(0), 1);
    qf.union(1, 4);
    assert_eq!(qf.component_size(1), 2);
    assert_eq!(qf.component_size(4), 2);
    qf.union(0, 1);
    assert_eq!(qf.component_size(4), 3);
    assert_eq!(qf.component_size(2), 1);
    qf.union(1, 4);
    assert_eq!(qf.component_size(0), 3);
}

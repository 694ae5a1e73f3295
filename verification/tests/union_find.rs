use color_reducer::union_find::UnionFind;

#[test]
fn new_sets_are_singletons() {
    let mut uf = UnionFind::new(5);
    assert_eq!(uf.len(), 5);
    for e in 0..5 {
        assert_eq!(uf.find(e), e);
    }
}

#[test]
fn union_names_the_set_by_its_smallest_member() {
    let mut uf = UnionFind::new(6);
    uf.union(4, 2);
    assert_eq!(uf.find(4), 2);
    assert_eq!(uf.find(2), 2);
    uf.union(5, 4);
    assert_eq!(uf.find(5), 2);
    uf.union(1, 5);
    assert_eq!(uf.find(5), 1);
    assert_eq!(uf.find(4), 1);
    assert_eq!(uf.find(2), 1);
    assert_eq!(uf.find(0), 0);
    assert_eq!(uf.find(3), 3);
}

#[test]
fn union_of_one_set_changes_nothing() {
    let mut uf = UnionFind::new(4);
    uf.union(0, 3);
    uf.union(3, 0);
    uf.union(3, 3);
    assert_eq!(uf.find(3), 0);
    assert_eq!(uf.find(1), 1);
    assert_eq!(uf.find(2), 2);
    assert_eq!(uf.len(), 4);
}

#[test]
fn find_on_a_long_chain_does_not_recurse() {
    let n = 200_000;
    let mut uf = UnionFind::new(n);
    for e in (1..n).rev() {
        uf.union(e, e - 1);
    }
    assert_eq!(uf.find(n - 1), 0);
    assert_eq!(uf.find(n / 2), 0);
}

#[test]
fn empty_union_find_has_no_elements() {
    let uf = UnionFind::new(0);
    assert_eq!(uf.len(), 0);
}

use index_structures::union_find::UnionFindData;

fn sample() -> UnionFindData {
    UnionFindData::new(6).set_path(2, 0).set_path(3, 1).set_path(5, 1)
}

#[test]
fn new_test() {
    let a = UnionFindData::new(10);
    let b = UnionFindData {
        maxN: 10,
        par: vec![0, 1, 2, 3, 4, 5, 6, 7, 8, 9],
    };
    assert_eq!(a, b);
}

#[test]
fn find_root_test() {
    let mut a = UnionFindData::new(3).set_path(1, 0).set_path(2, 1);
    let root = a.find_root(2);

    assert_eq!(0, root);
}

#[test]
fn path_compression_test() {
    let mut a = UnionFindData::new(3).set_path(1, 0).set_path(2, 1);
    let _ = a.find_root(2);
    assert_eq!(a.par[1], a.par[2]);
}

#[test]
fn same_test() {
    let mut a = UnionFindData::new(6)
        .set_path(2, 0)
        .set_path(3, 1)
        .set_path(5, 1);
    let may_true = a.same(1, 5);
    let may_false = a.same(0, 3);
    assert_eq!(may_true, true);
    assert_eq!(may_false, false);
}

#[test]
fn union_test() {
    let a = UnionFindData::new(6)
        .set_path(2, 0)
        .set_path(3, 1)
        .set_path(5, 1);
    let unioned = a.union(2, 3);
    let b = UnionFindData::new(6)
        .set_path(2, 0)
        .set_path(3, 1)
        .set_path(5, 1)
        .set_path(0, 1);
    assert_eq!(unioned, b);
}

#[test]
fn new_of_nothing_is_empty() {
    let a = UnionFindData::new(0);
    assert_eq!(a.maxN, 0);
    assert!(a.par.is_empty());
}

#[test]
fn new_makes_every_element_its_own_representative() {
    let mut a = UnionFindData::new(12);
    for i in 0..12 {
        assert_eq!(a.find_root(i), i);
    }
    assert_eq!(a, UnionFindData::new(12));
}

#[test]
fn equality_compares_size_and_links() {
    let a = UnionFindData { maxN: 3, par: vec![0, 1, 2] };
    assert!(a == UnionFindData { maxN: 3, par: vec![0, 1, 2] });
    assert!(a != UnionFindData { maxN: 4, par: vec![0, 1, 2] });
    assert!(a != UnionFindData { maxN: 3, par: vec![0, 1, 1] });
    assert!(a != UnionFindData { maxN: 3, par: vec![0, 1] });
}

#[test]
fn set_path_changes_one_link() {
    let a = UnionFindData::new(4).set_path(3, 1);
    assert_eq!(a.maxN, 4);
    assert_eq!(a.par, vec![0, 1, 2, 1]);
}

#[test]
fn find_root_of_a_root_changes_nothing() {
    let mut a = sample();
    assert_eq!(a.find_root(1), 1);
    assert_eq!(a, sample());
}

#[test]
fn find_root_points_the_whole_way_at_the_root() {
    let mut a = UnionFindData::new(6)
        .set_path(1, 0)
        .set_path(2, 1)
        .set_path(3, 2)
        .set_path(4, 3)
        .set_path(5, 2);
    assert_eq!(a.find_root(4), 0);
    assert_eq!(a.par, vec![0, 0, 0, 0, 0, 2]);
    assert_eq!(a.maxN, 6);
}

#[test]
fn find_root_answers_the_same_before_and_after_flattening() {
    let chain = || {
        UnionFindData::new(7)
            .set_path(1, 0)
            .set_path(2, 1)
            .set_path(3, 2)
            .set_path(5, 4)
            .set_path(6, 5)
    };
    let mut first: Vec<usize> = Vec::new();
    for i in 0..7 {
        first.push(chain().find_root(i));
    }
    assert_eq!(first, vec![0, 0, 0, 0, 4, 4, 4]);
    let mut a = chain();
    for i in (0..7).rev() {
        assert_eq!(a.find_root(i), first[i]);
    }
    for i in 0..7 {
        assert_eq!(a.find_root(i), first[i]);
    }
    assert_eq!(a.par, vec![0, 0, 0, 0, 4, 4, 4]);
}

#[test]
fn same_flattens_both_ways() {
    let mut a = UnionFindData::new(6)
        .set_path(1, 0)
        .set_path(2, 1)
        .set_path(4, 3)
        .set_path(5, 4);
    assert_eq!(a.same(2, 5), false);
    assert_eq!(a.par, vec![0, 0, 0, 3, 3, 3]);
}

#[test]
fn same_is_an_equivalence() {
    let mut a = UnionFindData::new(8).union(0, 1).union(2, 3).union(1, 3).union(5, 6);
    for i in 0..8 {
        assert!(a.same(i, i));
        for j in 0..8 {
            assert_eq!(a.same(i, j), a.same(j, i));
            for k in 0..8 {
                if a.same(i, j) && a.same(j, k) {
                    assert!(a.same(i, k));
                }
            }
        }
    }
    assert!(a.same(0, 2));
    assert!(!a.same(0, 5));
    assert!(!a.same(4, 7));
}

#[test]
fn union_joins_its_two_arguments() {
    for x in 0..5 {
        for y in 0..5 {
            let mut a = UnionFindData::new(5).union(x, y);
            assert!(a.same(x, y));
        }
    }
}

#[test]
fn union_hangs_the_first_root_below_the_second() {
    let a = UnionFindData::new(4).union(0, 1);
    assert_eq!(a.par, vec![1, 1, 2, 3]);
    let a = a.union(1, 2);
    assert_eq!(a.par, vec![1, 2, 2, 3]);
    let a = a.union(3, 0);
    assert_eq!(a.par, vec![2, 2, 2, 2]);
}

#[test]
fn union_within_one_set_only_flattens() {
    let a = UnionFindData::new(4).set_path(1, 0).set_path(2, 1).union(2, 0);
    assert_eq!(a.par, vec![0, 0, 0, 3]);
    assert_eq!(a.maxN, 4);
}

#[test]
fn union_keeps_other_sets_apart() {
    let mut a = sample().union(2, 3);
    assert!(a.same(0, 5));
    assert!(a.same(2, 1));
    assert!(!a.same(4, 0));
    assert_eq!(a.find_root(4), 4);
}

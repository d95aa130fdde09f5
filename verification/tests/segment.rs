use index_structures::segment::{Node, SegTree};
use std::cmp::Ordering;

fn written() -> SegTree {
    SegTree::new(4).update(0, 3).update(1, 1).update(2, 2).update(3, 4)
}

fn values(tree: &SegTree) -> Vec<usize> {
    tree.nodes().iter().map(|node| node.elm).collect()
}

fn intervals(tree: &SegTree) -> Vec<(usize, usize)> {
    tree.nodes().iter().map(|node| node.interval).collect()
}

#[test]
fn new_test1() {
    let a = SegTree::new(1);
    let b = vec![
        Node::new(usize::MAX, (1, 1)),
        Node::zero(),
        Node::zero(),
        Node::zero(),
    ];

    assert_eq!(*a.nodes(), b);
}

#[test]
fn new_test2() {
    let a = SegTree::new(4);
    let b = vec![
        Node::new(usize::MAX, (1, 4)),
        Node::new(usize::MAX, (1, 2)),
        Node::new(usize::MAX, (3, 4)),
        Node::new(usize::MAX, (1, 1)),
        Node::new(usize::MAX, (2, 2)),
        Node::new(usize::MAX, (3, 3)),
        Node::new(usize::MAX, (4, 4)),
        Node::zero(),
        Node::zero(),
        Node::zero(),
        Node::zero(),
        Node::zero(),
        Node::zero(),
        Node::zero(),
        Node::zero(),
        Node::zero(),
    ];
    assert_eq!(*a.nodes(), b);
}

#[test]
fn update_test1() {
    let a = SegTree::new(4)
        .update(0, 3)
        .update(1, 1)
        .update(2, 2)
        .update(3, 4);
    let b = vec![
        Node::new(1, (1, 4)),
        Node::new(1, (1, 2)),
        Node::new(2, (3, 4)),
        Node::new(3, (1, 1)),
        Node::new(1, (2, 2)),
        Node::new(2, (3, 3)),
        Node::new(4, (4, 4)),
        Node::zero(),
        Node::zero(),
        Node::zero(),
        Node::zero(),
        Node::zero(),
        Node::zero(),
        Node::zero(),
        Node::zero(),
        Node::zero(),
    ];

    assert_eq!(*a.nodes(), b);
}

#[test]
fn query_test1() {
    let a = SegTree::new(4)
        .update(0, 3)
        .update(1, 1)
        .update(2, 2)
        .update(3, 4);
    let a = a.query((1, 3));
    assert_eq!(1, a);
}

#[test]
fn node_zero_is_sentinel_without_range() {
    let z = Node::zero();
    assert_eq!(z.elm, usize::MAX);
    assert_eq!(z.interval, (0, 0));
}

#[test]
fn node_new_keeps_both_fields() {
    let n = Node::new(7, (2, 5));
    assert_eq!(n.elm, 7);
    assert_eq!(n.interval, (2, 5));
}

#[test]
fn node_equality_looks_at_the_value_only() {
    assert!(Node::new(3, (1, 2)) == Node::new(3, (5, 9)));
    assert!(Node::new(3, (1, 2)) != Node::new(4, (1, 2)));
}

#[test]
fn node_order_follows_the_value() {
    assert_eq!(Node::new(1, (4, 4)).partial_cmp(&Node::new(2, (1, 1))), Some(Ordering::Less));
    assert_eq!(Node::new(2, (4, 4)).partial_cmp(&Node::new(2, (1, 1))), Some(Ordering::Equal));
    assert_eq!(Node::new(3, (1, 1)).partial_cmp(&Node::new(2, (4, 4))), Some(Ordering::Greater));
    assert!(Node::new(1, (4, 4)) < Node::new(2, (1, 1)));
}

#[test]
fn new_assigns_ranges_by_bisection() {
    assert_eq!(
        intervals(&SegTree::new(4)),
        vec![
            (1, 4), (1, 2), (3, 4), (1, 1), (2, 2), (3, 3), (4, 4), (0, 0),
            (0, 0), (0, 0), (0, 0), (0, 0), (0, 0), (0, 0), (0, 0), (0, 0),
        ]
    );
    assert_eq!(
        intervals(&SegTree::new(3)),
        vec![
            (1, 3), (1, 2), (3, 3), (1, 1), (2, 2), (0, 0),
            (0, 0), (0, 0), (0, 0), (0, 0), (0, 0), (0, 0),
        ]
    );
}

#[test]
fn new_splits_odd_ranges_with_the_longer_half_first() {
    let got = intervals(&SegTree::new(6));
    assert_eq!(got.len(), 24);
    assert_eq!(
        &got[..13],
        &[
            (1, 6), (1, 3), (4, 6), (1, 2), (3, 3), (4, 5), (6, 6),
            (1, 1), (2, 2), (0, 0), (0, 0), (4, 4), (5, 5),
        ]
    );
    assert!(got[13..].iter().all(|&iv| iv == (0, 0)));
}

#[test]
fn new_holds_four_slots_per_position() {
    for n in 1..=20usize {
        let tree = SegTree::new(n);
        assert_eq!(tree.nodes().len(), 4 * n);
        assert!(values(&tree).iter().all(|&v| v == usize::MAX));
    }
}

#[test]
fn every_position_has_a_slot_of_its_own() {
    for n in 1..=40usize {
        let got = intervals(&SegTree::new(n));
        for p in 1..=n {
            assert_eq!(got.iter().filter(|&&iv| iv == (p, p)).count(), 1);
        }
    }
}

#[test]
fn update_keeps_ranges() {
    assert_eq!(intervals(&written()), intervals(&SegTree::new(4)));
}

#[test]
fn update_writes_slot_and_the_slots_above_it() {
    let tree = SegTree::new(4).update(2, 9);
    assert_eq!(
        values(&tree)[..7],
        [9, usize::MAX, 9, usize::MAX, usize::MAX, 9, usize::MAX]
    );
    assert!(values(&tree)[7..].iter().all(|&v| v == usize::MAX));
}

#[test]
fn update_overwrites_and_recomputes() {
    let tree = written().update(1, 8);
    assert_eq!(values(&tree)[..7], [2, 3, 2, 3, 8, 2, 4]);
}

#[test]
fn update_on_six_positions_writes_slots_five_to_ten() {
    let tree = SegTree::new(6).update(0, 7);
    let got = values(&tree);
    assert_eq!(got[5], 7);
    assert_eq!(got[2], 7);
    assert_eq!(got[0], 7);
    assert_eq!(got.iter().filter(|&&v| v != usize::MAX).count(), 3);

    let tree = tree.update(5, 4);
    let got = values(&tree);
    assert_eq!(got[10], 4);
    assert_eq!(got[4], 4);
    assert_eq!(got[1], 4);
    assert_eq!(got[0], 4);
    assert_eq!(got[2], 7);
}

#[test]
fn update_on_one_position_writes_the_root() {
    let tree = SegTree::new(1).update(0, 5);
    assert_eq!(values(&tree), vec![5, usize::MAX, usize::MAX, usize::MAX]);
    assert_eq!(tree.query((0, 2)), 5);
    assert_eq!(tree.query((1, 1)), usize::MAX);
}

#[test]
fn query_on_a_fresh_tree_is_the_sentinel() {
    for n in 1..=9usize {
        let tree = SegTree::new(n);
        for a in 0..=n + 1 {
            for b in 0..=n + 1 {
                assert_eq!(tree.query((a, b)), usize::MAX);
            }
        }
    }
}

#[test]
fn query_with_equal_ends_is_the_sentinel() {
    let tree = written();
    for a in 0..=6usize {
        assert_eq!(tree.query((a, a)), usize::MAX);
    }
    let tree = SegTree::new(4).update(1, usize::MAX);
    assert_eq!(tree.query((1, 1)), usize::MAX);
}

#[test]
fn query_reads_whole_slots_within_the_range() {
    let tree = written();
    assert_eq!(tree.query((1, 4)), 1);
    assert_eq!(tree.query((0, 5)), 1);
    assert_eq!(tree.query((1, 2)), 1);
    assert_eq!(tree.query((3, 4)), 2);
    assert_eq!(tree.query((2, 4)), 2);
    assert_eq!(tree.query((3, 5)), 2);
}

#[test]
fn query_skips_slots_that_only_touch_an_end() {
    let tree = written();
    assert_eq!(tree.query((2, 3)), usize::MAX);
    assert_eq!(tree.query((0, 1)), usize::MAX);
    assert_eq!(tree.query((4, 5)), usize::MAX);
    assert_eq!(tree.query((4, 1)), usize::MAX);
}

#[test]
fn query_over_a_wider_range_is_no_larger() {
    let tree = SegTree::new(7)
        .update(0, 50)
        .update(1, 40)
        .update(2, 60)
        .update(3, 10)
        .update(4, 30)
        .update(5, 20)
        .update(6, 70);
    for a in 0..=8usize {
        for b in 0..=8usize {
            for wide_a in 0..=a {
                for wide_b in b..=8usize {
                    assert!(tree.query((wide_a, wide_b)) <= tree.query((a, b)));
                }
            }
        }
    }
}

#[test]
fn query_leaves_untouched_positions_out_on_a_power_of_two() {
    let tree = SegTree::new(8).update(5, 3);
    for a in 0..=9usize {
        for b in 0..=9usize {
            if !(a <= 6 && 6 <= b) {
                assert_eq!(tree.query((a, b)), usize::MAX);
            }
        }
    }
    assert_eq!(tree.query((5, 6)), 3);
    assert_eq!(tree.query((4, 7)), 3);
}

#[test]
fn node_cmp_follows_the_value() {
    assert_eq!(Node::new(1, (4, 4)).cmp(&Node::new(2, (1, 1))), Ordering::Less);
    assert_eq!(Node::new(2, (4, 4)).cmp(&Node::new(2, (1, 1))), Ordering::Equal);
    assert_eq!(Node::new(3, (1, 1)).cmp(&Node::new(2, (4, 4))), Ordering::Greater);
}

#[test]
fn update_on_three_positions_writes_slots_two_to_four() {
    let tree = SegTree::new(3).update(0, 5);
    assert_eq!(values(&tree)[..5], [5, usize::MAX, 5, usize::MAX, usize::MAX]);
    assert_eq!(tree.query((2, 4)), 5);
    assert_eq!(tree.query((1, 2)), usize::MAX);

    let tree = tree.update(1, 6).update(2, 4);
    assert_eq!(values(&tree)[..5], [4, 4, 5, 6, 4]);
    assert_eq!(tree.query((1, 2)), 4);
    assert_eq!(tree.query((1, 3)), 4);
    assert_eq!(tree.query((2, 4)), 5);
}

#[test]
fn query_on_a_power_of_two_stays_between_its_ends() {
    let written = [50usize, 40, 60, 10, 30, 20, 70, 80];
    let mut tree = SegTree::new(8);
    for (i, &x) in written.iter().enumerate() {
        tree = tree.update(i, x);
    }
    for a in 0..=9usize {
        for b in 0..=9usize {
            let got = tree.query((a, b));
            for (i, &x) in written.iter().enumerate() {
                if a < i + 1 && i + 1 < b {
                    assert!(got <= x);
                }
            }
            let within = written
                .iter()
                .enumerate()
                .any(|(i, &x)| a <= i + 1 && i + 1 <= b && x == got);
            assert!(got == usize::MAX || within);
        }
    }
    assert_eq!(tree.query((2, 7)), 10);
    assert_eq!(tree.query((4, 6)), 20);
    assert_eq!(tree.query((5, 6)), 20);
    assert_eq!(tree.query((4, 5)), usize::MAX);
}

use ship_cache::bound::{dedup, intersect_lists, select_all, Bound};

#[test]
fn bitand_test() {
    let test_data = [
        // 0
        (Bound::Empty, Bound::Empty, Bound::Empty),
        (Bound::Empty, Bound::Single(0), Bound::Empty),
        (Bound::Empty, Bound::Range(0, 1), Bound::Empty),
        (Bound::Single(0), Bound::Empty, Bound::Empty),
        (Bound::Single(0), Bound::Single(0), Bound::Single(0)),
        // 5
        (Bound::Single(0), Bound::Single(1), Bound::Empty),
        (Bound::Single(0), Bound::Range(0, 1), Bound::Single(0)),
        (Bound::Single(1), Bound::Range(0, 1), Bound::Single(1)),
        (Bound::Single(2), Bound::Range(0, 1), Bound::Empty),
        (Bound::Single(1), Bound::Range(0, 2), Bound::Single(1)),
        // 10
        (Bound::Range(0, 1), Bound::Empty, Bound::Empty),
        (Bound::Range(0, 1), Bound::Single(0), Bound::Single(0)),
        (Bound::Range(0, 1), Bound::Single(1), Bound::Single(1)),
        (Bound::Range(0, 1), Bound::Single(2), Bound::Empty),
        (Bound::Range(0, 2), Bound::Single(1), Bound::Single(1)),
        // 15
        (Bound::Range(0, 1), Bound::Range(2, 3), Bound::Empty),
        (Bound::Range(2, 3), Bound::Range(0, 1), Bound::Empty),
        (Bound::Range(0, 1), Bound::Range(1, 2), Bound::Single(1)),
        (Bound::Range(1, 2), Bound::Range(0, 1), Bound::Single(1)),
        (Bound::Range(0, 2), Bound::Range(0, 1), Bound::Range(0, 1)),
        // 20
        (Bound::Range(0, 1), Bound::Range(0, 2), Bound::Range(0, 1)),
        (Bound::Range(0, 2), Bound::Range(1, 3), Bound::Range(1, 2)),
        (Bound::Range(1, 3), Bound::Range(0, 2), Bound::Range(1, 2)),
        (Bound::Range(0, 3), Bound::Range(1, 2), Bound::Range(1, 2)),
        (Bound::Range(1, 2), Bound::Range(0, 3), Bound::Range(1, 2)),
    ];
    for (step, (lhs, rhs, target)) in test_data.into_iter().enumerate() {
        let result = lhs & rhs;
        println!("step={} result: {:?} target: {:?}\n", step, result, target);
        assert_eq!(
            result, target,
            "step={} lhs={:?} rhs={:?} target={:?} result={:?}",
            step, lhs, rhs, target, result
        );
    }
}

#[test]
fn empty_bound_absorbs() {
    for a in [Bound::Empty, Bound::Single(3), Bound::Range(2, 9)] {
        assert_eq!(a & Bound::Empty, Bound::Empty);
        assert_eq!(Bound::Empty & a, Bound::Empty);
    }
}

#[test]
fn intersection_with_itself() {
    for a in [Bound::Empty, Bound::Single(0), Bound::Single(7), Bound::Range(0, 1), Bound::Range(3, 8)] {
        assert_eq!(a & a, a);
    }
}

#[test]
fn full_range_keeps_every_single_row() {
    let last = 6;
    for i in 0..=last {
        assert_eq!(Bound::Range(0, last) & Bound::Single(i), Bound::Single(i));
        assert_eq!(Bound::Single(i) & Bound::Range(0, last), Bound::Single(i));
    }
    assert_eq!(Bound::Range(0, last) & Bound::Single(last + 1), Bound::Empty);
}

#[test]
fn intersection_is_commutative_and_associative() {
    let all = [
        Bound::Empty,
        Bound::Single(1),
        Bound::Single(4),
        Bound::Range(0, 4),
        Bound::Range(1, 2),
        Bound::Range(2, 6),
        Bound::Range(4, 5),
    ];
    for a in all {
        for b in all {
            assert_eq!(a & b, b & a);
            for c in all {
                assert_eq!((a & b) & c, a & (b & c));
            }
        }
    }
}

#[test]
fn ranges_that_overlap_backwards_give_nothing() {
    assert_eq!(Bound::Range(0, 5) & Bound::Range(3, 1), Bound::Empty);
    assert_eq!(Bound::Range(4, 4) & Bound::Range(4, 4), Bound::Single(4));
}

#[test]
fn dedup_removes_only_neighbours() {
    let bounds = vec![
        Bound::Single(8),
        Bound::Single(9),
        Bound::Single(9),
        Bound::Range(9, 10),
        Bound::Single(9),
        Bound::Range(9, 10),
        Bound::Range(9, 10),
        Bound::Range(9, 10),
    ];
    assert_eq!(
        dedup(bounds),
        vec![
            Bound::Single(8),
            Bound::Single(9),
            Bound::Range(9, 10),
            Bound::Single(9),
            Bound::Range(9, 10),
        ]
    );
    assert_eq!(dedup(vec![]), vec![]);
    assert_eq!(dedup(vec![Bound::Empty]), vec![Bound::Empty]);
}

#[test]
fn product_of_two_lists() {
    let acc = vec![Bound::Single(0), Bound::Range(2, 5), Bound::Single(7)];
    let list = vec![Bound::Range(4, 7), Bound::Single(0), Bound::Range(0, 3)];
    assert_eq!(
        intersect_lists(&acc, &list),
        vec![
            Bound::Single(0),
            Bound::Single(0),
            Bound::Range(4, 5),
            Bound::Range(2, 3),
            Bound::Single(7),
        ]
    );
    assert_eq!(intersect_lists(&acc, &vec![]), vec![]);
    assert_eq!(intersect_lists(&vec![], &list), vec![]);
}

#[test]
fn bounds_of_all_rows() {
    assert_eq!(select_all(0), vec![]);
    assert_eq!(select_all(1), vec![Bound::Single(0)]);
    assert_eq!(select_all(2), vec![Bound::Range(0, 1)]);
    assert_eq!(select_all(8), vec![Bound::Range(0, 7)]);
}

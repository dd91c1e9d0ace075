use ship_cache::bound::Bound;
use ship_cache::column::Column;
use ship_cache::error::Error;

#[test]
fn get_inflextion_test() {
    let test_data: [(Vec<f64>, Vec<usize>); 21] = [
        // 0
        (vec![], vec![]),
        (vec![1.], vec![0]),
        (vec![2., 2.], vec![0, 1]),
        (vec![0., 1., 2.], vec![0, 2]),
        (vec![0., 1., 2., 2.], vec![0, 3]),
        (vec![0., 1., 1., 2.], vec![0, 3]),
        (vec![2., 1., 0.], vec![0, 2]),
        (vec![2., 2., 1., 0.], vec![0, 3]),
        (vec![2., 1., 0., 0.], vec![0, 3]),
        (vec![4., 4., 1., 4., 4.], vec![0, 2, 4]),
        // 10
        (vec![0., 0., 0., 0., 1.], vec![0, 4]),
        (vec![1., 0., 0., 0., 0.], vec![0, 4]),
        (vec![4., 0., 0., 0., 4.], vec![0, 3, 4]),
        (vec![4., 0., 0., 0., 4., 0.], vec![0, 3, 4, 5]),
        (vec![4., 4., -2., 4., 4.], vec![0, 2, 4]),
        (vec![0., 0., 5., 0., 0., 5.], vec![0, 2, 4, 5]),
        (vec![0., 0., 7., 0., 0., 7., 7., 7.], vec![0, 2, 4, 7]),
        (vec![6., 5., 4., 3., 4., 5., 6.], vec![0, 3, 6]),
        (vec![0., 1., 2., 3., 2., 1., 0., 1., 2., 3., 2., 1., 0.], vec![0, 3, 6, 9, 12]),
        (vec![0., 0., 2., 2., 3., 3., 2., 2., 1., 1., 0., 0., 1., 0., 0.], vec![0, 5, 11, 12, 14]),
        // 20
        (vec![-1., 1., -0.5, 0.5, 0.], vec![0, 1, 2, 3, 4]),
    ];
    for (step, (values, target)) in test_data.into_iter().enumerate() {
        let result = Column::get_inflections(&values).unwrap();
        println!(
            "step={} values={:?} result={:?} target={:?}",
            step, values, result, target
        );
        assert_eq!(
            result, target,
            "step={} values={:?} result={:?} target={:?}",
            step, values, result, target
        );
    }
}

#[test]
fn get_bounds_monotonic() {
    //                0   1   2   3   4   5   6   7    8    9   10   11
    let values = vec![0., 1., 2., 3., 2., 1., 0., 0., -1., -1., 10., 9.];
    let column = Column::new(values).unwrap();
    let test_data = [
        // 0
        (3.5,  vec![Bound::Range(9, 10)]),
        (0.0,  vec![Bound::Single(0), Bound::Single(6), Bound::Single(7), Bound::Range(9, 10)]),
        (0.5,  vec![Bound::Range(0, 1), Bound::Range(5, 6), Bound::Range(9, 10)]),
        (1.0,  vec![Bound::Single(1), Bound::Single(5), Bound::Range(9, 10)]),
        (1.5,  vec![Bound::Range(1, 2), Bound::Range(4, 5), Bound::Range(9, 10)]),
        (2.5,  vec![Bound::Range(2, 3), Bound::Range(3, 4), Bound::Range(9, 10)]),
        (3.0,  vec![Bound::Single(3), Bound::Range(9, 10)]),
        (-0.1, vec![Bound::Range(7, 8), Bound::Range(9, 10)]),
        (-1.0, vec![Bound::Single(8), Bound::Single(9)]),
        (-1.1, vec![]),
        // 10
        (10.0, vec![Bound::Single(10)]),
        (9.5,  vec![Bound::Range(9, 10), Bound::Range(10, 11)]),
        (8.5,  vec![Bound::Range(9, 10)]),
    ];
    for (step, (value, target)) in test_data.into_iter().enumerate() {
        let result = column.get_bounds(&value).unwrap();
        println!(
            "step={} value={} result={:?} target={:?}",
            step, value, result, target
        );
        assert_eq!(
            result, target,
            "step={} value={} result={:?} target={:?}",
            step, value, result, target
        );
    }
}

#[test]
fn get_bounds_non_descresing() {
    //                0   1   2   3   4   5   6   7
    let values = vec![0., 1., 1., 1., 2., 2., 3., 4.];
    let column = Column::new(values).unwrap();
    let test_data = [
        // 0
        (-1.0, vec![]),
        (0.0, vec![Bound::Single(0)]),
        (0.5, vec![Bound::Range(0, 1)]),
        (1.0, vec![Bound::Single(1), Bound::Single(2), Bound::Single(3)]),
        (1.5, vec![Bound::Range(3, 4)]),
        (2.0, vec![Bound::Single(4), Bound::Single(5)]),
        (5.0, vec![]),
    ];
    for (step, (value, target)) in test_data.into_iter().enumerate() {
        let result = column.get_bounds(&value).unwrap();
        println!(
            "step={} value={} result={:?} target={:?}",
            step, value, result, target
        );
        assert_eq!(
            result, target,
            "step={} value={} result={:?} target={:?}",
            step, value, result, target
        );
    }
}

#[test]
fn analysis_fails_on_a_sample_without_order() {
    let nan = f64::NAN;
    assert_eq!(
        Column::get_inflections(&[0.0, 1.0, nan, 3.0]).unwrap_err(),
        Error::NonComparable { position: 1 }
    );
    assert_eq!(
        Column::get_inflections(&[nan, 1.0, 2.0, 3.0]).unwrap_err(),
        Error::NonComparable { position: 1 }
    );
    assert_eq!(
        Column::get_inflections(&[0.0, 1.0, 2.0, nan]).unwrap_err(),
        Error::NonComparable { position: 2 }
    );
    assert!(Column::new(vec![0.0, nan, 2.0]).is_err());
    // Too short for a sample with two neighbours: nothing is compared.
    assert_eq!(Column::get_inflections(&[nan, 1.0]).unwrap(), vec![0, 1]);
    assert_eq!(Column::get_inflections(&[nan]).unwrap(), vec![0]);
}

#[test]
fn query_fails_on_a_value_without_order() {
    let column = Column::new(vec![0.0, 1.0, 2.0, 1.0]).unwrap();
    assert_eq!(
        column.get_bounds(&f64::NAN).unwrap_err(),
        Error::NonComparable { position: 0 }
    );
    let column = Column::new(vec![0.0, f64::NAN]).unwrap();
    assert_eq!(
        column.get_bounds(&0.5).unwrap_err(),
        Error::NonComparable { position: 1 }
    );
    // Without a run there is nothing to compare with.
    let column = Column::new(vec![1.0]).unwrap();
    assert_eq!(column.get_bounds(&f64::NAN).unwrap(), vec![]);
}

#[test]
fn inflections_start_and_end_the_column() {
    let columns: [Vec<i64>; 5] = [
        vec![5],
        vec![1, 1],
        vec![3, 2, 1, 1, 2, 3, 3, 2],
        vec![0, 0, 0, 0],
        vec![9, 1, 8, 2, 7, 3],
    ];
    for values in columns {
        let rows = values.len();
        let column = Column::new(values).unwrap();
        let ids = column.inflection_ids();
        assert_eq!(ids[0], 0);
        assert_eq!(ids[ids.len() - 1], rows - 1);
        assert!(ids.windows(2).all(|pair| pair[0] < pair[1]));
        assert_eq!(column.len(), rows);
    }
}

#[test]
fn runs_between_inflections_are_monotonic() {
    let values: Vec<i64> = vec![0, 0, 2, 2, 3, 3, 2, 2, 1, 1, 0, 0, 1, 0, 0];
    let column = Column::new(values).unwrap();
    let data = column.as_slice();
    for pair in column.inflection_ids().windows(2) {
        let run = &data[pair[0]..=pair[1]];
        let rises = run.windows(2).all(|step| step[0] <= step[1]);
        let falls = run.windows(2).all(|step| step[0] >= step[1]);
        assert!(rises || falls, "run {:?}", run);
    }
}

#[test]
fn constant_column_matches_as_a_whole() {
    let column = Column::new(vec![2.0, 2.0, 2.0]).unwrap();
    assert_eq!(column.inflection_ids(), &[0, 2]);
    assert_eq!(column.get_bounds(&2.0).unwrap(), vec![Bound::Range(0, 2)]);
    assert_eq!(column.get_bounds(&1.0).unwrap(), vec![]);
    assert_eq!(column.get_bounds(&3.0).unwrap(), vec![]);
    let column = Column::new(vec![-1.5, -1.5]).unwrap();
    assert_eq!(column.get_bounds(&-1.5).unwrap(), vec![Bound::Range(0, 1)]);
    assert_eq!(column.get_bounds(&0.0).unwrap(), vec![]);
}

#[test]
fn empty_and_single_row_columns_have_no_bounds() {
    let column = Column::new(Vec::<f64>::new()).unwrap();
    assert_eq!(column.inflection_ids(), &[] as &[usize]);
    assert_eq!(column.get_bounds(&1.0).unwrap(), vec![]);
    let column = Column::new(vec![1.0]).unwrap();
    assert_eq!(column.inflection_ids(), &[0]);
    assert_eq!(column.get_bounds(&1.0).unwrap(), vec![]);
}

#[test]
fn bounds_of_one_run() {
    let run = [1.0, 2.0, 2.0, 2.0, 5.0];
    assert_eq!(Column::get_bounds_of_monotonic(&run, &0.0, 10), vec![Bound::Single(10)]);
    assert_eq!(Column::get_bounds_of_monotonic(&run, &1.0, 10), vec![Bound::Single(10)]);
    assert_eq!(Column::get_bounds_of_monotonic(&run, &1.5, 10), vec![Bound::Range(10, 11)]);
    assert_eq!(
        Column::get_bounds_of_monotonic(&run, &2.0, 10),
        vec![Bound::Single(11), Bound::Single(12), Bound::Single(13)]
    );
    assert_eq!(Column::get_bounds_of_monotonic(&run, &3.0, 10), vec![Bound::Range(13, 14)]);
    assert_eq!(Column::get_bounds_of_monotonic(&run, &5.0, 10), vec![Bound::Single(14)]);
    assert_eq!(Column::get_bounds_of_monotonic(&run, &9.0, 10), vec![Bound::Single(14)]);
    let flat = [4.0, 4.0, 4.0];
    assert_eq!(Column::get_bounds_of_monotonic(&flat, &4.0, 3), vec![Bound::Range(3, 5)]);
    assert_eq!(Column::get_bounds_of_monotonic(&flat, &1.0, 3), vec![Bound::Single(3)]);
    assert_eq!(Column::get_bounds_of_monotonic(&[4.0], &4.0, 3), vec![Bound::Single(3)]);
    let falling = [5.0, 3.0, 3.0, 1.0];
    assert_eq!(
        Column::get_bounds_of_monotonic(&falling, &3.0, 0),
        vec![Bound::Single(1), Bound::Single(2)]
    );
    assert_eq!(Column::get_bounds_of_monotonic(&falling, &2.0, 0), vec![Bound::Range(2, 3)]);
}

#[test]
fn bounds_are_in_normal_form_and_inside_the_column() {
    let values: Vec<i64> = vec![3, 3, 5, 9, 9, 4, 1, 1, 6, 6, 6, 2];
    let rows = values.len();
    let column = Column::new(values).unwrap();
    for value in -1..=11 {
        for bound in column.get_bounds(&value).unwrap() {
            match bound {
                Bound::Empty => panic!("value={}", value),
                Bound::Single(i) => assert!(i < rows, "value={}", value),
                Bound::Range(lo, hi) => assert!(lo < hi && hi < rows, "value={}", value),
            }
        }
    }
}

#[test]
fn column_reads_as_its_samples() {
    let column = Column::new(vec![4, 8, 15]).unwrap();
    assert_eq!(column[1], 8);
    assert_eq!(column.iter().sum::<i32>(), 27);
    assert_eq!(column.as_slice(), &[4, 8, 15]);
    assert_eq!(column.clone().inflection_ids(), &[0, 2]);
}

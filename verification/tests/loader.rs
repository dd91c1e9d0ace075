use ship_cache::error::Error;
use ship_cache::loader::{is_ascii_space, split_ascii_whitespace, Loader, Span};
use ship_cache::scalar::Scalar;
use ship_cache::table::Table;

/// A 64-bit float as a scalar of a table.
#[derive(Clone, Copy, Debug, PartialEq, PartialOrd)]
struct Float(f64);

impl Scalar for Float {
    fn mean(vals: &[Float]) -> Float {
        Float(vals.iter().map(|val| val.0).sum::<f64>() / vals.len() as f64)
    }
}

/// Loads a table from the text of its source, line by line.
fn load(text: &str) -> Result<Table<Float>, Error> {
    let mut loader = Loader::new();
    for (line, line_id) in text.lines().zip(1..) {
        let tokens = split_ascii_whitespace(line.as_bytes())
            .into_iter()
            .map(|span| {
                line[span.start..span.end]
                    .parse::<f64>()
                    .map(Float)
                    .map_err(|err| err.to_string())
            })
            .collect();
        loader.feed(line_id, &tokens)?;
    }
    loader.finish()
}

fn query(vals: &[Option<f64>]) -> Vec<Option<Float>> {
    vals.iter().map(|val| val.map(Float)).collect()
}

fn plain(rows: Option<Vec<Vec<Float>>>) -> Option<Vec<Vec<f64>>> {
    rows.map(|rows| {
        rows.into_iter()
            .map(|row| row.into_iter().map(|val| val.0).collect())
            .collect()
    })
}

#[test]
fn init_cache_table_from_file() {
    let test_data = [
        ([Some(0.0), Some(0.0), Some(0.0), Some(10.0)], Some(vec![vec![0.0, 0.0, 0.0, 10.0]])),
        ([Some(2.1), Some(0.1), Some(0.1), Some(20.1)], Some(vec![vec![2.1, 0.1, 0.1, 20.1]])),
        ([Some(3.2), Some(1.2), Some(0.2), Some(30.2)], Some(vec![vec![3.2, 1.2, 0.2, 30.2]])),
        ([Some(4.3), Some(0.3), Some(1.3), Some(40.3)], Some(vec![vec![4.3, 0.3, 1.3, 40.3]])),
        ([Some(5.4), Some(2.4), Some(2.4), Some(50.4)], Some(vec![vec![5.4, 2.4, 2.4, 50.4]])),
        ([Some(0.5), Some(3.5), Some(0.5), Some(60.5)], Some(vec![vec![0.5, 3.5, 0.5, 60.5]])),
        ([Some(0.6), Some(4.6), Some(3.6), Some(70.6)], Some(vec![vec![0.6, 4.6, 3.6, 70.6]])),
        ([Some(0.7), Some(0.7), Some(4.7), Some(80.7)], Some(vec![vec![0.7, 0.7, 4.7, 80.7]])),
    ];
    let text = "0.0 0.0 0.0 10.0\n\
                2.1 0.1 0.1 20.1\n\
                3.2 1.2 0.2 30.2\n\
                4.3 0.3 1.3 40.3\n\
                5.4 2.4 2.4 50.4\n\
                0.5 3.5 0.5 60.5\n\
                0.6 4.6 3.6 70.6\n\
                0.7 0.7 4.7 80.7\n";
    let table = load(text).unwrap();
    for (step, (vals, target)) in test_data.into_iter().enumerate() {
        let result = plain(table.get(&query(&vals)).unwrap());
        println!(
            "step={} vals={:?} target={:?} result={:?}",
            step, vals, target, result
        );
        assert_eq!(
            target, result,
            "step={} vals={:?} target={:?} result={:?}",
            step, vals, target, result
        );
    }
}

#[test]
fn init_cache_table_from_inconsistent_files() {
    let missing_in_row = "0.0 0.0 0.0 10.0\n\
                          2.1 0.1 0.1 20.1\n\
                          3.2 1.2 0.2 30.2\n\
                          4.3 0.3 1.3 40.3\n\
                          5.4 2.4 2.4 50.4\n\
                          0.5 3.5 60.5\n\
                          0.6 4.6 3.6 70.6\n\
                          0.7 0.7 4.7 80.7\n";
    let added_column = "0.0 0.0 0.0 10.0\n\
                        2.1 0.1 0.1 20.1\n\
                        3.2 1.2 0.2 30.2\n\
                        4.3 0.3 1.3 40.3\n\
                        5.4 2.4 2.4 50.4\n\
                        0.5 3.5 0.5 60.5\n\
                        0.6 4.6 3.6 70.6\n\
                        0.7 0.7 4.7 80.7 1.0\n";
    let test_data = [(missing_in_row, 6), (added_column, 8)];
    for (text, target) in test_data {
        let result = load(text);
        match result {
            Err(error) => assert_eq!(error, Error::InconsistentDataset { line: target }),
            Ok(_) => panic!("Must fail to create Cache"),
        }
    }
}

#[test]
fn tokens_of_a_line() {
    assert_eq!(split_ascii_whitespace(b""), vec![]);
    assert_eq!(split_ascii_whitespace(b" \t \r\n"), vec![]);
    assert_eq!(split_ascii_whitespace(b"1.0"), vec![Span { start: 0, end: 3 }]);
    assert_eq!(
        split_ascii_whitespace(b"  0.0\t1.0  -2.5e3 "),
        vec![
            Span { start: 2, end: 5 },
            Span { start: 6, end: 9 },
            Span { start: 11, end: 17 },
        ]
    );
    assert_eq!(
        split_ascii_whitespace(b"a\x0cb\x0bc"),
        vec![Span { start: 0, end: 1 }, Span { start: 2, end: 5 }]
    );
    for byte in 0..=255u8 {
        assert_eq!(is_ascii_space(byte), byte.is_ascii_whitespace());
    }
}

#[test]
fn tokens_agree_with_the_standard_split() {
    for line in ["", "1 2 3", "  12.5\t\t7 ", "x", " x", "x ", "\t0.0 0.0\r", "a  b   c    d"] {
        let spans = split_ascii_whitespace(line.as_bytes());
        let tokens: Vec<&str> = spans.iter().map(|span| &line[span.start..span.end]).collect();
        let target: Vec<&str> = line.split_ascii_whitespace().collect();
        assert_eq!(tokens, target);
    }
}

#[test]
fn empty_lines_are_passed_over() {
    let table = load("\n1.0 2.0\n\n   \n3.0 4.0\n\n").unwrap();
    assert_eq!(table.column_count(), 2);
    assert_eq!(table.row_count(), 2);
    assert_eq!(
        plain(table.get(&query(&[Some(3.0)])).unwrap()),
        Some(vec![vec![3.0, 4.0]])
    );
}

#[test]
fn source_without_rows_gives_a_table_without_columns() {
    for text in ["", "\n\n", "  \n\t\n"] {
        let table = load(text).unwrap();
        assert_eq!(table.column_count(), 0);
        assert_eq!(table.row_count(), 0);
        assert_eq!(plain(table.get(&query(&[])).unwrap()), Some(vec![]));
        assert_eq!(plain(table.get(&query(&[None])).unwrap()), None);
    }
}

#[test]
fn token_that_is_no_scalar() {
    let error = load("1.0 2.0\n3.0 abc\n").unwrap_err();
    match error {
        Error::ParseError { line, cause } => {
            assert_eq!(line, 2);
            assert_eq!(cause, "abc".parse::<f64>().unwrap_err().to_string());
        }
        other => panic!("{:?}", other),
    }
    // The number of tokens is told before the tokens are.
    assert_eq!(
        load("1.0 2.0\nabc\n").unwrap_err(),
        Error::InconsistentDataset { line: 2 }
    );
    // The first row has nothing to differ from.
    assert!(matches!(
        load("1.0 x y\n").unwrap_err(),
        Error::ParseError { line: 1, .. }
    ));
}

#[test]
fn failed_line_leaves_the_loader_as_it_was() {
    let mut loader: Loader<Float> = Loader::new();
    loader.feed(1, &vec![Ok(Float(1.0)), Ok(Float(2.0))]).unwrap();
    assert_eq!(
        loader.feed(2, &vec![Ok(Float(3.0))]).unwrap_err(),
        Error::InconsistentDataset { line: 2 }
    );
    assert_eq!(
        loader.feed(3, &vec![Ok(Float(3.0)), Err("no scalar".to_string())]).unwrap_err(),
        Error::ParseError { line: 3, cause: "no scalar".to_string() }
    );
    loader.feed(4, &vec![]).unwrap();
    loader.feed(5, &vec![Ok(Float(5.0)), Ok(Float(6.0))]).unwrap();
    let table = loader.finish().unwrap();
    assert_eq!(table.row_count(), 2);
    assert_eq!(
        plain(table.get(&query(&[Some(5.0)])).unwrap()),
        Some(vec![vec![5.0, 6.0]])
    );
}

#[test]
fn column_without_order_fails_the_load() {
    assert_eq!(
        load("1.0 1.0\n2.0 2.0\n3.0 NaN\n4.0 4.0\n").unwrap_err(),
        Error::NonComparable { position: 1 }
    );
    assert_eq!(
        load("1.0 1.0\n2.0 2.0\n3.0 3.0\nNaN NaN\n").unwrap_err(),
        Error::NonComparable { position: 2 }
    );
}

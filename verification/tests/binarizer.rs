use lad::score::SCORE_UNIT;
use lad::{BinaryTable, Binarizer, Column, ColumnData, Cutpoint, Error, FeatureEncoding, Kind, Table};

fn words(values: &[&str]) -> ColumnData {
    ColumnData::Text(values.iter().map(|v| v.to_string()).collect())
}

fn frame(columns: Vec<(&str, ColumnData)>) -> Table {
    let rows = columns.first().map(|c| c.1.len()).unwrap_or(0);
    let mut table = Table::new(rows);
    for (name, data) in columns {
        table.push(Column { name: name.to_string(), data }).unwrap();
    }
    table
}

fn mixed() -> (Table, ColumnData) {
    let data = frame(vec![
        ("colour", words(&["red", "blue", "red", "green", "blue", "red"])),
        ("flag", ColumnData::Boolean(vec![false, true, true, false, true, false])),
        ("small", ColumnData::Number(vec![2, 1, 2, 1, 2, 1])),
        ("size", ColumnData::Number(vec![5, 1, 9, 3, 2, 8])),
    ]);
    let label = words(&["A", "A", "B", "B", "A", "B"]);
    (data, label)
}

fn fitted() -> Binarizer {
    let (data, label) = mixed();
    let mut bin = Binarizer::new(0, 2, 2);
    bin.generate_cutpoints(&data, &label).unwrap();
    bin
}

#[test]
fn a_new_binarizer_holds_nothing() {
    let bin = Binarizer::new(7, 3, 4);
    assert!(!bin.fitted);
    assert_eq!(bin.threshold, 7);
    assert_eq!(bin.nominal_size, 3);
    assert_eq!(bin.max_cutpoints, 4);
    assert!(bin.get_cutpoints().is_empty());
}

#[test]
fn every_column_gets_an_encoding_in_order() {
    let encodings = fitted().get_cutpoints();
    assert_eq!(encodings.len(), 4);
    match &encodings[0] {
        FeatureEncoding::Indicator { feature, values } => {
            assert_eq!(feature, "colour");
            match values {
                ColumnData::Text(v) => assert_eq!(v, &vec!["red", "blue", "green"]),
                other => panic!("expected text, got {:?}", other),
            }
        },
        other => panic!("expected values, got {:?}", other),
    }
    match &encodings[1] {
        FeatureEncoding::Indicator { feature, values } => {
            assert_eq!(feature, "flag");
            match values {
                ColumnData::Boolean(v) => assert_eq!(v, &vec![false, true]),
                other => panic!("expected booleans, got {:?}", other),
            }
        },
        other => panic!("expected values, got {:?}", other),
    }
    match &encodings[2] {
        FeatureEncoding::Indicator { feature, values } => {
            assert_eq!(feature, "small");
            match values {
                ColumnData::Number(v) => assert_eq!(v, &vec![2, 1]),
                other => panic!("expected numbers, got {:?}", other),
            }
        },
        other => panic!("expected values, got {:?}", other),
    }
    match &encodings[3] {
        FeatureEncoding::Threshold { feature, cutpoints } => {
            assert_eq!(feature, "size");
            assert_eq!(
                cutpoints,
                &vec![
                    Cutpoint { value: 6, score: 666_666_667 * 666_666_667 },
                    Cutpoint { value: 2, score: 666_666_666 * 666_666_666 },
                ]
            );
        },
        other => panic!("expected cutpoints, got {:?}", other),
    }
}

#[test]
fn as_many_distinct_values_as_the_nominal_size_are_still_nominal() {
    let data = frame(vec![("x", ColumnData::Number(vec![1, 2, 3, 1]))]);
    let label = words(&["A", "B", "A", "B"]);
    let mut bin = Binarizer::new(0, 3, 5);
    bin.generate_cutpoints(&data, &label).unwrap();
    assert!(matches!(&bin.get_cutpoints()[0], FeatureEncoding::Indicator { .. }));
    let mut bin = Binarizer::new(0, 2, 5);
    bin.generate_cutpoints(&data, &label).unwrap();
    assert!(matches!(&bin.get_cutpoints()[0], FeatureEncoding::Threshold { .. }));
}

#[test]
fn cutpoints_stand_by_descending_score_and_are_capped() {
    let (data, label) = mixed();
    for cap in 0..5 {
        let mut bin = Binarizer::new(0, 2, cap);
        bin.generate_cutpoints(&data, &label).unwrap();
        match &bin.get_cutpoints()[3] {
            FeatureEncoding::Threshold { cutpoints, .. } => {
                assert_eq!(cutpoints.len(), cap.min(3));
                assert!(cutpoints.windows(2).all(|w| w[0].score >= w[1].score));
            },
            other => panic!("expected cutpoints, got {:?}", other),
        }
    }
}

#[test]
fn transform_gives_one_column_per_value_or_cutpoint() {
    let (data, _) = mixed();
    let bin = fitted();
    let out = bin.transform(&data).unwrap();
    let expected: usize = bin
        .get_cutpoints()
        .iter()
        .map(|e| match e {
            FeatureEncoding::Indicator { values, .. } => values.len(),
            FeatureEncoding::Threshold { cutpoints, .. } => cutpoints.len(),
        })
        .sum();
    assert_eq!(expected, 9);
    assert_eq!(out.columns.len(), expected);
    assert_eq!(out.rows, 6);
    assert!(out.columns.iter().all(|c| c.len() == 6));
}

#[test]
fn transform_tests_equality_and_strictly_above() {
    let (data, _) = mixed();
    let out: BinaryTable = fitted().transform(&data).unwrap();
    // colour == red, blue, green
    assert_eq!(out.columns[0], vec![true, false, true, false, false, true]);
    assert_eq!(out.columns[1], vec![false, true, false, false, true, false]);
    assert_eq!(out.columns[2], vec![false, false, false, true, false, false]);
    // flag == false, true
    assert_eq!(out.columns[3], vec![true, false, false, true, false, true]);
    assert_eq!(out.columns[4], vec![false, true, true, false, true, false]);
    // small == 2, 1
    assert_eq!(out.columns[5], vec![true, false, true, false, true, false]);
    assert_eq!(out.columns[6], vec![false, true, false, true, false, true]);
    // size > 6, size > 2
    assert_eq!(out.columns[7], vec![false, false, true, false, false, true]);
    assert_eq!(out.columns[8], vec![true, false, true, true, false, true]);
}

#[test]
fn transform_takes_columns_by_name_and_ignores_others() {
    let bin = fitted();
    let other = frame(vec![
        ("extra", ColumnData::Number(vec![0, 0])),
        ("size", ColumnData::Number(vec![6, 7])),
        ("small", ColumnData::Number(vec![3, 1])),
        ("flag", ColumnData::Boolean(vec![true, true])),
        ("colour", words(&["green", "pink"])),
    ]);
    let out = bin.transform(&other).unwrap();
    assert_eq!(out.rows, 2);
    assert_eq!(out.columns.len(), 9);
    assert_eq!(out.columns[2], vec![true, false]);
    assert_eq!(out.columns[0], vec![false, false]);
    assert_eq!(out.columns[5], vec![false, false]);
    assert_eq!(out.columns[7], vec![false, true]);
}

#[test]
fn transform_before_fitting_fails() {
    let (data, _) = mixed();
    assert_eq!(Binarizer::new(0, 2, 2).transform(&data).unwrap_err(), Error::NotFitted);
}

#[test]
fn a_missing_column_is_a_schema_mismatch() {
    let data = frame(vec![("colour", words(&["red"])), ("flag", ColumnData::Boolean(vec![true]))]);
    assert_eq!(fitted().transform(&data).unwrap_err(), Error::SchemaMismatch);
}

#[test]
fn a_column_of_another_kind_is_a_schema_mismatch() {
    let data = frame(vec![
        ("colour", words(&["red"])),
        ("flag", ColumnData::Boolean(vec![true])),
        ("small", ColumnData::Number(vec![1])),
        ("size", words(&["big"])),
    ]);
    assert_eq!(fitted().transform(&data).unwrap_err(), Error::SchemaMismatch);
    let data = frame(vec![
        ("colour", ColumnData::Number(vec![1])),
        ("flag", ColumnData::Boolean(vec![true])),
        ("small", ColumnData::Number(vec![1])),
        ("size", ColumnData::Number(vec![1])),
    ]);
    assert_eq!(fitted().transform(&data).unwrap_err(), Error::SchemaMismatch);
}

#[test]
fn a_column_without_encoding_is_reported() {
    let data = frame(vec![("x", ColumnData::Number(vec![1, 2])), ("when", ColumnData::Opaque(2))]);
    let label = words(&["A", "B"]);
    let mut bin = Binarizer::new(0, 2, 2);
    assert_eq!(bin.generate_cutpoints(&data, &label), Err(Error::ColumnTypeUnsupported));
    assert!(!bin.fitted);
    let data = frame(vec![("x", ColumnData::Number(vec![1, 2]))]);
    assert_eq!(bin.generate_cutpoints(&data, &ColumnData::Opaque(2)), Err(Error::ColumnTypeUnsupported));
    assert!(!bin.fitted);
}

#[test]
fn a_label_column_of_another_length_is_reported_first() {
    let data = frame(vec![("when", ColumnData::Opaque(2))]);
    let mut bin = Binarizer::new(0, 2, 2);
    assert_eq!(bin.generate_cutpoints(&data, &words(&["A"])), Err(Error::RowCountMismatch));
}

#[test]
fn fitting_again_replaces_the_encodings() {
    let mut bin = fitted();
    let data = frame(vec![("only", ColumnData::Boolean(vec![true, false]))]);
    bin.generate_cutpoints(&data, &words(&["A", "B"])).unwrap();
    assert_eq!(bin.get_cutpoints().len(), 1);
}

#[test]
fn a_table_without_rows_can_be_fitted() {
    let data = frame(vec![("x", ColumnData::Number(Vec::new()))]);
    let mut bin = Binarizer::new(0, 0, 2);
    bin.generate_cutpoints(&data, &words(&[])).unwrap();
    let out = bin.transform(&data).unwrap();
    assert_eq!(out.rows, 0);
    assert_eq!(out.columns.len(), 0);
}

#[test]
fn a_column_must_have_as_many_values_as_the_table_has_rows() {
    let mut table = Table::new(2);
    let short = Column { name: "x".to_string(), data: ColumnData::Number(vec![1]) };
    assert_eq!(table.push(short), Err(Error::RowCountMismatch));
    assert_eq!(table.columns.len(), 0);
    let fitting = Column { name: "x".to_string(), data: ColumnData::Number(vec![1, 2]) };
    assert_eq!(table.push(fitting), Ok(()));
    assert_eq!(table.find(&"x".to_string()), Some(0));
    assert_eq!(table.find(&"y".to_string()), None);
}

#[test]
fn the_first_column_of_a_name_is_found() {
    let table = frame(vec![
        ("a", ColumnData::Number(vec![1])),
        ("b", ColumnData::Number(vec![2])),
        ("b", ColumnData::Number(vec![3])),
    ]);
    assert_eq!(table.find(&"b".to_string()), Some(1));
}

#[test]
fn values_of_different_kinds_are_never_equal() {
    let numbers = ColumnData::Number(vec![1, 2, 1]);
    let flags = ColumnData::Boolean(vec![true]);
    assert!(numbers.same(0, &numbers, 2));
    assert!(!numbers.same(0, &numbers, 1));
    assert!(!numbers.same(0, &flags, 0));
    assert_eq!(numbers.kind(), Kind::Number);
    assert_eq!(flags.kind(), Kind::Boolean);
    assert_eq!(words(&[]).kind(), Kind::Text);
    assert_eq!(ColumnData::Opaque(3).len(), 3);
}

#[test]
fn distinct_values_are_found_up_to_a_limit() {
    let column = words(&["b", "a", "b", "c", "a"]);
    let (firsts, codes) = column.encode(3).unwrap();
    assert_eq!(firsts, vec![0, 1, 3]);
    assert_eq!(codes, vec![0, 1, 0, 2, 1]);
    assert!(column.encode(2).is_none());
    match column.gather(&firsts) {
        ColumnData::Text(v) => assert_eq!(v, vec!["b", "a", "c"]),
        other => panic!("expected text, got {:?}", other),
    }
}

#[test]
fn a_table_is_well_formed_when_its_columns_have_its_rows() {
    let good = frame(vec![("a", ColumnData::Number(vec![1, 2])), ("b", words(&["x", "y"]))]);
    assert!(good.is_well_formed());
    let ragged = Table {
        columns: vec![Column { name: "a".to_string(), data: ColumnData::Number(vec![1]) }],
        rows: 2,
    };
    assert!(!ragged.is_well_formed());
    assert!(BinaryTable { columns: vec![vec![true], vec![false]], rows: 1 }.is_well_formed());
    assert!(!BinaryTable { columns: vec![vec![true], vec![]], rows: 1 }.is_well_formed());
    assert!(BinaryTable { columns: Vec::new(), rows: 5 }.is_well_formed());
}

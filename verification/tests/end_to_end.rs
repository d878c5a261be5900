use lad::score::SCORE_UNIT;
use lad::{Binarizer, Column, ColumnData, Cutpoint, Error, FeatureEncoding, Literal, RuleGenerator, Table};

fn text(values: &[&str]) -> ColumnData {
    ColumnData::Text(values.iter().map(|v| v.to_string()).collect())
}

fn table(columns: Vec<(&str, ColumnData)>) -> Table {
    let rows = columns.first().map(|c| c.1.len()).unwrap_or(0);
    let mut table = Table::new(rows);
    for (name, data) in columns {
        table.push(Column { name: name.to_string(), data }).unwrap();
    }
    table
}

fn separable() -> (Table, ColumnData) {
    let data = table(vec![("x", ColumnData::Number(vec![1, 2, 3, 4, 4, 6, 7, 8, 9, 10]))]);
    let label = text(&["A", "A", "A", "A", "A", "B", "B", "B", "B", "B"]);
    (data, label)
}

#[test]
fn perfect_separation_gives_one_cutpoint_with_full_score() {
    let (data, label) = separable();
    let mut bin = Binarizer::new(SCORE_UNIT / 2, 2, 3);
    assert_eq!(bin.generate_cutpoints(&data, &label), Ok(()));
    let encodings = bin.get_cutpoints();
    assert_eq!(encodings.len(), 1);
    match &encodings[0] {
        FeatureEncoding::Threshold { feature, cutpoints } => {
            assert_eq!(feature, "x");
            assert_eq!(cutpoints, &vec![Cutpoint { value: 5, score: SCORE_UNIT }]);
        },
        other => panic!("expected cutpoints, got {:?}", other),
    }
}

#[test]
fn perfect_separation_gives_one_rule_per_class() {
    let (data, label) = separable();
    let mut bin = Binarizer::new(SCORE_UNIT / 2, 2, 3);
    bin.generate_cutpoints(&data, &label).unwrap();
    let mut generator = RuleGenerator::new(&bin, 0);
    assert_eq!(generator.fit(&data, &label), Ok(()));
    let rules = generator.get_rules().unwrap();
    assert_eq!(rules.len(), 2);
    assert_eq!(rules[0].label, 1);
    assert_eq!(rules[0].pattern.literals, vec![Literal { feature: 0, polarity: true }]);
    assert_eq!(rules[1].label, 0);
    assert_eq!(rules[1].pattern.literals, vec![Literal { feature: 0, polarity: false }]);
    match generator.predict(&data).unwrap() {
        ColumnData::Text(predicted) => {
            assert_eq!(predicted, vec!["A", "A", "A", "A", "A", "B", "B", "B", "B", "B"]);
        },
        other => panic!("expected text labels, got {:?}", other),
    }
}

#[test]
fn identical_rows_with_different_labels_fall_back() {
    let data = table(vec![("flag", ColumnData::Boolean(vec![true, true]))]);
    let label = text(&["A", "B"]);
    let mut bin = Binarizer::new(0, 2, 3);
    bin.generate_cutpoints(&data, &label).unwrap();
    let mut generator = RuleGenerator::new(&bin, 0);
    assert_eq!(generator.fit(&data, &label), Ok(()));
    assert_eq!(generator.get_rules().unwrap().len(), 0);
    assert_eq!(generator.fallback_label, 1);
    match generator.predict(&data).unwrap() {
        ColumnData::Text(predicted) => assert_eq!(predicted, vec!["B", "B"]),
        other => panic!("expected text labels, got {:?}", other),
    }
}

#[test]
fn row_count_mismatch_leaves_fitted_state_unchanged() {
    let (data, label) = separable();
    let mut bin = Binarizer::new(SCORE_UNIT / 2, 2, 3);
    bin.generate_cutpoints(&data, &label).unwrap();
    let before = format!("{:?}", bin.get_cutpoints());

    let wide = table(vec![("x", ColumnData::Number((0..100).collect()))]);
    let short = ColumnData::Number((0..99).collect());
    assert_eq!(bin.generate_cutpoints(&wide, &short), Err(Error::RowCountMismatch));
    assert!(bin.fitted);
    assert_eq!(format!("{:?}", bin.get_cutpoints()), before);

    let mut generator = RuleGenerator::new(&bin, 0);
    generator.fit(&data, &label).unwrap();
    let rules = format!("{:?}", generator.get_rules().unwrap());
    assert_eq!(generator.fit(&wide, &short), Err(Error::RowCountMismatch));
    assert_eq!(format!("{:?}", generator.get_rules().unwrap()), rules);
}

#[test]
fn only_the_best_cutpoint_is_kept() {
    let found = vec![
        Cutpoint { value: 10, score: SCORE_UNIT / 10 * 7 },
        Cutpoint { value: 20, score: SCORE_UNIT / 10 * 9 },
        Cutpoint { value: 30, score: SCORE_UNIT / 10 * 5 },
    ];
    let kept = lad::cutpoints::select(&found, 1);
    assert_eq!(kept, vec![Cutpoint { value: 20, score: SCORE_UNIT / 10 * 9 }]);
}

#[test]
fn rows_that_differ_are_all_classified_exactly() {
    let data = table(vec![
        ("colour", text(&["red", "blue", "red", "green", "blue", "red", "green", "blue"])),
        ("flag", ColumnData::Boolean(vec![false, true, true, false, true, false, true, false])),
        ("size", ColumnData::Number(vec![5, 1, 9, 3, 2, 8, 7, 4])),
    ]);
    let names = ["A", "A", "B", "C", "A", "B", "C", "B"];
    let label = text(&names);
    let mut bin = Binarizer::new(0, 2, 4);
    bin.generate_cutpoints(&data, &label).unwrap();
    let mut generator = RuleGenerator::new(&bin, 0);
    generator.fit(&data, &label).unwrap();
    let rules = generator.get_rules().unwrap();
    assert!(!rules.is_empty());
    assert!(rules.windows(2).all(|w| w[0].pattern.degree() <= w[1].pattern.degree()));
    match generator.predict(&data).unwrap() {
        ColumnData::Text(predicted) => assert_eq!(predicted, names),
        other => panic!("expected text labels, got {:?}", other),
    }
}

use lad::{Binarizer, Column, ColumnData, Error, Literal, RuleGenerator, Table};

fn names(values: &[&str]) -> ColumnData {
    ColumnData::Text(values.iter().map(|v| v.to_string()).collect())
}

fn flags(columns: Vec<(&str, Vec<bool>)>) -> Table {
    let rows = columns.first().map(|c| c.1.len()).unwrap_or(0);
    let mut table = Table::new(rows);
    for (name, data) in columns {
        table.push(Column { name: name.to_string(), data: ColumnData::Boolean(data) }).unwrap();
    }
    table
}

fn exclusive_or() -> (Table, ColumnData) {
    let data = flags(vec![("a", vec![true, true, false, false]), ("b", vec![true, false, true, false])]);
    (data, names(&["same", "other", "other", "same"]))
}

fn fit(data: &Table, label: &ColumnData, max: usize) -> RuleGenerator {
    let mut bin = Binarizer::new(0, 2, 2);
    bin.generate_cutpoints(data, label).unwrap();
    let mut generator = RuleGenerator::new(&bin, max);
    generator.fit(data, label).unwrap();
    generator
}

fn text_of(column: ColumnData) -> Vec<String> {
    match column {
        ColumnData::Text(v) => v,
        other => panic!("expected text, got {:?}", other),
    }
}

#[test]
fn a_new_generator_has_no_rules() {
    let generator = RuleGenerator::new(&Binarizer::new(0, 2, 2), 3);
    assert!(!generator.fitted);
    assert_eq!(generator.max, 3);
    assert_eq!(generator.get_rules().unwrap_err(), Error::NotFitted);
    let (data, _) = exclusive_or();
    assert_eq!(generator.predict(&data).unwrap_err(), Error::NotFitted);
}

#[test]
fn the_binarizer_must_be_fitted_first() {
    let (data, label) = exclusive_or();
    let mut generator = RuleGenerator::new(&Binarizer::new(0, 2, 2), 0);
    assert_eq!(generator.fit(&data, &label), Err(Error::NotFitted));
    assert!(!generator.fitted);
}

#[test]
fn the_generator_keeps_its_own_copy_of_the_binarizer() {
    let (data, label) = exclusive_or();
    let mut bin = Binarizer::new(0, 2, 2);
    bin.generate_cutpoints(&data, &label).unwrap();
    let mut generator = RuleGenerator::new(&bin, 0);
    bin.generate_cutpoints(&flags(vec![("z", vec![true])]), &names(&["x"])).unwrap();
    assert_eq!(generator.fit(&data, &label), Ok(()));
}

#[test]
fn rules_of_two_literals_are_found_at_the_second_degree() {
    let (data, label) = exclusive_or();
    let generator = fit(&data, &label, 0);
    let rules = generator.get_rules().unwrap();
    assert!(!rules.is_empty());
    assert!(rules.iter().all(|rule| rule.pattern.degree() == 2));
    // features: a = true, a = false, b = true, b = false
    assert_eq!(rules[0].label, 0);
    assert_eq!(
        rules[0].pattern.literals,
        vec![Literal { feature: 0, polarity: true }, Literal { feature: 2, polarity: true }]
    );
    assert_eq!(text_of(generator.predict(&data).unwrap()), vec!["same", "other", "other", "same"]);
}

#[test]
fn rules_stand_by_ascending_degree() {
    let data = flags(vec![
        ("a", vec![true, true, false, false, true]),
        ("b", vec![true, false, true, false, true]),
        ("c", vec![false, false, false, false, true]),
    ]);
    let label = names(&["same", "other", "other", "same", "third"]);
    let generator = fit(&data, &label, 0);
    let rules = generator.get_rules().unwrap();
    assert_eq!(rules[0].pattern.degree(), 1);
    assert!(rules.windows(2).all(|w| w[0].pattern.degree() <= w[1].pattern.degree()));
    assert!(rules.iter().any(|rule| rule.pattern.degree() == 2));
    assert_eq!(
        text_of(generator.predict(&data).unwrap()),
        vec!["same", "other", "other", "same", "third"]
    );
}

#[test]
fn the_search_stops_at_the_highest_degree() {
    let (data, label) = exclusive_or();
    let generator = fit(&data, &label, 1);
    assert_eq!(generator.get_rules().unwrap().len(), 0);
    // both classes keep two rows: the later one is the fallback
    assert_eq!(generator.fallback_label, 1);
    assert_eq!(text_of(generator.predict(&data).unwrap()), vec!["other"; 4]);
}

#[test]
fn a_degree_above_the_number_of_features_is_cut_down() {
    let (data, label) = exclusive_or();
    let wide = fit(&data, &label, 100);
    let all = fit(&data, &label, 0);
    assert_eq!(format!("{:?}", wide.get_rules().unwrap()), format!("{:?}", all.get_rules().unwrap()));
}

#[test]
fn the_fallback_is_the_largest_class_left() {
    let data = flags(vec![("a", vec![true, true, true, false])]);
    let label = names(&["x", "y", "x", "y"]);
    let generator = fit(&data, &label, 0);
    let rules = generator.get_rules().unwrap();
    // a = true is false only in the last row, which is of class y
    assert_eq!(rules.len(), 1);
    assert_eq!(rules[0].label, 1);
    assert_eq!(rules[0].pattern.literals, vec![Literal { feature: 0, polarity: false }]);
    assert_eq!(generator.fallback_label, 0);
    assert_eq!(text_of(generator.predict(&data).unwrap()), vec!["x", "x", "x", "y"]);
}

#[test]
fn the_fallback_stays_when_every_row_is_claimed() {
    let data = flags(vec![("a", vec![true, false, false])]);
    let label = names(&["x", "y", "y"]);
    let generator = fit(&data, &label, 0);
    assert_eq!(generator.get_rules().unwrap().len(), 2);
    assert_eq!(generator.fallback_label, 1);
}

#[test]
fn the_first_matching_rule_decides() {
    let (data, label) = exclusive_or();
    let generator = fit(&data, &label, 0);
    let unseen = flags(vec![("a", vec![false, true]), ("b", vec![false, true])]);
    assert_eq!(text_of(generator.predict(&unseen).unwrap()), vec!["same", "same"]);
}

#[test]
fn predicting_twice_gives_the_same_labels() {
    let (data, label) = exclusive_or();
    let generator = fit(&data, &label, 0);
    let first = text_of(generator.predict(&data).unwrap());
    let second = text_of(generator.predict(&data).unwrap());
    assert_eq!(first, second);
}

#[test]
fn labels_may_be_numbers_or_booleans() {
    let data = flags(vec![("a", vec![true, false])]);
    let generator = fit(&data, &ColumnData::Number(vec![7, 9]), 0);
    match generator.predict(&data).unwrap() {
        ColumnData::Number(v) => assert_eq!(v, vec![7, 9]),
        other => panic!("expected numbers, got {:?}", other),
    }
    let generator = fit(&data, &ColumnData::Boolean(vec![false, true]), 0);
    match generator.predict(&data).unwrap() {
        ColumnData::Boolean(v) => assert_eq!(v, vec![false, true]),
        other => panic!("expected booleans, got {:?}", other),
    }
}

#[test]
fn a_model_of_no_rows_predicts_unknown_values() {
    let data = flags(vec![("a", Vec::new())]);
    let generator = fit(&data, &names(&[]), 0);
    assert_eq!(generator.get_rules().unwrap().len(), 0);
    let other = flags(vec![("a", vec![true, false])]);
    match generator.predict(&other).unwrap() {
        ColumnData::Opaque(rows) => assert_eq!(rows, 2),
        other => panic!("expected unknown values, got {:?}", other),
    }
}

#[test]
fn predict_reports_a_missing_column() {
    let (data, label) = exclusive_or();
    let generator = fit(&data, &label, 0);
    let other = flags(vec![("a", vec![true])]);
    assert_eq!(generator.predict(&other).unwrap_err(), Error::SchemaMismatch);
}

#[test]
fn fit_reports_labels_without_encoding_and_missing_columns() {
    let (data, label) = exclusive_or();
    let mut bin = Binarizer::new(0, 2, 2);
    bin.generate_cutpoints(&data, &label).unwrap();
    let mut generator = RuleGenerator::new(&bin, 0);
    assert_eq!(generator.fit(&data, &ColumnData::Opaque(4)), Err(Error::ColumnTypeUnsupported));
    let other = flags(vec![("a", vec![true, true, false, false])]);
    assert_eq!(generator.fit(&other, &label), Err(Error::SchemaMismatch));
    assert_eq!(generator.fit(&data, &names(&["same"])), Err(Error::RowCountMismatch));
    assert!(!generator.fitted);
}

#[test]
fn rows_are_divided_by_class() {
    let generator = RuleGenerator::new(&Binarizer::new(0, 2, 2), 0);
    assert_eq!(
        generator.divide_data(&vec![1, 0, 1, 2, 0], 3),
        vec![vec![1, 4], vec![0, 2], vec![3]]
    );
    assert_eq!(generator.divide_data(&Vec::new(), 2), vec![Vec::<usize>::new(), Vec::new()]);
}

#[test]
fn a_fitted_generator_is_well_formed() {
    let (data, label) = exclusive_or();
    let mut generator = fit(&data, &label, 0);
    assert!(generator.is_well_formed());
    assert!(RuleGenerator::new(&Binarizer::new(0, 2, 2), 0).is_well_formed());
    generator.fallback_label = 2;
    assert!(!generator.is_well_formed());
    generator.fallback_label = 0;
    generator.rules[0].label = 5;
    assert!(!generator.is_well_formed());
    generator.rules[0].label = 0;
    generator.rules[0].pattern.literals[1].feature = 4;
    assert!(!generator.is_well_formed());
    generator.rules[0].pattern.literals[1].feature = 0;
    assert!(!generator.is_well_formed());
    generator.rules[0].pattern.literals[1].feature = 3;
    assert!(generator.is_well_formed());
}

use lad::search::{count_covered, has_subpatterns_in, is_among, keep_uncovered, Search};
use lad::{BinaryTable, Binarizer, Error, Literal, Pattern, RuleGenerator};

fn lit(feature: usize, polarity: bool) -> Literal {
    Literal { feature, polarity }
}

fn pattern(literals: &[Literal]) -> Pattern {
    let mut p = Pattern::new();
    for l in literals {
        p = p.extend(*l).unwrap();
    }
    p
}

fn grid() -> BinaryTable {
    BinaryTable {
        columns: vec![vec![true, true, false, false], vec![true, false, true, false]],
        rows: 4,
    }
}

fn generator() -> RuleGenerator {
    RuleGenerator::new(&Binarizer::new(0, 2, 2), 0)
}

#[test]
fn literals_are_kept_by_feature() {
    let p = pattern(&[lit(3, true), lit(1, false), lit(2, true)]);
    assert_eq!(p.literals, vec![lit(1, false), lit(2, true), lit(3, true)]);
    assert_eq!(p.degree(), 3);
}

#[test]
fn the_order_of_insertion_does_not_matter() {
    let p = pattern(&[lit(3, true), lit(1, false)]);
    let q = pattern(&[lit(1, false), lit(3, true)]);
    assert!(p.same(&q));
    assert!(!p.same(&pattern(&[lit(1, true), lit(3, true)])));
    assert!(!p.same(&pattern(&[lit(1, false)])));
}

#[test]
fn a_feature_is_tested_at_most_once() {
    let p = pattern(&[lit(1, false)]);
    assert!(p.extend(lit(1, false)).is_none());
    assert!(p.extend(lit(1, true)).is_none());
    assert!(p.extend(lit(0, true)).is_some());
}

#[test]
fn a_literal_can_be_taken_out() {
    let p = pattern(&[lit(1, false), lit(2, true), lit(3, true)]);
    assert_eq!(p.without(1).literals, vec![lit(1, false), lit(3, true)]);
    assert_eq!(p.without(0).literals, vec![lit(2, true), lit(3, true)]);
}

#[test]
fn the_empty_pattern_covers_every_row() {
    let mask = generator().coverage(&grid(), &Pattern::new()).unwrap();
    assert_eq!(mask, vec![true, true, true, true]);
    let none = BinaryTable { columns: Vec::new(), rows: 3 };
    assert_eq!(generator().coverage(&none, &Pattern::new()).unwrap(), vec![true, true, true]);
}

#[test]
fn a_mask_has_one_entry_per_row() {
    let table = grid();
    for p in [pattern(&[lit(0, true)]), pattern(&[lit(0, false), lit(1, true)]), Pattern::new()] {
        assert_eq!(generator().coverage(&table, &p).unwrap().len(), table.rows);
    }
}

#[test]
fn a_mask_is_true_where_every_literal_holds() {
    let table = grid();
    assert_eq!(generator().coverage(&table, &pattern(&[lit(0, true)])).unwrap(), vec![true, true, false, false]);
    assert_eq!(generator().coverage(&table, &pattern(&[lit(1, false)])).unwrap(), vec![false, true, false, true]);
    assert_eq!(
        generator().coverage(&table, &pattern(&[lit(0, false), lit(1, true)])).unwrap(),
        vec![false, false, true, false]
    );
}

#[test]
fn a_pattern_on_a_missing_feature_is_a_schema_mismatch() {
    assert_eq!(generator().coverage(&grid(), &pattern(&[lit(2, true)])), Err(Error::SchemaMismatch));
}

#[test]
fn covered_rows_are_counted_and_the_others_kept() {
    let table = grid();
    let p = pattern(&[lit(1, true)]);
    assert_eq!(count_covered(&table, &vec![0, 1, 2, 3], &p), 2);
    assert_eq!(count_covered(&table, &vec![1, 3], &p), 0);
    assert_eq!(keep_uncovered(&table, &vec![0, 1, 2, 3], &p), vec![1, 3]);
    assert_eq!(keep_uncovered(&table, &vec![2], &p), Vec::<usize>::new());
}

#[test]
fn subpatterns_are_looked_up_among_the_patterns_before() {
    let prev = vec![pattern(&[lit(0, true)]), pattern(&[lit(1, false)])];
    assert!(is_among(&prev, &pattern(&[lit(1, false)])));
    assert!(!is_among(&prev, &pattern(&[lit(1, true)])));
    assert!(has_subpatterns_in(&prev, &pattern(&[lit(0, true), lit(1, false)])));
    assert!(!has_subpatterns_in(&prev, &pattern(&[lit(0, true), lit(1, true)])));
    assert!(has_subpatterns_in(&prev, &Pattern::new()));
    assert!(has_subpatterns_in(&vec![Pattern::new()], &pattern(&[lit(5, true)])));
}

#[test]
fn a_pattern_of_one_class_becomes_a_rule_and_claims_its_rows() {
    let table = grid();
    let mut search = Search::new(vec![vec![0, 1], vec![2, 3]]);
    search.evaluate(&table, pattern(&[lit(0, true)]));
    assert_eq!(search.rules.len(), 1);
    assert_eq!(search.rules[0].label, 0);
    assert_eq!(search.rules[0].pattern.literals, vec![lit(0, true)]);
    assert_eq!(search.partitions, vec![vec![], vec![2, 3]]);
    assert_eq!(search.frontier.len(), 1);
}

#[test]
fn a_pattern_of_two_classes_is_kept_for_the_next_degree() {
    let table = grid();
    let mut search = Search::new(vec![vec![0, 3], vec![1, 2]]);
    search.evaluate(&table, pattern(&[lit(0, true)]));
    assert_eq!(search.rules.len(), 0);
    assert_eq!(search.partitions, vec![vec![0, 3], vec![1, 2]]);
    assert_eq!(search.frontier.len(), 2);
    assert_eq!(search.frontier[1].literals, vec![lit(0, true)]);
}

#[test]
fn a_pattern_that_covers_nothing_is_dropped() {
    let table = grid();
    let mut search = Search::new(vec![vec![2], vec![3]]);
    search.evaluate(&table, pattern(&[lit(0, true)]));
    assert_eq!(search.rules.len(), 0);
    assert_eq!(search.partitions, vec![vec![2], vec![3]]);
    assert_eq!(search.frontier.len(), 1);
}

#[test]
fn a_candidate_without_its_subpatterns_is_not_evaluated() {
    let table = grid();
    let prev = vec![pattern(&[lit(0, true)])];
    let mut search = Search::new(vec![vec![0], vec![1, 2, 3]]);
    // {0: true, 1: true} would isolate row 0, but {1: true} was not kept
    search.try_literal(&table, &prev, &prev[0], lit(1, true));
    assert_eq!(search.rules.len(), 0);
    assert_eq!(search.partitions, vec![vec![0], vec![1, 2, 3]]);
    let prev = vec![pattern(&[lit(0, true)]), pattern(&[lit(1, true)])];
    search.try_literal(&table, &prev, &prev[0], lit(1, true));
    assert_eq!(search.rules.len(), 1);
    assert_eq!(search.partitions, vec![vec![], vec![1, 2, 3]]);
}

#[test]
fn no_row_is_lost_during_a_degree() {
    let table = grid();
    let start = vec![vec![0, 3], vec![1], vec![2]];
    let mut search = Search::new(start.clone());
    let prev = vec![Pattern::new()];
    search.frontier = Vec::new();
    search.extend_all(&table, &prev);
    for (class, rows) in start.iter().enumerate() {
        let claimed: usize = search
            .rules
            .iter()
            .filter(|rule| rule.label == class)
            .map(|rule| count_covered(&table, rows, &rule.pattern))
            .sum();
        assert_eq!(search.partitions[class].len() + claimed, rows.len());
        assert!(search.partitions[class].iter().all(|r| rows.contains(r)));
    }
    assert!(search.rules.iter().all(|rule| rule.pattern.degree() == 1));
    assert!(search.frontier.iter().all(|p| p.degree() == 1));
}

use lad::cutpoints::{midpoint_of, scan, select};
use lad::score::{RATE_UNIT, SCORE_UNIT};
use lad::{Binarizer, Cutpoint, Error};

#[test]
fn units_agree() {
    assert_eq!(RATE_UNIT * RATE_UNIT, SCORE_UNIT);
}

#[test]
fn full_separation_scores_one() {
    assert_eq!(Binarizer::score(&vec![5, 0], &vec![5, 5]), Ok(SCORE_UNIT));
}

#[test]
fn equal_rates_score_zero() {
    assert_eq!(Binarizer::score(&vec![1, 2, 4], &vec![2, 4, 8]), Ok(0));
}

#[test]
fn score_is_the_mean_over_the_pairs() {
    // rates 1/2, 1/2 and 0: squared differences 0, 1/4 and 1/4, mean 1/6
    assert_eq!(Binarizer::score(&vec![1, 2, 0], &vec![2, 4, 4]), Ok(166_666_666_666_666_666));
}

#[test]
fn rates_are_rounded_down() {
    // rates 1/3 and 0: 333333333 billionths, squared
    assert_eq!(Binarizer::score(&vec![1, 0], &vec![3, 7]), Ok(333_333_333 * 333_333_333));
}

#[test]
fn score_needs_two_classes() {
    assert_eq!(Binarizer::score(&vec![1], &vec![4]), Err(Error::InsufficientClasses));
    assert_eq!(Binarizer::score(&Vec::new(), &Vec::new()), Err(Error::InsufficientClasses));
}

#[test]
fn midpoint_is_rounded_down() {
    assert_eq!(midpoint_of(4, 6), 5);
    assert_eq!(midpoint_of(4, 5), 4);
    assert_eq!(midpoint_of(-3, -2), -3);
    assert_eq!(midpoint_of(-1, 0), -1);
    assert_eq!(midpoint_of(i64::MIN, i64::MAX), -1);
    assert_eq!(midpoint_of(i64::MAX - 1, i64::MAX), i64::MAX - 1);
}

#[test]
fn scan_finds_boundaries_in_sorted_order() {
    // sorted: 1(A) 2(A) 3(B) 5(A) 8(B) 9(B)
    let values = vec![5, 1, 9, 3, 2, 8];
    let codes = vec![0, 0, 1, 1, 0, 1];
    let found = scan(&values, &codes, 2, 0);
    assert_eq!(
        found,
        vec![
            // two of three A seen, no B
            Cutpoint { value: 2, score: 666_666_666 * 666_666_666 },
            // two of three A, one of three B
            Cutpoint { value: 4, score: 333_333_333 * 333_333_333 },
            // all A, one of three B
            Cutpoint { value: 6, score: 666_666_667 * 666_666_667 },
        ]
    );
}

#[test]
fn scan_drops_scores_below_the_threshold() {
    let values = vec![5, 1, 9, 3, 2, 8];
    let codes = vec![0, 0, 1, 1, 0, 1];
    let found = scan(&values, &codes, 2, 400_000_000_000_000_000);
    assert_eq!(
        found,
        vec![
            Cutpoint { value: 2, score: 666_666_666 * 666_666_666 },
            Cutpoint { value: 6, score: 666_666_667 * 666_666_667 },
        ]
    );
}

#[test]
fn scan_keeps_a_score_equal_to_the_threshold() {
    let values = vec![1, 2];
    let codes = vec![0, 1];
    assert_eq!(scan(&values, &codes, 2, SCORE_UNIT), vec![Cutpoint { value: 1, score: SCORE_UNIT }]);
}

#[test]
fn equal_values_of_different_classes_are_no_boundary() {
    let values = vec![7, 7, 7];
    let codes = vec![0, 1, 0];
    assert_eq!(scan(&values, &codes, 2, 0), Vec::new());
}

#[test]
fn one_class_has_no_boundary() {
    assert_eq!(scan(&vec![1, 2, 3], &vec![0, 0, 0], 1, 0), Vec::new());
    assert_eq!(scan(&Vec::new(), &Vec::new(), 0, 0), Vec::new());
}

#[test]
fn candidates_are_ranked_by_descending_score() {
    let found = vec![
        Cutpoint { value: 1, score: 500 },
        Cutpoint { value: 2, score: 900 },
        Cutpoint { value: 3, score: 700 },
    ];
    assert_eq!(
        select(&found, 3),
        vec![
            Cutpoint { value: 2, score: 900 },
            Cutpoint { value: 3, score: 700 },
            Cutpoint { value: 1, score: 500 },
        ]
    );
    assert_eq!(select(&found, 10).len(), 3);
    assert_eq!(select(&found, 0), Vec::new());
}

#[test]
fn of_equal_scores_the_later_candidate_comes_first() {
    let found = vec![
        Cutpoint { value: 1, score: 500 },
        Cutpoint { value: 2, score: 900 },
        Cutpoint { value: 3, score: 500 },
    ];
    assert_eq!(
        select(&found, 2),
        vec![Cutpoint { value: 2, score: 900 }, Cutpoint { value: 3, score: 500 }]
    );
}

#[test]
fn no_kept_candidate_scores_below_a_dropped_one() {
    let found = vec![
        Cutpoint { value: 1, score: 300 },
        Cutpoint { value: 2, score: 900 },
        Cutpoint { value: 3, score: 300 },
        Cutpoint { value: 4, score: 700 },
        Cutpoint { value: 5, score: 0 },
    ];
    for limit in 0..7 {
        let kept = select(&found, limit);
        assert_eq!(kept.len(), limit.min(found.len()));
        assert!(kept.iter().all(|c| found.contains(c)));
        let lowest = kept.iter().map(|c| c.score).min().unwrap_or(u64::MAX);
        let dropped: Vec<&Cutpoint> = found.iter().filter(|c| !kept.contains(c)).collect();
        assert!(dropped.iter().all(|c| c.score <= lowest));
    }
}

//! The separation score of a point of a scan, in fixed-point arithmetic.

use vstd::prelude::*;

use crate::binarize::Binarizer;
use crate::error::Error;
use crate::order::MAX_ROWS;

verus! {

/// Rates are fractions in units of one billionth.
pub const RATE_UNIT: u64 = 1_000_000_000;

/// Scores are fractions in units of `1 / (RATE_UNIT * RATE_UNIT)`: this is
/// the score of a perfect separation.
pub const SCORE_UNIT: u64 = 1_000_000_000_000_000_000;

/// The fraction `running / total` of a class's rows seen so far, rounded down
/// to a multiple of `1 / RATE_UNIT`.
pub open spec fn rate(running: int, total: int) -> int {
    running * RATE_UNIT / total
}

/// The rate of every class.
pub open spec fn rates(running: Seq<u64>, total: Seq<u64>) -> Seq<int> {
    Seq::new(total.len(), |c: int| rate(running[c] as int, total[c] as int))
}

/// The squared difference of the rates of the classes `i` and `j`.
pub open spec fn gap(rates: Seq<int>, i: int, j: int) -> int {
    (rates[i] - rates[j]) * (rates[i] - rates[j])
}

/// The sum of the gaps between class `j` and the classes before `i`.
pub open spec fn gaps_to(rates: Seq<int>, j: int, i: int) -> int
    decreases i,
{
    if i <= 0 {
        0
    } else {
        gaps_to(rates, j, i - 1) + gap(rates, i - 1, j)
    }
}

/// The sum of the gaps over all pairs of classes before `m`.
pub open spec fn pair_gaps(rates: Seq<int>, m: int) -> int
    decreases m,
{
    if m <= 0 {
        0
    } else {
        pair_gaps(rates, m - 1) + gaps_to(rates, m - 1, m - 1)
    }
}

/// The number of unordered pairs among `n` classes.
pub open spec fn pair_count(n: int) -> int {
    n * (n - 1) / 2
}

/// The separation score: the mean, over all pairs of classes, of the squared
/// difference of their rates, `2 / (L * (L - 1))` times the sum over the
/// pairs, in units of `1 / SCORE_UNIT` and rounded down.
pub open spec fn separation(running: Seq<u64>, total: Seq<u64>) -> int {
    pair_gaps(rates(running, total), total.len() as int) / pair_count(total.len() as int)
}

/// What the counts handed to a score must satisfy: one count per class,
/// every class has rows, and no more of them were seen than there are.
pub open spec fn counts_fit(running: Seq<u64>, total: Seq<u64>) -> bool {
    &&& running.len() == total.len()
    &&& total.len() <= MAX_ROWS
    &&& forall|c: int| 0 <= c < total.len() ==> 0 < #[trigger] total[c] && running[c] <= total[c]
}

proof fn lemma_rate_bounds(running: int, total: int)
    requires
        0 <= running <= total,
        0 < total,
    ensures
        0 <= rate(running, total) <= RATE_UNIT,
{
    assert(0 <= running * 1_000_000_000 / total <= 1_000_000_000) by (nonlinear_arith)
        requires
            0 <= running <= total,
            0 < total,
    ;
}

proof fn lemma_gap_bounds(rates: Seq<int>, i: int, j: int)
    requires
        0 <= rates[i] <= RATE_UNIT,
        0 <= rates[j] <= RATE_UNIT,
    ensures
        0 <= gap(rates, i, j) <= SCORE_UNIT,
{
    let d = rates[i] - rates[j];
    assert(0 <= d * d <= 1_000_000_000_000_000_000) by (nonlinear_arith)
        requires
            -1_000_000_000 <= d <= 1_000_000_000,
    ;
}

proof fn lemma_pair_count_step(n: int)
    requires
        1 <= n,
    ensures
        pair_count(n) == pair_count(n - 1) + n - 1,
        0 <= pair_count(n - 1),
{
    assert(n * (n - 1) == (n - 1) * (n - 2) + 2 * (n - 1)) by (nonlinear_arith);
    assert(0 <= (n - 1) * (n - 2)) by (nonlinear_arith)
        requires
            1 <= n,
    ;
}

proof fn lemma_gaps_to_bounds(rates: Seq<int>, j: int, i: int)
    requires
        0 <= i <= j < rates.len(),
        forall|c: int| 0 <= c < rates.len() ==> 0 <= #[trigger] rates[c] <= RATE_UNIT,
    ensures
        0 <= gaps_to(rates, j, i) <= i * SCORE_UNIT,
    decreases i,
{
    if i > 0 {
        lemma_gaps_to_bounds(rates, j, i - 1);
        lemma_gap_bounds(rates, i - 1, j);
    }
}

proof fn lemma_pair_gaps_bounds(rates: Seq<int>, m: int)
    requires
        0 <= m <= rates.len(),
        forall|c: int| 0 <= c < rates.len() ==> 0 <= #[trigger] rates[c] <= RATE_UNIT,
    ensures
        0 <= pair_gaps(rates, m) <= pair_count(m) * SCORE_UNIT,
    decreases m,
{
    if m > 0 {
        lemma_pair_gaps_bounds(rates, m - 1);
        lemma_gaps_to_bounds(rates, m - 1, m - 1);
        lemma_pair_count_step(m);
    }
}

/// A score lies between zero and one.
pub proof fn lemma_separation_bounds(running: Seq<u64>, total: Seq<u64>)
    requires
        running.len() == total.len(),
        total.len() >= 2,
        forall|c: int| 0 <= c < total.len() ==> 0 < #[trigger] total[c] && running[c] <= total[c],
    ensures
        0 <= separation(running, total) <= SCORE_UNIT,
{
    let model = rates(running, total);
    let classes = total.len() as int;
    assert forall|c: int| 0 <= c < model.len() implies 0 <= #[trigger] model[c] <= RATE_UNIT by {
        assert(0 < total[c] && running[c] <= total[c]);
        lemma_rate_bounds(running[c] as int, total[c] as int);
    }
    lemma_pair_gaps_bounds(model, classes);
    lemma_pair_count_step(classes);
    lemma_pair_count_step(classes - 1);
    let sum = pair_gaps(model, classes);
    let pairs = pair_count(classes);
    assert(0 <= sum / pairs <= SCORE_UNIT) by (nonlinear_arith)
        requires
            0 <= sum <= pairs * SCORE_UNIT,
            1 <= pairs,
    ;
}

/// A rate is the exact fraction `running / total`, in units of
/// `1 / RATE_UNIT`, rounded down.
pub proof fn lemma_rate_rounds_down(running: int, total: int)
    requires
        0 <= running,
        0 < total,
    ensures
        rate(running, total) * total <= running * RATE_UNIT < (rate(running, total) + 1) * total,
{
    let scaled = running * 1_000_000_000;
    assert(scaled == total * (scaled / total) + scaled % total && 0 <= scaled % total < total) by (nonlinear_arith)
        requires
            0 < total,
    ;
    assert((scaled / total) * total == total * (scaled / total)) by (nonlinear_arith);
    assert((scaled / total + 1) * total == total * (scaled / total) + total) by (nonlinear_arith);
}

/// A score is the exact mean of the gaps over the pairs of classes, rounded
/// down.
pub proof fn lemma_score_rounds_down(running: Seq<u64>, total: Seq<u64>)
    requires
        total.len() >= 2,
    ensures
        separation(running, total) * pair_count(total.len() as int) <= pair_gaps(
            rates(running, total),
            total.len() as int,
        ) < (separation(running, total) + 1) * pair_count(total.len() as int),
{
    let sum = pair_gaps(rates(running, total), total.len() as int);
    let pairs = pair_count(total.len() as int);
    lemma_pair_count_step(total.len() as int);
    lemma_pair_count_step(total.len() as int - 1);
    assert(sum == pairs * (sum / pairs) + sum % pairs && 0 <= sum % pairs < pairs) by (nonlinear_arith)
        requires
            0 < pairs,
    ;
    assert((sum / pairs) * pairs == pairs * (sum / pairs)) by (nonlinear_arith);
    assert((sum / pairs + 1) * pairs == pairs * (sum / pairs) + pairs) by (nonlinear_arith);
}

proof fn lemma_no_gaps(rates: Seq<int>, m: int)
    requires
        0 <= m <= rates.len(),
        forall|c: int| 0 <= c < rates.len() ==> #[trigger] rates[c] == rates[0],
    ensures
        pair_gaps(rates, m) == 0,
    decreases m,
{
    if m > 0 {
        lemma_no_gaps(rates, m - 1);
        lemma_no_gaps_to(rates, m - 1, m - 1);
    }
}

proof fn lemma_no_gaps_to(rates: Seq<int>, j: int, i: int)
    requires
        0 <= i <= j < rates.len(),
        forall|c: int| 0 <= c < rates.len() ==> #[trigger] rates[c] == rates[0],
    ensures
        gaps_to(rates, j, i) == 0,
    decreases i,
{
    if i > 0 {
        lemma_no_gaps_to(rates, j, i - 1);
        assert(rates[i - 1] == rates[0] && rates[j] == rates[0]);
        assert(gap(rates, i - 1, j) == 0);
    }
}

/// Where every class has been seen in the same proportion, the score is
/// zero.
pub proof fn lemma_equal_rates_score_zero(running: Seq<u64>, total: Seq<u64>)
    requires
        total.len() >= 2,
        forall|c: int| 0 <= c < total.len() ==> #[trigger] rates(running, total)[c] == rates(running, total)[0],
    ensures
        separation(running, total) == 0,
{
    lemma_no_gaps(rates(running, total), total.len() as int);
    lemma_pair_count_step(total.len() as int);
    lemma_pair_count_step(total.len() as int - 1);
    let pairs = pair_count(total.len() as int);
    assert(0int / pairs == 0) by (nonlinear_arith)
        requires
            0 < pairs,
    ;
}

impl Binarizer {
    /// The separation score of a point of a scan at which `running[c]` of the
    /// `total[c]` rows of each class `c` have been seen. It is not defined for
    /// fewer than two classes.
    pub fn score(running: &Vec<u64>, total: &Vec<u64>) -> (result: Result<u64, Error>)
        requires
            counts_fit(running@, total@),
        ensures
            total@.len() < 2 <==> result == Err::<u64, Error>(Error::InsufficientClasses),
            total@.len() >= 2 ==> result is Ok,
            result matches Ok(value) ==> value == separation(running@, total@) && value <= SCORE_UNIT,
    {
        let classes = total.len();
        if classes < 2 {
            return Err(Error::InsufficientClasses);
        }
        let ghost model = rates(running@, total@);
        let mut scaled: Vec<u64> = Vec::new();
        for c in 0..classes
            invariant
                classes == total@.len(),
                counts_fit(running@, total@),
                model == rates(running@, total@),
                scaled@.len() == c,
                forall|k: int| 0 <= k < c ==> scaled@[k] == model[k] && model[k] <= RATE_UNIT,
        {
            proof {
                lemma_rate_bounds(running@[c as int] as int, total@[c as int] as int);
            }
            let seen = running[c] as u128 * (RATE_UNIT as u128) / (total[c] as u128);
            scaled.push(seen as u64);
        }
        let mut sum: u128 = 0;
        for j in 0..classes
            invariant
                classes == total@.len(),
                2 <= classes <= MAX_ROWS,
                model.len() == classes,
                scaled@.len() == classes,
                forall|k: int| 0 <= k < classes ==> scaled@[k] == model[k] && 0 <= #[trigger] model[k] <= RATE_UNIT,
                sum == pair_gaps(model, j as int),
        {
            proof {
                lemma_pair_gaps_bounds(model, j as int);
                lemma_pair_gaps_bounds(model, j + 1);
                lemma_pair_count_bound(j as int);
            }
            for i in 0..j
                invariant
                    j < classes == total@.len(),
                    2 <= classes <= MAX_ROWS,
                    model.len() == classes,
                    scaled@.len() == classes,
                    forall|k: int| 0 <= k < classes ==> scaled@[k] == model[k] && 0 <= #[trigger] model[k] <= RATE_UNIT,
                    sum == pair_gaps(model, j as int) + gaps_to(model, j as int, i as int),
                    pair_gaps(model, j as int) <= pair_count(j as int) * SCORE_UNIT,
                    pair_count(j as int) <= 0x8000_0000_0000_0000,
                    0 <= pair_count(j as int),
            {
                proof {
                    lemma_gaps_to_bounds(model, j as int, i as int);
                    lemma_gap_bounds(model, i as int, j as int);
                    assert(pair_count(j as int) * SCORE_UNIT <= 0x8000_0000_0000_0000 * SCORE_UNIT) by (nonlinear_arith)
                        requires
                            pair_count(j as int) <= 0x8000_0000_0000_0000,
                    ;
                }
                let apart: u128 = if scaled[i] >= scaled[j] {
                    (scaled[i] - scaled[j]) as u128
                } else {
                    (scaled[j] - scaled[i]) as u128
                };
                assert(apart * apart == gap(model, i as int, j as int)) by (nonlinear_arith)
                    requires
                        apart == model[i as int] - model[j as int] || apart == model[j as int] - model[i as int],
                        gap(model, i as int, j as int) == (model[i as int] - model[j as int]) * (model[i as int]
                            - model[j as int]),
                ;
                sum = sum + apart * apart;
            }
        }
        proof {
            lemma_pair_gaps_bounds(model, classes as int);
            lemma_pair_count_bound(classes as int);
        }
        let pairs: u128 = (classes as u128) * (classes as u128 - 1) / 2;
        proof {
            assert(pairs == pair_count(classes as int));
            assert(1 <= pairs) by {
                lemma_pair_count_step(classes as int);
                lemma_pair_count_step(classes as int - 1);
            }
            assert(sum / pairs <= SCORE_UNIT) by (nonlinear_arith)
                requires
                    0 <= sum <= pairs * SCORE_UNIT,
                    1 <= pairs,
            ;
        }
        Ok((sum / pairs) as u64)
    }
}

proof fn lemma_pair_count_bound(n: int)
    requires
        0 <= n <= MAX_ROWS,
    ensures
        0 <= pair_count(n) <= 0x8000_0000_0000_0000,
        n * (n - 1) <= 0xFFFF_FFFF_0000_0000,
{
    assert(0 <= n * (n - 1) <= 0xFFFF_FFFF * 0xFFFF_FFFF) by (nonlinear_arith)
        requires
            0 <= n <= 0xFFFF_FFFF,
    ;
}

} // verus!

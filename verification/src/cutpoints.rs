//! Candidate cutpoints of a numeric column: the scan of the sorted rows, and
//! the choice of the best candidates.

use vstd::prelude::*;

use crate::order::{
    is_stable_order, lemma_stable_order_of, precedes, stable_order, stable_order_of, MAX_ROWS,
};
use crate::binarize::Binarizer;
use crate::score::{counts_fit, lemma_separation_bounds, separation, SCORE_UNIT};

verus! {

/// A numeric threshold together with the separation score that selected it.
#[derive(Clone, Copy, Debug, PartialEq, Eq, Structural)]
pub struct Cutpoint {
    pub value: i64,
    pub score: u64,
}

/// How often the class `c` occurs in `s`.
pub open spec fn count_of(s: Seq<usize>, c: int) -> nat
    decreases s.len(),
{
    if s.len() == 0 {
        0
    } else {
        count_of(s.drop_last(), c) + if s.last() == c {
            1nat
        } else {
            0nat
        }
    }
}

/// How often each of the classes occurs in `s`.
pub open spec fn tallies(s: Seq<usize>, classes: int) -> Seq<u64> {
    Seq::new(classes as nat, |c: int| count_of(s, c) as u64)
}

/// The classes of the rows, in the order in which `order` visits the rows.
pub open spec fn arranged(codes: Seq<usize>, order: Seq<usize>) -> Seq<usize> {
    Seq::new(order.len(), |k: int| codes[order[k] as int])
}

/// The midpoint of two numbers, rounded down. A whole number is above the
/// exact midpoint if and only if it is above the rounded one.
pub open spec fn midpoint(lo: int, hi: int) -> int {
    (lo + hi) / 2
}

/// Whether the rows at the places `k - 1` and `k` of the sorted order differ
/// both in class and in value.
pub open spec fn is_boundary(values: Seq<i64>, codes: Seq<usize>, order: Seq<usize>, k: int) -> bool {
    let a = order[k - 1] as int;
    let b = order[k] as int;
    codes[a] != codes[b] && values[a] != values[b]
}

/// The separation score at place `k` of the sorted order: of each class, so
/// many rows stand before that place, out of so many in all.
pub open spec fn boundary_score(codes: Seq<usize>, order: Seq<usize>, classes: int, k: int) -> int {
    separation(tallies(arranged(codes, order).take(k), classes), tallies(codes, classes))
}

/// The cutpoint between the rows at the places `k - 1` and `k` of the sorted
/// order.
pub open spec fn boundary_cut(
    values: Seq<i64>,
    codes: Seq<usize>,
    order: Seq<usize>,
    classes: int,
    k: int,
) -> Cutpoint {
    Cutpoint {
        value: midpoint(values[order[k - 1] as int] as int, values[order[k] as int] as int) as i64,
        score: boundary_score(codes, order, classes, k) as u64,
    }
}

/// The candidate cutpoints found before place `k` of the sorted order, in the
/// order of the scan: one at every boundary whose score reaches `threshold`.
pub open spec fn candidates_before(
    values: Seq<i64>,
    codes: Seq<usize>,
    order: Seq<usize>,
    classes: int,
    threshold: u64,
    k: int,
) -> Seq<Cutpoint>
    decreases k,
{
    if k <= 1 {
        Seq::empty()
    } else {
        let before = candidates_before(values, codes, order, classes, threshold, k - 1);
        if is_boundary(values, codes, order, k - 1) && boundary_score(codes, order, classes, k - 1)
            >= threshold {
            before.push(boundary_cut(values, codes, order, classes, k - 1))
        } else {
            before
        }
    }
}

/// The candidate cutpoints of a numeric column: the rows are sorted by value,
/// rows of equal value staying in their order, and scanned once.
pub open spec fn candidates(values: Seq<i64>, codes: Seq<usize>, classes: int, threshold: u64) -> Seq<
    Cutpoint,
> {
    candidates_before(values, codes, stable_order_of(values), classes, threshold, values.len() as int)
}

/// The scores of the candidates, as sorting keys.
pub open spec fn score_keys(found: Seq<Cutpoint>) -> Seq<i64> {
    Seq::new(found.len(), |k: int| found[k].score as i64)
}

/// The candidates by descending score; of two with one score, the one found
/// later comes first.
pub open spec fn ranked(found: Seq<Cutpoint>) -> Seq<Cutpoint> {
    let order = stable_order_of(score_keys(found));
    Seq::new(found.len(), |j: int| found[order[found.len() - 1 - j] as int])
}

/// The best `limit` candidates, best first.
pub open spec fn selected(found: Seq<Cutpoint>, limit: int) -> Seq<Cutpoint> {
    ranked(found).take(if limit < found.len() {
        limit
    } else {
        found.len() as int
    })
}

/// What a scan needs of the classes of the rows: there is one per row, each
/// is below `classes`, and each class has a row.
pub open spec fn codes_fit(rows: int, codes: Seq<usize>, classes: int) -> bool {
    &&& codes.len() == rows
    &&& 0 <= classes <= MAX_ROWS
    &&& forall|r: int| 0 <= r < codes.len() ==> (#[trigger] codes[r]) < classes
    &&& forall|c: usize| c < classes ==> #[trigger] codes.contains(c)
}

proof fn lemma_count_step(s: Seq<usize>, k: int, c: int)
    requires
        0 <= k < s.len(),
    ensures
        count_of(s.take(k + 1), c) == count_of(s.take(k), c) + if s[k] == c {
            1nat
        } else {
            0nat
        },
{
    assert(s.take(k + 1).drop_last() =~= s.take(k));
}

proof fn lemma_count_bounds(s: Seq<usize>, k: int, c: int)
    requires
        0 <= k <= s.len(),
    ensures
        count_of(s.take(k), c) <= k,
        count_of(s.take(k), c) <= count_of(s, c),
    decreases s.len() - k,
{
    if k < s.len() {
        lemma_count_step(s, k, c);
        lemma_count_bounds(s, k + 1, c);
        lemma_count_prefix(s, k, c);
    } else {
        assert(s.take(k) =~= s);
        lemma_count_prefix(s, k, c);
    }
}

proof fn lemma_count_prefix(s: Seq<usize>, k: int, c: int)
    requires
        0 <= k <= s.len(),
    ensures
        count_of(s.take(k), c) <= k,
    decreases k,
{
    if k > 0 {
        lemma_count_prefix(s, k - 1, c);
        lemma_count_step(s, k - 1, c);
    }
}

proof fn lemma_count_positive(s: Seq<usize>, i: int)
    requires
        0 <= i < s.len(),
    ensures
        1 <= count_of(s, s[i] as int),
{
    lemma_count_step(s, i, s[i] as int);
    lemma_count_bounds(s, i + 1, s[i] as int);
}

proof fn lemma_count_remove(s: Seq<usize>, p: int, c: int)
    requires
        0 <= p < s.len(),
    ensures
        count_of(s.remove(p), c) + if s[p] == c {
            1nat
        } else {
            0nat
        } == count_of(s, c),
    decreases s.len(),
{
    if p == s.len() - 1 {
        assert(s.remove(p) =~= s.drop_last());
    } else {
        lemma_count_remove(s.drop_last(), p, c);
        assert(s.remove(p).drop_last() =~= s.drop_last().remove(p));
        assert(s.remove(p).last() == s.last());
    }
}

/// Rows picked from a table without picking one twice hold no more rows of
/// a class than the table does.
proof fn lemma_count_picked(codes: Seq<usize>, picks: Seq<usize>, c: int)
    requires
        forall|j: int| 0 <= j < picks.len() ==> (#[trigger] picks[j]) < codes.len(),
        forall|i: int, j: int| 0 <= i < j < picks.len() ==> picks[i] != picks[j],
    ensures
        count_of(arranged(codes, picks), c) <= count_of(codes, c),
    decreases codes.len(),
{
    if codes.len() == 0 {
        if picks.len() > 0 {
            assert(picks[0] < codes.len());
        }
        assert(arranged(codes, picks) =~= Seq::<usize>::empty());
    } else {
        let last = codes.len() - 1;
        let front = codes.drop_last();
        if exists|p: int| 0 <= p < picks.len() && picks[p] == last {
            let p = choose|p: int| 0 <= p < picks.len() && picks[p] == last;
            let rest = picks.remove(p);
            assert forall|j: int| 0 <= j < rest.len() implies (#[trigger] rest[j]) < front.len() by {
                if j < p {
                    assert(rest[j] == picks[j]);
                } else {
                    assert(rest[j] == picks[j + 1]);
                }
            }
            assert forall|i: int, j: int| 0 <= i < j < rest.len() implies rest[i] != rest[j] by {
                let a = if i < p {
                    i
                } else {
                    i + 1
                };
                let b = if j < p {
                    j
                } else {
                    j + 1
                };
                assert(rest[i] == picks[a] && rest[j] == picks[b]);
            }
            lemma_count_picked(front, rest, c);
            assert(arranged(front, rest) =~= arranged(codes, picks).remove(p));
            lemma_count_remove(arranged(codes, picks), p, c);
            assert(arranged(codes, picks)[p] == codes.last());
        } else {
            assert forall|j: int| 0 <= j < picks.len() implies (#[trigger] picks[j]) < front.len() by {
                assert(picks[j] < codes.len());
            }
            lemma_count_picked(front, picks, c);
            assert(arranged(front, picks) =~= arranged(codes, picks));
        }
    }
}

/// Every candidate of a numeric column stands for a boundary of the scan:
/// its score reaches the threshold and is at most one, and there are fewer
/// candidates than rows.
pub proof fn lemma_candidates(values: Seq<i64>, codes: Seq<usize>, classes: int, threshold: u64, k: int)
    requires
        values.len() <= usize::MAX,
        codes.len() == values.len(),
        forall|r: int| 0 <= r < codes.len() ==> (#[trigger] codes[r]) < classes,
        forall|c: usize| c < classes ==> #[trigger] codes.contains(c),
        0 <= classes <= usize::MAX,
        0 <= k <= values.len(),
    ensures
        candidates_before(values, codes, stable_order_of(values), classes, threshold, k).len() <= k,
        forall|j: int|
            0 <= j < candidates_before(values, codes, stable_order_of(values), classes, threshold, k).len()
                ==> threshold <= (#[trigger] candidates_before(
                values,
                codes,
                stable_order_of(values),
                classes,
                threshold,
                k,
            )[j]).score <= SCORE_UNIT,
    decreases k,
{
    let order = stable_order_of(values);
    if k > 1 {
        lemma_candidates(values, codes, classes, threshold, k - 1);
        let at = k - 1;
        if is_boundary(values, codes, order, at) && boundary_score(codes, order, classes, at) >= threshold {
            lemma_stable_order_of(values);
            let sorted = arranged(codes, order);
            let running = tallies(sorted.take(at), classes);
            let total = tallies(codes, classes);
            let seen = order.take(at);
            assert(arranged(codes, seen) =~= sorted.take(at));
            assert forall|i: int, j: int| 0 <= i < j < seen.len() implies seen[i] != seen[j] by {
                assert(precedes(values, order[i] as int, order[j] as int));
            }
            assert(codes[order[at - 1] as int] < classes && codes[order[at] as int] < classes);
            assert forall|c: int| 0 <= c < total.len() implies 0 < #[trigger] total[c] && running[c] <= total[c] by {
                assert(codes.contains(c as usize));
                let r = codes.index_of(c as usize);
                lemma_count_positive(codes, r);
                lemma_count_picked(codes, seen, c);
                lemma_count_prefix(codes, codes.len() as int, c);
                assert(codes.take(codes.len() as int) =~= codes);
                lemma_count_prefix(sorted, at, c);
            }
            lemma_separation_bounds(running, total);
        }
    }
}

/// Of the candidates of a column the best are kept: as many as the limit
/// allows, each of them a candidate, and none with a lower score than a
/// candidate that was dropped. The ranking names every candidate once.
pub proof fn lemma_selected_keeps_best(found: Seq<Cutpoint>, limit: int)
    requires
        0 <= limit,
        found.len() <= usize::MAX,
        forall|k: int| 0 <= k < found.len() ==> (#[trigger] found[k]).score <= SCORE_UNIT,
    ensures
        selected(found, limit).len() == if limit < found.len() {
            limit
        } else {
            found.len() as int
        },
        is_stable_order(score_keys(found), stable_order_of(score_keys(found))),
        ranked(found).len() == found.len(),
        forall|j: int| 0 <= j < selected(found, limit).len() ==> found.contains(#[trigger] selected(found, limit)[j]),
        forall|a: int, b: int|
            0 <= a < selected(found, limit).len() <= b < found.len() ==> selected(found, limit)[a].score >= ranked(
                found,
            )[b].score,
{
    let keys = score_keys(found);
    lemma_stable_order_of(keys);
    let order = stable_order_of(keys);
    let n = found.len() as int;
    let kept = selected(found, limit);
    assert forall|j: int| 0 <= j < kept.len() implies found.contains(#[trigger] kept[j]) by {
        assert(order[n - 1 - j] < n);
        assert(found[order[n - 1 - j] as int] == kept[j]);
    }
    assert forall|a: int, b: int| 0 <= a < kept.len() <= b < n implies kept[a].score >= ranked(found)[b].score by {
        assert(order[n - 1 - a] < n && order[n - 1 - b] < n);
        assert(precedes(keys, order[n - 1 - b] as int, order[n - 1 - a] as int));
    }
}

/// The cutpoints kept for a numeric column are the best of its candidates:
/// as many as the limit allows, each of them a candidate, and none with a
/// lower score than a candidate that was dropped.
pub proof fn lemma_cutpoints_keep_best(
    values: Seq<i64>,
    codes: Seq<usize>,
    classes: int,
    threshold: u64,
    limit: int,
)
    requires
        0 <= limit,
        values.len() <= usize::MAX,
        codes.len() == values.len(),
        forall|r: int| 0 <= r < codes.len() ==> (#[trigger] codes[r]) < classes,
        forall|c: usize| c < classes ==> #[trigger] codes.contains(c),
        0 <= classes <= usize::MAX,
    ensures
        ({
            let found = candidates(values, codes, classes, threshold);
            let kept = selected(found, limit);
            &&& kept.len() == if limit < found.len() {
                limit
            } else {
                found.len() as int
            }
            &&& forall|j: int| 0 <= j < kept.len() ==> found.contains(#[trigger] kept[j])
            &&& forall|a: int, b: int|
                0 <= a < kept.len() <= b < found.len() ==> kept[a].score >= ranked(found)[b].score
            &&& is_stable_order(score_keys(found), stable_order_of(score_keys(found)))
        }),
{
    lemma_candidates(values, codes, classes, threshold, values.len() as int);
    lemma_selected_keeps_best(candidates(values, codes, classes, threshold), limit);
}

/// A whole number is above the rounded midpoint of two numbers if and only
/// if it is above their exact midpoint; and the rounded midpoint of two
/// different numbers separates them.
pub proof fn lemma_midpoint_cuts(lo: int, hi: int, x: int)
    ensures
        x > midpoint(lo, hi) <==> 2 * x > lo + hi,
        lo < hi ==> lo <= midpoint(lo, hi) < hi,
{
}

/// The midpoint of two numbers, rounded down.
pub fn midpoint_of(lo: i64, hi: i64) -> (mid: i64)
    ensures
        mid == midpoint(lo as int, hi as int),
{
    let sum: i128 = lo as i128 + hi as i128;
    if sum >= 0 {
        (sum / 2) as i64
    } else {
        let up: i128 = (1 - sum) / 2;
        (0 - up) as i64
    }
}

/// Counts the rows of each class.
fn tally(codes: &Vec<usize>, classes: usize) -> (counts: Vec<u64>)
    requires
        codes@.len() <= MAX_ROWS,
        forall|r: int| 0 <= r < codes@.len() ==> (#[trigger] codes@[r]) < classes,
    ensures
        counts@ == tallies(codes@, classes as int),
{
    let mut counts: Vec<u64> = Vec::new();
    for c in 0..classes
        invariant
            counts@.len() == c,
            forall|j: int| 0 <= j < c ==> counts@[j] == 0,
    {
        counts.push(0);
    }
    assert(counts@ =~= tallies(codes@.take(0), classes as int));
    for r in 0..codes.len()
        invariant
            codes@.len() <= MAX_ROWS,
            forall|r: int| 0 <= r < codes@.len() ==> (#[trigger] codes@[r]) < classes,
            counts@ == tallies(codes@.take(r as int), classes as int),
    {
        let class = codes[r];
        proof {
            lemma_count_prefix(codes@, r as int, class as int);
            assert forall|c: int| 0 <= c < classes implies (#[trigger] tallies(codes@.take(r + 1), classes as int)[c])
                == if c == class {
                (counts@[c] + 1) as u64
            } else {
                counts@[c]
            } by {
                lemma_count_step(codes@, r as int, c);
                lemma_count_prefix(codes@, r + 1, c);
            }
        }
        let seen = counts[class];
        counts.set(class, seen + 1);
        assert(counts@ =~= tallies(codes@.take(r + 1), classes as int));
    }
    assert(codes@.take(codes@.len() as int) =~= codes@);
    counts
}

/// Scans a numeric column for candidate cutpoints. The rows are sorted by
/// value, rows of equal value staying in their order. Wherever two
/// neighbours differ in class and in value, the separation score is computed
/// from the counts of the rows before the second of them; where it reaches
/// `threshold`, the midpoint of the two values is recorded with the score.
pub fn scan(values: &Vec<i64>, codes: &Vec<usize>, classes: usize, threshold: u64) -> (found: Vec<Cutpoint>)
    requires
        values@.len() <= MAX_ROWS,
        codes_fit(values@.len() as int, codes@, classes as int),
    ensures
        found@ == candidates(values@, codes@, classes as int, threshold),
        found@.len() <= values@.len(),
        forall|k: int| 0 <= k < found@.len() ==> threshold <= (#[trigger] found@[k]).score <= SCORE_UNIT,
{
    let rows = values.len();
    let order = stable_order(values);
    let total = tally(codes, classes);
    let ghost sorted = arranged(codes@, order@);
    let mut running: Vec<u64> = Vec::new();
    for c in 0..classes
        invariant
            running@.len() == c,
            forall|j: int| 0 <= j < c ==> running@[j] == 0,
    {
        running.push(0);
    }
    assert(running@ =~= tallies(sorted.take(0), classes as int));
    let mut found: Vec<Cutpoint> = Vec::new();
    if rows == 0 {
        return found;
    }
    proof {
        assert forall|c: int| 0 <= c < classes implies 0 < #[trigger] total@[c] by {
            assert(codes@.contains(c as usize));
            let r = codes@.index_of(c as usize);
            lemma_count_positive(codes@, r);
            lemma_count_prefix(codes@, codes@.len() as int, c);
            assert(codes@.take(codes@.len() as int) =~= codes@);
        }
    }
    let mut k: usize = 0;
    while k + 1 < rows
        invariant
            rows == values@.len() == order@.len(),
            0 < rows <= MAX_ROWS,
            k < rows,
            codes_fit(rows as int, codes@, classes as int),
            is_stable_order(values@, order@),
            order@ == stable_order_of(values@),
            sorted == arranged(codes@, order@),
            total@ == tallies(codes@, classes as int),
            forall|c: int| 0 <= c < classes ==> 0 < #[trigger] total@[c],
            running@ == tallies(sorted.take(k as int), classes as int),
            found@ == candidates_before(values@, codes@, order@, classes as int, threshold, k + 1),
            found@.len() <= k,
            forall|j: int| 0 <= j < found@.len() ==> threshold <= (#[trigger] found@[j]).score <= SCORE_UNIT,
        decreases rows - k,
    {
        let before = order[k];
        let here = order[k + 1];
        let class = codes[before];
        proof {
            lemma_count_prefix(sorted, k as int, class as int);
            assert forall|c: int| 0 <= c < classes implies (#[trigger] tallies(sorted.take(k + 1), classes as int)[c])
                == if c == class {
                (running@[c] + 1) as u64
            } else {
                running@[c]
            } by {
                lemma_count_step(sorted, k as int, c);
                lemma_count_prefix(sorted, k + 1, c);
            }
        }
        let seen = running[class];
        running.set(class, seen + 1);
        assert(running@ =~= tallies(sorted.take(k + 1), classes as int));
        if codes[here] != class && values[here] != values[before] {
            proof {
                let seen_rows = order@.take(k + 1);
                assert(arranged(codes@, seen_rows) =~= sorted.take(k + 1));
                assert forall|i: int, j: int| 0 <= i < j < seen_rows.len() implies seen_rows[i] != seen_rows[j] by {
                    assert(precedes(values@, order@[i] as int, order@[j] as int));
                }
                assert forall|c: int| 0 <= c < classes implies (#[trigger] running@[c]) <= total@[c] by {
                    lemma_count_picked(codes@, seen_rows, c);
                    lemma_count_prefix(sorted, k + 1, c);
                    lemma_count_prefix(codes@, codes@.len() as int, c);
                    assert(codes@.take(codes@.len() as int) =~= codes@);
                }
                assert(counts_fit(running@, total@));
            }
            match Binarizer::score(&running, &total) {
                Ok(value) => {
                    if value >= threshold {
                        found.push(Cutpoint { value: midpoint_of(values[before], values[here]), score: value });
                    }
                },
                Err(_) => unreached(),
            }
        }
        k = k + 1;
    }
    found
}

/// Ranks candidates by descending score and keeps the best `limit`. Of two
/// candidates with one score, the one found later comes first.
pub fn select(found: &Vec<Cutpoint>, limit: usize) -> (kept: Vec<Cutpoint>)
    requires
        found@.len() <= MAX_ROWS,
        forall|k: int| 0 <= k < found@.len() ==> (#[trigger] found@[k]).score <= SCORE_UNIT,
    ensures
        kept@ == selected(found@, limit as int),
        kept@.len() <= limit,
        kept@.len() <= found@.len(),
        forall|a: int, b: int| 0 <= a < b < kept@.len() ==> kept@[a].score >= kept@[b].score,
{
    let n = found.len();
    let mut keys: Vec<i64> = Vec::new();
    for k in 0..n
        invariant
            n == found@.len(),
            forall|k: int| 0 <= k < found@.len() ==> (#[trigger] found@[k]).score <= SCORE_UNIT,
            keys@.len() == k,
            forall|j: int| 0 <= j < k ==> keys@[j] == found@[j].score as i64,
    {
        keys.push(found[k].score as i64);
    }
    assert(keys@ =~= score_keys(found@));
    let order = stable_order(&keys);
    let keep = if limit < n {
        limit
    } else {
        n
    };
    let mut kept: Vec<Cutpoint> = Vec::new();
    for j in 0..keep
        invariant
            n == found@.len() == order@.len(),
            keep <= n,
            keys@ == score_keys(found@),
            is_stable_order(keys@, order@),
            order@ == stable_order_of(keys@),
            forall|k: int| 0 <= k < found@.len() ==> (#[trigger] found@[k]).score <= SCORE_UNIT,
            kept@.len() == j,
            forall|i: int| 0 <= i < j ==> kept@[i] == ranked(found@)[i],
    {
        kept.push(found[order[n - 1 - j]]);
    }
    proof {
        assert(kept@ =~= selected(found@, limit as int));
        assert forall|a: int, b: int| 0 <= a < b < kept@.len() implies kept@[a].score >= kept@[b].score by {
            let hi = order@[n - 1 - a] as int;
            let lo = order@[n - 1 - b] as int;
            assert(precedes(keys@, lo, hi));
        }
    }
    kept
}

} // verus!

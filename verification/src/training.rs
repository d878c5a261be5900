//! The rules classify the rows that they claimed exactly: a row that a rule
//! claimed is matched first by that rule, and a row that is left is matched
//! by no rule.

use vstd::prelude::*;

use crate::cutpoints::count_of;
use crate::invariants::{conserved, lemma_evaluate_conserves, lemma_initial_conserved};
use crate::pattern::{holds, Literal};
use crate::rule_generation::{matched, predicted_class};
use crate::search::{
    after_features, after_parents, coverage_counts, covered_count, evaluate, first_hit, fitted, hit_count, initial,
    largest, last_degree, lemma_single_hit, level, members, rows_left, search_from, sizes, try_literal, uncovered,
    RuleModel, SearchState,
};

verus! {

/// A row that is left to its class is matched by no rule; any other row is
/// matched first by a rule of its class.
pub open spec fn row_classified(table: Seq<Seq<bool>>, codes: Seq<usize>, s: SearchState, r: int) -> bool {
    if s.remaining[codes[r] as int].contains(r as usize) {
        forall|k: int| 0 <= k < s.rules.len() ==> !holds(table, (#[trigger] s.rules[k]).pattern, r)
    } else {
        matched(table, s.rules, r, s.rules.len() as int) == Some(codes[r])
    }
}

/// Every row of the table is classified as `row_classified` says, and no row
/// is lost.
pub open spec fn classified(table: Seq<Seq<bool>>, codes: Seq<usize>, s: SearchState) -> bool {
    &&& conserved(codes, s)
    &&& codes.len() <= usize::MAX
    &&& forall|r: int| 0 <= r < codes.len() ==> (#[trigger] codes[r]) < s.remaining.len()
    &&& forall|r: int| 0 <= r < codes.len() ==> #[trigger] row_classified(table, codes, s, r)
}

proof fn lemma_uncovered(table: Seq<Seq<bool>>, rows: Seq<usize>, p: Seq<Literal>, x: usize)
    ensures
        uncovered(table, rows, p).contains(x) <==> rows.contains(x) && !holds(table, p, x as int),
    decreases rows.len(),
{
    let kept = uncovered(table, rows, p);
    if rows.len() > 0 {
        let front = rows.drop_last();
        let before = uncovered(table, front, p);
        lemma_uncovered(table, front, p, x);
        if kept.contains(x) {
            let i = kept.index_of(x);
            assert(0 <= i < kept.len() && kept[i] == x);
            if i < before.len() {
                assert(before[i] == x);
                assert(before.contains(x));
                let j = front.index_of(x);
                assert(0 <= j < front.len() && front[j] == x);
                assert(rows[j] == x);
            } else {
                assert(rows[rows.len() - 1] == x);
            }
        }
        if rows.contains(x) && !holds(table, p, x as int) {
            let j = rows.index_of(x);
            assert(0 <= j < rows.len() && rows[j] == x);
            if j < front.len() {
                assert(front[j] == x);
                assert(front.contains(x));
                let i = before.index_of(x);
                assert(0 <= i < before.len() && before[i] == x);
                assert(kept[i] == x);
            } else {
                assert(kept[kept.len() - 1] == x);
            }
        }
    } else {
        if kept.contains(x) {
            let i = kept.index_of(x);
            assert(0 <= i < kept.len());
        }
        if rows.contains(x) {
            let j = rows.index_of(x);
            assert(0 <= j < rows.len());
        }
    }
}

proof fn lemma_none_covered(table: Seq<Seq<bool>>, rows: Seq<usize>, p: Seq<Literal>)
    requires
        covered_count(table, rows, p) == 0,
    ensures
        forall|i: int| 0 <= i < rows.len() ==> !holds(table, p, (#[trigger] rows[i]) as int),
    decreases rows.len(),
{
    if rows.len() > 0 {
        lemma_none_covered(table, rows.drop_last(), p);
        assert forall|i: int| 0 <= i < rows.len() implies !holds(table, p, (#[trigger] rows[i]) as int) by {
            if i < rows.len() - 1 {
                assert(rows.drop_last()[i] == rows[i]);
            }
        }
    }
}

proof fn lemma_covered_at_most(table: Seq<Seq<bool>>, rows: Seq<usize>, p: Seq<Literal>)
    ensures
        covered_count(table, rows, p) <= rows.len(),
    decreases rows.len(),
{
    if rows.len() > 0 {
        lemma_covered_at_most(table, rows.drop_last(), p);
    }
}

proof fn lemma_count_at_most(codes: Seq<usize>, c: int)
    ensures
        count_of(codes, c) <= codes.len(),
    decreases codes.len(),
{
    if codes.len() > 0 {
        lemma_count_at_most(codes.drop_last(), c);
    }
}

proof fn lemma_matched_prefix(table: Seq<Seq<bool>>, rules: Seq<RuleModel>, rule: RuleModel, r: int, upto: int)
    requires
        0 <= upto <= rules.len(),
    ensures
        matched(table, rules.push(rule), r, upto) == matched(table, rules, r, upto),
    decreases upto,
{
    if upto > 0 {
        lemma_matched_prefix(table, rules, rule, r, upto - 1);
        assert(rules.push(rule)[upto - 1] == rules[upto - 1]);
    }
}

proof fn lemma_unmatched(table: Seq<Seq<bool>>, rules: Seq<RuleModel>, r: int, upto: int)
    requires
        0 <= upto <= rules.len(),
        forall|k: int| 0 <= k < rules.len() ==> !holds(table, (#[trigger] rules[k]).pattern, r),
    ensures
        matched(table, rules, r, upto) is None,
    decreases upto,
{
    if upto > 0 {
        lemma_unmatched(table, rules, r, upto - 1);
    }
}

proof fn lemma_members_hold(codes: Seq<usize>, c: int, upto: int, r: int)
    requires
        0 <= r < upto <= codes.len() <= usize::MAX,
        codes[r] == c,
    ensures
        members(codes, c, upto).contains(r as usize),
    decreases upto,
{
    if r == upto - 1 {
        assert(members(codes, c, upto).last() == r as usize);
    } else {
        lemma_members_hold(codes, c, upto - 1, r);
        let before = members(codes, c, upto - 1);
        let i = before.index_of(r as usize);
        assert(0 <= i < before.len() && before[i] == r as usize);
        assert(members(codes, c, upto)[i] == r as usize);
    }
}

/// At the start of a search every row is left, and there is no rule.
pub proof fn lemma_initial_classified(table: Seq<Seq<bool>>, codes: Seq<usize>, classes: int)
    requires
        0 <= classes,
        codes.len() <= usize::MAX,
        forall|r: int| 0 <= r < codes.len() ==> (#[trigger] codes[r]) < classes,
    ensures
        classified(table, codes, initial(codes, classes)),
{
    let s = initial(codes, classes);
    lemma_initial_conserved(codes, classes);
    assert forall|r: int| 0 <= r < codes.len() implies #[trigger] row_classified(table, codes, s, r) by {
        assert(codes[r] < classes);
        lemma_members_hold(codes, codes[r] as int, codes.len() as int, r);
    }
}

/// Evaluating a candidate keeps every row classified: the rows that the new
/// rule claims are matched first by it, and it matches no row that is left.
pub proof fn lemma_evaluate_classifies(table: Seq<Seq<bool>>, codes: Seq<usize>, s: SearchState, p: Seq<Literal>)
    requires
        classified(table, codes, s),
    ensures
        classified(table, codes, evaluate(table, s, p)),
{
    let counts = coverage_counts(table, s.remaining, p);
    let next = evaluate(table, s, p);
    lemma_evaluate_conserves(table, codes, s, p);
    lemma_single_hit(counts, counts.len() as int);
    if hit_count(counts, counts.len() as int) == 1 {
        let c = first_hit(counts, 0);
        let rule = RuleModel { label: c as usize, pattern: p };
        let n = s.rules.len() as int;
        assert forall|r: int| 0 <= r < codes.len() implies #[trigger] row_classified(table, codes, next, r) by {
            let own = codes[r] as int;
            assert(codes[r] < s.remaining.len());
            assert(row_classified(table, codes, s, r));
            lemma_uncovered(table, s.remaining[c], p, r as usize);
            lemma_matched_prefix(table, s.rules, rule, r, n);
            assert(next.rules[n] == rule);
            if s.remaining[own].contains(r as usize) {
                lemma_unmatched(table, s.rules, r, n);
                if own == c {
                    if !holds(table, p, r) {
                        assert forall|k: int| 0 <= k < next.rules.len() implies !holds(
                            table,
                            (#[trigger] next.rules[k]).pattern,
                            r,
                        ) by {
                            if k < n {
                                assert(next.rules[k] == s.rules[k]);
                            }
                        }
                    }
                } else {
                    assert(next.remaining[own] == s.remaining[own]);
                    assert(counts[own] == 0);
                    lemma_covered_at_most(table, s.remaining[own], p);
                    lemma_count_at_most(codes, own);
                    assert(s.remaining[own].len() <= count_of(codes, own));
                    lemma_none_covered(table, s.remaining[own], p);
                    let i = s.remaining[own].index_of(r as usize);
                    assert(0 <= i < s.remaining[own].len() && s.remaining[own][i] == r as usize);
                    assert(!holds(table, p, r));
                    assert forall|k: int| 0 <= k < next.rules.len() implies !holds(
                        table,
                        (#[trigger] next.rules[k]).pattern,
                        r,
                    ) by {
                        if k < n {
                            assert(next.rules[k] == s.rules[k]);
                        }
                    }
                }
            } else {
                if own != c {
                    assert(next.remaining[own] == s.remaining[own]);
                }
            }
        }
    } else {
        assert forall|r: int| 0 <= r < codes.len() implies #[trigger] row_classified(table, codes, next, r) by {
            assert(row_classified(table, codes, s, r));
        }
    }
}

proof fn lemma_try_literal_classifies(
    table: Seq<Seq<bool>>,
    codes: Seq<usize>,
    prev: Seq<Seq<Literal>>,
    s: SearchState,
    parent: Seq<Literal>,
    literal: Literal,
)
    requires
        classified(table, codes, s),
    ensures
        classified(table, codes, try_literal(table, prev, s, parent, literal)),
{
    lemma_evaluate_classifies(table, codes, s, crate::pattern::extended(parent, literal));
}

proof fn lemma_after_features_classifies(
    table: Seq<Seq<bool>>,
    codes: Seq<usize>,
    prev: Seq<Seq<Literal>>,
    s: SearchState,
    parent: Seq<Literal>,
    f: int,
)
    requires
        classified(table, codes, s),
    ensures
        classified(table, codes, after_features(table, prev, s, parent, f)),
    decreases f,
{
    if f > 0 {
        lemma_after_features_classifies(table, codes, prev, s, parent, f - 1);
        let before = after_features(table, prev, s, parent, f - 1);
        let feature = (f - 1) as usize;
        lemma_try_literal_classifies(table, codes, prev, before, parent, Literal { feature, polarity: true });
        let positive = try_literal(table, prev, before, parent, Literal { feature, polarity: true });
        lemma_try_literal_classifies(table, codes, prev, positive, parent, Literal { feature, polarity: false });
    }
}

proof fn lemma_after_parents_classifies(
    table: Seq<Seq<bool>>,
    codes: Seq<usize>,
    prev: Seq<Seq<Literal>>,
    s: SearchState,
    a: int,
)
    requires
        classified(table, codes, s),
    ensures
        classified(table, codes, after_parents(table, prev, s, a)),
    decreases a,
{
    if a > 0 {
        lemma_after_parents_classifies(table, codes, prev, s, a - 1);
        lemma_after_features_classifies(
            table,
            codes,
            prev,
            after_parents(table, prev, s, a - 1),
            prev[a - 1],
            table.len() as int,
        );
    }
}

/// One degree of the search keeps every row classified.
pub proof fn lemma_level_classifies(table: Seq<Seq<bool>>, codes: Seq<usize>, s: SearchState)
    requires
        classified(table, codes, s),
    ensures
        classified(table, codes, level(table, s)),
{
    let start = SearchState { frontier: Seq::empty(), ..s };
    assert forall|r: int| 0 <= r < codes.len() implies #[trigger] row_classified(table, codes, start, r) by {
        assert(row_classified(table, codes, s, r));
    }
    lemma_after_parents_classifies(table, codes, s.frontier, start, s.frontier.len() as int);
}

proof fn lemma_search_classifies(
    table: Seq<Seq<bool>>,
    codes: Seq<usize>,
    s: SearchState,
    fallback: int,
    d: int,
    last: int,
)
    requires
        classified(table, codes, s),
    ensures
        classified(table, codes, search_from(table, s, fallback, d, last).0),
    decreases last - d + 1,
{
    if d <= last {
        lemma_level_classifies(table, codes, s);
        let next = level(table, s);
        if rows_left(next.remaining, next.remaining.len() as int) != 0 && d != last {
            lemma_search_classifies(table, codes, next, fallback, d + 1, last);
        }
    }
}

proof fn lemma_none_left(remaining: Seq<Seq<usize>>, upto: int, c: int)
    requires
        0 <= c < upto <= remaining.len(),
        rows_left(remaining, upto) == 0,
    ensures
        remaining[c].len() == 0,
    decreases upto,
{
    if c < upto - 1 {
        lemma_none_left(remaining, upto - 1, c);
    }
}

/// Fitting keeps every row classified.
pub proof fn lemma_fitted_classified(table: Seq<Seq<bool>>, codes: Seq<usize>, classes: int, max: usize)
    requires
        0 <= classes,
        codes.len() <= usize::MAX,
        forall|r: int| 0 <= r < codes.len() ==> (#[trigger] codes[r]) < classes,
    ensures
        classified(table, codes, fitted(table, codes, classes, max).0),
{
    let start = initial(codes, classes);
    lemma_initial_classified(table, codes, classes);
    lemma_search_classifies(
        table,
        codes,
        start,
        largest(sizes(start.remaining), classes),
        1,
        last_degree(max, table.len() as usize) as int,
    );
}

/// The fitted rules classify the table they were fitted to: every row that
/// a rule claimed is predicted its own class, and where the search left no
/// row, every row is.
pub proof fn lemma_training_rows(table: Seq<Seq<bool>>, codes: Seq<usize>, classes: int, max: usize, r: int)
    requires
        0 <= classes,
        codes.len() <= usize::MAX,
        forall|r: int| 0 <= r < codes.len() ==> (#[trigger] codes[r]) < classes,
        0 <= r < codes.len(),
    ensures
        ({
            let end = fitted(table, codes, classes, max);
            let class = predicted_class(table, end.0.rules, end.1 as usize, r);
            &&& !end.0.remaining[codes[r] as int].contains(r as usize) ==> class == codes[r]
            &&& rows_left(end.0.remaining, end.0.remaining.len() as int) == 0 ==> class == codes[r]
        }),
{
    lemma_fitted_classified(table, codes, classes, max);
    let end = fitted(table, codes, classes, max);
    assert(row_classified(table, codes, end.0, r));
    assert(codes[r] < end.0.remaining.len());
    if rows_left(end.0.remaining, end.0.remaining.len() as int) == 0 {
        lemma_none_left(end.0.remaining, end.0.remaining.len() as int, codes[r] as int);
        if end.0.remaining[codes[r] as int].contains(r as usize) {
            let i = end.0.remaining[codes[r] as int].index_of(r as usize);
            assert(0 <= i < end.0.remaining[codes[r] as int].len());
        }
    }
}

} // verus!

//! What holds at every point of a search: the degree of the patterns, the
//! closure under subpatterns, and the conservation of rows.

use vstd::prelude::*;

use crate::cutpoints::count_of;
use crate::pattern::{extended, mentions, place_from, Literal};
use crate::search::{
    after_features, after_parents, coverage_counts, covered_count, evaluate, first_hit, fitted, hit_count, initial,
    largest, last_degree, lemma_covered_bound, lemma_single_hit, level, members, rows_left, search_from, sizes,
    subpatterns_in, try_literal,
    RuleModel, SearchState,
};

verus! {

/// The number of rows that the first `upto` rules claimed for class `c`.
pub open spec fn claimed_for(rules: Seq<RuleModel>, claimed: Seq<nat>, c: int, upto: int) -> nat
    decreases upto,
{
    if upto <= 0 {
        0
    } else {
        claimed_for(rules, claimed, c, upto - 1) + if rules[upto - 1].label == c {
            claimed[upto - 1]
        } else {
            0
        }
    }
}

/// No row is lost or counted twice: for every class, the rows left to it and
/// the rows that rules claimed for it are together as many as the class has
/// rows, and every row left to it is one of its own.
pub open spec fn conserved(codes: Seq<usize>, s: SearchState) -> bool {
    &&& s.rules.len() == s.claimed.len()
    &&& forall|c: int|
        0 <= c < s.remaining.len() ==> (#[trigger] s.remaining[c]).len() + claimed_for(
            s.rules,
            s.claimed,
            c,
            s.rules.len() as int,
        ) == count_of(codes, c)
    &&& forall|c: int, i: int|
        0 <= c < s.remaining.len() && 0 <= i < s.remaining[c].len() ==> 0 <= (#[trigger] s.remaining[c][i])
            < codes.len() && codes[s.remaining[c][i] as int] == c
}

/// What holds of a state in the middle of degree `d`, which began with
/// `base` rules and the frontier `prev`: the rules recorded since then and
/// the patterns kept for the next degree have exactly `d` literals, and every
/// pattern that is one literal shorter than one of them is among `prev`.
pub open spec fn of_degree(prev: Seq<Seq<Literal>>, d: int, base: Seq<RuleModel>, s: SearchState) -> bool {
    &&& base.len() <= s.rules.len()
    &&& forall|k: int| 0 <= k < base.len() ==> s.rules[k] == #[trigger] base[k]
    &&& forall|k: int|
        base.len() <= k < s.rules.len() ==> (#[trigger] s.rules[k]).pattern.len() == d && subpatterns_in(
            prev,
            s.rules[k].pattern,
        )
    &&& forall|k: int|
        0 <= k < s.frontier.len() ==> (#[trigger] s.frontier[k]).len() == d && subpatterns_in(prev, s.frontier[k])
}

/// Every pattern has `d` literals.
pub open spec fn all_of_length(patterns: Seq<Seq<Literal>>, d: int) -> bool {
    forall|k: int| 0 <= k < patterns.len() ==> (#[trigger] patterns[k]).len() == d
}

proof fn lemma_claimed_prefix(rules: Seq<RuleModel>, claimed: Seq<nat>, rule: RuleModel, count: nat, c: int, upto: int)
    requires
        0 <= upto <= rules.len(),
        rules.len() == claimed.len(),
    ensures
        claimed_for(rules.push(rule), claimed.push(count), c, upto) == claimed_for(rules, claimed, c, upto),
    decreases upto,
{
    if upto > 0 {
        lemma_claimed_prefix(rules, claimed, rule, count, c, upto - 1);
    }
}

proof fn lemma_members_count(codes: Seq<usize>, c: int, upto: int)
    requires
        0 <= upto <= codes.len() <= usize::MAX,
    ensures
        members(codes, c, upto).len() == count_of(codes.take(upto), c),
        forall|i: int|
            0 <= i < members(codes, c, upto).len() ==> 0 <= (#[trigger] members(codes, c, upto)[i]) < upto
                && codes[members(codes, c, upto)[i] as int] == c,
    decreases upto,
{
    if upto > 0 {
        lemma_members_count(codes, c, upto - 1);
        assert(codes.take(upto).drop_last() =~= codes.take(upto - 1));
        let before = members(codes, c, upto - 1);
        assert forall|i: int| 0 <= i < members(codes, c, upto).len() implies 0 <= (#[trigger] members(
            codes,
            c,
            upto,
        )[i]) < upto && codes[members(codes, c, upto)[i] as int] == c by {
            if i < before.len() {
                assert(members(codes, c, upto)[i] == before[i]);
            }
        }
    }
}

/// At the start of a search no row is lost: every row is left to its class.
pub proof fn lemma_initial_conserved(codes: Seq<usize>, classes: int)
    requires
        0 <= classes,
        codes.len() <= usize::MAX,
    ensures
        conserved(codes, initial(codes, classes)),
{
    let s = initial(codes, classes);
    assert(codes.take(codes.len() as int) =~= codes);
    assert forall|c: int| 0 <= c < s.remaining.len() implies (#[trigger] s.remaining[c]).len() + claimed_for(
        s.rules,
        s.claimed,
        c,
        s.rules.len() as int,
    ) == count_of(codes, c) by {
        lemma_members_count(codes, c, codes.len() as int);
    }
    assert forall|c: int, i: int| 0 <= c < s.remaining.len() && 0 <= i < s.remaining[c].len() implies 0 <= (
    #[trigger] s.remaining[c][i]) < codes.len() && codes[s.remaining[c][i] as int] == c by {
        lemma_members_count(codes, c, codes.len() as int);
    }
}

/// Evaluating a candidate loses no row, and a rule is recorded only for a
/// pattern that covers remaining rows of its class and of no other.
pub proof fn lemma_evaluate_conserves(table: Seq<Seq<bool>>, codes: Seq<usize>, s: SearchState, p: Seq<Literal>)
    requires
        conserved(codes, s),
    ensures
        conserved(codes, evaluate(table, s, p)),
        evaluate(table, s, p).remaining.len() == s.remaining.len(),
        evaluate(table, s, p).rules.len() > s.rules.len() ==> {
            let c = evaluate(table, s, p).rules.last().label as int;
            &&& 0 <= c < s.remaining.len()
            &&& covered_count(table, s.remaining[c], p) >= 1
            &&& forall|b: int|
                0 <= b < s.remaining.len() && b != c ==> coverage_counts(table, s.remaining, p)[b] == 0
        },
{
    let counts = coverage_counts(table, s.remaining, p);
    let next = evaluate(table, s, p);
    lemma_single_hit(counts, counts.len() as int);
    if hit_count(counts, counts.len() as int) == 1 {
        let c = first_hit(counts, 0);
        let rule = RuleModel { label: c as usize, pattern: p };
        let count = covered_count(table, s.remaining[c], p);
        lemma_covered_bound(table, s.remaining[c], p);
        assert(next.rules.last() == rule);
        assert forall|b: int| 0 <= b < next.remaining.len() implies (#[trigger] next.remaining[b]).len()
            + claimed_for(next.rules, next.claimed, b, next.rules.len() as int) == count_of(codes, b) by {
            lemma_claimed_prefix(s.rules, s.claimed, rule, count, b, s.rules.len() as int);
            assert(s.remaining[b].len() + claimed_for(s.rules, s.claimed, b, s.rules.len() as int) == count_of(
                codes,
                b,
            ));
        }
        assert forall|b: int, i: int| 0 <= b < next.remaining.len() && 0 <= i < next.remaining[b].len() implies 0
            <= (#[trigger] next.remaining[b][i]) < codes.len() && codes[next.remaining[b][i] as int] == b by {
            if b == c {
                let x = next.remaining[b][i];
                assert(s.remaining[c].contains(x));
                let j = s.remaining[c].index_of(x);
                assert(s.remaining[c][j] == x);
            } else {
                assert(next.remaining[b][i] == s.remaining[b][i]);
            }
        }
    }
}

proof fn lemma_evaluate_degree(
    table: Seq<Seq<bool>>,
    prev: Seq<Seq<Literal>>,
    d: int,
    base: Seq<RuleModel>,
    s: SearchState,
    p: Seq<Literal>,
)
    requires
        of_degree(prev, d, base, s),
        p.len() == d,
        subpatterns_in(prev, p),
    ensures
        of_degree(prev, d, base, evaluate(table, s, p)),
{
    let next = evaluate(table, s, p);
    assert forall|k: int| base.len() <= k < next.rules.len() implies (#[trigger] next.rules[k]).pattern.len() == d
        && subpatterns_in(prev, next.rules[k].pattern) by {
        if k < s.rules.len() {
            assert(next.rules[k] == s.rules[k]);
        }
    }
    assert forall|k: int| 0 <= k < next.frontier.len() implies (#[trigger] next.frontier[k]).len() == d
        && subpatterns_in(prev, next.frontier[k]) by {
        if k < s.frontier.len() {
            assert(next.frontier[k] == s.frontier[k]);
        }
    }
}

proof fn lemma_place(p: Seq<Literal>, feature: usize, from: int)
    requires
        0 <= from <= p.len(),
    ensures
        from <= place_from(p, feature, from) <= p.len(),
    decreases p.len() - from,
{
    if from < p.len() && p[from].feature < feature {
        lemma_place(p, feature, from + 1);
    }
}

/// A pattern is only ever evaluated if every pattern that is one literal
/// shorter is among the patterns kept at the degree before: any other
/// candidate leaves the state as it is. What is evaluated has one literal more
/// than its parent, and no row is lost.
pub proof fn lemma_try_literal(
    table: Seq<Seq<bool>>,
    codes: Seq<usize>,
    prev: Seq<Seq<Literal>>,
    d: int,
    base: Seq<RuleModel>,
    s: SearchState,
    parent: Seq<Literal>,
    literal: Literal,
)
    requires
        conserved(codes, s),
        of_degree(prev, d, base, s),
        parent.len() == d - 1,
    ensures
        conserved(codes, try_literal(table, prev, s, parent, literal)),
        of_degree(prev, d, base, try_literal(table, prev, s, parent, literal)),
        try_literal(table, prev, s, parent, literal).remaining.len() == s.remaining.len(),
        !subpatterns_in(prev, extended(parent, literal)) ==> try_literal(table, prev, s, parent, literal) == s,
{
    if !mentions(parent, literal.feature) && subpatterns_in(prev, extended(parent, literal)) {
        lemma_place(parent, literal.feature, 0);
        lemma_evaluate_conserves(table, codes, s, extended(parent, literal));
        lemma_evaluate_degree(table, prev, d, base, s, extended(parent, literal));
    }
}

proof fn lemma_after_features(
    table: Seq<Seq<bool>>,
    codes: Seq<usize>,
    prev: Seq<Seq<Literal>>,
    d: int,
    base: Seq<RuleModel>,
    s: SearchState,
    parent: Seq<Literal>,
    f: int,
)
    requires
        conserved(codes, s),
        of_degree(prev, d, base, s),
        parent.len() == d - 1,
    ensures
        conserved(codes, after_features(table, prev, s, parent, f)),
        of_degree(prev, d, base, after_features(table, prev, s, parent, f)),
        after_features(table, prev, s, parent, f).remaining.len() == s.remaining.len(),
    decreases f,
{
    if f > 0 {
        lemma_after_features(table, codes, prev, d, base, s, parent, f - 1);
        let before = after_features(table, prev, s, parent, f - 1);
        let feature = (f - 1) as usize;
        lemma_try_literal(table, codes, prev, d, base, before, parent, Literal { feature, polarity: true });
        let positive = try_literal(table, prev, before, parent, Literal { feature, polarity: true });
        lemma_try_literal(table, codes, prev, d, base, positive, parent, Literal { feature, polarity: false });
    }
}

proof fn lemma_after_parents(
    table: Seq<Seq<bool>>,
    codes: Seq<usize>,
    prev: Seq<Seq<Literal>>,
    d: int,
    base: Seq<RuleModel>,
    s: SearchState,
    a: int,
)
    requires
        conserved(codes, s),
        of_degree(prev, d, base, s),
        all_of_length(prev, d - 1),
        0 <= a <= prev.len(),
    ensures
        conserved(codes, after_parents(table, prev, s, a)),
        of_degree(prev, d, base, after_parents(table, prev, s, a)),
        after_parents(table, prev, s, a).remaining.len() == s.remaining.len(),
    decreases a,
{
    if a > 0 {
        lemma_after_parents(table, codes, prev, d, base, s, a - 1);
        lemma_after_features(
            table,
            codes,
            prev,
            d,
            base,
            after_parents(table, prev, s, a - 1),
            prev[a - 1],
            table.len() as int,
        );
    }
}

/// One degree of the search. Where the patterns kept at the degree before
/// have `d - 1` literals each, every rule recorded at this degree has a
/// pattern of exactly `d` literals, and so has every pattern kept for the
/// next degree; every pattern that is one literal shorter than one of them
/// was kept at the degree before; the rules recorded earlier stay, in their
/// order; and no row is lost.
pub proof fn lemma_level(table: Seq<Seq<bool>>, codes: Seq<usize>, s: SearchState, d: int)
    requires
        conserved(codes, s),
        all_of_length(s.frontier, d - 1),
    ensures
        conserved(codes, level(table, s)),
        of_degree(s.frontier, d, s.rules, level(table, s)),
        all_of_length(level(table, s).frontier, d),
        level(table, s).remaining.len() == s.remaining.len(),
{
    let start = SearchState { frontier: Seq::empty(), ..s };
    lemma_after_parents(table, codes, s.frontier, d, s.rules, start, s.frontier.len() as int);
}

/// The rules of a state from place `from` on have between `low` and `high`
/// literals each, and stand by ascending number of literals.
pub open spec fn degrees_ascend(rules: Seq<RuleModel>, from: int, low: int, high: int) -> bool {
    &&& forall|k: int| from <= k < rules.len() ==> low <= (#[trigger] rules[k]).pattern.len() <= high
    &&& forall|j: int, k: int|
        from <= j <= k < rules.len() ==> (#[trigger] rules[j]).pattern.len() <= (#[trigger] rules[k]).pattern.len()
}

/// The whole search from degree `d` on: no row is lost, the rules recorded
/// before stay, and the rules recorded from here on have between `d` and
/// `last` literals and stand by ascending degree.
pub proof fn lemma_search(table: Seq<Seq<bool>>, codes: Seq<usize>, s: SearchState, fallback: int, d: int, last: int)
    requires
        conserved(codes, s),
        all_of_length(s.frontier, d - 1),
    ensures
        conserved(codes, search_from(table, s, fallback, d, last).0),
        s.rules.len() <= search_from(table, s, fallback, d, last).0.rules.len(),
        forall|k: int| 0 <= k < s.rules.len() ==> search_from(table, s, fallback, d, last).0.rules[k] == s.rules[k],
        degrees_ascend(search_from(table, s, fallback, d, last).0.rules, s.rules.len() as int, d, last),
        search_from(table, s, fallback, d, last).0.remaining.len() == s.remaining.len(),
    decreases last - d + 1,
{
    if d <= last {
        lemma_level(table, codes, s, d);
        let next = level(table, s);
        if rows_left(next.remaining, next.remaining.len() as int) != 0 && d != last {
            lemma_search(table, codes, next, fallback, d + 1, last);
            let end = search_from(table, next, fallback, d + 1, last).0;
            assert forall|k: int| 0 <= k < s.rules.len() implies end.rules[k] == s.rules[k] by {
                assert(next.rules[k] == s.rules[k]);
            }
            assert forall|k: int| s.rules.len() <= k < end.rules.len() implies d <= (
            #[trigger] end.rules[k]).pattern.len() <= last by {
                if k < next.rules.len() {
                    assert(end.rules[k] == next.rules[k]);
                }
            }
            assert forall|j: int, k: int| s.rules.len() <= j <= k < end.rules.len() implies (
            #[trigger] end.rules[j]).pattern.len() <= (#[trigger] end.rules[k]).pattern.len() by {
                if j < next.rules.len() {
                    assert(end.rules[j] == next.rules[j]);
                }
                if k < next.rules.len() {
                    assert(end.rules[k] == next.rules[k]);
                }
            }
        }
    }
}

/// Fitting loses no row: at its end, for every class, the rows left and the
/// rows claimed by the rules are together the rows of the class. The rules
/// stand by ascending degree, each with at least one literal and at most as
/// many as the highest degree of the search.
pub proof fn lemma_fitted(table: Seq<Seq<bool>>, codes: Seq<usize>, classes: int, max: usize)
    requires
        0 <= classes,
        codes.len() <= usize::MAX,
    ensures
        conserved(codes, fitted(table, codes, classes, max).0),
        degrees_ascend(
            fitted(table, codes, classes, max).0.rules,
            0,
            1,
            last_degree(max, table.len() as usize) as int,
        ),
{
    let start = initial(codes, classes);
    lemma_initial_conserved(codes, classes);
    lemma_search(
        table,
        codes,
        start,
        largest(sizes(start.remaining), classes),
        1,
        last_degree(max, table.len() as usize) as int,
    );
}

} // verus!

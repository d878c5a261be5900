//! The level-wise search for rules: its mathematical description, and the
//! executable search that follows it.

use rayon::iter::{IntoParallelRefIterator, ParallelIterator};
use vstd::prelude::*;

use crate::pattern::{ascending, extended, holds, lemma_extended, mentions, within, Literal, Pattern};
use crate::table::BinaryTable;

verus! {

/// A pattern that isolates rows of one class, with the place of that class
/// among the distinct labels.
#[derive(Clone, Debug)]
pub struct Rule {
    pub label: usize,
    pub pattern: Pattern,
}

/// The mathematical content of a `Rule`.
pub struct RuleModel {
    pub label: usize,
    pub pattern: Seq<Literal>,
}

impl View for Rule {
    type V = RuleModel;

    open spec fn view(&self) -> RuleModel {
        RuleModel { label: self.label, pattern: self.pattern@ }
    }
}

impl Rule {
    /// A copy of the rule.
    pub fn duplicate(&self) -> (copy: Rule)
        ensures
            copy@ == self@,
    {
        Rule { label: self.label, pattern: self.pattern.duplicate() }
    }
}

/// The state of a search: for every class the rows that no rule has claimed
/// yet, in ascending order; the rules recorded so far, each with the number
/// of rows it claimed; and the patterns kept for the next degree.
pub struct SearchState {
    pub remaining: Seq<Seq<usize>>,
    pub rules: Seq<RuleModel>,
    pub claimed: Seq<nat>,
    pub frontier: Seq<Seq<Literal>>,
}

/// How many of the rows the pattern covers.
pub open spec fn covered_count(table: Seq<Seq<bool>>, rows: Seq<usize>, p: Seq<Literal>) -> nat
    decreases rows.len(),
{
    if rows.len() == 0 {
        0
    } else {
        covered_count(table, rows.drop_last(), p) + if holds(table, p, rows.last() as int) {
            1nat
        } else {
            0nat
        }
    }
}

/// The rows that the pattern does not cover, in their order.
pub open spec fn uncovered(table: Seq<Seq<bool>>, rows: Seq<usize>, p: Seq<Literal>) -> Seq<usize>
    decreases rows.len(),
{
    if rows.len() == 0 {
        Seq::empty()
    } else {
        let before = uncovered(table, rows.drop_last(), p);
        if holds(table, p, rows.last() as int) {
            before
        } else {
            before.push(rows.last())
        }
    }
}

/// For every class, how many of its remaining rows the pattern covers.
pub open spec fn coverage_counts(table: Seq<Seq<bool>>, remaining: Seq<Seq<usize>>, p: Seq<Literal>) -> Seq<
    usize,
> {
    Seq::new(remaining.len(), |c: int| covered_count(table, remaining[c], p) as usize)
}

/// How many of the first `upto` counts are at least one.
pub open spec fn hit_count(counts: Seq<usize>, upto: int) -> nat
    decreases upto,
{
    if upto <= 0 {
        0
    } else {
        hit_count(counts, upto - 1) + if counts[upto - 1] >= 1 {
            1nat
        } else {
            0nat
        }
    }
}

/// The first place from `from` on at which the count is at least one.
pub open spec fn first_hit(counts: Seq<usize>, from: int) -> int
    decreases counts.len() - from,
{
    if from < 0 || from >= counts.len() || counts[from] >= 1 {
        from
    } else {
        first_hit(counts, from + 1)
    }
}

/// Classifies a candidate pattern. If it covers remaining rows of exactly
/// one class, it is recorded as a rule for that class and the covered rows
/// are claimed. If it covers no remaining row, nothing changes. Otherwise it
/// is kept for the next degree.
pub open spec fn evaluate(table: Seq<Seq<bool>>, s: SearchState, p: Seq<Literal>) -> SearchState {
    let counts = coverage_counts(table, s.remaining, p);
    let hits = hit_count(counts, counts.len() as int);
    if hits == 1 {
        let c = first_hit(counts, 0);
        SearchState {
            remaining: s.remaining.update(c, uncovered(table, s.remaining[c], p)),
            rules: s.rules.push(RuleModel { label: c as usize, pattern: p }),
            claimed: s.claimed.push(covered_count(table, s.remaining[c], p)),
            frontier: s.frontier,
        }
    } else if hits == 0 {
        s
    } else {
        SearchState { frontier: s.frontier.push(p), ..s }
    }
}

/// Whether every pattern that is one literal shorter than `p` is among
/// `prev`.
pub open spec fn subpatterns_in(prev: Seq<Seq<Literal>>, p: Seq<Literal>) -> bool {
    forall|k: int| 0 <= k < p.len() ==> prev.contains(#[trigger] p.remove(k))
}

/// Extends `parent` by `literal` and evaluates the result, unless the
/// parent tests the literal's feature already or one of the result's
/// subpatterns is not among `prev`.
pub open spec fn try_literal(
    table: Seq<Seq<bool>>,
    prev: Seq<Seq<Literal>>,
    s: SearchState,
    parent: Seq<Literal>,
    literal: Literal,
) -> SearchState {
    if !mentions(parent, literal.feature) && subpatterns_in(prev, extended(parent, literal)) {
        evaluate(table, s, extended(parent, literal))
    } else {
        s
    }
}

/// The state after `parent` was extended by the features before `f`, each
/// first with the value true, then with false.
pub open spec fn after_features(
    table: Seq<Seq<bool>>,
    prev: Seq<Seq<Literal>>,
    s: SearchState,
    parent: Seq<Literal>,
    f: int,
) -> SearchState
    decreases f,
{
    if f <= 0 {
        s
    } else {
        let before = after_features(table, prev, s, parent, f - 1);
        let feature = (f - 1) as usize;
        let positive = try_literal(table, prev, before, parent, Literal { feature, polarity: true });
        try_literal(table, prev, positive, parent, Literal { feature, polarity: false })
    }
}

/// The state after the first `a` patterns of `prev` were extended by every
/// feature of the table.
pub open spec fn after_parents(table: Seq<Seq<bool>>, prev: Seq<Seq<Literal>>, s: SearchState, a: int) -> SearchState
    decreases a,
{
    if a <= 0 {
        s
    } else {
        after_features(table, prev, after_parents(table, prev, s, a - 1), prev[a - 1], table.len() as int)
    }
}

/// One degree of the search: every pattern kept at the degree before is
/// extended by every literal, and the frontier of this degree is built anew.
pub open spec fn level(table: Seq<Seq<bool>>, s: SearchState) -> SearchState {
    after_parents(table, s.frontier, SearchState { frontier: Seq::empty(), ..s }, s.frontier.len() as int)
}

/// The number of rows left in each class.
pub open spec fn sizes(remaining: Seq<Seq<usize>>) -> Seq<nat> {
    Seq::new(remaining.len(), |c: int| remaining[c].len())
}

/// The number of rows left in the first `upto` classes together.
pub open spec fn rows_left(remaining: Seq<Seq<usize>>, upto: int) -> nat
    decreases upto,
{
    if upto <= 0 {
        0
    } else {
        rows_left(remaining, upto - 1) + remaining[upto - 1].len()
    }
}

/// The class with the most rows among the first `upto`; of several, the
/// last. Zero where there is no class.
pub open spec fn largest(sizes: Seq<nat>, upto: int) -> int
    decreases upto,
{
    if upto <= 1 {
        0
    } else {
        let before = largest(sizes, upto - 1);
        if sizes[upto - 1] >= sizes[before] {
            upto - 1
        } else {
            before
        }
    }
}

/// The search from degree `d` on: rules and fallback class at its end. It
/// stops after a degree that leaves no row, with the fallback as it was; at
/// the last degree the fallback becomes the class with the most rows left.
pub open spec fn search_from(table: Seq<Seq<bool>>, s: SearchState, fallback: int, d: int, last: int) -> (
    SearchState,
    int,
)
    decreases last - d + 1,
{
    if d > last {
        (s, fallback)
    } else {
        let next = level(table, s);
        if rows_left(next.remaining, next.remaining.len() as int) == 0 {
            (next, fallback)
        } else if d == last {
            (next, largest(sizes(next.remaining), next.remaining.len() as int))
        } else {
            search_from(table, next, fallback, d + 1, last)
        }
    }
}

/// The rows of class `c` among the first `upto`, in ascending order.
pub open spec fn members(codes: Seq<usize>, c: int, upto: int) -> Seq<usize>
    decreases upto,
{
    if upto <= 0 {
        Seq::empty()
    } else {
        let before = members(codes, c, upto - 1);
        if codes[upto - 1] == c {
            before.push((upto - 1) as usize)
        } else {
            before
        }
    }
}

/// The state from which a search starts: every row is left to its class, no
/// rule is recorded, and the frontier holds the empty pattern.
pub open spec fn initial(codes: Seq<usize>, classes: int) -> SearchState {
    SearchState {
        remaining: Seq::new(classes as nat, |c: int| members(codes, c, codes.len() as int)),
        rules: Seq::empty(),
        claimed: Seq::empty(),
        frontier: seq![Seq::empty()],
    }
}

/// The highest degree of a search over `width` features when `max` is
/// asked for: `max`, or `width` where `max` is zero or above it.
pub open spec fn last_degree(max: usize, width: usize) -> usize {
    if max == 0 || max > width {
        width
    } else {
        max
    }
}

/// The rules and the fallback class that fitting gives for a boolean table
/// and the classes of its rows.
pub open spec fn fitted(table: Seq<Seq<bool>>, codes: Seq<usize>, classes: int, max: usize) -> (
    SearchState,
    int,
) {
    let start = initial(codes, classes);
    search_from(
        table,
        start,
        largest(sizes(start.remaining), classes),
        1,
        last_degree(max, table.len() as usize) as int,
    )
}

/// The views of a vector of patterns.
pub open spec fn patterns(v: Seq<Pattern>) -> Seq<Seq<Literal>> {
    Seq::new(v.len(), |k: int| v[k]@)
}

/// The views of a vector of row lists.
pub open spec fn row_lists(v: Seq<Vec<usize>>) -> Seq<Seq<usize>> {
    Seq::new(v.len(), |c: int| v[c]@)
}

/// The views of a vector of rules.
pub open spec fn rule_models(v: Seq<Rule>) -> Seq<RuleModel> {
    Seq::new(v.len(), |k: int| v[k]@)
}

/// What the executable search needs of a state to work on a table of
/// `width` columns and `rows` rows.
pub open spec fn safe(width: int, rows: int, s: SearchState) -> bool {
    &&& forall|c: int, i: int|
        0 <= c < s.remaining.len() && 0 <= i < s.remaining[c].len() ==> (#[trigger] s.remaining[c][i]) < rows
    &&& forall|k: int| 0 <= k < s.frontier.len() ==> ascending(#[trigger] s.frontier[k]) && within(s.frontier[k], width)
    &&& forall|k: int|
        0 <= k < s.rules.len() ==> ascending((#[trigger] s.rules[k]).pattern) && within(
            s.rules[k].pattern,
            width,
        ) && s.rules[k].label < s.remaining.len()
}

/// The rows that a pattern covers and those that it does not are together
/// all the rows, and every row that it does not cover is one of them.
pub proof fn lemma_covered_bound(table: Seq<Seq<bool>>, rows: Seq<usize>, p: Seq<Literal>)
    ensures
        covered_count(table, rows, p) + uncovered(table, rows, p).len() == rows.len(),
        forall|i: int|
            0 <= i < uncovered(table, rows, p).len() ==> rows.contains(#[trigger] uncovered(table, rows, p)[i]),
    decreases rows.len(),
{
    if rows.len() > 0 {
        let front = rows.drop_last();
        lemma_covered_bound(table, front, p);
        assert forall|i: int| 0 <= i < uncovered(table, rows, p).len() implies rows.contains(
            #[trigger] uncovered(table, rows, p)[i],
        ) by {
            if i < uncovered(table, front, p).len() {
                let x = uncovered(table, front, p)[i];
                assert(front.contains(x));
                let j = front.index_of(x);
                assert(rows[j] == x);
            } else {
                assert(rows[rows.len() - 1] == uncovered(table, rows, p)[i]);
            }
        }
    }
}

/// The first count from `from` on that is at least one: every count before
/// it is zero.
pub proof fn lemma_first_hit(counts: Seq<usize>, from: int)
    requires
        0 <= from <= counts.len(),
    ensures
        from <= first_hit(counts, from) <= counts.len(),
        forall|c: int| from <= c < first_hit(counts, from) ==> counts[c] == 0,
        first_hit(counts, from) < counts.len() ==> counts[first_hit(counts, from)] >= 1,
    decreases counts.len() - from,
{
    if from < counts.len() && counts[from] < 1 {
        lemma_first_hit(counts, from + 1);
    }
}

/// Where exactly one count is at least one, it is the first such, and every
/// other count is zero.
pub proof fn lemma_single_hit(counts: Seq<usize>, upto: int)
    requires
        0 <= upto <= counts.len(),
    ensures
        hit_count(counts, upto) == 0 <==> forall|c: int| 0 <= c < upto ==> counts[c] == 0,
        hit_count(counts, upto) == 1 ==> 0 <= first_hit(counts, 0) < upto && forall|c: int|
            0 <= c < upto && c != first_hit(counts, 0) ==> counts[c] == 0,
    decreases upto,
{
    lemma_first_hit(counts, 0);
    if upto > 0 {
        lemma_single_hit(counts, upto - 1);
        if hit_count(counts, upto) == 1 && counts[upto - 1] >= 1 {
            assert(first_hit(counts, 0) >= upto - 1);
            assert(first_hit(counts, 0) == upto - 1);
        }
    }
}

/// Evaluating a candidate keeps a state safe.
pub proof fn lemma_evaluate_safe(table: Seq<Seq<bool>>, width: int, rows: int, s: SearchState, p: Seq<Literal>)
    requires
        safe(width, rows, s),
        ascending(p),
        within(p, width),
    ensures
        safe(width, rows, evaluate(table, s, p)),
        evaluate(table, s, p).remaining.len() == s.remaining.len(),
{
    let counts = coverage_counts(table, s.remaining, p);
    let next = evaluate(table, s, p);
    lemma_single_hit(counts, counts.len() as int);
    if hit_count(counts, counts.len() as int) == 1 {
        let c = first_hit(counts, 0);
        lemma_covered_bound(table, s.remaining[c], p);
        assert forall|b: int, i: int| 0 <= b < next.remaining.len() && 0 <= i < next.remaining[b].len() implies (
        #[trigger] next.remaining[b][i]) < rows by {
            if b == c {
                let x = next.remaining[b][i];
                assert(s.remaining[c].contains(x));
                let j = s.remaining[c].index_of(x);
                assert(s.remaining[c][j] < rows);
            } else {
                assert(next.remaining[b][i] == s.remaining[b][i]);
            }
        }
        assert forall|k: int| 0 <= k < next.rules.len() implies ascending((#[trigger] next.rules[k]).pattern)
            && within(next.rules[k].pattern, width) && next.rules[k].label < next.remaining.len() by {
            if k < s.rules.len() {
                assert(next.rules[k] == s.rules[k]);
            }
        }
    } else if hit_count(counts, counts.len() as int) != 0 {
        assert forall|k: int| 0 <= k < next.frontier.len() implies ascending(#[trigger] next.frontier[k])
            && within(next.frontier[k], width) by {
            if k < s.frontier.len() {
                assert(next.frontier[k] == s.frontier[k]);
            }
        }
    }
}

/// Counts, for every class, the remaining rows that a pattern covers, with
/// rayon: `par_iter` on the row lists, `map` with the counting function of
/// this library, and `collect` into a vector. The contract claims that the
/// vector holds, for each list and in the order of the lists, what the
/// function returns for it.
#[verifier::external_body]
fn parallel_counts(table: &BinaryTable, partitions: &Vec<Vec<usize>>, pattern: &Pattern) -> (counts: Vec<usize>)
    requires
        table.wf(),
        within(pattern@, table.columns@.len() as int),
        forall|c: int, i: int|
            0 <= c < partitions@.len() && 0 <= i < partitions@[c]@.len() ==> (#[trigger] partitions@[c]@[i])
                < table.rows,
    ensures
        counts@ == coverage_counts(table@, row_lists(partitions@), pattern@),
{
    partitions.par_iter().map(|rows| count_covered(table, rows, pattern)).collect()
}

/// How many of the rows the pattern covers.
pub fn count_covered(table: &BinaryTable, rows: &Vec<usize>, pattern: &Pattern) -> (count: usize)
    requires
        table.wf(),
        within(pattern@, table.columns@.len() as int),
        forall|i: int| 0 <= i < rows@.len() ==> (#[trigger] rows@[i]) < table.rows,
    ensures
        count == covered_count(table@, rows@, pattern@),
{
    let mut count: usize = 0;
    for i in 0..rows.len()
        invariant
            table.wf(),
            within(pattern@, table.columns@.len() as int),
            forall|i: int| 0 <= i < rows@.len() ==> (#[trigger] rows@[i]) < table.rows,
            count == covered_count(table@, rows@.take(i as int), pattern@),
            count <= i,
    {
        assert(rows@.take(i + 1).drop_last() =~= rows@.take(i as int));
        if pattern.covers(&table.columns, rows[i]) {
            count = count + 1;
        }
    }
    assert(rows@.take(rows@.len() as int) =~= rows@);
    count
}

/// The rows that the pattern does not cover, in their order.
pub fn keep_uncovered(table: &BinaryTable, rows: &Vec<usize>, pattern: &Pattern) -> (kept: Vec<usize>)
    requires
        table.wf(),
        within(pattern@, table.columns@.len() as int),
        forall|i: int| 0 <= i < rows@.len() ==> (#[trigger] rows@[i]) < table.rows,
    ensures
        kept@ == uncovered(table@, rows@, pattern@),
{
    let mut kept: Vec<usize> = Vec::new();
    for i in 0..rows.len()
        invariant
            table.wf(),
            within(pattern@, table.columns@.len() as int),
            forall|i: int| 0 <= i < rows@.len() ==> (#[trigger] rows@[i]) < table.rows,
            kept@ == uncovered(table@, rows@.take(i as int), pattern@),
    {
        assert(rows@.take(i + 1).drop_last() =~= rows@.take(i as int));
        if !pattern.covers(&table.columns, rows[i]) {
            kept.push(rows[i]);
        }
    }
    assert(rows@.take(rows@.len() as int) =~= rows@);
    kept
}

/// Whether a pattern is among `prev`.
pub fn is_among(prev: &Vec<Pattern>, pattern: &Pattern) -> (found: bool)
    ensures
        found == patterns(prev@).contains(pattern@),
{
    for k in 0..prev.len()
        invariant
            forall|j: int| 0 <= j < k ==> patterns(prev@)[j] != pattern@,
    {
        if prev[k].same(pattern) {
            assert(patterns(prev@)[k as int] == pattern@);
            return true;
        }
    }
    false
}

/// Whether every pattern that is one literal shorter than `pattern` is among
/// `prev`.
pub fn has_subpatterns_in(prev: &Vec<Pattern>, pattern: &Pattern) -> (all: bool)
    ensures
        all == subpatterns_in(patterns(prev@), pattern@),
{
    let degree = pattern.degree();
    for k in 0..degree
        invariant
            degree == pattern@.len(),
            forall|j: int| 0 <= j < k ==> patterns(prev@).contains(#[trigger] pattern@.remove(j)),
    {
        let shorter = pattern.without(k);
        if !is_among(prev, &shorter) {
            return false;
        }
    }
    true
}

/// A search in progress.
pub struct Search {
    pub partitions: Vec<Vec<usize>>,
    pub rules: Vec<Rule>,
    pub frontier: Vec<Pattern>,
    pub claimed: Ghost<Seq<nat>>,
}

impl View for Search {
    type V = SearchState;

    open spec fn view(&self) -> SearchState {
        SearchState {
            remaining: row_lists(self.partitions@),
            rules: rule_models(self.rules@),
            claimed: self.claimed@,
            frontier: patterns(self.frontier@),
        }
    }
}

impl Search {
    /// A search at its start: the rows of every class are left to it, no
    /// rule is recorded, and the frontier holds the empty pattern.
    pub fn new(partitions: Vec<Vec<usize>>) -> (search: Search)
        ensures
            search@ == (SearchState {
                remaining: row_lists(partitions@),
                rules: Seq::empty(),
                claimed: Seq::empty(),
                frontier: seq![Seq::empty()],
            }),
            search.partitions == partitions,
    {
        let mut frontier: Vec<Pattern> = Vec::new();
        frontier.push(Pattern::new());
        let search = Search { partitions, rules: Vec::new(), frontier, claimed: Ghost(Seq::empty()) };
        assert(search@.frontier =~~= seq![Seq::<Literal>::empty()]);
        assert(search@.rules =~= Seq::<RuleModel>::empty());
        search
    }

    /// Classifies a candidate pattern: records it as a rule and claims its
    /// rows, drops it, or keeps it for the next degree.
    pub fn evaluate(&mut self, table: &BinaryTable, candidate: Pattern)
        requires
            table.wf(),
            safe(table.columns@.len() as int, table.rows as int, old(self)@),
            ascending(candidate@),
            within(candidate@, table.columns@.len() as int),
        ensures
            final(self)@ == evaluate(table@, old(self)@, candidate@),
            final(self)@.remaining.len() == old(self)@.remaining.len(),
            safe(table.columns@.len() as int, table.rows as int, final(self)@),
    {
        let ghost before = self@;
        assert forall|c: int, i: int|
            0 <= c < self.partitions@.len() && 0 <= i < self.partitions@[c]@.len() implies (
        #[trigger] self.partitions@[c]@[i]) < table.rows by {
            assert(before.remaining[c][i] < table.rows);
        }
        let counts = parallel_counts(table, &self.partitions, &candidate);
        let classes = counts.len();
        let mut hits: usize = 0;
        let mut first: usize = classes;
        for c in 0..classes
            invariant
                classes == counts@.len(),
                hits == hit_count(counts@, c as int),
                hits <= c,
                first <= classes,
                first == classes ==> forall|j: int| 0 <= j < c ==> counts@[j] == 0,
                first < classes ==> first < c && counts@[first as int] >= 1 && forall|j: int|
                    0 <= j < first ==> counts@[j] == 0,
        {
            if counts[c] >= 1 {
                hits = hits + 1;
                if first == classes {
                    first = c;
                }
            }
        }
        proof {
            lemma_evaluate_safe(
                table@,
                table.columns@.len() as int,
                table.rows as int,
                before,
                candidate@,
            );
            lemma_single_hit(counts@, counts@.len() as int);
            lemma_first_hit(counts@, 0);
        }
        if hits == 1 {
            let kept = keep_uncovered(table, &self.partitions[first], &candidate);
            self.partitions.set(first, kept);
            self.rules.push(Rule { label: first, pattern: candidate });
            proof {
                self.claimed@ = self.claimed@.push(covered_count(table@, before.remaining[first as int], candidate@));
            }
            assert(self@.remaining =~= evaluate(table@, before, candidate@).remaining);
            assert(self@.rules =~= evaluate(table@, before, candidate@).rules);
            assert(self@.frontier =~= before.frontier);
        } else if hits != 0 {
            self.frontier.push(candidate);
            assert(self@.frontier =~= evaluate(table@, before, candidate@).frontier);
            assert(self@.remaining =~= before.remaining);
            assert(self@.rules =~= before.rules);
        } else {
            assert(self@.remaining =~= before.remaining);
            assert(self@.rules =~= before.rules);
            assert(self@.frontier =~= before.frontier);
        }
    }

    /// Extends `parent` by `literal` and evaluates the result, unless the
    /// parent tests the literal's feature already or one of the result's
    /// subpatterns is not among `prev`.
    pub fn try_literal(&mut self, table: &BinaryTable, prev: &Vec<Pattern>, parent: &Pattern, literal: Literal)
        requires
            table.wf(),
            safe(table.columns@.len() as int, table.rows as int, old(self)@),
            ascending(parent@),
            within(parent@, table.columns@.len() as int),
            literal.feature < table.columns@.len(),
        ensures
            final(self)@ == try_literal(table@, patterns(prev@), old(self)@, parent@, literal),
            final(self)@.remaining.len() == old(self)@.remaining.len(),
            safe(table.columns@.len() as int, table.rows as int, final(self)@),
    {
        match parent.extend(literal) {
            None => {},
            Some(candidate) => {
                proof {
                    lemma_extended(parent@, literal, table.columns@.len() as int);
                }
                if has_subpatterns_in(prev, &candidate) {
                    self.evaluate(table, candidate);
                }
            },
        }
    }

    /// One degree of the search: every pattern of `prev` is extended by
    /// every feature of the table, first with the value true, then with
    /// false.
    pub fn extend_all(&mut self, table: &BinaryTable, prev: &Vec<Pattern>)
        requires
            table.wf(),
            safe(table.columns@.len() as int, table.rows as int, old(self)@),
            forall|k: int|
                0 <= k < prev@.len() ==> ascending(#[trigger] patterns(prev@)[k]) && within(
                    patterns(prev@)[k],
                    table.columns@.len() as int,
                ),
        ensures
            final(self)@ == after_parents(table@, patterns(prev@), old(self)@, prev@.len() as int),
            final(self)@.remaining.len() == old(self)@.remaining.len(),
            safe(table.columns@.len() as int, table.rows as int, final(self)@),
    {
        let width = table.columns.len();
        let ghost start = self@;
        for a in 0..prev.len()
            invariant
                table.wf(),
                width == table.columns@.len() == table@.len(),
                safe(width as int, table.rows as int, self@),
                forall|k: int|
                    0 <= k < prev@.len() ==> ascending(#[trigger] patterns(prev@)[k]) && within(
                        patterns(prev@)[k],
                        width as int,
                    ),
                self@ == after_parents(table@, patterns(prev@), start, a as int),
                self@.remaining.len() == start.remaining.len(),
        {
            let parent = &prev[a];
            let ghost begun = self@;
            assert(patterns(prev@)[a as int] == parent@);
            for f in 0..width
                invariant
                    table.wf(),
                    width == table.columns@.len() == table@.len(),
                    safe(width as int, table.rows as int, self@),
                    ascending(parent@),
                    within(parent@, width as int),
                    self@ == after_features(table@, patterns(prev@), begun, parent@, f as int),
                    self@.remaining.len() == begun.remaining.len(),
            {
                self.try_literal(table, prev, parent, Literal { feature: f, polarity: true });
                self.try_literal(table, prev, parent, Literal { feature: f, polarity: false });
            }
        }
    }

    /// One degree of the search: the patterns kept at the degree before are
    /// extended by every literal, and the frontier is built anew.
    pub fn advance(&mut self, table: &BinaryTable)
        requires
            table.wf(),
            safe(table.columns@.len() as int, table.rows as int, old(self)@),
        ensures
            final(self)@ == level(table@, old(self)@),
            final(self)@.remaining.len() == old(self)@.remaining.len(),
            safe(table.columns@.len() as int, table.rows as int, final(self)@),
    {
        let ghost before = self@;
        let mut prev: Vec<Pattern> = Vec::new();
        std::mem::swap(&mut prev, &mut self.frontier);
        proof {
            assert(patterns(prev@) == before.frontier);
            assert(self@.frontier =~= Seq::<Seq<Literal>>::empty());
            assert(self@ == SearchState { frontier: Seq::empty(), ..before });
            assert forall|k: int| 0 <= k < prev@.len() implies ascending(#[trigger] patterns(prev@)[k]) && within(
                patterns(prev@)[k],
                table.columns@.len() as int,
            ) by {
                assert(patterns(prev@)[k] == before.frontier[k]);
            }
        }
        self.extend_all(table, &prev);
    }
}

} // verus!

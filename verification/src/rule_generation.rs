//! The rule generator: fitting an ordered list of rules to a labelled
//! table, and classifying rows by it.

use vstd::prelude::*;

use crate::binarize::{binarized, lemma_binarized_shape, total_width, Binarizer, FeatureEncoding};
use crate::distinct::{class_codes, distinct, lemma_encoding_onto};
use crate::error::Error;
use crate::invariants::{degrees_ascend, lemma_fitted};
use crate::pattern::{ascending, holds, within, Literal, Pattern};
use crate::search::{
    fitted, initial, largest, last_degree, members, row_lists, rows_left, rule_models, safe, search_from, sizes,
    Rule, RuleModel, Search,
};
use crate::table::{BinaryTable, ColumnData, Kind, Scalar, Table};
use crate::training::{classified, lemma_fitted_classified};

verus! {

/// The class that the first `upto` rules give a row: that of the first rule
/// whose pattern holds in it, if there is one.
pub open spec fn matched(table: Seq<Seq<bool>>, rules: Seq<RuleModel>, row: int, upto: int) -> Option<usize>
    decreases upto,
{
    if upto <= 0 {
        None
    } else {
        match matched(table, rules, row, upto - 1) {
            Some(class) => Some(class),
            None => if holds(table, rules[upto - 1].pattern, row) {
                Some(rules[upto - 1].label)
            } else {
                None
            },
        }
    }
}

/// The class predicted for a row: that of the first rule that matches, or
/// the fallback class.
pub open spec fn predicted_class(table: Seq<Seq<bool>>, rules: Seq<RuleModel>, fallback: usize, row: int) -> usize {
    match matched(table, rules, row, rules.len() as int) {
        Some(class) => class,
        None => fallback,
    }
}

/// The labels predicted for the rows of a boolean table. A model that was
/// fitted to no row knows no label, and predicts values of no kind.
pub open spec fn predicted(
    table: Seq<Seq<bool>>,
    rows: int,
    rules: Seq<RuleModel>,
    fallback: usize,
    labels: Seq<Scalar>,
) -> Seq<Scalar> {
    Seq::new(
        rows as nat,
        |r: int|
            if labels.len() == 0 {
                Scalar::Opaque
            } else {
                labels[predicted_class(table, rules, fallback, r) as int]
            },
    )
}

/// The coverage mask of a pattern: for every row, whether all literals hold.
pub open spec fn mask_of(table: Seq<Seq<bool>>, rows: int, p: Seq<Literal>) -> Seq<bool> {
    Seq::new(rows as nat, |r: int| holds(table, p, r))
}

/// Mines an ordered list of rules from a labelled table, and classifies rows
/// by it.
#[derive(Clone, Debug)]
pub struct RuleGenerator {
    pub bin: Binarizer,
    pub max: usize,
    pub rules: Vec<Rule>,
    pub labels: ColumnData,
    pub fallback_label: usize,
    pub fitted: bool,
}

impl RuleGenerator {
    /// The number of boolean features that the binarizer gives.
    pub open spec fn width(&self) -> nat {
        total_width(self.bin.model(), self.bin.encodings@.len() as int)
    }

    /// A fitted generator has a fitted binarizer; every rule speaks of
    /// features that the binarizer gives and of a class that has a label, and
    /// so does the fallback.
    pub open spec fn wf(&self) -> bool {
        &&& self.fitted ==> self.bin.fitted
        &&& self.labels@.len() > 0 ==> self.fallback_label < self.labels@.len()
        &&& forall|k: int|
            0 <= k < self.rules@.len() ==> ascending((#[trigger] rule_models(self.rules@)[k]).pattern) && within(
                rule_models(self.rules@)[k].pattern,
                self.width() as int,
            ) && rule_models(self.rules@)[k].label < self.labels@.len()
    }

    /// The number of boolean features that the binarizer gives, unless it
    /// is beyond what can be counted.
    fn feature_count(&self) -> (count: Option<usize>)
        ensures
            match count {
                Some(width) => width == self.width(),
                None => self.width() > usize::MAX,
            },
    {
        let mut width: usize = 0;
        let n = self.bin.encodings.len();
        for e in 0..n
            invariant
                n == self.bin.encodings@.len(),
                width == total_width(self.bin.model(), e as int),
        {
            let more = match &self.bin.encodings[e] {
                FeatureEncoding::Indicator { values, .. } => values.len(),
                FeatureEncoding::Threshold { cutpoints, .. } => cutpoints.len(),
            };
            assert(more == crate::binarize::width(self.bin.model()[e as int]));
            match width.checked_add(more) {
                Some(sum) => {
                    width = sum;
                },
                None => {
                    proof {
                        lemma_width_grows(self.bin.model(), e + 1, n as int);
                    }
                    return None;
                },
            }
        }
        Some(width)
    }

    /// Whether the generator is as `wf` says.
    pub fn is_well_formed(&self) -> (ok: bool)
        ensures
            ok == self.wf(),
    {
        if self.fitted && !self.bin.fitted {
            return false;
        }
        let classes = self.labels.len();
        if classes > 0 && self.fallback_label >= classes {
            return false;
        }
        let width = self.feature_count();
        for k in 0..self.rules.len()
            invariant
                classes == self.labels@.len(),
                match width {
                    Some(w) => w == self.width(),
                    None => self.width() > usize::MAX,
                },
                forall|j: int|
                    0 <= j < k ==> ascending((#[trigger] rule_models(self.rules@)[j]).pattern) && within(
                        rule_models(self.rules@)[j].pattern,
                        self.width() as int,
                    ) && rule_models(self.rules@)[j].label < self.labels@.len(),
        {
            let rule = &self.rules[k];
            assert(rule_models(self.rules@)[k as int] == rule@);
            if rule.label >= classes {
                return false;
            }
            let literals = &rule.pattern.literals;
            for i in 0..literals.len()
                invariant
                    literals@ == rule.pattern@,
                    rule_models(self.rules@)[k as int] == rule@,
                    k < self.rules@.len(),
                    match width {
                        Some(w) => w == self.width(),
                        None => self.width() > usize::MAX,
                    },
                    forall|a: int, b: int|
                        0 <= a < b < i ==> (#[trigger] literals@[a]).feature < (#[trigger] literals@[b]).feature,
                    forall|j: int| 0 <= j < i ==> (#[trigger] literals@[j]).feature < self.width(),
            {
                let feature = literals[i].feature;
                let fits = match width {
                    Some(w) => feature < w,
                    None => true,
                };
                if !fits {
                    return false;
                }
                if i > 0 && literals[i - 1].feature >= feature {
                    return false;
                }
            }
        }
        true
    }

    /// What `predict` returns for a table.
    pub open spec fn prediction(&self, data: Table) -> Result<Seq<Scalar>, Error> {
        if !self.fitted {
            Err(Error::NotFitted)
        } else {
            match binarized(self.bin.model(), data, self.bin.encodings@.len() as int) {
                Some(table) => Ok(
                    predicted(
                        table,
                        data.rows as int,
                        rule_models(self.rules@),
                        self.fallback_label,
                        self.labels@,
                    ),
                ),
                None => Err(Error::SchemaMismatch),
            }
        }
    }

    /// Whether `result` is what `predict` returns for a table.
    pub open spec fn is_prediction(&self, data: Table, result: Result<ColumnData, Error>) -> bool {
        match self.prediction(data) {
            Ok(labels) => result matches Ok(column) && column@ == labels,
            Err(e) => result == Err::<ColumnData, Error>(e),
        }
    }

    /// An unfitted generator over a copy of `bin`. Patterns get at most
    /// `max` literals; with zero, as many as there are features.
    #[must_use]
    pub fn new(bin: &Binarizer, max: usize) -> (generator: Self)
        ensures
            !generator.fitted,
            generator.wf(),
            generator.max == max,
            generator.rules@.len() == 0,
            generator.bin.model() == bin.model(),
            generator.bin.fitted == bin.fitted,
            generator.bin.threshold == bin.threshold,
            generator.bin.nominal_size == bin.nominal_size,
            generator.bin.max_cutpoints == bin.max_cutpoints,
    {
        Self {
            bin: bin.duplicate(),
            max,
            rules: Vec::new(),
            labels: ColumnData::Boolean(Vec::new()),
            fallback_label: 0,
            fitted: false,
        }
    }

    /// A copy of the rules, in the order in which they were found.
    pub fn get_rules(&self) -> (copy: Result<Vec<Rule>, Error>)
        ensures
            !self.fitted <==> copy == Err::<Vec<Rule>, Error>(Error::NotFitted),
            self.fitted ==> (copy matches Ok(rules) && rule_models(rules@) == rule_models(self.rules@)),
    {
        if !self.fitted {
            return Err(Error::NotFitted);
        }
        let mut rules: Vec<Rule> = Vec::new();
        for k in 0..self.rules.len()
            invariant
                rules@.len() == k,
                forall|j: int| 0 <= j < k ==> (#[trigger] rules@[j])@ == self.rules@[j]@,
        {
            rules.push(self.rules[k].duplicate());
        }
        assert(rule_models(rules@) =~= rule_models(self.rules@));
        Ok(rules)
    }

    /// The coverage mask of a pattern on a boolean table: one entry per row,
    /// true where every literal of the pattern holds.
    pub fn coverage(&self, data: &BinaryTable, pattern: &Pattern) -> (mask: Result<Vec<bool>, Error>)
        requires
            data.wf(),
        ensures
            !within(pattern@, data.columns@.len() as int) <==> mask == Err::<Vec<bool>, Error>(
                Error::SchemaMismatch,
            ),
            within(pattern@, data.columns@.len() as int) ==> (mask matches Ok(covered) && covered@ == mask_of(
                data@,
                data.rows as int,
                pattern@,
            )),
            mask matches Ok(covered) ==> covered@.len() == data.rows && (pattern@.len() == 0 ==> forall|r: int|
                0 <= r < covered@.len() ==> covered@[r]),
    {
        let width = data.columns.len();
        for k in 0..pattern.literals.len()
            invariant
                width == data.columns@.len(),
                forall|j: int| 0 <= j < k ==> (#[trigger] pattern@[j]).feature < width,
        {
            if pattern.literals[k].feature >= width {
                return Err(Error::SchemaMismatch);
            }
        }
        let mut covered: Vec<bool> = Vec::new();
        for r in 0..data.rows
            invariant
                data.wf(),
                within(pattern@, data.columns@.len() as int),
                covered@.len() == r,
                forall|i: int| 0 <= i < r ==> covered@[i] == holds(data@, pattern@, i),
        {
            covered.push(pattern.covers(&data.columns, r));
        }
        assert(covered@ =~= mask_of(data@, data.rows as int, pattern@));
        Ok(covered)
    }

    /// Divides the rows by class: for every class its rows, in ascending
    /// order.
    pub fn divide_data(&self, codes: &Vec<usize>, classes: usize) -> (partitions: Vec<Vec<usize>>)
        ensures
            row_lists(partitions@) == initial(codes@, classes as int).remaining,
    {
        let mut partitions: Vec<Vec<usize>> = Vec::new();
        for c in 0..classes
            invariant
                partitions@.len() == c,
                forall|k: int| 0 <= k < c ==> (#[trigger] partitions@[k])@ == members(codes@, k, codes@.len() as int),
        {
            let mut rows: Vec<usize> = Vec::new();
            for r in 0..codes.len()
                invariant
                    rows@ == members(codes@, c as int, r as int),
            {
                if codes[r] == c {
                    rows.push(r);
                }
            }
            partitions.push(rows);
        }
        assert(row_lists(partitions@) =~= initial(codes@, classes as int).remaining);
        partitions
    }

    /// The class with the most rows left; of several, the last.
    fn largest_of(partitions: &Vec<Vec<usize>>) -> (class: usize)
        ensures
            class == largest(sizes(row_lists(partitions@)), partitions@.len() as int),
            partitions@.len() > 0 ==> class < partitions@.len(),
    {
        let mut class: usize = 0;
        let mut c: usize = 1;
        while c < partitions.len()
            invariant
                1 <= c,
                c <= partitions@.len() || c == 1,
                class == largest(sizes(row_lists(partitions@)), c as int),
                class < c,
            decreases partitions@.len() - c,
        {
            if partitions[c].len() >= partitions[class].len() {
                class = c;
            }
            c = c + 1;
        }
        assert(class == largest(sizes(row_lists(partitions@)), partitions@.len() as int)) by {
            if partitions@.len() == 0 {
                assert(largest(sizes(row_lists(partitions@)), 0) == 0);
                assert(largest(sizes(row_lists(partitions@)), 1) == 0);
            }
        }
        class
    }

    /// Whether no row is left in any class.
    fn none_left(partitions: &Vec<Vec<usize>>) -> (none: bool)
        ensures
            none == (rows_left(row_lists(partitions@), partitions@.len() as int) == 0),
    {
        for c in 0..partitions.len()
            invariant
                rows_left(row_lists(partitions@), c as int) == 0,
        {
            if partitions[c].len() != 0 {
                proof {
                    lemma_rows_left_grows(row_lists(partitions@), c + 1, partitions@.len() as int);
                }
                return false;
            }
        }
        true
    }

    /// Fits the rules to a labelled table. The table is encoded by the
    /// binarizer, which must have been fitted. The rows are divided by their
    /// label; degree by degree, every pattern kept at the degree before is
    /// extended by one literal, and every pattern that covers remaining rows
    /// of exactly one class becomes a rule that claims them.
    ///
    /// On failure the generator is left as it was.
    pub fn fit(&mut self, data: &Table, labels: &ColumnData) -> (done: Result<(), Error>)
        requires
            data.wf(),
        ensures
            done is Err ==> *final(self) == *old(self),
            done == Err::<(), Error>(Error::RowCountMismatch) <==> data.rows != labels@.len(),
            done == Err::<(), Error>(Error::ColumnTypeUnsupported) <==> data.rows == labels@.len() && labels.kind()
                == Kind::Opaque,
            done == Err::<(), Error>(Error::NotFitted) <==> data.rows == labels@.len() && labels.kind()
                != Kind::Opaque && !old(self).bin.fitted,
            done == Err::<(), Error>(Error::SchemaMismatch) <==> data.rows == labels@.len() && labels.kind()
                != Kind::Opaque && old(self).bin.fitted && binarized(
                old(self).bin.model(),
                *data,
                old(self).bin.encodings@.len() as int,
            ) is None,
            done is Ok <==> data.rows == labels@.len() && labels.kind() != Kind::Opaque && old(self).bin.fitted
                && binarized(old(self).bin.model(), *data, old(self).bin.encodings@.len() as int) is Some,
            done is Ok ==> {
                let table = binarized(old(self).bin.model(), *data, old(self).bin.encodings@.len() as int)->0;
                let outcome = fitted(table, class_codes(labels@), distinct(labels@).len() as int, old(self).max);
                &&& final(self).fitted
                &&& final(self).wf()
                &&& final(self).bin == old(self).bin
                &&& final(self).max == old(self).max
                &&& final(self).labels@ == distinct(labels@)
                &&& final(self).labels.kind() == labels.kind()
                &&& rule_models(final(self).rules@) == outcome.0.rules
                &&& final(self).fallback_label == outcome.1
                &&& degrees_ascend(
                    rule_models(final(self).rules@),
                    0,
                    1,
                    last_degree(old(self).max, table.len() as usize) as int,
                )
                &&& classified(table, class_codes(labels@), outcome.0)
            },
    {
        if data.rows != labels.len() {
            return Err(Error::RowCountMismatch);
        }
        if labels.kind() == Kind::Opaque {
            return Err(Error::ColumnTypeUnsupported);
        }
        let table = match self.bin.transform(data) {
            Ok(table) => table,
            Err(e) => {
                return Err(e);
            },
        };
        let (firsts, codes) = labels.classes();
        let classes = firsts.len();
        let names = labels.gather(&firsts);
        proof {
            lemma_encoding_onto(labels@, firsts@, codes@);
            assert(codes@ =~= class_codes(labels@));
            assert(names@ =~= distinct(labels@));
        }
        let width = table.columns.len();
        let last = if self.max == 0 || self.max > width {
            width
        } else {
            self.max
        };
        let partitions = self.divide_data(&codes, classes);
        let mut fallback = Self::largest_of(&partitions);
        let mut search = Search::new(partitions);
        let ghost goal = fitted(table@, codes@, classes as int, self.max);
        proof {
            assert(search@ == initial(codes@, classes as int));
            lemma_initial_safe(codes@, classes as int, width as int);
            assert(last == last_degree(self.max, table@.len() as usize));
        }
        let mut d: usize = 1;
        let mut finished = false;
        while d <= last && !finished
            invariant
                table.wf(),
                width == table.columns@.len() == table@.len(),
                1 <= d,
                last <= width,
                search@.remaining.len() == classes,
                classes > 0 ==> fallback < classes,
                safe(width as int, table.rows as int, search@),
                goal == if finished {
                    (search@, fallback as int)
                } else {
                    search_from(table@, search@, fallback as int, d as int, last as int)
                },
            decreases last - d + if finished { 0int } else { 1int },
        {
            search.advance(&table);
            if Self::none_left(&search.partitions) {
                finished = true;
            } else if d == last {
                fallback = Self::largest_of(&search.partitions);
                finished = true;
            } else {
                d = d + 1;
            }
        }
        let Search { partitions: _, rules, frontier: _, claimed: _ } = search;
        proof {
            lemma_binarized_shape(self.bin.model(), *data, self.bin.encodings@.len() as int);
            lemma_fitted(table@, codes@, classes as int, self.max);
            lemma_fitted_classified(table@, codes@, classes as int, self.max);
        }
        self.rules = rules;
        self.labels = names;
        self.fallback_label = fallback;
        self.fitted = true;
        Ok(())
    }

    /// Classifies the rows of a table. The table is encoded by the
    /// binarizer; a row gets the label of the first rule whose pattern holds
    /// in it, and the fallback label where none does.
    pub fn predict(&self, data: &Table) -> (result: Result<ColumnData, Error>)
        requires
            self.wf(),
            data.wf(),
        ensures
            self.is_prediction(*data, result),
    {
        if !self.fitted {
            return Err(Error::NotFitted);
        }
        let table = match self.bin.transform(data) {
            Ok(table) => table,
            Err(e) => {
                return Err(e);
            },
        };
        let rows = table.rows;
        if self.labels.len() == 0 {
            let unknown = ColumnData::Opaque(rows);
            assert(unknown@ =~= self.prediction(*data)->Ok_0);
            return Ok(unknown);
        }
        let mut predictions: Vec<Option<usize>> = Vec::new();
        for r in 0..rows
            invariant
                predictions@.len() == r,
                forall|i: int| 0 <= i < r ==> predictions@[i] is None,
        {
            predictions.push(None);
        }
        let ghost models = rule_models(self.rules@);
        for k in 0..self.rules.len()
            invariant
                self.wf(),
                table.wf(),
                rows == table.rows,
                table.columns@.len() == self.width(),
                models == rule_models(self.rules@),
                predictions@.len() == rows,
                forall|i: int| 0 <= i < rows ==> predictions@[i] == matched(table@, models, i, k as int),
        {
            let rule = &self.rules[k];
            assert(models[k as int] == rule@);
            let covered = match self.coverage(&table, &rule.pattern) {
                Ok(covered) => covered,
                Err(_) => unreached(),
            };
            for r in 0..rows
                invariant
                    rows == table.rows,
                    models == rule_models(self.rules@),
                    k < self.rules@.len(),
                    models[k as int] == rule@,
                    covered@ == mask_of(table@, rows as int, rule.pattern@),
                    predictions@.len() == rows,
                    forall|i: int| 0 <= i < r ==> predictions@[i] == matched(table@, models, i, k + 1),
                    forall|i: int| r <= i < rows ==> predictions@[i] == matched(table@, models, i, k as int),
            {
                if covered[r] && predictions[r].is_none() {
                    predictions.set(r, Some(rule.label));
                }
            }
        }
        let mut classes: Vec<usize> = Vec::new();
        for r in 0..rows
            invariant
                self.wf(),
                self.labels@.len() > 0,
                models == rule_models(self.rules@),
                predictions@.len() == rows,
                forall|i: int|
                    0 <= i < rows ==> predictions@[i] == matched(table@, models, i, self.rules@.len() as int),
                classes@.len() == r,
                forall|i: int|
                    0 <= i < r ==> classes@[i] == predicted_class(table@, models, self.fallback_label, i)
                        && classes@[i] < self.labels@.len(),
        {
            let class = match predictions[r] {
                Some(class) => class,
                None => self.fallback_label,
            };
            proof {
                lemma_matched_label(table@, models, r as int, models.len() as int);
            }
            classes.push(class);
        }
        let column = self.labels.gather(&classes);
        assert(column@ =~= self.prediction(*data)->Ok_0);
        Ok(column)
    }
}

/// Predicting twice with one model on one table gives the same labels, or
/// the same error.
pub proof fn lemma_predict_repeatable(
    generator: RuleGenerator,
    data: Table,
    first: Result<ColumnData, Error>,
    second: Result<ColumnData, Error>,
)
    requires
        generator.is_prediction(data, first),
        generator.is_prediction(data, second),
    ensures
        first is Ok <==> second is Ok,
        first is Ok ==> first->Ok_0@ == second->Ok_0@,
        first is Err ==> first == second,
{
}

proof fn lemma_width_grows(encodings: Seq<crate::binarize::Encoding>, from: int, upto: int)
    requires
        0 <= from <= upto,
    ensures
        total_width(encodings, from) <= total_width(encodings, upto),
    decreases upto - from,
{
    if from < upto {
        lemma_width_grows(encodings, from, upto - 1);
    }
}

proof fn lemma_matched_label(table: Seq<Seq<bool>>, rules: Seq<RuleModel>, row: int, upto: int)
    requires
        0 <= upto <= rules.len(),
    ensures
        matched(table, rules, row, upto) matches Some(class) ==> exists|k: int|
            0 <= k < upto && (#[trigger] rules[k]).label == class,
    decreases upto,
{
    if upto > 0 {
        lemma_matched_label(table, rules, row, upto - 1);
    }
}

proof fn lemma_rows_left_grows(remaining: Seq<Seq<usize>>, from: int, upto: int)
    requires
        0 <= from <= upto,
    ensures
        rows_left(remaining, from) <= rows_left(remaining, upto),
    decreases upto - from,
{
    if from < upto {
        lemma_rows_left_grows(remaining, from, upto - 1);
    }
}

proof fn lemma_initial_safe(codes: Seq<usize>, classes: int, width: int)
    requires
        0 <= classes,
    ensures
        safe(width, codes.len() as int, initial(codes, classes)),
{
    let s = initial(codes, classes);
    assert forall|c: int, i: int| 0 <= c < s.remaining.len() && 0 <= i < s.remaining[c].len() implies (
    #[trigger] s.remaining[c][i]) < codes.len() by {
        lemma_members(codes, c, codes.len() as int);
    }
}

proof fn lemma_members(codes: Seq<usize>, c: int, upto: int)
    requires
        0 <= upto <= codes.len(),
    ensures
        forall|i: int| 0 <= i < members(codes, c, upto).len() ==> (#[trigger] members(codes, c, upto)[i]) < upto,
    decreases upto,
{
    if upto > 0 {
        lemma_members(codes, c, upto - 1);
        let before = members(codes, c, upto - 1);
        assert forall|i: int| 0 <= i < members(codes, c, upto).len() implies (#[trigger] members(codes, c, upto)[i])
            < upto by {
            if i < before.len() {
                assert(members(codes, c, upto)[i] == before[i]);
            }
        }
    }
}

} // verus!

//! The binarizer: it learns, for every column of a table, either the set of
//! its values or a ranked list of numeric cutpoints, and turns tables into
//! boolean tables by them.

use vstd::prelude::*;

use crate::cutpoints::{
    candidates, codes_fit, lemma_cutpoints_keep_best, ranked, scan, select, selected, Cutpoint,
};
use crate::distinct::{class_codes, distinct, lemma_distinct, lemma_encoding_onto};
use crate::error::Error;
use crate::order::MAX_ROWS;
use crate::table::{grid, BinaryTable, Column, ColumnData, Kind, Scalar, Table};

verus! {

/// How one source column is turned into boolean columns.
#[derive(Clone, Debug)]
pub enum FeatureEncoding {
    /// One boolean column per value: whether the cell equals it. The values
    /// are distinct and stand in the order in which they were first seen.
    Indicator { feature: String, values: ColumnData },
    /// One boolean column per cutpoint: whether the cell is above it. The
    /// cutpoints stand by descending score.
    Threshold { feature: String, cutpoints: Vec<Cutpoint> },
}

/// The mathematical content of a `FeatureEncoding`.
pub enum Encoding {
    Indicator { feature: Seq<char>, kind: Kind, values: Seq<Scalar> },
    Threshold { feature: Seq<char>, cutpoints: Seq<Cutpoint> },
}

impl View for FeatureEncoding {
    type V = Encoding;

    open spec fn view(&self) -> Encoding {
        match self {
            FeatureEncoding::Indicator { feature, values } => Encoding::Indicator {
                feature: feature@,
                kind: values.kind(),
                values: values@,
            },
            FeatureEncoding::Threshold { feature, cutpoints } => Encoding::Threshold {
                feature: feature@,
                cutpoints: cutpoints@,
            },
        }
    }
}

impl FeatureEncoding {
    /// A copy of the encoding.
    pub fn duplicate(&self) -> (copy: FeatureEncoding)
        ensures
            copy@ == self@,
    {
        match self {
            FeatureEncoding::Indicator { feature, values } => FeatureEncoding::Indicator {
                feature: feature.clone(),
                values: values.duplicate(),
            },
            FeatureEncoding::Threshold { feature, cutpoints } => FeatureEncoding::Threshold {
                feature: feature.clone(),
                cutpoints: cutpoints.clone(),
            },
        }
    }
}

/// The number of boolean columns that an encoding gives.
pub open spec fn width(encoding: Encoding) -> nat {
    match encoding {
        Encoding::Indicator { values, .. } => values.len(),
        Encoding::Threshold { cutpoints, .. } => cutpoints.len(),
    }
}

/// The number of boolean columns that the first `upto` encodings give.
pub open spec fn total_width(encodings: Seq<Encoding>, upto: int) -> nat
    decreases upto,
{
    if upto <= 0 {
        0
    } else {
        total_width(encodings, upto - 1) + width(encodings[upto - 1])
    }
}

/// An encoding as it is stored: indicator values are distinct, cutpoints
/// stand by descending score and are at most `limit`.
pub open spec fn encoding_wf(encoding: Encoding, limit: int) -> bool {
    match encoding {
        Encoding::Indicator { values, .. } => values.no_duplicates(),
        Encoding::Threshold { cutpoints, .. } => cutpoints.len() <= limit && forall|a: int, b: int|
            0 <= a < b < cutpoints.len() ==> cutpoints[a].score >= cutpoints[b].score,
    }
}

/// The encoding learned for a column, given the class of every row. A
/// numeric column with more than `nominal_size` distinct values gets
/// cutpoints; every other column gets its distinct values.
pub open spec fn encoded(
    column: Column,
    codes: Seq<usize>,
    classes: int,
    threshold: u64,
    nominal_size: usize,
    max_cutpoints: usize,
) -> Encoding {
    match column.data {
        ColumnData::Number(numbers) if distinct(column.data@).len() > nominal_size => Encoding::Threshold {
            feature: column.name@,
            cutpoints: selected(candidates(numbers@, codes, classes, threshold), max_cutpoints as int),
        },
        _ => Encoding::Indicator {
            feature: column.name@,
            kind: column.data.kind(),
            values: distinct(column.data@),
        },
    }
}

/// The cutpoints stored for a numeric column with more than `nominal_size`
/// distinct values are the best of its candidates: as many as
/// `max_cutpoints` allows, each of them a candidate, and none with a lower
/// score than a candidate that was dropped.
pub proof fn lemma_stored_cutpoints_are_best(
    column: Column,
    numbers: Vec<i64>,
    codes: Seq<usize>,
    classes: usize,
    threshold: u64,
    nominal_size: usize,
    max_cutpoints: usize,
)
    requires
        column.data == ColumnData::Number(numbers),
        numbers@.len() <= usize::MAX,
        distinct(column.data@).len() > nominal_size,
        codes.len() == numbers@.len(),
        forall|r: int| 0 <= r < codes.len() ==> (#[trigger] codes[r]) < classes,
        forall|c: usize| c < classes ==> #[trigger] codes.contains(c),
    ensures
        ({
            let found = candidates(numbers@, codes, classes as int, threshold);
            let stored = encoded(column, codes, classes as int, threshold, nominal_size, max_cutpoints);
            let dropped_from = if max_cutpoints < found.len() {
                max_cutpoints as int
            } else {
                found.len() as int
            };
            &&& stored is Threshold
            &&& stored->Threshold_cutpoints.len() == dropped_from
            &&& forall|j: int| 0 <= j < dropped_from ==> found.contains(#[trigger] stored->Threshold_cutpoints[j])
            &&& forall|a: int, b: int|
                0 <= a < dropped_from <= b < found.len() ==> stored->Threshold_cutpoints[a].score >= ranked(
                    found,
                )[b].score
        }),
{
    lemma_cutpoints_keep_best(numbers@, codes, classes as int, threshold, max_cutpoints as int);
}

/// One boolean column per value: where the cells equal it.
pub open spec fn indicator_masks(cells: Seq<Scalar>, values: Seq<Scalar>) -> Seq<Seq<bool>> {
    Seq::new(values.len(), |v: int| Seq::new(cells.len(), |r: int| cells[r] == values[v]))
}

/// One boolean column per cutpoint: where the numbers are above it.
pub open spec fn threshold_masks(numbers: Seq<i64>, cutpoints: Seq<Cutpoint>) -> Seq<Seq<bool>> {
    Seq::new(cutpoints.len(), |k: int| Seq::new(numbers.len(), |r: int| numbers[r] > cutpoints[k].value))
}

/// The boolean columns that an encoding gives on a table, or `None` where
/// the table has no column of the encoding's name or its first column of
/// that name holds values of another kind.
pub open spec fn feature_masks(encoding: Encoding, data: Table) -> Option<Seq<Seq<bool>>> {
    match encoding {
        Encoding::Indicator { feature, kind, values } => match data.position(feature) {
            Some(c) => if data.columns@[c].data.kind() == kind {
                Some(indicator_masks(data.columns@[c].data@, values))
            } else {
                None
            },
            None => None,
        },
        Encoding::Threshold { feature, cutpoints } => match data.position(feature) {
            Some(c) => match data.columns@[c].data {
                ColumnData::Number(numbers) => Some(threshold_masks(numbers@, cutpoints)),
                _ => None,
            },
            None => None,
        },
    }
}

/// The boolean columns that the first `upto` encodings give on a table, in
/// the order of the encodings and, within one, of its values or cutpoints.
pub open spec fn binarized(encodings: Seq<Encoding>, data: Table, upto: int) -> Option<Seq<Seq<bool>>>
    decreases upto,
{
    if upto <= 0 {
        Some(Seq::empty())
    } else {
        match (binarized(encodings, data, upto - 1), feature_masks(encodings[upto - 1], data)) {
            (Some(before), Some(masks)) => Some(before + masks),
            _ => None,
        }
    }
}

/// The number of columns of an encoded table is the sum, over the
/// encodings, of the number of values or cutpoints of each, and every
/// column has as many cells as the table has rows.
pub proof fn lemma_binarized_shape(encodings: Seq<Encoding>, data: Table, upto: int)
    requires
        data.wf(),
        0 <= upto <= encodings.len(),
        binarized(encodings, data, upto) is Some,
    ensures
        binarized(encodings, data, upto)->0.len() == total_width(encodings, upto),
        forall|c: int|
            0 <= c < binarized(encodings, data, upto)->0.len() ==> (#[trigger] binarized(
                encodings,
                data,
                upto,
            )->0[c]).len() == data.rows,
    decreases upto,
{
    if upto > 0 {
        lemma_binarized_shape(encodings, data, upto - 1);
        lemma_position_in_range(data, encodings[upto - 1]);
    }
}

proof fn lemma_position_from(data: Table, name: Seq<char>, from: int)
    requires
        0 <= from,
    ensures
        data.position_from(name, from) matches Some(c) ==> from <= c < data.columns@.len(),
    decreases data.columns@.len() - from,
{
    if from < data.columns@.len() && data.columns@[from].name@ != name {
        lemma_position_from(data, name, from + 1);
    }
}

proof fn lemma_position_in_range(data: Table, encoding: Encoding)
    ensures
        match encoding {
            Encoding::Indicator { feature, .. } => data.position(feature) matches Some(c) ==> 0 <= c
                < data.columns@.len(),
            Encoding::Threshold { feature, .. } => data.position(feature) matches Some(c) ==> 0 <= c
                < data.columns@.len(),
        },
{
    match encoding {
        Encoding::Indicator { feature, .. } => lemma_position_from(data, feature, 0),
        Encoding::Threshold { feature, .. } => lemma_position_from(data, feature, 0),
    }
}

/// Learns and applies the boolean encoding of a table.
#[derive(Clone, Debug)]
pub struct Binarizer {
    pub encodings: Vec<FeatureEncoding>,
    pub fitted: bool,
    pub threshold: u64,
    pub nominal_size: usize,
    pub max_cutpoints: usize,
}

impl Binarizer {
    /// The stored encodings, one per source column. Whether the binarizer is
    /// fitted, and its three settings, are no part of this: contracts speak
    /// of those fields by name.
    pub open spec fn model(&self) -> Seq<Encoding> {
        Seq::new(self.encodings@.len(), |c: int| self.encodings@[c]@)
    }

    /// Every stored encoding is as `encoding_wf` says.
    pub open spec fn wf(&self) -> bool {
        forall|c: int|
            0 <= c < self.encodings@.len() ==> encoding_wf(
                #[trigger] self.model()[c],
                self.max_cutpoints as int,
            )
    }

    /// An unfitted binarizer. A candidate cutpoint needs a score of at least
    /// `threshold`, in units of `1 / SCORE_UNIT`; a numeric column with at
    /// most `nominal_size` distinct values is encoded by its values; at most
    /// `max_cutpoints_per_column` cutpoints are kept for a column.
    #[must_use]
    pub fn new(threshold: u64, nominal_size: usize, max_cutpoints_per_column: usize) -> (binarizer: Self)
        ensures
            !binarizer.fitted,
            binarizer.encodings@.len() == 0,
            binarizer.threshold == threshold,
            binarizer.nominal_size == nominal_size,
            binarizer.max_cutpoints == max_cutpoints_per_column,
            binarizer.wf(),
    {
        Self {
            encodings: Vec::new(),
            fitted: false,
            threshold,
            nominal_size,
            max_cutpoints: max_cutpoints_per_column,
        }
    }

    /// A copy of the stored encodings: none before fitting.
    #[must_use]
    pub fn get_cutpoints(&self) -> (copy: Vec<FeatureEncoding>)
        ensures
            copy@.len() == self.encodings@.len(),
            forall|c: int| 0 <= c < copy@.len() ==> (#[trigger] copy@[c])@ == self.model()[c],
    {
        let mut copy: Vec<FeatureEncoding> = Vec::new();
        for c in 0..self.encodings.len()
            invariant
                copy@.len() == c,
                forall|k: int| 0 <= k < c ==> (#[trigger] copy@[k])@ == self.model()[k],
        {
            copy.push(self.encodings[c].duplicate());
        }
        copy
    }

    /// A copy of the binarizer.
    pub fn duplicate(&self) -> (copy: Binarizer)
        ensures
            copy.model() == self.model(),
            copy.fitted == self.fitted,
            copy.threshold == self.threshold,
            copy.nominal_size == self.nominal_size,
            copy.max_cutpoints == self.max_cutpoints,
    {
        let copy = Binarizer {
            encodings: self.get_cutpoints(),
            fitted: self.fitted,
            threshold: self.threshold,
            nominal_size: self.nominal_size,
            max_cutpoints: self.max_cutpoints,
        };
        assert(copy.model() =~= self.model());
        copy
    }

    /// Learns the encoding of one column.
    fn encode_column(&self, column: &Column, codes: &Vec<usize>, classes: usize) -> (learned: FeatureEncoding)
        requires
            column.data@.len() <= MAX_ROWS,
            codes_fit(column.data@.len() as int, codes@, classes as int),
        ensures
            learned@ == encoded(
                *column,
                codes@,
                classes as int,
                self.threshold,
                self.nominal_size,
                self.max_cutpoints,
            ),
            encoding_wf(learned@, self.max_cutpoints as int),
    {
        proof {
            lemma_distinct(column.data@);
        }
        let few = match &column.data {
            ColumnData::Number(numbers) => match column.data.encode(self.nominal_size) {
                Some((firsts, _)) => firsts,
                None => {
                    assert(column.data@.len() == numbers@.len());
                    let found = scan(numbers, codes, classes, self.threshold);
                    let kept = select(&found, self.max_cutpoints);
                    return FeatureEncoding::Threshold { feature: column.name.clone(), cutpoints: kept };
                },
            },
            _ => column.data.classes().0,
        };
        let values = column.data.gather(&few);
        assert(values@ =~= distinct(column.data@));
        FeatureEncoding::Indicator { feature: column.name.clone(), values }
    }

    /// Whether a column of the table holds values that cannot be encoded.
    fn has_opaque(data: &Table) -> (found: bool)
        ensures
            found == exists|c: int|
                0 <= c < data.columns@.len() && (#[trigger] data.columns@[c]).data.kind() == Kind::Opaque,
    {
        for c in 0..data.columns.len()
            invariant
                forall|k: int| 0 <= k < c ==> (#[trigger] data.columns@[k]).data.kind() != Kind::Opaque,
        {
            if data.columns[c].data.kind() == Kind::Opaque {
                return true;
            }
        }
        false
    }

    /// Learns an encoding for every column of `data`, from the table and the
    /// class labels of its rows. A boolean or text column, and a numeric one
    /// with at most `nominal_size` distinct values, is encoded by its
    /// distinct values. Any other numeric column is scanned in sorted order
    /// for cutpoints, of which the best `max_cutpoints` are kept.
    ///
    /// On failure the binarizer is left as it was. A table that can be
    /// fitted must have at most `MAX_ROWS` rows; one that is refused may have
    /// any number.
    pub fn generate_cutpoints(&mut self, data: &Table, label: &ColumnData) -> (done: Result<(), Error>)
        requires
            data.wf(),
            data.rows == label@.len() && label.kind() != Kind::Opaque && (forall|c: int|
                0 <= c < data.columns@.len() ==> (#[trigger] data.columns@[c]).data.kind() != Kind::Opaque)
                ==> data.rows <= MAX_ROWS,
        ensures
            done == Err::<(), Error>(Error::RowCountMismatch) <==> data.rows != label@.len(),
            done == Err::<(), Error>(Error::ColumnTypeUnsupported) <==> data.rows == label@.len() && (label.kind()
                == Kind::Opaque || exists|c: int|
                0 <= c < data.columns@.len() && (#[trigger] data.columns@[c]).data.kind() == Kind::Opaque),
            done is Err ==> *final(self) == *old(self),
            done is Ok <==> data.rows == label@.len() && label.kind() != Kind::Opaque && forall|c: int|
                0 <= c < data.columns@.len() ==> (#[trigger] data.columns@[c]).data.kind() != Kind::Opaque,
            done is Ok ==> {
                &&& final(self).fitted
                &&& final(self).wf()
                &&& final(self).threshold == old(self).threshold
                &&& final(self).nominal_size == old(self).nominal_size
                &&& final(self).max_cutpoints == old(self).max_cutpoints
                &&& final(self).encodings@.len() == data.columns@.len()
                &&& forall|c: int|
                    0 <= c < data.columns@.len() ==> (#[trigger] final(self).model()[c]) == encoded(
                        data.columns@[c],
                        class_codes(label@),
                        distinct(label@).len() as int,
                        old(self).threshold,
                        old(self).nominal_size,
                        old(self).max_cutpoints,
                    )
            },
    {
        if data.rows != label.len() {
            return Err(Error::RowCountMismatch);
        }
        if label.kind() == Kind::Opaque || Self::has_opaque(data) {
            return Err(Error::ColumnTypeUnsupported);
        }
        let (firsts, codes) = label.classes();
        let classes = firsts.len();
        proof {
            lemma_encoding_onto(label@, firsts@, codes@);
            assert(codes@ =~= class_codes(label@));
        }
        let mut fresh: Vec<FeatureEncoding> = Vec::new();
        for c in 0..data.columns.len()
            invariant
                data.wf(),
                data.rows <= MAX_ROWS,
                data.rows == label@.len(),
                *self == *old(self),
                codes@ == class_codes(label@),
                classes == distinct(label@).len(),
                codes_fit(data.rows as int, codes@, classes as int),
                fresh@.len() == c,
                forall|k: int|
                    0 <= k < c ==> (#[trigger] fresh@[k])@ == encoded(
                        data.columns@[k],
                        class_codes(label@),
                        distinct(label@).len() as int,
                        self.threshold,
                        self.nominal_size,
                        self.max_cutpoints,
                    ) && encoding_wf(fresh@[k]@, self.max_cutpoints as int),
        {
            let column = &data.columns[c];
            let learned = self.encode_column(column, &codes, classes);
            fresh.push(learned);
        }
        self.encodings = fresh;
        self.fitted = true;
        Ok(())
    }

    /// The boolean columns that one encoding gives on a table.
    fn masks(encoding: &FeatureEncoding, data: &Table) -> (made: Option<Vec<Vec<bool>>>)
        requires
            data.wf(),
        ensures
            match feature_masks(encoding@, *data) {
                Some(masks) => made matches Some(columns) && grid(columns@) == masks,
                None => made is None,
            },
    {
        match encoding {
            FeatureEncoding::Indicator { feature, values } => {
                let c = match data.find(feature) {
                    Some(c) => c,
                    None => {
                        return None;
                    },
                };
                let cells = &data.columns[c].data;
                if cells.kind() != values.kind() {
                    return None;
                }
                let rows = cells.len();
                let count = values.len();
                let mut columns: Vec<Vec<bool>> = Vec::new();
                for v in 0..count
                    invariant
                        rows == cells@.len(),
                        count == values@.len(),
                        columns@.len() == v,
                        forall|k: int| 0 <= k < v ==> (#[trigger] columns@[k])@ == indicator_masks(cells@, values@)[k],
                {
                    let mut mask: Vec<bool> = Vec::new();
                    for r in 0..rows
                        invariant
                            rows == cells@.len(),
                            v < values@.len(),
                            mask@.len() == r,
                            forall|i: int| 0 <= i < r ==> mask@[i] == (cells@[i] == values@[v as int]),
                    {
                        mask.push(cells.same(r, values, v));
                    }
                    assert(mask@ =~= indicator_masks(cells@, values@)[v as int]);
                    columns.push(mask);
                }
                assert(grid(columns@) =~= indicator_masks(cells@, values@));
                Some(columns)
            },
            FeatureEncoding::Threshold { feature, cutpoints } => {
                let c = match data.find(feature) {
                    Some(c) => c,
                    None => {
                        return None;
                    },
                };
                let numbers = match &data.columns[c].data {
                    ColumnData::Number(numbers) => numbers,
                    _ => {
                        return None;
                    },
                };
                let rows = numbers.len();
                let mut columns: Vec<Vec<bool>> = Vec::new();
                for k in 0..cutpoints.len()
                    invariant
                        rows == numbers@.len(),
                        columns@.len() == k,
                        forall|j: int|
                            0 <= j < k ==> (#[trigger] columns@[j])@ == threshold_masks(numbers@, cutpoints@)[j],
                {
                    let cut = cutpoints[k].value;
                    let mut mask: Vec<bool> = Vec::new();
                    for r in 0..rows
                        invariant
                            rows == numbers@.len(),
                            k < cutpoints@.len(),
                            cut == cutpoints@[k as int].value,
                            mask@.len() == r,
                            forall|i: int| 0 <= i < r ==> mask@[i] == (numbers@[i] > cut),
                    {
                        mask.push(numbers[r] > cut);
                    }
                    assert(mask@ =~= threshold_masks(numbers@, cutpoints@)[k as int]);
                    columns.push(mask);
                }
                assert(grid(columns@) =~= threshold_masks(numbers@, cutpoints@));
                Some(columns)
            },
        }
    }

    /// Encodes a table: for every stored encoding, in order, one boolean
    /// column per value or cutpoint, in the order in which they are stored.
    /// The source column of an encoding is the first of its name.
    pub fn transform(&self, data: &Table) -> (result: Result<BinaryTable, Error>)
        requires
            data.wf(),
        ensures
            !self.fitted <==> result == Err::<BinaryTable, Error>(Error::NotFitted),
            self.fitted ==> match binarized(self.model(), *data, self.encodings@.len() as int) {
                Some(columns) => result matches Ok(table) && table@ == columns && table.rows == data.rows
                    && table.wf() && table.columns@.len() == total_width(
                    self.model(),
                    self.encodings@.len() as int,
                ),
                None => result == Err::<BinaryTable, Error>(Error::SchemaMismatch),
            },
    {
        if !self.fitted {
            return Err(Error::NotFitted);
        }
        let mut columns: Vec<Vec<bool>> = Vec::new();
        for e in 0..self.encodings.len()
            invariant
                data.wf(),
                self.fitted,
                binarized(self.model(), *data, e as int) == Some(grid(columns@)),
        {
            match Self::masks(&self.encodings[e], data) {
                Some(mut made) => {
                    let ghost before = grid(columns@);
                    let ghost added = grid(made@);
                    columns.append(&mut made);
                    assert(grid(columns@) =~= before + added);
                },
                None => {
                    proof {
                        lemma_binarized_none(self.model(), *data, e + 1, self.encodings@.len() as int);
                    }
                    return Err(Error::SchemaMismatch);
                },
            }
        }
        let table = BinaryTable { columns, rows: data.rows };
        proof {
            lemma_binarized_shape(self.model(), *data, self.encodings@.len() as int);
            assert forall|c: int| 0 <= c < table.columns@.len() implies (#[trigger] table.columns@[c])@.len()
                == table.rows by {
                assert(table@[c] == table.columns@[c]@);
            }
        }
        Ok(table)
    }
}

proof fn lemma_binarized_none(encodings: Seq<Encoding>, data: Table, at: int, upto: int)
    requires
        0 <= at <= upto,
        binarized(encodings, data, at) is None,
    ensures
        binarized(encodings, data, upto) is None,
    decreases upto - at,
{
    if at < upto {
        lemma_binarized_none(encodings, data, at, upto - 1);
    }
}

} // verus!

//! Tables of named, typed columns, and boolean tables.

use vstd::prelude::*;

use crate::error::Error;

verus! {

/// The mathematical value of one cell of a table.
pub enum Scalar {
    Boolean(bool),
    Number(int),
    Text(Seq<char>),
    /// A value of a type for which no encoding is defined.
    Opaque,
}

/// The type of the values of a column.
#[derive(Clone, Copy, Debug, PartialEq, Eq, Structural)]
pub enum Kind {
    Boolean,
    Number,
    Text,
    Opaque,
}

/// The values of one column, all of one kind.
///
/// A column of a kind that cannot be encoded is carried by its length alone.
#[derive(Clone, Debug)]
pub enum ColumnData {
    Boolean(Vec<bool>),
    Number(Vec<i64>),
    Text(Vec<String>),
    Opaque(usize),
}

impl View for ColumnData {
    type V = Seq<Scalar>;

    open spec fn view(&self) -> Seq<Scalar> {
        match self {
            ColumnData::Boolean(v) => Seq::new(v@.len(), |i: int| Scalar::Boolean(v@[i])),
            ColumnData::Number(v) => Seq::new(v@.len(), |i: int| Scalar::Number(v@[i] as int)),
            ColumnData::Text(v) => Seq::new(v@.len(), |i: int| Scalar::Text(v@[i]@)),
            ColumnData::Opaque(n) => Seq::new(*n as nat, |i: int| Scalar::Opaque),
        }
    }
}

impl ColumnData {
    /// The kind of the column's values.
    pub open spec fn spec_kind(&self) -> Kind {
        match self {
            ColumnData::Boolean(_) => Kind::Boolean,
            ColumnData::Number(_) => Kind::Number,
            ColumnData::Text(_) => Kind::Text,
            ColumnData::Opaque(_) => Kind::Opaque,
        }
    }

    /// The kind of the column's values.
    #[verifier::when_used_as_spec(spec_kind)]
    pub fn kind(&self) -> (kind: Kind)
        ensures
            kind == self.spec_kind(),
    {
        match self {
            ColumnData::Boolean(_) => Kind::Boolean,
            ColumnData::Number(_) => Kind::Number,
            ColumnData::Text(_) => Kind::Text,
            ColumnData::Opaque(_) => Kind::Opaque,
        }
    }

    /// The number of values.
    pub fn len(&self) -> (n: usize)
        ensures
            n == self@.len(),
    {
        match self {
            ColumnData::Boolean(v) => v.len(),
            ColumnData::Number(v) => v.len(),
            ColumnData::Text(v) => v.len(),
            ColumnData::Opaque(n) => *n,
        }
    }

    /// Whether the value at `i` equals the value at `j` of `other`. Values of
    /// different kinds are never equal.
    pub fn same(&self, i: usize, other: &ColumnData, j: usize) -> (equal: bool)
        requires
            i < self@.len(),
            j < other@.len(),
        ensures
            equal == (self@[i as int] == other@[j as int]),
    {
        match (self, other) {
            (ColumnData::Boolean(a), ColumnData::Boolean(b)) => a[i] == b[j],
            (ColumnData::Number(a), ColumnData::Number(b)) => a[i] == b[j],
            (ColumnData::Text(a), ColumnData::Text(b)) => a[i] == b[j],
            (ColumnData::Opaque(_), ColumnData::Opaque(_)) => true,
            _ => false,
        }
    }

    /// The values at the given positions, in the order of the positions.
    pub fn gather(&self, rows: &Vec<usize>) -> (picked: ColumnData)
        requires
            forall|k: int| 0 <= k < rows@.len() ==> rows@[k] < self@.len(),
        ensures
            picked.kind() == self.kind(),
            picked@.len() == rows@.len(),
            forall|k: int| 0 <= k < rows@.len() ==> picked@[k] == self@[rows@[k] as int],
    {
        match self {
            ColumnData::Boolean(v) => {
                let mut out: Vec<bool> = Vec::new();
                for k in 0..rows.len()
                    invariant
                        forall|k: int| 0 <= k < rows@.len() ==> rows@[k] < v@.len(),
                        out@.len() == k,
                        forall|m: int| 0 <= m < k ==> out@[m] == v@[rows@[m] as int],
                {
                    out.push(v[rows[k]]);
                }
                ColumnData::Boolean(out)
            },
            ColumnData::Number(v) => {
                let mut out: Vec<i64> = Vec::new();
                for k in 0..rows.len()
                    invariant
                        forall|k: int| 0 <= k < rows@.len() ==> rows@[k] < v@.len(),
                        out@.len() == k,
                        forall|m: int| 0 <= m < k ==> out@[m] == v@[rows@[m] as int],
                {
                    out.push(v[rows[k]]);
                }
                ColumnData::Number(out)
            },
            ColumnData::Text(v) => {
                let mut out: Vec<String> = Vec::new();
                for k in 0..rows.len()
                    invariant
                        forall|k: int| 0 <= k < rows@.len() ==> rows@[k] < v@.len(),
                        out@.len() == k,
                        forall|m: int| 0 <= m < k ==> out@[m]@ == v@[rows@[m] as int]@,
                {
                    out.push(v[rows[k]].clone());
                }
                ColumnData::Text(out)
            },
            ColumnData::Opaque(_) => ColumnData::Opaque(rows.len()),
        }
    }

    /// A copy of the column.
    pub fn duplicate(&self) -> (copy: ColumnData)
        ensures
            copy.kind() == self.kind(),
            copy@ == self@,
    {
        let copy = match self {
            ColumnData::Boolean(v) => ColumnData::Boolean(v.clone()),
            ColumnData::Number(v) => ColumnData::Number(v.clone()),
            ColumnData::Text(v) => {
                let mut out: Vec<String> = Vec::new();
                for k in 0..v.len()
                    invariant
                        out@.len() == k,
                        forall|m: int| 0 <= m < k ==> out@[m]@ == v@[m]@,
                {
                    out.push(v[k].clone());
                }
                ColumnData::Text(out)
            },
            ColumnData::Opaque(n) => ColumnData::Opaque(*n),
        };
        assert(copy@ =~= self@);
        copy
    }
}

/// A named column.
#[derive(Clone, Debug)]
pub struct Column {
    pub name: String,
    pub data: ColumnData,
}

/// An ordered collection of named columns of one length.
#[derive(Clone, Debug)]
pub struct Table {
    pub columns: Vec<Column>,
    pub rows: usize,
}

impl Table {
    /// Every column has `rows` values.
    pub open spec fn wf(&self) -> bool {
        forall|c: int| 0 <= c < self.columns@.len() ==> (#[trigger] self.columns@[c]).data@.len() == self.rows
    }

    /// The first column from `from` on that is called `name`.
    pub open spec fn position_from(&self, name: Seq<char>, from: int) -> Option<int>
        decreases self.columns@.len() - from,
    {
        if from < 0 || from >= self.columns@.len() {
            None
        } else if self.columns@[from].name@ == name {
            Some(from)
        } else {
            self.position_from(name, from + 1)
        }
    }

    /// The first column that is called `name`.
    pub open spec fn position(&self, name: Seq<char>) -> Option<int> {
        self.position_from(name, 0)
    }

    /// Whether every column has `rows` values.
    pub fn is_well_formed(&self) -> (ok: bool)
        ensures
            ok == self.wf(),
    {
        for c in 0..self.columns.len()
            invariant
                forall|k: int| 0 <= k < c ==> (#[trigger] self.columns@[k]).data@.len() == self.rows,
        {
            if self.columns[c].data.len() != self.rows {
                return false;
            }
        }
        true
    }

    /// A table of `rows` rows without columns.
    pub fn new(rows: usize) -> (table: Table)
        ensures
            table.wf(),
            table.rows == rows,
            table.columns@.len() == 0,
    {
        Table { columns: Vec::new(), rows }
    }

    /// Appends a column, which must have as many values as the table has
    /// rows.
    pub fn push(&mut self, column: Column) -> (done: Result<(), Error>)
        requires
            old(self).wf(),
        ensures
            final(self).wf(),
            final(self).rows == old(self).rows,
            column.data@.len() == old(self).rows ==> done is Ok
                && final(self).columns@ == old(self).columns@.push(column),
            column.data@.len() != old(self).rows ==> done == Err::<(), Error>(Error::RowCountMismatch)
                && final(self).columns@ == old(self).columns@,
    {
        if column.data.len() != self.rows {
            return Err(Error::RowCountMismatch);
        }
        self.columns.push(column);
        Ok(())
    }

    /// The position of the first column called `name`.
    pub fn find(&self, name: &String) -> (found: Option<usize>)
        ensures
            match found {
                Some(c) => self.position(name@) == Some(c as int) && c < self.columns@.len(),
                None => self.position(name@) is None,
            },
    {
        for c in 0..self.columns.len()
            invariant
                self.position(name@) == self.position_from(name@, c as int),
        {
            if self.columns[c].name == *name {
                return Some(c);
            }
        }
        None
    }
}

/// The columns of a boolean grid as sequences.
pub open spec fn grid(columns: Seq<Vec<bool>>) -> Seq<Seq<bool>> {
    Seq::new(columns.len(), |c: int| columns[c]@)
}

/// A table whose cells are all boolean: the result of encoding a table.
#[derive(Clone, Debug)]
pub struct BinaryTable {
    pub columns: Vec<Vec<bool>>,
    pub rows: usize,
}

/// The view of a boolean table is its columns. The number of rows is no part
/// of it: contracts speak of `rows` by name.
impl View for BinaryTable {
    type V = Seq<Seq<bool>>;

    open spec fn view(&self) -> Seq<Seq<bool>> {
        grid(self.columns@)
    }
}

impl BinaryTable {
    /// Every column has `rows` values.
    pub open spec fn wf(&self) -> bool {
        forall|c: int| 0 <= c < self.columns@.len() ==> (#[trigger] self.columns@[c])@.len() == self.rows
    }

    /// Whether every column has `rows` values.
    pub fn is_well_formed(&self) -> (ok: bool)
        ensures
            ok == self.wf(),
    {
        for c in 0..self.columns.len()
            invariant
                forall|k: int| 0 <= k < c ==> (#[trigger] self.columns@[k])@.len() == self.rows,
        {
            if self.columns[c].len() != self.rows {
                return false;
            }
        }
        true
    }
}

} // verus!

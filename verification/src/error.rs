//! The error kinds of the library.

use vstd::prelude::*;

verus! {

/// The ways in which fitting, encoding or prediction can fail.
///
/// Every failure is final for the call that reports it: nothing is retried,
/// and a failing call leaves the receiver as it was.
#[derive(Clone, Copy, Debug, PartialEq, Eq, Structural)]
pub enum Error {
    /// A table and its label column, or two columns of one table, differ in
    /// length.
    RowCountMismatch,
    /// A separation score was asked for fewer than two classes.
    InsufficientClasses,
    /// A column that a stored encoding refers to is absent, or holds values
    /// of another kind than the encoding was learned from.
    SchemaMismatch,
    /// An operation that needs a fitted model was called before fitting.
    NotFitted,
    /// A column holds values for which no encoding is defined.
    ColumnTypeUnsupported,
}

} // verus!

//! Logical analysis of data: a labelled table is turned into boolean
//! features, and a small ordered list of conjunctive rules is mined from
//! them by a level-wise search.

pub mod binarize;
pub mod cutpoints;
pub mod distinct;
pub mod error;
pub mod invariants;
pub mod order;
pub mod pattern;
pub mod rule_generation;
pub mod score;
pub mod search;
pub mod table;
pub mod training;

pub use crate::binarize::{Binarizer, FeatureEncoding};
pub use crate::cutpoints::Cutpoint;
pub use crate::error::Error;
pub use crate::pattern::{Literal, Pattern};
pub use crate::rule_generation::RuleGenerator;
pub use crate::search::Rule;
pub use crate::table::{BinaryTable, Column, ColumnData, Kind, Scalar, Table};

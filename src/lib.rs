//! A small jq-style query language over JSON-like documents: a parser from
//! filter text to a query tree, and an evaluator that runs a query against a
//! document and yields a sequence of result documents.
use vstd::prelude::*;

pub mod ast;
pub mod combinator;
pub mod construction;
pub mod index;
pub mod laws;
pub mod operators;
pub mod parse;
pub mod query;
pub mod range;
pub mod raw;
pub mod value;

use crate::index::IndexKind;
use crate::operators::Sign;
use crate::value::{Kind, Value};

verus! {

/// The results of a query on one document, or why it failed.
pub type QueryResult = Result<Vec<Value>, QueryError>;

/// A failure while evaluating a query.
#[derive(PartialEq, Eq, Structural, Clone, Copy, Debug)]
pub enum QueryError {
    /// A lookup of the given kind on a value of the given kind.
    Index(Kind, IndexKind),
    /// Iteration over a value that is neither an array nor an object.
    Iterate(Kind),
    /// A computed object key that is not a string.
    ObjectKey(Kind),
    /// An operator applied to values of kinds that it does not combine.
    Operation(Sign, Kind, Kind),
    /// A result that is not a representable number (division by zero,
    /// overflow, or arithmetic that needs non-integer numbers).
    Numerical,
}

} // verus!

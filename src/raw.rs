//! Literal constants embedded in a query.
use vstd::prelude::*;

use crate::value::Value;

verus! {

/// A constant: every input yields this one value.
#[derive(Debug, PartialEq)]
pub struct Raw(pub Value);

} // verus!

//! The structural glue of queries: alternatives, pipes and error suppression.
use vstd::prelude::*;

use crate::query::Query;

verus! {

/// `left , right`: the results of both branches on the same input, left first.
#[derive(Debug, PartialEq)]
pub struct Split(pub Query, pub Query);

/// `first | second`: `second` run on each result of `first`.
#[derive(Debug, PartialEq)]
pub struct Chain(pub Query, pub Query);

/// `inner?`: the results of `inner`, or no result where it fails.
#[derive(Debug, PartialEq)]
pub struct Optional(pub Query);

} // verus!

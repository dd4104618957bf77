use vstd::prelude::*;
use crate::expr::{MExpr, views};
use crate::normalize::flatten_sum;
use crate::reduce::{combine_sum, flatten_x, combine_x};

verus! {

/// Unfolds nested sums one level: `x+(y+z)` gives the terms `x, y, z`.
pub fn unfold_nested(terms: Vec<MExpr>) -> (r: Vec<MExpr>)
    ensures
        views(r@) == flatten_sum(views(terms@)),
{
    flatten_x(&terms, true)
}

/// Adds up the integer constants among the terms into one constant, placed last and left
/// out when zero.
pub fn combine_constants(terms: Vec<MExpr>) -> (r: Vec<MExpr>)
    ensures
        views(r@) == combine_sum(views(terms@)),
{
    combine_x(terms, true)
}

} // verus!

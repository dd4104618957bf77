use vstd::prelude::*;
use crate::expr::{MExpr, views};
use crate::normalize::flatten_prod;
use crate::reduce::{combine_prod, has_div, numerators, denominators, flatten_x, combine_x, split_div_x};

verus! {

/// Unfolds nested products one level: `x*(y*z)` gives the factors `x, y, z`.
pub fn unfold_nested(terms: Vec<MExpr>) -> (r: Vec<MExpr>)
    ensures
        views(r@) == flatten_prod(views(terms@)),
{
    flatten_x(&terms, false)
}

/// Splits factors into numerators and denominators: each quotient gives its numerator and
/// its denominator, any other factor is a numerator. `None` where no factor is a quotient.
pub fn unfold_division(terms: Vec<MExpr>) -> (r: Option<(Vec<MExpr>, Vec<MExpr>)>)
    ensures
        r is Some == has_div(views(terms@)),
        r is Some ==> views((r->0).0@) == numerators(views(terms@)) && views((r->0).1@)
            == denominators(views(terms@)),
{
    split_div_x(&terms)
}

/// Multiplies the integer constants among the factors into one constant, placed last and
/// left out when one; a zero product gives the single factor zero.
pub fn combine_constants(terms: Vec<MExpr>) -> (r: Vec<MExpr>)
    ensures
        views(r@) == combine_prod(views(terms@)),
{
    combine_x(terms, false)
}

} // verus!

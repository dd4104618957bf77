use vstd::prelude::*;
use crate::expr::Expr;
use crate::normalize::{trivial, lemma_trivial_is_trivial, lemma_trivial_fixed};
use crate::pattern::{Pat, ptrivial, lemma_ptrivial_is_ptrivial, lemma_ptrivial_fixed};
use crate::reduce::{gcd_div, one, REDUCE_DEPTH};

verus! {

/// Light normalisation of an expression is idempotent: `trivial_reduce` applied to its own
/// result gives that result again.
pub proof fn law_trivial_reduce_idempotent(e: Expr)
    ensures
        trivial(trivial(e)) == trivial(e),
{
    lemma_trivial_is_trivial(e);
    lemma_trivial_fixed(trivial(e));
}

/// Light normalisation of a pattern is idempotent.
pub proof fn law_pattern_trivial_reduce_idempotent(p: Pat)
    ensures
        ptrivial(ptrivial(p)) == ptrivial(p),
{
    lemma_ptrivial_is_ptrivial(p);
    lemma_ptrivial_fixed(ptrivial(p));
}

/// An expression divides itself: the common divisor of `x` and `x` is `x`, with ratio one.
pub proof fn law_gcd_div_self(x: Expr)
    ensures
        gcd_div(x, x, REDUCE_DEPTH as nat) == (x, one()),
{
}

} // verus!

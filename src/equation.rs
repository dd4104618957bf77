use vstd::prelude::*;
use crate::expr::{MExpr, Expr};
use crate::pattern::{MPattern, Pat, ptrivial};
use crate::normalize::trivial;
use crate::reduce::{reduce_f, REDUCE_DEPTH};
use crate::binding::Bindings;
use crate::matching::{Binds, bind_spec, binds_of, merge_binds, instance, slots};

verus! {

/// An equation between two expressions.
#[derive(Debug)]
pub enum MEquation {
    Equal(MExpr, MExpr),
}

impl View for MEquation {
    type V = (Expr, Expr);

    open spec fn view(&self) -> (Expr, Expr) {
        match self {
            MEquation::Equal(l, r) => (l@, r@),
        }
    }
}

impl PartialEq for MEquation {
    fn eq(&self, other: &MEquation) -> (r: bool) {
        match (self, other) {
            (MEquation::Equal(l1, r1), MEquation::Equal(l2, r2)) => l1.eq(l2) && r1.eq(r2),
        }
    }
}

impl vstd::std_specs::cmp::PartialEqSpecImpl for MEquation {
    open spec fn obeys_eq_spec() -> bool {
        true
    }

    open spec fn eq_spec(&self, other: &MEquation) -> bool {
        self@ == other@
    }
}

impl Eq for MEquation {
}

impl Clone for MEquation {
    fn clone(&self) -> (r: MEquation)
        ensures
            r@ == self@,
    {
        match self {
            MEquation::Equal(l, r) => MEquation::Equal(l.clone(), r.clone()),
        }
    }
}

impl MEquation {
    /// Both sides fully normalised, with factoring.
    pub fn reduce(self) -> (r: MEquation)
        ensures
            r@ == (reduce_f(self@.0, true, REDUCE_DEPTH as nat), reduce_f(self@.1, true, REDUCE_DEPTH as nat)),
    {
        match self {
            MEquation::Equal(l, r) => MEquation::Equal(l.reduce(true), r.reduce(true)),
        }
    }

    /// Both sides in light normal form.
    pub fn trivial_reduce(self) -> (r: MEquation)
        ensures
            r@ == (trivial(self@.0), trivial(self@.1)),
    {
        match self {
            MEquation::Equal(l, r) => MEquation::Equal(l.trivial_reduce(), r.trivial_reduce()),
        }
    }
}

/// A pattern for equations: one pattern for each side.
#[derive(Debug)]
pub enum EPattern {
    PEq(MPattern, MPattern),
}

impl View for EPattern {
    type V = (Pat, Pat);

    open spec fn view(&self) -> (Pat, Pat) {
        match self {
            EPattern::PEq(l, r) => (l@, r@),
        }
    }
}

impl PartialEq for EPattern {
    fn eq(&self, other: &EPattern) -> (r: bool) {
        match (self, other) {
            (EPattern::PEq(l1, r1), EPattern::PEq(l2, r2)) => l1.eq(l2) && r1.eq(r2),
        }
    }
}

impl vstd::std_specs::cmp::PartialEqSpecImpl for EPattern {
    open spec fn obeys_eq_spec() -> bool {
        true
    }

    open spec fn eq_spec(&self, other: &EPattern) -> bool {
        self@ == other@
    }
}

impl Eq for EPattern {
}

impl Clone for EPattern {
    fn clone(&self) -> (r: EPattern)
        ensures
            r@ == self@,
    {
        match self {
            EPattern::PEq(l, r) => EPattern::PEq(l.clone(), r.clone()),
        }
    }
}

/// Matching of an equation pattern: each side on its own, then the assignments merged.
pub open spec fn eq_bind_spec(p: (Pat, Pat), e: (Expr, Expr)) -> Option<Binds> {
    match (bind_spec(p.0, e.0), bind_spec(p.1, e.1)) {
        (Some(x), Some(y)) => merge_binds(x, y),
        _ => None,
    }
}

fn merge_sides(x: (Bindings, Bindings), y: (Bindings, Bindings)) -> (r: Option<(Bindings, Bindings)>)
    ensures
        binds_of(r) == merge_binds((x.0@, x.1@), (y.0@, y.1@)),
{
    let (mut c, mut v) = x;
    let (c2, v2) = y;
    if crate::binding::merge(&mut c, c2).is_err() {
        return None;
    }
    if crate::binding::merge(&mut v, v2).is_err() {
        return None;
    }
    Some((c, v))
}

impl EPattern {
    /// Both sides in light normal form.
    pub fn trivial_reduce(self) -> (r: EPattern)
        ensures
            r@ == (ptrivial(self@.0), ptrivial(self@.1)),
    {
        match self {
            EPattern::PEq(l, r) => EPattern::PEq(l.trivial_reduce(), r.trivial_reduce()),
        }
    }

    /// Matches the left pattern against the left side and the right pattern against the
    /// right side, then merges the assignments; a slot bound on both sides must be bound to
    /// the same subexpression.
    pub fn bind(self, other: MEquation) -> (r: Option<(Bindings, Bindings)>)
        ensures
            binds_of(r) == eq_bind_spec(self@, other@),
    {
        match (self, other) {
            (EPattern::PEq(pl, pr), MEquation::Equal(l, r)) => {
                let x = match pl.bind(l) {
                    Some(x) => x,
                    None => {
                        return None;
                    },
                };
                let y = match pr.bind(r) {
                    Some(y) => y,
                    None => {
                        return None;
                    },
                };
                merge_sides(x, y)
            },
        }
    }

    /// Whether each side of this pattern is a sub-pattern of the same side of `other`.
    pub fn is_subpattern_of(self, other: EPattern) -> (r: bool)
        ensures
            r == (bind_spec(other@.0, instance(self@.0)) is Some
                && bind_spec(other@.1, instance(self@.1)) is Some),
    {
        match (self, other) {
            (EPattern::PEq(l1, r1), EPattern::PEq(l2, r2)) => {
                l1.is_subpattern_of(l2) && r1.is_subpattern_of(r2)
            },
        }
    }

    /// The ids of the constant slots and of the variable slots, left side first.
    pub fn get_free(self) -> (r: (Vec<u32>, Vec<u32>))
        ensures
            r.0@ == slots(self@.0, true) + slots(self@.1, true),
            r.1@ == slots(self@.0, false) + slots(self@.1, false),
    {
        match self {
            EPattern::PEq(l, r) => {
                let (mut lc, mut lv) = l.get_free();
                let (mut rc, mut rv) = r.get_free();
                lc.append(&mut rc);
                lv.append(&mut rv);
                (lc, lv)
            },
        }
    }
}

} // verus!

use vstd::prelude::*;
use crate::expr::{MExpr, Expr};
use crate::equation::{MEquation, EPattern, eq_bind_spec};
use crate::pattern::Pat;

verus! {

/// An operation applied to both sides of an equation, with the subexpression bound to a
/// slot: `...C` names a constant slot, `...V` a variable slot, by id.
#[derive(PartialEq, Eq, Structural, Clone, Copy, Debug)]
pub enum Action {
    AddC(u32),
    SubC(u32),
    MulC(u32),
    DivC(u32),
    AddV(u32),
    SubV(u32),
    MulV(u32),
    DivV(u32),
}

impl Action {
    /// Whether the action names a constant slot.
    pub open spec fn on_constant(self) -> bool {
        match self {
            Action::AddC(_) | Action::SubC(_) | Action::MulC(_) | Action::DivC(_) => true,
            _ => false,
        }
    }

    /// The id of the slot the action names.
    pub open spec fn slot(self) -> u32 {
        match self {
            Action::AddC(n) | Action::SubC(n) | Action::MulC(n) | Action::DivC(n) => n,
            Action::AddV(n) | Action::SubV(n) | Action::MulV(n) | Action::DivV(n) => n,
        }
    }

    /// One side after the action with the value `x`.
    pub open spec fn on_side(self, x: Expr, side: Expr) -> Expr {
        match self {
            Action::AddC(_) | Action::AddV(_) => Expr::Sum(seq![x, side]),
            Action::SubC(_) | Action::SubV(_) => Expr::Sum(
                seq![Expr::Prod(seq![Expr::ConstNum(-1i64), x]), side],
            ),
            Action::MulC(_) | Action::MulV(_) => Expr::Prod(seq![x, side]),
            Action::DivC(_) | Action::DivV(_) => Expr::Div(Box::new(side), Box::new(x)),
        }
    }
}

/// An action together with the equation pattern that binds its slot.
#[derive(Debug)]
pub struct PatternAction {
    pub pattern: EPattern,
    pub action: Action,
}

impl PartialEq for PatternAction {
    fn eq(&self, other: &PatternAction) -> (r: bool) {
        self.pattern.eq(&other.pattern) && self.action == other.action
    }
}

impl vstd::std_specs::cmp::PartialEqSpecImpl for PatternAction {
    open spec fn obeys_eq_spec() -> bool {
        true
    }

    open spec fn eq_spec(&self, other: &PatternAction) -> bool {
        self.pattern@ == other.pattern@ && self.action == other.action
    }
}

impl Eq for PatternAction {
}

impl Clone for PatternAction {
    fn clone(&self) -> (r: PatternAction)
        ensures
            r.pattern@ == self.pattern@,
            r.action == self.action,
    {
        PatternAction { pattern: self.pattern.clone(), action: self.action }
    }
}

/// The equation after an action: the pattern must match the equation and bind the slot
/// the action names; the action is then applied to both sides with the bound value.
pub open spec fn apply_spec(pattern: (Pat, Pat), action: Action, eq: (Expr, Expr)) -> Option<(Expr, Expr)> {
    match eq_bind_spec(pattern, eq) {
        Some(b) => {
            let m = if action.on_constant() {
                b.0
            } else {
                b.1
            };
            if m.contains_key(action.slot()) {
                let x = m[action.slot()];
                Some((action.on_side(x, eq.0), action.on_side(x, eq.1)))
            } else {
                None
            }
        },
        None => None,
    }
}

fn pair(a: MExpr, b: MExpr) -> (r: Vec<MExpr>)
    ensures
        crate::expr::views(r@) == seq![a@, b@],
{
    let ghost (ga, gb) = (a, b);
    let v = vec![a, b];
    proof {
        crate::expr::lemma_views(v@);
        assert(crate::expr::views(v@) =~= seq![ga@, gb@]);
    }
    v
}

fn side(action: Action, x: &MExpr, s: MExpr) -> (r: MExpr)
    ensures
        r@ == action.on_side(x@, s@),
{
    let x = x.clone();
    match action {
        Action::AddC(_) | Action::AddV(_) => MExpr::Sum(pair(x, s)),
        Action::SubC(_) | Action::SubV(_) => MExpr::Sum(pair(MExpr::Prod(pair(MExpr::ConstNum(-1), x)), s)),
        Action::MulC(_) | Action::MulV(_) => MExpr::Prod(pair(x, s)),
        Action::DivC(_) | Action::DivV(_) => MExpr::Div(Box::new(s), Box::new(x)),
    }
}

impl PatternAction {
    /// Applies the action to both sides of the equation. Gives `None` where the pattern does
    /// not match the equation or leaves the action's slot unbound.
    pub fn apply(self, eq: MEquation) -> (r: Option<MEquation>)
        ensures
            match r {
                Some(e) => apply_spec(self.pattern@, self.action, eq@) == Some(e@),
                None => apply_spec(self.pattern@, self.action, eq@) is None,
            },
    {
        let (consts, vars) = match self.pattern.bind(eq.clone()) {
            Some(b) => b,
            None => {
                return None;
            },
        };
        let (m, n) = match self.action {
            Action::AddC(n) | Action::SubC(n) | Action::MulC(n) | Action::DivC(n) => (&consts, n),
            Action::AddV(n) | Action::SubV(n) | Action::MulV(n) | Action::DivV(n) => (&vars, n),
        };
        match m.get(&n) {
            Some(x) => match eq {
                MEquation::Equal(lhs, rhs) => Some(
                    MEquation::Equal(side(self.action, x, lhs), side(self.action, x, rhs)),
                ),
            },
            None => None,
        }
    }
}

} // verus!

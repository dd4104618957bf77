use vstd::prelude::*;
use crate::expr::{MExpr, Expr, views, lemma_views, lemma_views_push, lemma_views_concat};

verus! {

/// The terms of a sum, where each term that is itself a sum gives its own terms instead.
pub open spec fn flatten_sum(s: Seq<Expr>) -> Seq<Expr>
    decreases s.len(),
{
    if s.len() == 0 {
        Seq::empty()
    } else {
        let rest = flatten_sum(s.subrange(0, s.len() - 1));
        match s[s.len() - 1] {
            Expr::Sum(us) => rest + us,
            t => rest.push(t),
        }
    }
}

/// The factors of a product, where each factor that is itself a product gives its own factors.
pub open spec fn flatten_prod(s: Seq<Expr>) -> Seq<Expr>
    decreases s.len(),
{
    if s.len() == 0 {
        Seq::empty()
    } else {
        let rest = flatten_prod(s.subrange(0, s.len() - 1));
        match s[s.len() - 1] {
            Expr::Prod(us) => rest + us,
            t => rest.push(t),
        }
    }
}

/// A sum of the terms: zero for none, the term itself for one.
pub open spec fn sum_of(s: Seq<Expr>) -> Expr {
    if s.len() == 0 {
        Expr::ConstNum(0)
    } else if s.len() == 1 {
        s[0]
    } else {
        Expr::Sum(s)
    }
}

/// A product of the factors: one for none, the factor itself for one.
pub open spec fn prod_of(s: Seq<Expr>) -> Expr {
    if s.len() == 0 {
        Expr::ConstNum(1)
    } else if s.len() == 1 {
        s[0]
    } else {
        Expr::Prod(s)
    }
}

/// The light normal form: nested sums and products flattened (an empty one nested as an
/// operand leaves nothing behind), those of fewer than two operands collapsed, quotients
/// normalised on both sides.
pub open spec fn trivial(e: Expr) -> Expr
    decreases e, 1int,
{
    match e {
        Expr::Sum(ts) => sum_of(operands(ts, true)),
        Expr::Prod(ts) => prod_of(operands(ts, false)),
        Expr::Div(a, b) => Expr::Div(Box::new(trivial(*a)), Box::new(trivial(*b))),
        _ => e,
    }
}

/// The expression is a sum (`sum`) or a product.
pub open spec fn of_kind(t: Expr, sum: bool) -> bool {
    if sum {
        t is Sum
    } else {
        t is Prod
    }
}

/// The operands of a sum or product; none for anything else.
pub open spec fn ops_of(t: Expr) -> Seq<Expr> {
    match t {
        Expr::Sum(v) => v,
        Expr::Prod(v) => v,
        _ => Seq::empty(),
    }
}

/// An expression in light normal form as operands of a sum (`sum`) or product: its own
/// operands where it is of that kind, else itself.
pub open spec fn lifted(u: Expr, sum: bool) -> Seq<Expr> {
    if of_kind(u, sum) {
        ops_of(u)
    } else {
        seq![u]
    }
}

/// The flattened operands, in light normal form, of a sum (`sum`) or product with
/// operands `s`.
pub open spec fn operands(s: Seq<Expr>, sum: bool) -> Seq<Expr>
    decreases s, 0int,
{
    if s.len() == 0 {
        Seq::empty()
    } else {
        operands(s.subrange(0, s.len() - 1), sum) + operand_terms(s[s.len() - 1], sum)
    }
}

/// What one operand contributes to a flattened sum (`sum`) or product: the flattened
/// operands of a nested one of the same kind, else its light normal form, lifted.
pub open spec fn operand_terms(t: Expr, sum: bool) -> Seq<Expr>
    decreases t, 2int,
{
    match t {
        Expr::Sum(us) => if sum {
            operands(us, true)
        } else {
            lifted(trivial(t), sum)
        },
        Expr::Prod(us) => if !sum {
            operands(us, false)
        } else {
            lifted(trivial(t), sum)
        },
        _ => lifted(trivial(t), sum),
    }
}

/// Each expression is in light normal form and none is of the kind.
pub open spec fn ok_operands(s: Seq<Expr>, sum: bool) -> bool {
    forall|j: int| 0 <= j < s.len() ==> is_trivial(#[trigger] s[j]) && !of_kind(s[j], sum)
}

/// An expression in light normal form.
pub open spec fn is_trivial(e: Expr) -> bool
    decreases e,
{
    match e {
        Expr::Sum(ts) => ts.len() >= 2 && all_trivial_not_sum(ts),
        Expr::Prod(ts) => ts.len() >= 2 && all_trivial_not_prod(ts),
        Expr::Div(a, b) => is_trivial(*a) && is_trivial(*b),
        _ => true,
    }
}

/// Each expression is in light normal form and none is a sum.
pub open spec fn all_trivial_not_sum(s: Seq<Expr>) -> bool
    decreases s,
{
    if s.len() == 0 {
        true
    } else {
        all_trivial_not_sum(s.subrange(0, s.len() - 1)) && is_trivial(s[s.len() - 1])
            && !(s[s.len() - 1] is Sum)
    }
}

/// Each expression is in light normal form and none is a product.
pub open spec fn all_trivial_not_prod(s: Seq<Expr>) -> bool
    decreases s,
{
    if s.len() == 0 {
        true
    } else {
        all_trivial_not_prod(s.subrange(0, s.len() - 1)) && is_trivial(s[s.len() - 1])
            && !(s[s.len() - 1] is Prod)
    }
}


pub proof fn lemma_all_trivial_not_sum(s: Seq<Expr>)
    ensures
        all_trivial_not_sum(s) == (forall|i: int| 0 <= i < s.len() ==> is_trivial(#[trigger] s[i]) && !(s[i] is Sum)),
    decreases s.len(),
{
    if s.len() > 0 {
        let p = s.subrange(0, s.len() - 1);
        lemma_all_trivial_not_sum(p);
        assert(forall|i: int| 0 <= i < p.len() ==> p[i] == s[i]);
    }
}

pub proof fn lemma_all_trivial_not_prod(s: Seq<Expr>)
    ensures
        all_trivial_not_prod(s) == (forall|i: int| 0 <= i < s.len() ==> is_trivial(#[trigger] s[i]) && !(s[i] is Prod)),
    decreases s.len(),
{
    if s.len() > 0 {
        let p = s.subrange(0, s.len() - 1);
        lemma_all_trivial_not_prod(p);
        assert(forall|i: int| 0 <= i < p.len() ==> p[i] == s[i]);
    }
}

proof fn lemma_ok_concat(a: Seq<Expr>, b: Seq<Expr>, sum: bool)
    requires
        ok_operands(a, sum),
        ok_operands(b, sum),
    ensures
        ok_operands(a + b, sum),
{
    assert forall|j: int| 0 <= j < (a + b).len() implies is_trivial(#[trigger] (a + b)[j])
        && !of_kind((a + b)[j], sum) by {
        if j < a.len() {
            assert((a + b)[j] == a[j]);
        } else {
            assert((a + b)[j] == b[j - a.len()]);
        }
    }
}

proof fn lemma_ok_of_trivial(ts: Seq<Expr>, sum: bool)
    requires
        if sum {
            all_trivial_not_sum(ts)
        } else {
            all_trivial_not_prod(ts)
        },
    ensures
        ok_operands(ts, sum),
{
    lemma_all_trivial_not_sum(ts);
    lemma_all_trivial_not_prod(ts);
}

/// The light normal form is in light normal form.
pub proof fn lemma_trivial_is_trivial(e: Expr)
    ensures
        is_trivial(trivial(e)),
    decreases e, 1int,
{
    match e {
        Expr::Sum(ts) => {
            lemma_operands_ok(ts, true);
            lemma_all_trivial_not_sum(operands(ts, true));
        },
        Expr::Prod(ts) => {
            lemma_operands_ok(ts, false);
            lemma_all_trivial_not_prod(operands(ts, false));
        },
        Expr::Div(a, b) => {
            lemma_trivial_is_trivial(*a);
            lemma_trivial_is_trivial(*b);
        },
        _ => {},
    }
}

pub proof fn lemma_operands_ok(s: Seq<Expr>, sum: bool)
    ensures
        ok_operands(operands(s, sum), sum),
    decreases s, 0int,
{
    if s.len() > 0 {
        let p = s.subrange(0, s.len() - 1);
        lemma_operands_ok(p, sum);
        lemma_operand_terms_ok(s[s.len() - 1], sum);
        lemma_ok_concat(operands(p, sum), operand_terms(s[s.len() - 1], sum), sum);
    }
}

pub proof fn lemma_operand_terms_ok(t: Expr, sum: bool)
    ensures
        ok_operands(operand_terms(t, sum), sum),
    decreases t, 2int,
{
    let u = trivial(t);
    match t {
        Expr::Sum(us) => {
            if sum {
                lemma_operands_ok(us, true);
                return;
            }
        },
        Expr::Prod(us) => {
            if !sum {
                lemma_operands_ok(us, false);
                return;
            }
        },
        _ => {},
    }
    lemma_trivial_is_trivial(t);
    if of_kind(u, sum) {
        match u {
            Expr::Sum(vs) => lemma_ok_of_trivial(vs, true),
            Expr::Prod(vs) => lemma_ok_of_trivial(vs, false),
            _ => {},
        }
    } else {
        assert(seq![u][0] == u);
    }
}

/// An expression in light normal form is left as it is.
pub proof fn lemma_trivial_fixed(e: Expr)
    requires
        is_trivial(e),
    ensures
        trivial(e) == e,
    decreases e, 1int,
{
    match e {
        Expr::Sum(ts) => {
            lemma_ok_of_trivial(ts, true);
            lemma_operands_fixed(ts, true);
        },
        Expr::Prod(ts) => {
            lemma_ok_of_trivial(ts, false);
            lemma_operands_fixed(ts, false);
        },
        Expr::Div(a, b) => {
            lemma_trivial_fixed(*a);
            lemma_trivial_fixed(*b);
        },
        _ => {},
    }
}

pub proof fn lemma_operands_fixed(s: Seq<Expr>, sum: bool)
    requires
        ok_operands(s, sum),
    ensures
        operands(s, sum) == s,
    decreases s, 0int,
{
    if s.len() > 0 {
        let p = s.subrange(0, s.len() - 1);
        let last = s[s.len() - 1];
        assert(forall|i: int| 0 <= i < p.len() ==> p[i] == s[i]);
        lemma_operands_fixed(p, sum);
        lemma_trivial_fixed(last);
        assert(operand_terms(last, sum) == seq![last]);
        assert(p + seq![last] =~= s);
    }
}

/// A sum of the terms: zero for none, the term itself for one.
pub fn make_sum(mut ts: Vec<MExpr>) -> (r: MExpr)
    ensures
        r@ == sum_of(views(ts@)),
{
    proof { lemma_views(ts@); }
    if ts.len() == 0 {
        MExpr::ConstNum(0)
    } else if ts.len() == 1 {
        ts.pop().unwrap()
    } else {
        MExpr::Sum(ts)
    }
}

/// A product of the factors: one for none, the factor itself for one.
pub fn make_prod(mut ts: Vec<MExpr>) -> (r: MExpr)
    ensures
        r@ == prod_of(views(ts@)),
{
    proof { lemma_views(ts@); }
    if ts.len() == 0 {
        MExpr::ConstNum(1)
    } else if ts.len() == 1 {
        ts.pop().unwrap()
    } else {
        MExpr::Prod(ts)
    }
}

/// The flattened operands, in light normal form, of a sum (`sum`) or product with operands
/// `ts` (see `operands`).
pub(crate) fn trivial_operands(ts: &Vec<MExpr>, sum: bool) -> (r: Vec<MExpr>)
    ensures
        views(r@) == operands(views(ts@), sum),
    decreases ts, 0int,
{
    let ghost vs = views(ts@);
    proof { lemma_views(ts@); }
    let mut out: Vec<MExpr> = Vec::new();
    let mut i: usize = 0;
    while i < ts.len()
        invariant
            i <= ts@.len(),
            vs == views(ts@),
            vs.len() == ts@.len(),
            forall|j: int| 0 <= j < ts@.len() ==> #[trigger] vs[j] == ts@[j]@,
            views(out@) == operands(vs.subrange(0, i as int), sum),
        decreases ts@.len() - i,
    {
        let ghost pre = vs.subrange(0, i as int);
        let ghost next = vs.subrange(0, i as int + 1);
        proof {
            assert(next.subrange(0, i as int) =~= pre);
            assert(operands(next, sum) == operands(pre, sum) + operand_terms(vs[i as int], sum));
        }
        let ghost before = out@;
        let nested = match &ts[i] {
            MExpr::Sum(us) => if sum {
                Some(trivial_operands(us, true))
            } else {
                None
            },
            MExpr::Prod(us) => if !sum {
                Some(trivial_operands(us, false))
            } else {
                None
            },
            _ => None,
        };
        match nested {
            Some(mut us) => {
                proof { lemma_views_concat(before, us@); }
                out.append(&mut us);
            },
            None => {
                let c = trivial_ref(&ts[i]);
                match c {
                    MExpr::Sum(mut us) if sum => {
                        proof { lemma_views_concat(before, us@); }
                        out.append(&mut us);
                    },
                    MExpr::Prod(mut us) if !sum => {
                        proof { lemma_views_concat(before, us@); }
                        out.append(&mut us);
                    },
                    other => {
                        proof {
                            lemma_views_push(before, other);
                            assert(lifted(other@, sum) == seq![other@]);
                        }
                        out.push(other);
                    },
                }
            },
        }
        i = i + 1;
    }
    assert(vs.subrange(0, ts@.len() as int) =~= vs);
    out
}

fn trivial_ref(e: &MExpr) -> (r: MExpr)
    ensures
        r@ == trivial(e@),
    decreases e, 1int,
{
    match e {
        MExpr::Sum(ts) => make_sum(trivial_operands(ts, true)),
        MExpr::Prod(ts) => make_prod(trivial_operands(ts, false)),
        MExpr::Div(a, b) => MExpr::Div(Box::new(trivial_ref(a)), Box::new(trivial_ref(b))),
        _ => e.clone(),
    }
}

impl MExpr {
    /// A light normalisation: nested sums and products are flattened, a sum or product of
    /// no operand becomes its identity and one of a single operand becomes that operand;
    /// quotients are normalised on both sides.
    pub fn trivial_reduce(self) -> (r: MExpr)
        ensures
            r@ == trivial(self@),
            is_trivial(r@),
    {
        proof { lemma_trivial_is_trivial(self@); }
        trivial_ref(&self)
    }
}

} // verus!

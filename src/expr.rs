use vstd::prelude::*;

verus! {

/// An algebraic expression tree.
#[derive(Debug)]
pub enum MExpr {
    /// A sum of several terms.
    Sum(Vec<MExpr>),
    /// A product of several factors.
    Prod(Vec<MExpr>),
    /// Numerator over denominator.
    Div(Box<MExpr>, Box<MExpr>),
    /// Base raised to an exponent.
    Exp(Box<MExpr>, Box<MExpr>),
    /// A named constant, by id.
    ConstVar(u32),
    /// An integer constant.
    ConstNum(i64),
    /// A variable, by id.
    Var(u32),
}

/// The mathematical value of an `MExpr`: the same tree, with sequences for children.
pub enum Expr {
    Sum(Seq<Expr>),
    Prod(Seq<Expr>),
    Div(Box<Expr>, Box<Expr>),
    Exp(Box<Expr>, Box<Expr>),
    ConstVar(u32),
    ConstNum(i64),
    Var(u32),
}

/// The values of a sequence of expressions.
pub open spec fn views(s: Seq<MExpr>) -> Seq<Expr>
    decreases s,
{
    if s.len() == 0 {
        Seq::empty()
    } else {
        views(s.subrange(0, s.len() - 1)).push(s[s.len() - 1].view_expr())
    }
}

impl MExpr {
    pub open spec fn view_expr(&self) -> Expr
        decreases self,
    {
        match self {
            MExpr::Sum(ts) => Expr::Sum(views(ts@)),
            MExpr::Prod(ts) => Expr::Prod(views(ts@)),
            MExpr::Div(a, b) => Expr::Div(Box::new(a.view_expr()), Box::new(b.view_expr())),
            MExpr::Exp(a, b) => Expr::Exp(Box::new(a.view_expr()), Box::new(b.view_expr())),
            MExpr::ConstVar(x) => Expr::ConstVar(*x),
            MExpr::ConstNum(x) => Expr::ConstNum(*x),
            MExpr::Var(x) => Expr::Var(*x),
        }
    }
}

impl View for MExpr {
    type V = Expr;

    open spec fn view(&self) -> Expr {
        self.view_expr()
    }
}

/// The values of a sequence, element by element.
pub proof fn lemma_views(s: Seq<MExpr>)
    ensures
        views(s).len() == s.len(),
        forall|i: int| 0 <= i < s.len() ==> #[trigger] views(s)[i] == s[i]@,
    decreases s.len(),
{
    if s.len() > 0 {
        lemma_views(s.subrange(0, s.len() - 1));
    }
}


impl Expr {
    /// The rank of the variant in the ordering of expressions.
    pub open spec fn rank(self) -> u8 {
        match self {
            Expr::Sum(_) => 0,
            Expr::Prod(_) => 1,
            Expr::Div(_, _) => 2,
            Expr::Exp(_, _) => 3,
            Expr::ConstVar(_) => 4,
            Expr::ConstNum(_) => 5,
            Expr::Var(_) => 7,
        }
    }

    /// An expression is constant when no variable occurs anywhere in it.
    pub open spec fn constant(self) -> bool
        decreases self,
    {
        match self {
            Expr::Var(_) => false,
            Expr::Sum(ts) => all_constant(ts),
            Expr::Prod(ts) => all_constant(ts),
            Expr::Div(a, b) => a.constant() && b.constant(),
            Expr::Exp(a, b) => a.constant() && b.constant(),
            _ => true,
        }
    }
}

/// The values of a sequence with one more element.
pub proof fn lemma_views_push(s: Seq<MExpr>, x: MExpr)
    ensures
        views(s.push(x)) == views(s).push(x@),
{
    assert(s.push(x).subrange(0, s.len() as int) =~= s);
}

/// The values of two sequences joined.
pub proof fn lemma_views_concat(a: Seq<MExpr>, b: Seq<MExpr>)
    ensures
        views(a + b) == views(a) + views(b),
{
    lemma_views(a);
    lemma_views(b);
    lemma_views(a + b);
    assert(views(a + b) =~= views(a) + views(b));
}

/// No variable occurs in any of the expressions.
pub open spec fn all_constant(s: Seq<Expr>) -> bool
    decreases s,
{
    if s.len() == 0 {
        true
    } else {
        all_constant(s.subrange(0, s.len() - 1)) && s[s.len() - 1].constant()
    }
}

/// `all_constant` holds exactly when each expression is constant.
pub proof fn lemma_all_constant(s: Seq<Expr>)
    ensures
        all_constant(s) == (forall|i: int| 0 <= i < s.len() ==> (#[trigger] s[i]).constant()),
    decreases s.len(),
{
    if s.len() > 0 {
        let p = s.subrange(0, s.len() - 1);
        lemma_all_constant(p);
        assert(forall|i: int| 0 <= i < p.len() ==> p[i] == s[i]);
    }
}

impl MExpr {
    /// The rank of the variant in the ordering of expressions.
    pub fn ord_num(&self) -> (r: u8)
        ensures
            r == self@.rank(),
    {
        match self {
            MExpr::Sum(_) => 0,
            MExpr::Prod(_) => 1,
            MExpr::Div(_, _) => 2,
            MExpr::Exp(_, _) => 3,
            MExpr::ConstVar(_) => 4,
            MExpr::ConstNum(_) => 5,
            MExpr::Var(_) => 7,
        }
    }

    /// Whether no variable occurs in the expression.
    pub fn is_const(&self) -> (r: bool)
        ensures
            r == self@.constant(),
        decreases self,
    {
        match self {
            MExpr::Var(_) => false,
            MExpr::Sum(ts) => {
                proof { lemma_all_constant(views(ts@)); lemma_views(ts@); }
                all_const(ts)
            },
            MExpr::Prod(ts) => {
                proof { lemma_all_constant(views(ts@)); lemma_views(ts@); }
                all_const(ts)
            },
            MExpr::Div(a, b) => a.is_const() && b.is_const(),
            MExpr::Exp(a, b) => a.is_const() && b.is_const(),
            _ => true,
        }
    }
}

fn all_const(ts: &Vec<MExpr>) -> (r: bool)
    ensures
        r == forall|i: int| 0 <= i < ts@.len() ==> (#[trigger] views(ts@)[i]).constant(),
    decreases ts,
{
    proof { lemma_views(ts@); }
    let mut i: usize = 0;
    while i < ts.len()
        invariant
            i <= ts@.len(),
            views(ts@).len() == ts@.len(),
            forall|j: int| 0 <= j < ts@.len() ==> #[trigger] views(ts@)[j] == ts@[j]@,
            forall|j: int| 0 <= j < i ==> (#[trigger] views(ts@)[j]).constant(),
        decreases ts@.len() - i,
    {
        if !ts[i].is_const() {
            assert(!views(ts@)[i as int].constant());
            return false;
        }
        i = i + 1;
    }
    true
}

fn all_equal(a: &Vec<MExpr>, b: &Vec<MExpr>) -> (r: bool)
    ensures
        r == (views(a@) == views(b@)),
    decreases a,
{
    proof { lemma_views(a@); lemma_views(b@); }
    if a.len() != b.len() {
        return false;
    }
    let mut i: usize = 0;
    while i < a.len()
        invariant
            i <= a@.len(),
            a@.len() == b@.len(),
            views(a@).len() == a@.len(),
            views(b@).len() == b@.len(),
            forall|j: int| 0 <= j < a@.len() ==> #[trigger] views(a@)[j] == a@[j]@,
            forall|j: int| 0 <= j < b@.len() ==> #[trigger] views(b@)[j] == b@[j]@,
            forall|j: int| 0 <= j < i ==> views(a@)[j] == views(b@)[j],
        decreases a@.len() - i,
    {
        if !a[i].eq(&b[i]) {
            assert(views(a@)[i as int] != views(b@)[i as int]);
            return false;
        }
        i = i + 1;
    }
    assert(views(a@) =~= views(b@));
    true
}

impl PartialEq for MExpr {
    fn eq(&self, other: &MExpr) -> (r: bool)
        decreases self,
    {
        match (self, other) {
            (MExpr::Sum(x), MExpr::Sum(y)) => all_equal(x, y),
            (MExpr::Prod(x), MExpr::Prod(y)) => all_equal(x, y),
            (MExpr::Div(a, b), MExpr::Div(c, d)) => (**a).eq(&**c) && (**b).eq(&**d),
            (MExpr::Exp(a, b), MExpr::Exp(c, d)) => (**a).eq(&**c) && (**b).eq(&**d),
            (MExpr::ConstVar(x), MExpr::ConstVar(y)) => *x == *y,
            (MExpr::ConstNum(x), MExpr::ConstNum(y)) => *x == *y,
            (MExpr::Var(x), MExpr::Var(y)) => *x == *y,
            _ => false,
        }
    }
}

impl vstd::std_specs::cmp::PartialEqSpecImpl for MExpr {
    open spec fn obeys_eq_spec() -> bool {
        true
    }

    open spec fn eq_spec(&self, other: &MExpr) -> bool {
        self@ == other@
    }
}

impl Eq for MExpr {
}

/// A copy of every element, in order.
pub fn clone_all(v: &Vec<MExpr>) -> (r: Vec<MExpr>)
    ensures
        views(r@) == views(v@),
        r@.len() == v@.len(),
    decreases v,
{
    proof { lemma_views(v@); }
    let mut out: Vec<MExpr> = Vec::new();
    let mut i: usize = 0;
    while i < v.len()
        invariant
            i <= v@.len(),
            out@.len() == i,
            forall|j: int| 0 <= j < i ==> out@[j]@ == v@[j]@,
        decreases v@.len() - i,
    {
        out.push(v[i].clone());
        i = i + 1;
    }
    proof { lemma_views(out@); }
    assert(views(out@) =~= views(v@));
    out
}

impl Clone for MExpr {
    fn clone(&self) -> (r: MExpr)
        ensures
            r@ == self@,
        decreases self,
    {
        match self {
            MExpr::Sum(ts) => MExpr::Sum(clone_all(ts)),
            MExpr::Prod(ts) => MExpr::Prod(clone_all(ts)),
            MExpr::Div(a, b) => MExpr::Div(Box::new((**a).clone()), Box::new((**b).clone())),
            MExpr::Exp(a, b) => MExpr::Exp(Box::new((**a).clone()), Box::new((**b).clone())),
            MExpr::ConstVar(x) => MExpr::ConstVar(*x),
            MExpr::ConstNum(x) => MExpr::ConstNum(*x),
            MExpr::Var(x) => MExpr::Var(*x),
        }
    }
}

} // verus!

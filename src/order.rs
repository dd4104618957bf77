use vstd::prelude::*;
use std::cmp::Ordering;
use crate::expr::{MExpr, Expr, views, lemma_views};

verus! {

/// The order of two integers.
pub open spec fn cmp_int(a: int, b: int) -> Ordering {
    if a < b {
        Ordering::Less
    } else if a > b {
        Ordering::Greater
    } else {
        Ordering::Equal
    }
}

/// The order of expressions: by kind first (sum, product, quotient, power, named constant,
/// integer, variable); then constants and variables by id or value, sums and products by
/// their operands in turn and then by length, quotients by numerator and then denominator,
/// powers by base and then exponent.
pub open spec fn compare(a: Expr, b: Expr) -> Ordering
    decreases a, 0int,
{
    if a.rank() != b.rank() {
        cmp_int(a.rank() as int, b.rank() as int)
    } else {
        match (a, b) {
            (Expr::ConstVar(x), Expr::ConstVar(y)) => cmp_int(x as int, y as int),
            (Expr::Var(x), Expr::Var(y)) => cmp_int(x as int, y as int),
            (Expr::ConstNum(x), Expr::ConstNum(y)) => cmp_int(x as int, y as int),
            (Expr::Sum(xs), Expr::Sum(ys)) => compare_from(xs, ys, 0),
            (Expr::Prod(xs), Expr::Prod(ys)) => compare_from(xs, ys, 0),
            (Expr::Div(x, y), Expr::Div(u, v)) => {
                let c = compare(*x, *u);
                if c != Ordering::Equal {
                    c
                } else {
                    compare(*y, *v)
                }
            },
            (Expr::Exp(x, y), Expr::Exp(u, v)) => {
                let c = compare(*x, *u);
                if c != Ordering::Equal {
                    c
                } else {
                    compare(*y, *v)
                }
            },
            _ => Ordering::Equal,
        }
    }
}

/// Lexicographic comparison of two operand lists from position `i` on; where one runs out,
/// the shorter list comes first.
pub open spec fn compare_from(xs: Seq<Expr>, ys: Seq<Expr>, i: int) -> Ordering
    decreases xs, xs.len() - i,
{
    if i < 0 || i >= xs.len() || i >= ys.len() {
        cmp_int(xs.len() as int, ys.len() as int)
    } else {
        let c = compare(xs[i], ys[i]);
        if c != Ordering::Equal {
            c
        } else {
            compare_from(xs, ys, i + 1)
        }
    }
}

fn cmp_u64(a: u64, b: u64) -> (r: Ordering)
    ensures
        r == cmp_int(a as int, b as int),
{
    if a < b {
        Ordering::Less
    } else if a > b {
        Ordering::Greater
    } else {
        Ordering::Equal
    }
}

fn cmp_i64(a: i64, b: i64) -> (r: Ordering)
    ensures
        r == cmp_int(a as int, b as int),
{
    if a < b {
        Ordering::Less
    } else if a > b {
        Ordering::Greater
    } else {
        Ordering::Equal
    }
}

fn is_equal(o: &Ordering) -> (r: bool)
    ensures
        r == (*o == Ordering::Equal),
{
    match o {
        Ordering::Equal => true,
        _ => false,
    }
}

fn compare_lists(xs: &Vec<MExpr>, ys: &Vec<MExpr>) -> (r: Ordering)
    ensures
        r == compare_from(views(xs@), views(ys@), 0),
    decreases xs, 1int,
{
    let ghost xv = views(xs@);
    let ghost yv = views(ys@);
    proof {
        lemma_views(xs@);
        lemma_views(ys@);
    }
    let mut i: usize = 0;
    while i < xs.len() && i < ys.len()
        invariant
            i <= xs@.len(),
            i <= ys@.len(),
            xv == views(xs@),
            yv == views(ys@),
            xv.len() == xs@.len(),
            yv.len() == ys@.len(),
            forall|j: int| 0 <= j < xs@.len() ==> #[trigger] xv[j] == xs@[j]@,
            forall|j: int| 0 <= j < ys@.len() ==> #[trigger] yv[j] == ys@[j]@,
            compare_from(xv, yv, 0) == compare_from(xv, yv, i as int),
        decreases xs@.len() - i,
    {
        let c = compare_x(&xs[i], &ys[i]);
        if !is_equal(&c) {
            return c;
        }
        i = i + 1;
    }
    cmp_u64(xs.len() as u64, ys.len() as u64)
}

fn compare_x(a: &MExpr, b: &MExpr) -> (r: Ordering)
    ensures
        r == compare(a@, b@),
    decreases a, 2int,
{
    let ra = a.ord_num();
    let rb = b.ord_num();
    if ra != rb {
        return cmp_u64(ra as u64, rb as u64);
    }
    match (a, b) {
        (MExpr::ConstVar(x), MExpr::ConstVar(y)) => cmp_u64(*x as u64, *y as u64),
        (MExpr::Var(x), MExpr::Var(y)) => cmp_u64(*x as u64, *y as u64),
        (MExpr::ConstNum(x), MExpr::ConstNum(y)) => cmp_i64(*x, *y),
        (MExpr::Sum(xs), MExpr::Sum(ys)) => compare_lists(xs, ys),
        (MExpr::Prod(xs), MExpr::Prod(ys)) => compare_lists(xs, ys),
        (MExpr::Div(x, y), MExpr::Div(u, v)) => {
            let c = compare_x(x, u);
            if !is_equal(&c) {
                c
            } else {
                compare_x(y, v)
            }
        },
        (MExpr::Exp(x, y), MExpr::Exp(u, v)) => {
            let c = compare_x(x, u);
            if !is_equal(&c) {
                c
            } else {
                compare_x(y, v)
            }
        },
        _ => Ordering::Equal,
    }
}

impl MExpr {
    /// Where this expression stands against `other` in the order of expressions (see
    /// `compare`).
    pub fn compare(&self, other: &MExpr) -> (r: Ordering)
        ensures
            r == compare(self@, other@),
    {
        compare_x(self, other)
    }
}

impl PartialOrd for MExpr {
    fn partial_cmp(&self, other: &MExpr) -> (r: Option<Ordering>) {
        Some(compare_x(self, other))
    }
}

impl vstd::std_specs::cmp::PartialOrdSpecImpl for MExpr {
    open spec fn obeys_partial_cmp_spec() -> bool {
        true
    }

    open spec fn partial_cmp_spec(&self, other: &MExpr) -> Option<Ordering> {
        Some(compare(self@, other@))
    }
}

} // verus!
verus! {

/// Two expressions compare equal exactly when they are the same expression.
pub proof fn law_compare_equal(a: Expr, b: Expr)
    ensures
        (compare(a, b) == Ordering::Equal) == (a == b),
    decreases a, 0int,
{
    if a.rank() == b.rank() {
        match (a, b) {
            (Expr::Sum(xs), Expr::Sum(ys)) => {
                lemma_compare_from_equal(xs, ys, 0);
                assert(xs.subrange(0, xs.len() as int) =~= xs);
                assert(ys.subrange(0, ys.len() as int) =~= ys);
                if xs.len() == 0 && ys.len() == 0 {
                    assert(xs =~= ys);
                }
            },
            (Expr::Prod(xs), Expr::Prod(ys)) => {
                lemma_compare_from_equal(xs, ys, 0);
                assert(xs.subrange(0, xs.len() as int) =~= xs);
                assert(ys.subrange(0, ys.len() as int) =~= ys);
                if xs.len() == 0 && ys.len() == 0 {
                    assert(xs =~= ys);
                }
            },
            (Expr::Div(x, y), Expr::Div(u, v)) => {
                law_compare_equal(*x, *u);
                law_compare_equal(*y, *v);
            },
            (Expr::Exp(x, y), Expr::Exp(u, v)) => {
                law_compare_equal(*x, *u);
                law_compare_equal(*y, *v);
            },
            _ => {},
        }
    }
}

/// Operand lists compare equal from `i` on exactly when they have the same length and the
/// same operands from `i` on.
pub proof fn lemma_compare_from_equal(xs: Seq<Expr>, ys: Seq<Expr>, i: int)
    requires
        0 <= i,
    ensures
        (compare_from(xs, ys, i) == Ordering::Equal) == (xs.len() == ys.len() && (i >= xs.len()
            || xs.subrange(i, xs.len() as int) == ys.subrange(i, ys.len() as int))),
    decreases xs, xs.len() - i,
{
    if i < xs.len() && i < ys.len() {
        law_compare_equal(xs[i], ys[i]);
        lemma_compare_from_equal(xs, ys, i + 1);
        if xs.len() == ys.len() {
            if xs[i] == ys[i] && (i + 1 >= xs.len()
                || xs.subrange(i + 1, xs.len() as int) == ys.subrange(i + 1, ys.len() as int)) {
                assert forall|j: int| 0 <= j < xs.len() - i implies #[trigger] xs.subrange(i, xs.len() as int)[j]
                    == ys.subrange(i, ys.len() as int)[j] by {
                    if j > 0 {
                        assert(xs.subrange(i + 1, xs.len() as int)[j - 1] == xs[i + j]);
                        assert(ys.subrange(i + 1, ys.len() as int)[j - 1] == ys[i + j]);
                    }
                }
                assert(xs.subrange(i, xs.len() as int) =~= ys.subrange(i, ys.len() as int));
            }
            if xs.subrange(i, xs.len() as int) == ys.subrange(i, ys.len() as int) {
                assert(xs[i] == xs.subrange(i, xs.len() as int)[0]);
                assert(ys[i] == ys.subrange(i, ys.len() as int)[0]);
                assert(xs.subrange(i + 1, xs.len() as int) =~= xs.subrange(i, xs.len() as int).subrange(1, xs.len() - i));
                assert(ys.subrange(i + 1, ys.len() as int) =~= ys.subrange(i, ys.len() as int).subrange(1, ys.len() - i));
            }
        }
    }
}

} // verus!
verus! {

/// The opposite outcome of a comparison.
pub open spec fn flip(o: Ordering) -> Ordering {
    match o {
        Ordering::Less => Ordering::Greater,
        Ordering::Greater => Ordering::Less,
        Ordering::Equal => Ordering::Equal,
    }
}

/// Comparing the other way round gives the opposite outcome.
pub proof fn law_compare_flip(a: Expr, b: Expr)
    ensures
        compare(b, a) == flip(compare(a, b)),
    decreases a, 0int,
{
    if a.rank() == b.rank() {
        match (a, b) {
            (Expr::Sum(xs), Expr::Sum(ys)) => lemma_compare_from_flip(xs, ys, 0),
            (Expr::Prod(xs), Expr::Prod(ys)) => lemma_compare_from_flip(xs, ys, 0),
            (Expr::Div(x, y), Expr::Div(u, v)) => {
                law_compare_flip(*x, *u);
                law_compare_flip(*y, *v);
            },
            (Expr::Exp(x, y), Expr::Exp(u, v)) => {
                law_compare_flip(*x, *u);
                law_compare_flip(*y, *v);
            },
            _ => {},
        }
    }
}

pub proof fn lemma_compare_from_flip(xs: Seq<Expr>, ys: Seq<Expr>, i: int)
    requires
        0 <= i,
    ensures
        compare_from(ys, xs, i) == flip(compare_from(xs, ys, i)),
    decreases xs, xs.len() - i,
{
    if i < xs.len() && i < ys.len() {
        law_compare_flip(xs[i], ys[i]);
        lemma_compare_from_flip(xs, ys, i + 1);
    }
}

} // verus!

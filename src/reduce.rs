use vstd::prelude::*;
use crate::expr::{MExpr, Expr, views, lemma_views, lemma_views_push, lemma_views_concat, clone_all};
use crate::normalize::{flatten_sum, flatten_prod, operands, sum_of, prod_of, make_sum, make_prod, trivial_operands};

verus! {

/// The greatest common divisor of two naturals (Euclid).
pub open spec fn gcd_nat(x: nat, y: nat) -> nat
    decreases y,
{
    if y == 0 {
        x
    } else {
        gcd_nat(y, x % y)
    }
}

/// The absolute value.
pub open spec fn abs(x: int) -> nat {
    if x < 0 {
        (-x) as nat
    } else {
        x as nat
    }
}

/// The greatest common divisor of two integers; negative when both are negative.
pub open spec fn gcd_int(a: int, b: int) -> int {
    if a < 0 && b < 0 {
        -gcd_nat(abs(a), abs(b))
    } else {
        gcd_nat(abs(a), abs(b)) as int
    }
}

/// Integer division rounding towards zero.
pub open spec fn tdiv(a: int, b: int) -> int {
    let q = (abs(a) / abs(b)) as int;
    if (a < 0) != (b < 0) {
        -q
    } else {
        q
    }
}

/// The value fits in an `i64`.
pub open spec fn fits(x: int) -> bool {
    i64::MIN <= x <= i64::MAX
}

/// The integer constant one.
pub open spec fn one() -> Expr {
    Expr::ConstNum(1)
}

/// `a` over `b`.
pub open spec fn quotient(a: Expr, b: Expr) -> Expr {
    Expr::Div(Box::new(a), Box::new(b))
}

/// Common divisor and ratio of two integer constants: equal constants are their own
/// divisor with ratio one (zero included); otherwise the ratio is the exact quotient
/// where `b` divides `a`, the reduced fraction otherwise. Where the divisor is zero or a
/// value does not fit, no common divisor is taken out.
pub open spec fn num_gcd_div(a: i64, b: i64) -> (Expr, Expr) {
    let g = gcd_int(a as int, b as int);
    let qa = tdiv(a as int, g);
    let qb = tdiv(b as int, g);
    if a == b {
        (Expr::ConstNum(a), one())
    } else if g == 0 || !fits(g) || !fits(qa) || !fits(qb) || (qb == -1 && !fits(-qa)) {
        (one(), quotient(Expr::ConstNum(a), Expr::ConstNum(b)))
    } else if qb == 1 {
        (Expr::ConstNum(g as i64), Expr::ConstNum(qa as i64))
    } else if qb == -1 {
        (Expr::ConstNum(g as i64), Expr::ConstNum((-qa) as i64))
    } else {
        (Expr::ConstNum(g as i64), quotient(Expr::ConstNum(qa as i64), Expr::ConstNum(qb as i64)))
    }
}

/// Common divisor and ratio without looking into products: integer constants by their
/// greatest common divisor, equal expressions by themselves.
pub open spec fn simple_gcd_div(a: Expr, b: Expr) -> (Expr, Expr) {
    match (a, b) {
        (Expr::ConstNum(x), Expr::ConstNum(y)) => num_gcd_div(x, y),
        _ => if a == b {
            (a, one())
        } else {
            (one(), quotient(a, b))
        },
    }
}

/// The sum of the integer constants among the terms.
pub open spec fn num_total_sum(s: Seq<Expr>) -> int
    decreases s.len(),
{
    if s.len() == 0 {
        0
    } else {
        let rest = num_total_sum(s.subrange(0, s.len() - 1));
        match s[s.len() - 1] {
            Expr::ConstNum(x) => rest + x,
            _ => rest,
        }
    }
}

/// The product of the integer constants among the factors.
pub open spec fn num_total_prod(s: Seq<Expr>) -> int
    decreases s.len(),
{
    if s.len() == 0 {
        1
    } else {
        let rest = num_total_prod(s.subrange(0, s.len() - 1));
        match s[s.len() - 1] {
            Expr::ConstNum(x) => rest * x,
            _ => rest,
        }
    }
}

/// The operands that are not integer constants, in order.
pub open spec fn non_num(s: Seq<Expr>) -> Seq<Expr>
    decreases s.len(),
{
    if s.len() == 0 {
        Seq::empty()
    } else {
        let rest = non_num(s.subrange(0, s.len() - 1));
        match s[s.len() - 1] {
            Expr::ConstNum(_) => rest,
            t => rest.push(t),
        }
    }
}

/// The terms with their integer constants added up into one, placed last (and left out
/// when zero). Where the sum does not fit in an `i64` the terms stay as they are.
pub open spec fn combine_sum(s: Seq<Expr>) -> Seq<Expr> {
    let t = num_total_sum(s);
    if !fits(t) {
        s
    } else if t != 0 {
        non_num(s).push(Expr::ConstNum(t as i64))
    } else {
        non_num(s)
    }
}

/// The factors with their integer constants multiplied into one, placed last (and left out
/// when one); a zero product leaves that zero alone. Where the product does not fit in an
/// `i64` the factors stay as they are.
pub open spec fn combine_prod(s: Seq<Expr>) -> Seq<Expr> {
    let t = num_total_prod(s);
    if t == 0 {
        seq![Expr::ConstNum(0)]
    } else if !fits(t) {
        s
    } else if t != 1 {
        non_num(s).push(Expr::ConstNum(t as i64))
    } else {
        non_num(s)
    }
}

/// Some factor is a quotient.
pub open spec fn has_div(s: Seq<Expr>) -> bool
    decreases s.len(),
{
    if s.len() == 0 {
        false
    } else {
        has_div(s.subrange(0, s.len() - 1)) || s[s.len() - 1] is Div
    }
}

/// The factors with each quotient replaced by its numerator.
pub open spec fn numerators(s: Seq<Expr>) -> Seq<Expr>
    decreases s.len(),
{
    if s.len() == 0 {
        Seq::empty()
    } else {
        let rest = numerators(s.subrange(0, s.len() - 1));
        match s[s.len() - 1] {
            Expr::Div(a, _) => rest.push(*a),
            t => rest.push(t),
        }
    }
}

/// The denominators of the quotients among the factors.
pub open spec fn denominators(s: Seq<Expr>) -> Seq<Expr>
    decreases s.len(),
{
    if s.len() == 0 {
        Seq::empty()
    } else {
        let rest = denominators(s.subrange(0, s.len() - 1));
        match s[s.len() - 1] {
            Expr::Div(_, b) => rest.push(*b),
            _ => rest,
        }
    }
}

/// Full normalisation within `fuel` nested steps; an expression reached with no fuel left
/// stays as it is. The operands of sums and products are brought to light normal form,
/// flattened into them, normalised and flattened again; integer constants are folded
/// (left as they are where the result would not fit in an `i64`); with `f`, a common
/// divisor of a sum's terms is factored out; a product with a quotient among its factors
/// becomes one quotient; a quotient is divided by the common divisor of its two sides; both
/// sides of a power are normalised.
pub open spec fn reduce_f(e: Expr, f: bool, fuel: nat) -> Expr
    decreases fuel, 0int,
{
    if fuel == 0 {
        e
    } else {
        let k = (fuel - 1) as nat;
        match e {
            Expr::Sum(ts) => {
                let terms = combine_sum(flatten_sum(reduce_all(operands(ts, true), f, k)));
                if f && terms.len() > 1 {
                    let g = gcd_fold(terms, terms[0], k);
                    if g == one() {
                        sum_of(terms)
                    } else {
                        reduce_f(Expr::Prod(seq![g, Expr::Sum(quotients(terms, g, k))]), false, k)
                    }
                } else {
                    sum_of(terms)
                }
            },
            Expr::Prod(ts) => {
                let terms = combine_prod(flatten_prod(reduce_all(operands(ts, false), f, k)));
                if has_div(terms) {
                    reduce_f(
                        quotient(Expr::Prod(numerators(terms)), Expr::Prod(denominators(terms))),
                        f,
                        k,
                    )
                } else {
                    prod_of(terms)
                }
            },
            Expr::Div(n, d) => {
                let rn = reduce_f(*n, f, k);
                let rd = reduce_f(*d, f, k);
                let ratio = if f {
                    gcd_div(rn, rd, k).1
                } else {
                    simple_gcd_div(rn, rd).1
                };
                match ratio {
                    Expr::Div(a, b) => if *b == one() {
                        *a
                    } else {
                        ratio
                    },
                    _ => ratio,
                }
            },
            Expr::Exp(a, b) => Expr::Exp(Box::new(reduce_f(*a, f, k)), Box::new(reduce_f(*b, f, k))),
            _ => e,
        }
    }
}

/// Each operand normalised.
pub open spec fn reduce_all(s: Seq<Expr>, f: bool, fuel: nat) -> Seq<Expr>
    decreases fuel, s.len(),
{
    if s.len() == 0 {
        Seq::empty()
    } else {
        reduce_all(s.subrange(0, s.len() - 1), f, fuel).push(reduce_f(s[s.len() - 1], f, fuel))
    }
}

/// The common divisor of `acc` and all the terms, taken one term at a time.
pub open spec fn gcd_fold(s: Seq<Expr>, acc: Expr, fuel: nat) -> Expr
    decreases fuel, s.len(),
{
    if s.len() == 0 {
        acc
    } else {
        gcd_div(gcd_fold(s.subrange(0, s.len() - 1), acc, fuel), s[s.len() - 1], fuel).0
    }
}

/// Each term divided by `g`, normalised without factoring.
pub open spec fn quotients(s: Seq<Expr>, g: Expr, fuel: nat) -> Seq<Expr>
    decreases fuel, s.len(),
{
    if s.len() == 0 {
        Seq::empty()
    } else {
        quotients(s.subrange(0, s.len() - 1), g, fuel).push(
            reduce_f(gcd_div(s[s.len() - 1], g, fuel).1, false, fuel),
        )
    }
}

/// The walk over the factors of a product against `x`: the common factors found, the
/// remaining numerator factors, and what remains of `x`.
pub open spec fn factor_walk(fs: Seq<Expr>, x: Expr, fuel: nat) -> (Seq<Expr>, Seq<Expr>, Expr)
    decreases fuel, fs.len(),
{
    if fs.len() == 0 {
        (Seq::empty(), Seq::empty(), x)
    } else {
        let (gs, rf, rd) = factor_walk(fs.subrange(0, fs.len() - 1), x, fuel);
        let factor = fs[fs.len() - 1];
        let g = gcd_div(factor, x, fuel).0;
        let ratio = gcd_div(factor, rd, fuel).1;
        let (rf2, rd2) = match ratio {
            Expr::Div(a, b) => (rf.push(*a), *b),
            _ => (rf.push(ratio), one()),
        };
        let gs2 = if g == one() {
            gs
        } else {
            match g {
                Expr::Prod(xs) => gs + xs,
                _ => gs.push(g),
            }
        };
        (gs2, rf2, rd2)
    }
}

/// Structural common divisor of two expressions, and their ratio, within `fuel` nested
/// steps (with no fuel left: divisor one, ratio the plain quotient). Integer constants go
/// by their greatest common divisor; otherwise equal expressions are their own divisor with
/// ratio one, a product is searched factor by factor, and anything else has divisor one.
pub open spec fn gcd_div(a: Expr, b: Expr, fuel: nat) -> (Expr, Expr)
    decreases fuel, 0int,
{
    if fuel == 0 {
        (one(), quotient(a, b))
    } else {
        let k = (fuel - 1) as nat;
        match (a, b) {
            (Expr::ConstNum(x), Expr::ConstNum(y)) => num_gcd_div(x, y),
            _ => if a == b {
                (a, one())
            } else {
                match (a, b) {
                    (Expr::Prod(fs), _) => prod_gcd_div(fs, b, true, k),
                    (_, Expr::Prod(fs)) => prod_gcd_div(fs, a, false, k),
                    _ => (one(), reduce_f(quotient(a, b), false, k)),
                }
            },
        }
    }
}

/// Common divisor and ratio of a product with factors `fs` and `x`; `left` when the
/// product is the dividend.
pub open spec fn prod_gcd_div(fs: Seq<Expr>, x: Expr, left: bool, fuel: nat) -> (Expr, Expr)
    decreases fuel, fs.len() + 1,
{
    let (gs, rf, rd) = factor_walk(fs, x, fuel);
    let num = if left {
        reduce_f(Expr::Prod(rf), false, fuel)
    } else {
        reduce_f(rd, false, fuel)
    };
    let den = if left {
        reduce_f(rd, false, fuel)
    } else {
        reduce_f(Expr::Prod(rf), false, fuel)
    };
    let ratio = reduce_f(quotient(num, den), false, fuel);
    if gs.len() == 1 {
        (gs[0], ratio)
    } else {
        (reduce_f(Expr::Prod(gs), false, fuel), ratio)
    }
}


fn magnitude(a: i64) -> (r: u64)
    ensures
        r as int == abs(a as int),
{
    if a < 0 {
        (-(a as i128)) as u64
    } else {
        a as u64
    }
}

/// The greatest common divisor of two integers, negative when both are negative; zero
/// only for two zeros.
pub fn gcd(a: i64, b: i64) -> (r: i128)
    ensures
        r == gcd_int(a as int, b as int),
{
    let mut x: u64 = magnitude(a);
    let mut y: u64 = magnitude(b);
    while y != 0
        invariant
            gcd_nat(x as nat, y as nat) == gcd_nat(abs(a as int), abs(b as int)),
        decreases y,
    {
        let t = x % y;
        x = y;
        y = t;
    }
    if a < 0 && b < 0 {
        -(x as i128)
    } else {
        x as i128
    }
}

proof fn lemma_gcd_bound(x: nat, y: nat)
    ensures
        gcd_nat(x, y) <= if x > y { x } else { y },
    decreases y,
{
    if y > 0 {
        lemma_gcd_bound(y, x % y);
    }
}

fn num_gcd_div_x(a: i64, b: i64) -> (r: (MExpr, MExpr))
    ensures
        (r.0@, r.1@) == num_gcd_div(a, b),
{
    if a == b {
        return (MExpr::ConstNum(a), MExpr::ConstNum(1));
    }
    let g = gcd(a, b);
    proof {
        lemma_gcd_bound(abs(a as int), abs(b as int));
    }
    let fallback = (MExpr::ConstNum(1), MExpr::Div(Box::new(MExpr::ConstNum(a)), Box::new(MExpr::ConstNum(b))));
    assert(MExpr::ConstNum(a)@ == Expr::ConstNum(a) && MExpr::ConstNum(b)@ == Expr::ConstNum(b));
    if g == 0 || g < i64::MIN as i128 || g > i64::MAX as i128 {
        return fallback;
    }
    let ug: u64 = if g < 0 {
        (-g) as u64
    } else {
        g as u64
    };
    let qa_m = magnitude(a) / ug;
    let qb_m = magnitude(b) / ug;
    let qa: i128 = if (a < 0) != (g < 0) {
        -(qa_m as i128)
    } else {
        qa_m as i128
    };
    let qb: i128 = if (b < 0) != (g < 0) {
        -(qb_m as i128)
    } else {
        qb_m as i128
    };
    proof {
        assert(ug as int == abs(g as int));
        assert(qa == tdiv(a as int, g as int));
        assert(qb == tdiv(b as int, g as int));
    }
    if qa < i64::MIN as i128 || qa > i64::MAX as i128 || qb < i64::MIN as i128 || qb > i64::MAX as i128
        || (qb == -1 && -qa > i64::MAX as i128) {
        return fallback;
    }
    if qb == -1 {
        let nq = (-qa) as i64;
        assert(MExpr::ConstNum(nq)@ == Expr::ConstNum(nq));
        return (MExpr::ConstNum(g as i64), MExpr::ConstNum(nq));
    }
    let (ga, qa, qb) = (g as i64, qa as i64, qb as i64);
    assert(MExpr::ConstNum(qa)@ == Expr::ConstNum(qa) && MExpr::ConstNum(qb)@ == Expr::ConstNum(qb));
    if qb == 1 {
        (MExpr::ConstNum(ga), MExpr::ConstNum(qa))
    } else {
        (MExpr::ConstNum(ga), MExpr::Div(Box::new(MExpr::ConstNum(qa)), Box::new(MExpr::ConstNum(qb))))
    }
}

fn simple_gcd_div_x(a: &MExpr, b: &MExpr) -> (r: (MExpr, MExpr))
    ensures
        (r.0@, r.1@) == simple_gcd_div(a@, b@),
{
    match (a, b) {
        (MExpr::ConstNum(x), MExpr::ConstNum(y)) => num_gcd_div_x(*x, *y),
        _ => if a.eq(b) {
            (a.clone(), MExpr::ConstNum(1))
        } else {
            (MExpr::ConstNum(1), MExpr::Div(Box::new(a.clone()), Box::new(b.clone())))
        },
    }
}

/// The integer constants of a sum or a product folded into one (see `combine_sum`,
/// `combine_prod`).
pub(crate) fn combine_x(v: Vec<MExpr>, sum: bool) -> (r: Vec<MExpr>)
    ensures
        views(r@) == if sum {
            combine_sum(views(v@))
        } else {
            combine_prod(views(v@))
        },
{
    if sum {
        combine_sum_x(v)
    } else {
        combine_prod_x(v)
    }
}

proof fn lemma_abs_mul_grows(p: int, x: int)
    requires
        x != 0,
    ensures
        abs(p * x) >= abs(p),
{
    if p >= 0 && x > 0 {
        assert(p * x >= p) by (nonlinear_arith) requires p >= 0 && x > 0;
    } else if p >= 0 && x < 0 {
        assert(-(p * x) >= p) by (nonlinear_arith) requires p >= 0 && x < 0;
    } else if p < 0 && x > 0 {
        assert(-(p * x) >= -p) by (nonlinear_arith) requires p < 0 && x > 0;
    } else {
        assert(p * x >= -p) by (nonlinear_arith) requires p < 0 && x < 0;
    }
}

fn combine_sum_x(v: Vec<MExpr>) -> (r: Vec<MExpr>)
    ensures
        views(r@) == combine_sum(views(v@)),
{
    let ghost vs = views(v@);
    proof { lemma_views(v@); }
    let mut total: i128 = 0;
    let mut other: Vec<MExpr> = Vec::new();
    let n = v.len();
    let mut i: usize = 0;
    while i < n
        invariant
            n == v@.len(),
            i <= n,
            vs == views(v@),
            vs.len() == v@.len(),
            forall|j: int| 0 <= j < v@.len() ==> #[trigger] vs[j] == v@[j]@,
            total == num_total_sum(vs.subrange(0, i as int)),
            -(i as int) * 0x8000_0000_0000_0000 <= total <= (i as int) * 0x8000_0000_0000_0000,
            views(other@) == non_num(vs.subrange(0, i as int)),
        decreases n - i,
    {
        proof {
            let next = vs.subrange(0, i as int + 1);
            assert(next.subrange(0, i as int) =~= vs.subrange(0, i as int));
        }
        match &v[i] {
            MExpr::ConstNum(x) => {
                total = total + *x as i128;
            },
            t => {
                let c = t.clone();
                proof { lemma_views_push(other@, c); }
                other.push(c);
            },
        }
        i = i + 1;
    }
    proof {
        assert(vs.subrange(0, n as int) =~= vs);
    }
    if total < i64::MIN as i128 || total > i64::MAX as i128 {
        return v;
    }
    let t = total as i64;
    proof { lemma_views_push(other@, MExpr::ConstNum(t)); }
    if t != 0 {
        other.push(MExpr::ConstNum(t));
    }
    other
}

fn combine_prod_x(v: Vec<MExpr>) -> (r: Vec<MExpr>)
    ensures
        views(r@) == combine_prod(views(v@)),
{
    let ghost vs = views(v@);
    proof { lemma_views(v@); }
    let mut zero = false;
    let mut big = false;
    let mut p: i128 = 1;
    let mut other: Vec<MExpr> = Vec::new();
    let n = v.len();
    let mut i: usize = 0;
    while i < n
        invariant
            n == v@.len(),
            i <= n,
            vs == views(v@),
            vs.len() == v@.len(),
            forall|j: int| 0 <= j < v@.len() ==> #[trigger] vs[j] == v@[j]@,
            zero ==> num_total_prod(vs.subrange(0, i as int)) == 0,
            !zero ==> num_total_prod(vs.subrange(0, i as int)) != 0,
            !zero && !big ==> p == num_total_prod(vs.subrange(0, i as int)) && abs(p as int) <= 0x8000_0000_0000_0000,
            !zero && big ==> abs(num_total_prod(vs.subrange(0, i as int))) > 0x8000_0000_0000_0000,
            views(other@) == non_num(vs.subrange(0, i as int)),
        decreases n - i,
    {
        let ghost prev = num_total_prod(vs.subrange(0, i as int));
        proof {
            let next = vs.subrange(0, i as int + 1);
            assert(next.subrange(0, i as int) =~= vs.subrange(0, i as int));
        }
        match &v[i] {
            MExpr::ConstNum(x) => {
                let x = *x;
                proof {
                    let next = vs.subrange(0, i as int + 1);
                    assert(num_total_prod(next) == prev * (x as int));
                    if x != 0 {
                        lemma_abs_mul_grows(prev, x as int);
                    } else {
                        assert(prev * 0 == 0);
                    }
                    if prev == 0 {
                        assert(0 * (x as int) == 0);
                    }
                }
                if x == 0 {
                    zero = true;
                } else if !zero && !big {
                    proof {
                        let pi = p as int;
                        let xi = x as int;
                        assert(-0x8000_0000_0000_0000 <= pi <= 0x8000_0000_0000_0000);
                        assert(-0x4000_0000_0000_0000_0000_0000_0000_0000 <= pi * xi <= 0x4000_0000_0000_0000_0000_0000_0000_0000)
                            by (nonlinear_arith)
                            requires
                                -0x8000_0000_0000_0000 <= pi <= 0x8000_0000_0000_0000,
                                -0x8000_0000_0000_0000 <= xi < 0x8000_0000_0000_0000,
                        ;
                    }
                    let q = p * (x as i128);
                    if q < -0x8000_0000_0000_0000 || q > 0x8000_0000_0000_0000 {
                        big = true;
                    } else {
                        p = q;
                    }
                }
            },
            t => {
                let c = t.clone();
                proof { lemma_views_push(other@, c); }
                other.push(c);
            },
        }
        i = i + 1;
    }
    proof {
        assert(vs.subrange(0, n as int) =~= vs);
    }
    if zero {
        let r = vec![MExpr::ConstNum(0)];
        proof {
            lemma_views(r@);
            assert(views(r@) =~= seq![Expr::ConstNum(0)]);
        }
        return r;
    }
    if big || p < i64::MIN as i128 || p > i64::MAX as i128 {
        return v;
    }
    let t = p as i64;
    proof { lemma_views_push(other@, MExpr::ConstNum(t)); }
    if t != 1 {
        other.push(MExpr::ConstNum(t));
    }
    other
}

/// A product's factors split into the numerators and the denominators, where some factor
/// is a quotient.
pub(crate) fn split_div_x(v: &Vec<MExpr>) -> (r: Option<(Vec<MExpr>, Vec<MExpr>)>)
    ensures
        r is Some == has_div(views(v@)),
        r is Some ==> views((r->0).0@) == numerators(views(v@)) && views((r->0).1@) == denominators(views(v@)),
{
    let ghost vs = views(v@);
    proof { lemma_views(v@); }
    let mut nums: Vec<MExpr> = Vec::new();
    let mut dens: Vec<MExpr> = Vec::new();
    let mut found = false;
    let n = v.len();
    let mut i: usize = 0;
    while i < n
        invariant
            n == v@.len(),
            i <= n,
            vs == views(v@),
            vs.len() == v@.len(),
            forall|j: int| 0 <= j < v@.len() ==> #[trigger] vs[j] == v@[j]@,
            found == has_div(vs.subrange(0, i as int)),
            views(nums@) == numerators(vs.subrange(0, i as int)),
            views(dens@) == denominators(vs.subrange(0, i as int)),
        decreases n - i,
    {
        proof {
            let next = vs.subrange(0, i as int + 1);
            assert(next.subrange(0, i as int) =~= vs.subrange(0, i as int));
        }
        match &v[i] {
            MExpr::Div(a, b) => {
                let ca = (**a).clone();
                let cb = (**b).clone();
                proof {
                    lemma_views_push(nums@, ca);
                    lemma_views_push(dens@, cb);
                }
                nums.push(ca);
                dens.push(cb);
                found = true;
            },
            t => {
                let c = t.clone();
                proof { lemma_views_push(nums@, c); }
                nums.push(c);
            },
        }
        i = i + 1;
    }
    proof {
        assert(vs.subrange(0, n as int) =~= vs);
    }
    if found {
        Some((nums, dens))
    } else {
        None
    }
}

/// The operands with each nested operand of the same kind replaced by its own operands.
pub(crate) fn flatten_x(ts: &Vec<MExpr>, sum: bool) -> (r: Vec<MExpr>)
    ensures
        views(r@) == if sum {
            flatten_sum(views(ts@))
        } else {
            flatten_prod(views(ts@))
        },
{
    let ghost vs = views(ts@);
    proof { lemma_views(ts@); }
    let mut out: Vec<MExpr> = Vec::new();
    let n = ts.len();
    let mut i: usize = 0;
    while i < n
        invariant
            n == ts@.len(),
            i <= n,
            vs == views(ts@),
            vs.len() == ts@.len(),
            forall|j: int| 0 <= j < ts@.len() ==> #[trigger] vs[j] == ts@[j]@,
            views(out@) == if sum {
                flatten_sum(vs.subrange(0, i as int))
            } else {
                flatten_prod(vs.subrange(0, i as int))
            },
        decreases n - i,
    {
        proof {
            let next = vs.subrange(0, i as int + 1);
            assert(next.subrange(0, i as int) =~= vs.subrange(0, i as int));
        }
        let ghost before = out@;
        match &ts[i] {
            MExpr::Sum(us) if sum => {
                let mut c = clone_all(us);
                proof { lemma_views_concat(before, c@); }
                out.append(&mut c);
            },
            MExpr::Prod(us) if !sum => {
                let mut c = clone_all(us);
                proof { lemma_views_concat(before, c@); }
                out.append(&mut c);
            },
            t => {
                let c = t.clone();
                proof { lemma_views_push(before, c); }
                out.push(c);
            },
        }
        i = i + 1;
    }
    proof {
        assert(vs.subrange(0, n as int) =~= vs);
    }
    out
}


fn reduce_all_x(ts: &Vec<MExpr>, f: bool, fuel: u32) -> (r: Vec<MExpr>)
    ensures
        views(r@) == reduce_all(views(ts@), f, fuel as nat),
    decreases fuel, 1int,
{
    let ghost vs = views(ts@);
    proof { lemma_views(ts@); }
    let mut out: Vec<MExpr> = Vec::new();
    let n = ts.len();
    let mut i: usize = 0;
    while i < n
        invariant
            n == ts@.len(),
            i <= n,
            vs == views(ts@),
            vs.len() == ts@.len(),
            forall|j: int| 0 <= j < ts@.len() ==> #[trigger] vs[j] == ts@[j]@,
            views(out@) == reduce_all(vs.subrange(0, i as int), f, fuel as nat),
        decreases n - i,
    {
        let c = reduce_x(&ts[i], f, fuel);
        proof {
            let next = vs.subrange(0, i as int + 1);
            assert(next.subrange(0, i as int) =~= vs.subrange(0, i as int));
            lemma_views_push(out@, c);
        }
        out.push(c);
        i = i + 1;
    }
    proof {
        assert(vs.subrange(0, n as int) =~= vs);
    }
    out
}

/// The common divisor of the terms, then each term divided by it (see `gcd_fold`,
/// `quotients`).
fn factor_terms_x(terms: &Vec<MExpr>, fuel: u32) -> (r: (MExpr, Vec<MExpr>))
    requires
        terms@.len() > 0,
    ensures
        r.0@ == gcd_fold(views(terms@), views(terms@)[0], fuel as nat),
        views(r.1@) == quotients(views(terms@), r.0@, fuel as nat),
    decreases fuel, 1int,
{
    let ghost vs = views(terms@);
    proof { lemma_views(terms@); }
    let n = terms.len();
    let mut g = terms[0].clone();
    let mut i: usize = 0;
    proof {
        assert(vs.subrange(0, 0) =~= Seq::<Expr>::empty());
    }
    while i < n
        invariant
            n == terms@.len(),
            n > 0,
            i <= n,
            vs == views(terms@),
            vs.len() == terms@.len(),
            forall|j: int| 0 <= j < terms@.len() ==> #[trigger] vs[j] == terms@[j]@,
            g@ == gcd_fold(vs.subrange(0, i as int), vs[0], fuel as nat),
        decreases n - i,
    {
        let (next_g, _) = gcd_div_x(&g, &terms[i], fuel);
        proof {
            let next = vs.subrange(0, i as int + 1);
            assert(next.subrange(0, i as int) =~= vs.subrange(0, i as int));
        }
        g = next_g;
        i = i + 1;
    }
    proof {
        assert(vs.subrange(0, n as int) =~= vs);
    }
    let mut qs: Vec<MExpr> = Vec::new();
    let mut i: usize = 0;
    while i < n
        invariant
            n == terms@.len(),
            i <= n,
            vs == views(terms@),
            vs.len() == terms@.len(),
            forall|j: int| 0 <= j < terms@.len() ==> #[trigger] vs[j] == terms@[j]@,
            views(qs@) == quotients(vs.subrange(0, i as int), g@, fuel as nat),
        decreases n - i,
    {
        let (_, ratio) = gcd_div_x(&terms[i], &g, fuel);
        let q = reduce_x(&ratio, false, fuel);
        proof {
            let next = vs.subrange(0, i as int + 1);
            assert(next.subrange(0, i as int) =~= vs.subrange(0, i as int));
            lemma_views_push(qs@, q);
        }
        qs.push(q);
        i = i + 1;
    }
    proof {
        assert(vs.subrange(0, n as int) =~= vs);
    }
    (g, qs)
}

fn pair_x(a: MExpr, b: MExpr) -> (r: Vec<MExpr>)
    ensures
        views(r@) == seq![a@, b@],
{
    let ghost (ga, gb) = (a, b);
    let v = vec![a, b];
    proof {
        lemma_views(v@);
        assert(views(v@) =~= seq![ga@, gb@]);
    }
    v
}

pub(crate) fn reduce_x(e: &MExpr, f: bool, fuel: u32) -> (r: MExpr)
    ensures
        r@ == reduce_f(e@, f, fuel as nat),
    decreases fuel, 0int,
{
    if fuel == 0 {
        return e.clone();
    }
    let k = fuel - 1;
    match e {
        MExpr::Sum(ts) => {
            let flat = trivial_operands(ts, true);
            let red = reduce_all_x(&flat, f, k);
            let terms = combine_x(flatten_x(&red, true), true);
            proof { lemma_views(terms@); }
            if f && terms.len() > 1 {
                let (g, qs) = factor_terms_x(&terms, k);
                let is_one = match &g {
                    MExpr::ConstNum(x) => *x == 1,
                    _ => false,
                };
                assert(is_one == (g@ == one()));
                if is_one {
                    make_sum(terms)
                } else {
                    let ghost gg = g@;
                    let sq = MExpr::Sum(qs);
                    assert(sq@ == Expr::Sum(quotients(views(terms@), gg, k as nat)));
                    let p = MExpr::Prod(pair_x(g, sq));
                    assert(p@ == Expr::Prod(seq![gg, Expr::Sum(quotients(views(terms@), gg, k as nat))]));
                    reduce_x(&p, false, k)
                }
            } else {
                make_sum(terms)
            }
        },
        MExpr::Prod(ts) => {
            let flat = trivial_operands(ts, false);
            let red = reduce_all_x(&flat, f, k);
            let terms = combine_x(flatten_x(&red, false), false);
            match split_div_x(&terms) {
                Some((nums, dens)) => {
                    let pn = MExpr::Prod(nums);
                    let pd = MExpr::Prod(dens);
                    let ghost (gn, gd) = (pn@, pd@);
                    let q = MExpr::Div(Box::new(pn), Box::new(pd));
                    assert(q@ == quotient(gn, gd));
                    reduce_x(&q, f, k)
                },
                None => make_prod(terms),
            }
        },
        MExpr::Div(n, d) => {
            let rn = reduce_x(n, f, k);
            let rd = reduce_x(d, f, k);
            let ratio = if f {
                gcd_div_x(&rn, &rd, k).1
            } else {
                simple_gcd_div_x(&rn, &rd).1
            };
            match ratio {
                MExpr::Div(a, b) => {
                    let b_one = match &*b {
                        MExpr::ConstNum(x) => *x == 1,
                        _ => false,
                    };
                    assert(b_one == (b@ == one()));
                    if b_one {
                        *a
                    } else {
                        MExpr::Div(a, b)
                    }
                },
                other => other,
            }
        },
        MExpr::Exp(a, b) => MExpr::Exp(Box::new(reduce_x(a, f, k)), Box::new(reduce_x(b, f, k))),
        _ => e.clone(),
    }
}

fn gcd_div_x(a: &MExpr, b: &MExpr, fuel: u32) -> (r: (MExpr, MExpr))
    ensures
        (r.0@, r.1@) == gcd_div(a@, b@, fuel as nat),
    decreases fuel, 0int,
{
    if fuel == 0 {
        return (MExpr::ConstNum(1), MExpr::Div(Box::new(a.clone()), Box::new(b.clone())));
    }
    let k = fuel - 1;
    if let (MExpr::ConstNum(x), MExpr::ConstNum(y)) = (a, b) {
        return num_gcd_div_x(*x, *y);
    }
    if a.eq(b) {
        return (a.clone(), MExpr::ConstNum(1));
    }
    match (a, b) {
        (MExpr::Prod(fs), _) => prod_gcd_div_x(fs, b, true, k),
        (_, MExpr::Prod(fs)) => prod_gcd_div_x(fs, a, false, k),
        _ => {
            let q = MExpr::Div(Box::new(a.clone()), Box::new(b.clone()));
            (MExpr::ConstNum(1), reduce_x(&q, false, k))
        },
    }
}

fn prod_gcd_div_x(fs: &Vec<MExpr>, x: &MExpr, left: bool, fuel: u32) -> (r: (MExpr, MExpr))
    ensures
        (r.0@, r.1@) == prod_gcd_div(views(fs@), x@, left, fuel as nat),
    decreases fuel, 1int,
{
    let ghost vs = views(fs@);
    proof { lemma_views(fs@); }
    let mut gs: Vec<MExpr> = Vec::new();
    let mut rf: Vec<MExpr> = Vec::new();
    let mut rd: MExpr = x.clone();
    let n = fs.len();
    let mut i: usize = 0;
    proof {
        assert(vs.subrange(0, 0) =~= Seq::<Expr>::empty());
    }
    while i < n
        invariant
            n == fs@.len(),
            i <= n,
            vs == views(fs@),
            vs.len() == fs@.len(),
            forall|j: int| 0 <= j < fs@.len() ==> #[trigger] vs[j] == fs@[j]@,
            (views(gs@), views(rf@), rd@) == factor_walk(vs.subrange(0, i as int), x@, fuel as nat),
        decreases n - i,
    {
        let factor = &fs[i];
        let (g, _) = gcd_div_x(factor, x, fuel);
        let (_, ratio) = gcd_div_x(factor, &rd, fuel);
        proof {
            let next = vs.subrange(0, i as int + 1);
            assert(next.subrange(0, i as int) =~= vs.subrange(0, i as int));
        }
        let ghost rf0 = rf@;
        let ghost gs0 = gs@;
        match ratio {
            MExpr::Div(a, b) => {
                proof { lemma_views_push(rf0, *a); }
                rf.push(*a);
                rd = *b;
            },
            other => {
                proof { lemma_views_push(rf0, other); }
                rf.push(other);
                rd = MExpr::ConstNum(1);
            },
        }
        let g_one = match &g {
            MExpr::ConstNum(v) => *v == 1,
            _ => false,
        };
        if !g_one {
            match g {
                MExpr::Prod(mut xs) => {
                    proof { lemma_views_concat(gs0, xs@); }
                    gs.append(&mut xs);
                },
                other => {
                    proof { lemma_views_push(gs0, other); }
                    gs.push(other);
                },
            }
        }
        i = i + 1;
    }
    proof {
        assert(vs.subrange(0, n as int) =~= vs);
        lemma_views(gs@);
    }
    let prod_rf = MExpr::Prod(rf);
    let (num, den) = if left {
        (reduce_x(&prod_rf, false, fuel), reduce_x(&rd, false, fuel))
    } else {
        (reduce_x(&rd, false, fuel), reduce_x(&prod_rf, false, fuel))
    };
    let q = MExpr::Div(Box::new(num), Box::new(den));
    let ratio = reduce_x(&q, false, fuel);
    if gs.len() == 1 {
        (gs[0].clone(), ratio)
    } else {
        let pg = MExpr::Prod(gs);
        (reduce_x(&pg, false, fuel), ratio)
    }
}


/// How many nested steps a full normalisation may take before it leaves the rest of an
/// expression as it is.
pub const REDUCE_DEPTH: u32 = 128;

impl MExpr {
    /// Full normalisation (see `reduce_f`); `should_factor` asks for common divisors of
    /// sums to be factored out.
    pub fn reduce(self, should_factor: bool) -> (r: MExpr)
        ensures
            r@ == reduce_f(self@, should_factor, REDUCE_DEPTH as nat),
    {
        reduce_x(&self, should_factor, REDUCE_DEPTH)
    }

    /// The structural common divisor of two expressions and their ratio (see `gcd_div`).
    pub fn gcd_div(&self, other: &MExpr) -> (r: (MExpr, MExpr))
        ensures
            (r.0@, r.1@) == gcd_div(self@, other@, REDUCE_DEPTH as nat),
    {
        gcd_div_x(self, other, REDUCE_DEPTH)
    }
}

} // verus!

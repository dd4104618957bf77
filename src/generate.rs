use vstd::prelude::*;
use crate::expr::{MExpr, Expr, views, lemma_views};
use crate::pattern::{MPattern, Pat, pviews, lemma_pviews, lemma_pviews_push, ptrivial};
use crate::reduce::{reduce_f, reduce_x, REDUCE_DEPTH};
use crate::equation::{MEquation, EPattern};
use crate::action::{Action, PatternAction};
use crate::matching::slots;

verus! {

/// The patterns `ps` with the slot `id` used up: `None` where `id` is the largest `u32`, so
/// that no id after it is left.
pub open spec fn used(ps: Seq<Pat>, id: u32) -> Option<(Seq<Pat>, u32)> {
    if id < u32::MAX {
        Some((ps, (id + 1) as u32))
    } else {
        None
    }
}

/// A fresh slot for the whole expression: a constant slot when it is constant.
pub open spec fn slot_for(e: Expr, id: u32) -> Pat {
    if e.constant() {
        Pat::Const(id)
    } else {
        Pat::Var(id)
    }
}

/// Each pattern of `fs` joined with each of `rs` (outer loop over `fs`) into a sum (`sum`)
/// or product, in light normal form.
pub open spec fn cross(fs: Seq<Pat>, rs: Seq<Pat>, sum: bool) -> Seq<Pat>
    decreases fs.len(),
{
    if fs.len() == 0 {
        Seq::empty()
    } else {
        cross(fs.subrange(0, fs.len() - 1), rs, sum) + row(fs[fs.len() - 1], rs, sum)
    }
}

/// Two patterns joined into a sum (`sum`) or a product, in light normal form.
pub open spec fn join(f: Pat, r: Pat, sum: bool) -> Pat {
    if sum {
        ptrivial(Pat::Sum(seq![f, r]))
    } else {
        ptrivial(Pat::Prod(seq![f, r]))
    }
}

/// `f` joined with each pattern of `rs`.
pub open spec fn row(f: Pat, rs: Seq<Pat>, sum: bool) -> Seq<Pat>
    decreases rs.len(),
{
    if rs.len() == 0 {
        Seq::empty()
    } else {
        row(f, rs.subrange(0, rs.len() - 1), sum).push(join(f, rs[rs.len() - 1], sum))
    }
}

/// Each quotient of a numerator pattern by a denominator pattern (outer loop over the
/// numerators).
pub open spec fn cross_div(ns: Seq<Pat>, ds: Seq<Pat>) -> Seq<Pat>
    decreases ns.len(),
{
    if ns.len() == 0 {
        Seq::empty()
    } else {
        cross_div(ns.subrange(0, ns.len() - 1), ds) + row_div(ns[ns.len() - 1], ds)
    }
}

/// `n` over each pattern of `ds`.
pub open spec fn row_div(n: Pat, ds: Seq<Pat>) -> Seq<Pat>
    decreases ds.len(),
{
    if ds.len() == 0 {
        Seq::empty()
    } else {
        row_div(n, ds.subrange(0, ds.len() - 1)).push(Pat::Div(Box::new(n), Box::new(ds[ds.len() - 1])))
    }
}

/// The generalisations of an expression, most specific first, with fresh slot ids from
/// `id` on, within `fuel` nested steps; and the next unused id. Each leaf becomes a slot;
/// a quotient, sum or product keeps its shape with each combination of generalisations of
/// its parts (a sum or product as its first operand and the normalised rest), and is also
/// generalised as a whole to one slot. Powers have no generalisation. `None` where the
/// ids would run past the largest `u32`.
pub open spec fn gen(e: Expr, id: u32, fuel: nat) -> Option<(Seq<Pat>, u32)>
    decreases fuel,
{
    if fuel == 0 {
        used(seq![slot_for(e, id)], id)
    } else {
        let k = (fuel - 1) as nat;
        match e {
            Expr::ConstVar(_) => used(seq![Pat::Const(id)], id),
            Expr::ConstNum(_) => used(seq![Pat::Const(id)], id),
            Expr::Var(_) => used(seq![Pat::Var(id)], id),
            Expr::Exp(_, _) => Some((Seq::empty(), id)),
            Expr::Div(n, d) => match gen(*n, id, k) {
                None => None,
                Some((np, i1)) => match gen(*d, i1, k) {
                    None => None,
                    Some((dp, i2)) => used(cross_div(np, dp).push(slot_for(e, i2)), i2),
                },
            },
            Expr::Sum(ts) => if ts.len() == 0 {
                used(seq![slot_for(e, id)], id)
            } else {
                match gen(ts[0], id, k) {
                    None => None,
                    Some((fp, i1)) => match gen(
                        reduce_f(Expr::Sum(ts.subrange(1, ts.len() as int)), false, REDUCE_DEPTH as nat),
                        i1,
                        k,
                    ) {
                        None => None,
                        Some((rp, i2)) => used(cross(fp, rp, true).push(slot_for(e, i2)), i2),
                    },
                }
            },
            Expr::Prod(ts) => if ts.len() == 0 {
                used(seq![slot_for(e, id)], id)
            } else {
                match gen(ts[0], id, k) {
                    None => None,
                    Some((fp, i1)) => match gen(
                        reduce_f(Expr::Prod(ts.subrange(1, ts.len() as int)), false, REDUCE_DEPTH as nat),
                        i1,
                        k,
                    ) {
                        None => None,
                        Some((rp, i2)) => used(cross(fp, rp, false).push(slot_for(e, i2)), i2),
                    },
                }
            },
        }
    }
}

/// The executable form of a generation result.
pub open spec fn gen_result(r: Option<(Vec<MPattern>, u32)>) -> Option<(Seq<Pat>, u32)> {
    match r {
        Some((v, n)) => Some((pviews(v@), n)),
        None => None,
    }
}

/// How many nested steps the generation of patterns may take before it generalises the
/// rest of an expression to one slot.
pub const GENERATE_DEPTH: u32 = 64;

fn slot_x(e: &MExpr, id: u32) -> (r: MPattern)
    ensures
        r@ == slot_for(e@, id),
{
    if e.is_const() {
        MPattern::Const(id)
    } else {
        MPattern::Var(id)
    }
}

fn one_pattern(p: MPattern) -> (r: Vec<MPattern>)
    ensures
        pviews(r@) == seq![p@],
{
    let ghost gp = p;
    let v = vec![p];
    proof {
        lemma_pviews(v@);
        assert(pviews(v@) =~= seq![gp@]);
    }
    v
}

fn pair_p(a: MPattern, b: MPattern) -> (r: Vec<MPattern>)
    ensures
        pviews(r@) == seq![a@, b@],
{
    let ghost (ga, gb) = (a, b);
    let v = vec![a, b];
    proof {
        lemma_pviews(v@);
        assert(pviews(v@) =~= seq![ga@, gb@]);
    }
    v
}

fn cross_x(fs: &Vec<MPattern>, rs: &Vec<MPattern>, sum: bool) -> (r: Vec<MPattern>)
    ensures
        pviews(r@) == cross(pviews(fs@), pviews(rs@), sum),
{
    let ghost fv = pviews(fs@);
    let ghost rv = pviews(rs@);
    proof {
        lemma_pviews(fs@);
        lemma_pviews(rs@);
    }
    let mut out: Vec<MPattern> = Vec::new();
    let mut i: usize = 0;
    while i < fs.len()
        invariant
            i <= fs@.len(),
            fv == pviews(fs@),
            rv == pviews(rs@),
            fv.len() == fs@.len(),
            rv.len() == rs@.len(),
            forall|j: int| 0 <= j < fs@.len() ==> #[trigger] fv[j] == fs@[j]@,
            forall|j: int| 0 <= j < rs@.len() ==> #[trigger] rv[j] == rs@[j]@,
            pviews(out@) == cross(fv.subrange(0, i as int), rv, sum),
        decreases fs@.len() - i,
    {
        let ghost base = out@;
        let mut j: usize = 0;
        proof {
            assert(rv.subrange(0, 0) =~= Seq::<Pat>::empty());
            assert(pviews(out@) =~= cross(fv.subrange(0, i as int), rv, sum) + row(fv[i as int], rv.subrange(0, 0), sum));
        }
        while j < rs.len()
            invariant
                i < fs@.len(),
                j <= rs@.len(),
                fv == pviews(fs@),
                rv == pviews(rs@),
                fv.len() == fs@.len(),
                rv.len() == rs@.len(),
                forall|jj: int| 0 <= jj < fs@.len() ==> #[trigger] fv[jj] == fs@[jj]@,
                forall|jj: int| 0 <= jj < rs@.len() ==> #[trigger] rv[jj] == rs@[jj]@,
                pviews(out@) == cross(fv.subrange(0, i as int), rv, sum) + row(fv[i as int], rv.subrange(0, j as int), sum),
            decreases rs@.len() - j,
        {
            let parts = pair_p(fs[i].clone(), rs[j].clone());
            let joined = if sum {
                MPattern::Sum(parts).trivial_reduce()
            } else {
                MPattern::Prod(parts).trivial_reduce()
            };
            proof {
                let next = rv.subrange(0, j as int + 1);
                assert(next.subrange(0, j as int) =~= rv.subrange(0, j as int));
                lemma_pviews_push(out@, joined);
                assert(pviews(out@.push(joined)) =~= cross(fv.subrange(0, i as int), rv, sum) + row(fv[i as int], next, sum));
            }
            out.push(joined);
            j = j + 1;
        }
        proof {
            let next = fv.subrange(0, i as int + 1);
            assert(next.subrange(0, i as int) =~= fv.subrange(0, i as int));
            assert(rv.subrange(0, rs@.len() as int) =~= rv);
        }
        i = i + 1;
    }
    proof {
        assert(fv.subrange(0, fs@.len() as int) =~= fv);
    }
    out
}

fn cross_div_x(ns: &Vec<MPattern>, ds: &Vec<MPattern>) -> (r: Vec<MPattern>)
    ensures
        pviews(r@) == cross_div(pviews(ns@), pviews(ds@)),
{
    let ghost nv = pviews(ns@);
    let ghost dv = pviews(ds@);
    proof {
        lemma_pviews(ns@);
        lemma_pviews(ds@);
    }
    let mut out: Vec<MPattern> = Vec::new();
    let mut i: usize = 0;
    while i < ns.len()
        invariant
            i <= ns@.len(),
            nv == pviews(ns@),
            dv == pviews(ds@),
            nv.len() == ns@.len(),
            dv.len() == ds@.len(),
            forall|j: int| 0 <= j < ns@.len() ==> #[trigger] nv[j] == ns@[j]@,
            forall|j: int| 0 <= j < ds@.len() ==> #[trigger] dv[j] == ds@[j]@,
            pviews(out@) == cross_div(nv.subrange(0, i as int), dv),
        decreases ns@.len() - i,
    {
        let mut j: usize = 0;
        proof {
            assert(dv.subrange(0, 0) =~= Seq::<Pat>::empty());
            assert(pviews(out@) =~= cross_div(nv.subrange(0, i as int), dv) + row_div(nv[i as int], dv.subrange(0, 0)));
        }
        while j < ds.len()
            invariant
                i < ns@.len(),
                j <= ds@.len(),
                nv == pviews(ns@),
                dv == pviews(ds@),
                nv.len() == ns@.len(),
                dv.len() == ds@.len(),
                forall|jj: int| 0 <= jj < ns@.len() ==> #[trigger] nv[jj] == ns@[jj]@,
                forall|jj: int| 0 <= jj < ds@.len() ==> #[trigger] dv[jj] == ds@[jj]@,
                pviews(out@) == cross_div(nv.subrange(0, i as int), dv) + row_div(nv[i as int], dv.subrange(0, j as int)),
            decreases ds@.len() - j,
        {
            let q = MPattern::Div(Box::new(ns[i].clone()), Box::new(ds[j].clone()));
            proof {
                let next = dv.subrange(0, j as int + 1);
                assert(next.subrange(0, j as int) =~= dv.subrange(0, j as int));
                lemma_pviews_push(out@, q);
                assert(pviews(out@.push(q)) =~= cross_div(nv.subrange(0, i as int), dv) + row_div(nv[i as int], next));
            }
            out.push(q);
            j = j + 1;
        }
        proof {
            let next = nv.subrange(0, i as int + 1);
            assert(next.subrange(0, i as int) =~= nv.subrange(0, i as int));
            assert(dv.subrange(0, ds@.len() as int) =~= dv);
        }
        i = i + 1;
    }
    proof {
        assert(nv.subrange(0, ns@.len() as int) =~= nv);
    }
    out
}

fn single_x(p: MPattern, id: u32) -> (r: Option<(Vec<MPattern>, u32)>)
    ensures
        gen_result(r) == used(seq![p@], id),
        r is Some ==> (r->0).1 > id,
{
    if id < u32::MAX {
        Some((one_pattern(p), id + 1))
    } else {
        None
    }
}

fn gen_x(e: &MExpr, id: u32, fuel: u32) -> (r: Option<(Vec<MPattern>, u32)>)
    ensures
        gen_result(r) == gen(e@, id, fuel as nat),
        r is Some ==> (r->0).1 >= id,
    decreases fuel,
{
    if fuel == 0 {
        return single_x(slot_x(e, id), id);
    }
    let k = fuel - 1;
    match e {
        MExpr::ConstVar(_) | MExpr::ConstNum(_) => single_x(MPattern::Const(id), id),
        MExpr::Var(_) => single_x(MPattern::Var(id), id),
        MExpr::Exp(_, _) => {
            let v: Vec<MPattern> = Vec::new();
            proof { assert(pviews(v@) =~= Seq::<Pat>::empty()); }
            Some((v, id))
        },
        MExpr::Div(n, d) => {
            let (np, i1) = match gen_x(n, id, k) {
                Some(x) => x,
                None => {
                    return None;
                },
            };
            let (dp, i2) = match gen_x(d, i1, k) {
                Some(x) => x,
                None => {
                    return None;
                },
            };
            if i2 == u32::MAX {
                return None;
            }
            let mut res = cross_div_x(&np, &dp);
            let s = slot_x(e, i2);
            proof { lemma_pviews_push(res@, s); }
            res.push(s);
            Some((res, i2 + 1))
        },
        MExpr::Sum(ts) | MExpr::Prod(ts) => {
            let sum = match e {
                MExpr::Sum(_) => true,
                _ => false,
            };
            proof { lemma_views(ts@); }
            if ts.len() == 0 {
                return single_x(slot_x(e, id), id);
            }
            let (fp, i1) = match gen_x(&ts[0], id, k) {
                Some(x) => x,
                None => {
                    return None;
                },
            };
            let mut rest: Vec<MExpr> = Vec::new();
            let mut j: usize = 1;
            while j < ts.len()
                invariant
                    1 <= j <= ts@.len(),
                    rest@.len() == j - 1,
                    forall|jj: int| 0 <= jj < j - 1 ==> #[trigger] rest@[jj]@ == ts@[jj + 1]@,
                decreases ts@.len() - j,
            {
                rest.push(ts[j].clone());
                j = j + 1;
            }
            proof {
                lemma_views(rest@);
                assert(views(rest@) =~= views(ts@).subrange(1, ts@.len() as int));
            }
            let rest_e = if sum {
                MExpr::Sum(rest)
            } else {
                MExpr::Prod(rest)
            };
            let rest_r = reduce_x(&rest_e, false, REDUCE_DEPTH);
            let (rp, i2) = match gen_x(&rest_r, i1, k) {
                Some(x) => x,
                None => {
                    return None;
                },
            };
            if i2 == u32::MAX {
                return None;
            }
            let mut res = cross_x(&fp, &rp, sum);
            let s = slot_x(e, i2);
            proof { lemma_pviews_push(res@, s); }
            res.push(s);
            Some((res, i2 + 1))
        },
    }
}

impl MExpr {
    /// The generalisations of the expression (see `gen`), with slot ids from `var_idx` on,
    /// and the next unused id; `None` where the ids would run past the largest `u32`.
    pub fn generate_patterns_with_idx(&self, var_idx: u32) -> (r: Option<(Vec<MPattern>, u32)>)
        ensures
            gen_result(r) == gen(self@, var_idx, GENERATE_DEPTH as nat),
            r is Some ==> (r->0).1 >= var_idx,
    {
        gen_x(self, var_idx, GENERATE_DEPTH)
    }
}

/// Each left pattern with each right pattern (outer loop over the left ones).
pub open spec fn cross_eq(ls: Seq<Pat>, rs: Seq<Pat>) -> Seq<(Pat, Pat)>
    decreases ls.len(),
{
    if ls.len() == 0 {
        Seq::empty()
    } else {
        cross_eq(ls.subrange(0, ls.len() - 1), rs) + rs.map_values(|r: Pat| (ls[ls.len() - 1], r))
    }
}

/// The generalisations of an equation: those of the left side (slot ids from zero on)
/// crossed with those of the right side (slot ids after the left side's); `None` where the
/// ids would run past the largest `u32`.
pub open spec fn eq_patterns(e: (Expr, Expr)) -> Option<Seq<(Pat, Pat)>> {
    match gen(e.0, 0, GENERATE_DEPTH as nat) {
        None => None,
        Some((lp, i)) => match gen(e.1, i, GENERATE_DEPTH as nat) {
            None => None,
            Some((rp, _)) => Some(cross_eq(lp, rp)),
        },
    }
}

/// The four actions on each of the slots, variable slots first.
pub open spec fn slot_actions(p: (Pat, Pat)) -> Seq<Action> {
    let vars = slots(p.0, false) + slots(p.1, false);
    let consts = slots(p.0, true) + slots(p.1, true);
    four_each(vars, false) + four_each(consts, true)
}

/// Add, subtract, multiply and divide on each slot id, in that order.
pub open spec fn four_each(ids: Seq<u32>, constant: bool) -> Seq<Action>
    decreases ids.len(),
{
    if ids.len() == 0 {
        Seq::empty()
    } else {
        let n = ids[ids.len() - 1];
        four_each(ids.subrange(0, ids.len() - 1), constant) + if constant {
            seq![Action::AddC(n), Action::SubC(n), Action::MulC(n), Action::DivC(n)]
        } else {
            seq![Action::AddV(n), Action::SubV(n), Action::MulV(n), Action::DivV(n)]
        }
    }
}

/// Every generalisation of the equation with each action on one of its slots.
pub open spec fn patacts(ps: Seq<(Pat, Pat)>) -> Seq<((Pat, Pat), Action)>
    decreases ps.len(),
{
    if ps.len() == 0 {
        Seq::empty()
    } else {
        let p = ps[ps.len() - 1];
        patacts(ps.subrange(0, ps.len() - 1)) + slot_actions(p).map_values(|a: Action| (p, a))
    }
}

/// The values of a sequence of equation patterns.
pub open spec fn epviews(s: Seq<EPattern>) -> Seq<(Pat, Pat)> {
    s.map_values(|p: EPattern| p@)
}

/// The values of a sequence of pattern actions.
pub open spec fn paviews(s: Seq<PatternAction>) -> Seq<((Pat, Pat), Action)> {
    s.map_values(|p: PatternAction| (p.pattern@, p.action))
}

fn push_four(out: &mut Vec<PatternAction>, pat: &EPattern, n: u32, constant: bool)
    ensures
        paviews(final(out)@) == paviews(old(out)@) + (if constant {
            seq![Action::AddC(n), Action::SubC(n), Action::MulC(n), Action::DivC(n)]
        } else {
            seq![Action::AddV(n), Action::SubV(n), Action::MulV(n), Action::DivV(n)]
        }).map_values(|a: Action| (pat@, a)),
{
    let acts = if constant {
        [Action::AddC(n), Action::SubC(n), Action::MulC(n), Action::DivC(n)]
    } else {
        [Action::AddV(n), Action::SubV(n), Action::MulV(n), Action::DivV(n)]
    };
    let ghost start = out@;
    let mut i: usize = 0;
    while i < 4
        invariant
            i <= 4,
            out@.len() == start.len() + i,
            forall|j: int| 0 <= j < start.len() ==> #[trigger] out@[j] == start[j],
            forall|j: int| 0 <= j < i ==> (#[trigger] out@[start.len() + j]).pattern@ == pat@
                && out@[start.len() + j].action == acts@[j],
        decreases 4 - i,
    {
        out.push(PatternAction { pattern: pat.clone(), action: acts[i] });
        i = i + 1;
    }
    proof {
        let expected = (if constant {
            seq![Action::AddC(n), Action::SubC(n), Action::MulC(n), Action::DivC(n)]
        } else {
            seq![Action::AddV(n), Action::SubV(n), Action::MulV(n), Action::DivV(n)]
        });
        assert(acts@ =~= expected);
        let rhs = paviews(start) + expected.map_values(|a: Action| (pat@, a));
        assert(paviews(out@).len() == rhs.len());
        assert forall|j: int| 0 <= j < rhs.len() implies paviews(out@)[j] == rhs[j] by {
            if j >= start.len() {
                let jj = j - start.len();
                assert(out@[start.len() + jj].action == acts@[jj]);
            } else {
                assert(out@[j] == start[j]);
            }
        }
        assert(paviews(out@) =~= rhs);
    }
}

fn push_all_four(out: &mut Vec<PatternAction>, pat: &EPattern, ids: &Vec<u32>, constant: bool)
    ensures
        paviews(final(out)@) == paviews(old(out)@) + four_each(ids@, constant).map_values(|a: Action| (pat@, a)),
{
    let ghost start = paviews(out@);
    let mut i: usize = 0;
    proof {
        assert(ids@.subrange(0, 0) =~= Seq::<u32>::empty());
        assert(paviews(out@) =~= start + four_each(ids@.subrange(0, 0), constant).map_values(|a: Action| (pat@, a)));
    }
    while i < ids.len()
        invariant
            i <= ids@.len(),
            paviews(out@) == start + four_each(ids@.subrange(0, i as int), constant).map_values(|a: Action| (pat@, a)),
        decreases ids@.len() - i,
    {
        let ghost before = paviews(out@);
        push_four(out, pat, ids[i], constant);
        proof {
            let next = ids@.subrange(0, i as int + 1);
            assert(next.subrange(0, i as int) =~= ids@.subrange(0, i as int));
            let f = |a: Action| (pat@, a);
            let last = if constant {
                seq![Action::AddC(ids@[i as int]), Action::SubC(ids@[i as int]), Action::MulC(ids@[i as int]), Action::DivC(ids@[i as int])]
            } else {
                seq![Action::AddV(ids@[i as int]), Action::SubV(ids@[i as int]), Action::MulV(ids@[i as int]), Action::DivV(ids@[i as int])]
            };
            assert(four_each(next, constant) == four_each(ids@.subrange(0, i as int), constant) + last);
            assert((four_each(ids@.subrange(0, i as int), constant) + last).map_values(f) =~= four_each(ids@.subrange(0, i as int), constant).map_values(f) + last.map_values(f));
        }
        i = i + 1;
    }
    proof {
        assert(ids@.subrange(0, ids@.len() as int) =~= ids@);
    }
}

impl MEquation {
    /// The generalisations of the equation (see `eq_patterns`).
    pub fn generate_patterns(self) -> (r: Option<Vec<EPattern>>)
        ensures
            match r {
                Some(v) => eq_patterns(self@) == Some(epviews(v@)),
                None => eq_patterns(self@) is None,
            },
    {
        match self {
            MEquation::Equal(lhs, rhs) => {
                let (lp, i) = match lhs.generate_patterns_with_idx(0) {
                    Some(x) => x,
                    None => {
                        return None;
                    },
                };
                let (rp, _) = match rhs.generate_patterns_with_idx(i) {
                    Some(x) => x,
                    None => {
                        return None;
                    },
                };
                let ghost lv = pviews(lp@);
                let ghost rv = pviews(rp@);
                proof {
                    lemma_pviews(lp@);
                    lemma_pviews(rp@);
                }
                let mut out: Vec<EPattern> = Vec::new();
                let mut a: usize = 0;
                while a < lp.len()
                    invariant
                        a <= lp@.len(),
                        lv == pviews(lp@),
                        rv == pviews(rp@),
                        lv.len() == lp@.len(),
                        rv.len() == rp@.len(),
                        forall|j: int| 0 <= j < lp@.len() ==> #[trigger] lv[j] == lp@[j]@,
                        forall|j: int| 0 <= j < rp@.len() ==> #[trigger] rv[j] == rp@[j]@,
                        epviews(out@) == cross_eq(lv.subrange(0, a as int), rv),
                    decreases lp@.len() - a,
                {
                    let ghost start = epviews(out@);
                    let mut b: usize = 0;
                    while b < rp.len()
                        invariant
                            a < lp@.len(),
                            b <= rp@.len(),
                            lv == pviews(lp@),
                            rv == pviews(rp@),
                            lv.len() == lp@.len(),
                            rv.len() == rp@.len(),
                            forall|j: int| 0 <= j < lp@.len() ==> #[trigger] lv[j] == lp@[j]@,
                            forall|j: int| 0 <= j < rp@.len() ==> #[trigger] rv[j] == rp@[j]@,
                            epviews(out@) == start + rv.subrange(0, b as int).map_values(|r: Pat| (lv[a as int], r)),
                        decreases rp@.len() - b,
                    {
                        let ep = EPattern::PEq(lp[a].clone(), rp[b].clone());
                        proof {
                            assert(epviews(out@.push(ep)) =~= epviews(out@).push(ep@));
                            assert(rv.subrange(0, b as int + 1).map_values(|r: Pat| (lv[a as int], r))
                                =~= rv.subrange(0, b as int).map_values(|r: Pat| (lv[a as int], r)).push((lv[a as int], rv[b as int])));
                        }
                        out.push(ep);
                        b = b + 1;
                    }
                    proof {
                        let next = lv.subrange(0, a as int + 1);
                        assert(next.subrange(0, a as int) =~= lv.subrange(0, a as int));
                        assert(rv.subrange(0, rp@.len() as int) =~= rv);
                    }
                    a = a + 1;
                }
                proof {
                    assert(lv.subrange(0, lp@.len() as int) =~= lv);
                }
                Some(out)
            },
        }
    }

    /// Every generalisation of the equation with each of the four actions on each of its
    /// slots, variable slots first: the candidate moves of a solver.
    pub fn generate_patacts(self) -> (r: Option<Vec<PatternAction>>)
        ensures
            match r {
                Some(v) => eq_patterns(self@) is Some && paviews(v@) == patacts(eq_patterns(self@)->0),
                None => eq_patterns(self@) is None,
            },
    {
        let pats = match self.generate_patterns() {
            Some(p) => p,
            None => {
                return None;
            },
        };
        let ghost pv = epviews(pats@);
        let mut out: Vec<PatternAction> = Vec::new();
        let mut i: usize = 0;
        proof {
            assert(pv.subrange(0, 0) =~= Seq::<(Pat, Pat)>::empty());
            assert(paviews(out@) =~= Seq::<((Pat, Pat), Action)>::empty());
        }
        while i < pats.len()
            invariant
                i <= pats@.len(),
                pv == epviews(pats@),
                pv.len() == pats@.len(),
                paviews(out@) == patacts(pv.subrange(0, i as int)),
            decreases pats@.len() - i,
        {
            let pat = &pats[i];
            let (consts, vars) = pat.clone().get_free();
            let ghost before = paviews(out@);
            push_all_four(&mut out, pat, &vars, false);
            push_all_four(&mut out, pat, &consts, true);
            proof {
                let next = pv.subrange(0, i as int + 1);
                assert(next.subrange(0, i as int) =~= pv.subrange(0, i as int));
                let f = |a: Action| (pat@, a);
                let va = four_each(vars@, false);
                let ca = four_each(consts@, true);
                assert(slot_actions(pat@) == va + ca);
                assert((va + ca).map_values(f) =~= va.map_values(f) + ca.map_values(f));
                assert(pv[i as int] == pat@);
                assert(paviews(out@) =~= patacts(next));
            }
            i = i + 1;
        }
        proof {
            assert(pv.subrange(0, pats@.len() as int) =~= pv);
        }
        Some(out)
    }
}

} // verus!

use vstd::prelude::*;
use crate::expr::Expr;
use crate::pattern::{Pat, ptrivial, ptrivial_all, pflatten_sum, pflatten_prod, psum_of, pprod_of};
use crate::matching::{slots, slots_all, lemma_concat_contains};
use crate::generate::{gen, used, cross, row, join, cross_div, row_div, slot_for, GENERATE_DEPTH};

verus! {

/// Every slot id of the pattern, of either kind, lies in `lo..hi`.
pub open spec fn ids_within(p: Pat, lo: int, hi: int) -> bool {
    forall|k: u32, c: bool| #[trigger] slots(p, c).contains(k) ==> lo <= k < hi
}

/// Every slot id of each pattern lies in `lo..hi`.
pub open spec fn all_within(ps: Seq<Pat>, lo: int, hi: int) -> bool {
    forall|j: int| 0 <= j < ps.len() ==> ids_within(#[trigger] ps[j], lo, hi)
}

/// No slot id occurs twice in the pattern, whatever the kinds.
pub open spec fn distinct_ids(p: Pat) -> bool {
    forall|c1: bool, c2: bool, i: int, j: int|
        0 <= i < slots(p, c1).len() && 0 <= j < slots(p, c2).len() && (c1 != c2 || i != j)
            ==> #[trigger] slots(p, c1)[i] != #[trigger] slots(p, c2)[j]
}

/// No slot id occurs twice in any one of the patterns.
pub open spec fn all_distinct(ps: Seq<Pat>) -> bool {
    forall|j: int| 0 <= j < ps.len() ==> distinct_ids(#[trigger] ps[j])
}

/// A pattern whose slots are those of `a` followed by those of `b`, ids of `a` below those of
/// `b`, repeats no id where neither part does.
proof fn lemma_distinct_split(q: Pat, a: Pat, b: Pat, lo: int, mid: int, hi: int)
    requires
        forall|c: bool| #[trigger] slots(q, c) == slots(a, c) + slots(b, c),
        distinct_ids(a),
        distinct_ids(b),
        ids_within(a, lo, mid),
        ids_within(b, mid, hi),
        lo <= mid <= hi,
    ensures
        distinct_ids(q),
        ids_within(q, lo, hi),
{
    assert forall|c1: bool, c2: bool, i: int, j: int|
        0 <= i < slots(q, c1).len() && 0 <= j < slots(q, c2).len() && (c1 != c2 || i != j)
            implies #[trigger] slots(q, c1)[i] != #[trigger] slots(q, c2)[j] by {
        let la = slots(a, c1).len() as int;
        let lb = slots(a, c2).len() as int;
        assert(slots(q, c1) == slots(a, c1) + slots(b, c1));
        assert(slots(q, c2) == slots(a, c2) + slots(b, c2));
        if i < la && j < lb {
            assert(slots(q, c1)[i] == slots(a, c1)[i]);
            assert(slots(q, c2)[j] == slots(a, c2)[j]);
        } else if i >= la && j >= lb {
            assert(slots(q, c1)[i] == slots(b, c1)[i - la]);
            assert(slots(q, c2)[j] == slots(b, c2)[j - lb]);
        } else if i < la {
            assert(slots(a, c1).contains(slots(a, c1)[i]));
            assert(slots(b, c2).contains(slots(b, c2)[j - lb]));
            assert(slots(q, c2)[j] == slots(b, c2)[j - lb]);
        } else {
            assert(slots(b, c1).contains(slots(b, c1)[i - la]));
            assert(slots(a, c2).contains(slots(a, c2)[j]));
            assert(slots(q, c1)[i] == slots(b, c1)[i - la]);
        }
    }
    assert forall|k: u32, c: bool| #[trigger] slots(q, c).contains(k) implies lo <= k < hi by {
        assert(slots(q, c) == slots(a, c) + slots(b, c));
        lemma_concat_contains(slots(a, c), slots(b, c), k);
    }
}

proof fn lemma_slots_all_concat(a: Seq<Pat>, b: Seq<Pat>, c: bool)
    ensures
        slots_all(a + b, c) == slots_all(a, c) + slots_all(b, c),
    decreases b.len(),
{
    if b.len() == 0 {
        assert(a + b =~= a);
        assert(slots_all(a, c) + Seq::<u32>::empty() =~= slots_all(a, c));
    } else {
        let bp = b.subrange(0, b.len() - 1);
        lemma_slots_all_concat(a, bp, c);
        assert((a + b).subrange(0, (a + b).len() - 1) =~= a + bp);
        assert((a + b)[(a + b).len() - 1] == b[b.len() - 1]);
        assert(slots_all(a + b, c) =~= slots_all(a, c) + slots_all(b, c));
    }
}

proof fn lemma_slots_all_push(a: Seq<Pat>, t: Pat, c: bool)
    ensures
        slots_all(a.push(t), c) == slots_all(a, c) + slots(t, c),
{
    assert(a.push(t).subrange(0, a.len() as int) =~= a);
}

proof fn lemma_slots_single(t: Pat, c: bool)
    ensures
        slots_all(seq![t], c) == slots(t, c),
{
    lemma_slots_all_push(Seq::empty(), t, c);
    assert(seq![t] =~= Seq::<Pat>::empty().push(t));
    assert(Seq::<u32>::empty() + slots(t, c) =~= slots(t, c));
}

proof fn lemma_slots_flatten(s: Seq<Pat>, sum: bool, c: bool)
    ensures
        slots_all(if sum { pflatten_sum(s) } else { pflatten_prod(s) }, c) == slots_all(s, c),
    decreases s.len(),
{
    if s.len() > 0 {
        let p = s.subrange(0, s.len() - 1);
        let t = s[s.len() - 1];
        lemma_slots_flatten(p, sum, c);
        assert(p.push(t) =~= s);
        lemma_slots_all_push(p, t, c);
        let fp = if sum { pflatten_sum(p) } else { pflatten_prod(p) };
        match t {
            Pat::Sum(us) => {
                if sum {
                    lemma_slots_all_concat(fp, us, c);
                } else {
                    lemma_slots_all_push(fp, t, c);
                }
            },
            Pat::Prod(us) => {
                if !sum {
                    lemma_slots_all_concat(fp, us, c);
                } else {
                    lemma_slots_all_push(fp, t, c);
                }
            },
            _ => lemma_slots_all_push(fp, t, c),
        }
    }
}

/// Light normalisation keeps the slots of a pattern, in order.
pub proof fn lemma_slots_ptrivial(p: Pat, c: bool)
    ensures
        slots(ptrivial(p), c) == slots(p, c),
    decreases p,
{
    match p {
        Pat::Sum(ts) => {
            lemma_slots_ptrivial_all(ts, c);
            lemma_slots_flatten(ptrivial_all(ts), true, c);
            let f = pflatten_sum(ptrivial_all(ts));
            if f.len() == 1 {
                assert(f =~= seq![f[0]]);
                lemma_slots_single(f[0], c);
            }
        },
        Pat::Prod(ts) => {
            lemma_slots_ptrivial_all(ts, c);
            lemma_slots_flatten(ptrivial_all(ts), false, c);
            let f = pflatten_prod(ptrivial_all(ts));
            if f.len() == 1 {
                assert(f =~= seq![f[0]]);
                lemma_slots_single(f[0], c);
            }
        },
        Pat::Div(a, b) => {
            lemma_slots_ptrivial(*a, c);
            lemma_slots_ptrivial(*b, c);
        },
        _ => {},
    }
}

proof fn lemma_slots_ptrivial_all(s: Seq<Pat>, c: bool)
    ensures
        slots_all(ptrivial_all(s), c) == slots_all(s, c),
    decreases s,
{
    if s.len() > 0 {
        let p = s.subrange(0, s.len() - 1);
        lemma_slots_ptrivial_all(p, c);
        lemma_slots_ptrivial(s[s.len() - 1], c);
        lemma_slots_all_push(ptrivial_all(p), ptrivial(s[s.len() - 1]), c);
    }
}

proof fn lemma_join_within(f: Pat, r: Pat, sum: bool, lo: int, mid: int, hi: int)
    requires
        ids_within(f, lo, mid),
        ids_within(r, mid, hi),
        distinct_ids(f),
        distinct_ids(r),
        lo <= mid <= hi,
    ensures
        ids_within(join(f, r, sum), lo, hi),
        distinct_ids(join(f, r, sum)),
{
    let g = if sum { Pat::Sum(seq![f, r]) } else { Pat::Prod(seq![f, r]) };
    assert forall|c: bool| #[trigger] slots(join(f, r, sum), c) == slots(f, c) + slots(r, c) by {
        lemma_slots_ptrivial(g, c);
        lemma_slots_all_push(seq![f], r, c);
        assert(seq![f].push(r) =~= seq![f, r]);
        lemma_slots_single(f, c);
    }
    lemma_distinct_split(join(f, r, sum), f, r, lo, mid, hi);
}

proof fn lemma_cross_within(fs: Seq<Pat>, rs: Seq<Pat>, sum: bool, lo: int, mid: int, hi: int)
    requires
        all_within(fs, lo, mid),
        all_within(rs, mid, hi),
        all_distinct(fs),
        all_distinct(rs),
        lo <= mid <= hi,
    ensures
        all_within(cross(fs, rs, sum), lo, hi),
        all_distinct(cross(fs, rs, sum)),
    decreases fs.len(),
{
    if fs.len() > 0 {
        let p = fs.subrange(0, fs.len() - 1);
        assert(forall|j: int| 0 <= j < p.len() ==> p[j] == fs[j]);
        lemma_cross_within(p, rs, sum, lo, mid, hi);
        lemma_row_within(fs[fs.len() - 1], rs, sum, lo, mid, hi);
        lemma_all_within_concat(cross(p, rs, sum), row(fs[fs.len() - 1], rs, sum), lo, hi);
    }
}

proof fn lemma_row_within(f: Pat, rs: Seq<Pat>, sum: bool, lo: int, mid: int, hi: int)
    requires
        ids_within(f, lo, mid),
        all_within(rs, mid, hi),
        distinct_ids(f),
        all_distinct(rs),
        lo <= mid <= hi,
    ensures
        all_within(row(f, rs, sum), lo, hi),
        all_distinct(row(f, rs, sum)),
    decreases rs.len(),
{
    if rs.len() > 0 {
        let p = rs.subrange(0, rs.len() - 1);
        assert(forall|j: int| 0 <= j < p.len() ==> p[j] == rs[j]);
        lemma_row_within(f, p, sum, lo, mid, hi);
        lemma_join_within(f, rs[rs.len() - 1], sum, lo, mid, hi);
    }
}

proof fn lemma_cross_div_within(ns: Seq<Pat>, ds: Seq<Pat>, lo: int, mid: int, hi: int)
    requires
        all_within(ns, lo, mid),
        all_within(ds, mid, hi),
        all_distinct(ns),
        all_distinct(ds),
        lo <= mid <= hi,
    ensures
        all_within(cross_div(ns, ds), lo, hi),
        all_distinct(cross_div(ns, ds)),
    decreases ns.len(),
{
    if ns.len() > 0 {
        let p = ns.subrange(0, ns.len() - 1);
        assert(forall|j: int| 0 <= j < p.len() ==> p[j] == ns[j]);
        lemma_cross_div_within(p, ds, lo, mid, hi);
        lemma_row_div_within(ns[ns.len() - 1], ds, lo, mid, hi);
        lemma_all_within_concat(cross_div(p, ds), row_div(ns[ns.len() - 1], ds), lo, hi);
    }
}

proof fn lemma_row_div_within(n: Pat, ds: Seq<Pat>, lo: int, mid: int, hi: int)
    requires
        ids_within(n, lo, mid),
        all_within(ds, mid, hi),
        distinct_ids(n),
        all_distinct(ds),
        lo <= mid <= hi,
    ensures
        all_within(row_div(n, ds), lo, hi),
        all_distinct(row_div(n, ds)),
    decreases ds.len(),
{
    if ds.len() > 0 {
        let p = ds.subrange(0, ds.len() - 1);
        assert(forall|j: int| 0 <= j < p.len() ==> p[j] == ds[j]);
        lemma_row_div_within(n, p, lo, mid, hi);
        let d = ds[ds.len() - 1];
        let q = Pat::Div(Box::new(n), Box::new(d));
        assert(forall|c: bool| #[trigger] slots(q, c) == slots(n, c) + slots(d, c));
        lemma_distinct_split(q, n, d, lo, mid, hi);
    }
}

proof fn lemma_all_within_concat(a: Seq<Pat>, b: Seq<Pat>, lo: int, hi: int)
    requires
        all_within(a, lo, hi),
        all_within(b, lo, hi),
        all_distinct(a),
        all_distinct(b),
    ensures
        all_within(a + b, lo, hi),
        all_distinct(a + b),
{
    assert forall|j: int| 0 <= j < (a + b).len() implies ids_within(#[trigger] (a + b)[j], lo, hi)
        && distinct_ids((a + b)[j]) by {
        if j < a.len() {
            assert((a + b)[j] == a[j]);
        } else {
            assert((a + b)[j] == b[j - a.len()]);
        }
    }
}

proof fn lemma_used_within(ps: Seq<Pat>, e: Expr, id: u32, lo: int)
    requires
        all_within(ps, lo, id as int),
        all_distinct(ps),
        lo <= id,
    ensures
        used(ps.push(slot_for(e, id)), id) is Some ==> {
            let (qs, n) = used(ps.push(slot_for(e, id)), id)->0;
            n >= lo && all_within(qs, lo, n as int) && all_distinct(qs)
        },
{
    let s = slot_for(e, id);
    assert forall|k: u32, c: bool| #[trigger] slots(s, c).contains(k) implies lo <= k < id + 1 by {
        assert(slots(s, c) == seq![id] || slots(s, c) == Seq::<u32>::empty());
        if slots(s, c) == seq![id] {
            assert(seq![id].contains(k) ==> k == id);
        }
    }
    assert(slots(s, true).len() + slots(s, false).len() == 1);
    let qs = ps.push(s);
    assert forall|j: int| 0 <= j < qs.len() implies ids_within(#[trigger] qs[j], lo, id + 1)
        && distinct_ids(qs[j]) by {
        if j < ps.len() {
            assert(qs[j] == ps[j]);
        }
    }
}

proof fn lemma_gen_within(e: Expr, id: u32, fuel: nat)
    ensures
        gen(e, id, fuel) is Some ==> {
            let (ps, n) = gen(e, id, fuel)->0;
            n >= id && all_within(ps, id as int, n as int) && all_distinct(ps)
        },
    decreases fuel,
{
    if fuel == 0 {
        lemma_used_within(Seq::empty(), e, id, id as int);
        assert(Seq::<Pat>::empty().push(slot_for(e, id)) =~= seq![slot_for(e, id)]);
    } else {
        let k = (fuel - 1) as nat;
        match e {
            Expr::ConstVar(_) | Expr::ConstNum(_) => {
                lemma_used_within(Seq::empty(), Expr::ConstNum(0), id, id as int);
                assert(Seq::<Pat>::empty().push(slot_for(Expr::ConstNum(0), id)) =~= seq![Pat::Const(id)]);
            },
            Expr::Var(_) => {
                lemma_used_within(Seq::empty(), Expr::Var(0), id, id as int);
                assert(Seq::<Pat>::empty().push(slot_for(Expr::Var(0), id)) =~= seq![Pat::Var(id)]);
            },
            Expr::Exp(_, _) => {},
            Expr::Div(n, d) => {
                lemma_gen_within(*n, id, k);
                if gen(*n, id, k) is Some {
                    let (np, i1) = gen(*n, id, k)->0;
                    lemma_gen_within(*d, i1, k);
                    if gen(*d, i1, k) is Some {
                        let (dp, i2) = gen(*d, i1, k)->0;
                        lemma_cross_div_within(np, dp, id as int, i1 as int, i2 as int);
                        lemma_used_within(cross_div(np, dp), e, i2, id as int);
                    }
                }
            },
            Expr::Sum(ts) | Expr::Prod(ts) => {
                let sum = e is Sum;
                if ts.len() == 0 {
                    lemma_used_within(Seq::empty(), e, id, id as int);
                    assert(Seq::<Pat>::empty().push(slot_for(e, id)) =~= seq![slot_for(e, id)]);
                } else {
                    lemma_gen_within(ts[0], id, k);
                    if gen(ts[0], id, k) is Some {
                        let (fp, i1) = gen(ts[0], id, k)->0;
                        let rest = if sum {
                            Expr::Sum(ts.subrange(1, ts.len() as int))
                        } else {
                            Expr::Prod(ts.subrange(1, ts.len() as int))
                        };
                        let rr = crate::reduce::reduce_f(rest, false, crate::reduce::REDUCE_DEPTH as nat);
                        lemma_gen_within(rr, i1, k);
                        if gen(rr, i1, k) is Some {
                            let (rp, i2) = gen(rr, i1, k)->0;
                            lemma_cross_within(fp, rp, sum, id as int, i1 as int, i2 as int);
                            lemma_used_within(cross(fp, rp, sum), e, i2, id as int);
                        }
                    }
                }
            },
        }
    }
}

/// Generated slot ids are fresh: the next unused id is no smaller than the first one,
/// every slot of every generated pattern has an id from the first one up to, not including,
/// the next unused one, and no id occurs twice in one pattern.
pub proof fn law_generated_ids_fresh(e: Expr, id: u32)
    ensures
        gen(e, id, GENERATE_DEPTH as nat) is Some ==> {
            let (ps, n) = gen(e, id, GENERATE_DEPTH as nat)->0;
            n >= id && all_within(ps, id as int, n as int) && all_distinct(ps)
        },
{
    lemma_gen_within(e, id, GENERATE_DEPTH as nat);
}

} // verus!

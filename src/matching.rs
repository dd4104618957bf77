use vstd::prelude::*;
use crate::expr::{MExpr, Expr, views, lemma_views, clone_all};
use crate::normalize::{sum_of, prod_of, trivial, make_sum, make_prod};
use crate::pattern::{MPattern, Pat, pviews, lemma_pviews, clone_patterns, psum_of, pprod_of, ptrivial, make_psum, make_pprod};
use crate::binding::{Bindings, merge, merge_maps};

verus! {

/// What a match binds: constant slots, then variable slots.
pub type Binds = (Map<u32, Expr>, Map<u32, Expr>);

/// Both kinds of assignment merged, or `None` where either kind disagrees on a slot.
pub open spec fn merge_binds(a: Binds, b: Binds) -> Option<Binds> {
    match (merge_maps(a.0, b.0), merge_maps(a.1, b.1)) {
        (Some(c), Some(v)) => Some((c, v)),
        _ => None,
    }
}

/// The number of nodes of a pattern.
pub open spec fn psize(p: Pat) -> nat
    decreases p,
{
    match p {
        Pat::Sum(ts) => 1 + psizes(ts),
        Pat::Prod(ts) => 1 + psizes(ts),
        Pat::Div(a, b) => 1 + psize(*a) + psize(*b),
        _ => 1,
    }
}

/// The number of nodes of all the patterns.
pub open spec fn psizes(s: Seq<Pat>) -> nat
    decreases s,
{
    if s.len() == 0 {
        0
    } else {
        psizes(s.subrange(0, s.len() - 1)) + psize(s[s.len() - 1])
    }
}

/// The operands grouped back into one pattern of the kind they came from.
pub open spec fn pgroup(s: Seq<Pat>, sum: bool) -> Pat {
    if sum {
        psum_of(s)
    } else {
        pprod_of(s)
    }
}

/// The operands grouped back into one expression of the kind they came from.
pub open spec fn egroup(s: Seq<Expr>, sum: bool) -> Expr {
    if sum {
        sum_of(s)
    } else {
        prod_of(s)
    }
}

pub proof fn lemma_psize_pos(p: Pat)
    ensures
        psize(p) >= 1,
{
}

/// Taking one pattern out of a sequence takes its size off the total.
pub proof fn lemma_psizes_remove(s: Seq<Pat>, i: int)
    requires
        0 <= i < s.len(),
    ensures
        psizes(s.remove(i)) + psize(s[i]) == psizes(s),
        psize(s[i]) <= psizes(s),
    decreases s.len(),
{
    let p = s.subrange(0, s.len() - 1);
    if i == s.len() - 1 {
        assert(s.remove(i) =~= p);
    } else {
        lemma_psizes_remove(p, i);
        assert(s.remove(i) =~= p.remove(i).push(s[s.len() - 1]));
        assert(s.remove(i).subrange(0, s.remove(i).len() - 1) =~= p.remove(i));
    }
}

/// The group of the operands other than one is no larger than all the operands.
pub proof fn lemma_rest_size(s: Seq<Pat>, i: int, sum: bool)
    requires
        0 <= i < s.len(),
    ensures
        psize(pgroup(s.remove(i), sum)) <= psizes(s),
        psize(s[i]) <= psizes(s),
{
    lemma_psizes_remove(s, i);
    lemma_psize_pos(s[i]);
    let r = s.remove(i);
    if r.len() == 1 {
        assert(r.subrange(0, 0) =~= Seq::<Pat>::empty());
        assert(psizes(Seq::<Pat>::empty()) == 0);
        assert(psizes(r) == psizes(r.subrange(0, 0)) + psize(r[0]));
    }
}

/// Matching of a pattern against an expression, both in light normal form. A constant slot
/// takes a constant subexpression, a variable slot one that holds a variable; quotients
/// match side by side; sums and products match commutatively (see `match_operands`).
pub open spec fn bind_norm(p: Pat, e: Expr) -> Option<Binds>
    decreases psize(p), 0int, 0int, 0int,
{
    match p {
        Pat::Const(n) => if e.constant() {
            Some((Map::empty().insert(n, e), Map::empty()))
        } else {
            None
        },
        Pat::Var(n) => if !e.constant() {
            Some((Map::empty(), Map::empty().insert(n, e)))
        } else {
            None
        },
        Pat::Div(pa, pb) => match e {
            Expr::Div(a, b) => match (bind_norm(*pa, *a), bind_norm(*pb, *b)) {
                (Some(x), Some(y)) => merge_binds(x, y),
                _ => None,
            },
            _ => None,
        },
        Pat::Sum(pts) => match e {
            Expr::Sum(ts) => match_operands(pts, ts, true, 0),
            _ => None,
        },
        Pat::Prod(pts) => match e {
            Expr::Prod(ts) => match_operands(pts, ts, false, 0),
            _ => None,
        },
    }
}

/// Greedy commutative matching of pattern operands `pts` against expression operands `ts`:
/// the first pattern operand is paired with the first expression operand from `i` on that it
/// matches, and the remaining operands, grouped again, must then match as well; no other
/// pairing is tried. Disagreeing assignments give no match.
pub open spec fn match_operands(pts: Seq<Pat>, ts: Seq<Expr>, sum: bool, i: int) -> Option<Binds>
    decreases psizes(pts), 1int, 0int, ts.len() - i,
{
    if pts.len() == 0 || i < 0 || i >= ts.len() {
        None
    } else {
        proof {
            lemma_rest_size(pts, 0, sum);
        }
        match bind_norm(pts[0], ts[i]) {
            Some(f) => match bind_norm(pgroup(pts.remove(0), sum), egroup(ts.remove(i), sum)) {
                Some(r) => merge_binds(f, r),
                None => None,
            },
            None => match_operands(pts, ts, sum, i + 1),
        }
    }
}

/// Matching of a pattern against an expression: both are first brought to light normal form.
pub open spec fn bind_spec(p: Pat, e: Expr) -> Option<Binds> {
    bind_norm(ptrivial(p), trivial(e))
}


proof fn lemma_views_remove(s: Seq<MExpr>, i: int)
    requires
        0 <= i < s.len(),
    ensures
        views(s.remove(i)) == views(s).remove(i),
{
    lemma_views(s);
    lemma_views(s.remove(i));
    assert(views(s.remove(i)) =~= views(s).remove(i));
}

proof fn lemma_pviews_remove(s: Seq<MPattern>, i: int)
    requires
        0 <= i < s.len(),
    ensures
        pviews(s.remove(i)) == pviews(s).remove(i),
{
    lemma_pviews(s);
    lemma_pviews(s.remove(i));
    assert(pviews(s.remove(i)) =~= pviews(s).remove(i));
}

/// The executable form of a match result.
pub open spec fn binds_of(r: Option<(Bindings, Bindings)>) -> Option<Binds> {
    match r {
        Some(b) => Some((b.0@, b.1@)),
        None => None,
    }
}

fn merge_pair(x: (Bindings, Bindings), y: (Bindings, Bindings)) -> (r: Option<(Bindings, Bindings)>)
    ensures
        binds_of(r) == merge_binds((x.0@, x.1@), (y.0@, y.1@)),
{
    let (mut c, mut v) = x;
    let (c2, v2) = y;
    match merge(&mut c, c2) {
        Err(_) => {
            return None;
        },
        Ok(_) => {},
    }
    match merge(&mut v, v2) {
        Err(_) => {
            return None;
        },
        Ok(_) => {},
    }
    Some((c, v))
}

fn bind_norm_exec(p: &MPattern, e: &MExpr) -> (r: Option<(Bindings, Bindings)>)
    ensures
        binds_of(r) == bind_norm(p@, e@),
    decreases psize(p@), 0int,
{
    match p {
        MPattern::Const(n) => {
            if e.is_const() {
                Some((Bindings::single(*n, e.clone()), Bindings::new()))
            } else {
                None
            }
        },
        MPattern::Var(n) => {
            if !e.is_const() {
                Some((Bindings::new(), Bindings::single(*n, e.clone())))
            } else {
                None
            }
        },
        MPattern::Div(pa, pb) => match e {
            MExpr::Div(a, b) => {
                let x = match bind_norm_exec(pa, a) {
                    Some(x) => x,
                    None => {
                        return None;
                    },
                };
                let y = match bind_norm_exec(pb, b) {
                    Some(y) => y,
                    None => {
                        return None;
                    },
                };
                merge_pair(x, y)
            },
            _ => None,
        },
        MPattern::Sum(pts) => match e {
            MExpr::Sum(ts) => match_operands_exec(pts, ts, true),
            _ => None,
        },
        MPattern::Prod(pts) => match e {
            MExpr::Prod(ts) => match_operands_exec(pts, ts, false),
            _ => None,
        },
    }
}

fn match_operands_exec(pts: &Vec<MPattern>, ts: &Vec<MExpr>, sum: bool) -> (r: Option<(Bindings, Bindings)>)
    ensures
        binds_of(r) == match_operands(pviews(pts@), views(ts@), sum, 0),
    decreases psizes(pviews(pts@)), 1int,
{
    let ghost pv = pviews(pts@);
    let ghost tv = views(ts@);
    proof {
        lemma_pviews(pts@);
        lemma_views(ts@);
    }
    if pts.len() == 0 {
        return None;
    }
    let mut i: usize = 0;
    while i < ts.len()
        invariant
            pts@.len() > 0,
            i <= ts@.len(),
            pv == pviews(pts@),
            tv == views(ts@),
            pv.len() == pts@.len(),
            tv.len() == ts@.len(),
            forall|j: int| 0 <= j < pts@.len() ==> #[trigger] pv[j] == pts@[j]@,
            forall|j: int| 0 <= j < ts@.len() ==> #[trigger] tv[j] == ts@[j]@,
            match_operands(pv, tv, sum, 0) == match_operands(pv, tv, sum, i as int),
        decreases ts@.len() - i,
    {
        proof {
            lemma_rest_size(pv, 0, sum);
        }
        match bind_norm_exec(&pts[0], &ts[i]) {
            Some(f) => {
                let mut rp = clone_patterns(pts);
                let ghost rp0 = rp@;
                rp.remove(0);
                let mut rt = clone_all(ts);
                let ghost rt0 = rt@;
                rt.remove(i);
                proof {
                    lemma_pviews_remove(rp0, 0);
                    lemma_views_remove(rt0, i as int);
                }
                let gp = if sum {
                    make_psum(rp)
                } else {
                    make_pprod(rp)
                };
                let ge = if sum {
                    make_sum(rt)
                } else {
                    make_prod(rt)
                };
                return match bind_norm_exec(&gp, &ge) {
                    Some(r) => merge_pair(f, r),
                    None => None,
                };
            },
            None => {},
        }
        i = i + 1;
    }
    None
}

/// The canonical instance of a pattern: each constant slot becomes the named constant of
/// the same id, each variable slot the variable of the same id.
pub open spec fn instance(p: Pat) -> Expr
    decreases p,
{
    match p {
        Pat::Const(x) => Expr::ConstVar(x),
        Pat::Var(x) => Expr::Var(x),
        Pat::Sum(ts) => Expr::Sum(instances(ts)),
        Pat::Prod(ts) => Expr::Prod(instances(ts)),
        Pat::Div(a, b) => Expr::Div(Box::new(instance(*a)), Box::new(instance(*b))),
    }
}

/// The canonical instances of a sequence of patterns.
pub open spec fn instances(s: Seq<Pat>) -> Seq<Expr>
    decreases s,
{
    if s.len() == 0 {
        Seq::empty()
    } else {
        instances(s.subrange(0, s.len() - 1)).push(instance(s[s.len() - 1]))
    }
}

/// The ids of the slots of one kind (constant slots for `constant`), left to right.
pub open spec fn slots(p: Pat, constant: bool) -> Seq<u32>
    decreases p,
{
    match p {
        Pat::Const(x) => if constant {
            seq![x]
        } else {
            Seq::empty()
        },
        Pat::Var(x) => if constant {
            Seq::empty()
        } else {
            seq![x]
        },
        Pat::Sum(ts) => slots_all(ts, constant),
        Pat::Prod(ts) => slots_all(ts, constant),
        Pat::Div(a, b) => slots(*a, constant) + slots(*b, constant),
    }
}

/// The ids of the slots of one kind in a sequence of patterns, left to right.
pub open spec fn slots_all(s: Seq<Pat>, constant: bool) -> Seq<u32>
    decreases s,
{
    if s.len() == 0 {
        Seq::empty()
    } else {
        slots_all(s.subrange(0, s.len() - 1), constant) + slots(s[s.len() - 1], constant)
    }
}

fn instance_of(p: &MPattern) -> (r: MExpr)
    ensures
        r@ == instance(p@),
    decreases p,
{
    match p {
        MPattern::Const(x) => MExpr::ConstVar(*x),
        MPattern::Var(x) => MExpr::Var(*x),
        MPattern::Sum(ts) => MExpr::Sum(instance_all(ts)),
        MPattern::Prod(ts) => MExpr::Prod(instance_all(ts)),
        MPattern::Div(a, b) => MExpr::Div(Box::new(instance_of(a)), Box::new(instance_of(b))),
    }
}

fn instance_all(ts: &Vec<MPattern>) -> (r: Vec<MExpr>)
    ensures
        views(r@) == instances(pviews(ts@)),
    decreases ts,
{
    let ghost pv = pviews(ts@);
    proof { lemma_pviews(ts@); }
    let mut out: Vec<MExpr> = Vec::new();
    let mut i: usize = 0;
    while i < ts.len()
        invariant
            i <= ts@.len(),
            pv == pviews(ts@),
            pv.len() == ts@.len(),
            forall|j: int| 0 <= j < ts@.len() ==> #[trigger] pv[j] == ts@[j]@,
            views(out@) == instances(pv.subrange(0, i as int)),
        decreases ts@.len() - i,
    {
        let c = instance_of(&ts[i]);
        proof {
            let next = pv.subrange(0, i as int + 1);
            assert(next.subrange(0, i as int) =~= pv.subrange(0, i as int));
            crate::expr::lemma_views_push(out@, c);
        }
        out.push(c);
        i = i + 1;
    }
    assert(pv.subrange(0, ts@.len() as int) =~= pv);
    out
}

fn collect_slots(p: &MPattern, consts: &mut Vec<u32>, vars: &mut Vec<u32>)
    ensures
        final(consts)@ == old(consts)@ + slots(p@, true),
        final(vars)@ == old(vars)@ + slots(p@, false),
    decreases p,
{
    match p {
        MPattern::Const(x) => {
            consts.push(*x);
            assert(final(consts)@ =~= old(consts)@ + seq![*x]);
            assert(final(vars)@ =~= old(vars)@ + Seq::<u32>::empty());
        },
        MPattern::Var(x) => {
            vars.push(*x);
            assert(final(vars)@ =~= old(vars)@ + seq![*x]);
            assert(final(consts)@ =~= old(consts)@ + Seq::<u32>::empty());
        },
        MPattern::Sum(ts) => collect_slots_all(ts, consts, vars),
        MPattern::Prod(ts) => collect_slots_all(ts, consts, vars),
        MPattern::Div(a, b) => {
            collect_slots(a, consts, vars);
            collect_slots(b, consts, vars);
            assert(final(consts)@ =~= old(consts)@ + (slots(a@, true) + slots(b@, true)));
            assert(final(vars)@ =~= old(vars)@ + (slots(a@, false) + slots(b@, false)));
        },
    }
}

fn collect_slots_all(ts: &Vec<MPattern>, consts: &mut Vec<u32>, vars: &mut Vec<u32>)
    ensures
        final(consts)@ == old(consts)@ + slots_all(pviews(ts@), true),
        final(vars)@ == old(vars)@ + slots_all(pviews(ts@), false),
    decreases ts,
{
    let ghost pv = pviews(ts@);
    let ghost c0 = consts@;
    let ghost v0 = vars@;
    proof { lemma_pviews(ts@); }
    let mut i: usize = 0;
    while i < ts.len()
        invariant
            i <= ts@.len(),
            pv == pviews(ts@),
            pv.len() == ts@.len(),
            forall|j: int| 0 <= j < ts@.len() ==> #[trigger] pv[j] == ts@[j]@,
            consts@ == c0 + slots_all(pv.subrange(0, i as int), true),
            vars@ == v0 + slots_all(pv.subrange(0, i as int), false),
        decreases ts@.len() - i,
    {
        collect_slots(&ts[i], consts, vars);
        proof {
            let next = pv.subrange(0, i as int + 1);
            assert(next.subrange(0, i as int) =~= pv.subrange(0, i as int));
            assert(consts@ =~= c0 + slots_all(next, true));
            assert(vars@ =~= v0 + slots_all(next, false));
        }
        i = i + 1;
    }
    assert(pv.subrange(0, ts@.len() as int) =~= pv);
}

impl MPattern {
    /// Matches the pattern against an expression, both first brought to light normal form.
    /// On a match, gives what the constant slots and what the variable slots are bound to.
    /// Sums and products match commutatively and greedily: the first pattern operand is
    /// paired with the first expression operand it matches, and the remaining operands must
    /// then match as well (the last remaining pattern operand takes all remaining expression
    /// operands); no other pairing is tried. A slot that occurs twice must be bound to the same
    /// subexpression both times.
    pub fn bind(self, expr: MExpr) -> (r: Option<(Bindings, Bindings)>)
        ensures
            binds_of(r) == bind_spec(self@, expr@),
    {
        let p = self.trivial_reduce();
        let e = expr.trivial_reduce();
        bind_norm_exec(&p, &e)
    }

    /// Whether every expression this pattern matches is matched by `other` too: `other`
    /// must match this pattern's canonical instance.
    pub fn is_subpattern_of(self, other: MPattern) -> (r: bool)
        ensures
            r == bind_spec(other@, instance(self@)) is Some,
    {
        other.bind(instance_of(&self)).is_some()
    }

    /// The ids of the constant slots and of the variable slots, left to right.
    pub fn get_free(self) -> (r: (Vec<u32>, Vec<u32>))
        ensures
            r.0@ == slots(self@, true),
            r.1@ == slots(self@, false),
    {
        let mut consts: Vec<u32> = Vec::new();
        let mut vars: Vec<u32> = Vec::new();
        collect_slots(&self, &mut consts, &mut vars);
        assert(consts@ =~= slots(self@, true));
        assert(vars@ =~= slots(self@, false));
        (consts, vars)
    }
}

} // verus!
verus! {

/// Constant slots are bound to constant subexpressions only, variable slots to
/// subexpressions that hold a variable only.
pub open spec fn well_kinded(b: Binds) -> bool {
    &&& forall|k: u32| #[trigger] b.0.contains_key(k) ==> b.0[k].constant()
    &&& forall|k: u32| #[trigger] b.1.contains_key(k) ==> !b.1[k].constant()
}

proof fn lemma_merge_kinds(x: Binds, y: Binds)
    requires
        well_kinded(x),
        well_kinded(y),
    ensures
        merge_binds(x, y) is Some ==> well_kinded(merge_binds(x, y)->0),
{
}

proof fn lemma_bind_norm_kinds(p: Pat, e: Expr)
    ensures
        bind_norm(p, e) is Some ==> well_kinded(bind_norm(p, e)->0),
    decreases psize(p), 0int, 0int, 0int,
{
    match p {
        Pat::Div(pa, pb) => match e {
            Expr::Div(a, b) => {
                lemma_bind_norm_kinds(*pa, *a);
                lemma_bind_norm_kinds(*pb, *b);
                if bind_norm(*pa, *a) is Some && bind_norm(*pb, *b) is Some {
                    lemma_merge_kinds(bind_norm(*pa, *a)->0, bind_norm(*pb, *b)->0);
                }
            },
            _ => {},
        },
        Pat::Sum(pts) => match e {
            Expr::Sum(ts) => lemma_match_operands_kinds(pts, ts, true, 0),
            _ => {},
        },
        Pat::Prod(pts) => match e {
            Expr::Prod(ts) => lemma_match_operands_kinds(pts, ts, false, 0),
            _ => {},
        },
        _ => {},
    }
}

proof fn lemma_match_operands_kinds(pts: Seq<Pat>, ts: Seq<Expr>, sum: bool, i: int)
    ensures
        match_operands(pts, ts, sum, i) is Some ==> well_kinded(match_operands(pts, ts, sum, i)->0),
    decreases psizes(pts), 1int, 0int, ts.len() - i,
{
    if !(pts.len() == 0 || i < 0 || i >= ts.len()) {
        lemma_rest_size(pts, 0, sum);
        lemma_bind_norm_kinds(pts[0], ts[i]);
        let rp = pgroup(pts.remove(0), sum);
        let re = egroup(ts.remove(i), sum);
        lemma_bind_norm_kinds(rp, re);
        lemma_match_operands_kinds(pts, ts, sum, i + 1);
        if bind_norm(pts[0], ts[i]) is Some && bind_norm(rp, re) is Some {
            lemma_merge_kinds(bind_norm(pts[0], ts[i])->0, bind_norm(rp, re)->0);
        }
    }
}

/// A match binds each constant slot to a constant subexpression and each variable slot to
/// a subexpression that holds a variable.
pub proof fn law_bind_well_kinded(p: Pat, e: Expr)
    ensures
        bind_spec(p, e) is Some ==> well_kinded(bind_spec(p, e)->0),
{
    lemma_bind_norm_kinds(ptrivial(p), trivial(e));
}

} // verus!
verus! {

/// Every slot a match binds occurs in the pattern, with its kind.
pub open spec fn slots_cover(b: Binds, p: Pat) -> bool {
    &&& forall|k: u32| #[trigger] b.0.contains_key(k) ==> slots(p, true).contains(k)
    &&& forall|k: u32| #[trigger] b.1.contains_key(k) ==> slots(p, false).contains(k)
}

pub proof fn lemma_concat_contains(a: Seq<u32>, b: Seq<u32>, k: u32)
    ensures
        (a + b).contains(k) == (a.contains(k) || b.contains(k)),
{
    if a.contains(k) {
        let j = choose|j: int| 0 <= j < a.len() && a[j] == k;
        assert((a + b)[j] == k);
    }
    if b.contains(k) {
        let j = choose|j: int| 0 <= j < b.len() && b[j] == k;
        assert((a + b)[a.len() + j] == k);
    }
    if (a + b).contains(k) {
        let j = choose|j: int| 0 <= j < (a + b).len() && (a + b)[j] == k;
        if j < a.len() {
            assert(a[j] == k);
        } else {
            assert(b[j - a.len()] == k);
        }
    }
}

proof fn lemma_slots_all(s: Seq<Pat>, c: bool, k: u32)
    ensures
        slots_all(s, c).contains(k) == (exists|j: int| 0 <= j < s.len() && #[trigger] slots(s[j], c).contains(k)),
    decreases s.len(),
{
    if s.len() > 0 {
        let p = s.subrange(0, s.len() - 1);
        lemma_slots_all(p, c, k);
        lemma_concat_contains(slots_all(p, c), slots(s[s.len() - 1], c), k);
        if exists|j: int| 0 <= j < p.len() && #[trigger] slots(p[j], c).contains(k) {
            let j = choose|j: int| 0 <= j < p.len() && #[trigger] slots(p[j], c).contains(k);
            assert(p[j] == s[j]);
        }
        if exists|j: int| 0 <= j < s.len() && #[trigger] slots(s[j], c).contains(k) {
            let j = choose|j: int| 0 <= j < s.len() && #[trigger] slots(s[j], c).contains(k);
            if j < s.len() - 1 {
                assert(p[j] == s[j]);
            }
        }
    }
}

/// The slots of the regrouped operands other than the first are slots of the operands.
proof fn lemma_rest_slots(pts: Seq<Pat>, sum: bool, c: bool, k: u32)
    requires
        pts.len() > 0,
        slots(pgroup(pts.remove(0), sum), c).contains(k),
    ensures
        slots_all(pts, c).contains(k),
{
    let r = pts.remove(0);
    lemma_slots_all(pts, c, k);
    if r.len() == 1 {
        assert(r[0] == pts[1]);
    } else {
        lemma_slots_all(r, c, k);
        let j = choose|j: int| 0 <= j < r.len() && #[trigger] slots(r[j], c).contains(k);
        assert(r[j] == pts[j + 1]);
    }
}

proof fn lemma_bind_norm_cover(p: Pat, e: Expr)
    ensures
        bind_norm(p, e) is Some ==> slots_cover(bind_norm(p, e)->0, p),
    decreases psize(p), 0int, 0int, 0int,
{
    match p {
        Pat::Const(n) => {
            assert(seq![n][0] == n);
        },
        Pat::Var(n) => {
            assert(seq![n][0] == n);
        },
        Pat::Div(pa, pb) => match e {
            Expr::Div(a, b) => {
                lemma_bind_norm_cover(*pa, *a);
                lemma_bind_norm_cover(*pb, *b);
                assert forall|k: u32, c: bool| #![auto] slots(*pa, c).contains(k) || slots(*pb, c).contains(k)
                    implies slots(p, c).contains(k) by {
                    lemma_concat_contains(slots(*pa, c), slots(*pb, c), k);
                }
            },
            _ => {},
        },
        Pat::Sum(pts) => match e {
            Expr::Sum(ts) => lemma_match_operands_cover(pts, ts, true, 0),
            _ => {},
        },
        Pat::Prod(pts) => match e {
            Expr::Prod(ts) => lemma_match_operands_cover(pts, ts, false, 0),
            _ => {},
        },
    }
}

proof fn lemma_match_operands_cover(pts: Seq<Pat>, ts: Seq<Expr>, sum: bool, i: int)
    ensures
        match_operands(pts, ts, sum, i) is Some ==> {
            let b = match_operands(pts, ts, sum, i)->0;
            &&& forall|k: u32| #[trigger] b.0.contains_key(k) ==> slots_all(pts, true).contains(k)
            &&& forall|k: u32| #[trigger] b.1.contains_key(k) ==> slots_all(pts, false).contains(k)
        },
    decreases psizes(pts), 1int, 0int, ts.len() - i,
{
    if !(pts.len() == 0 || i < 0 || i >= ts.len()) {
        lemma_rest_size(pts, 0, sum);
        lemma_bind_norm_cover(pts[0], ts[i]);
        let rp = pgroup(pts.remove(0), sum);
        let re = egroup(ts.remove(i), sum);
        lemma_bind_norm_cover(rp, re);
        lemma_match_operands_cover(pts, ts, sum, i + 1);
        assert forall|k: u32, c: bool| #![auto] slots(pts[0], c).contains(k) implies slots_all(pts, c).contains(k) by {
            lemma_slots_all(pts, c, k);
        }
        assert forall|k: u32, c: bool| #![auto] slots(rp, c).contains(k) implies slots_all(pts, c).contains(k) by {
            lemma_rest_slots(pts, sum, c, k);
        }
    }
}

/// A match binds only slots that occur in the pattern (in its light normal form), each
/// with the kind it has there.
pub proof fn law_bind_slots_in_pattern(p: Pat, e: Expr)
    ensures
        bind_spec(p, e) is Some ==> slots_cover(bind_spec(p, e)->0, ptrivial(p)),
{
    lemma_bind_norm_cover(ptrivial(p), trivial(e));
}

} // verus!

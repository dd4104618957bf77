use vstd::prelude::*;

verus! {

/// A template for expressions: slots that stand for a constant or a non-constant
/// subexpression, put together by sums, products and quotients.
#[derive(Debug)]
pub enum MPattern {
    /// A slot that matches a constant subexpression, by id.
    Const(u32),
    /// A slot that matches a subexpression holding a variable, by id.
    Var(u32),
    Sum(Vec<MPattern>),
    Prod(Vec<MPattern>),
    Div(Box<MPattern>, Box<MPattern>),
}

/// The mathematical value of an `MPattern`.
pub enum Pat {
    Const(u32),
    Var(u32),
    Sum(Seq<Pat>),
    Prod(Seq<Pat>),
    Div(Box<Pat>, Box<Pat>),
}

/// The values of a sequence of patterns.
pub open spec fn pviews(s: Seq<MPattern>) -> Seq<Pat>
    decreases s,
{
    if s.len() == 0 {
        Seq::empty()
    } else {
        pviews(s.subrange(0, s.len() - 1)).push(s[s.len() - 1].view_pat())
    }
}

impl MPattern {
    pub open spec fn view_pat(&self) -> Pat
        decreases self,
    {
        match self {
            MPattern::Const(x) => Pat::Const(*x),
            MPattern::Var(x) => Pat::Var(*x),
            MPattern::Sum(ts) => Pat::Sum(pviews(ts@)),
            MPattern::Prod(ts) => Pat::Prod(pviews(ts@)),
            MPattern::Div(a, b) => Pat::Div(Box::new(a.view_pat()), Box::new(b.view_pat())),
        }
    }
}

impl View for MPattern {
    type V = Pat;

    open spec fn view(&self) -> Pat {
        self.view_pat()
    }
}

/// The values of a sequence, element by element.
pub proof fn lemma_pviews(s: Seq<MPattern>)
    ensures
        pviews(s).len() == s.len(),
        forall|i: int| 0 <= i < s.len() ==> #[trigger] pviews(s)[i] == s[i]@,
    decreases s.len(),
{
    if s.len() > 0 {
        lemma_pviews(s.subrange(0, s.len() - 1));
    }
}

pub proof fn lemma_pviews_push(s: Seq<MPattern>, x: MPattern)
    ensures
        pviews(s.push(x)) == pviews(s).push(x@),
{
    assert(s.push(x).subrange(0, s.len() as int) =~= s);
}

pub proof fn lemma_pviews_concat(a: Seq<MPattern>, b: Seq<MPattern>)
    ensures
        pviews(a + b) == pviews(a) + pviews(b),
{
    lemma_pviews(a);
    lemma_pviews(b);
    lemma_pviews(a + b);
    assert(pviews(a + b) =~= pviews(a) + pviews(b));
}

fn all_equal(a: &Vec<MPattern>, b: &Vec<MPattern>) -> (r: bool)
    ensures
        r == (pviews(a@) == pviews(b@)),
    decreases a,
{
    proof { lemma_pviews(a@); lemma_pviews(b@); }
    if a.len() != b.len() {
        return false;
    }
    let mut i: usize = 0;
    while i < a.len()
        invariant
            i <= a@.len(),
            a@.len() == b@.len(),
            pviews(a@).len() == a@.len(),
            pviews(b@).len() == b@.len(),
            forall|j: int| 0 <= j < a@.len() ==> #[trigger] pviews(a@)[j] == a@[j]@,
            forall|j: int| 0 <= j < b@.len() ==> #[trigger] pviews(b@)[j] == b@[j]@,
            forall|j: int| 0 <= j < i ==> pviews(a@)[j] == pviews(b@)[j],
        decreases a@.len() - i,
    {
        if !a[i].eq(&b[i]) {
            assert(pviews(a@)[i as int] != pviews(b@)[i as int]);
            return false;
        }
        i = i + 1;
    }
    assert(pviews(a@) =~= pviews(b@));
    true
}

impl PartialEq for MPattern {
    fn eq(&self, other: &MPattern) -> (r: bool)
        decreases self,
    {
        match (self, other) {
            (MPattern::Const(x), MPattern::Const(y)) => *x == *y,
            (MPattern::Var(x), MPattern::Var(y)) => *x == *y,
            (MPattern::Sum(x), MPattern::Sum(y)) => all_equal(x, y),
            (MPattern::Prod(x), MPattern::Prod(y)) => all_equal(x, y),
            (MPattern::Div(a, b), MPattern::Div(c, d)) => (**a).eq(&**c) && (**b).eq(&**d),
            _ => false,
        }
    }
}

impl vstd::std_specs::cmp::PartialEqSpecImpl for MPattern {
    open spec fn obeys_eq_spec() -> bool {
        true
    }

    open spec fn eq_spec(&self, other: &MPattern) -> bool {
        self@ == other@
    }
}

impl Eq for MPattern {
}

/// A copy of every element, in order.
pub fn clone_patterns(v: &Vec<MPattern>) -> (r: Vec<MPattern>)
    ensures
        pviews(r@) == pviews(v@),
        r@.len() == v@.len(),
    decreases v,
{
    proof { lemma_pviews(v@); }
    let mut out: Vec<MPattern> = Vec::new();
    let mut i: usize = 0;
    while i < v.len()
        invariant
            i <= v@.len(),
            pviews(v@).len() == v@.len(),
            out@.len() == i,
            forall|j: int| 0 <= j < i ==> out@[j]@ == v@[j]@,
        decreases v@.len() - i,
    {
        out.push(v[i].clone());
        i = i + 1;
    }
    proof { lemma_pviews(out@); }
    assert(pviews(out@) =~= pviews(v@));
    out
}

impl Clone for MPattern {
    fn clone(&self) -> (r: MPattern)
        ensures
            r@ == self@,
        decreases self,
    {
        match self {
            MPattern::Const(x) => MPattern::Const(*x),
            MPattern::Var(x) => MPattern::Var(*x),
            MPattern::Sum(ts) => MPattern::Sum(clone_patterns(ts)),
            MPattern::Prod(ts) => MPattern::Prod(clone_patterns(ts)),
            MPattern::Div(a, b) => MPattern::Div(Box::new((**a).clone()), Box::new((**b).clone())),
        }
    }
}

/// The terms of a sum, where each term that is itself a sum gives its own terms instead.
pub open spec fn pflatten_sum(s: Seq<Pat>) -> Seq<Pat>
    decreases s.len(),
{
    if s.len() == 0 {
        Seq::empty()
    } else {
        let rest = pflatten_sum(s.subrange(0, s.len() - 1));
        match s[s.len() - 1] {
            Pat::Sum(us) => rest + us,
            t => rest.push(t),
        }
    }
}

/// The factors of a product, where each factor that is itself a product gives its own factors.
pub open spec fn pflatten_prod(s: Seq<Pat>) -> Seq<Pat>
    decreases s.len(),
{
    if s.len() == 0 {
        Seq::empty()
    } else {
        let rest = pflatten_prod(s.subrange(0, s.len() - 1));
        match s[s.len() - 1] {
            Pat::Prod(us) => rest + us,
            t => rest.push(t),
        }
    }
}

/// A sum of the patterns, or the pattern itself for one.
pub open spec fn psum_of(s: Seq<Pat>) -> Pat {
    if s.len() == 1 {
        s[0]
    } else {
        Pat::Sum(s)
    }
}

/// A product of the patterns, or the pattern itself for one.
pub open spec fn pprod_of(s: Seq<Pat>) -> Pat {
    if s.len() == 1 {
        s[0]
    } else {
        Pat::Prod(s)
    }
}

/// The light normal form of a pattern: nested sums and products flattened, those of a
/// single operand collapsed, quotients normalised on both sides.
pub open spec fn ptrivial(e: Pat) -> Pat
    decreases e,
{
    match e {
        Pat::Sum(ts) => psum_of(pflatten_sum(ptrivial_all(ts))),
        Pat::Prod(ts) => pprod_of(pflatten_prod(ptrivial_all(ts))),
        Pat::Div(a, b) => Pat::Div(Box::new(ptrivial(*a)), Box::new(ptrivial(*b))),
        _ => e,
    }
}

/// The light normal form of each pattern.
pub open spec fn ptrivial_all(s: Seq<Pat>) -> Seq<Pat>
    decreases s,
{
    if s.len() == 0 {
        Seq::empty()
    } else {
        ptrivial_all(s.subrange(0, s.len() - 1)).push(ptrivial(s[s.len() - 1]))
    }
}

/// A pattern in light normal form.
pub open spec fn is_ptrivial(e: Pat) -> bool
    decreases e,
{
    match e {
        Pat::Sum(ts) => ts.len() != 1 && pall_trivial_not_sum(ts),
        Pat::Prod(ts) => ts.len() != 1 && pall_trivial_not_prod(ts),
        Pat::Div(a, b) => is_ptrivial(*a) && is_ptrivial(*b),
        _ => true,
    }
}

/// Each pattern is in light normal form and none is a sum.
pub open spec fn pall_trivial_not_sum(s: Seq<Pat>) -> bool
    decreases s,
{
    if s.len() == 0 {
        true
    } else {
        pall_trivial_not_sum(s.subrange(0, s.len() - 1)) && is_ptrivial(s[s.len() - 1])
            && !(s[s.len() - 1] is Sum)
    }
}

/// Each pattern is in light normal form and none is a product.
pub open spec fn pall_trivial_not_prod(s: Seq<Pat>) -> bool
    decreases s,
{
    if s.len() == 0 {
        true
    } else {
        pall_trivial_not_prod(s.subrange(0, s.len() - 1)) && is_ptrivial(s[s.len() - 1])
            && !(s[s.len() - 1] is Prod)
    }
}


pub proof fn lemma_pall_trivial_not_sum(s: Seq<Pat>)
    ensures
        pall_trivial_not_sum(s) == (forall|i: int| 0 <= i < s.len() ==> is_ptrivial(#[trigger] s[i]) && !(s[i] is Sum)),
    decreases s.len(),
{
    if s.len() > 0 {
        let p = s.subrange(0, s.len() - 1);
        lemma_pall_trivial_not_sum(p);
        assert(forall|i: int| 0 <= i < p.len() ==> p[i] == s[i]);
    }
}

pub proof fn lemma_pall_trivial_not_prod(s: Seq<Pat>)
    ensures
        pall_trivial_not_prod(s) == (forall|i: int| 0 <= i < s.len() ==> is_ptrivial(#[trigger] s[i]) && !(s[i] is Prod)),
    decreases s.len(),
{
    if s.len() > 0 {
        let p = s.subrange(0, s.len() - 1);
        lemma_pall_trivial_not_prod(p);
        assert(forall|i: int| 0 <= i < p.len() ==> p[i] == s[i]);
    }
}

/// Flattening terms in light normal form gives terms in light normal form, none a sum.
pub proof fn lemma_pflatten_sum(s: Seq<Pat>)
    requires
        forall|i: int| 0 <= i < s.len() ==> is_ptrivial(#[trigger] s[i]),
    ensures
        forall|j: int| 0 <= j < pflatten_sum(s).len() ==> is_ptrivial(#[trigger] pflatten_sum(s)[j]) && !(pflatten_sum(s)[j] is Sum),
        (forall|i: int| 0 <= i < s.len() ==> !(#[trigger] s[i] is Sum)) ==> pflatten_sum(s) == s,
    decreases s.len(),
{
    if s.len() > 0 {
        let p = s.subrange(0, s.len() - 1);
        assert(forall|i: int| 0 <= i < p.len() ==> p[i] == s[i]);
        lemma_pflatten_sum(p);
        let rest = pflatten_sum(p);
        match s[s.len() - 1] {
            Pat::Sum(us) => {
                lemma_pall_trivial_not_sum(us);
                assert(forall|j: int| 0 <= j < us.len() ==> (rest + us)[rest.len() + j] == us[j]);
            },
            t => {
                if forall|i: int| 0 <= i < s.len() ==> !(#[trigger] s[i] is Sum) {
                    assert(rest.push(t) =~= s);
                }
            },
        }
    }
}

/// Flattening factors in light normal form gives factors in light normal form, none a product.
pub proof fn lemma_pflatten_prod(s: Seq<Pat>)
    requires
        forall|i: int| 0 <= i < s.len() ==> is_ptrivial(#[trigger] s[i]),
    ensures
        forall|j: int| 0 <= j < pflatten_prod(s).len() ==> is_ptrivial(#[trigger] pflatten_prod(s)[j]) && !(pflatten_prod(s)[j] is Prod),
        (forall|i: int| 0 <= i < s.len() ==> !(#[trigger] s[i] is Prod)) ==> pflatten_prod(s) == s,
    decreases s.len(),
{
    if s.len() > 0 {
        let p = s.subrange(0, s.len() - 1);
        assert(forall|i: int| 0 <= i < p.len() ==> p[i] == s[i]);
        lemma_pflatten_prod(p);
        let rest = pflatten_prod(p);
        match s[s.len() - 1] {
            Pat::Prod(us) => {
                lemma_pall_trivial_not_prod(us);
                assert(forall|j: int| 0 <= j < us.len() ==> (rest + us)[rest.len() + j] == us[j]);
            },
            t => {
                if forall|i: int| 0 <= i < s.len() ==> !(#[trigger] s[i] is Prod) {
                    assert(rest.push(t) =~= s);
                }
            },
        }
    }
}

/// The light normal form is in light normal form.
pub proof fn lemma_ptrivial_is_ptrivial(e: Pat)
    ensures
        is_ptrivial(ptrivial(e)),
    decreases e,
{
    match e {
        Pat::Sum(ts) => {
            lemma_ptrivial_all_is_ptrivial(ts);
            let f = pflatten_sum(ptrivial_all(ts));
            lemma_pflatten_sum(ptrivial_all(ts));
            lemma_pall_trivial_not_sum(f);
        },
        Pat::Prod(ts) => {
            lemma_ptrivial_all_is_ptrivial(ts);
            let f = pflatten_prod(ptrivial_all(ts));
            lemma_pflatten_prod(ptrivial_all(ts));
            lemma_pall_trivial_not_prod(f);
        },
        Pat::Div(a, b) => {
            lemma_ptrivial_is_ptrivial(*a);
            lemma_ptrivial_is_ptrivial(*b);
        },
        _ => {},
    }
}

pub proof fn lemma_ptrivial_all_is_ptrivial(s: Seq<Pat>)
    ensures
        ptrivial_all(s).len() == s.len(),
        forall|i: int| 0 <= i < s.len() ==> #[trigger] ptrivial_all(s)[i] == ptrivial(s[i]),
        forall|i: int| 0 <= i < s.len() ==> is_ptrivial(#[trigger] ptrivial_all(s)[i]),
    decreases s,
{
    if s.len() > 0 {
        let p = s.subrange(0, s.len() - 1);
        lemma_ptrivial_all_is_ptrivial(p);
        lemma_ptrivial_is_ptrivial(s[s.len() - 1]);
        assert(forall|i: int| 0 <= i < p.len() ==> p[i] == s[i]);
    }
}

/// A pattern in light normal form is left as it is.
pub proof fn lemma_ptrivial_fixed(e: Pat)
    requires
        is_ptrivial(e),
    ensures
        ptrivial(e) == e,
    decreases e,
{
    match e {
        Pat::Sum(ts) => {
            lemma_pall_trivial_not_sum(ts);
            lemma_ptrivial_all_fixed(ts);
            lemma_pflatten_sum(ts);
        },
        Pat::Prod(ts) => {
            lemma_pall_trivial_not_prod(ts);
            lemma_ptrivial_all_fixed(ts);
            lemma_pflatten_prod(ts);
        },
        Pat::Div(a, b) => {
            lemma_ptrivial_fixed(*a);
            lemma_ptrivial_fixed(*b);
        },
        _ => {},
    }
}

pub proof fn lemma_ptrivial_all_fixed(s: Seq<Pat>)
    requires
        forall|i: int| 0 <= i < s.len() ==> is_ptrivial(#[trigger] s[i]),
    ensures
        ptrivial_all(s) == s,
    decreases s,
{
    if s.len() > 0 {
        let p = s.subrange(0, s.len() - 1);
        assert(forall|i: int| 0 <= i < p.len() ==> p[i] == s[i]);
        lemma_ptrivial_all_fixed(p);
        lemma_ptrivial_fixed(s[s.len() - 1]);
        assert(p.push(s[s.len() - 1]) =~= s);
    }
}

/// A sum of the patterns, or the pattern itself for one.
pub fn make_psum(mut ts: Vec<MPattern>) -> (r: MPattern)
    ensures
        r@ == psum_of(pviews(ts@)),
{
    proof { lemma_pviews(ts@); }
    if ts.len() == 1 {
        ts.pop().unwrap()
    } else {
        MPattern::Sum(ts)
    }
}

/// A product of the patterns, or the pattern itself for one.
pub fn make_pprod(mut ts: Vec<MPattern>) -> (r: MPattern)
    ensures
        r@ == pprod_of(pviews(ts@)),
{
    proof { lemma_pviews(ts@); }
    if ts.len() == 1 {
        ts.pop().unwrap()
    } else {
        MPattern::Prod(ts)
    }
}

/// The light normal forms of the operands, flattened into a sum's terms (`sum`) or a
/// product's factors.
fn ptrivial_operands(ts: &Vec<MPattern>, sum: bool) -> (r: Vec<MPattern>)
    ensures
        pviews(r@) == if sum {
            pflatten_sum(ptrivial_all(pviews(ts@)))
        } else {
            pflatten_prod(ptrivial_all(pviews(ts@)))
        },
    decreases ts,
{
    let ghost vs = pviews(ts@);
    proof { lemma_pviews(ts@); }
    let mut out: Vec<MPattern> = Vec::new();
    let mut i: usize = 0;
    while i < ts.len()
        invariant
            i <= ts@.len(),
            vs == pviews(ts@),
            vs.len() == ts@.len(),
            forall|j: int| 0 <= j < ts@.len() ==> #[trigger] vs[j] == ts@[j]@,
            pviews(out@) == if sum {
                pflatten_sum(ptrivial_all(vs.subrange(0, i as int)))
            } else {
                pflatten_prod(ptrivial_all(vs.subrange(0, i as int)))
            },
        decreases ts@.len() - i,
    {
        let c = ptrivial_ref(&ts[i]);
        let ghost pre = vs.subrange(0, i as int);
        let ghost next = vs.subrange(0, i as int + 1);
        proof {
            assert(next.subrange(0, i as int) =~= pre);
            lemma_ptrivial_all_is_ptrivial(pre);
            assert(ptrivial_all(next) == ptrivial_all(pre).push(c@));
            assert(ptrivial_all(next).subrange(0, i as int) =~= ptrivial_all(pre));
            assert(pflatten_sum(ptrivial_all(next)) == match c@ {
                Pat::Sum(us) => pflatten_sum(ptrivial_all(pre)) + us,
                t => pflatten_sum(ptrivial_all(pre)).push(t),
            });
            assert(pflatten_prod(ptrivial_all(next)) == match c@ {
                Pat::Prod(us) => pflatten_prod(ptrivial_all(pre)) + us,
                t => pflatten_prod(ptrivial_all(pre)).push(t),
            });
        }
        let ghost before = out@;
        match c {
            MPattern::Sum(mut us) if sum => {
                proof { lemma_pviews_concat(before, us@); }
                out.append(&mut us);
            },
            MPattern::Prod(mut us) if !sum => {
                proof { lemma_pviews_concat(before, us@); }
                out.append(&mut us);
            },
            other => {
                proof { lemma_pviews_push(before, other); }
                out.push(other);
            },
        }
        i = i + 1;
    }
    assert(vs.subrange(0, ts@.len() as int) =~= vs);
    out
}

fn ptrivial_ref(e: &MPattern) -> (r: MPattern)
    ensures
        r@ == ptrivial(e@),
    decreases e,
{
    match e {
        MPattern::Sum(ts) => make_psum(ptrivial_operands(ts, true)),
        MPattern::Prod(ts) => make_pprod(ptrivial_operands(ts, false)),
        MPattern::Div(a, b) => MPattern::Div(Box::new(ptrivial_ref(a)), Box::new(ptrivial_ref(b))),
        _ => e.clone(),
    }
}

impl MPattern {
    /// A light normalisation: nested sums and products are flattened and one of a single
    /// operand becomes that operand; quotients are normalised on both sides.
    pub fn trivial_reduce(self) -> (r: MPattern)
        ensures
            r@ == ptrivial(self@),
            is_ptrivial(r@),
    {
        proof { lemma_ptrivial_is_ptrivial(self@); }
        ptrivial_ref(&self)
    }
}

} // verus!

use vstd::prelude::*;
use crate::expr::{MExpr, Expr, views, lemma_views};
use crate::pattern::{MPattern, Pat, pviews, lemma_pviews};
use crate::equation::{MEquation, EPattern};
use crate::action::{Action, PatternAction};

verus! {

pub open spec fn upper_letters() -> Seq<char> {
    "ABCDEFGHIJKLMNOPQRSTUVWXYZ"@
}

pub open spec fn lower_letters() -> Seq<char> {
    "abcdefghijklmnopqrstuvwxyz"@
}

pub open spec fn decimal_digits() -> Seq<char> {
    "0123456789"@
}

/// The decimal digits of a natural number.
pub open spec fn digits(n: nat) -> Seq<char>
    decreases n,
{
    if n < 10 {
        decimal_digits().subrange(n as int, n as int + 1)
    } else {
        digits(n / 10) + decimal_digits().subrange((n % 10) as int, (n % 10) as int + 1)
    }
}

/// An integer in decimal, with a leading `-` when negative.
pub open spec fn int_text(x: int) -> Seq<char> {
    if x < 0 {
        "-"@ + digits((-x) as nat)
    } else {
        digits(x as nat)
    }
}

/// A constant's name: its upper-case letter, or its id in angle quotes past `Z`.
pub open spec fn const_text(id: u32) -> Seq<char> {
    if id < 26 {
        upper_letters().subrange(id as int, id + 1)
    } else {
        "‹"@ + digits(id as nat) + "›"@
    }
}

/// A variable's name: its lower-case letter, or its id in double angle quotes past `z`.
pub open spec fn var_text(id: u32) -> Seq<char> {
    if id < 26 {
        lower_letters().subrange(id as int, id + 1)
    } else {
        "«"@ + digits(id as nat) + "»"@
    }
}

fn digits_x(n: u64) -> (r: String)
    ensures
        r@ == digits(n as nat),
    decreases n,
{
    let d = "0123456789";
    proof {
        reveal_strlit("0123456789");
    }
    if n < 10 {
        String::from_str(d.substring_char(n as usize, n as usize + 1))
    } else {
        let mut s = digits_x(n / 10);
        let k = (n % 10) as usize;
        s.append(d.substring_char(k, k + 1));
        s
    }
}

fn int_text_x(x: i64) -> (r: String)
    ensures
        r@ == int_text(x as int),
{
    if x < 0 {
        let m = (-(x as i128)) as u64;
        let s = String::from_str("-");
        s.concat(digits_x(m).as_str())
    } else {
        digits_x(x as u64)
    }
}

/// The name of a constant (slot) with this id.
pub fn const_name(id: u32) -> (r: String)
    ensures
        r@ == const_text(id),
{
    let letters = "ABCDEFGHIJKLMNOPQRSTUVWXYZ";
    proof {
        reveal_strlit("ABCDEFGHIJKLMNOPQRSTUVWXYZ");
    }
    if id < 26 {
        String::from_str(letters.substring_char(id as usize, id as usize + 1))
    } else {
        let s = String::from_str("‹");
        s.concat(digits_x(id as u64).as_str()).concat("›")
    }
}

/// The name of a variable (slot) with this id.
pub fn var_name(id: u32) -> (r: String)
    ensures
        r@ == var_text(id),
{
    let letters = "abcdefghijklmnopqrstuvwxyz";
    proof {
        reveal_strlit("abcdefghijklmnopqrstuvwxyz");
    }
    if id < 26 {
        String::from_str(letters.substring_char(id as usize, id as usize + 1))
    } else {
        let s = String::from_str("«");
        s.concat(digits_x(id as u64).as_str()).concat("»")
    }
}


pub open spec fn paren(s: Seq<char>) -> Seq<char> {
    "("@ + s + ")"@
}

/// The text of an expression. Sums join their terms with ` + `, products their factors with
/// ` * `, quotients and powers their two sides with ` / ` and ` ^ `; an operand is put in
/// parentheses unless its kind ranks above the parent's.
pub open spec fn render(e: Expr) -> Seq<char>
    decreases e, 0int,
{
    match e {
        Expr::ConstVar(x) => const_text(x),
        Expr::ConstNum(x) => int_text(x as int),
        Expr::Var(x) => var_text(x),
        Expr::Sum(ts) => render_terms(ts),
        Expr::Prod(ts) => render_factors(ts),
        Expr::Div(a, b) => operand(*a, 2) + " / "@ + operand(*b, 2),
        Expr::Exp(a, b) => operand(*a, 3) + " ^ "@ + operand(*b, 3),
    }
}

/// An operand of a parent of the given rank, in parentheses unless its own rank is higher.
pub open spec fn operand(c: Expr, rank: u8) -> Seq<char>
    decreases c, 1int,
{
    if c.rank() <= rank {
        paren(render(c))
    } else {
        render(c)
    }
}

/// The terms joined with ` + `, each as an operand of a sum.
pub open spec fn render_terms(ts: Seq<Expr>) -> Seq<char>
    decreases ts, 0int,
{
    if ts.len() == 0 {
        Seq::empty()
    } else if ts.len() == 1 {
        operand(ts[0], 0)
    } else {
        render_terms(ts.subrange(0, ts.len() - 1)) + " + "@ + operand(ts[ts.len() - 1], 0)
    }
}

/// The factors joined with ` * `, each as an operand of a product.
pub open spec fn render_factors(ts: Seq<Expr>) -> Seq<char>
    decreases ts, 0int,
{
    if ts.len() == 0 {
        Seq::empty()
    } else if ts.len() == 1 {
        operand(ts[0], 1)
    } else {
        render_factors(ts.subrange(0, ts.len() - 1)) + " * "@ + operand(ts[ts.len() - 1], 1)
    }
}

/// The text of a pattern: slots by name, ` + ` between terms, each factor and each side of
/// a quotient in parentheses.
pub open spec fn render_pat(p: Pat) -> Seq<char>
    decreases p,
{
    match p {
        Pat::Const(x) => const_text(x),
        Pat::Var(x) => var_text(x),
        Pat::Sum(ts) => render_pterms(ts),
        Pat::Prod(ts) => render_pfactors(ts),
        Pat::Div(a, b) => paren(render_pat(*a)) + " / "@ + paren(render_pat(*b)),
    }
}

/// The pattern terms joined with ` + `.
pub open spec fn render_pterms(ts: Seq<Pat>) -> Seq<char>
    decreases ts,
{
    if ts.len() == 0 {
        Seq::empty()
    } else if ts.len() == 1 {
        render_pat(ts[0])
    } else {
        render_pterms(ts.subrange(0, ts.len() - 1)) + " + "@ + render_pat(ts[ts.len() - 1])
    }
}

/// The pattern factors joined with ` * `, each in parentheses.
pub open spec fn render_pfactors(ts: Seq<Pat>) -> Seq<char>
    decreases ts,
{
    if ts.len() == 0 {
        Seq::empty()
    } else if ts.len() == 1 {
        paren(render_pat(ts[0]))
    } else {
        render_pfactors(ts.subrange(0, ts.len() - 1)) + " * "@ + paren(render_pat(ts[ts.len() - 1]))
    }
}

/// The text of an action: its operator, then the slot's name.
pub open spec fn render_act(a: Action) -> Seq<char> {
    match a {
        Action::AddC(x) => "+"@ + const_text(x),
        Action::SubC(x) => "-"@ + const_text(x),
        Action::MulC(x) => "*"@ + const_text(x),
        Action::DivC(x) => "/"@ + const_text(x),
        Action::AddV(x) => "+"@ + var_text(x),
        Action::SubV(x) => "-"@ + var_text(x),
        Action::MulV(x) => "*"@ + var_text(x),
        Action::DivV(x) => "/"@ + var_text(x),
    }
}

fn wrap(s: String) -> (r: String)
    ensures
        r@ == paren(s@),
{
    String::from_str("(").concat(s.as_str()).concat(")")
}

fn operand_x(c: &MExpr, rank: u8) -> (r: String)
    ensures
        r@ == operand(c@, rank),
    decreases c, 1int,
{
    if c.ord_num() <= rank {
        wrap(render_x(c))
    } else {
        render_x(c)
    }
}

fn render_list_x(ts: &Vec<MExpr>, product: bool) -> (r: String)
    ensures
        r@ == if product {
            render_factors(views(ts@))
        } else {
            render_terms(views(ts@))
        },
    decreases ts, 0int,
{
    let ghost vs = views(ts@);
    proof {
        lemma_views(ts@);
        assert(vs.subrange(0, 0) =~= Seq::<Expr>::empty());
    }
    let mut out = String::new();
    let mut i: usize = 0;
    while i < ts.len()
        invariant
            i <= ts@.len(),
            vs == views(ts@),
            vs.len() == ts@.len(),
            forall|j: int| 0 <= j < ts@.len() ==> #[trigger] vs[j] == ts@[j]@,
            out@ == if product {
                render_factors(vs.subrange(0, i as int))
            } else {
                render_terms(vs.subrange(0, i as int))
            },
        decreases ts@.len() - i,
    {
        let piece = if product {
            operand_x(&ts[i], 1)
        } else {
            operand_x(&ts[i], 0)
        };
        proof {
            let next = vs.subrange(0, i as int + 1);
            assert(next.subrange(0, i as int) =~= vs.subrange(0, i as int));
        }
        if i == 0 {
            out = piece;
        } else {
            let sep = if product {
                " * "
            } else {
                " + "
            };
            out = out.concat(sep).concat(piece.as_str());
        }
        i = i + 1;
    }
    proof {
        assert(vs.subrange(0, ts@.len() as int) =~= vs);
    }
    out
}

fn render_x(e: &MExpr) -> (r: String)
    ensures
        r@ == render(e@),
    decreases e, 0int,
{
    match e {
        MExpr::ConstVar(x) => const_name(*x),
        MExpr::ConstNum(x) => int_text_x(*x),
        MExpr::Var(x) => var_name(*x),
        MExpr::Sum(ts) => render_list_x(ts, false),
        MExpr::Prod(ts) => render_list_x(ts, true),
        MExpr::Div(a, b) => operand_x(a, 2).concat(" / ").concat(operand_x(b, 2).as_str()),
        MExpr::Exp(a, b) => operand_x(a, 3).concat(" ^ ").concat(operand_x(b, 3).as_str()),
    }
}

fn render_plist_x(ts: &Vec<MPattern>, product: bool) -> (r: String)
    ensures
        r@ == if product {
            render_pfactors(pviews(ts@))
        } else {
            render_pterms(pviews(ts@))
        },
    decreases ts, 0int,
{
    let ghost vs = pviews(ts@);
    proof {
        lemma_pviews(ts@);
        assert(vs.subrange(0, 0) =~= Seq::<Pat>::empty());
    }
    let mut out = String::new();
    let mut i: usize = 0;
    while i < ts.len()
        invariant
            i <= ts@.len(),
            vs == pviews(ts@),
            vs.len() == ts@.len(),
            forall|j: int| 0 <= j < ts@.len() ==> #[trigger] vs[j] == ts@[j]@,
            out@ == if product {
                render_pfactors(vs.subrange(0, i as int))
            } else {
                render_pterms(vs.subrange(0, i as int))
            },
        decreases ts@.len() - i,
    {
        let piece = if product {
            wrap(render_pat_x(&ts[i]))
        } else {
            render_pat_x(&ts[i])
        };
        proof {
            let next = vs.subrange(0, i as int + 1);
            assert(next.subrange(0, i as int) =~= vs.subrange(0, i as int));
        }
        if i == 0 {
            out = piece;
        } else {
            let sep = if product {
                " * "
            } else {
                " + "
            };
            out = out.concat(sep).concat(piece.as_str());
        }
        i = i + 1;
    }
    proof {
        assert(vs.subrange(0, ts@.len() as int) =~= vs);
    }
    out
}

fn render_pat_x(p: &MPattern) -> (r: String)
    ensures
        r@ == render_pat(p@),
    decreases p, 1int,
{
    match p {
        MPattern::Const(x) => const_name(*x),
        MPattern::Var(x) => var_name(*x),
        MPattern::Sum(ts) => render_plist_x(ts, false),
        MPattern::Prod(ts) => render_plist_x(ts, true),
        MPattern::Div(a, b) => wrap(render_pat_x(a)).concat(" / ").concat(wrap(render_pat_x(b)).as_str()),
    }
}

impl MExpr {
    /// The expression as text (see `render`).
    pub fn to_text(&self) -> (r: String)
        ensures
            r@ == render(self@),
    {
        render_x(self)
    }
}

impl MPattern {
    /// The pattern as text (see `render_pat`).
    pub fn to_text(&self) -> (r: String)
        ensures
            r@ == render_pat(self@),
    {
        render_pat_x(self)
    }
}

impl MEquation {
    /// The two sides as text, joined by ` = `.
    pub fn to_text(&self) -> (r: String)
        ensures
            r@ == render(self@.0) + " = "@ + render(self@.1),
    {
        match self {
            MEquation::Equal(l, r) => render_x(l).concat(" = ").concat(render_x(r).as_str()),
        }
    }
}

impl EPattern {
    /// The two side patterns as text, joined by ` = `.
    pub fn to_text(&self) -> (r: String)
        ensures
            r@ == render_pat(self@.0) + " = "@ + render_pat(self@.1),
    {
        match self {
            EPattern::PEq(l, r) => render_pat_x(l).concat(" = ").concat(render_pat_x(r).as_str()),
        }
    }
}

impl Action {
    /// The action as text (see `render_act`).
    pub fn to_text(&self) -> (r: String)
        ensures
            r@ == render_act(*self),
    {
        let (op, name) = match *self {
            Action::AddC(x) => ("+", const_name(x)),
            Action::SubC(x) => ("-", const_name(x)),
            Action::MulC(x) => ("*", const_name(x)),
            Action::DivC(x) => ("/", const_name(x)),
            Action::AddV(x) => ("+", var_name(x)),
            Action::SubV(x) => ("-", var_name(x)),
            Action::MulV(x) => ("*", var_name(x)),
            Action::DivV(x) => ("/", var_name(x)),
        };
        String::from_str(op).concat(name.as_str())
    }
}

impl PatternAction {
    /// The pattern, then ` > `, then the action.
    pub fn to_text(&self) -> (r: String)
        ensures
            r@ == render_pat(self.pattern@.0) + " = "@ + render_pat(self.pattern@.1) + " > "@
                + render_act(self.action),
    {
        self.pattern.to_text().concat(" > ").concat(self.action.to_text().as_str())
    }
}

} // verus!

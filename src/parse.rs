use vstd::prelude::*;
use crate::expr::{MExpr, Expr};
use crate::pattern::{MPattern, Pat, pviews, lemma_pviews_push};
use crate::utils::{depth_after, lemma_depth_fails};
use crate::equation::{MEquation, EPattern};
use crate::action::{Action, PatternAction};

verus! {

/// A parse error: a message and the position of the fault counted from the end of the text.
pub type ParseErr = (Seq<char>, nat);

/// The value of an error as the parsers return it.
pub open spec fn err_of(e: (String, usize)) -> ParseErr {
    (e.0@, e.1 as nat)
}

pub open spec fn is_space(c: char) -> bool {
    c == ' ' || c == '\t' || c == '\n' || c == '\r'
}

/// The text without its leading white space.
pub open spec fn trim_start(s: Seq<char>) -> Seq<char>
    decreases s.len(),
{
    if s.len() > 0 && is_space(s[0]) {
        trim_start(s.subrange(1, s.len() as int))
    } else {
        s
    }
}

/// The text without its trailing white space.
pub open spec fn trim_end(s: Seq<char>) -> Seq<char>
    decreases s.len(),
{
    if s.len() > 0 && is_space(s[s.len() - 1]) {
        trim_end(s.subrange(0, s.len() - 1))
    } else {
        s
    }
}

/// The text without leading and trailing white space.
pub open spec fn trim(s: Seq<char>) -> Seq<char> {
    trim_end(trim_start(s))
}

/// A text that starts with `(`: `Ok(true)` when the parentheses are balanced and no character
/// stands outside them before the end; `Ok(false)` when one does; the error otherwise.
pub open spec fn paren_scan(t: Seq<char>, i: int, depth: nat) -> Result<bool, ParseErr>
    decreases t.len() - i,
{
    if i < 0 || i >= t.len() {
        if depth != 0 {
            Err(("Mismatched parethesis"@, 0))
        } else {
            Ok(true)
        }
    } else if t[i] == '(' {
        paren_scan(t, i + 1, depth + 1)
    } else if t[i] == ')' {
        if depth == 0 {
            Err(("No matching paren"@, (t.len() - i - 1) as nat))
        } else {
            paren_scan(t, i + 1, (depth - 1) as nat)
        }
    } else if depth == 0 {
        Ok(false)
    } else {
        paren_scan(t, i + 1, depth)
    }
}

/// The positions of the characters `a` or `b` outside every pair of parentheses, in order.
pub open spec fn pos_scan(s: Seq<char>, a: char, b: char) -> Seq<usize>
    decreases s.len(),
{
    if s.len() == 0 {
        Seq::empty()
    } else {
        let p = s.subrange(0, s.len() - 1);
        let c = s[s.len() - 1];
        if depth_after(p, '(', ')') == Some(0nat) && c != '(' && c != ')' && (c == a || c == b) {
            pos_scan(p, a, b).push((s.len() - 1) as usize)
        } else {
            pos_scan(p, a, b)
        }
    }
}

/// As `pos_scan`, but none at all where the parentheses do not match.
pub open spec fn positions(s: Seq<char>, a: char, b: char) -> Seq<usize> {
    if depth_after(s, '(', ')') is None {
        Seq::empty()
    } else {
        pos_scan(s, a, b)
    }
}

/// The positions other than the first character.
pub open spec fn nonzero(p: Seq<usize>) -> Seq<usize>
    decreases p.len(),
{
    if p.len() == 0 {
        Seq::empty()
    } else if p[p.len() - 1] == 0 {
        nonzero(p.subrange(0, p.len() - 1))
    } else {
        nonzero(p.subrange(0, p.len() - 1)).push(p[p.len() - 1])
    }
}

/// Where operand `k` starts, given the operator positions `b`: just after the previous
/// operator, or on it where that operator is a `-` that the operand keeps (`keep_minus`).
pub open spec fn operand_start(t: Seq<char>, b: Seq<usize>, k: int, keep_minus: bool) -> int {
    if k <= 0 {
        0
    } else if keep_minus && t[b[k - 1] as int] == '-' {
        b[k - 1] as int
    } else {
        b[k - 1] + 1
    }
}

/// The operand `k` lies within the text and is shorter than it.
pub open spec fn operand_ok(t: Seq<char>, b: Seq<usize>, k: int, keep_minus: bool) -> bool {
    let st = operand_start(t, b, k, keep_minus);
    &&& 0 <= k < b.len()
    &&& (k > 0 ==> b[k - 1] < t.len())
    &&& 0 <= st <= b[k] as int <= t.len()
    &&& (b[k] as int) - st < t.len()
}

/// The id of a constant slot or constant by its letter.
pub open spec fn pconst_id(c: char) -> u32 {
    (c as u32 - 'A' as u32) as u32
}

/// The id of a variable slot or variable by its letter.
pub open spec fn pvar_id(c: char) -> u32 {
    (c as u32 - 'a' as u32) as u32
}

pub open spec fn is_upper(c: char) -> bool {
    'A' <= c <= 'Z'
}

pub open spec fn is_lower(c: char) -> bool {
    'a' <= c <= 'z'
}

/// The pattern a text spells. Grammar, loosest binding first: operands separated by `+` or
/// `-` outside parentheses (a `-` stays with the operand after it), then by `*`, then one
/// `/` (the first); a single upper-case letter is a constant slot (`A` is 0), a single
/// lower-case letter a variable slot; parentheses group.
pub open spec fn parse_pat(s: Seq<char>) -> Result<Pat, ParseErr>
    decreases s.len() + 1, 0int,
{
    let t = trim(s);
    proof {
        lemma_trim_len(s);
    }
    let scan = paren_scan(t, 0, 0);
    if t.len() > 0 && t[0] == '(' && scan is Err {
        Err(scan->Err_0)
    } else if t.len() >= 2 && t[0] == '(' && scan == Ok::<bool, ParseErr>(true) {
        parse_pat(t.subrange(1, t.len() - 1))
    } else {
        let pl = nonzero(positions(t, '+', '-'));
        let tm = positions(t, '*', '*');
        let dv = positions(t, '/', '/');
        if pl.len() > 0 {
            match parse_pats(t, pl.push(t.len() as usize), pl.len() as int + 1, true) {
                Ok(ps) => Ok(Pat::Sum(ps)),
                Err(e) => Err(e),
            }
        } else if tm.len() > 0 {
            match parse_pats(t, tm.push(t.len() as usize), tm.len() as int + 1, false) {
                Ok(ps) => Ok(Pat::Prod(ps)),
                Err(e) => Err(e),
            }
        } else if dv.len() > 0 && dv[0] < t.len() {
            let d = dv[0] as int;
            match parse_pat(t.subrange(0, d)) {
                Err(e) => Err(e),
                Ok(n) => match parse_pat(t.subrange(d + 1, t.len() as int)) {
                    Err(e) => Err(e),
                    Ok(m) => Ok(Pat::Div(Box::new(n), Box::new(m))),
                },
            }
        } else if t.len() == 1 && is_upper(t[0]) {
            Ok(Pat::Const(pconst_id(t[0])))
        } else if t.len() == 1 && is_lower(t[0]) {
            Ok(Pat::Var(pvar_id(t[0])))
        } else {
            Err(("Unknown operator"@, t.len()))
        }
    }
}

/// The first `n` operands of `t` between the operator positions `b`, each parsed; the first
/// error where one fails.
pub open spec fn parse_pats(t: Seq<char>, b: Seq<usize>, n: int, keep_minus: bool) -> Result<Seq<Pat>, ParseErr>
    decreases t.len(), n,
{
    if n <= 0 {
        Ok(Seq::empty())
    } else {
        match parse_pats(t, b, n - 1, keep_minus) {
            Err(e) => Err(e),
            Ok(ps) => if operand_ok(t, b, n - 1, keep_minus) {
                match parse_pat(t.subrange(operand_start(t, b, n - 1, keep_minus), b[n - 1] as int)) {
                    Err(e) => Err(e),
                    Ok(p) => Ok(ps.push(p)),
                }
            } else {
                Err(("Unknown operator"@, t.len()))
            },
        }
    }
}

pub open spec fn is_digit(c: char) -> bool {
    '0' <= c <= '9'
}

pub open spec fn all_digits(d: Seq<char>) -> bool
    decreases d.len(),
{
    d.len() == 0 || (all_digits(d.subrange(0, d.len() - 1)) && is_digit(d[d.len() - 1]))
}

/// One more than the largest `i64`: decimal values are held up to it.
pub open spec fn num_limit() -> int {
    0x8000_0000_0000_0000
}

/// The value of a string of decimal digits, held at `num_limit()` once it gets there.
pub open spec fn digits_val(d: Seq<char>) -> int
    decreases d.len(),
{
    if d.len() == 0 {
        0
    } else {
        let v = 10 * digits_val(d.subrange(0, d.len() - 1)) + (d[d.len() - 1] as int - '0' as int);
        if v > num_limit() {
            num_limit()
        } else {
            v
        }
    }
}

/// A decimal integer, with an optional leading `+`, that fits in an `i64`.
pub open spec fn parse_num(t: Seq<char>) -> Option<i64> {
    let d = if t.len() > 0 && t[0] == '+' {
        t.subrange(1, t.len() as int)
    } else {
        t
    };
    if d.len() == 0 || !all_digits(d) || digits_val(d) > i64::MAX {
        None
    } else {
        Some(digits_val(d) as i64)
    }
}

/// The expression a text spells. Grammar as for patterns (see `parse_pat`), and besides: a
/// leading `-` negates (a product with -1), a single upper-case letter is a named constant,
/// a single lower-case letter a variable, a decimal number an integer constant.
pub open spec fn parse_ex(s: Seq<char>) -> Result<Expr, ParseErr>
    decreases s.len() + 1, 0int,
{
    let t = trim(s);
    proof {
        lemma_trim_len(s);
    }
    let scan = paren_scan(t, 0, 0);
    if t.len() > 0 && t[0] == '(' && scan is Err {
        Err(scan->Err_0)
    } else if t.len() >= 2 && t[0] == '(' && scan == Ok::<bool, ParseErr>(true) {
        parse_ex(t.subrange(1, t.len() - 1))
    } else {
        let pl = nonzero(positions(t, '+', '-'));
        let tm = positions(t, '*', '*');
        let dv = positions(t, '/', '/');
        if pl.len() > 0 {
            match parse_exs(t, pl.push(t.len() as usize), pl.len() as int + 1, true) {
                Ok(ps) => Ok(Expr::Sum(ps)),
                Err(e) => Err(e),
            }
        } else if tm.len() > 0 {
            match parse_exs(t, tm.push(t.len() as usize), tm.len() as int + 1, false) {
                Ok(ps) => Ok(Expr::Prod(ps)),
                Err(e) => Err(e),
            }
        } else if dv.len() > 0 && dv[0] < t.len() {
            let d = dv[0] as int;
            match parse_ex(t.subrange(0, d)) {
                Err(e) => Err(e),
                Ok(n) => match parse_ex(t.subrange(d + 1, t.len() as int)) {
                    Err(e) => Err(e),
                    Ok(m) => Ok(Expr::Div(Box::new(n), Box::new(m))),
                },
            }
        } else if t.len() > 0 && t[0] == '-' {
            match parse_ex(t.subrange(1, t.len() as int)) {
                Err(e) => Err(e),
                Ok(x) => Ok(Expr::Prod(seq![Expr::ConstNum(-1i64), x])),
            }
        } else if t.len() == 1 && is_upper(t[0]) {
            Ok(Expr::ConstVar(pconst_id(t[0])))
        } else if t.len() == 1 && is_lower(t[0]) {
            Ok(Expr::Var(pvar_id(t[0])))
        } else if parse_num(t) is Some {
            Ok(Expr::ConstNum(parse_num(t)->0))
        } else {
            Err(("Unknown operator"@, t.len()))
        }
    }
}

/// The first `n` operands of `t` between the operator positions `b`, each parsed; the first
/// error where one fails.
pub open spec fn parse_exs(t: Seq<char>, b: Seq<usize>, n: int, keep_minus: bool) -> Result<Seq<Expr>, ParseErr>
    decreases t.len(), n,
{
    if n <= 0 {
        Ok(Seq::empty())
    } else {
        match parse_exs(t, b, n - 1, keep_minus) {
            Err(e) => Err(e),
            Ok(ps) => if operand_ok(t, b, n - 1, keep_minus) {
                match parse_ex(t.subrange(operand_start(t, b, n - 1, keep_minus), b[n - 1] as int)) {
                    Err(e) => Err(e),
                    Ok(p) => Ok(ps.push(p)),
                }
            } else {
                Err(("Unknown operator"@, t.len()))
            },
        }
    }
}

pub proof fn lemma_trim_start_len(s: Seq<char>)
    ensures
        trim_start(s).len() <= s.len(),
    decreases s.len(),
{
    if s.len() > 0 && is_space(s[0]) {
        lemma_trim_start_len(s.subrange(1, s.len() as int));
    }
}

pub proof fn lemma_trim_end_len(s: Seq<char>)
    ensures
        trim_end(s).len() <= s.len(),
    decreases s.len(),
{
    if s.len() > 0 && is_space(s[s.len() - 1]) {
        lemma_trim_end_len(s.subrange(0, s.len() - 1));
    }
}

pub proof fn lemma_trim_len(s: Seq<char>)
    ensures
        trim(s).len() <= s.len(),
{
    lemma_trim_start_len(s);
    lemma_trim_end_len(trim_start(s));
}


fn is_space_x(c: char) -> (r: bool)
    ensures
        r == is_space(c),
{
    c == ' ' || c == '\t' || c == '\n' || c == '\r'
}

/// The text without leading and trailing white space.
pub fn trim_x(s: &str) -> (r: &str)
    ensures
        r@ == trim(s@),
{
    let n = s.unicode_len();
    let mut lo: usize = 0;
    assert(s@.subrange(0, n as int) =~= s@);
    while lo < n && is_space_x(s.get_char(lo))
        invariant
            n == s@.len(),
            lo <= n,
            trim_start(s@) == trim_start(s@.subrange(lo as int, n as int)),
        decreases n - lo,
    {
        proof {
            let sub = s@.subrange(lo as int, n as int);
            assert(sub.subrange(1, sub.len() as int) =~= s@.subrange(lo + 1, n as int));
        }
        lo = lo + 1;
    }
    proof {
        let sub = s@.subrange(lo as int, n as int);
        assert(trim_start(sub) == sub);
    }
    let mut hi: usize = n;
    while hi > lo && is_space_x(s.get_char(hi - 1))
        invariant
            n == s@.len(),
            lo <= hi <= n,
            trim(s@) == trim_end(s@.subrange(lo as int, hi as int)),
        decreases hi,
    {
        proof {
            let sub = s@.subrange(lo as int, hi as int);
            assert(sub.subrange(0, sub.len() - 1) =~= s@.subrange(lo as int, hi - 1));
        }
        hi = hi - 1;
    }
    proof {
        let sub = s@.subrange(lo as int, hi as int);
        assert(trim_end(sub) == sub);
    }
    s.substring_char(lo, hi)
}

fn paren_scan_x(t: &str) -> (r: Result<bool, (String, usize)>)
    ensures
        match r {
            Ok(b) => paren_scan(t@, 0, 0) == Ok::<bool, ParseErr>(b),
            Err(e) => paren_scan(t@, 0, 0) == Err::<bool, ParseErr>(err_of(e)),
        },
{
    let n = t.unicode_len();
    let mut depth: usize = 0;
    let mut i: usize = 0;
    while i < n
        invariant
            n == t@.len(),
            i <= n,
            depth <= i,
            paren_scan(t@, 0, 0) == paren_scan(t@, i as int, depth as nat),
        decreases n - i,
    {
        let ch = t.get_char(i);
        if ch == '(' {
            depth = depth + 1;
        } else if ch == ')' {
            if depth == 0 {
                return Err(("No matching paren".to_owned(), n - i - 1));
            }
            depth = depth - 1;
        } else if depth == 0 {
            return Ok(false);
        }
        i = i + 1;
    }
    if depth != 0 {
        Err(("Mismatched parethesis".to_owned(), 0))
    } else {
        Ok(true)
    }
}

fn positions_x(t: &str, a: char, b: char) -> (r: Vec<usize>)
    ensures
        r@ == positions(t@, a, b),
{
    let n = t.unicode_len();
    let mut depth: usize = 0;
    let mut res: Vec<usize> = Vec::new();
    let mut i: usize = 0;
    while i < n
        invariant
            n == t@.len(),
            i <= n,
            depth <= i,
            depth_after(t@.subrange(0, i as int), '(', ')') == Some(depth as nat),
            res@ == pos_scan(t@.subrange(0, i as int), a, b),
        decreases n - i,
    {
        let ch = t.get_char(i);
        let ghost pre = t@.subrange(0, i as int);
        proof {
            let next = t@.subrange(0, i as int + 1);
            assert(next.subrange(0, i as int) =~= pre);
        }
        if depth == 0 && ch != '(' && ch != ')' && (ch == a || ch == b) {
            res.push(i);
        }
        if ch == '(' {
            depth = depth + 1;
        } else if ch == ')' {
            if depth == 0 {
                proof {
                    lemma_depth_fails(t@, i as int + 1, '(', ')');
                }
                return Vec::new();
            }
            depth = depth - 1;
        }
        i = i + 1;
    }
    proof {
        assert(t@.subrange(0, n as int) =~= t@);
    }
    res
}

fn nonzero_x(p: &Vec<usize>) -> (r: Vec<usize>)
    ensures
        r@ == nonzero(p@),
{
    let mut res: Vec<usize> = Vec::new();
    let mut i: usize = 0;
    while i < p.len()
        invariant
            i <= p@.len(),
            res@ == nonzero(p@.subrange(0, i as int)),
        decreases p@.len() - i,
    {
        proof {
            let next = p@.subrange(0, i as int + 1);
            assert(next.subrange(0, i as int) =~= p@.subrange(0, i as int));
        }
        if p[i] != 0 {
            res.push(p[i]);
        }
        i = i + 1;
    }
    proof {
        assert(p@.subrange(0, p@.len() as int) =~= p@);
    }
    res
}

fn operand_start_x(t: &str, b: &Vec<usize>, k: usize, keep_minus: bool) -> (r: usize)
    requires
        k < b@.len(),
        k > 0 ==> b@[k - 1] < t@.len(),
        forall|j: int| 0 <= j < b@.len() ==> #[trigger] b@[j] <= t@.len(),
    ensures
        r as int == operand_start(t@, b@, k as int, keep_minus),
{
    let _len = t.unicode_len();
    if k == 0 {
        0
    } else if keep_minus && t.get_char(b[k - 1]) == '-' {
        b[k - 1]
    } else {
        b[k - 1] + 1
    }
}

pub open spec fn pat_result(r: Result<MPattern, (String, usize)>) -> Result<Pat, ParseErr> {
    match r {
        Ok(p) => Ok(p@),
        Err(e) => Err(err_of(e)),
    }
}

pub open spec fn pats_result(r: Result<Vec<MPattern>, (String, usize)>) -> Result<Seq<Pat>, ParseErr> {
    match r {
        Ok(p) => Ok(pviews(p@)),
        Err(e) => Err(err_of(e)),
    }
}

pub open spec fn ex_result(r: Result<MExpr, (String, usize)>) -> Result<Expr, ParseErr> {
    match r {
        Ok(p) => Ok(p@),
        Err(e) => Err(err_of(e)),
    }
}

pub open spec fn exs_result(r: Result<Vec<MExpr>, (String, usize)>) -> Result<Seq<Expr>, ParseErr> {
    match r {
        Ok(p) => Ok(crate::expr::views(p@)),
        Err(e) => Err(err_of(e)),
    }
}

proof fn lemma_positions_bound(s: Seq<char>, a: char, b: char)
    ensures
        forall|j: int| 0 <= j < positions(s, a, b).len() ==> #[trigger] positions(s, a, b)[j] < s.len(),
    decreases s.len(),
{
    if depth_after(s, '(', ')') is Some {
        lemma_pos_scan_bound(s, a, b);
    }
}

proof fn lemma_pos_scan_bound(s: Seq<char>, a: char, b: char)
    ensures
        forall|j: int| 0 <= j < pos_scan(s, a, b).len() ==> #[trigger] pos_scan(s, a, b)[j] < s.len(),
    decreases s.len(),
{
    if s.len() > 0 {
        let p = s.subrange(0, s.len() - 1);
        lemma_pos_scan_bound(p, a, b);
        let q = pos_scan(p, a, b);
        assert(forall|j: int| 0 <= j < q.len() ==> #[trigger] q[j] < p.len());
    }
}

proof fn lemma_nonzero_bound(p: Seq<usize>, n: nat)
    requires
        forall|j: int| 0 <= j < p.len() ==> #[trigger] p[j] < n,
    ensures
        forall|j: int| 0 <= j < nonzero(p).len() ==> #[trigger] nonzero(p)[j] < n,
    decreases p.len(),
{
    if p.len() > 0 {
        let q = p.subrange(0, p.len() - 1);
        assert(forall|j: int| 0 <= j < q.len() ==> q[j] == p[j]);
        lemma_nonzero_bound(q, n);
        let r = nonzero(q);
        assert(forall|j: int| 0 <= j < r.len() ==> #[trigger] r[j] < n);
        assert(p[p.len() - 1] < n);
    }
}

fn parse_pattern_x(s: &str) -> (r: Result<MPattern, (String, usize)>)
    ensures
        pat_result(r) == parse_pat(s@),
    decreases s@.len() + 1, 0int,
{
    let t = trim_x(s);
    proof {
        lemma_trim_len(s@);
    }
    let n = t.unicode_len();
    if n > 0 && t.get_char(0) == '(' {
        match paren_scan_x(t) {
            Err(e) => {
                return Err(e);
            },
            Ok(true) => {
                if n >= 2 {
                    let inner = t.substring_char(1, n - 1);
                    return parse_pattern_x(inner);
                }
            },
            Ok(false) => {},
        }
    }
    let pl = nonzero_x(&positions_x(t, '+', '-'));
    let tm = positions_x(t, '*', '*');
    let dv = positions_x(t, '/', '/');
    proof {
        lemma_positions_bound(t@, '+', '-');
        lemma_nonzero_bound(positions(t@, '+', '-'), t@.len());
        lemma_positions_bound(t@, '*', '*');
        lemma_positions_bound(t@, '/', '/');
    }
    if pl.len() > 0 {
        let mut b = pl;
        b.push(n);
        match parse_patterns_x(t, &b, true) {
            Ok(ps) => Ok(MPattern::Sum(ps)),
            Err(e) => Err(e),
        }
    } else if tm.len() > 0 {
        let mut b = tm;
        b.push(n);
        match parse_patterns_x(t, &b, false) {
            Ok(ps) => Ok(MPattern::Prod(ps)),
            Err(e) => Err(e),
        }
    } else if dv.len() > 0 && dv[0] < n {
        let d = dv[0];
        let left = t.substring_char(0, d);
        let right = t.substring_char(d + 1, n);
        match parse_pattern_x(left) {
            Err(e) => Err(e),
            Ok(num) => match parse_pattern_x(right) {
                Err(e) => Err(e),
                Ok(den) => Ok(MPattern::Div(Box::new(num), Box::new(den))),
            },
        }
    } else if n == 1 && 'A' <= t.get_char(0) && t.get_char(0) <= 'Z' {
        Ok(MPattern::Const((t.get_char(0) as u32) - ('A' as u32)))
    } else if n == 1 && 'a' <= t.get_char(0) && t.get_char(0) <= 'z' {
        Ok(MPattern::Var((t.get_char(0) as u32) - ('a' as u32)))
    } else {
        Err(("Unknown operator".to_owned(), n))
    }
}

fn parse_patterns_x(t: &str, b: &Vec<usize>, keep_minus: bool) -> (r: Result<Vec<MPattern>, (String, usize)>)
    requires
        forall|j: int| 0 <= j < b@.len() ==> #[trigger] b@[j] <= t@.len(),
    ensures
        pats_result(r) == parse_pats(t@, b@, b@.len() as int, keep_minus),
    decreases t@.len(), 1int,
{
    let mut out: Vec<MPattern> = Vec::new();
    let mut k: usize = 0;
    proof {
        assert(pviews(out@) =~= Seq::<Pat>::empty());
    }
    while k < b.len()
        invariant
            k <= b@.len(),
            forall|j: int| 0 <= j < b@.len() ==> #[trigger] b@[j] <= t@.len(),
            parse_pats(t@, b@, k as int, keep_minus) == Ok::<Seq<Pat>, ParseErr>(pviews(out@)),
        decreases b@.len() - k,
    {
        if !(k == 0 || b[k - 1] < t.unicode_len()) {
            proof {
                lemma_parse_pats_stop(t@, b@, k as int + 1, keep_minus);
            }
            return Err(("Unknown operator".to_owned(), t.unicode_len()));
        }
        let st = operand_start_x(t, b, k, keep_minus);
        if !(st <= b[k] && b[k] - st < t.unicode_len()) {
            proof {
                lemma_parse_pats_stop(t@, b@, k as int + 1, keep_minus);
            }
            return Err(("Unknown operator".to_owned(), t.unicode_len()));
        }
        let piece = t.substring_char(st, b[k]);
        match parse_pattern_x(piece) {
            Err(e) => {
                proof {
                    lemma_parse_pats_stop(t@, b@, k as int + 1, keep_minus);
                }
                return Err(e);
            },
            Ok(p) => {
                proof {
                    lemma_pviews_push(out@, p);
                }
                out.push(p);
            },
        }
        k = k + 1;
    }
    Ok(out)
}

/// Once an operand fails, so do all longer lists of operands.
proof fn lemma_parse_pats_stop(t: Seq<char>, b: Seq<usize>, n: int, keep_minus: bool)
    requires
        0 < n <= b.len(),
        parse_pats(t, b, n, keep_minus) is Err,
    ensures
        parse_pats(t, b, b.len() as int, keep_minus) == parse_pats(t, b, n, keep_minus),
    decreases b.len() - n,
{
    if n < b.len() {
        assert(parse_pats(t, b, n + 1, keep_minus) == parse_pats(t, b, n, keep_minus));
        lemma_parse_pats_stop(t, b, n + 1, keep_minus);
    }
}

fn parse_expr_x(s: &str) -> (r: Result<MExpr, (String, usize)>)
    ensures
        ex_result(r) == parse_ex(s@),
    decreases s@.len() + 1, 0int,
{
    let t = trim_x(s);
    proof {
        lemma_trim_len(s@);
    }
    let n = t.unicode_len();
    if n > 0 && t.get_char(0) == '(' {
        match paren_scan_x(t) {
            Err(e) => {
                return Err(e);
            },
            Ok(true) => {
                if n >= 2 {
                    let inner = t.substring_char(1, n - 1);
                    return parse_expr_x(inner);
                }
            },
            Ok(false) => {},
        }
    }
    let pl = nonzero_x(&positions_x(t, '+', '-'));
    let tm = positions_x(t, '*', '*');
    let dv = positions_x(t, '/', '/');
    proof {
        lemma_positions_bound(t@, '+', '-');
        lemma_nonzero_bound(positions(t@, '+', '-'), t@.len());
        lemma_positions_bound(t@, '*', '*');
        lemma_positions_bound(t@, '/', '/');
    }
    if pl.len() > 0 {
        let mut b = pl;
        b.push(n);
        match parse_exprs_x(t, &b, true) {
            Ok(ps) => Ok(MExpr::Sum(ps)),
            Err(e) => Err(e),
        }
    } else if tm.len() > 0 {
        let mut b = tm;
        b.push(n);
        match parse_exprs_x(t, &b, false) {
            Ok(ps) => Ok(MExpr::Prod(ps)),
            Err(e) => Err(e),
        }
    } else if dv.len() > 0 && dv[0] < n {
        let d = dv[0];
        let left = t.substring_char(0, d);
        let right = t.substring_char(d + 1, n);
        match parse_expr_x(left) {
            Err(e) => Err(e),
            Ok(num) => match parse_expr_x(right) {
                Err(e) => Err(e),
                Ok(den) => Ok(MExpr::Div(Box::new(num), Box::new(den))),
            },
        }
    } else if n > 0 && t.get_char(0) == '-' {
        let rest = t.substring_char(1, n);
        match parse_expr_x(rest) {
            Err(e) => Err(e),
            Ok(x) => {
                let ghost gx = x;
                let v = vec![MExpr::ConstNum(-1), x];
                proof {
                    crate::expr::lemma_views(v@);
                    assert(crate::expr::views(v@) =~= seq![Expr::ConstNum(-1i64), gx@]);
                }
                Ok(MExpr::Prod(v))
            },
        }
    } else if n == 1 && 'A' <= t.get_char(0) && t.get_char(0) <= 'Z' {
        Ok(MExpr::ConstVar((t.get_char(0) as u32) - ('A' as u32)))
    } else if n == 1 && 'a' <= t.get_char(0) && t.get_char(0) <= 'z' {
        Ok(MExpr::Var((t.get_char(0) as u32) - ('a' as u32)))
    } else {
        match parse_num_x(t) {
            Some(v) => Ok(MExpr::ConstNum(v)),
            None => Err(("Unknown operator".to_owned(), n)),
        }
    }
}

fn parse_exprs_x(t: &str, b: &Vec<usize>, keep_minus: bool) -> (r: Result<Vec<MExpr>, (String, usize)>)
    requires
        forall|j: int| 0 <= j < b@.len() ==> #[trigger] b@[j] <= t@.len(),
    ensures
        exs_result(r) == parse_exs(t@, b@, b@.len() as int, keep_minus),
    decreases t@.len(), 1int,
{
    let mut out: Vec<MExpr> = Vec::new();
    let mut k: usize = 0;
    proof {
        assert(crate::expr::views(out@) =~= Seq::<Expr>::empty());
    }
    while k < b.len()
        invariant
            k <= b@.len(),
            forall|j: int| 0 <= j < b@.len() ==> #[trigger] b@[j] <= t@.len(),
            parse_exs(t@, b@, k as int, keep_minus) == Ok::<Seq<Expr>, ParseErr>(crate::expr::views(out@)),
        decreases b@.len() - k,
    {
        if !(k == 0 || b[k - 1] < t.unicode_len()) {
            proof {
                lemma_parse_exs_stop(t@, b@, k as int + 1, keep_minus);
            }
            return Err(("Unknown operator".to_owned(), t.unicode_len()));
        }
        let st = operand_start_x(t, b, k, keep_minus);
        if !(st <= b[k] && b[k] - st < t.unicode_len()) {
            proof {
                lemma_parse_exs_stop(t@, b@, k as int + 1, keep_minus);
            }
            return Err(("Unknown operator".to_owned(), t.unicode_len()));
        }
        let piece = t.substring_char(st, b[k]);
        match parse_expr_x(piece) {
            Err(e) => {
                proof {
                    lemma_parse_exs_stop(t@, b@, k as int + 1, keep_minus);
                }
                return Err(e);
            },
            Ok(p) => {
                proof {
                    crate::expr::lemma_views_push(out@, p);
                }
                out.push(p);
            },
        }
        k = k + 1;
    }
    Ok(out)
}

/// Once an operand fails, so do all longer lists of operands.
proof fn lemma_parse_exs_stop(t: Seq<char>, b: Seq<usize>, n: int, keep_minus: bool)
    requires
        0 < n <= b.len(),
        parse_exs(t, b, n, keep_minus) is Err,
    ensures
        parse_exs(t, b, b.len() as int, keep_minus) == parse_exs(t, b, n, keep_minus),
    decreases b.len() - n,
{
    if n < b.len() {
        assert(parse_exs(t, b, n + 1, keep_minus) == parse_exs(t, b, n, keep_minus));
        lemma_parse_exs_stop(t, b, n + 1, keep_minus);
    }
}

fn parse_num_x(t: &str) -> (r: Option<i64>)
    ensures
        match r {
            Some(v) => parse_num(t@) == Some(v),
            None => parse_num(t@) is None,
        },
{
    let n = t.unicode_len();
    let start: usize = if n > 0 && t.get_char(0) == '+' {
        1
    } else {
        0
    };
    let ghost d = t@.subrange(start as int, n as int);
    proof {
        if start == 0 {
            assert(d =~= t@);
        }
    }
    if start >= n {
        return None;
    }
    let mut v: u128 = 0;
    let mut i: usize = start;
    while i < n
        invariant
            n == t@.len(),
            start <= i <= n,
            start <= 1,
            (start == 1) == (t@.len() > 0 && t@[0] == '+'),
            d == t@.subrange(start as int, n as int),
            all_digits(d.subrange(0, i - start)),
            v as int == digits_val(d.subrange(0, i - start)),
            0 <= v <= num_limit(),
        decreases n - i,
    {
        let c = t.get_char(i);
        proof {
            let next = d.subrange(0, i - start + 1);
            assert(next.subrange(0, i - start) =~= d.subrange(0, i - start));
        }
        if !('0' <= c && c <= '9') {
            proof {
                let next = d.subrange(0, i - start + 1);
                assert(next[next.len() - 1] == c);
                assert(!all_digits(next));
                lemma_digits_stop(d, i - start + 1);
                if start == 0 {
                    assert(d =~= t@);
                }
            }
            return None;
        }
        let w = 10 * v + ((c as u32 - '0' as u32) as u128);
        v = if w > 0x8000_0000_0000_0000 {
            0x8000_0000_0000_0000
        } else {
            w
        };
        i = i + 1;
    }
    proof {
        assert(d.subrange(0, n - start) =~= d);
    }
    if v > 0x7fff_ffff_ffff_ffff {
        None
    } else {
        Some(v as i64)
    }
}

/// A string with a non-digit somewhere is not all digits.
proof fn lemma_digits_stop(d: Seq<char>, k: int)
    requires
        0 < k <= d.len(),
        !all_digits(d.subrange(0, k)),
    ensures
        !all_digits(d),
    decreases d.len() - k,
{
    if k < d.len() {
        let next = d.subrange(0, k + 1);
        assert(next.subrange(0, k) =~= d.subrange(0, k));
        lemma_digits_stop(d, k + 1);
    } else {
        assert(d.subrange(0, k) =~= d);
    }
}


/// An equation: two expressions on either side of the one `=` outside parentheses.
pub open spec fn parse_eq(s: Seq<char>) -> Result<(Expr, Expr), ParseErr> {
    let e = positions(s, '=', '=');
    if e.len() == 1 && e[0] < s.len() {
        match parse_ex(s.subrange(0, e[0] as int)) {
            Err(x) => Err(x),
            Ok(l) => match parse_ex(s.subrange(e[0] + 1, s.len() as int)) {
                Err(x) => Err(x),
                Ok(r) => Ok((l, r)),
            },
        }
    } else {
        Err(("No '=' sign"@, 0))
    }
}

/// An equation pattern: two patterns on either side of the one `=` outside parentheses.
pub open spec fn parse_epat(s: Seq<char>) -> Result<(Pat, Pat), ParseErr> {
    let t = trim(s);
    let e = positions(t, '=', '=');
    if e.len() == 1 && e[0] < t.len() {
        match parse_pat(t.subrange(0, e[0] as int)) {
            Err(x) => Err(x),
            Ok(l) => match parse_pat(t.subrange(e[0] + 1, t.len() as int)) {
                Err(x) => Err(x),
                Ok(r) => Ok((l, r)),
            },
        }
    } else {
        Err(("No '=' sign"@, 0))
    }
}

/// An action: one of `+ - * /` followed by one slot letter.
pub open spec fn parse_act(s: Seq<char>) -> Result<Action, ParseErr> {
    let t = trim(s);
    if t.len() == 2 {
        match parse_pat(t.subrange(1, 2)) {
            Err(x) => Err(x),
            Ok(Pat::Const(n)) => if t[0] == '+' {
                Ok(Action::AddC(n))
            } else if t[0] == '-' {
                Ok(Action::SubC(n))
            } else if t[0] == '*' {
                Ok(Action::MulC(n))
            } else if t[0] == '/' {
                Ok(Action::DivC(n))
            } else {
                Err(("Couldn't read!"@, 0))
            },
            Ok(Pat::Var(n)) => if t[0] == '+' {
                Ok(Action::AddV(n))
            } else if t[0] == '-' {
                Ok(Action::SubV(n))
            } else if t[0] == '*' {
                Ok(Action::MulV(n))
            } else if t[0] == '/' {
                Ok(Action::DivV(n))
            } else {
                Err(("Couldn't read!"@, 0))
            },
            _ => Err(("Couldn't read!"@, 0)),
        }
    } else {
        Err(("Couldn't read!"@, 0))
    }
}

/// A pattern action: an equation pattern, then `>` (the first outside parentheses), then an
/// action.
pub open spec fn parse_patact(s: Seq<char>) -> Result<((Pat, Pat), Action), ParseErr> {
    let t = trim(s);
    let g = positions(t, '>', '>');
    if g.len() > 0 && g[0] < t.len() {
        match parse_epat(t.subrange(0, g[0] as int)) {
            Err(x) => Err(x),
            Ok(p) => match parse_act(t.subrange(g[0] + 1, t.len() as int)) {
                Err(x) => Err(x),
                Ok(a) => Ok((p, a)),
            },
        }
    } else {
        Err(("No '>' sign"@, 0))
    }
}

/// Reads an expression (see `parse_ex`).
pub fn parse_expression(s: &str) -> (r: Result<MExpr, (String, usize)>)
    ensures
        ex_result(r) == parse_ex(s@),
{
    parse_expr_x(s)
}

/// Reads a pattern (see `parse_pat`).
pub fn parse_pattern(s: &str) -> (r: Result<MPattern, (String, usize)>)
    ensures
        pat_result(r) == parse_pat(s@),
{
    parse_pattern_x(s)
}

/// Reads an equation (see `parse_eq`).
pub fn parse_equation(s: &str) -> (r: Result<MEquation, (String, usize)>)
    ensures
        match r {
            Ok(e) => parse_eq(s@) == Ok::<(Expr, Expr), ParseErr>(e@),
            Err(x) => parse_eq(s@) == Err::<(Expr, Expr), ParseErr>(err_of(x)),
        },
{
    let e = positions_x(s, '=', '=');
    proof {
        lemma_positions_bound(s@, '=', '=');
    }
    let n = s.unicode_len();
    if e.len() == 1 && e[0] < n {
        let l = match parse_expr_x(s.substring_char(0, e[0])) {
            Err(x) => {
                return Err(x);
            },
            Ok(l) => l,
        };
        let r = match parse_expr_x(s.substring_char(e[0] + 1, n)) {
            Err(x) => {
                return Err(x);
            },
            Ok(r) => r,
        };
        Ok(MEquation::Equal(l, r))
    } else {
        Err(("No '=' sign".to_owned(), 0))
    }
}

/// Reads an equation pattern (see `parse_epat`).
pub fn parse_equation_pattern(s: &str) -> (r: Result<EPattern, (String, usize)>)
    ensures
        match r {
            Ok(e) => parse_epat(s@) == Ok::<(Pat, Pat), ParseErr>(e@),
            Err(x) => parse_epat(s@) == Err::<(Pat, Pat), ParseErr>(err_of(x)),
        },
{
    let t = trim_x(s);
    let e = positions_x(t, '=', '=');
    proof {
        lemma_positions_bound(t@, '=', '=');
    }
    let n = t.unicode_len();
    if e.len() == 1 && e[0] < n {
        let l = match parse_pattern_x(t.substring_char(0, e[0])) {
            Err(x) => {
                return Err(x);
            },
            Ok(l) => l,
        };
        let r = match parse_pattern_x(t.substring_char(e[0] + 1, n)) {
            Err(x) => {
                return Err(x);
            },
            Ok(r) => r,
        };
        Ok(EPattern::PEq(l, r))
    } else {
        Err(("No '=' sign".to_owned(), 0))
    }
}

/// Reads an action (see `parse_act`).
pub fn parse_action(s: &str) -> (r: Result<Action, (String, usize)>)
    ensures
        match r {
            Ok(a) => parse_act(s@) == Ok::<Action, ParseErr>(a),
            Err(x) => parse_act(s@) == Err::<Action, ParseErr>(err_of(x)),
        },
{
    let t = trim_x(s);
    if t.unicode_len() != 2 {
        return Err(("Couldn't read!".to_owned(), 0));
    }
    let op = t.get_char(0);
    match parse_pattern_x(t.substring_char(1, 2)) {
        Err(x) => Err(x),
        Ok(MPattern::Const(n)) => if op == '+' {
            Ok(Action::AddC(n))
        } else if op == '-' {
            Ok(Action::SubC(n))
        } else if op == '*' {
            Ok(Action::MulC(n))
        } else if op == '/' {
            Ok(Action::DivC(n))
        } else {
            Err(("Couldn't read!".to_owned(), 0))
        },
        Ok(MPattern::Var(n)) => if op == '+' {
            Ok(Action::AddV(n))
        } else if op == '-' {
            Ok(Action::SubV(n))
        } else if op == '*' {
            Ok(Action::MulV(n))
        } else if op == '/' {
            Ok(Action::DivV(n))
        } else {
            Err(("Couldn't read!".to_owned(), 0))
        },
        _ => Err(("Couldn't read!".to_owned(), 0)),
    }
}

/// Reads a pattern action (see `parse_patact`).
pub fn parse_pattern_action(s: &str) -> (r: Result<PatternAction, (String, usize)>)
    ensures
        match r {
            Ok(a) => parse_patact(s@) == Ok::<((Pat, Pat), Action), ParseErr>((a.pattern@, a.action)),
            Err(x) => parse_patact(s@) == Err::<((Pat, Pat), Action), ParseErr>(err_of(x)),
        },
{
    let t = trim_x(s);
    let g = positions_x(t, '>', '>');
    proof {
        lemma_positions_bound(t@, '>', '>');
    }
    let n = t.unicode_len();
    if g.len() > 0 && g[0] < n {
        let pattern = match parse_equation_pattern(t.substring_char(0, g[0])) {
            Err(x) => {
                return Err(x);
            },
            Ok(p) => p,
        };
        let action = match parse_action(t.substring_char(g[0] + 1, n)) {
            Err(x) => {
                return Err(x);
            },
            Ok(a) => a,
        };
        Ok(PatternAction { pattern, action })
    } else {
        Err(("No '>' sign".to_owned(), 0))
    }
}

impl std::str::FromStr for MExpr {
    type Err = (String, usize);

    fn from_str(s: &str) -> Result<MExpr, (String, usize)> {
        parse_expression(s)
    }
}

impl std::str::FromStr for MPattern {
    type Err = (String, usize);

    fn from_str(s: &str) -> Result<MPattern, (String, usize)> {
        parse_pattern(s)
    }
}

impl std::str::FromStr for MEquation {
    type Err = (String, usize);

    fn from_str(s: &str) -> Result<MEquation, (String, usize)> {
        parse_equation(s)
    }
}

impl std::str::FromStr for EPattern {
    type Err = (String, usize);

    fn from_str(s: &str) -> Result<EPattern, (String, usize)> {
        parse_equation_pattern(s)
    }
}

impl std::str::FromStr for Action {
    type Err = (String, usize);

    fn from_str(s: &str) -> Result<Action, (String, usize)> {
        parse_action(s)
    }
}

impl std::str::FromStr for PatternAction {
    type Err = (String, usize);

    fn from_str(s: &str) -> Result<PatternAction, (String, usize)> {
        parse_pattern_action(s)
    }
}

} // verus!

use std::cmp::Ordering;
use algebra_solver::action::{Action, PatternAction};
use algebra_solver::equation::{EPattern, MEquation};
use algebra_solver::expr::MExpr;
use algebra_solver::pattern::MPattern;
use algebra_solver::render::{const_name, var_name};

#[test]
fn expression_text_round_trips() {
    let e = "(62 * a * a) / (2 * a)".parse::<MExpr>().unwrap();
    assert_eq!(e.to_text(), "(62 * a * a) / (2 * a)");
    let e = "2 * (a + b) - 7".parse::<MExpr>().unwrap();
    assert_eq!(e.to_text(), "2 * (a + b) + -1 * 7");
}

#[test]
fn expression_text_of_leaves() {
    assert_eq!(MExpr::ConstNum(-42).to_text(), "-42");
    assert_eq!(MExpr::ConstNum(i64::MIN).to_text(), "-9223372036854775808");
    assert_eq!(MExpr::ConstVar(30).to_text(), "‹30›");
    assert_eq!(MExpr::Var(25).to_text(), "z");
    assert_eq!(const_name(3), "D");
    assert_eq!(var_name(26), "«26»");
    let p = MExpr::Exp(Box::new(MExpr::Var(0)), Box::new(MExpr::ConstNum(2)));
    assert_eq!(p.to_text(), "a ^ 2");
}

#[test]
fn pattern_and_action_text() {
    let p = "a + A * b".parse::<MPattern>().unwrap();
    assert_eq!(p.to_text(), "a + (A) * (b)");
    let d = MPattern::Div(Box::new(MPattern::Var(0)), Box::new(MPattern::Const(1)));
    assert_eq!(d.to_text(), "(a) / (B)");
    let pa = PatternAction {
        pattern: EPattern::PEq(MPattern::Var(0), MPattern::Const(0)),
        action: Action::DivC(0),
    };
    assert_eq!(pa.to_text(), "a = A > /A");
    assert_eq!(Action::SubV(2).to_text(), "-c");
    let eq = MEquation::Equal(MExpr::Var(0), MExpr::ConstNum(3));
    assert_eq!(eq.to_text(), "a = 3");
}

#[test]
fn order_of_expressions() {
    let sum = MExpr::Sum(vec![MExpr::Var(0)]);
    let longer = MExpr::Sum(vec![MExpr::Var(0), MExpr::Var(1)]);
    let prod = MExpr::Prod(vec![MExpr::Var(0)]);
    assert_eq!(sum.compare(&prod), Ordering::Less);
    assert_eq!(sum.compare(&longer), Ordering::Less);
    assert_eq!(MExpr::ConstNum(2).compare(&MExpr::ConstNum(3)), Ordering::Less);
    assert_eq!(MExpr::Var(0).compare(&MExpr::ConstNum(100)), Ordering::Greater);
    assert_eq!(MExpr::ConstVar(4).compare(&MExpr::ConstVar(4)), Ordering::Equal);
    let d1 = MExpr::Div(Box::new(MExpr::Var(0)), Box::new(MExpr::Var(1)));
    let d2 = MExpr::Div(Box::new(MExpr::Var(5)), Box::new(MExpr::Var(1)));
    assert_eq!(d1.compare(&d2), Ordering::Less);
    assert_eq!(d2.compare(&d1), Ordering::Greater);
    assert_eq!(d1.compare(&d1.clone()), Ordering::Equal);
    let e1 = MExpr::Exp(Box::new(MExpr::Var(0)), Box::new(MExpr::ConstNum(2)));
    let e2 = MExpr::Exp(Box::new(MExpr::Var(0)), Box::new(MExpr::ConstNum(3)));
    assert!(e1 < e2);
    assert!(MExpr::ConstNum(7) > MExpr::ConstVar(7));
}

#[test]
fn nested_sum_is_parenthesised() {
    let e = MExpr::Sum(vec![MExpr::Sum(vec![MExpr::Var(0), MExpr::Var(1)]), MExpr::Var(2)]);
    assert_eq!(e.to_text(), "(a + b) + c");
}

use algebra_solver::action::{Action, PatternAction};
use algebra_solver::binding::{merge, Bindings};
use algebra_solver::equation::{EPattern, MEquation};
use algebra_solver::expr::MExpr;
use algebra_solver::pattern::MPattern;
use algebra_solver::reduce::gcd;
use algebra_solver::utils::find_depth0;

fn expr(s: &str) -> MExpr {
    match s.parse::<MExpr>() {
        Ok(e) => e,
        Err(e) => panic!("{:?} is not Ok", e),
    }
}

fn pattern(s: &str) -> MPattern {
    match s.parse::<MPattern>() {
        Ok(p) => p,
        Err(e) => panic!("{:?} is not Ok", e),
    }
}

#[test]
fn eq_pattern_test_subpatterns() {
    let p1 = "a + b = c + d".parse::<EPattern>().unwrap();
    let p2 = "a = b".parse::<EPattern>().unwrap();
    assert!(p1.clone().is_subpattern_of(p2.clone()));
    assert!(!p2.clone().is_subpattern_of(p1.clone()));

    let p1 = "a / X + A * b = a / X".parse::<EPattern>().unwrap();
    let p2 = "a + b = a".parse::<EPattern>().unwrap();
    assert!(p1.clone().is_subpattern_of(p2.clone()));
    assert!(!p2.clone().is_subpattern_of(p1.clone()));
}

#[test]
fn equation_test() {
    assert_eq!(
        MEquation::Equal(MExpr::ConstNum(1), MExpr::ConstNum(2)),
        MEquation::Equal(MExpr::ConstNum(1), MExpr::ConstNum(2))
    );
}

#[test]
fn test_patact() {
    let inp = "a + A = B > -A";
    let parsed = inp.parse::<PatternAction>();
    assert!(parsed.is_ok());
    assert_eq!(
        parsed.unwrap(),
        PatternAction {
            pattern: EPattern::PEq(
                MPattern::Sum(vec![MPattern::Var(0), MPattern::Const(0)]),
                MPattern::Const(1)
            ),
            action: Action::SubC(0)
        }
    )
}

#[test]
fn eval_test_gcd() {
    assert_eq!(gcd(10, 5), 5);
    assert_eq!(gcd(232, 100), 4);
    assert_eq!(gcd(420, 69), 3);
    assert_eq!(gcd(420, 71), 1);

    assert_eq!(
        MExpr::Div(Box::new(MExpr::ConstNum(10)), Box::new(MExpr::ConstNum(5))).reduce(true),
        MExpr::ConstNum(2)
    );

    assert_eq!(
        MExpr::Div(Box::new(MExpr::Var(0)), Box::new(MExpr::ConstNum(1))).reduce(true),
        MExpr::Var(0)
    );

    assert_eq!(
        MExpr::Prod(vec![MExpr::ConstVar(1), MExpr::ConstNum(10)]).gcd_div(&MExpr::ConstVar(1)),
        (MExpr::ConstVar(1), MExpr::ConstNum(10))
    );

    assert_eq!(
        MExpr::Sum(vec![MExpr::ConstNum(-5), MExpr::ConstNum(5)]).reduce(true),
        MExpr::ConstNum(0)
    );

    assert_eq!(
        MExpr::Prod(vec![
            MExpr::Var(0),
            MExpr::Div(Box::new(MExpr::ConstNum(3)), Box::new(MExpr::Var(0)))
        ])
        .reduce(true),
        MExpr::ConstNum(3)
    );
}

#[test]
fn test_bind() {
    let pattern = MPattern::Prod(vec![MPattern::Const(0), MPattern::Var(0)]);
    let expr = MExpr::Prod(vec![MExpr::Var(0), MExpr::ConstNum(2)]);
    let bind = pattern.bind(expr);
    assert!(bind.is_some());
    let bind = bind.unwrap();
    assert_eq!(bind.0.get(&0), Some(&MExpr::ConstNum(2)));
    assert_eq!(bind.1.get(&0), Some(&MExpr::Var(0)));

    let pattern = MPattern::Div(Box::new(MPattern::Const(0)), Box::new(MPattern::Var(0)));
    let expr = MExpr::Div(
        Box::new(MExpr::ConstNum(3)),
        Box::new(MExpr::Prod(vec![MExpr::ConstNum(2), MExpr::Var(21)])),
    );
    let bind = pattern.bind(expr);
    assert!(bind.is_some());
    let bind = bind.unwrap();
    assert_eq!(bind.0.get(&0), Some(&MExpr::ConstNum(3)));
    assert_eq!(
        bind.1.get(&0),
        Some(&MExpr::Prod(vec![MExpr::ConstNum(2), MExpr::Var(21)]))
    );

    let pattern = MPattern::Sum(vec![MPattern::Const(0), MPattern::Var(0)]);
    let expr = MExpr::Sum(vec![MExpr::Var(0), MExpr::ConstNum(2)]);
    let bind = pattern.bind(expr);
    assert!(bind.is_some());
    let bind = bind.unwrap();
    assert_eq!(bind.0.get(&0), Some(&MExpr::ConstNum(2)));
    assert_eq!(bind.1.get(&0), Some(&MExpr::Var(0)));
}

#[test]
fn expr_pattern_test_subpatterns() {
    let p1 = "a + b".parse::<MPattern>().unwrap().trivial_reduce();
    let p2 = "a".parse::<MPattern>().unwrap().trivial_reduce();
    assert!(p1.clone().is_subpattern_of(p2.clone()));
    assert!(!p2.clone().is_subpattern_of(p1.clone()));

    let p1 = "a / X + A * b".parse::<MPattern>().unwrap().trivial_reduce();
    let p2 = "a + b".parse::<MPattern>().unwrap().trivial_reduce();
    assert!(p1.clone().is_subpattern_of(p2.clone()));
    assert!(!p2.clone().is_subpattern_of(p1.clone()));

    let p1 = "(a + X + b) / a".parse::<MPattern>().unwrap().trivial_reduce();
    let p2 = "(a + b) / a".parse::<MPattern>().unwrap().trivial_reduce();
    assert!(p1.clone().is_subpattern_of(p2.clone()));
    assert!(!p2.clone().is_subpattern_of(p1.clone()));

    let p1 = "(a + X + b) / (a + B)".parse::<MPattern>().unwrap().trivial_reduce();
    let p2 = "(a + b) / a".parse::<MPattern>().unwrap().trivial_reduce();
    assert!(!p1.clone().is_subpattern_of(p2.clone()));
    assert!(!p2.clone().is_subpattern_of(p1.clone()));
}

#[test]
fn test_parse_mexpr() {
    assert_eq!("(5)".parse::<MExpr>(), Ok(MExpr::ConstNum(5)));
    assert_eq!(
        "5 + 2 + 3".parse::<MExpr>(),
        Ok(MExpr::Sum(vec![
            MExpr::ConstNum(5),
            MExpr::ConstNum(2),
            MExpr::ConstNum(3),
        ]))
    );
    assert_eq!(
        "a + A".parse::<MExpr>(),
        Ok(MExpr::Sum(vec![MExpr::Var(0), MExpr::ConstVar(0)]))
    );
    assert_eq!(
        "3 * a".parse::<MExpr>(),
        Ok(MExpr::Prod(vec![MExpr::ConstNum(3), MExpr::Var(0)]))
    );
    assert_eq!(
        "3 * 5 * a".parse::<MExpr>(),
        Ok(MExpr::Prod(vec![MExpr::ConstNum(3), MExpr::ConstNum(5), MExpr::Var(0)]))
    );
    assert_eq!("  ( 321 )".parse::<MExpr>(), Ok(MExpr::ConstNum(321)));
    assert_eq!("A".parse::<MExpr>(), Ok(MExpr::ConstVar(0)));
    assert_eq!("c".parse::<MExpr>(), Ok(MExpr::Var(2)));
}

#[test]
fn test_parse_epattern() {
    assert_eq!("A".parse::<MPattern>(), Ok(MPattern::Const(0)));
    assert_eq!("a".parse::<MPattern>(), Ok(MPattern::Var(0)));
    assert_eq!(
        "a + X".parse::<MPattern>(),
        Ok(MPattern::Sum(vec![MPattern::Var(0), MPattern::Const(23)]))
    );
}

#[test]
fn parse_test() {
    assert_eq!(find_depth0("1+(1+2)+1", |c| c == '+', '(', ')'), vec![1, 7]);
    assert_eq!(
        find_depth0("a!hejbhea!jdbåa!a!hejbcb!", |c| c == '!', 'a', 'b'),
        vec![24]
    );
    assert_eq!(
        find_depth0("!a!hejbh!ejd!åa!a!hejbcb!", |c| c == '!', 'a', 'b'),
        vec![0, 8, 12, 24]
    );

    assert_eq!("(5)".parse::<MExpr>(), Ok(MExpr::ConstNum(5)));
    assert_eq!(
        "5 + 2 + 3".parse::<MExpr>(),
        Ok(MExpr::Sum(vec![
            MExpr::ConstNum(5),
            MExpr::ConstNum(2),
            MExpr::ConstNum(3),
        ]))
    );
    assert_eq!(
        "a + A".parse::<MExpr>(),
        Ok(MExpr::Sum(vec![MExpr::Var(0), MExpr::ConstVar(0)]))
    );
    assert_eq!(
        "3 * a".parse::<MExpr>(),
        Ok(MExpr::Prod(vec![MExpr::ConstNum(3), MExpr::Var(0)]))
    );
    assert_eq!(
        "3 * 5 * a".parse::<MExpr>(),
        Ok(MExpr::Prod(vec![MExpr::ConstNum(3), MExpr::ConstNum(5), MExpr::Var(0)]))
    );
    assert_eq!("  ( 321 )".parse::<MExpr>(), Ok(MExpr::ConstNum(321)));
    assert_eq!("A".parse::<MExpr>(), Ok(MExpr::ConstVar(0)));
    assert_eq!("c".parse::<MExpr>(), Ok(MExpr::Var(2)));
}

#[test]
fn test_basic_reduction_and_parsing() {
    let e = expr("1 + 2 + 3");
    assert_eq!(e.reduce(true), MExpr::ConstNum(6));

    let e = "2 * 3 + 2".parse::<MExpr>();
    assert!(e.is_ok());
    let e = e.unwrap();
    assert_eq!(e.reduce(true), MExpr::ConstNum(8));

    let e = "(62 * a * a) / (2 * a)".parse::<MExpr>();
    assert!(e.is_ok());
    let e = e.unwrap();
    assert_eq!(e.reduce(true), MExpr::Prod(vec![MExpr::Var(0), MExpr::ConstNum(31)]));

    let e = "(2 * a + 4) / (a + 2)".parse::<MExpr>();
    assert!(e.is_ok());
    let e = e.unwrap();
    assert_eq!(e.reduce(true), MExpr::ConstNum(2));
}

#[test]
fn test_simple_matching() {
    let e = expr("2 * x + 2 / x");
    let p = pattern("a + b");

    let pmatch = p.bind(e);
    assert!(pmatch.is_some());
    let pmatch = pmatch.unwrap();

    assert!(pmatch.0.is_empty());
    assert_eq!(
        pmatch.1.get(&0),
        Some(&MExpr::Prod(vec![MExpr::ConstNum(2), MExpr::Var(23)]))
    );
    assert_eq!(
        pmatch.1.get(&1),
        Some(&MExpr::Div(Box::new(MExpr::ConstNum(2)), Box::new(MExpr::Var(23))))
    );

    let e = expr("5 * y - 7 + x").reduce(true);
    let p = pattern("a + b + A");

    let pmatch = p.bind(e);
    assert!(pmatch.is_some());
    let pmatch = pmatch.unwrap();

    assert_eq!(pmatch.0.get(&0), Some(&MExpr::ConstNum(-7)));
    assert_eq!(
        pmatch.1.get(&0),
        Some(&MExpr::Prod(vec![MExpr::Var(24), MExpr::ConstNum(5)]))
    );
    assert_eq!(pmatch.1.get(&1), Some(&MExpr::Var(23)));
}

#[test]
fn test_matching_same_var() {
    let e = expr("A * (x + 2) + A / (x + 2)");
    let p = pattern("A * a + A / b");

    let pmatch = p.bind(e);
    assert!(pmatch.is_some());
    let pmatch = pmatch.unwrap();

    assert_eq!(pmatch.0.get(&0), Some(&MExpr::ConstVar(0)));
    assert_eq!(
        pmatch.1.get(&1),
        Some(&MExpr::Sum(vec![MExpr::Var(23), MExpr::ConstNum(2)]))
    );
}

#[test]
fn test_find_depth0() {
    assert_eq!(find_depth0("1+(1+2)+1", |c| c == '+', '(', ')'), vec![1, 7]);
    assert_eq!(
        find_depth0("a!hejbhea!jdbåa!a!hejbcb!", |c| c == '!', 'a', 'b'),
        vec![24]
    );
    assert_eq!(
        find_depth0("!a!hejbh!ejd!åa!a!hejbcb!", |c| c == '!', 'a', 'b'),
        vec![0, 8, 12, 24]
    );
}

#[test]
fn find_depth0_unmatched_close_finds_nothing() {
    assert_eq!(find_depth0("a)+b", |c| c == '+', '(', ')'), Vec::<usize>::new());
}

#[test]
fn merge_rejects_conflicting_slot() {
    let mut a = Bindings::single(0, MExpr::Var(1));
    let b = Bindings::single(0, MExpr::Var(2));
    assert_eq!(merge(&mut a, b), Err(()));
    assert_eq!(a.get(&0), Some(&MExpr::Var(1)));
}

#[test]
fn merge_accepts_equal_slot() {
    let mut a = Bindings::single(0, MExpr::Var(1));
    let b = Bindings::single(0, MExpr::Var(1));
    assert_eq!(merge(&mut a, b), Ok(()));
    assert_eq!(a.get(&0), Some(&MExpr::Var(1)));
    let c = Bindings::single(3, MExpr::ConstNum(4));
    assert_eq!(merge(&mut a, c), Ok(()));
    assert_eq!(a.get(&3), Some(&MExpr::ConstNum(4)));
    assert_eq!(a.get(&7), None);
}

#[test]
fn commutative_matching_is_greedy() {
    let e = expr("x + y + 2");
    assert!(pattern("a + A").bind(e.clone()).is_none());
    let (consts, vars) = pattern("A + a").bind(e).unwrap();
    assert_eq!(consts.get(&0), Some(&MExpr::ConstNum(2)));
    assert_eq!(vars.get(&0), Some(&MExpr::Sum(vec![MExpr::Var(23), MExpr::Var(24)])));
}

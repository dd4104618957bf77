use algebra_solver::action::{Action, PatternAction};
use algebra_solver::equation::{EPattern, MEquation};
use algebra_solver::expr::MExpr;
use algebra_solver::pattern::MPattern;
use algebra_solver::reduce::gcd;
use algebra_solver::{reduce_prod, reduce_sum};

#[test]
fn trivial_reduce_twice_is_once() {
    let e = MExpr::Sum(vec![
        MExpr::Var(0),
        MExpr::Sum(vec![MExpr::Var(1), MExpr::Sum(vec![])]),
        MExpr::Prod(vec![MExpr::Var(2)]),
    ]);
    let once = e.trivial_reduce();
    assert_eq!(
        once,
        MExpr::Sum(vec![MExpr::Var(0), MExpr::Var(1), MExpr::Var(2)])
    );
    assert_eq!(once.clone().trivial_reduce(), once);
    let p = MExpr::Prod(vec![MExpr::Var(0), MExpr::Prod(vec![])]);
    assert_eq!(p.trivial_reduce(), MExpr::Var(0));
    let s = MExpr::Sum(vec![MExpr::Var(0), MExpr::Prod(vec![])]);
    assert_eq!(s.trivial_reduce(), MExpr::Sum(vec![MExpr::Var(0), MExpr::ConstNum(1)]));
}

#[test]
fn pattern_trivial_reduce_twice_is_once() {
    let p = MPattern::Prod(vec![
        MPattern::Prod(vec![MPattern::Var(0), MPattern::Const(1)]),
        MPattern::Sum(vec![MPattern::Var(2)]),
    ]);
    let once = p.trivial_reduce();
    assert_eq!(
        once,
        MPattern::Prod(vec![MPattern::Var(0), MPattern::Const(1), MPattern::Var(2)])
    );
    assert_eq!(once.clone().trivial_reduce(), once);
}

#[test]
fn gcd_div_of_self() {
    for x in [MExpr::ConstNum(6), MExpr::ConstNum(-4), MExpr::Var(3), MExpr::ConstVar(1)] {
        assert_eq!(x.gcd_div(&x), (x.clone(), MExpr::ConstNum(1)));
    }
    let zero = MExpr::ConstNum(0);
    assert_eq!(
        zero.gcd_div(&zero),
        (MExpr::ConstNum(0), MExpr::ConstNum(1))
    );
    let reduced = MExpr::Prod(vec![MExpr::Var(0), MExpr::ConstNum(2)]);
    assert_eq!(reduced.gcd_div(&reduced), (reduced.clone(), MExpr::ConstNum(1)));
    let unordered = MExpr::Prod(vec![MExpr::ConstNum(2), MExpr::Var(0)]);
    assert_eq!(unordered.gcd_div(&unordered), (unordered.clone(), MExpr::ConstNum(1)));
    let m = MExpr::ConstNum(i64::MIN);
    assert_eq!(m.gcd_div(&m), (m.clone(), MExpr::ConstNum(1)));
}

#[test]
fn exact_quotient_with_negative_divisor() {
    let four = MExpr::ConstNum(4);
    assert_eq!(four.gcd_div(&MExpr::ConstNum(-2)), (MExpr::ConstNum(2), MExpr::ConstNum(-2)));
    let e = MExpr::Div(Box::new(MExpr::ConstNum(4)), Box::new(MExpr::ConstNum(-2)));
    assert_eq!(e.reduce(true), MExpr::ConstNum(-2));
    let e = MExpr::Div(Box::new(MExpr::ConstNum(-6)), Box::new(MExpr::ConstNum(-3)));
    assert_eq!(e.reduce(true), MExpr::ConstNum(2));
}

#[test]
fn gcd_signs_and_zero() {
    assert_eq!(gcd(-4, -6), -2);
    assert_eq!(gcd(-4, 6), 2);
    assert_eq!(gcd(0, 7), 7);
    assert_eq!(gcd(0, 0), 0);
    assert_eq!(gcd(i64::MIN, 0), 9223372036854775808);
}

#[test]
fn zero_over_zero_divides_itself() {
    let e = MExpr::Div(Box::new(MExpr::ConstNum(0)), Box::new(MExpr::ConstNum(0)));
    assert_eq!(e.reduce(true), MExpr::ConstNum(1));
    let e = MExpr::Div(Box::new(MExpr::ConstNum(5)), Box::new(MExpr::ConstNum(0)));
    assert_eq!(
        e.reduce(true),
        MExpr::Div(Box::new(MExpr::ConstNum(1)), Box::new(MExpr::ConstNum(0)))
    );
}

#[test]
fn quotient_of_constants_keeps_reduced_fraction() {
    let e = MExpr::Div(Box::new(MExpr::ConstNum(6)), Box::new(MExpr::ConstNum(4)));
    assert_eq!(
        e.reduce(true),
        MExpr::Div(Box::new(MExpr::ConstNum(3)), Box::new(MExpr::ConstNum(2)))
    );
}

#[test]
fn subtract_action_round_trip() {
    let pa = "a + A = B > -A".parse::<PatternAction>().unwrap();
    let eq = "x + 3 = 5".parse::<MEquation>().unwrap();
    let applied = pa.apply(eq).unwrap();
    let minus_three = MExpr::Prod(vec![MExpr::ConstNum(-1), MExpr::ConstNum(3)]);
    assert_eq!(
        applied,
        MEquation::Equal(
            MExpr::Sum(vec![
                minus_three.clone(),
                MExpr::Sum(vec![MExpr::Var(23), MExpr::ConstNum(3)])
            ]),
            MExpr::Sum(vec![minus_three, MExpr::ConstNum(5)])
        )
    );
    assert_eq!(applied.reduce(), MEquation::Equal(MExpr::Var(23), MExpr::ConstNum(2)));
}

#[test]
fn each_action_on_both_sides() {
    let eq = MEquation::Equal(MExpr::Var(0), MExpr::ConstNum(2));
    let pat = EPattern::PEq(MPattern::Var(0), MPattern::Const(0));
    let x = MExpr::ConstNum(2);
    let add = PatternAction { pattern: pat.clone(), action: Action::AddC(0) }.apply(eq.clone());
    assert_eq!(
        add,
        Some(MEquation::Equal(
            MExpr::Sum(vec![x.clone(), MExpr::Var(0)]),
            MExpr::Sum(vec![x.clone(), MExpr::ConstNum(2)])
        ))
    );
    let mul = PatternAction { pattern: pat.clone(), action: Action::MulV(0) }.apply(eq.clone());
    assert_eq!(
        mul,
        Some(MEquation::Equal(
            MExpr::Prod(vec![MExpr::Var(0), MExpr::Var(0)]),
            MExpr::Prod(vec![MExpr::Var(0), MExpr::ConstNum(2)])
        ))
    );
    let div = PatternAction { pattern: pat.clone(), action: Action::DivC(0) }.apply(eq.clone());
    assert_eq!(
        div,
        Some(MEquation::Equal(
            MExpr::Div(Box::new(MExpr::Var(0)), Box::new(x.clone())),
            MExpr::Div(Box::new(MExpr::ConstNum(2)), Box::new(x))
        ))
    );
}

#[test]
fn apply_fails_without_match_or_slot() {
    let eq = MEquation::Equal(MExpr::Var(0), MExpr::ConstNum(2));
    let unbound = PatternAction {
        pattern: EPattern::PEq(MPattern::Var(0), MPattern::Const(0)),
        action: Action::SubC(5),
    };
    assert_eq!(unbound.apply(eq.clone()), None);
    let no_match = PatternAction {
        pattern: EPattern::PEq(MPattern::Const(0), MPattern::Const(1)),
        action: Action::AddC(0),
    };
    assert_eq!(no_match.apply(eq), None);
}

#[test]
fn generate_patterns_of_simple_equation() {
    let eq = MEquation::Equal(MExpr::Var(0), MExpr::ConstNum(1));
    let pats = eq.clone().generate_patterns().unwrap();
    assert_eq!(pats, vec![EPattern::PEq(MPattern::Var(0), MPattern::Const(1))]);
    let acts = eq.generate_patacts().unwrap();
    assert_eq!(acts.len(), 8);
    assert_eq!(acts[0].action, Action::AddV(0));
    assert_eq!(acts[3].action, Action::DivV(0));
    assert_eq!(acts[4].action, Action::AddC(1));
    assert_eq!(acts[7].action, Action::DivC(1));
}

#[test]
fn generate_patterns_of_quotient() {
    let e = MExpr::Div(Box::new(MExpr::Var(0)), Box::new(MExpr::ConstNum(2)));
    let (pats, next) = e.generate_patterns_with_idx(0).unwrap();
    assert_eq!(
        pats,
        vec![
            MPattern::Div(Box::new(MPattern::Var(0)), Box::new(MPattern::Const(1))),
            MPattern::Var(2)
        ]
    );
    assert_eq!(next, 3);
    let (pats, _) = MExpr::Exp(Box::new(MExpr::Var(0)), Box::new(MExpr::ConstNum(2)))
        .generate_patterns_with_idx(0)
        .unwrap();
    assert!(pats.is_empty());
}

#[test]
fn slot_ids_do_not_wrap() {
    assert!(MExpr::Var(0).generate_patterns_with_idx(u32::MAX).is_none());
    assert_eq!(
        MExpr::Var(0).generate_patterns_with_idx(u32::MAX - 1),
        Some((vec![MPattern::Var(u32::MAX - 1)], u32::MAX))
    );
    let e = MExpr::Div(Box::new(MExpr::Var(0)), Box::new(MExpr::ConstNum(2)));
    assert!(e.generate_patterns_with_idx(u32::MAX - 2).is_none());
}

#[test]
fn free_slots_of_equation_pattern() {
    let p = "a + A = B".parse::<EPattern>().unwrap();
    assert_eq!(p.get_free(), (vec![0, 1], vec![0]));
}

#[test]
fn parse_errors() {
    assert_eq!("(a".parse::<MExpr>(), Err(("Mismatched parethesis".to_string(), 0)));
    assert_eq!("a)".parse::<MPattern>(), Err(("Unknown operator".to_string(), 2)));
    assert_eq!("1 = 2 = 3".parse::<MEquation>(), Err(("No '=' sign".to_string(), 0)));
    assert_eq!("?A".parse::<Action>(), Err(("Couldn't read!".to_string(), 0)));
    assert_eq!("a = b".parse::<PatternAction>(), Err(("No '>' sign".to_string(), 0)));
    assert_eq!(
        "9223372036854775808".parse::<MExpr>(),
        Err(("Unknown operator".to_string(), 19))
    );
    assert_eq!("9223372036854775807".parse::<MExpr>(), Ok(MExpr::ConstNum(i64::MAX)));
    assert_eq!(
        "-a".parse::<MExpr>(),
        Ok(MExpr::Prod(vec![MExpr::ConstNum(-1), MExpr::Var(0)]))
    );
    assert_eq!(
        "a / b / c".parse::<MPattern>(),
        Ok(MPattern::Div(
            Box::new(MPattern::Var(0)),
            Box::new(MPattern::Div(Box::new(MPattern::Var(1)), Box::new(MPattern::Var(2))))
        ))
    );
}

#[test]
fn constants_folded_in_operand_lists() {
    let r = reduce_sum::combine_constants(vec![MExpr::Var(0), MExpr::ConstNum(2), MExpr::ConstNum(3)]);
    assert_eq!(r, vec![MExpr::Var(0), MExpr::ConstNum(5)]);
    let r = reduce_prod::combine_constants(vec![MExpr::Var(0), MExpr::ConstNum(0)]);
    assert_eq!(r, vec![MExpr::ConstNum(0)]);
    let r = reduce_prod::unfold_division(vec![
        MExpr::Var(0),
        MExpr::Div(Box::new(MExpr::ConstNum(1)), Box::new(MExpr::Var(1))),
    ]);
    assert_eq!(r, Some((vec![MExpr::Var(0), MExpr::ConstNum(1)], vec![MExpr::Var(1)])));
    assert_eq!(reduce_prod::unfold_division(vec![MExpr::Var(0)]), None);
    let r = reduce_sum::unfold_nested(vec![
        MExpr::Sum(vec![MExpr::Var(0), MExpr::Var(1)]),
        MExpr::Var(2),
    ]);
    assert_eq!(r, vec![MExpr::Var(0), MExpr::Var(1), MExpr::Var(2)]);
}

#[test]
fn reduce_twice_is_once() {
    let inputs = [
        MExpr::Sum(vec![
            MExpr::Div(
                Box::new(MExpr::Sum(vec![MExpr::Var(23), MExpr::Var(24)])),
                Box::new(MExpr::ConstNum(1)),
            ),
            MExpr::Var(25),
        ]),
        "a + (b + (c + d))".parse::<MExpr>().unwrap(),
        "(a + b) / 1 + c".parse::<MExpr>().unwrap(),
        "x * (y / (2 * z))".parse::<MExpr>().unwrap(),
        "2 * a + 4 * a * b".parse::<MExpr>().unwrap(),
        "(62 * a * a) / (2 * a)".parse::<MExpr>().unwrap(),
        "4 * a + 8 * b".parse::<MExpr>().unwrap(),
        "(2 * a + 4) / (a + 2) + 3".parse::<MExpr>().unwrap(),
        "(4 * a) / (2 * b) + (6 * a) / (4 * b)".parse::<MExpr>().unwrap(),
        "(a / b) / (c / d)".parse::<MExpr>().unwrap(),
        "2 * (a + 1) + 2 * (b + 1)".parse::<MExpr>().unwrap(),
    ];
    for e in inputs {
        let once = e.reduce(true);
        assert_eq!(once.clone().reduce(true), once);
    }
    let e = MExpr::Sum(vec![
        MExpr::Div(
            Box::new(MExpr::Sum(vec![MExpr::Var(23), MExpr::Var(24)])),
            Box::new(MExpr::ConstNum(1)),
        ),
        MExpr::Var(25),
    ]);
    assert_eq!(e.reduce(true), MExpr::Sum(vec![MExpr::Var(23), MExpr::Var(24), MExpr::Var(25)]));
}

#[test]
fn overflowing_constants_stay_unfolded() {
    let big = MExpr::Sum(vec![MExpr::ConstNum(i64::MAX), MExpr::ConstNum(1), MExpr::Var(0)]);
    assert_eq!(
        big.reduce(false),
        MExpr::Sum(vec![MExpr::ConstNum(i64::MAX), MExpr::ConstNum(1), MExpr::Var(0)])
    );
    let back = MExpr::Sum(vec![MExpr::ConstNum(i64::MAX), MExpr::ConstNum(1), MExpr::ConstNum(-2)]);
    assert_eq!(back.reduce(false), MExpr::ConstNum(i64::MAX - 1));
    let prod = MExpr::Prod(vec![MExpr::ConstNum(i64::MAX), MExpr::ConstNum(2)]);
    assert_eq!(
        prod.reduce(false),
        MExpr::Prod(vec![MExpr::ConstNum(i64::MAX), MExpr::ConstNum(2)])
    );
    let zero = MExpr::Prod(vec![MExpr::ConstNum(i64::MAX), MExpr::ConstNum(2), MExpr::ConstNum(0)]);
    assert_eq!(zero.reduce(false), MExpr::ConstNum(0));
}

#[test]
fn power_sides_are_reduced() {
    let e = MExpr::Exp(
        Box::new(MExpr::Sum(vec![MExpr::ConstNum(1), MExpr::ConstNum(2)])),
        Box::new(MExpr::Var(0)),
    );
    assert_eq!(
        e.reduce(true),
        MExpr::Exp(Box::new(MExpr::ConstNum(3)), Box::new(MExpr::Var(0)))
    );
}

#[test]
fn equation_sides_get_separate_slot_ids() {
    let eq = MEquation::Equal(
        MExpr::Sum(vec![MExpr::Var(0), MExpr::ConstNum(1)]),
        MExpr::Var(1),
    );
    let pats = eq.generate_patterns().unwrap();
    for p in &pats {
        let (consts, vars) = p.clone().get_free();
        let mut all: Vec<u32> = consts.into_iter().chain(vars).collect();
        let n = all.len();
        all.sort();
        all.dedup();
        assert_eq!(all.len(), n);
    }
    assert_eq!(
        pats.last().unwrap().clone(),
        EPattern::PEq(MPattern::Var(2), MPattern::Var(3))
    );
}

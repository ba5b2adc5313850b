use lithium::expression::{Constraint, Expr, Strength, Term};
use lithium::rational::Rational;
use lithium::solver::Solver;
use lithium::symbol::Var;
use lithium::Id;

fn xvar(a: u64, b: u64) -> Var {
    Var(Id(a, b))
}

fn xri(n: i64) -> Rational {
    Rational::from_int(n)
}

#[test]
fn strength_weights_are_fixed() {
    assert!(Strength::Weak.weight().eq_rat(Rational::ratio(1, 1000)));
    assert!(Strength::Medium.weight().eq_rat(xri(1)));
    assert!(Strength::Strong.weight().eq_rat(xri(1000)));
    assert!(Strength::Weak.rank() < Strength::Medium.rank());
    assert!(Strength::Medium.rank() < Strength::Strong.rank());
}

#[test]
fn expressions_flatten_in_order() {
    let x = xvar(20, 1);
    let y = xvar(20, 2);
    let e = Expr::from_var(x)
        .checked_add(&Expr::from_var(y))
        .unwrap()
        .checked_add(&Expr::from_constant(xri(7)))
        .unwrap();
    assert!(e.constant.eq_rat(xri(7)));
    assert_eq!(e.terms.len(), 2);
    assert_eq!(e.terms[0].variable, x);
    assert_eq!(e.terms[1].variable, y);
    assert!(e.terms[0].coefficient.eq_rat(xri(1)));

    let n = e.neg();
    assert!(n.constant.eq_rat(xri(-7)));
    assert!(n.terms[0].coefficient.eq_rat(xri(-1)));

    let s = e.checked_scale(xri(3)).unwrap();
    assert!(s.constant.eq_rat(xri(21)));
    assert!(s.terms[1].coefficient.eq_rat(xri(3)));

    let t = Expr::term(y, Rational::ratio(1, 2));
    assert!(t.terms[0].coefficient.eq_rat(Rational::ratio(1, 2)));
}

#[test]
fn comparison_constructors_normalize() {
    let x = xvar(21, 1);
    let five = Expr::from_constant(xri(5));
    let xe = Expr::from_var(x);

    let eq = Constraint::equal(&xe, &five).unwrap();
    assert!(!eq.positive);
    assert!(eq.expr.constant.eq_rat(xri(-5)));

    let ge = Constraint::greater_or_equal(&xe, &five).unwrap();
    assert!(ge.positive);
    assert!(ge.expr.constant.eq_rat(xri(-5)));

    let le = Constraint::less_or_equal(&xe, &five).unwrap();
    assert!(le.positive);
    // x <= 5 is stored as 5 - x >= 0.
    assert!(le.expr.constant.eq_rat(xri(5)));
    assert!(le.expr.terms[0].coefficient.eq_rat(xri(-1)));
}

// An upper bound holds against a weaker equality pulling past it.
#[test]
fn upper_bound_holds() {
    let x = xvar(22, 1);
    let mut s = Solver::new();
    // 10 - x >= 0, strongly.
    let bound = vec![Term { variable: x, coefficient: xri(-1) }];
    s.add_constraint(true, xri(10), &bound, Strength::Strong).unwrap();
    // x == 15, weakly.
    let pin = vec![Term { variable: x, coefficient: xri(1) }];
    s.add_constraint(false, xri(-15), &pin, Strength::Weak).unwrap();
    assert!(s.get_value(x).unwrap_or(Rational::zero()).eq_rat(xri(10)));
}

// Zero-coefficient terms are ignored when a constraint enters the solver.
#[test]
fn zero_coefficient_terms_are_ignored() {
    let x = xvar(23, 1);
    let y = xvar(23, 2);
    let mut s = Solver::new();
    let terms = vec![
        Term { variable: x, coefficient: xri(1) },
        Term { variable: y, coefficient: xri(0) },
    ];
    s.add_constraint(false, xri(-4), &terms, Strength::Medium).unwrap();
    assert!(s.get_value(x).unwrap().eq_rat(xri(4)));
    assert!(s.get_value(y).is_none());
}

use lithium::expression::{Strength, Term};
use lithium::rational::Rational;
use lithium::solver::{Solver, SolverError};
use lithium::symbol::Var;
use lithium::Id;

fn var(a: u64, b: u64) -> Var {
    Var(Id(a, b))
}

fn ri(n: i64) -> Rational {
    Rational::from_int(n)
}

fn term(v: Var, k: i64) -> Term {
    Term { variable: v, coefficient: ri(k) }
}

fn value_of(s: &Solver, v: Var) -> Rational {
    s.get_value(v).unwrap_or(Rational::zero())
}

// Equality satisfaction: `x == 5` inserted as a strong constraint with no
// conflicts resolves `x` to exactly 5.
#[test]
fn equality_satisfaction() {
    let x = var(1, 1);
    let mut s = Solver::new();
    // -5 + x == 0
    let terms = vec![term(x, 1)];
    s.add_constraint(false, ri(-5), &terms, Strength::Strong).unwrap();
    assert!(value_of(&s, x).eq_rat(ri(5)));
}

// Strength trade-off: `a == 0` (weak) against `a == 10` (strong): the strong
// constraint wins exactly.
#[test]
fn strength_trade_off() {
    let a = var(2, 1);
    let mut s = Solver::new();
    let terms = vec![term(a, 1)];
    s.add_constraint(false, ri(0), &terms, Strength::Weak).unwrap();
    s.add_constraint(false, ri(-10), &terms, Strength::Strong).unwrap();
    assert!(value_of(&s, a).eq_rat(ri(10)));
}

// Inequality feasibility: `x >= 0` and `x == -5` both present resolve `x`
// to 0: the inequality's slack absorbs the equality's demand.
#[test]
fn inequality_feasibility() {
    let x = var(3, 1);
    let mut s = Solver::new();
    let terms = vec![term(x, 1)];
    // x >= 0
    s.add_constraint(true, ri(0), &terms, Strength::Strong).unwrap();
    // x + 5 == 0, i.e. x == -5
    s.add_constraint(false, ri(5), &terms, Strength::Medium).unwrap();
    assert!(value_of(&s, x).eq_rat(ri(0)));
}

// Round-trip elimination: adding a constraint and removing it again returns
// every previously solved value to what it was.
#[test]
fn round_trip_elimination() {
    let x = var(4, 1);
    let y = var(4, 2);
    let mut s = Solver::new();
    s.add_constraint(false, ri(-7), &vec![term(x, 1)], Strength::Medium).unwrap();
    s.add_constraint(false, ri(-3), &vec![term(y, 1)], Strength::Medium).unwrap();
    let vx = value_of(&s, x);
    let vy = value_of(&s, y);
    let rows = s.basic_count();
    // x + 2y - 13 == 0 relates both variables; then take it out again.
    let tag = s
        .add_constraint(false, ri(-13), &vec![term(x, 1), term(y, 2)], Strength::Strong)
        .unwrap();
    s.remove_constraint(tag).unwrap();
    assert!(value_of(&s, x).eq_rat(vx));
    assert!(value_of(&s, y).eq_rat(vy));
    assert_eq!(s.basic_count(), rows);
}

// Determinism: the same call sequence on two fresh solvers gives bit-equal
// results; nothing in the solver depends on iteration order or randomness.
#[test]
fn determinism() {
    let run = || {
        let x = var(5, 1);
        let y = var(5, 2);
        let mut s = Solver::new();
        s.add_constraint(false, ri(-7), &vec![term(x, 1)], Strength::Medium).unwrap();
        s.add_constraint(true, ri(4), &vec![term(y, 1), term(x, -1)], Strength::Weak).unwrap();
        s.add_constraint(false, ri(-9), &vec![term(y, 1), term(x, 1)], Strength::Strong).unwrap();
        (format!("{:?}", s.get_value(x)), format!("{:?}", s.get_value(y)))
    };
    assert_eq!(run(), run());
}

// A tag whose constraint has already been removed is reported, and the
// solver is left as it was.
#[test]
fn missing_marker_is_reported() {
    let x = var(6, 1);
    let mut s = Solver::new();
    let tag = s.add_constraint(false, ri(-1), &vec![term(x, 1)], Strength::Medium).unwrap();
    s.remove_constraint(tag).unwrap();
    let removed_once = s.removals();
    assert_eq!(s.remove_constraint(tag), Err(SolverError::MissingMarker));
    assert_eq!(s.removals(), removed_once);
}

// Each constraint owns exactly one basic row while it is live.
#[test]
fn one_row_per_constraint() {
    let x = var(7, 1);
    let y = var(7, 2);
    let mut s = Solver::new();
    assert_eq!(s.basic_count(), 0);
    let t1 = s.add_constraint(false, ri(-1), &vec![term(x, 1)], Strength::Medium).unwrap();
    assert_eq!(s.basic_count(), 1);
    let _t2 = s.add_constraint(true, ri(0), &vec![term(y, 1)], Strength::Weak).unwrap();
    assert_eq!(s.basic_count(), 2);
    s.remove_constraint(t1).unwrap();
    assert_eq!(s.basic_count(), 1);
}

// Arithmetic past the 64-bit rational range is refused, leaving the solver
// untouched.
#[test]
fn overflow_is_reported() {
    let x = var(8, 1);
    let mut s = Solver::new();
    let big = Rational::ratio(i64::MAX, 1);
    let tiny = Rational::ratio(1, i64::MAX);
    s
        .add_constraint(
            false,
            big,
            &vec![Term { variable: x, coefficient: tiny }],
            Strength::Medium,
        )
        .unwrap_err();
    assert_eq!(s.insertions(), 0);
    assert_eq!(s.basic_count(), 0);
}

use lithium::expression::{Constraint, Expr, Strength};
use lithium::layout::Layout;
use lithium::rational::Rational;
use lithium::symbol::Var;
use lithium::Id;

fn lvar(a: u64, b: u64) -> Var {
    Var(Id(a, b))
}

fn lri(n: i64) -> Rational {
    Rational::from_int(n)
}

fn ev(v: Var) -> Expr {
    Expr::from_var(v)
}

fn ec(n: i64) -> Expr {
    Expr::from_constant(lri(n))
}

fn pin(layout: &mut Layout, v: Var, n: i64) {
    layout.constraint(Constraint::equal(&ev(v), &ec(n)).unwrap());
}

fn read(layout: &Layout, v: Var) -> Rational {
    layout.prev_value(&ev(v)).unwrap()
}

// Diff correctness: a second frame that declares the identical constraint
// set — even in another order — performs no solver insertions or removals.
#[test]
fn identical_frame_does_no_solver_work() {
    let x = lvar(10, 1);
    let y = lvar(10, 2);
    let z = lvar(10, 3);
    let mut layout = Layout::new();

    pin(&mut layout, x, 1);
    pin(&mut layout, y, 2);
    pin(&mut layout, z, 3);
    layout.solve().unwrap();
    assert_eq!(layout.solver().insertions(), 3);
    assert_eq!(layout.solver().removals(), 0);

    // Same content, declared in a different order.
    pin(&mut layout, z, 3);
    pin(&mut layout, x, 1);
    pin(&mut layout, y, 2);
    layout.solve().unwrap();
    assert_eq!(layout.solver().insertions(), 3);
    assert_eq!(layout.solver().removals(), 0);
    assert!(read(&layout, x).eq_rat(lri(1)));
}

// A changed frame inserts only the new constraint and retracts only the
// stale one.
#[test]
fn changed_frame_diffs_minimally() {
    let x = lvar(11, 1);
    let y = lvar(11, 2);
    let mut layout = Layout::new();

    pin(&mut layout, x, 1);
    pin(&mut layout, y, 2);
    layout.solve().unwrap();
    assert_eq!(layout.solver().insertions(), 2);

    // Keep x == 1, replace y's pin.
    pin(&mut layout, x, 1);
    pin(&mut layout, y, 5);
    layout.solve().unwrap();
    assert_eq!(layout.solver().insertions(), 3);
    assert_eq!(layout.solver().removals(), 1);
    assert!(read(&layout, y).eq_rat(lri(5)));
    assert!(read(&layout, x).eq_rat(lri(1)));
}

// A frame with nothing declared retracts everything.
#[test]
fn empty_frame_retracts_all() {
    let x = lvar(12, 1);
    let mut layout = Layout::new();
    pin(&mut layout, x, 4);
    layout.solve().unwrap();
    layout.solve().unwrap();
    assert_eq!(layout.solver().removals(), 1);
    assert!(read(&layout, x).eq_rat(lri(0)));
}

// Two identical declarations in one frame are two constraints; dropping one
// of them the next frame retracts exactly one.
#[test]
fn duplicate_constraints_count_separately() {
    let x = lvar(18, 1);
    let mut layout = Layout::new();
    pin(&mut layout, x, 2);
    pin(&mut layout, x, 2);
    layout.solve().unwrap();
    assert_eq!(layout.solver().insertions(), 2);
    assert!(read(&layout, x).eq_rat(lri(2)));

    pin(&mut layout, x, 2);
    layout.solve().unwrap();
    assert_eq!(layout.solver().insertions(), 2);
    assert_eq!(layout.solver().removals(), 1);
    assert!(read(&layout, x).eq_rat(lri(2)));
}

// Scenario: rectangle A is fixed at left 0, right 100, top 0, bottom 50;
// rectangle B is 20 wide and 10 high with both centers equal to A's.
// Solving must put B's left edge at 40 and its top edge at 20.
#[test]
fn center_two_rectangles() {
    let al = lvar(13, 1);
    let ar = lvar(13, 2);
    let at = lvar(13, 3);
    let ab = lvar(13, 4);
    let bl = lvar(13, 5);
    let br = lvar(13, 6);
    let bt = lvar(13, 7);
    let bb = lvar(13, 8);
    let mut layout = Layout::new();

    pin(&mut layout, al, 0);
    pin(&mut layout, ar, 100);
    pin(&mut layout, at, 0);
    pin(&mut layout, ab, 50);
    // B's size: right - left == 20, bottom - top == 10.
    let bw = ev(br).checked_sub(&ev(bl)).unwrap();
    layout.constraint(Constraint::equal(&bw, &ec(20)).unwrap());
    let bh = ev(bb).checked_sub(&ev(bt)).unwrap();
    layout.constraint(Constraint::equal(&bh, &ec(10)).unwrap());
    // Equal horizontal centers: A.left - B.left == B.right - A.right,
    // and the same vertically.
    let lhs_h = ev(al).checked_sub(&ev(bl)).unwrap();
    let rhs_h = ev(br).checked_sub(&ev(ar)).unwrap();
    layout.constraint(Constraint::equal(&lhs_h, &rhs_h).unwrap());
    let lhs_v = ev(at).checked_sub(&ev(bt)).unwrap();
    let rhs_v = ev(bb).checked_sub(&ev(ab)).unwrap();
    layout.constraint(Constraint::equal(&lhs_v, &rhs_v).unwrap());

    layout.solve().unwrap();
    assert!(read(&layout, bl).eq_rat(lri(40)));
    assert!(read(&layout, bt).eq_rat(lri(20)));
    assert!(read(&layout, br).eq_rat(lri(60)));
    assert!(read(&layout, bb).eq_rat(lri(30)));
}

// Determinism: the same declaration sequence on two fresh layouts reads
// back bit-identical values.
#[test]
fn layout_determinism() {
    let run = || {
        let x = lvar(14, 1);
        let y = lvar(14, 2);
        let mut layout = Layout::new();
        pin(&mut layout, x, 3);
        let s = ev(x).checked_add(&ev(y)).unwrap();
        layout.constraint(Constraint::equal(&s, &ec(10)).unwrap());
        layout.solve().unwrap();
        (format!("{:?}", read(&layout, x)), format!("{:?}", read(&layout, y)))
    };
    assert_eq!(run(), run());
}

// `keep` pins a variable to its previously observed value through the same
// declare/diff machinery.
#[test]
fn keep_pins_previous_value() {
    let x = lvar(15, 1);
    let mut layout = Layout::new();
    pin(&mut layout, x, 8);
    layout.solve().unwrap();
    assert!(read(&layout, x).eq_rat(lri(8)));

    // Next frame: nothing but the keep; the value survives.
    layout.keep(x).unwrap();
    layout.solve().unwrap();
    assert!(read(&layout, x).eq_rat(lri(8)));
}

// `prev_value` evaluates constants and coefficients over solved values.
#[test]
fn prev_value_evaluates_expressions() {
    let x = lvar(16, 1);
    let mut layout = Layout::new();
    pin(&mut layout, x, 6);
    layout.solve().unwrap();
    // 2·x + 5 == 17
    let two_x = ev(x).checked_scale(lri(2)).unwrap();
    let expr = two_x.checked_add(&ec(5)).unwrap();
    assert!(layout.prev_value(&expr).unwrap().eq_rat(lri(17)));
    // An unconstrained variable reads as zero.
    let free = lvar(16, 9);
    assert!(read(&layout, free).eq_rat(lri(0)));
}

// The ambient strength is given to constraints declared after it is set.
#[test]
fn ambient_strength_applies() {
    let a = lvar(17, 1);
    let mut layout = Layout::new();
    layout.set_strength(Strength::Weak);
    pin(&mut layout, a, 0);
    layout.set_strength(Strength::Strong);
    pin(&mut layout, a, 10);
    layout.solve().unwrap();
    assert!(read(&layout, a).eq_rat(lri(10)));
}

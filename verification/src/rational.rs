//! Exact rational arithmetic for the constraint solver.
//!
//! Every coefficient and constant in the solver is a `Rational`: a fraction of
//! two 64-bit integers with a positive denominator.  Intermediate products are
//! computed in 128 bits, so they never wrap; a result is reduced by a greatest
//! common divisor and handed back only if it fits the 64-bit components again.
//! Operations that could leave that range are checked and return `None` there.

use vstd::prelude::*;

verus! {

/// An exact rational number `num / den` with `den > 0`.
#[derive(Copy, Clone, Debug)]
pub struct Rational {
    num: i64,
    den: i64,
}

/// The mathematical value of a rational as an unreduced pair (numerator, denominator).
pub open spec fn q_eq(a: (int, int), b: (int, int)) -> bool {
    a.0 * b.1 == b.0 * a.1
}

pub open spec fn q_add(a: (int, int), b: (int, int)) -> (int, int) {
    (a.0 * b.1 + b.0 * a.1, a.1 * b.1)
}

pub open spec fn q_mul(a: (int, int), b: (int, int)) -> (int, int) {
    (a.0 * b.0, a.1 * b.1)
}

pub open spec fn q_neg(a: (int, int)) -> (int, int) {
    (-a.0, a.1)
}

/// Quotient of two pairs, with the sign moved into the numerator.
pub open spec fn q_div(a: (int, int), b: (int, int)) -> (int, int) {
    if b.0 >= 0 {
        (a.0 * b.1, a.1 * b.0)
    } else {
        (-(a.0 * b.1), -(a.1 * b.0))
    }
}

/// The factor `-1 / c` that turns `0 = c·x + rest` into `x = ...`.
pub open spec fn q_recip_neg(c: (int, int)) -> (int, int) {
    q_div((-1int, 1int), c)
}

/// `a <= b` as rationals; meaningful when both denominators are positive.
pub open spec fn q_le(a: (int, int), b: (int, int)) -> bool {
    a.0 * b.1 <= b.0 * a.1
}

pub open spec fn q_lt(a: (int, int), b: (int, int)) -> bool {
    a.0 * b.1 < b.0 * a.1
}

/// A pair small enough to be stored without reduction.
pub open spec fn q_fits(p: (int, int)) -> bool {
    &&& -(i64::MAX as int) <= p.0 <= i64::MAX as int
    &&& 0 < p.1 <= i64::MAX as int
}

pub open spec fn q_abs(x: int) -> int {
    if x >= 0 {
        x
    } else {
        -x
    }
}

/// The stored representative `v` keeps the sign of the unreduced pair `i`
/// and never exceeds it componentwise: reduction only shrinks.
pub open spec fn q_rep_bounded(v: (int, int), i: (int, int)) -> bool {
    &&& 0 < v.1 <= i.1
    &&& (i.0 >= 0 ==> 0 <= v.0 <= i.0)
    &&& (i.0 < 0 ==> i.0 <= v.0 <= 0)
}

impl Rational {
    /// The value of this rational as a pair (numerator, denominator).
    pub closed spec fn q(self) -> (int, int) {
        (self.num as int, self.den as int)
    }

    /// Well-formed: positive denominator, numerator strictly above `i64::MIN`
    /// so that negation can never wrap.
    pub open spec fn wf(self) -> bool {
        &&& self.q().1 > 0
        &&& -(i64::MAX as int) <= self.q().0 <= i64::MAX as int
        &&& self.q().1 <= i64::MAX as int
    }

    /// The rational `n / 1`.
    pub fn from_int(n: i64) -> (r: Rational)
        requires
            n > i64::MIN,
        ensures
            r.wf(),
            r.q() == (n as int, 1int),
    {
        Rational { num: n, den: 1 }
    }

    /// The rational `num / den`.
    pub fn ratio(num: i64, den: i64) -> (r: Rational)
        requires
            num > i64::MIN,
            den > 0,
        ensures
            r.wf(),
            r.q() == (num as int, den as int),
    {
        Rational { num, den }
    }

    /// The rational zero.
    pub fn zero() -> (r: Rational)
        ensures
            r.wf(),
            r.q() == (0int, 1int),
    {
        Rational { num: 0, den: 1 }
    }

    /// The stored numerator.
    pub fn numerator(self) -> (r: i64)
        ensures
            r as int == self.q().0,
    {
        self.num
    }

    /// The stored denominator; positive for well-formed values.
    pub fn denominator(self) -> (r: i64)
        ensures
            r as int == self.q().1,
    {
        self.den
    }

    pub fn is_zero(self) -> (b: bool)
        ensures
            b == (self.q().0 == 0),
    {
        self.num == 0
    }

    pub fn is_negative(self) -> (b: bool)
        ensures
            b == (self.q().0 < 0),
    {
        self.num < 0
    }

    /// Exact negation; total because well-formed numerators never hold `i64::MIN`.
    pub fn neg(self) -> (r: Rational)
        requires
            self.wf(),
        ensures
            r.wf(),
            r.q() == q_neg(self.q()),
    {
        Rational { num: -self.num, den: self.den }
    }

    /// Exact sum, `None` when the reduced result leaves the 64-bit range.
    pub fn checked_add(self, other: Rational) -> (r: Option<Rational>)
        requires
            self.wf(),
            other.wf(),
        ensures
            r matches Some(v) ==> v.wf() && q_eq(v.q(), q_add(self.q(), other.q())),
            r matches Some(v) ==> q_rep_bounded(v.q(), q_add(self.q(), other.q())),
            q_fits(q_add(self.q(), other.q())) ==> r is Some,
    {
        proof {
            lemma_mul_bound(self.num as int, other.den as int);
            lemma_mul_bound(other.num as int, self.den as int);
            lemma_mul_bound(self.den as int, other.den as int);
        }
        let n: i128 = (self.num as i128) * (other.den as i128)
            + (other.num as i128) * (self.den as i128);
        let d: i128 = (self.den as i128) * (other.den as i128);
        proof {
            lemma_mul_pos(self.den as int, other.den as int);
        }
        normalize128(n, d)
    }

    /// Exact difference, `None` when the reduced result leaves the 64-bit range.
    pub fn checked_sub(self, other: Rational) -> (r: Option<Rational>)
        requires
            self.wf(),
            other.wf(),
        ensures
            r matches Some(v) ==> v.wf() && q_eq(v.q(), q_add(self.q(), q_neg(other.q()))),
            r matches Some(v) ==> q_rep_bounded(v.q(), q_add(self.q(), q_neg(other.q()))),
            q_fits(q_add(self.q(), q_neg(other.q()))) ==> r is Some,
    {
        self.checked_add(other.neg())
    }

    /// Exact product, `None` when the reduced result leaves the 64-bit range.
    pub fn checked_mul(self, other: Rational) -> (r: Option<Rational>)
        requires
            self.wf(),
            other.wf(),
        ensures
            r matches Some(v) ==> v.wf() && q_eq(v.q(), q_mul(self.q(), other.q())),
            r matches Some(v) ==> q_rep_bounded(v.q(), q_mul(self.q(), other.q())),
            q_fits(q_mul(self.q(), other.q())) ==> r is Some,
    {
        proof {
            lemma_mul_bound(self.num as int, other.num as int);
            lemma_mul_bound(self.den as int, other.den as int);
            lemma_mul_pos(self.den as int, other.den as int);
        }
        let n: i128 = (self.num as i128) * (other.num as i128);
        let d: i128 = (self.den as i128) * (other.den as i128);
        normalize128(n, d)
    }

    /// Exact quotient, `None` when the reduced result leaves the 64-bit range.
    pub fn checked_div(self, other: Rational) -> (r: Option<Rational>)
        requires
            self.wf(),
            other.wf(),
            other.q().0 != 0,
        ensures
            r matches Some(v) ==> v.wf() && q_eq(v.q(), q_div(self.q(), other.q())),
            r matches Some(v) ==> q_rep_bounded(v.q(), q_div(self.q(), other.q())),
            q_fits(q_div(self.q(), other.q())) ==> r is Some,
    {
        proof {
            lemma_mul_bound(self.num as int, other.den as int);
            lemma_mul_bound(self.den as int, other.num as int);
            lemma_mul_pos(self.den as int, other.den as int);
        }
        let n0: i128 = (self.num as i128) * (other.den as i128);
        let d0: i128 = (self.den as i128) * (other.num as i128);
        if other.num < 0 {
            proof {
                lemma_mul_neg(self.den as int, other.num as int);
            }
            normalize128(-n0, -d0)
        } else {
            proof {
                lemma_mul_pos(self.den as int, other.num as int);
            }
            normalize128(n0, d0)
        }
    }

    /// Exact order test `self <= other`.
    pub fn le(self, other: Rational) -> (b: bool)
        requires
            self.wf(),
            other.wf(),
        ensures
            b == q_le(self.q(), other.q()),
    {
        proof {
            lemma_mul_bound(self.num as int, other.den as int);
            lemma_mul_bound(other.num as int, self.den as int);
        }
        (self.num as i128) * (other.den as i128) <= (other.num as i128) * (self.den as i128)
    }

    /// Exact order test `self < other`.
    pub fn lt(self, other: Rational) -> (b: bool)
        requires
            self.wf(),
            other.wf(),
        ensures
            b == q_lt(self.q(), other.q()),
    {
        proof {
            lemma_mul_bound(self.num as int, other.den as int);
            lemma_mul_bound(other.num as int, self.den as int);
        }
        (self.num as i128) * (other.den as i128) < (other.num as i128) * (self.den as i128)
    }

    /// Exact equality test as rationals (independent of the representation).
    pub fn eq_rat(self, other: Rational) -> (b: bool)
        requires
            self.wf(),
            other.wf(),
        ensures
            b == q_eq(self.q(), other.q()),
    {
        proof {
            lemma_mul_bound(self.num as int, other.den as int);
            lemma_mul_bound(other.num as int, self.den as int);
        }
        (self.num as i128) * (other.den as i128) == (other.num as i128) * (self.den as i128)
    }
}

/// Equality of rationals is transitive once the middle denominator is nonzero.
pub proof fn lemma_q_eq_trans(a: (int, int), b: (int, int), c: (int, int))
    requires
        q_eq(a, b),
        q_eq(b, c),
        b.1 != 0,
    ensures
        q_eq(a, c),
{
    assert(a.0 * c.1 == c.0 * a.1) by (nonlinear_arith)
        requires
            a.0 * b.1 == b.0 * a.1,
            b.0 * c.1 == c.0 * b.1,
            b.1 != 0,
    ;
}

/// Sums of equal rationals are equal.
#[verifier::rlimit(100)]
pub proof fn lemma_q_add_congr(a: (int, int), a2: (int, int), b: (int, int), b2: (int, int))
    requires
        q_eq(a, a2),
        q_eq(b, b2),
        a.1 != 0,
        a2.1 != 0,
        b.1 != 0,
        b2.1 != 0,
    ensures
        q_eq(q_add(a, b), q_add(a2, b2)),
{
    lemma_q_add_congr_left(a, a2, b);
    lemma_q_add_congr_left(b, b2, a2);
    assert(q_add(a2, b) == q_add(b, a2)) by {
        assert(a2.0 * b.1 + b.0 * a2.1 == b.0 * a2.1 + a2.0 * b.1);
        assert(a2.1 * b.1 == b.1 * a2.1) by (nonlinear_arith);
    }
    assert(q_add(a2, b2) == q_add(b2, a2)) by {
        assert(a2.1 * b2.1 == b2.1 * a2.1) by (nonlinear_arith);
    }
    assert(a2.1 * b.1 != 0) by (nonlinear_arith)
        requires
            a2.1 != 0,
            b.1 != 0,
    ;
    lemma_q_eq_trans(q_add(a, b), q_add(a2, b), q_add(a2, b2));
}

/// Congruence of the sum in its first argument.
proof fn lemma_q_add_congr_left(a: (int, int), a2: (int, int), b: (int, int))
    requires
        q_eq(a, a2),
    ensures
        q_eq(q_add(a, b), q_add(a2, b)),
{
    assert((a.0 * b.1 + b.0 * a.1) * (a2.1 * b.1) == (a.0 * a2.1) * (b.1 * b.1) + (b.0 * a.1) * (
    a2.1 * b.1)) by (nonlinear_arith);
    assert((a2.0 * b.1 + b.0 * a2.1) * (a.1 * b.1) == (a2.0 * a.1) * (b.1 * b.1) + (b.0 * a2.1) * (
    a.1 * b.1)) by (nonlinear_arith);
    assert((b.0 * a.1) * (a2.1 * b.1) == (b.0 * a2.1) * (a.1 * b.1)) by (nonlinear_arith);
    assert((a.0 * b.1 + b.0 * a.1) * (a2.1 * b.1) == (a2.0 * b.1 + b.0 * a2.1) * (a.1 * b.1));
}

/// Products of equal rationals are equal.
pub proof fn lemma_q_mul_congr(a: (int, int), a2: (int, int), b: (int, int), b2: (int, int))
    requires
        q_eq(a, a2),
        q_eq(b, b2),
    ensures
        q_eq(q_mul(a, b), q_mul(a2, b2)),
{
    assert((a.0 * b.0) * (a2.1 * b2.1) == (a2.0 * b2.0) * (a.1 * b.1)) by (nonlinear_arith)
        requires
            a.0 * a2.1 == a2.0 * a.1,
            b.0 * b2.1 == b2.0 * b.1,
    ;
}

/// Multiplication of rationals is commutative.
pub proof fn lemma_q_mul_comm(a: (int, int), b: (int, int))
    ensures
        q_mul(a, b) == q_mul(b, a),
{
    assert(a.0 * b.0 == b.0 * a.0) by (nonlinear_arith);
    assert(a.1 * b.1 == b.1 * a.1) by (nonlinear_arith);
}

/// Negation respects rational equality.
pub proof fn lemma_q_neg_congr(a: (int, int), b: (int, int))
    requires
        q_eq(a, b),
    ensures
        q_eq(q_neg(a), q_neg(b)),
{
    assert((-a.0) * b.1 == (-b.0) * a.1) by (nonlinear_arith)
        requires
            a.0 * b.1 == b.0 * a.1,
    ;
}

/// Scaling numerator and denominator by the same nonzero factor keeps the value.
pub proof fn lemma_q_scale(c: (int, int), m: int)
    requires
        m != 0,
    ensures
        q_eq(c, (c.0 * m, c.1 * m)),
{
    assert(c.0 * (c.1 * m) == (c.0 * m) * c.1) by (nonlinear_arith);
}

/// Equal rationals with nonzero denominators are zero together.
pub proof fn lemma_q_eq_zero(v: (int, int), m: (int, int))
    requires
        q_eq(v, m),
        v.1 != 0,
        m.1 != 0,
    ensures
        (v.0 == 0) <==> (m.0 == 0),
{
    assert((v.0 == 0) <==> (m.0 == 0)) by (nonlinear_arith)
        requires
            v.0 * m.1 == m.0 * v.1,
            v.1 != 0,
            m.1 != 0,
    ;
}

/// The order of rationals respects rational equality.
pub proof fn lemma_q_le_congr(a: (int, int), a2: (int, int), b: (int, int), b2: (int, int))
    requires
        q_eq(a, a2),
        q_eq(b, b2),
        a.1 > 0,
        a2.1 > 0,
        b.1 > 0,
        b2.1 > 0,
    ensures
        q_le(a, b) <==> q_le(a2, b2),
        q_lt(a, b) <==> q_lt(a2, b2),
{
    assert((a.0 * b.1 <= b.0 * a.1) <==> (a2.0 * b.1 <= b.0 * a2.1)) by (nonlinear_arith)
        requires
            a.0 * a2.1 == a2.0 * a.1,
            a.1 > 0,
            a2.1 > 0,
    ;
    assert((a2.0 * b.1 <= b.0 * a2.1) <==> (a2.0 * b2.1 <= b2.0 * a2.1)) by (nonlinear_arith)
        requires
            b.0 * b2.1 == b2.0 * b.1,
            b.1 > 0,
            b2.1 > 0,
    ;
    assert((a.0 * b.1 < b.0 * a.1) <==> (a2.0 * b.1 < b.0 * a2.1)) by (nonlinear_arith)
        requires
            a.0 * a2.1 == a2.0 * a.1,
            a.1 > 0,
            a2.1 > 0,
    ;
    assert((a2.0 * b.1 < b.0 * a2.1) <==> (a2.0 * b2.1 < b2.0 * a2.1)) by (nonlinear_arith)
        requires
            b.0 * b2.1 == b2.0 * b.1,
            b.1 > 0,
            b2.1 > 0,
    ;
}

/// Multiplying a quotient back by its divisor recovers the dividend.
pub proof fn lemma_q_div_mul(n: (int, int), d: (int, int))
    requires
        n.1 > 0,
        d.1 > 0,
        d.0 != 0,
    ensures
        q_div(n, d).1 > 0,
        q_eq(q_mul(q_div(n, d), d), n),
{
    if d.0 >= 0 {
        assert(n.1 * d.0 > 0) by (nonlinear_arith)
            requires
                n.1 > 0,
                d.0 > 0,
        ;
        assert((n.0 * d.1 * d.0) * n.1 == n.0 * ((n.1 * d.0) * d.1)) by (nonlinear_arith);
    } else {
        assert(-(n.1 * d.0) > 0) by (nonlinear_arith)
            requires
                n.1 > 0,
                d.0 < 0,
        ;
        assert((-(n.0 * d.1) * d.0) * n.1 == n.0 * ((-(n.1 * d.0)) * d.1)) by (nonlinear_arith);
    }
}

/// The strict order of rationals is transitive.
pub proof fn lemma_q_lt_trans(a: (int, int), b: (int, int), c: (int, int))
    requires
        q_lt(a, b),
        q_lt(b, c),
        a.1 > 0,
        b.1 > 0,
        c.1 > 0,
    ensures
        q_lt(a, c),
{
    assert(a.0 * c.1 < c.0 * a.1) by (nonlinear_arith)
        requires
            a.0 * b.1 < b.0 * a.1,
            b.0 * c.1 < c.0 * b.1,
            a.1 > 0,
            b.1 > 0,
            c.1 > 0,
    ;
}

/// The order of rationals is transitive.
pub proof fn lemma_q_le_trans(a: (int, int), b: (int, int), c: (int, int))
    requires
        q_le(a, b),
        q_le(b, c),
        a.1 > 0,
        b.1 > 0,
        c.1 > 0,
    ensures
        q_le(a, c),
{
    assert(a.0 * c.1 <= c.0 * a.1) by (nonlinear_arith)
        requires
            a.0 * b.1 <= b.0 * a.1,
            b.0 * c.1 <= c.0 * b.1,
            a.1 > 0,
            b.1 > 0,
            c.1 > 0,
    ;
}

/// The product of two positives is positive.
pub proof fn lemma_q_pos(a: int, b: int)
    requires
        a > 0,
        b > 0,
    ensures
        a * b > 0,
{
    lemma_mul_pos(a, b);
}

/// |a|, |b| below 2^63 keeps the product within 2^126.
proof fn lemma_mul_bound(a: int, b: int)
    requires
        -(i64::MAX as int) <= a <= i64::MAX as int,
        -(i64::MAX as int) <= b <= i64::MAX as int,
    ensures
        -(0x4000_0000_0000_0000_0000_0000_0000_0000int) < a * b
            < 0x4000_0000_0000_0000_0000_0000_0000_0000int,
{
    assert(-(0x4000_0000_0000_0000_0000_0000_0000_0000int) < a * b
        < 0x4000_0000_0000_0000_0000_0000_0000_0000int) by (nonlinear_arith)
        requires
            -(i64::MAX as int) <= a <= i64::MAX as int,
            -(i64::MAX as int) <= b <= i64::MAX as int,
    ;
}

proof fn lemma_mul_pos(a: int, b: int)
    requires
        a > 0,
        b > 0,
    ensures
        a * b > 0,
{
    assert(a * b > 0) by (nonlinear_arith)
        requires
            a > 0,
            b > 0,
    ;
}

proof fn lemma_mul_neg(a: int, b: int)
    requires
        a > 0,
        b < 0,
    ensures
        a * b < 0,
{
    assert(a * b < 0) by (nonlinear_arith)
        requires
            a > 0,
            b < 0,
    ;
}

/// Greatest common divisor of `a >= 0` and `b > 0`, by Euclid's algorithm.
///
/// Only `1 <= g <= b` is promised; exact divisibility is re-checked by the
/// caller at run time, so no number theory is needed here.
fn gcd128(a: i128, b: i128) -> (g: i128)
    requires
        a >= 0,
        b > 0,
    ensures
        1 <= g,
        g <= b || g <= a,
{
    let mut x: i128 = a;
    let mut y: i128 = b;
    while y != 0
        invariant
            x >= 0,
            y >= 0,
            x > 0 || y > 0,
            y <= b,
            x <= a || x <= b,
        decreases y,
    {
        let t: i128 = x % y;
        x = y;
        y = t;
    }
    x
}

/// Reduce `n / d` and store it in 64-bit components when it fits.
fn normalize128(n: i128, d: i128) -> (r: Option<Rational>)
    requires
        d > 0,
        n > i128::MIN,
    ensures
        r matches Some(v) ==> v.wf() && q_eq(v.q(), (n as int, d as int)),
        r matches Some(v) ==> q_rep_bounded(v.q(), (n as int, d as int)),
        q_fits((n as int, d as int)) ==> r is Some,
{
    let na: i128 = if n < 0 { -n } else { n };
    let g: i128 = gcd128(na, d);
    let nr: i128;
    let dr: i128;
    if g > 1 && na % g == 0 && d % g == 0 {
        nr = na / g;
        dr = d / g;
        proof {
            lemma_exact_div(na as int, g as int);
            lemma_exact_div(d as int, g as int);
            lemma_div_shrinks(na as int, g as int);
            lemma_div_shrinks(d as int, g as int);
            lemma_quot_pos(d as int, g as int);
        }
    } else {
        nr = na;
        dr = d;
    }
    if nr <= (i64::MAX as i128) && dr <= (i64::MAX as i128) {
        let num: i64 = if n < 0 { -(nr as i64) } else { nr as i64 };
        let v = Rational { num, den: dr as i64 };
        proof {
            if g > 1 && na % g == 0 && d % g == 0 {
                lemma_reduced_same_value(n as int, d as int, na as int, g as int, nr as int,
                    dr as int);
            }
        }
        Some(v)
    } else {
        None
    }
}

/// A sum of two stored representatives fits whenever the triangle bound of
/// their unreduced pairs does.
pub proof fn lemma_rep_add_fits(a: (int, int), b: (int, int), ia: (int, int), ib: (int, int))
    requires
        q_rep_bounded(a, ia),
        q_rep_bounded(b, ib),
        q_abs(ia.0) * ib.1 + q_abs(ib.0) * ia.1 <= i64::MAX as int,
        ia.1 * ib.1 <= i64::MAX as int,
    ensures
        q_fits(q_add(a, b)),
{
    let ma = q_abs(ia.0);
    let mb = q_abs(ib.0);
    assert(-(ma * ib.1) <= a.0 * b.1 <= ma * ib.1) by (nonlinear_arith)
        requires
            -ma <= a.0 <= ma,
            0 < b.1 <= ib.1,
            ma >= 0,
    ;
    assert(-(mb * ia.1) <= b.0 * a.1 <= mb * ia.1) by (nonlinear_arith)
        requires
            -mb <= b.0 <= mb,
            0 < a.1 <= ia.1,
            mb >= 0,
    ;
    assert(0 < a.1 * b.1 <= ia.1 * ib.1) by (nonlinear_arith)
        requires
            0 < a.1 <= ia.1,
            0 < b.1 <= ib.1,
    ;
}

/// A sum fits whenever the triangle bound over magnitude bounds of the two
/// addends does; no sign coherence is needed.
pub proof fn lemma_mag_add_fits(
    a: (int, int),
    b: (int, int),
    ma: int,
    da: int,
    mb: int,
    db: int,
)
    requires
        -ma <= a.0 <= ma,
        0 < a.1 <= da,
        -mb <= b.0 <= mb,
        0 < b.1 <= db,
        ma * db + mb * da <= i64::MAX as int,
        da * db <= i64::MAX as int,
        ma >= 0,
        mb >= 0,
    ensures
        q_fits(q_add(a, b)),
{
    assert(-(ma * db) <= a.0 * b.1 <= ma * db) by (nonlinear_arith)
        requires
            -ma <= a.0 <= ma,
            0 < b.1 <= db,
            ma >= 0,
    ;
    assert(-(mb * da) <= b.0 * a.1 <= mb * da) by (nonlinear_arith)
        requires
            -mb <= b.0 <= mb,
            0 < a.1 <= da,
            mb >= 0,
    ;
    assert(0 < a.1 * b.1 <= da * db) by (nonlinear_arith)
        requires
            0 < a.1 <= da,
            0 < b.1 <= db,
    ;
}

/// A product of two stored representatives fits whenever the product of the
/// unreduced magnitudes does.
pub proof fn lemma_rep_mul_fits(a: (int, int), b: (int, int), ia: (int, int), ib: (int, int))
    requires
        q_rep_bounded(a, ia),
        q_rep_bounded(b, ib),
        q_abs(ia.0) * q_abs(ib.0) <= i64::MAX as int,
        ia.1 * ib.1 <= i64::MAX as int,
    ensures
        q_fits(q_mul(a, b)),
{
    let ma = q_abs(ia.0);
    let mb = q_abs(ib.0);
    assert(-(ma * mb) <= a.0 * b.0 <= ma * mb) by (nonlinear_arith)
        requires
            -ma <= a.0 <= ma,
            -mb <= b.0 <= mb,
            ma >= 0,
            mb >= 0,
    ;
    assert(0 < a.1 * b.1 <= ia.1 * ib.1) by (nonlinear_arith)
        requires
            0 < a.1 <= ia.1,
            0 < b.1 <= ib.1,
    ;
}

/// A quotient of two stored representatives fits whenever the cross
/// products of the unreduced pairs do.
pub proof fn lemma_rep_div_fits(a: (int, int), b: (int, int), ia: (int, int), ib: (int, int))
    requires
        q_rep_bounded(a, ia),
        q_rep_bounded(b, ib),
        b.0 != 0,
        q_abs(ia.0) * ib.1 <= i64::MAX as int,
        ia.1 * q_abs(ib.0) <= i64::MAX as int,
    ensures
        q_fits(q_div(a, b)),
{
    let ma = q_abs(ia.0);
    let mb = q_abs(ib.0);
    assert(-(ma * ib.1) <= a.0 * b.1 <= ma * ib.1) by (nonlinear_arith)
        requires
            -ma <= a.0 <= ma,
            0 < b.1 <= ib.1,
            ma >= 0,
    ;
    if b.0 >= 0 {
        assert(0 < a.1 * b.0 <= ia.1 * mb) by (nonlinear_arith)
            requires
                0 < a.1 <= ia.1,
                0 < b.0 <= mb,
        ;
    } else {
        assert(0 < -(a.1 * b.0) <= ia.1 * mb) by (nonlinear_arith)
            requires
                0 < a.1 <= ia.1,
                0 < -b.0 <= mb,
        ;
    }
}

/// With a zero remainder, the quotient times the divisor gives back the dividend.
proof fn lemma_exact_div(a: int, g: int)
    requires
        a >= 0,
        g > 0,
        a % g == 0,
    ensures
        a == (a / g) * g,
{
    assert(a == (a / g) * g) by (nonlinear_arith)
        requires
            a >= 0,
            g > 0,
            a % g == 0,
    ;
}

proof fn lemma_div_shrinks(a: int, g: int)
    requires
        a >= 0,
        g >= 1,
    ensures
        0 <= a / g <= a,
{
    assert(0 <= a / g <= a) by (nonlinear_arith)
        requires
            a >= 0,
            g >= 1,
    ;
}

proof fn lemma_quot_pos(d: int, g: int)
    requires
        d > 0,
        g > 0,
        d % g == 0,
    ensures
        d / g >= 1,
{
    assert(d / g >= 1) by (nonlinear_arith)
        requires
            d > 0,
            g > 0,
            d % g == 0,
    ;
}

/// Dividing numerator and denominator by a common divisor keeps the value.
proof fn lemma_reduced_same_value(n: int, d: int, na: int, g: int, nr: int, dr: int)
    requires
        d > 0,
        g > 0,
        na == if n < 0 { -n } else { n },
        na % g == 0,
        d % g == 0,
        nr == na / g,
        dr == d / g,
    ensures
        n < 0 ==> q_eq((-nr, dr), (n, d)),
        n >= 0 ==> q_eq((nr, dr), (n, d)),
{
    lemma_exact_div(na, g);
    lemma_exact_div(d, g);
    assert(na == nr * g);
    assert(d == dr * g);
    assert(nr * (dr * g) == (nr * dr) * g) by (nonlinear_arith);
    assert((nr * g) * dr == (nr * dr) * g) by (nonlinear_arith);
    if n < 0 {
        assert((-nr) * d == n * dr) by (nonlinear_arith)
            requires
                na == nr * g,
                d == dr * g,
                na == -n,
        ;
    } else {
        assert(nr * d == n * dr) by (nonlinear_arith)
            requires
                na == nr * g,
                d == dr * g,
                na == n,
        ;
    }
}

} // verus!

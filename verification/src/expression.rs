//! Linear expressions over solver variables.
//!
//! An expression is `constant + Σ coefficient·variable`, flattened at
//! construction time into a constant and an ordered list of terms.  Once an
//! expression is handed to the solver only its constant and terms matter.

use vstd::prelude::*;
use crate::rational::{lemma_q_mul_comm, q_add, q_eq, q_fits, q_mul, q_neg, Rational};
use crate::symbol::Var;

verus! {

/// Single term in a larger expression: `coefficient · variable`.
#[derive(Copy, Clone)]
pub struct Term {
    pub variable: Var,
    pub coefficient: Rational,
}

/// Priority tier controlling the objective-function penalty for violating a
/// constraint.  Not a hard priority: enough weak violations can still
/// outweigh one medium violation.
#[derive(Copy, Clone, Eq, PartialEq, Structural, Hash, Debug)]
pub enum Strength {
    Weak,
    Medium,
    Strong,
}

impl Strength {
    /// The objective weight of an error variable of this tier.
    pub fn weight(self) -> (r: Rational)
        ensures
            r.wf(),
            self == Strength::Weak ==> r.q() == (1int, 1000int),
            self == Strength::Medium ==> r.q() == (1int, 1int),
            self == Strength::Strong ==> r.q() == (1000int, 1int),
            r.q().0 > 0,
    {
        match self {
            Strength::Weak => Rational::ratio(1, 1000),
            Strength::Medium => Rational::from_int(1),
            Strength::Strong => Rational::from_int(1000),
        }
    }

    /// Position of this tier in the canonical constraint order.
    pub fn rank(self) -> (r: u8)
        ensures
            r == spec_strength_rank(self),
    {
        match self {
            Strength::Weak => 0,
            Strength::Medium => 1,
            Strength::Strong => 2,
        }
    }
}

/// The canonical order of strength tiers.
pub open spec fn spec_strength_rank(s: Strength) -> u8 {
    match s {
        Strength::Weak => 0u8,
        Strength::Medium => 1u8,
        Strength::Strong => 2u8,
    }
}

/// `constant + Σ terms`, in the order the terms were combined.
pub struct Expr {
    pub constant: Rational,
    pub terms: Vec<Term>,
}

impl Expr {
    pub open spec fn wf(self) -> bool {
        &&& self.constant.wf()
        &&& forall|i: int|
            0 <= i < self.terms@.len() ==> (#[trigger] self.terms@[i]).coefficient.wf()
    }

    /// A bare constant.
    pub fn from_constant(c: Rational) -> (r: Expr)
        requires
            c.wf(),
        ensures
            r.wf(),
            r.constant == c,
            r.terms@.len() == 0,
    {
        Expr { constant: c, terms: Vec::new() }
    }

    /// A bare variable: coefficient one, constant zero.
    pub fn from_var(v: Var) -> (r: Expr)
        ensures
            r.wf(),
            r.constant.q() == (0int, 1int),
            r.terms@.len() == 1,
            r.terms@[0].variable == v,
            r.terms@[0].coefficient.q() == (1int, 1int),
    {
        let mut terms: Vec<Term> = Vec::new();
        terms.push(Term { variable: v, coefficient: Rational::from_int(1) });
        Expr { constant: Rational::zero(), terms }
    }

    /// A single scaled variable: `k·v`.
    pub fn term(v: Var, k: Rational) -> (r: Expr)
        requires
            k.wf(),
        ensures
            r.wf(),
            r.constant.q() == (0int, 1int),
            r.terms@.len() == 1,
            r.terms@[0].variable == v,
            r.terms@[0].coefficient == k,
    {
        let mut terms: Vec<Term> = Vec::new();
        terms.push(Term { variable: v, coefficient: k });
        Expr { constant: Rational::zero(), terms }
    }

    /// The sum of two expressions: constants added, term lists joined in order.
    pub fn checked_add(&self, other: &Expr) -> (r: Option<Expr>)
        requires
            self.wf(),
            other.wf(),
        ensures
            r matches Some(e) ==> e.wf() && q_eq(
                e.constant.q(),
                q_add(self.constant.q(), other.constant.q()),
            ) && e.terms@ == self.terms@ + other.terms@,
            q_fits(q_add(self.constant.q(), other.constant.q())) ==> r is Some,
    {
        let constant = match self.constant.checked_add(other.constant) {
            Some(c) => c,
            None => {
                return None;
            },
        };
        let mut terms = copy_terms(&self.terms);
        let mut i: usize = 0;
        while i < other.terms.len()
            invariant
                i <= other.terms@.len(),
                terms@ == self.terms@ + other.terms@.subrange(0, i as int),
            decreases other.terms@.len() - i,
        {
            terms.push(other.terms[i]);
            proof {
                assert(terms@ =~= self.terms@ + other.terms@.subrange(0, i + 1 as int));
            }
            i += 1;
        }
        proof {
            assert(terms@ =~= self.terms@ + other.terms@);
        }
        Some(Expr { constant, terms })
    }

    /// The negation of an expression, term by term.
    pub fn neg(&self) -> (r: Expr)
        requires
            self.wf(),
        ensures
            r.wf(),
            r.constant.q() == q_neg(self.constant.q()),
            r.terms@.len() == self.terms@.len(),
            forall|i: int|
                0 <= i < self.terms@.len() ==> (#[trigger] r.terms@[i]).variable
                    == self.terms@[i].variable && r.terms@[i].coefficient.q() == q_neg(
                    self.terms@[i].coefficient.q(),
                ),
    {
        let mut terms: Vec<Term> = Vec::new();
        let mut i: usize = 0;
        while i < self.terms.len()
            invariant
                self.wf(),
                i <= self.terms@.len(),
                terms@.len() == i,
                forall|j: int|
                    0 <= j < i ==> (#[trigger] terms@[j]).variable == self.terms@[j].variable
                        && terms@[j].coefficient.wf() && terms@[j].coefficient.q() == q_neg(
                        self.terms@[j].coefficient.q(),
                    ),
            decreases self.terms@.len() - i,
        {
            let t = self.terms[i];
            terms.push(Term { variable: t.variable, coefficient: t.coefficient.neg() });
            i += 1;
        }
        Expr { constant: self.constant.neg(), terms }
    }

    /// The difference of two expressions.
    pub fn checked_sub(&self, other: &Expr) -> (r: Option<Expr>)
        requires
            self.wf(),
            other.wf(),
        ensures
            r matches Some(e) ==> e.wf(),
            r matches Some(e) ==> q_eq(
                e.constant.q(),
                q_add(self.constant.q(), q_neg(other.constant.q())),
            ),
            r matches Some(e) ==> e.terms@.len() == self.terms@.len() + other.terms@.len()
                && e.terms@.subrange(0, self.terms@.len() as int) == self.terms@,
            r matches Some(e) ==> forall|i: int|
                0 <= i < other.terms@.len() ==> (#[trigger] e.terms@[self.terms@.len() + i]).variable
                    == other.terms@[i].variable && e.terms@[self.terms@.len() + i].coefficient.q()
                    == q_neg(other.terms@[i].coefficient.q()),
            q_fits(q_add(self.constant.q(), q_neg(other.constant.q()))) ==> r is Some,
    {
        self.checked_add(&other.neg())
    }

    /// The expression scaled by `k`, term by term.
    pub fn checked_scale(&self, k: Rational) -> (r: Option<Expr>)
        requires
            self.wf(),
            k.wf(),
        ensures
            r matches Some(e) ==> e.wf() && q_eq(e.constant.q(), q_mul(k.q(), self.constant.q()))
                && e.terms@.len() == self.terms@.len(),
            r matches Some(e) ==> forall|i: int|
                0 <= i < self.terms@.len() ==> (#[trigger] e.terms@[i]).variable
                    == self.terms@[i].variable && q_eq(
                    e.terms@[i].coefficient.q(),
                    q_mul(k.q(), self.terms@[i].coefficient.q()),
                ),
            q_fits(q_mul(self.constant.q(), k.q())) && (forall|i: int|
                0 <= i < self.terms@.len() ==> q_fits(
                    q_mul((#[trigger] self.terms@[i]).coefficient.q(), k.q()),
                )) ==> r is Some,
    {
        let constant = match self.constant.checked_mul(k) {
            Some(c) => c,
            None => {
                return None;
            },
        };
        proof {
            lemma_q_mul_comm(self.constant.q(), k.q());
        }
        let mut terms: Vec<Term> = Vec::new();
        let mut i: usize = 0;
        while i < self.terms.len()
            invariant
                self.wf(),
                k.wf(),
                i <= self.terms@.len(),
                terms@.len() == i,
                forall|j: int|
                    0 <= j < i ==> (#[trigger] terms@[j]).variable == self.terms@[j].variable
                        && terms@[j].coefficient.wf() && q_eq(
                        terms@[j].coefficient.q(),
                        q_mul(k.q(), self.terms@[j].coefficient.q()),
                    ),
            decreases self.terms@.len() - i,
        {
            let t = self.terms[i];
            let c = match t.coefficient.checked_mul(k) {
                Some(c) => c,
                None => {
                    return None;
                },
            };
            proof {
                lemma_q_mul_comm(t.coefficient.q(), k.q());
            }
            terms.push(Term { variable: t.variable, coefficient: c });
            i += 1;
        }
        Some(Expr { constant, terms })
    }
}

/// An expression constrained against zero: `positive` encodes `expr >= 0`,
/// otherwise `expr == 0`.
pub struct Constraint {
    pub expr: Expr,
    pub positive: bool,
}

impl Constraint {
    /// The constraint `a == b`, normalized by moving all terms to one side:
    /// the stored expression is `a - b`.
    pub fn equal(a: &Expr, b: &Expr) -> (r: Option<Constraint>)
        requires
            a.wf(),
            b.wf(),
        ensures
            r matches Some(c) ==> c.expr.wf() && !c.positive,
            r matches Some(c) ==> q_eq(
                c.expr.constant.q(),
                q_add(a.constant.q(), q_neg(b.constant.q())),
            ),
            r matches Some(c) ==> c.expr.terms@.len() == a.terms@.len() + b.terms@.len()
                && c.expr.terms@.subrange(0, a.terms@.len() as int) == a.terms@,
            r matches Some(c) ==> forall|i: int|
                0 <= i < b.terms@.len() ==> (#[trigger] c.expr.terms@[a.terms@.len() + i]).variable
                    == b.terms@[i].variable && c.expr.terms@[a.terms@.len() + i].coefficient.q()
                    == q_neg(b.terms@[i].coefficient.q()),
            q_fits(q_add(a.constant.q(), q_neg(b.constant.q()))) ==> r is Some,
    {
        match a.checked_sub(b) {
            Some(expr) => Some(Constraint { expr, positive: false }),
            None => None,
        }
    }

    /// The constraint `a >= b`, normalized by moving all terms to one side:
    /// the stored expression is `a - b`.
    pub fn greater_or_equal(a: &Expr, b: &Expr) -> (r: Option<Constraint>)
        requires
            a.wf(),
            b.wf(),
        ensures
            r matches Some(c) ==> c.expr.wf() && c.positive,
            r matches Some(c) ==> q_eq(
                c.expr.constant.q(),
                q_add(a.constant.q(), q_neg(b.constant.q())),
            ),
            r matches Some(c) ==> c.expr.terms@.len() == a.terms@.len() + b.terms@.len()
                && c.expr.terms@.subrange(0, a.terms@.len() as int) == a.terms@,
            r matches Some(c) ==> forall|i: int|
                0 <= i < b.terms@.len() ==> (#[trigger] c.expr.terms@[a.terms@.len() + i]).variable
                    == b.terms@[i].variable && c.expr.terms@[a.terms@.len() + i].coefficient.q()
                    == q_neg(b.terms@[i].coefficient.q()),
            q_fits(q_add(a.constant.q(), q_neg(b.constant.q()))) ==> r is Some,
    {
        match a.checked_sub(b) {
            Some(expr) => Some(Constraint { expr, positive: true }),
            None => None,
        }
    }

    /// The constraint `a <= b`, normalized by moving all terms to one side:
    /// the stored expression is `b - a`.
    pub fn less_or_equal(a: &Expr, b: &Expr) -> (r: Option<Constraint>)
        requires
            a.wf(),
            b.wf(),
        ensures
            r matches Some(c) ==> c.expr.wf() && c.positive,
            r matches Some(c) ==> q_eq(
                c.expr.constant.q(),
                q_add(b.constant.q(), q_neg(a.constant.q())),
            ),
            r matches Some(c) ==> c.expr.terms@.len() == a.terms@.len() + b.terms@.len()
                && c.expr.terms@.subrange(0, b.terms@.len() as int) == b.terms@,
            r matches Some(c) ==> forall|i: int|
                0 <= i < a.terms@.len() ==> (#[trigger] c.expr.terms@[b.terms@.len() + i]).variable
                    == a.terms@[i].variable && c.expr.terms@[b.terms@.len() + i].coefficient.q()
                    == q_neg(a.terms@[i].coefficient.q()),
            q_fits(q_add(b.constant.q(), q_neg(a.constant.q()))) ==> r is Some,
    {
        match b.checked_sub(a) {
            Some(expr) => Some(Constraint { expr, positive: true }),
            None => None,
        }
    }
}

/// A fresh vector with the same terms.
fn copy_terms(terms: &Vec<Term>) -> (r: Vec<Term>)
    ensures
        r@ == terms@,
{
    let mut r: Vec<Term> = Vec::new();
    let mut i: usize = 0;
    while i < terms.len()
        invariant
            i <= terms@.len(),
            r@ == terms@.subrange(0, i as int),
        decreases terms@.len() - i,
    {
        r.push(terms[i]);
        proof {
            assert(r@ =~= terms@.subrange(0, i + 1 as int));
        }
        i += 1;
    }
    proof {
        assert(r@ =~= terms@);
    }
    r
}

} // verus!

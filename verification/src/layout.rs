//! The frame-level constraint-diffing facade.
//!
//! Callers declare a full constraint set every frame.  Before solving, the
//! new declarations are brought into a canonical content-based order and
//! compared against the previous frame's set, merge-style: constraints that
//! repeat are carried over untouched, genuinely new ones are inserted into
//! the solver, and stale ones are retracted — so a frame that repeats the
//! previous frame does no solver work at all.

use vstd::prelude::*;
use core::cmp::Ordering;
use core::mem;
use crate::expression::{spec_strength_rank, Constraint, Expr, Strength, Term};
use crate::rational::{
    lemma_q_add_congr,
    lemma_q_eq_trans,
    lemma_q_le_congr,
    lemma_q_lt_trans,
    lemma_q_pos,
    q_abs,
    q_add,
    q_eq,
    q_fits,
    q_lt,
    q_mul,
    q_neg,
    Rational,
};
use crate::solver::{ConstraintTag, Solver, SolverError};
use crate::symbol::{id_lt, spec_from_var, Var};
use crate::vec2::Vec2;
use crate::rect::Rect;
use crate::assoc::assoc_get;

verus! {

/// One declared constraint: its terms, constant, sense, strength, and — once
/// it has been inserted into the solver — its tag.
pub struct ConstraintInfo {
    pub terms: Vec<Term>,
    pub constant: Rational,
    pub positive: bool,
    pub strength: Strength,
    pub tag: Option<ConstraintTag>,
}

pub open spec fn cinfo_wf(c: ConstraintInfo) -> bool {
    &&& c.constant.wf()
    &&& forall|i: int| 0 <= i < c.terms@.len() ==> (#[trigger] c.terms@[i]).coefficient.wf()
}

/// The canonical order of terms: by coefficient, then by variable identifier.
pub open spec fn term_lt(a: Term, b: Term) -> bool {
    ||| q_lt(a.coefficient.q(), b.coefficient.q())
    ||| (q_eq(a.coefficient.q(), b.coefficient.q()) && id_lt(a.variable.0, b.variable.0))
}

pub open spec fn term_eq(a: Term, b: Term) -> bool {
    q_eq(a.coefficient.q(), b.coefficient.q()) && a.variable == b.variable
}

/// Strict lexicographic order on term lists of equal length.
pub open spec fn terms_lt(a: Seq<Term>, b: Seq<Term>) -> bool
    decreases a.len(),
{
    if a.len() == 0 || b.len() == 0 {
        false
    } else if term_lt(a[0], b[0]) {
        true
    } else if term_eq(a[0], b[0]) {
        terms_lt(a.drop_first(), b.drop_first())
    } else {
        false
    }
}

pub open spec fn terms_eq(a: Seq<Term>, b: Seq<Term>) -> bool {
    a.len() == b.len() && forall|i: int| 0 <= i < a.len() ==> term_eq(#[trigger] a[i], b[i])
}

/// Two constraints with the same content: same constant, sense, strength and
/// termwise-equal term lists.  The tag does not take part.
pub open spec fn cinfo_eq(a: ConstraintInfo, b: ConstraintInfo) -> bool {
    &&& q_eq(a.constant.q(), b.constant.q())
    &&& a.positive == b.positive
    &&& a.strength == b.strength
    &&& terms_eq(a.terms@, b.terms@)
}

/// The canonical content-based order: by constant, then term count, then
/// sense, then strength, then the term lists lexicographically.
pub open spec fn cinfo_lt(a: ConstraintInfo, b: ConstraintInfo) -> bool {
    ||| q_lt(a.constant.q(), b.constant.q())
    ||| (q_eq(a.constant.q(), b.constant.q()) && ({
        ||| a.terms@.len() < b.terms@.len()
        ||| (a.terms@.len() == b.terms@.len() && ({
            ||| (!a.positive && b.positive)
            ||| (a.positive == b.positive && ({
                ||| spec_strength_rank(a.strength) < spec_strength_rank(b.strength)
                ||| (a.strength == b.strength && terms_lt(a.terms@, b.terms@))
            }))
        }))
    }))
}

pub open spec fn cinfo_le(a: ConstraintInfo, b: ConstraintInfo) -> bool {
    cinfo_lt(a, b) || cinfo_eq(a, b)
}

/// All coefficient denominators of every term are positive.
pub open spec fn terms_wf(s: Seq<Term>) -> bool {
    forall|i: int| 0 <= i < s.len() ==> (#[trigger] s[i]).coefficient.wf()
}

/// The term order is transitive, strictly where either step is strict.
proof fn lemma_term_trans(a: Term, b: Term, c: Term)
    requires
        a.coefficient.wf(),
        b.coefficient.wf(),
        c.coefficient.wf(),
        term_lt(a, b) || term_eq(a, b),
        term_lt(b, c) || term_eq(b, c),
    ensures
        term_lt(a, c) || term_eq(a, c),
        term_lt(a, b) || term_lt(b, c) ==> term_lt(a, c),
        term_eq(a, b) && term_eq(b, c) ==> term_eq(a, c),
{
    let aq = a.coefficient.q();
    let bq = b.coefficient.q();
    let cq = c.coefficient.q();
    if q_lt(aq, bq) && q_lt(bq, cq) {
        lemma_q_lt_trans(aq, bq, cq);
    } else if q_lt(aq, bq) && q_eq(bq, cq) {
        lemma_q_le_congr(aq, aq, bq, cq);
    } else if q_eq(aq, bq) && q_lt(bq, cq) {
        lemma_q_le_congr(bq, aq, cq, cq);
    } else {
        lemma_q_eq_trans(aq, bq, cq);
    }
}

/// The lexicographic term order is transitive, strictly where either step is.
proof fn lemma_terms_trans(a: Seq<Term>, b: Seq<Term>, c: Seq<Term>)
    requires
        terms_wf(a),
        terms_wf(b),
        terms_wf(c),
        a.len() == b.len(),
        b.len() == c.len(),
        terms_lt(a, b) || terms_eq(a, b),
        terms_lt(b, c) || terms_eq(b, c),
    ensures
        terms_lt(a, c) || terms_eq(a, c),
        terms_lt(a, b) || terms_lt(b, c) ==> terms_lt(a, c),
        terms_eq(a, b) && terms_eq(b, c) ==> terms_eq(a, c),
    decreases a.len(),
{
    if a.len() == 0 {
        assert(terms_eq(a, c));
    } else if terms_eq(a, b) && terms_eq(b, c) {
        assert forall|i: int| 0 <= i < a.len() implies term_eq(#[trigger] a[i], c[i]) by {
            lemma_term_trans(a[i], b[i], c[i]);
        }
        assert(terms_eq(a, c));
        if terms_lt(a, b) {
            lemma_terms_asym(a, b);
        }
        if terms_lt(b, c) {
            lemma_terms_asym(b, c);
        }
    } else {
        let ra = a.drop_first();
        let rb = b.drop_first();
        let rc = c.drop_first();
        assert forall|i: int| 0 <= i < ra.len() implies (#[trigger] ra[i]).coefficient.wf() by {
            assert(ra[i] == a[i + 1]);
        }
        assert forall|i: int| 0 <= i < rb.len() implies (#[trigger] rb[i]).coefficient.wf() by {
            assert(rb[i] == b[i + 1]);
        }
        assert forall|i: int| 0 <= i < rc.len() implies (#[trigger] rc[i]).coefficient.wf() by {
            assert(rc[i] == c[i + 1]);
        }
        // head relations for each pair
        if terms_eq(a, b) {
            assert(term_lt(a[0], b[0]) || term_eq(a[0], b[0]));
            assert forall|i: int| 0 <= i < ra.len() implies term_eq(#[trigger] ra[i], rb[i]) by {
                assert(ra[i] == a[i + 1]);
                assert(rb[i] == b[i + 1]);
            }
        }
        if terms_eq(b, c) {
            assert(term_lt(b[0], c[0]) || term_eq(b[0], c[0]));
            assert forall|i: int| 0 <= i < rb.len() implies term_eq(#[trigger] rb[i], rc[i]) by {
                assert(rb[i] == b[i + 1]);
                assert(rc[i] == c[i + 1]);
            }
        }
        lemma_term_trans(a[0], b[0], c[0]);
        if term_lt(a[0], b[0]) || term_lt(b[0], c[0]) {
            assert(term_lt(a[0], c[0]));
            assert(terms_lt(a, c));
        } else {
            // both heads equal; recurse on the rests
            assert(term_eq(a[0], b[0]) && term_eq(b[0], c[0]));
            assert(terms_lt(a, b) ==> terms_lt(ra, rb));
            assert(terms_eq(a, b) ==> terms_eq(ra, rb));
            assert(terms_lt(b, c) ==> terms_lt(rb, rc));
            assert(terms_eq(b, c) ==> terms_eq(rb, rc));
            lemma_terms_trans(ra, rb, rc);
            assert(term_eq(a[0], c[0]));
            if terms_lt(ra, rc) {
                assert(terms_lt(a, c));
            } else {
                assert(terms_eq(ra, rc));
                assert forall|i: int| 0 <= i < a.len() implies term_eq(#[trigger] a[i], c[i]) by {
                    if i > 0 {
                        assert(ra[i - 1] == a[i]);
                        assert(rc[i - 1] == c[i]);
                    }
                }
            }
        }
    }
}

/// The term order is asymmetric: a strictly smaller list is neither equal
/// to nor strictly above the other.
proof fn lemma_terms_asym(a: Seq<Term>, b: Seq<Term>)
    requires
        terms_wf(a),
        terms_wf(b),
        a.len() == b.len(),
        terms_lt(a, b),
    ensures
        !terms_lt(b, a),
        !terms_eq(a, b),
        !terms_eq(b, a),
    decreases a.len(),
{
    if a.len() > 0 {
        if term_lt(a[0], b[0]) {
            assert(!term_lt(b[0], a[0]));
            assert(!term_eq(b[0], a[0]));
            assert(!term_eq(a[0], b[0]));
        } else {
            assert(term_eq(a[0], b[0]));
            let ra = a.drop_first();
            let rb = b.drop_first();
            assert forall|i: int| 0 <= i < ra.len() implies (#[trigger] ra[i]).coefficient.wf()
                by {
                assert(ra[i] == a[i + 1]);
            }
            assert forall|i: int| 0 <= i < rb.len() implies (#[trigger] rb[i]).coefficient.wf()
                by {
                assert(rb[i] == b[i + 1]);
            }
            lemma_terms_asym(ra, rb);
            assert(!term_lt(b[0], a[0]));
            if terms_eq(a, b) {
                assert forall|i: int| 0 <= i < ra.len() implies term_eq(#[trigger] ra[i], rb[i])
                    by {
                    assert(ra[i] == a[i + 1]);
                    assert(rb[i] == b[i + 1]);
                }
            }
            if terms_eq(b, a) {
                assert forall|i: int| 0 <= i < rb.len() implies term_eq(#[trigger] rb[i], ra[i])
                    by {
                    assert(rb[i] == b[i + 1]);
                    assert(ra[i] == a[i + 1]);
                }
            }
        }
    }
}

/// The canonical constraint order is transitive.
pub proof fn lemma_cinfo_le_trans(a: ConstraintInfo, b: ConstraintInfo, c: ConstraintInfo)
    requires
        cinfo_wf(a),
        cinfo_wf(b),
        cinfo_wf(c),
        cinfo_le(a, b),
        cinfo_le(b, c),
    ensures
        cinfo_le(a, c),
{
    let aq = a.constant.q();
    let bq = b.constant.q();
    let cq = c.constant.q();
    if q_lt(aq, bq) && q_lt(bq, cq) {
        lemma_q_lt_trans(aq, bq, cq);
    } else if q_lt(aq, bq) && q_eq(bq, cq) {
        lemma_q_le_congr(aq, aq, bq, cq);
    } else if q_eq(aq, bq) && q_lt(bq, cq) {
        lemma_q_le_congr(bq, aq, cq, cq);
    } else {
        lemma_q_eq_trans(aq, bq, cq);
        if a.terms@.len() == b.terms@.len() && b.terms@.len() == c.terms@.len() && a.positive
            == b.positive && b.positive == c.positive && a.strength == b.strength && b.strength
            == c.strength {
            lemma_terms_trans(a.terms@, b.terms@, c.terms@);
        }
    }
}

/// Content equality of constraints is an equivalence: reflexive, symmetric,
/// and transitive.  This is the notion under which a redeclared frame counts
/// as "the same" during diffing, and the tag never takes part in it.
pub proof fn lemma_cinfo_eq_equivalence(a: ConstraintInfo, b: ConstraintInfo, c: ConstraintInfo)
    requires
        cinfo_wf(a),
        cinfo_wf(b),
        cinfo_wf(c),
    ensures
        cinfo_eq(a, a),
        cinfo_eq(a, b) ==> cinfo_eq(b, a),
        cinfo_eq(a, b) && cinfo_eq(b, c) ==> cinfo_eq(a, c),
{
    assert forall|i: int| 0 <= i < a.terms@.len() implies term_eq(
        #[trigger] a.terms@[i],
        a.terms@[i],
    ) by {}
    if cinfo_eq(a, b) {
        assert forall|i: int| 0 <= i < b.terms@.len() implies term_eq(
            #[trigger] b.terms@[i],
            a.terms@[i],
        ) by {
            assert(term_eq(a.terms@[i], b.terms@[i]));
        }
    }
    if cinfo_eq(a, b) && cinfo_eq(b, c) {
        assert forall|i: int| 0 <= i < a.terms@.len() implies term_eq(
            #[trigger] a.terms@[i],
            c.terms@[i],
        ) by {
            lemma_term_trans(a.terms@[i], b.terms@[i], c.terms@[i]);
        }
        lemma_q_eq_trans(a.constant.q(), b.constant.q(), c.constant.q());
    }
}

/// The lexicographic term order respects termwise equality.
proof fn lemma_terms_lt_congr(a: Seq<Term>, a2: Seq<Term>, b: Seq<Term>)
    requires
        terms_wf(a),
        terms_wf(a2),
        terms_wf(b),
        terms_eq(a, a2),
    ensures
        terms_lt(a, b) == terms_lt(a2, b),
        terms_lt(b, a) == terms_lt(b, a2),
    decreases a.len(),
{
    if a.len() == 0 || b.len() == 0 {
    } else {
        assert(term_eq(a[0], a2[0]));
        let aq = a[0].coefficient.q();
        let a2q = a2[0].coefficient.q();
        let bq = b[0].coefficient.q();
        lemma_q_le_congr(aq, a2q, bq, bq);
        lemma_q_le_congr(bq, bq, aq, a2q);
        if q_eq(aq, bq) {
            lemma_q_eq_trans(a2q, aq, bq);
        }
        if q_eq(a2q, bq) {
            lemma_q_eq_trans(aq, a2q, bq);
        }
        if q_eq(bq, aq) {
            lemma_q_eq_trans(bq, aq, a2q);
        }
        if q_eq(bq, a2q) {
            lemma_q_eq_trans(bq, a2q, aq);
        }
        assert(term_lt(a[0], b[0]) == term_lt(a2[0], b[0]));
        assert(term_lt(b[0], a[0]) == term_lt(b[0], a2[0]));
        assert(term_eq(a[0], b[0]) == term_eq(a2[0], b[0]));
        assert(term_eq(b[0], a[0]) == term_eq(b[0], a2[0]));
        let ra = a.drop_first();
        let ra2 = a2.drop_first();
        let rb = b.drop_first();
        assert forall|i: int| 0 <= i < ra.len() implies (#[trigger] ra[i]).coefficient.wf()
            && term_eq(ra[i], ra2[i]) by {
            assert(ra[i] == a[i + 1]);
            assert(ra2[i] == a2[i + 1]);
        }
        assert forall|i: int| 0 <= i < ra2.len() implies (#[trigger] ra2[i]).coefficient.wf() by {
            assert(ra2[i] == a2[i + 1]);
        }
        assert forall|i: int| 0 <= i < rb.len() implies (#[trigger] rb[i]).coefficient.wf() by {
            assert(rb[i] == b[i + 1]);
        }
        lemma_terms_lt_congr(ra, ra2, rb);
    }
}

/// The canonical constraint order respects content equality.
pub proof fn lemma_cinfo_le_congr(x: ConstraintInfo, x2: ConstraintInfo, y: ConstraintInfo)
    requires
        cinfo_wf(x),
        cinfo_wf(x2),
        cinfo_wf(y),
        cinfo_eq(x, x2),
    ensures
        cinfo_le(x, y) == cinfo_le(x2, y),
        cinfo_le(y, x) == cinfo_le(y, x2),
{
    let xq = x.constant.q();
    let x2q = x2.constant.q();
    let yq = y.constant.q();
    lemma_q_le_congr(xq, x2q, yq, yq);
    lemma_q_le_congr(yq, yq, xq, x2q);
    if q_eq(xq, yq) {
        lemma_q_eq_trans(x2q, xq, yq);
    }
    if q_eq(x2q, yq) {
        lemma_q_eq_trans(xq, x2q, yq);
    }
    if q_eq(yq, xq) {
        lemma_q_eq_trans(yq, xq, x2q);
    }
    if q_eq(yq, x2q) {
        lemma_q_eq_trans(yq, x2q, xq);
    }
    lemma_terms_lt_congr(x.terms@, x2.terms@, y.terms@);
    // content equality against `y` transfers between `x` and `x2`
    assert forall|i: int|
        0 <= i < x.terms@.len() && terms_eq(x.terms@, y.terms@) implies term_eq(
        #[trigger] x2.terms@[i],
        y.terms@[i],
    ) by {
        lemma_term_trans_flip(x2.terms@[i], x.terms@[i], y.terms@[i]);
    }
    assert forall|i: int|
        0 <= i < x.terms@.len() && terms_eq(x2.terms@, y.terms@) implies term_eq(
        #[trigger] x.terms@[i],
        y.terms@[i],
    ) by {
        lemma_term_trans(x.terms@[i], x2.terms@[i], y.terms@[i]);
    }
    assert forall|i: int|
        0 <= i < x.terms@.len() && terms_eq(y.terms@, x.terms@) implies term_eq(
        #[trigger] y.terms@[i],
        x2.terms@[i],
    ) by {
        lemma_term_trans(y.terms@[i], x.terms@[i], x2.terms@[i]);
    }
    assert forall|i: int|
        0 <= i < x.terms@.len() && terms_eq(y.terms@, x2.terms@) implies term_eq(
        #[trigger] y.terms@[i],
        x.terms@[i],
    ) by {
        lemma_term_trans_flip(y.terms@[i], x2.terms@[i], x.terms@[i]);
    }
}

/// Transitivity of term equality with the middle pair flipped.
proof fn lemma_term_trans_flip(a: Term, b: Term, c: Term)
    requires
        a.coefficient.wf(),
        b.coefficient.wf(),
        c.coefficient.wf(),
        term_eq(b, a),
        term_eq(b, c),
    ensures
        term_eq(a, c),
{
    lemma_q_eq_trans(a.coefficient.q(), b.coefficient.q(), c.coefficient.q());
}

/// Content-equal constraints are not strictly ordered, in either direction.
pub proof fn lemma_cinfo_eq_not_lt(a: ConstraintInfo, b: ConstraintInfo)
    requires
        cinfo_wf(a),
        cinfo_wf(b),
        cinfo_eq(a, b),
    ensures
        !cinfo_lt(a, b),
        !cinfo_lt(b, a),
{
    if terms_lt(a.terms@, b.terms@) {
        lemma_terms_asym(a.terms@, b.terms@);
    }
    if terms_lt(b.terms@, a.terms@) {
        lemma_terms_asym(b.terms@, a.terms@);
        assert forall|i: int| 0 <= i < b.terms@.len() implies term_eq(
            #[trigger] b.terms@[i],
            a.terms@[i],
        ) by {
            assert(term_eq(a.terms@[i], b.terms@[i]));
        }
    }
}

/// A strictly smaller constraint is neither equal nor strictly above.
pub proof fn lemma_cinfo_asym(a: ConstraintInfo, b: ConstraintInfo)
    requires
        cinfo_wf(a),
        cinfo_wf(b),
        cinfo_lt(a, b),
    ensures
        !cinfo_lt(b, a),
        !cinfo_eq(a, b),
        !cinfo_eq(b, a),
{
    if terms_lt(a.terms@, b.terms@) && a.terms@.len() == b.terms@.len() {
        lemma_terms_asym(a.terms@, b.terms@);
    }
    if cinfo_eq(b, a) {
        assert(q_eq(a.constant.q(), b.constant.q()));
        assert forall|i: int| 0 <= i < a.terms@.len() implies term_eq(
            #[trigger] a.terms@[i],
            b.terms@[i],
        ) by {
            assert(term_eq(b.terms@[i], a.terms@[i]));
        }
        assert(cinfo_eq(a, b));
        lemma_cinfo_eq_not_lt(a, b);
    }
    if cinfo_eq(a, b) {
        lemma_cinfo_eq_not_lt(a, b);
    }
}

/// Decides the canonical order of two constraints.
fn cmp_constraints(a: &ConstraintInfo, b: &ConstraintInfo) -> (r: Ordering)
    requires
        cinfo_wf(*a),
        cinfo_wf(*b),
    ensures
        r == Ordering::Less ==> cinfo_lt(*a, *b),
        r == Ordering::Greater ==> cinfo_lt(*b, *a),
        r == Ordering::Equal ==> cinfo_eq(*a, *b),
{
    if a.constant.lt(b.constant) {
        return Ordering::Less;
    }
    if b.constant.lt(a.constant) {
        return Ordering::Greater;
    }
    if a.terms.len() < b.terms.len() {
        return Ordering::Less;
    }
    if a.terms.len() > b.terms.len() {
        return Ordering::Greater;
    }
    if !a.positive && b.positive {
        return Ordering::Less;
    }
    if a.positive && !b.positive {
        return Ordering::Greater;
    }
    let ra = a.strength.rank();
    let rb = b.strength.rank();
    if ra < rb {
        return Ordering::Less;
    }
    if ra > rb {
        return Ordering::Greater;
    }
    proof {
        assert(a.strength == b.strength) by {
            assert(spec_strength_rank(a.strength) == spec_strength_rank(b.strength));
        }
    }
    let mut i: usize = 0;
    while i < a.terms.len()
        invariant
            cinfo_wf(*a),
            cinfo_wf(*b),
            q_eq(a.constant.q(), b.constant.q()),
            a.positive == b.positive,
            a.strength == b.strength,
            a.terms@.len() == b.terms@.len(),
            i <= a.terms@.len(),
            forall|j: int| 0 <= j < i ==> term_eq(#[trigger] a.terms@[j], b.terms@[j]),
        decreases a.terms@.len() - i,
    {
        let ta = a.terms[i];
        let tb = b.terms[i];
        if ta.coefficient.lt(tb.coefficient) {
            proof {
                lemma_terms_lt_at(a.terms@, b.terms@, i as int);
            }
            return Ordering::Less;
        }
        if tb.coefficient.lt(ta.coefficient) {
            proof {
                assert forall|j: int| 0 <= j < i implies term_eq(
                    #[trigger] b.terms@[j],
                    a.terms@[j],
                ) by {
                    assert(term_eq(a.terms@[j], b.terms@[j]));
                }
                lemma_terms_lt_at(b.terms@, a.terms@, i as int);
            }
            return Ordering::Greater;
        }
        match ta.variable.compare_by_id(tb.variable) {
            Ordering::Less => {
                proof {
                    lemma_terms_lt_at(a.terms@, b.terms@, i as int);
                }
                return Ordering::Less;
            },
            Ordering::Greater => {
                proof {
                    assert forall|j: int| 0 <= j < i implies term_eq(
                        #[trigger] b.terms@[j],
                        a.terms@[j],
                    ) by {
                        assert(term_eq(a.terms@[j], b.terms@[j]));
                    }
                    lemma_terms_lt_at(b.terms@, a.terms@, i as int);
                }
                return Ordering::Greater;
            },
            Ordering::Equal => {},
        }
        i += 1;
    }
    Ordering::Equal
}

impl ConstraintInfo {
    /// A structural copy of this constraint record.
    fn duplicate(&self) -> (r: ConstraintInfo)
        ensures
            r.terms@ == self.terms@,
            r.constant == self.constant,
            r.positive == self.positive,
            r.strength == self.strength,
            r.tag == self.tag,
    {
        let mut terms: Vec<Term> = Vec::new();
        let mut i: usize = 0;
        while i < self.terms.len()
            invariant
                i <= self.terms@.len(),
                terms@ == self.terms@.subrange(0, i as int),
            decreases self.terms@.len() - i,
        {
            terms.push(self.terms[i]);
            proof {
                assert(terms@ =~= self.terms@.subrange(0, i + 1 as int));
            }
            i += 1;
        }
        proof {
            assert(terms@ =~= self.terms@);
        }
        ConstraintInfo {
            terms,
            constant: self.constant,
            positive: self.positive,
            strength: self.strength,
            tag: self.tag,
        }
    }
}

/// `p` lists where each entry of `r` stands in `v`: `r` is `v` reordered.
pub open spec fn is_reorder(p: Seq<int>, r: Seq<ConstraintInfo>, v: Seq<ConstraintInfo>) -> bool {
    &&& p.len() == v.len()
    &&& r.len() == v.len()
    &&& p.no_duplicates()
    &&& forall|i: int| 0 <= i < p.len() ==> 0 <= #[trigger] p[i] < v.len()
    &&& forall|i: int| 0 <= i < p.len() ==> #[trigger] r[i] == v[p[i]]
}

/// `p` lists where each entry of `r` has its content in `v`: `r` holds,
/// entry for entry, the constraints declared in `v`, reordered, with only
/// the tags allowed to differ.
pub open spec fn is_reorder_ceq(p: Seq<int>, r: Seq<ConstraintInfo>, v: Seq<ConstraintInfo>) -> bool {
    &&& p.len() == v.len()
    &&& r.len() == v.len()
    &&& p.no_duplicates()
    &&& forall|i: int| 0 <= i < p.len() ==> 0 <= #[trigger] p[i] < v.len()
    &&& forall|i: int| 0 <= i < p.len() ==> cinfo_eq(#[trigger] r[i], v[p[i]])
}

/// Records with the same content fields are content-equal.
proof fn lemma_cinfo_eq_refl_fields(a: ConstraintInfo, b: ConstraintInfo)
    requires
        a.terms@ == b.terms@,
        a.constant == b.constant,
        a.positive == b.positive,
        a.strength == b.strength,
    ensures
        cinfo_eq(a, b),
{
    assert forall|i: int| 0 <= i < a.terms@.len() implies term_eq(
        #[trigger] a.terms@[i],
        b.terms@[i],
    ) by {}
}

/// `q` matches each entry of `a` with a content-equal entry of `b`, no
/// entry of `b` taken twice: `a` declares the same constraint set as `b`,
/// in some order.
pub open spec fn is_ceq_perm(q: Seq<int>, a: Seq<ConstraintInfo>, b: Seq<ConstraintInfo>) -> bool {
    &&& a.len() == b.len()
    &&& q.len() == a.len()
    &&& q.no_duplicates()
    &&& forall|i: int| 0 <= i < q.len() ==> 0 <= #[trigger] q[i] < b.len()
    &&& forall|i: int| 0 <= i < q.len() ==> cinfo_eq(#[trigger] a[i], b[q[i]])
}

/// Every pair of entries stands in the canonical order.
pub open spec fn sorted_cinfo(s: Seq<ConstraintInfo>) -> bool {
    forall|i: int, j: int| 0 <= i < j < s.len() ==> cinfo_le(#[trigger] s[i], #[trigger] s[j])
}

pub open spec fn cinfos_wf(s: Seq<ConstraintInfo>) -> bool {
    forall|i: int| 0 <= i < s.len() ==> cinfo_wf(#[trigger] s[i])
}

/// Brings the declared constraints into the canonical content-based order.
/// An input already in order comes back unchanged.
fn sort_constraints(v: Vec<ConstraintInfo>) -> (r: Vec<ConstraintInfo>)
    requires
        cinfos_wf(v@),
    ensures
        r@.len() == v@.len(),
        r@.to_multiset() == v@.to_multiset(),
        cinfos_wf(r@),
        sorted_cinfo(r@),
        sorted_cinfo(v@) ==> r@ == v@,
        exists|p: Seq<int>| is_reorder(p, r@, v@),
{
    let ghost orig = v@;
    let mut v = v;
    let ghost mut pm = Seq::new(orig.len(), |k: int| k);
    proof {
        assert(is_reorder(pm, v@, orig));
    }
    if v.len() <= 1 {
        proof {
            assert(is_reorder(pm, v@, orig));
        }
        return v;
    }
    let mut i: usize = 1;
    while i < v.len()
        invariant
            cinfos_wf(v@),
            1 <= i <= v@.len(),
            v@.len() == orig.len(),
            v@.len() > 1,
            v@.to_multiset() == orig.to_multiset(),
            forall|p: int, q: int| 0 <= p < q < i ==> cinfo_le(#[trigger] v@[p], #[trigger] v@[q]),
            sorted_cinfo(orig) ==> v@ == orig,
            is_reorder(pm, v@, orig),
        decreases v@.len() - i,
    {
        let ghost before = v@;
        let mut j: usize = 0;
        let mut found = false;
        while j < i && !found
            invariant
                cinfos_wf(v@),
                v@ == before,
                i < v@.len(),
                j <= i,
                forall|p: int| 0 <= p < j ==> cinfo_le(#[trigger] v@[p], v@[i as int]),
                found ==> j < i && cinfo_lt(v@[i as int], v@[j as int]),
            decreases 2 * (i - j) + (if found {
                0int
            } else {
                1int
            }),
        {
            match cmp_constraints(&v[j], &v[i]) {
                Ordering::Greater => {
                    found = true;
                },
                Ordering::Less => {
                    j += 1;
                },
                Ordering::Equal => {
                    j += 1;
                },
            }
        }
        if found {
            let x = v.remove(i);
            v.insert(j, x);
            proof {
                let pm0 = pm;
                pm = pm0.remove(i as int).insert(j as int, pm0[i as int]);
                assert forall|t: int| 0 <= t < pm.len() implies 0 <= #[trigger] pm[t]
                    < orig.len() && v@[t] == orig[pm[t]] by {
                    lemma_insert_remove_index(pm0, i as int, j as int, t);
                    lemma_insert_remove_index(before, i as int, j as int, t);
                }
                assert forall|t: int, u: int|
                    0 <= t < pm.len() && 0 <= u < pm.len() && t != u implies #[trigger] pm[t]
                    != #[trigger] pm[u] by {
                    lemma_insert_remove_index(pm0, i as int, j as int, t);
                    lemma_insert_remove_index(pm0, i as int, j as int, u);
                }
                broadcast use vstd::seq_lib::group_to_multiset_ensures;
                broadcast use vstd::multiset::group_multiset_axioms;

                let r1 = before.remove(i as int);
                let s1 = r1.subrange(0, j as int);
                let s2 = r1.subrange(j as int, r1.len() as int);
                assert(v@ == r1.insert(j as int, x));
                assert(r1 =~= s1 + s2);
                vstd::seq_lib::lemma_multiset_commutative(s1.push(x), s2);
                vstd::seq_lib::lemma_multiset_commutative(s1, s2);
                assert(before.contains(x)) by {
                    assert(before[i as int] == x);
                }
                assert(v@.to_multiset() =~= before.to_multiset());
                // well-formedness and sortedness of the grown prefix
                assert forall|t: int| 0 <= t < v@.len() implies cinfo_wf(#[trigger] v@[t]) by {
                    lemma_insert_remove_index(before, i as int, j as int, t);
                }
                assert forall|p: int, q: int| 0 <= p < q < i + 1 implies cinfo_le(
                    #[trigger] v@[p],
                    #[trigger] v@[q],
                ) by {
                    lemma_insert_remove_index(before, i as int, j as int, p);
                    lemma_insert_remove_index(before, i as int, j as int, q);
                    if p == j {
                        // x against a shifted element
                        if q > j {
                            assert(v@[q] == before[q - 1]);
                            if q - 1 > j {
                                lemma_cinfo_le_trans(x, before[j as int], before[q - 1]);
                            }
                        }
                    } else if q == j {
                        assert(cinfo_le(v@[p], x));
                    }
                }
                if sorted_cinfo(orig) {
                    // cannot happen: the scan found a strictly greater element
                    assert(before == orig);
                    assert(cinfo_le(before[j as int], before[i as int]));
                    lemma_cinfo_asym(before[i as int], before[j as int]);
                    if cinfo_eq(before[j as int], before[i as int]) {
                        lemma_cinfo_eq_not_lt(before[j as int], before[i as int]);
                    }
                    assert(false);
                }
            }
        }
        i += 1;
    }
    proof {
        assert(is_reorder(pm, v@, orig));
    }
    v
}

/// Where each entry of `remove(i)` followed by `insert(j, x)` comes from.
#[verifier::spinoff_prover]
#[verifier::rlimit(100)]
proof fn lemma_insert_remove_index<V>(s: Seq<V>, i: int, j: int, t: int)
    requires
        0 <= i < s.len(),
        0 <= j <= i,
        0 <= t < s.len(),
    ensures
        t < j ==> s.remove(i).insert(j, s[i])[t] == s[t],
        t == j ==> s.remove(i).insert(j, s[i])[t] == s[i],
        j < t <= i ==> s.remove(i).insert(j, s[i])[t] == s[t - 1],
        i < t ==> s.remove(i).insert(j, s[i])[t] == s[t],
{
    let r1 = s.remove(i);
    r1.insert_ensures(j, s[i]);
    s.remove_ensures(i);
}

/// In an injection of `0..n` into `0..n`, some position at or before `k`
/// maps to `k` or beyond, and some position at or after `k` maps to `k` or
/// before.
proof fn lemma_injection_pigeonhole(p: Seq<int>, k: int)
    requires
        p.no_duplicates(),
        forall|i: int| 0 <= i < p.len() ==> 0 <= #[trigger] p[i] < p.len(),
        0 <= k < p.len(),
    ensures
        exists|i: int| 0 <= i <= k && #[trigger] p[i] >= k,
        exists|i: int| k <= i < p.len() && #[trigger] p[i] <= k,
{
    broadcast use vstd::set::group_set_axioms;

    let n = p.len() as int;
    if !(exists|i: int| 0 <= i <= k && #[trigger] p[i] >= k) {
        let pre = p.subrange(0, k + 1);
        assert forall|i: int, j: int|
            0 <= i < pre.len() && 0 <= j < pre.len() && i != j implies pre[i] != pre[j] by {
            assert(pre[i] == p[i] && pre[j] == p[j]);
        }
        pre.unique_seq_to_set();
        assert(pre.to_set().subset_of(vstd::set_lib::set_int_range(0, k))) by {
            assert forall|x: int| pre.to_set().contains(x) implies vstd::set_lib::set_int_range(
                0,
                k,
            ).contains(x) by {
                let i = choose|i: int| 0 <= i < pre.len() && pre[i] == x;
                assert(pre[i] == p[i]);
                assert(p[i] < k);
            }
        }
        vstd::set_lib::lemma_int_range(0, k);
        vstd::set_lib::lemma_len_subset(pre.to_set(), vstd::set_lib::set_int_range(0, k));
        assert(false);
    }
    if !(exists|i: int| k <= i < p.len() && #[trigger] p[i] <= k) {
        let suf = p.subrange(k, n);
        assert forall|i: int, j: int|
            0 <= i < suf.len() && 0 <= j < suf.len() && i != j implies suf[i] != suf[j] by {
            assert(suf[i] == p[k + i] && suf[j] == p[k + j]);
        }
        suf.unique_seq_to_set();
        assert(suf.to_set().subset_of(vstd::set_lib::set_int_range(k + 1, n))) by {
            assert forall|x: int| suf.to_set().contains(x) implies vstd::set_lib::set_int_range(
                k + 1,
                n,
            ).contains(x) by {
                let i = choose|i: int| 0 <= i < suf.len() && suf[i] == x;
                assert(suf[i] == p[k + i]);
                assert(p[k + i] > k);
            }
        }
        vstd::set_lib::lemma_int_range(k + 1, n);
        vstd::set_lib::lemma_len_subset(suf.to_set(), vstd::set_lib::set_int_range(k + 1, n));
        assert(false);
    }
}

/// The canonical order leaves a constraint set only one arrangement: two
/// sorted lists whose entries correspond one-to-one with equal content —
/// however the correspondence permutes them — are equal position by
/// position.  This is why sorting before the diff makes a frame's
/// declaration order irrelevant.
pub proof fn lemma_canonical_order_is_unique(
    a: Seq<ConstraintInfo>,
    b: Seq<ConstraintInfo>,
    p: Seq<int>,
)
    requires
        cinfos_wf(a),
        cinfos_wf(b),
        sorted_cinfo(a),
        sorted_cinfo(b),
        a.len() == b.len(),
        p.len() == a.len(),
        p.no_duplicates(),
        forall|i: int| 0 <= i < p.len() ==> 0 <= #[trigger] p[i] < b.len(),
        forall|i: int| 0 <= i < p.len() ==> cinfo_eq(#[trigger] a[i], b[p[i]]),
    ensures
        lists_ceq(a, b),
{
    assert forall|k: int| 0 <= k < a.len() implies cinfo_eq(#[trigger] a[k], b[k]) by {
        lemma_injection_pigeonhole(p, k);
        let i1 = choose|i: int| 0 <= i <= k && #[trigger] p[i] >= k;
        let i2 = choose|i: int| k <= i < p.len() && #[trigger] p[i] <= k;
        // b[k] <= b[p[i1]] ~ a[i1] <= a[k]
        lemma_cinfo_eq_equivalence(a[i1], b[p[i1]], b[p[i1]]);
        lemma_cinfo_eq_equivalence(a[i2], b[p[i2]], b[p[i2]]);
        lemma_cinfo_eq_equivalence(b[k], b[k], b[k]);
        lemma_cinfo_eq_equivalence(a[k], a[k], a[k]);
        assert(cinfo_le(b[k], b[p[i1]]));
        lemma_cinfo_le_congr(b[p[i1]], a[i1], b[k]);
        assert(cinfo_le(a[i1], a[k]));
        lemma_cinfo_le_trans(b[k], a[i1], a[k]);
        assert(cinfo_le(a[k], a[i2]));
        lemma_cinfo_le_congr(b[p[i2]], a[i2], a[k]);
        assert(cinfo_le(a[k], b[p[i2]]));
        assert(cinfo_le(b[p[i2]], b[k]));
        lemma_cinfo_le_trans(a[k], b[p[i2]], b[k]);
        if cinfo_lt(a[k], b[k]) {
            lemma_cinfo_asym(a[k], b[k]);
            assert(false);
        }
    }
}

/// Pushing the next surviving constraint keeps the merge result sorted and
/// below everything the new generation still holds.
proof fn lemma_merge_push(
    res: Seq<ConstraintInfo>,
    sorted: Seq<ConstraintInfo>,
    ni: int,
    it: ConstraintInfo,
)
    requires
        cinfos_wf(res),
        cinfos_wf(sorted),
        sorted_cinfo(res),
        sorted_cinfo(sorted),
        0 <= ni < sorted.len(),
        forall|t: int, u: int|
            0 <= t < res.len() && ni <= u < sorted.len() ==> cinfo_le(
                #[trigger] res[t],
                #[trigger] sorted[u],
            ),
        it.terms@ == sorted[ni].terms@,
        it.constant == sorted[ni].constant,
        it.positive == sorted[ni].positive,
        it.strength == sorted[ni].strength,
    ensures
        cinfo_wf(it),
        cinfos_wf(res.push(it)),
        sorted_cinfo(res.push(it)),
        forall|t: int, u: int|
            0 <= t < res.push(it).len() && ni + 1 <= u < sorted.len() ==> cinfo_le(
                #[trigger] res.push(it)[t],
                #[trigger] sorted[u],
            ),
{
    let r2 = res.push(it);
    assert(cinfo_eq(sorted[ni], it)) by {
        assert forall|i: int| 0 <= i < sorted[ni].terms@.len() implies term_eq(
            #[trigger] sorted[ni].terms@[i],
            it.terms@[i],
        ) by {}
    }
    assert forall|i: int| 0 <= i < r2.len() implies cinfo_wf(#[trigger] r2[i]) by {
        if i < res.len() {
            assert(r2[i] == res[i]);
        } else {
            assert(r2[i] == it);
        }
    }
    assert forall|a: int, b: int| 0 <= a < b < r2.len() implies cinfo_le(
        #[trigger] r2[a],
        #[trigger] r2[b],
    ) by {
        if b < res.len() {
            assert(r2[a] == res[a] && r2[b] == res[b]);
        } else {
            assert(r2[a] == res[a] && r2[b] == it);
            assert(cinfo_le(res[a], sorted[ni]));
            lemma_cinfo_le_congr(sorted[ni], it, res[a]);
        }
    }
    assert forall|t: int, u: int| 0 <= t < r2.len() && ni + 1 <= u < sorted.len() implies cinfo_le(
        #[trigger] r2[t],
        #[trigger] sorted[u],
    ) by {
        if t < res.len() {
            assert(r2[t] == res[t]);
        } else {
            assert(r2[t] == it);
            assert(cinfo_le(sorted[ni], sorted[u]));
            lemma_cinfo_le_congr(sorted[ni], it, sorted[u]);
        }
    }
}

/// Pointwise content equality of two constraint lists.
pub open spec fn lists_ceq(a: Seq<ConstraintInfo>, b: Seq<ConstraintInfo>) -> bool {
    a.len() == b.len() && forall|i: int| 0 <= i < a.len() ==> cinfo_eq(#[trigger] a[i], b[i])
}

/// The solved value of a variable as the solver reports it: the constant of
/// its row when basic, zero otherwise.
pub open spec fn spec_var_value(s: Solver, v: Var) -> (int, int) {
    match assoc_get(s.rows_view(), spec_from_var(v)) {
        Some(row) => row.constant_q(),
        None => (0int, 1int),
    }
}

/// `Σ coefficient · solved value` over a term list.
pub open spec fn spec_eval_terms(s: Solver, ts: Seq<Term>) -> (int, int)
    decreases ts.len(),
{
    if ts.len() == 0 {
        (0int, 1int)
    } else {
        q_add(
            spec_eval_terms(s, ts.drop_last()),
            q_mul(ts.last().coefficient.q(), spec_var_value(s, ts.last().variable)),
        )
    }
}

/// The conservative magnitude of evaluating a term list: the triangle fold
/// of the products of coefficient and solved value, before any reduction.
pub open spec fn eval_mag(s: Solver, ts: Seq<Term>) -> (int, int)
    decreases ts.len(),
{
    if ts.len() == 0 {
        (0int, 1int)
    } else {
        let md = eval_mag(s, ts.drop_last());
        let co = ts.last().coefficient.q();
        let vv = spec_var_value(s, ts.last().variable);
        let pm = q_abs(co.0) * q_abs(vv.0);
        let pd = co.1 * vv.1;
        (md.0 * pd + pm * md.1, md.1 * pd)
    }
}

/// Every step of the evaluation stays within the 64-bit range, taken
/// conservatively: each product and each running sum fits even before
/// reduction.
pub open spec fn eval_fits(s: Solver, ts: Seq<Term>) -> bool
    decreases ts.len(),
{
    if ts.len() == 0 {
        true
    } else {
        let md = eval_mag(s, ts.drop_last());
        let co = ts.last().coefficient.q();
        let vv = spec_var_value(s, ts.last().variable);
        let pm = q_abs(co.0) * q_abs(vv.0);
        let pd = co.1 * vv.1;
        &&& eval_fits(s, ts.drop_last())
        &&& q_fits(q_mul(co, vv))
        &&& md.0 * pd + pm * md.1 <= i64::MAX as int
        &&& md.1 * pd <= i64::MAX as int
    }
}

/// The conservative magnitude is a nonnegative bound over a positive
/// denominator.
proof fn lemma_eval_mag_pos(s: Solver, ts: Seq<Term>)
    requires
        s.wf(),
        terms_wf(ts),
    ensures
        eval_mag(s, ts).0 >= 0,
        eval_mag(s, ts).1 > 0,
    decreases ts.len(),
{
    if ts.len() > 0 {
        let rest = ts.drop_last();
        assert forall|i: int| 0 <= i < rest.len() implies (#[trigger] rest[i]).coefficient.wf()
            by {
            assert(rest[i] == ts[i]);
        }
        lemma_eval_mag_pos(s, rest);
        lemma_var_value_den_pos(s, ts.last().variable);
        let md = eval_mag(s, rest);
        let co = ts.last().coefficient.q();
        let vv = spec_var_value(s, ts.last().variable);
        assert(md.0 * (co.1 * vv.1) + (q_abs(co.0) * q_abs(vv.0)) * md.1 >= 0 && md.1 * (co.1
            * vv.1) > 0) by (nonlinear_arith)
            requires
                md.0 >= 0,
                md.1 > 0,
                co.1 > 0,
                vv.1 > 0,
                q_abs(co.0) >= 0,
                q_abs(vv.0) >= 0,
        ;
    }
}

/// Whatever fits for a whole term list fits for each of its prefixes.
proof fn lemma_eval_fits_prefix(s: Solver, ts: Seq<Term>, n: int)
    requires
        0 <= n <= ts.len(),
        eval_fits(s, ts),
    ensures
        eval_fits(s, ts.subrange(0, n)),
    decreases ts.len(),
{
    if n == ts.len() {
        assert(ts.subrange(0, n) =~= ts);
    } else {
        assert(ts.drop_last().subrange(0, n) =~= ts.subrange(0, n));
        lemma_eval_fits_prefix(s, ts.drop_last(), n);
    }
}

/// The whole evaluation of an expression under the solver stays within the
/// 64-bit range, conservatively.
pub open spec fn prev_value_fits(s: Solver, constant: Rational, ts: Seq<Term>) -> bool {
    let em = eval_mag(s, ts);
    &&& eval_fits(s, ts)
    &&& q_abs(constant.q().0) * em.1 + em.0 * constant.q().1 <= i64::MAX as int
    &&& constant.q().1 * em.1 <= i64::MAX as int
}

/// A solved value is a well-formed rational.
proof fn lemma_var_value_den_pos(s: Solver, v: Var)
    requires
        s.wf(),
    ensures
        spec_var_value(s, v).1 > 0,
{
    crate::assoc::lemma_assoc_get_some(s.rows_view(), spec_from_var(v));
    if crate::assoc::assoc_has(s.rows_view(), spec_from_var(v)) {
        let i = choose|i: int|
            0 <= i < s.rows_view().len() && (#[trigger] s.rows_view()[i]).0 == spec_from_var(v);
        crate::assoc::lemma_assoc_get_at(s.rows_view(), i);
    } else {
        crate::assoc::lemma_assoc_get_absent(s.rows_view(), spec_from_var(v));
    }
}

/// The evaluation of a term list is a well-formed rational.
proof fn lemma_eval_den_pos(s: Solver, ts: Seq<Term>)
    requires
        s.wf(),
        terms_wf(ts),
    ensures
        spec_eval_terms(s, ts).1 > 0,
    decreases ts.len(),
{
    if ts.len() > 0 {
        let rest = ts.drop_last();
        assert forall|i: int| 0 <= i < rest.len() implies (#[trigger] rest[i]).coefficient.wf()
            by {
            assert(rest[i] == ts[i]);
        }
        lemma_eval_den_pos(s, rest);
        lemma_var_value_den_pos(s, ts.last().variable);
        lemma_q_pos(ts.last().coefficient.q().1, spec_var_value(s, ts.last().variable).1);
        lemma_q_pos(
            spec_eval_terms(s, rest).1,
            ts.last().coefficient.q().1 * spec_var_value(s, ts.last().variable).1,
        );
    }
}

/// The frame-level constraint-diffing facade around one solver.
pub struct Layout {
    size: Vec2<Rational>,
    solver: Solver,
    current_strength: Strength,
    previous_constraints: Vec<ConstraintInfo>,
    new_constraints: Vec<ConstraintInfo>,
}

impl Layout {
    pub closed spec fn solver_s(self) -> Solver {
        self.solver
    }

    pub closed spec fn size_v(self) -> Vec2<Rational> {
        self.size
    }

    pub closed spec fn strength_s(self) -> Strength {
        self.current_strength
    }

    /// The constraints of the previous frame, each carrying its tag.
    pub closed spec fn prev_list(self) -> Seq<ConstraintInfo> {
        self.previous_constraints@
    }

    /// The constraints declared for the current frame.
    pub closed spec fn new_list(self) -> Seq<ConstraintInfo> {
        self.new_constraints@
    }

    pub open spec fn wf(self) -> bool {
        &&& self.solver_s().wf()
        &&& self.size_v().wf()
        &&& cinfos_wf(self.prev_list())
        &&& cinfos_wf(self.new_list())
        &&& forall|i: int|
            0 <= i < self.prev_list().len() ==> (#[trigger] self.prev_list()[i]).tag is Some
    }

    /// An empty layout: no constraints, a fresh solver, medium strength.
    pub fn new() -> (r: Layout)
        ensures
            r.wf(),
            r.prev_list().len() == 0,
            r.new_list().len() == 0,
            r.strength_s() == Strength::Medium,
            r.solver_s().add_count() == 0,
            r.solver_s().remove_count() == 0,
    {
        Layout {
            size: Vec2::zero(),
            solver: Solver::new(),
            current_strength: Strength::Medium,
            previous_constraints: Vec::new(),
            new_constraints: Vec::new(),
        }
    }

    /// Buffers one declared constraint for the current frame; the solver is
    /// not touched until `solve`.
    pub fn constraint(&mut self, c: Constraint)
        requires
            old(self).wf(),
            c.expr.wf(),
        ensures
            final(self).wf(),
            final(self).new_list() == old(self).new_list().push(
                ConstraintInfo {
                    terms: c.expr.terms,
                    constant: c.expr.constant,
                    positive: c.positive,
                    strength: old(self).strength_s(),
                    tag: None,
                },
            ),
            final(self).prev_list() == old(self).prev_list(),
            final(self).solver_s() == old(self).solver_s(),
            final(self).size_v() == old(self).size_v(),
            final(self).strength_s() == old(self).strength_s(),
    {
        let Constraint { expr, positive } = c;
        let Expr { constant, terms } = expr;
        let info = ConstraintInfo {
            terms,
            constant,
            positive,
            strength: self.current_strength,
            tag: None,
        };
        self.new_constraints.push(info);
    }

    /// Sets the ambient strength given to constraints declared from now on.
    pub fn set_strength(&mut self, strength: Strength)
        requires
            old(self).wf(),
        ensures
            final(self).wf(),
            final(self).strength_s() == strength,
            final(self).new_list() == old(self).new_list(),
            final(self).prev_list() == old(self).prev_list(),
            final(self).solver_s() == old(self).solver_s(),
            final(self).size_v() == old(self).size_v(),
    {
        self.current_strength = strength;
    }

    /// Records the available area; plain data, not solved.
    pub fn resize(&mut self, size: Vec2<Rational>)
        requires
            old(self).wf(),
            size.wf(),
        ensures
            final(self).wf(),
            final(self).size_v() == size,
            final(self).new_list() == old(self).new_list(),
            final(self).prev_list() == old(self).prev_list(),
            final(self).solver_s() == old(self).solver_s(),
            final(self).strength_s() == old(self).strength_s(),
    {
        self.size = size;
    }

    /// The recorded available area.
    pub fn size(&self) -> (s: Vec2<Rational>)
        ensures
            s == self.size_v(),
    {
        self.size
    }

    /// Read-only access to the underlying solver.
    pub fn solver(&self) -> (r: &Solver)
        ensures
            *r == self.solver_s(),
    {
        &self.solver
    }

    /// Sorts the declared constraints into the canonical order, diffs them
    /// against the previous frame's set, inserts only the genuinely new
    /// constraints, retracts only the stale ones, and makes the new set the
    /// previous one for the next frame.
    ///
    /// A frame that redeclares exactly the previous frame's constraints in
    /// the canonical order leaves the solver completely untouched.
    ///
    /// Errors report the solver's checked internal failures; they are not a
    /// user-level condition.  After an error the solver is well formed but
    /// the frame's diff is incomplete, so the layout should be discarded.
    pub fn solve(&mut self) -> (r: Result<(), SolverError>)
        requires
            old(self).wf(),
        ensures
            final(self).wf(),
            r is Ok ==> final(self).new_list().len() == 0,
            final(self).size_v() == old(self).size_v(),
            final(self).strength_s() == old(self).strength_s(),
            r is Ok ==> sorted_cinfo(final(self).prev_list()),
            r is Ok ==> exists|p: Seq<int>|
                is_reorder_ceq(p, final(self).prev_list(), old(self).new_list()),
            sorted_cinfo(old(self).prev_list()) && (exists|q: Seq<int>|
                is_ceq_perm(q, old(self).new_list(), old(self).prev_list())) ==> r is Ok
                && final(self).solver_s() == old(self).solver_s(),
    {
        let ghost h = sorted_cinfo(old(self).prev_list()) && (exists|q: Seq<int>|
            is_ceq_perm(q, old(self).new_list(), old(self).prev_list()));
        let mut newv: Vec<ConstraintInfo> = Vec::new();
        mem::swap(&mut newv, &mut self.new_constraints);
        let ghost new0 = newv@;
        let sorted = sort_constraints(newv);
        let ghost prev0 = self.previous_constraints@;
        proof {
            if h {
                // The sort reorders the declarations; composing that
                // reordering with the declared-set matching yields a
                // content matching between the sorted list and the previous
                // generation, which the canonical order then flattens into
                // a position-by-position equality.
                let pperm = choose|pp: Seq<int>| is_reorder(pp, sorted@, new0);
                let q = choose|qq: Seq<int>| is_ceq_perm(qq, new0, prev0);
                let comp = Seq::new(pperm.len(), |k: int| q[pperm[k]]);
                assert forall|k: int, u: int|
                    0 <= k < comp.len() && 0 <= u < comp.len() && k != u implies #[trigger] comp[k]
                    != #[trigger] comp[u] by {
                    assert(pperm[k] != pperm[u]);
                }
                assert forall|k: int| 0 <= k < comp.len() implies 0 <= #[trigger] comp[k]
                    < prev0.len() && cinfo_eq(sorted@[k], prev0[comp[k]]) by {
                    assert(sorted@[k] == new0[pperm[k]]);
                    assert(cinfo_eq(new0[pperm[k]], prev0[q[pperm[k]]]));
                }
                lemma_canonical_order_is_unique(sorted@, prev0, comp);
                assert(lists_ceq(sorted@, prev0));
            }
        }
        let mut result: Vec<ConstraintInfo> = Vec::new();
        let mut pi: usize = 0;
        let mut ni: usize = 0;
        while pi < self.previous_constraints.len() && ni < sorted.len()
            invariant
                self.solver.wf(),
                self.size.wf(),
                self.size == old(self).size_v(),
                self.current_strength == old(self).strength_s(),
                self.new_constraints@.len() == 0,
                prev0 == self.previous_constraints@,
                prev0 == old(self).prev_list(),
                cinfos_wf(prev0),
                forall|i: int| 0 <= i < prev0.len() ==> (#[trigger] prev0[i]).tag is Some,
                cinfos_wf(sorted@),
                cinfos_wf(result@),
                forall|i: int| 0 <= i < result@.len() ==> (#[trigger] result@[i]).tag is Some,
                sorted_cinfo(sorted@),
                sorted_cinfo(result@),
                forall|t: int, u: int|
                    0 <= t < result@.len() && ni <= u < sorted@.len() ==> cinfo_le(
                        #[trigger] result@[t],
                        #[trigger] sorted@[u],
                    ),
                result@.len() == ni,
                forall|t: int| 0 <= t < ni ==> cinfo_eq(#[trigger] result@[t], sorted@[t]),
                pi <= prev0.len(),
                ni <= sorted@.len(),
                h == (sorted_cinfo(old(self).prev_list()) && (exists|q: Seq<int>|
                    is_ceq_perm(q, old(self).new_list(), old(self).prev_list()))),
                new0 == old(self).new_list(),
                exists|pp: Seq<int>| is_reorder(pp, sorted@, new0),
                h ==> lists_ceq(sorted@, prev0),
                h ==> pi == ni && self.solver == old(self).solver_s(),
            decreases (prev0.len() - pi) + (sorted@.len() - ni),
        {
            let ord = cmp_constraints(&self.previous_constraints[pi], &sorted[ni]);
            proof {
                if h {
                    assert(cinfo_eq(sorted@[ni as int], prev0[pi as int]));
                    lemma_cinfo_eq_not_lt(sorted@[ni as int], prev0[pi as int]);
                }
            }
            match ord {
                Ordering::Equal => {
                    let mut it = sorted[ni].duplicate();
                    it.tag = self.previous_constraints[pi].tag;
                    proof {
                        lemma_merge_push(result@, sorted@, ni as int, it);
                        lemma_cinfo_eq_refl_fields(it, sorted@[ni as int]);
                    }
                    result.push(it);
                    pi += 1;
                    ni += 1;
                },
                Ordering::Greater => {
                    // The new constraint sorts before every remaining
                    // previous one: it is genuinely new.
                    proof {
                        if h {
                            assert(false);
                        }
                    }
                    let it = sorted[ni].duplicate();
                    let tag = match self.solver.add_constraint(
                        it.positive,
                        it.constant,
                        it.terms.as_slice(),
                        it.strength,
                    ) {
                        Ok(t) => t,
                        Err(e) => {
                            return Err(e);
                        },
                    };
                    let mut it2 = it;
                    it2.tag = Some(tag);
                    proof {
                        lemma_merge_push(result@, sorted@, ni as int, it2);
                        lemma_cinfo_eq_refl_fields(it2, sorted@[ni as int]);
                    }
                    result.push(it2);
                    ni += 1;
                },
                Ordering::Less => {
                    // The previous constraint no longer occurs: it is stale.
                    proof {
                        if h {
                            assert(false);
                        }
                    }
                    let tag = match self.previous_constraints[pi].tag {
                        Some(t) => t,
                        None => {
                            proof {
                                assert(false);
                            }
                            return Err(SolverError::Internal);
                        },
                    };
                    match self.solver.remove_constraint(tag) {
                        Ok(u) => u,
                        Err(e) => {
                            return Err(e);
                        },
                    };
                    pi += 1;
                },
            }
        }
        while ni < sorted.len()
            invariant
                self.solver.wf(),
                self.size.wf(),
                self.size == old(self).size_v(),
                self.current_strength == old(self).strength_s(),
                self.new_constraints@.len() == 0,
                prev0 == self.previous_constraints@,
                prev0 == old(self).prev_list(),
                cinfos_wf(prev0),
                forall|i: int| 0 <= i < prev0.len() ==> (#[trigger] prev0[i]).tag is Some,
                cinfos_wf(sorted@),
                cinfos_wf(result@),
                forall|i: int| 0 <= i < result@.len() ==> (#[trigger] result@[i]).tag is Some,
                sorted_cinfo(sorted@),
                sorted_cinfo(result@),
                forall|t: int, u: int|
                    0 <= t < result@.len() && ni <= u < sorted@.len() ==> cinfo_le(
                        #[trigger] result@[t],
                        #[trigger] sorted@[u],
                    ),
                result@.len() == ni,
                forall|t: int| 0 <= t < ni ==> cinfo_eq(#[trigger] result@[t], sorted@[t]),
                ni <= sorted@.len(),
                h ==> ni == sorted@.len() && self.solver == old(self).solver_s(),
                h == (sorted_cinfo(old(self).prev_list()) && (exists|q: Seq<int>|
                    is_ceq_perm(q, old(self).new_list(), old(self).prev_list()))),
                new0 == old(self).new_list(),
                exists|pp: Seq<int>| is_reorder(pp, sorted@, new0),
            decreases sorted@.len() - ni,
        {
            let it = sorted[ni].duplicate();
            let tag = match self.solver.add_constraint(
                it.positive,
                it.constant,
                it.terms.as_slice(),
                it.strength,
            ) {
                Ok(t) => t,
                Err(e) => {
                    return Err(e);
                },
            };
            let mut it2 = it;
            it2.tag = Some(tag);
            proof {
                lemma_merge_push(result@, sorted@, ni as int, it2);
                lemma_cinfo_eq_refl_fields(it2, sorted@[ni as int]);
            }
            result.push(it2);
            ni += 1;
        }
        while pi < self.previous_constraints.len()
            invariant
                self.solver.wf(),
                self.size.wf(),
                self.size == old(self).size_v(),
                self.current_strength == old(self).strength_s(),
                self.new_constraints@.len() == 0,
                prev0 == self.previous_constraints@,
                prev0 == old(self).prev_list(),
                cinfos_wf(prev0),
                forall|i: int| 0 <= i < prev0.len() ==> (#[trigger] prev0[i]).tag is Some,
                cinfos_wf(result@),
                forall|i: int| 0 <= i < result@.len() ==> (#[trigger] result@[i]).tag is Some,
                sorted_cinfo(result@),
                result@.len() == sorted@.len(),
                forall|t: int|
                    0 <= t < result@.len() ==> cinfo_eq(#[trigger] result@[t], sorted@[t]),
                new0 == old(self).new_list(),
                exists|pp: Seq<int>| is_reorder(pp, sorted@, new0),
                pi <= prev0.len(),
                h ==> pi == prev0.len() && self.solver == old(self).solver_s(),
                h == (sorted_cinfo(old(self).prev_list()) && (exists|q: Seq<int>|
                    is_ceq_perm(q, old(self).new_list(), old(self).prev_list()))),
            decreases prev0.len() - pi,
        {
            let tag = match self.previous_constraints[pi].tag {
                Some(t) => t,
                None => {
                    proof {
                        assert(false);
                    }
                    return Err(SolverError::Internal);
                },
            };
            match self.solver.remove_constraint(tag) {
                Ok(u) => u,
                Err(e) => {
                    return Err(e);
                },
            };
            pi += 1;
        }
        proof {
            let pm = choose|pp: Seq<int>| is_reorder(pp, sorted@, new0);
            assert forall|i: int| 0 <= i < pm.len() implies cinfo_eq(
                #[trigger] result@[i],
                new0[pm[i]],
            ) by {
                assert(sorted@[i] == new0[pm[i]]);
                assert(cinfo_eq(result@[i], sorted@[i]));
            }
            assert(is_reorder_ceq(pm, result@, new0));
        }
        self.previous_constraints = result;
        Ok(())
    }

    /// Evaluates `constant + Σ coefficient · solved value` for an expression,
    /// treating a variable with no basic row as zero.
    pub fn prev_value(&self, expr: &Expr) -> (r: Option<Rational>)
        requires
            self.wf(),
            expr.wf(),
        ensures
            r matches Some(v) ==> v.wf() && q_eq(
                v.q(),
                q_add(expr.constant.q(), spec_eval_terms(self.solver_s(), expr.terms@)),
            ),
            prev_value_fits(self.solver_s(), expr.constant, expr.terms@) ==> r is Some,
    {
        let ghost ts = expr.terms@;
        let mut acc = Rational::zero();
        proof {
            assert(ts.subrange(0, 0) =~= Seq::<Term>::empty());
        }
        let mut i: usize = 0;
        while i < expr.terms.len()
            invariant
                self.wf(),
                expr.wf(),
                ts == expr.terms@,
                i <= ts.len(),
                acc.wf(),
                q_eq(acc.q(), spec_eval_terms(self.solver_s(), ts.subrange(0, i as int))),
                -(eval_mag(self.solver_s(), ts.subrange(0, i as int)).0) <= acc.q().0,
                acc.q().0 <= eval_mag(self.solver_s(), ts.subrange(0, i as int)).0,
                acc.q().1 <= eval_mag(self.solver_s(), ts.subrange(0, i as int)).1,
            decreases ts.len() - i,
        {
            let ghost pre = ts.subrange(0, i as int);
            let ghost cur = ts.subrange(0, i + 1 as int);
            proof {
                assert(cur.drop_last() =~= pre);
                assert(cur.last() == ts[i as int]);
                assert forall|jj: int| 0 <= jj < pre.len() implies (
                #[trigger] pre[jj]).coefficient.wf() by {
                    assert(pre[jj] == ts[jj]);
                }
                lemma_eval_mag_pos(self.solver_s(), pre);
            }
            let t = expr.terms[i];
            let val = match self.solver.get_value(t.variable) {
                Some(v) => v,
                None => Rational::zero(),
            };
            proof {
                crate::assoc::lemma_assoc_get_some(self.solver_s().rows_view(), spec_from_var(
                    t.variable,
                ));
                assert(val.q() == spec_var_value(self.solver_s(), t.variable));
            }
            let ghost vv = spec_var_value(self.solver_s(), t.variable);
            let ghost co = t.coefficient.q();
            let ghost md = eval_mag(self.solver_s(), pre);
            let ghost pm = q_abs(co.0) * q_abs(vv.0);
            let ghost pd = co.1 * vv.1;
            let p = match t.coefficient.checked_mul(val) {
                Some(v) => v,
                None => {
                    proof {
                        if eval_fits(self.solver_s(), ts) {
                            lemma_eval_fits_prefix(self.solver_s(), ts, i + 1 as int);
                            assert(q_fits(q_mul(co, vv)));
                        }
                    }
                    return None;
                },
            };
            proof {
                assert(-pm <= p.q().0 <= pm && 0 < p.q().1 <= pd && pm >= 0)
                    by (nonlinear_arith)
                    requires
                        (co.0 * vv.0 >= 0 ==> 0 <= p.q().0 <= co.0 * vv.0),
                        (co.0 * vv.0 < 0 ==> co.0 * vv.0 <= p.q().0 <= 0),
                        0 < p.q().1 <= co.1 * vv.1,
                        pm == q_abs(co.0) * q_abs(vv.0),
                        pd == co.1 * vv.1,
                        q_abs(co.0) == (if co.0 >= 0 {
                            co.0
                        } else {
                            -co.0
                        }),
                        q_abs(vv.0) == (if vv.0 >= 0 {
                            vv.0
                        } else {
                            -vv.0
                        }),
                ;
            }
            let acc2 = match acc.checked_add(p) {
                Some(v) => v,
                None => {
                    proof {
                        if eval_fits(self.solver_s(), ts) {
                            lemma_eval_fits_prefix(self.solver_s(), ts, i + 1 as int);
                            crate::rational::lemma_mag_add_fits(
                                acc.q(),
                                p.q(),
                                md.0,
                                md.1,
                                pm,
                                pd,
                            );
                        }
                    }
                    return None;
                },
            };
            proof {
                lemma_eval_den_pos(self.solver_s(), pre);
                lemma_q_pos(t.coefficient.q().1, val.q().1);
                lemma_q_add_congr(
                    acc.q(),
                    spec_eval_terms(self.solver_s(), pre),
                    p.q(),
                    q_mul(t.coefficient.q(), vv),
                );
                lemma_q_pos(acc.q().1, p.q().1);
                lemma_q_eq_trans(
                    acc2.q(),
                    q_add(acc.q(), p.q()),
                    q_add(
                        spec_eval_terms(self.solver_s(), pre),
                        q_mul(t.coefficient.q(), vv),
                    ),
                );
                assert(eval_mag(self.solver_s(), cur) == (md.0 * pd + pm * md.1, md.1 * pd));
                assert(-(md.0 * pd + pm * md.1) <= acc2.q().0 <= md.0 * pd + pm * md.1 && 0
                    < acc2.q().1 <= md.1 * pd) by (nonlinear_arith)
                    requires
                        (q_add(acc.q(), p.q()).0 >= 0 ==> 0 <= acc2.q().0 <= q_add(
                            acc.q(),
                            p.q(),
                        ).0),
                        (q_add(acc.q(), p.q()).0 < 0 ==> q_add(acc.q(), p.q()).0 <= acc2.q().0
                            <= 0),
                        0 < acc2.q().1 <= q_add(acc.q(), p.q()).1,
                        q_add(acc.q(), p.q()) == (
                            acc.q().0 * p.q().1 + p.q().0 * acc.q().1,
                            acc.q().1 * p.q().1,
                        ),
                        -md.0 <= acc.q().0 <= md.0,
                        0 < acc.q().1 <= md.1,
                        -pm <= p.q().0 <= pm,
                        0 < p.q().1 <= pd,
                        md.0 >= 0,
                        pm >= 0,
                ;
            }
            acc = acc2;
            i += 1;
        }
        proof {
            assert(ts.subrange(0, ts.len() as int) =~= ts);
        }
        let out = match expr.constant.checked_add(acc) {
            Some(v) => v,
            None => {
                proof {
                    if prev_value_fits(self.solver_s(), expr.constant, ts) {
                        let em = eval_mag(self.solver_s(), ts);
                        let cq = expr.constant.q();
                        lemma_eval_mag_pos(self.solver_s(), ts);
                        crate::rational::lemma_mag_add_fits(
                            cq,
                            acc.q(),
                            q_abs(cq.0),
                            cq.1,
                            em.0,
                            em.1,
                        );
                    }
                }
                return None;
            },
        };
        proof {
            lemma_eval_den_pos(self.solver_s(), ts);
            lemma_q_add_congr(
                expr.constant.q(),
                expr.constant.q(),
                acc.q(),
                spec_eval_terms(self.solver_s(), ts),
            );
            lemma_q_pos(expr.constant.q().1, acc.q().1);
            lemma_q_eq_trans(
                out.q(),
                q_add(expr.constant.q(), acc.q()),
                q_add(expr.constant.q(), spec_eval_terms(self.solver_s(), ts)),
            );
        }
        Some(out)
    }

    /// `prev_value` on both components of a vector of expressions.
    pub fn prev_value_vec(&self, v: Vec2<Expr>) -> (r: Option<Vec2<Rational>>)
        requires
            self.wf(),
            v.x.wf(),
            v.y.wf(),
        ensures
            r matches Some(w) ==> w.wf() && q_eq(
                w.x.q(),
                q_add(v.x.constant.q(), spec_eval_terms(self.solver_s(), v.x.terms@)),
            ) && q_eq(w.y.q(), q_add(v.y.constant.q(), spec_eval_terms(self.solver_s(), v.y.terms@))),
            prev_value_fits(self.solver_s(), v.x.constant, v.x.terms@) && prev_value_fits(
                self.solver_s(),
                v.y.constant,
                v.y.terms@,
            ) ==> r is Some,
    {
        let x = match self.prev_value(&v.x) {
            Some(a) => a,
            None => {
                return None;
            },
        };
        let y = match self.prev_value(&v.y) {
            Some(a) => a,
            None => {
                return None;
            },
        };
        Some(Vec2 { x, y })
    }

    /// `prev_value` on all four edges of a rectangle of expressions.
    pub fn prev_value_rect(&self, rect: Rect<Expr>) -> (r: Option<Rect<Rational>>)
        requires
            self.wf(),
            rect.left.wf(),
            rect.right.wf(),
            rect.top.wf(),
            rect.bottom.wf(),
        ensures
            r matches Some(w) ==> w.wf() && q_eq(
                w.left.q(),
                q_add(rect.left.constant.q(), spec_eval_terms(self.solver_s(), rect.left.terms@)),
            ) && q_eq(
                w.right.q(),
                q_add(rect.right.constant.q(), spec_eval_terms(self.solver_s(), rect.right.terms@)),
            ) && q_eq(
                w.top.q(),
                q_add(rect.top.constant.q(), spec_eval_terms(self.solver_s(), rect.top.terms@)),
            ) && q_eq(
                w.bottom.q(),
                q_add(
                    rect.bottom.constant.q(),
                    spec_eval_terms(self.solver_s(), rect.bottom.terms@),
                ),
            ),
            prev_value_fits(self.solver_s(), rect.left.constant, rect.left.terms@)
                && prev_value_fits(self.solver_s(), rect.right.constant, rect.right.terms@)
                && prev_value_fits(self.solver_s(), rect.top.constant, rect.top.terms@)
                && prev_value_fits(self.solver_s(), rect.bottom.constant, rect.bottom.terms@)
                ==> r is Some,
    {
        let left = match self.prev_value(&rect.left) {
            Some(a) => a,
            None => {
                return None;
            },
        };
        let right = match self.prev_value(&rect.right) {
            Some(a) => a,
            None => {
                return None;
            },
        };
        let top = match self.prev_value(&rect.top) {
            Some(a) => a,
            None => {
                return None;
            },
        };
        let bottom = match self.prev_value(&rect.bottom) {
            Some(a) => a,
            None => {
                return None;
            },
        };
        Some(Rect { left, right, top, bottom })
    }

    /// Pins `var` to its previously observed value for this frame: declares
    /// the equality `var == prev_value(var)` through the ordinary add/diff
    /// machinery.  This always succeeds: the pinned value is a stored solver
    /// constant, whose negation never leaves the 64-bit range.
    pub fn keep(&mut self, var: Var) -> (r: Result<(), SolverError>)
        requires
            old(self).wf(),
        ensures
            final(self).wf(),
            r is Ok,
            final(self).new_list().len() == old(self).new_list().len() + 1,
            ({
                let last = final(self).new_list().last();
                &&& !last.positive
                &&& last.strength == old(self).strength_s()
                &&& last.terms@.len() == 1
                &&& last.terms@[0].variable == var
                &&& last.terms@[0].coefficient.q() == (1int, 1int)
                &&& q_eq(last.constant.q(), q_neg(spec_var_value(old(self).solver_s(), var)))
            }),
            final(self).prev_list() == old(self).prev_list() && final(self).solver_s() == old(
                self,
            ).solver_s(),
            final(self).size_v() == old(self).size_v(),
            final(self).strength_s() == old(self).strength_s(),
    {
        let e1 = Expr::from_var(var);
        let val = match self.solver.get_value(var) {
            Some(v) => v,
            None => Rational::zero(),
        };
        let ghost vv = spec_var_value(old(self).solver_s(), var);
        proof {
            crate::assoc::lemma_assoc_get_some(self.solver.rows_view(), spec_from_var(var));
            assert(val.q() == vv);
            assert(q_fits(q_add(e1.constant.q(), q_neg(val.q()))));
        }
        let e2 = Expr::from_constant(val);
        let c = match Constraint::equal(&e1, &e2) {
            Some(c) => c,
            None => {
                proof {
                    assert(false);
                }
                return Err(SolverError::Overflow);
            },
        };
        proof {
            assert(q_eq(c.expr.constant.q(), q_add((0int, 1int), q_neg(val.q()))));
            assert(q_add((0int, 1int), q_neg(val.q())) == (-val.q().0, val.q().1));
            assert(q_eq(c.expr.constant.q(), q_neg(vv)));
        }
        self.constraint(c);
        Ok(())
    }
}

impl Default for Layout {
    /// An empty layout, as [`Layout::new`] builds it.
    fn default() -> (r: Layout)
        ensures
            r.wf(),
            r.prev_list().len() == 0,
            r.new_list().len() == 0,
            r.strength_s() == Strength::Medium,
    {
        Layout::new()
    }
}

/// A strict head-or-later difference makes the whole list strictly smaller.
proof fn lemma_terms_lt_at(a: Seq<Term>, b: Seq<Term>, i: int)
    requires
        a.len() == b.len(),
        0 <= i < a.len(),
        forall|j: int| 0 <= j < i ==> term_eq(#[trigger] a[j], b[j]),
        term_lt(a[i], b[i]),
    ensures
        terms_lt(a, b),
    decreases i,
{
    if i == 0 {
    } else {
        let ra = a.drop_first();
        let rb = b.drop_first();
        assert forall|j: int| 0 <= j < i - 1 implies term_eq(#[trigger] ra[j], rb[j]) by {
            assert(ra[j] == a[j + 1]);
            assert(rb[j] == b[j + 1]);
        }
        assert(ra[i - 1] == a[i]);
        assert(rb[i - 1] == b[i]);
        lemma_terms_lt_at(ra, rb, i - 1);
    }
}

} // verus!

//! The incremental simplex engine.
//!
//! The solver owns a tableau — a map from each currently-basic symbol to its
//! defining row — and one distinguished objective row that carries the
//! strength-weighted error variables of every live constraint.  Constraints
//! are inserted and removed incrementally, and after every mutating call a
//! phase-2 simplex pass restores the weighted error objective to a minimum.
//!
//! All arithmetic is exact.  Situations that the construction rules out —
//! an unbounded objective, a pivot candidate that cannot be found — are
//! checked at run time and reported as [`SolverError::Internal`] instead of
//! being assumed away; a result that leaves the 64-bit rational range is
//! reported as [`SolverError::Overflow`].  On any error the solver is left
//! exactly as it was.
//!
//! Internal slack and error symbols are minted from a counter, and every
//! stored map keeps its entries in insertion order, so each scan — the
//! entering-symbol scan of the objective included — is deterministic.

use vstd::prelude::*;
use crate::assoc::{assoc_distinct, assoc_find, assoc_get, assoc_has, lemma_assoc_get_push};
use crate::expression::{Strength, Term};
use crate::rational::{
    lemma_q_add_congr,
    lemma_q_eq_trans,
    lemma_q_le_congr,
    lemma_q_le_trans,
    lemma_q_neg_congr,
    lemma_q_pos,
    q_add,
    q_div,
    q_eq,
    q_fits,
    q_le,
    q_mul,
    q_neg,
    Rational,
};
use crate::row::{first_external_sym, Row};
use crate::symbol::{spec_from_var, Symbol, SymbolKind, Var};
use crate::Id;

verus! {

/// Why a solver operation gave up, leaving the solver untouched.
#[derive(Copy, Clone, Eq, PartialEq, Structural, Debug)]
pub enum SolverError {
    /// An exact rational left the 64-bit range.
    Overflow,
    /// An internal simplex invariant did not hold: the objective is unbounded
    /// or a pivot candidate is missing.  Unreachable through correct use of
    /// the public interface.
    Internal,
    /// The tag's marker symbol appears nowhere in the tableau.
    MissingMarker,
}

/// The handle returned by constraint insertion; needed to remove the
/// constraint later.  Opaque to callers: it names the pair of slack/error
/// symbols that represent the constraint inside the solver.
#[derive(Copy, Clone, Eq, PartialEq, Structural, Debug)]
pub struct ConstraintTag {
    pub(crate) marker: Symbol,
    pub(crate) other: Symbol,
}

impl ConstraintTag {
    /// The symbol that tracks this constraint in the tableau.
    pub closed spec fn marker_spec(self) -> Symbol {
        self.marker
    }

    /// The second artificial symbol of the constraint's edit pair.
    pub closed spec fn other_spec(self) -> Symbol {
        self.other
    }
}

/// A well-formed tableau: distinct basic symbols, each with a well-formed row.
pub open spec fn tableau_wf(s: Seq<(Symbol, Row)>) -> bool {
    &&& assoc_distinct(s)
    &&& forall|i: int| 0 <= i < s.len() ==> (#[trigger] s[i]).1.wf()
}

/// A constraint solver which uses the cassowary algorithm.
pub struct Solver {
    rows: Vec<(Symbol, Row)>,
    objective: Row,
    next_id: u64,
    add_calls: u64,
    remove_calls: u64,
}

impl Solver {
    /// The tableau: basic symbol and defining row, in insertion order.
    pub closed spec fn rows_view(self) -> Seq<(Symbol, Row)> {
        self.rows@
    }

    /// The objective row.
    pub closed spec fn objective_r(self) -> Row {
        self.objective
    }

    /// The counter from which internal symbol identifiers are minted.
    pub closed spec fn next_id_spec(self) -> u64 {
        self.next_id
    }

    /// How many constraint insertions this solver has performed.
    pub closed spec fn add_count(self) -> u64 {
        self.add_calls
    }

    /// How many constraint removals this solver has performed.
    pub closed spec fn remove_count(self) -> u64 {
        self.remove_calls
    }

    /// The objective holds no negative coefficient: the weighted error
    /// objective is at its minimum for the current constraint set.
    pub open spec fn optimized(self) -> bool {
        forall|x: Symbol| (#[trigger] self.objective_r().coeff(x)).0 >= 0
    }

    pub open spec fn wf(self) -> bool {
        &&& tableau_wf(self.rows_view())
        &&& self.objective_r().wf()
        &&& self.optimized()
    }

    /// An empty solver: no basic rows, a zero objective.
    pub fn new() -> (s: Solver)
        ensures
            s.wf(),
            s.rows_view().len() == 0,
            s.next_id_spec() == 0,
            s.add_count() == 0,
            s.remove_count() == 0,
    {
        Solver {
            rows: Vec::new(),
            objective: Row::new(Rational::zero()),
            next_id: 0,
            add_calls: 0,
            remove_calls: 0,
        }
    }

    /// How many constraint insertions this solver has performed.
    pub fn insertions(&self) -> (r: u64)
        ensures
            r == self.add_count(),
    {
        self.add_calls
    }

    /// How many constraint removals this solver has performed.
    pub fn removals(&self) -> (r: u64)
        ensures
            r == self.remove_count(),
    {
        self.remove_calls
    }

    /// How many basic rows the tableau currently holds.
    pub fn basic_count(&self) -> (r: usize)
        ensures
            r == self.rows_view().len(),
    {
        self.rows.len()
    }

    /// The solved value of `var`: the constant of its tableau row if the
    /// mirroring symbol is currently basic, else `None` (such a variable is
    /// pinned at zero).
    pub fn get_value(&self, var: Var) -> (r: Option<Rational>)
        requires
            self.wf(),
        ensures
            r is Some <==> assoc_has(self.rows_view(), spec_from_var(var)),
            r matches Some(v) ==> v.wf() && (assoc_get(self.rows_view(), spec_from_var(var))
                matches Some(row) && v == row.constant_r()),
    {
        let sym = Symbol::from_var(var);
        match assoc_find(&self.rows, sym) {
            Some(i) => {
                proof {
                    crate::assoc::lemma_assoc_get_at(self.rows_view(), i as int);
                }
                Some(self.rows[i].1.constant())
            },
            None => {
                proof {
                    crate::assoc::lemma_assoc_get_absent(self.rows_view(), sym);
                }
                None
            },
        }
    }

    /// Chooses the subject symbol to make basic for a freshly created row,
    /// in strict precedence order: the first external symbol in the row,
    /// else the marker if its coefficient is negative, else the other
    /// artificial symbol if its coefficient is negative.
    fn choose_subject(row: &Row, tag: ConstraintTag) -> (r: Result<Symbol, SolverError>)
        requires
            row.wf(),
        ensures
            r matches Ok(sym) ==> row.has(sym) && row.coeff(sym).0 != 0,
            r matches Ok(sym) ==> if first_external_sym(row.cells_view()) is Some {
                Some(sym) == first_external_sym(row.cells_view())
            } else if row.coeff(tag.marker).0 < 0 {
                sym == tag.marker
            } else {
                sym == tag.other && row.coeff(tag.other).0 < 0
            },
            r is Err ==> first_external_sym(row.cells_view()) is None && row.coeff(
                tag.marker,
            ).0 >= 0 && row.coeff(tag.other).0 >= 0,
    {
        match row.first_external() {
            Some(sym) => {
                proof {
                    row.lemma_coeff_props(sym);
                }
                return Ok(sym);
            },
            None => {},
        }
        let cm = row.coefficient_for(tag.marker);
        if cm.is_negative() {
            proof {
                row.lemma_coeff_props(tag.marker);
            }
            return Ok(tag.marker);
        }
        let co = row.coefficient_for(tag.other);
        if co.is_negative() {
            proof {
                row.lemma_coeff_props(tag.other);
            }
            return Ok(tag.other);
        }
        Err(SolverError::Internal)
    }

    /// Builds the row for a new constraint: the constant plus the terms, with
    /// every currently-basic variable replaced by its defining row; appends
    /// the slack/error symbols, extends the objective by their weights, and
    /// normalizes the row to a non-negative constant.
    fn create_row(
        &self,
        positive: bool,
        constant: Rational,
        terms: &[Term],
        strength_w: Rational,
    ) -> (r: Result<(Row, ConstraintTag, Row), SolverError>)
        requires
            self.wf(),
            constant.wf(),
            strength_w.wf(),
            forall|i: int| 0 <= i < terms@.len() ==> (#[trigger] terms@[i]).coefficient.wf(),
            self.next_id_spec() + 1 <= u64::MAX,
        ensures
            r matches Ok(p) ==> p.0.wf() && p.2.wf() && p.0.constant_q().0 >= 0,
            r matches Ok(p) ==> (positive ==> p.1.marker.kind == SymbolKind::Slack
                && p.1.other.kind == SymbolKind::Error),
            r matches Ok(p) ==> (!positive ==> p.1.marker.kind == SymbolKind::Error
                && p.1.other.kind == SymbolKind::Error),
            r matches Ok(p) ==> p.1.marker.id == Id(self.next_id_spec(), 0) && p.1.other.id == Id(
                (self.next_id_spec() + 1) as u64,
                0,
            ) && p.1.marker != p.1.other,
            r matches Ok(p) ==> ({
                ||| created_row_direct(p.0, self.rows_view(), terms@, constant.q(), p.1)
                ||| created_row_negated(p.0, self.rows_view(), terms@, constant.q(), p.1)
            }),
            r matches Ok(p) ==> (positive ==> q_eq(
                p.2.coeff(p.1.other_spec()),
                q_add(self.objective_r().coeff(p.1.other_spec()), strength_w.q()),
            ) && forall|x: Symbol|
                x != p.1.other_spec() ==> #[trigger] p.2.coeff(x) == self.objective_r().coeff(x)),
            r matches Ok(p) ==> (!positive ==> q_eq(
                p.2.coeff(p.1.marker_spec()),
                q_add(self.objective_r().coeff(p.1.marker_spec()), strength_w.q()),
            ) && q_eq(
                p.2.coeff(p.1.other_spec()),
                q_add(self.objective_r().coeff(p.1.other_spec()), strength_w.q()),
            ) && forall|x: Symbol|
                x != p.1.marker_spec() && x != p.1.other_spec() ==> #[trigger] p.2.coeff(x)
                    == self.objective_r().coeff(x)),
    {
        let ghost rv = self.rows_view();
        let mut row = Row::new(constant);
        proof {
            assert(terms@.subrange(0, 0) =~= Seq::<Term>::empty());
        }
        let mut i: usize = 0;
        while i < terms.len()
            invariant
                self.wf(),
                row.wf(),
                rv == self.rows_view(),
                constant.wf(),
                i <= terms@.len(),
                forall|j: int| 0 <= j < terms@.len() ==> (#[trigger] terms@[j]).coefficient.wf(),
                forall|x: Symbol|
                    q_eq(
                        #[trigger] row.coeff(x),
                        created_coeff(rv, terms@.subrange(0, i as int), x),
                    ),
                q_eq(
                    row.constant_q(),
                    created_constant(rv, terms@.subrange(0, i as int), constant.q()),
                ),
            decreases terms@.len() - i,
        {
            let ghost pre = terms@.subrange(0, i as int);
            let ghost cur = terms@.subrange(0, i + 1 as int);
            proof {
                assert(cur.drop_last() =~= pre);
                assert(cur.last() == terms@[i as int]);
                assert forall|j: int| 0 <= j < pre.len() implies (
                #[trigger] pre[j]).coefficient.wf() by {
                    assert(pre[j] == terms@[j]);
                }
            }
            let t = terms[i];
            if !t.coefficient.is_zero() {
                let sym = Symbol::from_var(t.variable);
                match assoc_find(&self.rows, sym) {
                    Some(j) => {
                        proof {
                            crate::assoc::lemma_assoc_get_at(rv, j as int);
                        }
                        let row2 = match row.checked_add_row(&self.rows[j].1, t.coefficient) {
                            Some(v) => v,
                            None => {
                                return Err(SolverError::Overflow);
                            },
                        };
                        proof {
                            let basic = rv[j as int].1;
                            assert forall|x: Symbol| q_eq(
                                #[trigger] row2.coeff(x),
                                created_coeff(rv, cur, x),
                            ) by {
                                row.lemma_coeff_props(x);
                                basic.lemma_coeff_props(x);
                                lemma_created_den_pos(rv, pre, constant.q(), x);
                                lemma_q_pos(t.coefficient.q().1, basic.coeff(x).1);
                                lemma_q_add_congr(
                                    row.coeff(x),
                                    created_coeff(rv, pre, x),
                                    q_mul(t.coefficient.q(), basic.coeff(x)),
                                    q_mul(t.coefficient.q(), basic.coeff(x)),
                                );
                                lemma_q_pos(
                                    row.coeff(x).1,
                                    t.coefficient.q().1 * basic.coeff(x).1,
                                );
                                lemma_q_eq_trans(
                                    row2.coeff(x),
                                    q_add(row.coeff(x), q_mul(t.coefficient.q(), basic.coeff(x))),
                                    q_add(
                                        created_coeff(rv, pre, x),
                                        q_mul(t.coefficient.q(), basic.coeff(x)),
                                    ),
                                );
                            }
                            lemma_created_den_pos(rv, pre, constant.q(), sym);
                            lemma_q_pos(t.coefficient.q().1, basic.constant_r().q().1);
                            lemma_q_add_congr(
                                row.constant_q(),
                                created_constant(rv, pre, constant.q()),
                                q_mul(t.coefficient.q(), basic.constant_q()),
                                q_mul(t.coefficient.q(), basic.constant_q()),
                            );
                            lemma_q_pos(
                                row.constant_r().q().1,
                                t.coefficient.q().1 * basic.constant_r().q().1,
                            );
                            lemma_q_eq_trans(
                                row2.constant_q(),
                                q_add(
                                    row.constant_q(),
                                    q_mul(t.coefficient.q(), basic.constant_q()),
                                ),
                                q_add(
                                    created_constant(rv, pre, constant.q()),
                                    q_mul(t.coefficient.q(), basic.constant_q()),
                                ),
                            );
                        }
                        row = row2;
                    },
                    None => {
                        proof {
                            crate::assoc::lemma_assoc_get_absent(rv, sym);
                        }
                        let row2 = match row.checked_add_symbol(sym, t.coefficient) {
                            Some(v) => v,
                            None => {
                                return Err(SolverError::Overflow);
                            },
                        };
                        proof {
                            assert forall|x: Symbol| q_eq(
                                #[trigger] row2.coeff(x),
                                created_coeff(rv, cur, x),
                            ) by {
                                row.lemma_coeff_props(x);
                                lemma_created_den_pos(rv, pre, constant.q(), x);
                                if x == sym {
                                    lemma_q_add_congr(
                                        row.coeff(x),
                                        created_coeff(rv, pre, x),
                                        t.coefficient.q(),
                                        t.coefficient.q(),
                                    );
                                    lemma_q_pos(row.coeff(x).1, t.coefficient.q().1);
                                    lemma_q_eq_trans(
                                        row2.coeff(x),
                                        q_add(row.coeff(x), t.coefficient.q()),
                                        q_add(created_coeff(rv, pre, x), t.coefficient.q()),
                                    );
                                }
                            }
                        }
                        row = row2;
                    },
                }
            } else {
                proof {
                    assert forall|x: Symbol| q_eq(
                        #[trigger] row.coeff(x),
                        created_coeff(rv, cur, x),
                    ) by {}
                }
            }
            i += 1;
        }
        proof {
            assert(terms@.subrange(0, terms@.len() as int) =~= terms@);
        }
        let marker: Symbol;
        let other: Symbol;
        let obj2: Row;
        if positive {
            marker = Symbol::new(SymbolKind::Slack, Id(self.next_id, 0));
            other = Symbol::new(SymbolKind::Error, Id(self.next_id + 1, 0));
            obj2 = match self.objective.checked_add_symbol(other, strength_w) {
                Some(v) => v,
                None => {
                    return Err(SolverError::Overflow);
                },
            };
        } else {
            marker = Symbol::new(SymbolKind::Error, Id(self.next_id, 0));
            other = Symbol::new(SymbolKind::Error, Id(self.next_id + 1, 0));
            let tmp = match self.objective.checked_add_symbol(marker, strength_w) {
                Some(v) => v,
                None => {
                    return Err(SolverError::Overflow);
                },
            };
            obj2 = match tmp.checked_add_symbol(other, strength_w) {
                Some(v) => v,
                None => {
                    return Err(SolverError::Overflow);
                },
            };
        }
        proof {
            assert(marker != other);
        }
        let ghost rloop = row;
        row = match row.checked_add_symbol(marker, Rational::from_int(-1)) {
            Some(v) => v,
            None => {
                return Err(SolverError::Overflow);
            },
        };
        let ghost rmk = row;
        row = match row.checked_add_symbol(other, Rational::from_int(1)) {
            Some(v) => v,
            None => {
                return Err(SolverError::Overflow);
            },
        };
        let ghost tag = ConstraintTag { marker, other };
        proof {
            // the marker and other entries sit at the created coefficient
            // plus their −1 / +1 contributions
            rloop.lemma_coeff_props(marker);
            rloop.lemma_coeff_props(other);
            lemma_created_den_pos(rv, terms@, constant.q(), marker);
            lemma_created_den_pos(rv, terms@, constant.q(), other);
            lemma_q_add_congr(
                rloop.coeff(marker),
                created_coeff(rv, terms@, marker),
                (-1int, 1int),
                (-1int, 1int),
            );
            lemma_q_pos(rloop.coeff(marker).1, 1int);
            lemma_q_eq_trans(
                rmk.coeff(marker),
                q_add(rloop.coeff(marker), (-1int, 1int)),
                q_add(created_coeff(rv, terms@, marker), (-1int, 1int)),
            );
            assert(rmk.coeff(other) == rloop.coeff(other));
            lemma_q_add_congr(
                rmk.coeff(other),
                created_coeff(rv, terms@, other),
                (1int, 1int),
                (1int, 1int),
            );
            lemma_q_pos(rmk.coeff(other).1, 1int);
            lemma_q_eq_trans(
                row.coeff(other),
                q_add(rmk.coeff(other), (1int, 1int)),
                q_add(created_coeff(rv, terms@, other), (1int, 1int)),
            );
            assert(row.coeff(marker) == rmk.coeff(marker));
            assert(created_row_direct(row, rv, terms@, constant.q(), tag));
        }
        if row.constant().is_negative() {
            let flipped = row.reverse_sign();
            proof {
                assert forall|x: Symbol|
                    x != tag.marker_spec() && x != tag.other_spec() implies q_eq(
                    #[trigger] flipped.coeff(x),
                    q_neg(created_coeff(rv, terms@, x)),
                ) by {
                    lemma_q_neg_congr(row.coeff(x), created_coeff(rv, terms@, x));
                }
                lemma_q_neg_congr(
                    row.coeff(marker),
                    q_add(created_coeff(rv, terms@, marker), (-1int, 1int)),
                );
                lemma_q_neg_congr(
                    row.coeff(other),
                    q_add(created_coeff(rv, terms@, other), (1int, 1int)),
                );
                lemma_q_neg_congr(row.constant_q(), created_constant(rv, terms@, constant.q()));
                assert(created_row_negated(flipped, rv, terms@, constant.q(), tag));
            }
            row = flipped;
        }
        Ok((row, ConstraintTag { marker, other }, obj2))
    }

    /// Adds a constraint `constant + Σ terms (==|>=) 0` with the given
    /// strength; the returned tag is the handle for removing it again.
    /// On any error the solver is left exactly as it was.
    pub fn add_constraint(
        &mut self,
        positive: bool,
        constant: Rational,
        terms: &[Term],
        strength: Strength,
    ) -> (r: Result<ConstraintTag, SolverError>)
        requires
            old(self).wf(),
            constant.wf(),
            forall|i: int| 0 <= i < terms@.len() ==> (#[trigger] terms@[i]).coefficient.wf(),
        ensures
            final(self).wf(),
            r is Err ==> *final(self) == *old(self),
            r matches Ok(tag) ==> (positive ==> tag.marker_spec().kind == SymbolKind::Slack
                && tag.other_spec().kind == SymbolKind::Error),
            r matches Ok(tag) ==> (!positive ==> tag.marker_spec().kind == SymbolKind::Error
                && tag.other_spec().kind == SymbolKind::Error),
            r matches Ok(tag) ==> old(self).next_id_spec() + 2 <= u64::MAX
                && tag.marker_spec().id == Id(old(self).next_id_spec(), 0)
                && tag.other_spec().id == Id((old(self).next_id_spec() + 1) as u64, 0)
                && tag.marker_spec() != tag.other_spec(),
            r is Ok ==> final(self).next_id_spec() == old(self).next_id_spec() + 2,
            r is Ok ==> final(self).add_count() == old(self).add_count() + 1,
            r is Ok ==> final(self).remove_count() == old(self).remove_count(),
            r is Ok ==> final(self).rows_view().len() == old(self).rows_view().len() + 1,
    {
        if self.next_id > u64::MAX - 2 || self.add_calls == u64::MAX {
            return Err(SolverError::Overflow);
        }
        let strength_w = strength.weight();
        let created = match self.create_row(positive, constant, terms, strength_w) {
            Ok(v) => v,
            Err(e) => {
                return Err(e);
            },
        };
        let row0 = created.0;
        let tag = created.1;
        let obj2 = created.2;
        let subject = match Self::choose_subject(&row0, tag) {
            Ok(s) => s,
            Err(e) => {
                return Err(e);
            },
        };
        let row2 = match row0.checked_solve_for_symbol(subject) {
            Some(v) => v,
            None => {
                return Err(SolverError::Overflow);
            },
        };
        match assoc_find(&self.rows, subject) {
            Some(_) => {
                return Err(SolverError::Internal);
            },
            None => {},
        }
        let rows2 = match substitute_all(&self.rows, subject, &row2) {
            Some(v) => v,
            None => {
                return Err(SolverError::Overflow);
            },
        };
        let obj3 = match obj2.substitute(subject, &row2) {
            Some(v) => v,
            None => {
                return Err(SolverError::Overflow);
            },
        };
        proof {
            crate::assoc::lemma_assoc_same_keys(self.rows_view(), rows2@, subject);
            lemma_assoc_get_push(rows2@, (subject, row2), subject);
        }
        let mut rows3 = rows2;
        rows3.push((subject, row2));
        proof {
            assert forall|t: int| 0 <= t < rows3@.len() implies (#[trigger] rows3@[t]).1.wf()
                by {}
        }
        let opt = match optimize(rows3, obj3) {
            Ok(p) => p,
            Err(e) => {
                return Err(e);
            },
        };
        self.rows = opt.0;
        self.objective = opt.1;
        self.next_id = self.next_id + 2;
        self.add_calls = self.add_calls + 1;
        Ok(tag)
    }

    /// Removes the constraint behind `tag`: its error weights leave the
    /// objective first, then the marker's row leaves the tableau — directly
    /// if the marker is basic, after a pivot otherwise — and a simplex pass
    /// restores optimality.  On any error the solver is left exactly as it
    /// was; `MissingMarker` reports a tag whose constraint is not present.
    pub fn remove_constraint(&mut self, tag: ConstraintTag) -> (r: Result<(), SolverError>)
        requires
            old(self).wf(),
        ensures
            final(self).wf(),
            r is Err ==> *final(self) == *old(self),
            r == Err::<(), SolverError>(SolverError::MissingMarker) ==> !assoc_has(
                old(self).rows_view(),
                tag.marker_spec(),
            ) && (forall|t: int|
                0 <= t < old(self).rows_view().len() ==> (#[trigger] old(self).rows_view()[t]).1
                    .coeff(tag.marker_spec()).0 == 0),
            r is Ok ==> final(self).remove_count() == old(self).remove_count() + 1,
            r is Ok ==> final(self).add_count() == old(self).add_count(),
            r is Ok ==> final(self).next_id_spec() == old(self).next_id_spec(),
            r is Ok ==> old(self).rows_view().len() >= 1 && final(self).rows_view().len() == old(
                self,
            ).rows_view().len() - 1,
    {
        if self.remove_calls == u64::MAX {
            return Err(SolverError::Overflow);
        }
        // Remove the error effects from the objective before pivoting, or
        // substitutions into the objective would be wrong afterwards.
        let obj1 = if tag.marker.is_external() || matches!(tag.marker.kind, SymbolKind::Slack) {
            self.objective.duplicate()
        } else {
            self.objective.remove_symbol(tag.marker)
        };
        proof {
            assert(obj1.wf());
        }
        let obj2 = if matches!(tag.other.kind, SymbolKind::Error) {
            obj1.remove_symbol(tag.other)
        } else {
            obj1
        };
        match assoc_find(&self.rows, tag.marker) {
            Some(i) => {
                // The marker is basic: dropping its row removes the constraint.
                let rows2 = clone_rows_without(&self.rows, i);
                let opt = match optimize(rows2, obj2) {
                    Ok(p) => p,
                    Err(e) => {
                        return Err(e);
                    },
                };
                self.rows = opt.0;
                self.objective = opt.1;
                self.remove_calls = self.remove_calls + 1;
                Ok(())
            },
            None => {
                // The marker is non-basic: pivot it into the basis of the
                // selected row, substitute it everywhere, and drop the row.
                let li = match marker_leaving_index(&self.rows, tag.marker) {
                    Ok(i) => i,
                    Err(e) => {
                        return Err(e);
                    },
                };
                let leaving = self.rows[li].0;
                let lrow = self.rows[li].1.duplicate();
                proof {
                    assert(tag.marker != leaving);
                    assert(lrow.wf());
                }
                let row2 = match lrow.checked_solve_for_symbols(leaving, tag.marker) {
                    Some(v) => v,
                    None => {
                        return Err(SolverError::Overflow);
                    },
                };
                let rows_minus = clone_rows_without(&self.rows, li);
                let rows3 = match substitute_all(&rows_minus, tag.marker, &row2) {
                    Some(v) => v,
                    None => {
                        return Err(SolverError::Overflow);
                    },
                };
                let obj3 = match obj2.substitute(tag.marker, &row2) {
                    Some(v) => v,
                    None => {
                        return Err(SolverError::Overflow);
                    },
                };
                let opt = match optimize(rows3, obj3) {
                    Ok(p) => p,
                    Err(e) => {
                        return Err(e);
                    },
                };
                self.rows = opt.0;
                self.objective = opt.1;
                self.remove_calls = self.remove_calls + 1;
                Ok(())
            },
        }
    }
}

impl Default for Solver {
    /// An empty solver, as [`Solver::new`] builds it.
    fn default() -> (s: Solver)
        ensures
            s.wf(),
            s.rows_view().len() == 0,
            s.next_id_spec() == 0,
            s.add_count() == 0,
            s.remove_count() == 0,
    {
        Solver::new()
    }
}

/// Substitutes `sym` by `row` in every tableau row, keeping the basic
/// symbols as they are.
fn substitute_all(rows: &Vec<(Symbol, Row)>, sym: Symbol, row: &Row) -> (r: Option<
    Vec<(Symbol, Row)>,
>)
    requires
        tableau_wf(rows@),
        row.wf(),
    ensures
        r matches Some(v) ==> v@.len() == rows@.len() && tableau_wf(v@) && forall|t: int|
            0 <= t < rows@.len() ==> (#[trigger] v@[t]).0 == rows@[t].0,
{
    let mut out: Vec<(Symbol, Row)> = Vec::new();
    let mut i: usize = 0;
    while i < rows.len()
        invariant
            tableau_wf(rows@),
            row.wf(),
            i <= rows@.len(),
            out@.len() == i,
            forall|t: int| 0 <= t < i ==> (#[trigger] out@[t]).0 == rows@[t].0,
            forall|t: int| 0 <= t < i ==> (#[trigger] out@[t]).1.wf(),
        decreases rows@.len() - i,
    {
        let sub = match rows[i].1.substitute(sym, row) {
            Some(s) => s,
            None => {
                return None;
            },
        };
        let key = rows[i].0;
        out.push((key, sub));
        i += 1;
    }
    proof {
        assert forall|a: int, b: int| 0 <= a < b < out@.len() implies (#[trigger] out@[a]).0 != (
        #[trigger] out@[b]).0 by {
            assert(out@[a].0 == rows@[a].0);
            assert(out@[b].0 == rows@[b].0);
        }
    }
    Some(out)
}

/// A structural copy of the tableau, leaving out the entry at `skip` when
/// `skip` is in range.
fn clone_rows_without(rows: &Vec<(Symbol, Row)>, skip: usize) -> (r: Vec<(Symbol, Row)>)
    requires
        tableau_wf(rows@),
    ensures
        skip < rows@.len() ==> r@.len() == rows@.len() - 1 && forall|t: int|
            0 <= t < r@.len() ==> (#[trigger] r@[t]).0 == rows@[crate::row::skip_idx(
                t,
                skip as int,
            )].0 && r@[t].1.wf(),
        skip >= rows@.len() ==> r@.len() == rows@.len() && forall|t: int|
            0 <= t < r@.len() ==> (#[trigger] r@[t]).0 == rows@[t].0 && r@[t].1.wf(),
        tableau_wf(r@),
{
    let mut out: Vec<(Symbol, Row)> = Vec::new();
    let mut i: usize = 0;
    while i < rows.len()
        invariant
            tableau_wf(rows@),
            i <= rows@.len(),
            out@.len() == if skip < i {
                i - 1
            } else {
                i as int
            },
            forall|t: int|
                0 <= t < out@.len() ==> (#[trigger] out@[t]).0 == rows@[crate::row::skip_idx(
                    t,
                    skip as int,
                )].0 && out@[t].1.wf(),
            forall|t: int|
                skip >= rows@.len() && 0 <= t < out@.len() ==> (#[trigger] out@[t]).0
                    == rows@[t].0,
        decreases rows@.len() - i,
    {
        if i != skip {
            out.push((rows[i].0, rows[i].1.duplicate()));
        }
        i += 1;
    }
    proof {
        assert forall|a: int, b: int| 0 <= a < b < out@.len() implies (#[trigger] out@[a]).0 != (
        #[trigger] out@[b]).0 by {
            assert(out@[a].0 == rows@[crate::row::skip_idx(a, skip as int)].0);
            assert(out@[b].0 == rows@[crate::row::skip_idx(b, skip as int)].0);
        }
    }
    out
}

/// The coefficient that the constraint `constant + Σ terms` contributes to
/// symbol `x` once every currently-basic variable is replaced by its
/// defining row; terms with an exactly-zero coefficient are skipped.
pub open spec fn created_coeff(rows: Seq<(Symbol, Row)>, terms: Seq<Term>, x: Symbol) -> (int, int)
    decreases terms.len(),
{
    if terms.len() == 0 {
        (0int, 1int)
    } else {
        let t = terms.last();
        let prev = created_coeff(rows, terms.drop_last(), x);
        if t.coefficient.q().0 == 0 {
            prev
        } else {
            match assoc_get(rows, spec_from_var(t.variable)) {
                Some(row) => q_add(prev, q_mul(t.coefficient.q(), row.coeff(x))),
                None => if spec_from_var(t.variable) == x {
                    q_add(prev, t.coefficient.q())
                } else {
                    prev
                },
            }
        }
    }
}

/// The constant that the constraint contributes, the declared constant plus
/// each basic term's share of its defining row's constant.
pub open spec fn created_constant(rows: Seq<(Symbol, Row)>, terms: Seq<Term>, c: (int, int)) -> (
    int,
    int,
)
    decreases terms.len(),
{
    if terms.len() == 0 {
        c
    } else {
        let t = terms.last();
        let prev = created_constant(rows, terms.drop_last(), c);
        if t.coefficient.q().0 == 0 {
            prev
        } else {
            match assoc_get(rows, spec_from_var(t.variable)) {
                Some(row) => q_add(prev, q_mul(t.coefficient.q(), row.constant_q())),
                None => prev,
            }
        }
    }
}

/// The freshly created row reads exactly as the substituted constraint:
/// the created coefficient at every symbol, the marker carrying an extra
/// −1, the other artificial symbol an extra +1, and the created constant.
pub open spec fn created_row_direct(
    row: Row,
    rows: Seq<(Symbol, Row)>,
    terms: Seq<Term>,
    c: (int, int),
    tag: ConstraintTag,
) -> bool {
    &&& forall|x: Symbol|
        x != tag.marker_spec() && x != tag.other_spec() ==> q_eq(
            #[trigger] row.coeff(x),
            created_coeff(rows, terms, x),
        )
    &&& q_eq(
        row.coeff(tag.marker_spec()),
        q_add(created_coeff(rows, terms, tag.marker_spec()), (-1int, 1int)),
    )
    &&& q_eq(
        row.coeff(tag.other_spec()),
        q_add(created_coeff(rows, terms, tag.other_spec()), (1int, 1int)),
    )
    &&& q_eq(row.constant_q(), created_constant(rows, terms, c))
}

/// As [`created_row_direct`], with every value negated: the row's sign was
/// reversed so that its constant became non-negative.
pub open spec fn created_row_negated(
    row: Row,
    rows: Seq<(Symbol, Row)>,
    terms: Seq<Term>,
    c: (int, int),
    tag: ConstraintTag,
) -> bool {
    &&& forall|x: Symbol|
        x != tag.marker_spec() && x != tag.other_spec() ==> q_eq(
            #[trigger] row.coeff(x),
            q_neg(created_coeff(rows, terms, x)),
        )
    &&& q_eq(
        row.coeff(tag.marker_spec()),
        q_neg(q_add(created_coeff(rows, terms, tag.marker_spec()), (-1int, 1int))),
    )
    &&& q_eq(
        row.coeff(tag.other_spec()),
        q_neg(q_add(created_coeff(rows, terms, tag.other_spec()), (1int, 1int))),
    )
    &&& q_eq(row.constant_q(), q_neg(created_constant(rows, terms, c)))
}

/// A defining row found in a well-formed tableau is well-formed.
proof fn lemma_got_row_wf(rows: Seq<(Symbol, Row)>, s: Symbol)
    requires
        tableau_wf(rows),
    ensures
        assoc_get(rows, s) matches Some(row) ==> row.wf(),
{
    crate::assoc::lemma_assoc_get_some(rows, s);
    if assoc_has(rows, s) {
        let i = choose|i: int| 0 <= i < rows.len() && (#[trigger] rows[i]).0 == s;
        crate::assoc::lemma_assoc_get_at(rows, i);
    }
}

/// The created coefficient and constant are over positive denominators.
proof fn lemma_created_den_pos(
    rows: Seq<(Symbol, Row)>,
    terms: Seq<Term>,
    c: (int, int),
    x: Symbol,
)
    requires
        tableau_wf(rows),
        forall|i: int| 0 <= i < terms.len() ==> (#[trigger] terms[i]).coefficient.wf(),
        c.1 > 0,
    ensures
        created_coeff(rows, terms, x).1 > 0,
        created_constant(rows, terms, c).1 > 0,
    decreases terms.len(),
{
    if terms.len() > 0 {
        let t = terms.last();
        let rest = terms.drop_last();
        assert forall|i: int| 0 <= i < rest.len() implies (#[trigger] rest[i]).coefficient.wf()
            by {
            assert(rest[i] == terms[i]);
        }
        lemma_created_den_pos(rows, rest, c, x);
        if t.coefficient.q().0 != 0 {
            lemma_got_row_wf(rows, spec_from_var(t.variable));
            match assoc_get(rows, spec_from_var(t.variable)) {
                Some(row) => {
                    row.lemma_coeff_props(x);
                    lemma_q_pos(t.coefficient.q().1, row.coeff(x).1);
                    lemma_q_pos(
                        created_coeff(rows, rest, x).1,
                        t.coefficient.q().1 * row.coeff(x).1,
                    );
                    lemma_q_pos(t.coefficient.q().1, row.constant_r().q().1);
                    lemma_q_pos(
                        created_constant(rows, rest, c).1,
                        t.coefficient.q().1 * row.constant_r().q().1,
                    );
                },
                None => {
                    lemma_q_pos(created_coeff(rows, rest, x).1, t.coefficient.q().1);
                },
            }
        }
    }
}

/// The ratio `-constant / coefficient` driving the standard leaving-row test.
pub open spec fn q_ratio_neg(row: Row, sym: Symbol) -> (int, int) {
    q_div(q_neg(row.constant_q()), row.coeff(sym))
}

/// The ratio `constant / coefficient` used by the second marker tier.
pub open spec fn q_ratio_pos(row: Row, sym: Symbol) -> (int, int) {
    q_div(row.constant_q(), row.coeff(sym))
}

/// First marker tier: a restricted basic symbol, negative marker coefficient.
pub open spec fn marker_t1(e: (Symbol, Row), m: Symbol) -> bool {
    e.0.kind != SymbolKind::External && e.1.coeff(m).0 < 0
}

/// Second marker tier: a restricted basic symbol, positive marker coefficient.
pub open spec fn marker_t2(e: (Symbol, Row), m: Symbol) -> bool {
    e.0.kind != SymbolKind::External && e.1.coeff(m).0 > 0
}

/// Third marker tier: an external basic symbol whose row carries the marker.
pub open spec fn marker_t3(e: (Symbol, Row), m: Symbol) -> bool {
    e.0.kind == SymbolKind::External && e.1.coeff(m).0 != 0
}

/// The second-tier ratio also has a positive denominator.
proof fn lemma_ratio_pos_den_pos(row: Row, sym: Symbol)
    requires
        row.wf(),
        row.coeff(sym).0 > 0,
    ensures
        q_ratio_pos(row, sym).1 > 0,
{
    row.lemma_coeff_props(sym);
    lemma_q_pos(row.constant_q().1, row.coeff(sym).0);
}

/// The ratio test is over positive denominators when the coefficient is negative.
proof fn lemma_ratio_den_pos(row: Row, sym: Symbol)
    requires
        row.wf(),
        row.coeff(sym).0 < 0,
    ensures
        q_ratio_neg(row, sym).1 > 0,
{
    row.lemma_coeff_props(sym);
    assert(-(row.constant_q().1 * row.coeff(sym).0) > 0) by (nonlinear_arith)
        requires
            row.constant_q().1 > 0,
            row.coeff(sym).0 < 0,
    ;
}

/// Whether the tableau entry at `t` can release `entering` from the basis:
/// a restricted (non-external) basic symbol whose row carries `entering`
/// with a negative coefficient.
pub open spec fn can_leave(e: (Symbol, Row), entering: Symbol) -> bool {
    e.0.kind != SymbolKind::External && e.1.coeff(entering).0 < 0
}

/// The row holding the exit symbol for a pivot: among the restricted rows
/// with a negative coefficient for `entering`, the first with the minimal
/// ratio `-constant/coefficient`.  `Internal` when no row qualifies — the
/// objective would be unbounded.
fn leaving_index(rows: &Vec<(Symbol, Row)>, entering: Symbol) -> (r: Result<usize, SolverError>)
    requires
        tableau_wf(rows@),
    ensures
        r matches Ok(i) ==> i < rows@.len() && can_leave(rows@[i as int], entering),
        r matches Ok(i) ==> forall|t: int|
            0 <= t < rows@.len() && can_leave(#[trigger] rows@[t], entering) ==> q_le(
                q_ratio_neg(rows@[i as int].1, entering),
                q_ratio_neg(rows@[t].1, entering),
            ),
        r == Err::<usize, SolverError>(SolverError::Internal) ==> forall|t: int|
            0 <= t < rows@.len() ==> !can_leave(#[trigger] rows@[t], entering),
        r == Err::<usize, SolverError>(SolverError::Overflow) ==> exists|t: int|
            0 <= t < rows@.len() && can_leave(#[trigger] rows@[t], entering) && !q_fits(
                q_ratio_neg(rows@[t].1, entering),
            ),
        r matches Err(e) ==> e != SolverError::MissingMarker,
{
    let mut best: usize = 0;
    let mut have: bool = false;
    let mut best_ratio = Rational::zero();
    let mut i: usize = 0;
    while i < rows.len()
        invariant
            tableau_wf(rows@),
            i <= rows@.len(),
            have ==> best < i && can_leave(rows@[best as int], entering),
            have ==> best_ratio.wf() && q_eq(
                best_ratio.q(),
                q_ratio_neg(rows@[best as int].1, entering),
            ),
            have ==> forall|t: int|
                0 <= t < i && can_leave(#[trigger] rows@[t], entering) ==> q_le(
                    q_ratio_neg(rows@[best as int].1, entering),
                    q_ratio_neg(rows@[t].1, entering),
                ),
            !have ==> forall|t: int| 0 <= t < i ==> !can_leave(#[trigger] rows@[t], entering),
        decreases rows@.len() - i,
    {
        let sym = rows[i].0;
        if !sym.is_external() {
            let cf = rows[i].1.coefficient_for(entering);
            if cf.is_negative() {
                let nc = rows[i].1.constant().neg();
                let ratio = match nc.checked_div(cf) {
                    Some(v) => v,
                    None => {
                        proof {
                            assert(can_leave(rows@[i as int], entering) && !q_fits(
                                q_ratio_neg(rows@[i as int].1, entering),
                            ));
                        }
                        return Err(SolverError::Overflow);
                    },
                };
                proof {
                    lemma_ratio_den_pos(rows@[i as int].1, entering);
                }
                let take = if have {
                    ratio.lt(best_ratio)
                } else {
                    true
                };
                proof {
                    if have {
                        lemma_ratio_den_pos(rows@[best as int].1, entering);
                        lemma_q_le_congr(
                            ratio.q(),
                            q_ratio_neg(rows@[i as int].1, entering),
                            best_ratio.q(),
                            q_ratio_neg(rows@[best as int].1, entering),
                        );
                        if take {
                            assert forall|t: int|
                                0 <= t < i + 1 && can_leave(#[trigger] rows@[t], entering) implies
                            q_le(
                                q_ratio_neg(rows@[i as int].1, entering),
                                q_ratio_neg(rows@[t].1, entering),
                            ) by {
                                if t < i {
                                    lemma_ratio_den_pos(rows@[t].1, entering);
                                    lemma_q_le_trans(
                                        q_ratio_neg(rows@[i as int].1, entering),
                                        q_ratio_neg(rows@[best as int].1, entering),
                                        q_ratio_neg(rows@[t].1, entering),
                                    );
                                }
                            }
                        }
                    }
                }
                if take {
                    best = i;
                    best_ratio = ratio;
                    have = true;
                }
            }
        }
        i += 1;
    }
    if have {
        Ok(best)
    } else {
        Err(SolverError::Internal)
    }
}

/// The row to pivot a non-basic marker into before dropping its constraint,
/// by the three-tier precedence rule: a restricted row with a negative
/// marker coefficient and minimal ratio `-constant/coefficient`; else a
/// restricted row with a positive coefficient and minimal ratio
/// `constant/coefficient`; else the last external row that carries the
/// marker at all.  `MissingMarker` when no row mentions the marker.
fn marker_leaving_index(rows: &Vec<(Symbol, Row)>, marker: Symbol) -> (r: Result<
    usize,
    SolverError,
>)
    requires
        tableau_wf(rows@),
    ensures
        r matches Ok(i) ==> i < rows@.len() && rows@[i as int].1.coeff(marker).0 != 0,
        r matches Ok(i) ==> (exists|t: int|
            0 <= t < rows@.len() && marker_t1(#[trigger] rows@[t], marker)) ==> marker_t1(
            rows@[i as int],
            marker,
        ) && forall|t: int|
            0 <= t < rows@.len() && marker_t1(#[trigger] rows@[t], marker) ==> q_le(
                q_ratio_neg(rows@[i as int].1, marker),
                q_ratio_neg(rows@[t].1, marker),
            ),
        r matches Ok(i) ==> !(exists|t: int|
            0 <= t < rows@.len() && marker_t1(#[trigger] rows@[t], marker)) && (exists|t: int|
            0 <= t < rows@.len() && marker_t2(#[trigger] rows@[t], marker)) ==> marker_t2(
            rows@[i as int],
            marker,
        ) && forall|t: int|
            0 <= t < rows@.len() && marker_t2(#[trigger] rows@[t], marker) ==> q_le(
                q_ratio_pos(rows@[i as int].1, marker),
                q_ratio_pos(rows@[t].1, marker),
            ),
        r matches Ok(i) ==> !(exists|t: int|
            0 <= t < rows@.len() && marker_t1(#[trigger] rows@[t], marker)) && !(exists|t: int|
            0 <= t < rows@.len() && marker_t2(#[trigger] rows@[t], marker)) ==> marker_t3(
            rows@[i as int],
            marker,
        ) && forall|t: int|
            i < t < rows@.len() ==> !marker_t3(#[trigger] rows@[t], marker),
        r == Err::<usize, SolverError>(SolverError::MissingMarker) ==> forall|t: int|
            0 <= t < rows@.len() ==> (#[trigger] rows@[t]).1.coeff(marker).0 == 0,
        r == Err::<usize, SolverError>(SolverError::Overflow) ==> exists|t: int|
            0 <= t < rows@.len() && ((marker_t1(#[trigger] rows@[t], marker) && !q_fits(
                q_ratio_neg(rows@[t].1, marker),
            )) || (marker_t2(rows@[t], marker) && !q_fits(q_ratio_pos(rows@[t].1, marker)))),
{
    let mut f_best: usize = 0;
    let mut f_have: bool = false;
    let mut f_ratio = Rational::zero();
    let mut s_best: usize = 0;
    let mut s_have: bool = false;
    let mut s_ratio = Rational::zero();
    let mut t_best: usize = 0;
    let mut t_have: bool = false;
    let mut i: usize = 0;
    while i < rows.len()
        invariant
            tableau_wf(rows@),
            i <= rows@.len(),
            f_have ==> f_best < i && marker_t1(rows@[f_best as int], marker),
            f_have ==> f_ratio.wf() && q_eq(
                f_ratio.q(),
                q_ratio_neg(rows@[f_best as int].1, marker),
            ),
            f_have ==> forall|t: int|
                0 <= t < i && marker_t1(#[trigger] rows@[t], marker) ==> q_le(
                    q_ratio_neg(rows@[f_best as int].1, marker),
                    q_ratio_neg(rows@[t].1, marker),
                ),
            !f_have ==> forall|t: int| 0 <= t < i ==> !marker_t1(#[trigger] rows@[t], marker),
            s_have ==> s_best < i && marker_t2(rows@[s_best as int], marker),
            s_have ==> s_ratio.wf() && q_eq(
                s_ratio.q(),
                q_ratio_pos(rows@[s_best as int].1, marker),
            ),
            s_have ==> forall|t: int|
                0 <= t < i && marker_t2(#[trigger] rows@[t], marker) ==> q_le(
                    q_ratio_pos(rows@[s_best as int].1, marker),
                    q_ratio_pos(rows@[t].1, marker),
                ),
            !s_have ==> forall|t: int| 0 <= t < i ==> !marker_t2(#[trigger] rows@[t], marker),
            t_have ==> t_best < i && marker_t3(rows@[t_best as int], marker),
            t_have ==> forall|t: int|
                t_best < t < i ==> !marker_t3(#[trigger] rows@[t], marker),
            !t_have ==> forall|t: int| 0 <= t < i ==> !marker_t3(#[trigger] rows@[t], marker),
        decreases rows@.len() - i,
    {
        let sym = rows[i].0;
        let c = rows[i].1.coefficient_for(marker);
        if !c.is_zero() {
            if sym.is_external() {
                t_best = i;
                t_have = true;
            } else if c.is_negative() {
                let nc = rows[i].1.constant().neg();
                let ratio = match nc.checked_div(c) {
                    Some(v) => v,
                    None => {
                        proof {
                            assert(marker_t1(rows@[i as int], marker) && !q_fits(
                                q_ratio_neg(rows@[i as int].1, marker),
                            ));
                        }
                        return Err(SolverError::Overflow);
                    },
                };
                proof {
                    lemma_ratio_den_pos(rows@[i as int].1, marker);
                }
                let take = if f_have {
                    ratio.lt(f_ratio)
                } else {
                    true
                };
                proof {
                    if f_have {
                        lemma_ratio_den_pos(rows@[f_best as int].1, marker);
                        lemma_q_le_congr(
                            ratio.q(),
                            q_ratio_neg(rows@[i as int].1, marker),
                            f_ratio.q(),
                            q_ratio_neg(rows@[f_best as int].1, marker),
                        );
                        if take {
                            assert forall|t: int|
                                0 <= t < i + 1 && marker_t1(#[trigger] rows@[t], marker) implies
                            q_le(
                                q_ratio_neg(rows@[i as int].1, marker),
                                q_ratio_neg(rows@[t].1, marker),
                            ) by {
                                if t < i {
                                    lemma_ratio_den_pos(rows@[t].1, marker);
                                    lemma_q_le_trans(
                                        q_ratio_neg(rows@[i as int].1, marker),
                                        q_ratio_neg(rows@[f_best as int].1, marker),
                                        q_ratio_neg(rows@[t].1, marker),
                                    );
                                }
                            }
                        }
                    }
                }
                if take {
                    f_best = i;
                    f_ratio = ratio;
                    f_have = true;
                }
            } else {
                let ratio = match rows[i].1.constant().checked_div(c) {
                    Some(v) => v,
                    None => {
                        proof {
                            assert(marker_t2(rows@[i as int], marker) && !q_fits(
                                q_ratio_pos(rows@[i as int].1, marker),
                            ));
                        }
                        return Err(SolverError::Overflow);
                    },
                };
                proof {
                    lemma_ratio_pos_den_pos(rows@[i as int].1, marker);
                }
                let take = if s_have {
                    ratio.lt(s_ratio)
                } else {
                    true
                };
                proof {
                    if s_have {
                        lemma_ratio_pos_den_pos(rows@[s_best as int].1, marker);
                        lemma_q_le_congr(
                            ratio.q(),
                            q_ratio_pos(rows@[i as int].1, marker),
                            s_ratio.q(),
                            q_ratio_pos(rows@[s_best as int].1, marker),
                        );
                        if take {
                            assert forall|t: int|
                                0 <= t < i + 1 && marker_t2(#[trigger] rows@[t], marker) implies
                            q_le(
                                q_ratio_pos(rows@[i as int].1, marker),
                                q_ratio_pos(rows@[t].1, marker),
                            ) by {
                                if t < i {
                                    lemma_ratio_pos_den_pos(rows@[t].1, marker);
                                    lemma_q_le_trans(
                                        q_ratio_pos(rows@[i as int].1, marker),
                                        q_ratio_pos(rows@[s_best as int].1, marker),
                                        q_ratio_pos(rows@[t].1, marker),
                                    );
                                }
                            }
                        }
                    }
                }
                if take {
                    s_best = i;
                    s_ratio = ratio;
                    s_have = true;
                }
            }
        }
        i += 1;
    }
    if f_have {
        Ok(f_best)
    } else if s_have {
        Ok(s_best)
    } else if t_have {
        Ok(t_best)
    } else {
        Err(SolverError::MissingMarker)
    }
}

/// Phase-2 simplex: pivot until the objective row holds no negative
/// coefficient, i.e. the weighted error objective is at its minimum for the
/// current constraint set.
fn optimize(rows0: Vec<(Symbol, Row)>, obj0: Row) -> (r: Result<
    (Vec<(Symbol, Row)>, Row),
    SolverError,
>)
    requires
        tableau_wf(rows0@),
        obj0.wf(),
    ensures
        r matches Ok(p) ==> tableau_wf(p.0@) && p.1.wf() && p.0@.len() == rows0@.len(),
        r matches Ok(p) ==> forall|x: Symbol| (#[trigger] p.1.coeff(x)).0 >= 0,
        r matches Err(e) ==> e != SolverError::MissingMarker,
{
    let ghost n0 = rows0@.len();
    let mut rows = rows0;
    let mut obj = obj0;
    let mut fuel: u64 = 0xffff_ffff_ffff_ffff;
    while fuel > 0
        invariant
            tableau_wf(rows@),
            obj.wf(),
            rows@.len() == n0,
            n0 == rows0@.len(),
        decreases fuel,
    {
        let entering = match obj.first_negative() {
            Some(e) => e,
            None => {
                return Ok((rows, obj));
            },
        };
        let li = match leaving_index(&rows, entering) {
            Ok(i) => i,
            Err(e) => {
                return Err(e);
            },
        };
        let ghost before = rows@;
        let pair = rows.remove(li);
        let leaving = pair.0;
        let lrow = pair.1;
        proof {
            crate::assoc::lemma_assoc_get_remove(before, li as int, entering);
            assert forall|t: int| 0 <= t < rows@.len() implies (#[trigger] rows@[t]).1.wf() by {
                if t < li {
                    assert(rows@[t] == before[t]);
                } else {
                    assert(rows@[t] == before[t + 1]);
                }
            }
        }
        if leaving == entering {
            return Err(SolverError::Internal);
        }
        let row2 = match lrow.checked_solve_for_symbols(leaving, entering) {
            Some(v) => v,
            None => {
                return Err(SolverError::Overflow);
            },
        };
        match assoc_find(&rows, entering) {
            Some(_) => {
                return Err(SolverError::Internal);
            },
            None => {},
        }
        let rows2 = match substitute_all(&rows, entering, &row2) {
            Some(v) => v,
            None => {
                return Err(SolverError::Overflow);
            },
        };
        let obj2 = match obj.substitute(entering, &row2) {
            Some(v) => v,
            None => {
                return Err(SolverError::Overflow);
            },
        };
        proof {
            crate::assoc::lemma_assoc_same_keys(rows@, rows2@, entering);
            lemma_assoc_get_push(rows2@, (entering, row2), entering);
        }
        rows = rows2;
        rows.push((entering, row2));
        proof {
            assert forall|t: int| 0 <= t < rows@.len() implies (#[trigger] rows@[t]).1.wf() by {}
        }
        obj = obj2;
        fuel = fuel - 1;
    }
    Err(SolverError::Internal)
}

} // verus!

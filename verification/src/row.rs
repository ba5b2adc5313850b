//! A sparse linear form: the unit of storage in the simplex tableau.
//!
//! A row is a map from symbols to exact rational coefficients plus one
//! constant term.  A coefficient of zero is never stored: entries are pruned
//! exactly on every mutation, so the stored size tracks only significant
//! terms.  Entries keep their insertion order, which makes every scan over a
//! row deterministic.
//!
//! All operations are functional: they hand back a fresh row and leave the
//! receiver unchanged, returning `None` when a 64-bit rational overflows.

use vstd::prelude::*;
use crate::assoc::{
    assoc_distinct,
    assoc_get,
    assoc_has,
    lemma_assoc_get_absent,
    lemma_assoc_get_at,
    lemma_assoc_get_push,
    lemma_assoc_get_remove,
    lemma_assoc_get_some,
};
use crate::rational::{
    lemma_q_add_congr,
    lemma_rep_add_fits,
    lemma_q_eq_trans,
    lemma_q_eq_zero,
    lemma_q_mul_comm,
    lemma_q_mul_congr,
    lemma_q_pos,
    lemma_q_scale,
    q_add,
    q_div,
    q_eq,
    q_fits,
    q_mul,
    q_abs,
    q_neg,
    q_recip_neg,
    Rational,
};
use crate::symbol::{Symbol, SymbolKind};

verus! {

/// A sparse `symbol -> coefficient` map plus a constant term.
pub struct Row {
    cells: Vec<(Symbol, Rational)>,
    constant: Rational,
}

impl Row {
    /// The stored entries, in scan order.
    pub closed spec fn cells_view(self) -> Seq<(Symbol, Rational)> {
        self.cells@
    }

    /// The constant term.
    pub closed spec fn constant_r(self) -> Rational {
        self.constant
    }

    /// The constant term as a rational pair.
    pub open spec fn constant_q(self) -> (int, int) {
        self.constant_r().q()
    }

    /// The coefficient of `x` as a rational pair; zero when absent.
    pub open spec fn coeff(self, x: Symbol) -> (int, int) {
        match assoc_get(self.cells_view(), x) {
            Some(c) => c.q(),
            None => (0int, 1int),
        }
    }

    /// Whether `x` has a stored entry.
    pub open spec fn has(self, x: Symbol) -> bool {
        assoc_has(self.cells_view(), x)
    }

    /// Well-formed: keys distinct, every stored coefficient well-formed and
    /// exactly nonzero, constant well-formed.
    pub open spec fn wf(self) -> bool {
        &&& self.constant_r().wf()
        &&& assoc_distinct(self.cells_view())
        &&& forall|i: int|
            0 <= i < self.cells_view().len() ==> (#[trigger] self.cells_view()[i]).1.wf()
                && self.cells_view()[i].1.q().0 != 0
    }

    /// In a well-formed row a symbol is stored exactly when its coefficient
    /// is nonzero, and every coefficient has a positive denominator.
    pub proof fn lemma_coeff_props(self, x: Symbol)
        requires
            self.wf(),
        ensures
            self.coeff(x).1 > 0,
            self.has(x) <==> self.coeff(x).0 != 0,
    {
        lemma_assoc_get_some(self.cells_view(), x);
        if self.has(x) {
            let i = choose|i: int|
                0 <= i < self.cells_view().len() && (#[trigger] self.cells_view()[i]).0 == x;
            lemma_assoc_get_at(self.cells_view(), i);
        } else {
            lemma_assoc_get_absent(self.cells_view(), x);
        }
    }

    /// An empty row holding only a constant.
    pub fn new(constant: Rational) -> (r: Row)
        requires
            constant.wf(),
        ensures
            r.wf(),
            r.constant_r() == constant,
            r.cells_view().len() == 0,
            forall|x: Symbol| #[trigger] r.coeff(x) == (0int, 1int),
            forall|x: Symbol| !(#[trigger] r.has(x)),
    {
        let r = Row { cells: Vec::new(), constant };
        proof {
            assert forall|x: Symbol| #[trigger] r.coeff(x) == (0int, 1int) by {
                lemma_assoc_get_absent(r.cells_view(), x);
            }
        }
        r
    }

    /// The constant term.
    pub fn constant(&self) -> (r: Rational)
        ensures
            r == self.constant_r(),
    {
        self.constant
    }

    /// The number of stored entries.
    pub fn len(&self) -> (n: usize)
        ensures
            n == self.cells_view().len(),
    {
        self.cells.len()
    }

    /// A structural copy of this row.
    pub fn duplicate(&self) -> (r: Row)
        ensures
            r.cells_view() == self.cells_view(),
            r.constant_r() == self.constant_r(),
    {
        Row { cells: copy_cells(&self.cells), constant: self.constant }
    }

    /// The stored coefficient of `symbol`, or zero.
    pub fn coefficient_for(&self, symbol: Symbol) -> (r: Rational)
        requires
            self.wf(),
        ensures
            r.wf(),
            r.q() == self.coeff(symbol),
    {
        match find_index(&self.cells, symbol) {
            Some(i) => {
                proof {
                    lemma_assoc_get_at(self.cells_view(), i as int);
                }
                self.cells[i].1
            },
            None => {
                proof {
                    lemma_assoc_get_absent(self.cells_view(), symbol);
                }
                Rational::zero()
            },
        }
    }

    /// Adds `k` to the coefficient of `symbol`, pruning an exactly-zero result.
    #[verifier::spinoff_prover]
    #[verifier::rlimit(60)]
    pub fn checked_add_symbol(&self, symbol: Symbol, k: Rational) -> (r: Option<Row>)
        requires
            self.wf(),
            k.wf(),
        ensures
            r matches Some(r2) ==> r2.wf() && r2.constant_r() == self.constant_r(),
            r matches Some(r2) ==> q_eq(r2.coeff(symbol), q_add(self.coeff(symbol), k.q())),
            r matches Some(r2) ==> forall|x: Symbol|
                x != symbol ==> #[trigger] r2.coeff(x) == self.coeff(x),
            r matches Some(r2) ==> forall|x: Symbol|
                x != symbol ==> #[trigger] r2.has(x) == self.has(x),
            r matches Some(r2) ==> crate::rational::q_rep_bounded(
                r2.coeff(symbol),
                q_add(self.coeff(symbol), k.q()),
            ),
            q_fits(q_add(self.coeff(symbol), k.q())) ==> r is Some,
    {
        let ghost s = self.cells_view();
        match find_index(&self.cells, symbol) {
            None => {
                proof {
                    lemma_assoc_get_absent(s, symbol);
                }
                let mut cells = copy_cells(&self.cells);
                if !k.is_zero() {
                    cells.push((symbol, k));
                    proof {
                        assert(cells@ == s.push((symbol, k)));
                        assert forall|x: Symbol| x != symbol implies #[trigger] Row {
                            cells,
                            constant: self.constant,
                        }.coeff(x) == self.coeff(x) by {
                            lemma_assoc_get_push(s, (symbol, k), x);
                        }
                        lemma_assoc_get_push(s, (symbol, k), symbol);
                        assert forall|i: int| 0 <= i < cells@.len() implies (#[trigger] cells@[i]).1.wf()
                            && cells@[i].1.q().0 != 0 by {
                            if i < s.len() {
                                assert(cells@[i] == s[i]);
                            }
                        }
                        assert forall|x: Symbol| x != symbol implies #[trigger] assoc_has(cells@, x)
                            == assoc_has(s, x) by {
                            lemma_assoc_get_push(s, (symbol, k), x);
                        }
                    }
                }
                let out = Row { cells, constant: self.constant };
                proof {
                    assert(self.coeff(symbol) == (0int, 1int));
                    if k.q().0 != 0 {
                        assert(out.cells_view() == s.push((symbol, k)));
                        lemma_assoc_get_push(s, (symbol, k), symbol);
                        assert(out.coeff(symbol) == k.q());
                        assert(q_eq(k.q(), q_add((0int, 1int), k.q()))) by (nonlinear_arith);
                    } else {
                        assert(out.coeff(symbol) == (0int, 1int));
                        assert(q_eq((0int, 1int), q_add((0int, 1int), k.q()))) by (nonlinear_arith)
                            requires
                                k.q().0 == 0,
                        ;
                    }
                    assert(q_eq(out.coeff(symbol), q_add(self.coeff(symbol), k.q())));
                }
                Some(out)
            },
            Some(i) => {
                proof {
                    lemma_assoc_get_at(s, i as int);
                }
                let c = self.cells[i].1;
                let sum = match c.checked_add(k) {
                    Some(v) => v,
                    None => {
                        return None;
                    },
                };
                let mut cells = copy_cells(&self.cells);
                cells.remove(i);
                let ghost s1 = s.remove(i as int);
                proof {
                    assert(cells@ == s1);
                    lemma_assoc_get_remove(s, i as int, symbol);
                    assert forall|j: int| 0 <= j < s1.len() implies (#[trigger] s1[j]).1.wf()
                        && s1[j].1.q().0 != 0 by {
                        if j < i {
                            assert(s1[j] == s[j]);
                        } else {
                            assert(s1[j] == s[j + 1]);
                        }
                    }
                }
                if sum.is_zero() {
                    proof {
                        assert(self.coeff(symbol) == c.q());
                        assert(c.wf());
                        lemma_q_pos(c.q().1, k.q().1);
                        lemma_q_eq_zero(sum.q(), q_add(self.coeff(symbol), k.q()));
                        assert(q_eq((0int, 1int), q_add(self.coeff(symbol), k.q())));
                        assert forall|x: Symbol| x != symbol implies #[trigger] Row {
                            cells,
                            constant: self.constant,
                        }.coeff(x) == self.coeff(x) by {
                            lemma_assoc_get_remove(s, i as int, x);
                        }
                        assert forall|x: Symbol| x != symbol implies #[trigger] assoc_has(cells@, x)
                            == assoc_has(s, x) by {
                            lemma_assoc_get_remove(s, i as int, x);
                        }
                    }
                    let out = Row { cells, constant: self.constant };
                    proof {
                        assert(q_eq(out.coeff(symbol), q_add(self.coeff(symbol), k.q())));
                    }
                    Some(out)
                } else {
                    cells.push((symbol, sum));
                    proof {
                        lemma_assoc_get_push(s1, (symbol, sum), symbol);
                        assert forall|x: Symbol| x != symbol implies #[trigger] Row {
                            cells,
                            constant: self.constant,
                        }.coeff(x) == self.coeff(x) by {
                            lemma_assoc_get_push(s1, (symbol, sum), x);
                            lemma_assoc_get_remove(s, i as int, x);
                        }
                        assert forall|x: Symbol| x != symbol implies #[trigger] assoc_has(cells@, x)
                            == assoc_has(s, x) by {
                            lemma_assoc_get_push(s1, (symbol, sum), x);
                            lemma_assoc_get_remove(s, i as int, x);
                        }
                        assert forall|j: int| 0 <= j < cells@.len() implies (#[trigger] cells@[j]).1.wf()
                            && cells@[j].1.q().0 != 0 by {
                            if j < s1.len() {
                                assert(cells@[j] == s1[j]);
                            }
                        }
                    }
                    let out = Row { cells, constant: self.constant };
                    proof {
                        assert(q_eq(out.coeff(symbol), q_add(self.coeff(symbol), k.q())));
                    }
                    Some(out)
                }
            },
        }
    }

    /// Drops the entry of `symbol` without touching anything else.
    pub fn remove_symbol(&self, symbol: Symbol) -> (r: Row)
        requires
            self.wf(),
        ensures
            r.wf(),
            r.constant_r() == self.constant_r(),
            r.coeff(symbol) == (0int, 1int),
            !r.has(symbol),
            forall|x: Symbol| x != symbol ==> #[trigger] r.coeff(x) == self.coeff(x),
            forall|x: Symbol| x != symbol ==> #[trigger] r.has(x) == self.has(x),
    {
        let ghost s = self.cells_view();
        match find_index(&self.cells, symbol) {
            None => {
                let cells = copy_cells(&self.cells);
                proof {
                    lemma_assoc_get_absent(s, symbol);
                }
                Row { cells, constant: self.constant }
            },
            Some(i) => {
                let mut cells = copy_cells(&self.cells);
                cells.remove(i);
                proof {
                    lemma_assoc_get_remove(s, i as int, symbol);
                    assert forall|x: Symbol| x != symbol implies #[trigger] Row {
                        cells,
                        constant: self.constant,
                    }.coeff(x) == self.coeff(x) by {
                        lemma_assoc_get_remove(s, i as int, x);
                    }
                    assert forall|x: Symbol| x != symbol implies #[trigger] assoc_has(cells@, x)
                        == assoc_has(s, x) by {
                        lemma_assoc_get_remove(s, i as int, x);
                    }
                    assert forall|j: int| 0 <= j < cells@.len() implies (#[trigger] cells@[j]).1.wf()
                        && cells@[j].1.q().0 != 0 by {
                        if j < i {
                            assert(cells@[j] == s[j]);
                        } else {
                            assert(cells@[j] == s[j + 1]);
                        }
                    }
                }
                Row { cells, constant: self.constant }
            },
        }
    }

    /// Negates every coefficient and the constant; used to normalize a fresh
    /// row to a non-negative constant.
    pub fn reverse_sign(&self) -> (r: Row)
        requires
            self.wf(),
        ensures
            r.wf(),
            r.constant_q() == q_neg(self.constant_q()),
            forall|x: Symbol| #[trigger] r.coeff(x) == q_neg(self.coeff(x)),
            forall|x: Symbol| #[trigger] r.has(x) == self.has(x),
    {
        let ghost s = self.cells_view();
        let mut cells: Vec<(Symbol, Rational)> = Vec::new();
        let mut i: usize = 0;
        while i < self.cells.len()
            invariant
                self.wf(),
                i <= s.len(),
                s == self.cells@,
                cells@.len() == i,
                forall|j: int| 0 <= j < i ==> (#[trigger] cells@[j]).0 == s[j].0,
                forall|j: int|
                    0 <= j < i ==> (#[trigger] cells@[j]).1.q() == q_neg(s[j].1.q()),
                forall|j: int| 0 <= j < i ==> (#[trigger] cells@[j]).1.wf(),
            decreases s.len() - i,
        {
            let (sy, c) = self.cells[i];
            cells.push((sy, c.neg()));
            i += 1;
        }
        let out = Row { cells, constant: self.constant.neg() };
        proof {
            assert forall|a: int, b: int| 0 <= a < b < out.cells_view().len() implies (
            #[trigger] out.cells_view()[a]).0 != (#[trigger] out.cells_view()[b]).0 by {
                assert(out.cells_view()[a].0 == s[a].0);
                assert(out.cells_view()[b].0 == s[b].0);
            }
            assert forall|x: Symbol| #[trigger] out.has(x) == self.has(x) by {
                lemma_same_keys(s, out.cells_view(), x);
            }
            assert forall|x: Symbol| #[trigger] out.coeff(x) == q_neg(self.coeff(x)) by {
                if self.has(x) {
                    let j = choose|j: int| 0 <= j < s.len() && (#[trigger] s[j]).0 == x;
                    lemma_assoc_get_at(s, j);
                    lemma_assoc_get_at(out.cells_view(), j);
                } else {
                    lemma_same_keys(s, out.cells_view(), x);
                    lemma_assoc_get_absent(s, x);
                    lemma_assoc_get_absent(out.cells_view(), x);
                }
            }
        }
        out
    }

    /// Rewrites `0 = c + k·symbol + rest` into `symbol = -c/k - rest/k`:
    /// every remaining entry and the constant are scaled by `-1/k`, and the
    /// entry of `symbol` itself is dropped.
    pub fn checked_solve_for_symbol(&self, symbol: Symbol) -> (r: Option<Row>)
        requires
            self.wf(),
            self.coeff(symbol).0 != 0,
        ensures
            r matches Some(r2) ==> r2.wf() && !r2.has(symbol) && r2.coeff(symbol) == (0int, 1int),
            r matches Some(r2) ==> q_eq(
                r2.constant_q(),
                q_mul(q_recip_neg(self.coeff(symbol)), self.constant_q()),
            ),
            r matches Some(r2) ==> forall|x: Symbol|
                x != symbol ==> q_eq(
                    #[trigger] r2.coeff(x),
                    q_mul(q_recip_neg(self.coeff(symbol)), self.coeff(x)),
                ),
            r matches Some(r2) ==> forall|x: Symbol|
                x != symbol ==> #[trigger] r2.has(x) == self.has(x),
            solve_fits(*self, symbol) ==> r is Some,
    {
        let ghost s = self.cells_view();
        proof {
            self.lemma_coeff_props(symbol);
        }
        let i = match find_index(&self.cells, symbol) {
            Some(i) => i,
            None => {
                proof {
                    assert(false);
                }
                return None;
            },
        };
        proof {
            lemma_assoc_get_at(s, i as int);
        }
        let c = self.cells[i].1;
        let ghost rec = q_recip_neg(c.q());
        proof {
            assert(rec.0 != 0 && rec.1 > 0) by {
                if c.q().0 >= 0 {
                    assert(rec == (-1 * c.q().1, 1 * c.q().0));
                } else {
                    assert(rec == (-(-1 * c.q().1), -(1 * c.q().0)));
                }
            }
        }
        let k = match Rational::from_int(-1).checked_div(c) {
            Some(k) => k,
            None => {
                proof {
                    assert(q_fits(rec)) by {
                        if c.q().0 >= 0 {
                            assert(rec == (-1 * c.q().1, 1 * c.q().0));
                        } else {
                            assert(rec == (-(-1 * c.q().1), -(1 * c.q().0)));
                        }
                    }
                    assert(false);
                }
                return None;
            },
        };
        proof {
            lemma_q_eq_zero(k.q(), rec);
            assert(q_abs(rec.0) == c.q().1 && rec.1 == q_abs(c.q().0)) by {
                if c.q().0 >= 0 {
                    assert(rec == (-1 * c.q().1, 1 * c.q().0));
                } else {
                    assert(rec == (-(-1 * c.q().1), -(1 * c.q().0)));
                }
            }
        }
        let mut cells: Vec<(Symbol, Rational)> = Vec::new();
        let mut j: usize = 0;
        while j < self.cells.len()
            invariant
                self.wf(),
                s == self.cells@,
                i < s.len(),
                s[i as int].0 == symbol,
                k.wf(),
                k.q().0 != 0,
                q_eq(k.q(), rec),
                rec.1 > 0,
                rec.0 != 0,
                crate::rational::q_rep_bounded(k.q(), rec),
                q_abs(rec.0) == self.coeff(symbol).1 && rec.1 == q_abs(self.coeff(symbol).0),
                rec == q_recip_neg(self.coeff(symbol)),
                j <= s.len(),
                cells@.len() == if j <= i { j as int } else { j - 1 },
                forall|t: int|
                    0 <= t < cells@.len() ==> (#[trigger] cells@[t]).0 == s[skip_idx(t, i as int)].0,
                forall|t: int|
                    0 <= t < cells@.len() ==> q_eq(
                        (#[trigger] cells@[t]).1.q(),
                        q_mul(rec, s[skip_idx(t, i as int)].1.q()),
                    ),
                forall|t: int|
                    0 <= t < cells@.len() ==> (#[trigger] cells@[t]).1.wf()
                        && cells@[t].1.q().0 != 0,
            decreases s.len() - j,
        {
            if j != i {
                let (sy, co) = self.cells[j];
                let v = match co.checked_mul(k) {
                    Some(v) => v,
                    None => {
                        proof {
                            if solve_fits(*self, symbol) {
                                assert((#[trigger] s[j as int]).0 != symbol);
                                crate::rational::lemma_rep_mul_fits(co.q(), k.q(), co.q(), rec);
                            }
                        }
                        return None;
                    },
                };
                proof {
                    lemma_q_mul_comm(co.q(), k.q());
                    lemma_q_mul_congr(k.q(), rec, co.q(), co.q());
                    lemma_q_pos(k.q().1, co.q().1);
                    lemma_q_eq_trans(v.q(), q_mul(k.q(), co.q()), q_mul(rec, co.q()));
                    assert(q_mul(rec, co.q()).0 != 0) by (nonlinear_arith)
                        requires
                            rec.0 != 0,
                            co.q().0 != 0,
                    ;
                    assert(q_mul(rec, co.q()).1 > 0) by (nonlinear_arith)
                        requires
                            rec.1 > 0,
                            co.q().1 > 0,
                    ;
                    lemma_q_eq_zero(v.q(), q_mul(rec, co.q()));
                }
                cells.push((sy, v));
            }
            j += 1;
        }
        let constant = match self.constant.checked_mul(k) {
            Some(v) => v,
            None => {
                proof {
                    if solve_fits(*self, symbol) {
                        crate::rational::lemma_rep_mul_fits(
                            self.constant_q(),
                            k.q(),
                            self.constant_q(),
                            rec,
                        );
                    }
                }
                return None;
            },
        };
        let out = Row { cells, constant };
        proof {
            lemma_q_mul_comm(self.constant_r().q(), k.q());
            lemma_q_mul_congr(k.q(), rec, self.constant_q(), self.constant_q());
            lemma_q_pos(k.q().1, self.constant_r().q().1);
            lemma_q_eq_trans(
                constant.q(),
                q_mul(k.q(), self.constant_q()),
                q_mul(rec, self.constant_q()),
            );
            let sc = out.cells_view();
            assert forall|a: int, b: int| 0 <= a < b < sc.len() implies (#[trigger] sc[a]).0 != (
            #[trigger] sc[b]).0 by {
                assert(sc[a].0 == s[skip_idx(a, i as int)].0);
                assert(sc[b].0 == s[skip_idx(b, i as int)].0);
            }
            assert(!out.has(symbol)) by {
                if out.has(symbol) {
                    let t = choose|t: int| 0 <= t < sc.len() && (#[trigger] sc[t]).0 == symbol;
                    assert(sc[t].0 == s[skip_idx(t, i as int)].0);
                }
            }
            lemma_assoc_get_absent(sc, symbol);
            assert forall|x: Symbol| x != symbol implies #[trigger] out.has(x) == self.has(x) by {
                if self.has(x) {
                    let a = choose|a: int| 0 <= a < s.len() && (#[trigger] s[a]).0 == x;
                    let t: int = if a < i as int {
                        a
                    } else {
                        a - 1
                    };
                    assert(sc[t].0 == s[skip_idx(t, i as int)].0);
                    assert(assoc_has(sc, x));
                }
                if out.has(x) {
                    let t = choose|t: int| 0 <= t < sc.len() && (#[trigger] sc[t]).0 == x;
                    assert(sc[t].0 == s[skip_idx(t, i as int)].0);
                    assert(assoc_has(s, x));
                }
            }
            assert forall|x: Symbol| x != symbol implies q_eq(
                #[trigger] out.coeff(x),
                q_mul(q_recip_neg(self.coeff(symbol)), self.coeff(x)),
            ) by {
                if self.has(x) {
                    let a = choose|a: int| 0 <= a < s.len() && (#[trigger] s[a]).0 == x;
                    let t: int = if a < i as int {
                        a
                    } else {
                        a - 1
                    };
                    assert(sc[t].0 == s[skip_idx(t, i as int)].0);
                    lemma_assoc_get_at(s, a);
                    lemma_assoc_get_at(sc, t);
                } else {
                    lemma_assoc_get_absent(s, x);
                    assert(!out.has(x));
                    lemma_assoc_get_absent(sc, x);
                    assert(q_eq((0int, 1int), q_mul(rec, (0int, 1int)))) by (nonlinear_arith);
                }
            }
        }
        Some(out)
    }

    /// Subtracts `lhs` out (coefficient −1) and then solves for `rhs`;
    /// used when pivoting one basic symbol for another.
    pub fn checked_solve_for_symbols(&self, lhs: Symbol, rhs: Symbol) -> (r: Option<Row>)
        requires
            self.wf(),
            rhs != lhs,
            self.coeff(rhs).0 != 0,
        ensures
            r matches Some(r2) ==> r2.wf() && !r2.has(rhs) && r2.coeff(rhs) == (0int, 1int),
            r matches Some(r2) ==> q_eq(
                r2.constant_q(),
                q_mul(q_recip_neg(self.coeff(rhs)), self.constant_q()),
            ),
            r matches Some(r2) ==> q_eq(
                r2.coeff(lhs),
                q_mul(q_recip_neg(self.coeff(rhs)), q_add(self.coeff(lhs), (-1int, 1int))),
            ),
            r matches Some(r2) ==> forall|x: Symbol|
                x != lhs && x != rhs ==> q_eq(
                    #[trigger] r2.coeff(x),
                    q_mul(q_recip_neg(self.coeff(rhs)), self.coeff(x)),
                ),
            solve_pair_fits(*self, lhs, rhs) ==> r is Some,
    {
        let mid = match self.checked_add_symbol(lhs, Rational::from_int(-1)) {
            Some(m) => m,
            None => {
                return None;
            },
        };
        proof {
            assert(mid.coeff(rhs) == self.coeff(rhs));
            if solve_pair_fits(*self, lhs, rhs) {
                let c = self.coeff(rhs);
                let ml = q_add(self.coeff(lhs), (-1int, 1int));
                self.lemma_coeff_props(rhs);
                self.lemma_coeff_props(lhs);
                assert forall|t: int| 0 <= t < mid.cells_view().len() implies ({
                    let co = (#[trigger] mid.cells_view()[t]).1.q();
                    mid.cells_view()[t].0 != rhs ==> q_abs(co.0) * c.1 <= i64::MAX as int && co.1
                        * q_abs(c.0) <= i64::MAX as int
                }) by {
                    let key = mid.cells_view()[t].0;
                    lemma_assoc_get_at(mid.cells_view(), t);
                    if key != rhs {
                        if key == lhs {
                            assert(crate::rational::q_rep_bounded(mid.coeff(lhs), ml));
                            assert(q_abs(mid.coeff(lhs).0) * c.1 <= q_abs(ml.0) * c.1
                                && mid.coeff(lhs).1 * q_abs(c.0) <= ml.1 * q_abs(c.0))
                                by (nonlinear_arith)
                                requires
                                    q_abs(mid.coeff(lhs).0) <= q_abs(ml.0),
                                    0 < mid.coeff(lhs).1 <= ml.1,
                                    c.1 > 0,
                                    q_abs(c.0) >= 0,
                            ;
                        } else {
                            assert(mid.coeff(key) == self.coeff(key));
                            self.lemma_coeff_props(key);
                            mid.lemma_coeff_props(key);
                            assert(self.has(key));
                            let sv = self.cells_view();
                            let u = choose|u: int|
                                0 <= u < sv.len() && (#[trigger] sv[u]).0 == key;
                            lemma_assoc_get_at(self.cells_view(), u);
                        }
                    }
                }
                self.lemma_coeff_props(rhs);
                self.lemma_coeff_props(lhs);
                assert(solve_fits(mid, rhs));
            }
        }
        let r = mid.checked_solve_for_symbol(rhs);
        proof {
            if r is Some {
                let r2 = r.unwrap();
                let rec = q_recip_neg(self.coeff(rhs));
                assert(rec.1 > 0 && rec.0 != 0) by {
                    self.lemma_coeff_props(rhs);
                    if self.coeff(rhs).0 >= 0 {
                        assert(rec == (-1 * self.coeff(rhs).1, 1 * self.coeff(rhs).0));
                    } else {
                        assert(rec == (-(-1 * self.coeff(rhs).1), -(1 * self.coeff(rhs).0)));
                    }
                }
                self.lemma_coeff_props(lhs);
                mid.lemma_coeff_props(lhs);
                lemma_q_mul_congr(rec, rec, mid.coeff(lhs), q_add(self.coeff(lhs), (-1int, 1int)));
                assert(q_mul(rec, mid.coeff(lhs)).1 != 0) by (nonlinear_arith)
                    requires
                        rec.1 > 0,
                        q_mul(rec, mid.coeff(lhs)).1 == rec.1 * mid.coeff(lhs).1,
                        mid.coeff(lhs).1 > 0,
                ;
                lemma_q_eq_trans(
                    r2.coeff(lhs),
                    q_mul(rec, mid.coeff(lhs)),
                    q_mul(rec, q_add(self.coeff(lhs), (-1int, 1int))),
                );
            }
        }
        r
    }

    /// Adds `k` times `other` into this row, termwise, including the constant;
    /// the substrate of substitution and elimination.
    pub fn checked_add_row(&self, other: &Row, k: Rational) -> (r: Option<Row>)
        requires
            self.wf(),
            other.wf(),
            k.wf(),
        ensures
            r matches Some(r2) ==> r2.wf(),
            r matches Some(r2) ==> q_eq(
                r2.constant_q(),
                q_add(self.constant_q(), q_mul(k.q(), other.constant_q())),
            ),
            r matches Some(r2) ==> forall|x: Symbol|
                q_eq(
                    #[trigger] r2.coeff(x),
                    q_add(self.coeff(x), q_mul(k.q(), other.coeff(x))),
                ),
            add_row_fits(*self, *other, k) ==> r is Some,
    {
        let ghost o = other.cells_view();
        let ghost condv = add_row_fits(*self, *other, k);
        let p = match other.constant.checked_mul(k) {
            Some(v) => v,
            None => {
                return None;
            },
        };
        let cst = match self.constant.checked_add(p) {
            Some(v) => v,
            None => {
                proof {
                    if condv {
                        lemma_rep_add_fits(
                            self.constant_q(),
                            p.q(),
                            self.constant_q(),
                            q_mul(other.constant_q(), k.q()),
                        );
                    }
                }
                return None;
            },
        };
        proof {
            lemma_q_mul_comm(other.constant_q(), k.q());
            lemma_q_pos(k.q().1, other.constant_r().q().1);
            lemma_q_add_congr(
                self.constant_q(),
                self.constant_q(),
                p.q(),
                q_mul(k.q(), other.constant_q()),
            );
            lemma_q_pos(self.constant_r().q().1, p.q().1);
            lemma_q_eq_trans(
                cst.q(),
                q_add(self.constant_q(), p.q()),
                q_add(self.constant_q(), q_mul(k.q(), other.constant_q())),
            );
        }
        let mut acc = Row { cells: copy_cells(&self.cells), constant: cst };
        let mut j: usize = 0;
        while j < other.cells.len()
            invariant
                self.wf(),
                other.wf(),
                k.wf(),
                o == other.cells@,
                j <= o.len(),
                acc.wf(),
                acc.constant_r() == cst,
                forall|t: int|
                    0 <= t < j ==> q_eq(
                        acc.coeff((#[trigger] o[t]).0),
                        q_add(self.coeff(o[t].0), q_mul(k.q(), o[t].1.q())),
                    ),
                forall|x: Symbol|
                    (forall|u: int| 0 <= u < j ==> (#[trigger] o[u]).0 != x) ==> #[trigger] acc
                        .coeff(x) == self.coeff(x),
                condv == add_row_fits(*self, *other, k),
            decreases o.len() - j,
        {
            let (sy, co) = other.cells[j];
            proof {
                if condv {
                    assert((#[trigger] other.cells_view()[j as int]).1.q() == co.q());
                }
            }
            let kc = match co.checked_mul(k) {
                Some(v) => v,
                None => {
                    return None;
                },
            };
            let acc2 = match acc.checked_add_symbol(sy, kc) {
                Some(v) => v,
                None => {
                    proof {
                        if condv {
                            assert(forall|u: int| 0 <= u < j ==> (#[trigger] o[u]).0 != sy);
                            assert(acc.coeff(sy) == self.coeff(sy));
                            self.lemma_coeff_props(sy);
                            lemma_rep_add_fits(
                                self.coeff(sy),
                                kc.q(),
                                self.coeff(sy),
                                q_mul(co.q(), k.q()),
                            );
                        }
                    }
                    return None;
                },
            };
            proof {
                assert(forall|u: int| 0 <= u < j ==> (#[trigger] o[u]).0 != sy);
                assert(acc.coeff(sy) == self.coeff(sy));
                self.lemma_coeff_props(sy);
                lemma_q_mul_comm(co.q(), k.q());
                lemma_q_pos(k.q().1, co.q().1);
                lemma_q_add_congr(
                    self.coeff(sy),
                    self.coeff(sy),
                    kc.q(),
                    q_mul(k.q(), co.q()),
                );
                lemma_q_pos(self.coeff(sy).1, kc.q().1);
                lemma_q_eq_trans(
                    acc2.coeff(sy),
                    q_add(self.coeff(sy), kc.q()),
                    q_add(self.coeff(sy), q_mul(k.q(), co.q())),
                );
                assert forall|t: int| 0 <= t < j + 1 implies q_eq(
                    acc2.coeff((#[trigger] o[t]).0),
                    q_add(self.coeff(o[t].0), q_mul(k.q(), o[t].1.q())),
                ) by {
                    if t < j {
                        assert(o[t].0 != sy);
                        assert(acc2.coeff(o[t].0) == acc.coeff(o[t].0));
                    }
                }
            }
            acc = acc2;
            j += 1;
        }
        proof {
            assert forall|x: Symbol| q_eq(
                #[trigger] acc.coeff(x),
                q_add(self.coeff(x), q_mul(k.q(), other.coeff(x))),
            ) by {
                if other.has(x) {
                    let t = choose|t: int| 0 <= t < o.len() && (#[trigger] o[t]).0 == x;
                    lemma_assoc_get_at(o, t);
                } else {
                    assert(forall|u: int| 0 <= u < o.len() ==> (#[trigger] o[u]).0 != x);
                    assert(acc.coeff(x) == self.coeff(x));
                    lemma_assoc_get_absent(o, x);
                    self.lemma_coeff_props(x);
                    lemma_q_scale(self.coeff(x), k.q().1);
                    assert(q_add(self.coeff(x), q_mul(k.q(), (0int, 1int))) == (
                        self.coeff(x).0 * k.q().1 + 0 * self.coeff(x).1,
                        self.coeff(x).1 * k.q().1,
                    ));
                }
            }
        }
        Some(acc)
    }

    /// If `symbol` appears in this row, removes it and folds in
    /// `coefficient × row` instead.
    pub fn substitute(&self, symbol: Symbol, row: &Row) -> (r: Option<Row>)
        requires
            self.wf(),
            row.wf(),
        ensures
            r matches Some(r2) ==> r2.wf(),
            r matches Some(r2) ==> q_eq(
                r2.constant_q(),
                q_add(self.constant_q(), q_mul(self.coeff(symbol), row.constant_q())),
            ),
            r matches Some(r2) ==> q_eq(
                r2.coeff(symbol),
                q_mul(self.coeff(symbol), row.coeff(symbol)),
            ),
            r matches Some(r2) ==> forall|x: Symbol|
                x != symbol ==> q_eq(
                    #[trigger] r2.coeff(x),
                    q_add(self.coeff(x), q_mul(self.coeff(symbol), row.coeff(x))),
                ),
            substitute_fits(*self, symbol, *row) ==> r is Some,
    {
        let c = self.coefficient_for(symbol);
        if c.is_zero() {
            let out = Row { cells: copy_cells(&self.cells), constant: self.constant };
            proof {
                assert(out.cells_view() == self.cells_view());
                assert(self.coeff(symbol).0 == 0);
                assert forall|x: Symbol| q_eq(
                    #[trigger] out.coeff(x),
                    q_add(self.coeff(x), q_mul(self.coeff(symbol), row.coeff(x))),
                ) by {
                    self.lemma_coeff_props(x);
                    row.lemma_coeff_props(x);
                    lemma_q_pos(self.coeff(symbol).1, row.coeff(x).1);
                    lemma_q_scale(self.coeff(x), self.coeff(symbol).1 * row.coeff(x).1);
                    assert(q_add(self.coeff(x), q_mul(self.coeff(symbol), row.coeff(x))) == (
                        self.coeff(x).0 * (self.coeff(symbol).1 * row.coeff(x).1) + (self.coeff(
                            symbol,
                        ).0 * row.coeff(x).0) * self.coeff(x).1,
                        self.coeff(x).1 * (self.coeff(symbol).1 * row.coeff(x).1),
                    ));
                    assert((self.coeff(symbol).0 * row.coeff(x).0) * self.coeff(x).1 == 0)
                        by (nonlinear_arith)
                        requires
                            self.coeff(symbol).0 == 0,
                    ;
                }
                self.lemma_coeff_props(symbol);
                row.lemma_coeff_props(symbol);
                lemma_q_pos(self.coeff(symbol).1, row.coeff(symbol).1);
                assert(q_eq(
                    out.coeff(symbol),
                    q_mul(self.coeff(symbol), row.coeff(symbol)),
                )) by (nonlinear_arith)
                    requires
                        out.coeff(symbol) == self.coeff(symbol),
                        self.coeff(symbol).0 == 0,
                        q_mul(self.coeff(symbol), row.coeff(symbol)) == (
                            self.coeff(symbol).0 * row.coeff(symbol).0,
                            self.coeff(symbol).1 * row.coeff(symbol).1,
                        ),
                ;
                row.lemma_coeff_props(symbol);
                lemma_q_pos(self.coeff(symbol).1, row.constant_r().q().1);
                lemma_q_scale(self.constant_q(), self.coeff(symbol).1 * row.constant_r().q().1);
                assert(q_add(self.constant_q(), q_mul(self.coeff(symbol), row.constant_q())) == (
                    self.constant_q().0 * (self.coeff(symbol).1 * row.constant_q().1) + (self.coeff(
                        symbol,
                    ).0 * row.constant_q().0) * self.constant_q().1,
                    self.constant_q().1 * (self.coeff(symbol).1 * row.constant_q().1),
                ));
                assert((self.coeff(symbol).0 * row.constant_q().0) * self.constant_q().1 == 0)
                    by (nonlinear_arith)
                    requires
                        self.coeff(symbol).0 == 0,
                ;
            }
            return Some(out);
        }
        let base = self.remove_symbol(symbol);
        proof {
            self.lemma_coeff_props(symbol);
            lemma_assoc_get_some(self.cells_view(), symbol);
            if substitute_fits(*self, symbol, *row) {
                let cs = assoc_get(self.cells_view(), symbol).unwrap();
                assert(cs.q() == c.q());
                assert forall|t: int| 0 <= t < row.cells_view().len() implies ({
                    let co = (#[trigger] row.cells_view()[t]).1.q();
                    let key = row.cells_view()[t].0;
                    &&& q_fits(q_mul(co, c.q()))
                    &&& q_abs(base.coeff(key).0) * (co.1 * c.q().1) + q_abs(q_mul(co, c.q()).0)
                        * base.coeff(key).1 <= i64::MAX as int
                    &&& base.coeff(key).1 * (co.1 * c.q().1) <= i64::MAX as int
                }) by {
                    let key = row.cells_view()[t].0;
                    if key == symbol {
                        assert(base.coeff(key) == (0int, 1int));
                    } else {
                        assert(base.coeff(key) == self.coeff(key));
                    }
                }
                assert(add_row_fits(base, *row, c));
            }
        }
        let r = base.checked_add_row(row, c);
        proof {
            if r is Some {
                let r2 = r.unwrap();
                assert(q_add((0int, 1int), q_mul(c.q(), row.coeff(symbol))) == (
                    0 * q_mul(c.q(), row.coeff(symbol)).1 + q_mul(c.q(), row.coeff(symbol)).0 * 1,
                    1 * q_mul(c.q(), row.coeff(symbol)).1,
                ));
            }
        }
        r
    }

    /// The first stored entry with a negative coefficient, in scan order.
    pub fn first_negative(&self) -> (r: Option<Symbol>)
        requires
            self.wf(),
        ensures
            r == first_negative_sym(self.cells_view()),
            r matches Some(sy) ==> self.has(sy) && self.coeff(sy).0 < 0,
            r is None ==> forall|x: Symbol| (#[trigger] self.coeff(x)).0 >= 0,
    {
        let ghost s = self.cells_view();
        proof {
            assert(s.subrange(0, s.len() as int) =~= s);
        }
        let mut j: usize = 0;
        while j < self.cells.len()
            invariant
                self.wf(),
                s == self.cells@,
                j <= s.len(),
                first_negative_sym(s) == first_negative_sym(s.subrange(j as int, s.len() as int)),
                forall|t: int| 0 <= t < j ==> (#[trigger] s[t]).1.q().0 >= 0,
            decreases s.len() - j,
        {
            let (sy, c) = self.cells[j];
            proof {
                assert(s.subrange(j as int, s.len() as int)[0] == s[j as int]);
            }
            if c.is_negative() {
                proof {
                    lemma_assoc_get_at(s, j as int);
                }
                return Some(sy);
            }
            proof {
                assert(s.subrange(j as int, s.len() as int).drop_first() =~= s.subrange(
                    j + 1 as int,
                    s.len() as int,
                ));
            }
            j += 1;
        }
        proof {
            assert(s.subrange(s.len() as int, s.len() as int) =~= Seq::<(Symbol, Rational)>::empty());
            assert forall|x: Symbol| (#[trigger] self.coeff(x)).0 >= 0 by {
                self.lemma_coeff_props(x);
                if self.has(x) {
                    let t = choose|t: int| 0 <= t < s.len() && (#[trigger] s[t]).0 == x;
                    lemma_assoc_get_at(s, t);
                }
            }
        }
        None
    }

    /// The first stored entry whose symbol is external, in scan order.
    pub fn first_external(&self) -> (r: Option<Symbol>)
        requires
            self.wf(),
        ensures
            r == first_external_sym(self.cells_view()),
            r matches Some(sy) ==> self.has(sy) && sy.kind == SymbolKind::External,
            r is None ==> forall|t: int|
                0 <= t < self.cells_view().len() ==> (#[trigger] self.cells_view()[t]).0.kind
                    != SymbolKind::External,
    {
        let ghost s = self.cells_view();
        proof {
            assert(s.subrange(0, s.len() as int) =~= s);
        }
        let mut j: usize = 0;
        while j < self.cells.len()
            invariant
                self.wf(),
                s == self.cells@,
                j <= s.len(),
                first_external_sym(s) == first_external_sym(s.subrange(j as int, s.len() as int)),
                forall|t: int| 0 <= t < j ==> (#[trigger] s[t]).0.kind != SymbolKind::External,
            decreases s.len() - j,
        {
            let sy = self.cells[j].0;
            proof {
                assert(s.subrange(j as int, s.len() as int)[0] == s[j as int]);
            }
            if sy.is_external() {
                proof {
                    lemma_assoc_get_at(s, j as int);
                }
                return Some(sy);
            }
            proof {
                assert(s.subrange(j as int, s.len() as int).drop_first() =~= s.subrange(
                    j + 1 as int,
                    s.len() as int,
                ));
            }
            j += 1;
        }
        proof {
            assert(s.subrange(s.len() as int, s.len() as int) =~= Seq::<(Symbol, Rational)>::empty());
        }
        None
    }
}

/// The first symbol with a negative coefficient, scanning the stored order.
pub open spec fn first_negative_sym(s: Seq<(Symbol, Rational)>) -> Option<Symbol>
    decreases s.len(),
{
    if s.len() == 0 {
        None
    } else if s[0].1.q().0 < 0 {
        Some(s[0].0)
    } else {
        first_negative_sym(s.drop_first())
    }
}

/// The first external symbol, scanning the stored order.
pub open spec fn first_external_sym(s: Seq<(Symbol, Rational)>) -> Option<Symbol>
    decreases s.len(),
{
    if s.len() == 0 {
        None
    } else if s[0].0.kind == SymbolKind::External {
        Some(s[0].0)
    } else {
        first_external_sym(s.drop_first())
    }
}

/// Every intermediate of `checked_add_row` stays within the 64-bit range:
/// the scaled constant and each scaled cell fit, and each sum against the
/// receiver's stored entry fits however the scaled value is represented.
/// Each key of `other` is touched exactly once, so the conditions are
/// independent, over the operands alone.
pub open spec fn add_row_fits(base: Row, other: Row, k: Rational) -> bool {
    &&& q_fits(q_mul(other.constant_q(), k.q()))
    &&& q_abs(base.constant_q().0) * (other.constant_q().1 * k.q().1) + q_abs(
        q_mul(other.constant_q(), k.q()).0,
    ) * base.constant_q().1 <= i64::MAX as int
    &&& base.constant_q().1 * (other.constant_q().1 * k.q().1) <= i64::MAX as int
    &&& forall|t: int|
        0 <= t < other.cells_view().len() ==> ({
            let co = (#[trigger] other.cells_view()[t]).1.q();
            let key = other.cells_view()[t].0;
            &&& q_fits(q_mul(co, k.q()))
            &&& q_abs(base.coeff(key).0) * (co.1 * k.q().1) + q_abs(q_mul(co, k.q()).0)
                * base.coeff(key).1 <= i64::MAX as int
            &&& base.coeff(key).1 * (co.1 * k.q().1) <= i64::MAX as int
        })
}

/// Every intermediate of `checked_solve_for_symbol` fits: each remaining
/// cell and the constant, scaled by `-1 / coefficient`, stay within the
/// 64-bit range.
pub open spec fn solve_fits(s: Row, symbol: Symbol) -> bool {
    let c = s.coeff(symbol);
    &&& q_abs(s.constant_q().0) * c.1 <= i64::MAX as int
    &&& s.constant_q().1 * q_abs(c.0) <= i64::MAX as int
    &&& forall|t: int|
        0 <= t < s.cells_view().len() ==> ({
            let co = (#[trigger] s.cells_view()[t]).1.q();
            s.cells_view()[t].0 != symbol ==> q_abs(co.0) * c.1 <= i64::MAX as int && co.1
                * q_abs(c.0) <= i64::MAX as int
        })
}

/// Every intermediate of `checked_solve_for_symbols` fits: subtracting
/// `lhs` out and solving for `rhs` scales the constant, the adjusted `lhs`
/// entry and every other cell by `-1 / coefficient(rhs)`, each within the
/// 64-bit range.  The `lhs` entry is bounded by its unreduced value.
pub open spec fn solve_pair_fits(s: Row, lhs: Symbol, rhs: Symbol) -> bool {
    let c = s.coeff(rhs);
    let ml = q_add(s.coeff(lhs), (-1int, 1int));
    &&& q_fits(ml)
    &&& q_abs(s.constant_q().0) * c.1 <= i64::MAX as int
    &&& s.constant_q().1 * q_abs(c.0) <= i64::MAX as int
    &&& q_abs(ml.0) * c.1 <= i64::MAX as int
    &&& ml.1 * q_abs(c.0) <= i64::MAX as int
    &&& forall|t: int|
        0 <= t < s.cells_view().len() ==> ({
            let co = (#[trigger] s.cells_view()[t]).1.q();
            s.cells_view()[t].0 != rhs && s.cells_view()[t].0 != lhs ==> q_abs(co.0) * c.1
                <= i64::MAX as int && co.1 * q_abs(c.0) <= i64::MAX as int
        })
}

/// Every intermediate of `substitute` fits: when the substituted symbol is
/// stored, the folded row's scaled constant and cells fit against the
/// receiver with that symbol's entry removed.  When it is absent the
/// substitution copies the row and cannot fail.
pub open spec fn substitute_fits(s: Row, symbol: Symbol, row: Row) -> bool {
    match assoc_get(s.cells_view(), symbol) {
        None => true,
        Some(c) => {
            &&& q_fits(q_mul(row.constant_q(), c.q()))
            &&& q_abs(s.constant_q().0) * (row.constant_q().1 * c.q().1) + q_abs(
                q_mul(row.constant_q(), c.q()).0,
            ) * s.constant_q().1 <= i64::MAX as int
            &&& s.constant_q().1 * (row.constant_q().1 * c.q().1) <= i64::MAX as int
            &&& forall|t: int|
                0 <= t < row.cells_view().len() ==> ({
                    let co = (#[trigger] row.cells_view()[t]).1.q();
                    let key = row.cells_view()[t].0;
                    let b = if key == symbol {
                        (0int, 1int)
                    } else {
                        s.coeff(key)
                    };
                    &&& q_fits(q_mul(co, c.q()))
                    &&& q_abs(b.0) * (co.1 * c.q().1) + q_abs(q_mul(co, c.q()).0) * b.1
                        <= i64::MAX as int
                    &&& b.1 * (co.1 * c.q().1) <= i64::MAX as int
                })
        },
    }
}

/// The index in the source sequence feeding position `t` when index `i` is skipped.
pub open spec fn skip_idx(t: int, i: int) -> int {
    if t < i {
        t
    } else {
        t + 1
    }
}

/// Sequences with pointwise-equal keys hold the same keys.
proof fn lemma_same_keys<V>(s: Seq<(Symbol, V)>, r: Seq<(Symbol, V)>, x: Symbol)
    requires
        r.len() == s.len(),
        forall|j: int| 0 <= j < s.len() ==> (#[trigger] r[j]).0 == s[j].0,
    ensures
        assoc_has(r, x) == assoc_has(s, x),
{
    if assoc_has(s, x) {
        let j = choose|j: int| 0 <= j < s.len() && (#[trigger] s[j]).0 == x;
        assert(r[j].0 == x);
    }
    if assoc_has(r, x) {
        let j = choose|j: int| 0 <= j < r.len() && (#[trigger] r[j]).0 == x;
        assert(s[j].0 == x);
    }
}

/// Index of the entry keyed by `x`, scanning from the front.
fn find_index(cells: &Vec<(Symbol, Rational)>, x: Symbol) -> (r: Option<usize>)
    ensures
        match r {
            Some(i) => i < cells@.len() && cells@[i as int].0 == x,
            None => !assoc_has(cells@, x),
        },
{
    let mut i: usize = 0;
    while i < cells.len()
        invariant
            i <= cells@.len(),
            forall|j: int| 0 <= j < i ==> (#[trigger] cells@[j]).0 != x,
        decreases cells@.len() - i,
    {
        if cells[i].0 == x {
            return Some(i);
        }
        i += 1;
    }
    None
}

/// A fresh vector with the same entries.
fn copy_cells(cells: &Vec<(Symbol, Rational)>) -> (r: Vec<(Symbol, Rational)>)
    ensures
        r@ == cells@,
{
    let mut r: Vec<(Symbol, Rational)> = Vec::new();
    let mut i: usize = 0;
    while i < cells.len()
        invariant
            i <= cells@.len(),
            r@ == cells@.subrange(0, i as int),
        decreases cells@.len() - i,
    {
        r.push(cells[i]);
        proof {
            assert(r@ =~= cells@.subrange(0, i + 1 as int));
        }
        i += 1;
    }
    proof {
        assert(r@ =~= cells@);
    }
    r
}

} // verus!

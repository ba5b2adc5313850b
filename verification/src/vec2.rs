//! 2D vectors: positions, displacements, sizes.

use vstd::prelude::*;
use crate::rational::{lemma_rep_add_fits, lemma_rep_div_fits, lemma_rep_mul_fits, q_abs, q_add, q_eq, q_fits, q_mul, q_neg, Rational};

verus! {

/// 2D vector. Can be used to represent position, displacement, size, etc.
///
/// `x` grows to the right, `y` grows downward.
#[derive(Copy, Clone, Eq, PartialEq, Structural, Debug)]
pub struct Vec2<T> {
    /// Horizontal coordinate where negative direction is left and positive is right.
    pub x: T,
    /// Vertical coordinate where negative direction is up and positive is down.
    pub y: T,
}

impl<T> Vec2<T> {
    /// Construct new vector.
    pub fn new(x: T, y: T) -> (r: Vec2<T>)
        ensures
            r == (Vec2 { x, y }),
    {
        Vec2 { x, y }
    }

    /// The two coordinates as an array.
    pub fn into_array(self) -> (r: [T; 2])
        ensures
            r@.len() == 2,
            r@[0] == self.x,
            r@[1] == self.y,
    {
        [self.x, self.y]
    }
}

impl Vec2<Rational> {
    pub open spec fn wf(self) -> bool {
        self.x.wf() && self.y.wf()
    }

    /// The zero vector.
    pub fn zero() -> (r: Vec2<Rational>)
        ensures
            r.wf(),
            r.x.q() == (0int, 1int),
            r.y.q() == (0int, 1int),
    {
        Vec2 { x: Rational::zero(), y: Rational::zero() }
    }

    /// Dot product of two vectors: `a.x·b.x + a.y·b.y`.
    pub fn dot(a: Vec2<Rational>, b: Vec2<Rational>) -> (r: Option<Rational>)
        requires
            a.wf(),
            b.wf(),
        ensures
            r matches Some(v) ==> v.wf() && q_eq(
                v.q(),
                q_add(q_mul(a.x.q(), b.x.q()), q_mul(a.y.q(), b.y.q())),
            ),
            ({
                let mx = q_mul(a.x.q(), b.x.q());
                let my = q_mul(a.y.q(), b.y.q());
                q_fits(mx) && q_fits(my) && q_abs(mx.0) * my.1 + q_abs(my.0) * mx.1 <= i64::MAX
                    as int && mx.1 * my.1 <= i64::MAX as int
            }) ==> r is Some,
    {
        let ghost mx = q_mul(a.x.q(), b.x.q());
        let ghost my = q_mul(a.y.q(), b.y.q());
        let px = match a.x.checked_mul(b.x) {
            Some(v) => v,
            None => {
                return None;
            },
        };
        let py = match a.y.checked_mul(b.y) {
            Some(v) => v,
            None => {
                return None;
            },
        };
        let s = match px.checked_add(py) {
            Some(v) => v,
            None => {
                proof {
                    if q_fits(mx) && q_fits(my) && q_abs(mx.0) * my.1 + q_abs(my.0) * mx.1
                        <= i64::MAX as int && mx.1 * my.1 <= i64::MAX as int {
                        lemma_rep_add_fits(px.q(), py.q(), mx, my);
                    }
                }
                return None;
            },
        };
        proof {
            crate::rational::lemma_q_pos(a.x.q().1, b.x.q().1);
            crate::rational::lemma_q_pos(a.y.q().1, b.y.q().1);
            crate::rational::lemma_q_add_congr(
                px.q(),
                q_mul(a.x.q(), b.x.q()),
                py.q(),
                q_mul(a.y.q(), b.y.q()),
            );
            crate::rational::lemma_q_pos(px.q().1, py.q().1);
            crate::rational::lemma_q_eq_trans(
                s.q(),
                q_add(px.q(), py.q()),
                q_add(q_mul(a.x.q(), b.x.q()), q_mul(a.y.q(), b.y.q())),
            );
        }
        Some(s)
    }

    /// 2D cross product (perp dot product): `a.x·b.y - a.y·b.x`.
    pub fn cross(a: Vec2<Rational>, b: Vec2<Rational>) -> (r: Option<Rational>)
        requires
            a.wf(),
            b.wf(),
        ensures
            r matches Some(v) ==> v.wf() && q_eq(
                v.q(),
                q_add(q_mul(a.x.q(), b.y.q()), q_mul(a.y.q(), q_neg(b.x.q()))),
            ),
            ({
                let mx = q_mul(a.x.q(), b.y.q());
                let my = q_mul(a.y.q(), q_neg(b.x.q()));
                q_fits(mx) && q_fits(my) && q_abs(mx.0) * my.1 + q_abs(my.0) * mx.1 <= i64::MAX
                    as int && mx.1 * my.1 <= i64::MAX as int
            }) ==> r is Some,
    {
        Vec2::dot(a, Vec2 { x: b.y, y: b.x.neg() })
    }

    /// Squared euclidean norm: `x² + y²`.
    pub fn norm_squared(self) -> (r: Option<Rational>)
        requires
            self.wf(),
        ensures
            r matches Some(v) ==> v.wf() && q_eq(
                v.q(),
                q_add(q_mul(self.x.q(), self.x.q()), q_mul(self.y.q(), self.y.q())),
            ),
            ({
                let mx = q_mul(self.x.q(), self.x.q());
                let my = q_mul(self.y.q(), self.y.q());
                q_fits(mx) && q_fits(my) && q_abs(mx.0) * my.1 + q_abs(my.0) * mx.1 <= i64::MAX
                    as int && mx.1 * my.1 <= i64::MAX as int
            }) ==> r is Some,
    {
        Vec2::dot(self, self)
    }

    /// Componentwise sum.
    pub fn checked_add(self, other: Vec2<Rational>) -> (r: Option<Vec2<Rational>>)
        requires
            self.wf(),
            other.wf(),
        ensures
            r matches Some(v) ==> v.wf() && q_eq(v.x.q(), q_add(self.x.q(), other.x.q())) && q_eq(
                v.y.q(),
                q_add(self.y.q(), other.y.q()),
            ),
            q_fits(q_add(self.x.q(), other.x.q())) && q_fits(q_add(self.y.q(), other.y.q()))
                ==> r is Some,
    {
        let x = match self.x.checked_add(other.x) {
            Some(v) => v,
            None => {
                return None;
            },
        };
        let y = match self.y.checked_add(other.y) {
            Some(v) => v,
            None => {
                return None;
            },
        };
        Some(Vec2 { x, y })
    }

    /// Componentwise difference.
    pub fn checked_sub(self, other: Vec2<Rational>) -> (r: Option<Vec2<Rational>>)
        requires
            self.wf(),
            other.wf(),
        ensures
            r matches Some(v) ==> v.wf() && q_eq(
                v.x.q(),
                q_add(self.x.q(), q_neg(other.x.q())),
            ) && q_eq(v.y.q(), q_add(self.y.q(), q_neg(other.y.q()))),
            q_fits(q_add(self.x.q(), q_neg(other.x.q()))) && q_fits(
                q_add(self.y.q(), q_neg(other.y.q())),
            ) ==> r is Some,
    {
        self.checked_add(Vec2 { x: other.x.neg(), y: other.y.neg() })
    }

    /// Both components scaled by `k`.
    pub fn checked_scale(self, k: Rational) -> (r: Option<Vec2<Rational>>)
        requires
            self.wf(),
            k.wf(),
        ensures
            r matches Some(v) ==> v.wf() && q_eq(v.x.q(), q_mul(k.q(), self.x.q())) && q_eq(
                v.y.q(),
                q_mul(k.q(), self.y.q()),
            ),
            q_fits(q_mul(self.x.q(), k.q())) && q_fits(q_mul(self.y.q(), k.q())) ==> r is Some,
    {
        let x = match self.x.checked_mul(k) {
            Some(v) => v,
            None => {
                return None;
            },
        };
        let y = match self.y.checked_mul(k) {
            Some(v) => v,
            None => {
                return None;
            },
        };
        proof {
            crate::rational::lemma_q_mul_comm(self.x.q(), k.q());
            crate::rational::lemma_q_mul_comm(self.y.q(), k.q());
        }
        Some(Vec2 { x, y })
    }
}

impl<T> From<(T, T)> for Vec2<T> {
    fn from(p: (T, T)) -> (r: Vec2<T>) {
        let (x, y) = p;
        Vec2 { x, y }
    }
}

impl<T> vstd::std_specs::convert::FromSpecImpl<(T, T)> for Vec2<T> {
    open spec fn obeys_from_spec() -> bool {
        true
    }

    open spec fn from_spec(p: (T, T)) -> Vec2<T> {
        Vec2 { x: p.0, y: p.1 }
    }
}

impl<T: Copy> From<[T; 2]> for Vec2<T> {
    fn from(a: [T; 2]) -> (r: Vec2<T>) {
        Vec2 { x: a[0], y: a[1] }
    }
}

impl<T: Copy> vstd::std_specs::convert::FromSpecImpl<[T; 2]> for Vec2<T> {
    open spec fn obeys_from_spec() -> bool {
        true
    }

    open spec fn from_spec(a: [T; 2]) -> Vec2<T> {
        Vec2 { x: a@[0], y: a@[1] }
    }
}

/// Maps `value` from the range `from` linearly into `[0, 1]`.
pub fn rescale_to_01(value: Rational, from: (Rational, Rational)) -> (r: Option<Rational>)
    requires
        value.wf(),
        from.0.wf(),
        from.1.wf(),
        !q_eq(from.0.q(), from.1.q()),
    ensures
        r matches Some(v) ==> v.wf() && q_eq(
            q_mul(v.q(), q_add(from.1.q(), q_neg(from.0.q()))),
            q_add(value.q(), q_neg(from.0.q())),
        ),
        ({
            let fv = q_add(value.q(), q_neg(from.0.q()));
            let fw = q_add(from.1.q(), q_neg(from.0.q()));
            q_fits(fv) && q_fits(fw) && q_abs(fv.0) * fw.1 <= i64::MAX as int && fv.1 * q_abs(
                fw.0,
            ) <= i64::MAX as int
        }) ==> r is Some,
        r matches Some(v) ==> ({
            let fv = q_add(value.q(), q_neg(from.0.q()));
            let fw = q_add(from.1.q(), q_neg(from.0.q()));
            -(q_abs(fv.0) * fw.1) <= v.q().0 <= q_abs(fv.0) * fw.1 && 0 < v.q().1 <= fv.1
                * q_abs(fw.0)
        }),
{
    let ghost fv = q_add(value.q(), q_neg(from.0.q()));
    let ghost fw = q_add(from.1.q(), q_neg(from.0.q()));
    let num = match value.checked_sub(from.0) {
        Some(v) => v,
        None => {
            return None;
        },
    };
    let den = match from.1.checked_sub(from.0) {
        Some(v) => v,
        None => {
            return None;
        },
    };
    proof {
        crate::rational::lemma_q_pos(from.1.q().1, from.0.q().1);
        crate::rational::lemma_q_pos(value.q().1, from.0.q().1);
        crate::rational::lemma_q_eq_zero(den.q(), q_add(from.1.q(), q_neg(from.0.q())));
        assert(q_add(from.1.q(), q_neg(from.0.q())).0 != 0) by (nonlinear_arith)
            requires
                !q_eq(from.0.q(), from.1.q()),
                q_add(from.1.q(), q_neg(from.0.q())) == (
                    from.1.q().0 * from.0.q().1 + (-from.0.q().0) * from.1.q().1,
                    from.1.q().1 * from.0.q().1,
                ),
        ;
    }
    let q = match num.checked_div(den) {
        Some(v) => v,
        None => {
            proof {
                if q_fits(fv) && q_fits(fw) && q_abs(fv.0) * fw.1 <= i64::MAX as int && fv.1
                    * q_abs(fw.0) <= i64::MAX as int {
                    lemma_rep_div_fits(num.q(), den.q(), fv, fw);
                }
            }
            return None;
        },
    };
    proof {
        assert(-(q_abs(fv.0) * fw.1) <= q.q().0 <= q_abs(fv.0) * fw.1 && 0 < q.q().1 <= fv.1
            * q_abs(fw.0)) by (nonlinear_arith)
            requires
                crate::rational::q_rep_bounded(q.q(), crate::rational::q_div(num.q(), den.q())),
                crate::rational::q_rep_bounded(num.q(), fv),
                crate::rational::q_rep_bounded(den.q(), fw),
                den.q().0 != 0,
                q_abs(fv.0) == (if fv.0 >= 0 {
                    fv.0
                } else {
                    -fv.0
                }),
                q_abs(fw.0) == (if fw.0 >= 0 {
                    fw.0
                } else {
                    -fw.0
                }),
                crate::rational::q_div(num.q(), den.q()) == (if den.q().0 >= 0 {
                    (num.q().0 * den.q().1, num.q().1 * den.q().0)
                } else {
                    (-(num.q().0 * den.q().1), -(num.q().1 * den.q().0))
                }),
        ;
        crate::rational::lemma_q_div_mul(num.q(), den.q());
        crate::rational::lemma_q_mul_congr(
            q.q(),
            crate::rational::q_div(num.q(), den.q()),
            den.q(),
            den.q(),
        );
        crate::rational::lemma_q_pos(crate::rational::q_div(num.q(), den.q()).1, den.q().1);
        crate::rational::lemma_q_eq_trans(
            q_mul(q.q(), den.q()),
            q_mul(crate::rational::q_div(num.q(), den.q()), den.q()),
            num.q(),
        );
        lemma_div_recover(q.q(), num.q(), den.q(), q_add(from.1.q(), q_neg(from.0.q())),
            q_add(value.q(), q_neg(from.0.q())));
    }
    Some(q)
}

/// Maps `value` from `[0, 1]` linearly into the range `to`.
pub fn rescale_from_01(value: Rational, to: (Rational, Rational)) -> (r: Option<Rational>)
    requires
        value.wf(),
        to.0.wf(),
        to.1.wf(),
    ensures
        r matches Some(v) ==> v.wf() && q_eq(
            v.q(),
            q_add(to.0.q(), q_mul(value.q(), q_add(to.1.q(), q_neg(to.0.q())))),
        ),
        ({
            let w = q_add(to.1.q(), q_neg(to.0.q()));
            let pm = q_abs(value.q().0) * q_abs(w.0);
            let pd = value.q().1 * w.1;
            q_fits(w) && pm <= i64::MAX as int && pd <= i64::MAX as int && q_abs(to.0.q().0) * pd
                + pm * to.0.q().1 <= i64::MAX as int && to.0.q().1 * pd <= i64::MAX as int
        }) ==> r is Some,
{
    let ghost w = q_add(to.1.q(), q_neg(to.0.q()));
    let ghost pm = q_abs(value.q().0) * q_abs(w.0);
    let ghost pd = value.q().1 * w.1;
    let width = match to.1.checked_sub(to.0) {
        Some(v) => v,
        None => {
            return None;
        },
    };
    let scaled = match value.checked_mul(width) {
        Some(v) => v,
        None => {
            proof {
                if q_fits(w) && pm <= i64::MAX as int && pd <= i64::MAX as int {
                    lemma_rep_mul_fits(value.q(), width.q(), value.q(), w);
                }
            }
            return None;
        },
    };
    let out = match to.0.checked_add(scaled) {
        Some(v) => v,
        None => {
            proof {
                if q_fits(w) && pm <= i64::MAX as int && pd <= i64::MAX as int && q_abs(
                    to.0.q().0,
                ) * pd + pm * to.0.q().1 <= i64::MAX as int && to.0.q().1 * pd <= i64::MAX
                    as int {
                    lemma_scaled_bounds(scaled.q(), value.q(), width.q(), w, pm, pd);
                    assert(q_fits(q_add(to.0.q(), scaled.q()))) by (nonlinear_arith)
                        requires
                            -pm <= scaled.q().0 <= pm,
                            0 < scaled.q().1 <= pd,
                            -(i64::MAX as int) <= to.0.q().0 <= i64::MAX as int,
                            0 < to.0.q().1,
                            pm >= 0,
                            q_abs(to.0.q().0) * pd + pm * to.0.q().1 <= i64::MAX as int,
                            to.0.q().1 * pd <= i64::MAX as int,
                            q_abs(to.0.q().0) == if to.0.q().0 >= 0 {
                                to.0.q().0
                            } else {
                                -to.0.q().0
                            },
                    ;
                }
            }
            return None;
        },
    };
    proof {
        crate::rational::lemma_q_pos(to.1.q().1, to.0.q().1);
        crate::rational::lemma_q_pos(value.q().1, to.1.q().1 * to.0.q().1);
        crate::rational::lemma_q_pos(value.q().1, width.q().1);
        crate::rational::lemma_q_mul_congr(
            value.q(),
            value.q(),
            width.q(),
            q_add(to.1.q(), q_neg(to.0.q())),
        );
        crate::rational::lemma_q_eq_trans(
            scaled.q(),
            q_mul(value.q(), width.q()),
            q_mul(value.q(), q_add(to.1.q(), q_neg(to.0.q()))),
        );
        crate::rational::lemma_q_add_congr(
            to.0.q(),
            to.0.q(),
            scaled.q(),
            q_mul(value.q(), q_add(to.1.q(), q_neg(to.0.q()))),
        );
        crate::rational::lemma_q_pos(to.0.q().1, scaled.q().1);
        crate::rational::lemma_q_eq_trans(
            out.q(),
            q_add(to.0.q(), scaled.q()),
            q_add(to.0.q(), q_mul(value.q(), q_add(to.1.q(), q_neg(to.0.q())))),
        );
    }
    Some(out)
}

/// Maps `value` linearly from the range `from` into the range `to`: the
/// affine map with `rescale(from.0) == to.0` and `rescale(from.1) == to.1`,
/// the composition of [`rescale_to_01`] and [`rescale_from_01`].  The result
/// `v` satisfies `(v - to.0)·(from.1 - from.0) == (value - from.0)·(to.1 - to.0)`.
pub fn rescale(value: Rational, from: (Rational, Rational), to: (Rational, Rational)) -> (r:
    Option<Rational>)
    requires
        value.wf(),
        from.0.wf(),
        from.1.wf(),
        to.0.wf(),
        to.1.wf(),
        !q_eq(from.0.q(), from.1.q()),
    ensures
        r matches Some(v) ==> v.wf() && q_eq(
            q_mul(q_add(v.q(), q_neg(to.0.q())), q_add(from.1.q(), q_neg(from.0.q()))),
            q_mul(q_add(value.q(), q_neg(from.0.q())), q_add(to.1.q(), q_neg(to.0.q()))),
        ),
        rescale_fits(value.q(), from.0.q(), from.1.q(), to.0.q(), to.1.q()) ==> r is Some,
{
    let ghost fv = q_add(value.q(), q_neg(from.0.q()));
    let ghost fw = q_add(from.1.q(), q_neg(from.0.q()));
    let ghost mm = q_abs(fv.0) * fw.1;
    let ghost md = fv.1 * q_abs(fw.0);
    let ghost w = q_add(to.1.q(), q_neg(to.0.q()));
    let ghost cond = rescale_fits(value.q(), from.0.q(), from.1.q(), to.0.q(), to.1.q());
    let mid = match rescale_to_01(value, from) {
        Some(t) => t,
        None => {
            return None;
        },
    };
    let out = match rescale_from_01(mid, to) {
        Some(v) => v,
        None => {
            proof {
                if cond {
                    assert(q_abs(mid.q().0) * q_abs(w.0) <= mm * q_abs(w.0) && mid.q().1 * w.1
                        <= md * w.1 && q_abs(to.0.q().0) * (mid.q().1 * w.1) + (q_abs(mid.q().0)
                        * q_abs(w.0)) * to.0.q().1 <= q_abs(to.0.q().0) * (md * w.1) + (mm
                        * q_abs(w.0)) * to.0.q().1 && to.0.q().1 * (mid.q().1 * w.1) <= to.0.q().1
                        * (md * w.1)) by (nonlinear_arith)
                        requires
                            -mm <= mid.q().0 <= mm,
                            0 < mid.q().1 <= md,
                            q_abs(mid.q().0) == (if mid.q().0 >= 0 {
                                mid.q().0
                            } else {
                                -mid.q().0
                            }),
                            q_abs(w.0) >= 0,
                            w.1 > 0,
                            to.0.q().1 > 0,
                            q_abs(to.0.q().0) >= 0,
                            mm >= 0,
                    ;
                }
            }
            return None;
        },
    };
    proof {
        crate::rational::lemma_q_pos(from.1.q().1, from.0.q().1);
        crate::rational::lemma_q_pos(value.q().1, from.0.q().1);
        crate::rational::lemma_q_pos(to.1.q().1, to.0.q().1);
        lemma_affine_compose(
            mid.q(),
            out.q(),
            q_add(from.1.q(), q_neg(from.0.q())),
            q_add(to.1.q(), q_neg(to.0.q())),
            to.0.q(),
            q_add(value.q(), q_neg(from.0.q())),
        );
    }
    Some(out)
}

/// Every intermediate of `rescale` fits, conservatively: the two interval
/// widths, the mid value's conservative bounds scaled into the target
/// range, and the final translation.
pub open spec fn rescale_fits(value: (int, int), f0: (int, int), f1: (int, int), t0: (int, int), t1: (int, int)) -> bool {
    let fv = q_add(value, q_neg(f0));
    let fw = q_add(f1, q_neg(f0));
    let mm = q_abs(fv.0) * fw.1;
    let md = fv.1 * q_abs(fw.0);
    let w = q_add(t1, q_neg(t0));
    &&& q_fits(fv)
    &&& q_fits(fw)
    &&& mm <= i64::MAX as int
    &&& md <= i64::MAX as int
    &&& q_fits(w)
    &&& mm * q_abs(w.0) <= i64::MAX as int
    &&& md * w.1 <= i64::MAX as int
    &&& q_abs(t0.0) * (md * w.1) + (mm * q_abs(w.0)) * t0.1 <= i64::MAX as int
    &&& t0.1 * (md * w.1) <= i64::MAX as int
}

/// Composing the two rescaling directions gives the affine map between the
/// ranges: from `t·f ~ vf` and `v ~ to0 + t·w` follows `(v - to0)·f ~ vf·w`.
proof fn lemma_affine_compose(
    t: (int, int),
    v: (int, int),
    f: (int, int),
    w: (int, int),
    to0: (int, int),
    vf: (int, int),
)
    requires
        crate::rational::q_eq(q_mul(t, f), vf),
        crate::rational::q_eq(v, q_add(to0, q_mul(t, w))),
        t.1 > 0,
        v.1 > 0,
        f.1 > 0,
        w.1 > 0,
        to0.1 > 0,
        vf.1 > 0,
    ensures
        q_eq(q_mul(q_add(v, q_neg(to0)), f), q_mul(vf, w)),
{
    let tw = q_mul(t, w);
    let rr = q_add(to0, tw);
    crate::rational::lemma_q_pos(t.1, w.1);
    crate::rational::lemma_q_pos(to0.1, tw.1);
    // v - to0 ~ t·w
    crate::rational::lemma_q_add_congr(v, rr, q_neg(to0), q_neg(to0));
    assert(q_eq(q_add(rr, q_neg(to0)), tw)) by (nonlinear_arith)
        requires
            rr == (to0.0 * tw.1 + tw.0 * to0.1, to0.1 * tw.1),
            q_add(rr, q_neg(to0)) == (rr.0 * to0.1 + (-to0.0) * rr.1, rr.1 * to0.1),
            to0.1 > 0,
            tw.1 > 0,
    ;
    crate::rational::lemma_q_pos(rr.1, to0.1);
    crate::rational::lemma_q_eq_trans(q_add(v, q_neg(to0)), q_add(rr, q_neg(to0)), tw);
    // multiply both sides by f
    crate::rational::lemma_q_mul_congr(q_add(v, q_neg(to0)), tw, f, f);
    // (t·w)·f == (t·f)·w componentwise
    assert(q_mul(tw, f) == q_mul(q_mul(t, f), w)) by (nonlinear_arith)
        requires
            tw == (t.0 * w.0, t.1 * w.1),
    ;
    // replace t·f by vf
    crate::rational::lemma_q_mul_congr(q_mul(t, f), vf, w, w);
    crate::rational::lemma_q_pos(tw.1, f.1);
    crate::rational::lemma_q_pos(t.1, f.1);
    crate::rational::lemma_q_pos(q_mul(t, f).1, w.1);
    crate::rational::lemma_q_eq_trans(
        q_mul(q_add(v, q_neg(to0)), f),
        q_mul(tw, f),
        q_mul(vf, w),
    );
}

/// Maps a point from the rectangle `from` into the unit square,
/// composing [`rescale_to_01`] on each axis.
pub fn rescale_vec_to_01(value: Vec2<Rational>, from: crate::rect::Rect<Rational>) -> (r: Option<
    Vec2<Rational>,
>)
    requires
        value.wf(),
        from.wf(),
        !q_eq(from.left.q(), from.right.q()),
        !q_eq(from.top.q(), from.bottom.q()),
    ensures
        r matches Some(v) ==> v.wf() && q_eq(
            q_mul(v.x.q(), q_add(from.right.q(), q_neg(from.left.q()))),
            q_add(value.x.q(), q_neg(from.left.q())),
        ) && q_eq(
            q_mul(v.y.q(), q_add(from.bottom.q(), q_neg(from.top.q()))),
            q_add(value.y.q(), q_neg(from.top.q())),
        ),
        ({
            let fvx = q_add(value.x.q(), q_neg(from.left.q()));
            let fwx = q_add(from.right.q(), q_neg(from.left.q()));
            let fvy = q_add(value.y.q(), q_neg(from.top.q()));
            let fwy = q_add(from.bottom.q(), q_neg(from.top.q()));
            q_fits(fvx) && q_fits(fwx) && q_abs(fvx.0) * fwx.1 <= i64::MAX as int && fvx.1
                * q_abs(fwx.0) <= i64::MAX as int && q_fits(fvy) && q_fits(fwy) && q_abs(fvy.0)
                * fwy.1 <= i64::MAX as int && fvy.1 * q_abs(fwy.0) <= i64::MAX as int
        }) ==> r is Some,
{
    let x = match rescale_to_01(value.x, (from.left, from.right)) {
        Some(v) => v,
        None => {
            return None;
        },
    };
    let y = match rescale_to_01(value.y, (from.top, from.bottom)) {
        Some(v) => v,
        None => {
            return None;
        },
    };
    Some(Vec2 { x, y })
}

/// Maps a point from the unit square into the rectangle `to`.
pub fn rescale_vec_from_01(value: Vec2<Rational>, to: crate::rect::Rect<Rational>) -> (r: Option<
    Vec2<Rational>,
>)
    requires
        value.wf(),
        to.wf(),
    ensures
        r matches Some(v) ==> v.wf() && q_eq(
            v.x.q(),
            q_add(to.left.q(), q_mul(value.x.q(), q_add(to.right.q(), q_neg(to.left.q())))),
        ) && q_eq(
            v.y.q(),
            q_add(to.top.q(), q_mul(value.y.q(), q_add(to.bottom.q(), q_neg(to.top.q())))),
        ),
{
    let x = match rescale_from_01(value.x, (to.left, to.right)) {
        Some(v) => v,
        None => {
            return None;
        },
    };
    let y = match rescale_from_01(value.y, (to.top, to.bottom)) {
        Some(v) => v,
        None => {
            return None;
        },
    };
    Some(Vec2 { x, y })
}

/// Maps a point linearly from the rectangle `from` into the rectangle `to`:
/// [`rescale`] applied to each axis, with the same affine identity holding
/// componentwise.
pub fn rescale_vec(
    value: Vec2<Rational>,
    from: crate::rect::Rect<Rational>,
    to: crate::rect::Rect<Rational>,
) -> (r: Option<Vec2<Rational>>)
    requires
        value.wf(),
        from.wf(),
        to.wf(),
        !q_eq(from.left.q(), from.right.q()),
        !q_eq(from.top.q(), from.bottom.q()),
    ensures
        r matches Some(v) ==> v.wf() && q_eq(
            q_mul(q_add(v.x.q(), q_neg(to.left.q())), q_add(from.right.q(), q_neg(from.left.q()))),
            q_mul(q_add(value.x.q(), q_neg(from.left.q())), q_add(to.right.q(), q_neg(to.left.q()))),
        ) && q_eq(
            q_mul(q_add(v.y.q(), q_neg(to.top.q())), q_add(from.bottom.q(), q_neg(from.top.q()))),
            q_mul(q_add(value.y.q(), q_neg(from.top.q())), q_add(to.bottom.q(), q_neg(to.top.q()))),
        ),
        rescale_fits(value.x.q(), from.left.q(), from.right.q(), to.left.q(), to.right.q())
            && rescale_fits(value.y.q(), from.top.q(), from.bottom.q(), to.top.q(), to.bottom.q())
            ==> r is Some,
{
    let x = match rescale(value.x, (from.left, from.right), (to.left, to.right)) {
        Some(v) => v,
        None => {
            return None;
        },
    };
    let y = match rescale(value.y, (from.top, from.bottom), (to.top, to.bottom)) {
        Some(v) => v,
        None => {
            return None;
        },
    };
    Some(Vec2 { x, y })
}

/// The stored product of an exact value and a stored width stays within the
/// conservative magnitude bounds of the ideal product.
proof fn lemma_scaled_bounds(
    s: (int, int),
    v: (int, int),
    wr: (int, int),
    w: (int, int),
    pm: int,
    pd: int,
)
    requires
        crate::rational::q_rep_bounded(s, q_mul(v, wr)),
        crate::rational::q_rep_bounded(wr, w),
        pm == q_abs(v.0) * q_abs(w.0),
        pd == v.1 * w.1,
        v.1 > 0,
    ensures
        -pm <= s.0 <= pm,
        0 < s.1 <= pd,
        pm >= 0,
{
    assert(-(q_abs(v.0) * q_abs(w.0)) <= v.0 * wr.0 <= q_abs(v.0) * q_abs(w.0) && q_abs(v.0)
        * q_abs(w.0) >= 0) by (nonlinear_arith)
        requires
            -(q_abs(v.0)) <= v.0 <= q_abs(v.0),
            -(q_abs(w.0)) <= wr.0 <= q_abs(w.0),
            q_abs(v.0) >= 0,
            q_abs(w.0) >= 0,
    ;
    assert(0 < v.1 * wr.1 <= v.1 * w.1) by (nonlinear_arith)
        requires
            v.1 > 0,
            0 < wr.1 <= w.1,
    ;
}

/// A quotient `q = n / d` recovers `n` when multiplied back by `d`.
proof fn lemma_div_recover(q: (int, int), n: (int, int), d: (int, int), d2: (int, int), n2: (
    int,
    int,
))
    requires
        crate::rational::q_eq(crate::rational::q_mul(q, d), n),
        crate::rational::q_eq(d, d2),
        crate::rational::q_eq(n, n2),
        q.1 > 0,
        n.1 > 0,
        d.1 > 0,
        d2.1 > 0,
        n2.1 > 0,
    ensures
        crate::rational::q_eq(crate::rational::q_mul(q, d2), n2),
{
    crate::rational::lemma_q_mul_congr(q, q, d, d2);
    crate::rational::lemma_q_pos(q.1, d.1);
    crate::rational::lemma_q_eq_trans(crate::rational::q_mul(q, d2), crate::rational::q_mul(q, d),
        n);
    crate::rational::lemma_q_eq_trans(crate::rational::q_mul(q, d2), n, n2);
}

} // verus!

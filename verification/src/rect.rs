//! Axis-aligned rectangles, over plain values or solver variables.

use vstd::prelude::*;
use crate::rational::{lemma_rep_mul_fits, q_abs, q_add, q_eq, q_fits, q_le, q_lt, q_mul, q_neg, q_rep_bounded, Rational};
use crate::symbol::Var;
use crate::vec2::Vec2;
use crate::Id;

verus! {

/// Axis-aligned rectangle which usually represents some region of the screen.
///
/// It is most commonly instantiated with rational values or with `Var`.
#[derive(Copy, Clone, Eq, PartialEq, Structural, Debug)]
pub struct Rect<T> {
    pub left: T,
    pub right: T,
    pub top: T,
    pub bottom: T,
}

impl<T> Rect<T> {
    /// Construct new rectangle from the top-left and bottom-right corners.
    pub fn from_corners(top_left: Vec2<T>, bottom_right: Vec2<T>) -> (r: Rect<T>)
        ensures
            r == (Rect {
                left: top_left.x,
                top: top_left.y,
                right: bottom_right.x,
                bottom: bottom_right.y,
            }),
    {
        Rect { left: top_left.x, top: top_left.y, right: bottom_right.x, bottom: bottom_right.y }
    }
}

impl<T: Copy> Rect<T> {
    /// Get vertex `i`, numbered clockwise from the top left.
    pub fn vertex(self, i: u8) -> (r: Vec2<T>)
        ensures
            i % 4 == 0 ==> r == (Vec2 { x: self.left, y: self.top }),
            i % 4 == 1 ==> r == (Vec2 { x: self.right, y: self.top }),
            i % 4 == 2 ==> r == (Vec2 { x: self.right, y: self.bottom }),
            i % 4 == 3 ==> r == (Vec2 { x: self.left, y: self.bottom }),
    {
        let m = i % 4;
        if m == 0 {
            Vec2 { x: self.left, y: self.top }
        } else if m == 1 {
            Vec2 { x: self.right, y: self.top }
        } else if m == 2 {
            Vec2 { x: self.right, y: self.bottom }
        } else {
            Vec2 { x: self.left, y: self.bottom }
        }
    }

    pub fn top_left(self) -> (r: Vec2<T>)
        ensures
            r == (Vec2 { x: self.left, y: self.top }),
    {
        Vec2 { x: self.left, y: self.top }
    }

    pub fn top_right(self) -> (r: Vec2<T>)
        ensures
            r == (Vec2 { x: self.right, y: self.top }),
    {
        Vec2 { x: self.right, y: self.top }
    }

    pub fn bottom_left(self) -> (r: Vec2<T>)
        ensures
            r == (Vec2 { x: self.left, y: self.bottom }),
    {
        Vec2 { x: self.left, y: self.bottom }
    }

    pub fn bottom_right(self) -> (r: Vec2<T>)
        ensures
            r == (Vec2 { x: self.right, y: self.bottom }),
    {
        Vec2 { x: self.right, y: self.bottom }
    }
}

impl Rect<Rational> {
    pub open spec fn wf(self) -> bool {
        self.left.wf() && self.right.wf() && self.top.wf() && self.bottom.wf()
    }

    /// The rectangle with the given top-left corner and size.
    pub fn from_top_left_and_size(top_left: Vec2<Rational>, size: Vec2<Rational>) -> (r: Option<
        Rect<Rational>,
    >)
        requires
            top_left.wf(),
            size.wf(),
        ensures
            r matches Some(v) ==> v.wf() && v.left == top_left.x && v.top == top_left.y && q_eq(
                v.right.q(),
                q_add(top_left.x.q(), size.x.q()),
            ) && q_eq(v.bottom.q(), q_add(top_left.y.q(), size.y.q())),
            q_fits(q_add(top_left.x.q(), size.x.q())) && q_fits(q_add(top_left.y.q(), size.y.q()))
                ==> r is Some,
    {
        let br = match top_left.checked_add(size) {
            Some(v) => v,
            None => {
                return None;
            },
        };
        Some(Rect { left: top_left.x, top: top_left.y, right: br.x, bottom: br.y })
    }

    /// The rectangle centered at `center` reaching `half_size` in each direction.
    pub fn from_center_and_half_size(center: Vec2<Rational>, half_size: Vec2<Rational>) -> (r:
        Option<Rect<Rational>>)
        requires
            center.wf(),
            half_size.wf(),
        ensures
            r matches Some(v) ==> v.wf() && q_eq(
                v.left.q(),
                q_add(center.x.q(), q_neg(half_size.x.q())),
            ) && q_eq(v.top.q(), q_add(center.y.q(), q_neg(half_size.y.q()))) && q_eq(
                v.right.q(),
                q_add(center.x.q(), half_size.x.q()),
            ) && q_eq(v.bottom.q(), q_add(center.y.q(), half_size.y.q())),
            q_fits(q_add(center.x.q(), q_neg(half_size.x.q()))) && q_fits(
                q_add(center.y.q(), q_neg(half_size.y.q())),
            ) && q_fits(q_add(center.x.q(), half_size.x.q())) && q_fits(
                q_add(center.y.q(), half_size.y.q()),
            ) ==> r is Some,
    {
        let tl = match center.checked_sub(half_size) {
            Some(v) => v,
            None => {
                return None;
            },
        };
        let br = match center.checked_add(half_size) {
            Some(v) => v,
            None => {
                return None;
            },
        };
        Some(Rect { left: tl.x, top: tl.y, right: br.x, bottom: br.y })
    }

    /// Width and height.
    pub fn size(self) -> (r: Option<Vec2<Rational>>)
        requires
            self.wf(),
        ensures
            r matches Some(v) ==> v.wf() && q_eq(v.x.q(), q_add(self.right.q(), q_neg(
                self.left.q(),
            ))) && q_eq(v.y.q(), q_add(self.bottom.q(), q_neg(self.top.q()))),
            q_fits(q_add(self.right.q(), q_neg(self.left.q()))) && q_fits(
                q_add(self.bottom.q(), q_neg(self.top.q())),
            ) ==> r is Some,
    {
        let x = match self.right.checked_sub(self.left) {
            Some(v) => v,
            None => {
                return None;
            },
        };
        let y = match self.bottom.checked_sub(self.top) {
            Some(v) => v,
            None => {
                return None;
            },
        };
        Some(Vec2 { x, y })
    }

    /// `right - left`.
    pub fn width(self) -> (r: Option<Rational>)
        requires
            self.wf(),
        ensures
            r matches Some(v) ==> v.wf() && q_eq(
                v.q(),
                q_add(self.right.q(), q_neg(self.left.q())),
            ),
            q_fits(q_add(self.right.q(), q_neg(self.left.q()))) ==> r is Some,
    {
        self.right.checked_sub(self.left)
    }

    /// `bottom - top`.
    pub fn height(self) -> (r: Option<Rational>)
        requires
            self.wf(),
        ensures
            r matches Some(v) ==> v.wf() && q_eq(
                v.q(),
                q_add(self.bottom.q(), q_neg(self.top.q())),
            ),
            q_fits(q_add(self.bottom.q(), q_neg(self.top.q()))) ==> r is Some,
    {
        self.bottom.checked_sub(self.top)
    }

    /// The midpoint of the rectangle: each coordinate is the half sum, so the
    /// result `c` satisfies `2·c.x = left + right` and `2·c.y = top + bottom`.
    pub fn center(self) -> (r: Option<Vec2<Rational>>)
        requires
            self.wf(),
        ensures
            r matches Some(v) ==> v.wf() && q_eq(
                q_mul((2int, 1int), v.x.q()),
                q_add(self.left.q(), self.right.q()),
            ) && q_eq(q_mul((2int, 1int), v.y.q()), q_add(self.top.q(), self.bottom.q())),
            ({
                let ix = q_add(self.left.q(), self.right.q());
                let iy = q_add(self.top.q(), self.bottom.q());
                q_fits(ix) && q_fits(iy) && ix.1 * 2 <= i64::MAX as int && iy.1 * 2 <= i64::MAX
                    as int
            }) ==> r is Some,
    {
        let ghost ix = q_add(self.left.q(), self.right.q());
        let ghost iy = q_add(self.top.q(), self.bottom.q());
        let sx = match self.left.checked_add(self.right) {
            Some(v) => v,
            None => {
                return None;
            },
        };
        let sy = match self.top.checked_add(self.bottom) {
            Some(v) => v,
            None => {
                return None;
            },
        };
        let half = Rational::ratio(1, 2);
        let x = match sx.checked_mul(half) {
            Some(v) => v,
            None => {
                proof {
                    if q_fits(ix) && ix.1 * 2 <= i64::MAX as int {
                        assert(q_rep_bounded(half.q(), (1int, 2int)));
                        lemma_rep_mul_fits(sx.q(), half.q(), ix, (1int, 2int));
                    }
                }
                return None;
            },
        };
        let y = match sy.checked_mul(half) {
            Some(v) => v,
            None => {
                proof {
                    if q_fits(iy) && iy.1 * 2 <= i64::MAX as int {
                        assert(q_rep_bounded(half.q(), (1int, 2int)));
                        lemma_rep_mul_fits(sy.q(), half.q(), iy, (1int, 2int));
                    }
                }
                return None;
            },
        };
        proof {
            crate::rational::lemma_q_pos(self.left.q().1, self.right.q().1);
            crate::rational::lemma_q_pos(self.top.q().1, self.bottom.q().1);
            lemma_center(x.q(), sx.q(), q_add(self.left.q(), self.right.q()));
            lemma_center(y.q(), sy.q(), q_add(self.top.q(), self.bottom.q()));
        }
        Some(Vec2 { x, y })
    }

    /// Whether the point lies inside the rectangle; the left and top edges
    /// are inside, the right and bottom edges are not.
    pub fn contains(&self, p: Vec2<Rational>) -> (b: bool)
        requires
            self.wf(),
            p.wf(),
        ensures
            b == (q_le(self.left.q(), p.x.q()) && q_lt(p.x.q(), self.right.q()) && q_le(
                self.top.q(),
                p.y.q(),
            ) && q_lt(p.y.q(), self.bottom.q())),
    {
        self.left.le(p.x) && p.x.lt(self.right) && self.top.le(p.y) && p.y.lt(self.bottom)
    }
}

/// Half of `s` doubled gives `s` back: links a coordinate of the midpoint to
/// the corresponding edge sum.
proof fn lemma_center(x: (int, int), s: (int, int), e: (int, int))
    requires
        q_eq(x, q_mul(s, (1int, 2int))),
        q_eq(s, e),
        x.1 > 0,
        s.1 > 0,
        e.1 > 0,
    ensures
        q_eq(q_mul((2int, 1int), x), e),
{
    assert(q_eq(q_mul((2int, 1int), x), s)) by (nonlinear_arith)
        requires
            q_eq(x, q_mul(s, (1int, 2int))),
            x.1 > 0,
            s.1 > 0,
    ;
    crate::rational::lemma_q_eq_trans(q_mul((2int, 1int), x), s, e);
}

/// Derives the four edge variables of an element's rectangle from its
/// identifier, by mixing the identifier's halves with fixed salts.
impl From<Id> for Rect<Var> {
    fn from(id: Id) -> (r: Rect<Var>) {
        Rect {
            left: Var(Id(hash_combine(id.0, 0x704ddeddddcd8305), hash_combine(id.1, 0x9d708bad4e0dfa92))),
            right: Var(Id(hash_combine(id.1, 0x783da78e81729554), hash_combine(id.0, 0xd93e20a6528175cb))),
            top: Var(Id(hash_combine(id.0, 0x8c4dd4132e69c870), hash_combine(id.1, 0xa2738decbe5a0105))),
            bottom: Var(Id(hash_combine(id.1, 0x92b0c372db71a2d4), hash_combine(id.0, 0x66f27a9be0b03507))),
        }
    }
}

impl vstd::std_specs::convert::FromSpecImpl<Id> for Rect<Var> {
    open spec fn obeys_from_spec() -> bool {
        true
    }

    open spec fn from_spec(id: Id) -> Rect<Var> {
        Rect {
            left: Var(Id(spec_hash_combine(id.0, 0x704ddeddddcd8305), spec_hash_combine(id.1, 0x9d708bad4e0dfa92))),
            right: Var(Id(spec_hash_combine(id.1, 0x783da78e81729554), spec_hash_combine(id.0, 0xd93e20a6528175cb))),
            top: Var(Id(spec_hash_combine(id.0, 0x8c4dd4132e69c870), spec_hash_combine(id.1, 0xa2738decbe5a0105))),
            bottom: Var(Id(spec_hash_combine(id.1, 0x92b0c372db71a2d4), spec_hash_combine(id.0, 0x66f27a9be0b03507))),
        }
    }
}

/// Addition on 64-bit halves wraps around.
pub open spec fn wrap64(x: int) -> int {
    x % 0x1_0000_0000_0000_0000
}

/// The identifier-mixing step used when deriving edge variables: the salt is
/// added (wrapping) to a rotation and a shift of the half, then folded in by
/// exclusive or.
pub open spec fn spec_hash_combine(a: u64, b: u64) -> u64 {
    a ^ (wrap64(wrap64(b + ((a << 17) | (a >> 47))) + (a >> 2)) as u64)
}

/// Mixes a salt into one identifier half.
pub fn hash_combine(a: u64, b: u64) -> (r: u64)
    ensures
        r == spec_hash_combine(a, b),
{
    let rot: u64 = (a << 17) | (a >> 47);
    let t1: u64 = if b <= u64::MAX - rot {
        b + rot
    } else {
        b - (u64::MAX - rot) - 1
    };
    proof {
        assert(t1 == wrap64(b + rot));
    }
    let s2: u64 = a >> 2;
    let t2: u64 = if t1 <= u64::MAX - s2 {
        t1 + s2
    } else {
        t1 - (u64::MAX - s2) - 1
    };
    proof {
        assert(t2 == wrap64(t1 + s2));
    }
    a ^ t2
}

} // verus!

//! An incremental linear-arithmetic constraint solver (a Cassowary-style
//! simplex engine) with a frame-level constraint-diffing layer on top,
//! together with the small geometry and identifier types that its callers use.
//!
//! All coefficients and solved values are exact rationals, so every comparison
//! against zero is exact and repeated substitution introduces no drift.

use vstd::prelude::*;

pub mod assoc;
pub mod color;
pub mod expression;
pub mod font;
pub mod image;
pub mod input;
pub mod layout;
pub mod rational;
pub mod rect;
pub mod row;
pub mod selector;
pub mod solver;
pub mod style;
pub mod symbol;
pub mod theme;
pub mod util;
pub mod vec2;
pub mod widgets;

verus! {

/// A 128-bit identifier: two independent 64-bit halves.
#[derive(Copy, Clone, Eq, PartialEq, Structural, Hash, Debug)]
pub struct Id(pub u64, pub u64);

/// Relies on rand::random for fresh identifier halves; nothing is assumed
/// of the values drawn.
pub assume_specification<T>[ rand::random::<T> ]() -> (r: T)
    where rand::distributions::Standard: rand::distributions::Distribution<T>,
;

impl Id {
    /// Generate new unique id.
    ///
    /// Uniqueness is statistical: the two halves are drawn independently at
    /// random, so a collision among realistically many identifiers is
    /// vanishingly unlikely.
    pub fn unique() -> Id {
        Id(rand::random::<u64>(), rand::random::<u64>())
    }
}

/// Anything that can be rendered.
///
/// There are no methods because a renderer downcasts to the concrete type;
/// the trait only prevents accidentally drawing things which cannot be
/// rendered.
pub trait Render {

}

} // verus!

//! What a host renderer learns about an image it watches.

use vstd::prelude::*;
use crate::rect::Rect;

verus! {

/// The state of a watched image since the renderer last looked: freshly
/// created, unchanged, or updated within the given region.
pub enum ImageState<T> {
    New(T),
    Same(T),
    Updated(T, Rect<i32>),
}

} // verus!

//! Font fallback.

use vstd::prelude::*;

verus! {

/// The fallback font: it shapes no text, so anything laid out with it takes
/// no space.  Real shaping produces glyph geometry in floating point and
/// lives with the host's font backend.
#[derive(Eq, PartialEq, Structural, Debug)]
pub struct ErrorFont;

impl ErrorFont {
    /// How many glyphs this font produces for any text: none.
    pub fn glyph_count(&self, text: &str) -> (r: usize)
        ensures
            r == 0,
    {
        let _ = text;
        0
    }
}

} // verus!

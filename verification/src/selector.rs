//! Style selectors: which element kinds and style variants a rule applies to.

use vstd::prelude::*;
use crate::theme::{ElementKind, StyleVariant};

verus! {

/// A parsed selector: an element kind, a style variant, or both.
#[derive(Copy, Clone, Eq, PartialEq, Structural, Debug)]
pub enum Selector {
    ElementKind(ElementKind),
    StyleVariant(StyleVariant),
    Full(StyleVariant, ElementKind),
}

impl Selector {
    /// How specific this selector is; rules are applied in increasing
    /// specificity so that more specific ones win.
    pub fn specificity(self) -> (r: u32)
        ensures
            self matches Selector::ElementKind(_) ==> r == 0,
            self matches Selector::StyleVariant(_) ==> r == 1,
            self matches Selector::Full(_, _) ==> r == 2,
    {
        match self {
            Selector::ElementKind(_) => 0,
            Selector::StyleVariant(_) => 1,
            Selector::Full(..) => 2,
        }
    }

    /// Whether this selector applies to an element with the given style
    /// variant and kind.
    pub fn matches(self, target: (StyleVariant, ElementKind)) -> (r: bool)
        ensures
            r == spec_matches(self, target),
    {
        match self {
            Selector::ElementKind(kind) => kind == target.1,
            Selector::StyleVariant(variant) => variant == target.0,
            Selector::Full(variant, kind) => variant == target.0 && kind == target.1,
        }
    }
}

/// Whether a selector applies to a (style variant, element kind) pair.
pub open spec fn spec_matches(s: Selector, target: (StyleVariant, ElementKind)) -> bool {
    match s {
        Selector::ElementKind(kind) => kind == target.1,
        Selector::StyleVariant(variant) => variant == target.0,
        Selector::Full(variant, kind) => variant == target.0 && kind == target.1,
    }
}

} // verus!

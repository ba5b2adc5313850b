//! Minimal widgets: state holders that hosts drive through the layout.

use vstd::prelude::*;
use crate::Id;

verus! {

/// An invisible region that reports clicks.
pub struct ClickArea {
    id: Id,
    clicked: bool,
}

impl ClickArea {
    /// Whether a completed click has been recorded and not yet consumed.
    pub closed spec fn clicked_spec(self) -> bool {
        self.clicked
    }

    /// The identifier from which the widget's edge variables derive.
    pub closed spec fn id_spec(self) -> Id {
        self.id
    }

    /// A fresh click area with a unique identifier and no pending click.
    pub fn new() -> (r: ClickArea)
        ensures
            !r.clicked_spec(),
    {
        ClickArea { id: Id::unique(), clicked: false }
    }

    /// The identifier from which the widget's place is derived.
    pub fn id(&self) -> (r: Id)
        ensures
            r == self.id_spec(),
    {
        self.id
    }

    /// Records a completed click; consumed by [`ClickArea::clicked`].
    pub fn record_click(&mut self)
        ensures
            final(self).clicked_spec(),
            final(self).id_spec() == old(self).id_spec(),
    {
        self.clicked = true;
    }

    /// Takes the pending click, if any: reports it once and clears it.
    pub fn clicked(&mut self) -> (r: bool)
        ensures
            r == old(self).clicked_spec(),
            !final(self).clicked_spec(),
            final(self).id_spec() == old(self).id_spec(),
    {
        let prev = self.clicked;
        self.clicked = false;
        prev
    }
}

/// A widget that only occupies its place.
pub struct Dummy {
    id: Id,
}

impl Dummy {
    /// The identifier from which the widget's edge variables derive.
    pub closed spec fn id_spec(self) -> Id {
        self.id
    }

    /// A fresh dummy widget with a unique identifier.
    pub fn new() -> (r: Dummy)
        ensures
            true,
    {
        Dummy { id: Id::unique() }
    }

    /// The identifier from which the widget's place is derived.
    pub fn id(&self) -> (r: Id)
        ensures
            r == self.id_spec(),
    {
        self.id
    }
}

} // verus!

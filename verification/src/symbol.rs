//! Variables and tableau symbols.
//!
//! A `Var` is an externally visible variable keyed by a caller-supplied 128-bit
//! `Id`.  A `Symbol` is the key type for all tableau storage: it mirrors either
//! an external variable or one of the slack/error variables that the solver
//! mints for a constraint.

use vstd::prelude::*;
use core::cmp::Ordering;
use crate::Id;

verus! {

/// An externally visible solver variable.
#[derive(Copy, Clone, Eq, PartialEq, Structural, Hash, Debug)]
pub struct Var(pub Id);

#[derive(Copy, Clone, Eq, PartialEq, Structural, Hash, Debug)]
pub enum SymbolKind {
    /// Mirrors a caller `Var`.
    External,
    /// Converts an inequality into an equality; never leaves the solver.
    Slack,
    /// Carries the signed violation of a soft constraint; never leaves the solver.
    Error,
}

/// Key type for all tableau storage.
#[derive(Copy, Clone, Eq, PartialEq, Structural, Hash, Debug)]
pub struct Symbol {
    pub id: Id,
    pub kind: SymbolKind,
}

/// Total order on identifiers: by first half, then by second half.
pub open spec fn id_lt(a: Id, b: Id) -> bool {
    a.0 < b.0 || (a.0 == b.0 && a.1 < b.1)
}

/// The external symbol that mirrors a caller variable.
pub open spec fn spec_from_var(var: Var) -> Symbol {
    Symbol { id: var.0, kind: SymbolKind::External }
}

impl Var {
    /// The identifier behind this variable.
    pub open spec fn id(self) -> Id {
        self.0
    }

    /// Deterministic total order on variables, by raw identifier.
    pub fn compare_by_id(self, other: Var) -> (r: Ordering)
        ensures
            r == Ordering::Less <==> id_lt(self.0, other.0),
            r == Ordering::Greater <==> id_lt(other.0, self.0),
            r == Ordering::Equal <==> self.0 == other.0,
    {
        let Id(a0, a1) = self.0;
        let Id(b0, b1) = other.0;
        if a0 < b0 {
            Ordering::Less
        } else if a0 > b0 {
            Ordering::Greater
        } else if a1 < b1 {
            Ordering::Less
        } else if a1 > b1 {
            Ordering::Greater
        } else {
            Ordering::Equal
        }
    }
}

impl From<Id> for Var {
    fn from(id: Id) -> (r: Var) {
        Var(id)
    }
}

impl vstd::std_specs::convert::FromSpecImpl<Id> for Var {
    open spec fn obeys_from_spec() -> bool {
        true
    }

    open spec fn from_spec(id: Id) -> Var {
        Var(id)
    }
}

impl Symbol {
    /// A fresh internal symbol; the solver supplies an identifier from its
    /// own counter so that every minted symbol is distinct.
    pub fn new(kind: SymbolKind, id: Id) -> (s: Symbol)
        ensures
            s == (Symbol { id, kind }),
    {
        Symbol { id, kind }
    }

    /// The external symbol that mirrors a caller variable.
    pub fn from_var(var: Var) -> (s: Symbol)
        ensures
            s == spec_from_var(var),
    {
        Symbol { id: var.0, kind: SymbolKind::External }
    }

    pub fn is_external(self) -> (b: bool)
        ensures
            b == (self.kind == SymbolKind::External),
    {
        match self.kind {
            SymbolKind::External => true,
            _ => false,
        }
    }
}

} // verus!

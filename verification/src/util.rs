//! Hashing support for identifier keys.
//!
//! All identifiers in this library are either randomly generated or derived
//! from sufficiently mixed hashes, so a map keyed by them needs no further
//! hashing: folding the identifier's words together is enough.  The host
//! wires [`IdIdentityHasher`] into its map implementation.

use vstd::prelude::*;

verus! {

/// Hasher state which can be used with identifiers: the exclusive-or fold
/// of the 64-bit words written so far.
pub struct IdIdentityHasher(u64);

/// Helper type from which the host's maps mint an [`IdIdentityHasher`].
#[derive(Copy, Clone, Eq, PartialEq, Structural, Debug)]
pub struct IdIdentityHasherBuilder;

impl IdIdentityHasher {
    pub closed spec fn state(self) -> u64 {
        self.0
    }

    /// A fresh hasher with nothing folded in yet.
    pub fn new() -> (r: IdIdentityHasher)
        ensures
            r.state() == 0,
    {
        IdIdentityHasher(0)
    }

    /// Folds one identifier word into the state.
    pub fn write_u64(&mut self, i: u64)
        ensures
            final(self).state() == old(self).state() ^ i,
    {
        self.0 = self.0 ^ i;
    }

    /// The folded state; meaningful once something was written.
    pub fn finish(&self) -> (r: u64)
        ensures
            r == self.state(),
    {
        self.0
    }
}

impl IdIdentityHasherBuilder {
    /// A fresh hasher.
    pub fn build_hasher(&self) -> (r: IdIdentityHasher)
        ensures
            r.state() == 0,
    {
        IdIdentityHasher::new()
    }
}

impl Default for IdIdentityHasherBuilder {
    fn default() -> (r: IdIdentityHasherBuilder)
        ensures
            r == IdIdentityHasherBuilder,
    {
        IdIdentityHasherBuilder
    }
}

} // verus!

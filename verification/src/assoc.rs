//! Association sequences keyed by `Symbol`.
//!
//! The row and the tableau both store their entries as a vector of
//! `(Symbol, value)` pairs with pairwise-distinct keys, in insertion order,
//! so that every scan is deterministic.  These spec functions and lemmas give
//! such a sequence its map reading.

use vstd::prelude::*;
use crate::symbol::Symbol;

verus! {

/// The value stored under `x`, scanning from the end.
pub open spec fn assoc_get<V>(s: Seq<(Symbol, V)>, x: Symbol) -> Option<V>
    decreases s.len(),
{
    if s.len() == 0 {
        None
    } else if s.last().0 == x {
        Some(s.last().1)
    } else {
        assoc_get(s.drop_last(), x)
    }
}

/// Some entry carries the key `x`.
pub open spec fn assoc_has<V>(s: Seq<(Symbol, V)>, x: Symbol) -> bool {
    exists|i: int| 0 <= i < s.len() && (#[trigger] s[i]).0 == x
}

/// No two entries share a key.
pub open spec fn assoc_distinct<V>(s: Seq<(Symbol, V)>) -> bool {
    forall|i: int, j: int|
        0 <= i < j < s.len() ==> (#[trigger] s[i]).0 != (#[trigger] s[j]).0
}

/// Index of the entry keyed by `x`, scanning from the front.
pub fn assoc_find<V>(s: &Vec<(Symbol, V)>, x: Symbol) -> (r: Option<usize>)
    ensures
        match r {
            Some(i) => i < s@.len() && s@[i as int].0 == x,
            None => !assoc_has(s@, x),
        },
{
    let mut i: usize = 0;
    while i < s.len()
        invariant
            i <= s@.len(),
            forall|j: int| 0 <= j < i ==> (#[trigger] s@[j]).0 != x,
        decreases s@.len() - i,
    {
        if s[i].0 == x {
            return Some(i);
        }
        i += 1;
    }
    None
}

/// Sequences with pointwise-equal keys hold the same keys.
pub proof fn lemma_assoc_same_keys<V, W>(s: Seq<(Symbol, V)>, r: Seq<(Symbol, W)>, x: Symbol)
    requires
        r.len() == s.len(),
        forall|j: int| 0 <= j < s.len() ==> (#[trigger] r[j]).0 == s[j].0,
    ensures
        assoc_has(r, x) == assoc_has(s, x),
{
    if assoc_has(s, x) {
        let j = choose|j: int| 0 <= j < s.len() && (#[trigger] s[j]).0 == x;
        assert(r[j].0 == x);
    }
    if assoc_has(r, x) {
        let j = choose|j: int| 0 <= j < r.len() && (#[trigger] r[j]).0 == x;
        assert(s[j].0 == x);
    }
}

/// With distinct keys, the entry at any index is the one `assoc_get` finds.
pub proof fn lemma_assoc_get_at<V>(s: Seq<(Symbol, V)>, i: int)
    requires
        assoc_distinct(s),
        0 <= i < s.len(),
    ensures
        assoc_get(s, s[i].0) == Some(s[i].1),
    decreases s.len(),
{
    if i == s.len() - 1 {
    } else {
        assert(s.last().0 != s[i].0);
        assert(s.drop_last()[i] == s[i]);
        lemma_assoc_get_at(s.drop_last(), i);
    }
}

/// A key carried by no entry is not found.
pub proof fn lemma_assoc_get_absent<V>(s: Seq<(Symbol, V)>, x: Symbol)
    requires
        !assoc_has(s, x),
    ensures
        assoc_get(s, x) is None,
    decreases s.len(),
{
    if s.len() > 0 {
        assert(s[s.len() - 1].0 != x);
        assert(!assoc_has(s.drop_last(), x)) by {
            if assoc_has(s.drop_last(), x) {
                let i = choose|i: int|
                    0 <= i < s.drop_last().len() && (#[trigger] s.drop_last()[i]).0 == x;
                assert(s[i] == s.drop_last()[i]);
            }
        }
        lemma_assoc_get_absent(s.drop_last(), x);
    }
}

/// With distinct keys, presence and a successful lookup coincide.
pub proof fn lemma_assoc_get_some<V>(s: Seq<(Symbol, V)>, x: Symbol)
    requires
        assoc_distinct(s),
    ensures
        assoc_has(s, x) <==> assoc_get(s, x) is Some,
{
    if assoc_has(s, x) {
        let i = choose|i: int| 0 <= i < s.len() && (#[trigger] s[i]).0 == x;
        lemma_assoc_get_at(s, i);
    } else {
        lemma_assoc_get_absent(s, x);
    }
}

/// Appending a fresh key adds exactly one binding.
pub proof fn lemma_assoc_get_push<V>(s: Seq<(Symbol, V)>, e: (Symbol, V), x: Symbol)
    ensures
        assoc_get(s.push(e), x) == if x == e.0 {
            Some(e.1)
        } else {
            assoc_get(s, x)
        },
        !assoc_has(s, e.0) && assoc_distinct(s) ==> assoc_distinct(s.push(e)),
        assoc_has(s.push(e), x) == (x == e.0 || assoc_has(s, x)),
{
    assert(s.push(e).last() == e);
    assert(s.push(e).drop_last() =~= s);
    if !assoc_has(s, e.0) && assoc_distinct(s) {
        assert forall|i: int, j: int| 0 <= i < j < s.push(e).len() implies (#[trigger] s.push(
            e,
        )[i]).0 != (#[trigger] s.push(e)[j]).0 by {
            if j == s.len() {
                assert(s.push(e)[i] == s[i]);
            }
        }
    }
    if assoc_has(s.push(e), x) && x != e.0 {
        let i = choose|i: int| 0 <= i < s.push(e).len() && (#[trigger] s.push(e)[i]).0 == x;
        assert(s.push(e)[i] == s[i]);
        assert(assoc_has(s, x));
    }
    if assoc_has(s, x) {
        let i = choose|i: int| 0 <= i < s.len() && (#[trigger] s[i]).0 == x;
        assert(s.push(e)[i] == s[i]);
        assert(assoc_has(s.push(e), x));
    }
    if x == e.0 {
        assert(s.push(e)[s.len() as int] == e);
        assert(assoc_has(s.push(e), x));
    }
}

/// Removing the entry at `i` removes exactly that binding.
pub proof fn lemma_assoc_get_remove<V>(s: Seq<(Symbol, V)>, i: int, x: Symbol)
    requires
        assoc_distinct(s),
        0 <= i < s.len(),
    ensures
        assoc_get(s.remove(i), x) == if x == s[i].0 {
            None
        } else {
            assoc_get(s, x)
        },
        assoc_distinct(s.remove(i)),
        assoc_has(s.remove(i), x) == (x != s[i].0 && assoc_has(s, x)),
    decreases s.len(),
{
    let r = s.remove(i);
    assert forall|a: int, b: int| 0 <= a < b < r.len() implies (#[trigger] r[a]).0
        != (#[trigger] r[b]).0 by {
        let a2: int = if a < i {
            a
        } else {
            a + 1
        };
        let b2: int = if b < i {
            b
        } else {
            b + 1
        };
        assert(r[a] == s[a2]);
        assert(r[b] == s[b2]);
    }
    if x == s[i].0 {
        assert(!assoc_has(r, x)) by {
            if assoc_has(r, x) {
                let a = choose|a: int| 0 <= a < r.len() && (#[trigger] r[a]).0 == x;
                let a2: int = if a < i {
                    a
                } else {
                    a + 1
                };
                assert(r[a] == s[a2]);
            }
        }
        lemma_assoc_get_absent(r, x);
    } else {
        if i == s.len() - 1 {
            assert(r =~= s.drop_last());
        } else {
            assert(r.last() == s.last());
            assert(r.drop_last() =~= s.drop_last().remove(i));
            if s.last().0 != x {
                lemma_assoc_get_remove(s.drop_last(), i, x);
                assert(s.drop_last()[i] == s[i]);
            }
        }
        // presence is unchanged for other keys
        if assoc_has(r, x) {
            let a = choose|a: int| 0 <= a < r.len() && (#[trigger] r[a]).0 == x;
            let a2: int = if a < i {
                a
            } else {
                a + 1
            };
            assert(r[a] == s[a2]);
            assert(assoc_has(s, x));
        }
        if assoc_has(s, x) {
            let a = choose|a: int| 0 <= a < s.len() && (#[trigger] s[a]).0 == x;
            let a2: int = if a < i {
                a
            } else {
                a - 1
            };
            assert(a != i);
            assert(r[a2] == s[a]);
            assert(assoc_has(r, x));
        }
    }
}

} // verus!

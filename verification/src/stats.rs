//! Object-count / byte-count pairs and their monoid structure.
use vstd::prelude::*;

verus! {

/// A pair of an object count and a byte total. Forms a commutative
/// monoid under pointwise addition with identity `(0, 0)`.
#[derive(Debug, Clone, Copy, PartialEq, Eq, Structural)]
pub struct Stats {
    pub count: usize,
    pub bytes: usize,
}

/// Pointwise sum of two stats, at the mathematical level.
pub open spec fn spec_add(a: Stats, b: Stats) -> Stats {
    Stats { count: (a.count + b.count) as usize, bytes: (a.bytes + b.bytes) as usize }
}

impl Stats {
    /// The monoid identity.
    pub fn zero() -> (r: Stats)
        ensures
            r == (Stats { count: 0usize, bytes: 0usize }),
    {
        Stats { count: 0, bytes: 0 }
    }

    /// Pointwise addition: the result's count and bytes are the sums of
    /// the arguments' counts and bytes.
    pub fn add(&self, other: Stats) -> (r: Stats)
        requires
            self.count + other.count <= usize::MAX,
            self.bytes + other.bytes <= usize::MAX,
        ensures
            r.count == self.count + other.count,
            r.bytes == self.bytes + other.bytes,
            r == spec_add(*self, other),
    {
        Stats { count: self.count + other.count, bytes: self.bytes + other.bytes }
    }
}

impl Default for Stats {
    /// The default value is the monoid identity `(0, 0)`.
    fn default() -> (r: Stats)
        ensures
            r == (Stats { count: 0usize, bytes: 0usize }),
    {
        Stats { count: 0, bytes: 0 }
    }
}

/// Law: pointwise addition is commutative.
pub proof fn lemma_add_commutative(a: Stats, b: Stats)
    ensures
        spec_add(a, b) == spec_add(b, a),
{
}

/// Law: pointwise addition is associative, whenever the three-way sums
/// fit in a machine word (the only values the executable `add` admits).
pub proof fn lemma_add_associative(a: Stats, b: Stats, c: Stats)
    requires
        a.count + b.count + c.count <= usize::MAX,
        a.bytes + b.bytes + c.bytes <= usize::MAX,
    ensures
        spec_add(spec_add(a, b), c) == spec_add(a, spec_add(b, c)),
{
}

/// Law: `(0, 0)` is neutral on both sides.
pub proof fn lemma_add_identity(a: Stats)
    ensures
        spec_add(a, Stats { count: 0usize, bytes: 0usize }) == a,
        spec_add(Stats { count: 0usize, bytes: 0usize }, a) == a,
{
}

} // verus!

//! The load of an endpoint: a count of connections in use, or "not yet
//! measured", which counts as more than any number.
use vstd::prelude::*;

verus! {

/// An estimate of the work in flight on one endpoint.
///
/// `Unmeasured` stands above every measured load, so that an endpoint nobody
/// has used yet is never preferred over one whose load is known, and it
/// absorbs increments and decrements.
#[derive(Clone, Copy, Debug, PartialEq, Eq, Structural)]
pub enum Load {
    Measured(u64),
    Unmeasured,
}

impl Load {
    /// `self <= other` in the order where `Unmeasured` is the greatest load.
    pub open spec fn le(self, other: Load) -> bool {
        match (self, other) {
            (_, Load::Unmeasured) => true,
            (Load::Unmeasured, Load::Measured(_)) => false,
            (Load::Measured(a), Load::Measured(b)) => a <= b,
        }
    }

    /// The load after one more connection was put to use.
    pub open spec fn spec_incremented(self) -> Load {
        match self {
            Load::Unmeasured => Load::Unmeasured,
            Load::Measured(n) => if n < u64::MAX {
                Load::Measured((n + 1) as u64)
            } else {
                Load::Measured(n)
            },
        }
    }

    /// The load after one connection was released. It never goes below zero.
    pub open spec fn spec_decremented(self) -> Load {
        match self {
            Load::Unmeasured => Load::Unmeasured,
            Load::Measured(n) => if n > 0 {
                Load::Measured((n - 1) as u64)
            } else {
                Load::Measured(0)
            },
        }
    }

    /// The load of an endpoint that has never been used.
    pub fn unmeasured() -> (l: Load)
        ensures
            l == Load::Unmeasured,
    {
        Load::Unmeasured
    }

    /// A known load of `n` connections.
    pub fn measured(n: u64) -> (l: Load)
        ensures
            l == Load::Measured(n),
    {
        Load::Measured(n)
    }

    /// Whether nobody has used the endpoint yet.
    pub fn is_unmeasured(&self) -> (b: bool)
        ensures
            b == (*self == Load::Unmeasured),
    {
        match self {
            Load::Unmeasured => true,
            Load::Measured(_) => false,
        }
    }

    /// Whether this load is no greater than `other`.
    pub fn at_most(&self, other: &Load) -> (b: bool)
        ensures
            b == self.le(*other),
    {
        match (self, other) {
            (_, Load::Unmeasured) => true,
            (Load::Unmeasured, Load::Measured(_)) => false,
            (Load::Measured(a), Load::Measured(b)) => *a <= *b,
        }
    }

    /// The load after one more connection was put to use.
    #[verifier::when_used_as_spec(spec_incremented)]
    pub fn incremented(self) -> (l: Load)
        ensures
            l == self.spec_incremented(),
    {
        match self {
            Load::Unmeasured => Load::Unmeasured,
            Load::Measured(n) => Load::Measured(n.saturating_add(1)),
        }
    }

    /// The load after one connection was released.
    #[verifier::when_used_as_spec(spec_decremented)]
    pub fn decremented(self) -> (l: Load)
        ensures
            l == self.spec_decremented(),
    {
        match self {
            Load::Unmeasured => Load::Unmeasured,
            Load::Measured(n) => Load::Measured(n.saturating_sub(1)),
        }
    }
}

/// Of two loads one is at most the other, and what is at most a load that
/// is at most a third is at most the third.
pub proof fn lemma_load_order(a: Load, b: Load, c: Load)
    ensures
        a.le(a),
        a.le(b) || b.le(a),
        a.le(b) && b.le(c) ==> a.le(c),
        a.le(Load::Unmeasured),
{
}

} // verus!

//! The occupancy thresholds that a branching factor implies.

use vstd::prelude::*;

verus! {

/// The branching factor of the trees that the convenience constructors build.
pub const NODE_DEGREE: usize = 2;

/// Structural thresholds of a tree with branching factor `degree`.
#[derive(Debug, Clone, Copy, PartialEq, Eq, PartialOrd, Ord)]
pub struct BTreeRules {
    /// Most items a node may hold.
    pub maxkeys: usize,
    /// Most children an internal node may have.
    pub maxchildren: usize,
    /// Fewest items a node other than the root may hold.
    pub minkeys: usize,
    /// Fewest children an internal node other than the root may have.
    pub minchildren: usize,
    /// The branching factor.
    pub degree: usize,
}

impl BTreeRules {
    /// The thresholds are those of a branching factor of at least two.
    pub open spec fn valid(self) -> bool {
        &&& self.degree >= 2
        &&& self.maxkeys == 2 * self.degree - 1
        &&& self.maxchildren == 2 * self.degree
        &&& self.minkeys == self.degree - 1
        &&& self.minchildren == self.degree
    }

    /// A branching factor that the thresholds can be computed for.
    pub open spec fn degree_ok(degree: usize) -> bool {
        2 <= degree && 2 * degree <= usize::MAX
    }

    /// The thresholds of the branching factor `degree`.
    pub open spec fn for_degree(degree: usize) -> Self {
        BTreeRules {
            maxkeys: (2 * degree - 1) as usize,
            maxchildren: (2 * degree) as usize,
            minkeys: (degree - 1) as usize,
            minchildren: degree,
            degree,
        }
    }

    /// Derives the thresholds from the branching factor.
    pub fn new(degree: usize) -> (rules: Self)
        requires
            Self::degree_ok(degree),
        ensures
            rules == Self::for_degree(degree),
            rules.valid(),
    {
        BTreeRules {
            maxkeys: (2 * degree) - 1,
            maxchildren: 2 * degree,
            minkeys: degree - 1,
            minchildren: degree,
            degree,
        }
    }
}

} // verus!

//! The direction of a dependency query and the matching test that it selects.

use crate::program::{DependencySet, ProgramPoint};
use vstd::prelude::*;

verus! {

/// Which way a query follows the dependency relation from a target.
#[derive(Clone, Copy, Debug)]
pub enum Direction {
    /// What the target influences.
    Forward,
    /// What influenced the target.
    Backward,
    /// Either of the two.
    Both,
}

impl Direction {
    /// The matching test between the dependencies of a candidate location and those
    /// of a target. Forward asks that everything that explains the target also
    /// explains the candidate; backward asks that everything that explains the
    /// candidate also explains the target.
    pub open spec fn matches(
        self,
        loc_deps: Set<ProgramPoint>,
        target_deps: Set<ProgramPoint>,
    ) -> bool {
        match self {
            Direction::Forward => target_deps.subset_of(loc_deps),
            Direction::Backward => loc_deps.subset_of(target_deps),
            Direction::Both => target_deps.subset_of(loc_deps) || loc_deps.subset_of(target_deps),
        }
    }

    /// The direction that looks the other way.
    pub open spec fn reversed(self) -> Direction {
        match self {
            Direction::Forward => Direction::Backward,
            Direction::Backward => Direction::Forward,
            Direction::Both => Direction::Both,
        }
    }

    /// Applies the matching test of this direction.
    pub fn test(self, loc_deps: &DependencySet, target_deps: &DependencySet) -> (matched: bool)
        ensures
            matched == self.matches(loc_deps@, target_deps@),
    {
        match self {
            Direction::Forward => loc_deps.is_superset(target_deps),
            Direction::Backward => target_deps.is_superset(loc_deps),
            Direction::Both => loc_deps.is_superset(target_deps) || target_deps.is_superset(
                loc_deps,
            ),
        }
    }
}

/// Whatever matches forward or backward also matches in both directions.
pub proof fn lemma_both_subsumes(
    direction: Direction,
    loc_deps: Set<ProgramPoint>,
    target_deps: Set<ProgramPoint>,
)
    requires
        direction.matches(loc_deps, target_deps),
    ensures
        Direction::Both.matches(loc_deps, target_deps),
{
}

/// Exchanging the two dependency sets exchanges forward and backward: a test in one
/// direction is the test in the reversed direction with cause and effect swapped.
pub proof fn lemma_reversal_swaps(
    direction: Direction,
    loc_deps: Set<ProgramPoint>,
    target_deps: Set<ProgramPoint>,
)
    ensures
        direction.matches(loc_deps, target_deps) == direction.reversed().matches(
            target_deps,
            loc_deps,
        ),
        direction.reversed().reversed() == direction,
{
}

} // verus!

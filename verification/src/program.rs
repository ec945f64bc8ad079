//! The analysed routine as the dependency query reads it: program points, memory
//! locations, the per-point flow state, the alias model and the control-flow graph.

use crate::sets::{Key, VecSet};
use vstd::prelude::*;

verus! {

/// The block at which a routine is entered.
pub const ENTRY_BLOCK: usize = 0;

/// A position in the control-flow graph: a block and an offset into it. The offsets
/// below the number of statements of the block name its statements; the offset equal
/// to that number names its terminator.
#[derive(Clone, Copy, Debug, PartialEq, Eq, Structural, PartialOrd, Ord, Hash)]
pub struct ProgramPoint {
    pub block: usize,
    pub index: usize,
}

impl Key for ProgramPoint {
    fn same(&self, other: &Self) -> (b: bool) {
        self.block == other.block && self.index == other.index
    }
}

/// A storage slot of the routine, named by its index among the known locations.
#[derive(Clone, Copy, Debug, PartialEq, Eq, Structural, PartialOrd, Ord, Hash)]
pub struct MemoryLocation(pub usize);

impl Key for MemoryLocation {
    fn same(&self, other: &Self) -> (b: bool) {
        self.0 == other.0
    }
}

/// A set of program points: those that explain a value.
pub type DependencySet = VecSet<ProgramPoint>;

/// A set of memory locations.
pub type LocationSet = VecSet<MemoryLocation>;

/// The dependency relation at one program point: for each memory location, the
/// program points that explain the value visible there. Row `i` belongs to location
/// `i`; a location without a row has no dependencies.
#[derive(Debug)]
pub struct FlowState {
    pub rows: Vec<DependencySet>,
}

impl FlowState {
    /// The dependencies of `location`: its row, or the empty set where it has none.
    pub open spec fn row_of(&self, location: MemoryLocation) -> Set<ProgramPoint> {
        if location.0 < self.rows@.len() {
            self.rows@[location.0 as int]@
        } else {
            Set::empty()
        }
    }

    /// The dependencies of `location`.
    pub fn row(&self, location: MemoryLocation) -> (deps: DependencySet)
        ensures
            deps@ == self.row_of(location),
    {
        if location.0 < self.rows.len() {
            self.rows[location.0].clone()
        } else {
            DependencySet::new()
        }
    }
}

/// The alias model: for each memory location, the locations that may overlap its
/// storage and the locations that can be reached through it. Entry `i` of each table
/// belongs to location `i`; a location without an entry is unknown to the model.
#[derive(Debug)]
pub struct AliasModel {
    pub conflicts: Vec<LocationSet>,
    pub reachable: Vec<LocationSet>,
}

impl AliasModel {
    /// Every known location conflicts with itself and reaches itself.
    pub open spec fn wf(&self) -> bool {
        &&& forall|location: MemoryLocation|
            location.0 < self.conflicts@.len() ==> (#[trigger] self.conflicts_of(
                location,
            )).contains(location)
        &&& forall|location: MemoryLocation|
            location.0 < self.reachable@.len() ==> (#[trigger] self.reachable_from(
                location,
            )).contains(location)
    }

    /// The locations that may overlap `location`; none where it is unknown.
    pub open spec fn conflicts_of(&self, location: MemoryLocation) -> Set<MemoryLocation> {
        if location.0 < self.conflicts@.len() {
            self.conflicts@[location.0 as int]@
        } else {
            Set::empty()
        }
    }

    /// The locations reachable through `location`; none where it is unknown.
    pub open spec fn reachable_from(&self, location: MemoryLocation) -> Set<MemoryLocation> {
        if location.0 < self.reachable@.len() {
            self.reachable@[location.0 as int]@
        } else {
            Set::empty()
        }
    }

    /// The locations that some location of `mutated` may overlap.
    pub open spec fn conflict_closure(&self, mutated: Seq<MemoryLocation>) -> Set<MemoryLocation> {
        Set::new(
            |location: MemoryLocation|
                exists|i: int|
                    0 <= i < mutated.len() && #[trigger] self.conflicts_of(mutated[i]).contains(
                        location,
                    ),
        )
    }

    /// The locations that may overlap `location`.
    pub fn conflicts(&self, location: MemoryLocation) -> (set: LocationSet)
        ensures
            set@ == self.conflicts_of(location),
    {
        if location.0 < self.conflicts.len() {
            self.conflicts[location.0].clone()
        } else {
            LocationSet::new()
        }
    }

    /// The locations reachable through `location`.
    pub fn reachable_values(&self, location: MemoryLocation) -> (set: LocationSet)
        ensures
            set@ == self.reachable_from(location),
    {
        if location.0 < self.reachable.len() {
            self.reachable[location.0].clone()
        } else {
            LocationSet::new()
        }
    }

    /// Whether the model is well formed.
    pub fn is_wf(&self) -> (b: bool)
        ensures
            b == self.wf(),
    {
        let mut i: usize = 0;
        while i < self.conflicts.len()
            invariant
                i <= self.conflicts@.len(),
                forall|location: MemoryLocation|
                    location.0 < i ==> (#[trigger] self.conflicts_of(location)).contains(location),
            decreases self.conflicts@.len() - i,
        {
            if !self.conflicts[i].contains(MemoryLocation(i)) {
                assert(!self.conflicts_of(MemoryLocation(i)).contains(MemoryLocation(i)));
                return false;
            }
            i += 1;
        }
        let mut i: usize = 0;
        while i < self.reachable.len()
            invariant
                i <= self.reachable@.len(),
                forall|location: MemoryLocation|
                    location.0 < self.conflicts@.len() ==> (#[trigger] self.conflicts_of(
                        location,
                    )).contains(location),
                forall|location: MemoryLocation|
                    location.0 < i ==> (#[trigger] self.reachable_from(location)).contains(
                        location,
                    ),
            decreases self.reachable@.len() - i,
        {
            if !self.reachable[i].contains(MemoryLocation(i)) {
                assert(!self.reachable_from(MemoryLocation(i)).contains(MemoryLocation(i)));
                return false;
            }
            i += 1;
        }
        true
    }

    /// The union of the conflict sets of the locations in `mutated`.
    pub fn conflicts_of_all(&self, mutated: &Vec<MemoryLocation>) -> (set: LocationSet)
        ensures
            set@ == self.conflict_closure(mutated@),
    {
        let mut set = LocationSet::new();
        let mut i: usize = 0;
        while i < mutated.len()
            invariant
                i <= mutated.len(),
                set@ == self.conflict_closure(mutated@.take(i as int)),
            decreases mutated.len() - i,
        {
            let conflicts = self.conflicts(mutated[i]);
            set.union(&conflicts);
            proof {
                let done = mutated@.take(i as int);
                let next = mutated@.take(i + 1);
                assert forall|l: MemoryLocation|
                    self.conflict_closure(next).contains(l) == (self.conflict_closure(
                        done,
                    ).contains(l) || self.conflicts_of(mutated@[i as int]).contains(l)) by {
                    if self.conflict_closure(next).contains(l) {
                        let j = choose|j: int|
                            0 <= j < next.len() && #[trigger] self.conflicts_of(next[j]).contains(
                                l,
                            );
                        if j < i {
                            assert(self.conflicts_of(done[j]).contains(l));
                        }
                    }
                    if self.conflict_closure(done).contains(l) {
                        let j = choose|j: int|
                            0 <= j < done.len() && #[trigger] self.conflicts_of(done[j]).contains(
                                l,
                            );
                        assert(self.conflicts_of(next[j]).contains(l));
                    }
                    if self.conflicts_of(mutated@[i as int]).contains(l) {
                        assert(self.conflicts_of(next[i as int]).contains(l));
                    }
                }
                assert(set@ =~= self.conflict_closure(next));
            }
            i += 1;
        }
        proof {
            assert(mutated@.take(mutated@.len() as int) == mutated@);
        }
        set
    }
}

/// A statement, by the locations that it mutates.
#[derive(Debug)]
pub struct Statement {
    pub mutated: Vec<MemoryLocation>,
}

/// The terminator of a block.
#[derive(Debug)]
pub enum Terminator {
    /// A multi-way branch on a scrutinee value.
    Switch,
    /// Any other terminator, by the locations that it mutates.
    Other { mutated: Vec<MemoryLocation> },
}

/// A basic block: its statements in order, then its terminator.
#[derive(Debug)]
pub struct Block {
    pub statements: Vec<Statement>,
    pub terminator: Terminator,
}

/// The routine under analysis.
#[derive(Debug)]
pub struct Routine {
    /// The blocks of the control-flow graph; a block is named by its index.
    pub blocks: Vec<Block>,
    /// The blocks that can be reached from the entry, in the order of their visit.
    pub reachable: Vec<usize>,
    /// The locations that denote the formal arguments.
    pub arguments: Vec<MemoryLocation>,
    /// The number of known locations: these are the locations `0` up to, and not
    /// including, this number.
    pub location_count: usize,
}

impl Routine {
    /// Whether `block` is among the first `count` reachable blocks.
    pub open spec fn reaches_within(&self, count: int, block: usize) -> bool {
        exists|k: int|
            0 <= k < count && k < self.reachable@.len() && #[trigger] self.reachable@[k] == block
    }

    /// Whether `block` is among the reachable blocks.
    pub open spec fn reaches(&self, block: usize) -> bool {
        self.reaches_within(self.reachable@.len() as int, block)
    }

    /// Every known location.
    pub open spec fn domain(&self) -> Set<MemoryLocation> {
        Set::new(|location: MemoryLocation| location.0 < self.location_count)
    }

    /// Whether `block` is among the reachable blocks.
    pub fn is_reachable(&self, block: usize) -> (b: bool)
        ensures
            b == self.reaches(block),
    {
        let mut k: usize = 0;
        while k < self.reachable.len()
            invariant
                k <= self.reachable.len(),
                forall|i: int| 0 <= i < k ==> self.reachable@[i] != block,
            decreases self.reachable.len() - k,
        {
            if self.reachable[k] == block {
                return true;
            }
            k += 1;
        }
        false
    }

    /// The set of every known location.
    pub fn all_locations(&self) -> (set: LocationSet)
        ensures
            set@ == self.domain(),
    {
        let mut set = LocationSet::new();
        let mut i: usize = 0;
        while i < self.location_count
            invariant
                i <= self.location_count,
                set@ == Set::new(|location: MemoryLocation| location.0 < i),
            decreases self.location_count - i,
        {
            set.insert_absent(MemoryLocation(i));
            i += 1;
        }
        set
    }
}

} // verus!

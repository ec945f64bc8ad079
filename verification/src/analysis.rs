//! The results of the flow analysis of one routine, as the dependency query reads
//! them.

use crate::program::{
    AliasModel, FlowState, MemoryLocation, ProgramPoint, Routine, Terminator, ENTRY_BLOCK,
};
use vstd::prelude::*;

verus! {

/// The analysed routine, its alias model, and the flow state at the entry and after
/// the effect of each statement and terminator.
#[derive(Debug)]
pub struct FlowResults {
    pub routine: Routine,
    pub aliases: AliasModel,
    /// The flow state on entry to the routine.
    pub entry_state: FlowState,
    /// `states[b][i]` is the flow state after the effect of the statement, or the
    /// terminator, at offset `i` of block `b`.
    pub states: Vec<Vec<FlowState>>,
}

impl FlowResults {
    /// Block `block` exists, with a flow state after each of its statements and
    /// after its terminator.
    pub open spec fn has_states(&self, block: usize) -> bool {
        &&& block < self.routine.blocks@.len()
        &&& block < self.states@.len()
        &&& self.states@[block as int]@.len() == self.routine.blocks@[
            block as int
        ].statements@.len() + 1
    }

    /// The alias model is well formed and every reachable block has its states.
    pub open spec fn wf(&self) -> bool {
        &&& self.aliases.wf()
        &&& forall|k: int|
            0 <= k < self.routine.reachable@.len() ==> self.has_states(
                #[trigger] self.routine.reachable@[k],
            )
    }

    /// Whether the traversal visits `point`: its block is reachable and its offset
    /// names a statement of that block or its terminator.
    pub open spec fn visits(&self, point: ProgramPoint) -> bool {
        &&& self.routine.reaches(point.block)
        &&& point.index <= self.routine.blocks@[point.block as int].statements@.len()
    }

    /// The flow state after the effect at `point`.
    pub open spec fn state_after(&self, point: ProgramPoint) -> FlowState {
        self.states@[point.block as int]@[point.index as int]
    }

    /// The dependencies of `location` after the effect at `point`; none at a point
    /// that the traversal does not visit.
    pub open spec fn row_at(&self, point: ProgramPoint, location: MemoryLocation) -> Set<
        ProgramPoint,
    > {
        if self.visits(point) {
            self.state_after(point).row_of(location)
        } else {
            Set::empty()
        }
    }

    /// Whether `point` is the terminator of its block and that terminator is a
    /// switch.
    pub open spec fn is_switch(&self, point: ProgramPoint) -> bool {
        let block = self.routine.blocks@[point.block as int];
        point.index == block.statements@.len() && block.terminator is Switch
    }

    /// The locations to test after the effect at `point`: every known location after
    /// a switch, else the locations that may overlap one that the statement or
    /// terminator mutates.
    pub open spec fn candidates(&self, point: ProgramPoint) -> Set<MemoryLocation> {
        let block = self.routine.blocks@[point.block as int];
        if point.index < block.statements@.len() {
            self.aliases.conflict_closure(block.statements@[point.index as int].mutated@)
        } else {
            self.terminator_candidates(block.terminator)
        }
    }

    /// The locations to test after the effect of `terminator`.
    pub open spec fn terminator_candidates(&self, terminator: Terminator) -> Set<MemoryLocation> {
        match terminator {
            Terminator::Switch => self.routine.domain(),
            Terminator::Other { mutated } => self.aliases.conflict_closure(mutated@),
        }
    }

    /// The program points that the traversal visits.
    pub open spec fn visited_points(&self) -> Set<ProgramPoint> {
        Set::new(|point: ProgramPoint| self.visits(point))
    }

    /// Whether the traversal visits the entry of the routine.
    pub open spec fn enters(&self) -> bool {
        self.routine.reaches(ENTRY_BLOCK)
    }

    /// The locations to test on entry: those of the formal arguments.
    pub open spec fn entry_candidates(&self) -> Set<MemoryLocation> {
        self.routine.arguments@.to_set()
    }

    /// Whether the results are well formed.
    pub fn is_wf(&self) -> (b: bool)
        ensures
            b == self.wf(),
    {
        if !self.aliases.is_wf() {
            return false;
        }
        let mut k: usize = 0;
        while k < self.routine.reachable.len()
            invariant
                k <= self.routine.reachable.len(),
                forall|i: int|
                    0 <= i < k ==> self.has_states(#[trigger] self.routine.reachable@[i]),
            decreases self.routine.reachable.len() - k,
        {
            let block = self.routine.reachable[k];
            if block >= self.routine.blocks.len() || block >= self.states.len() {
                return false;
            }
            let statements = self.routine.blocks[block].statements.len();
            let states = self.states[block].len();
            if states == 0 || states - 1 != statements {
                assert(!self.has_states(self.routine.reachable@[k as int]));
                return false;
            }
            k += 1;
        }
        true
    }

    /// The flow state after the effect at `point`, where the traversal visits it.
    pub fn state_at(&self, point: ProgramPoint) -> (state: Option<&FlowState>)
        requires
            self.wf(),
        ensures
            state is Some == self.visits(point),
            state matches Some(s) ==> *s == self.state_after(point),
    {
        if self.routine.is_reachable(point.block) && point.index
            <= self.routine.blocks[point.block].statements.len() {
            Some(&self.states[point.block][point.index])
        } else {
            None
        }
    }
}

} // verus!

//! The matching pass: at each visited program point, the candidate locations are
//! tested against the dependencies of each target, and what matches is added to
//! that target's output.

use crate::analysis::FlowResults;
use crate::direction::Direction;
use crate::program::{
    DependencySet, FlowState, LocationSet, MemoryLocation, ProgramPoint, Statement, Terminator,
    ENTRY_BLOCK,
};
use crate::sets::lemma_take_push_to_set;
use vstd::prelude::*;

verus! {

/// The output of a query for one target, as mathematical sets: the program points
/// and the memory locations connected to the target.
pub type OutputView = (Set<ProgramPoint>, Set<MemoryLocation>);

/// The view of an output.
pub open spec fn output_view(output: (DependencySet, LocationSet)) -> OutputView {
    (output.0@, output.1@)
}

/// Whether `location` matches a target at a visit: it is a candidate, its row in the
/// flow state is not empty, and the row passes the matching test of the direction
/// against the dependencies of the target.
pub open spec fn location_matches(
    direction: Direction,
    target_deps: Set<ProgramPoint>,
    state: FlowState,
    to_check: Set<MemoryLocation>,
    location: MemoryLocation,
) -> bool {
    &&& to_check.contains(location)
    &&& !state.row_of(location).is_empty()
    &&& direction.matches(state.row_of(location), target_deps)
}

/// Whether the visit of `point` is itself a cause or effect event for a match of
/// `location`: `point` is among the dependencies of `location`, or the visit is that
/// of a switch and `point` is among the dependencies of the target.
pub open spec fn is_event(
    target_deps: Set<ProgramPoint>,
    state: FlowState,
    is_switch: bool,
    location: MemoryLocation,
    point: ProgramPoint,
) -> bool {
    state.row_of(location).contains(point) || (is_switch && target_deps.contains(point))
}

/// Whether the visit of `point` is an event for some location that matches.
pub open spec fn point_matches(
    direction: Direction,
    target_deps: Set<ProgramPoint>,
    state: FlowState,
    to_check: Set<MemoryLocation>,
    is_switch: bool,
    point: ProgramPoint,
) -> bool {
    exists|location: MemoryLocation|
        #[trigger] location_matches(direction, target_deps, state, to_check, location)
            && is_event(target_deps, state, is_switch, location, point)
}

/// The output of one target after a visit, given its output before.
pub open spec fn after_visit(
    direction: Direction,
    target_deps: Set<ProgramPoint>,
    before: OutputView,
    state: FlowState,
    point: Option<ProgramPoint>,
    to_check: Set<MemoryLocation>,
    is_switch: bool,
) -> OutputView {
    (
        match point {
            Some(p) if point_matches(direction, target_deps, state, to_check, is_switch, p) => {
                before.0.insert(p)
            },
            _ => before.0,
        },
        before.1.union(
            Set::new(
                |location: MemoryLocation|
                    location_matches(direction, target_deps, state, to_check, location),
            ),
        ),
    )
}

/// The output of one target once the entry has been visited, if `entered`, and the
/// program points in `visited` have been, given its output before. A point is added
/// where its visit is an event for a location that matches there; a location is added
/// where it matches on entry or at a visited point.
pub open spec fn gathered(
    results: &FlowResults,
    direction: Direction,
    target_deps: Set<ProgramPoint>,
    before: OutputView,
    entered: bool,
    visited: Set<ProgramPoint>,
) -> OutputView {
    (
        Set::new(
            |point: ProgramPoint|
                before.0.contains(point) || (visited.contains(point) && point_matches(
                    direction,
                    target_deps,
                    results.state_after(point),
                    results.candidates(point),
                    results.is_switch(point),
                    point,
                )),
        ),
        Set::new(
            |location: MemoryLocation|
                before.1.contains(location) || (entered && location_matches(
                    direction,
                    target_deps,
                    results.entry_state,
                    results.entry_candidates(),
                    location,
                )) || exists|point: ProgramPoint|
                    visited.contains(point) && #[trigger] location_matches(
                        direction,
                        target_deps,
                        results.state_after(point),
                        results.candidates(point),
                        location,
                    ),
        ),
    )
}

/// The output of one target after the whole traversal, given its output before.
pub open spec fn after_traversal(
    results: &FlowResults,
    direction: Direction,
    target_deps: Set<ProgramPoint>,
    before: OutputView,
) -> OutputView {
    gathered(results, direction, target_deps, before, results.enters(), results.visited_points())
}

/// The state of the matching pass: the query's direction, the dependencies of each
/// target, and the output gathered so far for each target.
pub struct DepVisitor<'a> {
    pub direction: Direction,
    pub target_deps: Vec<DependencySet>,
    pub outputs: Vec<(DependencySet, LocationSet)>,
    pub analysis: &'a FlowResults,
}

impl<'a> DepVisitor<'a> {
    /// There is one output for each target.
    pub open spec fn wf(&self) -> bool {
        self.outputs@.len() == self.target_deps@.len()
    }

    /// Nothing but the outputs differs between `self` and `before`, and there are as
    /// many outputs as before.
    pub open spec fn same_query(&self, before: &Self) -> bool {
        &&& self.direction == before.direction
        &&& self.target_deps == before.target_deps
        &&& self.analysis == before.analysis
        &&& self.outputs@.len() == before.outputs@.len()
    }

    /// Whether `self` is `before` after one visit: each output is what that visit
    /// makes of the output before, and nothing else differs.
    pub open spec fn is_after_visit(
        &self,
        before: &Self,
        state: FlowState,
        point: Option<ProgramPoint>,
        to_check: Set<MemoryLocation>,
        is_switch: bool,
    ) -> bool {
        &&& self.same_query(before)
        &&& forall|i: int|
            0 <= i < before.outputs@.len() ==> output_view(#[trigger] self.outputs@[i])
                == after_visit(
                before.direction,
                before.target_deps@[i]@,
                output_view(before.outputs@[i]),
                state,
                point,
                to_check,
                is_switch,
            )
    }

    /// Whether `self` is `before` after the whole traversal of `results`: each output
    /// is what the traversal makes of the output before, and nothing else differs.
    pub open spec fn is_after_traversal(&self, before: &Self, results: &FlowResults) -> bool {
        &&& self.same_query(before)
        &&& forall|i: int|
            0 <= i < before.outputs@.len() ==> output_view(#[trigger] self.outputs@[i])
                == after_traversal(
                results,
                before.direction,
                before.target_deps@[i]@,
                output_view(before.outputs@[i]),
            )
    }

    /// Tests every location of `to_check` against every target, with the flow state
    /// `state` of the visited point, and adds what matches to the outputs.
    pub fn visit(
        &mut self,
        state: &FlowState,
        point: Option<ProgramPoint>,
        to_check: &LocationSet,
        is_switch: bool,
    )
        requires
            old(self).wf(),
        ensures
            final(self).is_after_visit(old(self), *state, point, to_check@, is_switch),
    {
        let candidates = to_check.elements();
        let mut i: usize = 0;
        while i < self.outputs.len()
            invariant
                i <= self.outputs@.len(),
                self.same_query(old(self)),
                self.wf(),
                candidates@.to_set() == to_check@,
                forall|j: int|
                    i <= j < self.outputs@.len() ==> #[trigger] self.outputs@[j] == old(
                        self,
                    ).outputs@[j],
                forall|j: int|
                    0 <= j < i ==> output_view(#[trigger] self.outputs@[j]) == after_visit(
                        self.direction,
                        self.target_deps@[j]@,
                        output_view(old(self).outputs@[j]),
                        *state,
                        point,
                        to_check@,
                        is_switch,
                    ),
            decreases self.outputs@.len() - i,
        {
            let mut c: usize = 0;
            while c < candidates.len()
                invariant
                    c <= candidates@.len(),
                    i < self.outputs@.len(),
                    self.same_query(old(self)),
                    self.wf(),
                    forall|j: int|
                        i < j < self.outputs@.len() ==> #[trigger] self.outputs@[j] == old(
                            self,
                        ).outputs@[j],
                    forall|j: int|
                        0 <= j < i ==> output_view(#[trigger] self.outputs@[j]) == after_visit(
                            self.direction,
                            self.target_deps@[j]@,
                            output_view(old(self).outputs@[j]),
                            *state,
                            point,
                            to_check@,
                            is_switch,
                        ),
                    output_view(self.outputs@[i as int]) == after_visit(
                        self.direction,
                        self.target_deps@[i as int]@,
                        output_view(old(self).outputs@[i as int]),
                        *state,
                        point,
                        candidates@.take(c as int).to_set(),
                        is_switch,
                    ),
                decreases candidates@.len() - c,
            {
                let place = candidates[c];
                let loc_deps = state.row(place);
                let ghost done = candidates@.take(c as int).to_set();
                let ghost target = self.target_deps@[i as int]@;
                proof {
                    lemma_take_push_to_set(candidates@, c as int);
                }
                if !loc_deps.is_empty() && self.direction.test(&loc_deps, &self.target_deps[i]) {
                    self.outputs[i].1.insert(place);
                    if let Some(location) = point {
                        if loc_deps.contains(location) || (is_switch
                            && self.target_deps[i].contains(location)) {
                            self.outputs[i].0.insert(location);
                        }
                    }
                }
                proof {
                    lemma_visit_step(
                        self.direction,
                        target,
                        output_view(old(self).outputs@[i as int]),
                        *state,
                        point,
                        done,
                        place,
                        is_switch,
                    );
                }
                c += 1;
            }
            proof {
                assert(candidates@.take(candidates@.len() as int) == candidates@);
            }
            i += 1;
        }
    }

    /// Called at the start of `block`, with the flow state there: on entry to the
    /// routine, tests the locations of the formal arguments.
    pub fn visit_block_start(&mut self, state: &FlowState, block: usize)
        requires
            old(self).wf(),
        ensures
            block == ENTRY_BLOCK ==> final(self).is_after_visit(
                old(self),
                *state,
                None,
                old(self).analysis.entry_candidates(),
                false,
            ),
            block != ENTRY_BLOCK ==> *final(self) == *old(self),
    {
        if block == ENTRY_BLOCK {
            let to_check = LocationSet::from_vec(&self.analysis.routine.arguments);
            self.visit(state, None, &to_check, false);
        }
    }

    /// Called after the effect of `statement`, at `point`, with the flow state
    /// there: tests the locations that may overlap one that the statement mutates.
    pub fn visit_statement_after_primary_effect(
        &mut self,
        state: &FlowState,
        statement: &Statement,
        point: ProgramPoint,
    )
        requires
            old(self).wf(),
        ensures
            final(self).is_after_visit(
                old(self),
                *state,
                Some(point),
                old(self).analysis.aliases.conflict_closure(statement.mutated@),
                false,
            ),
    {
        let to_check = self.analysis.aliases.conflicts_of_all(&statement.mutated);
        self.visit(state, Some(point), &to_check, false);
    }

    /// Called after the effect of `terminator`, at `point`, with the flow state
    /// there: after a switch, tests every known location; after any other terminator,
    /// the locations that may overlap one that it mutates.
    pub fn visit_terminator_after_primary_effect(
        &mut self,
        state: &FlowState,
        terminator: &Terminator,
        point: ProgramPoint,
    )
        requires
            old(self).wf(),
        ensures
            final(self).is_after_visit(
                old(self),
                *state,
                Some(point),
                old(self).analysis.terminator_candidates(*terminator),
                *terminator is Switch,
            ),
    {
        match terminator {
            Terminator::Switch => {
                let to_check = self.analysis.routine.all_locations();
                self.visit(state, Some(point), &to_check, true);
            },
            Terminator::Other { mutated } => {
                let to_check = self.analysis.aliases.conflicts_of_all(mutated);
                self.visit(state, Some(point), &to_check, false);
            },
        }
    }
}

impl FlowResults {
    /// Visits the entry of the routine, where it is reachable, and every statement
    /// and terminator of every reachable block, each with the flow state after its
    /// own effect.
    pub fn visit_reachable_with<'a>(&'a self, visitor: &mut DepVisitor<'a>)
        requires
            self.wf(),
            old(visitor).wf(),
            *old(visitor).analysis == *self,
        ensures
            final(visitor).is_after_traversal(old(visitor), self),
    {
        let ghost mut entered = false;
        let ghost mut visited = Set::<ProgramPoint>::empty();
        let mut k: usize = 0;
        while k < self.routine.reachable.len()
            invariant
                k <= self.routine.reachable@.len(),
                self.wf(),
                visitor.wf(),
                visitor.same_query(old(visitor)),
                *visitor.analysis == *self,
                entered == self.routine.reaches_within(k as int, ENTRY_BLOCK),
                forall|p: ProgramPoint|
                    visited.contains(p) <==> self.routine.reaches_within(k as int, p.block)
                        && p.index <= self.routine.blocks@[p.block as int].statements@.len(),
                forall|i: int|
                    0 <= i < visitor.outputs@.len() ==> output_view(#[trigger] visitor.outputs@[i])
                        == gathered(
                        self,
                        visitor.direction,
                        visitor.target_deps@[i]@,
                        output_view(old(visitor).outputs@[i]),
                        entered,
                        visited,
                    ),
            decreases self.routine.reachable@.len() - k,
        {
            let b = self.routine.reachable[k];
            assert(self.has_states(self.routine.reachable@[k as int]));
            let block = &self.routine.blocks[b];
            let ghost done = visited;
            if b == ENTRY_BLOCK {
                visitor.visit_block_start(&self.entry_state, b);
                proof {
                    assert forall|i: int| 0 <= i < visitor.outputs@.len() implies output_view(
                        #[trigger] visitor.outputs@[i],
                    ) == gathered(
                        self,
                        visitor.direction,
                        visitor.target_deps@[i]@,
                        output_view(old(visitor).outputs@[i]),
                        true,
                        visited,
                    ) by {
                        lemma_gather_entry(
                            self,
                            visitor.direction,
                            visitor.target_deps@[i]@,
                            output_view(old(visitor).outputs@[i]),
                            entered,
                            visited,
                        );
                    }
                    entered = true;
                }
            }
            let mut j: usize = 0;
            while j < block.statements.len()
                invariant
                    j <= block.statements@.len(),
                    k < self.routine.reachable@.len(),
                    b == self.routine.reachable@[k as int],
                    self.has_states(b),
                    *block == self.routine.blocks@[b as int],
                    self.wf(),
                    visitor.wf(),
                    visitor.same_query(old(visitor)),
                    *visitor.analysis == *self,
                    forall|p: ProgramPoint|
                        visited.contains(p) <==> done.contains(p) || (p.block == b && p.index < j),
                    forall|i: int|
                        0 <= i < visitor.outputs@.len() ==> output_view(
                            #[trigger] visitor.outputs@[i],
                        ) == gathered(
                            self,
                            visitor.direction,
                            visitor.target_deps@[i]@,
                            output_view(old(visitor).outputs@[i]),
                            entered,
                            visited,
                        ),
                decreases block.statements@.len() - j,
            {
                let point = ProgramPoint { block: b, index: j };
                visitor.visit_statement_after_primary_effect(
                    &self.states[b][j],
                    &block.statements[j],
                    point,
                );
                proof {
                    assert forall|i: int| 0 <= i < visitor.outputs@.len() implies output_view(
                        #[trigger] visitor.outputs@[i],
                    ) == gathered(
                        self,
                        visitor.direction,
                        visitor.target_deps@[i]@,
                        output_view(old(visitor).outputs@[i]),
                        entered,
                        visited.insert(point),
                    ) by {
                        lemma_gather_visit(
                            self,
                            visitor.direction,
                            visitor.target_deps@[i]@,
                            output_view(old(visitor).outputs@[i]),
                            entered,
                            visited,
                            point,
                        );
                    }
                    visited = visited.insert(point);
                }
                j += 1;
            }
            let point = ProgramPoint { block: b, index: j };
            visitor.visit_terminator_after_primary_effect(
                &self.states[b][j],
                &block.terminator,
                point,
            );
            proof {
                assert forall|i: int| 0 <= i < visitor.outputs@.len() implies output_view(
                    #[trigger] visitor.outputs@[i],
                ) == gathered(
                    self,
                    visitor.direction,
                    visitor.target_deps@[i]@,
                    output_view(old(visitor).outputs@[i]),
                    entered,
                    visited.insert(point),
                ) by {
                    lemma_gather_visit(
                        self,
                        visitor.direction,
                        visitor.target_deps@[i]@,
                        output_view(old(visitor).outputs@[i]),
                        entered,
                        visited,
                        point,
                    );
                }
                visited = visited.insert(point);
                assert forall|p: ProgramPoint|
                    visited.contains(p) <==> self.routine.reaches_within(k + 1, p.block) && p.index
                        <= self.routine.blocks@[p.block as int].statements@.len() by {
                    if self.routine.reaches_within(k + 1, p.block) {
                        let w = choose|w: int|
                            0 <= w < k + 1 && w < self.routine.reachable@.len()
                                && #[trigger] self.routine.reachable@[w] == p.block;
                        if w < k {
                            assert(self.routine.reaches_within(k as int, p.block));
                        }
                    }
                    if self.routine.reaches_within(k as int, p.block) {
                        let w = choose|w: int|
                            0 <= w < k && w < self.routine.reachable@.len()
                                && #[trigger] self.routine.reachable@[w] == p.block;
                        assert(self.routine.reachable@[w] == p.block);
                    }
                    if p.block == b {
                        assert(self.routine.reachable@[k as int] == p.block);
                    }
                }
                assert(entered == self.routine.reaches_within(k + 1, ENTRY_BLOCK)) by {
                    if self.routine.reaches_within(k + 1, ENTRY_BLOCK) {
                        let w = choose|w: int|
                            0 <= w < k + 1 && w < self.routine.reachable@.len()
                                && #[trigger] self.routine.reachable@[w] == ENTRY_BLOCK;
                        if w < k {
                            assert(self.routine.reaches_within(k as int, ENTRY_BLOCK));
                        }
                    }
                    if self.routine.reaches_within(k as int, ENTRY_BLOCK) {
                        let w = choose|w: int|
                            0 <= w < k && w < self.routine.reachable@.len()
                                && #[trigger] self.routine.reachable@[w] == ENTRY_BLOCK;
                        assert(self.routine.reachable@[w] == ENTRY_BLOCK);
                    }
                    if b == ENTRY_BLOCK {
                        assert(self.routine.reachable@[k as int] == ENTRY_BLOCK);
                    }
                }
            }
            k += 1;
        }
        proof {
            assert(visited =~= self.visited_points());
        }
    }
}

/// An output only grows: a visit removes nothing from it.
pub proof fn lemma_visit_only_adds(
    direction: Direction,
    target_deps: Set<ProgramPoint>,
    before: OutputView,
    state: FlowState,
    point: Option<ProgramPoint>,
    to_check: Set<MemoryLocation>,
    is_switch: bool,
)
    ensures
        before.0.subset_of(
            after_visit(direction, target_deps, before, state, point, to_check, is_switch).0,
        ),
        before.1.subset_of(
            after_visit(direction, target_deps, before, state, point, to_check, is_switch).1,
        ),
{
}

/// Visiting the entry adds to an output what matches there.
proof fn lemma_gather_entry(
    results: &FlowResults,
    direction: Direction,
    target_deps: Set<ProgramPoint>,
    before: OutputView,
    entered: bool,
    visited: Set<ProgramPoint>,
)
    ensures
        gathered(results, direction, target_deps, before, true, visited) == after_visit(
            direction,
            target_deps,
            gathered(results, direction, target_deps, before, entered, visited),
            results.entry_state,
            None,
            results.entry_candidates(),
            false,
        ),
{
    let so_far = gathered(results, direction, target_deps, before, entered, visited);
    let now = gathered(results, direction, target_deps, before, true, visited);
    let stepped = after_visit(
        direction,
        target_deps,
        so_far,
        results.entry_state,
        None,
        results.entry_candidates(),
        false,
    );
    assert(now.0 =~= stepped.0);
    assert(now.1 =~= stepped.1);
}

/// Visiting one more program point adds to an output what matches there.
proof fn lemma_gather_visit(
    results: &FlowResults,
    direction: Direction,
    target_deps: Set<ProgramPoint>,
    before: OutputView,
    entered: bool,
    visited: Set<ProgramPoint>,
    point: ProgramPoint,
)
    ensures
        gathered(results, direction, target_deps, before, entered, visited.insert(point))
            == after_visit(
            direction,
            target_deps,
            gathered(results, direction, target_deps, before, entered, visited),
            results.state_after(point),
            Some(point),
            results.candidates(point),
            results.is_switch(point),
        ),
{
    let so_far = gathered(results, direction, target_deps, before, entered, visited);
    let now = gathered(results, direction, target_deps, before, entered, visited.insert(point));
    let stepped = after_visit(
        direction,
        target_deps,
        so_far,
        results.state_after(point),
        Some(point),
        results.candidates(point),
        results.is_switch(point),
    );
    assert(now.0 =~= stepped.0);
    assert forall|l: MemoryLocation| now.1.contains(l) == stepped.1.contains(l) by {
        if now.1.contains(l) && !so_far.1.contains(l) {
            let p = choose|p: ProgramPoint|
                visited.insert(point).contains(p) && #[trigger] location_matches(
                    direction,
                    target_deps,
                    results.state_after(p),
                    results.candidates(p),
                    l,
                );
            assert(p == point);
        }
        if so_far.1.contains(l) && !before.1.contains(l) && !(entered && location_matches(
            direction,
            target_deps,
            results.entry_state,
            results.entry_candidates(),
            l,
        )) {
            let p = choose|p: ProgramPoint|
                visited.contains(p) && #[trigger] location_matches(
                    direction,
                    target_deps,
                    results.state_after(p),
                    results.candidates(p),
                    l,
                );
            assert(visited.insert(point).contains(p));
        }
        if location_matches(
            direction,
            target_deps,
            results.state_after(point),
            results.candidates(point),
            l,
        ) {
            assert(visited.insert(point).contains(point));
        }
    }
    assert(now.1 =~= stepped.1);
}

/// Testing one more candidate location extends the output of a visit by what that
/// location contributes.
proof fn lemma_visit_step(
    direction: Direction,
    target_deps: Set<ProgramPoint>,
    before: OutputView,
    state: FlowState,
    point: Option<ProgramPoint>,
    done: Set<MemoryLocation>,
    place: MemoryLocation,
    is_switch: bool,
)
    ensures
        ({
            let partial =
                after_visit(direction, target_deps, before, state, point, done, is_switch);
            let matched = !state.row_of(place).is_empty() && direction.matches(
                state.row_of(place),
                target_deps,
            );
            let hit = matched && point is Some && is_event(
                target_deps,
                state,
                is_switch,
                place,
                point->0,
            );
            after_visit(direction, target_deps, before, state, point, done.insert(place), is_switch)
                == (
                if hit {
                    partial.0.insert(point->0)
                } else {
                    partial.0
                },
                if matched {
                    partial.1.insert(place)
                } else {
                    partial.1
                },
            )
        }),
{
    let next = done.insert(place);
    let partial = after_visit(direction, target_deps, before, state, point, done, is_switch);
    let full = after_visit(direction, target_deps, before, state, point, next, is_switch);
    let matched = !state.row_of(place).is_empty() && direction.matches(
        state.row_of(place),
        target_deps,
    );
    assert forall|l: MemoryLocation|
        location_matches(direction, target_deps, state, next, l) == (location_matches(
            direction,
            target_deps,
            state,
            done,
            l,
        ) || (l == place && matched)) by {}
    assert(full.1 =~= if matched {
        partial.1.insert(place)
    } else {
        partial.1
    });
    if let Some(p) = point {
        let hit = matched && is_event(target_deps, state, is_switch, place, p);
        if point_matches(direction, target_deps, state, next, is_switch, p) {
            let l = choose|l: MemoryLocation|
                #[trigger] location_matches(direction, target_deps, state, next, l) && is_event(
                    target_deps,
                    state,
                    is_switch,
                    l,
                    p,
                );
            if l != place {
                assert(location_matches(direction, target_deps, state, done, l));
            }
        }
        if point_matches(direction, target_deps, state, done, is_switch, p) {
            let l = choose|l: MemoryLocation|
                #[trigger] location_matches(direction, target_deps, state, done, l) && is_event(
                    target_deps,
                    state,
                    is_switch,
                    l,
                    p,
                );
            assert(location_matches(direction, target_deps, state, next, l));
        }
        if hit {
            assert(location_matches(direction, target_deps, state, next, place));
        }
        assert(full.0 =~= if hit {
            partial.0.insert(p)
        } else {
            partial.0
        });
    }
}

} // verus!

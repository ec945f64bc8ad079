//! The dependency query: target expansion, the matching pass over the reachable
//! program points, and the laws that its results obey.

use crate::analysis::FlowResults;
use crate::direction::Direction;
use crate::program::{DependencySet, LocationSet, MemoryLocation, ProgramPoint};
use crate::sets::lemma_take_push_to_set;
use crate::source_map::{project_spans, projected, SourceMap};
use crate::span::{is_merge_of, Span};
use crate::visitor::{
    after_traversal, is_event, location_matches, output_view, DepVisitor, OutputView,
};
use vstd::prelude::*;

verus! {

/// A target of a query: the write to a memory location that is observed at a
/// program point.
pub type Target = (MemoryLocation, ProgramPoint);

/// The union, over the locations in `places`, of their dependencies after the
/// effect at `point`.
pub open spec fn dependencies_at(
    results: &FlowResults,
    point: ProgramPoint,
    places: Set<MemoryLocation>,
) -> Set<ProgramPoint> {
    Set::new(
        |p: ProgramPoint|
            exists|location: MemoryLocation|
                places.contains(location) && #[trigger] results.row_at(point, location).contains(p),
    )
}

/// The locations that a target stands for: those reachable through its location.
pub open spec fn expanded_target(results: &FlowResults, target: Target) -> Set<MemoryLocation> {
    results.aliases.reachable_from(target.0)
}

/// The dependencies of a target: those of the locations that it stands for, at its
/// program point.
pub open spec fn target_dependencies(results: &FlowResults, target: Target) -> Set<ProgramPoint> {
    dependencies_at(results, target.1, expanded_target(results, target))
}

/// The output with which a target starts: no program point, and the locations that
/// it stands for.
pub open spec fn seed(results: &FlowResults, target: Target) -> OutputView {
    (Set::empty(), expanded_target(results, target))
}

/// The program points and memory locations connected to `target` in `direction`: a
/// program point, where the traversal visits it and its visit is an event for a
/// location that matches there; a location, where the target stands for it, or it
/// matches on entry or at a visited program point.
pub open spec fn dependencies_of(
    results: &FlowResults,
    direction: Direction,
    target: Target,
) -> OutputView {
    after_traversal(
        results,
        direction,
        target_dependencies(results, target),
        seed(results, target),
    )
}

/// Whether `outputs` holds, for each target in order, what is connected to it.
pub open spec fn is_dependencies(
    results: &FlowResults,
    targets: Seq<Target>,
    direction: Direction,
    outputs: Seq<OutputView>,
) -> bool {
    &&& outputs.len() == targets.len()
    &&& forall|i: int|
        0 <= i < targets.len() ==> #[trigger] outputs[i] == dependencies_of(
            results,
            direction,
            targets[i],
        )
}

/// The views of a sequence of outputs.
pub open spec fn output_views(outputs: Seq<(DependencySet, LocationSet)>) -> Seq<OutputView> {
    Seq::new(outputs.len(), |i: int| output_view(outputs[i]))
}

/// Replaces the location of `target` by the locations reachable through it.
pub fn expand_target(results: &FlowResults, target: &Target) -> (expanded: (
    LocationSet,
    ProgramPoint,
))
    ensures
        expanded.0@ == expanded_target(results, *target),
        expanded.1 == target.1,
{
    (results.aliases.reachable_values(target.0), target.1)
}

/// The union of the dependencies of the locations in `places` after the effect at
/// `point`.
pub fn get_deps(results: &FlowResults, places: &LocationSet, point: ProgramPoint) -> (deps:
    DependencySet)
    requires
        results.wf(),
    ensures
        deps@ == dependencies_at(results, point, places@),
{
    let mut locations = DependencySet::new();
    match results.state_at(point) {
        None => {
            assert(dependencies_at(results, point, places@) =~= Set::empty());
        },
        Some(state) => {
            let items = places.elements();
            let mut i: usize = 0;
            while i < items.len()
                invariant
                    i <= items@.len(),
                    results.visits(point),
                    *state == results.state_after(point),
                    locations@ == dependencies_at(results, point, items@.take(i as int).to_set()),
                decreases items@.len() - i,
            {
                let row = state.row(items[i]);
                locations.union(&row);
                proof {
                    lemma_take_push_to_set(items@, i as int);
                    let done = items@.take(i as int).to_set();
                    let next = items@.take(i + 1).to_set();
                    assert forall|p: ProgramPoint|
                        dependencies_at(results, point, next).contains(p) == (dependencies_at(
                            results,
                            point,
                            done,
                        ).contains(p) || results.row_at(point, items@[i as int]).contains(p)) by {
                        if dependencies_at(results, point, next).contains(p) {
                            let l = choose|l: MemoryLocation|
                                next.contains(l) && #[trigger] results.row_at(point, l).contains(p);
                            if l != items@[i as int] {
                                assert(done.contains(l));
                            }
                        }
                        if dependencies_at(results, point, done).contains(p) {
                            let l = choose|l: MemoryLocation|
                                done.contains(l) && #[trigger] results.row_at(point, l).contains(p);
                            assert(next.contains(l));
                        }
                        if results.row_at(point, items@[i as int]).contains(p) {
                            assert(next.contains(items@[i as int]));
                        }
                    }
                    assert(locations@ =~= dependencies_at(results, point, next));
                }
                i += 1;
            }
            proof {
                assert(items@.take(items@.len() as int) == items@);
            }
        },
    }
    locations
}

/// For each target in `targets`, in order, the program points and the memory
/// locations that are connected to it in `direction`.
pub fn compute_dependencies(
    results: &FlowResults,
    targets: Vec<Target>,
    direction: Direction,
) -> (outputs: Vec<(DependencySet, LocationSet)>)
    requires
        results.wf(),
    ensures
        is_dependencies(results, targets@, direction, output_views(outputs@)),
{
    let mut target_deps: Vec<DependencySet> = Vec::new();
    let mut outputs: Vec<(DependencySet, LocationSet)> = Vec::new();
    let mut i: usize = 0;
    while i < targets.len()
        invariant
            i <= targets@.len(),
            results.wf(),
            target_deps@.len() == i,
            outputs@.len() == i,
            forall|j: int|
                0 <= j < i ==> (#[trigger] target_deps@[j])@ == target_dependencies(
                    results,
                    targets@[j],
                ),
            forall|j: int|
                0 <= j < i ==> output_view(#[trigger] outputs@[j]) == seed(results, targets@[j]),
        decreases targets@.len() - i,
    {
        let expanded = expand_target(results, &targets[i]);
        let deps = get_deps(results, &expanded.0, expanded.1);
        target_deps.push(deps);
        outputs.push((DependencySet::new(), expanded.0));
        i += 1;
    }
    let mut visitor = DepVisitor { analysis: results, direction, target_deps, outputs };
    results.visit_reachable_with(&mut visitor);
    visitor.outputs
}

/// For each target in `targets`, in order, the merged source spans of what is
/// connected to it in `direction`.
pub fn compute_dependency_spans(
    results: &FlowResults,
    targets: Vec<Target>,
    direction: Direction,
    spanner: &SourceMap,
) -> (spans: Vec<Vec<Span>>)
    requires
        results.wf(),
        spanner.wf(),
    ensures
        spans@.len() == targets@.len(),
        forall|i: int|
            0 <= i < targets@.len() ==> is_merge_of(
                (#[trigger] spans@[i])@,
                projected(
                    spanner,
                    dependencies_of(results, direction, targets@[i]).0,
                    dependencies_of(results, direction, targets@[i]).1,
                ),
            ),
{
    let ghost wanted = targets@;
    let deps = compute_dependencies(results, targets, direction);
    let mut spans: Vec<Vec<Span>> = Vec::new();
    let mut i: usize = 0;
    while i < deps.len()
        invariant
            i <= deps@.len(),
            spanner.wf(),
            is_dependencies(results, wanted, direction, output_views(deps@)),
            spans@.len() == i,
            forall|j: int|
                0 <= j < i ==> is_merge_of(
                    (#[trigger] spans@[j])@,
                    projected(
                        spanner,
                        dependencies_of(results, direction, wanted[j]).0,
                        dependencies_of(results, direction, wanted[j]).1,
                    ),
                ),
        decreases deps@.len() - i,
    {
        let merged = project_spans(spanner, &deps[i]);
        proof {
            assert(output_views(deps@)[i as int] == dependencies_of(
                results,
                direction,
                wanted[i as int],
            ));
        }
        spans.push(merged);
        i += 1;
    }
    spans
}

/// Whatever the direction, the output of a target holds every location that the
/// target stands for; among them its own location, where the alias model knows it.
pub proof fn lemma_self_inclusion(results: &FlowResults, direction: Direction, target: Target)
    requires
        results.wf(),
    ensures
        expanded_target(results, target).subset_of(dependencies_of(results, direction, target).1),
        target.0.0 < results.aliases.reachable@.len() ==> dependencies_of(
            results,
            direction,
            target,
        ).1.contains(target.0),
{
    if target.0.0 < results.aliases.reachable@.len() {
        assert(results.aliases.reachable_from(target.0).contains(target.0));
    }
}

/// A query in both directions finds what the forward query finds and what the
/// backward query finds, for the same results and the same target, and nothing else.
pub proof fn lemma_both_is_forward_and_backward(results: &FlowResults, target: Target)
    ensures
        dependencies_of(results, Direction::Both, target).0 == dependencies_of(
            results,
            Direction::Forward,
            target,
        ).0.union(dependencies_of(results, Direction::Backward, target).0),
        dependencies_of(results, Direction::Both, target).1 == dependencies_of(
            results,
            Direction::Forward,
            target,
        ).1.union(dependencies_of(results, Direction::Backward, target).1),
{
    let both = dependencies_of(results, Direction::Both, target);
    let forward = dependencies_of(results, Direction::Forward, target);
    let backward = dependencies_of(results, Direction::Backward, target);
    lemma_direction_is_within_both(results, Direction::Forward, target);
    lemma_direction_is_within_both(results, Direction::Backward, target);
    let deps = target_dependencies(results, target);
    assert forall|point: ProgramPoint| both.0.contains(point) implies forward.0.contains(point)
        || backward.0.contains(point) by {
        let state = results.state_after(point);
        let to_check = results.candidates(point);
        let l = choose|l: MemoryLocation|
            #[trigger] location_matches(Direction::Both, deps, state, to_check, l) && is_event(
                deps,
                state,
                results.is_switch(point),
                l,
                point,
            );
        if Direction::Forward.matches(state.row_of(l), deps) {
            assert(location_matches(Direction::Forward, deps, state, to_check, l));
        } else {
            assert(location_matches(Direction::Backward, deps, state, to_check, l));
        }
    }
    assert forall|location: MemoryLocation| both.1.contains(location) implies forward.1.contains(
        location,
    ) || backward.1.contains(location) by {
        if !seed(results, target).1.contains(location) && !(results.enters() && location_matches(
            Direction::Both,
            deps,
            results.entry_state,
            results.entry_candidates(),
            location,
        )) {
            let p = choose|p: ProgramPoint|
                results.visited_points().contains(p) && #[trigger] location_matches(
                    Direction::Both,
                    deps,
                    results.state_after(p),
                    results.candidates(p),
                    location,
                );
            let state = results.state_after(p);
            if Direction::Forward.matches(state.row_of(location), deps) {
                assert(location_matches(
                    Direction::Forward,
                    deps,
                    state,
                    results.candidates(p),
                    location,
                ));
            } else {
                assert(location_matches(
                    Direction::Backward,
                    deps,
                    state,
                    results.candidates(p),
                    location,
                ));
            }
        }
    }
    assert(both.0 =~= forward.0.union(backward.0));
    assert(both.1 =~= forward.1.union(backward.1));
}

/// A query in both directions finds whatever the query in one direction finds, for
/// the same results and the same target.
pub proof fn lemma_direction_is_within_both(
    results: &FlowResults,
    direction: Direction,
    target: Target,
)
    ensures
        dependencies_of(results, direction, target).0.subset_of(
            dependencies_of(results, Direction::Both, target).0,
        ),
        dependencies_of(results, direction, target).1.subset_of(
            dependencies_of(results, Direction::Both, target).1,
        ),
{
    let deps = target_dependencies(results, target);
    let one = dependencies_of(results, direction, target);
    let both = dependencies_of(results, Direction::Both, target);
    assert forall|point: ProgramPoint| one.0.contains(point) implies both.0.contains(point) by {
        let state = results.state_after(point);
        let l = choose|l: MemoryLocation|
            #[trigger] location_matches(direction, deps, state, results.candidates(point), l)
                && is_event(deps, state, results.is_switch(point), l, point);
        assert(location_matches(Direction::Both, deps, state, results.candidates(point), l));
    }
    assert forall|location: MemoryLocation| one.1.contains(location) implies both.1.contains(
        location,
    ) by {
        if !seed(results, target).1.contains(location) && !(results.enters() && location_matches(
            direction,
            deps,
            results.entry_state,
            results.entry_candidates(),
            location,
        )) {
            let p = choose|p: ProgramPoint|
                results.visited_points().contains(p) && #[trigger] location_matches(
                    direction,
                    deps,
                    results.state_after(p),
                    results.candidates(p),
                    location,
                );
            assert(location_matches(
                Direction::Both,
                deps,
                results.state_after(p),
                results.candidates(p),
                location,
            ));
        }
    }
}

/// Whether `grown` is `results` with further blocks added to the routine, none of
/// them reachable: the blocks and the states of `results` stand first in `grown`,
/// and all else is the same.
pub open spec fn grows(grown: &FlowResults, results: &FlowResults) -> bool {
    &&& results.routine.blocks@.is_prefix_of(grown.routine.blocks@)
    &&& results.states@.is_prefix_of(grown.states@)
    &&& grown.routine.reachable@ == results.routine.reachable@
    &&& grown.routine.arguments@ == results.routine.arguments@
    &&& grown.routine.location_count == results.routine.location_count
    &&& grown.aliases == results.aliases
    &&& grown.entry_state == results.entry_state
}

/// Adding unreachable blocks to the routine changes no output: the traversal never
/// visits their program points.
pub proof fn lemma_unreachable_blocks_change_nothing(
    grown: &FlowResults,
    results: &FlowResults,
    direction: Direction,
    target: Target,
)
    requires
        results.wf(),
        grows(grown, results),
    ensures
        dependencies_of(grown, direction, target) == dependencies_of(results, direction, target),
{
    assert forall|point: ProgramPoint| grown.visits(point) == results.visits(point) by {
        lemma_same_visit(grown, results, point);
    }
    assert forall|point: ProgramPoint| #[trigger]
        results.visits(point) implies grown.state_after(point) == results.state_after(point)
        && grown.candidates(point) == results.candidates(point) && grown.is_switch(point)
        == results.is_switch(point) by {
        lemma_same_visit(grown, results, point);
    }
    assert(grown.visited_points() =~= results.visited_points());
    assert(grown.entry_candidates() == results.entry_candidates());
    assert(grown.enters() == results.enters());
    let deps = target_dependencies(results, target);
    assert(target_dependencies(grown, target) =~= deps) by {
        assert forall|p: ProgramPoint, l: MemoryLocation|
            grown.row_at(p, l) == results.row_at(p, l) by {
            lemma_same_visit(grown, results, p);
        }
    }
    let before = seed(results, target);
    assert(seed(grown, target) == before);
    let a = dependencies_of(grown, direction, target);
    let b = dependencies_of(results, direction, target);
    assert(a.0 =~= b.0);
    assert forall|l: MemoryLocation| a.1.contains(l) == b.1.contains(l) by {
        if a.1.contains(l) && !before.1.contains(l) && !(results.enters() && location_matches(
            direction,
            deps,
            results.entry_state,
            results.entry_candidates(),
            l,
        )) {
            let p = choose|p: ProgramPoint|
                grown.visited_points().contains(p) && #[trigger] location_matches(
                    direction,
                    deps,
                    grown.state_after(p),
                    grown.candidates(p),
                    l,
                );
            assert(results.visits(p));
            assert(location_matches(
                direction,
                deps,
                results.state_after(p),
                results.candidates(p),
                l,
            ));
        }
        if b.1.contains(l) && !before.1.contains(l) && !(results.enters() && location_matches(
            direction,
            deps,
            results.entry_state,
            results.entry_candidates(),
            l,
        )) {
            let p = choose|p: ProgramPoint|
                results.visited_points().contains(p) && #[trigger] location_matches(
                    direction,
                    deps,
                    results.state_after(p),
                    results.candidates(p),
                    l,
                );
            assert(results.visits(p));
            assert(location_matches(
                direction,
                deps,
                grown.state_after(p),
                grown.candidates(p),
                l,
            ));
        }
    }
    assert(a.1 =~= b.1);
}

/// The traversal visits the same program points of a grown routine, and finds the
/// same there.
proof fn lemma_same_visit(grown: &FlowResults, results: &FlowResults, point: ProgramPoint)
    requires
        results.wf(),
        grows(grown, results),
    ensures
        grown.visits(point) == results.visits(point),
        results.visits(point) ==> grown.state_after(point) == results.state_after(point)
            && grown.candidates(point) == results.candidates(point) && grown.is_switch(point)
            == results.is_switch(point),
{
    let reachable = results.routine.reachable@;
    if results.routine.reaches(point.block) {
        let k = choose|k: int|
            0 <= k < reachable.len() && k < reachable.len() && #[trigger] reachable[k]
                == point.block;
        assert(results.has_states(reachable[k]));
        let block = point.block as int;
        assert(grown.routine.blocks@[block] == results.routine.blocks@[block]);
        assert(grown.states@[block] == results.states@[block]);
    }
}

/// The outputs of a query are determined by its inputs: two runs on the same results,
/// targets and direction yield the same outputs.
pub proof fn lemma_results_coincide(
    results: &FlowResults,
    targets: Seq<Target>,
    direction: Direction,
    first: Seq<OutputView>,
    second: Seq<OutputView>,
)
    requires
        is_dependencies(results, targets, direction, first),
        is_dependencies(results, targets, direction, second),
    ensures
        first == second,
{
    assert(first =~= second);
}

} // verus!

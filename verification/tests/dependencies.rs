use infoflow::analysis::FlowResults;
use infoflow::dependencies::{expand_target, get_deps};
use infoflow::program::{
    AliasModel, Block, DependencySet, FlowState, LocationSet, MemoryLocation, ProgramPoint,
    Routine, Statement, Terminator,
};
use infoflow::sets::VecSet;
use infoflow::{compute_dependencies, Direction};

const X: MemoryLocation = MemoryLocation(0);
const Y: MemoryLocation = MemoryLocation(1);
const Z: MemoryLocation = MemoryLocation(2);
const W: MemoryLocation = MemoryLocation(3);

/// The point that stands for the definition of the argument.
const ARG: (usize, usize) = (usize::MAX, 0);

fn at(block: usize, index: usize) -> ProgramPoint {
    ProgramPoint { block, index }
}

fn memory(ids: &[usize]) -> LocationSet {
    let keys: Vec<MemoryLocation> = ids.iter().map(|id| MemoryLocation(*id)).collect();
    VecSet::from_vec(&keys)
}

fn memory_ids(set: &LocationSet) -> Vec<usize> {
    let mut ids: Vec<usize> = set.elements().iter().map(|l| l.0).collect();
    ids.sort();
    ids
}

fn events(pairs: &[(usize, usize)]) -> DependencySet {
    let keys: Vec<ProgramPoint> = pairs.iter().map(|(block, index)| at(*block, *index)).collect();
    VecSet::from_vec(&keys)
}

fn event_pairs(set: &DependencySet) -> Vec<(usize, usize)> {
    let mut pairs: Vec<(usize, usize)> =
        set.elements().iter().map(|p| (p.block, p.index)).collect();
    pairs.sort();
    pairs
}

fn state(rows: &[&[(usize, usize)]]) -> FlowState {
    FlowState { rows: rows.iter().map(|row| events(row)).collect() }
}

fn assign(target: MemoryLocation) -> Statement {
    Statement { mutated: vec![target] }
}

fn jump() -> Terminator {
    Terminator::Other { mutated: vec![] }
}

fn identity_aliases(count: usize) -> AliasModel {
    AliasModel {
        conflicts: (0..count).map(|i| memory(&[i])).collect(),
        reachable: (0..count).map(|i| memory(&[i])).collect(),
    }
}

/// `y := x; switch y { z := 1 | z := 2 }; w := z; return`, and a block that nothing
/// reaches.
fn diamond() -> FlowResults {
    let x: &[(usize, usize)] = &[ARG];
    let y: &[(usize, usize)] = &[ARG, (0, 0)];
    let z_left: &[(usize, usize)] = &[ARG, (0, 0), (0, 1), (1, 0)];
    let z_right: &[(usize, usize)] = &[ARG, (0, 0), (0, 1), (2, 0)];
    let z_both: &[(usize, usize)] = &[ARG, (0, 0), (0, 1), (1, 0), (2, 0)];
    let w: &[(usize, usize)] = &[ARG, (0, 0), (0, 1), (1, 0), (2, 0), (3, 0)];
    FlowResults {
        routine: Routine {
            blocks: vec![
                Block { statements: vec![assign(Y)], terminator: Terminator::Switch },
                Block { statements: vec![assign(Z)], terminator: jump() },
                Block { statements: vec![assign(Z)], terminator: jump() },
                Block { statements: vec![assign(W)], terminator: jump() },
                Block { statements: vec![assign(W)], terminator: jump() },
            ],
            reachable: vec![0, 1, 2, 3],
            arguments: vec![X],
            location_count: 4,
        },
        aliases: identity_aliases(4),
        entry_state: state(&[x]),
        states: vec![
            vec![state(&[x, y]), state(&[x, y])],
            vec![state(&[x, y, z_left]), state(&[x, y, z_left])],
            vec![state(&[x, y, z_right]), state(&[x, y, z_right])],
            vec![state(&[x, y, z_both, w]), state(&[x, y, z_both, w])],
        ],
    }
}

/// A single block: argument `a`, the statement `b := a`, and a return.
fn copy_routine(entry_row_of_a: &[(usize, usize)], row_of_b: &[(usize, usize)]) -> FlowResults {
    FlowResults {
        routine: Routine {
            blocks: vec![Block { statements: vec![assign(MemoryLocation(1))], terminator: jump() }],
            reachable: vec![0],
            arguments: vec![MemoryLocation(0)],
            location_count: 2,
        },
        aliases: identity_aliases(2),
        entry_state: state(&[entry_row_of_a]),
        states: vec![vec![
            state(&[entry_row_of_a, row_of_b]),
            state(&[entry_row_of_a, row_of_b]),
        ]],
    }
}

#[test]
fn backward_from_a_copy_finds_the_statement() {
    let results = copy_routine(&[], &[(0, 0)]);
    assert!(results.is_wf());
    let target = (MemoryLocation(1), at(0, 0));
    let outputs = compute_dependencies(&results, vec![target], Direction::Backward);
    assert_eq!(outputs.len(), 1);
    assert_eq!(event_pairs(&outputs[0].0), vec![(0, 0)]);
    assert!(outputs[0].1.contains(MemoryLocation(1)));
}

#[test]
fn argument_with_an_empty_row_is_not_tested_on_entry() {
    let results = copy_routine(&[], &[(0, 0)]);
    let target = (MemoryLocation(1), at(0, 0));
    let outputs = compute_dependencies(&results, vec![target], Direction::Backward);
    assert_eq!(memory_ids(&outputs[0].1), vec![1]);
}

#[test]
fn argument_that_explains_the_target_is_found_on_entry() {
    let results = copy_routine(&[ARG], &[ARG, (0, 0)]);
    assert!(results.is_wf());
    let target = (MemoryLocation(1), at(0, 0));
    let outputs = compute_dependencies(&results, vec![target], Direction::Backward);
    assert_eq!(event_pairs(&outputs[0].0), vec![(0, 0)]);
    assert_eq!(memory_ids(&outputs[0].1), vec![0, 1]);
}

#[test]
fn switch_that_the_target_depends_on_is_found() {
    let scrutinee: &[(usize, usize)] = &[(0, 0)];
    let written: &[(usize, usize)] = &[(0, 0), (0, 1), (1, 0)];
    let results = FlowResults {
        routine: Routine {
            blocks: vec![
                Block {
                    statements: vec![assign(MemoryLocation(0))],
                    terminator: Terminator::Switch,
                },
                Block { statements: vec![assign(MemoryLocation(1))], terminator: jump() },
            ],
            reachable: vec![0, 1],
            arguments: vec![],
            location_count: 2,
        },
        aliases: identity_aliases(2),
        entry_state: state(&[]),
        states: vec![
            vec![state(&[scrutinee]), state(&[scrutinee])],
            vec![state(&[scrutinee, written]), state(&[scrutinee, written])],
        ],
    };
    assert!(results.is_wf());
    let target = (MemoryLocation(1), at(1, 0));
    let outputs = compute_dependencies(&results, vec![target], Direction::Backward);
    assert!(outputs[0].0.contains(at(0, 1)));
    assert_eq!(event_pairs(&outputs[0].0), vec![(0, 0), (0, 1), (1, 0)]);
    assert_eq!(memory_ids(&outputs[0].1), vec![0, 1]);
}

#[test]
fn backward_through_the_diamond() {
    let results = diamond();
    assert!(results.is_wf());
    let outputs = compute_dependencies(&results, vec![(W, at(3, 0))], Direction::Backward);
    assert_eq!(outputs.len(), 1);
    assert_eq!(event_pairs(&outputs[0].0), vec![(0, 0), (0, 1), (1, 0), (2, 0), (3, 0)]);
    assert_eq!(memory_ids(&outputs[0].1), vec![0, 1, 2, 3]);
}

#[test]
fn forward_through_the_diamond() {
    let results = diamond();
    let outputs = compute_dependencies(&results, vec![(Y, at(0, 0))], Direction::Forward);
    assert_eq!(event_pairs(&outputs[0].0), vec![(0, 0), (1, 0), (2, 0), (3, 0)]);
    assert_eq!(memory_ids(&outputs[0].1), vec![1, 2, 3]);
}

#[test]
fn backward_from_the_middle_of_the_diamond() {
    let results = diamond();
    let outputs = compute_dependencies(&results, vec![(Z, at(1, 0))], Direction::Backward);
    assert_eq!(event_pairs(&outputs[0].0), vec![(0, 0), (0, 1), (1, 0)]);
    assert_eq!(memory_ids(&outputs[0].1), vec![0, 1, 2]);
}

#[test]
fn both_directions_from_the_middle_of_the_diamond() {
    let results = diamond();
    let outputs = compute_dependencies(&results, vec![(Z, at(1, 0))], Direction::Both);
    assert_eq!(event_pairs(&outputs[0].0), vec![(0, 0), (0, 1), (1, 0), (3, 0)]);
    assert_eq!(memory_ids(&outputs[0].1), vec![0, 1, 2, 3]);
}

#[test]
fn outputs_are_aligned_with_the_targets() {
    let results = diamond();
    let targets = vec![(Y, at(0, 0)), (W, at(3, 0)), (Y, at(0, 0))];
    let outputs = compute_dependencies(&results, targets, Direction::Backward);
    assert_eq!(outputs.len(), 3);
    assert_eq!(event_pairs(&outputs[0].0), vec![(0, 0)]);
    assert_eq!(memory_ids(&outputs[0].1), vec![0, 1]);
    assert_eq!(event_pairs(&outputs[1].0), vec![(0, 0), (0, 1), (1, 0), (2, 0), (3, 0)]);
    assert_eq!(memory_ids(&outputs[1].1), vec![0, 1, 2, 3]);
    assert_eq!(event_pairs(&outputs[2].0), vec![(0, 0)]);
    assert_eq!(memory_ids(&outputs[2].1), vec![0, 1]);
}

#[test]
fn no_targets_give_no_outputs() {
    let results = diamond();
    assert!(compute_dependencies(&results, vec![], Direction::Both).is_empty());
}

#[test]
fn output_holds_the_expanded_target_in_every_direction() {
    let mut results = diamond();
    results.aliases.reachable[3] = memory(&[3, 1]);
    assert!(results.is_wf());
    for direction in [Direction::Forward, Direction::Backward, Direction::Both] {
        let outputs =
            compute_dependencies(&results, vec![(W, at(3, 1)), (X, at(9, 9))], direction);
        assert!(outputs[0].1.contains(W));
        assert!(outputs[0].1.contains(Y));
        assert!(outputs[1].1.contains(X));
    }
}

#[test]
fn both_finds_what_either_direction_finds() {
    let results = diamond();
    let targets = vec![(X, at(0, 0)), (Y, at(0, 0)), (Z, at(1, 0)), (Z, at(2, 1)), (W, at(3, 0))];
    let forward = compute_dependencies(&results, targets.clone(), Direction::Forward);
    let backward = compute_dependencies(&results, targets.clone(), Direction::Backward);
    let both = compute_dependencies(&results, targets, Direction::Both);
    for i in 0..both.len() {
        assert!(both[i].0.is_superset(&forward[i].0));
        assert!(both[i].1.is_superset(&forward[i].1));
        assert!(both[i].0.is_superset(&backward[i].0));
        assert!(both[i].1.is_superset(&backward[i].1));
        let mut points = forward[i].0.clone();
        points.union(&backward[i].0);
        assert_eq!(event_pairs(&both[i].0), event_pairs(&points));
        let mut locations = forward[i].1.clone();
        locations.union(&backward[i].1);
        assert_eq!(memory_ids(&both[i].1), memory_ids(&locations));
    }
}

#[test]
fn unreachable_block_changes_no_output() {
    let grown = diamond();
    let mut results = diamond();
    results.routine.blocks.pop();
    assert!(results.is_wf());
    assert!(grown.is_wf());
    let targets = vec![(Y, at(0, 0)), (Z, at(2, 0)), (W, at(3, 0)), (W, at(4, 0))];
    for direction in [Direction::Forward, Direction::Backward, Direction::Both] {
        let before = compute_dependencies(&results, targets.clone(), direction);
        let after = compute_dependencies(&grown, targets.clone(), direction);
        assert_eq!(before.len(), after.len());
        for i in 0..before.len() {
            assert_eq!(event_pairs(&before[i].0), event_pairs(&after[i].0));
            assert_eq!(memory_ids(&before[i].1), memory_ids(&after[i].1));
        }
    }
}

#[test]
fn states_of_an_unreachable_block_are_not_read() {
    let mut grown = diamond();
    let w: &[(usize, usize)] = &[(4, 0)];
    grown.states.push(vec![state(&[&[], &[], &[], w]), state(&[&[], &[], &[], w])]);
    assert!(grown.is_wf());
    let outputs = compute_dependencies(&grown, vec![(W, at(4, 0))], Direction::Forward);
    assert_eq!(event_pairs(&outputs[0].0), vec![(0, 0), (1, 0), (2, 0), (3, 0)]);
    assert_eq!(memory_ids(&outputs[0].1), vec![0, 1, 2, 3]);
    let outputs = compute_dependencies(&grown, vec![(W, at(4, 0))], Direction::Backward);
    assert!(outputs[0].0.is_empty());
    assert_eq!(memory_ids(&outputs[0].1), vec![3]);
}

#[test]
fn two_runs_give_the_same_outputs() {
    let results = diamond();
    let targets = vec![(Z, at(1, 0)), (W, at(3, 0))];
    let first = compute_dependencies(&results, targets.clone(), Direction::Both);
    let second = compute_dependencies(&results, targets, Direction::Both);
    assert_eq!(first.len(), second.len());
    for i in 0..first.len() {
        assert_eq!(first[i].0.elements(), second[i].0.elements());
        assert_eq!(first[i].1.elements(), second[i].1.elements());
    }
}

#[test]
fn target_at_an_unreachable_point_has_no_dependencies() {
    let results = diamond();
    let outputs = compute_dependencies(&results, vec![(W, at(4, 0))], Direction::Backward);
    assert!(outputs[0].0.is_empty());
    assert_eq!(memory_ids(&outputs[0].1), vec![3]);
}

#[test]
fn target_at_an_unknown_location_degrades_to_nothing() {
    let results = diamond();
    let outputs =
        compute_dependencies(&results, vec![(MemoryLocation(99), at(3, 0))], Direction::Backward);
    assert!(outputs[0].0.is_empty());
    assert!(outputs[0].1.is_empty());
}

#[test]
fn target_without_dependencies_matches_every_written_location_forward() {
    let results = diamond();
    let outputs = compute_dependencies(&results, vec![(W, at(0, 0))], Direction::Forward);
    assert_eq!(event_pairs(&outputs[0].0), vec![(0, 0), (1, 0), (2, 0), (3, 0)]);
    assert_eq!(memory_ids(&outputs[0].1), vec![0, 1, 2, 3]);
}

#[test]
fn routine_without_reachable_blocks_gives_the_seeds() {
    let mut results = diamond();
    results.routine.reachable.clear();
    assert!(results.is_wf());
    let outputs = compute_dependencies(&results, vec![(W, at(3, 0))], Direction::Both);
    assert!(outputs[0].0.is_empty());
    assert_eq!(memory_ids(&outputs[0].1), vec![3]);
}

#[test]
fn conflicting_locations_are_tested_with_the_mutated_one() {
    let mut results = diamond();
    results.aliases.conflicts[3] = memory(&[3, 2]);
    assert!(results.is_wf());
    let outputs = compute_dependencies(&results, vec![(Z, at(1, 0))], Direction::Forward);
    assert_eq!(event_pairs(&outputs[0].0), vec![(1, 0), (3, 0)]);
    assert_eq!(memory_ids(&outputs[0].1), vec![2, 3]);
}

#[test]
fn expansion_keeps_the_point() {
    let mut results = diamond();
    results.aliases.reachable[1] = memory(&[1, 2]);
    let expanded = expand_target(&results, &(Y, at(3, 0)));
    assert_eq!(memory_ids(&expanded.0), vec![1, 2]);
    assert_eq!(expanded.1, at(3, 0));
    let unknown = expand_target(&results, &(MemoryLocation(50), at(0, 0)));
    assert!(unknown.0.is_empty());
}

#[test]
fn target_dependencies_are_the_union_of_the_rows() {
    let results = diamond();
    let deps = get_deps(&results, &memory(&[0, 1]), at(3, 0));
    assert_eq!(event_pairs(&deps), vec![(0, 0), ARG]);
    let deps = get_deps(&results, &memory(&[3, 2]), at(3, 1));
    assert_eq!(event_pairs(&deps), vec![(0, 0), (0, 1), (1, 0), (2, 0), (3, 0), ARG]);
    assert!(get_deps(&results, &memory(&[]), at(3, 0)).is_empty());
    assert!(get_deps(&results, &memory(&[3]), at(0, 0)).is_empty());
    assert!(get_deps(&results, &memory(&[3]), at(3, 2)).is_empty());
    assert!(get_deps(&results, &memory(&[3]), at(4, 0)).is_empty());
}

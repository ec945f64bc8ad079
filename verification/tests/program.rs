use infoflow::analysis::FlowResults;
use infoflow::program::{
    AliasModel, Block, DependencySet, FlowState, LocationSet, MemoryLocation, ProgramPoint,
    Routine, Statement, Terminator, ENTRY_BLOCK,
};
use infoflow::sets::VecSet;

fn places(ids: &[usize]) -> LocationSet {
    let keys: Vec<MemoryLocation> = ids.iter().map(|id| MemoryLocation(*id)).collect();
    VecSet::from_vec(&keys)
}

fn place_ids(set: &LocationSet) -> Vec<usize> {
    let mut ids: Vec<usize> = set.elements().iter().map(|l| l.0).collect();
    ids.sort();
    ids
}

fn deps(pairs: &[(usize, usize)]) -> DependencySet {
    let keys: Vec<ProgramPoint> =
        pairs.iter().map(|(block, index)| ProgramPoint { block: *block, index: *index }).collect();
    VecSet::from_vec(&keys)
}

fn dep_pairs(set: &DependencySet) -> Vec<(usize, usize)> {
    let mut pairs: Vec<(usize, usize)> =
        set.elements().iter().map(|p| (p.block, p.index)).collect();
    pairs.sort();
    pairs
}

fn one_block_results() -> FlowResults {
    FlowResults {
        routine: Routine {
            blocks: vec![Block {
                statements: vec![Statement { mutated: vec![MemoryLocation(0)] }],
                terminator: Terminator::Switch,
            }],
            reachable: vec![0],
            arguments: vec![],
            location_count: 1,
        },
        aliases: AliasModel { conflicts: vec![places(&[0])], reachable: vec![places(&[0])] },
        entry_state: FlowState { rows: vec![] },
        states: vec![vec![
            FlowState { rows: vec![deps(&[(0, 0)])] },
            FlowState { rows: vec![deps(&[(0, 0), (0, 1)])] },
        ]],
    }
}

#[test]
fn entry_block_is_the_first() {
    assert_eq!(ENTRY_BLOCK, 0);
}

#[test]
fn row_of_a_location_without_a_row_is_empty() {
    let state = FlowState { rows: vec![deps(&[(0, 0)]), deps(&[])] };
    assert_eq!(dep_pairs(&state.row(MemoryLocation(0))), vec![(0, 0)]);
    assert!(state.row(MemoryLocation(1)).is_empty());
    assert!(state.row(MemoryLocation(2)).is_empty());
    assert!(state.row(MemoryLocation(usize::MAX)).is_empty());
}

#[test]
fn alias_lookups_read_the_tables() {
    let aliases = AliasModel {
        conflicts: vec![places(&[0, 1]), places(&[1, 0])],
        reachable: vec![places(&[0]), places(&[1, 2]), places(&[2])],
    };
    assert_eq!(place_ids(&aliases.conflicts(MemoryLocation(0))), vec![0, 1]);
    assert_eq!(place_ids(&aliases.reachable_values(MemoryLocation(1))), vec![1, 2]);
    assert!(aliases.conflicts(MemoryLocation(2)).is_empty());
    assert!(aliases.reachable_values(MemoryLocation(3)).is_empty());
}

#[test]
fn alias_model_must_be_reflexive() {
    let good = AliasModel {
        conflicts: vec![places(&[0, 1]), places(&[1])],
        reachable: vec![places(&[0]), places(&[0, 1])],
    };
    assert!(good.is_wf());
    let conflicts_omit = AliasModel {
        conflicts: vec![places(&[0]), places(&[0])],
        reachable: vec![places(&[0]), places(&[1])],
    };
    assert!(!conflicts_omit.is_wf());
    let reachable_omit = AliasModel {
        conflicts: vec![places(&[0]), places(&[1])],
        reachable: vec![places(&[]), places(&[1])],
    };
    assert!(!reachable_omit.is_wf());
    let empty = AliasModel { conflicts: vec![], reachable: vec![] };
    assert!(empty.is_wf());
}

#[test]
fn conflict_closure_is_the_union_of_the_conflict_sets() {
    let aliases = AliasModel {
        conflicts: vec![places(&[0, 2]), places(&[1]), places(&[2, 0, 3]), places(&[3, 2])],
        reachable: vec![],
    };
    let none: Vec<MemoryLocation> = vec![];
    assert!(aliases.conflicts_of_all(&none).is_empty());
    assert_eq!(place_ids(&aliases.conflicts_of_all(&vec![MemoryLocation(1)])), vec![1]);
    assert_eq!(
        place_ids(&aliases.conflicts_of_all(&vec![MemoryLocation(0), MemoryLocation(3)])),
        vec![0, 2, 3]
    );
    assert_eq!(
        place_ids(&aliases.conflicts_of_all(&vec![MemoryLocation(9), MemoryLocation(1)])),
        vec![1]
    );
}

#[test]
fn reachable_blocks_are_those_listed() {
    let routine = Routine {
        blocks: vec![],
        reachable: vec![0, 2],
        arguments: vec![],
        location_count: 0,
    };
    assert!(routine.is_reachable(0));
    assert!(!routine.is_reachable(1));
    assert!(routine.is_reachable(2));
    assert!(!routine.is_reachable(3));
}

#[test]
fn all_locations_are_those_below_the_count() {
    let routine = Routine {
        blocks: vec![],
        reachable: vec![],
        arguments: vec![],
        location_count: 4,
    };
    assert_eq!(place_ids(&routine.all_locations()), vec![0, 1, 2, 3]);
    let none = Routine { blocks: vec![], reachable: vec![], arguments: vec![], location_count: 0 };
    assert!(none.all_locations().is_empty());
}

#[test]
fn results_with_a_state_for_each_point_are_well_formed() {
    assert!(one_block_results().is_wf());
}

#[test]
fn results_need_a_state_after_each_statement_and_terminator() {
    let mut results = one_block_results();
    results.states[0].pop();
    assert!(!results.is_wf());
    let mut results = one_block_results();
    results.states[0].push(FlowState { rows: vec![] });
    assert!(!results.is_wf());
    let mut results = one_block_results();
    results.states.clear();
    assert!(!results.is_wf());
}

#[test]
fn results_need_every_reachable_block_to_exist() {
    let mut results = one_block_results();
    results.routine.reachable.push(1);
    assert!(!results.is_wf());
}

#[test]
fn results_need_a_well_formed_alias_model() {
    let mut results = one_block_results();
    results.aliases.conflicts[0] = places(&[]);
    assert!(!results.is_wf());
}

#[test]
fn unreachable_blocks_need_no_states() {
    let mut results = one_block_results();
    results.routine.blocks.push(Block { statements: vec![], terminator: Terminator::Switch });
    assert!(results.is_wf());
}

#[test]
fn state_at_knows_the_visited_points_only() {
    let mut results = one_block_results();
    results.routine.blocks.push(Block { statements: vec![], terminator: Terminator::Switch });
    results.states.push(vec![FlowState { rows: vec![deps(&[(1, 0)])] }]);
    assert!(results.is_wf());
    let after_statement = results.state_at(ProgramPoint { block: 0, index: 0 });
    assert_eq!(dep_pairs(&after_statement.unwrap().row(MemoryLocation(0))), vec![(0, 0)]);
    let after_terminator = results.state_at(ProgramPoint { block: 0, index: 1 });
    assert_eq!(
        dep_pairs(&after_terminator.unwrap().row(MemoryLocation(0))),
        vec![(0, 0), (0, 1)]
    );
    assert!(results.state_at(ProgramPoint { block: 0, index: 2 }).is_none());
    assert!(results.state_at(ProgramPoint { block: 1, index: 0 }).is_none());
    assert!(results.state_at(ProgramPoint { block: 7, index: 0 }).is_none());
}

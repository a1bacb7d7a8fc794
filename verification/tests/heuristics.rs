use planner::costs::{h_add, h_max};
use planner::domain::{ClassicalDomain, Facts, PrimitiveAction};
use planner::ff::h_ff;
use planner::graphplan::GraphPlan;
use planner::lmcut::{h_lmcut, h_lmcut_full, h_lmcut_incremental};
use std::collections::HashSet;

fn generate_domain() -> ClassicalDomain {
    let p1 = PrimitiveAction::new(
        "p1".to_string(),
        1,
        HashSet::from([0]),
        vec![HashSet::from([1])],
        vec![HashSet::from([3])],
    );
    let p2 = PrimitiveAction::new(
        "p2".to_string(),
        1,
        HashSet::from([1]),
        vec![HashSet::from([2])],
        vec![HashSet::new()],
    );
    let p3 = PrimitiveAction::new(
        "p3".to_string(),
        1,
        HashSet::from([1]),
        vec![HashSet::from([3])],
        vec![HashSet::new()],
    );
    let p4 = PrimitiveAction::new(
        "p4".to_string(),
        1,
        HashSet::from([1, 2, 3]),
        vec![HashSet::from([4])],
        vec![HashSet::new()],
    );
    let facts = Facts::new(vec![
        "0".to_owned(),
        "1".to_owned(),
        "2".to_owned(),
        "3".to_owned(),
        "4".to_owned(),
    ]);
    let actions = vec![p1, p2, p3, p4];
    ClassicalDomain::new(facts, actions)
}

#[test]
fn graph_correctness_test() {
    let domain = generate_domain();
    let graphplan =
        GraphPlan::build_graph(&domain, &HashSet::from([0]), &HashSet::from([4])).unwrap();
    let (actions, facts) = (graphplan.actions.clone(), graphplan.facts.clone());
    for action_id in 0..actions.len() {
        assert_eq!(actions.contains_key(&(action_id as usize)), true)
    }
    for fact_id in 0..facts.len() {
        assert_eq!(facts.contains_key(&(fact_id as u32)), true)
    }
    assert_eq!(*actions.get(&0).unwrap(), 1);
    assert_eq!(*actions.get(&1).unwrap(), 3);
    assert_eq!(*actions.get(&2).unwrap(), 3);
    assert_eq!(*actions.get(&3).unwrap(), 5);
    assert_eq!(*facts.get(&0).unwrap(), 0);
    assert_eq!(*facts.get(&1).unwrap(), 2);
    assert_eq!(*facts.get(&2).unwrap(), 4);
    assert_eq!(*facts.get(&3).unwrap(), 4);
    assert_eq!(*facts.get(&4).unwrap(), 6);
    assert_eq!(graphplan.depth, 6);
    assert_eq!(graphplan.get_action_layer(1), HashSet::from([0]));
    assert_eq!(graphplan.get_action_layer(3), HashSet::from([1, 2]));
    assert_eq!(graphplan.get_action_layer(5), HashSet::from([3]));
}

#[test]
fn termination_test() {
    let mut domain = generate_domain();
    domain.actions[3].add_effects = vec![];
    let graphplan = GraphPlan::build_graph(&domain, &HashSet::from([0]), &HashSet::from([4]));
    assert_eq!(graphplan.is_none(), true);
}

#[test]
fn h_val_test() {
    let domain = generate_domain();
    let h = h_ff(&domain, &HashSet::from([0]), &HashSet::from([4]));
    assert_eq!(h, Some(4));
}

fn chain_domain() -> ClassicalDomain {
    let facts = Facts::new(["0", "1", "2", "3", "4"].iter().map(|s| s.to_string()).collect());
    let mk = |pre: HashSet<u32>, add: HashSet<u32>| -> PrimitiveAction {
        PrimitiveAction::new("".into(), 1, pre, vec![add], vec![HashSet::new()])
    };
    ClassicalDomain::new(
        facts,
        vec![
            mk(HashSet::from([0]), HashSet::from([1])),
            mk(HashSet::from([1]), HashSet::from([2])),
            mk(HashSet::from([1]), HashSet::from([3])),
            mk(HashSet::from([1, 2, 3]), HashSet::from([4])),
        ],
    )
}

#[test]
fn goal_already_satisfied() {
    let d = chain_domain();
    assert_eq!(h_lmcut(&d, &HashSet::from([4u32]), &HashSet::from([4u32])), Some(0));
}

#[test]
fn unreachable_returns_infinity() {
    let d = chain_domain();
    assert_eq!(h_lmcut(&d, &HashSet::from([0u32]), &HashSet::from([99u32])), None);
}

#[test]
fn single_step() {
    let d = chain_domain();
    assert_eq!(h_lmcut(&d, &HashSet::from([0u32]), &HashSet::from([1u32])), Some(1));
}

#[test]
fn four_action_chain_gives_three() {
    let d = chain_domain();
    assert_eq!(h_lmcut(&d, &HashSet::from([0u32]), &HashSet::from([4u32])), Some(3));
}

#[test]
fn admissible_not_greater_than_hadd() {
    let d = chain_domain();
    let s = HashSet::from([0u32]);
    let g = HashSet::from([4u32]);
    let cut = h_lmcut(&d, &s, &g).unwrap();
    let add = h_add(&d, &s, &g).unwrap();
    assert!(cut <= add);
}

#[test]
fn full_returns_same_value_as_standard() {
    let d = chain_domain();
    let s = HashSet::from([0u32]);
    let g = HashSet::from([4u32]);
    let (val, cuts) = h_lmcut_full(&d, &s, &g);
    assert_eq!(val, Some(3));
    assert_eq!(cuts.len(), 3); // three landmark cuts found
}

#[test]
fn incremental_with_no_carried_matches_full() {
    let d = chain_domain();
    let s = HashSet::from([0u32]);
    let g = HashSet::from([4u32]);
    let (v_full, _) = h_lmcut_full(&d, &s, &g);
    // exclude_action = 99 (nonexistent) → no filtering → should equal full
    let (v_inc, _) = h_lmcut_incremental(&d, &s, &g, &[] as &[(Vec<usize>, u32)], 99);
    assert_eq!(v_full, v_inc);
}

#[test]
fn incremental_with_carried_cuts_admissible() {
    let d = chain_domain();
    let s = HashSet::from([0u32]);
    let g = HashSet::from([4u32]);
    let (v_full, cuts) = h_lmcut_full(&d, &s, &g);
    // Carry all cuts with a non-existent exclude_action → should reproduce full value
    let (v_inc, _) = h_lmcut_incremental(&d, &s, &g, &cuts, 99);
    assert_eq!(v_full, v_inc);
}

#[test]
fn costs_of_the_chain() {
    let d = chain_domain();
    let s = HashSet::from([0u32]);
    let g = HashSet::from([4u32]);
    // h_add: 1 -> 1, 2 and 3 -> 2, 4 -> 1 + (1 + 2 + 2)
    assert_eq!(h_add(&d, &s, &g), Some(6));
    assert_eq!(h_max(&d, &s, &g), Some(3));
    assert_eq!(h_add(&d, &s, &HashSet::from([99u32])), None);
    assert_eq!(h_max(&d, &s, &HashSet::from([99u32])), None);
}

use planner::andstar::{run, run_fond, SearchResult};
use planner::composition::{HeuristicType, RelaxedComposition};
use planner::domain::{Facts, PrimitiveAction};
use planner::lower_bound::delta_nearest_f_value;
use planner::policy::{
    compute_reach_sig, NodeKind, PartialPolicyState, ReachNode, SearchMode, TiebreakerKind,
};
use planner::probability::ONE;
use planner::problem::FONDProblem;
use planner::progress::{progress, result_state, ConnectionLabel};
use planner::proper::{is_reach_proper, is_reach_strong};
use planner::reach::{compute_reach, Assignment};
use planner::signature::{canonicalize_tn, make_key};
use planner::task_network::{CompoundTask, DomainTasks, Method, Task, HTN};
use std::cmp::Ordering;
use std::collections::{BTreeSet, HashMap, HashSet};
use std::rc::Rc;

fn set(facts: &[u32]) -> HashSet<u32> {
    facts.iter().copied().collect()
}

fn primitive(name: &str, pre: &[u32], outcomes: &[(&[u32], &[u32], u64)]) -> Task {
    Task::Primitive(PrimitiveAction::new_with_probabilities(
        name.to_string(),
        1,
        set(pre),
        outcomes.iter().map(|o| set(o.0)).collect(),
        outcomes.iter().map(|o| set(o.1)).collect(),
        outcomes.iter().map(|o| o.2).collect(),
    ))
}

fn compound(name: &str) -> Task {
    Task::Compound(CompoundTask { name: name.to_string(), methods: vec![] })
}

fn network(
    domain: &Rc<DomainTasks>,
    nodes: &[(usize, usize)],
    orderings: &[(usize, usize)],
) -> HTN {
    HTN::new(
        nodes.iter().map(|n| n.0).collect::<BTreeSet<usize>>(),
        orderings.to_vec(),
        domain.clone(),
        nodes.iter().copied().collect::<HashMap<usize, usize>>(),
    )
}

fn problem(facts: usize, domain: &Rc<DomainTasks>, start: &[u32], tn: HTN, rho: u64) -> FONDProblem {
    FONDProblem {
        facts: Facts::new((0..facts).map(|i| format!("f{}", i)).collect()),
        tasks: domain.clone(),
        initial_state: set(start),
        init_tn: tn,
        rho,
    }
}

/// The task `go` (2) is done by `try` (0), which succeeds in one of four cases,
/// or by `walk` (1) twice. `arrive` (3) needs the fact that these add.
fn journey() -> Rc<DomainTasks> {
    let domain = Rc::new(DomainTasks::new(vec![
        primitive("try", &[], &[(&[0], &[], ONE / 4), (&[], &[], ONE - ONE / 4)]),
        primitive("walk", &[], &[(&[0], &[], ONE)]),
        compound("go"),
        primitive("arrive", &[0], &[(&[], &[], ONE)]),
    ]));
    let by_try = Method::new("by try".to_string(), network(&domain, &[(0, 0)], &[]));
    let by_walk =
        Method::new("by walk".to_string(), network(&domain, &[(0, 1), (1, 1)], &[(0, 1)]));
    domain.add_methods(vec![(2, by_try), (2, by_walk)])
}

fn journey_problem(rho: u64) -> FONDProblem {
    let domain = journey();
    let tn = network(&domain, &[(0, 2), (1, 3)], &[(0, 1)]);
    problem(1, &domain, &[], tn, rho)
}

#[test]
fn networks_know_their_nodes_by_position() {
    let domain = journey();
    let tn = network(&domain, &[(7, 2), (3, 0), (9, 3)], &[(3, 7), (7, 9)]);
    assert_eq!(tn.nodes, vec![3, 7, 9]);
    assert_eq!(tn.tasks, vec![0, 2, 3]);
    assert_eq!(tn.order, vec![(0, 1), (1, 2)]);
    assert!(tn.is_unconstrained(0));
    assert!(!tn.is_unconstrained(1));
    assert!(!tn.is_empty());
}

#[test]
fn nodes_are_taken_out() {
    let domain = journey();
    let tn = network(&domain, &[(0, 0), (1, 2), (2, 3)], &[(0, 1), (1, 2)]);
    let rest = tn.without_node(0);
    assert_eq!(rest.tasks, vec![2, 3]);
    assert_eq!(rest.order, vec![(0, 1)]);
    assert!(rest.is_unconstrained(0));
    assert!(rest.without_node(0).without_node(0).is_empty());
}

#[test]
fn decomposition_hands_the_order_on() {
    let domain = journey();
    let tn = network(&domain, &[(0, 0), (1, 2), (2, 3)], &[(0, 1), (1, 2)]);
    let sub = network(&domain, &[(0, 1), (1, 1)], &[(0, 1)]);
    let next = tn.decompose(1, &sub);
    // try, arrive, walk, walk
    assert_eq!(next.tasks, vec![0, 3, 1, 1]);
    let order: HashSet<(usize, usize)> = next.order.iter().copied().collect();
    assert_eq!(order, HashSet::from([(0, 2), (0, 3), (2, 1), (3, 1), (2, 3)]));
}

#[test]
fn decomposition_keeps_identifiers() {
    let domain = journey();
    let tn = network(&domain, &[(3, 0), (7, 2), (9, 3)], &[(3, 7)]);
    let sub = network(&domain, &[(0, 1), (1, 1)], &[]);
    assert_eq!(tn.decompose(1, &sub).nodes, vec![3, 9, 10, 11]);
    assert_eq!(tn.decompose(2, &sub).nodes, vec![3, 7, 10, 11]);
    // where the identifiers run out, the nodes are numbered anew
    let tn = network(&domain, &[(3, 0), (usize::MAX - 1, 2)], &[]);
    assert_eq!(tn.decompose(1, &sub).nodes, vec![0, 1, 2]);
    assert_eq!(tn.decompose(1, &network(&domain, &[(0, 1)], &[])).nodes, vec![3, usize::MAX]);
}

#[test]
fn empty_decomposition_keeps_the_order_around_it() {
    let domain = journey();
    let tn = network(&domain, &[(0, 0), (1, 2), (2, 3)], &[(0, 1), (1, 2)]);
    let next = tn.decompose(1, &network(&domain, &[], &[]));
    assert_eq!(next.tasks, vec![0, 3]);
    assert_eq!(next.order, vec![(0, 1)]);
}

#[test]
fn methods_are_added_to_their_tasks() {
    let domain = journey();
    assert_eq!(domain.tasks.len(), 4);
    match &*domain.tasks[2] {
        Task::Compound(task) => {
            let names: Vec<&str> = task.methods.iter().map(|m| m.name.as_str()).collect();
            assert_eq!(names, vec!["by try", "by walk"]);
        }
        Task::Primitive(_) => panic!("Expected a compound task"),
    }
}

#[test]
fn states_after_an_outcome() {
    let next = result_state(&set(&[1, 2]), &set(&[2, 3]), &set(&[3, 4]));
    assert_eq!(next, set(&[1, 3, 4]));
}

#[test]
fn steps_list_actions_before_decompositions() {
    let domain = journey();
    let tn = Rc::new(network(&domain, &[(0, 2), (1, 1), (2, 3)], &[]));
    let steps = progress(&tn, &Rc::new(set(&[])));
    let labels: Vec<String> = steps
        .iter()
        .map(|s| match &s.connection_label {
            ConnectionLabel::Execution(a) => a.clone(),
            ConnectionLabel::Decomposition(t, m) => format!("{} {}", t, m),
        })
        .collect();
    // "arrive" waits for its precondition
    assert_eq!(labels, vec!["walk", "go by try", "go by walk"]);
    assert!(!steps[0].connection_label.is_decomposition());
    assert!(steps[1].connection_label.is_decomposition());
    assert_eq!(*steps[0].states[0], set(&[0]));
    assert_eq!(steps[0].tn.tasks, vec![2, 3]);
    assert_eq!(steps[1].outcome_probabilities, vec![ONE]);
    assert_eq!(steps[2].tn.tasks, vec![1, 3, 1, 1]);
}

#[test]
fn steps_keep_the_identifiers_of_what_is_left() {
    let domain = journey();
    let tn = Rc::new(network(&domain, &[(3, 0), (7, 2)], &[]));
    let steps = progress(&tn, &Rc::new(set(&[])));
    let nodes: Vec<Vec<usize>> = steps.iter().map(|s| s.tn.nodes.clone()).collect();
    assert_eq!(nodes, vec![vec![7], vec![3, 8], vec![3, 8, 9]]);
}

#[test]
fn no_step_is_a_dead_end() {
    let domain = journey();
    let tn = Rc::new(network(&domain, &[(0, 3)], &[]));
    assert!(progress(&tn, &Rc::new(set(&[]))).is_empty());
    assert_eq!(progress(&tn, &Rc::new(set(&[0]))).len(), 1);
}

#[test]
fn keys_do_not_depend_on_identifiers() {
    let domain = journey();
    let a = network(&domain, &[(0, 2), (1, 3)], &[(0, 1)]);
    let b = network(&domain, &[(5, 2), (8, 3)], &[(5, 8)]);
    let c = network(&domain, &[(5, 2), (8, 3)], &[]);
    assert_eq!(canonicalize_tn(&a), (vec![(0, 2), (1, 3)], vec![(0, 1)]));
    assert_eq!(canonicalize_tn(&a), canonicalize_tn(&b));
    assert!(make_key(&a, &set(&[1, 2])).same(&make_key(&b, &set(&[2, 1]))));
    assert!(!make_key(&a, &set(&[1])).same(&make_key(&a, &set(&[2]))));
    assert!(!make_key(&b, &set(&[1])).same(&make_key(&c, &set(&[1]))));
}

#[test]
fn collapsing_makes_one_task() {
    let mut p = journey_problem(0);
    p.collapse_tn();
    assert_eq!(p.tasks.tasks.len(), 5);
    assert_eq!(p.init_tn.tasks, vec![4]);
    match &*p.tasks.tasks[4] {
        Task::Compound(task) => {
            assert_eq!(task.methods.len(), 1);
            assert_eq!(task.methods[0].decomposition.tasks, vec![2, 3]);
        }
        Task::Primitive(_) => panic!("Expected a compound task"),
    }
}

fn initial_reach(
    p: &FONDProblem,
    assignments: &[Assignment],
    mode: SearchMode,
) -> (Vec<ReachNode>, Vec<usize>) {
    let relaxed = RelaxedComposition::new(p);
    let (reach, keys, out_c) = compute_reach(
        Rc::new(p.init_tn.duplicate()),
        Rc::new(p.initial_state.clone()),
        assignments,
        &relaxed,
        HeuristicType::HMax,
        mode,
    );
    assert_eq!(keys.len(), reach.len());
    (reach, out_c)
}

fn assign(p: &FONDProblem, method: &str) -> Assignment {
    Assignment {
        key: make_key(&p.init_tn, &p.initial_state),
        task_name: "go".to_string(),
        method_name: method.to_string(),
    }
}

fn kinds(reach: &[ReachNode]) -> Vec<NodeKind> {
    reach.iter().map(|n| n.kind).collect()
}

#[test]
fn unassigned_policy_waits_at_the_start() {
    let p = journey_problem(0);
    let (reach, out_c) = initial_reach(&p, &[], SearchMode::MaxProb);
    assert!(kinds(&reach) == vec![NodeKind::Compound]);
    assert_eq!(out_c, vec![0]);
    assert_eq!(reach[0].prob_upper, ONE);
    assert_eq!(reach[0].cost_lower, Some(0));
    assert_eq!(PartialPolicyState::compute_f_by_vi(&reach), ONE);
    let (reach, _) = initial_reach(&p, &[], SearchMode::MinCost);
    assert_eq!(reach[0].cost_lower, Some(1));
    assert_eq!(delta_nearest_f_value(&reach, &[0], 0), -1);
}

#[test]
fn assigned_policy_follows_its_method() {
    let p = journey_problem(0);
    let (reach, out_c) = initial_reach(&p, &[assign(&p, "by try")], SearchMode::MaxProb);
    assert!(out_c.is_empty());
    // go, try, arrive with the fact, arrive without it, done
    assert!(
        kinds(&reach)
            == vec![
                NodeKind::Assigned,
                NodeKind::Primitive,
                NodeKind::Primitive,
                NodeKind::Dead,
                NodeKind::Goal
            ]
    );
    assert_eq!(reach[0].successors, vec![(1, ONE)]);
    assert_eq!(reach[1].successors, vec![(2, ONE / 4), (3, ONE - ONE / 4)]);
    assert_eq!(reach[2].successors, vec![(4, ONE)]);
    assert_eq!(PartialPolicyState::compute_f_by_vi(&reach), ONE / 4);
    assert!(!is_reach_proper(&reach));
}

#[test]
fn graph_without_dead_ends_is_proper() {
    let p = journey_problem(0);
    let (reach, out_c) = initial_reach(&p, &[assign(&p, "by walk")], SearchMode::MaxProb);
    assert!(out_c.is_empty());
    assert!(reach.iter().all(|n| n.kind != NodeKind::Dead));
    assert!(reach.iter().all(|n| n.tn.is_empty() || !n.successors.is_empty()));
    assert!(is_reach_proper(&reach));
    assert_eq!(PartialPolicyState::compute_f_by_vi(&reach), ONE);
}

#[test]
fn unknown_methods_are_dead_ends() {
    let p = journey_problem(0);
    let (reach, out_c) = initial_reach(&p, &[assign(&p, "by ship")], SearchMode::MaxProb);
    assert!(kinds(&reach) == vec![NodeKind::Dead]);
    assert!(out_c.is_empty());
    assert_eq!(PartialPolicyState::compute_f_by_vi(&reach), 0);
}

#[test]
fn first_assignment_of_a_place_counts() {
    let p = journey_problem(0);
    let both = [assign(&p, "by walk"), assign(&p, "by try")];
    let (reach, _) = initial_reach(&p, &both, SearchMode::MaxProb);
    assert_eq!(PartialPolicyState::compute_f_by_vi(&reach), ONE);
}

#[test]
fn heuristics_give_nothing_for_what_cannot_be_done() {
    let domain = Rc::new(DomainTasks::new(vec![
        primitive("stuck", &[1], &[(&[], &[], ONE)]),
        primitive("free", &[0], &[(&[], &[], ONE)]),
        compound("whole"),
    ]));
    let m = Method::new("m".to_string(), network(&domain, &[(0, 0), (1, 1)], &[]));
    let domain = domain.add_methods(vec![(2, m)]);
    let tn = network(&domain, &[(0, 2)], &[]);
    let p = problem(2, &domain, &[0], tn, 0);
    let relaxed = RelaxedComposition::new(&p);
    for h in [HeuristicType::HAdd, HeuristicType::HMax, HeuristicType::HFF, HeuristicType::HProb] {
        assert_eq!(relaxed.h_val(&p.init_tn, &set(&[0]), h), None);
        // and neither for what follows
        let next = p.init_tn.decompose(0, &network(&domain, &[(0, 0), (1, 1)], &[]));
        assert_eq!(relaxed.h_val(&next, &set(&[0]), h), None);
        assert_eq!(relaxed.h_val(&next.without_node(1), &set(&[0]), h), None);
        assert!(relaxed.h_val(&p.init_tn, &set(&[0, 1]), h).is_some());
        assert_eq!(relaxed.h_val(&network(&domain, &[], &[]), &set(&[]), h), Some(0));
    }
    let (result, stats) = run(&p, HeuristicType::HMax, TiebreakerKind::Combined);
    match result {
        SearchResult::Success(policy) => assert_eq!(policy.success_probability, 0),
        SearchResult::NoSolution => panic!("Every policy reaches the threshold"),
    }
    assert_eq!(stats.rho_threshold, 0);
    let (result, _) = run_fond(&p, HeuristicType::HMax, TiebreakerKind::Combined);
    assert!(matches!(result, SearchResult::NoSolution));
}

#[test]
fn dearest_chain_counts_decompositions() {
    // "top" is "mid" twice, "mid" is an action
    let domain = Rc::new(DomainTasks::new(vec![
        primitive("a", &[], &[(&[], &[], ONE)]),
        compound("mid"),
        compound("top"),
    ]));
    let m = Method::new("m".to_string(), network(&domain, &[(0, 0)], &[]));
    let t = Method::new("t".to_string(), network(&domain, &[(0, 1), (1, 1)], &[]));
    let domain = domain.add_methods(vec![(1, m), (2, t)]);
    let p = problem(1, &domain, &[], network(&domain, &[(0, 2)], &[]), 0);
    let relaxed = RelaxedComposition::new(&p);
    let h = relaxed.h_val(&p.init_tn, &set(&[]), HeuristicType::HMax).unwrap();
    assert_eq!(h, 2);
    // top and each of the two "mid" take a decomposition; one method per place
    let (result, _) = run_fond(&p, HeuristicType::HMax, TiebreakerKind::Combined);
    match result {
        SearchResult::Success(policy) => {
            assert_eq!(policy.transitions.len(), 3);
            assert!(h as usize <= policy.transitions.len());
        }
        SearchResult::NoSolution => panic!("Expected a policy"),
    }
}

#[test]
fn most_probable_policy_is_found() {
    for tiebreaker in [
        TiebreakerKind::NoTiebreak,
        TiebreakerKind::PolicySize,
        TiebreakerKind::ClosureFirst,
        TiebreakerKind::Combined,
    ] {
        for h in
            [HeuristicType::HAdd, HeuristicType::HMax, HeuristicType::HFF, HeuristicType::HProb]
        {
            let p = journey_problem(ONE / 2);
            let (result, stats) = run(&p, h, tiebreaker);
            match result {
                SearchResult::Success(policy) => {
                    assert_eq!(policy.success_probability, ONE);
                    assert_eq!(policy.makespan, 1);
                    let (node, output) = &policy.transitions[0];
                    assert_eq!(output.task, "go");
                    assert_eq!(output.method, "by walk");
                    assert_eq!(node.tn.tasks, vec![2, 3]);
                    assert!(node.state.is_empty());
                    assert_eq!(stats.success_probability, Some(ONE));
                }
                SearchResult::NoSolution => panic!("Expected a policy"),
            }
            assert_eq!(stats.rho_threshold, ONE / 2);
            assert_eq!(stats.max_depth, 0);
            assert_eq!(stats.search_nodes, stats.explored_nodes);
        }
    }
}

#[test]
fn strong_policy_is_found() {
    let p = journey_problem(0);
    let (result, stats) = run_fond(&p, HeuristicType::HAdd, TiebreakerKind::Combined);
    match result {
        SearchResult::Success(policy) => {
            assert_eq!(policy.success_probability, ONE);
            assert_eq!(policy.transitions[0].1.method, "by walk");
        }
        SearchResult::NoSolution => panic!("Expected a policy"),
    }
    assert_eq!(stats.success_probability, Some(ONE));
}

#[test]
fn policies_name_the_facts_in_order() {
    let domain = journey();
    let tn = network(&domain, &[(0, 2)], &[]);
    let p = problem(3, &domain, &[2, 0], tn, 0);
    let (result, _) = run(&p, HeuristicType::HMax, TiebreakerKind::Combined);
    match result {
        SearchResult::Success(policy) => {
            assert_eq!(policy.transitions[0].0.state, vec!["f0", "f2"]);
        }
        SearchResult::NoSolution => panic!("Expected a policy"),
    }
}

#[test]
fn nothing_to_do_needs_no_assignment() {
    let domain = journey();
    let p = problem(1, &domain, &[], network(&domain, &[], &[]), ONE);
    for result in [
        run(&p, HeuristicType::HAdd, TiebreakerKind::Combined).0,
        run_fond(&p, HeuristicType::HAdd, TiebreakerKind::Combined).0,
    ] {
        match result {
            SearchResult::Success(policy) => {
                assert_eq!(policy.success_probability, ONE);
                assert_eq!(policy.makespan, 0);
                assert!(policy.transitions.is_empty());
            }
            SearchResult::NoSolution => panic!("Expected the empty policy"),
        }
    }
}

fn node(kind: NodeKind, prob_upper: u64, cost: Option<u32>, edges: Vec<(usize, u64)>) -> ReachNode {
    let domain = journey();
    ReachNode {
        tn: Rc::new(network(&domain, &[(0, 2)], &[])),
        state: Rc::new(set(&[])),
        kind,
        prob_upper,
        cost_lower: cost,
        successors: edges,
    }
}

#[test]
fn values_of_a_loop_settle() {
    // half of the time the goal, otherwise once more
    let reach = vec![
        node(NodeKind::Primitive, ONE, Some(0), vec![(1, ONE / 2), (0, ONE / 2)]),
        node(NodeKind::Goal, ONE, Some(0), vec![]),
    ];
    let f = PartialPolicyState::compute_f_by_vi(&reach);
    assert!(f <= ONE);
    assert!(ONE - f < 10_000_000);
}

#[test]
fn trapped_loop_is_worth_nothing() {
    let reach = vec![
        node(NodeKind::Assigned, ONE, Some(0), vec![(1, ONE)]),
        node(NodeKind::Assigned, ONE, Some(0), vec![(0, ONE)]),
    ];
    assert_eq!(PartialPolicyState::compute_f_by_vi(&reach), 0);
    // no dead end is reached, but no goal either
    assert!(is_reach_proper(&reach));
    assert!(!is_reach_strong(&reach));
}

#[test]
fn goals_stay_in_reach() {
    // a loop that is left half of the time
    let reach = vec![
        node(NodeKind::Primitive, ONE, Some(0), vec![(1, ONE / 2), (0, ONE / 2)]),
        node(NodeKind::Goal, ONE, Some(0), vec![]),
    ];
    assert!(is_reach_strong(&reach));
    // never
    let reach = vec![
        node(NodeKind::Primitive, ONE, Some(0), vec![(1, 0), (0, ONE)]),
        node(NodeKind::Goal, ONE, Some(0), vec![]),
    ];
    assert!(!is_reach_strong(&reach));
    // a trap on one side
    let reach = vec![
        node(NodeKind::Primitive, ONE, Some(0), vec![(1, ONE / 2), (2, ONE / 2)]),
        node(NodeKind::Goal, ONE, Some(0), vec![]),
        node(NodeKind::Assigned, ONE, Some(0), vec![(2, ONE)]),
    ];
    assert!(!is_reach_strong(&reach));
    // a trap that is not reached
    let reach = vec![
        node(NodeKind::Goal, ONE, Some(0), vec![]),
        node(NodeKind::Assigned, ONE, Some(0), vec![(1, ONE)]),
    ];
    assert!(is_reach_strong(&reach));
    // a dead end
    assert!(!is_reach_strong(&[node(NodeKind::Dead, 0, Some(0), vec![])]));
}

#[test]
fn trapped_policies_are_no_strong_ones() {
    let domain = Rc::new(DomainTasks::new(vec![
        primitive("act", &[], &[(&[], &[], ONE)]),
        compound("wait"),
    ]));
    let again = Method::new("again".to_string(), network(&domain, &[(0, 1)], &[]));
    let leave = Method::new("leave".to_string(), network(&domain, &[(0, 0)], &[]));
    let trap = domain.add_methods(vec![(1, again)]);
    let p = problem(1, &trap, &[], network(&trap, &[(0, 1)], &[]), 0);
    for h in [HeuristicType::HAdd, HeuristicType::HMax, HeuristicType::HFF, HeuristicType::HProb] {
        let (result, _) = run_fond(&p, h, TiebreakerKind::Combined);
        assert!(matches!(result, SearchResult::NoSolution));
    }
    let again = Method::new("again".to_string(), network(&domain, &[(0, 1)], &[]));
    let exit = domain.add_methods(vec![(1, again), (1, leave)]);
    let p = problem(1, &exit, &[], network(&exit, &[(0, 1)], &[]), 0);
    for h in [HeuristicType::HAdd, HeuristicType::HMax, HeuristicType::HFF, HeuristicType::HProb] {
        let (result, _) = run_fond(&p, h, TiebreakerKind::Combined);
        match result {
            SearchResult::Success(policy) => {
                assert_eq!(policy.transitions.len(), 1);
                assert_eq!(policy.transitions[0].1.method, "leave");
            }
            SearchResult::NoSolution => panic!("Expected a policy"),
        }
    }
}

#[test]
fn loops_that_can_be_left_are_strong() {
    // flip until the coin shows heads
    let domain = Rc::new(DomainTasks::new(vec![
        primitive("flip", &[], &[(&[0], &[], ONE / 2), (&[], &[], ONE / 2)]),
        primitive("gate", &[0], &[(&[], &[], ONE)]),
        compound("toss"),
        compound("check"),
    ]));
    let m = Method::new("m".to_string(), network(&domain, &[(0, 0), (1, 3)], &[(0, 1)]));
    let stop = Method::new("stop".to_string(), network(&domain, &[(0, 1)], &[]));
    let again = Method::new("again".to_string(), network(&domain, &[(0, 2)], &[]));
    let domain = domain.add_methods(vec![(2, m), (3, stop), (3, again)]);
    let p = problem(1, &domain, &[], network(&domain, &[(0, 2)], &[]), 0);
    for h in [HeuristicType::HAdd, HeuristicType::HMax, HeuristicType::HFF, HeuristicType::HProb] {
        let (result, _) = run_fond(&p, h, TiebreakerKind::Combined);
        match result {
            SearchResult::Success(policy) => {
                assert_eq!(policy.success_probability, ONE);
                assert_eq!(policy.transitions.len(), 3);
            }
            SearchResult::NoSolution => panic!("Expected a policy"),
        }
    }
}

#[test]
fn shortest_strong_policy_is_found() {
    // the first method takes three assignments, the second two
    let domain = Rc::new(DomainTasks::new(vec![
        primitive("act", &[], &[(&[], &[], ONE)]),
        compound("top"),
        compound("a"),
        compound("b"),
    ]));
    let far = Method::new("far".to_string(), network(&domain, &[(0, 2)], &[]));
    let near = Method::new("near".to_string(), network(&domain, &[(0, 3)], &[]));
    let a = Method::new("a to b".to_string(), network(&domain, &[(0, 3)], &[]));
    let b = Method::new("b".to_string(), network(&domain, &[(0, 0)], &[]));
    let domain = domain.add_methods(vec![(1, far), (1, near), (2, a), (3, b)]);
    let p = problem(1, &domain, &[], network(&domain, &[(0, 1)], &[]), ONE);
    for tiebreaker in [
        TiebreakerKind::NoTiebreak,
        TiebreakerKind::PolicySize,
        TiebreakerKind::ClosureFirst,
        TiebreakerKind::Combined,
    ] {
        for h in
            [HeuristicType::HAdd, HeuristicType::HMax, HeuristicType::HFF, HeuristicType::HProb]
        {
            let (result, stats) = run_fond(&p, h, tiebreaker);
            match result {
                SearchResult::Success(policy) => {
                    assert_eq!(policy.transitions.len(), 2);
                    assert_eq!(policy.transitions[1].1.method, "near");
                }
                SearchResult::NoSolution => panic!("Expected a policy"),
            }
            assert!(stats.explored_nodes > 0);
        }
    }
}

/// The task `go` is done by `low` or by `high`, which lead to the same two
/// places, the one more often to the worse, the other to the better.
fn crossroads() -> FONDProblem {
    let domain = Rc::new(DomainTasks::new(vec![
        primitive("low", &[], &[(&[0], &[], ONE / 10), (&[1], &[], ONE - ONE / 10)]),
        primitive("high", &[], &[(&[0], &[], ONE - ONE / 10), (&[1], &[], ONE / 10)]),
        primitive("sure", &[0], &[(&[], &[], ONE)]),
        primitive("risky", &[1], &[(&[2], &[], ONE / 2), (&[], &[], ONE / 2)]),
        primitive("gate", &[2], &[(&[], &[], ONE)]),
        compound("go"),
        compound("on"),
    ]));
    let low = Method::new("low".to_string(), network(&domain, &[(0, 0)], &[]));
    let high = Method::new("high".to_string(), network(&domain, &[(0, 1)], &[]));
    let sure = Method::new("sure".to_string(), network(&domain, &[(0, 2)], &[]));
    let risky = Method::new("risky".to_string(), network(&domain, &[(0, 3), (1, 4)], &[(0, 1)]));
    let domain = domain.add_methods(vec![(5, low), (5, high), (6, sure), (6, risky)]);
    let tn = network(&domain, &[(0, 5), (1, 6)], &[(0, 1)]);
    problem(3, &domain, &[], tn, 0)
}

#[test]
fn policies_that_wait_at_the_same_places_are_told_apart() {
    let p = crossroads();
    for h in [HeuristicType::HAdd, HeuristicType::HMax, HeuristicType::HFF, HeuristicType::HProb] {
        for tiebreaker in [TiebreakerKind::NoTiebreak, TiebreakerKind::Combined] {
            let (result, _) = run(&p, h, tiebreaker);
            match result {
                SearchResult::Success(policy) => {
                    // 0.9 + 0.1 * 0.5
                    assert_eq!(policy.success_probability, ONE - ONE / 20);
                    assert_eq!(policy.transitions[2].1.method, "high");
                }
                SearchResult::NoSolution => panic!("Expected a policy"),
            }
        }
    }
}

#[test]
fn interchangeable_methods_count_as_one() {
    let domain = Rc::new(DomainTasks::new(vec![
        primitive("act", &[], &[(&[], &[], ONE / 2), (&[0], &[], ONE / 2)]),
        primitive("gate", &[0], &[(&[], &[], ONE)]),
        compound("top"),
        compound("rest"),
    ]));
    let one = Method::new("one".to_string(), network(&domain, &[(0, 0), (1, 3)], &[(0, 1)]));
    let two = Method::new("two".to_string(), network(&domain, &[(4, 0), (7, 3)], &[(4, 7)]));
    let rest = Method::new("rest".to_string(), network(&domain, &[(0, 1)], &[]));
    let both = domain.add_methods(vec![(2, one), (2, two), (3, rest)]);
    let p = problem(1, &both, &[], network(&both, &[(0, 2)], &[]), 0);
    let (result, stats) = run(&p, HeuristicType::HAdd, TiebreakerKind::NoTiebreak);
    match result {
        SearchResult::Success(policy) => {
            assert_eq!(policy.success_probability, ONE / 2);
            assert_eq!(policy.transitions.last().unwrap().1.method, "one");
        }
        SearchResult::NoSolution => panic!("Expected a policy"),
    }
    let one = Method::new("one".to_string(), network(&domain, &[(0, 0), (1, 3)], &[(0, 1)]));
    let rest = Method::new("rest".to_string(), network(&domain, &[(0, 1)], &[]));
    let single = domain.add_methods(vec![(2, one), (3, rest)]);
    let p = problem(1, &single, &[], network(&single, &[(0, 2)], &[]), 0);
    let (_, alone) = run(&p, HeuristicType::HAdd, TiebreakerKind::NoTiebreak);
    assert_eq!(stats.explored_nodes, alone.explored_nodes);
}

#[test]
fn empty_graph_is_certain() {
    assert_eq!(PartialPolicyState::compute_f_by_vi(&[]), ONE);
}

#[test]
fn open_nodes_are_worth_their_bound() {
    let reach = vec![
        node(NodeKind::Primitive, ONE, Some(0), vec![(1, ONE / 2), (2, ONE / 4), (3, ONE / 4)]),
        node(NodeKind::Compound, ONE, Some(3), vec![]),
        node(NodeKind::Compound, 0, None, vec![]),
        node(NodeKind::Dead, 0, Some(0), vec![]),
    ];
    assert_eq!(PartialPolicyState::compute_f_by_vi(&reach), ONE / 2);
    assert!(!is_reach_proper(&reach));
}

#[test]
fn unreachable_dead_ends_do_no_harm() {
    let reach = vec![
        node(NodeKind::Goal, ONE, Some(0), vec![]),
        node(NodeKind::Dead, 0, Some(0), vec![]),
    ];
    assert!(is_reach_proper(&reach));
}

#[test]
fn bounds_count_what_is_owed() {
    let reach = vec![
        node(NodeKind::Compound, ONE, Some(4), vec![]),
        node(NodeKind::Compound, ONE, Some(2), vec![]),
        node(NodeKind::Compound, 0, None, vec![]),
    ];
    // two assignments made, three owed, and one more for the nearest
    assert_eq!(delta_nearest_f_value(&reach, &[0, 1, 2], 2), -6);
    assert_eq!(delta_nearest_f_value(&reach, &[1, 0, 2], 2), -6);
    assert_eq!(delta_nearest_f_value(&reach, &[2], 2), -3);
    assert_eq!(delta_nearest_f_value(&reach, &[0], 0), -4);
    assert_eq!(delta_nearest_f_value(&reach, &[], 2), -2);
}

fn policy(f_value: i128, policy_size: usize, open: usize, tiebreaker: TiebreakerKind) -> PartialPolicyState {
    PartialPolicyState {
        reach: (0..open).map(|_| node(NodeKind::Compound, ONE, Some(0), vec![])).collect(),
        out_c: (0..open).collect(),
        policy_tail: None,
        f_value,
        policy_size,
        tiebreaker,
    }
}

#[test]
fn greater_values_go_first() {
    for kind in [
        TiebreakerKind::NoTiebreak,
        TiebreakerKind::PolicySize,
        TiebreakerKind::ClosureFirst,
        TiebreakerKind::Combined,
    ] {
        let low = policy(1, 9, 0, kind);
        let high = policy(2, 0, 9, kind);
        assert_eq!(high.priority(&low), Ordering::Greater);
        assert_eq!(low.priority(&high), Ordering::Less);
        assert_eq!(low.priority(&low), Ordering::Equal);
        assert!(low < high);
        assert!(low != high);
        assert_eq!(high.partial_cmp(&low), Some(Ordering::Greater));
    }
}

#[test]
fn ties_are_broken() {
    let of = |kind: TiebreakerKind, size: usize, open: usize| policy(1, size, open, kind);
    assert_eq!(of(TiebreakerKind::NoTiebreak, 1, 2).priority(&of(TiebreakerKind::NoTiebreak, 2, 1)), Ordering::Equal);
    assert!(of(TiebreakerKind::NoTiebreak, 1, 2) == of(TiebreakerKind::NoTiebreak, 2, 1));
    assert_eq!(of(TiebreakerKind::PolicySize, 1, 2).priority(&of(TiebreakerKind::PolicySize, 2, 1)), Ordering::Less);
    assert_eq!(of(TiebreakerKind::PolicySize, 1, 2).priority(&of(TiebreakerKind::PolicySize, 1, 1)), Ordering::Equal);
    assert_eq!(of(TiebreakerKind::ClosureFirst, 1, 2).priority(&of(TiebreakerKind::ClosureFirst, 2, 1)), Ordering::Less);
    assert_eq!(of(TiebreakerKind::ClosureFirst, 1, 1).priority(&of(TiebreakerKind::ClosureFirst, 2, 1)), Ordering::Equal);
    assert_eq!(of(TiebreakerKind::Combined, 2, 5).priority(&of(TiebreakerKind::Combined, 1, 1)), Ordering::Greater);
    assert_eq!(of(TiebreakerKind::Combined, 2, 5).priority(&of(TiebreakerKind::Combined, 2, 1)), Ordering::Less);
}

#[test]
fn closed_policies_wait_for_nothing() {
    assert!(policy(0, 0, 0, TiebreakerKind::Combined).is_closed());
    assert!(!policy(0, 0, 1, TiebreakerKind::Combined).is_closed());
}

#[test]
fn signatures_tell_policies_apart() {
    let one = policy(7, 1, 1, TiebreakerKind::Combined);
    let two = policy(7, 1, 2, TiebreakerKind::Combined);
    let none = policy(7, 1, 0, TiebreakerKind::Combined);
    // a node counts as often as it occurs
    assert!(!one.reach_sig().same(&two.reach_sig()));
    assert!(!one.reach_sig().same(&none.reach_sig()));
    assert!(two.reach_sig().same(&policy(7, 1, 2, TiebreakerKind::NoTiebreak).reach_sig()));
    // the size makes no difference
    assert!(one.reach_sig().same(&policy(7, 5, 1, TiebreakerKind::Combined).reach_sig()));
    let a = compute_reach_sig(&one.reach, 7);
    assert!(a.same(&one.reach_sig()));
    assert!(!a.same(&compute_reach_sig(&one.reach, 8)));
}

#[test]
fn signatures_do_not_depend_on_the_order_of_nodes() {
    let domain = journey();
    let at = |nodes: &[(usize, usize)], facts: &[u32]| ReachNode {
        tn: Rc::new(network(&domain, nodes, &[])),
        state: Rc::new(set(facts)),
        kind: NodeKind::Compound,
        prob_upper: ONE,
        cost_lower: Some(0),
        successors: vec![],
    };
    let here = [at(&[(0, 2)], &[0]), at(&[(0, 2)], &[]), at(&[(0, 2), (1, 3)], &[])];
    let there = [at(&[(5, 2), (6, 3)], &[]), at(&[(0, 2)], &[0]), at(&[(1, 2)], &[])];
    let a = compute_reach_sig(&here, 0);
    let b = compute_reach_sig(&there, 0);
    assert!(a.same(&b));
    // by the tasks first, by the facts last
    let facts: Vec<Vec<u32>> = a.compounds.iter().map(|c| c.state_facts.clone()).collect();
    assert_eq!(facts, vec![vec![], vec![0], vec![]]);
    let sizes: Vec<usize> = a.compounds.iter().map(|c| c.tn_mappings.len()).collect();
    assert_eq!(sizes, vec![1, 1, 2]);
    assert!(!a.same(&compute_reach_sig(&here[..2], 0)));
}

/// The task `again` (2) is done by `try` (0), which succeeds with the given
/// probability and after which it is to be done again, or by `finish` (1).
fn retries(chance: u64, rho: u64) -> FONDProblem {
    let domain = Rc::new(DomainTasks::new(vec![
        primitive("try", &[], &[(&[0], &[], chance), (&[], &[], ONE - chance)]),
        primitive("finish", &[0], &[(&[], &[], ONE)]),
        compound("again"),
    ]));
    let by_try = Method::new("try".to_string(), network(&domain, &[(0, 0), (1, 2)], &[(0, 1)]));
    let by_finish = Method::new("finish".to_string(), network(&domain, &[(0, 1)], &[]));
    let domain = domain.add_methods(vec![(2, by_try), (2, by_finish)]);
    let tn = network(&domain, &[(0, 2)], &[]);
    problem(1, &domain, &[], tn, rho)
}

#[test]
fn slow_loops_are_swept_to_the_end() {
    let p = retries(ONE / 50_000, 0);
    let tn = Rc::new(p.init_tn.duplicate());
    let state = Rc::new(set(&[]));
    let node = |kind: NodeKind, successors: Vec<(usize, u64)>| ReachNode {
        tn: tn.clone(),
        state: state.clone(),
        kind,
        prob_upper: ONE,
        cost_lower: Some(0),
        successors,
    };
    let chance = ONE / 50_000;
    let reach = vec![
        node(NodeKind::Primitive, vec![(0, ONE - chance), (1, chance)]),
        node(NodeKind::Goal, vec![]),
    ];
    let f = PartialPolicyState::compute_f_by_vi(&reach);
    // the last sweep adds less than a millionth of a millionth, so what is left
    // is less than 50000 times that
    assert!(f < ONE);
    assert!(f > ONE - 51_000 * 1_000_000);
    // a sweep that adds less is the only one
    let reach = vec![
        node(NodeKind::Primitive, vec![(0, ONE - 999_999), (1, 999_999)]),
        node(NodeKind::Goal, vec![]),
    ];
    assert_eq!(PartialPolicyState::compute_f_by_vi(&reach), 999_999);
}

#[test]
fn slow_loops_are_worth_what_they_come_to() {
    let p = retries(ONE / 50_000, ONE / 100 * 99);
    let (result, _) = run(&p, HeuristicType::HAdd, TiebreakerKind::Combined);
    match result {
        SearchResult::Success(policy) => {
            assert_eq!(policy.transitions.len(), 2);
            assert!(policy.success_probability > ONE - 51_000 * 1_000_000);
        }
        SearchResult::NoSolution => panic!("Expected a policy that tries again"),
    }
}

/// Ten stages, each of which is reached from the one before with one chance in
/// a hundred and may be tried again.
#[test]
fn unlikely_goals_are_reached_by_retries() {
    let n: u32 = 10;
    let mut tasks: Vec<Task> = vec![compound("stage"), primitive("finish", &[n - 1], &[(&[], &[], ONE)])];
    for i in 0..n {
        let pre: Vec<u32> = if i == 0 { vec![] } else { vec![i - 1] };
        tasks.push(primitive(
            "try",
            &pre,
            &[(&[i], &[], ONE / 100), (&[], &[], ONE - ONE / 100)],
        ));
    }
    let domain = Rc::new(DomainTasks::new(tasks));
    let mut methods =
        vec![(0, Method::new("finish".to_string(), network(&domain, &[(0, 1)], &[])))];
    for i in 0..n as usize {
        let m = network(&domain, &[(0, i + 2), (1, 0)], &[(0, 1)]);
        methods.push((0, Method::new(format!("try {}", i), m)));
    }
    let domain = domain.add_methods(methods);
    let tn = network(&domain, &[(0, 0)], &[]);
    let p = problem(n as usize, &domain, &[], tn, ONE / 10 * 9);
    let (result, _) = run(&p, HeuristicType::HProb, TiebreakerKind::PolicySize);
    match result {
        SearchResult::Success(policy) => {
            assert_eq!(policy.transitions.len(), 11);
            assert!(policy.success_probability > ONE / 100 * 99);
        }
        SearchResult::NoSolution => panic!("Expected a policy that tries again"),
    }
}

/// The tasks `first` (1) and `second` (2) are done by walking once or twice.
fn two_walks() -> FONDProblem {
    let domain = Rc::new(DomainTasks::new(vec![
        primitive("walk", &[], &[(&[0], &[], ONE)]),
        compound("first"),
        compound("second"),
    ]));
    let once = || network(&domain, &[(0, 0)], &[]);
    let twice = || network(&domain, &[(0, 0), (1, 0)], &[(0, 1)]);
    let next = domain.add_methods(vec![
        (1, Method::new("once".to_string(), once())),
        (1, Method::new("twice".to_string(), twice())),
        (2, Method::new("once".to_string(), once())),
        (2, Method::new("twice".to_string(), twice())),
    ]);
    let tn = network(&next, &[(3, 1), (7, 2)], &[(3, 7)]);
    problem(1, &next, &[], tn, ONE)
}

#[test]
fn tiebreakers_say_what_is_looked_at() {
    let p = two_walks();
    // the policy without assignments, both for the first task, and a closed one
    let (result, stats) = run(&p, HeuristicType::HAdd, TiebreakerKind::NoTiebreak);
    assert!(matches!(result, SearchResult::Success(_)));
    assert_eq!(stats.explored_nodes, 4);
    assert_eq!(stats.search_nodes, 4);
    // one of those for the first task
    for tiebreaker in
        [TiebreakerKind::PolicySize, TiebreakerKind::ClosureFirst, TiebreakerKind::Combined]
    {
        let (result, stats) = run(&p, HeuristicType::HAdd, tiebreaker);
        assert!(matches!(result, SearchResult::Success(_)));
        assert_eq!(stats.explored_nodes, 3);
    }
}

#[test]
fn entries_have_the_identifiers_of_their_networks() {
    let p = two_walks();
    let (result, _) = run(&p, HeuristicType::HAdd, TiebreakerKind::PolicySize);
    match result {
        SearchResult::Success(policy) => {
            assert_eq!(policy.transitions.len(), 2);
            assert_eq!(policy.transitions[1].0.tn.nodes, vec![3, 7]);
            assert_eq!(policy.transitions[1].1.task, "first");
            // the walk that stood for the first task is done
            assert_eq!(policy.transitions[0].0.tn.nodes, vec![7]);
            assert_eq!(policy.transitions[0].1.task, "second");
            assert_eq!(policy.transitions[0].0.state, vec!["f0".to_string()]);
            assert!(Rc::ptr_eq(&policy.transitions[0].0.tn.domain, &p.tasks));
        }
        SearchResult::NoSolution => panic!("Expected a policy"),
    }
}

#[test]
fn nodes_with_a_method_cost_nothing_more() {
    let p = journey_problem(0);
    let (reach, _) = initial_reach(&p, &[assign(&p, "by walk")], SearchMode::MinCost);
    assert!(reach[0].kind == NodeKind::Assigned);
    assert_eq!(reach[0].cost_lower, Some(0));
    let (reach, _) = initial_reach(&p, &[], SearchMode::MinCost);
    assert_eq!(reach[0].cost_lower, Some(1));
}

#[test]
fn graphs_hand_identifiers_on() {
    let p = journey_problem(0);
    let (reach, _) = initial_reach(&p, &[assign(&p, "by walk")], SearchMode::MaxProb);
    let ids: Vec<Vec<usize>> = reach.iter().map(|n| n.tn.nodes.clone()).collect();
    // go and arrive, arrive with two walks, with one, alone, and nothing
    assert_eq!(ids, vec![vec![0, 1], vec![1, 2, 3], vec![1, 3], vec![1], vec![]]);
}

#[test]
fn searches_go_one_way() {
    for tiebreaker in [TiebreakerKind::NoTiebreak, TiebreakerKind::Combined] {
        for h_type in [HeuristicType::HAdd, HeuristicType::HMax, HeuristicType::HProb] {
            let runs: Vec<(Vec<(Vec<usize>, String, String)>, u64, usize)> = (0..2)
                .map(|_| match run(&journey_problem(0), h_type, tiebreaker) {
                    (SearchResult::Success(policy), stats) => {
                        let entries = policy.transitions.iter().map(|(node, output)| {
                            (node.tn.nodes.clone(), output.task.clone(), output.method.clone())
                        });
                        (entries.collect(), policy.success_probability, stats.explored_nodes)
                    }
                    _ => panic!("Expected a policy"),
                })
                .collect();
            assert_eq!(runs[0], runs[1]);
            assert_eq!(
                runs[0].0,
                vec![(vec![0, 1], "go".to_string(), "by walk".to_string())]
            );
        }
    }
}

#[test]
fn grown_graphs_are_those_built_from_the_start() {
    let p = retries(ONE / 4, 0);
    let (result, _) = run(&p, HeuristicType::HMax, TiebreakerKind::Combined);
    match result {
        SearchResult::Success(policy) => {
            let assignments: Vec<Assignment> = policy
                .transitions
                .iter()
                .map(|(node, output)| {
                    let state = if node.state.is_empty() { set(&[]) } else { set(&[0]) };
                    Assignment {
                        key: make_key(&node.tn, &state),
                        task_name: output.task.clone(),
                        method_name: output.method.clone(),
                    }
                })
                .collect();
            assert_eq!(assignments.len(), 2);
            let (reach, out_c) = initial_reach(&p, &assignments, SearchMode::MaxProb);
            assert!(out_c.is_empty());
            assert_eq!(PartialPolicyState::compute_f_by_vi(&reach), policy.success_probability);
        }
        SearchResult::NoSolution => panic!("Expected a policy that tries again"),
    }
}

use planner::andstar::{run, SearchResult, StrongPolicy};
use planner::composition::HeuristicType;
use planner::domain::{Facts, PrimitiveAction};
use planner::lower_bound::delta_nearest_f_value;
use planner::policy::{NodeKind, ReachNode, TiebreakerKind};
use planner::probability::ONE;
use planner::problem::FONDProblem;
use planner::task_network::{CompoundTask, DomainTasks, Method, Task, HTN};
use std::collections::{BTreeSet, HashMap, HashSet};
use std::rc::Rc;

/// The probability in the units of the library.
fn units(p: f64) -> u64 {
    (p * ONE as f64).round() as u64
}

/// The probability of the policy's success.
fn probability(policy: &StrongPolicy) -> f64 {
    policy.success_probability as f64 / ONE as f64
}

/// Build a domain with two sequential ND actions:
///   a1 (prob p1 → adds f1, 1-p1 → nothing)  →
///   a2 (prob p2 → adds f2, 1-p2 → nothing, precond f1)  →
///   a3 (deterministic gate, precond f2)
/// Max achievable success probability = p1 * p2.
fn build_two_nd_problem(p1: f64, p2: f64, rho: f64) -> FONDProblem {
    let a1 = Task::Primitive(PrimitiveAction::new_with_probabilities(
        "a1".to_string(),
        1,
        HashSet::new(),
        vec![HashSet::from([0]), HashSet::new()], // add f1 | nothing
        vec![HashSet::new(), HashSet::new()],
        vec![units(p1), units(1.0 - p1)],
    ));
    let a2 = Task::Primitive(PrimitiveAction::new_with_probabilities(
        "a2".to_string(),
        1,
        HashSet::from([0]),                       // precond: f1
        vec![HashSet::from([1]), HashSet::new()], // add f2 | nothing
        vec![HashSet::new(), HashSet::new()],
        vec![units(p2), units(1.0 - p2)],
    ));
    let a3 = Task::Primitive(PrimitiveAction::new(
        "a3".to_string(),
        1,
        HashSet::from([1]), // precond: f2
        vec![HashSet::new()],
        vec![HashSet::new()],
    ));
    let domain = Rc::new(DomainTasks::new(vec![a1, a2, a3]));
    let tn = HTN::new(
        BTreeSet::from([1, 2, 3]),
        vec![(1, 2), (2, 3)],
        domain.clone(),
        HashMap::from([(1, 0), (2, 1), (3, 2)]),
    );
    let mut problem = FONDProblem {
        facts: Facts::new(vec!["f1".to_string(), "f2".to_string()]),
        tasks: domain,
        initial_state: HashSet::new(),
        init_tn: tn,
        rho: units(rho),
    };
    problem.collapse_tn();
    problem
}

#[test]
fn two_nd_actions_quarter_prob() {
    let problem = build_two_nd_problem(0.5, 0.5, 0.0);
    let (result, _) = run(&problem, HeuristicType::HAdd, TiebreakerKind::Combined);
    match result {
        SearchResult::Success(policy) => assert!(
            (probability(&policy) - 0.25).abs() < 1e-9,
            "Expected 0.25, got {}",
            probability(&policy)
        ),
        SearchResult::NoSolution => panic!("Expected solution with prob 0.25"),
    }
}

#[test]
fn two_nd_actions_above_threshold_no_solution() {
    let problem = build_two_nd_problem(0.5, 0.5, 0.5);
    let (result, _) = run(&problem, HeuristicType::HAdd, TiebreakerKind::Combined);
    assert!(matches!(result, SearchResult::NoSolution));
}

#[test]
fn two_nd_actions_exact_threshold_succeeds() {
    let problem = build_two_nd_problem(0.5, 0.5, 0.25);
    let (result, _) = run(&problem, HeuristicType::HAdd, TiebreakerKind::Combined);
    match result {
        SearchResult::Success(policy) => assert!(
            (probability(&policy) - 0.25).abs() < 1e-9,
            "Expected 0.25, got {}",
            probability(&policy)
        ),
        SearchResult::NoSolution => panic!("Expected success at exact threshold"),
    }
}

#[test]
fn deterministic_single_action() {
    let a = Task::Primitive(PrimitiveAction::new(
        "a".to_string(),
        1,
        HashSet::new(),
        vec![HashSet::new()],
        vec![HashSet::new()],
    ));
    let domain = Rc::new(DomainTasks::new(vec![a]));
    let tn = HTN::new(
        BTreeSet::from([1]),
        vec![],
        domain.clone(),
        HashMap::from([(1, 0)]),
    );
    let mut problem = FONDProblem {
        facts: Facts::new(vec!["f0".to_string()]),
        tasks: domain,
        initial_state: HashSet::new(),
        init_tn: tn,
        rho: units(1.0),
    };
    problem.collapse_tn();
    let (result, _) = run(&problem, HeuristicType::HAdd, TiebreakerKind::Combined);
    match result {
        SearchResult::Success(policy) => assert!(
            (probability(&policy) - 1.0).abs() < 1e-9,
            "Expected 1.0, got {}",
            probability(&policy)
        ),
        SearchResult::NoSolution => panic!("Expected success for deterministic action"),
    }
}

#[test]
fn single_nd_action_point_seven() {
    let a1 = Task::Primitive(PrimitiveAction::new_with_probabilities(
        "a1".to_string(),
        1,
        HashSet::new(),
        vec![HashSet::from([0]), HashSet::new()],
        vec![HashSet::new(), HashSet::new()],
        vec![units(0.7), units(0.3)],
    ));
    let gate = Task::Primitive(PrimitiveAction::new(
        "gate".to_string(),
        1,
        HashSet::from([0]),
        vec![HashSet::new()],
        vec![HashSet::new()],
    ));
    let domain = Rc::new(DomainTasks::new(vec![a1, gate]));
    let tn = HTN::new(
        BTreeSet::from([1, 2]),
        vec![(1, 2)],
        domain.clone(),
        HashMap::from([(1, 0), (2, 1)]),
    );
    let mut problem = FONDProblem {
        facts: Facts::new(vec!["f0".to_string()]),
        tasks: domain,
        initial_state: HashSet::new(),
        init_tn: tn,
        rho: units(0.0),
    };
    problem.collapse_tn();
    let (result, _) = run(&problem, HeuristicType::HAdd, TiebreakerKind::Combined);
    match result {
        SearchResult::Success(policy) => assert!(
            (probability(&policy) - 0.7).abs() < 1e-9,
            "Expected 0.7, got {}",
            probability(&policy)
        ),
        SearchResult::NoSolution => panic!("Expected success with prob 0.7"),
    }
}

#[test]
fn three_nd_actions_eighth_prob() {
    let a1 = Task::Primitive(PrimitiveAction::new_with_probabilities(
        "a1".to_string(),
        1,
        HashSet::new(),
        vec![HashSet::from([0]), HashSet::new()],
        vec![HashSet::new(), HashSet::new()],
        vec![units(0.5), units(0.5)],
    ));
    let a2 = Task::Primitive(PrimitiveAction::new_with_probabilities(
        "a2".to_string(),
        1,
        HashSet::from([0]),
        vec![HashSet::from([1]), HashSet::new()],
        vec![HashSet::new(), HashSet::new()],
        vec![units(0.5), units(0.5)],
    ));
    let a3 = Task::Primitive(PrimitiveAction::new_with_probabilities(
        "a3".to_string(),
        1,
        HashSet::from([1]),
        vec![HashSet::from([2]), HashSet::new()],
        vec![HashSet::new(), HashSet::new()],
        vec![units(0.5), units(0.5)],
    ));
    let gate = Task::Primitive(PrimitiveAction::new(
        "gate".to_string(),
        1,
        HashSet::from([2]),
        vec![HashSet::new()],
        vec![HashSet::new()],
    ));
    let domain = Rc::new(DomainTasks::new(vec![a1, a2, a3, gate]));
    let tn = HTN::new(
        BTreeSet::from([1, 2, 3, 4]),
        vec![(1, 2), (2, 3), (3, 4)],
        domain.clone(),
        HashMap::from([(1, 0), (2, 1), (3, 2), (4, 3)]),
    );
    let mut problem = FONDProblem {
        facts: Facts::new(vec!["f0".to_string(), "f1".to_string(), "f2".to_string()]),
        tasks: domain,
        initial_state: HashSet::new(),
        init_tn: tn,
        rho: units(0.0),
    };
    problem.collapse_tn();
    let (result, _) = run(&problem, HeuristicType::HAdd, TiebreakerKind::Combined);
    match result {
        SearchResult::Success(policy) => assert!(
            (probability(&policy) - 0.125).abs() < 1e-9,
            "Expected 0.125, got {}",
            probability(&policy)
        ),
        SearchResult::NoSolution => panic!("Expected success with prob 0.125"),
    }
}

#[test]
fn three_nd_actions_above_threshold_no_solution() {
    let a1 = Task::Primitive(PrimitiveAction::new_with_probabilities(
        "a1".to_string(),
        1,
        HashSet::new(),
        vec![HashSet::from([0]), HashSet::new()],
        vec![HashSet::new(), HashSet::new()],
        vec![units(0.5), units(0.5)],
    ));
    let a2 = Task::Primitive(PrimitiveAction::new_with_probabilities(
        "a2".to_string(),
        1,
        HashSet::from([0]),
        vec![HashSet::from([1]), HashSet::new()],
        vec![HashSet::new(), HashSet::new()],
        vec![units(0.5), units(0.5)],
    ));
    let a3 = Task::Primitive(PrimitiveAction::new_with_probabilities(
        "a3".to_string(),
        1,
        HashSet::from([1]),
        vec![HashSet::from([2]), HashSet::new()],
        vec![HashSet::new(), HashSet::new()],
        vec![units(0.5), units(0.5)],
    ));
    let gate = Task::Primitive(PrimitiveAction::new(
        "gate".to_string(),
        1,
        HashSet::from([2]),
        vec![HashSet::new()],
        vec![HashSet::new()],
    ));
    let domain = Rc::new(DomainTasks::new(vec![a1, a2, a3, gate]));
    let tn = HTN::new(
        BTreeSet::from([1, 2, 3, 4]),
        vec![(1, 2), (2, 3), (3, 4)],
        domain.clone(),
        HashMap::from([(1, 0), (2, 1), (3, 2), (4, 3)]),
    );
    let mut problem = FONDProblem {
        facts: Facts::new(vec!["f0".to_string(), "f1".to_string(), "f2".to_string()]),
        tasks: domain,
        initial_state: HashSet::new(),
        init_tn: tn,
        rho: units(0.2),
    };
    problem.collapse_tn();
    let (result, _) = run(&problem, HeuristicType::HAdd, TiebreakerKind::Combined);
    assert!(matches!(result, SearchResult::NoSolution));
}

#[test]
fn asymmetric_two_nd_actions() {
    let problem = build_two_nd_problem(0.8, 0.6, 0.0);
    let (result, _) = run(&problem, HeuristicType::HAdd, TiebreakerKind::Combined);
    match result {
        SearchResult::Success(policy) => assert!(
            (probability(&policy) - 0.48).abs() < 1e-9,
            "Expected 0.48, got {}",
            probability(&policy)
        ),
        SearchResult::NoSolution => panic!("Expected solution with prob 0.48"),
    }
}

#[test]
fn method_choice_selects_best() {
    let a_hi = Task::Primitive(PrimitiveAction::new_with_probabilities(
        "a_hi".to_string(),
        1,
        HashSet::new(),
        vec![HashSet::from([0]), HashSet::new()],
        vec![HashSet::new(), HashSet::new()],
        vec![units(0.8), units(0.2)],
    ));
    let a_lo = Task::Primitive(PrimitiveAction::new_with_probabilities(
        "a_lo".to_string(),
        1,
        HashSet::new(),
        vec![HashSet::from([0]), HashSet::new()],
        vec![HashSet::new(), HashSet::new()],
        vec![units(0.3), units(0.7)],
    ));
    let a_gate = Task::Primitive(PrimitiveAction::new(
        "a_gate".to_string(),
        1,
        HashSet::from([0]),
        vec![HashSet::new()],
        vec![HashSet::new()],
    ));
    let t = Task::Compound(CompoundTask {
        name: "t".to_string(),
        methods: vec![],
    });
    let domain = Rc::new(DomainTasks::new(vec![a_hi, a_lo, a_gate, t]));

    let m_hi = Method::new(
        "m_hi".to_string(),
        HTN::new(
            BTreeSet::from([1, 2]),
            vec![(1, 2)],
            domain.clone(),
            HashMap::from([(1, 0), (2, 2)]),
        ),
    );
    let m_lo = Method::new(
        "m_lo".to_string(),
        HTN::new(
            BTreeSet::from([1, 2]),
            vec![(1, 2)],
            domain.clone(),
            HashMap::from([(1, 1), (2, 2)]),
        ),
    );
    let domain = domain.add_methods(vec![(3, m_hi), (3, m_lo)]);

    let tn = HTN::new(
        BTreeSet::from([1]),
        vec![],
        domain.clone(),
        HashMap::from([(1, 3)]),
    );
    let mut problem = FONDProblem {
        facts: Facts::new(vec!["f_done".to_string()]),
        tasks: domain,
        initial_state: HashSet::new(),
        init_tn: tn,
        rho: units(0.0),
    };
    problem.collapse_tn();

    let (result, _) = run(&problem, HeuristicType::HAdd, TiebreakerKind::Combined);
    match result {
        SearchResult::Success(policy) => assert!(
            (probability(&policy) - 0.8).abs() < 1e-9,
            "Expected 0.8 (best method), got {}",
            probability(&policy)
        ),
        SearchResult::NoSolution => panic!("Expected solution with prob 0.8"),
    }
}

#[test]
fn method_choice_hprob_selects_best() {
    let a_hi = Task::Primitive(PrimitiveAction::new_with_probabilities(
        "a_hi".to_string(),
        1,
        HashSet::new(),
        vec![HashSet::from([0]), HashSet::new()],
        vec![HashSet::new(), HashSet::new()],
        vec![units(0.8), units(0.2)],
    ));
    let a_lo = Task::Primitive(PrimitiveAction::new_with_probabilities(
        "a_lo".to_string(),
        1,
        HashSet::new(),
        vec![HashSet::from([0]), HashSet::new()],
        vec![HashSet::new(), HashSet::new()],
        vec![units(0.3), units(0.7)],
    ));
    let a_gate = Task::Primitive(PrimitiveAction::new(
        "a_gate".to_string(),
        1,
        HashSet::from([0]),
        vec![HashSet::new()],
        vec![HashSet::new()],
    ));
    let t = Task::Compound(CompoundTask {
        name: "t".to_string(),
        methods: vec![],
    });
    let domain = Rc::new(DomainTasks::new(vec![a_hi, a_lo, a_gate, t]));

    let m_hi = Method::new(
        "m_hi".to_string(),
        HTN::new(
            BTreeSet::from([1, 2]),
            vec![(1, 2)],
            domain.clone(),
            HashMap::from([(1, 0), (2, 2)]),
        ),
    );
    let m_lo = Method::new(
        "m_lo".to_string(),
        HTN::new(
            BTreeSet::from([1, 2]),
            vec![(1, 2)],
            domain.clone(),
            HashMap::from([(1, 1), (2, 2)]),
        ),
    );
    let domain = domain.add_methods(vec![(3, m_hi), (3, m_lo)]);

    let tn = HTN::new(
        BTreeSet::from([1]),
        vec![],
        domain.clone(),
        HashMap::from([(1, 3)]),
    );
    let mut problem = FONDProblem {
        facts: Facts::new(vec!["f_done".to_string()]),
        tasks: domain,
        initial_state: HashSet::new(),
        init_tn: tn,
        rho: units(0.0),
    };
    problem.collapse_tn();

    let (result, _) = run(&problem, HeuristicType::HAdd, TiebreakerKind::Combined);
    match result {
        SearchResult::Success(policy) => assert!(
            (probability(&policy) - 0.8).abs() < 1e-9,
            "Expected 0.8 (best method), got {}",
            probability(&policy)
        ),
        SearchResult::NoSolution => panic!("Expected solution with prob 0.8"),
    }
}

/// A try that succeeds half of the time, after which the task is called again,
/// or given up, as long as the one further try is left.
#[test]
fn recursive_bounded_cycle_returns_partial_probability() {
    let attempt = Task::Primitive(PrimitiveAction::new_with_probabilities(
        "attempt".to_string(),
        1,
        HashSet::from([1]), // precond: a try is left
        vec![HashSet::from([0]), HashSet::new()],
        vec![HashSet::from([1]), HashSet::from([1])],
        vec![units(0.5), units(0.5)],
    ));
    let finish = Task::Primitive(PrimitiveAction::new(
        "finish".to_string(),
        1,
        HashSet::from([0]),
        vec![HashSet::new()],
        vec![HashSet::new()],
    ));
    let again = Task::Compound(CompoundTask {
        name: "again".to_string(),
        methods: vec![],
    });
    let domain = Rc::new(DomainTasks::new(vec![attempt, finish, again]));
    let m_try = Method::new(
        "m_try".to_string(),
        HTN::new(
            BTreeSet::from([1, 2]),
            vec![(1, 2)],
            domain.clone(),
            HashMap::from([(1, 0), (2, 2)]),
        ),
    );
    let m_finish = Method::new(
        "m_finish".to_string(),
        HTN::new(
            BTreeSet::from([1]),
            vec![],
            domain.clone(),
            HashMap::from([(1, 1)]),
        ),
    );
    let domain = domain.add_methods(vec![(2, m_try), (2, m_finish)]);
    let tn = HTN::new(
        BTreeSet::from([1]),
        vec![],
        domain.clone(),
        HashMap::from([(1, 2)]),
    );
    let mut problem = FONDProblem {
        facts: Facts::new(vec!["done".to_string(), "left".to_string()]),
        tasks: domain,
        initial_state: HashSet::from([1]),
        init_tn: tn,
        rho: units(0.0),
    };
    problem.collapse_tn();
    let (result, _) = run(&problem, HeuristicType::HAdd, TiebreakerKind::Combined);
    match result {
        SearchResult::Success(policy) => assert!(
            (probability(&policy) - 0.5).abs() < 1e-9,
            "Expected 0.5, got {}",
            probability(&policy)
        ),
        SearchResult::NoSolution => panic!("Expected partial-probability solution"),
    }
}

#[test]
fn delta_nearest_closed_policy_cost() {
    let f = delta_nearest_f_value(&[], &[], 3);
    assert!((f as f64 - (-3.0)).abs() < 1e-9, "expected -3.0, got {}", f);
}

fn dummy_node(prob_upper: u64, cost_lower: Option<u32>) -> ReachNode {
    ReachNode {
        tn: Rc::new(HTN::new(
            BTreeSet::new(),
            vec![],
            Rc::new(DomainTasks::new(vec![])),
            HashMap::new(),
        )),
        state: Rc::new(HashSet::new()),
        kind: NodeKind::Compound,
        prob_upper,
        cost_lower,
        successors: vec![],
    }
}

#[test]
fn delta_nearest_two_frontier_nodes() {
    let reach = vec![dummy_node(ONE, Some(2)), dummy_node(ONE, Some(5))];
    let f = delta_nearest_f_value(&reach, &[0, 1], 3);
    assert!((f as f64 - (-6.0)).abs() < 1e-9, "expected -6.0, got {}", f);
}

#[test]
fn delta_nearest_infinity_cost_lower() {
    let reach = vec![dummy_node(0, None)];
    let f = delta_nearest_f_value(&reach, &[0], 1);
    assert!((f as f64 - (-2.0)).abs() < 1e-9, "expected -2.0, got {}", f);
}

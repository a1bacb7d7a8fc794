use planner::andstar::{run, run_fond, SearchResult};
use planner::composition::HeuristicType;
use planner::goal_checks::{
    conclude_strong_od, deorder, is_goal_strong_od, is_goal_weak_ld, AStarResult, Edge,
    GoalStatistics, SearchPath,
};
use planner::named::{NamedAction, NamedMethod};
use planner::policy::TiebreakerKind;
use planner::probability::ONE;
use planner::problem::FONDProblem;
use planner::task_network::{DomainTasks, Task, HTN};
use std::collections::{BTreeSet, HashMap, HashSet};
use std::rc::Rc;

fn network(
    domain: &Rc<DomainTasks>,
    nodes: &[(usize, usize)],
    orderings: &[(usize, usize)],
) -> HTN {
    HTN::new(
        nodes.iter().map(|n| n.0).collect::<BTreeSet<usize>>(),
        orderings.to_vec(),
        domain.clone(),
        nodes.iter().copied().collect::<HashMap<usize, usize>>(),
    )
}

/// `a` adds one of the facts, `b` needs the first and adds the second, and `c`
/// needs the second and adds the first.
fn actions() -> Vec<NamedAction> {
    let f1 = String::from("f1");
    let f2 = String::from("f2");
    vec![
        (
            String::from("a"),
            vec![],
            vec![(vec![f1.clone()], vec![]), (vec![f2.clone()], vec![])],
            vec![ONE / 2, ONE / 2],
        ),
        (
            String::from("b"),
            vec![f1.clone()],
            vec![(vec![f2.clone()], vec![])],
            vec![ONE],
        ),
        (
            String::from("c"),
            vec![f2.clone()],
            vec![(vec![f1.clone()], vec![])],
            vec![ONE],
        ),
    ]
}

fn facts() -> Vec<String> {
    vec![String::from("f1"), String::from("f2")]
}

fn names(list: &[&str]) -> Vec<String> {
    list.iter().map(|s| s.to_string()).collect()
}

fn method(
    name: &str,
    task: &str,
    subtasks: &[&str],
    orderings: &[(usize, usize)],
) -> NamedMethod {
    (name.to_string(), task.to_string(), names(subtasks), orderings.to_vec())
}

fn execution(id: usize) -> Edge {
    Edge { task_id: id, method_name: None }
}

fn decomposition(id: usize, method: &str) -> Edge {
    Edge { task_id: id, method_name: Some(method.to_string()) }
}

fn no_statistics() -> GoalStatistics {
    GoalStatistics { attempted: None, search_nodes: None, makespan: None }
}

/// `init` is `a` before `t`, and `t` is `b` and `c` in any order.
fn nested() -> (FONDProblem, SearchPath) {
    let problem = FONDProblem::new(
        facts(),
        actions(),
        vec![
            method("minit", "init", &["a", "t"], &[(0, 1)]),
            method("mt", "t", &["b", "c"], &[]),
        ],
        names(&["init", "t"]),
        vec![],
        String::from("init"),
    )
    .unwrap();
    let domain = problem.tasks.clone();
    let path = SearchPath {
        tns: vec![
            network(&domain, &[], &[]),
            network(&domain, &[(4, 2)], &[]),
            network(&domain, &[(3, 1), (4, 2)], &[]),
            network(&domain, &[(2, 4)], &[]),
            network(&domain, &[(1, 0), (2, 4)], &[(1, 2)]),
            network(&domain, &[(0, 3)], &[]),
        ],
        edges: vec![
            execution(4),
            execution(3),
            decomposition(2, "mt"),
            execution(1),
            decomposition(0, "minit"),
        ],
        goal_tested: false,
    };
    (problem, path)
}

/// `init` is `a` before `b` and `c`.
fn flat() -> (FONDProblem, SearchPath) {
    let problem = FONDProblem::new(
        facts(),
        actions(),
        vec![method("minit", "init", &["a", "b", "c"], &[(0, 1), (0, 2)])],
        names(&["init"]),
        vec![],
        String::from("init"),
    )
    .unwrap();
    let domain = problem.tasks.clone();
    let path = SearchPath {
        tns: vec![
            network(&domain, &[], &[]),
            network(&domain, &[(3, 2)], &[]),
            network(&domain, &[(2, 1), (3, 2)], &[]),
            network(&domain, &[(1, 0), (2, 1), (3, 2)], &[(1, 2), (1, 3)]),
            network(&domain, &[(0, 3)], &[]),
        ],
        edges: vec![execution(3), execution(2), execution(1), decomposition(0, "minit")],
        goal_tested: false,
    };
    (problem, path)
}

/// The tasks of the network by position, and its order.
fn shape(tn: &HTN) -> (Vec<usize>, HashSet<(usize, usize)>) {
    (tn.tasks.clone(), tn.order.iter().copied().collect())
}

#[test]
fn strong_od_problem_1() {
    let (problem, mut path) = nested();
    let mut statistics = no_statistics();
    let sub = is_goal_strong_od(&problem, &path, &mut statistics).unwrap();
    assert_eq!(statistics.attempted, Some(1));
    let (solution, stats) = run_fond(&sub, HeuristicType::HAdd, TiebreakerKind::Combined);
    let nodes = stats.search_nodes as u32;
    match conclude_strong_od(&mut path, solution, nodes, &mut statistics) {
        AStarResult::Strong(policy) => {
            assert_eq!(policy.success_probability, ONE);
            assert_eq!(policy.makespan, 1);
            assert_eq!(policy.transitions.len(), 1);
        }
        _ => panic!("Expected a strong policy"),
    }
    assert!(path.goal_tested);
    assert_eq!(statistics.search_nodes, Some(nodes));
    assert_eq!(statistics.makespan, Some(1));
}

#[test]
fn strong_od_problem_2() {
    let (problem, mut path) = flat();
    let mut statistics = no_statistics();
    let sub = is_goal_strong_od(&problem, &path, &mut statistics).unwrap();
    let (solution, stats) = run_fond(&sub, HeuristicType::HAdd, TiebreakerKind::Combined);
    let nodes = stats.search_nodes as u32;
    let result = conclude_strong_od(&mut path, solution, nodes, &mut statistics);
    assert!(matches!(result, AStarResult::Strong(_)));
    assert_eq!(statistics.attempted, Some(1));
}

#[test]
fn deordering_keeps_what_the_networks_ask_for() {
    // numbered from the end of the path: c, b, a
    let expected = (vec![2, 1, 0], HashSet::from([(2, 0), (2, 1)]));
    let (_, path) = nested();
    assert_eq!(shape(&deorder(&path)), expected);
    let (_, path) = flat();
    assert_eq!(shape(&deorder(&path)), expected);
}

#[test]
fn deordered_actions_come_before_later_ones_only() {
    for path in [nested().1, flat().1] {
        let tn = deorder(&path);
        for &(a, b) in &tn.order {
            assert!(b < a);
        }
        assert_eq!(tn.nodes.len(), 3);
    }
}

#[test]
fn paths_of_the_library_are_deordered() {
    // `init` is `a` before `t`, and `t` is `b` and `c` in any order
    let (problem, _) = nested();
    let domain = problem.tasks.clone();
    let start = network(&domain, &[(0, 3)], &[]);
    let one = start.decompose(0, &network(&domain, &[(0, 0), (1, 4)], &[(0, 1)]));
    assert_eq!(one.nodes, vec![1, 2]);
    let two = one.without_node(0);
    let three = two.decompose(0, &network(&domain, &[(0, 1), (1, 2)], &[]));
    assert_eq!(three.nodes, vec![3, 4]);
    let four = three.without_node(0);
    let five = four.without_node(0);
    let path = SearchPath {
        tns: vec![five, four, three, two, one, start],
        edges: vec![
            execution(4),
            execution(3),
            decomposition(2, "mt"),
            execution(1),
            decomposition(0, "minit"),
        ],
        goal_tested: false,
    };
    assert_eq!(shape(&deorder(&path)), (vec![2, 1, 0], HashSet::from([(2, 0), (2, 1)])));
}

#[test]
fn reused_identifiers_go_by_the_nearest_later_step() {
    // `t` twice, one after the other; the node of the second `b` gets the
    // identifier that the one of the first had
    let (problem, _) = nested();
    let domain = problem.tasks.clone();
    let start = network(&domain, &[(0, 4), (1, 4)], &[(0, 1)]);
    let sub = network(&domain, &[(0, 1)], &[]);
    let one = start.decompose(0, &sub);
    assert_eq!(one.nodes, vec![1, 2]);
    let two = one.without_node(1);
    let three = two.decompose(0, &sub);
    assert_eq!(three.nodes, vec![2]);
    let four = three.without_node(0);
    let path = SearchPath {
        tns: vec![four, three, two, one, start],
        edges: vec![execution(2), decomposition(1, "m"), execution(2), decomposition(0, "m")],
        goal_tested: false,
    };
    assert_eq!(shape(&deorder(&path)), (vec![1, 1], HashSet::from([(1, 0)])));
}

#[test]
fn orderings_are_listed_as_the_tasks_are_noted() {
    // `a` before `t`, which is `c`, the compound `u`, and `a`; `u` is `b` and `c`
    let problem = FONDProblem::new(
        facts(),
        actions(),
        vec![
            method("mt", "t", &["c", "u", "a"], &[]),
            method("mu", "u", &["b", "c"], &[]),
        ],
        names(&["init", "t", "u"]),
        vec![],
        String::from("init"),
    )
    .unwrap();
    let domain = problem.tasks.clone();
    // tasks: a, b, c, init, t, u
    let start = network(&domain, &[(0, 0), (1, 4)], &[(0, 1)]);
    let one = start.without_node(0);
    let two = one.decompose(0, &network(&domain, &[(0, 2), (1, 5), (2, 0)], &[]));
    assert_eq!(two.nodes, vec![2, 3, 4]);
    let three = two.decompose(1, &network(&domain, &[(0, 1), (1, 2)], &[]));
    assert_eq!(three.nodes, vec![2, 4, 5, 6]);
    let four = three.without_node(0);
    let five = four.without_node(0);
    let six = five.without_node(0);
    let seven = six.without_node(0);
    let path = SearchPath {
        tns: vec![seven, six, five, four, three, two, one, start],
        edges: vec![
            execution(6),
            execution(5),
            execution(4),
            execution(2),
            decomposition(3, "mu"),
            decomposition(1, "mt"),
            execution(0),
        ],
        goal_tested: false,
    };
    // the actions of the nodes 6, 5, 4, 2 and 0 are numbered 0 to 4
    let tn = deorder(&path);
    assert_eq!(tn.order, vec![(4, 3), (4, 1), (4, 0), (4, 2)]);
}

#[test]
fn path_without_steps_is_deordered() {
    let (_, path) = flat();
    let done = SearchPath {
        tns: vec![path.tns[0].duplicate()],
        edges: vec![],
        goal_tested: false,
    };
    assert_eq!(shape(&deorder(&done)), (vec![], HashSet::new()));
}

#[test]
fn weak_solution_is_the_path() {
    let (_, path) = flat();
    match is_goal_weak_ld(&path) {
        AStarResult::Linear(steps) => {
            let ids: Vec<usize> = steps.iter().map(|e| e.task_id).collect();
            assert_eq!(ids, vec![0, 1, 2, 3]);
            assert_eq!(steps[0].method_name, Some("minit".to_string()));
            assert_eq!(steps[1].method_name, None);
        }
        _ => panic!("Expected a path"),
    }
}

#[test]
fn paths_with_tasks_left_are_no_solutions() {
    let (problem, path) = flat();
    let left = SearchPath {
        tns: vec![path.tns[4].duplicate()],
        edges: vec![],
        goal_tested: false,
    };
    assert!(matches!(is_goal_weak_ld(&left), AStarResult::NoSolution));
    let mut statistics = no_statistics();
    assert!(is_goal_strong_od(&problem, &left, &mut statistics).is_none());
    assert_eq!(statistics.attempted, None);
}

#[test]
fn statistics_add_up() {
    let (problem, mut path) = flat();
    let mut statistics =
        GoalStatistics { attempted: Some(u32::MAX), search_nodes: Some(5), makespan: Some(7) };
    let sub = is_goal_strong_od(&problem, &path, &mut statistics);
    assert!(sub.is_some());
    assert_eq!(statistics.attempted, Some(u32::MAX));
    let result = conclude_strong_od(&mut path, SearchResult::NoSolution, 3, &mut statistics);
    assert!(matches!(result, AStarResult::NoSolution));
    assert_eq!(statistics.search_nodes, Some(8));
    assert_eq!(statistics.makespan, Some(7));
    assert!(path.goal_tested);
}

#[test]
fn subproblem_is_one_compound_task() {
    let (problem, path) = nested();
    let mut statistics = no_statistics();
    let sub = is_goal_strong_od(&problem, &path, &mut statistics).unwrap();
    assert_eq!(sub.tasks.tasks.len(), 6);
    assert_eq!(sub.init_tn.tasks, vec![5]);
    match &*sub.tasks.tasks[5] {
        Task::Compound(task) => {
            assert_eq!(task.methods.len(), 1);
            assert_eq!(task.methods[0].decomposition.tasks, vec![2, 1, 0]);
        }
        Task::Primitive(_) => panic!("Expected a compound task"),
    }
    assert_eq!(sub.facts.get_fact(1), "f2");
    assert_eq!(sub.rho, problem.rho);
    // the probabilities sum up to 1
    let (result, _) = run(&sub, HeuristicType::HMax, TiebreakerKind::Combined);
    match result {
        SearchResult::Success(policy) => assert_eq!(policy.success_probability, ONE),
        SearchResult::NoSolution => panic!("Expected a policy"),
    }
}

#[test]
fn named_problem_has_its_parts_by_number() {
    let mut given = actions();
    given[1].2[0].1.push(String::from("f1"));
    let problem = FONDProblem::new(
        facts(),
        given,
        vec![
            method("m1", "init", &["t", "b"], &[(1, 0)]),
            method("m2", "t", &[], &[]),
            method("m3", "init", &["c"], &[]),
        ],
        names(&["init", "t"]),
        names(&["f2"]),
        String::from("t"),
    )
    .unwrap();
    assert_eq!(problem.facts.count(), 2);
    assert_eq!(problem.initial_state, HashSet::from([1]));
    assert_eq!(problem.init_tn.tasks, vec![4]);
    assert_eq!(problem.rho, ONE);
    assert_eq!(problem.tasks.tasks.len(), 5);
    match &*problem.tasks.tasks[1] {
        Task::Primitive(b) => {
            assert_eq!(b.name, "b");
            assert_eq!(b.cost, 1);
            assert_eq!(b.pre_cond, HashSet::from([0]));
            assert_eq!(b.add_effects, vec![HashSet::from([1])]);
            assert_eq!(b.del_effects, vec![HashSet::from([0])]);
            assert_eq!(b.probabilities, vec![ONE]);
        }
        Task::Compound(_) => panic!("Expected an action"),
    }
    match &*problem.tasks.tasks[3] {
        Task::Compound(init) => {
            assert_eq!(init.name, "init");
            let methods: Vec<&str> = init.methods.iter().map(|m| m.name.as_str()).collect();
            assert_eq!(methods, vec!["m1", "m3"]);
            assert_eq!(init.methods[0].decomposition.tasks, vec![4, 1]);
            assert_eq!(init.methods[0].decomposition.order, vec![(1, 0)]);
        }
        Task::Primitive(_) => panic!("Expected a compound task"),
    }
}

#[test]
fn unknown_names_make_no_problem() {
    let make = |actions: Vec<NamedAction>, m: NamedMethod, start: &[&str], init: &str| {
        FONDProblem::new(facts(), actions, vec![m], names(&["t"]), names(start), init.to_string())
    };
    let good = || method("m", "t", &["a"], &[]);
    assert!(make(actions(), good(), &["f1"], "t").is_some());
    assert!(make(actions(), good(), &["f3"], "t").is_none());
    assert!(make(actions(), good(), &[], "u").is_none());
    // methods of unknown tasks, of actions, with unknown subtasks or positions
    assert!(make(actions(), method("m", "u", &[], &[]), &[], "t").is_none());
    assert!(make(actions(), method("m", "a", &[], &[]), &[], "t").is_none());
    assert!(make(actions(), method("m", "t", &["u"], &[]), &[], "t").is_none());
    assert!(make(actions(), method("m", "t", &["a"], &[(0, 1)]), &[], "t").is_none());
    // actions with unknown facts
    let mut wrong = actions();
    wrong[0].1.push(String::from("f3"));
    assert!(make(wrong, good(), &[], "t").is_none());
    let mut wrong = actions();
    wrong[0].2[1].0.push(String::from("f3"));
    assert!(make(wrong, good(), &[], "t").is_none());
    let mut wrong = actions();
    wrong[0].2[1].1.push(String::from("f3"));
    assert!(make(wrong, good(), &[], "t").is_none());
}

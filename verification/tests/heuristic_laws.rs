use planner::costs::{h_add, h_max};
use planner::domain::{ClassicalDomain, Facts, PrimitiveAction};
use planner::ff::{h_ff, plan_length};
use planner::graphplan::GraphPlan;
use planner::lmcut::{h_lmcut, h_lmcut_full, h_lmcut_incremental};
use planner::prob::h_prob_max;
use planner::probability::{scale, scale_up, ONE};
use std::collections::{HashMap, HashSet};

fn action(name: &str, cost: u32, pre: &[u32], add: &[u32], prob: Option<u64>) -> PrimitiveAction {
    let pre: HashSet<u32> = pre.iter().copied().collect();
    let add: HashSet<u32> = add.iter().copied().collect();
    match prob {
        Some(p) => PrimitiveAction::new_with_probabilities(
            name.to_string(),
            cost,
            pre,
            vec![add],
            vec![HashSet::new()],
            vec![p],
        ),
        None => PrimitiveAction::new(name.to_string(), cost, pre, vec![add], vec![HashSet::new()]),
    }
}

fn domain(n_facts: usize, actions: Vec<PrimitiveAction>) -> ClassicalDomain {
    let names: Vec<String> = (0..n_facts).map(|i| format!("fact {}", i)).collect();
    ClassicalDomain::new(Facts::new(names), actions)
}

fn set(facts: &[u32]) -> HashSet<u32> {
    facts.iter().copied().collect()
}

/// 0 leads to 1 and 2, which together lead to 3; 4 follows from 5 alone.
fn diamond() -> ClassicalDomain {
    domain(
        6,
        vec![
            action("left", 2, &[0], &[1], None),
            action("right", 3, &[0], &[2], None),
            action("join", 1, &[1, 2], &[3], None),
            action("never", 1, &[5], &[4], None),
        ],
    )
}

#[test]
fn facts_are_counted_and_named() {
    let facts = Facts::new(vec!["a".to_string(), "b".to_string()]);
    assert_eq!(facts.count(), 2);
    assert_eq!(facts.get_fact(0), "a");
    assert_eq!(facts.get_fact(1), "b");
}

#[test]
fn costs_of_a_diamond() {
    let d = diamond();
    // left 2, right 3, join 1: all of them, or the dearest chain
    assert_eq!(h_add(&d, &set(&[0]), &set(&[3])), Some(6));
    assert_eq!(h_max(&d, &set(&[0]), &set(&[3])), Some(4));
    assert_eq!(h_add(&d, &set(&[0]), &set(&[1, 2])), Some(5));
    assert_eq!(h_max(&d, &set(&[0]), &set(&[1, 2])), Some(3));
}

#[test]
fn costs_are_dead_ends_together() {
    let d = diamond();
    for goal in [vec![4], vec![3, 4], vec![5], vec![99], vec![3], vec![]] {
        let goal = set(&goal);
        let sum = h_add(&d, &set(&[0]), &goal);
        let max = h_max(&d, &set(&[0]), &goal);
        let plan = h_ff(&d, &set(&[0]), &goal);
        let cuts = h_lmcut(&d, &set(&[0]), &goal);
        assert_eq!(sum.is_none(), max.is_none());
        assert_eq!(sum.is_none(), plan.is_none());
        assert_eq!(sum.is_none(), cuts.is_none());
        if let (Some(sum), Some(max)) = (sum, max) {
            assert!(max <= sum);
        }
    }
    assert_eq!(h_add(&d, &set(&[0]), &set(&[4])), None);
}

#[test]
fn more_facts_cost_no_more() {
    let d = diamond();
    assert_eq!(h_add(&d, &set(&[0, 1]), &set(&[3])), Some(4));
    assert_eq!(h_max(&d, &set(&[0, 1]), &set(&[3])), Some(4));
    assert_eq!(h_add(&d, &set(&[0, 1, 2]), &set(&[3])), Some(1));
    assert_eq!(h_max(&d, &set(&[0, 1, 2]), &set(&[3])), Some(1));
}

#[test]
fn goals_that_hold_cost_nothing() {
    let d = diamond();
    assert_eq!(h_add(&d, &set(&[0, 3]), &set(&[3])), Some(0));
    assert_eq!(h_max(&d, &set(&[0, 3]), &set(&[3])), Some(0));
    assert_eq!(h_ff(&d, &set(&[0, 3]), &set(&[3])), Some(0));
    assert_eq!(h_lmcut(&d, &set(&[0, 3]), &set(&[3])), Some(0));
    assert_eq!(h_prob_max(&d, &set(&[0, 3]), &set(&[3])), ONE);
    assert_eq!(h_add(&d, &set(&[]), &set(&[])), Some(0));
    assert_eq!(h_ff(&d, &set(&[]), &set(&[])), Some(0));
    assert_eq!(h_prob_max(&d, &set(&[]), &set(&[])), ONE);
}

#[test]
fn lmcut_counts_each_action_as_one() {
    let d = diamond();
    // two rounds of actions, whatever the actions cost
    assert_eq!(h_lmcut(&d, &set(&[0]), &set(&[3])), Some(2));
    let max = h_max(&d, &set(&[0]), &set(&[3])).unwrap();
    let plan = h_ff(&d, &set(&[0]), &set(&[3])).unwrap();
    assert!(2 <= max);
    assert!(2 <= plan);
}

#[test]
fn lmcut_cuts_are_disjoint() {
    let d = diamond();
    let (value, cuts) = h_lmcut_full(&d, &set(&[0]), &set(&[3]));
    assert_eq!(value, Some(2));
    assert_eq!(cuts.len(), 2);
    let mut seen: HashSet<usize> = HashSet::new();
    for (cut, cost) in &cuts {
        assert_eq!(*cost, 1);
        for a in cut {
            assert!(seen.insert(*a));
        }
    }
}

#[test]
fn lmcut_drops_the_cuts_of_the_excluded_action() {
    let d = diamond();
    let (full, cuts) = h_lmcut_full(&d, &set(&[0]), &set(&[3]));
    // the cut with the action is left out and found again
    for a in 0..3 {
        let (value, _) = h_lmcut_incremental(&d, &set(&[0]), &set(&[3]), &cuts, a);
        assert_eq!(value, full);
    }
    let (dead, none) = h_lmcut_full(&d, &set(&[0]), &set(&[4]));
    assert_eq!(dead, None);
    assert_eq!(none.len(), 0);
}

#[test]
fn relaxed_plan_of_a_diamond() {
    let d = diamond();
    // left, right and join
    assert_eq!(h_ff(&d, &set(&[0]), &set(&[3])), Some(3));
    let g = GraphPlan::build_graph(&d, &set(&[0]), &set(&[3])).unwrap();
    assert_eq!(plan_length(&d, &g, &set(&[3])), 3);
    // one action at least for every two layers
    assert_eq!(g.depth, 4);
    assert_eq!(Some(g.depth / 2), h_lmcut(&d, &set(&[0]), &set(&[3])));
}

#[test]
fn cheaper_action_is_picked() {
    // two actions add 3 in the same layer; the cheaper one needs a fact more
    let mut d = domain(
        5,
        vec![
            action("first", 1, &[0], &[1], None),
            action("second", 1, &[0], &[2], None),
            action("cheap", 1, &[1, 2], &[3], None),
            action("dear", 5, &[1], &[3], None),
            action("last", 1, &[3], &[4], None),
        ],
    );
    assert_eq!(h_ff(&d, &set(&[0]), &set(&[4])), Some(4));
    d.actions[3].cost = 0;
    assert_eq!(h_ff(&d, &set(&[0]), &set(&[4])), Some(3));
}

#[test]
fn actions_without_a_precondition_fire_at_once() {
    let d = domain(
        3,
        vec![action("free", 1, &[], &[1], None), action("on", 1, &[1], &[2], None)],
    );
    assert_eq!(h_ff(&d, &set(&[0]), &set(&[1])), Some(1));
    assert_eq!(h_lmcut(&d, &set(&[0]), &set(&[1])), Some(1));
    assert_eq!(h_add(&d, &set(&[0]), &set(&[1])), Some(1));
    // also where no fact holds
    assert_eq!(h_ff(&d, &set(&[]), &set(&[2])), Some(2));
    let g = GraphPlan::build_graph(&d, &set(&[]), &set(&[2])).unwrap();
    assert_eq!(g.get_action_layer(1), HashSet::from([0usize]));
    assert_eq!(g.get_fact_layer(2), set(&[1]));
    assert_eq!(g.get_action_layer(3), HashSet::from([1usize]));
    assert_eq!(g.depth, 4);
    // nothing fires where the goal holds
    let g = GraphPlan::build_graph(&d, &set(&[0]), &set(&[0])).unwrap();
    assert_eq!(g.depth, 0);
    assert!(g.get_action_layer(1).is_empty());
}

#[test]
fn graph_of_a_goal_that_holds_has_the_state() {
    let d = diamond();
    let g = GraphPlan::build_graph(&d, &set(&[0, 1, 5]), &set(&[1])).unwrap();
    assert_eq!(g.depth, 0);
    assert_eq!(g.get_fact_layer(0), set(&[0, 1, 5]));
}

#[test]
fn actions_of_the_last_visit_all_have_a_place() {
    // 3 comes of the dear action on 2 and of the cheap one on 1 and 2; the
    // visit of 2 sets off both
    let d = domain(
        4,
        vec![
            action("a0", 1, &[0], &[1], None),
            action("a1", 1, &[0], &[2], None),
            action("a2", 5, &[2], &[3], None),
            action("a3", 1, &[1, 2], &[3], None),
        ],
    );
    let g = GraphPlan::build_graph(&d, &set(&[0]), &set(&[3])).unwrap();
    assert_eq!(g.get_action_layer(3), HashSet::from([2usize, 3]));
    assert_eq!(h_ff(&d, &set(&[0]), &set(&[3])), Some(3));
}

#[test]
fn cuts_are_landmarks() {
    // two ways to 2: by a and b, or by c, d and e
    let d = domain(
        5,
        vec![
            action("a", 1, &[0], &[1], None),
            action("b", 1, &[1], &[2], None),
            action("c", 1, &[0], &[3], None),
            action("d", 1, &[3], &[4], None),
            action("e", 1, &[4], &[2], None),
        ],
    );
    let (value, cuts) = h_lmcut_full(&d, &set(&[0]), &set(&[2]));
    assert_eq!(value, Some(2));
    assert_eq!(cuts.len(), 2);
    for (actions, _) in &cuts {
        assert!(actions.contains(&0) || actions.contains(&1));
        assert!(actions.contains(&2) || actions.contains(&3) || actions.contains(&4));
    }
}

#[test]
fn incremental_value_is_admissible() {
    let d = diamond();
    let (_, cuts) = h_lmcut_full(&d, &set(&[0]), &set(&[3]));
    // right and join are left after left, left and join after right
    let (value, _) = h_lmcut_incremental(&d, &set(&[0, 1]), &set(&[3]), &cuts, 0);
    assert!(value.unwrap() <= 2);
    let (value, _) = h_lmcut_incremental(&d, &set(&[0, 2]), &set(&[3]), &cuts, 1);
    assert!(value.unwrap() <= 2);
    // a single cut that still has to be crossed is paid once
    let chain = domain(
        3,
        vec![action("a", 1, &[0], &[1], None), action("b", 1, &[1], &[2], None)],
    );
    let (value, cuts) = h_lmcut_full(&chain, &set(&[0]), &set(&[2]));
    assert_eq!(value, Some(2));
    let (value, cuts) = h_lmcut_incremental(&chain, &set(&[0, 1]), &set(&[2]), &cuts, 0);
    assert_eq!(value, Some(1));
    assert_eq!(cuts, vec![(vec![1], 1)]);
}

#[test]
fn layers_of_the_graph() {
    let d = diamond();
    let g = GraphPlan::build_graph(&d, &set(&[0]), &set(&[3])).unwrap();
    assert_eq!(g.get_fact_layer(0), set(&[0]));
    assert_eq!(g.get_fact_layer(2), set(&[1, 2]));
    assert_eq!(g.get_fact_layer(4), set(&[3]));
    assert_eq!(g.get_action_layer(1), HashSet::from([0usize, 1]));
    assert_eq!(g.get_action_layer(3), HashSet::from([2usize]));
    let by_layer = g.compute_goal_indices(&set(&[1, 3]));
    assert_eq!(by_layer.get(&2), Some(&set(&[1])));
    assert_eq!(by_layer.get(&4), Some(&set(&[3])));
    assert!(GraphPlan::build_graph(&d, &set(&[0]), &set(&[4])).is_none());
}

#[test]
fn goals_are_satisfied_when_all_have_a_layer() {
    let indices: HashMap<u32, u32> = HashMap::from([(0, 0), (1, 2), (2, u32::MAX)]);
    assert!(GraphPlan::all_goals_satisfied(&indices, &set(&[0, 1])));
    assert!(!GraphPlan::all_goals_satisfied(&indices, &set(&[0, 2])));
    assert!(GraphPlan::all_goals_satisfied(&indices, &set(&[])));
}

#[test]
fn graph_is_drawn() {
    let d = diamond();
    let g = GraphPlan::build_graph(&d, &set(&[0]), &set(&[3])).unwrap();
    let expected = "digraph G {\n\
        \trankdir=\"LR\"\n\
        \tsubgraph cluster0 {\n\
        \t\tlabel=\"layer0\"\n\
        \t\tstyle=filled;\n\
        \t\tcolor=lightgrey;\n\
        \t\t0 [label=\"fact 0\",shape=box]\n\
        \t}\n\
        \tsubgraph cluster1 {\n\
        \t\tlabel=\"layer1\"\n\
        \t\t0 [label=\"left\",shape=box]\n\
        \t\t1 [label=\"right\",shape=box]\n\
        \t}\n\
        \tsubgraph cluster2 {\n\
        \t\tlabel=\"layer2\"\n\
        \t\tstyle=filled;\n\
        \t\tcolor=lightgrey;\n\
        \t\t1 [label=\"fact 1\",shape=box]\n\
        \t\t2 [label=\"fact 2\",shape=box]\n\
        \t}\n\
        \tsubgraph cluster3 {\n\
        \t\tlabel=\"layer3\"\n\
        \t\t2 [label=\"join\",shape=box]\n\
        \t}\n\
        }\n";
    assert_eq!(g.to_dot(), expected);
}

#[test]
fn graph_without_layers_is_drawn() {
    let d = domain(11, vec![action("a", 1, &[10], &[9], None)]);
    let g = GraphPlan::build_graph(&d, &set(&[10]), &set(&[10])).unwrap();
    assert_eq!(g.depth, 0);
    assert_eq!(g.to_dot(), "digraph G {\n\trankdir=\"LR\"\n}\n");
    let g = GraphPlan::build_graph(&d, &set(&[10]), &set(&[9])).unwrap();
    assert!(g.to_dot().contains("\t\t10 [label=\"fact 10\",shape=box]\n"));
}

#[test]
fn products_of_probabilities() {
    assert_eq!(scale(ONE, ONE), ONE);
    assert_eq!(scale(ONE / 2, ONE / 2), ONE / 4);
    assert_eq!(scale(ONE / 5, 0), 0);
    // what is below one unit is cut off
    assert_eq!(scale(1, ONE - 1), 0);
}

#[test]
fn products_that_are_rounded_up() {
    assert_eq!(scale_up(ONE, ONE), ONE);
    assert_eq!(scale_up(ONE, 3), 3);
    assert_eq!(scale_up(ONE / 2, ONE / 2), ONE / 4);
    // what is below one unit counts as one
    assert_eq!(scale_up(1, ONE - 1), 1);
    assert_eq!(scale_up(1, 1), 1);
    assert_eq!(scale_up(3, ONE / 2), 2);
    assert_eq!(scale_up(0, ONE), 0);
    assert_eq!(scale_up(ONE, 0), 0);
}

#[test]
fn small_chances_are_no_dead_ends() {
    let d = domain(
        4,
        vec![
            action("rare", 1, &[0], &[1], Some(ONE / 1_000_000_000)),
            action("rarer", 1, &[1], &[2], Some(ONE / 10_000_000_000)),
            action("never", 1, &[0], &[3], Some(0)),
        ],
    );
    assert_eq!(h_prob_max(&d, &set(&[0]), &set(&[1])), ONE / 1_000_000_000);
    assert_eq!(h_prob_max(&d, &set(&[0]), &set(&[2])), 1);
    // what has no chance is one
    assert_eq!(h_prob_max(&d, &set(&[0]), &set(&[3])), 0);
    assert_eq!(h_prob_max(&d, &set(&[0]), &set(&[2, 3])), 0);
    assert_eq!(h_prob_max(&d, &set(&[1]), &set(&[0])), 0);
    // nineteen steps with one chance in ten each
    let steps: Vec<PrimitiveAction> =
        (0..19).map(|i| action("step", 1, &[i], &[i + 1], Some(ONE / 10))).collect();
    let d = domain(20, steps);
    assert_eq!(h_prob_max(&d, &set(&[0]), &set(&[18])), 1);
    assert_eq!(h_prob_max(&d, &set(&[0]), &set(&[19])), 1);
}

#[test]
fn probability_takes_the_better_of_two_ways() {
    let d = domain(
        4,
        vec![
            action("likely", 1, &[0], &[1], Some(ONE / 2)),
            action("unlikely", 1, &[0], &[1], Some(ONE / 4)),
            action("second", 1, &[1], &[2], Some(ONE / 2)),
            action("sure", 1, &[2], &[3], None),
        ],
    );
    assert_eq!(h_prob_max(&d, &set(&[0]), &set(&[1])), ONE / 2);
    assert_eq!(h_prob_max(&d, &set(&[0]), &set(&[2])), ONE / 4);
    assert_eq!(h_prob_max(&d, &set(&[0]), &set(&[3])), ONE / 4);
    // the least likely goal decides
    assert_eq!(h_prob_max(&d, &set(&[0]), &set(&[1, 3])), ONE / 4);
    // more goals are no more likely, more facts no less
    assert!(h_prob_max(&d, &set(&[0]), &set(&[1, 2])) <= h_prob_max(&d, &set(&[0]), &set(&[1])));
    assert_eq!(h_prob_max(&d, &set(&[0, 1]), &set(&[3])), ONE / 2);
}

#[test]
fn unreachable_goals_have_no_probability() {
    let d = diamond();
    assert_eq!(h_prob_max(&d, &set(&[0]), &set(&[4])), 0);
    assert_eq!(h_prob_max(&d, &set(&[0]), &set(&[99])), 0);
    assert_eq!(h_prob_max(&d, &set(&[0, 99]), &set(&[3])), ONE);
}

#[test]
fn impossible_outcomes_add_nothing() {
    let d = domain(2, vec![action("never", 1, &[0], &[1], Some(0))]);
    assert_eq!(h_prob_max(&d, &set(&[0]), &set(&[1])), 0);
    assert_eq!(h_add(&d, &set(&[0]), &set(&[1])), Some(1));
}

#[test]
fn actions_without_outcomes_add_nothing() {
    let mut d = diamond();
    d.actions[2].add_effects = vec![];
    assert_eq!(h_add(&d, &set(&[0]), &set(&[3])), None);
    assert_eq!(h_lmcut(&d, &set(&[0]), &set(&[3])), None);
    assert_eq!(h_prob_max(&d, &set(&[0]), &set(&[3])), 0);
}

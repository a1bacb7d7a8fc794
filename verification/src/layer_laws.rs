//! Laws of relaxed plans, of the layers of relaxed reachability, and of depths,
//! told by the actions of the domain.

use vstd::prelude::*;

use crate::domain::ClassicalDomain;
use crate::graphplan::{GraphPlan, Visits};
use crate::order::Ranked;

verus! {

/// A plan whose actions can be applied one after the other, deletes ignored, is a
/// relaxed plan, and what holds in the end is its result. The states are the
/// facts before and after each action.
pub proof fn law_plans_go_from_state_to_state(
    d: ClassicalDomain,
    s: Set<u32>,
    plan: Seq<int>,
    states: Seq<Set<u32>>,
)
    requires
        states.len() == plan.len() + 1,
        states[0] == s,
        forall|j: int|
            0 <= j < plan.len() ==> {
                let a = d.actions@[#[trigger] plan[j]];
                &&& 0 <= plan[j] < d.actions@.len()
                &&& forall|f: u32| #[trigger] a.pre_cond@.contains(f) ==> states[j].contains(f)
                &&& forall|f: u32| #[trigger]
                    states[j + 1].contains(f) <==> states[j].contains(f) || (a.add_effects@.len()
                        > 0 && a.add_effects@[0]@.contains(f))
            },
    ensures
        crate::lmcut_laws::is_relaxed_plan(d, s, plan),
        crate::lmcut_laws::relaxed_result(d, s, plan) == states.last(),
    decreases plan.len(),
{
    if plan.len() > 0 {
        let rest = plan.drop_last();
        let less = states.drop_last();
        let n = plan.len() - 1;
        assert forall|j: int| 0 <= j < rest.len() implies {
            let a = d.actions@[#[trigger] rest[j]];
            &&& 0 <= rest[j] < d.actions@.len()
            &&& forall|f: u32| #[trigger] a.pre_cond@.contains(f) ==> less[j].contains(f)
            &&& forall|f: u32| #[trigger]
                less[j + 1].contains(f) <==> less[j].contains(f) || (a.add_effects@.len() > 0
                    && a.add_effects@[0]@.contains(f))
        } by {
            assert(rest[j] == plan[j]);
        }
        law_plans_go_from_state_to_state(d, s, rest, less);
        assert(plan[n] == plan.last());
        assert(crate::lmcut_laws::relaxed_result(d, s, plan) =~= states[n + 1]);
    }
}

/// A relaxed plan can be applied one action after the other.
pub proof fn law_relaxed_plans_can_be_applied(d: ClassicalDomain, s: Set<u32>, plan: Seq<int>) -> (
states: Seq<Set<u32>>)
    requires
        crate::lmcut_laws::is_relaxed_plan(d, s, plan),
    ensures
        states.len() == plan.len() + 1,
        states[0] == s,
        states.last() == crate::lmcut_laws::relaxed_result(d, s, plan),
        forall|j: int|
            0 <= j < plan.len() ==> {
                let a = d.actions@[#[trigger] plan[j]];
                &&& 0 <= plan[j] < d.actions@.len()
                &&& forall|f: u32| #[trigger] a.pre_cond@.contains(f) ==> states[j].contains(f)
                &&& forall|f: u32| #[trigger]
                    states[j + 1].contains(f) <==> states[j].contains(f) || (a.add_effects@.len()
                        > 0 && a.add_effects@[0]@.contains(f))
            },
    decreases plan.len(),
{
    if plan.len() == 0 {
        seq![s]
    } else {
        let rest = plan.drop_last();
        let less = law_relaxed_plans_can_be_applied(d, s, rest);
        let states = less.push(crate::lmcut_laws::relaxed_result(d, s, plan));
        assert forall|j: int| 0 <= j < plan.len() implies {
            let a = d.actions@[#[trigger] plan[j]];
            &&& 0 <= plan[j] < d.actions@.len()
            &&& forall|f: u32| #[trigger] a.pre_cond@.contains(f) ==> states[j].contains(f)
            &&& forall|f: u32| #[trigger]
                states[j + 1].contains(f) <==> states[j].contains(f) || (a.add_effects@.len() > 0
                    && a.add_effects@[0]@.contains(f))
        } by {
            if j < rest.len() {
                assert(rest[j] == plan[j]);
                assert(less[j] == states[j] && less[j + 1] == states[j + 1]);
            } else {
                assert(states[j] == less.last());
            }
        }
        states
    }
}

/// The layers are those of relaxed reachability: the first one has the facts of the
/// start, and each further one what the one before it has and what the actions
/// add whose precondition that has.
pub proof fn law_layers_grow_by_what_actions_add(
    d: ClassicalDomain,
    s: Set<u32>,
    layers: Seq<Set<u32>>,
    k: int,
)
    requires
        0 <= k < layers.len(),
        forall|f: u32| #[trigger]
            layers[0].contains(f) <==> f < d.facts.names@.len() && s.contains(f),
        forall|j: int, f: u32|
            0 < j < layers.len() ==> (#[trigger] layers[j].contains(f) <==> layers[j - 1].contains(f)
                || (f < d.facts.names@.len() && exists|a: int|
                0 <= a < d.actions@.len() && (#[trigger] d.actions@[a]).add_effects@.len() > 0
                    && d.actions@[a].add_effects@[0]@.contains(f)
                    && d.actions@[a].pre_cond@.subset_of(layers[j - 1]))),
    ensures
        crate::graphplan::known(d, s, k as nat) == layers[k],
        crate::lmcut_laws::layer(d, s, k as nat) == layers[k],
    decreases k,
{
    if k > 0 {
        law_layers_grow_by_what_actions_add(d, s, layers, k - 1);
        let below = layers[k - 1];
        let known = crate::graphplan::known(d, s, k as nat);
        let layer = crate::lmcut_laws::layer(d, s, k as nat);
        assert forall|f: u32| known.contains(f) <==> layers[k].contains(f) by {
            if known.contains(f) && !below.contains(f) {
                let a = choose|a: int| #[trigger]
                    d.adds(a, f) && crate::graphplan::triggered(d, below, a);
                assert(d.actions@[a].add_effects@[0]@.contains(f));
            }
            if layers[k].contains(f) && !below.contains(f) {
                let a = choose|a: int|
                    0 <= a < d.actions@.len() && (#[trigger] d.actions@[a]).add_effects@.len() > 0
                        && d.actions@[a].add_effects@[0]@.contains(f)
                        && d.actions@[a].pre_cond@.subset_of(layers[k - 1]);
                assert(d.adds(a, f) && crate::graphplan::triggered(d, below, a));
            }
        }
        assert forall|f: u32| layer.contains(f) <==> layers[k].contains(f) by {
            if layer.contains(f) && !below.contains(f) {
                let a = choose|a: int| #[trigger] d.adds(a, f) && d.pre(a).subset_of(below);
                assert(d.actions@[a].add_effects@[0]@.contains(f));
            }
            if layers[k].contains(f) && !below.contains(f) {
                let a = choose|a: int|
                    0 <= a < d.actions@.len() && (#[trigger] d.actions@[a]).add_effects@.len() > 0
                        && d.actions@[a].add_effects@[0]@.contains(f)
                        && d.actions@[a].pre_cond@.subset_of(layers[k - 1]);
                assert(d.adds(a, f) && d.pre(a).subset_of(below));
            }
        }
        assert(known =~= layers[k]);
        assert(layer =~= layers[k]);
    } else {
        assert(crate::graphplan::known(d, s, 0) =~= layers[0]);
        assert(crate::lmcut_laws::layer(d, s, 0) =~= layers[0]);
    }
}

/// A goal is reached in the first layer that has all of it.
pub proof fn law_goal_is_reached_in_the_first_layer_that_has_it(
    d: ClassicalDomain,
    s: Set<u32>,
    goal: Set<u32>,
    layers: Seq<Set<u32>>,
    k: int,
)
    requires
        0 <= k < layers.len(),
        forall|f: u32| #[trigger]
            layers[0].contains(f) <==> f < d.facts.names@.len() && s.contains(f),
        forall|j: int, f: u32|
            0 < j < layers.len() ==> (#[trigger] layers[j].contains(f) <==> layers[j - 1].contains(f)
                || (f < d.facts.names@.len() && exists|a: int|
                0 <= a < d.actions@.len() && (#[trigger] d.actions@[a]).add_effects@.len() > 0
                    && d.actions@[a].add_effects@[0]@.contains(f)
                    && d.actions@[a].pre_cond@.subset_of(layers[j - 1]))),
    ensures
        crate::graphplan::reached_at(d, s, goal, k as nat) <==> goal.subset_of(layers[k]) && (k == 0
            || !goal.subset_of(layers[k - 1])),
{
    law_layers_grow_by_what_actions_add(d, s, layers, k);
    if k > 0 {
        law_layers_grow_by_what_actions_add(d, s, layers, k - 1);
    }
}

/// The number of layers before the first one that has the goal is the landmark-cut
/// value.
pub proof fn law_landmark_value_is_the_first_layer(
    d: ClassicalDomain,
    s: Set<u32>,
    goal: Set<u32>,
    value: Option<u32>,
    layers: Seq<Set<u32>>,
    k: int,
)
    requires
        0 <= k < layers.len() <= u32::MAX,
        forall|f: u32| #[trigger]
            layers[0].contains(f) <==> f < d.facts.names@.len() && s.contains(f),
        forall|j: int, f: u32|
            0 < j < layers.len() ==> (#[trigger] layers[j].contains(f) <==> layers[j - 1].contains(f)
                || (f < d.facts.names@.len() && exists|a: int|
                0 <= a < d.actions@.len() && (#[trigger] d.actions@[a]).add_effects@.len() > 0
                    && d.actions@[a].add_effects@[0]@.contains(f)
                    && d.actions@[a].pre_cond@.subset_of(layers[j - 1]))),
        goal.subset_of(layers[k]),
        k == 0 || !goal.subset_of(layers[k - 1]),
        crate::lmcut::is_lmcut_value(d, s, goal, value),
    ensures
        value == Some(k as u32),
{
    law_layers_grow_by_what_actions_add(d, s, layers, k);
    assert forall|g: u32| #[trigger] goal.contains(g) implies g < d.n_facts() by {
        crate::graphplan::lemma_known_bound(d, s, k as nat, g);
    }
    crate::lmcut_laws::law_value_is_first_layer_with_the_goal(d, s, goal, value);
    assert(goal.subset_of(crate::lmcut_laws::layer(d, s, k as nat)));
    let v = value->0 as int;
    assert(value is Some && v <= k);
    if v < k {
        law_layers_grow_by_what_actions_add(d, s, layers, v);
        law_layers_grow_by_what_actions_add(d, s, layers, k - 1);
        crate::graphplan::lemma_known_grows(d, s, v as nat, (k - 1) as nat);
    }
}

/// Where the graph has the fact.
proof fn lemma_graph_fact(g: GraphPlan, s: Set<u32>, goal: Set<u32>, f: u32, j: nat)
    requires
        g.wf(),
        g.is_layered(s, goal),
        f < g.domain.n_facts(),
    ensures
        g.facts@[f] == g.fact_layer@[f as int],
        goal.contains(f) ==> g.fact_layer@[f as int] != u32::MAX,
        g.fact_layer@[f as int] == 2 * j ==> crate::graphplan::enters(*g.domain, s, j, f),
        g.fact_layer@[f as int] != u32::MAX ==> g.fact_layer@[f as int] % 2 == 0
            && g.fact_layer@[f as int] <= g.depth,
        crate::graphplan::enters(*g.domain, s, j, f) && (j == 0 || j < g.depth / 2)
            ==> g.fact_layer@[f as int] == 2 * j,
{
    assert(g.facts@.contains_key(f));
}

/// Where the graph has the action.
proof fn lemma_graph_action(g: GraphPlan, s: Set<u32>, goal: Set<u32>, a: int, j: nat)
    requires
        g.wf(),
        g.is_layered(s, goal),
        0 <= a < g.domain.n_actions(),
    ensures
        g.action_layer@[a] == 2 * j + 1 && 2 * j + 1 < u32::MAX ==> crate::graphplan::fires(
            *g.domain,
            s,
            j,
            a,
        ),
        g.action_layer@[a] != u32::MAX ==> g.action_layer@[a] % 2 == 1 && g.action_layer@[a]
            < g.depth,
        crate::graphplan::fires(*g.domain, s, j, a) && j + 1 < g.depth / 2 ==> g.action_layer@[a]
            == 2 * j + 1,
{
}

/// The graph puts a fact into the layer of twice the number of the first layer that
/// has it. What comes before the last layer is in the graph, and so is the goal.
pub proof fn law_graph_puts_facts_into_their_first_layer(
    g: GraphPlan,
    s: Set<u32>,
    goal: Set<u32>,
    layers: Seq<Set<u32>>,
    f: u32,
    j: int,
)
    requires
        g.wf(),
        g.is_layered(s, goal),
        layers.len() == g.depth / 2 + 1,
        forall|f: u32| #[trigger]
            layers[0].contains(f) <==> f < g.domain.facts.names@.len() && s.contains(f),
        forall|j: int, f: u32|
            0 < j < layers.len() ==> (#[trigger] layers[j].contains(f) <==> layers[j - 1].contains(f)
                || (f < g.domain.facts.names@.len() && exists|a: int|
                0 <= a < g.domain.actions@.len() && (
                #[trigger] g.domain.actions@[a]).add_effects@.len() > 0
                    && g.domain.actions@[a].add_effects@[0]@.contains(f)
                    && g.domain.actions@[a].pre_cond@.subset_of(layers[j - 1]))),
        f < g.domain.facts.names@.len(),
        0 <= j < layers.len(),
    ensures
        g.facts@[f] == g.fact_layer@[f as int],
        goal.contains(f) ==> g.fact_layer@[f as int] != u32::MAX,
        g.fact_layer@[f as int] != u32::MAX ==> g.fact_layer@[f as int] % 2 == 0
            && g.fact_layer@[f as int] <= g.depth,
        g.fact_layer@[f as int] == 2 * j ==> layers[j].contains(f) && (j == 0
            || !layers[j - 1].contains(f)),
        layers[j].contains(f) && (j == 0 || !layers[j - 1].contains(f)) && (j == 0 || j
            < layers.len() - 1) ==> g.fact_layer@[f as int] == 2 * j,
{
    lemma_graph_fact(g, s, goal, f, j as nat);
    law_layers_grow_by_what_actions_add(*g.domain, s, layers, j);
    if j > 0 {
        law_layers_grow_by_what_actions_add(*g.domain, s, layers, j - 1);
    }
}

/// The graph puts an action into the layer right above the first that has its
/// precondition, and all those whose effects come before the last layer.
pub proof fn law_graph_puts_actions_into_their_first_layer(
    g: GraphPlan,
    s: Set<u32>,
    goal: Set<u32>,
    layers: Seq<Set<u32>>,
    a: int,
    j: int,
)
    requires
        g.wf(),
        g.is_layered(s, goal),
        layers.len() == g.depth / 2 + 1,
        forall|f: u32| #[trigger]
            layers[0].contains(f) <==> f < g.domain.facts.names@.len() && s.contains(f),
        forall|j: int, f: u32|
            0 < j < layers.len() ==> (#[trigger] layers[j].contains(f) <==> layers[j - 1].contains(f)
                || (f < g.domain.facts.names@.len() && exists|a: int|
                0 <= a < g.domain.actions@.len() && (
                #[trigger] g.domain.actions@[a]).add_effects@.len() > 0
                    && g.domain.actions@[a].add_effects@[0]@.contains(f)
                    && g.domain.actions@[a].pre_cond@.subset_of(layers[j - 1]))),
        0 <= a < g.domain.actions@.len(),
        0 <= j < layers.len(),
    ensures
        g.action_layer@[a] != u32::MAX ==> g.action_layer@[a] % 2 == 1 && g.action_layer@[a]
            < g.depth,
        g.action_layer@[a] == 2 * j + 1 && 2 * j + 1 < u32::MAX
            ==> g.domain.actions@[a].pre_cond@.subset_of(layers[j]) && (j == 0
            || !g.domain.actions@[a].pre_cond@.subset_of(layers[j - 1])),
        g.domain.actions@[a].pre_cond@.subset_of(layers[j]) && (j == 0
            || !g.domain.actions@[a].pre_cond@.subset_of(layers[j - 1])) && j < layers.len() - 2
            ==> g.action_layer@[a] == 2 * j + 1,
{
    lemma_graph_action(g, s, goal, a, j as nat);
    law_layers_grow_by_what_actions_add(*g.domain, s, layers, j);
    if j > 0 {
        law_layers_grow_by_what_actions_add(*g.domain, s, layers, j - 1);
    }
}

/// The last layer of the graph completes the goal.
pub proof fn law_last_layer_completes_the_goal(
    g: GraphPlan,
    s: Set<u32>,
    goal: Set<u32>,
    layers: Seq<Set<u32>>,
)
    requires
        g.wf(),
        g.is_layered(s, goal),
        layers.len() == g.depth / 2 + 1,
        forall|f: u32| #[trigger]
            layers[0].contains(f) <==> f < g.domain.facts.names@.len() && s.contains(f),
        forall|j: int, f: u32|
            0 < j < layers.len() ==> (#[trigger] layers[j].contains(f) <==> layers[j - 1].contains(f)
                || (f < g.domain.facts.names@.len() && exists|a: int|
                0 <= a < g.domain.actions@.len() && (
                #[trigger] g.domain.actions@[a]).add_effects@.len() > 0
                    && g.domain.actions@[a].add_effects@[0]@.contains(f)
                    && g.domain.actions@[a].pre_cond@.subset_of(layers[j - 1]))),
    ensures
        g.depth % 2 == 0,
        goal.subset_of(layers.last()),
        layers.len() > 1 ==> !goal.subset_of(layers[layers.len() - 2]),
{
    let k = (g.depth / 2) as int;
    law_goal_is_reached_in_the_first_layer_that_has_it(*g.domain, s, goal, layers, k);
}

/// The length that the relaxed plan heuristic gives is that of a plan which can be
/// applied one action after the other, deletes ignored, and has the goal in the
/// end.
pub proof fn law_relaxed_plan_has_its_length(
    d: ClassicalDomain,
    s: Set<u32>,
    goal: Set<u32>,
    len: u32,
) -> (w: (Seq<int>, Seq<Set<u32>>))
    requires
        crate::ff::is_ff(d, s, goal, len),
    ensures
        w.0.len() == len,
        w.1.len() == len + 1,
        w.1[0] == s,
        goal.subset_of(w.1.last()),
        forall|j: int|
            0 <= j < w.0.len() ==> {
                let a = d.actions@[#[trigger] w.0[j]];
                &&& 0 <= w.0[j] < d.actions@.len()
                &&& forall|f: u32| #[trigger] a.pre_cond@.contains(f) ==> w.1[j].contains(f)
                &&& forall|f: u32| #[trigger]
                    w.1[j + 1].contains(f) <==> w.1[j].contains(f) || (a.add_effects@.len() > 0
                        && a.add_effects@[0]@.contains(f))
            },
{
    crate::ff_laws::law_length_is_the_one_of_a_plan(d, s, goal, len);
    let plan = choose|plan: Seq<int>|
        crate::ff_laws::is_plan_of(d, s, goal, len as nat, plan);
    let states = law_relaxed_plans_can_be_applied(d, s, plan);
    (plan, states)
}

/// The action that is picked for a fact above the first layer adds it from the layer
/// right below. None that does is cheaper, and none as cheap is listed earlier.
pub proof fn law_picked_actions_are_the_cheapest(g: GraphPlan, f: u32, b: int) -> (a: int)
    requires
        g.wf(),
        f < g.domain.facts.names@.len(),
        0 < g.fact_layer@[f as int] < u32::MAX,
    ensures
        a == crate::ff::pick(g, f),
        0 <= a < g.domain.actions@.len(),
        g.domain.actions@[a].add_effects@.len() > 0,
        g.domain.actions@[a].add_effects@[0]@.contains(f),
        g.action_layer@[a] == g.fact_layer@[f as int] - 1,
        0 <= b < g.domain.actions@.len() && g.domain.actions@[b].add_effects@.len() > 0
            && g.domain.actions@[b].add_effects@[0]@.contains(f) && g.action_layer@[b]
            == g.fact_layer@[f as int] - 1 ==> g.domain.actions@[a].cost < g.domain.actions@[b].cost
            || (g.domain.actions@[a].cost == g.domain.actions@[b].cost && a <= b),
{
    let first = choose|x: int| #[trigger]
        g.domain.adds(x, f) && g.action_layer@[x] == g.fact_layer@[f as int] - 1;
    let best = lemma_some_pick(g, f, g.domain.actions@.len(), first);
    assert(crate::ff::is_pick(g, f, best)) by {
        assert forall|x: int| #[trigger] crate::ff::supplies(g, f, x) implies crate::ff::preferred(
            *g.domain,
            best,
            x,
        ) by {
            assert(0 <= x < g.domain.actions@.len());
        }
    }
    let a = crate::ff::pick(g, f);
    assert(crate::ff::is_pick(g, f, a));
    if 0 <= b < g.domain.actions@.len() && g.domain.actions@[b].add_effects@.len() > 0
        && g.domain.actions@[b].add_effects@[0]@.contains(f) && g.action_layer@[b]
        == g.fact_layer@[f as int] - 1 {
        assert(crate::ff::supplies(g, f, b));
    }
    a
}

/// Of the actions below `n` that supply the fact, or the given one, one is the best.
proof fn lemma_some_pick(g: GraphPlan, f: u32, n: nat, first: int) -> (a: int)
    requires
        crate::ff::supplies(g, f, first),
    ensures
        crate::ff::supplies(g, f, a),
        crate::ff::preferred(*g.domain, a, first),
        forall|x: int|
            0 <= x < n && #[trigger] crate::ff::supplies(g, f, x) ==> crate::ff::preferred(
                *g.domain,
                a,
                x,
            ),
    decreases n,
{
    if n == 0 {
        first
    } else {
        let best = lemma_some_pick(g, f, (n - 1) as nat, first);
        if crate::ff::supplies(g, f, n - 1) && !crate::ff::preferred(*g.domain, best, n - 1) {
            n - 1
        } else {
            best
        }
    }
}

/// The wanted facts of a layer are listed in ascending order.
proof fn lemma_goals_below(g: GraphPlan, wanted: Set<u32>, i: nat, k: nat)
    requires
        k <= g.domain.n_facts() <= u32::MAX,
    ensures
        crate::order::ascends(crate::ff::goals_below(g, wanted, i, k)),
        forall|f: u32| #[trigger]
            crate::ff::goals_below(g, wanted, i, k).contains(f) <==> f < k && wanted.contains(f)
                && g.fact_layer@[f as int] == i,
    decreases k,
{
    let all = crate::ff::goals_below(g, wanted, i, k);
    if k > 0 {
        let rest = crate::ff::goals_below(g, wanted, i, (k - 1) as nat);
        lemma_goals_below(g, wanted, i, (k - 1) as nat);
        let last = (k - 1) as u32;
        if wanted.contains(last) && g.fact_layer@[k - 1] == i {
            assert forall|x: int, y: int| 0 <= x < y < all.len() implies (
            #[trigger] all[x]).precedes(#[trigger] all[y]) by {
                assert(rest.contains(rest[x]));
                if y < rest.len() {
                    assert(rest[x].precedes(rest[y]));
                }
            }
            assert forall|f: u32| #[trigger] all.contains(f) <==> f < k && wanted.contains(f)
                && g.fact_layer@[f as int] == i by {
                if rest.contains(f) {
                    let x = choose|x: int| 0 <= x < rest.len() && rest[x] == f;
                    assert(all[x] == f);
                }
                if f == last {
                    assert(all[rest.len() as int] == f);
                }
                if all.contains(f) && f != last {
                    let x = choose|x: int| 0 <= x < all.len() && all[x] == f;
                    assert(rest[x] == f);
                }
            }
        }
    }
}

/// What is wanted once actions are picked for all goals of a layer.
proof fn lemma_wanted_after(g: GraphPlan, wanted: Set<u32>, goals: Seq<u32>, p: u32)
    ensures
        crate::ff::wanted_after(g, wanted, goals).contains(p) <==> wanted.contains(p) || exists|
            j: int,
        | #[trigger]
            new_goal_at(g, goals, j, p),
    decreases goals.len(),
{
    if goals.len() > 0 {
        let rest = goals.drop_last();
        let n = goals.len() - 1;
        lemma_wanted_after(g, wanted, rest, p);
        if exists|j: int| #[trigger] new_goal_at(g, rest, j, p) {
            let j = choose|j: int| #[trigger] new_goal_at(g, rest, j, p);
            assert(rest.take(j) =~= goals.take(j));
            assert(new_goal_at(g, goals, j, p));
        }
        assert(goals.take(n) =~= rest);
        if crate::ff::is_new_goal(g, goals, p) {
            assert(new_goal_at(g, goals, n, p));
        }
        if exists|j: int| #[trigger] new_goal_at(g, goals, j, p) {
            let j = choose|j: int| #[trigger] new_goal_at(g, goals, j, p);
            if j < n {
                assert(rest.take(j) =~= goals.take(j));
                assert(new_goal_at(g, rest, j, p));
            } else {
                assert(crate::ff::is_new_goal(g, goals, p));
            }
        }
    }
}

/// The action picked for the goal at `j` makes `p` a goal.
spec fn new_goal_at(g: GraphPlan, goals: Seq<u32>, j: int, p: u32) -> bool {
    &&& 0 <= j < goals.len()
    &&& g.domain.pre(crate::ff::pick(g, goals[j])).contains(p)
    &&& g.fact_layer@[p as int] != 0
    &&& !crate::ff::marked(g, goals.take(j)).contains(p)
}

/// The action is the cheapest that adds the fact from right below, and the earliest
/// of the cheapest.
pub open spec fn is_cheapest_for(g: GraphPlan, f: u32, a: int) -> bool {
    &&& 0 <= a < g.domain.actions@.len()
    &&& g.domain.actions@[a].add_effects@.len() > 0
    &&& g.domain.actions@[a].add_effects@[0]@.contains(f)
    &&& g.action_layer@[a] == g.fact_layer@[f as int] - 1
    &&& forall|b: int|
        0 <= b < g.domain.actions@.len() && (#[trigger] g.domain.actions@[b]).add_effects@.len() > 0
            && g.domain.actions@[b].add_effects@[0]@.contains(f) && g.action_layer@[b]
            == g.fact_layer@[f as int] - 1 ==> g.domain.actions@[a].cost < g.domain.actions@[b].cost
            || (g.domain.actions@[a].cost == g.domain.actions@[b].cost && a <= b)
}

/// The cheapest action is the one that is picked.
proof fn lemma_cheapest_is_picked(g: GraphPlan, f: u32, a: int)
    requires
        f < g.domain.n_facts(),
        is_cheapest_for(g, f, a),
    ensures
        crate::ff::pick(g, f) == a,
{
    assert(crate::ff::is_pick(g, f, a)) by {
        assert forall|b: int| #[trigger] crate::ff::supplies(g, f, b) implies crate::ff::preferred(
            *g.domain,
            a,
            b,
        ) by {
            assert(g.domain.actions@[b].add_effects@.len() > 0);
        }
    }
    let x = crate::ff::pick(g, f);
    assert(crate::ff::is_pick(g, f, x));
    assert(crate::ff::supplies(g, f, a));
    assert(crate::ff::supplies(g, f, x));
}

/// The length of a relaxed plan is what is counted when the graph is gone through from
/// the last layer to the first. `wanted[i]` is what is wanted once the layers above
/// `i` are dealt with: at first the goal. `goals[i]` lists what of that first
/// occurs in the layer `i`, in ascending order, and `picks[i]` has the cheapest action
/// for each. What such an action needs is wanted as well, unless it holds at the
/// start or an action picked earlier for the layer adds it. `counts` adds up the
/// goals of the layers from the first on.
pub proof fn law_plan_length_counts_one_action_for_each_goal(
    g: GraphPlan,
    wanted: Seq<Set<u32>>,
    goals: Seq<Seq<u32>>,
    picks: Seq<Seq<int>>,
    counts: Seq<int>,
    i: int,
)
    requires
        g.wf(),
        0 <= i <= g.depth,
        wanted.len() == g.depth + 1,
        goals.len() == g.depth + 1,
        picks.len() == g.depth + 1,
        counts.len() == g.depth + 1,
        counts[0] == 0,
        forall|x: int| 0 < x < counts.len() ==> #[trigger] counts[x] == counts[x - 1]
            + goals[x].len(),
        forall|x: int, f: u32|
            0 < x < goals.len() ==> (#[trigger] goals[x].contains(f) <==> f
                < g.domain.facts.names@.len() && wanted[x].contains(f) && g.fact_layer@[f as int]
                == x),
        forall|x: int, y: int, z: int|
            0 < x < goals.len() && 0 <= y < z < goals[x].len() ==> #[trigger] goals[x][y]
                < #[trigger] goals[x][z],
        forall|x: int| 0 < x < goals.len() ==> (#[trigger] picks[x]).len() == goals[x].len(),
        forall|x: int, y: int|
            0 < x < goals.len() && 0 <= y < goals[x].len() ==> is_cheapest_for(
                g,
                #[trigger] goals[x][y],
                picks[x][y],
            ),
        forall|x: int, p: u32|
            0 < x < wanted.len() ==> (#[trigger] wanted[x - 1].contains(p) <==> wanted[x].contains(
                p,
            ) || exists|y: int| #[trigger] is_needed_by(g, picks[x], y, p)),
    ensures
        crate::ff::steps(g, wanted[i], i as nat) == counts[i],
    decreases i,
{
    if i > 0 {
        let list = crate::ff::layer_goals(g, wanted[i], i as nat);
        lemma_goals_below(g, wanted[i], i as nat, g.domain.n_facts());
        assert forall|x: int, y: int| 0 <= x < y < goals[i].len() implies (
        #[trigger] goals[i][x]).precedes(#[trigger] goals[i][y]) by {
            assert(goals[i][x] < goals[i][y]);
        }
        assert forall|f: u32| #[trigger] list.contains(f) <==> goals[i].contains(f) by {}
        crate::order::lemma_ascending_unique(list, goals[i]);
        assert(picks[i].len() == goals[i].len());
        assert forall|y: int| 0 <= y < list.len() implies crate::ff::pick(g, #[trigger] list[y])
            == picks[i][y] by {
            assert(list.contains(list[y]));
            assert(is_cheapest_for(g, goals[i][y], picks[i][y]));
            lemma_cheapest_is_picked(g, list[y], picks[i][y]);
        }
        let next = crate::ff::wanted_after(g, wanted[i], list);
        assert forall|p: u32| next.contains(p) <==> wanted[i - 1].contains(p) by {
            lemma_wanted_after(g, wanted[i], list, p);
            lemma_needed(g, list, picks[i], p);
        }
        assert(next =~= wanted[i - 1]);
        law_plan_length_counts_one_action_for_each_goal(
            g,
            wanted,
            goals,
            picks,
            counts,
            i - 1,
        );
        assert(counts[i] == counts[i - 1] + goals[i].len());
    }
}

/// The picked action at `y` needs the fact, which does not hold at the start, and none
/// of those before it adds the fact.
pub open spec fn is_needed_by(g: GraphPlan, picks: Seq<int>, y: int, p: u32) -> bool {
    &&& 0 <= y < picks.len()
    &&& g.domain.actions@[picks[y]].pre_cond@.contains(p)
    &&& g.fact_layer@[p as int] != 0
    &&& forall|z: int|
        0 <= z < y ==> (#[trigger] g.domain.actions@[picks[z]]).add_effects@.len() == 0
            || !g.domain.actions@[picks[z]].add_effects@[0]@.contains(p)
}

proof fn lemma_needed(g: GraphPlan, goals: Seq<u32>, picks: Seq<int>, p: u32)
    requires
        picks.len() == goals.len(),
        forall|y: int| 0 <= y < goals.len() ==> crate::ff::pick(g, #[trigger] goals[y]) == picks[y],
    ensures
        (exists|j: int| #[trigger] new_goal_at(g, goals, j, p)) <==> exists|y: int| #[trigger]
            is_needed_by(g, picks, y, p),
{
    if exists|j: int| #[trigger] new_goal_at(g, goals, j, p) {
        let j = choose|j: int| #[trigger] new_goal_at(g, goals, j, p);
        let before = goals.take(j);
        assert forall|z: int| 0 <= z < j implies (
        #[trigger] g.domain.actions@[picks[z]]).add_effects@.len() == 0
            || !g.domain.actions@[picks[z]].add_effects@[0]@.contains(p) by {
            assert(before[z] == goals[z]);
            assert(crate::ff::pick(g, goals[z]) == picks[z]);
            if g.domain.add(picks[z]).contains(p) {
                assert(g.domain.add(crate::ff::pick(g, before[z])).contains(p));
                assert(crate::ff::marked(g, before).contains(p));
            }
        }
        assert(crate::ff::pick(g, goals[j]) == picks[j]);
        assert(is_needed_by(g, picks, j, p));
    }
    if exists|y: int| #[trigger] is_needed_by(g, picks, y, p) {
        let j = choose|y: int| #[trigger] is_needed_by(g, picks, y, p);
        let before = goals.take(j);
        if crate::ff::marked(g, before).contains(p) {
            let z = choose|z: int|
                0 <= z < before.len() && #[trigger] g.domain.add(
                    crate::ff::pick(g, before[z]),
                ).contains(p);
            assert(before[z] == goals[z]);
            assert(crate::ff::pick(g, goals[z]) == picks[z]);
            assert(g.domain.actions@[picks[z]].add_effects@.len() > 0);
        }
        assert(crate::ff::pick(g, goals[j]) == picks[j]);
        assert(new_goal_at(g, goals, j, p));
    }
}

/// The relaxed plan heuristic starts from the goal facts of the domain in a graph that
/// the facts and the goal give.
pub proof fn law_relaxed_plan_starts_from_the_goal(
    d: ClassicalDomain,
    s: Set<u32>,
    goal: Set<u32>,
    len: u32,
) -> (w: (GraphPlan<'static>, Set<u32>))
    requires
        crate::ff::is_ff(d, s, goal, len),
    ensures
        *w.0.domain == d,
        w.0.wf(),
        w.0.is_layered(s, goal),
        forall|f: u32| #[trigger]
            w.1.contains(f) <==> f < d.facts.names@.len() && goal.contains(f),
        len == crate::ff::steps(w.0, w.1, w.0.depth as nat),
{
    let g = choose|g: GraphPlan<'static>| crate::ff::is_ff_of(g, d, s, goal, len);
    (g, crate::ff::own_goals(g, goal))
}

/// The first number of visits that sets off the action.
proof fn lemma_first_set_off(d: ClassicalDomain, order: Seq<u32>, t: int, a: int) -> (first: int)
    requires
        0 <= t <= order.len(),
        crate::graphplan::triggered(d, order.take(t).to_set(), a),
    ensures
        0 <= first <= t,
        crate::graphplan::set_off(d, order, first, a),
    decreases t,
{
    if t > 0 && crate::graphplan::triggered(d, order.take(t - 1).to_set(), a) {
        lemma_first_set_off(d, order, t - 1, a)
    } else {
        t
    }
}

/// A graph goes through the facts in an order of visits, and stops with the visit that
/// completes the goal. It has the actions whose precondition is among the visited
/// facts, and no other, and the facts that hold at the start or are added by such an
/// action, and no other. The last visit sets off the action `w.2`, which adds the
/// goal fact `w.3`, and no action that was set off before adds that.
pub proof fn law_graph_stops_once_the_goal_is_complete(
    g: GraphPlan,
    s: Set<u32>,
    goal: Set<u32>,
) -> (w: (Seq<u32>, int, int, u32))
    requires
        g.wf(),
        g.is_layered(s, goal),
        g.depth > 0,
    ensures
        ({
            let (order, done, last, fact) = w;
            &&& order.no_duplicates()
            &&& 0 <= done <= order.len()
            &&& forall|a: int|
                0 <= a < g.domain.actions@.len() ==> (#[trigger] g.action_layer@[a] != u32::MAX
                    <==> g.domain.actions@[a].pre_cond@.subset_of(order.take(done).to_set()))
            &&& forall|f: u32|
                f < g.domain.facts.names@.len() ==> (#[trigger] g.fact_layer@[f as int] != u32::MAX
                    <==> order.contains(f))
            &&& forall|f: u32|
                f < g.domain.facts.names@.len() ==> (#[trigger] order.contains(f) <==> s.contains(f)
                    || exists|a: int|
                    0 <= a < g.domain.actions@.len() && #[trigger] g.action_layer@[a] != u32::MAX
                        && g.domain.actions@[a].add_effects@.len() > 0
                        && g.domain.actions@[a].add_effects@[0]@.contains(f))
            &&& goal.contains(fact)
            &&& !s.contains(fact)
            &&& 0 <= last < g.domain.actions@.len()
            &&& g.domain.actions@[last].pre_cond@.subset_of(order.take(done).to_set())
            &&& g.domain.actions@[last].add_effects@.len() > 0
            &&& g.domain.actions@[last].add_effects@[0]@.contains(fact)
            &&& done > 0 ==> forall|a: int|
                0 <= a < g.domain.actions@.len()
                    && (#[trigger] g.domain.actions@[a]).pre_cond@.subset_of(
                    order.take(done - 1).to_set(),
                ) ==> g.domain.actions@[a].add_effects@.len() == 0
                    || !g.domain.actions@[a].add_effects@[0]@.contains(fact)
        }),
{
    let d = *g.domain;
    let v = choose|v: Visits| #[trigger] g.is_visited(s, goal, v);
    let order = v.order;
    let done = v.done as int;
    let seen = order.take(done).to_set();
    let (last, fact) = choose|a: int, f: u32|
        goal.contains(f) && !crate::graphplan::known(d, s, 0).contains(f)
            && #[trigger] crate::graphplan::brings(d, order, (done, a), f);
    assert forall|a: int| 0 <= a < d.actions@.len() implies (#[trigger] g.action_layer@[a]
        != u32::MAX <==> d.actions@[a].pre_cond@.subset_of(seen)) by {
        assert(crate::graphplan::triggered(d, seen, a) <==> d.actions@[a].pre_cond@.subset_of(seen));
    }
    assert forall|f: u32| f < d.facts.names@.len() implies (#[trigger] order.contains(f)
        <==> s.contains(f) || exists|a: int|
        0 <= a < d.actions@.len() && #[trigger] g.action_layer@[a] != u32::MAX
            && d.actions@[a].add_effects@.len() > 0 && d.actions@[a].add_effects@[0]@.contains(
            f,
        )) by {
        if order.contains(f) && !s.contains(f) {
            let i = choose|i: int| 0 <= i < order.len() && order[i] == f;
            assert(!crate::graphplan::known(d, s, 0).contains(order[i]));
            let e = v.events[i];
            assert(crate::graphplan::brings(d, order, e, f));
            assert(order.take(e.0).to_set().subset_of(seen)) by {
                assert forall|x: u32| order.take(e.0).to_set().contains(x) implies seen.contains(
                    x,
                ) by {
                    let y = choose|y: int| 0 <= y < e.0 && order.take(e.0)[y] == x;
                    assert(order.take(done)[y] == x);
                }
            }
            assert(crate::graphplan::triggered(d, seen, e.1));
            assert(g.action_layer@[e.1] != u32::MAX);
        }
        if s.contains(f) {
            assert(crate::graphplan::known(d, s, 0).contains(f));
        }
        if exists|a: int|
            0 <= a < d.actions@.len() && #[trigger] g.action_layer@[a] != u32::MAX
                && d.actions@[a].add_effects@.len() > 0 && d.actions@[a].add_effects@[0]@.contains(
                f,
            ) {
            let a = choose|a: int|
                0 <= a < d.actions@.len() && #[trigger] g.action_layer@[a] != u32::MAX
                    && d.actions@[a].add_effects@.len() > 0
                    && d.actions@[a].add_effects@[0]@.contains(f);
            assert(d.adds(a, f));
            assert(crate::graphplan::triggered(d, seen, a));
        }
    }
    assert forall|f: u32| f < d.facts.names@.len() implies (#[trigger] g.fact_layer@[f as int]
        != u32::MAX <==> order.contains(f)) by {}
    if done > 0 {
        assert forall|a: int|
            0 <= a < d.actions@.len() && (#[trigger] d.actions@[a]).pre_cond@.subset_of(
                order.take(done - 1).to_set(),
            ) implies d.actions@[a].add_effects@.len() == 0
            || !d.actions@[a].add_effects@[0]@.contains(fact) by {
            assert(crate::graphplan::triggered(d, order.take(done - 1).to_set(), a));
            let t = lemma_first_set_off(d, order, done - 1, a);
            assert(crate::graphplan::is_earlier((t, a), (done, last)));
            assert(!d.adds(a, fact));
        }
    }
    (order, done, last, fact)
}

/// What is wanted at first is the goal, as far as it is of facts of the domain.
pub proof fn law_goal_facts_of_the_domain_are_wanted(g: GraphPlan, goal: Set<u32>, f: u32)
    ensures
        crate::ff::own_goals(g, goal).contains(f) <==> f < g.domain.facts.names@.len()
            && goal.contains(f),
{
}

/// A graph lists for each fact the actions that have a layer and add it.
pub proof fn law_graph_lists_what_adds_a_fact(g: GraphPlan, f: u32, a: usize)
    requires
        g.wf(),
        f < g.domain.facts.names@.len(),
    ensures
        g.effect_to_actions@.len() == g.domain.facts.names@.len(),
        g.fact_layer@.len() == g.domain.facts.names@.len(),
        g.action_layer@.len() == g.domain.actions@.len(),
        g.effect_to_actions@[f as int]@.contains(a) <==> a < g.domain.actions@.len()
            && g.action_layer@[a as int] != u32::MAX && g.domain.actions@[a as int].add_effects@.len()
            > 0 && g.domain.actions@[a as int].add_effects@[0]@.contains(f),
        a < g.domain.actions@.len() ==> g.actions@.contains_key(a) && g.actions@[a]
            == g.action_layer@[a as int],
        g.facts@.contains_key(f),
{
}

} // verus!

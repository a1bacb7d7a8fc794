//! Laws of the graphs of policies, told by their nodes and edges.

use vstd::prelude::*;

use crate::policy::{NodeKind, NodeView, ReachNode, SearchMode};
use crate::probability::ONE;
use crate::reach::{Assignment, Choice, Policy, Setting};
use crate::signature::Place;
use crate::task_network::{DomainTasks, Network};

verus! {

/// What is said of the nodes of a graph is what they hold.
pub proof fn law_nodes_say_what_they_hold(reach: Seq<ReachNode>, i: int)
    requires
        0 <= i < reach.len(),
    ensures
        crate::policy::views(reach).len() == reach.len(),
        crate::policy::views(reach)[i].kind == reach[i].kind,
        crate::policy::views(reach)[i].prob_upper == reach[i].prob_upper,
        crate::policy::views(reach)[i].cost_lower == reach[i].cost_lower,
        crate::policy::views(reach)[i].successors == reach[i].successors@,
        crate::policy::views(reach)[i].place.net.tasks == reach[i].tn.tasks@,
        forall|a: int, b: int| #[trigger]
            crate::policy::views(reach)[i].place.net.before.contains((a, b)) <==> exists|k: int|
                0 <= k < reach[i].tn.order@.len() && (#[trigger] reach[i].tn.order@[k]).0 == a
                    && reach[i].tn.order@[k].1 == b,
        forall|f: u32| #[trigger]
            crate::policy::views(reach)[i].place.facts.contains(f) <==> reach[i].state@.contains(f),
{
}

/// A path along edges reaches its last node.
proof fn lemma_path_reaches(nodes: Seq<NodeView>, path: Seq<int>, edges: Seq<int>)
    requires
        path.len() == edges.len() + 1,
        path[0] == 0,
        forall|t: int| 0 <= t < path.len() ==> 0 <= #[trigger] path[t] < nodes.len(),
        forall|t: int|
            0 <= t < edges.len() ==> 0 <= #[trigger] edges[t] < nodes[path[t]].successors.len()
                && nodes[path[t]].successors[edges[t]].0 == path[t + 1],
    ensures
        crate::proper::is_reached_in(nodes, edges.len(), path.last()),
    decreases edges.len(),
{
    if edges.len() > 0 {
        let rest = path.drop_last();
        let less = edges.drop_last();
        let t = edges.len() - 1;
        assert forall|t: int|
            0 <= t < less.len() implies 0 <= #[trigger] less[t] < nodes[rest[t]].successors.len()
                && nodes[rest[t]].successors[less[t]].0 == rest[t + 1] by {
            assert(less[t] == edges[t]);
        }
        lemma_path_reaches(nodes, rest, less);
        assert(edges[t] < nodes[path[t]].successors.len());
        assert(crate::proper::has_edge(nodes, path[t], path[t + 1]));
    }
}

/// A node that is reached is at the end of a path along edges.
proof fn lemma_reached_by_path(nodes: Seq<NodeView>, n: nat, i: int) -> (w: (Seq<int>, Seq<int>))
    requires
        crate::proper::is_reached_in(nodes, n, i),
        0 <= i < nodes.len(),
    ensures
        w.0.len() == w.1.len() + 1,
        w.0[0] == 0,
        w.0.last() == i,
        forall|t: int| 0 <= t < w.0.len() ==> 0 <= #[trigger] w.0[t] < nodes.len(),
        forall|t: int|
            0 <= t < w.1.len() ==> 0 <= #[trigger] w.1[t] < nodes[w.0[t]].successors.len()
                && nodes[w.0[t]].successors[w.1[t]].0 == w.0[t + 1],
    decreases n,
{
    if n == 0 {
        (seq![0int], Seq::empty())
    } else {
        let j = choose|j: int| #[trigger]
            crate::proper::has_edge(nodes, j, i) && crate::proper::is_reached_in(
                nodes,
                (n - 1) as nat,
                j,
            );
        let k = choose|k: int|
            0 <= k < nodes[j].successors.len() && (#[trigger] nodes[j].successors[k]).0 == i;
        let (rest, less) = lemma_reached_by_path(nodes, (n - 1) as nat, j);
        let path = rest.push(i);
        let edges = less.push(k);
        assert forall|t: int|
            0 <= t < edges.len() implies 0 <= #[trigger] edges[t] < nodes[path[t]].successors.len()
                && nodes[path[t]].successors[edges[t]].0 == path[t + 1] by {
            if t < less.len() {
                assert(less[t] == edges[t]);
            }
        }
        (path, edges)
    }
}

/// In a proper graph no path of edges from the first node ends in a dead end.
pub proof fn law_proper_paths_meet_no_dead_end(
    nodes: Seq<NodeView>,
    path: Seq<int>,
    edges: Seq<int>,
)
    requires
        crate::proper::is_proper(nodes),
        path.len() == edges.len() + 1,
        path[0] == 0,
        forall|t: int| 0 <= t < path.len() ==> 0 <= #[trigger] path[t] < nodes.len(),
        forall|t: int|
            0 <= t < edges.len() ==> 0 <= #[trigger] edges[t] < nodes[path[t]].successors.len()
                && nodes[path[t]].successors[edges[t]].0 == path[t + 1],
    ensures
        nodes[path.last()].kind != NodeKind::Dead,
{
    lemma_path_reaches(nodes, path, edges);
    assert(crate::proper::is_reached(nodes, path.last()));
}

/// In a graph that is not proper a path of edges from the first node ends in a dead
/// end.
pub proof fn law_improper_graph_has_a_path_to_a_dead_end(nodes: Seq<NodeView>) -> (w: (
    Seq<int>,
    Seq<int>,
))
    requires
        !crate::proper::is_proper(nodes),
    ensures
        w.0.len() == w.1.len() + 1,
        w.0[0] == 0,
        forall|t: int| 0 <= t < w.0.len() ==> 0 <= #[trigger] w.0[t] < nodes.len(),
        forall|t: int|
            0 <= t < w.1.len() ==> 0 <= #[trigger] w.1[t] < nodes[w.0[t]].successors.len()
                && nodes[w.0[t]].successors[w.1[t]].0 == w.0[t + 1],
        nodes[w.0.last()].kind == NodeKind::Dead,
{
    let i = choose|i: int|
        0 <= i < nodes.len() && #[trigger] crate::proper::is_reached(nodes, i) && nodes[i].kind
            == NodeKind::Dead;
    let n = choose|n: nat| crate::proper::is_reached_in(nodes, n, i);
    lemma_reached_by_path(nodes, n, i)
}

/// A path of edges with a chance leads to a goal.
proof fn lemma_goal_by_path(nodes: Seq<NodeView>, n: nat, i: int) -> (w: (Seq<int>, Seq<int>))
    requires
        crate::proper::reaches_goal_in(nodes, n, i),
    ensures
        w.0.len() == w.1.len() + 1,
        w.0[0] == i,
        forall|t: int| 0 <= t < w.0.len() ==> 0 <= #[trigger] w.0[t] < nodes.len(),
        forall|t: int|
            0 <= t < w.1.len() ==> 0 <= #[trigger] w.1[t] < nodes[w.0[t]].successors.len()
                && nodes[w.0[t]].successors[w.1[t]].0 == w.0[t + 1]
                && nodes[w.0[t]].successors[w.1[t]].1 > 0,
        nodes[w.0.last()].kind == NodeKind::Goal,
    decreases n,
{
    if n == 0 {
        (seq![i], Seq::empty())
    } else {
        let j = choose|j: int| #[trigger]
            crate::proper::has_live_edge(nodes, i, j) && crate::proper::reaches_goal_in(
                nodes,
                (n - 1) as nat,
                j,
            );
        let k = choose|k: int|
            0 <= k < nodes[i].successors.len() && (#[trigger] nodes[i].successors[k]).0 == j
                && nodes[i].successors[k].1 > 0;
        let (rest, less) = lemma_goal_by_path(nodes, (n - 1) as nat, j);
        let path = seq![i] + rest;
        let edges = seq![k] + less;
        assert(path.last() == rest.last());
        assert forall|t: int|
            0 <= t < edges.len() implies 0 <= #[trigger] edges[t] < nodes[path[t]].successors.len()
                && nodes[path[t]].successors[edges[t]].0 == path[t + 1]
                && nodes[path[t]].successors[edges[t]].1 > 0 by {
            if t > 0 {
                assert(less[t - 1] == edges[t]);
                assert(rest[t - 1] == path[t]);
                assert(rest[t - 1 + 1] == path[t + 1]);
            } else {
                assert(path[1] == rest[0]);
            }
        }
        (path, edges)
    }
}

/// A path of edges with a chance to a goal reaches one.
proof fn lemma_path_to_goal(nodes: Seq<NodeView>, path: Seq<int>, edges: Seq<int>)
    requires
        path.len() == edges.len() + 1,
        forall|t: int| 0 <= t < path.len() ==> 0 <= #[trigger] path[t] < nodes.len(),
        forall|t: int|
            0 <= t < edges.len() ==> 0 <= #[trigger] edges[t] < nodes[path[t]].successors.len()
                && nodes[path[t]].successors[edges[t]].0 == path[t + 1]
                && nodes[path[t]].successors[edges[t]].1 > 0,
        nodes[path.last()].kind == NodeKind::Goal,
    ensures
        crate::proper::reaches_goal_in(nodes, edges.len(), path[0]),
    decreases edges.len(),
{
    if edges.len() > 0 {
        let rest = path.skip(1);
        let less = edges.skip(1);
        assert(rest.last() == path.last());
        assert forall|t: int|
            0 <= t < less.len() implies 0 <= #[trigger] less[t] < nodes[rest[t]].successors.len()
                && nodes[rest[t]].successors[less[t]].0 == rest[t + 1]
                && nodes[rest[t]].successors[less[t]].1 > 0 by {
            assert(less[t] == edges[t + 1]);
            assert(rest[t] == path[t + 1] && rest[t + 1] == path[t + 2]);
        }
        lemma_path_to_goal(nodes, rest, less);
        assert(path[1] == rest[0]);
        assert(edges[0] < nodes[path[0]].successors.len());
        assert(nodes[path[0]].successors[edges[0]].0 == path[1]);
        assert(crate::proper::has_live_edge(nodes, path[0], path[1]));
    }
}

/// In a strong graph, whichever path of edges was taken from the first node, a path
/// of edges that have a chance leads on to a goal.
pub proof fn law_strong_paths_lead_on_to_a_goal(
    nodes: Seq<NodeView>,
    path: Seq<int>,
    edges: Seq<int>,
) -> (w: (Seq<int>, Seq<int>))
    requires
        crate::proper::is_strong(nodes),
        path.len() == edges.len() + 1,
        path[0] == 0,
        forall|t: int| 0 <= t < path.len() ==> 0 <= #[trigger] path[t] < nodes.len(),
        forall|t: int|
            0 <= t < edges.len() ==> 0 <= #[trigger] edges[t] < nodes[path[t]].successors.len()
                && nodes[path[t]].successors[edges[t]].0 == path[t + 1],
    ensures
        w.0.len() == w.1.len() + 1,
        w.0[0] == path.last(),
        forall|t: int| 0 <= t < w.0.len() ==> 0 <= #[trigger] w.0[t] < nodes.len(),
        forall|t: int|
            0 <= t < w.1.len() ==> 0 <= #[trigger] w.1[t] < nodes[w.0[t]].successors.len()
                && nodes[w.0[t]].successors[w.1[t]].0 == w.0[t + 1]
                && nodes[w.0[t]].successors[w.1[t]].1 > 0,
        nodes[w.0.last()].kind == NodeKind::Goal,
{
    let i = path.last();
    lemma_path_reaches(nodes, path, edges);
    assert(crate::proper::is_reached(nodes, i));
    assert(crate::proper::reaches_goal(nodes, i));
    let n = choose|n: nat| crate::proper::reaches_goal_in(nodes, n, i);
    lemma_goal_by_path(nodes, n, i)
}

/// In a graph that is not strong a path of edges from the first node ends where no
/// path of edges that have a chance leads on to a goal.
pub proof fn law_weak_graph_has_a_trap(nodes: Seq<NodeView>) -> (w: (Seq<int>, Seq<int>))
    requires
        !crate::proper::is_strong(nodes),
    ensures
        w.0.len() == w.1.len() + 1,
        w.0[0] == 0,
        forall|t: int| 0 <= t < w.0.len() ==> 0 <= #[trigger] w.0[t] < nodes.len(),
        forall|t: int|
            0 <= t < w.1.len() ==> 0 <= #[trigger] w.1[t] < nodes[w.0[t]].successors.len()
                && nodes[w.0[t]].successors[w.1[t]].0 == w.0[t + 1],
        forall|on: Seq<int>, steps: Seq<int>|
            #![trigger on.len(), steps.len()]
            on.len() == steps.len() + 1 && on[0] == w.0.last() && (forall|t: int|
                0 <= t < on.len() ==> 0 <= #[trigger] on[t] < nodes.len()) && (forall|t: int|
                    0 <= t < steps.len() ==> 0 <= #[trigger] steps[t] < nodes[on[t]].successors.len()
                        && nodes[on[t]].successors[steps[t]].0 == on[t + 1]
                        && nodes[on[t]].successors[steps[t]].1 > 0) ==> nodes[on.last()].kind != NodeKind::Goal,
{
    let i = choose|i: int|
        0 <= i < nodes.len() && #[trigger] crate::proper::is_reached(nodes, i)
            && !crate::proper::reaches_goal(nodes, i);
    let n = choose|n: nat| crate::proper::is_reached_in(nodes, n, i);
    let w = lemma_reached_by_path(nodes, n, i);
    assert forall|on: Seq<int>, steps: Seq<int>|
        #![trigger on.len(), steps.len()]
        on.len() == steps.len() + 1 && on[0] == w.0.last() && (forall|t: int|
                0 <= t < on.len() ==> 0 <= #[trigger] on[t] < nodes.len()) && (forall|t: int|
                0 <= t < steps.len() ==> 0 <= #[trigger] steps[t] < nodes[on[t]].successors.len()
                    && nodes[on[t]].successors[steps[t]].0 == on[t + 1]
                    && nodes[on[t]].successors[steps[t]].1 > 0) implies nodes[on.last()].kind != NodeKind::Goal by {
        if nodes[on.last()].kind == NodeKind::Goal {
            lemma_path_to_goal(nodes, on, steps);
            assert(crate::proper::reaches_goal(nodes, i));
        }
    }
    w
}

/// The graph starts at the start, has one node for a place, and every other node is
/// entered by an edge of an earlier one.
pub proof fn law_graph_is_entered_from_the_start(
    cx: Setting,
    policy: Policy,
    start: Place,
    nodes: Seq<NodeView>,
    i: int,
    j: int,
) -> (w: (int, int))
    requires
        crate::reach::is_reach(cx, policy, start, nodes),
        0 < i < nodes.len(),
        0 <= j < nodes.len(),
    ensures
        nodes[0].place == start,
        i != j ==> nodes[i].place != nodes[j].place,
        0 <= w.0 < i,
        0 <= w.1 < nodes[w.0].successors.len(),
        nodes[w.0].successors[w.1].0 == i,
{
    let places = crate::reach::places_of(nodes);
    assert(places[i] == nodes[i].place && places[j] == nodes[j].place);
    assert(crate::reach::is_entered(nodes, i));
    choose|x: int, y: int|
        0 <= x < i && x < nodes.len() && 0 <= y < nodes[x].successors.len() && (
        #[trigger] nodes[x].successors[y]).0 == i
}

/// A node is a goal exactly where nothing is left to do. It is certain, costs
/// nothing and leads nowhere.
pub proof fn law_goals_have_nothing_left_to_do(
    cx: Setting,
    policy: Policy,
    start: Place,
    nodes: Seq<NodeView>,
    i: int,
)
    requires
        crate::reach::is_reach(cx, policy, start, nodes),
        0 <= i < nodes.len(),
    ensures
        nodes[i].kind == NodeKind::Goal <==> nodes[i].place.net.tasks.len() == 0,
        nodes[i].kind == NodeKind::Goal ==> nodes[i].prob_upper == ONE && nodes[i].cost_lower
            == Some(0u32) && nodes[i].successors.len() == 0,
{
    assert(crate::reach::node_ok(cx, policy, crate::reach::places_of(nodes), nodes[i]));
}

/// Where some action can be executed, the node executes one.
pub proof fn law_actions_are_executed_first(
    cx: Setting,
    policy: Policy,
    start: Place,
    nodes: Seq<NodeView>,
    i: int,
    x: int,
)
    requires
        crate::reach::is_reach(cx, policy, start, nodes),
        0 <= i < nodes.len(),
        0 <= x < nodes[i].place.net.tasks.len(),
        forall|y: int| !#[trigger] nodes[i].place.net.before.contains((y, x)),
        *cx.tasks.tasks@[nodes[i].place.net.tasks[x] as int] is Primitive,
        forall|f: u32| #[trigger]
            (*cx.tasks.tasks@[nodes[i].place.net.tasks[x] as int])->Primitive_0.pre_cond@.contains(f)
                ==> nodes[i].place.facts.contains(f),
    ensures
        nodes[i].kind == NodeKind::Primitive,
{
    let place = nodes[i].place;
    crate::step_laws::law_executions_are_all(
        cx.tasks,
        place.net,
        place.facts,
        place.net.tasks.len(),
    );
    assert(crate::reach::node_ok(cx, policy, crate::reach::places_of(nodes), nodes[i]));
    assert(crate::reach::executable(cx, place).contains(x));
}

/// A node that executes an action has it done: of the actions that no node comes
/// before and whose precondition holds, the first. It has an edge for each outcome,
/// with the probability given for that, or 1. The edge leads to where the task is
/// gone and a fact holds exactly if the outcome adds it, or it held and the
/// outcome does not delete it.
pub proof fn law_outcomes_are_followed(
    cx: Setting,
    policy: Policy,
    start: Place,
    nodes: Seq<NodeView>,
    i: int,
) -> (x: int)
    requires
        crate::reach::is_reach(cx, policy, start, nodes),
        0 <= i < nodes.len(),
        nodes[i].kind == NodeKind::Primitive,
    ensures
        ({
            let net = nodes[i].place.net;
            let facts = nodes[i].place.facts;
            let task = *cx.tasks.tasks@[net.tasks[x] as int];
            let action = task->Primitive_0;
            &&& 0 <= x < net.tasks.len()
            &&& task is Primitive
            &&& forall|y: int| !#[trigger] net.before.contains((y, x))
            &&& forall|f: u32| #[trigger] action.pre_cond@.contains(f) ==> facts.contains(f)
            &&& forall|z: int|
                0 <= z < x ==> (exists|y: int| #[trigger] net.before.contains((y, z)))
                    || *cx.tasks.tasks@[#[trigger] net.tasks[z] as int] is Compound || exists|f: u32|
                    #[trigger]
                    (*cx.tasks.tasks@[net.tasks[z] as int])->Primitive_0.pre_cond@.contains(f)
                        && !facts.contains(f)
            &&& nodes[i].prob_upper == ONE
            &&& nodes[i].cost_lower == Some(0u32)
            &&& nodes[i].successors.len() == action.add_effects@.len()
            &&& forall|k: int|
                0 <= k < nodes[i].successors.len() ==> {
                    let edge = #[trigger] nodes[i].successors[k];
                    let to = nodes[edge.0 as int].place;
                    &&& edge.0 < nodes.len()
                    &&& edge.1 == (if k < action.probabilities@.len() {
                        action.probabilities@[k]
                    } else {
                        ONE
                    })
                    &&& to.net == net.without(x)
                    &&& forall|f: u32| #[trigger]
                        to.facts.contains(f) <==> action.add_effects@[k]@.contains(f) || (
                        facts.contains(f) && !action.del_effects@[k]@.contains(f))
                }
        }),
{
    let place = nodes[i].place;
    let net = place.net;
    let facts = place.facts;
    let places = crate::reach::places_of(nodes);
    crate::step_laws::law_executions_are_all(cx.tasks, net, facts, net.tasks.len());
    assert(crate::reach::node_ok(cx, policy, places, nodes[i]));
    let all = crate::reach::executable(cx, place);
    assert(all.len() > 0);
    let x = all[0];
    assert(all.contains(x));
    assert forall|z: int| 0 <= z < x implies (exists|y: int| #[trigger] net.before.contains((y, z)))
        || *cx.tasks.tasks@[#[trigger] net.tasks[z] as int] is Compound || exists|f: u32| #[trigger]
        (*cx.tasks.tasks@[net.tasks[z] as int])->Primitive_0.pre_cond@.contains(f)
            && !facts.contains(f) by {
        if all.contains(z) {
            let m = choose|m: int| 0 <= m < all.len() && all[m] == z;
            if m > 0 {
                assert(all[0] < all[m]);
            }
        }
    }
    assert forall|k: int| 0 <= k < nodes[i].successors.len() implies {
        let edge = #[trigger] nodes[i].successors[k];
        let action = (*cx.tasks.tasks@[net.tasks[x] as int])->Primitive_0;
        let to = nodes[edge.0 as int].place;
        &&& edge.0 < nodes.len()
        &&& edge.1 == (if k < action.probabilities@.len() {
            action.probabilities@[k]
        } else {
            ONE
        })
        &&& to.net == net.without(x)
        &&& forall|f: u32| #[trigger]
            to.facts.contains(f) <==> action.add_effects@[k]@.contains(f) || (facts.contains(f)
                && !action.del_effects@[k]@.contains(f))
    } by {
        let edge = nodes[i].successors[k];
        assert(crate::reach::leads_to(
            places,
            edge,
            crate::reach::after_outcome(cx, place, x, k),
            crate::reach::outcome_prob(cx, place, x, k),
        ));
        assert(places[edge.0 as int] == nodes[edge.0 as int].place);
    }
    x
}

/// A node waits for a method exactly where something is left to do, no action can
/// be executed, a task without one before it has a method, and the policy says
/// nothing of the place.
pub proof fn law_nodes_wait_where_the_policy_says_nothing(
    cx: Setting,
    policy: Policy,
    start: Place,
    nodes: Seq<NodeView>,
    i: int,
)
    requires
        crate::reach::is_reach(cx, policy, start, nodes),
        0 <= i < nodes.len(),
        nodes[i].place.net.tasks.len() > 0,
        nodes[i].kind != NodeKind::Primitive,
    ensures
        ({
            let net = nodes[i].place.net;
            let some = exists|x: int|
                0 <= x < net.tasks.len() && (forall|y: int| !#[trigger] net.before.contains((y, x)))
                    && *cx.tasks.tasks@[#[trigger] net.tasks[x] as int] is Compound
                    && (*cx.tasks.tasks@[net.tasks[x] as int])->Compound_0.methods@.len() > 0;
            let says = policy.contains_key(nodes[i].place);
            &&& nodes[i].kind == NodeKind::Compound <==> some && !says
            &&& nodes[i].kind == NodeKind::Assigned <==> some && says && policy[nodes[i].place] is By
            &&& nodes[i].kind == NodeKind::Dead <==> !some || (says
                && policy[nodes[i].place] is Missing)
            &&& nodes[i].kind == NodeKind::Dead ==> nodes[i].prob_upper == 0 && nodes[i].cost_lower
                == Some(0u32) && nodes[i].successors.len() == 0
            &&& nodes[i].kind == NodeKind::Compound ==> nodes[i].successors.len() == 0
        }),
{
    let place = nodes[i].place;
    let net = place.net;
    crate::step_laws::law_decompositions_are_all(cx.tasks, net, net.tasks.len());
    assert(crate::reach::node_ok(cx, policy, crate::reach::places_of(nodes), nodes[i]));
    let all = crate::reach::decomposable(cx, place);
    let some = exists|x: int|
        0 <= x < net.tasks.len() && (forall|y: int| !#[trigger] net.before.contains((y, x)))
            && *cx.tasks.tasks@[#[trigger] net.tasks[x] as int] is Compound
            && (*cx.tasks.tasks@[net.tasks[x] as int])->Compound_0.methods@.len() > 0;
    if all.len() > 0 {
        let d = all[0];
        assert(all.contains(d));
        assert(net.tasks[d.0] == net.tasks[d.0]);
        assert(some);
    }
    if some {
        let x = choose|x: int|
            0 <= x < net.tasks.len() && (forall|y: int| !#[trigger] net.before.contains((y, x)))
                && *cx.tasks.tasks@[#[trigger] net.tasks[x] as int] is Compound
                && (*cx.tasks.tasks@[net.tasks[x] as int])->Compound_0.methods@.len() > 0;
        assert(all.contains((x, 0)));
    }
}

/// A node for which the policy has a method follows it: one edge, which is certain,
/// leads to where the task is replaced by what the method says, and the same
/// facts hold.
pub proof fn law_methods_are_followed(
    cx: Setting,
    policy: Policy,
    start: Place,
    nodes: Seq<NodeView>,
    i: int,
)
    requires
        crate::reach::is_reach(cx, policy, start, nodes),
        0 <= i < nodes.len(),
        nodes[i].kind == NodeKind::Assigned,
    ensures
        policy.contains_key(nodes[i].place),
        policy[nodes[i].place] is By,
        ({
            let net = nodes[i].place.net;
            let x = policy[nodes[i].place]->By_0;
            let m = policy[nodes[i].place]->By_1;
            let compound = (*cx.tasks.tasks@[net.tasks[x] as int])->Compound_0;
            let edge = nodes[i].successors[0];
            &&& 0 <= x < net.tasks.len()
            &&& forall|y: int| !#[trigger] net.before.contains((y, x))
            &&& *cx.tasks.tasks@[net.tasks[x] as int] is Compound
            &&& 0 <= m < compound.methods@.len()
            &&& nodes[i].successors.len() == 1
            &&& edge.0 < nodes.len()
            &&& edge.1 == ONE
            &&& nodes[edge.0 as int].place.net == net.decomposed(
                x,
                compound.methods@[m].decomposition@,
            )
            &&& forall|f: u32| #[trigger]
                nodes[edge.0 as int].place.facts.contains(f) <==> nodes[i].place.facts.contains(f)
        }),
{
    let place = nodes[i].place;
    let places = crate::reach::places_of(nodes);
    crate::step_laws::law_decompositions_are_all(cx.tasks, place.net, place.net.tasks.len());
    assert(crate::reach::node_ok(cx, policy, places, nodes[i]));
    let edge = nodes[i].successors[0];
    assert(places[edge.0 as int] == nodes[edge.0 as int].place);
    let x = policy[place]->By_0;
    let m = policy[place]->By_1;
    assert(crate::reach::decomposable(cx, place).contains((x, m)));
}

/// The bounds of a node that waits for a method are those of the heuristic: where it
/// gives nothing, there is no chance, and otherwise there may be a certain one. A
/// search for the most probable policy counts no costs, and one for the cheapest
/// counts what the heuristic gives.
pub proof fn law_waiting_nodes_are_bounded_by_the_heuristic(
    cx: Setting,
    policy: Policy,
    start: Place,
    nodes: Seq<NodeView>,
    i: int,
) -> (v: Option<u32>)
    requires
        crate::reach::is_reach(cx, policy, start, nodes),
        0 <= i < nodes.len(),
        nodes[i].kind == NodeKind::Compound,
    ensures
        crate::composition::is_h_val(
            cx.tasks,
            cx.n_facts,
            nodes[i].place.net,
            nodes[i].place.facts,
            cx.h_type,
            v,
        ),
        v is None ==> nodes[i].prob_upper == 0,
        v is Some ==> nodes[i].prob_upper == ONE,
        cx.mode == SearchMode::MaxProb ==> nodes[i].cost_lower == Some(0u32),
        cx.mode == SearchMode::MinCost ==> nodes[i].cost_lower == v,
{
    let place = nodes[i].place;
    assert(crate::reach::node_ok(cx, policy, crate::reach::places_of(nodes), nodes[i]));
    choose|v: Option<u32>| #[trigger]
        crate::composition::is_h_val(
            cx.tasks,
            cx.n_facts,
            place.net,
            place.facts,
            cx.h_type,
            v,
        ) && (nodes[i].prob_upper, nodes[i].cost_lower) == crate::reach::bounds(cx.mode, v)
}

/// The first assignment for a place counts, and of the decompositions that are
/// possible there the first whose task and method have its names. A place without an
/// assignment is one of which the policy says nothing.
pub proof fn law_policy_is_the_first_assignment(
    tasks: DomainTasks,
    list: Seq<Assignment>,
    p: Place,
    k: int,
)
    requires
        0 <= k <= list.len(),
        forall|j: int| 0 <= j < k ==> !(#[trigger] list[j]).key.describes(p),
        k < list.len() ==> list[k].key.describes(p),
    ensures
        crate::reach::policy_of(tasks, list).contains_key(p) <==> k < list.len(),
        k < list.len() ==> match crate::reach::policy_of(tasks, list)[p] {
            Choice::By(x, m) => {
                let compound = (*tasks.tasks@[p.net.tasks[x] as int])->Compound_0;
                &&& 0 <= x < p.net.tasks.len()
                &&& forall|y: int| !#[trigger] p.net.before.contains((y, x))
                &&& *tasks.tasks@[p.net.tasks[x] as int] is Compound
                &&& 0 <= m < compound.methods@.len()
                &&& compound.name@ == list[k].task_name@
                &&& compound.methods@[m].name@ == list[k].method_name@
                &&& forall|d: (int, int)| #[trigger]
                    crate::progress::decompositions(tasks, p.net, p.net.tasks.len()).contains(d) && (
                    d.0 < x || (d.0 == x && d.1 < m))
                        ==> (*tasks.tasks@[p.net.tasks[d.0] as int])->Compound_0.name@
                        != list[k].task_name@
                        || (*tasks.tasks@[p.net.tasks[d.0] as int])->Compound_0.methods@[d.1].name@
                        != list[k].method_name@
            },
            Choice::Missing => forall|d: (int, int)| #[trigger]
                crate::progress::decompositions(tasks, p.net, p.net.tasks.len()).contains(d)
                    ==> (*tasks.tasks@[p.net.tasks[d.0] as int])->Compound_0.name@
                    != list[k].task_name@
                    || (*tasks.tasks@[p.net.tasks[d.0] as int])->Compound_0.methods@[d.1].name@
                    != list[k].method_name@,
        },
{
    lemma_first_for(list, p, k);
    if k < list.len() {
        let ds = crate::progress::decompositions(tasks, p.net, p.net.tasks.len());
        crate::step_laws::law_decompositions_are_all(tasks, p.net, p.net.tasks.len());
        lemma_first_named(tasks, p.net, ds, list[k].task_name@, list[k].method_name@);
        let c = crate::reach::policy_of(tasks, list)[p];
        assert(c == crate::reach::first_named(
            tasks,
            p.net,
            ds,
            list[k].task_name@,
            list[k].method_name@,
        ));
        if c is By {
            let d = (c->By_0, c->By_1);
            assert(ds.contains(d));
        }
    }
}

/// The position of the first assignment for a place.
proof fn lemma_first_for(list: Seq<Assignment>, p: Place, k: int)
    requires
        0 <= k <= list.len(),
        forall|j: int| 0 <= j < k ==> !(#[trigger] list[j]).key.describes(p),
        k < list.len() ==> list[k].key.describes(p),
    ensures
        crate::reach::first_for(list, p) == k,
    decreases list.len(),
{
    if list.len() > 0 {
        let rest = list.drop_last();
        if k < rest.len() {
            assert(rest[k] == list[k]);
            lemma_first_for(rest, p, k);
        } else {
            assert forall|j: int| 0 <= j < rest.len() implies !(#[trigger] rest[j]).key.describes(
                p,
            ) by {
                assert(rest[j] == list[j]);
            }
            lemma_first_for(rest, p, rest.len() as int);
            if k == list.len() {
                assert(!list[k - 1].key.describes(p));
            }
        }
    }
}

/// The first of the decompositions with the names.
proof fn lemma_first_named(
    tasks: DomainTasks,
    net: Network,
    ds: Seq<(int, int)>,
    task: Seq<char>,
    method: Seq<char>,
)
    requires
        forall|x: int, y: int|
            0 <= x < y < ds.len() ==> {
                let (a, b) = (#[trigger] ds[x], #[trigger] ds[y]);
                a.0 < b.0 || (a.0 == b.0 && a.1 < b.1)
            },
    ensures
        match crate::reach::first_named(tasks, net, ds, task, method) {
            Choice::By(x, m) => {
                &&& ds.contains((x, m))
                &&& crate::reach::is_named(tasks, net, (x, m), task, method)
                &&& forall|d: (int, int)| #[trigger]
                    ds.contains(d) && (d.0 < x || (d.0 == x && d.1 < m)) ==> !crate::reach::is_named(
                        tasks,
                        net,
                        d,
                        task,
                        method,
                    )
            },
            Choice::Missing => forall|d: (int, int)| #[trigger]
                ds.contains(d) ==> !crate::reach::is_named(tasks, net, d, task, method),
        },
    decreases ds.len(),
{
    if ds.len() > 0 {
        let rest = ds.drop_last();
        assert forall|x: int, y: int| 0 <= x < y < rest.len() implies {
            let (a, b) = (#[trigger] rest[x], #[trigger] rest[y]);
            a.0 < b.0 || (a.0 == b.0 && a.1 < b.1)
        } by {
            assert(rest[x] == ds[x] && rest[y] == ds[y]);
        }
        lemma_first_named(tasks, net, rest, task, method);
        assert forall|d: (int, int)| #[trigger] ds.contains(d) implies rest.contains(d) || d
            == ds.last() by {
            let z = choose|z: int| 0 <= z < ds.len() && ds[z] == d;
            if z < rest.len() {
                assert(rest[z] == d);
            }
        }
        match crate::reach::first_named(tasks, net, rest, task, method) {
            Choice::By(x, m) => {
                let z = choose|z: int| 0 <= z < rest.len() && rest[z] == (x, m);
                assert(ds[z] == (x, m));
                assert(ds.contains((x, m)));
                let last = ds[ds.len() - 1];
                assert(ds[z].0 < last.0 || (ds[z].0 == last.0 && ds[z].1 < last.1));
            },
            Choice::Missing => {
                assert(ds[ds.len() - 1] == ds.last());
                assert(ds.contains(ds.last()));
            },
        }
    }
}

/// The nodes of a network keep their identifiers from place to place. The first place
/// has those that the search starts with. Another one has those of a place before it
/// from which an edge leads there: without that of the action that is executed, or
/// with new ones for the task that is replaced.
pub proof fn law_identifiers_are_handed_on(
    cx: Setting,
    policy: Policy,
    start: Place,
    nodes: Seq<NodeView>,
    ids: Seq<Seq<usize>>,
    i: int,
) -> (w: (int, int, int))
    requires
        crate::reach::is_reach(cx, policy, start, nodes),
        crate::reach::are_ids(cx, policy, nodes, ids),
        0 < i < nodes.len(),
    ensures
        ids.len() == nodes.len(),
        ids[0] == cx.ids,
        ({
            let (j, k, x) = w;
            let net = nodes[j].place.net;
            let task = *cx.tasks.tasks@[net.tasks[x] as int];
            let m = policy[nodes[j].place]->By_1;
            &&& 0 <= j < i
            &&& 0 <= k < nodes[j].successors.len()
            &&& nodes[j].successors[k].0 == i
            &&& nodes[j].kind == NodeKind::Primitive || nodes[j].kind == NodeKind::Assigned
            &&& 0 <= x < net.tasks.len()
            &&& nodes[j].kind == NodeKind::Primitive ==> ids[i] == ids[j].remove(x)
                && nodes[i].place.net == net.without(x)
            &&& nodes[j].kind == NodeKind::Assigned ==> policy[nodes[j].place] is By && x
                == policy[nodes[j].place]->By_0 && ids[i] == crate::task_network::replaced_ids(
                ids[j],
                x,
                task->Compound_0.methods@[m].decomposition.nodes@.len(),
            )
        }),
{
    assert(crate::reach::is_handed_on(cx, policy, nodes, ids, i));
    let (j, k) = choose|j: int, k: int|
        0 <= j < i && j < nodes.len() && 0 <= k < nodes[j].successors.len() && (
        #[trigger] nodes[j].successors[k]).0 == i && ids[i] == crate::reach::next_ids(
            cx,
            policy,
            nodes[j],
            ids[j],
        );
    let place = nodes[j].place;
    let places = crate::reach::places_of(nodes);
    assert(crate::reach::node_ok(cx, policy, places, nodes[j]));
    if nodes[j].kind == NodeKind::Primitive {
        crate::step_laws::law_executions_are_all(
            cx.tasks,
            place.net,
            place.facts,
            place.net.tasks.len(),
        );
        let x = crate::reach::executable(cx, place)[0];
        assert(crate::reach::executable(cx, place).contains(x));
        let edge = nodes[j].successors[k];
        assert(crate::reach::leads_to(
            places,
            edge,
            crate::reach::after_outcome(cx, place, x, k),
            crate::reach::outcome_prob(cx, place, x, k),
        ));
        assert(places[i] == nodes[i].place);
        (j, k, x)
    } else {
        crate::step_laws::law_decompositions_are_all(cx.tasks, place.net, place.net.tasks.len());
        let x = policy[place]->By_0;
        assert(crate::reach::decomposable(cx, place).contains((x, policy[place]->By_1)));
        (j, k, x)
    }
}

/// The nodes are numbered in the order in which they are found when the edges are
/// followed in turn: an edge leads to a node only where each one with a lesser number
/// was found by an edge before it.
pub proof fn law_nodes_are_numbered_as_they_are_found(
    nodes: Seq<NodeView>,
    i: int,
    k: int,
    m: int,
) -> (w: (int, int))
    requires
        crate::reach::is_numbered(nodes, 1),
        0 <= i < nodes.len(),
        0 <= k < nodes[i].successors.len(),
        1 <= m < nodes[i].successors[k].0,
    ensures
        0 <= w.0 < nodes.len(),
        0 <= w.1 < nodes[w.0].successors.len(),
        nodes[w.0].successors[w.1].0 == m,
        w.0 < i || (w.0 == i && w.1 < k),
{
    assert(crate::reach::is_entered_before(nodes, i, k, m));
    choose|a: int, b: int|
        0 <= a < nodes.len() && 0 <= b < nodes[a].successors.len() && (
        #[trigger] nodes[a].successors[b]).0 == m && (a < i || (a == i && b < k))
}

/// A node has its identifiers from the first one with an edge to it.
pub proof fn law_first_edge_hands_identifiers_on(
    cx: Setting,
    policy: Policy,
    nodes: Seq<NodeView>,
    ids: Seq<Seq<usize>>,
    from: int,
    i: int,
) -> (w: (int, int))
    requires
        crate::reach::are_found_ids(cx, policy, nodes, ids, from, nodes.len() as int),
        from <= i < nodes.len(),
    ensures
        0 <= w.0 < nodes.len(),
        0 <= w.1 < nodes[w.0].successors.len(),
        nodes[w.0].successors[w.1].0 == i,
        forall|a: int, b: int|
            0 <= a < w.0 && 0 <= b < nodes[a].successors.len() ==> (
            #[trigger] nodes[a].successors[b]).0 != i,
        ids[i] == crate::reach::next_ids(cx, policy, nodes[w.0], ids[w.0]),
{
    assert(crate::reach::is_first_to_hand_on(cx, policy, nodes, ids, i));
    choose|j: int, k: int|
        0 <= j < nodes.len() && 0 <= k < nodes[j].successors.len() && (
        #[trigger] nodes[j].successors[k]).0 == i && ids[i] == crate::reach::next_ids(
            cx,
            policy,
            nodes[j],
            ids[j],
        ) && crate::reach::no_edge_before(nodes, j, i)
}

} // verus!

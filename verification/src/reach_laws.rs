//! Laws of the graphs of policies.

use vstd::prelude::*;

use crate::dead_ends::{is_hopeless, is_move, is_place, is_sound, Move};
use crate::policy::{NodeKind, NodeView};
use crate::policy_laws::{is_distribution, is_upper};
use crate::probability::ONE;
use crate::reach::{is_reach, node_ok, places_of, Choice, Policy, Setting};
use crate::signature::Place;
use crate::task_network::{DomainTasks, Network, Task};

verus! {

/// The decompositions are of nodes below `n` by methods that they have.
proof fn lemma_decompositions(tasks: DomainTasks, net: Network, n: nat, d: (int, int))
    requires
        crate::progress::decompositions(tasks, net, n).contains(d),
    ensures
        0 <= d.0 < n,
        0 <= d.1 < crate::progress::method_count(tasks, net, d.0),
    decreases n,
{
    if n > 0 {
        let before = crate::progress::decompositions(tasks, net, (n - 1) as nat);
        let all = crate::progress::decompositions(tasks, net, n);
        let x = choose|x: int| 0 <= x < all.len() && all[x] == d;
        if x < before.len() {
            assert(before[x] == d);
            lemma_decompositions(tasks, net, (n - 1) as nat, d);
        }
    }
}

/// A move leads to a place of the same facts and tasks.
proof fn lemma_move_keeps_place(cx: Setting, from: Place, to: Place, step: Move)
    requires
        is_sound(cx.tasks, cx.n_facts),
        is_place(cx.tasks, cx.n_facts, from),
        is_move(cx, from, to, step),
    ensures
        is_place(cx.tasks, cx.n_facts, to),
{
    crate::dead_ends::lemma_move_keeps_tasks(cx, from, to, step);
    if let Move::Outcome(i, k) = step {
        let action = crate::progress::action_at(cx.tasks, from.net, i);
        let t = from.net.tasks[i] as int;
        assert(*cx.tasks.tasks@[t] is Primitive);
        assert(crate::problem::action_wf(action, cx.n_facts));
        assert forall|f: u32| #[trigger] to.facts.contains(f) implies f < cx.n_facts by {
            if !from.facts.contains(f) {
                assert(action.add_effects@[k]@.contains(f));
            }
        }
    }
}

/// Every edge of the graph is a move: an outcome of the action that the node
/// executes, or the method that the policy has for it.
pub proof fn law_edges_are_moves(
    cx: Setting,
    policy: Policy,
    start: Place,
    nodes: Seq<NodeView>,
    i: int,
    k: int,
) -> (step: Move)
    requires
        is_reach(cx, policy, start, nodes),
        0 <= i < nodes.len(),
        0 <= k < nodes[i].successors.len(),
    ensures
        nodes[i].successors[k].0 < nodes.len(),
        is_move(cx, nodes[i].place, nodes[nodes[i].successors[k].0 as int].place, step),
        step == match nodes[i].kind {
            NodeKind::Primitive => Move::Outcome(
                crate::reach::executable(cx, nodes[i].place)[0],
                k,
            ),
            _ => Move::Method(
                policy[nodes[i].place]->By_0,
                policy[nodes[i].place]->By_1,
            ),
        },
{
    let n = nodes[i];
    let places = places_of(nodes);
    assert(node_ok(cx, policy, places, n));
    let j = n.successors[k].0 as int;
    if crate::reach::executable(cx, n.place).len() > 0 {
        let e = crate::reach::executable(cx, n.place)[0];
        crate::reach::lemma_executions(cx.tasks, n.place.net, n.place.facts, n.place.net.len());
        assert(crate::reach::leads_to(
            places,
            n.successors[k],
            crate::reach::after_outcome(cx, n.place, e, k),
            crate::reach::outcome_prob(cx, n.place, e, k),
        ));
        assert(places[j] == nodes[j].place);
        Move::Outcome(e, k)
    } else {
        let (d, m) = (policy[n.place]->By_0, policy[n.place]->By_1);
        lemma_decompositions(cx.tasks, n.place.net, n.place.net.len(), (d, m));
        assert(places[j] == nodes[j].place);
        Move::Method(d, m)
    }
}

/// The graph stays within the facts and tasks of the problem.
pub proof fn law_graph_stays_in_the_problem(
    cx: Setting,
    policy: Policy,
    start: Place,
    nodes: Seq<NodeView>,
    i: int,
)
    requires
        is_sound(cx.tasks, cx.n_facts),
        is_place(cx.tasks, cx.n_facts, start),
        is_reach(cx, policy, start, nodes),
        0 <= i < nodes.len(),
    ensures
        is_place(cx.tasks, cx.n_facts, nodes[i].place),
    decreases i,
{
    if i > 0 {
        assert(crate::reach::is_entered(nodes, i));
        let (j, k) = choose|j: int, k: int|
            0 <= j < i && j < nodes.len() && 0 <= k < nodes[j].successors.len() && (
            #[trigger] nodes[j].successors[k]).0 == i;
        law_graph_stays_in_the_problem(cx, policy, start, nodes, j);
        let step = law_edges_are_moves(cx, policy, start, nodes, j, k);
        lemma_move_keeps_place(cx, nodes[j].place, nodes[i].place, step);
    }
}

/// Every node is reached from the first one.
pub proof fn lemma_all_reached(
    cx: Setting,
    policy: Policy,
    start: Place,
    nodes: Seq<NodeView>,
    i: int,
)
    requires
        is_reach(cx, policy, start, nodes),
        0 <= i < nodes.len(),
    ensures
        crate::proper::is_reached(nodes, i),
    decreases i,
{
    if i == 0 {
        assert(crate::proper::is_reached_in(nodes, 0, i));
    } else {
        assert(crate::reach::is_entered(nodes, i));
        let (j, k) = choose|j: int, k: int|
            0 <= j < i && j < nodes.len() && 0 <= k < nodes[j].successors.len() && (
            #[trigger] nodes[j].successors[k]).0 == i;
        lemma_all_reached(cx, policy, start, nodes, j);
        let t = choose|t: nat| crate::proper::is_reached_in(nodes, t, j);
        assert(crate::proper::has_edge(nodes, j, i));
        assert(crate::proper::is_reached_in(nodes, t + 1, i));
    }
}

/// The graph of a policy cannot end in a dead end exactly where none of its
/// nodes is one: the graph holds nothing that the policy does not reach.
pub proof fn law_proper_is_without_dead_ends(
    cx: Setting,
    policy: Policy,
    start: Place,
    nodes: Seq<NodeView>,
)
    requires
        is_reach(cx, policy, start, nodes),
    ensures
        crate::proper::is_proper(nodes) <==> forall|i: int|
            0 <= i < nodes.len() ==> (#[trigger] nodes[i]).kind != NodeKind::Dead,
{
    if crate::proper::is_proper(nodes) {
        assert forall|i: int| 0 <= i < nodes.len() implies (#[trigger] nodes[i]).kind
            != NodeKind::Dead by {
            lemma_all_reached(cx, policy, start, nodes, i);
        }
    }
}

/// A graph in which a goal stays in reach has no dead ends.
pub proof fn law_strong_is_proper(
    cx: Setting,
    policy: Policy,
    start: Place,
    nodes: Seq<NodeView>,
)
    requires
        is_reach(cx, policy, start, nodes),
        crate::proper::is_strong(nodes),
    ensures
        crate::proper::is_proper(nodes),
{
    assert forall|i: int|
        0 <= i < nodes.len() && #[trigger] crate::proper::is_reached(nodes, i) implies nodes[i].kind
        != NodeKind::Dead by {
        if nodes[i].kind == NodeKind::Dead {
            assert(node_ok(cx, policy, places_of(nodes), nodes[i]));
            let t = choose|t: nat| crate::proper::reaches_goal_in(nodes, t, i);
            if t > 0 {
                let j = choose|j: int| #[trigger]
                    crate::proper::has_live_edge(nodes, i, j) && crate::proper::reaches_goal_in(
                        nodes,
                        (t - 1) as nat,
                        j,
                    );
            }
        }
    }
}

/// Every action has an outcome.
pub open spec fn has_outcomes(tasks: DomainTasks) -> bool {
    forall|t: int|
        0 <= t < tasks.n_tasks() ==> match *#[trigger] tasks.tasks@[t] {
            Task::Primitive(action) => action.add_effects@.len() > 0,
            Task::Compound(compound) => true,
        }
}

/// A policy that waits for no method and has no dead end never gets stuck: what
/// it reaches is done, or goes on.
pub proof fn law_strong_policy_never_gets_stuck(
    cx: Setting,
    policy: Policy,
    start: Place,
    nodes: Seq<NodeView>,
    i: int,
)
    requires
        is_sound(cx.tasks, cx.n_facts),
        has_outcomes(cx.tasks),
        is_place(cx.tasks, cx.n_facts, start),
        is_reach(cx, policy, start, nodes),
        crate::proper::is_proper(nodes),
        forall|j: int|
            0 <= j < nodes.len() ==> (#[trigger] nodes[j]).kind != NodeKind::Compound,
        0 <= i < nodes.len(),
    ensures
        nodes[i].place.net.len() == 0 || nodes[i].successors.len() > 0,
{
    let n = nodes[i];
    law_proper_is_without_dead_ends(cx, policy, start, nodes);
    law_graph_stays_in_the_problem(cx, policy, start, nodes, i);
    assert(node_ok(cx, policy, places_of(nodes), n));
    if n.place.net.len() > 0 && crate::reach::executable(cx, n.place).len() > 0 {
        let e = crate::reach::executable(cx, n.place)[0];
        crate::reach::lemma_executions(cx.tasks, n.place.net, n.place.facts, n.place.net.len());
        let t = n.place.net.tasks[e] as int;
        assert(t < cx.tasks.n_tasks());
        assert(*cx.tasks.tasks@[t] is Primitive);
    }
}

/// The node at `j` of `others` is the same as the node at `i` of `nodes`: it has
/// the same place, kind and bound, and edges to the same places with the same
/// probabilities.
pub open spec fn is_twin(nodes: Seq<NodeView>, i: int, others: Seq<NodeView>, j: int) -> bool {
    let (a, b) = (nodes[i], others[j]);
    &&& a.place == b.place
    &&& a.kind == b.kind
    &&& a.prob_upper == b.prob_upper
    &&& a.successors.len() == b.successors.len()
    &&& forall|k: int|
        0 <= k < a.successors.len() ==> {
            let (x, y) = (#[trigger] a.successors[k], b.successors[k]);
            &&& x.0 < nodes.len()
            &&& y.0 < others.len()
            &&& nodes[x.0 as int].place == others[y.0 as int].place
            &&& x.1 == y.1
        }
}

/// One of the other nodes is the same as the node at `i`.
pub open spec fn has_twin(nodes: Seq<NodeView>, i: int, others: Seq<NodeView>) -> bool {
    exists|j: int| 0 <= j < others.len() && #[trigger] is_twin(nodes, i, others, j)
}

/// The bound on the probability is one number.
proof fn lemma_same_bound(cx: Setting, place: Place, a: (u64, Option<u32>), b: (u64, Option<u32>))
    requires
        is_sound(cx.tasks, cx.n_facts),
        is_place(cx.tasks, cx.n_facts, place),
        crate::reach::are_bounds(cx, place, a),
        crate::reach::are_bounds(cx, place, b),
    ensures
        a.0 == b.0,
{
    let v = choose|v: Option<u32>| #[trigger]
        crate::composition::is_h_val(
            cx.tasks,
            cx.n_facts,
            place.net,
            place.facts,
            cx.h_type,
            v,
        ) && a == crate::reach::bounds(cx.mode, v);
    let w = choose|w: Option<u32>| #[trigger]
        crate::composition::is_h_val(
            cx.tasks,
            cx.n_facts,
            place.net,
            place.facts,
            cx.h_type,
            w,
        ) && b == crate::reach::bounds(cx.mode, w);
    crate::dead_ends::law_nothing_is_determined(cx.tasks, cx.n_facts, place, cx.h_type, v, w);
}

/// Nodes of two graphs of a policy at one place are the same.
proof fn lemma_same_node(
    cx: Setting,
    policy: Policy,
    start: Place,
    nodes: Seq<NodeView>,
    others: Seq<NodeView>,
    i: int,
    j: int,
)
    requires
        is_sound(cx.tasks, cx.n_facts),
        is_place(cx.tasks, cx.n_facts, start),
        is_reach(cx, policy, start, nodes),
        is_reach(cx, policy, start, others),
        0 <= i < nodes.len(),
        0 <= j < others.len(),
        nodes[i].place == others[j].place,
    ensures
        is_twin(nodes, i, others, j),
{
    let (a, b) = (nodes[i], others[j]);
    let places = places_of(nodes);
    let other_places = places_of(others);
    assert(node_ok(cx, policy, places, a));
    assert(node_ok(cx, policy, other_places, b));
    law_graph_stays_in_the_problem(cx, policy, start, nodes, i);
    if a.kind == NodeKind::Compound {
        lemma_same_bound(
            cx,
            a.place,
            (a.prob_upper, a.cost_lower),
            (b.prob_upper, b.cost_lower),
        );
    }
    if a.kind == NodeKind::Assigned {
        let x = choose|cost: Option<u32>| #[trigger]
            crate::reach::are_bounds(cx, a.place, (a.prob_upper, cost));
        let y = choose|cost: Option<u32>| #[trigger]
            crate::reach::are_bounds(cx, b.place, (b.prob_upper, cost));
        lemma_same_bound(cx, a.place, (a.prob_upper, x), (b.prob_upper, y));
    }
    assert forall|k: int| 0 <= k < a.successors.len() implies {
        let (x, y) = (#[trigger] a.successors[k], b.successors[k]);
        &&& x.0 < nodes.len()
        &&& y.0 < others.len()
        &&& nodes[x.0 as int].place == others[y.0 as int].place
        &&& x.1 == y.1
    } by {
        let s = law_edges_are_moves(cx, policy, start, nodes, i, k);
        let r = law_edges_are_moves(cx, policy, start, others, j, k);
        if crate::reach::executable(cx, a.place).len() > 0 {
            let e = crate::reach::executable(cx, a.place)[0];
            assert(crate::reach::leads_to(
                places,
                a.successors[k],
                crate::reach::after_outcome(cx, a.place, e, k),
                crate::reach::outcome_prob(cx, a.place, e, k),
            ));
            assert(crate::reach::leads_to(
                other_places,
                b.successors[k],
                crate::reach::after_outcome(cx, a.place, e, k),
                crate::reach::outcome_prob(cx, a.place, e, k),
            ));
        }
    }
}

proof fn lemma_twin(
    cx: Setting,
    policy: Policy,
    start: Place,
    nodes: Seq<NodeView>,
    others: Seq<NodeView>,
    i: int,
) -> (j: int)
    requires
        is_sound(cx.tasks, cx.n_facts),
        is_place(cx.tasks, cx.n_facts, start),
        is_reach(cx, policy, start, nodes),
        is_reach(cx, policy, start, others),
        0 <= i < nodes.len(),
    ensures
        0 <= j < others.len(),
        is_twin(nodes, i, others, j),
    decreases i,
{
    if i == 0 {
        lemma_same_node(cx, policy, start, nodes, others, 0, 0);
        0
    } else {
        assert(crate::reach::is_entered(nodes, i));
        let (x, k) = choose|x: int, k: int|
            0 <= x < i && x < nodes.len() && 0 <= k < nodes[x].successors.len() && (
            #[trigger] nodes[x].successors[k]).0 == i;
        let y = lemma_twin(cx, policy, start, nodes, others, x);
        assert(nodes[x].successors[k].0 == i);
        let j = others[y].successors[k].0 as int;
        lemma_same_node(cx, policy, start, nodes, others, i, j);
        j
    }
}

/// A policy has one graph: two graphs of it from one place have the same nodes,
/// whatever their order. So it makes no difference whether a graph is built from
/// the start or grows by one assignment at a time.
pub proof fn law_graph_is_determined(
    cx: Setting,
    policy: Policy,
    start: Place,
    nodes: Seq<NodeView>,
    others: Seq<NodeView>,
)
    requires
        is_sound(cx.tasks, cx.n_facts),
        is_place(cx.tasks, cx.n_facts, start),
        is_reach(cx, policy, start, nodes),
        is_reach(cx, policy, start, others),
    ensures
        nodes.len() == others.len(),
        forall|i: int| 0 <= i < nodes.len() ==> #[trigger] has_twin(nodes, i, others),
        forall|j: int| 0 <= j < others.len() ==> #[trigger] has_twin(others, j, nodes),
{
    assert forall|i: int| 0 <= i < nodes.len() implies #[trigger] has_twin(nodes, i, others) by {
        let j = lemma_twin(cx, policy, start, nodes, others, i);
    }
    assert forall|j: int| 0 <= j < others.len() implies #[trigger] has_twin(others, j, nodes) by {
        let i = lemma_twin(cx, policy, start, others, nodes, j);
    }
    let (p, q) = (places_of(nodes), places_of(others));
    assert(p.to_set() =~= q.to_set()) by {
        assert forall|x: Place| p.to_set().contains(x) <==> q.to_set().contains(x) by {
            if p.contains(x) {
                let i = choose|i: int| 0 <= i < p.len() && p[i] == x;
                assert(has_twin(nodes, i, others));
                let j = choose|j: int| 0 <= j < others.len() && #[trigger]
                    is_twin(nodes, i, others, j);
                assert(q[j] == x);
            }
            if q.contains(x) {
                let j = choose|j: int| 0 <= j < q.len() && q[j] == x;
                assert(has_twin(others, j, nodes));
                let i = choose|i: int| 0 <= i < nodes.len() && #[trigger]
                    is_twin(others, j, nodes, i);
                assert(p[i] == x);
            }
        }
    }
    p.unique_seq_to_set();
    q.unique_seq_to_set();
}

/// The first `n` nodes of the graphs are at the same places.
spec fn begin_alike(nodes: Seq<NodeView>, others: Seq<NodeView>, n: int) -> bool {
    &&& n <= nodes.len()
    &&& n <= others.len()
    &&& forall|i: int| 0 <= i < n ==> (#[trigger] nodes[i]).place == others[i].place
}

/// Where the graphs are alike up to the node at `j`, which is at another place in
/// the other graph, the edge `b` of the node at `a` to `j` leads further than
/// `j` in the other graph.
proof fn lemma_leads_further(
    cx: Setting,
    policy: Policy,
    start: Place,
    nodes: Seq<NodeView>,
    others: Seq<NodeView>,
    j: int,
    a: int,
    b: int,
)
    requires
        is_sound(cx.tasks, cx.n_facts),
        is_place(cx.tasks, cx.n_facts, start),
        is_reach(cx, policy, start, nodes),
        is_reach(cx, policy, start, others),
        begin_alike(nodes, others, j),
        0 <= a < j < nodes.len(),
        j < others.len(),
        0 <= b < nodes[a].successors.len(),
        nodes[a].successors[b].0 == j,
        nodes[j].place != others[j].place,
    ensures
        b < others[a].successors.len(),
        j < others[a].successors[b].0 < others.len(),
{
    assert(nodes[a].place == others[a].place);
    lemma_same_node(cx, policy, start, nodes, others, a, a);
    let t = others[a].successors[b].0 as int;
    assert(nodes[a].successors[b].0 == j);
    if t < j {
        assert(nodes[t].place == others[t].place);
        assert(places_of(nodes)[t] == places_of(nodes)[j]);
    }
}

/// Where the graphs are alike up to the node at `j`, that is at the same place
/// too: else an earlier edge of the other graph would lead to `j`, and so on.
proof fn lemma_no_detour(
    cx: Setting,
    policy: Policy,
    start: Place,
    nodes: Seq<NodeView>,
    others: Seq<NodeView>,
    from: int,
    j: int,
    a: int,
    b: int,
)
    requires
        is_sound(cx.tasks, cx.n_facts),
        is_place(cx.tasks, cx.n_facts, start),
        is_reach(cx, policy, start, nodes),
        is_reach(cx, policy, start, others),
        crate::reach::is_numbered(nodes, from),
        crate::reach::is_numbered(others, from),
        begin_alike(nodes, others, j),
        from <= j,
        0 <= a < j < nodes.len(),
        j < others.len(),
        0 <= b < nodes[a].successors.len(),
        nodes[a].successors[b].0 == j,
    ensures
        nodes[j].place == others[j].place,
    decreases a, b,
{
    if nodes[j].place != others[j].place {
        lemma_leads_further(cx, policy, start, nodes, others, j, a, b);
        assert(crate::reach::is_entered_before(others, a, b, j));
        let (c, e) = choose|c: int, e: int|
            0 <= c < others.len() && 0 <= e < others[c].successors.len() && (
            #[trigger] others[c].successors[e]).0 == j && (c < a || (c == a && e < b));
        lemma_leads_further(cx, policy, start, others, nodes, j, c, e);
        assert(crate::reach::is_entered_before(nodes, c, e, j));
        let (g, h) = choose|g: int, h: int|
            0 <= g < nodes.len() && 0 <= h < nodes[g].successors.len() && (
            #[trigger] nodes[g].successors[h]).0 == j && (g < c || (g == c && h < e));
        lemma_no_detour(cx, policy, start, nodes, others, from, j, g, h);
    }
}

proof fn lemma_alike(
    cx: Setting,
    policy: Policy,
    start: Place,
    nodes: Seq<NodeView>,
    others: Seq<NodeView>,
    from: int,
    n: int,
)
    requires
        is_sound(cx.tasks, cx.n_facts),
        is_place(cx.tasks, cx.n_facts, start),
        is_reach(cx, policy, start, nodes),
        is_reach(cx, policy, start, others),
        crate::reach::is_numbered(nodes, from),
        crate::reach::is_numbered(others, from),
        1 <= from <= n <= nodes.len(),
        nodes.len() == others.len(),
        begin_alike(nodes, others, from),
    ensures
        begin_alike(nodes, others, n),
    decreases n,
{
    if n > from {
        let j = n - 1;
        lemma_alike(cx, policy, start, nodes, others, from, j);
        assert(crate::reach::is_entered(nodes, j));
        let (a, b) = choose|a: int, b: int|
            0 <= a < j && a < nodes.len() && 0 <= b < nodes[a].successors.len() && (
            #[trigger] nodes[a].successors[b]).0 == j;
        lemma_no_detour(cx, policy, start, nodes, others, from, j, a, b);
    }
}

/// The nodes of a graph are numbered in one way only: two graphs of a policy
/// that are numbered from `from` on and begin alike are the same node by node,
/// but for the bounds on costs. So the graph that is built from the start is one,
/// and so is the graph that another grows to.
pub proof fn law_numbered_graph_is_determined(
    cx: Setting,
    policy: Policy,
    start: Place,
    nodes: Seq<NodeView>,
    others: Seq<NodeView>,
    from: int,
)
    requires
        is_sound(cx.tasks, cx.n_facts),
        is_place(cx.tasks, cx.n_facts, start),
        is_reach(cx, policy, start, nodes),
        is_reach(cx, policy, start, others),
        crate::reach::is_numbered(nodes, from),
        crate::reach::is_numbered(others, from),
        1 <= from <= nodes.len(),
        from <= others.len(),
        forall|i: int| 0 <= i < from ==> (#[trigger] nodes[i]).place == others[i].place,
    ensures
        nodes.len() == others.len(),
        forall|i: int|
            0 <= i < nodes.len() ==> {
                &&& (#[trigger] nodes[i]).place == others[i].place
                &&& nodes[i].kind == others[i].kind
                &&& nodes[i].prob_upper == others[i].prob_upper
                &&& nodes[i].successors == others[i].successors
            },
{
    law_graph_is_determined(cx, policy, start, nodes, others);
    lemma_alike(cx, policy, start, nodes, others, from, nodes.len() as int);
    assert forall|i: int| 0 <= i < nodes.len() implies {
        &&& (#[trigger] nodes[i]).place == others[i].place
        &&& nodes[i].kind == others[i].kind
        &&& nodes[i].prob_upper == others[i].prob_upper
        &&& nodes[i].successors == others[i].successors
    } by {
        lemma_same_node(cx, policy, start, nodes, others, i, i);
        let (s, r) = (nodes[i].successors, others[i].successors);
        assert forall|k: int| 0 <= k < s.len() implies s[k] == r[k] by {
            let (x, y) = (nodes[i].successors[k].0 as int, r[k].0 as int);
            assert(nodes[y].place == others[y].place);
            assert(places_of(nodes)[x] == places_of(nodes)[y]);
        }
        assert(s =~= r);
    }
}

/// The only decomposition with the names is the first with them.
proof fn lemma_only_named(
    tasks: DomainTasks,
    net: Network,
    ds: Seq<(int, int)>,
    d: (int, int),
    task: Seq<char>,
    method: Seq<char>,
)
    requires
        crate::reach::is_named(tasks, net, d, task, method),
        forall|x: int|
            0 <= x < ds.len() && crate::reach::is_named(tasks, net, #[trigger] ds[x], task, method)
                ==> ds[x] == d,
    ensures
        crate::reach::first_named(tasks, net, ds, task, method) == (if ds.contains(d) {
            Choice::By(d.0, d.1)
        } else {
            Choice::Missing
        }),
    decreases ds.len(),
{
    if ds.len() > 0 {
        let rest = ds.drop_last();
        assert forall|x: int|
            0 <= x < rest.len() && crate::reach::is_named(
                tasks,
                net,
                #[trigger] rest[x],
                task,
                method,
            ) implies rest[x] == d by {
            assert(ds[x] == rest[x]);
        }
        lemma_only_named(tasks, net, rest, d, task, method);
        assert(ds[ds.len() - 1] == ds.last());
        if rest.contains(d) {
            let x = choose|x: int| 0 <= x < rest.len() && rest[x] == d;
            assert(ds[x] == d);
        }
        if ds.contains(d) && !rest.contains(d) {
            let x = choose|x: int| 0 <= x < ds.len() && ds[x] == d;
            if x < rest.len() {
                assert(rest[x] == d);
            }
        }
    }
}

proof fn lemma_first_for_bound(list: Seq<crate::reach::Assignment>, place: Place)
    ensures
        crate::reach::first_for(list, place) <= list.len(),
    decreases list.len(),
{
    if list.len() > 0 {
        lemma_first_for_bound(list.drop_last(), place);
    }
}

/// One more assignment, for a place without one, is one more entry of the policy.
proof fn lemma_one_assignment_more(
    cx: Setting,
    list: Seq<crate::reach::Assignment>,
    more: crate::reach::Assignment,
    place: Place,
    d: (int, int),
    q: Place,
)
    requires
        crate::signature::is_bounded(place.net),
        crate::signature::is_bounded(q.net),
        more.key.describes(place),
        !crate::reach::policy_of(cx.tasks, list).contains_key(place),
        crate::reach::decomposable(cx, place).contains(d),
        crate::reach::is_named(cx.tasks, place.net, d, more.task_name@, more.method_name@),
        forall|x: int|
            0 <= x < crate::reach::decomposable(cx, place).len() && crate::reach::is_named(
                cx.tasks,
                place.net,
                #[trigger] crate::reach::decomposable(cx, place)[x],
                more.task_name@,
                more.method_name@,
            ) ==> crate::reach::decomposable(cx, place)[x] == d,
    ensures
        crate::reach::agree_at(
            crate::reach::policy_of(cx.tasks, list.push(more)),
            crate::reach::policy_of(cx.tasks, list).insert(place, Choice::By(d.0, d.1)),
            q,
        ),
{
    let all = list.push(more);
    assert(all.drop_last() =~= list);
    lemma_first_for_bound(list, q);
    let k = crate::reach::first_for(list, q);
    if k < list.len() {
        assert(crate::reach::policy_of(cx.tasks, list).contains_key(q));
        assert(all[k as int] == list[k as int]);
    } else {
        if more.key.describes(q) {
            more.key.lemma_canonical(more.key, place, q);
            assert(more.key.equals(more.key)) by {
                reveal(crate::signature::CompoundSig::equals);
            }
            lemma_only_named(
                cx.tasks,
                place.net,
                crate::reach::decomposable(cx, place),
                d,
                more.task_name@,
                more.method_name@,
            );
        }
    }
}

/// Growing a graph by an assignment gives the graph that is built from the start
/// with it, up to the order of the nodes: `grown` comes of the graph `parent` of
/// the assignments by the decomposition `d` at a node that waits, and `built` is
/// the graph of the assignments and the one that names `d` there, which is the
/// only decomposition with its names.
pub proof fn law_growing_gives_what_is_built(
    cx: Setting,
    start: Place,
    list: Seq<crate::reach::Assignment>,
    more: crate::reach::Assignment,
    parent: Seq<NodeView>,
    idx: int,
    d: (int, int),
    grown: Seq<NodeView>,
    built: Seq<NodeView>,
)
    requires
        is_sound(cx.tasks, cx.n_facts),
        is_place(cx.tasks, cx.n_facts, start),
        is_reach(cx, crate::reach::policy_of(cx.tasks, list), start, parent),
        crate::policy::nodes_bounded(parent),
        0 <= idx < parent.len(),
        parent[idx].kind == NodeKind::Compound,
        more.key.describes(parent[idx].place),
        crate::reach::decomposable(cx, parent[idx].place).contains(d),
        crate::reach::is_named(
            cx.tasks,
            parent[idx].place.net,
            d,
            more.task_name@,
            more.method_name@,
        ),
        forall|x: int|
            0 <= x < crate::reach::decomposable(cx, parent[idx].place).len()
                && crate::reach::is_named(
                cx.tasks,
                parent[idx].place.net,
                #[trigger] crate::reach::decomposable(cx, parent[idx].place)[x],
                more.task_name@,
                more.method_name@,
            ) ==> crate::reach::decomposable(cx, parent[idx].place)[x] == d,
        is_reach(
            cx,
            crate::reach::policy_of(cx.tasks, list).insert(
                parent[idx].place,
                Choice::By(d.0, d.1),
            ),
            start,
            grown,
        ),
        is_reach(cx, crate::reach::policy_of(cx.tasks, list.push(more)), start, built),
        crate::policy::nodes_bounded(built),
    ensures
        grown.len() == built.len(),
        forall|i: int| 0 <= i < grown.len() ==> #[trigger] has_twin(grown, i, built),
        forall|j: int| 0 <= j < built.len() ==> #[trigger] has_twin(built, j, grown),
{
    let policy = crate::reach::policy_of(cx.tasks, list);
    let place = parent[idx].place;
    let next = policy.insert(place, Choice::By(d.0, d.1));
    assert(node_ok(cx, policy, places_of(parent), parent[idx]));
    assert forall|i: int| 0 <= i < built.len() implies node_ok(
        cx,
        next,
        places_of(built),
        #[trigger] built[i],
    ) by {
        let full = crate::reach::policy_of(cx.tasks, list.push(more));
        assert(node_ok(cx, full, places_of(built), built[i]));
        lemma_one_assignment_more(cx, list, more, place, d, built[i].place);
        crate::reach::lemma_node_ok_policy(cx, full, next, places_of(built), built[i]);
    }
    assert(is_reach(cx, next, start, built));
    law_graph_is_determined(cx, next, start, grown, built);
}

/// The graph has edges to its nodes only, with probabilities.
pub proof fn lemma_graph_edges(cx: Setting, policy: Policy, start: Place, nodes: Seq<NodeView>)
    requires
        is_sound(cx.tasks, cx.n_facts),
        is_place(cx.tasks, cx.n_facts, start),
        is_reach(cx, policy, start, nodes),
    ensures
        crate::policy::edges_wf(nodes),
{
    assert forall|i: int, k: int|
        #![trigger nodes[i].successors[k]]
        0 <= i < nodes.len() && 0 <= k < nodes[i].successors.len() implies nodes[i].successors[k].0
        < nodes.len() && nodes[i].successors[k].1 <= ONE by {
        let n = nodes[i];
        assert(node_ok(cx, policy, places_of(nodes), n));
        let step = law_edges_are_moves(cx, policy, start, nodes, i, k);
        law_graph_stays_in_the_problem(cx, policy, start, nodes, i);
        if let Move::Outcome(e, o) = step {
            assert(crate::reach::leads_to(
                places_of(nodes),
                n.successors[k],
                crate::reach::after_outcome(cx, n.place, e, k),
                crate::reach::outcome_prob(cx, n.place, e, k),
            ));
            let t = n.place.net.tasks[e] as int;
            assert(t < cx.tasks.n_tasks());
            assert(*cx.tasks.tasks@[t] is Primitive);
            let action = crate::progress::action_at(cx.tasks, n.place.net, e);
            assert(crate::problem::action_wf(action, cx.n_facts));
            if k < action.probabilities@.len() {
                assert(action.probabilities@[k] <= ONE);
            }
        }
    }
}

/// The sum of the probabilities of the first `k` outcomes; one for which none is
/// given is certain.
pub open spec fn total(probabilities: Seq<u64>, k: nat) -> nat
    decreases k,
{
    if k == 0 {
        0
    } else {
        total(probabilities, (k - 1) as nat) + if k <= probabilities.len() {
            probabilities[k - 1] as nat
        } else {
            ONE as nat
        }
    }
}

/// The probabilities of the outcomes of every action sum up to 1 at most.
pub open spec fn has_distributions(tasks: DomainTasks) -> bool {
    forall|t: int|
        0 <= t < tasks.n_tasks() ==> match *#[trigger] tasks.tasks@[t] {
            Task::Primitive(action) => total(action.probabilities@, action.add_effects@.len())
                <= ONE,
            Task::Compound(compound) => true,
        }
}

proof fn lemma_totals(successors: Seq<(usize, u64)>, probabilities: Seq<u64>, k: nat)
    requires
        k <= successors.len(),
        forall|x: int|
            0 <= x < k ==> (#[trigger] successors[x]).1 == if x < probabilities.len() {
                probabilities[x]
            } else {
                ONE
            },
    ensures
        crate::policy_laws::total_prob(successors, k) == total(probabilities, k),
    decreases k,
{
    if k > 0 {
        lemma_totals(successors, probabilities, (k - 1) as nat);
        assert(successors[k - 1].1 == if k - 1 < probabilities.len() {
            probabilities[k - 1]
        } else {
            ONE
        });
    }
}

/// The edges of a node carry probabilities that sum up to 1 at most where those
/// of the outcomes of every action do.
pub proof fn law_graph_is_a_distribution(
    cx: Setting,
    policy: Policy,
    start: Place,
    nodes: Seq<NodeView>,
)
    requires
        is_sound(cx.tasks, cx.n_facts),
        has_distributions(cx.tasks),
        is_place(cx.tasks, cx.n_facts, start),
        is_reach(cx, policy, start, nodes),
    ensures
        is_distribution(nodes),
{
    assert forall|i: int| 0 <= i < nodes.len() implies (#[trigger] nodes[i]).prob_upper <= ONE
        && crate::policy_laws::total_prob(nodes[i].successors, nodes[i].successors.len())
        <= ONE by {
        let n = nodes[i];
        let places = places_of(nodes);
        assert(node_ok(cx, policy, places, n));
        law_graph_stays_in_the_problem(cx, policy, start, nodes, i);
        if n.place.net.len() == 0 {
            assert(crate::policy_laws::total_prob(n.successors, 0) == 0);
        } else if crate::reach::executable(cx, n.place).len() > 0 {
            let e = crate::reach::executable(cx, n.place)[0];
            crate::reach::lemma_executions(
                cx.tasks,
                n.place.net,
                n.place.facts,
                n.place.net.len(),
            );
            let t = n.place.net.tasks[e] as int;
            assert(t < cx.tasks.n_tasks());
            assert(*cx.tasks.tasks@[t] is Primitive);
            let p = crate::progress::action_at(cx.tasks, n.place.net, e).probabilities@;
            assert forall|x: int| 0 <= x < n.successors.len() implies (#[trigger] n.successors[x]).1
                == if x < p.len() {
                p[x]
            } else {
                ONE
            } by {
                assert(crate::reach::leads_to(
                    places,
                    n.successors[x],
                    crate::reach::after_outcome(cx, n.place, e, x),
                    crate::reach::outcome_prob(cx, n.place, e, x),
                ));
            }
            lemma_totals(n.successors, p, n.successors.len());
        } else {
            reveal_with_fuel(crate::policy_laws::total_prob, 2);
        }
    }
}

/// The two choices at the place lead to the same.
pub open spec fn is_alike(cx: Setting, place: Place, a: Choice, b: Choice) -> bool {
    ||| a == b
    ||| {
        &&& a is By
        &&& b is By
        &&& crate::reach::after_method(cx, place, a->By_0, a->By_1) == crate::reach::after_method(
            cx,
            place,
            b->By_0,
            b->By_1,
        )
    }
}

/// The policy `finer` goes on wherever `policy` does, and to the same places.
pub open spec fn is_finer(cx: Setting, finer: Policy, policy: Policy) -> bool {
    forall|p: Place| #[trigger]
        policy.contains_key(p) ==> finer.contains_key(p) && is_alike(cx, p, finer[p], policy[p])
}

/// What the table `w` of the nodes bounds the place by: nothing if it is
/// hopeless, and 1 if no node has it.
spec fn worth(cx: Setting, nodes: Seq<NodeView>, w: Seq<u64>, place: Place) -> u64 {
    let places = places_of(nodes);
    if is_hopeless(cx.tasks, cx.h_type, place) {
        0
    } else if places.contains(place) && w[places.index_of(place)] < ONE {
        w[places.index_of(place)]
    } else {
        ONE
    }
}

/// The position of the place of a node is the position of the node.
proof fn lemma_position(nodes: Seq<NodeView>, i: int)
    requires
        places_of(nodes).no_duplicates(),
        0 <= i < nodes.len(),
    ensures
        places_of(nodes).contains(nodes[i].place),
        places_of(nodes).index_of(nodes[i].place) == i,
{
    let places = places_of(nodes);
    assert(places[i] == nodes[i].place);
    let j = places.index_of(nodes[i].place);
    assert(0 <= j < places.len() && places[j] == nodes[i].place);
}

/// Smaller values with the same probabilities come to no more.
proof fn lemma_weighted_less(
    s: Seq<(usize, u64)>,
    v: Seq<u64>,
    r: Seq<(usize, u64)>,
    w: Seq<u64>,
    k: nat,
)
    requires
        k <= s.len() == r.len(),
        forall|x: int|
            0 <= x < k ==> (#[trigger] s[x]).1 == r[x].1 && v[s[x].0 as int] <= w[r[x].0 as int],
    ensures
        crate::policy::weighted(s, v, k) <= crate::policy::weighted(r, w, k),
    decreases k,
{
    if k > 0 {
        lemma_weighted_less(s, v, r, w, (k - 1) as nat);
        assert(s[k - 1].1 == r[k - 1].1);
        crate::probability::lemma_scaled_mono(
            v[s[k - 1].0 as int],
            w[r[k - 1].0 as int],
            s[k - 1].1,
            r[k - 1].1,
        );
    }
}

/// What follows a hopeless place by a possible move is hopeless.
proof fn lemma_hopeless_move(cx: Setting, from: Place, to: Place, step: Move)
    requires
        is_place(cx.tasks, cx.n_facts, from),
        is_hopeless(cx.tasks, cx.h_type, from),
        is_move(cx, from, to, step),
        step matches Move::Outcome(i, k) ==> crate::dead_ends::is_possible(
            cx.tasks,
            cx.h_type,
            from.net.tasks[i] as int,
            k,
        ),
    ensures
        is_hopeless(cx.tasks, cx.h_type, to),
{
    match step {
        Move::Outcome(i, k) => {
            crate::dead_ends::law_hopeless_after_outcome(cx, from, i, k);
        },
        Move::Method(i, m) => {
            crate::dead_ends::law_hopeless_after_method(cx, from, i, m);
        },
    }
}

/// A compound node is bounded by nothing where it is hopeless, and by 1 elsewhere.
proof fn lemma_open_bound(cx: Setting, n: NodeView, cost: Option<u32>)
    requires
        is_sound(cx.tasks, cx.n_facts),
        is_place(cx.tasks, cx.n_facts, n.place),
        crate::reach::are_bounds(cx, n.place, (n.prob_upper, cost)),
    ensures
        n.prob_upper == if is_hopeless(cx.tasks, cx.h_type, n.place) {
            0
        } else {
            ONE
        },
{
    let v = choose|v: Option<u32>| #[trigger]
        crate::composition::is_h_val(
            cx.tasks,
            cx.n_facts,
            n.place.net,
            n.place.facts,
            cx.h_type,
            v,
        ) && (n.prob_upper, cost) == crate::reach::bounds(cx.mode, v);
    crate::dead_ends::law_nothing_means_hopeless(cx.tasks, cx.n_facts, n.place, cx.h_type, v);
    if v is None {
        assert(is_hopeless(cx.tasks, cx.h_type, n.place));
    }
}

/// The bounds hold of a hopeless node.
proof fn lemma_worth_hopeless(
    cx: Setting,
    finer: Policy,
    start: Place,
    child: Seq<NodeView>,
    v: Seq<u64>,
    j: int,
)
    requires
        is_sound(cx.tasks, cx.n_facts),
        is_place(cx.tasks, cx.n_facts, start),
        is_reach(cx, finer, start, child),
        v.len() == child.len(),
        forall|x: int|
            0 <= x < child.len() && is_hopeless(cx.tasks, cx.h_type, (#[trigger] child[x]).place) ==> v[x]
                == 0,
        0 <= j < child.len(),
        is_hopeless(cx.tasks, cx.h_type, child[j].place),
    ensures
        crate::policy::is_pinned(child[j]) ==> crate::policy::start_value(child[j]) == 0,
        !crate::policy::is_pinned(child[j]) ==> crate::policy::backed_up(child[j], v) == 0,
{
    let n = child[j];
    assert(node_ok(cx, finer, places_of(child), n));
    law_graph_stays_in_the_problem(cx, finer, start, child, j);
    if n.kind == NodeKind::Compound {
        lemma_open_bound(cx, n, n.cost_lower);
    }
    if !crate::policy::is_pinned(n) {
        assert forall|x: int| 0 <= x < n.successors.len() implies v[(
        #[trigger] n.successors[x]).0 as int] == 0 || n.successors[x].1 == 0 by {
            let step = law_edges_are_moves(cx, finer, start, child, j, x);
            let y = n.successors[x].0 as int;
            if n.successors[x].1 > 0 {
                if let Move::Outcome(i, k) = step {
                    assert(crate::reach::leads_to(
                        places_of(child),
                        n.successors[x],
                        crate::reach::after_outcome(cx, n.place, i, x),
                        crate::reach::outcome_prob(cx, n.place, i, x),
                    ));
                    assert(crate::dead_ends::prob_of(
                        cx.tasks,
                        n.place.net.tasks[i] as int,
                        k,
                    ) == n.successors[x].1);
                }
                lemma_hopeless_move(cx, n.place, child[y].place, step);
            }
        }
        crate::policy_laws::lemma_weighted_nothing(n.successors, v, n.successors.len());
    }
}

/// The nodes of one place have edges to the same places with the same
/// probabilities where both follow the same choice.
pub proof fn lemma_same_edges(
    cx: Setting,
    policy: Policy,
    finer: Policy,
    start: Place,
    nodes: Seq<NodeView>,
    child: Seq<NodeView>,
    i: int,
    j: int,
    x: int,
)
    requires
        is_reach(cx, policy, start, nodes),
        is_reach(cx, finer, start, child),
        is_finer(cx, finer, policy),
        0 <= i < nodes.len(),
        0 <= j < child.len(),
        nodes[i].place == child[j].place,
        nodes[i].kind != NodeKind::Compound,
        0 <= x < child[j].successors.len(),
    ensures
        nodes[i].kind == child[j].kind,
        nodes[i].successors.len() == child[j].successors.len(),
        nodes[i].successors[x].1 == child[j].successors[x].1,
        nodes[i].successors[x].0 < nodes.len(),
        child[j].successors[x].0 < child.len(),
        nodes[nodes[i].successors[x].0 as int].place
            == child[child[j].successors[x].0 as int].place,
{
    let n = nodes[i];
    let c = child[j];
    assert(node_ok(cx, policy, places_of(nodes), n));
    assert(node_ok(cx, finer, places_of(child), c));
    let s = law_edges_are_moves(cx, policy, start, nodes, i, x);
    let r = law_edges_are_moves(cx, finer, start, child, j, x);
    if crate::reach::executable(cx, n.place).len() > 0 {
        let e = crate::reach::executable(cx, n.place)[0];
        assert(crate::reach::leads_to(
            places_of(nodes),
            n.successors[x],
            crate::reach::after_outcome(cx, n.place, e, x),
            crate::reach::outcome_prob(cx, n.place, e, x),
        ));
        assert(crate::reach::leads_to(
            places_of(child),
            c.successors[x],
            crate::reach::after_outcome(cx, n.place, e, x),
            crate::reach::outcome_prob(cx, n.place, e, x),
        ));
    }
}

/// The bounds hold of a node that is not hopeless.
proof fn lemma_worth_hopeful(
    cx: Setting,
    policy: Policy,
    finer: Policy,
    start: Place,
    nodes: Seq<NodeView>,
    child: Seq<NodeView>,
    w: Seq<u64>,
    v: Seq<u64>,
    j: int,
)
    requires
        is_sound(cx.tasks, cx.n_facts),
        is_place(cx.tasks, cx.n_facts, start),
        is_reach(cx, policy, start, nodes),
        is_reach(cx, finer, start, child),
        is_finer(cx, finer, policy),
        is_distribution(child),
        crate::policy::edges_wf(child),
        is_upper(nodes, w),
        v.len() == child.len(),
        forall|x: int|
            0 <= x < child.len() ==> #[trigger] v[x] == worth(cx, nodes, w, child[x].place),
        0 <= j < child.len(),
        !is_hopeless(cx.tasks, cx.h_type, child[j].place),
    ensures
        crate::policy::is_pinned(child[j]) ==> v[j] >= crate::policy::start_value(child[j]),
        !crate::policy::is_pinned(child[j]) ==> v[j] >= crate::policy::backed_up(child[j], v),
{
    let c = child[j];
    let places = places_of(nodes);
    assert(node_ok(cx, finer, places_of(child), c));
    assert(c.prob_upper <= ONE);
    assert forall|x: int| 0 <= x < c.successors.len() implies (#[trigger] c.successors[x]).1 <= ONE
        && v[c.successors[x].0 as int] <= ONE by {
        assert(child[j].successors[x].0 < child.len());
        let y = c.successors[x].0 as int;
        assert(v[y] == worth(cx, nodes, w, child[y].place));
    }
    crate::policy_laws::lemma_weighted_at_most(c.successors, v, c.successors.len());
    assert(crate::policy::backed_up(c, v) <= ONE);
    if places.contains(c.place) {
        let i = places.index_of(c.place);
        assert(0 <= i < places.len() && places[i] == c.place);
        let n = nodes[i];
        assert(n.place == c.place);
        assert(node_ok(cx, policy, places, n));
        law_graph_stays_in_the_problem(cx, policy, start, nodes, i);
        if n.kind == NodeKind::Compound {
            lemma_open_bound(cx, n, n.cost_lower);
        } else if !crate::policy::is_pinned(c) {
            assert forall|x: int| 0 <= x < c.successors.len() implies (
            #[trigger] c.successors[x]).1 == n.successors[x].1 && v[c.successors[x].0 as int]
                <= w[n.successors[x].0 as int] by {
                lemma_same_edges(cx, policy, finer, start, nodes, child, i, j, x);
                let y = c.successors[x].0 as int;
                let z = n.successors[x].0 as int;
                lemma_position(nodes, z);
                assert(v[y] == worth(cx, nodes, w, child[y].place));
            }
            if c.successors.len() > 0 {
                lemma_same_edges(cx, policy, finer, start, nodes, child, i, j, 0);
                lemma_weighted_less(c.successors, v, n.successors, w, c.successors.len());
            } else {
                assert(crate::policy::weighted(c.successors, v, 0) == 0);
            }
        }
    }
}

/// A finer policy promises no more: whatever bounds the nodes of the graph of a
/// policy bounds the value of every policy that has all that this one has. The
/// heuristic that bounds the probability must give nothing for hopeless places
/// only, and not for what is merely too small.
pub proof fn law_finer_policy_promises_no_more(
    cx: Setting,
    policy: Policy,
    finer: Policy,
    start: Place,
    nodes: Seq<NodeView>,
    child: Seq<NodeView>,
    w: Seq<u64>,
)
    requires
        is_sound(cx.tasks, cx.n_facts),
        is_place(cx.tasks, cx.n_facts, start),
        is_reach(cx, policy, start, nodes),
        is_reach(cx, finer, start, child),
        is_finer(cx, finer, policy),
        is_distribution(child),
        is_upper(nodes, w),
    ensures
        crate::policy::vi_value(child) <= w[0],
{
    lemma_graph_edges(cx, finer, start, child);
    let v = Seq::new(child.len(), |j: int| worth(cx, nodes, w, child[j].place));
    assert forall|j: int| 0 <= j < child.len() implies {
        if crate::policy::is_pinned(#[trigger] child[j]) {
            v[j] >= crate::policy::start_value(child[j])
        } else {
            v[j] >= crate::policy::backed_up(child[j], v)
        }
    } by {
        if is_hopeless(cx.tasks, cx.h_type, child[j].place) {
            lemma_worth_hopeless(cx, finer, start, child, v, j);
        } else {
            lemma_worth_hopeful(cx, policy, finer, start, nodes, child, w, v, j);
        }
    }
    crate::policy_laws::law_value_is_below_every_upper_table(child, v);
    lemma_position(nodes, 0);
}

} // verus!

//! Laws of what is determined: a search goes one way only.

use vstd::prelude::*;

use crate::andstar::{SearchResult, SearchStats};
use crate::composition::HeuristicType;
use crate::costs::Combine;
use crate::dead_ends::{is_place, is_sound};
use crate::domain::{ClassicalDomain, Facts};
use crate::policy::{NodeKind, NodeView, SearchMode, TiebreakerKind};
use crate::problem::FONDProblem;
use crate::reach::{is_reach, node_ok, places_of, Policy, Setting};
use crate::search_space::{Moment, Partial};
use crate::signature::Place;
use crate::task_network::DomainTasks;

verus! {

/// Identifiers that come of the node by which a node was found are determined.
proof fn lemma_same_ids(
    cx: Setting,
    policy: Policy,
    nodes: Seq<NodeView>,
    a: Seq<Seq<usize>>,
    b: Seq<Seq<usize>>,
    from: int,
    n: int,
)
    requires
        crate::reach::are_ids(cx, policy, nodes, a),
        crate::reach::are_ids(cx, policy, nodes, b),
        crate::reach::are_found_ids(cx, policy, nodes, a, from, nodes.len() as int),
        crate::reach::are_found_ids(cx, policy, nodes, b, from, nodes.len() as int),
        1 <= from <= n <= nodes.len(),
        forall|i: int| 0 <= i < from ==> #[trigger] a[i] == b[i],
    ensures
        forall|i: int| 0 <= i < n ==> #[trigger] a[i] == b[i],
    decreases n,
{
    if n > from {
        let i = n - 1;
        lemma_same_ids(cx, policy, nodes, a, b, from, i);
        assert(crate::reach::is_first_to_hand_on(cx, policy, nodes, a, i));
        assert(crate::reach::is_first_to_hand_on(cx, policy, nodes, b, i));
        assert(crate::reach::is_handed_on(cx, policy, nodes, a, i));
        let (j, k) = choose|j: int, k: int|
            0 <= j < nodes.len() && 0 <= k < nodes[j].successors.len() && (
            #[trigger] nodes[j].successors[k]).0 == i && a[i] == crate::reach::next_ids(
                cx,
                policy,
                nodes[j],
                a[j],
            ) && crate::reach::no_edge_before(nodes, j, i);
        let (x, y) = choose|x: int, y: int|
            0 <= x < nodes.len() && 0 <= y < nodes[x].successors.len() && (
            #[trigger] nodes[x].successors[y]).0 == i && b[i] == crate::reach::next_ids(
                cx,
                policy,
                nodes[x],
                b[x],
            ) && crate::reach::no_edge_before(nodes, x, i);
        let (u, v) = choose|u: int, v: int|
            0 <= u < i && u < nodes.len() && 0 <= v < nodes[u].successors.len() && (
            #[trigger] nodes[u].successors[v]).0 == i && a[i] == crate::reach::next_ids(
                cx,
                policy,
                nodes[u],
                a[u],
            );
        assert(nodes[j].successors[k].0 == i);
        assert(nodes[x].successors[y].0 == i);
        assert(nodes[u].successors[v].0 == i);
        assert(j == x && j <= u);
        assert(a[j] == b[j]);
    }
}

/// The bounds that the search goes by are determined: it looks at no bound on
/// costs, or the heuristic does not depend on the order in which facts are
/// visited.
pub open spec fn has_one_bound(cx: Setting) -> bool {
    cx.mode == SearchMode::MaxProb || cx.h_type != HeuristicType::HFF
}

/// Relaxed readings of the same problem have the same consistent tables.
proof fn lemma_same_consistent(
    tasks: DomainTasks,
    n_facts: nat,
    d1: ClassicalDomain,
    d2: ClassicalDomain,
    s: Set<u32>,
    how: Combine,
    q: Seq<u32>,
)
    requires
        crate::composition::is_composition(tasks, n_facts, d1),
        crate::composition::is_composition(tasks, n_facts, d2),
        crate::costs::is_consistent(d1, s, how, q),
    ensures
        crate::costs::is_consistent(d2, s, how, q),
{
    assert forall|a: int, f: u32| #[trigger] d2.adds(a, f) implies q[f as int]
        <= crate::costs::cost_of(q, d2.pre(a), how, d2.actions@[a].cost as nat) by {
        let c = d2.actions@[a];
        assert(crate::composition::is_some_step(tasks, n_facts, c));
        let (t, k) = choose|t: int, k: int| crate::composition::is_step(tasks, n_facts, t, k, c);
        assert(crate::composition::has_step(tasks, n_facts, t, k, d1));
        let b = choose|b: int|
            0 <= b < d1.n_actions() && crate::composition::is_step(
                tasks,
                n_facts,
                t,
                k,
                #[trigger] d1.actions@[b],
            );
        let e = d1.actions@[b];
        assert forall|g: u32| e.pre_cond@.contains(g) <==> c.pre_cond@.contains(g) by {}
        assert(d1.pre(b) =~= d2.pre(a));
        assert(c.add_effects@[0]@.contains(f));
        assert(e.add_effects@[0]@.contains(f));
        assert(d1.adds(b, f));
    }
}

/// The cost of a goal is the same in relaxed readings of the same problem.
proof fn lemma_same_cost(
    tasks: DomainTasks,
    n_facts: nat,
    d1: ClassicalDomain,
    d2: ClassicalDomain,
    s: Set<u32>,
    goal: Set<u32>,
    how: Combine,
    v: Option<u32>,
    w: Option<u32>,
)
    requires
        crate::composition::is_composition(tasks, n_facts, d1),
        crate::composition::is_composition(tasks, n_facts, d2),
        crate::costs::is_goal_cost(d1, s, goal, how, v),
        crate::costs::is_goal_cost(d2, s, goal, how, w),
    ensures
        v == w,
{
    let p = choose|q: Seq<u32>| #[trigger]
        crate::costs::is_cost_table(d1, s, how, q) && v == (if crate::costs::is_finite(q, goal) {
            Some(crate::costs::cost_of(q, goal, how, 0))
        } else {
            None
        });
    lemma_same_consistent(tasks, n_facts, d1, d2, s, how, p);
    assert forall|q: Seq<u32>| #[trigger] crate::costs::is_consistent(
        d2,
        s,
        how,
        q,
    ) implies crate::costs::below(q, p) by {
        lemma_same_consistent(tasks, n_facts, d2, d1, s, how, q);
    }
    assert(crate::costs::is_cost_table(d2, s, how, p));
    assert(crate::costs::is_goal_cost(d2, s, goal, how, v));
    crate::costs_laws::law_determined(d2, s, goal, how, v, w);
}

/// The heuristics that sum up costs, take the dearest or bound the probability
/// have one value at a place.
pub proof fn law_heuristic_is_determined(
    tasks: DomainTasks,
    n_facts: nat,
    place: Place,
    h_type: HeuristicType,
    v: Option<u32>,
    w: Option<u32>,
)
    requires
        is_sound(tasks, n_facts),
        is_place(tasks, n_facts, place),
        h_type != HeuristicType::HFF,
        crate::composition::is_h_val(tasks, n_facts, place.net, place.facts, h_type, v),
        crate::composition::is_h_val(tasks, n_facts, place.net, place.facts, h_type, w),
    ensures
        v == w,
{
    let s = crate::composition::relaxed_start(n_facts, tasks.n_tasks(), place.facts);
    let goal = crate::composition::relaxed_goal(n_facts, place.net);
    let a = choose|r: crate::composition::RelaxedComposition| #[trigger]
        r.is_of(tasks, n_facts) && crate::composition::is_heuristic_value(
            r.domain,
            s,
            goal,
            h_type,
            v,
        );
    let b = choose|r: crate::composition::RelaxedComposition| #[trigger]
        r.is_of(tasks, n_facts) && crate::composition::is_heuristic_value(
            r.domain,
            s,
            goal,
            h_type,
            w,
        );
    match h_type {
        HeuristicType::HAdd => {
            lemma_same_cost(tasks, n_facts, a.domain, b.domain, s, goal, Combine::Sum, v, w);
        },
        HeuristicType::HMax => {
            lemma_same_cost(tasks, n_facts, a.domain, b.domain, s, goal, Combine::Max, v, w);
        },
        _ => {
            crate::dead_ends::law_nothing_is_determined(tasks, n_facts, place, h_type, v, w);
        },
    }
}

/// Nodes of a graph at one place, without a method of the policy, have the same
/// bound on costs.
proof fn lemma_same_cost_bound(
    cx: Setting,
    policy: Policy,
    places: Seq<Place>,
    other_places: Seq<Place>,
    n: NodeView,
    o: NodeView,
)
    requires
        is_sound(cx.tasks, cx.n_facts),
        is_place(cx.tasks, cx.n_facts, n.place),
        has_one_bound(cx),
        node_ok(cx, policy, places, n),
        node_ok(cx, policy, other_places, o),
        n.place == o.place,
        !policy.contains_key(n.place),
    ensures
        n.cost_lower == o.cost_lower,
{
    if n.kind == NodeKind::Compound && cx.mode == SearchMode::MinCost {
        let v = choose|v: Option<u32>| #[trigger]
            crate::composition::is_h_val(
                cx.tasks,
                cx.n_facts,
                n.place.net,
                n.place.facts,
                cx.h_type,
                v,
            ) && (n.prob_upper, n.cost_lower) == crate::reach::bounds(cx.mode, v);
        let w = choose|w: Option<u32>| #[trigger]
            crate::composition::is_h_val(
                cx.tasks,
                cx.n_facts,
                n.place.net,
                n.place.facts,
                cx.h_type,
                w,
            ) && (o.prob_upper, o.cost_lower) == crate::reach::bounds(cx.mode, w);
        law_heuristic_is_determined(cx.tasks, cx.n_facts, n.place, cx.h_type, v, w);
    }
}

/// Graphs of a policy that begin alike, and for the rest of which it has no
/// method, are equal.
proof fn lemma_same_nodes(
    cx: Setting,
    policy: Policy,
    start: Place,
    nodes: Seq<NodeView>,
    others: Seq<NodeView>,
    from: int,
)
    requires
        is_sound(cx.tasks, cx.n_facts),
        is_place(cx.tasks, cx.n_facts, start),
        has_one_bound(cx),
        is_reach(cx, policy, start, nodes),
        is_reach(cx, policy, start, others),
        crate::reach::is_numbered(nodes, from),
        crate::reach::is_numbered(others, from),
        1 <= from <= nodes.len(),
        from <= others.len(),
        forall|i: int|
            0 <= i < from ==> (#[trigger] nodes[i]).place == others[i].place && nodes[i].cost_lower
                == others[i].cost_lower,
        forall|i: int|
            from <= i < nodes.len() ==> !policy.contains_key((#[trigger] nodes[i]).place),
    ensures
        nodes == others,
{
    crate::reach_laws::law_numbered_graph_is_determined(
        cx,
        policy,
        start,
        nodes,
        others,
        from,
    );
    assert forall|i: int| 0 <= i < nodes.len() implies #[trigger] nodes[i] == others[i] by {
        if i >= from {
            assert(node_ok(cx, policy, places_of(nodes), nodes[i]));
            assert(node_ok(cx, policy, places_of(others), others[i]));
            crate::reach_laws::law_graph_stays_in_the_problem(cx, policy, start, nodes, i);
            lemma_same_cost_bound(
                cx,
                policy,
                places_of(nodes),
                places_of(others),
                nodes[i],
                others[i],
            );
        }
        assert(nodes[i] =~= others[i]);
    }
    assert(nodes =~= others);
}

/// The list of the nodes that wait is determined.
proof fn lemma_same_out_c(nodes: Seq<NodeView>, a: Seq<usize>, b: Seq<usize>)
    requires
        crate::reach::is_out_c(nodes, a),
        crate::reach::is_out_c(nodes, b),
    ensures
        a == b,
{
    assert forall|x: usize| #[trigger] a.contains(x) <==> b.contains(x) by {
        assert(a.contains(x) <==> x < nodes.len() && nodes[x as int].kind == NodeKind::Compound);
        assert(b.contains(x) <==> x < nodes.len() && nodes[x as int].kind == NodeKind::Compound);
    }
    crate::order::lemma_ascending_unique(a, b);
}

/// The bound of a graph is determined.
proof fn lemma_same_f(cx: Setting, start: Place, q: Partial, r: Partial)
    requires
        q.ok(cx, start),
        r.ok(cx, start),
        q.nodes == r.nodes,
        q.out_c == r.out_c,
        q.steps.len() == r.steps.len(),
    ensures
        q.f == r.f,
{
    if cx.mode == SearchMode::MinCost {
        crate::search_laws::law_nearest_is_determined(
            q.nodes,
            q.out_c,
            q.steps.len() as int,
            q.f,
            r.f,
        );
    }
}

/// A policy and a decomposition have one child, with one graph, one bound and the
/// same identifiers.
pub proof fn law_child_is_determined(
    cx: Setting,
    start: Place,
    p: Partial,
    d: (int, int),
    q: Partial,
    r: Partial,
)
    requires
        is_sound(cx.tasks, cx.n_facts),
        is_place(cx.tasks, cx.n_facts, start),
        has_one_bound(cx),
        p.ok(cx, start),
        q.is_child(cx, start, p, d),
        r.is_child(cx, start, p, d),
    ensures
        q == r,
{
    let n = p.nodes.len() as int;
    let idx = p.out_c[0] as int;
    let place = p.next_place();
    assert(p.out_c.contains(p.out_c[0]));
    assert forall|i: int| 0 <= i < n implies (#[trigger] q.nodes[i]).place == r.nodes[i].place
        && q.nodes[i].cost_lower == r.nodes[i].cost_lower && q.nodes[i].place
        == p.nodes[i].place by {
        if i != idx {
            assert(q.nodes[i] == p.nodes[i] && r.nodes[i] == p.nodes[i]);
        }
    }
    assert forall|i: int| n <= i < q.nodes.len() implies !q.policy.contains_key(
        (#[trigger] q.nodes[i]).place,
    ) by {
        let x = q.nodes[i].place;
        if q.policy.contains_key(x) {
            let places = places_of(p.nodes);
            assert(places[idx] == place);
            assert(places.contains(x));
            let j = choose|j: int| 0 <= j < places.len() && places[j] == x;
            assert(q.nodes[j].place == p.nodes[j].place);
            assert(places_of(q.nodes)[j] == places_of(q.nodes)[i]);
        }
    }
    lemma_same_nodes(cx, q.policy, start, q.nodes, r.nodes, n);
    lemma_same_out_c(q.nodes, q.out_c, r.out_c);
    assert forall|i: int| 0 <= i < n implies #[trigger] q.ids[i] == r.ids[i] by {
        assert(q.ids.take(n)[i] == q.ids[i]);
        assert(r.ids.take(n)[i] == r.ids[i]);
    }
    lemma_same_ids(cx, q.policy, q.nodes, q.ids, r.ids, n, q.nodes.len() as int);
    assert(q.ids =~= r.ids);
    lemma_same_f(cx, start, q, r);
}

/// There is one policy that assigns nothing.
proof fn lemma_initial_is_determined(cx: Setting, start: Place, q: Partial, r: Partial)
    requires
        is_sound(cx.tasks, cx.n_facts),
        is_place(cx.tasks, cx.n_facts, start),
        has_one_bound(cx),
        q.is_initial(cx, start),
        r.is_initial(cx, start),
    ensures
        q == r,
{
    assert(node_ok(cx, q.policy, places_of(q.nodes), q.nodes[0]));
    assert(node_ok(cx, r.policy, places_of(r.nodes), r.nodes[0]));
    lemma_same_cost_bound(
        cx,
        q.policy,
        places_of(q.nodes),
        places_of(r.nodes),
        q.nodes[0],
        r.nodes[0],
    );
    lemma_same_nodes(cx, q.policy, start, q.nodes, r.nodes, 1);
    lemma_same_out_c(q.nodes, q.out_c, r.out_c);
    lemma_same_ids(cx, q.policy, q.nodes, q.ids, r.ids, 1, q.nodes.len() as int);
    assert(q.ids =~= r.ids);
    assert(q.steps =~= r.steps);
    assert(q.step_ids =~= r.step_ids);
    lemma_same_f(cx, start, q, r);
}

/// The policies of the moment are what they say.
spec fn is_sane(cx: Setting, start: Place, m: Moment) -> bool {
    &&& forall|i: int| 0 <= i < m.found.len() ==> (#[trigger] m.found[i]).ok(cx, start)
    &&& forall|k: int| 0 <= k < m.open.len() ==> 0 <= #[trigger] m.open[k] < m.found.len()
}

/// What is taken up is found, with what was found before.
proof fn lemma_taken_up_is_ok(
    cx: Setting,
    start: Place,
    found: Seq<Partial>,
    p: Partial,
    children: Seq<Partial>,
    bar: int,
    n: nat,
)
    requires
        crate::search_space::are_children(cx, start, p, children),
        n <= children.len(),
        forall|i: int| 0 <= i < found.len() ==> (#[trigger] found[i]).ok(cx, start),
    ensures
        crate::search_space::all_taken_up(cx, found, children, bar, n).len() >= found.len(),
        forall|i: int|
            0 <= i < crate::search_space::all_taken_up(cx, found, children, bar, n).len() ==> (
            #[trigger] crate::search_space::all_taken_up(cx, found, children, bar, n)[i]).ok(
                cx,
                start,
            ),
    decreases n,
{
    if n > 0 {
        lemma_taken_up_is_ok(cx, start, found, p, children, bar, (n - 1) as nat);
        let q = children[n - 1];
        assert(q.is_child(
            cx,
            start,
            p,
            crate::reach::decomposable(cx, p.next_place())[n - 1],
        ));
    }
}

/// What follows on a moment is determined.
proof fn lemma_next_is_determined(
    cx: Setting,
    start: Place,
    rho: int,
    tiebreaker: TiebreakerKind,
    m: Moment,
    x: Moment,
    y: Moment,
)
    requires
        is_sound(cx.tasks, cx.n_facts),
        is_place(cx.tasks, cx.n_facts, start),
        has_one_bound(cx),
        is_sane(cx, start, m),
        m.leads_to(cx, start, rho, tiebreaker, x),
        m.leads_to(cx, start, rho, tiebreaker, y),
    ensures
        x == y,
        is_sane(cx, start, x),
{
    reveal(Moment::leads_to);
    reveal(Moment::looks_at);
    let k = choose|k: int| #[trigger]
        m.goes_first(tiebreaker, k) && m.looks_at(cx, start, rho, k, x);
    let j = choose|j: int| #[trigger]
        m.goes_first(tiebreaker, j) && m.looks_at(cx, start, rho, j, y);
    assert(k == j && 0 <= k < m.open.len()) by {
        reveal(Moment::goes_first);
        if k < j {
            assert(crate::policy::is_lower(
                m.waiting(k).rank_by(tiebreaker),
                m.waiting(j).rank_by(tiebreaker),
            ));
        }
        if j < k {
            assert(crate::policy::is_lower(
                m.waiting(j).rank_by(tiebreaker),
                m.waiting(k).rank_by(tiebreaker),
            ));
        }
    }
    let p = m.waiting(k);
    let bar = crate::search_space::at_least(m.best_f(), rho);
    assert(m.open[k] < m.found.len());
    if !(m.best is Some && p.is_beaten(cx, m.best->0.f)) && !p.is_closed() {
        let a = choose|a: Seq<Partial>| #[trigger]
            crate::search_space::are_children(cx, start, p, a) && x.found
                == crate::search_space::all_taken_up(cx, m.found, a, bar, a.len());
        let b = choose|b: Seq<Partial>| #[trigger]
            crate::search_space::are_children(cx, start, p, b) && y.found
                == crate::search_space::all_taken_up(cx, m.found, b, bar, b.len());
        assert(a =~= b) by {
            assert forall|i: int| 0 <= i < a.len() implies a[i] == b[i] by {
                let d = crate::reach::decomposable(cx, p.next_place())[i];
                assert(a[i].is_child(cx, start, p, d));
                assert(b[i].is_child(cx, start, p, d));
                law_child_is_determined(cx, start, p, d, a[i], b[i]);
            }
        }
        lemma_taken_up_is_ok(cx, start, m.found, p, a, bar, a.len());
    }
    assert(x.found == y.found);
    assert(x =~= y);
    let rest = m.open.remove(k);
    let more = crate::search_space::positions(m.found.len(), x.found.len());
    assert forall|i: int| 0 <= i < x.open.len() implies 0 <= #[trigger] x.open[i]
        < x.found.len() by {
        if i < rest.len() {
            assert(x.open[i] == rest[i]);
            if i < k {
                assert(rest[i] == m.open[i]);
            } else {
                assert(rest[i] == m.open[i + 1]);
            }
        } else {
            assert(x.open[i] == more[i - rest.len()]);
        }
    }
}

/// Two traces are the same as far as both go.
proof fn lemma_traces_agree(
    cx: Setting,
    start: Place,
    rho: int,
    tiebreaker: TiebreakerKind,
    a: Seq<Moment>,
    b: Seq<Moment>,
    i: int,
)
    requires
        is_sound(cx.tasks, cx.n_facts),
        is_place(cx.tasks, cx.n_facts, start),
        has_one_bound(cx),
        crate::search_space::is_trace(cx, start, rho, tiebreaker, a),
        crate::search_space::is_trace(cx, start, rho, tiebreaker, b),
        0 <= i < a.len(),
        i < b.len(),
    ensures
        a[i] == b[i],
        is_sane(cx, start, a[i]),
    decreases i,
{
    if i == 0 {
        lemma_initial_is_determined(cx, start, a[0].found[0], b[0].found[0]);
        assert(a[0].found =~= b[0].found);
        assert(a[0] =~= b[0]);
    } else {
        lemma_traces_agree(cx, start, rho, tiebreaker, a, b, i - 1);
        assert(crate::search_space::goes_on(cx, start, rho, tiebreaker, a, i));
        assert(crate::search_space::goes_on(cx, start, rho, tiebreaker, b, i));
        lemma_next_is_determined(cx, start, rho, tiebreaker, a[i - 1], a[i], b[i]);
    }
}

/// A search goes one way only: the number of policies that are looked at and the
/// best policy are determined by the problem, the heuristic and the tiebreaker.
pub proof fn law_search_is_determined(
    problem: FONDProblem,
    h_type: HeuristicType,
    mode: SearchMode,
    tiebreaker: TiebreakerKind,
    m: nat,
    best: Option<Partial>,
    n: nat,
    other: Option<Partial>,
)
    requires
        problem.wf(),
        is_sound(*problem.tasks, problem.facts.spec_count()),
        has_one_bound(crate::andstar::setting_of(problem, h_type, mode)),
        crate::andstar::is_whole_trace(
            problem,
            crate::andstar::setting_of(problem, h_type, mode),
            tiebreaker,
            m,
            best,
        ),
        crate::andstar::is_whole_trace(
            problem,
            crate::andstar::setting_of(problem, h_type, mode),
            tiebreaker,
            n,
            other,
        ),
    ensures
        m == n,
        best == other,
{
    let cx = crate::andstar::setting_of(problem, h_type, mode);
    let start = crate::andstar::start_of(problem);
    let rho = problem.rho as int;
    let a = choose|a: Seq<Moment>| #[trigger]
        crate::search_space::is_trace(cx, start, rho, tiebreaker, a) && a.len() == m + 1
            && a.last().is_over(cx) && a.last().best == best;
    let b = choose|b: Seq<Moment>| #[trigger]
        crate::search_space::is_trace(cx, start, rho, tiebreaker, b) && b.len() == n + 1
            && b.last().is_over(cx) && b.last().best == other;
    if m < n {
        lemma_traces_agree(cx, start, rho, tiebreaker, a, b, m as int);
        assert(crate::search_space::goes_on(cx, start, rho, tiebreaker, b, m as int + 1));
    } else if n < m {
        lemma_traces_agree(cx, start, rho, tiebreaker, a, b, n as int);
        assert(crate::search_space::goes_on(cx, start, rho, tiebreaker, a, n as int + 1));
    } else {
        lemma_traces_agree(cx, start, rho, tiebreaker, a, b, m as int);
    }
}

/// The two results say the same.
pub open spec fn is_same_result(a: SearchResult, b: SearchResult) -> bool {
    match (a, b) {
        (SearchResult::Success(p), SearchResult::Success(q)) => {
            &&& p.success_probability == q.success_probability
            &&& p.makespan == q.makespan
            &&& p.transitions@.len() == q.transitions@.len()
            &&& forall|k: int|
                0 <= k < p.transitions@.len() ==> is_same_entry(
                    #[trigger] p.transitions@[k],
                    q.transitions@[k],
                )
        },
        (SearchResult::NoSolution, SearchResult::NoSolution) => true,
        _ => false,
    }
}

/// The two entries say the same.
pub open spec fn is_same_entry(
    a: (crate::andstar::PolicyNode, crate::andstar::PolicyOutput),
    b: (crate::andstar::PolicyNode, crate::andstar::PolicyOutput),
) -> bool {
    &&& a.0.tn@ == b.0.tn@
    &&& a.0.tn.nodes@ == b.0.tn.nodes@
    &&& a.0.tn.domain == b.0.tn.domain
    &&& a.0.state@.len() == b.0.state@.len()
    &&& forall|k: int|
        0 <= k < a.0.state@.len() ==> (#[trigger] a.0.state@[k])@ == b.0.state@[k]@
    &&& a.1.task@ == b.1.task@
    &&& a.1.method@ == b.1.method@
}

/// Names of the same facts are the same.
proof fn lemma_same_names(
    all: Facts,
    facts: Set<u32>,
    a: Seq<String>,
    b: Seq<String>,
)
    requires
        crate::andstar::are_names(all, facts, a),
        crate::andstar::are_names(all, facts, b),
    ensures
        a.len() == b.len(),
        forall|k: int| 0 <= k < a.len() ==> (#[trigger] a[k])@ == b[k]@,
{
    let x = choose|ids: Seq<u32>| #[trigger]
        crate::order::ascends(ids) && ids.len() == a.len() && (forall|f: u32| #[trigger]
            ids.contains(f) <==> facts.contains(f)) && (forall|k: int|
            0 <= k < ids.len() ==> (#[trigger] a[k])@ == all.names@[ids[k] as int]@);
    let y = choose|ids: Seq<u32>| #[trigger]
        crate::order::ascends(ids) && ids.len() == b.len() && (forall|f: u32| #[trigger]
            ids.contains(f) <==> facts.contains(f)) && (forall|k: int|
            0 <= k < ids.len() ==> (#[trigger] b[k])@ == all.names@[ids[k] as int]@);
    assert forall|f: u32| #[trigger] x.contains(f) <==> y.contains(f) by {
        assert(x.contains(f) <==> facts.contains(f));
        assert(y.contains(f) <==> facts.contains(f));
    }
    crate::order::lemma_ascending_unique(x, y);
}

/// What `run` gives, and `run_fond`, is determined by the problem, the heuristic
/// and the tiebreaker: the same policy with the same probability of success, and
/// the same statistics. `run_fond` may give another policy where the heuristic
/// counts the actions of a relaxed plan, which depends on the order in which
/// facts are visited.
pub proof fn law_run_is_determined(
    problem: FONDProblem,
    h_type: HeuristicType,
    mode: SearchMode,
    tiebreaker: TiebreakerKind,
    a: (SearchResult, SearchStats),
    b: (SearchResult, SearchStats),
)
    requires
        problem.wf(),
        is_sound(*problem.tasks, problem.facts.spec_count()),
        has_one_bound(crate::andstar::setting_of(problem, h_type, mode)),
        crate::andstar::are_stats(
            problem,
            crate::andstar::setting_of(problem, h_type, mode),
            tiebreaker,
            a.0,
            a.1,
        ),
        crate::andstar::are_stats(
            problem,
            crate::andstar::setting_of(problem, h_type, mode),
            tiebreaker,
            b.0,
            b.1,
        ),
    ensures
        is_same_result(a.0, b.0),
        a.1 == b.1,
{
    let cx = crate::andstar::setting_of(problem, h_type, mode);
    let x = choose|best: Option<Partial>| #[trigger]
        crate::andstar::is_whole_trace(
            problem,
            cx,
            tiebreaker,
            a.1.explored_nodes as nat,
            best,
        ) && crate::andstar::comes_of(problem, cx, best, a.0);
    let y = choose|best: Option<Partial>| #[trigger]
        crate::andstar::is_whole_trace(
            problem,
            cx,
            tiebreaker,
            b.1.explored_nodes as nat,
            best,
        ) && crate::andstar::comes_of(problem, cx, best, b.0);
    law_search_is_determined(
        problem,
        h_type,
        mode,
        tiebreaker,
        a.1.explored_nodes as nat,
        x,
        b.1.explored_nodes as nat,
        y,
    );
    if let (SearchResult::Success(p), SearchResult::Success(q)) = (a.0, b.0) {
        let best = x->0;
        assert forall|k: int| 0 <= k < p.transitions@.len() implies is_same_entry(
            #[trigger] p.transitions@[k],
            q.transitions@[k],
        ) by {
            let i = best.steps.len() - 1 - k;
            let (s, t) = (p.transitions@[k], q.transitions@[k]);
            assert(crate::andstar::is_transition(
                problem.tasks,
                problem.facts,
                s,
                best.steps[i],
                best.step_ids[i],
            ));
            assert(crate::andstar::is_transition(
                problem.tasks,
                problem.facts,
                t,
                best.steps[i],
                best.step_ids[i],
            ));
            lemma_same_names(problem.facts, best.steps[i].0.facts, s.0.state@, t.0.state@);
        }
    }
}

} // verus!

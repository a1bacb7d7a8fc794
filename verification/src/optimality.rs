//! Laws of what a search finds: no policy that it leaves out is better.

use vstd::prelude::*;

use crate::andstar::SearchResult;
use crate::composition::HeuristicType;
use crate::dead_ends::{is_place, is_sound};
use crate::policy::{NodeKind, NodeView, SearchMode};
use crate::policy_laws::{is_distribution, is_time_bound, is_upper};
use crate::problem::FONDProblem;
use crate::reach::{is_reach, node_ok, places_of, Choice, Policy, Setting};
use crate::reach_laws::{has_distributions, is_finer};
use crate::search_space::{is_derived, is_exhausted, Partial};
use crate::signature::Place;

verus! {

/// A finer policy reaches every place that the policy reaches.
proof fn lemma_included(
    cx: Setting,
    policy: Policy,
    finer: Policy,
    start: Place,
    nodes: Seq<NodeView>,
    child: Seq<NodeView>,
    i: int,
) -> (j: int)
    requires
        is_reach(cx, policy, start, nodes),
        is_reach(cx, finer, start, child),
        is_finer(cx, finer, policy),
        0 <= i < nodes.len(),
    ensures
        0 <= j < child.len(),
        child[j].place == nodes[i].place,
    decreases i,
{
    if i == 0 {
        0
    } else {
        assert(crate::reach::is_entered(nodes, i));
        let (x, k) = choose|x: int, k: int|
            0 <= x < i && x < nodes.len() && 0 <= k < nodes[x].successors.len() && (
            #[trigger] nodes[x].successors[k]).0 == i;
        let y = lemma_included(cx, policy, finer, start, nodes, child, x);
        assert(node_ok(cx, policy, places_of(nodes), nodes[x]));
        assert(node_ok(cx, finer, places_of(child), child[y]));
        crate::reach_laws::lemma_same_edges(cx, policy, finer, start, nodes, child, x, y, k);
        child[y].successors[k].0 as int
    }
}

/// The policy is a whole one with the given graph: it has a method wherever one
/// is asked for.
pub open spec fn is_plan(cx: Setting, start: Place, policy: Policy, nodes: Seq<NodeView>) -> bool {
    &&& is_reach(cx, policy, start, nodes)
    &&& forall|i: int|
        0 <= i < nodes.len() ==> (#[trigger] nodes[i]).kind != NodeKind::Compound && (
        policy.contains_key(nodes[i].place) ==> policy[nodes[i].place] is By)
}

/// The places at which a method is followed, in the order of the nodes.
pub open spec fn assigned(nodes: Seq<NodeView>) -> Seq<Place>
    decreases nodes.len(),
{
    if nodes.len() == 0 {
        Seq::empty()
    } else {
        let rest = assigned(nodes.drop_last());
        if nodes.last().kind == NodeKind::Assigned {
            rest.push(nodes.last().place)
        } else {
            rest
        }
    }
}

/// The place is one of a node that follows a method.
spec fn is_assigned_at(nodes: Seq<NodeView>, p: Place) -> bool {
    exists|i: int|
        0 <= i < nodes.len() && (#[trigger] nodes[i]).kind == NodeKind::Assigned && nodes[i].place
            == p
}

proof fn lemma_assigned(nodes: Seq<NodeView>)
    requires
        places_of(nodes).no_duplicates(),
    ensures
        forall|p: Place| #[trigger] assigned(nodes).contains(p) <==> is_assigned_at(nodes, p),
        assigned(nodes).no_duplicates(),
    decreases nodes.len(),
{
    if nodes.len() > 0 {
        let rest = nodes.drop_last();
        let places = places_of(nodes);
        assert forall|i: int, j: int|
            0 <= i < rest.len() && 0 <= j < rest.len() && i != j implies places_of(rest)[i]
            != places_of(rest)[j] by {
            assert(places[i] != places[j]);
        }
        lemma_assigned(rest);
        let before = assigned(rest);
        let all = assigned(nodes);
        let last = nodes[nodes.len() - 1];
        assert(!is_assigned_at(rest, last.place)) by {
            if is_assigned_at(rest, last.place) {
                let i = choose|i: int|
                    0 <= i < rest.len() && (#[trigger] rest[i]).kind == NodeKind::Assigned
                        && rest[i].place == last.place;
                assert(places[i] != places[nodes.len() - 1]);
            }
        }
        assert forall|p: Place| #[trigger] all.contains(p) <==> is_assigned_at(nodes, p) by {
            if before.contains(p) {
                let k = choose|k: int| 0 <= k < before.len() && before[k] == p;
                assert(all[k] == p);
                let i = choose|i: int|
                    0 <= i < rest.len() && (#[trigger] rest[i]).kind == NodeKind::Assigned
                        && rest[i].place == p;
                assert(nodes[i] == rest[i]);
            }
            if all.contains(p) && !before.contains(p) {
                let k = choose|k: int| 0 <= k < all.len() && all[k] == p;
                if k < before.len() {
                    assert(before[k] == p);
                }
                assert(nodes[nodes.len() - 1].place == p);
            }
            if is_assigned_at(nodes, p) {
                let i = choose|i: int|
                    0 <= i < nodes.len() && (#[trigger] nodes[i]).kind == NodeKind::Assigned
                        && nodes[i].place == p;
                if i < rest.len() {
                    assert(rest[i] == nodes[i]);
                    assert(is_assigned_at(rest, p));
                    assert(before.contains(p));
                } else {
                    assert(all[before.len() as int] == p);
                }
            }
        }
        assert(!before.contains(last.place));
        assert forall|x: int, y: int| 0 <= x < all.len() && 0 <= y < all.len() && x != y implies
            all[x] != all[y] by {
            if x < before.len() {
                assert(before.contains(before[x]));
            }
            if y < before.len() {
                assert(before.contains(before[y]));
            }
        }
    }
}

/// Distinct places at which methods are followed are no more than all of them.
proof fn lemma_no_more_than_assigned(s: Seq<Place>, nodes: Seq<NodeView>)
    requires
        places_of(nodes).no_duplicates(),
        s.no_duplicates(),
        forall|i: int| 0 <= i < s.len() ==> is_assigned_at(nodes, #[trigger] s[i]),
    ensures
        s.len() <= assigned(nodes).len(),
{
    lemma_assigned(nodes);
    let r = assigned(nodes);
    assert forall|x: Place| s.to_set().contains(x) implies r.to_set().contains(x) by {
        let i = choose|i: int| 0 <= i < s.len() && s[i] == x;
        assert(is_assigned_at(nodes, s[i]));
        assert(r.contains(x));
    }
    s.unique_seq_to_set();
    r.unique_seq_to_set();
    vstd::seq_lib::seq_to_set_is_finite(r);
    vstd::set_lib::lemma_len_subset(s.to_set(), r.to_set());
}

/// A whole policy that has all that `a` has goes on at every place of `a` at
/// which a method is asked for.
proof fn lemma_goes_on(
    cx: Setting,
    start: Place,
    a: Partial,
    finer: Policy,
    child: Seq<NodeView>,
    i: int,
) -> (d: (int, int))
    requires
        a.ok(cx, start),
        is_plan(cx, start, finer, child),
        is_finer(cx, finer, a.policy),
        0 <= i < a.nodes.len(),
        crate::search_laws::is_waiting(cx, a.nodes[i].place),
    ensures
        finer.contains_key(a.nodes[i].place),
        finer[a.nodes[i].place] == Choice::By(d.0, d.1),
        crate::reach::decomposable(cx, a.nodes[i].place).contains(d),
        is_assigned_at(child, a.nodes[i].place),
{
    let place = a.nodes[i].place;
    let j = lemma_included(cx, a.policy, finer, start, a.nodes, child, i);
    assert(node_ok(cx, finer, places_of(child), child[j]));
    assert(child[j].kind != NodeKind::Compound);
    assert(finer.contains_key(place));
    (finer[place]->By_0, finer[place]->By_1)
}

/// A node that waits is at a place where a method is asked for.
proof fn lemma_open_is_waiting(cx: Setting, start: Place, a: Partial, i: int)
    requires
        a.ok(cx, start),
        0 <= i < a.nodes.len(),
        a.nodes[i].kind == NodeKind::Compound,
    ensures
        crate::search_laws::is_waiting(cx, a.nodes[i].place),
        !a.policy.contains_key(a.nodes[i].place),
{
    assert(node_ok(cx, a.policy, places_of(a.nodes), a.nodes[i]));
}

/// A whole policy that has all that `a` has follows a method at each place for
/// which `a` has one.
proof fn lemma_step_is_assigned(
    cx: Setting,
    start: Place,
    a: Partial,
    finer: Policy,
    child: Seq<NodeView>,
    k: int,
)
    requires
        is_derived(cx, start, a),
        is_plan(cx, start, finer, child),
        is_finer(cx, finer, a.policy),
        0 <= k < a.steps.len(),
    ensures
        is_assigned_at(child, a.steps[k].0),
        a.policy.contains_key(a.steps[k].0),
{
    crate::search_laws::law_steps_are_the_policy(cx, start, a);
    crate::search_laws::law_policy_is_for_waiting_places(cx, start, a);
    let place = a.steps[k].0;
    let places = places_of(a.nodes);
    assert(a.policy.contains_key(place));
    assert(places.contains(place));
    let i = choose|i: int| 0 <= i < places.len() && places[i] == place;
    assert(a.nodes[i].place == place);
    let d = lemma_goes_on(cx, start, a, finer, child, i);
}

/// The places of the steps.
spec fn step_places(p: Partial) -> Seq<Place> {
    p.steps.map_values(|s: (Place, (int, int))| s.0)
}

/// Every node that waits costs an assignment: a whole policy that has all that
/// `a` has follows a method for each assignment of `a` and one for each of its
/// waiting nodes.
pub proof fn law_every_open_node_costs_one(
    cx: Setting,
    start: Place,
    a: Partial,
    finer: Policy,
    child: Seq<NodeView>,
)
    requires
        is_derived(cx, start, a),
        is_plan(cx, start, finer, child),
        is_finer(cx, finer, a.policy),
    ensures
        assigned(child).len() >= a.steps.len() + a.out_c.len(),
{
    crate::search_laws::law_steps_are_the_policy(cx, start, a);
    let waits = a.out_c.map_values(|i: usize| a.nodes[i as int].place);
    let s = step_places(a) + waits;
    let n = a.steps.len() as int;
    let places = places_of(a.nodes);
    assert forall|k: int| 0 <= k < waits.len() implies !a.policy.contains_key(#[trigger] waits[k])
        && is_assigned_at(child, waits[k]) by {
        let i = a.out_c[k];
        assert(a.out_c.contains(i));
        lemma_open_is_waiting(cx, start, a, i as int);
        let d = lemma_goes_on(cx, start, a, finer, child, i as int);
    }
    assert forall|x: int, y: int| 0 <= x < y < s.len() implies s[x] != s[y] by {
        if y < n {
            assert(a.steps[x].0 == s[x] && a.steps[y].0 == s[y]);
        } else if x < n {
            assert(a.policy.contains_key(a.steps[x].0));
            assert(waits[y - n] == s[y]);
        } else {
            let (i, k) = (a.out_c[x - n], a.out_c[y - n]);
            assert(a.out_c.contains(i) && a.out_c.contains(k));
            assert(i < k) by {
                assert(crate::order::ascends(a.out_c));
            }
            assert(places[i as int] == s[x] && places[k as int] == s[y]);
        }
    }
    assert forall|x: int| 0 <= x < s.len() implies is_assigned_at(child, #[trigger] s[x]) by {
        if x < n {
            lemma_step_is_assigned(cx, start, a, finer, child, x);
            assert(a.steps[x].0 == s[x]);
        } else {
            assert(waits[x - n] == s[x]);
        }
    }
    lemma_no_more_than_assigned(s, child);
}

/// A closed policy of a search is a whole one, and follows as many methods as it
/// has assignments.
pub proof fn law_closed_policy_is_a_plan(cx: Setting, start: Place, p: Partial)
    requires
        is_derived(cx, start, p),
        p.is_closed(),
    ensures
        is_plan(cx, start, p.policy, p.nodes),
        assigned(p.nodes).len() == p.steps.len(),
{
    crate::search_laws::law_steps_are_the_policy(cx, start, p);
    assert forall|i: int| 0 <= i < p.nodes.len() implies (#[trigger] p.nodes[i]).kind
        != NodeKind::Compound && (p.policy.contains_key(p.nodes[i].place)
        ==> p.policy[p.nodes[i].place] is By) by {
        if p.nodes[i].kind == NodeKind::Compound {
            if i > 0 {
                assert(crate::reach::is_entered(p.nodes, i));
            }
            assert(p.out_c.contains(i as usize));
        }
        let place = p.nodes[i].place;
        if p.policy.contains_key(place) {
            let x = choose|x: int| 0 <= x < p.steps.len() && (#[trigger] p.steps[x]).0 == place;
            assert(p.policy[p.steps[x].0] == Choice::By(p.steps[x].1.0, p.steps[x].1.1));
        }
    }
    law_every_open_node_costs_one(cx, start, p, p.policy, p.nodes);
    lemma_assigned(p.nodes);
    let s = assigned(p.nodes);
    let r = step_places(p);
    assert forall|x: int, y: int| 0 <= x < r.len() && 0 <= y < r.len() && x != y implies r[x]
        != r[y] by {
        assert(p.steps[x].0 == r[x] && p.steps[y].0 == r[y]);
    }
    assert forall|q: Place| s.to_set().contains(q) implies r.to_set().contains(q) by {
        assert(s.contains(q));
        let i = choose|i: int|
            0 <= i < p.nodes.len() && (#[trigger] p.nodes[i]).kind == NodeKind::Assigned
                && p.nodes[i].place == q;
        assert(node_ok(cx, p.policy, places_of(p.nodes), p.nodes[i]));
        assert(p.policy.contains_key(q));
        let x = choose|x: int| 0 <= x < p.steps.len() && (#[trigger] p.steps[x]).0 == q;
        assert(r[x] == q);
    }
    s.unique_seq_to_set();
    r.unique_seq_to_set();
    vstd::seq_lib::seq_to_set_is_finite(r);
    vstd::set_lib::lemma_len_subset(s.to_set(), r.to_set());
}

/// Where everything that follows from `a` is accounted for, so is the policy
/// that takes one more step towards the whole policy `finer`.
proof fn lemma_step_towards(
    cx: Setting,
    start: Place,
    found: Seq<Partial>,
    a: Partial,
    finer: Policy,
    child: Seq<NodeView>,
    bar: int,
) -> (q: Partial)
    requires
        is_derived(cx, start, a),
        is_plan(cx, start, finer, child),
        is_finer(cx, finer, a.policy),
        crate::search_space::is_expanded(cx, start, found, a, bar),
    ensures
        is_derived(cx, start, q),
        is_finer(cx, finer, q.policy),
        q.steps.len() == a.steps.len() + 1,
        (cx.mode == SearchMode::MaxProb && q.f < bar) || crate::search_space::is_matched(found, q),
{
    crate::search_laws::law_steps_are_the_policy(cx, start, a);
    assert(a.out_c.contains(a.out_c[0]));
    let place = a.next_place();
    lemma_open_is_waiting(cx, start, a, a.out_c[0] as int);
    let d = lemma_goes_on(cx, start, a, finer, child, a.out_c[0] as int);
    assert(crate::reach::decomposable(cx, place).contains(d));
    assert(crate::search_space::is_covered(cx, start, found, a, d, bar));
    let q = choose|q: Partial| #[trigger]
        q.is_child(cx, start, a, d) && ((cx.mode == SearchMode::MaxProb && q.f < bar)
            || crate::search_space::is_matched(found, q));
    crate::search_space::lemma_child_derived(cx, start, a, q, d);
    assert forall|x: Place| #[trigger] q.policy.contains_key(x) implies finer.contains_key(x)
        && crate::reach_laws::is_alike(cx, x, finer[x], q.policy[x]) by {
        if x != place {
            assert(a.policy.contains_key(x));
        }
    }
    q
}

/// A policy that has all that `q` has has all that a policy with the same graph
/// has.
proof fn lemma_same_graph(cx: Setting, start: Place, q: Partial, b: Partial, finer: Policy)
    requires
        is_derived(cx, start, q),
        is_derived(cx, start, b),
        q.nodes == b.nodes,
        is_finer(cx, finer, q.policy),
    ensures
        is_finer(cx, finer, b.policy),
{
    crate::search_laws::law_steps_are_the_policy(cx, start, q);
    crate::search_laws::law_steps_are_the_policy(cx, start, b);
    crate::search_laws::law_policy_is_for_waiting_places(cx, start, b);
    let places = places_of(b.nodes);
    assert forall|x: Place| #[trigger] b.policy.contains_key(x) implies finer.contains_key(x)
        && crate::reach_laws::is_alike(cx, x, finer[x], b.policy[x]) by {
        assert(places.contains(x));
        let i = choose|i: int| 0 <= i < places.len() && places[i] == x;
        assert(b.nodes[i].place == x);
        assert(node_ok(cx, b.policy, places, b.nodes[i]));
        assert(node_ok(cx, q.policy, places, q.nodes[i]));
        assert(crate::search_laws::is_waiting(cx, x));
        let s = choose|s: int| 0 <= s < b.steps.len() && (#[trigger] b.steps[s]).0 == x;
        assert(b.policy[b.steps[s].0] == Choice::By(b.steps[s].1.0, b.steps[s].1.1));
        assert(q.policy.contains_key(x));
    }
}

/// The value of the graph is at most `eps` below what bounds its first node.
pub open spec fn is_precise(nodes: Seq<NodeView>, eps: int) -> bool {
    exists|w: Seq<u64>| #[trigger]
        is_upper(nodes, w) && w[0] <= crate::policy::vi_value(nodes) + eps
}

/// The values of all policies are within `eps` of what they are worth.
pub open spec fn are_precise(cx: Setting, start: Place, eps: int) -> bool {
    forall|a: Partial| #[trigger] is_derived(cx, start, a) ==> is_precise(a.nodes, eps)
}

/// No policy that has all that `a` has is worth more, within `eps`.
proof fn lemma_worth_no_more(
    cx: Setting,
    start: Place,
    a: Partial,
    finer: Policy,
    child: Seq<NodeView>,
    eps: int,
)
    requires
        is_sound(cx.tasks, cx.n_facts),
        is_place(cx.tasks, cx.n_facts, start),
        has_distributions(cx.tasks),
        a.ok(cx, start),
        is_reach(cx, finer, start, child),
        is_finer(cx, finer, a.policy),
        is_precise(a.nodes, eps),
    ensures
        crate::policy::vi_value(child) <= crate::policy::vi_value(a.nodes) + eps,
{
    let w = choose|w: Seq<u64>| #[trigger]
        is_upper(a.nodes, w) && w[0] <= crate::policy::vi_value(a.nodes) + eps;
    crate::reach_laws::law_graph_is_a_distribution(cx, finer, start, child);
    crate::reach_laws::law_finer_policy_promises_no_more(
        cx,
        a.policy,
        finer,
        start,
        a.nodes,
        child,
        w,
    );
}

/// The value is no better than the best one and the threshold, within `eps`.
pub open spec fn is_no_better(value: int, best: Option<int>, rho: int, eps: int) -> bool {
    value < rho + eps || (best matches Some(b) && value <= b + eps)
}

proof fn lemma_found_is_no_worse(
    cx: Setting,
    start: Place,
    found: Seq<Partial>,
    best: Option<int>,
    rho: int,
    finer: Policy,
    child: Seq<NodeView>,
    eps: int,
    j: int,
)
    requires
        is_sound(cx.tasks, cx.n_facts),
        is_place(cx.tasks, cx.n_facts, start),
        has_distributions(cx.tasks),
        cx.mode == SearchMode::MaxProb,
        are_precise(cx, start, eps),
        is_exhausted(cx, start, found, best, rho),
        is_plan(cx, start, finer, child),
        0 <= j < found.len(),
        is_finer(cx, finer, found[j].policy),
    ensures
        is_no_better(crate::policy::vi_value(child) as int, best, rho, eps),
    decreases assigned(child).len() - found[j].steps.len(),
{
    let a = found[j];
    let bar = crate::search_space::at_least(best, rho);
    assert(is_derived(cx, start, a));
    crate::search_laws::law_steps_are_the_policy(cx, start, a);
    assert(crate::search_space::is_done(cx, start, found, a, best, bar));
    lemma_worth_no_more(cx, start, a, finer, child, eps);
    if crate::search_space::is_expanded(cx, start, found, a, bar) {
        let q = lemma_step_towards(cx, start, found, a, finer, child, bar);
        crate::search_laws::law_steps_are_the_policy(cx, start, q);
        lemma_worth_no_more(cx, start, q, finer, child, eps);
        if crate::search_space::is_matched(found, q) {
            let k = choose|k: int| 0 <= k < found.len() && q.matches(#[trigger] found[k]);
            assert(is_derived(cx, start, found[k]));
            lemma_same_graph(cx, start, q, found[k], finer);
            law_every_open_node_costs_one(cx, start, found[k], finer, child);
            lemma_found_is_no_worse(cx, start, found, best, rho, finer, child, eps, k);
        }
    }
}

/// A search for the greatest probability that is complete leaves out nothing
/// better, within the precision of the values: no whole policy reaches the
/// threshold and is worth more than the best one.
pub proof fn law_nothing_better_is_left_out(
    cx: Setting,
    start: Place,
    found: Seq<Partial>,
    best: Option<int>,
    rho: int,
    eps: int,
    policy: Policy,
    nodes: Seq<NodeView>,
)
    requires
        is_sound(cx.tasks, cx.n_facts),
        is_place(cx.tasks, cx.n_facts, start),
        has_distributions(cx.tasks),
        cx.mode == SearchMode::MaxProb,
        are_precise(cx, start, eps),
        is_exhausted(cx, start, found, best, rho),
        is_plan(cx, start, policy, nodes),
    ensures
        is_no_better(crate::policy::vi_value(nodes) as int, best, rho, eps),
{
    lemma_found_is_no_worse(cx, start, found, best, rho, policy, nodes, eps, 0);
}

/// What `run` returns is a policy of the greatest probability of success, within
/// the precision of the values, and it returns none only where no policy
/// reaches the threshold.
pub proof fn law_run_finds_the_most_probable(
    problem: FONDProblem,
    h_type: HeuristicType,
    result: SearchResult,
    eps: int,
    policy: Policy,
    nodes: Seq<NodeView>,
)
    requires
        problem.wf(),
        is_sound(*problem.tasks, problem.facts.spec_count()),
        has_distributions(*problem.tasks),
        crate::andstar::is_result(
            problem,
            crate::andstar::setting_of(problem, h_type, SearchMode::MaxProb),
            result,
        ),
        are_precise(
            crate::andstar::setting_of(problem, h_type, SearchMode::MaxProb),
            crate::andstar::start_of(problem),
            eps,
        ),
        eps >= crate::policy::EPSILON,
        is_plan(
            crate::andstar::setting_of(problem, h_type, SearchMode::MaxProb),
            crate::andstar::start_of(problem),
            policy,
            nodes,
        ),
    ensures
        match result {
            SearchResult::Success(found) => crate::policy::vi_value(nodes)
                <= found.success_probability + eps,
            SearchResult::NoSolution => crate::policy::vi_value(nodes) < problem.rho + eps,
        },
{
    let cx = crate::andstar::setting_of(problem, h_type, SearchMode::MaxProb);
    let start = crate::andstar::start_of(problem);
    let rho = problem.rho as int;
    crate::reach_laws::law_graph_is_a_distribution(cx, policy, start, nodes);
    crate::reach_laws::lemma_graph_edges(cx, policy, start, nodes);
    crate::policy_laws::law_value_is_a_probability(nodes);
    match result {
        SearchResult::Success(best) => {
            let q = choose|q: Partial| crate::andstar::is_best(problem, cx, q, best);
            if crate::andstar::is_complete(problem, cx, Some(q.f)) {
                let found = choose|found: Seq<Partial>| #[trigger]
                    is_exhausted(cx, start, found, Some(q.f), rho);
                law_nothing_better_is_left_out(
                    cx,
                    start,
                    found,
                    Some(q.f),
                    rho,
                    eps,
                    policy,
                    nodes,
                );
            }
        },
        SearchResult::NoSolution => {
            if crate::andstar::is_complete(problem, cx, None) {
                let found = choose|found: Seq<Partial>| #[trigger]
                    is_exhausted(cx, start, found, None, rho);
                law_nothing_better_is_left_out(cx, start, found, None, rho, eps, policy, nodes);
            } else if !exists|q: Partial| crate::andstar::is_nearly_certain(problem, cx, q) {
                let best = choose|best: int|
                    best < problem.rho && #[trigger] crate::andstar::is_complete(
                        problem,
                        cx,
                        Some(best),
                    );
                let found = choose|found: Seq<Partial>| #[trigger]
                    is_exhausted(cx, start, found, Some(best), rho);
                law_nothing_better_is_left_out(
                    cx,
                    start,
                    found,
                    Some(best),
                    rho,
                    eps,
                    policy,
                    nodes,
                );
            }
        },
    }
}

/// Where a closed policy has a node, a policy that has all that it has reaches a
/// goal from there only where the closed one does.
proof fn lemma_goal_back(
    cx: Setting,
    start: Place,
    a: Partial,
    finer: Policy,
    child: Seq<NodeView>,
    t: nat,
    i: int,
    j: int,
)
    requires
        a.ok(cx, start),
        is_reach(cx, finer, start, child),
        is_finer(cx, finer, a.policy),
        a.is_closed(),
        0 <= i < a.nodes.len(),
        0 <= j < child.len(),
        a.nodes[i].place == child[j].place,
        crate::proper::reaches_goal_in(child, t, j),
    ensures
        crate::proper::reaches_goal_in(a.nodes, t, i),
    decreases t,
{
    assert(node_ok(cx, a.policy, places_of(a.nodes), a.nodes[i]));
    assert(node_ok(cx, finer, places_of(child), child[j]));
    if t > 0 {
        let y = choose|y: int| #[trigger]
            crate::proper::has_live_edge(child, j, y) && crate::proper::reaches_goal_in(
                child,
                (t - 1) as nat,
                y,
            );
        let k = choose|k: int|
            0 <= k < child[j].successors.len() && (#[trigger] child[j].successors[k]).0 == y
                && child[j].successors[k].1 > 0;
        if a.nodes[i].kind == NodeKind::Compound {
            if i > 0 {
                assert(crate::reach::is_entered(a.nodes, i));
            }
            assert(a.out_c.contains(i as usize));
        }
        crate::reach_laws::lemma_same_edges(
            cx,
            a.policy,
            finer,
            start,
            a.nodes,
            child,
            i,
            j,
            k,
        );
        let x = a.nodes[i].successors[k].0 as int;
        lemma_goal_back(cx, start, a, finer, child, (t - 1) as nat, x, y);
        assert(crate::proper::has_live_edge(a.nodes, i, x));
    }
}

/// Nothing that goes on from a closed policy makes up for a goal that is out of
/// reach.
proof fn lemma_weak_stays_weak(
    cx: Setting,
    start: Place,
    a: Partial,
    finer: Policy,
    child: Seq<NodeView>,
)
    requires
        a.ok(cx, start),
        is_reach(cx, finer, start, child),
        is_finer(cx, finer, a.policy),
        a.is_closed(),
        crate::proper::is_strong(child),
    ensures
        crate::proper::is_strong(a.nodes),
{
    assert forall|i: int|
        0 <= i < a.nodes.len() && #[trigger] crate::proper::is_reached(
            a.nodes,
            i,
        ) implies crate::proper::reaches_goal(a.nodes, i) by {
        let j = lemma_included(cx, a.policy, finer, start, a.nodes, child, i);
        crate::reach_laws::lemma_all_reached(cx, finer, start, child, j);
        assert(crate::proper::reaches_goal(child, j));
        let t = choose|t: nat| crate::proper::reaches_goal_in(child, t, j);
        lemma_goal_back(cx, start, a, finer, child, t, i, j);
    }
}

proof fn lemma_found_is_no_longer(
    cx: Setting,
    start: Place,
    found: Seq<Partial>,
    best: Option<int>,
    rho: int,
    finer: Policy,
    child: Seq<NodeView>,
    j: int,
)
    requires
        cx.mode == SearchMode::MinCost,
        is_exhausted(cx, start, found, best, rho),
        is_plan(cx, start, finer, child),
        crate::proper::is_strong(child),
        0 <= j < found.len(),
        is_finer(cx, finer, found[j].policy),
    ensures
        best matches Some(b) && -b <= assigned(child).len(),
    decreases assigned(child).len() - found[j].steps.len(),
{
    let a = found[j];
    let bar = crate::search_space::at_least(best, rho);
    assert(is_derived(cx, start, a));
    crate::search_laws::law_steps_are_the_policy(cx, start, a);
    assert(crate::search_space::is_done(cx, start, found, a, best, bar));
    law_every_open_node_costs_one(cx, start, a, finer, child);
    if a.is_closed() && !crate::proper::is_strong(a.nodes) {
        lemma_weak_stays_weak(cx, start, a, finer, child);
    } else if crate::search_space::is_expanded(cx, start, found, a, bar) {
        let q = lemma_step_towards(cx, start, found, a, finer, child, bar);
        let k = choose|k: int| 0 <= k < found.len() && q.matches(#[trigger] found[k]);
        assert(is_derived(cx, start, found[k]));
        lemma_same_graph(cx, start, q, found[k], finer);
        law_every_open_node_costs_one(cx, start, found[k], finer, child);
        lemma_found_is_no_longer(cx, start, found, best, rho, finer, child, k);
    }
}

/// What `run_fond` returns has no more assignments than any whole policy that
/// succeeds for certain follows methods, and it returns none only where there is
/// no such policy.
pub proof fn law_run_fond_finds_the_shortest(
    problem: FONDProblem,
    h_type: HeuristicType,
    result: SearchResult,
    policy: Policy,
    nodes: Seq<NodeView>,
)
    requires
        crate::andstar::is_result(
            problem,
            crate::andstar::setting_of(problem, h_type, SearchMode::MinCost),
            result,
        ),
        problem.rho <= crate::probability::ONE,
        is_plan(
            crate::andstar::setting_of(problem, h_type, SearchMode::MinCost),
            crate::andstar::start_of(problem),
            policy,
            nodes,
        ),
        crate::proper::is_strong(nodes),
    ensures
        result matches SearchResult::Success(found) && found.transitions@.len() <= assigned(
            nodes,
        ).len(),
{
    let cx = crate::andstar::setting_of(problem, h_type, SearchMode::MinCost);
    let start = crate::andstar::start_of(problem);
    let rho = problem.rho as int;
    match result {
        SearchResult::Success(best) => {
            let q = choose|q: Partial| crate::andstar::is_best(problem, cx, q, best);
            let found = choose|found: Seq<Partial>| #[trigger]
                is_exhausted(cx, start, found, Some(q.f), rho);
            lemma_found_is_no_longer(cx, start, found, Some(q.f), rho, policy, nodes, 0);
        },
        SearchResult::NoSolution => {
            let found = choose|found: Seq<Partial>| #[trigger]
                is_exhausted(cx, start, found, None, rho);
            lemma_found_is_no_longer(cx, start, found, None, rho, policy, nodes, 0);
        },
    }
}

/// The value of a graph is within `e` times the steps until it comes to a node
/// with a fixed value or is caught, where `e` is what one sweep may leave out: so
/// the values are precise unless a loop is left, but hardly ever.
pub proof fn law_values_are_precise_in_time(
    nodes: Seq<NodeView>,
    times: Seq<nat>,
    idle: Set<int>,
    e: nat,
)
    requires
        nodes.len() > 0,
        crate::policy::edges_wf(nodes),
        is_distribution(nodes),
        crate::policy_laws::is_idle(nodes, idle),
        is_time_bound(nodes, times, idle),
        forall|i: int|
            0 <= i < nodes.len() ==> e >= crate::policy::EPSILON + 2 * (
            #[trigger] nodes[i]).successors.len(),
    ensures
        is_precise(nodes, (e * times[0]) as int),
{
    let w = crate::policy_laws::law_value_is_precise_in_time(nodes, times, idle, e);
}

/// The value of a graph is all that it is worth where one more sweep would
/// change nothing.
pub proof fn law_settled_values_are_precise(nodes: Seq<NodeView>)
    requires
        nodes.len() > 0,
        crate::policy::edges_wf(nodes),
        crate::policy::greatest_change(nodes, crate::policy::settled(nodes), nodes.len()) == 0,
    ensures
        is_precise(nodes, 0),
{
    crate::policy_laws::law_settled_values_are_the_least_upper_table(nodes);
}

/// Where the threshold is not within the precision of certainty, `run` returns nothing
/// only if every whole policy is worth less than the threshold, up to what the
/// values leave out. And where the policy that it returns is not certain within that
/// precision, no whole policy is worth more, up to what the values leave out.
pub proof fn law_run_misses_no_policy_that_reaches_the_threshold(
    problem: FONDProblem,
    h_type: HeuristicType,
    result: SearchResult,
    eps: int,
    policy: Policy,
    nodes: Seq<NodeView>,
)
    requires
        problem.wf(),
        is_sound(*problem.tasks, problem.facts.spec_count()),
        has_distributions(*problem.tasks),
        crate::andstar::is_result(
            problem,
            crate::andstar::setting_of(problem, h_type, SearchMode::MaxProb),
            result,
        ),
        are_precise(
            crate::andstar::setting_of(problem, h_type, SearchMode::MaxProb),
            crate::andstar::start_of(problem),
            eps,
        ),
        is_plan(
            crate::andstar::setting_of(problem, h_type, SearchMode::MaxProb),
            crate::andstar::start_of(problem),
            policy,
            nodes,
        ),
        eps >= 0,
        match result {
            SearchResult::Success(found) => found.success_probability
                < 1_000_000_000_000_000_000 - 1_000_000,
            SearchResult::NoSolution => problem.rho <= 1_000_000_000_000_000_000 - 1_000_000,
        },
    ensures
        match result {
            SearchResult::Success(found) => crate::policy::vi_value(nodes)
                <= found.success_probability + eps,
            SearchResult::NoSolution => crate::policy::vi_value(nodes) < problem.rho + eps,
        },
{
    let cx = crate::andstar::setting_of(problem, h_type, SearchMode::MaxProb);
    let start = crate::andstar::start_of(problem);
    let rho = problem.rho as int;
    match result {
        SearchResult::Success(best) => {
            let q = choose|q: Partial| crate::andstar::is_best(problem, cx, q, best);
            let found = choose|found: Seq<Partial>| #[trigger]
                is_exhausted(cx, start, found, Some(q.f), rho);
            law_nothing_better_is_left_out(
                cx,
                start,
                found,
                Some(q.f),
                rho,
                eps,
                policy,
                nodes,
            );
        },
        SearchResult::NoSolution => {
            if crate::andstar::is_complete(problem, cx, None) {
                let found = choose|found: Seq<Partial>| #[trigger]
                    is_exhausted(cx, start, found, None, rho);
                law_nothing_better_is_left_out(cx, start, found, None, rho, eps, policy, nodes);
            } else {
                let best = choose|best: int|
                    best < problem.rho && #[trigger] crate::andstar::is_complete(
                        problem,
                        cx,
                        Some(best),
                    );
                let found = choose|found: Seq<Partial>| #[trigger]
                    is_exhausted(cx, start, found, Some(best), rho);
                law_nothing_better_is_left_out(
                    cx,
                    start,
                    found,
                    Some(best),
                    rho,
                    eps,
                    policy,
                    nodes,
                );
            }
        },
    }
}

} // verus!

//! Laws of what a search returns, told by the problem and the policy.

use vstd::prelude::*;

use crate::andstar::{PolicyNode, PolicyOutput, SearchResult, SearchStats, StrongPolicy};
use crate::composition::HeuristicType;
use crate::domain::Facts;
use crate::order::Ranked;
use crate::policy::{NodeKind, NodeView, SearchMode, TiebreakerKind};
use crate::probability::ONE;
use crate::problem::FONDProblem;
use crate::reach::{Choice, Policy, Setting};
use crate::search_space::{Moment, Partial};
use crate::signature::Place;

verus! {

/// A search for a problem is about its tasks and facts, and starts with its initial
/// network where its initial facts hold.
pub proof fn law_search_is_about_the_problem(
    problem: FONDProblem,
    h_type: HeuristicType,
    mode: SearchMode,
)
    ensures
        crate::andstar::setting_of(problem, h_type, mode).tasks == *problem.tasks,
        crate::andstar::setting_of(problem, h_type, mode).n_facts == problem.facts.names@.len(),
        crate::andstar::setting_of(problem, h_type, mode).ids == problem.init_tn.nodes@,
        crate::andstar::setting_of(problem, h_type, mode).h_type == h_type,
        crate::andstar::setting_of(problem, h_type, mode).mode == mode,
        crate::andstar::start_of(problem).net.tasks == problem.init_tn.tasks@,
        forall|a: int, b: int| #[trigger]
            crate::andstar::start_of(problem).net.before.contains((a, b)) <==> exists|k: int|
                0 <= k < problem.init_tn.order@.len() && (#[trigger] problem.init_tn.order@[k]).0
                    == a && problem.init_tn.order@[k].1 == b,
        forall|f: u32| #[trigger]
            crate::andstar::start_of(problem).facts.contains(f)
                <==> problem.initial_state@.contains(f),
{
}

/// The entry is the method that the policy has at the place of the node.
spec fn is_entry_of(
    problem: FONDProblem,
    policy: Policy,
    n: NodeView,
    ids: Seq<usize>,
    t: (PolicyNode, PolicyOutput),
) -> bool {
    let task = *problem.tasks.tasks@[n.place.net.tasks[policy[n.place]->By_0] as int];
    &&& n.kind == NodeKind::Assigned
    &&& policy[n.place] is By
    &&& t.0.tn@ == n.place.net
    &&& t.0.tn.nodes@ == ids
    &&& t.0.tn.domain == problem.tasks
    &&& crate::andstar::are_names(problem.facts, n.place.facts, t.0.state@)
    &&& t.1.task@ == task->Compound_0.name@
    &&& t.1.method@ == task->Compound_0.methods@[policy[n.place]->By_1].name@
}

/// The step is what the graph follows at its place.
proof fn lemma_step_entry(
    problem: FONDProblem,
    cx: Setting,
    p: Partial,
    found: StrongPolicy,
    x: int,
    i: int,
)
    requires
        cx.tasks == *problem.tasks,
        crate::andstar::is_solution(problem, cx, p, found),
        0 <= x < p.steps.len(),
        0 <= i < p.nodes.len(),
        p.nodes[i].place == p.steps[x].0,
    ensures
        is_entry_of(
            problem,
            p.policy,
            p.nodes[i],
            p.ids[i],
            found.transitions@[p.steps.len() - 1 - x],
        ),
{
    let start = crate::andstar::start_of(problem);
    let chain = choose|chain: Seq<Partial>| #[trigger]
        crate::search_space::is_chain(cx, start, chain) && chain.last() == p;
    let same = lemma_step_ids(cx, start, chain, chain.len() - 1, x);
    let places = crate::reach::places_of(p.nodes);
    assert(places[same] == places[i]);
    let k = p.steps.len() - 1 - x;
    crate::search_laws::law_steps_are_the_policy(cx, start, p);
    crate::search_laws::law_policy_is_for_waiting_places(cx, start, p);
    let step = p.steps[x];
    assert(p.policy.contains_key(step.0));
    assert(p.policy[p.steps[x].0] == Choice::By(p.steps[x].1.0, p.steps[x].1.1));
    assert(crate::reach::node_ok(
        cx,
        p.policy,
        crate::reach::places_of(p.nodes),
        p.nodes[i],
    ));
    assert(crate::andstar::is_transition(
        problem.tasks,
        problem.facts,
        found.transitions@[k],
        p.steps[p.steps.len() - 1 - k],
        p.step_ids[p.steps.len() - 1 - k],
    ));
}

/// A policy of a chain is the one of its graph.
proof fn lemma_chain_ok(cx: Setting, start: Place, chain: Seq<Partial>, k: int)
    requires
        crate::search_space::is_chain(cx, start, chain),
        0 <= k < chain.len(),
    ensures
        chain[k].ok(cx, start),
{
    if k > 0 {
        let p = chain[k - 1];
        assert(chain[k].follows(cx, start, p));
        let d = choose|d: (int, int)| chain[k].is_child(cx, start, p, d);
    }
}

/// The identifiers that are noted for a step are those of the node at its place.
proof fn lemma_step_ids(cx: Setting, start: Place, chain: Seq<Partial>, k: int, x: int) -> (i: int)
    requires
        crate::search_space::is_chain(cx, start, chain),
        0 <= k < chain.len(),
        0 <= x < chain[k].steps.len(),
    ensures
        0 <= i < chain[k].nodes.len(),
        chain[k].nodes[i].place == chain[k].steps[x].0,
        chain[k].ids[i] == chain[k].step_ids[x],
    decreases k,
{
    let p = chain[k - 1];
    let q = chain[k];
    lemma_step_count(cx, start, chain, k);
    assert(k > 0);
    lemma_step_count(cx, start, chain, k - 1);
    lemma_chain_ok(cx, start, chain, k - 1);
    lemma_chain_ok(cx, start, chain, k);
    assert(q.follows(cx, start, p));
    let d = choose|d: (int, int)| q.is_child(cx, start, p, d);
    let first = p.out_c[0] as int;
    assert(p.out_c.contains(p.out_c[0]));
    let i = if x < p.steps.len() {
        lemma_step_ids(cx, start, chain, k - 1, x)
    } else {
        first
    };
    assert(q.ids.take(p.ids.len() as int)[i] == p.ids[i]);
    if i != first {
        assert(q.nodes[i] == p.nodes[i]);
    }
    i
}

proof fn lemma_step_count(cx: Setting, start: Place, chain: Seq<Partial>, k: int)
    requires
        crate::search_space::is_chain(cx, start, chain),
        0 <= k < chain.len(),
    ensures
        chain[k].step_ids.len() == chain[k].steps.len(),
        k == 0 ==> chain[k].steps.len() == 0,
    decreases k,
{
    if k > 0 {
        lemma_step_count(cx, start, chain, k - 1);
        let p = chain[k - 1];
        assert(chain[k].follows(cx, start, p));
        let d = choose|d: (int, int)| chain[k].is_child(cx, start, p, d);
    }
}

/// Every entry is one of a node.
proof fn lemma_entry_node(
    problem: FONDProblem,
    cx: Setting,
    p: Partial,
    found: StrongPolicy,
    k: int,
) -> (i: int)
    requires
        cx.tasks == *problem.tasks,
        crate::andstar::is_solution(problem, cx, p, found),
        0 <= k < found.transitions@.len(),
    ensures
        0 <= i < p.nodes.len(),
        is_entry_of(problem, p.policy, p.nodes[i], p.ids[i], found.transitions@[k]),
{
    let x = p.steps.len() - 1 - k;
    crate::search_laws::law_steps_are_the_policy(cx, crate::andstar::start_of(problem), p);
    let places = crate::reach::places_of(p.nodes);
    assert(p.policy.contains_key(p.steps[x].0));
    assert(places.contains(p.steps[x].0));
    let i = choose|i: int| 0 <= i < places.len() && places[i] == p.steps[x].0;
    assert(p.nodes[i].place == p.steps[x].0);
    lemma_step_entry(problem, cx, p, found, x, i);
    i
}

/// Every node that follows a method has an entry.
proof fn lemma_node_entry(
    problem: FONDProblem,
    cx: Setting,
    p: Partial,
    found: StrongPolicy,
    i: int,
) -> (k: int)
    requires
        cx.tasks == *problem.tasks,
        crate::andstar::is_solution(problem, cx, p, found),
        0 <= i < p.nodes.len(),
        p.nodes[i].kind == NodeKind::Assigned,
    ensures
        0 <= k < found.transitions@.len(),
        is_entry_of(problem, p.policy, p.nodes[i], p.ids[i], found.transitions@[k]),
{
    let place = p.nodes[i].place;
    crate::search_laws::law_steps_are_the_policy(cx, crate::andstar::start_of(problem), p);
    assert(crate::reach::node_ok(
        cx,
        p.policy,
        crate::reach::places_of(p.nodes),
        p.nodes[i],
    ));
    assert(p.policy.contains_key(place));
    let x = choose|x: int| 0 <= x < p.steps.len() && (#[trigger] p.steps[x]).0 == place;
    lemma_step_entry(problem, cx, p, found, x, i);
    p.steps.len() - 1 - x
}

/// A policy that is returned reaches the threshold. It is a whole one: the graph of
/// what it reaches from the start of the problem waits for no method. In a
/// search for the most probable policy its probability is what this graph is worth,
/// and otherwise it is certain and the graph is strong. Its entries are the methods
/// that the graph follows: the entry `k` is the one of the node `of[k]`, and the
/// node `i` that follows a method has the entry `by[i]`. An entry has the network of
/// the place with its identifiers, and names the facts that hold there, the task and
/// the method.
pub proof fn law_result_is_a_whole_policy(
    problem: FONDProblem,
    h_type: HeuristicType,
    mode: SearchMode,
    found: StrongPolicy,
) -> (w: (Policy, Seq<NodeView>, Seq<int>, Seq<int>, Seq<Seq<usize>>))
    requires
        crate::andstar::is_result(
            problem,
            crate::andstar::setting_of(problem, h_type, mode),
            SearchResult::Success(found),
        ),
    ensures
        ({
            let (policy, nodes, of, by, ids) = w;
            &&& found.success_probability >= problem.rho
            &&& found.makespan == found.transitions@.len() as u16
            &&& crate::reach::is_reach(
                crate::andstar::setting_of(problem, h_type, mode),
                policy,
                crate::andstar::start_of(problem),
                nodes,
            )
            &&& forall|i: int|
                0 <= i < nodes.len() ==> (#[trigger] nodes[i]).kind != NodeKind::Compound
            &&& mode == SearchMode::MaxProb ==> found.success_probability
                == crate::policy::vi_value(nodes)
            &&& mode == SearchMode::MinCost ==> found.success_probability == ONE
                && crate::proper::is_strong(nodes)
            &&& crate::reach::are_ids(
                crate::andstar::setting_of(problem, h_type, mode),
                policy,
                nodes,
                ids,
            )
            &&& of.len() == found.transitions@.len()
            &&& by.len() == nodes.len()
            &&& forall|k: int|
                0 <= k < of.len() ==> 0 <= #[trigger] of[k] < nodes.len() && {
                    let t = found.transitions@[k];
                    let place = nodes[of[k]].place;
                    let task = *problem.tasks.tasks@[place.net.tasks[policy[place]->By_0] as int];
                    &&& nodes[of[k]].kind == NodeKind::Assigned
                    &&& t.0.tn@ == place.net
                    &&& t.0.tn.nodes@ == ids[of[k]]
                    &&& t.0.tn.domain == problem.tasks
                    &&& crate::andstar::are_names(problem.facts, place.facts, t.0.state@)
                    &&& t.1.task@ == task->Compound_0.name@
                    &&& t.1.method@ == task->Compound_0.methods@[policy[place]->By_1].name@
                }
            &&& forall|i: int|
                0 <= i < by.len() && nodes[i].kind == NodeKind::Assigned ==> 0
                    <= #[trigger] by[i] < found.transitions@.len() && {
                    let t = found.transitions@[by[i]];
                    let place = nodes[i].place;
                    let task = *problem.tasks.tasks@[place.net.tasks[policy[place]->By_0] as int];
                    &&& t.0.tn@ == place.net
                    &&& crate::andstar::are_names(problem.facts, place.facts, t.0.state@)
                    &&& t.1.task@ == task->Compound_0.name@
                    &&& t.1.method@ == task->Compound_0.methods@[policy[place]->By_1].name@
                }
        }),
{
    let cx = crate::andstar::setting_of(problem, h_type, mode);
    let start = crate::andstar::start_of(problem);
    let p = choose|p: Partial| crate::andstar::is_best(problem, cx, p, found);
    crate::optimality::law_closed_policy_is_a_plan(cx, start, p);
    let of = Seq::new(
        found.transitions@.len(),
        |k: int|
            choose|i: int|
                0 <= i < p.nodes.len() && is_entry_of(
                    problem,
                    p.policy,
                    #[trigger] p.nodes[i],
                    p.ids[i],
                    found.transitions@[k],
                ),
    );
    let by = Seq::new(
        p.nodes.len(),
        |i: int|
            choose|k: int|
                0 <= k < found.transitions@.len() && is_entry_of(
                    problem,
                    p.policy,
                    p.nodes[i],
                    p.ids[i],
                    #[trigger] found.transitions@[k],
                ),
    );
    assert forall|k: int| 0 <= k < of.len() implies 0 <= #[trigger] of[k] < p.nodes.len()
        && is_entry_of(problem, p.policy, p.nodes[of[k]], p.ids[of[k]], found.transitions@[k]) by {
        let i = lemma_entry_node(problem, cx, p, found, k);
        assert(is_entry_of(problem, p.policy, p.nodes[i], p.ids[i], found.transitions@[k]));
    }
    assert forall|i: int| 0 <= i < by.len() && p.nodes[i].kind == NodeKind::Assigned implies 0
        <= #[trigger] by[i] < found.transitions@.len() && is_entry_of(
        problem,
        p.policy,
        p.nodes[i],
        p.ids[i],
        found.transitions@[by[i]],
    ) by {
        let k = lemma_node_entry(problem, cx, p, found, i);
        assert(is_entry_of(problem, p.policy, p.nodes[i], p.ids[i], found.transitions@[k]));
    }
    (p.policy, p.nodes, of, by, p.ids)
}

/// The names of facts are listed in the order of the facts, each once, and none is
/// left out.
pub proof fn law_entries_name_the_facts(
    all: Facts,
    facts: Set<u32>,
    names: Seq<String>,
) -> (ids: Seq<u32>)
    requires
        crate::andstar::are_names(all, facts, names),
    ensures
        ids.len() == names.len(),
        forall|f: u32| #[trigger] ids.contains(f) <==> facts.contains(f),
        forall|i: int, j: int| 0 <= i < j < ids.len() ==> #[trigger] ids[i] < #[trigger] ids[j],
        forall|k: int| 0 <= k < ids.len() ==> (#[trigger] names[k])@ == all.names@[ids[k] as int]@,
{
    let ids = choose|ids: Seq<u32>| #[trigger]
        crate::order::ascends(ids) && ids.len() == names.len() && (forall|f: u32| #[trigger]
            ids.contains(f) <==> facts.contains(f)) && (forall|k: int|
            0 <= k < ids.len() ==> (#[trigger] names[k])@ == all.names@[ids[k] as int]@);
    assert forall|i: int, j: int| 0 <= i < j < ids.len() implies #[trigger] ids[i]
        < #[trigger] ids[j] by {
        assert(ids[i].precedes(ids[j]));
    }
    ids
}

/// The statistics of a search tell the threshold and, where a policy is returned,
/// its probability. At least one policy was looked at.
pub proof fn law_statistics_tell_of_the_result(
    problem: FONDProblem,
    h_type: HeuristicType,
    mode: SearchMode,
    tiebreaker: TiebreakerKind,
    result: SearchResult,
    stats: SearchStats,
)
    requires
        crate::andstar::are_stats(
            problem,
            crate::andstar::setting_of(problem, h_type, mode),
            tiebreaker,
            result,
            stats,
        ),
    ensures
        stats.rho_threshold == problem.rho,
        stats.max_depth == 0,
        stats.search_nodes == stats.explored_nodes,
        stats.explored_nodes >= 1,
        result is NoSolution ==> stats.success_probability is None,
        result is Success ==> stats.success_probability == Some(
            result->Success_0.success_probability,
        ),
{
}

/// Every look at a policy is counted, and the search ends with the one after which
/// nothing better can come, not earlier and not later. The best policy found then is
/// the one that is returned, if it reaches the threshold.
pub proof fn law_every_look_is_counted(
    problem: FONDProblem,
    h_type: HeuristicType,
    mode: SearchMode,
    tiebreaker: TiebreakerKind,
    result: SearchResult,
    stats: SearchStats,
) -> (trace: Seq<Moment>)
    requires
        crate::andstar::are_stats(
            problem,
            crate::andstar::setting_of(problem, h_type, mode),
            tiebreaker,
            result,
            stats,
        ),
    ensures
        ({
            let cx = crate::andstar::setting_of(problem, h_type, mode);
            let last = trace.last();
            &&& stats.explored_nodes == trace.len() - 1
            &&& crate::search_space::is_trace(
                cx,
                crate::andstar::start_of(problem),
                problem.rho as int,
                tiebreaker,
                trace,
            )
            &&& last.is_over(cx)
            &&& result is Success ==> last.best is Some
                && result->Success_0.transitions@.len() == last.best->0.steps.len()
                && last.best->0.out_c.len() == 0
            &&& result is Success && mode == SearchMode::MaxProb
                ==> result->Success_0.success_probability == last.best->0.f
            &&& result is NoSolution && mode == SearchMode::MaxProb ==> last.best is None
                || last.best->0.f < problem.rho
            &&& result is NoSolution && mode == SearchMode::MinCost ==> last.best is None
                || problem.rho > ONE
        }),
{
    let cx = crate::andstar::setting_of(problem, h_type, mode);
    let start = crate::andstar::start_of(problem);
    let best = choose|best: Option<Partial>| #[trigger]
        crate::andstar::is_whole_trace(
            problem,
            cx,
            tiebreaker,
            stats.explored_nodes as nat,
            best,
        ) && crate::andstar::comes_of(problem, cx, best, result);
    let trace = choose|trace: Seq<Moment>| #[trigger]
        crate::search_space::is_trace(
            cx,
            start,
            problem.rho as int,
            tiebreaker,
            trace,
        ) && trace.len() == stats.explored_nodes + 1 && trace.last().is_over(cx)
            && trace.last().best == best;
    trace
}

/// A search begins with the policy that assigns nothing, and takes a look at the one
/// that goes first for as long as it is not over.
pub proof fn law_search_takes_one_look_after_the_other(
    cx: Setting,
    start: Place,
    rho: int,
    tiebreaker: TiebreakerKind,
    trace: Seq<Moment>,
    i: int,
) -> (k: int)
    requires
        crate::search_space::is_trace(cx, start, rho, tiebreaker, trace),
        0 < i < trace.len(),
    ensures
        trace[0].found.len() == 1,
        trace[0].found[0].steps.len() == 0,
        forall|p: Place| !#[trigger] trace[0].found[0].policy.contains_key(p),
        crate::reach::is_reach(cx, trace[0].found[0].policy, start, trace[0].found[0].nodes),
        trace[0].open == seq![0int],
        trace[0].best is None,
        !trace[i - 1].is_over(cx),
        trace[i - 1].goes_first(tiebreaker, k),
        trace[i - 1].looks_at(cx, start, rho, k, trace[i]),
{
    reveal(Moment::leads_to);
    assert(crate::search_space::goes_on(cx, start, rho, tiebreaker, trace, i));
    choose|k: int| #[trigger]
        trace[i - 1].goes_first(tiebreaker, k) && trace[i - 1].looks_at(
            cx,
            start,
            rho,
            k,
            trace[i],
        )
}

} // verus!

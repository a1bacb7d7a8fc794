//! Laws of the relaxed problem that stands for a task network: which facts and
//! actions it has, and what the heuristics say of it.

use vstd::prelude::*;

use crate::composition::{HeuristicType, RelaxedComposition};
use crate::costs::Combine;
use crate::domain::ClassicalDomain;
use crate::task_network::{DomainTasks, Network, Task};

verus! {

/// The outcome `k` of the action that is the task `t` is an action of its own: it
/// costs nothing, needs what the action needs, adds what the outcome adds and that
/// the task is done, and has the probability of the outcome, where one is given.
pub proof fn law_outcomes_become_actions(
    r: RelaxedComposition,
    tasks: DomainTasks,
    n_facts: nat,
    t: int,
    k: int,
) -> (a: int)
    requires
        r.is_of(tasks, n_facts),
        0 <= t < tasks.tasks@.len(),
        *tasks.tasks@[t] is Primitive,
        0 <= k < (*tasks.tasks@[t])->Primitive_0.add_effects@.len(),
    ensures
        ({
            let action = (*tasks.tasks@[t])->Primitive_0;
            let c = r.domain.actions@[a];
            &&& r.domain.facts.names@.len() == n_facts + tasks.tasks@.len() + 1
            &&& 0 <= a < r.domain.actions@.len()
            &&& c.cost == 0
            &&& c.add_effects@.len() == 1
            &&& forall|f: u32| #[trigger]
                c.pre_cond@.contains(f) <==> action.pre_cond@.contains(f) || f == n_facts
                    + tasks.tasks@.len()
            &&& forall|f: u32| #[trigger]
                c.add_effects@[0]@.contains(f) <==> action.add_effects@[k]@.contains(f) || f
                    == n_facts + t
            &&& k < action.probabilities@.len() ==> c.probabilities@.len() == 1
                && c.probabilities@[0] == action.probabilities@[k]
            &&& k >= action.probabilities@.len() ==> c.probabilities@.len() == 0
        }),
{
    assert(crate::composition::has_step(tasks, n_facts, t, k, r.domain));
    let a = choose|a: int|
        0 <= a < r.domain.n_actions() && crate::composition::is_step(
            tasks,
            n_facts,
            t,
            k,
            #[trigger] r.domain.actions@[a],
        );
    assert(crate::composition::is_outcome_action(tasks, n_facts, t, k, r.domain.actions@[a]));
    a
}

/// The tasks of the method `m` of the compound task `t`.
spec fn needed_tasks(tasks: DomainTasks, t: int, m: int) -> Seq<usize> {
    (*tasks.tasks@[t])->Compound_0.methods@[m].decomposition.tasks@
}

/// The method `m` of the compound task `t` is an action: it costs one, needs each
/// task of the method done, and adds that the task is done.
pub proof fn law_methods_become_actions(
    r: RelaxedComposition,
    tasks: DomainTasks,
    n_facts: nat,
    t: int,
    m: int,
) -> (a: int)
    requires
        r.is_of(tasks, n_facts),
        0 <= t < tasks.tasks@.len(),
        *tasks.tasks@[t] is Compound,
        0 <= m < (*tasks.tasks@[t])->Compound_0.methods@.len(),
    ensures
        ({
            let needed = (*tasks.tasks@[t])->Compound_0.methods@[m].decomposition.tasks@;
            let c = r.domain.actions@[a];
            &&& 0 <= a < r.domain.actions@.len()
            &&& c.cost == 1
            &&& c.add_effects@.len() == 1
            &&& forall|f: u32| #[trigger]
                c.pre_cond@.contains(f) <==> (exists|i: int|
                    0 <= i < needed.len() && f == n_facts + #[trigger] needed[i]) || f == n_facts
                    + tasks.tasks@.len()
            &&& forall|f: u32| #[trigger] c.add_effects@[0]@.contains(f) <==> f == n_facts + t
            &&& c.probabilities@.len() == 0
        }),
{
    assert(crate::composition::has_step(tasks, n_facts, t, m, r.domain));
    let a = choose|a: int|
        0 <= a < r.domain.n_actions() && crate::composition::is_step(
            tasks,
            n_facts,
            t,
            m,
            #[trigger] r.domain.actions@[a],
        );
    assert(crate::composition::is_method_action(tasks, n_facts, t, m, r.domain.actions@[a]));
    let needed = needed_tasks(tasks, t, m);
    let c = r.domain.actions@[a];
    assert forall|f: u32| #[trigger] c.pre_cond@.contains(f) <==> (exists|i: int|
        0 <= i < needed.len() && f == n_facts + #[trigger] needed[i]) || f == n_facts
        + tasks.tasks@.len() by {
        if crate::composition::is_done_of(n_facts, needed, f) {
            let i = choose|i: int|
                0 <= i < needed.len() && f == crate::composition::done(
                    n_facts,
                    #[trigger] needed[i] as int,
                );
            assert(f == n_facts + needed[i]);
        }
        if exists|i: int| 0 <= i < needed.len() && f == n_facts + #[trigger] needed[i] {
            let i = choose|i: int| 0 <= i < needed.len() && f == n_facts + #[trigger] needed[i];
            assert(f == crate::composition::done(n_facts, needed[i] as int));
        }
    }
    a
}

/// There is no other action: each one is an outcome of an action or a method of a
/// compound task, and adds that it is done.
pub proof fn law_nothing_else_becomes_an_action(
    r: RelaxedComposition,
    tasks: DomainTasks,
    n_facts: nat,
    a: int,
) -> (w: (int, int))
    requires
        r.is_of(tasks, n_facts),
        0 <= a < r.domain.actions@.len(),
    ensures
        ({
            let (t, k) = w;
            let c = r.domain.actions@[a];
            &&& 0 <= t < tasks.tasks@.len()
            &&& match *tasks.tasks@[t] {
                Task::Primitive(action) => {
                    &&& 0 <= k < action.add_effects@.len()
                    &&& c.cost == 0
                    &&& c.add_effects@.len() == 1
                    &&& forall|f: u32| #[trigger]
                        c.pre_cond@.contains(f) <==> action.pre_cond@.contains(f) || f == n_facts
                            + tasks.tasks@.len()
                    &&& forall|f: u32| #[trigger]
                        c.add_effects@[0]@.contains(f) <==> action.add_effects@[k]@.contains(f)
                            || f == n_facts + t
                },
                Task::Compound(compound) => {
                    &&& 0 <= k < compound.methods@.len()
                    &&& c.cost == 1
                    &&& c.add_effects@.len() == 1
                    &&& forall|f: u32| #[trigger]
                        c.add_effects@[0]@.contains(f) <==> f == n_facts + t
                    &&& forall|i: int|
                        0 <= i < compound.methods@[k].decomposition.tasks@.len() && n_facts
                            + compound.methods@[k].decomposition.tasks@[i] <= u32::MAX
                            ==> c.pre_cond@.contains(
                            (n_facts + #[trigger] compound.methods@[k].decomposition.tasks@[i]) as u32,
                        )
                },
            }
        }),
{
    let c = r.domain.actions@[a];
    assert(crate::composition::is_some_step(tasks, n_facts, c));
    let (t, k) = choose|t: int, k: int| crate::composition::is_step(tasks, n_facts, t, k, c);
    if crate::composition::is_method_action(tasks, n_facts, t, k, c) {
        let needed = needed_tasks(tasks, t, k);
        assert forall|i: int|
            0 <= i < needed.len() && n_facts + needed[i] <= u32::MAX implies c.pre_cond@.contains(
            (n_facts + #[trigger] needed[i]) as u32,
        ) by {
            let f = (n_facts + needed[i]) as u32;
            assert(f == crate::composition::done(n_facts, needed[i] as int));
            assert(crate::composition::is_done_of(n_facts, needed, f));
        }
    }
    (t, k)
}

/// What a heuristic says of a network where some facts hold is what it says of the
/// relaxed problem: to have each task of the network done, from these facts and
/// the one that always holds. The sum of costs, the greatest cost, the length of a
/// relaxed plan, or only whether there is a chance.
pub proof fn law_heuristic_is_that_of_the_relaxed_problem(
    tasks: DomainTasks,
    n_facts: nat,
    net: Network,
    facts: Set<u32>,
    h_type: HeuristicType,
    v: Option<u32>,
) -> (w: (RelaxedComposition, Set<u32>, Set<u32>, u64))
    requires
        crate::composition::is_h_val(tasks, n_facts, net, facts, h_type, v),
    ensures
        w.0.is_of(tasks, n_facts),
        forall|f: u32| #[trigger]
            w.1.contains(f) <==> facts.contains(f) || f == n_facts + tasks.tasks@.len(),
        forall|f: u32| #[trigger]
            w.2.contains(f) <==> exists|i: int|
                0 <= i < net.tasks.len() && f == n_facts + #[trigger] net.tasks[i],
        h_type == HeuristicType::HAdd ==> crate::costs::is_goal_cost(
            w.0.domain,
            w.1,
            w.2,
            Combine::Sum,
            v,
        ),
        h_type == HeuristicType::HMax ==> crate::costs::is_goal_cost(
            w.0.domain,
            w.1,
            w.2,
            Combine::Max,
            v,
        ),
        h_type == HeuristicType::HFF && v is None ==> forall|k: nat| !#[trigger]
            crate::graphplan::reached_at(w.0.domain, w.1, w.2, k),
        h_type == HeuristicType::HFF && v is Some ==> crate::ff::is_ff(
            w.0.domain,
            w.1,
            w.2,
            v->0,
        ),
        h_type == HeuristicType::HProb ==> crate::prob::is_prob_max(w.0.domain, w.1, w.2, w.3),
        h_type == HeuristicType::HProb && w.3 == 0 ==> v is None,
        h_type == HeuristicType::HProb && w.3 > 0 ==> v == Some(0u32),
{
    let n = tasks.n_tasks();
    let s = crate::composition::relaxed_start(n_facts, n, facts);
    let goal = crate::composition::relaxed_goal(n_facts, net);
    let r = choose|r: RelaxedComposition| #[trigger]
        r.is_of(tasks, n_facts) && crate::composition::is_heuristic_value(
            r.domain,
            s,
            goal,
            h_type,
            v,
        );
    assert forall|f: u32| #[trigger] goal.contains(f) <==> exists|i: int|
        0 <= i < net.tasks.len() && f == n_facts + #[trigger] net.tasks[i] by {
        if goal.contains(f) {
            let i = choose|i: int|
                0 <= i < net.tasks.len() && f == crate::composition::done(
                    n_facts,
                    #[trigger] net.tasks[i] as int,
                );
            assert(f == n_facts + net.tasks[i]);
        }
        if exists|i: int| 0 <= i < net.tasks.len() && f == n_facts + #[trigger] net.tasks[i] {
            let i = choose|i: int|
                0 <= i < net.tasks.len() && f == n_facts + #[trigger] net.tasks[i];
            assert(f == crate::composition::done(n_facts, net.tasks[i] as int));
            assert(crate::composition::is_done_of(n_facts, net.tasks, f));
        }
    }
    let p = choose|p: u64|
        crate::prob::is_prob_max(r.domain, s, goal, p) && v == (if p == 0 {
            None::<u32>
        } else {
            Some(0u32)
        });
    (r, s, goal, p)
}

/// A domain has what its actions hold: their preconditions, and what their first
/// outcomes add.
pub proof fn law_domain_has_what_its_actions_hold(d: ClassicalDomain, a: int, f: u32)
    requires
        0 <= a < d.actions@.len(),
    ensures
        d.n_facts() == d.facts.names@.len(),
        d.n_actions() == d.actions@.len(),
        d.pre(a).contains(f) <==> d.actions@[a].pre_cond@.contains(f),
        d.adds(a, f) <==> f < d.facts.names@.len() && d.actions@[a].add_effects@.len() > 0
            && d.actions@[a].add_effects@[0]@.contains(f),
{
}

} // verus!

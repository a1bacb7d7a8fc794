//! Laws of dead ends: what it means that a heuristic gives nothing, and that
//! this is no loss.

use vstd::prelude::*;

use crate::composition::HeuristicType;
use crate::costs::Combine;
use crate::domain::ClassicalDomain;
use crate::reach::Setting;
use crate::signature::Place;
use crate::task_network::{DomainTasks, Task};

verus! {

/// The facts and tasks named by the tasks are those of the problem.
pub open spec fn is_sound(tasks: DomainTasks, n_facts: nat) -> bool {
    &&& tasks.wf()
    &&& crate::problem::actions_wf(tasks, n_facts)
    &&& forall|t: int, f: u32|
        0 <= t < tasks.n_tasks() && #[trigger] needs(tasks, t, f) ==> f < n_facts
}

/// The task `t` is an action that needs the fact `f`.
pub open spec fn needs(tasks: DomainTasks, t: int, f: u32) -> bool {
    match *tasks.tasks@[t] {
        Task::Primitive(action) => action.pre_cond@.contains(f),
        Task::Compound(compound) => false,
    }
}

/// The place speaks of the facts and tasks of the problem.
pub open spec fn is_place(tasks: DomainTasks, n_facts: nat, place: Place) -> bool {
    &&& forall|f: u32| #[trigger] place.facts.contains(f) ==> f < n_facts
    &&& forall|i: int|
        0 <= i < place.net.len() ==> #[trigger] place.net.tasks[i] < tasks.n_tasks()
}

/// All of the listed tasks are in the set.
pub open spec fn all_able(list: Seq<usize>, able: Set<int>) -> bool {
    forall|i: int| 0 <= i < list.len() ==> able.contains(#[trigger] list[i] as int)
}

/// Without deletes and order, nothing more can be made true than `held`, and no
/// more tasks can be done than `able`: `held` has the facts, the outcomes of an
/// action whose precondition is held are held and the action is able, and so is
/// a task with a method all of whose tasks are. What the heuristic takes for
/// impossible is left out.
pub open spec fn is_limit(
    tasks: DomainTasks,
    h_type: HeuristicType,
    facts: Set<u32>,
    held: Set<u32>,
    able: Set<int>,
) -> bool {
    &&& facts.subset_of(held)
    &&& forall|t: int, k: int| #[trigger]
        is_outcome(tasks, t, k) && is_possible(tasks, h_type, t, k) && pre_of(tasks, t).subset_of(
            held,
        ) ==> able.contains(t) && adds_of(tasks, t, k).subset_of(held)
    &&& forall|t: int, m: int| #[trigger]
        is_method(tasks, t, m) && all_able(subtasks(tasks, t, m), able) ==> able.contains(t)
}

/// The task `t` is an action with an outcome `k`.
pub open spec fn is_outcome(tasks: DomainTasks, t: int, k: int) -> bool {
    &&& 0 <= t < tasks.n_tasks()
    &&& *tasks.tasks@[t] is Primitive
    &&& 0 <= k < (*tasks.tasks@[t])->Primitive_0.add_effects@.len()
}

/// The probability of the outcome `k` of the action `t`; 1 where none is given.
pub open spec fn prob_of(tasks: DomainTasks, t: int, k: int) -> u64 {
    let p = (*tasks.tasks@[t])->Primitive_0.probabilities@;
    if k < p.len() {
        p[k]
    } else {
        crate::probability::ONE
    }
}

/// The heuristic takes the outcome `k` of the action `t` for possible: the one
/// that bounds the probability asks for a positive probability, the others look
/// at none.
pub open spec fn is_possible(tasks: DomainTasks, h_type: HeuristicType, t: int, k: int) -> bool {
    h_type == HeuristicType::HProb ==> prob_of(tasks, t, k) > 0
}

/// What the action `t` needs.
pub open spec fn pre_of(tasks: DomainTasks, t: int) -> Set<u32> {
    (*tasks.tasks@[t])->Primitive_0.pre_cond@
}

/// What the outcome `k` of the action `t` adds.
pub open spec fn adds_of(tasks: DomainTasks, t: int, k: int) -> Set<u32> {
    (*tasks.tasks@[t])->Primitive_0.add_effects@[k]@
}

/// The task `t` is compound and has a method `m`.
pub open spec fn is_method(tasks: DomainTasks, t: int, m: int) -> bool {
    &&& 0 <= t < tasks.n_tasks()
    &&& *tasks.tasks@[t] is Compound
    &&& 0 <= m < (*tasks.tasks@[t])->Compound_0.methods@.len()
}

/// The tasks of the method `m` of the task `t`.
pub open spec fn subtasks(tasks: DomainTasks, t: int, m: int) -> Seq<usize> {
    (*tasks.tasks@[t])->Compound_0.methods@[m].decomposition.tasks@
}

/// A task of the network cannot be done, even without deletes and order.
pub open spec fn is_hopeless(tasks: DomainTasks, h_type: HeuristicType, place: Place) -> bool {
    exists|held: Set<u32>, able: Set<int>| #[trigger]
        is_limit(tasks, h_type, place.facts, held, able) && !all_able(place.net.tasks, able)
}

/// No possible outcome of an action leads out of a hopeless place.
pub proof fn law_hopeless_after_outcome(cx: Setting, place: Place, i: int, k: int)
    requires
        is_hopeless(cx.tasks, cx.h_type, place),
        0 <= i < place.net.len(),
        place.net.tasks[i] < cx.tasks.n_tasks(),
        crate::progress::is_executable(cx.tasks, place.net, place.facts, i),
        0 <= k < crate::progress::action_at(cx.tasks, place.net, i).add_effects@.len(),
        is_possible(cx.tasks, cx.h_type, place.net.tasks[i] as int, k),
    ensures
        is_hopeless(cx.tasks, cx.h_type, crate::reach::after_outcome(cx, place, i, k)),
{
    let (held, able) = choose|held: Set<u32>, able: Set<int>| #[trigger]
        is_limit(cx.tasks, cx.h_type, place.facts, held, able) && !all_able(place.net.tasks, able);
    let t = place.net.tasks[i] as int;
    let next = crate::reach::after_outcome(cx, place, i, k);
    assert(is_outcome(cx.tasks, t, k));
    assert(pre_of(cx.tasks, t).subset_of(held));
    assert(next.facts.subset_of(held));
    assert(is_limit(cx.tasks, cx.h_type, next.facts, held, able));
    if all_able(next.net.tasks, able) {
        assert forall|x: int| 0 <= x < place.net.tasks.len() implies able.contains(
            #[trigger] place.net.tasks[x] as int,
        ) by {
            if x < i {
                assert(next.net.tasks[x] == place.net.tasks[x]);
            } else if x > i {
                assert(next.net.tasks[x - 1] == place.net.tasks[x]);
            }
        }
    }
}

/// No method leads out of a hopeless place.
pub proof fn law_hopeless_after_method(cx: Setting, place: Place, i: int, m: int)
    requires
        is_hopeless(cx.tasks, cx.h_type, place),
        0 <= i < place.net.len(),
        place.net.tasks[i] < cx.tasks.n_tasks(),
        0 <= m < crate::progress::method_count(cx.tasks, place.net, i),
    ensures
        is_hopeless(cx.tasks, cx.h_type, crate::reach::after_method(cx, place, i, m)),
{
    let (held, able) = choose|held: Set<u32>, able: Set<int>| #[trigger]
        is_limit(cx.tasks, cx.h_type, place.facts, held, able) && !all_able(place.net.tasks, able);
    let t = place.net.tasks[i] as int;
    let next = crate::reach::after_method(cx, place, i, m);
    let sub = subtasks(cx.tasks, t, m);
    assert(is_method(cx.tasks, t, m));
    assert(next.net.tasks =~= place.net.tasks.remove(i) + sub);
    assert(is_limit(cx.tasks, cx.h_type, next.facts, held, able));
    if all_able(next.net.tasks, able) {
        assert forall|x: int| 0 <= x < sub.len() implies able.contains(#[trigger] sub[x] as int) by {
            assert(next.net.tasks[place.net.len() - 1 + x] == sub[x]);
        }
        assert(all_able(sub, able));
        assert forall|x: int| 0 <= x < place.net.tasks.len() implies able.contains(
            #[trigger] place.net.tasks[x] as int,
        ) by {
            if x < i {
                assert(next.net.tasks[x] == place.net.tasks[x]);
            } else if x > i {
                assert(next.net.tasks[x - 1] == place.net.tasks[x]);
            }
        }
    }
}

/// What one step does.
pub enum Move {
    /// The node at the first position is executed with the outcome at the second.
    Outcome(int, int),
    /// The node at the first position is decomposed by the method at the second.
    Method(int, int),
}

/// The move leads from the one place to the other.
pub open spec fn is_move(cx: Setting, from: Place, to: Place, step: Move) -> bool {
    match step {
        Move::Outcome(i, k) => {
            &&& crate::progress::is_executable(cx.tasks, from.net, from.facts, i)
            &&& 0 <= k < crate::progress::action_at(cx.tasks, from.net, i).add_effects@.len()
            &&& to == crate::reach::after_outcome(cx, from, i, k)
        },
        Move::Method(i, m) => {
            &&& 0 <= m < crate::progress::method_count(cx.tasks, from.net, i)
            &&& to == crate::reach::after_method(cx, from, i, m)
        },
    }
}

/// The moves lead from place to place, up to one with nothing left to do.
pub open spec fn is_run(cx: Setting, places: Seq<Place>, steps: Seq<Move>) -> bool {
    &&& places.len() == steps.len() + 1
    &&& places.last().net.len() == 0
    &&& forall|i: int|
        0 <= i < steps.len() ==> is_move(cx, places[i], places[i + 1], #[trigger] steps[i])
}

/// The number of the moves that decompose.
pub open spec fn n_methods(steps: Seq<Move>) -> nat
    decreases steps.len(),
{
    if steps.len() == 0 {
        0
    } else {
        n_methods(steps.drop_first()) + if steps[0] is Method {
            1nat
        } else {
            0nat
        }
    }
}

/// All outcomes of the run are possible.
pub open spec fn is_possible_run(cx: Setting, places: Seq<Place>, steps: Seq<Move>) -> bool {
    forall|i: int|
        0 <= i < steps.len() ==> match #[trigger] steps[i] {
            Move::Outcome(j, k) => is_possible(
                cx.tasks,
                cx.h_type,
                places[i].net.tasks[j] as int,
                k,
            ),
            Move::Method(j, m) => true,
        }
}

/// What can be done is not hopeless.
pub proof fn law_run_is_not_hopeless(cx: Setting, places: Seq<Place>, steps: Seq<Move>)
    requires
        cx.tasks.wf(),
        is_run(cx, places, steps),
        is_possible_run(cx, places, steps),
        forall|i: int|
            0 <= i < places[0].net.len() ==> #[trigger] places[0].net.tasks[i]
                < cx.tasks.n_tasks(),
    ensures
        !is_hopeless(cx.tasks, cx.h_type, places[0]),
    decreases steps.len(),
{
    if steps.len() == 0 {
        assert forall|able: Set<int>| all_able(places[0].net.tasks, able) by {}
    } else {
        let rest = places.drop_first();
        let later = steps.drop_first();
        assert(is_move(cx, places[0], places[1], steps[0]));
        assert forall|i: int| 0 <= i < later.len() implies is_move(
            cx,
            rest[i],
            rest[i + 1],
            #[trigger] later[i],
        ) by {
            assert(later[i] == steps[i + 1]);
        }
        assert(rest.last() == places.last());
        lemma_move_keeps_tasks(cx, places[0], places[1], steps[0]);
        assert forall|i: int| 0 <= i < later.len() implies match #[trigger] later[i] {
            Move::Outcome(j, k) => is_possible(
                cx.tasks,
                cx.h_type,
                rest[i].net.tasks[j] as int,
                k,
            ),
            Move::Method(j, m) => true,
        } by {
            assert(later[i] == steps[i + 1]);
        }
        law_run_is_not_hopeless(cx, rest, later);
        if is_hopeless(cx.tasks, cx.h_type, places[0]) {
            match steps[0] {
                Move::Outcome(i, k) => {
                    law_hopeless_after_outcome(cx, places[0], i, k);
                },
                Move::Method(i, m) => {
                    law_hopeless_after_method(cx, places[0], i, m);
                },
            }
        }
    }
}

/// After a move the network is one of tasks of the domain.
pub proof fn lemma_move_keeps_tasks(cx: Setting, from: Place, to: Place, step: Move)
    requires
        cx.tasks.wf(),
        is_move(cx, from, to, step),
        forall|i: int| 0 <= i < from.net.len() ==> #[trigger] from.net.tasks[i] < cx.tasks.n_tasks(),
    ensures
        forall|i: int| 0 <= i < to.net.len() ==> #[trigger] to.net.tasks[i] < cx.tasks.n_tasks(),
{
    match step {
        Move::Outcome(i, k) => {},
        Move::Method(i, m) => {
            let t = from.net.tasks[i] as int;
            assert(cx.tasks.task_wf(cx.tasks.tasks@[t]));
            let method = crate::progress::method_at(cx.tasks, from.net, i, m);
            assert(method.decomposition.uses(cx.tasks.n_tasks()));
            let sub = method.decomposition.tasks@;
            assert forall|x: int| 0 <= x < to.net.len() implies #[trigger] to.net.tasks[x]
                < cx.tasks.n_tasks() by {
                if x >= from.net.len() - 1 {
                    assert(to.net.tasks[x] == sub[x - (from.net.len() - 1)]);
                }
            }
        },
    }
}

/// The facts of the relaxed reading that stand for what is held and able.
spec fn known_facts(tasks: DomainTasks, n_facts: nat, held: Set<u32>, able: Set<int>) -> Set<u32> {
    Set::new(
        |f: u32|
            if f < n_facts {
                held.contains(f)
            } else if f < n_facts + tasks.n_tasks() {
                able.contains(f - n_facts)
            } else {
                true
            },
    )
}

/// A limit is closed in the relaxed reading under all that the heuristic takes
/// for possible.
proof fn lemma_limit_is_closed(
    tasks: DomainTasks,
    n_facts: nat,
    d: ClassicalDomain,
    h_type: HeuristicType,
    facts: Set<u32>,
    held: Set<u32>,
    able: Set<int>,
)
    requires
        is_sound(tasks, n_facts),
        n_facts + tasks.n_tasks() < u32::MAX,
        crate::composition::is_composition(tasks, n_facts, d),
        forall|f: u32| #[trigger] facts.contains(f) ==> f < n_facts,
        is_limit(tasks, h_type, facts, held, able),
    ensures
        crate::prob_laws::is_live_closed_set(
            d,
            crate::composition::relaxed_start(n_facts, tasks.n_tasks(), facts),
            known_facts(tasks, n_facts, held, able),
        ),
        h_type != HeuristicType::HProb ==> crate::prob_laws::is_closed_set(
            d,
            crate::composition::relaxed_start(n_facts, tasks.n_tasks(), facts),
            known_facts(tasks, n_facts, held, able),
        ),
{
    let reach = known_facts(tasks, n_facts, held, able);
    assert forall|a: int, f: u32| #[trigger] d.adds(a, f) && d.pre(a).subset_of(reach) && (h_type
        != HeuristicType::HProb || crate::prob::first_prob(d, a) > 0) implies reach.contains(f) by {
        let c = d.actions@[a];
        assert(crate::composition::is_some_step(tasks, n_facts, c));
        let (t, k) = choose|t: int, k: int| crate::composition::is_step(tasks, n_facts, t, k, c);
        match *tasks.tasks@[t] {
            Task::Primitive(action) => {
                assert(is_outcome(tasks, t, k));
                assert(prob_of(tasks, t, k) == crate::prob::first_prob(d, a));
                assert(is_possible(tasks, h_type, t, k));
                assert(crate::problem::action_wf(action, n_facts));
                assert forall|g: u32| pre_of(tasks, t).contains(g) implies held.contains(g) by {
                    assert(needs(tasks, t, g));
                    assert(c.pre_cond@.contains(g));
                    assert(reach.contains(g));
                }
                assert(pre_of(tasks, t).subset_of(held));
                assert(c.add_effects@[0]@.contains(f));
                if adds_of(tasks, t, k).contains(f) {
                    assert(action.add_effects@[k]@.contains(f));
                    assert(held.contains(f));
                }
            },
            Task::Compound(compound) => {
                assert(is_method(tasks, t, k));
                let sub = subtasks(tasks, t, k);
                assert(tasks.task_wf(tasks.tasks@[t]));
                assert(compound.methods@[k].decomposition.uses(tasks.n_tasks()));
                assert forall|x: int| 0 <= x < sub.len() implies able.contains(
                    #[trigger] sub[x] as int,
                ) by {
                    let g = (n_facts + sub[x]) as u32;
                    assert(compound.methods@[k].decomposition.tasks@[x] < tasks.n_tasks());
                    assert(crate::composition::is_done_of(n_facts, sub, g));
                    assert(c.pre_cond@.contains(g));
                    assert(reach.contains(g));
                }
                assert(all_able(sub, able));
                assert(c.add_effects@[0]@.contains(f));
            },
        }
    }
}

/// What a closed set of the relaxed reading holds of the facts.
spec fn held_of(n_facts: nat, reach: Set<u32>) -> Set<u32> {
    Set::new(|f: u32| f < n_facts && reach.contains(f))
}

/// What a closed set of the relaxed reading holds of the tasks.
spec fn able_of(tasks: DomainTasks, n_facts: nat, reach: Set<u32>) -> Set<int> {
    Set::new(|t: int| 0 <= t < tasks.n_tasks() && reach.contains((n_facts + t) as u32))
}

/// A set that is closed in the relaxed reading under all that the heuristic
/// takes for possible is a limit.
proof fn lemma_closed_is_limit(
    tasks: DomainTasks,
    n_facts: nat,
    d: ClassicalDomain,
    h_type: HeuristicType,
    facts: Set<u32>,
    reach: Set<u32>,
)
    requires
        is_sound(tasks, n_facts),
        n_facts + tasks.n_tasks() < u32::MAX,
        crate::composition::is_composition(tasks, n_facts, d),
        forall|f: u32| #[trigger] facts.contains(f) ==> f < n_facts,
        crate::prob_laws::is_live_closed_set(
            d,
            crate::composition::relaxed_start(n_facts, tasks.n_tasks(), facts),
            reach,
        ),
        h_type != HeuristicType::HProb ==> crate::prob_laws::is_closed_set(
            d,
            crate::composition::relaxed_start(n_facts, tasks.n_tasks(), facts),
            reach,
        ),
    ensures
        is_limit(tasks, h_type, facts, held_of(n_facts, reach), able_of(tasks, n_facts, reach)),
{
    let held = held_of(n_facts, reach);
    let able = able_of(tasks, n_facts, reach);
    let start = crate::composition::relaxed_start(n_facts, tasks.n_tasks(), facts);
    let sure = crate::composition::always(n_facts, tasks.n_tasks()) as u32;
    assert(start.contains(sure));
    assert(reach.contains(sure));
    assert forall|f: u32| facts.contains(f) implies held.contains(f) by {
        assert(start.contains(f));
    }
    assert forall|t: int, k: int| #[trigger]
        is_outcome(tasks, t, k) && is_possible(tasks, h_type, t, k) && pre_of(tasks, t).subset_of(
            held,
        ) implies able.contains(t) && adds_of(tasks, t, k).subset_of(held) by {
        let action = (*tasks.tasks@[t])->Primitive_0;
        assert(crate::problem::action_wf(action, n_facts));
        assert(crate::composition::has_step(tasks, n_facts, t, k, d));
        let a = choose|a: int|
            0 <= a < d.n_actions() && crate::composition::is_step(
                tasks,
                n_facts,
                t,
                k,
                #[trigger] d.actions@[a],
            );
        let c = d.actions@[a];
        assert forall|g: u32| d.pre(a).contains(g) implies reach.contains(g) by {
            assert(c.pre_cond@.contains(g));
            if pre_of(tasks, t).contains(g) {
                assert(held.contains(g));
            }
        }
        assert(d.pre(a).subset_of(reach));
        assert(prob_of(tasks, t, k) == crate::prob::first_prob(d, a));
        let finished = (n_facts + t) as u32;
        assert(c.add_effects@[0]@.contains(finished));
        assert(d.adds(a, finished));
        assert forall|f: u32| adds_of(tasks, t, k).contains(f) implies held.contains(f) by {
            assert(action.add_effects@[k]@.contains(f));
            assert(c.add_effects@[0]@.contains(f));
            assert(d.adds(a, f));
        }
    }
    assert forall|t: int, m: int| #[trigger] is_method(tasks, t, m) && all_able(
        subtasks(tasks, t, m),
        able,
    ) implies able.contains(t) by {
        assert(crate::composition::has_step(tasks, n_facts, t, m, d));
        let a = choose|a: int|
            0 <= a < d.n_actions() && crate::composition::is_step(
                tasks,
                n_facts,
                t,
                m,
                #[trigger] d.actions@[a],
            );
        let c = d.actions@[a];
        let sub = subtasks(tasks, t, m);
        assert forall|g: u32| d.pre(a).contains(g) implies reach.contains(g) by {
            assert(c.pre_cond@.contains(g));
            if crate::composition::is_done_of(n_facts, sub, g) {
                let x = choose|x: int|
                    0 <= x < sub.len() && g == crate::composition::done(
                        n_facts,
                        #[trigger] sub[x] as int,
                    );
                assert(able.contains(sub[x] as int));
            }
        }
        assert(d.pre(a).subset_of(reach));
        let finished = (n_facts + t) as u32;
        assert(c.add_effects@[0]@.contains(finished));
        assert(d.adds(a, finished));
    }
}

/// A goal of a hopeless place is out of what the relaxed reading reaches by all
/// that the heuristic takes for possible.
proof fn lemma_hopeless_is_out_of_reach(
    tasks: DomainTasks,
    n_facts: nat,
    d: ClassicalDomain,
    h_type: HeuristicType,
    place: Place,
) -> (r: (Set<u32>, u32))
    requires
        is_sound(tasks, n_facts),
        n_facts + tasks.n_tasks() < u32::MAX,
        crate::composition::is_composition(tasks, n_facts, d),
        is_place(tasks, n_facts, place),
        is_hopeless(tasks, h_type, place),
    ensures
        crate::prob_laws::is_live_closed_set(
            d,
            crate::composition::relaxed_start(n_facts, tasks.n_tasks(), place.facts),
            r.0,
        ),
        h_type != HeuristicType::HProb ==> crate::prob_laws::is_closed_set(
            d,
            crate::composition::relaxed_start(n_facts, tasks.n_tasks(), place.facts),
            r.0,
        ),
        crate::composition::relaxed_goal(n_facts, place.net).contains(r.1),
        !r.0.contains(r.1),
{
    let goal = crate::composition::relaxed_goal(n_facts, place.net);
    let (held, able) = choose|held: Set<u32>, able: Set<int>| #[trigger]
        is_limit(tasks, h_type, place.facts, held, able) && !all_able(place.net.tasks, able);
    lemma_limit_is_closed(tasks, n_facts, d, h_type, place.facts, held, able);
    let reach = known_facts(tasks, n_facts, held, able);
    let x = choose|x: int|
        0 <= x < place.net.tasks.len() && !able.contains(#[trigger] place.net.tasks[x] as int);
    let f = (n_facts + place.net.tasks[x]) as u32;
    assert(place.net.tasks[x] < tasks.n_tasks());
    assert(crate::composition::is_done_of(n_facts, place.net.tasks, f));
    assert(goal.contains(f) && !reach.contains(f));
    (reach, f)
}

/// A place is hopeless if a goal is out of what the relaxed reading reaches by
/// all that the heuristic takes for possible.
proof fn lemma_out_of_reach_is_hopeless(
    tasks: DomainTasks,
    n_facts: nat,
    d: ClassicalDomain,
    h_type: HeuristicType,
    place: Place,
    reach: Set<u32>,
)
    requires
        is_sound(tasks, n_facts),
        n_facts + tasks.n_tasks() < u32::MAX,
        crate::composition::is_composition(tasks, n_facts, d),
        is_place(tasks, n_facts, place),
        crate::prob_laws::is_live_closed_set(
            d,
            crate::composition::relaxed_start(n_facts, tasks.n_tasks(), place.facts),
            reach,
        ),
        h_type != HeuristicType::HProb ==> crate::prob_laws::is_closed_set(
            d,
            crate::composition::relaxed_start(n_facts, tasks.n_tasks(), place.facts),
            reach,
        ),
        !crate::composition::relaxed_goal(n_facts, place.net).subset_of(reach),
    ensures
        is_hopeless(tasks, h_type, place),
{
    let goal = crate::composition::relaxed_goal(n_facts, place.net);
    lemma_closed_is_limit(tasks, n_facts, d, h_type, place.facts, reach);
    let able = able_of(tasks, n_facts, reach);
    let f = choose|f: u32| goal.contains(f) && !reach.contains(f);
    assert(goal.contains(f) && !reach.contains(f));
    assert(crate::composition::is_done_of(n_facts, place.net.tasks, f));
    let x = choose|x: int|
        0 <= x < place.net.tasks.len() && f == crate::composition::done(
            n_facts,
            #[trigger] place.net.tasks[x] as int,
        );
    assert(!able.contains(place.net.tasks[x] as int));
    assert(!all_able(place.net.tasks, able));
}

/// A place is hopeless exactly where its goal is cut off in the relaxed reading,
/// unless the heuristic looks at probabilities.
proof fn lemma_hopeless_is_cut_off(
    tasks: DomainTasks,
    n_facts: nat,
    d: ClassicalDomain,
    h_type: HeuristicType,
    place: Place,
)
    requires
        h_type != HeuristicType::HProb,
        is_sound(tasks, n_facts),
        n_facts + tasks.n_tasks() < u32::MAX,
        crate::composition::is_composition(tasks, n_facts, d),
        is_place(tasks, n_facts, place),
    ensures
        is_hopeless(tasks, h_type, place) <==> crate::costs_laws::is_cut_off(
            d,
            crate::composition::relaxed_start(n_facts, tasks.n_tasks(), place.facts),
            crate::composition::relaxed_goal(n_facts, place.net),
        ),
{
    let start = crate::composition::relaxed_start(n_facts, tasks.n_tasks(), place.facts);
    let goal = crate::composition::relaxed_goal(n_facts, place.net);
    if is_hopeless(tasks, h_type, place) {
        let (reach, f) = lemma_hopeless_is_out_of_reach(tasks, n_facts, d, h_type, place);
    }
    if crate::costs_laws::is_cut_off(d, start, goal) {
        let reach = choose|reach: Set<u32>| #[trigger]
            crate::prob_laws::is_closed_set(d, start, reach) && !goal.subset_of(reach);
        lemma_out_of_reach_is_hopeless(tasks, n_facts, d, h_type, place, reach);
    }
}

/// Known facts lie in every closed set.
proof fn lemma_known_in_closed(d: ClassicalDomain, s: Set<u32>, reach: Set<u32>, k: nat)
    requires
        crate::prob_laws::is_closed_set(d, s, reach),
    ensures
        crate::graphplan::known(d, s, k).subset_of(reach),
    decreases k,
{
    if k > 0 {
        let below = crate::graphplan::known(d, s, (k - 1) as nat);
        lemma_known_in_closed(d, s, reach, (k - 1) as nat);
        assert forall|f: u32| crate::graphplan::known(d, s, k).contains(f) implies reach.contains(
            f,
        ) by {
            if !below.contains(f) {
                let a = choose|a: int| #[trigger]
                    d.adds(a, f) && crate::graphplan::triggered(d, below, a);
                assert(d.pre(a).subset_of(reach));
            }
        }
    }
}

/// The facts that some layer holds.
spec fn ever_known(d: ClassicalDomain, s: Set<u32>) -> Set<u32> {
    Set::new(|f: u32| exists|k: nat| #[trigger] crate::graphplan::known(d, s, k).contains(f))
}

/// One layer holds all of the facts below `n` that some layer holds.
proof fn lemma_common_layer(d: ClassicalDomain, s: Set<u32>, n: nat) -> (k: nat)
    requires
        n <= u32::MAX + 1,
    ensures
        forall|f: u32|
            f < n && #[trigger] ever_known(d, s).contains(f) ==> crate::graphplan::known(
                d,
                s,
                k,
            ).contains(f),
    decreases n,
{
    if n == 0 {
        0
    } else {
        let before = lemma_common_layer(d, s, (n - 1) as nat);
        let g = (n - 1) as u32;
        if ever_known(d, s).contains(g) {
            let own = choose|k: nat| #[trigger] crate::graphplan::known(d, s, k).contains(g);
            let k = if own <= before {
                before
            } else {
                own
            };
            crate::graphplan::lemma_known_grows(d, s, before, k);
            crate::graphplan::lemma_known_grows(d, s, own, k);
            k
        } else {
            before
        }
    }
}

/// Some layer is the first to hold the goal if one holds it.
proof fn lemma_first_with_goal(d: ClassicalDomain, s: Set<u32>, goal: Set<u32>, k: nat)
    requires
        goal.subset_of(crate::graphplan::known(d, s, k)),
    ensures
        exists|j: nat| #[trigger] crate::graphplan::reached_at(d, s, goal, j),
    decreases k,
{
    if k > 0 && goal.subset_of(crate::graphplan::known(d, s, (k - 1) as nat)) {
        lemma_first_with_goal(d, s, goal, (k - 1) as nat);
    } else {
        assert(crate::graphplan::reached_at(d, s, goal, k));
    }
}

/// The layers hold a goal exactly where it is not cut off.
proof fn lemma_graph_is_cut_off(d: ClassicalDomain, s: Set<u32>, goal: Set<u32>)
    ensures
        (forall|k: nat| !#[trigger] crate::graphplan::reached_at(d, s, goal, k))
            <==> crate::costs_laws::is_cut_off(d, s, goal),
{
    if crate::costs_laws::is_cut_off(d, s, goal) {
        let reach = choose|reach: Set<u32>| #[trigger]
            crate::prob_laws::is_closed_set(d, s, reach) && !goal.subset_of(reach);
        assert forall|k: nat| !#[trigger] crate::graphplan::reached_at(d, s, goal, k) by {
            lemma_known_in_closed(d, s, reach, k);
        }
    }
    if forall|k: nat| !#[trigger] crate::graphplan::reached_at(d, s, goal, k) {
        let reach = ever_known(d, s);
        let k = lemma_common_layer(d, s, (u32::MAX + 1) as nat);
        let last = crate::graphplan::known(d, s, k);
        assert forall|f: u32| f < d.n_facts() && #[trigger] s.contains(f) implies reach.contains(
            f,
        ) by {
            assert(crate::graphplan::known(d, s, 0).contains(f));
        }
        assert forall|a: int, f: u32| #[trigger] d.adds(a, f) && d.pre(a).subset_of(
            reach,
        ) implies reach.contains(f) by {
            assert(d.pre(a).subset_of(last));
            assert(crate::graphplan::triggered(d, last, a));
            assert(crate::graphplan::known(d, s, k + 1).contains(f));
        }
        if goal.subset_of(reach) {
            assert(goal.subset_of(last));
            lemma_first_with_goal(d, s, goal, k);
        }
        assert(crate::prob_laws::is_closed_set(d, s, reach));
    }
}

/// A heuristic gives nothing exactly where the place is hopeless by what it takes
/// for possible.
pub proof fn law_nothing_means_hopeless(
    tasks: DomainTasks,
    n_facts: nat,
    place: Place,
    h_type: HeuristicType,
    v: Option<u32>,
)
    requires
        is_sound(tasks, n_facts),
        is_place(tasks, n_facts, place),
        crate::composition::is_h_val(tasks, n_facts, place.net, place.facts, h_type, v),
    ensures
        v is None <==> is_hopeless(tasks, h_type, place),
{
    let r = choose|r: crate::composition::RelaxedComposition| #[trigger]
        r.is_of(tasks, n_facts) && crate::composition::is_heuristic_value(
            r.domain,
            crate::composition::relaxed_start(n_facts, tasks.n_tasks(), place.facts),
            crate::composition::relaxed_goal(n_facts, place.net),
            h_type,
            v,
        );
    let d = r.domain;
    let start = crate::composition::relaxed_start(n_facts, tasks.n_tasks(), place.facts);
    let goal = crate::composition::relaxed_goal(n_facts, place.net);
    if h_type != HeuristicType::HProb {
        lemma_hopeless_is_cut_off(tasks, n_facts, d, h_type, place);
    }
    match h_type {
        HeuristicType::HAdd => {
            crate::costs_laws::law_dead_end_is_cut_off(d, start, goal, Combine::Sum, v);
        },
        HeuristicType::HMax => {
            crate::costs_laws::law_dead_end_is_cut_off(d, start, goal, Combine::Max, v);
        },
        HeuristicType::HFF => {
            lemma_graph_is_cut_off(d, start, goal);
        },
        HeuristicType::HProb => {
            let p = choose|p: u64|
                crate::prob::is_prob_max(d, start, goal, p) && v == (if p == 0 {
                    None::<u32>
                } else {
                    Some(0u32)
                });
            crate::prob_laws::law_zero_is_out_of_reach(d, start, goal, p);
            if is_hopeless(tasks, h_type, place) {
                let (reach, g) = lemma_hopeless_is_out_of_reach(tasks, n_facts, d, h_type, place);
                assert(crate::prob_laws::is_live_closed_set(d, start, reach));
            }
            if p == 0 {
                let reach = choose|reach: Set<u32>| #[trigger]
                    crate::prob_laws::is_live_closed_set(d, start, reach) && !goal.subset_of(reach);
                lemma_out_of_reach_is_hopeless(tasks, n_facts, d, h_type, place, reach);
            }
        },
    }
}

/// Whether a heuristic gives something depends on the place alone.
pub proof fn law_nothing_is_determined(
    tasks: DomainTasks,
    n_facts: nat,
    place: Place,
    h_type: HeuristicType,
    v: Option<u32>,
    w: Option<u32>,
)
    requires
        is_sound(tasks, n_facts),
        is_place(tasks, n_facts, place),
        crate::composition::is_h_val(tasks, n_facts, place.net, place.facts, h_type, v),
        crate::composition::is_h_val(tasks, n_facts, place.net, place.facts, h_type, w),
    ensures
        v is None <==> w is None,
{
    law_nothing_means_hopeless(tasks, n_facts, place, h_type, v);
    law_nothing_means_hopeless(tasks, n_facts, place, h_type, w);
}

/// No heuristic gives nothing where some run does all that is to be done by what
/// the heuristic takes for possible.
pub proof fn law_runs_are_not_cut(
    cx: Setting,
    places: Seq<Place>,
    steps: Seq<Move>,
    h_type: HeuristicType,
    v: Option<u32>,
)
    requires
        is_sound(cx.tasks, cx.n_facts),
        is_run(cx, places, steps),
        is_place(cx.tasks, cx.n_facts, places[0]),
        is_possible_run(Setting { h_type, ..cx }, places, steps),
        crate::composition::is_h_val(
            cx.tasks,
            cx.n_facts,
            places[0].net,
            places[0].facts,
            h_type,
            v,
        ),
    ensures
        v is Some,
{
    let own = Setting { h_type, ..cx };
    assert forall|i: int| 0 <= i < steps.len() implies is_move(
        own,
        places[i],
        places[i + 1],
        #[trigger] steps[i],
    ) by {
        assert(is_move(cx, places[i], places[i + 1], steps[i]));
    }
    law_nothing_means_hopeless(cx.tasks, cx.n_facts, places[0], h_type, v);
    law_run_is_not_hopeless(own, places, steps);
}

/// A consistent table says of the tasks at the start of a run that they cost at
/// most as much as the run has decompositions.
proof fn lemma_run_cost(
    cx: Setting,
    d: ClassicalDomain,
    q: Seq<u32>,
    places: Seq<Place>,
    steps: Seq<Move>,
)
    requires
        is_sound(cx.tasks, cx.n_facts),
        cx.n_facts + cx.tasks.n_tasks() < u32::MAX,
        crate::composition::is_composition(cx.tasks, cx.n_facts, d),
        is_run(cx, places, steps),
        is_place(cx.tasks, cx.n_facts, places[0]),
        crate::costs::is_consistent(
            d,
            crate::composition::relaxed_start(cx.n_facts, cx.tasks.n_tasks(), places[0].facts),
            Combine::Max,
            q,
        ),
        n_methods(steps) < u32::MAX,
    ensures
        forall|x: int|
            0 <= x < places[0].net.len() ==> q[cx.n_facts + #[trigger] places[0].net.tasks[x]]
                <= n_methods(steps),
    decreases steps.len(),
{
    if steps.len() > 0 {
        let rest = places.drop_first();
        let later = steps.drop_first();
        let from = places[0];
        let to = places[1];
        assert(is_move(cx, from, to, steps[0]));
        assert forall|i: int| 0 <= i < later.len() implies is_move(
            cx,
            rest[i],
            rest[i + 1],
            #[trigger] later[i],
        ) by {
            assert(later[i] == steps[i + 1]);
        }
        assert(rest.last() == places.last());
        lemma_move_keeps_tasks(cx, from, to, steps[0]);
        match steps[0] {
            Move::Outcome(i, k) => {
                lemma_outcome_costs_nothing(cx, d, q, from, i, k);
                lemma_run_cost(cx, d, q, rest, later);
                assert forall|x: int| 0 <= x < from.net.len() implies q[cx.n_facts
                    + #[trigger] from.net.tasks[x]] <= n_methods(steps) by {
                    if x < i {
                        assert(to.net.tasks[x] == from.net.tasks[x]);
                    } else if x > i {
                        assert(to.net.tasks[x - 1] == from.net.tasks[x]);
                    }
                }
            },
            Move::Method(i, m) => {
                lemma_run_cost(cx, d, q, rest, later);
                lemma_method_costs_one(cx, d, q, from, i, m, n_methods(later));
                assert forall|x: int| 0 <= x < from.net.len() implies q[cx.n_facts
                    + #[trigger] from.net.tasks[x]] <= n_methods(steps) by {
                    if x < i {
                        assert(to.net.tasks[x] == from.net.tasks[x]);
                    } else if x > i {
                        assert(to.net.tasks[x - 1] == from.net.tasks[x]);
                    }
                }
            },
        }
    }
}

/// What an action adds and that it is done costs nothing where it can be
/// executed, so the table is consistent after it too.
proof fn lemma_outcome_costs_nothing(
    cx: Setting,
    d: ClassicalDomain,
    q: Seq<u32>,
    from: Place,
    i: int,
    k: int,
)
    requires
        is_sound(cx.tasks, cx.n_facts),
        cx.n_facts + cx.tasks.n_tasks() < u32::MAX,
        crate::composition::is_composition(cx.tasks, cx.n_facts, d),
        is_place(cx.tasks, cx.n_facts, from),
        crate::progress::is_executable(cx.tasks, from.net, from.facts, i),
        0 <= k < crate::progress::action_at(cx.tasks, from.net, i).add_effects@.len(),
        crate::costs::is_consistent(
            d,
            crate::composition::relaxed_start(cx.n_facts, cx.tasks.n_tasks(), from.facts),
            Combine::Max,
            q,
        ),
    ensures
        q[cx.n_facts + from.net.tasks[i]] == 0,
        is_place(cx.tasks, cx.n_facts, crate::reach::after_outcome(cx, from, i, k)),
        crate::costs::is_consistent(
            d,
            crate::composition::relaxed_start(
                cx.n_facts,
                cx.tasks.n_tasks(),
                crate::reach::after_outcome(cx, from, i, k).facts,
            ),
            Combine::Max,
            q,
        ),
{
    let tasks = cx.tasks;
    let n_facts = cx.n_facts;
    let t = from.net.tasks[i] as int;
    let to = crate::reach::after_outcome(cx, from, i, k);
    let start = crate::composition::relaxed_start(n_facts, tasks.n_tasks(), from.facts);
    let next = crate::composition::relaxed_start(n_facts, tasks.n_tasks(), to.facts);
    let action = crate::progress::action_at(tasks, from.net, i);
    assert(crate::problem::action_wf(action, n_facts));
    assert(crate::composition::has_step(tasks, n_facts, t, k, d));
    let a = choose|a: int|
        0 <= a < d.n_actions() && crate::composition::is_step(
            tasks,
            n_facts,
            t,
            k,
            #[trigger] d.actions@[a],
        );
    let c = d.actions@[a];
    assert forall|g: u32| #[trigger] d.pre(a).contains(g) implies g < q.len() && q[g as int]
        == 0 by {
        assert(c.pre_cond@.contains(g));
        if action.pre_cond@.contains(g) {
            assert(from.facts.contains(g));
        }
        assert(start.contains(g));
    }
    assert(crate::costs::is_finite(q, d.pre(a)));
    crate::costs_laws::lemma_nothing_to_pay(q, d.pre(a), Combine::Max, q.len());
    let finished = (n_facts + t) as u32;
    assert(c.add_effects@[0]@.contains(finished));
    assert(d.adds(a, finished));
    assert forall|f: u32| #[trigger] to.facts.contains(f) implies f < n_facts by {
        if !from.facts.contains(f) {
            assert(action.add_effects@[k]@.contains(f));
        }
    }
    assert forall|x: int| 0 <= x < to.net.len() implies #[trigger] to.net.tasks[x]
        < tasks.n_tasks() by {
        assert(to.net.tasks[x] == from.net.tasks[if x < i {
            x
        } else {
            x + 1
        }]);
    }
    assert forall|f: u32| f < d.n_facts() && #[trigger] next.contains(f) implies q[f as int]
        == 0 by {
        if start.contains(f) {
        } else {
            assert(action.add_effects@[k]@.contains(f));
            assert(c.add_effects@[0]@.contains(f));
            assert(d.adds(a, f));
        }
    }
}

/// That a task is done costs at most one more than what its method needs.
proof fn lemma_method_costs_one(
    cx: Setting,
    d: ClassicalDomain,
    q: Seq<u32>,
    from: Place,
    i: int,
    m: int,
    b: nat,
)
    requires
        is_sound(cx.tasks, cx.n_facts),
        cx.n_facts + cx.tasks.n_tasks() < u32::MAX,
        crate::composition::is_composition(cx.tasks, cx.n_facts, d),
        is_place(cx.tasks, cx.n_facts, from),
        0 <= m < crate::progress::method_count(cx.tasks, from.net, i),
        crate::costs::is_consistent(
            d,
            crate::composition::relaxed_start(cx.n_facts, cx.tasks.n_tasks(), from.facts),
            Combine::Max,
            q,
        ),
        b + 1 < u32::MAX,
        ({
            let to = crate::reach::after_method(cx, from, i, m);
            forall|x: int|
                0 <= x < to.net.len() ==> q[cx.n_facts + #[trigger] to.net.tasks[x]] <= b
        }),
    ensures
        q[cx.n_facts + from.net.tasks[i]] <= b + 1,
{
    let tasks = cx.tasks;
    let n_facts = cx.n_facts;
    let t = from.net.tasks[i] as int;
    let to = crate::reach::after_method(cx, from, i, m);
    let start = crate::composition::relaxed_start(n_facts, tasks.n_tasks(), from.facts);
    assert(crate::composition::has_step(tasks, n_facts, t, m, d));
    let a = choose|a: int|
        0 <= a < d.n_actions() && crate::composition::is_step(
            tasks,
            n_facts,
            t,
            m,
            #[trigger] d.actions@[a],
        );
    let c = d.actions@[a];
    let sub = subtasks(tasks, t, m);
    assert(tasks.task_wf(tasks.tasks@[t]));
    assert(crate::progress::method_at(tasks, from.net, i, m).decomposition.uses(tasks.n_tasks()));
    assert forall|g: u32| #[trigger] d.pre(a).contains(g) implies g < q.len() && q[g as int]
        <= b by {
        assert(c.pre_cond@.contains(g));
        if crate::composition::is_done_of(n_facts, sub, g) {
            let x = choose|x: int|
                0 <= x < sub.len() && g == crate::composition::done(
                    n_facts,
                    #[trigger] sub[x] as int,
                );
            assert(to.net.tasks[from.net.len() - 1 + x] == sub[x]);
            assert(crate::progress::method_at(tasks, from.net, i, m).decomposition.tasks@[x]
                < tasks.n_tasks());
        } else {
            assert(start.contains(g));
        }
    }
    assert(crate::costs::is_finite(q, d.pre(a)));
    crate::costs_laws::lemma_cost_at_most(q, d.pre(a), q.len(), b);
    let finished = (n_facts + t) as u32;
    assert(c.add_effects@[0]@.contains(finished));
    assert(d.adds(a, finished));
}

/// The heuristic of the dearest chain never exceeds the number of
/// decompositions of any run that does all that is to be done.
pub proof fn law_max_is_admissible(
    cx: Setting,
    places: Seq<Place>,
    steps: Seq<Move>,
    v: Option<u32>,
)
    requires
        is_sound(cx.tasks, cx.n_facts),
        is_run(cx, places, steps),
        is_place(cx.tasks, cx.n_facts, places[0]),
        n_methods(steps) < u32::MAX,
        crate::composition::is_h_val(
            cx.tasks,
            cx.n_facts,
            places[0].net,
            places[0].facts,
            HeuristicType::HMax,
            v,
        ),
    ensures
        v matches Some(x) && x <= n_methods(steps),
{
    law_runs_are_not_cut(cx, places, steps, HeuristicType::HMax, v);
    let place = places[0];
    let start = crate::composition::relaxed_start(cx.n_facts, cx.tasks.n_tasks(), place.facts);
    let goal = crate::composition::relaxed_goal(cx.n_facts, place.net);
    let r = choose|r: crate::composition::RelaxedComposition| #[trigger]
        r.is_of(cx.tasks, cx.n_facts) && crate::composition::is_heuristic_value(
            r.domain,
            start,
            goal,
            HeuristicType::HMax,
            v,
        );
    let d = r.domain;
    let q = choose|q: Seq<u32>| #[trigger]
        crate::costs::is_cost_table(d, start, Combine::Max, q) && v == (
        if crate::costs::is_finite(q, goal) {
            Some(crate::costs::cost_of(q, goal, Combine::Max, 0))
        } else {
            None
        });
    lemma_run_cost(cx, d, q, places, steps);
    assert forall|f: u32| #[trigger] goal.contains(f) && f < q.len() implies q[f as int]
        <= n_methods(steps) by {
        assert(crate::composition::is_done_of(cx.n_facts, place.net.tasks, f));
        let x = choose|x: int|
            0 <= x < place.net.tasks.len() && f == crate::composition::done(
                cx.n_facts,
                #[trigger] place.net.tasks[x] as int,
            );
        assert(q[cx.n_facts + place.net.tasks[x]] <= n_methods(steps));
    }
    crate::costs_laws::lemma_cost_at_most(q, goal, q.len(), n_methods(steps));
}

} // verus!

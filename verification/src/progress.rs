//! One step of carrying out a task network: an action or a decomposition.

use std::collections::HashSet;
use std::rc::Rc;
use vstd::prelude::*;

use crate::domain::PrimitiveAction;
use crate::sets::{elements, is_subset};
use crate::task_network::{CompoundTask, DomainTasks, Method, Network, Task, HTN};

verus! {

broadcast use vstd::std_specs::hash::group_hash_axioms;

/// What a step does.
pub enum ConnectionLabel {
    /// It executes the named action.
    Execution(String),
    /// It carries out the named task by the named method.
    Decomposition(String, String),
}

impl ConnectionLabel {
    pub fn is_decomposition(&self) -> (r: bool)
        ensures
            r == (self is Decomposition),
    {
        match self {
            ConnectionLabel::Execution(_) => false,
            ConnectionLabel::Decomposition(_, _) => true,
        }
    }
}

/// One step: the network that is left, and the state after each outcome.
pub struct Expansion {
    pub tn: Rc<HTN>,
    pub states: Vec<Rc<HashSet<u32>>>,
    /// The probabilities of the outcomes, as far as they are given.
    pub outcome_probabilities: Vec<u64>,
    pub connection_label: ConnectionLabel,
}

/// The facts that hold after the outcome `k` of the action.
pub open spec fn outcome(facts: Set<u32>, action: PrimitiveAction, k: int) -> Set<u32> {
    facts.difference(action.del_effects@[k]@).union(action.add_effects@[k]@)
}

/// The task of the node at `i`.
pub open spec fn task_at(tasks: DomainTasks, net: Network, i: int) -> Task {
    *tasks.tasks@[net.tasks[i] as int]
}

/// The node at `i` is an action that can be executed.
pub open spec fn is_executable(tasks: DomainTasks, net: Network, facts: Set<u32>, i: int) -> bool {
    &&& net.is_free(i)
    &&& match task_at(tasks, net, i) {
        Task::Primitive(action) => action.pre_cond@.subset_of(facts),
        Task::Compound(compound) => false,
    }
}

/// The nodes below `n` that can be executed, ascending.
pub open spec fn executions(tasks: DomainTasks, net: Network, facts: Set<u32>, n: nat) -> Seq<int>
    decreases n,
{
    if n == 0 {
        Seq::empty()
    } else {
        let rest = executions(tasks, net, facts, (n - 1) as nat);
        if is_executable(tasks, net, facts, n - 1) {
            rest.push(n - 1)
        } else {
            rest
        }
    }
}

/// The number of methods of the node at `i`: none, unless nothing comes before
/// it and its task is compound.
pub open spec fn method_count(tasks: DomainTasks, net: Network, i: int) -> nat {
    if !net.is_free(i) {
        0
    } else {
        match task_at(tasks, net, i) {
            Task::Primitive(action) => 0,
            Task::Compound(compound) => compound.methods@.len(),
        }
    }
}

/// The nodes below `n` that can be decomposed, ascending, with each of their
/// methods in turn.
pub open spec fn decompositions(tasks: DomainTasks, net: Network, n: nat) -> Seq<(int, int)>
    decreases n,
{
    if n == 0 {
        Seq::empty()
    } else {
        decompositions(tasks, net, (n - 1) as nat) + Seq::new(
            method_count(tasks, net, n - 1),
            |m: int| (n - 1, m),
        )
    }
}

/// The compound task of the node at `i`.
pub open spec fn compound_at(tasks: DomainTasks, net: Network, i: int) -> CompoundTask {
    task_at(tasks, net, i)->Compound_0
}

/// The action of the node at `i`.
pub open spec fn action_at(tasks: DomainTasks, net: Network, i: int) -> PrimitiveAction {
    task_at(tasks, net, i)->Primitive_0
}

/// The method `m` of the node at `i`.
pub open spec fn method_at(tasks: DomainTasks, net: Network, i: int, m: int) -> Method {
    *compound_at(tasks, net, i).methods@[m]
}

impl Expansion {
    /// The step executes the node at `i`.
    pub open spec fn executes(
        &self,
        tasks: DomainTasks,
        net: Network,
        facts: Set<u32>,
        i: int,
    ) -> bool {
        let action = action_at(tasks, net, i);
        &&& self.tn@ == net.without(i)
        &&& self.states@.len() == action.add_effects@.len()
        &&& forall|k: int|
            0 <= k < self.states@.len() ==> (#[trigger] self.states@[k])@ == outcome(
                facts,
                action,
                k,
            )
        &&& self.outcome_probabilities@ == action.probabilities@
        &&& self.connection_label matches ConnectionLabel::Execution(name)
        &&& name@ == action.name@
    }

    /// The step decomposes the node `d.0` by the method `d.1`.
    pub open spec fn decomposes(
        &self,
        tasks: DomainTasks,
        net: Network,
        facts: Set<u32>,
        d: (int, int),
    ) -> bool {
        &&& self.tn@ == net.decomposed(d.0, method_at(tasks, net, d.0, d.1).decomposition@)
        &&& self.states@.len() == 1
        &&& self.states@[0]@ == facts
        &&& self.outcome_probabilities@ == seq![crate::probability::ONE]
        &&& self.connection_label matches ConnectionLabel::Decomposition(task, method)
        &&& task@ == compound_at(tasks, net, d.0).name@
        &&& method@ == method_at(tasks, net, d.0, d.1).name@
    }

    /// The nodes but the one at `i` of the network are left, with their identifiers.
    pub open spec fn keeps_ids(&self, tn: HTN, i: int) -> bool {
        self.tn.nodes@ == tn.nodes@.remove(i)
    }

    /// The nodes of the method `d.1` have new identifiers, and the nodes but the
    /// one at `d.0` keep theirs.
    pub open spec fn replaces_ids(&self, tn: HTN, d: (int, int)) -> bool {
        self.tn.nodes@ == crate::task_network::replaced_ids(
            tn.nodes@,
            d.0,
            method_at(*tn.domain, tn@, d.0, d.1).decomposition.nodes@.len(),
        )
    }
}

/// The facts after an outcome that deletes `del` and adds `add`.
pub fn result_state(state: &HashSet<u32>, del: &HashSet<u32>, add: &HashSet<u32>) -> (r: HashSet<
    u32,
>)
    ensures
        r@ == state@.difference(del@).union(add@),
{
    let mut r: HashSet<u32> = HashSet::new();
    let list: Vec<u32> = elements(state);
    let mut i: usize = 0;
    while i < list.len()
        invariant
            i <= list@.len(),
            forall|f: u32| #[trigger]
                r@.contains(f) <==> list@.take(i as int).contains(f) && !del@.contains(f),
        decreases list@.len() - i,
    {
        let f: u32 = list[i];
        let ghost done = list@.take(i as int);
        assert(list@.take(i + 1) =~= done.push(f));
        proof {
            assert forall|x: u32| #[trigger] done.push(f).contains(x) <==> x == f
                || done.contains(x) by {
                if done.contains(x) {
                    let k = choose|k: int| 0 <= k < done.len() && done[k] == x;
                    assert(done.push(f)[k] == x);
                }
                assert(done.push(f)[done.len() as int] == f);
            }
        }
        if !del.contains(&f) {
            r.insert(f);
        }
        i += 1;
    }
    assert(list@.take(i as int) =~= list@);
    let more: Vec<u32> = elements(add);
    let ghost kept = r@;
    let mut i: usize = 0;
    while i < more.len()
        invariant
            i <= more@.len(),
            forall|f: u32| #[trigger]
                r@.contains(f) <==> kept.contains(f) || more@.take(i as int).contains(f),
        decreases more@.len() - i,
    {
        let f: u32 = more[i];
        let ghost done = more@.take(i as int);
        assert(more@.take(i + 1) =~= done.push(f));
        proof {
            assert forall|x: u32| #[trigger] done.push(f).contains(x) <==> x == f
                || done.contains(x) by {
                if done.contains(x) {
                    let k = choose|k: int| 0 <= k < done.len() && done[k] == x;
                    assert(done.push(f)[k] == x);
                }
                assert(done.push(f)[done.len() as int] == f);
            }
        }
        r.insert(f);
        i += 1;
    }
    assert(more@.take(i as int) =~= more@);
    proof {
        assert forall|f: u32| r@.contains(f) <==> state@.difference(del@).union(add@).contains(
            f,
        ) by {
            assert(state@.contains(f) <==> list@.contains(f));
            assert(add@.contains(f) <==> more@.contains(f));
        }
        assert(r@ =~= state@.difference(del@).union(add@));
    }
    r
}

/// Every action has a delete set for each add set.
pub open spec fn outcomes_wf(tasks: DomainTasks) -> bool {
    forall|t: int|
        0 <= t < tasks.n_tasks() && (*#[trigger] tasks.tasks@[t] is Primitive) ==> (
        *tasks.tasks@[t])->Primitive_0.del_effects@.len() == (
        *tasks.tasks@[t])->Primitive_0.add_effects@.len()
}

/// The network is one of tasks of its domain.
pub open spec fn network_wf(tn: HTN) -> bool {
    tn.wf() && tn.uses(tn.domain.n_tasks()) && tn.domain.wf() && outcomes_wf(*tn.domain)
}

/// The step that executes the action of the node at `i`.
fn execute(tn: &Rc<HTN>, state: &Rc<HashSet<u32>>, action: &PrimitiveAction, i: usize) -> (e:
    Expansion)
    requires
        network_wf(**tn),
        tn@.is_free(i as int),
        task_at(*tn.domain, tn@, i as int) == Task::Primitive(*action),
    ensures
        e.executes(*tn.domain, tn@, state@, i as int),
        e.keeps_ids(**tn, i as int),
        e.states@.len() == action.add_effects@.len(),
        forall|k: int, f: u32|
            0 <= k < e.states@.len() ==> (#[trigger] e.states@[k]@.contains(f)
                <==> action.add_effects@[k]@.contains(f) || (state@.contains(f)
                && !action.del_effects@[k]@.contains(f))),
        network_wf(*e.tn),
        e.tn.domain == tn.domain,
{
    assert(tn.tasks@[i as int] < tn.domain.n_tasks());
    assert((*tn.domain.tasks@[tn.tasks@[i as int] as int]) is Primitive);
    let left: HTN = tn.without_node(i);
    proof {
        assert forall|k: int| 0 <= k < left.tasks@.len() implies #[trigger] left.tasks@[k]
            < tn.domain.n_tasks() by {
            assert(left@.tasks == tn@.tasks.remove(i as int));
            if k < i {
                assert(left.tasks@[k] == tn.tasks@[k]);
            } else {
                assert(left.tasks@[k] == tn.tasks@[k + 1]);
            }
        }
    }
    let mut states: Vec<Rc<HashSet<u32>>> = Vec::new();
    let mut k: usize = 0;
    while k < action.add_effects.len()
        invariant
            k <= action.add_effects@.len(),
            action.del_effects@.len() == action.add_effects@.len(),
            states@.len() == k,
            forall|x: int| 0 <= x < k ==> (#[trigger] states@[x])@ == outcome(state@, *action, x),
        decreases action.add_effects@.len() - k,
    {
        states.push(Rc::new(result_state(state, &action.del_effects[k], &action.add_effects[k])));
        k += 1;
    }
    let outcome_probabilities: Vec<u64> = action.probabilities.clone();
    assert(outcome_probabilities@ =~= action.probabilities@);
    Expansion {
        tn: Rc::new(left),
        states,
        outcome_probabilities,
        connection_label: ConnectionLabel::Execution(action.name.clone()),
    }
}

/// The step that decomposes the node at `i` by the method `m`.
fn decompose(tn: &Rc<HTN>, state: &Rc<HashSet<u32>>, compound: &CompoundTask, i: usize, m: usize) -> (e:
    Expansion)
    requires
        network_wf(**tn),
        tn@.is_free(i as int),
        task_at(*tn.domain, tn@, i as int) == Task::Compound(*compound),
        m < compound.methods@.len(),
    ensures
        e.decomposes(*tn.domain, tn@, state@, (i as int, m as int)),
        e.replaces_ids(**tn, (i as int, m as int)),
        network_wf(*e.tn),
        e.tn.domain == tn.domain,
        e.states@[0] == *state,
{
    let method: &Rc<Method> = &compound.methods[m];
    assert(tn.domain.task_wf(tn.domain.tasks@[tn.tasks@[i as int] as int]));
    let next: HTN = tn.decompose(i, &method.decomposition);
    proof {
        assert forall|k: int| 0 <= k < next.tasks@.len() implies #[trigger] next.tasks@[k]
            < tn.domain.n_tasks() by {
            let kept = tn@.tasks.remove(i as int);
            assert(next@.tasks == kept + method.decomposition@.tasks);
            if k < kept.len() {
                assert(next.tasks@[k] == kept[k]);
                if k < i {
                    assert(kept[k] == tn.tasks@[k]);
                } else {
                    assert(kept[k] == tn.tasks@[k + 1]);
                }
            } else {
                assert(next.tasks@[k] == method.decomposition.tasks@[k - kept.len()]);
            }
        }
    }
    let outcome_probabilities: Vec<u64> = vec![crate::probability::ONE];
    assert(outcome_probabilities@ =~= seq![crate::probability::ONE]);
    Expansion {
        tn: Rc::new(next),
        states: vec![Rc::clone(state)],
        outcome_probabilities,
        connection_label: ConnectionLabel::Decomposition(
            compound.name.clone(),
            method.name.clone(),
        ),
    }
}

/// The steps that are possible: first the actions that can be executed, then
/// the decompositions.
pub fn progress(tn: &Rc<HTN>, state: &Rc<HashSet<u32>>) -> (r: Vec<Expansion>)
    requires
        network_wf(**tn),
    ensures
        ({
            let e = executions(*tn.domain, tn@, state@, tn@.len());
            let d = decompositions(*tn.domain, tn@, tn@.len());
            &&& r@.len() == e.len() + d.len()
            &&& forall|k: int|
                0 <= k < e.len() ==> (#[trigger] r@[k]).executes(*tn.domain, tn@, state@, e[k])
                    && r@[k].keeps_ids(**tn, e[k])
            &&& forall|k: int|
                e.len() <= k < r@.len() ==> (#[trigger] r@[k]).decomposes(
                    *tn.domain,
                    tn@,
                    state@,
                    d[k - e.len()],
                ) && r@[k].states@[0] == *state && r@[k].replaces_ids(**tn, d[k - e.len()])
        }),
        forall|k: int|
            0 <= k < r@.len() ==> network_wf(*(#[trigger] r@[k]).tn) && r@[k].tn.domain
                == tn.domain,
        // an execution is one of an action that nothing comes before, and each of
        // its states has what the outcome adds and what it does not delete
        forall|k: int|
            0 <= k < r@.len() && (#[trigger] r@[k]).connection_label is Execution ==> exists|i: int|
                0 <= i < tn.tasks@.len() && r@[k].tn.nodes@ == tn.nodes@.remove(i) && (forall|
                    m: int,
                |
                    0 <= m < tn.order@.len() ==> (#[trigger] tn.order@[m]).1 != i) && match *tn.domain.tasks@[
                #[trigger] tn.tasks@[i] as int] {
                    Task::Primitive(action) => {
                        &&& r@[k].states@.len() == action.add_effects@.len()
                        &&& r@[k].outcome_probabilities@ == action.probabilities@
                        &&& forall|f: u32| #[trigger]
                            action.pre_cond@.contains(f) ==> state@.contains(f)
                        &&& forall|o: int, f: u32|
                            0 <= o < r@[k].states@.len() ==> (
                            #[trigger] r@[k].states@[o]@.contains(f)
                                <==> action.add_effects@[o]@.contains(f) || (state@.contains(f)
                                && !action.del_effects@[o]@.contains(f)))
                    },
                    Task::Compound(compound) => false,
                },
{
    let n: usize = tn.tasks.len();
    let ghost dom = tn.dom();
    let ghost e = executions(dom, tn@, state@, n as nat);
    let mut r: Vec<Expansion> = Vec::new();
    let mut i: usize = 0;
    while i < n
        invariant
            i <= n,
            n == tn.tasks@.len(),
            dom == *tn.domain,
            network_wf(**tn),
            r@.len() == executions(dom, tn@, state@, i as nat).len(),
            forall|k: int|
                0 <= k < r@.len() ==> (#[trigger] r@[k]).executes(
                    dom,
                    tn@,
                    state@,
                    executions(dom, tn@, state@, i as nat)[k],
                ) && r@[k].keeps_ids(
                    **tn,
                    executions(dom, tn@, state@, i as nat)[k],
                ) && network_wf(*r@[k].tn) && r@[k].tn.domain == tn.domain,
        decreases n - i,
    {
        assert(tn.tasks@[i as int] < tn.domain.n_tasks());
        if tn.is_unconstrained(i) {
            match &*tn.domain.tasks[tn.tasks[i]] {
                Task::Primitive(action) => {
                    if is_subset(&action.pre_cond, state) {
                        r.push(execute(tn, state, action, i));
                    }
                },
                Task::Compound(compound) => {},
            }
        }
        i += 1;
    }
    let mut i: usize = 0;
    while i < n
        invariant
            i <= n,
            n == tn.tasks@.len(),
            dom == *tn.domain,
            network_wf(**tn),
            e == executions(dom, tn@, state@, n as nat),
            r@.len() == e.len() + decompositions(dom, tn@, i as nat).len(),
            forall|k: int|
                0 <= k < e.len() ==> (#[trigger] r@[k]).executes(dom, tn@, state@, e[k])
                    && r@[k].keeps_ids(**tn, e[k]),
            forall|k: int|
                e.len() <= k < r@.len() ==> (#[trigger] r@[k]).decomposes(
                    dom,
                    tn@,
                    state@,
                    decompositions(dom, tn@, i as nat)[k - e.len()],
                ) && r@[k].states@[0] == *state && r@[k].replaces_ids(
                    **tn,
                    decompositions(dom, tn@, i as nat)[k - e.len()],
                ),
            forall|k: int|
                0 <= k < r@.len() ==> network_wf(*(#[trigger] r@[k]).tn) && r@[k].tn.domain
                    == tn.domain,
        decreases n - i,
    {
        assert(tn.tasks@[i as int] < tn.domain.n_tasks());
        let ghost before = r@;
        let ghost d = decompositions(dom, tn@, i as nat);
        if tn.is_unconstrained(i) {
            match &*tn.domain.tasks[tn.tasks[i]] {
                Task::Primitive(action) => {},
                Task::Compound(compound) => {
                    let mut m: usize = 0;
                    while m < compound.methods.len()
                        invariant
                            i < n,
                            n == tn.tasks@.len(),
                            dom == *tn.domain,
                            network_wf(**tn),
                            tn@.is_free(i as int),
                            task_at(dom, tn@, i as int) == Task::Compound(*compound),
                            m <= compound.methods@.len(),
                            before.len() == e.len() + d.len(),
                            r@.len() == before.len() + m,
                            r@.take(before.len() as int) == before,
                            forall|k: int|
                                before.len() <= k < r@.len() ==> (#[trigger] r@[k]).decomposes(
                                    dom,
                                    tn@,
                                    state@,
                                    (i as int, k - before.len()),
                                ) && r@[k].states@[0] == *state && r@[k].replaces_ids(
                                    **tn,
                                    (i as int, k - before.len()),
                                ),
                            forall|k: int|
                                0 <= k < r@.len() ==> network_wf(*(#[trigger] r@[k]).tn)
                                    && r@[k].tn.domain == tn.domain,
                        decreases compound.methods@.len() - m,
                    {
                        r.push(decompose(tn, state, compound, i, m));
                        assert(r@.take(before.len() as int) =~= before);
                        m += 1;
                    }
                },
            }
        }
        proof {
            let next = decompositions(dom, tn@, (i + 1) as nat);
            assert(r@.take(before.len() as int) =~= before);
            assert forall|k: int| 0 <= k < before.len() implies r@[k] == before[k] by {
                assert(r@.take(before.len() as int)[k] == before[k]);
            }
            assert forall|k: int| e.len() <= k < r@.len() implies (#[trigger] r@[k]).decomposes(
                dom,
                tn@,
                state@,
                next[k - e.len()],
            ) && r@[k].states@[0] == *state && r@[k].replaces_ids(**tn, next[k - e.len()]) by {
                if k < before.len() {
                    assert(before[k].decomposes(dom, tn@, state@, d[k - e.len()]));
                    assert(next[k - e.len()] == d[k - e.len()]);
                } else {
                    assert(next[k - e.len()] == (i as int, k - before.len()));
                }
            }
            assert forall|k: int| 0 <= k < e.len() implies (#[trigger] r@[k]).executes(
                dom,
                tn@,
                state@,
                e[k],
            ) && r@[k].keeps_ids(**tn, e[k]) by {
                assert(before[k].executes(dom, tn@, state@, e[k]));
            }
        }
        i += 1;
    }
    proof {
        assert forall|k: int| 0 <= k < r@.len() && (
        #[trigger] r@[k]).connection_label is Execution implies exists|i: int|
            0 <= i < tn.tasks@.len() && r@[k].tn.nodes@ == tn.nodes@.remove(i) && (forall|m: int|
                0 <= m < tn.order@.len() ==> (#[trigger] tn.order@[m]).1 != i) && match *tn.domain.tasks@[
            #[trigger] tn.tasks@[i] as int] {
                Task::Primitive(action) => {
                    &&& r@[k].states@.len() == action.add_effects@.len()
                    &&& r@[k].outcome_probabilities@ == action.probabilities@
                    &&& forall|f: u32| #[trigger]
                        action.pre_cond@.contains(f) ==> state@.contains(f)
                    &&& forall|o: int, f: u32|
                        0 <= o < r@[k].states@.len() ==> (#[trigger] r@[k].states@[o]@.contains(f)
                            <==> action.add_effects@[o]@.contains(f) || (state@.contains(f)
                            && !action.del_effects@[o]@.contains(f)))
                },
                Task::Compound(compound) => false,
            } by {
            if k >= e.len() {
                assert(r@[k].decomposes(dom, tn@, state@, decompositions(dom, tn@, n as nat)[k
                    - e.len()]));
            }
            let i = e[k];
            assert(r@[k].executes(dom, tn@, state@, i));
            crate::step_laws::law_executions_are_all(dom, tn@, state@, n as nat);
            assert(e.contains(i));
            let action = action_at(dom, tn@, i);
            assert(*tn.domain.tasks@[tn.tasks@[i] as int] == Task::Primitive(action));
            assert forall|m: int| 0 <= m < tn.order@.len() implies (
            #[trigger] tn.order@[m]).1 != i by {
                assert(!tn@.before.contains((tn.order@[m].0 as int, i)));
            }
            assert forall|o: int, f: u32| 0 <= o < r@[k].states@.len() implies (
            #[trigger] r@[k].states@[o]@.contains(f) <==> action.add_effects@[o]@.contains(f) || (
            state@.contains(f) && !action.del_effects@[o]@.contains(f))) by {
                crate::step_laws::law_execution_changes_what_the_outcomes_say(
                    **tn,
                    state@,
                    i,
                    action,
                    r@[k],
                    o,
                    f,
                );
            }
        }
    }
    r
}

} // verus!

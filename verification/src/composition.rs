//! A classical domain in which a task is done once an action or a method of it
//! is, read without deletes and without the order of tasks.

use std::collections::HashSet;
use std::rc::Rc;
use vstd::prelude::*;

use crate::costs::{h_add, h_max, Combine};
use crate::domain::{ClassicalDomain, Facts, PrimitiveAction};
use crate::ff::h_ff;
use crate::prob::h_prob_max;
use crate::problem::FONDProblem;
use crate::sets::{elements, set_with};
use crate::task_network::{CompoundTask, DomainTasks, Method, Network, Task, HTN};

verus! {

broadcast use vstd::std_specs::hash::group_hash_axioms;

/// The fact that the task `t` is done.
pub open spec fn done(n_facts: nat, t: int) -> int {
    n_facts + t
}

/// The fact that always holds.
pub open spec fn always(n_facts: nat, n_tasks: nat) -> int {
    n_facts as int + n_tasks
}

/// The fact `f` is that one of the listed tasks is done.
pub open spec fn is_done_of(n_facts: nat, tasks: Seq<usize>, f: u32) -> bool {
    exists|i: int| 0 <= i < tasks.len() && f == done(n_facts, #[trigger] tasks[i] as int)
}

/// `c` is the outcome `k` of the task `t`: it needs what the action needs, adds
/// what the outcome adds, and the task is done.
pub open spec fn is_outcome_action(
    tasks: DomainTasks,
    n_facts: nat,
    t: int,
    k: int,
    c: PrimitiveAction,
) -> bool {
    &&& 0 <= t < tasks.n_tasks()
    &&& match *tasks.tasks@[t] {
        Task::Primitive(action) => {
            &&& 0 <= k < action.add_effects@.len()
            &&& c.cost == 0
            &&& c.add_effects@.len() == 1
            &&& forall|f: u32| #[trigger]
                c.pre_cond@.contains(f) <==> action.pre_cond@.contains(f) || f == always(
                    n_facts,
                    tasks.n_tasks(),
                )
            &&& forall|f: u32| #[trigger]
                c.add_effects@[0]@.contains(f) <==> action.add_effects@[k]@.contains(f) || f
                    == done(n_facts, t)
            &&& c.probabilities@ == (if k < action.probabilities@.len() {
                seq![action.probabilities@[k]]
            } else {
                Seq::empty()
            })
        },
        Task::Compound(compound) => false,
    }
}

/// `c` is the method `m` of the task `t`: it needs the tasks of the method
/// done, and the task is done.
pub open spec fn is_method_action(
    tasks: DomainTasks,
    n_facts: nat,
    t: int,
    m: int,
    c: PrimitiveAction,
) -> bool {
    &&& 0 <= t < tasks.n_tasks()
    &&& match *tasks.tasks@[t] {
        Task::Primitive(action) => false,
        Task::Compound(compound) => {
            &&& 0 <= m < compound.methods@.len()
            &&& c.cost == 1
            &&& c.add_effects@.len() == 1
            &&& forall|f: u32| #[trigger]
                c.pre_cond@.contains(f) <==> is_done_of(
                    n_facts,
                    compound.methods@[m].decomposition.tasks@,
                    f,
                ) || f == always(n_facts, tasks.n_tasks())
            &&& forall|f: u32| #[trigger]
                c.add_effects@[0]@.contains(f) <==> f == done(n_facts, t)
            &&& c.probabilities@.len() == 0
        },
    }
}

/// `c` is the outcome or the method `k` of the task `t`.
pub open spec fn is_step(
    tasks: DomainTasks,
    n_facts: nat,
    t: int,
    k: int,
    c: PrimitiveAction,
) -> bool {
    is_outcome_action(tasks, n_facts, t, k, c) || is_method_action(tasks, n_facts, t, k, c)
}

/// The number of outcomes or methods of a task.
pub open spec fn step_count(task: Task) -> nat {
    match task {
        Task::Primitive(action) => action.add_effects@.len(),
        Task::Compound(compound) => compound.methods@.len(),
    }
}

/// The domain has a fact for each fact and each task and one that always holds,
/// and an action for each outcome and each method, and no other.
pub open spec fn is_composition(tasks: DomainTasks, n_facts: nat, d: ClassicalDomain) -> bool {
    &&& d.n_facts() == n_facts + tasks.n_tasks() + 1
    &&& forall|a: int|
        0 <= a < d.n_actions() ==> is_some_step(tasks, n_facts, #[trigger] d.actions@[a])
    &&& forall|t: int, k: int|
        0 <= t < tasks.n_tasks() && 0 <= k < step_count(*tasks.tasks@[t])
            ==> #[trigger] has_step(tasks, n_facts, t, k, d)
}

/// The domain has an action for the outcome or method `k` of the task `t`.
pub open spec fn has_step(
    tasks: DomainTasks,
    n_facts: nat,
    t: int,
    k: int,
    d: ClassicalDomain,
) -> bool {
    exists|a: int|
        0 <= a < d.n_actions() && is_step(tasks, n_facts, t, k, #[trigger] d.actions@[a])
}

/// The list of the facts that the listed tasks are done.
fn done_facts(n_facts: u32, tasks: &Vec<usize>, Ghost(n_tasks): Ghost<nat>) -> (r: Vec<u32>)
    requires
        forall|i: int| 0 <= i < tasks@.len() ==> #[trigger] tasks@[i] < n_tasks,
        n_facts + n_tasks <= u32::MAX,
    ensures
        forall|f: u32| #[trigger] r@.contains(f) <==> is_done_of(n_facts as nat, tasks@, f),
{
    let mut r: Vec<u32> = Vec::new();
    let mut i: usize = 0;
    while i < tasks.len()
        invariant
            i <= tasks@.len(),
            forall|x: int| 0 <= x < tasks@.len() ==> #[trigger] tasks@[x] < n_tasks,
            n_facts + n_tasks <= u32::MAX,
            r@.len() == i,
            forall|x: int| 0 <= x < i ==> r@[x] == done(n_facts as nat, #[trigger] tasks@[x] as int),
        decreases tasks@.len() - i,
    {
        r.push(n_facts + tasks[i] as u32);
        i += 1;
    }
    proof {
        assert forall|f: u32| #[trigger] r@.contains(f) <==> is_done_of(
            n_facts as nat,
            tasks@,
            f,
        ) by {
            if r@.contains(f) {
                let x = choose|x: int| 0 <= x < r@.len() && r@[x] == f;
                assert(f == done(n_facts as nat, tasks@[x] as int));
            }
            if is_done_of(n_facts as nat, tasks@, f) {
                let x = choose|x: int|
                    0 <= x < tasks@.len() && f == done(
                        n_facts as nat,
                        #[trigger] tasks@[x] as int,
                    );
                assert(r@[x] == f);
            }
        }
    }
    r
}

/// The action of the outcome `k` of the action, which is the task `t`.
fn outcome_action(
    tasks: &DomainTasks,
    n_facts: u32,
    action: &PrimitiveAction,
    t: usize,
    k: usize,
) -> (c: PrimitiveAction)
    requires
        t < tasks.n_tasks(),
        n_facts + tasks.n_tasks() < u32::MAX,
        *tasks.tasks@[t as int] == Task::Primitive(*action),
        k < action.add_effects@.len(),
    ensures
        is_step(*tasks, n_facts as nat, t as int, k as int, c),
{
    let pre: Vec<u32> = elements(&action.pre_cond);
    let add: Vec<u32> = elements(&action.add_effects[k]);
    let fact_always: u32 = n_facts + tasks.tasks.len() as u32;
    let fact_done: u32 = n_facts + t as u32;
    let pre_cond: HashSet<u32> = set_with(&pre, fact_always);
    let added: HashSet<u32> = set_with(&add, fact_done);
    let mut probabilities: Vec<u64> = Vec::new();
    if k < action.probabilities.len() {
        probabilities.push(action.probabilities[k]);
        assert(probabilities@ =~= seq![action.probabilities@[k as int]]);
    }
    let none: HashSet<u32> = HashSet::new();
    let c: PrimitiveAction = PrimitiveAction {
        name: action.name.clone(),
        cost: 0,
        pre_cond,
        add_effects: vec![added],
        del_effects: vec![none],
        probabilities,
    };
    assert(is_outcome_action(*tasks, n_facts as nat, t as int, k as int, c));
    c
}

/// The action of the method `m` of the compound task, which is the task `t`.
fn method_action(
    tasks: &DomainTasks,
    n_facts: u32,
    compound: &CompoundTask,
    t: usize,
    m: usize,
) -> (c: PrimitiveAction)
    requires
        tasks.wf(),
        t < tasks.n_tasks(),
        n_facts + tasks.n_tasks() < u32::MAX,
        *tasks.tasks@[t as int] == Task::Compound(*compound),
        m < compound.methods@.len(),
    ensures
        is_step(*tasks, n_facts as nat, t as int, m as int, c),
{
    let method: &Rc<Method> = &compound.methods[m];
    assert(tasks.task_wf(tasks.tasks@[t as int]));
    proof {
        if let Task::Compound(c) = *tasks.tasks@[t as int] {
            assert(c.methods@[m as int].decomposition.uses(tasks.n_tasks()));
        }
    }
    let pre: Vec<u32> = done_facts(
        n_facts,
        &method.decomposition.tasks,
        Ghost(tasks.n_tasks()),
    );
    let fact_always: u32 = n_facts + tasks.tasks.len() as u32;
    let fact_done: u32 = n_facts + t as u32;
    let pre_cond: HashSet<u32> = set_with(&pre, fact_always);
    let nothing: Vec<u32> = Vec::new();
    let added: HashSet<u32> = set_with(&nothing, fact_done);
    let none: HashSet<u32> = HashSet::new();
    let c: PrimitiveAction = PrimitiveAction {
        name: method.name.clone(),
        cost: 1,
        pre_cond,
        add_effects: vec![added],
        del_effects: vec![none],
        probabilities: Vec::new(),
    };
    assert(is_method_action(*tasks, n_facts as nat, t as int, m as int, c));
    c
}

/// The relaxed reading of a problem.
pub struct RelaxedComposition {
    pub domain: ClassicalDomain,
    /// The number of facts of the problem.
    pub n_facts: u32,
    /// The number of tasks of the problem.
    pub n_tasks: u32,
}

impl RelaxedComposition {
    /// The composition is the one of the given tasks and facts.
    pub open spec fn is_of(&self, tasks: DomainTasks, n_facts: nat) -> bool {
        &&& self.n_facts == n_facts
        &&& self.n_tasks == tasks.n_tasks()
        &&& is_composition(tasks, n_facts, self.domain)
        &&& 2 * (self.domain.n_facts() + 1) < u32::MAX
        &&& crate::prob::has_probabilities(self.domain)
    }

    pub fn new(problem: &FONDProblem) -> (r: RelaxedComposition)
        requires
            problem.wf(),
        ensures
            r.is_of(*problem.tasks, problem.facts.spec_count()),
    {
        let tasks: &DomainTasks = &problem.tasks;
        let n_facts: u32 = problem.facts.count();
        let n_tasks: u32 = tasks.tasks.len() as u32;
        let ghost nf = n_facts as nat;
        let mut names: Vec<String> = Vec::new();
        let total: u32 = n_facts + n_tasks + 1;
        let mut i: u32 = 0;
        while i < total
            invariant
                i <= total,
                names@.len() == i,
                n_facts == problem.facts.spec_count(),
            decreases total - i,
        {
            if i < n_facts {
                names.push(problem.facts.get_fact(i).clone());
            } else {
                names.push("done".to_owned());
            }
            i += 1;
        }
        let mut actions: Vec<PrimitiveAction> = Vec::new();
        let mut t: usize = 0;
        while t < tasks.tasks.len()
            invariant
                problem.wf(),
                tasks == *problem.tasks,
                n_facts == problem.facts.spec_count(),
                nf == n_facts,
                t <= tasks.n_tasks(),
                forall|a: int|
                    0 <= a < actions@.len() ==> is_some_step(*tasks, nf, #[trigger] actions@[a]),
                forall|x: int, k: int|
                    0 <= x < t && 0 <= k < step_count(*tasks.tasks@[x]) ==> #[trigger] covers(
                        *tasks,
                        nf,
                        x,
                        k,
                        actions@,
                    ),
            decreases tasks.n_tasks() - t,
        {
            let mut k: usize = 0;
            let count: usize = match &*tasks.tasks[t] {
                Task::Primitive(action) => action.add_effects.len(),
                Task::Compound(compound) => compound.methods.len(),
            };
            while k < count
                invariant
                    problem.wf(),
                    tasks == *problem.tasks,
                    n_facts == problem.facts.spec_count(),
                    nf == n_facts,
                    t < tasks.n_tasks(),
                    k <= count,
                    count == step_count(*tasks.tasks@[t as int]),
                    forall|a: int|
                        0 <= a < actions@.len() ==> is_some_step(
                            *tasks,
                            nf,
                            #[trigger] actions@[a],
                        ),
                    forall|x: int, y: int|
                        ((0 <= x < t && 0 <= y < step_count(*tasks.tasks@[x])) || (x == t && 0 <= y
                            < k)) ==> #[trigger] covers(*tasks, nf, x, y, actions@),
                decreases count - k,
            {
                let ghost before = actions@;
                let c: PrimitiveAction = match &*tasks.tasks[t] {
                    Task::Primitive(action) => outcome_action(tasks, n_facts, action, t, k),
                    Task::Compound(compound) => method_action(tasks, n_facts, compound, t, k),
                };
                actions.push(c);
                proof {
                    assert(is_step(*tasks, nf, t as int, k as int, actions@.last()));
                    assert(is_some_step(*tasks, nf, actions@.last()));
                    assert forall|a: int| 0 <= a < actions@.len() implies is_some_step(
                        *tasks,
                        nf,
                        #[trigger] actions@[a],
                    ) by {
                        if a < before.len() {
                            assert(actions@[a] == before[a]);
                        }
                    }
                    assert forall|x: int, y: int|
                        ((0 <= x < t && 0 <= y < step_count(*tasks.tasks@[x])) || (x == t && 0 <= y
                            < k + 1)) implies #[trigger] covers(*tasks, nf, x, y, actions@) by {
                        if x == t && y == k {
                            assert(is_step(*tasks, nf, x, y, actions@[before.len() as int]));
                        } else {
                            assert(covers(*tasks, nf, x, y, before));
                            let a = choose|a: int|
                                0 <= a < before.len() && is_step(
                                    *tasks,
                                    nf,
                                    x,
                                    y,
                                    #[trigger] before[a],
                                );
                            assert(is_step(*tasks, nf, x, y, actions@[a]));
                        }
                    }
                }
                k += 1;
            }
            t += 1;
        }
        let domain: ClassicalDomain = ClassicalDomain { facts: Facts { names }, actions };
        proof {
            assert forall|a: int| 0 <= a < domain.n_actions() implies is_some_step(
                *tasks,
                nf,
                #[trigger] domain.actions@[a],
            ) by {
                assert(is_some_step(*tasks, nf, actions@[a]));
            }
            assert forall|x: int, k: int|
                0 <= x < tasks.n_tasks() && 0 <= k < step_count(
                    *tasks.tasks@[x],
                ) implies #[trigger] has_step(*tasks, nf, x, k, domain) by {
                assert(covers(*tasks, nf, x, k, actions@));
                let a = choose|a: int|
                    0 <= a < actions@.len() && is_step(*tasks, nf, x, k, #[trigger] actions@[a]);
                assert(is_step(*tasks, nf, x, k, domain.actions@[a]));
            }
            assert(is_composition(*tasks, nf, domain));
            assert forall|a: int| 0 <= a < domain.n_actions() implies #[trigger]
                crate::prob::first_prob(domain, a) <= crate::probability::ONE by {
                assert(is_some_step(*tasks, nf, actions@[a]));
                let (x, k) = choose|x: int, k: int| is_step(*tasks, nf, x, k, actions@[a]);
                if let Task::Primitive(action) = *tasks.tasks@[x] {
                    assert(crate::problem::action_wf(action, nf));
                }
            }
        }
        RelaxedComposition { domain, n_facts, n_tasks }
    }
}

/// The action is an outcome or a method of a task.
pub open spec fn is_some_step(tasks: DomainTasks, n_facts: nat, c: PrimitiveAction) -> bool {
    exists|t: int, k: int| is_step(tasks, n_facts, t, k, c)
}

/// One of the actions is the outcome or method `k` of the task `t`.
spec fn covers(
    tasks: DomainTasks,
    n_facts: nat,
    t: int,
    k: int,
    actions: Seq<PrimitiveAction>,
) -> bool {
    exists|a: int| 0 <= a < actions.len() && is_step(tasks, n_facts, t, k, #[trigger] actions[a])
}

/// Which bound guides the search.
#[derive(Clone, Copy, Debug, PartialEq, Eq, Structural)]
pub enum HeuristicType {
    HAdd,
    HMax,
    HFF,
    HProb,
}

/// The start of the relaxed problem: the facts, and the one that always holds.
pub open spec fn relaxed_start(n_facts: nat, n_tasks: nat, facts: Set<u32>) -> Set<u32> {
    facts.insert(always(n_facts, n_tasks) as u32)
}

/// The goal of the relaxed problem: all tasks of the network are done.
pub open spec fn relaxed_goal(n_facts: nat, net: Network) -> Set<u32> {
    Set::new(|f: u32| is_done_of(n_facts, net.tasks, f))
}

/// `v` is what the heuristic gives for the goal; `None` stands for infinity.
pub open spec fn is_heuristic_value(
    d: ClassicalDomain,
    s: Set<u32>,
    goal: Set<u32>,
    h_type: HeuristicType,
    v: Option<u32>,
) -> bool {
    match h_type {
        HeuristicType::HAdd => crate::costs::is_goal_cost(d, s, goal, Combine::Sum, v),
        HeuristicType::HMax => crate::costs::is_goal_cost(d, s, goal, Combine::Max, v),
        HeuristicType::HFF => {
            &&& v is None <==> forall|k: nat| !#[trigger] crate::graphplan::reached_at(d, s, goal, k)
            &&& v matches Some(len) ==> crate::ff::is_ff(d, s, goal, len)
        },
        HeuristicType::HProb => exists|p: u64|
            crate::prob::is_prob_max(d, s, goal, p) && v == (if p == 0 {
                None::<u32>
            } else {
                Some(0u32)
            }),
    }
}

/// `v` bounds what is left to do for the network where the facts hold.
pub open spec fn is_h_val(
    tasks: DomainTasks,
    n_facts: nat,
    net: Network,
    facts: Set<u32>,
    h_type: HeuristicType,
    v: Option<u32>,
) -> bool {
    exists|r: RelaxedComposition| #[trigger]
        r.is_of(tasks, n_facts) && is_heuristic_value(
            r.domain,
            relaxed_start(n_facts, tasks.n_tasks(), facts),
            relaxed_goal(n_facts, net),
            h_type,
            v,
        )
}

impl RelaxedComposition {
    /// A bound on what is left to do for the network, or nothing where it
    /// cannot be done. The probability bound only tells these two apart.
    pub fn h_val(&self, tn: &HTN, state: &HashSet<u32>, h_type: HeuristicType) -> (v: Option<u32>)
        requires
            self.is_of(tn.dom(), self.n_facts as nat),
            tn.uses(tn.dom().n_tasks()),
        ensures
            is_h_val(tn.dom(), self.n_facts as nat, tn@, state@, h_type, v),
    {
        let list: Vec<u32> = elements(state);
        let start: HashSet<u32> = set_with(&list, self.n_facts + self.n_tasks);
        let goals: Vec<u32> = done_facts(self.n_facts, &tn.tasks, Ghost(self.n_tasks as nat));
        let mut goal: HashSet<u32> = HashSet::new();
        let mut i: usize = 0;
        while i < goals.len()
            invariant
                i <= goals@.len(),
                forall|x: u32| #[trigger] goal@.contains(x) <==> goals@.take(i as int).contains(x),
            decreases goals@.len() - i,
        {
            let f: u32 = goals[i];
            let ghost done = goals@.take(i as int);
            assert(goals@.take(i + 1) =~= done.push(f));
            proof {
                assert forall|x: u32| #[trigger] done.push(f).contains(x) <==> x == f
                    || done.contains(x) by {
                    if done.contains(x) {
                        let k = choose|k: int| 0 <= k < done.len() && done[k] == x;
                        assert(done.push(f)[k] == x);
                    }
                    assert(done.push(f)[done.len() as int] == f);
                }
            }
            goal.insert(f);
            i += 1;
        }
        assert(goals@.take(i as int) =~= goals@);
        proof {
            let n = self.n_facts as nat;
            assert forall|f: u32| start@.contains(f) <==> relaxed_start(
                n,
                self.n_tasks as nat,
                state@,
            ).contains(f) by {
                assert(list@.contains(f) <==> state@.contains(f));
            }
            assert(start@ =~= relaxed_start(n, self.n_tasks as nat, state@));
            assert(goal@ =~= relaxed_goal(n, tn@));
        }
        let v: Option<u32> = match h_type {
            HeuristicType::HAdd => h_add(&self.domain, &start, &goal),
            HeuristicType::HMax => h_max(&self.domain, &start, &goal),
            HeuristicType::HFF => h_ff(&self.domain, &start, &goal),
            HeuristicType::HProb => {
                if h_prob_max(&self.domain, &start, &goal) == 0 {
                    None
                } else {
                    Some(0)
                }
            },
        };
        assert(is_heuristic_value(self.domain, start@, goal@, h_type, v));
        assert(self.is_of(tn.dom(), self.n_facts as nat));
        v
    }
}

} // verus!

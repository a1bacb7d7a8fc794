//! Planning problems with task networks and non-deterministic actions.

use std::collections::HashSet;
use std::rc::Rc;
use vstd::prelude::*;

use crate::domain::{Facts, PrimitiveAction};
use crate::probability::ONE;
use crate::task_network::{CompoundTask, DomainTasks, Method, Task, HTN};

verus! {

/// A problem: what holds at the start, what is to be done, and how likely a
/// policy has to succeed at least.
pub struct FONDProblem {
    pub facts: Facts,
    pub tasks: Rc<DomainTasks>,
    pub initial_state: HashSet<u32>,
    pub init_tn: HTN,
    /// The least probability of success that a solution has, in units of `1 / ONE`.
    pub rho: u64,
}

/// The action adds facts below `n_facts`, has a delete set for each outcome,
/// and no outcome is more than certain.
pub open spec fn action_wf(action: PrimitiveAction, n_facts: nat) -> bool {
    &&& action.del_effects@.len() == action.add_effects@.len()
    &&& forall|i: int, f: u32|
        0 <= i < action.add_effects@.len() && #[trigger] action.add_effects@[i]@.contains(f) ==> f
            < n_facts
    &&& forall|i: int|
        0 <= i < action.probabilities@.len() ==> #[trigger] action.probabilities@[i] <= ONE
}

/// All primitive tasks are well-formed actions.
pub open spec fn actions_wf(tasks: DomainTasks, n_facts: nat) -> bool {
    forall|t: int|
        0 <= t < tasks.n_tasks() && (*#[trigger] tasks.tasks@[t] is Primitive) ==> action_wf(
            (*tasks.tasks@[t])->Primitive_0,
            n_facts,
        )
}

impl FONDProblem {
    /// The problem speaks of its own facts and tasks only, and there are few
    /// enough of them to be numbered together.
    pub open spec fn wf(&self) -> bool {
        &&& self.tasks.wf()
        &&& actions_wf(*self.tasks, self.facts.spec_count())
        &&& self.init_tn.wf()
        &&& self.init_tn.uses(self.tasks.n_tasks())
        &&& self.init_tn.domain == self.tasks
        &&& forall|f: u32| #[trigger]
            self.initial_state@.contains(f) ==> f < self.facts.spec_count()
        &&& 2 * (self.facts.spec_count() + self.tasks.n_tasks() + 2) < u32::MAX
    }

    /// Makes the initial task network one new compound task with one method,
    /// which leads to what the initial network was.
    pub fn collapse_tn(&mut self)
        requires
            old(self).wf(),
        ensures
            final(self).facts == old(self).facts,
            final(self).initial_state == old(self).initial_state,
            final(self).rho == old(self).rho,
            final(self).tasks.n_tasks() == old(self).tasks.n_tasks() + 1,
            forall|t: int|
                0 <= t < old(self).tasks.n_tasks() ==> #[trigger] final(self).tasks.tasks@[t]
                    == old(self).tasks.tasks@[t],
            match *final(self).tasks.tasks@.last() {
                Task::Compound(compound) => compound.methods@.len() == 1
                    && compound.methods@[0].decomposition == old(self).init_tn,
                Task::Primitive(action) => false,
            },
            final(self).init_tn.domain == final(self).tasks,
            final(self).init_tn.wf(),
            final(self).init_tn@.tasks == seq![old(self).tasks.n_tasks() as usize],
            final(self).init_tn@.before == Set::<(int, int)>::empty(),
            final(self).init_tn.tasks@ == seq![old(self).tasks.tasks@.len() as usize],
            final(self).init_tn.order@.len() == 0,
            final(self).tasks.tasks@.len() == old(self).tasks.tasks@.len() + 1,
            2 * (old(self).facts.spec_count() + old(self).tasks.n_tasks() + 3) < u32::MAX
                ==> final(self).wf(),
    {
        let n: usize = self.tasks.tasks.len();
        let mut tasks: Vec<Rc<Task>> = Vec::new();
        let mut t: usize = 0;
        while t < n
            invariant
                t <= n,
                n == self.tasks.tasks@.len(),
                tasks@ == self.tasks.tasks@.take(t as int),
            decreases n - t,
        {
            tasks.push(Rc::clone(&self.tasks.tasks[t]));
            assert(self.tasks.tasks@.take(t + 1) =~= self.tasks.tasks@.take(t as int).push(
                self.tasks.tasks@[t as int],
            ));
            t += 1;
        }
        assert(self.tasks.tasks@.take(t as int) =~= self.tasks.tasks@);
        let mut tn: HTN = HTN {
            domain: Rc::clone(&self.tasks),
            nodes: vec![0],
            tasks: vec![n],
            order: Vec::new(),
        };
        std::mem::swap(&mut self.init_tn, &mut tn);
        let method: Rc<Method> = Rc::new(Method::new("initial".to_owned(), tn));
        let compound: CompoundTask = CompoundTask {
            name: "initial".to_owned(),
            methods: vec![method],
        };
        tasks.push(Rc::new(Task::Compound(compound)));
        self.tasks = Rc::new(DomainTasks { tasks });
        self.init_tn.domain = Rc::clone(&self.tasks);
        proof {
            assert(self.init_tn@.tasks =~= seq![n]);
            assert(self.init_tn@.before =~= Set::<(int, int)>::empty());
            let before = old(self).tasks;
            assert forall|t: int| 0 <= t < self.tasks.n_tasks() implies self.tasks.task_wf(
                #[trigger] self.tasks.tasks@[t],
            ) by {
                if t < n {
                    assert(before.task_wf(before.tasks@[t]));
                    assert(self.tasks.tasks@[t] == before.tasks@[t]);
                }
            }
            assert forall|t: int|
                0 <= t < self.tasks.n_tasks() && (*#[trigger] self.tasks.tasks@[t] is Primitive)
                implies action_wf(
                (*self.tasks.tasks@[t])->Primitive_0,
                self.facts.spec_count(),
            ) by {
                assert(self.tasks.tasks@[t] == before.tasks@[t]);
            }
        }
    }
}

} // verus!

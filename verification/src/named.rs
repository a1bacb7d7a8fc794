//! Problems that are given by names.

use std::collections::HashSet;
use std::rc::Rc;
use vstd::prelude::*;

use crate::domain::{Facts, PrimitiveAction};
use crate::probability::ONE;
use crate::problem::FONDProblem;
use crate::task_network::{CompoundTask, DomainTasks, Method, Task, HTN};

verus! {

broadcast use vstd::std_specs::hash::group_hash_axioms;

/// An action: its name, the facts that it needs, what each outcome adds and
/// deletes, and the probabilities of the outcomes.
pub type NamedAction = (String, Vec<String>, Vec<(Vec<String>, Vec<String>)>, Vec<u64>);

/// A method: its name, its task, the tasks that it leads to, and the positions
/// of two of these of which the first comes before the second.
pub type NamedMethod = (String, String, Vec<String>, Vec<(usize, usize)>);

/// What the strings say.
pub open spec fn texts(names: Seq<String>) -> Seq<Seq<char>> {
    names.map_values(|s: String| s@)
}

/// The position of the first of the names that is `name`; their number where
/// none is.
pub open spec fn id_of(names: Seq<Seq<char>>, name: Seq<char>) -> nat
    decreases names.len(),
{
    if names.len() == 0 {
        0
    } else {
        let rest = id_of(names.drop_last(), name);
        if rest < names.len() - 1 || names.last() == name {
            rest
        } else {
            names.len()
        }
    }
}

/// One of the names is `name`.
pub open spec fn knows(names: Seq<Seq<char>>, name: Seq<char>) -> bool {
    id_of(names, name) < names.len()
}

/// All of the listed names are among the names.
pub open spec fn knows_all(names: Seq<Seq<char>>, list: Seq<String>) -> bool {
    forall|k: int| 0 <= k < list.len() ==> knows(names, (#[trigger] list[k])@)
}

/// The set holds the positions of the listed names.
pub open spec fn are_ids(names: Seq<Seq<char>>, list: Seq<String>, ids: Set<u32>) -> bool {
    forall|f: u32| #[trigger] ids.contains(f) <==> is_id_in(names, list, f)
}

/// `f` is the position of one of the listed names.
pub open spec fn is_id_in(names: Seq<Seq<char>>, list: Seq<String>, f: u32) -> bool {
    exists|k: int| 0 <= k < list.len() && f == id_of(names, (#[trigger] list[k])@)
}

proof fn lemma_id_bound(names: Seq<Seq<char>>, name: Seq<char>)
    ensures
        id_of(names, name) <= names.len(),
    decreases names.len(),
{
    if names.len() > 0 {
        lemma_id_bound(names.drop_last(), name);
    }
}

/// A name that was found stays where it was found.
proof fn lemma_id_stays(names: Seq<Seq<char>>, name: Seq<char>, m: int)
    requires
        0 <= m <= names.len(),
        id_of(names.take(m), name) < m,
    ensures
        id_of(names, name) == id_of(names.take(m), name),
    decreases names.len(),
{
    if m == names.len() {
        assert(names.take(m) =~= names);
    } else {
        assert(names.drop_last().take(m) =~= names.take(m));
        lemma_id_stays(names.drop_last(), name, m);
    }
}

fn find(names: &Vec<String>, name: &String) -> (r: usize)
    ensures
        r == id_of(texts(names@), name@),
{
    let ghost all = texts(names@);
    let mut i: usize = 0;
    assert(all.take(0) =~= Seq::empty());
    while i < names.len()
        invariant
            i <= names@.len(),
            all == texts(names@),
            id_of(all.take(i as int), name@) == i,
        decreases names@.len() - i,
    {
        assert(all.take(i + 1).drop_last() =~= all.take(i as int));
        assert(all.take(i + 1).last() == names@[i as int]@);
        if names[i] == *name {
            proof {
                lemma_id_stays(all, name@, (i + 1) as int);
            }
            return i;
        }
        i += 1;
    }
    assert(all.take(i as int) =~= all);
    i
}

fn all_known(names: &Vec<String>, list: &Vec<String>) -> (r: bool)
    ensures
        r == knows_all(texts(names@), list@),
{
    let mut k: usize = 0;
    while k < list.len()
        invariant
            k <= list@.len(),
            forall|x: int| 0 <= x < k ==> knows(texts(names@), (#[trigger] list@[x])@),
        decreases list@.len() - k,
    {
        if find(names, &list[k]) >= names.len() {
            assert(!knows(texts(names@), list@[k as int]@));
            return false;
        }
        k += 1;
    }
    true
}

/// The positions of the listed names.
fn fact_set(names: &Vec<String>, list: &Vec<String>) -> (ids: HashSet<u32>)
    requires
        names@.len() <= u32::MAX,
        knows_all(texts(names@), list@),
    ensures
        are_ids(texts(names@), list@, ids@),
        forall|f: u32| #[trigger] ids@.contains(f) ==> f < names@.len(),
{
    let ghost all = texts(names@);
    let mut ids: HashSet<u32> = HashSet::new();
    let mut k: usize = 0;
    while k < list.len()
        invariant
            k <= list@.len(),
            all == texts(names@),
            names@.len() <= u32::MAX,
            knows_all(all, list@),
            are_ids(all, list@.take(k as int), ids@),
            forall|f: u32| #[trigger] ids@.contains(f) ==> f < names@.len(),
        decreases list@.len() - k,
    {
        let ghost before = list@.take(k as int);
        let ghost after = list@.take(k + 1);
        let ghost old_ids = ids@;
        let id: u32 = find(names, &list[k]) as u32;
        assert(knows(all, list@[k as int]@));
        ids.insert(id);
        proof {
            assert(after =~= before.push(list@[k as int]));
            assert forall|f: u32| #[trigger] ids@.contains(f) <==> is_id_in(all, after, f) by {
                if is_id_in(all, before, f) {
                    let x = choose|x: int|
                        0 <= x < before.len() && f == id_of(all, (#[trigger] before[x])@);
                    assert(f == id_of(all, after[x]@));
                }
                if f == id {
                    assert(f == id_of(all, after[k as int]@));
                }
                if is_id_in(all, after, f) {
                    let x = choose|x: int|
                        0 <= x < after.len() && f == id_of(all, (#[trigger] after[x])@);
                    if x < k {
                        assert(f == id_of(all, before[x]@));
                    }
                }
                assert(old_ids.contains(f) <==> is_id_in(all, before, f));
            }
        }
        k += 1;
    }
    assert(list@.take(k as int) =~= list@);
    ids
}

/// The names of the action are known.
pub open spec fn action_known(facts: Seq<Seq<char>>, a: NamedAction) -> bool {
    &&& knows_all(facts, a.1@)
    &&& forall|k: int|
        0 <= k < a.2@.len() ==> knows_all(facts, (#[trigger] a.2@[k]).0@) && knows_all(
            facts,
            a.2@[k].1@,
        )
}

/// The action is the named one. It costs one unit.
pub open spec fn is_action_of(
    facts: Seq<Seq<char>>,
    a: NamedAction,
    action: PrimitiveAction,
) -> bool {
    &&& action.name@ == a.0@
    &&& action.cost == 1
    &&& are_ids(facts, a.1@, action.pre_cond@)
    &&& action.add_effects@.len() == a.2@.len()
    &&& action.del_effects@.len() == a.2@.len()
    &&& forall|k: int|
        0 <= k < a.2@.len() ==> are_ids(facts, a.2@[k].0@, (#[trigger] action.add_effects@[k])@)
    &&& forall|k: int|
        0 <= k < a.2@.len() ==> are_ids(facts, a.2@[k].1@, (#[trigger] action.del_effects@[k])@)
    &&& action.probabilities@ == a.3@
}

fn is_action_known(names: &Vec<String>, a: &NamedAction) -> (r: bool)
    ensures
        r == action_known(texts(names@), *a),
{
    if !all_known(names, &a.1) {
        return false;
    }
    let mut k: usize = 0;
    while k < a.2.len()
        invariant
            k <= a.2@.len(),
            forall|x: int|
                0 <= x < k ==> knows_all(texts(names@), (#[trigger] a.2@[x]).0@) && knows_all(
                    texts(names@),
                    a.2@[x].1@,
                ),
        decreases a.2@.len() - k,
    {
        if !all_known(names, &a.2[k].0) || !all_known(names, &a.2[k].1) {
            assert(!(knows_all(texts(names@), a.2@[k as int].0@) && knows_all(
                texts(names@),
                a.2@[k as int].1@,
            )));
            return false;
        }
        k += 1;
    }
    true
}

/// The action with its facts by number.
fn action_of(names: &Vec<String>, a: &NamedAction) -> (action: PrimitiveAction)
    requires
        names@.len() <= u32::MAX,
        action_known(texts(names@), *a),
    ensures
        is_action_of(texts(names@), *a, action),
        forall|k: int, f: u32|
            0 <= k < action.add_effects@.len() && #[trigger] action.add_effects@[k]@.contains(f)
                ==> f < names@.len(),
{
    let ghost all = texts(names@);
    let pre_cond: HashSet<u32> = fact_set(names, &a.1);
    let mut add_effects: Vec<HashSet<u32>> = Vec::new();
    let mut del_effects: Vec<HashSet<u32>> = Vec::new();
    let mut k: usize = 0;
    while k < a.2.len()
        invariant
            k <= a.2@.len(),
            all == texts(names@),
            names@.len() <= u32::MAX,
            action_known(all, *a),
            add_effects@.len() == k,
            del_effects@.len() == k,
            forall|x: int|
                0 <= x < k ==> are_ids(all, a.2@[x].0@, (#[trigger] add_effects@[x])@),
            forall|x: int|
                0 <= x < k ==> are_ids(all, a.2@[x].1@, (#[trigger] del_effects@[x])@),
            forall|x: int, f: u32|
                0 <= x < k && #[trigger] add_effects@[x]@.contains(f) ==> f < names@.len(),
        decreases a.2@.len() - k,
    {
        assert(knows_all(all, a.2@[k as int].0@) && knows_all(all, a.2@[k as int].1@));
        add_effects.push(fact_set(names, &a.2[k].0));
        del_effects.push(fact_set(names, &a.2[k].1));
        k += 1;
    }
    let probabilities: Vec<u64> = a.3.clone();
    assert(probabilities@ =~= a.3@);
    PrimitiveAction::new_with_probabilities(
        a.0.clone(),
        1,
        pre_cond,
        add_effects,
        del_effects,
        probabilities,
    )
}

/// The method is for a compound task, and the tasks that it leads to are known.
/// The first `n_actions` of the tasks are actions.
pub open spec fn method_known(tasks: Seq<Seq<char>>, n_actions: nat, m: NamedMethod) -> bool {
    &&& n_actions <= id_of(tasks, m.1@) < tasks.len()
    &&& knows_all(tasks, m.2@)
    &&& forall|k: int|
        0 <= k < m.3@.len() ==> (#[trigger] m.3@[k]).0 < m.2@.len() && m.3@[k].1 < m.2@.len()
}

/// The method is the named one.
pub open spec fn is_method_of(tasks: Seq<Seq<char>>, m: NamedMethod, method: Method) -> bool {
    let net = method.decomposition@;
    &&& method.name@ == m.0@
    &&& net.tasks.len() == m.2@.len()
    &&& forall|k: int|
        0 <= k < m.2@.len() ==> #[trigger] net.tasks[k] == id_of(tasks, m.2@[k]@)
    &&& net.before == crate::task_network::pairs(m.3@)
}

fn is_method_known(names: &Vec<String>, n_actions: usize, m: &NamedMethod) -> (r: bool)
    ensures
        r == method_known(texts(names@), n_actions as nat, *m),
{
    let t: usize = find(names, &m.1);
    if t < n_actions || t >= names.len() || !all_known(names, &m.2) {
        return false;
    }
    let mut k: usize = 0;
    while k < m.3.len()
        invariant
            k <= m.3@.len(),
            forall|x: int|
                0 <= x < k ==> (#[trigger] m.3@[x]).0 < m.2@.len() && m.3@[x].1 < m.2@.len(),
        decreases m.3@.len() - k,
    {
        if m.3[k].0 >= m.2.len() || m.3[k].1 >= m.2.len() {
            assert(!(m.3@[k as int].0 < m.2@.len() && m.3@[k as int].1 < m.2@.len()));
            return false;
        }
        k += 1;
    }
    true
}

/// The method with its tasks by number.
fn method_of(names: &Vec<String>, m: &NamedMethod, domain: &Rc<DomainTasks>) -> (method: Method)
    requires
        names@.len() == domain.n_tasks(),
        method_known(texts(names@), 0, *m),
    ensures
        is_method_of(texts(names@), *m, method),
        method.decomposition.wf(),
        method.decomposition.uses(domain.n_tasks()),
{
    let ghost all = texts(names@);
    let mut nodes: Vec<usize> = Vec::new();
    let mut tasks: Vec<usize> = Vec::new();
    let mut k: usize = 0;
    while k < m.2.len()
        invariant
            k <= m.2@.len(),
            all == texts(names@),
            method_known(all, 0, *m),
            nodes@.len() == k,
            tasks@.len() == k,
            forall|x: int| 0 <= x < k ==> #[trigger] nodes@[x] == x,
            forall|x: int|
                0 <= x < k ==> #[trigger] tasks@[x] == id_of(all, m.2@[x]@) && tasks@[x]
                    < names@.len(),
        decreases m.2@.len() - k,
    {
        assert(knows(all, m.2@[k as int]@));
        nodes.push(k);
        tasks.push(find(names, &m.2[k]));
        k += 1;
    }
    let mut order: Vec<(usize, usize)> = Vec::new();
    let mut k: usize = 0;
    while k < m.3.len()
        invariant
            k <= m.3@.len(),
            order@ == m.3@.take(k as int),
        decreases m.3@.len() - k,
    {
        let (x, y): (usize, usize) = (m.3[k].0, m.3[k].1);
        order.push((x, y));
        assert(m.3@.take(k + 1) =~= m.3@.take(k as int).push(m.3@[k as int]));
        k += 1;
    }
    assert(m.3@.take(k as int) =~= m.3@);
    Method::new(m.0.clone(), HTN { domain: Rc::clone(domain), nodes, tasks, order })
}

/// The names of the tasks: the actions, and the compound tasks behind them.
pub open spec fn task_texts(
    actions: Seq<NamedAction>,
    abstract_tasks: Seq<String>,
) -> Seq<Seq<char>> {
    actions.map_values(|a: NamedAction| a.0@) + texts(abstract_tasks)
}

fn task_names(actions: &Vec<NamedAction>, abstract_tasks: &Vec<String>) -> (names: Vec<String>)
    ensures
        texts(names@) == task_texts(actions@, abstract_tasks@),
{
    let ghost all = task_texts(actions@, abstract_tasks@);
    let mut names: Vec<String> = Vec::new();
    let mut k: usize = 0;
    while k < actions.len()
        invariant
            k <= actions@.len(),
            names@.len() == k,
            forall|x: int| 0 <= x < k ==> (#[trigger] names@[x])@ == actions@[x].0@,
        decreases actions@.len() - k,
    {
        names.push(actions[k].0.clone());
        k += 1;
    }
    let mut k: usize = 0;
    while k < abstract_tasks.len()
        invariant
            k <= abstract_tasks@.len(),
            names@.len() == actions@.len() + k,
            forall|x: int| 0 <= x < actions@.len() ==> (#[trigger] names@[x])@ == actions@[x].0@,
            forall|x: int|
                actions@.len() <= x < names@.len() ==> (#[trigger] names@[x])@
                    == abstract_tasks@[x - actions@.len()]@,
        decreases abstract_tasks@.len() - k,
    {
        names.push(abstract_tasks[k].clone());
        k += 1;
    }
    assert(texts(names@) =~= all);
    names
}

/// The methods, each with the number of its task.
pub open spec fn are_methods(
    tasks: Seq<Seq<char>>,
    methods: Seq<NamedMethod>,
    added: Seq<(usize, Method)>,
) -> bool {
    &&& added.len() == methods.len()
    &&& forall|k: int|
        0 <= k < added.len() ==> (#[trigger] added[k]).0 == id_of(tasks, methods[k].1@)
            && is_method_of(tasks, methods[k], added[k].1)
}

/// All names are known.
pub open spec fn all_names_known(
    facts: Seq<String>,
    actions: Seq<NamedAction>,
    methods: Seq<NamedMethod>,
    abstract_tasks: Seq<String>,
    initial_state: Seq<String>,
    init_task: String,
) -> bool {
    let tasks = task_texts(actions, abstract_tasks);
    &&& forall|k: int| 0 <= k < actions.len() ==> action_known(texts(facts), #[trigger] actions[k])
    &&& forall|k: int|
        0 <= k < methods.len() ==> method_known(tasks, actions.len(), #[trigger] methods[k])
    &&& knows_all(texts(facts), initial_state)
    &&& knows(tasks, init_task@)
}

/// The tasks of the domain are the named actions and, behind them, the named
/// compound tasks with their methods in turn.
pub open spec fn are_tasks_of(
    facts: Seq<String>,
    actions: Seq<NamedAction>,
    methods: Seq<NamedMethod>,
    abstract_tasks: Seq<String>,
    added: Seq<(usize, Method)>,
    tasks: DomainTasks,
) -> bool {
    let n = actions.len() as int;
    &&& are_methods(task_texts(actions, abstract_tasks), methods, added)
    &&& tasks.n_tasks() == n + abstract_tasks.len()
    &&& forall|t: int|
        0 <= t < n ==> is_primitive_of(texts(facts), actions[t], *(#[trigger] tasks.tasks@[t]))
    &&& forall|t: int|
        n <= t < tasks.n_tasks() ==> is_compound_of(
            abstract_tasks[t - n],
            crate::task_network::with_added(Seq::empty(), added, t),
            *(#[trigger] tasks.tasks@[t]),
        )
}

/// The task is the named action.
pub open spec fn is_primitive_of(facts: Seq<Seq<char>>, a: NamedAction, task: Task) -> bool {
    task matches Task::Primitive(action) && is_action_of(facts, a, action)
}

/// The task is a compound one with the name and the methods.
pub open spec fn is_compound_of(name: String, methods: Seq<Rc<Method>>, task: Task) -> bool {
    task matches Task::Compound(compound) && compound.name@ == name@ && compound.methods@
        == methods
}

/// The problem is the named one. It asks for certain success.
pub open spec fn is_problem_of(
    facts: Seq<String>,
    actions: Seq<NamedAction>,
    methods: Seq<NamedMethod>,
    abstract_tasks: Seq<String>,
    initial_state: Seq<String>,
    init_task: String,
    problem: FONDProblem,
) -> bool {
    &&& problem.facts.names@ == facts
    &&& exists|added: Seq<(usize, Method)>| #[trigger]
        are_tasks_of(facts, actions, methods, abstract_tasks, added, *problem.tasks)
    &&& are_ids(texts(facts), initial_state, problem.initial_state@)
    &&& problem.init_tn@.tasks == seq![
        id_of(task_texts(actions, abstract_tasks), init_task@) as usize,
    ]
    &&& problem.init_tn@.before == Set::<(int, int)>::empty()
    &&& problem.rho == ONE
}

/// No outcome of the actions is more than certain.
pub open spec fn are_chances(actions: Seq<NamedAction>) -> bool {
    forall|k: int, i: int|
        0 <= k < actions.len() && 0 <= i < actions[k].3@.len() ==> #[trigger] actions[k].3@[i]
            <= ONE
}

/// Whether the names of the actions, the methods and the start are known.
fn check_names(
    facts: &Vec<String>,
    names: &Vec<String>,
    actions: &Vec<NamedAction>,
    methods: &Vec<NamedMethod>,
    abstract_tasks: &Vec<String>,
    initial_state: &Vec<String>,
    init_task: &String,
) -> (r: bool)
    requires
        texts(names@) == task_texts(actions@, abstract_tasks@),
    ensures
        r == all_names_known(
            facts@,
            actions@,
            methods@,
            abstract_tasks@,
            initial_state@,
            *init_task,
        ),
{
    let mut k: usize = 0;
    while k < actions.len()
        invariant
            k <= actions@.len(),
            forall|x: int|
                0 <= x < k ==> action_known(texts(facts@), #[trigger] actions@[x]),
        decreases actions@.len() - k,
    {
        if !is_action_known(facts, &actions[k]) {
            assert(!action_known(texts(facts@), actions@[k as int]));
            return false;
        }
        k += 1;
    }
    let mut k: usize = 0;
    while k < methods.len()
        invariant
            k <= methods@.len(),
            texts(names@) == task_texts(actions@, abstract_tasks@),
            forall|x: int|
                0 <= x < k ==> method_known(
                    texts(names@),
                    actions@.len(),
                    #[trigger] methods@[x],
                ),
        decreases methods@.len() - k,
    {
        if !is_method_known(names, actions.len(), &methods[k]) {
            assert(!method_known(texts(names@), actions@.len(), methods@[k as int]));
            return false;
        }
        k += 1;
    }
    all_known(facts, initial_state) && find(names, init_task) < names.len()
}

/// The tasks without methods.
fn bare_tasks(
    facts: &Vec<String>,
    actions: &Vec<NamedAction>,
    abstract_tasks: &Vec<String>,
) -> (tasks: Vec<Task>)
    requires
        facts@.len() <= u32::MAX,
        forall|k: int|
            0 <= k < actions@.len() ==> action_known(texts(facts@), #[trigger] actions@[k]),
    ensures
        tasks@.len() == actions@.len() + abstract_tasks@.len(),
        forall|t: int|
            0 <= t < actions@.len() ==> is_primitive_of(
                texts(facts@),
                actions@[t],
                #[trigger] tasks@[t],
            ),
        forall|t: int|
            actions@.len() <= t < tasks@.len() ==> is_compound_of(
                abstract_tasks@[t - actions@.len()],
                Seq::empty(),
                #[trigger] tasks@[t],
            ),
        are_chances(actions@) ==> forall|t: int|
            0 <= t < actions@.len() ==> crate::problem::action_wf(
                (#[trigger] tasks@[t])->Primitive_0,
                facts@.len(),
            ),
{
    let mut tasks: Vec<Task> = Vec::new();
    let mut k: usize = 0;
    while k < actions.len()
        invariant
            k <= actions@.len(),
            facts@.len() <= u32::MAX,
            forall|k: int|
                0 <= k < actions@.len() ==> action_known(texts(facts@), #[trigger] actions@[k]),
            tasks@.len() == k,
            forall|t: int|
                0 <= t < k ==> is_primitive_of(texts(facts@), actions@[t], #[trigger] tasks@[t]),
            are_chances(actions@) ==> forall|t: int|
                0 <= t < k ==> crate::problem::action_wf(
                    (#[trigger] tasks@[t])->Primitive_0,
                    facts@.len(),
                ),
        decreases actions@.len() - k,
    {
        assert(action_known(texts(facts@), actions@[k as int]));
        let action: PrimitiveAction = action_of(facts, &actions[k]);
        proof {
            if are_chances(actions@) {
                assert forall|i: int| 0 <= i < action.probabilities@.len() implies #[trigger] action
                    .probabilities@[i] <= ONE by {
                    assert(actions@[k as int].3@[i] <= ONE);
                }
            }
        }
        tasks.push(Task::Primitive(action));
        k += 1;
    }
    let mut k: usize = 0;
    while k < abstract_tasks.len()
        invariant
            k <= abstract_tasks@.len(),
            tasks@.len() == actions@.len() + k,
            forall|t: int|
                0 <= t < actions@.len() ==> is_primitive_of(
                    texts(facts@),
                    actions@[t],
                    #[trigger] tasks@[t],
                ),
            are_chances(actions@) ==> forall|t: int|
                0 <= t < actions@.len() ==> crate::problem::action_wf(
                    (#[trigger] tasks@[t])->Primitive_0,
                    facts@.len(),
                ),
            forall|t: int|
                actions@.len() <= t < tasks@.len() ==> is_compound_of(
                    abstract_tasks@[t - actions@.len()],
                    Seq::empty(),
                    #[trigger] tasks@[t],
                ),
        decreases abstract_tasks@.len() - k,
    {
        let compound: CompoundTask = CompoundTask {
            name: abstract_tasks[k].clone(),
            methods: Vec::new(),
        };
        assert(compound.methods@ =~= Seq::empty());
        tasks.push(Task::Compound(compound));
        k += 1;
    }
    tasks
}

/// The methods with the numbers of their tasks.
fn numbered_methods(
    names: &Vec<String>,
    methods: &Vec<NamedMethod>,
    domain: &Rc<DomainTasks>,
    Ghost(n_actions): Ghost<nat>,
) -> (added: Vec<(usize, Method)>)
    requires
        names@.len() == domain.n_tasks(),
        forall|k: int|
            0 <= k < methods@.len() ==> method_known(
                texts(names@),
                n_actions,
                #[trigger] methods@[k],
            ),
    ensures
        are_methods(texts(names@), methods@, added@),
        forall|k: int|
            0 <= k < added@.len() ==> n_actions <= (#[trigger] added@[k]).0 < domain.n_tasks()
                && added@[k].1.decomposition.wf() && added@[k].1.decomposition.uses(
                domain.n_tasks(),
            ),
{
    let mut added: Vec<(usize, Method)> = Vec::new();
    let mut k: usize = 0;
    while k < methods.len()
        invariant
            k <= methods@.len(),
            names@.len() == domain.n_tasks(),
            forall|k: int|
                0 <= k < methods@.len() ==> method_known(
                    texts(names@),
                    n_actions,
                    #[trigger] methods@[k],
                ),
            added@.len() == k,
            forall|x: int|
                0 <= x < k ==> (#[trigger] added@[x]).0 == id_of(texts(names@), methods@[x].1@)
                    && is_method_of(texts(names@), methods@[x], added@[x].1),
            forall|x: int|
                0 <= x < k ==> n_actions <= (#[trigger] added@[x]).0 < domain.n_tasks()
                    && added@[x].1.decomposition.wf() && added@[x].1.decomposition.uses(
                    domain.n_tasks(),
                ),
        decreases methods@.len() - k,
    {
        assert(method_known(texts(names@), n_actions, methods@[k as int]));
        let t: usize = find(names, &methods[k].1);
        let method: Method = method_of(names, &methods[k], domain);
        added.push((t, method));
        k += 1;
    }
    added
}

impl FONDProblem {
    /// The problem of the named facts, actions, methods and compound tasks, with
    /// what holds at the start and the task to be done, or nothing where a name
    /// is not known.
    pub fn new(
        facts: Vec<String>,
        actions: Vec<NamedAction>,
        methods: Vec<NamedMethod>,
        abstract_tasks: Vec<String>,
        initial_state: Vec<String>,
        init_task: String,
    ) -> (r: Option<FONDProblem>)
        requires
            facts@.len() <= u32::MAX,
        ensures
            r is Some <==> all_names_known(
                facts@,
                actions@,
                methods@,
                abstract_tasks@,
                initial_state@,
                init_task,
            ),
            r matches Some(p) ==> is_problem_of(
                facts@,
                actions@,
                methods@,
                abstract_tasks@,
                initial_state@,
                init_task,
                p,
            ),
            r is Some && are_chances(actions@) && 2 * (facts@.len() + actions@.len()
                + abstract_tasks@.len() + 2) < u32::MAX ==> r->0.wf(),
    {
        let names: Vec<String> = task_names(&actions, &abstract_tasks);
        let ghost all = task_texts(actions@, abstract_tasks@);
        assert(texts(names@).len() == all.len());
        if !check_names(
            &facts,
            &names,
            &actions,
            &methods,
            &abstract_tasks,
            &initial_state,
            &init_task,
        ) {
            return None;
        }
        let bare: Vec<Task> = bare_tasks(&facts, &actions, &abstract_tasks);
        let ghost bare0 = bare@;
        let base: Rc<DomainTasks> = Rc::new(DomainTasks::new(bare));
        let added: Vec<(usize, Method)> = numbered_methods(
            &names,
            &methods,
            &base,
            Ghost(actions@.len()),
        );
        let ghost added0 = added@;
        proof {
            assert forall|k: int| 0 <= k < added@.len() implies (#[trigger] added@[k]).0
                < base.n_tasks() && *base.tasks@[added@[k].0 as int] is Compound by {
                let t = added@[k].0 as int;
                assert(*base.tasks@[t] == bare0[t]);
            }
            assert forall|t: int| 0 <= t < base.n_tasks() implies base.task_wf(
                #[trigger] base.tasks@[t],
            ) by {
                assert(*base.tasks@[t] == bare0[t]);
            }
        }
        let tasks: Rc<DomainTasks> = base.add_methods(added);
        let state: HashSet<u32> = fact_set(&facts, &initial_state);
        let t: usize = find(&names, &init_task);
        let init_tn: HTN = HTN {
            domain: Rc::clone(&tasks),
            nodes: vec![0],
            tasks: vec![t],
            order: Vec::new(),
        };
        proof {
            let n = actions@.len() as int;
            assert forall|x: int| 0 <= x < n implies is_primitive_of(
                texts(facts@),
                actions@[x],
                *(#[trigger] tasks.tasks@[x]),
            ) by {
                assert(*base.tasks@[x] == bare0[x]);
            }
            assert forall|x: int| n <= x < tasks.n_tasks() implies is_compound_of(
                abstract_tasks@[x - n],
                crate::task_network::with_added(Seq::empty(), added0, x),
                *(#[trigger] tasks.tasks@[x]),
            ) by {
                assert(*base.tasks@[x] == bare0[x]);
            }
            assert(are_tasks_of(
                facts@,
                actions@,
                methods@,
                abstract_tasks@,
                added0,
                *tasks,
            ));
            assert(init_tn@.tasks =~= seq![id_of(all, init_task@) as usize]);
            assert(init_tn@.before =~= Set::<(int, int)>::empty());
            if are_chances(actions@) {
                assert forall|x: int|
                    0 <= x < tasks.n_tasks() && (*#[trigger] tasks.tasks@[x] is Primitive) implies
                    crate::problem::action_wf(
                    (*tasks.tasks@[x])->Primitive_0,
                    facts@.len(),
                ) by {
                    assert(*base.tasks@[x] == bare0[x]);
                }
            }
        }
        let ghost given = facts@;
        let problem: FONDProblem = FONDProblem {
            facts: Facts::new(facts),
            tasks,
            initial_state: state,
            init_tn,
            rho: ONE,
        };
        assert(problem.facts.names@ == given);
        assert(are_tasks_of(given, actions@, methods@, abstract_tasks@, added0, *problem.tasks));
        assert(are_ids(texts(given), initial_state@, problem.initial_state@));
        assert(problem.init_tn@.tasks == seq![id_of(all, init_task@) as usize]);
        assert(problem.init_tn@.before == Set::<(int, int)>::empty());
        Some(problem)
    }
}

} // verus!

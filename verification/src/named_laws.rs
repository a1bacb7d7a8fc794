//! Laws of problems that are given by names: what the names of facts, actions and
//! tasks come to mean.

use std::rc::Rc;
use vstd::prelude::*;

use crate::named::{NamedAction, NamedMethod};
use crate::probability::ONE;
use crate::problem::FONDProblem;
use crate::task_network::{Method, Task};

verus! {

/// The position is that of the first one.
proof fn lemma_id_is_first(names: Seq<Seq<char>>, name: Seq<char>)
    ensures
        crate::named::id_of(names, name) <= names.len(),
        crate::named::id_of(names, name) < names.len()
            ==> names[crate::named::id_of(names, name) as int] == name,
        forall|j: int|
            0 <= j < crate::named::id_of(names, name) ==> #[trigger] names[j] != name,
    decreases names.len(),
{
    if names.len() > 0 {
        let rest = names.drop_last();
        lemma_id_is_first(rest, name);
        assert forall|j: int| 0 <= j < crate::named::id_of(names, name) implies #[trigger] names[j]
            != name by {
            if j < rest.len() {
                assert(rest[j] == names[j]);
            }
        }
    }
}

/// A name means the first position at which it stands.
pub proof fn law_names_mean_their_first_position(names: Seq<String>, name: Seq<char>, k: int)
    requires
        0 <= k < names.len(),
        names[k]@ == name,
        forall|j: int| 0 <= j < k ==> (#[trigger] names[j])@ != name,
    ensures
        crate::named::id_of(crate::named::texts(names), name) == k,
        crate::named::knows(crate::named::texts(names), name),
{
    let texts = crate::named::texts(names);
    lemma_id_is_first(texts, name);
    let id = crate::named::id_of(texts, name) as int;
    assert(texts[k] == name);
    if id < k {
        assert(texts[id] == name);
        assert(names[id]@ != name);
    }
}

/// A name that stands nowhere is not known.
pub proof fn law_names_that_stand_nowhere_are_unknown(names: Seq<String>, name: Seq<char>)
    requires
        forall|j: int| 0 <= j < names.len() ==> (#[trigger] names[j])@ != name,
    ensures
        !crate::named::knows(crate::named::texts(names), name),
{
    let texts = crate::named::texts(names);
    lemma_id_is_first(texts, name);
    let id = crate::named::id_of(texts, name) as int;
    if id < texts.len() {
        assert(texts[id] == names[id]@);
        assert(names[id]@ != name);
    }
}

/// The facts that a list of names means are those at which one of the names stands
/// for the first time.
pub proof fn law_listed_facts(facts: Seq<String>, list: Seq<String>, ids: Set<u32>, f: u32)
    requires
        crate::named::knows_all(crate::named::texts(facts), list),
        crate::named::are_ids(crate::named::texts(facts), list, ids),
    ensures
        ids.contains(f) <==> f < facts.len() && (exists|k: int|
            0 <= k < list.len() && (#[trigger] list[k])@ == facts[f as int]@) && (forall|j: int|
            0 <= j < f ==> (#[trigger] facts[j])@ != facts[f as int]@),
{
    let texts = crate::named::texts(facts);
    if ids.contains(f) {
        assert(crate::named::is_id_in(texts, list, f));
        let k = choose|k: int|
            0 <= k < list.len() && f == crate::named::id_of(texts, (#[trigger] list[k])@);
        assert(crate::named::knows(texts, list[k]@));
        lemma_id_is_first(texts, list[k]@);
        assert(texts[f as int] == facts[f as int]@);
        assert forall|j: int| 0 <= j < f implies (#[trigger] facts[j])@ != facts[f as int]@ by {
            assert(texts[j] == facts[j]@);
        }
    }
    if f < facts.len() && (exists|k: int|
        0 <= k < list.len() && (#[trigger] list[k])@ == facts[f as int]@) && (forall|j: int|
        0 <= j < f ==> (#[trigger] facts[j])@ != facts[f as int]@) {
        let k = choose|k: int| 0 <= k < list.len() && (#[trigger] list[k])@ == facts[f as int]@;
        law_names_mean_their_first_position(facts, list[k]@, f as int);
        assert(crate::named::is_id_in(texts, list, f));
    }
}

/// The first tasks of the problem are the named actions: each has its name, costs
/// one, needs, adds and deletes the facts that are named, and has the given
/// probabilities.
pub proof fn law_actions_are_the_named_ones(
    facts: Seq<String>,
    actions: Seq<NamedAction>,
    methods: Seq<NamedMethod>,
    abstract_tasks: Seq<String>,
    initial_state: Seq<String>,
    init_task: String,
    p: FONDProblem,
    t: int,
    k: int,
    f: u32,
)
    requires
        crate::named::all_names_known(
            facts,
            actions,
            methods,
            abstract_tasks,
            initial_state,
            init_task,
        ),
        crate::named::is_problem_of(
            facts,
            actions,
            methods,
            abstract_tasks,
            initial_state,
            init_task,
            p,
        ),
        0 <= t < actions.len(),
    ensures
        p.tasks.tasks@.len() == actions.len() + abstract_tasks.len(),
        *p.tasks.tasks@[t] is Primitive,
        ({
            let action = (*p.tasks.tasks@[t])->Primitive_0;
            let given = actions[t];
            let first = f < facts.len() && forall|j: int|
                0 <= j < f ==> (#[trigger] facts[j])@ != facts[f as int]@;
            &&& action.name@ == given.0@
            &&& action.cost == 1
            &&& action.probabilities@ == given.3@
            &&& action.add_effects@.len() == given.2@.len()
            &&& action.del_effects@.len() == given.2@.len()
            &&& action.pre_cond@.contains(f) <==> first && exists|x: int|
                0 <= x < given.1@.len() && (#[trigger] given.1@[x])@ == facts[f as int]@
            &&& 0 <= k < given.2@.len() ==> (action.add_effects@[k]@.contains(f) <==> first
                && exists|x: int|
                0 <= x < given.2@[k].0@.len() && (#[trigger] given.2@[k].0@[x])@
                    == facts[f as int]@)
            &&& 0 <= k < given.2@.len() ==> (action.del_effects@[k]@.contains(f) <==> first
                && exists|x: int|
                0 <= x < given.2@[k].1@.len() && (#[trigger] given.2@[k].1@[x])@
                    == facts[f as int]@)
        }),
{
    let added = choose|added: Seq<(usize, Method)>| #[trigger]
        crate::named::are_tasks_of(facts, actions, methods, abstract_tasks, added, *p.tasks);
    let texts = crate::named::texts(facts);
    assert(crate::named::is_primitive_of(texts, actions[t], *p.tasks.tasks@[t]));
    assert(crate::named::action_known(texts, actions[t]));
    let given = actions[t];
    lemma_action_facts(facts, given, p, t, k, f);
}

/// The facts of a named action.
proof fn lemma_action_facts(
    facts: Seq<String>,
    given: NamedAction,
    p: FONDProblem,
    t: int,
    k: int,
    f: u32,
)
    requires
        crate::named::is_primitive_of(crate::named::texts(facts), given, *p.tasks.tasks@[t]),
        crate::named::action_known(crate::named::texts(facts), given),
    ensures
        ({
            let action = (*p.tasks.tasks@[t])->Primitive_0;
            let first = f < facts.len() && forall|j: int|
                0 <= j < f ==> (#[trigger] facts[j])@ != facts[f as int]@;
            &&& action.pre_cond@.contains(f) <==> first && exists|x: int|
                0 <= x < given.1@.len() && (#[trigger] given.1@[x])@ == facts[f as int]@
            &&& 0 <= k < given.2@.len() ==> (action.add_effects@[k]@.contains(f) <==> first
                && exists|x: int|
                0 <= x < given.2@[k].0@.len() && (#[trigger] given.2@[k].0@[x])@
                    == facts[f as int]@)
            &&& 0 <= k < given.2@.len() ==> (action.del_effects@[k]@.contains(f) <==> first
                && exists|x: int|
                0 <= x < given.2@[k].1@.len() && (#[trigger] given.2@[k].1@[x])@
                    == facts[f as int]@)
        }),
{
    law_listed_facts(facts, given.1@, needs_of(p, t), f);
    if 0 <= k < given.2@.len() {
        assert(crate::named::knows_all(crate::named::texts(facts), given.2@[k].0@));
        law_listed_facts(facts, given.2@[k].0@, adds_of(p, t, k), f);
        law_listed_facts(facts, given.2@[k].1@, deletes_of(p, t, k), f);
    }
}

spec fn needs_of(p: FONDProblem, t: int) -> Set<u32> {
    (*p.tasks.tasks@[t])->Primitive_0.pre_cond@
}

spec fn adds_of(p: FONDProblem, t: int, k: int) -> Set<u32> {
    (*p.tasks.tasks@[t])->Primitive_0.add_effects@[k]@
}

spec fn deletes_of(p: FONDProblem, t: int, k: int) -> Set<u32> {
    (*p.tasks.tasks@[t])->Primitive_0.del_effects@[k]@
}

/// The problem starts with the named facts and the named task, and asks for certain
/// success. A task name means the first action of the name or, behind all actions,
/// the first compound task of the name.
pub proof fn law_problem_starts_as_named(
    facts: Seq<String>,
    actions: Seq<NamedAction>,
    methods: Seq<NamedMethod>,
    abstract_tasks: Seq<String>,
    initial_state: Seq<String>,
    init_task: String,
    p: FONDProblem,
    f: u32,
)
    requires
        crate::named::all_names_known(
            facts,
            actions,
            methods,
            abstract_tasks,
            initial_state,
            init_task,
        ),
        crate::named::is_problem_of(
            facts,
            actions,
            methods,
            abstract_tasks,
            initial_state,
            init_task,
            p,
        ),
        actions.len() + abstract_tasks.len() <= usize::MAX,
    ensures
        p.facts.names@ == facts,
        p.rho == ONE,
        p.initial_state@.contains(f) <==> f < facts.len() && (exists|k: int|
            0 <= k < initial_state.len() && (#[trigger] initial_state[k])@ == facts[f as int]@) && (
        forall|j: int| 0 <= j < f ==> (#[trigger] facts[j])@ != facts[f as int]@),
        p.init_tn.tasks@.len() == 1,
        p.init_tn.order@.len() == 0,
        means_task(actions, abstract_tasks, init_task@, p.init_tn.tasks@[0] as int),
{
    law_listed_facts(facts, initial_state, p.initial_state@, f);
    let tasks = crate::named::task_texts(actions, abstract_tasks);
    lemma_task_id(actions, abstract_tasks, init_task@);
    assert(p.init_tn@.tasks[0] == p.init_tn.tasks@[0]);
    if p.init_tn.order@.len() > 0 {
        let e = p.init_tn.order@[0];
        assert(p.init_tn@.before.contains((e.0 as int, e.1 as int)));
    }
}

/// The task `t` is the first one of the name: an action that no earlier one shares
/// the name with, or a compound task whose name no action and no earlier compound
/// task has.
pub open spec fn means_task(
    actions: Seq<NamedAction>,
    abstract_tasks: Seq<String>,
    name: Seq<char>,
    t: int,
) -> bool {
    let n = actions.len() as int;
    &&& 0 <= t < n + abstract_tasks.len()
    &&& t < n ==> actions[t].0@ == name
    &&& t >= n ==> abstract_tasks[t - n]@ == name
    &&& forall|j: int| 0 <= j < t && j < n ==> (#[trigger] actions[j]).0@ != name
    &&& forall|j: int| 0 <= j < t - n ==> (#[trigger] abstract_tasks[j])@ != name
}

/// A known task name means one task.
pub proof fn law_task_names_mean_one_task(
    actions: Seq<NamedAction>,
    abstract_tasks: Seq<String>,
    name: Seq<char>,
    t: int,
    u: int,
)
    requires
        means_task(actions, abstract_tasks, name, t),
        means_task(actions, abstract_tasks, name, u),
    ensures
        t == u,
        t < actions.len() ==> actions[t].0@ == name,
        t >= actions.len() ==> abstract_tasks[t - actions.len()]@ == name,
{
    let n = actions.len() as int;
    if t < u {
        if t < n {
            assert(actions[t].0@ != name);
        } else {
            assert(abstract_tasks[t - n]@ != name);
        }
    } else if u < t {
        if u < n {
            assert(actions[u].0@ != name);
        } else {
            assert(abstract_tasks[u - n]@ != name);
        }
    }
}

/// The number of a known task is the one that its name means.
proof fn lemma_task_id(actions: Seq<NamedAction>, abstract_tasks: Seq<String>, name: Seq<char>)
    requires
        crate::named::knows(crate::named::task_texts(actions, abstract_tasks), name),
    ensures
        means_task(
            actions,
            abstract_tasks,
            name,
            crate::named::id_of(
                crate::named::task_texts(actions, abstract_tasks),
                name,
            ) as int,
        ),
{
    let tasks = crate::named::task_texts(actions, abstract_tasks);
    let n = actions.len() as int;
    lemma_id_is_first(tasks, name);
    let t = crate::named::id_of(tasks, name) as int;
    if t < n {
        assert(tasks[t] == actions[t].0@);
    } else {
        assert(tasks[t] == abstract_tasks[t - n]@);
    }
    assert forall|j: int| 0 <= j < t && j < n implies (#[trigger] actions[j]).0@ != name by {
        assert(tasks[j] == actions[j].0@);
    }
    assert forall|j: int| 0 <= j < t - n implies (#[trigger] abstract_tasks[j])@ != name by {
        assert(tasks[j + n] == abstract_tasks[j]@);
    }
}

/// Methods that are added to a task come behind those that it has, in their order: those
/// that are for the task, given by `which`.
pub proof fn law_added_methods_come_last(
    methods: Seq<Rc<Method>>,
    added: Seq<(usize, Method)>,
    t: int,
) -> (which: Seq<int>)
    ensures
        crate::task_network::with_added(methods, added, t).len() == methods.len() + which.len(),
        forall|x: int|
            0 <= x < methods.len() ==> #[trigger] crate::task_network::with_added(
                methods,
                added,
                t,
            )[x] == methods[x],
        forall|x: int|
            0 <= x < which.len() ==> 0 <= #[trigger] which[x] < added.len() && added[which[x]].0
                == t && *crate::task_network::with_added(methods, added, t)[methods.len() + x]
                == added[which[x]].1,
        forall|x: int, y: int|
            0 <= x < y < which.len() ==> #[trigger] which[x] < #[trigger] which[y],
        forall|m: int|
            0 <= m < added.len() && (#[trigger] added[m]).0 == t ==> which.contains(m),
    decreases added.len(),
{
    let all = crate::task_network::with_added(methods, added, t);
    if added.len() == 0 {
        Seq::empty()
    } else {
        let rest = added.drop_last();
        let before = crate::task_network::with_added(methods, rest, t);
        let less = law_added_methods_come_last(methods, rest, t);
        let n = rest.len() as int;
        assert forall|x: int| 0 <= x < methods.len() implies #[trigger] all[x] == methods[x] by {
            assert(before[x] == methods[x]);
        }
        if added.last().0 == t {
            let which = less.push(n);
            assert forall|x: int| 0 <= x < which.len() implies 0 <= #[trigger] which[x]
                < added.len() && added[which[x]].0 == t && *all[methods.len() + x]
                == added[which[x]].1 by {
                if x < less.len() {
                    assert(which[x] == less[x]);
                    assert(rest[less[x]] == added[less[x]]);
                    assert(all[methods.len() + x] == before[methods.len() + x]);
                }
            }
            assert forall|x: int, y: int| 0 <= x < y < which.len() implies #[trigger] which[x]
                < #[trigger] which[y] by {
                assert(which[x] == less[x]);
                if y < less.len() {
                    assert(which[y] == less[y]);
                } else {
                    assert(0 <= less[x] < rest.len());
                }
            }
            assert forall|m: int| 0 <= m < added.len() && (#[trigger] added[m]).0
                == t implies which.contains(m) by {
                if m < n {
                    assert(rest[m] == added[m]);
                    let x = choose|x: int| 0 <= x < less.len() && less[x] == m;
                    assert(which[x] == m);
                } else {
                    assert(which[less.len() as int] == n);
                }
            }
            which
        } else {
            assert forall|x: int| 0 <= x < less.len() implies 0 <= #[trigger] less[x]
                < added.len() && added[less[x]].0 == t && *all[methods.len() + x]
                == added[less[x]].1 by {
                assert(rest[less[x]] == added[less[x]]);
            }
            assert forall|m: int| 0 <= m < added.len() && (#[trigger] added[m]).0
                == t implies less.contains(m) by {
                assert(rest[m] == added[m]);
            }
            less
        }
    }
}

/// A task with methods added has the same name and those methods, and an action stays
/// as it is.
pub proof fn law_added_methods_change_nothing_else(
    before: Task,
    after: Task,
    added: Seq<(usize, Method)>,
    t: int,
)
    requires
        crate::task_network::is_extended(before, after, added, t),
    ensures
        before is Primitive ==> after == before,
        before is Compound ==> after is Compound && after->Compound_0.name@
            == before->Compound_0.name@ && after->Compound_0.methods@
            == crate::task_network::with_added(before->Compound_0.methods@, added, t),
{
}

/// Behind the actions come the named compound tasks. Each has its name and, in their
/// order, the named methods that are for it, given by `which`: with the name, the
/// tasks and the order that the method is given with.
pub proof fn law_compound_tasks_have_the_named_methods(
    facts: Seq<String>,
    actions: Seq<NamedAction>,
    methods: Seq<NamedMethod>,
    abstract_tasks: Seq<String>,
    initial_state: Seq<String>,
    init_task: String,
    p: FONDProblem,
    t: int,
) -> (which: Seq<int>)
    requires
        crate::named::all_names_known(
            facts,
            actions,
            methods,
            abstract_tasks,
            initial_state,
            init_task,
        ),
        crate::named::is_problem_of(
            facts,
            actions,
            methods,
            abstract_tasks,
            initial_state,
            init_task,
            p,
        ),
        actions.len() <= t < actions.len() + abstract_tasks.len(),
        t <= usize::MAX,
    ensures
        p.tasks.tasks@.len() == actions.len() + abstract_tasks.len(),
        *p.tasks.tasks@[t] is Compound,
        (*p.tasks.tasks@[t])->Compound_0.name@ == abstract_tasks[t - actions.len()]@,
        (*p.tasks.tasks@[t])->Compound_0.methods@.len() == which.len(),
        forall|x: int, y: int|
            0 <= x < y < which.len() ==> #[trigger] which[x] < #[trigger] which[y],
        forall|m: int|
            0 <= m < methods.len() ==> (#[trigger] which.contains(m) <==> means_task(
                actions,
                abstract_tasks,
                methods[m].1@,
                t,
            )),
        forall|x: int|
            0 <= x < which.len() ==> 0 <= #[trigger] which[x] < methods.len()
                && is_named_method(
                actions,
                abstract_tasks,
                methods[which[x]],
                *(*p.tasks.tasks@[t])->Compound_0.methods@[x],
            ),
{
    let n = actions.len() as int;
    let tasks = crate::named::task_texts(actions, abstract_tasks);
    let added = choose|added: Seq<(usize, Method)>| #[trigger]
        crate::named::are_tasks_of(facts, actions, methods, abstract_tasks, added, *p.tasks);
    assert(crate::named::is_compound_of(
        abstract_tasks[t - n],
        crate::task_network::with_added(Seq::empty(), added, t),
        *p.tasks.tasks@[t],
    ));
    let which = law_added_methods_come_last(Seq::<Rc<Method>>::empty(), added, t);
    assert forall|m: int| 0 <= m < methods.len() implies (#[trigger] which.contains(m)
        <==> means_task(actions, abstract_tasks, methods[m].1@, t)) by {
        assert(crate::named::method_known(tasks, actions.len(), methods[m]));
        assert(added[m].0 == crate::named::id_of(tasks, methods[m].1@));
        lemma_task_id(actions, abstract_tasks, methods[m].1@);
        if which.contains(m) {
            let x = choose|x: int| 0 <= x < which.len() && which[x] == m;
            assert(added[which[x]].0 == t);
        }
        if means_task(actions, abstract_tasks, methods[m].1@, t) {
            law_task_names_mean_one_task(
                actions,
                abstract_tasks,
                methods[m].1@,
                t,
                crate::named::id_of(tasks, methods[m].1@) as int,
            );
        }
    }
    assert forall|x: int| 0 <= x < which.len() implies 0 <= #[trigger] which[x] < methods.len()
        && is_named_method(
        actions,
        abstract_tasks,
        methods[which[x]],
        *(*p.tasks.tasks@[t])->Compound_0.methods@[x],
    ) by {
        let m = which[x];
        assert(crate::named::is_method_of(tasks, methods[m], added[m].1));
        assert(crate::named::method_known(tasks, actions.len(), methods[m]));
        lemma_named_method(actions, abstract_tasks, methods[m], added[m].1);
    }
    which
}

/// The method has the name, the tasks and the order that it is given with.
pub open spec fn is_named_method(
    actions: Seq<NamedAction>,
    abstract_tasks: Seq<String>,
    m: NamedMethod,
    method: Method,
) -> bool {
    &&& method.name@ == m.0@
    &&& method.decomposition.tasks@.len() == m.2@.len()
    &&& forall|k: int|
        0 <= k < m.2@.len() && actions.len() + abstract_tasks.len() <= usize::MAX ==> means_task(
            actions,
            abstract_tasks,
            m.2@[k]@,
            #[trigger] method.decomposition.tasks@[k] as int,
        )
    &&& forall|a: int, b: int| #[trigger]
        method.decomposition@.before.contains((a, b)) <==> exists|k: int|
            0 <= k < m.3@.len() && (#[trigger] m.3@[k]).0 == a && m.3@[k].1 == b
}

proof fn lemma_named_method(
    actions: Seq<NamedAction>,
    abstract_tasks: Seq<String>,
    m: NamedMethod,
    method: Method,
)
    requires
        crate::named::is_method_of(
            crate::named::task_texts(actions, abstract_tasks),
            m,
            method,
        ),
        crate::named::method_known(
            crate::named::task_texts(actions, abstract_tasks),
            actions.len(),
            m,
        ),
    ensures
        is_named_method(actions, abstract_tasks, m, method),
{
    let tasks = crate::named::task_texts(actions, abstract_tasks);
    let net = method.decomposition@;
    assert forall|k: int|
        0 <= k < m.2@.len() && actions.len() + abstract_tasks.len()
            <= usize::MAX implies means_task(
        actions,
        abstract_tasks,
        m.2@[k]@,
        #[trigger] method.decomposition.tasks@[k] as int,
    ) by {
        assert(net.tasks[k] == crate::named::id_of(tasks, m.2@[k]@));
        assert(crate::named::knows(tasks, m.2@[k]@));
        lemma_task_id(actions, abstract_tasks, m.2@[k]@);
    }
}

/// The name is one of the listed ones.
pub open spec fn stands_in(names: Seq<String>, name: Seq<char>) -> bool {
    exists|j: int| 0 <= j < names.len() && (#[trigger] names[j])@ == name
}

/// The name is one of an action or of a compound task.
pub open spec fn is_task_name(
    actions: Seq<NamedAction>,
    abstract_tasks: Seq<String>,
    name: Seq<char>,
) -> bool {
    (exists|j: int| 0 <= j < actions.len() && (#[trigger] actions[j]).0@ == name) || stands_in(
        abstract_tasks,
        name,
    )
}

/// A name is known where it stands.
proof fn lemma_known_stands(names: Seq<String>, name: Seq<char>)
    ensures
        crate::named::knows(crate::named::texts(names), name) <==> stands_in(names, name),
{
    let texts = crate::named::texts(names);
    lemma_id_is_first(texts, name);
    let id = crate::named::id_of(texts, name) as int;
    if id < texts.len() {
        assert(texts[id] == names[id]@);
    }
    if stands_in(names, name) {
        let j = choose|j: int| 0 <= j < names.len() && (#[trigger] names[j])@ == name;
        assert(texts[j] == name);
    }
}

/// A task name is known where it is one.
proof fn lemma_known_task(actions: Seq<NamedAction>, abstract_tasks: Seq<String>, name: Seq<char>)
    ensures
        crate::named::knows(crate::named::task_texts(actions, abstract_tasks), name)
            <==> is_task_name(actions, abstract_tasks, name),
        crate::named::id_of(crate::named::task_texts(actions, abstract_tasks), name)
            >= actions.len() <==> !exists|j: int|
            0 <= j < actions.len() && (#[trigger] actions[j]).0@ == name,
{
    let tasks = crate::named::task_texts(actions, abstract_tasks);
    let n = actions.len() as int;
    lemma_id_is_first(tasks, name);
    let id = crate::named::id_of(tasks, name) as int;
    if id < n {
        assert(tasks[id] == actions[id].0@);
    } else if id < tasks.len() {
        assert(tasks[id] == abstract_tasks[id - n]@);
    }
    if exists|j: int| 0 <= j < actions.len() && (#[trigger] actions[j]).0@ == name {
        let j = choose|j: int| 0 <= j < actions.len() && (#[trigger] actions[j]).0@ == name;
        assert(tasks[j] == name);
    }
    if stands_in(abstract_tasks, name) {
        let j = choose|j: int|
            0 <= j < abstract_tasks.len() && (#[trigger] abstract_tasks[j])@ == name;
        assert(tasks[j + n] == name);
    }
}

/// The names of the parts of an action are known exactly where they stand among the
/// facts.
pub proof fn law_action_names_are_facts(facts: Seq<String>, a: NamedAction)
    ensures
        crate::named::action_known(crate::named::texts(facts), a) <==> {
            &&& forall|x: int| 0 <= x < a.1@.len() ==> stands_in(facts, (#[trigger] a.1@[x])@)
            &&& forall|k: int, x: int|
                0 <= k < a.2@.len() && 0 <= x < a.2@[k].0@.len() ==> stands_in(
                    facts,
                    (#[trigger] a.2@[k].0@[x])@,
                )
            &&& forall|k: int, x: int|
                0 <= k < a.2@.len() && 0 <= x < a.2@[k].1@.len() ==> stands_in(
                    facts,
                    (#[trigger] a.2@[k].1@[x])@,
                )
        },
{
    assert forall|name: Seq<char>|
        crate::named::knows(crate::named::texts(facts), name) <==> #[trigger] stands_in(
            facts,
            name,
        ) by {
        lemma_known_stands(facts, name);
    }
    let texts = crate::named::texts(facts);
    if crate::named::action_known(texts, a) {
        assert forall|x: int| 0 <= x < a.1@.len() implies stands_in(
            facts,
            (#[trigger] a.1@[x])@,
        ) by {
            assert(crate::named::knows(texts, a.1@[x]@));
        }
        assert forall|k: int, x: int|
            0 <= k < a.2@.len() && 0 <= x < a.2@[k].0@.len() implies stands_in(
            facts,
            (#[trigger] a.2@[k].0@[x])@,
        ) by {
            assert(crate::named::knows_all(texts, a.2@[k].0@));
            assert(crate::named::knows(texts, a.2@[k].0@[x]@));
        }
        assert forall|k: int, x: int|
            0 <= k < a.2@.len() && 0 <= x < a.2@[k].1@.len() implies stands_in(
            facts,
            (#[trigger] a.2@[k].1@[x])@,
        ) by {
            assert(crate::named::knows_all(texts, a.2@[k].1@));
            assert(crate::named::knows(texts, a.2@[k].1@[x]@));
        }
    }
}

/// The names of the parts of a method are known exactly where its task is a compound
/// one that no action shares the name with, the tasks that it leads to are tasks,
/// and its order is one of positions that it has.
pub proof fn law_method_names_are_tasks(
    actions: Seq<NamedAction>,
    abstract_tasks: Seq<String>,
    m: NamedMethod,
)
    ensures
        crate::named::method_known(
            crate::named::task_texts(actions, abstract_tasks),
            actions.len(),
            m,
        ) <==> {
            &&& stands_in(abstract_tasks, m.1@)
            &&& !exists|j: int| 0 <= j < actions.len() && (#[trigger] actions[j]).0@ == m.1@
            &&& forall|x: int|
                0 <= x < m.2@.len() ==> is_task_name(
                    actions,
                    abstract_tasks,
                    (#[trigger] m.2@[x])@,
                )
            &&& forall|k: int|
                0 <= k < m.3@.len() ==> (#[trigger] m.3@[k]).0 < m.2@.len() && m.3@[k].1
                    < m.2@.len()
        },
{
    let tasks = crate::named::task_texts(actions, abstract_tasks);
    lemma_known_task(actions, abstract_tasks, m.1@);
    assert forall|x: int| 0 <= x < m.2@.len() implies (crate::named::knows(
        tasks,
        (#[trigger] m.2@[x])@,
    ) <==> is_task_name(actions, abstract_tasks, m.2@[x]@)) by {
        lemma_known_task(actions, abstract_tasks, m.2@[x]@);
    }
    if crate::named::knows_all(tasks, m.2@) {
        assert forall|x: int| 0 <= x < m.2@.len() implies is_task_name(
            actions,
            abstract_tasks,
            (#[trigger] m.2@[x])@,
        ) by {
            assert(crate::named::knows(tasks, m.2@[x]@));
        }
    }
}

/// A problem is given exactly where all names are known: those of each action and each
/// method, the initial facts among the facts, and the initial task among the
/// tasks.
pub proof fn law_problem_needs_all_names(
    facts: Seq<String>,
    actions: Seq<NamedAction>,
    methods: Seq<NamedMethod>,
    abstract_tasks: Seq<String>,
    initial_state: Seq<String>,
    init_task: String,
)
    ensures
        crate::named::all_names_known(
            facts,
            actions,
            methods,
            abstract_tasks,
            initial_state,
            init_task,
        ) <==> {
            &&& forall|k: int|
                0 <= k < actions.len() ==> crate::named::action_known(
                    crate::named::texts(facts),
                    #[trigger] actions[k],
                )
            &&& forall|k: int|
                0 <= k < methods.len() ==> crate::named::method_known(
                    crate::named::task_texts(actions, abstract_tasks),
                    actions.len(),
                    #[trigger] methods[k],
                )
            &&& forall|x: int|
                0 <= x < initial_state.len() ==> stands_in(facts, (#[trigger] initial_state[x])@)
            &&& is_task_name(actions, abstract_tasks, init_task@)
        },
{
    let texts = crate::named::texts(facts);
    lemma_known_task(actions, abstract_tasks, init_task@);
    assert forall|x: int| 0 <= x < initial_state.len() implies (crate::named::knows(
        texts,
        (#[trigger] initial_state[x])@,
    ) <==> stands_in(facts, initial_state[x]@)) by {
        lemma_known_stands(facts, initial_state[x]@);
    }
    if crate::named::knows_all(texts, initial_state) {
        assert forall|x: int| 0 <= x < initial_state.len() implies stands_in(
            facts,
            (#[trigger] initial_state[x])@,
        ) by {
            assert(crate::named::knows(texts, initial_state[x]@));
        }
    }
}

} // verus!

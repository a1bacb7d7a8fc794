//! Laws of single steps: what an action changes, what a method changes, and
//! which steps are possible.

use vstd::prelude::*;

use crate::domain::PrimitiveAction;
use crate::progress::{ConnectionLabel, Expansion};
use crate::task_network::{CompoundTask, DomainTasks, Network, Task, HTN};

verus! {

/// A network says which task each node has and which node is listed as coming
/// before which, and nothing else.
pub proof fn law_network_says_what_is_listed(tn: HTN, a: int, b: int)
    ensures
        tn@.tasks == tn.tasks@,
        tn@.before.contains((a, b)) <==> exists|k: int|
            0 <= k < tn.order@.len() && (#[trigger] tn.order@[k]).0 == a && tn.order@[k].1 == b,
{
}

/// Where the node at `i` is taken out, each other node keeps its task and what it
/// comes before. The nodes behind the one that goes move up by one.
pub proof fn law_others_stay_when_a_node_goes(net: Network, i: int, u: int, v: int)
    requires
        0 <= i < net.tasks.len(),
        0 <= u < net.tasks.len(),
        0 <= v < net.tasks.len(),
        u != i,
        v != i,
    ensures
        ({
            let x = if u < i {
                u
            } else {
                u - 1
            };
            let y = if v < i {
                v
            } else {
                v - 1
            };
            &&& net.without(i).tasks.len() == net.tasks.len() - 1
            &&& net.without(i).tasks[x] == net.tasks[u]
            &&& net.without(i).before.contains((x, y)) <==> net.before.contains((u, v))
        }),
{
}

/// What is left when a node goes comes before nothing but what is left.
pub proof fn law_nothing_new_when_a_node_goes(net: Network, i: int, x: int, y: int)
    requires
        0 <= i < net.tasks.len(),
        net.without(i).before.contains((x, y)),
    ensures
        0 <= x < net.tasks.len() - 1,
        0 <= y < net.tasks.len() - 1,
{
}

/// Where the node at `i` is decomposed, the other nodes keep their tasks and
/// their order, and the new nodes stand last, with the tasks and the order of
/// the method. What came before the node comes before every new one, and what
/// came after it after every new one. A method without nodes leaves the order
/// that went through the node.
pub proof fn law_new_nodes_take_the_place(
    net: Network,
    i: int,
    sub: Network,
    u: int,
    v: int,
    s: int,
    t: int,
)
    requires
        0 <= i < net.tasks.len(),
        0 <= u < net.tasks.len(),
        0 <= v < net.tasks.len(),
        u != i,
        v != i,
    ensures
        ({
            let r = net.decomposed(i, sub);
            let kept = net.tasks.len() - 1;
            let x = if u < i {
                u
            } else {
                u - 1
            };
            let y = if v < i {
                v
            } else {
                v - 1
            };
            &&& r.tasks.len() == kept + sub.tasks.len()
            &&& r.tasks[x] == net.tasks[u]
            &&& r.before.contains((x, y)) <==> net.before.contains((u, v)) || (sub.tasks.len() == 0
                && net.before.contains((u, i)) && net.before.contains((i, v)))
            &&& 0 <= s < sub.tasks.len() ==> {
                &&& r.tasks[kept + s] == sub.tasks[s]
                &&& r.before.contains((x, kept + s)) <==> net.before.contains((u, i))
                &&& r.before.contains((kept + s, x)) <==> net.before.contains((i, u))
            }
            &&& 0 <= s < sub.tasks.len() && 0 <= t < sub.tasks.len() ==> (r.before.contains(
                (kept + s, kept + t),
            ) <==> sub.before.contains((s, t)))
        }),
{
}

/// A network of one node is what the method says where the node is decomposed.
pub proof fn law_single_task_becomes_its_method(net: Network, sub: Network, s: int, t: int)
    requires
        net.tasks.len() == 1,
        0 <= s < sub.tasks.len(),
        0 <= t < sub.tasks.len(),
    ensures
        net.decomposed(0, sub).tasks == sub.tasks,
        net.decomposed(0, sub).before.contains((s, t)) <==> sub.before.contains((s, t)),
{
    assert(net.decomposed(0, sub).tasks =~= sub.tasks);
}

/// After an outcome, a fact holds exactly where the outcome adds it, or it held
/// before and the outcome does not delete it.
pub proof fn law_facts_after_an_outcome(
    facts: Set<u32>,
    action: PrimitiveAction,
    k: int,
    f: u32,
)
    ensures
        crate::progress::outcome(facts, action, k).contains(f) <==> action.add_effects@[k]@.contains(
            f,
        ) || (facts.contains(f) && !action.del_effects@[k]@.contains(f)),
{
}

/// The step that executes an action has a state for each outcome. In the state
/// after the outcome `k` a fact holds exactly where the outcome adds it, or it
/// held before and the outcome does not delete it.
pub proof fn law_execution_changes_what_the_outcomes_say(
    tn: HTN,
    facts: Set<u32>,
    i: int,
    action: PrimitiveAction,
    e: Expansion,
    k: int,
    f: u32,
)
    requires
        e.executes(*tn.domain, tn@, facts, i),
        *tn.domain.tasks@[tn.tasks@[i] as int] == Task::Primitive(action),
        0 <= k < action.add_effects@.len(),
    ensures
        e.states@.len() == action.add_effects@.len(),
        e.states@[k]@.contains(f) <==> action.add_effects@[k]@.contains(f) || (facts.contains(f)
            && !action.del_effects@[k]@.contains(f)),
        e.outcome_probabilities@ == action.probabilities@,
        e.connection_label matches ConnectionLabel::Execution(name) && name@ == action.name@,
{
    assert(e.states@[k]@ == crate::progress::outcome(
        facts,
        crate::progress::action_at(*tn.domain, tn@, i),
        k,
    ));
}

/// The step that decomposes a node changes no fact, is certain, and names the
/// task and the method.
pub proof fn law_decomposition_changes_no_fact(
    tn: HTN,
    facts: Set<u32>,
    d: (int, int),
    compound: CompoundTask,
    e: Expansion,
    f: u32,
)
    requires
        e.decomposes(*tn.domain, tn@, facts, d),
        *tn.domain.tasks@[tn.tasks@[d.0] as int] == Task::Compound(compound),
    ensures
        e.states@.len() == 1,
        e.states@[0]@.contains(f) <==> facts.contains(f),
        e.outcome_probabilities@ == seq![1_000_000_000_000_000_000u64],
        e.connection_label matches ConnectionLabel::Decomposition(task, method) && task@
            == compound.name@ && method@ == compound.methods@[d.1].name@,
{
}

/// The actions that can be executed are listed in the order of their nodes, each
/// once, and none is left out: those that no node comes before and whose
/// precondition holds.
pub proof fn law_executions_are_all(tasks: DomainTasks, net: Network, facts: Set<u32>, n: nat)
    requires
        n <= net.tasks.len(),
    ensures
        forall|x: int, y: int|
            0 <= x < y < crate::progress::executions(tasks, net, facts, n).len()
                ==> crate::progress::executions(tasks, net, facts, n)[x]
                < crate::progress::executions(tasks, net, facts, n)[y],
        forall|i: int| #[trigger]
            crate::progress::executions(tasks, net, facts, n).contains(i) <==> {
                &&& 0 <= i < n
                &&& forall|j: int| !#[trigger] net.before.contains((j, i))
                &&& *tasks.tasks@[net.tasks[i] as int] matches Task::Primitive(action) && forall|
                    f: u32,
                | #[trigger]
                    action.pre_cond@.contains(f) ==> facts.contains(f)
            },
    decreases n,
{
    let all = crate::progress::executions(tasks, net, facts, n);
    if n > 0 {
        let rest = crate::progress::executions(tasks, net, facts, (n - 1) as nat);
        law_executions_are_all(tasks, net, facts, (n - 1) as nat);
        assert forall|x: int| 0 <= x < rest.len() implies #[trigger] rest[x] < n - 1 by {
            assert(rest.contains(rest[x]));
        }
        assert forall|i: int| #[trigger] all.contains(i) <==> {
            &&& 0 <= i < n
            &&& forall|j: int| !#[trigger] net.before.contains((j, i))
            &&& *tasks.tasks@[net.tasks[i] as int] matches Task::Primitive(action) && forall|f: u32|
                #[trigger] action.pre_cond@.contains(f) ==> facts.contains(f)
        } by {
            if rest.contains(i) {
                let x = choose|x: int| 0 <= x < rest.len() && rest[x] == i;
                assert(all[x] == i);
            }
            if all.contains(i) && !rest.contains(i) {
                let x = choose|x: int| 0 <= x < all.len() && all[x] == i;
                if x < rest.len() {
                    assert(rest[x] == i);
                }
                assert(i == n - 1);
            }
            if crate::progress::is_executable(tasks, net, facts, n - 1) {
                assert(all[rest.len() as int] == n - 1);
            }
        }
    }
}

/// The decompositions that are possible are listed in the order of the nodes and
/// of the methods, each once, and none is left out: those of compound tasks that
/// no node comes before.
pub proof fn law_decompositions_are_all(tasks: DomainTasks, net: Network, n: nat)
    requires
        n <= net.tasks.len(),
    ensures
        forall|x: int, y: int|
            0 <= x < y < crate::progress::decompositions(tasks, net, n).len() ==> {
                let (a, b) = (
                    #[trigger] crate::progress::decompositions(tasks, net, n)[x],
                    #[trigger] crate::progress::decompositions(tasks, net, n)[y],
                );
                a.0 < b.0 || (a.0 == b.0 && a.1 < b.1)
            },
        forall|d: (int, int)| #[trigger]
            crate::progress::decompositions(tasks, net, n).contains(d) <==> {
                &&& 0 <= d.0 < n
                &&& forall|j: int| !#[trigger] net.before.contains((j, d.0))
                &&& *tasks.tasks@[net.tasks[d.0] as int] matches Task::Compound(compound) && 0
                    <= d.1 < compound.methods@.len()
            },
    decreases n,
{
    let all = crate::progress::decompositions(tasks, net, n);
    if n > 0 {
        let rest = crate::progress::decompositions(tasks, net, (n - 1) as nat);
        let count = crate::progress::method_count(tasks, net, n - 1);
        law_decompositions_are_all(tasks, net, (n - 1) as nat);
        assert forall|x: int| 0 <= x < rest.len() implies (#[trigger] rest[x]).0 < n - 1 by {
            assert(rest.contains(rest[x]));
        }
        assert(all.len() == rest.len() + count);
        assert forall|x: int| 0 <= x < rest.len() implies all[x] == #[trigger] rest[x] by {}
        assert forall|x: int| rest.len() <= x < all.len() implies #[trigger] all[x] == (
            n - 1,
            x - rest.len(),
        ) by {}
        assert forall|x: int, y: int| 0 <= x < y < all.len() implies {
            let (a, b) = (#[trigger] all[x], #[trigger] all[y]);
            a.0 < b.0 || (a.0 == b.0 && a.1 < b.1)
        } by {
            if y < rest.len() {
                assert(all[x] == rest[x] && all[y] == rest[y]);
            } else if x < rest.len() {
                assert(all[x] == rest[x]);
            }
        }
        assert forall|d: (int, int)| #[trigger] all.contains(d) <==> {
            &&& 0 <= d.0 < n
            &&& forall|j: int| !#[trigger] net.before.contains((j, d.0))
            &&& *tasks.tasks@[net.tasks[d.0] as int] matches Task::Compound(compound) && 0 <= d.1
                < compound.methods@.len()
        } by {
            if rest.contains(d) {
                let x = choose|x: int| 0 <= x < rest.len() && rest[x] == d;
                assert(all[x] == d);
            }
            if all.contains(d) && !rest.contains(d) {
                let x = choose|x: int| 0 <= x < all.len() && all[x] == d;
                if x < rest.len() {
                    assert(rest[x] == d);
                }
                assert(d.0 == n - 1 && 0 <= d.1 < count);
            }
            if d.0 == n - 1 && 0 <= d.1 < count {
                assert(all[rest.len() + d.1] == d);
            }
        }
    }
}

/// Where a node is decomposed, nothing but the nodes that are left and the new ones
/// come before each other.
pub proof fn law_nothing_new_when_a_node_is_decomposed(
    net: Network,
    i: int,
    sub: Network,
    x: int,
    y: int,
)
    requires
        0 <= i < net.tasks.len(),
        net.decomposed(i, sub).before.contains((x, y)),
    ensures
        0 <= x < net.tasks.len() - 1 + sub.tasks.len(),
        0 <= y < net.tasks.len() - 1 + sub.tasks.len(),
{
}

} // verus!

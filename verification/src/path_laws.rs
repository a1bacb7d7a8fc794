//! Laws of paths through task networks: which order of its actions a path asks
//! for, told by the networks on it.

use vstd::prelude::*;

use crate::goal_checks::{is_deordered, is_subproblem, SearchPath};
use crate::problem::FONDProblem;
use crate::task_network::HTN;

verus! {

/// The numbers count the actions among the steps: that of a step is how many
/// actions there are among the steps of a lesser index.
proof fn lemma_numbers(path: SearchPath, numbers: Seq<int>, k: int)
    requires
        numbers.len() == path.edges@.len() + 1,
        numbers[0] == 0,
        forall|i: int|
            0 <= i < path.edges@.len() ==> numbers[i + 1] == #[trigger] numbers[i]
                + (if path.edges@[i].method_name is None {
                1int
            } else {
                0int
            }),
        0 <= k <= path.edges@.len(),
    ensures
        numbers[k] == path.actions_before(k),
    decreases k,
{
    if k > 0 {
        lemma_numbers(path, numbers, k - 1);
        assert(numbers[k] == numbers[k - 1] + (if path.edges@[k - 1].method_name is None {
            1int
        } else {
            0int
        }));
    }
}

/// The last step of the chain is an action of the first one.
proof fn lemma_chain_yields(path: SearchPath, chain: Seq<int>)
    requires
        chain.len() > 0,
        forall|c: int| 0 <= c < chain.len() ==> 0 <= #[trigger] chain[c] < path.edges@.len(),
        forall|c: int|
            0 <= c < chain.len() - 1 ==> {
                let s = #[trigger] chain[c];
                let t = chain[c + 1];
                &&& t < s
                &&& path.edges@[s].method_name is Some
                &&& path.tns@[s].nodes@.contains(path.edges@[t].task_id)
                &&& !path.tns@[s + 1].nodes@.contains(path.edges@[t].task_id)
                &&& forall|i: int| t < i < s ==> (#[trigger] path.edges@[i]).task_id
                    != path.edges@[t].task_id
            },
        path.edges@[chain.last()].method_name is None,
    ensures
        path.yields(chain[0], path.actions_before(chain.last()) as int),
    decreases chain.len(),
{
    let s = chain[0];
    if chain.len() > 1 {
        let t = chain[1];
        let rest = chain.skip(1);
        assert(rest.last() == chain.last());
        assert(rest[0] == t);
        assert forall|c: int| 0 <= c < rest.len() implies 0 <= #[trigger] rest[c]
            < path.edges@.len() by {
            assert(rest[c] == chain[c + 1]);
        }
        assert forall|c: int| 0 <= c < rest.len() - 1 implies {
            let s = #[trigger] rest[c];
            let t = rest[c + 1];
            &&& t < s
            &&& path.edges@[s].method_name is Some
            &&& path.tns@[s].nodes@.contains(path.edges@[t].task_id)
            &&& !path.tns@[s + 1].nodes@.contains(path.edges@[t].task_id)
            &&& forall|i: int| t < i < s ==> (#[trigger] path.edges@[i]).task_id
                != path.edges@[t].task_id
        } by {
            assert(rest[c] == chain[c + 1]);
            assert(rest[c + 1] == chain[c + 2]);
        }
        lemma_chain_yields(path, rest);
        assert(path.is_nearest(s, t)) by {
            assert forall|i: int| t < i < s implies #[trigger] path.id(i) != path.id(t) by {
                assert(path.edges@[i].task_id != path.edges@[t].task_id);
            }
        }
        assert(path.brings(s, path.id(t)));
    } else {
        assert(chain.last() == s);
    }
}

/// The order of the actions is complete. The step `k` executes an action, which in
/// its network is listed as coming before the node of the step `chain[0]`, the
/// next one about that node. Each further step of the chain is the next one about
/// a node that the method of the step before it brings in, and the last one
/// executes an action. So this action is the node that the first one comes
/// before, or comes of it, and the network of the actions lists the two. Steps are
/// counted from the end, and `numbers` counts the actions among them.
pub proof fn law_order_is_complete(
    path: SearchPath,
    r: HTN,
    numbers: Seq<int>,
    k: int,
    entry: int,
    chain: Seq<int>,
)
    requires
        is_deordered(path, r),
        numbers.len() == path.edges@.len() + 1,
        numbers[0] == 0,
        forall|i: int|
            0 <= i < path.edges@.len() ==> numbers[i + 1] == #[trigger] numbers[i]
                + (if path.edges@[i].method_name is None {
                1int
            } else {
                0int
            }),
        0 <= k < path.edges@.len(),
        path.edges@[k].method_name is None,
        0 <= entry < path.tns@[k + 1].order@.len(),
        path.tns@[k + 1].order@[entry].0 < path.tns@[k + 1].nodes@.len(),
        path.tns@[k + 1].order@[entry].1 < path.tns@[k + 1].nodes@.len(),
        path.tns@[k + 1].nodes@[path.tns@[k + 1].order@[entry].0 as int] == path.edges@[k].task_id,
        path.tns@[k + 1].nodes@[path.tns@[k + 1].order@[entry].1 as int]
            == path.edges@[chain[0]].task_id,
        chain.len() > 0,
        chain[0] < k,
        forall|i: int|
            chain[0] < i < k ==> (#[trigger] path.edges@[i]).task_id
                != path.edges@[chain[0]].task_id,
        forall|c: int| 0 <= c < chain.len() ==> 0 <= #[trigger] chain[c] < path.edges@.len(),
        forall|c: int|
            0 <= c < chain.len() - 1 ==> {
                let s = #[trigger] chain[c];
                let t = chain[c + 1];
                &&& t < s
                &&& path.edges@[s].method_name is Some
                &&& path.tns@[s].nodes@.contains(path.edges@[t].task_id)
                &&& !path.tns@[s + 1].nodes@.contains(path.edges@[t].task_id)
                &&& forall|i: int| t < i < s ==> (#[trigger] path.edges@[i]).task_id
                    != path.edges@[t].task_id
            },
        path.edges@[chain.last()].method_name is None,
    ensures
        exists|e: int|
            0 <= e < r.order@.len() && (#[trigger] r.order@[e]).0 == numbers[k] && r.order@[e].1
                == numbers[chain.last()],
{
    let last = chain.last();
    let j = chain[0];
    lemma_numbers(path, numbers, k);
    lemma_numbers(path, numbers, last);
    lemma_chain_yields(path, chain);
    assert(path.is_nearest(k, j)) by {
        assert forall|i: int| j < i < k implies #[trigger] path.id(i) != path.id(j) by {
            assert(path.edges@[i].task_id != path.edges@[j].task_id);
        }
    }
    let tn = path.tns@[k + 1];
    assert(tn.is_at(path.edges@[k].task_id, tn.order@[entry].0 as int));
    assert(tn.is_at(path.edges@[j].task_id, tn.order@[entry].1 as int));
    assert(path.leads(k, path.id(j)));
    let a = numbers[k];
    let b = numbers[last];
    assert(path.orders(k, b));
    assert(path.is_action(k));
    assert(path.is_ordered(a, b));
    assert(r@.before.contains((a, b)));
}

/// A chain from a step to an action that it yields.
proof fn lemma_yields_chain(path: SearchPath, k: int, b: int) -> (chain: Seq<int>)
    requires
        0 <= k < path.edges@.len(),
        path.yields(k, b),
    ensures
        chain.len() > 0,
        chain[0] == k,
        b == path.actions_before(chain.last()),
        forall|c: int| 0 <= c < chain.len() ==> 0 <= #[trigger] chain[c] < path.edges@.len(),
        forall|c: int|
            0 <= c < chain.len() - 1 ==> {
                let s = #[trigger] chain[c];
                let t = chain[c + 1];
                &&& t < s
                &&& path.edges@[s].method_name is Some
                &&& path.tns@[s].nodes@.contains(path.edges@[t].task_id)
                &&& !path.tns@[s + 1].nodes@.contains(path.edges@[t].task_id)
                &&& forall|i: int| t < i < s ==> (#[trigger] path.edges@[i]).task_id
                    != path.edges@[t].task_id
            },
        path.edges@[chain.last()].method_name is None,
    decreases k,
{
    if path.is_action(k) {
        seq![k]
    } else {
        let j = choose|j: int|
            0 <= j < k && #[trigger] path.is_nearest(k, j) && path.brings(k, path.id(j))
                && path.yields(j, b);
        let rest = lemma_yields_chain(path, j, b);
        let chain = seq![k] + rest;
        assert(chain.last() == rest.last());
        assert forall|c: int| 0 <= c < chain.len() implies 0 <= #[trigger] chain[c]
            < path.edges@.len() by {
            if c > 0 {
                assert(chain[c] == rest[c - 1]);
            }
        }
        assert forall|c: int| 0 <= c < chain.len() - 1 implies {
            let s = #[trigger] chain[c];
            let t = chain[c + 1];
            &&& t < s
            &&& path.edges@[s].method_name is Some
            &&& path.tns@[s].nodes@.contains(path.edges@[t].task_id)
            &&& !path.tns@[s + 1].nodes@.contains(path.edges@[t].task_id)
            &&& forall|i: int| t < i < s ==> (#[trigger] path.edges@[i]).task_id
                != path.edges@[t].task_id
        } by {
            assert(chain[c + 1] == rest[c]);
            if c > 0 {
                assert(chain[c] == rest[c - 1]);
            } else {
                assert forall|i: int| j < i < k implies (#[trigger] path.edges@[i]).task_id
                    != path.edges@[j].task_id by {
                    assert(path.id(i) != path.id(j));
                }
            }
        }
        chain
    }
}

/// The network of the actions asks for nothing that the networks on the path do not
/// ask for: where it lists two actions, the first one is executed by a step
/// whose network lists its node as coming before a node which the second one is
/// or comes of, by a chain of methods.
pub proof fn law_order_is_asked_for(path: SearchPath, r: HTN, numbers: Seq<int>, e: int) -> (w: (
    int,
    int,
    Seq<int>,
))
    requires
        is_deordered(path, r),
        numbers.len() == path.edges@.len() + 1,
        numbers[0] == 0,
        forall|i: int|
            0 <= i < path.edges@.len() ==> numbers[i + 1] == #[trigger] numbers[i]
                + (if path.edges@[i].method_name is None {
                1int
            } else {
                0int
            }),
        0 <= e < r.order@.len(),
    ensures
        ({
            let (k, entry, chain) = w;
            let tn = path.tns@[k + 1];
            &&& 0 <= k < path.edges@.len()
            &&& path.edges@[k].method_name is None
            &&& r.order@[e].0 == numbers[k]
            &&& 0 <= entry < tn.order@.len()
            &&& tn.order@[entry].0 < tn.nodes@.len()
            &&& tn.order@[entry].1 < tn.nodes@.len()
            &&& tn.nodes@[tn.order@[entry].0 as int] == path.edges@[k].task_id
            &&& tn.nodes@[tn.order@[entry].1 as int] == path.edges@[chain[0]].task_id
            &&& chain.len() > 0
            &&& chain[0] < k
            &&& forall|i: int|
                chain[0] < i < k ==> (#[trigger] path.edges@[i]).task_id
                    != path.edges@[chain[0]].task_id
            &&& forall|c: int| 0 <= c < chain.len() ==> 0 <= #[trigger] chain[c] < path.edges@.len()
            &&& forall|c: int|
                0 <= c < chain.len() - 1 ==> {
                    let s = #[trigger] chain[c];
                    let t = chain[c + 1];
                    &&& t < s
                    &&& path.edges@[s].method_name is Some
                    &&& path.tns@[s].nodes@.contains(path.edges@[t].task_id)
                    &&& !path.tns@[s + 1].nodes@.contains(path.edges@[t].task_id)
                    &&& forall|i: int| t < i < s ==> (#[trigger] path.edges@[i]).task_id
                        != path.edges@[t].task_id
                }
            &&& path.edges@[chain.last()].method_name is None
            &&& r.order@[e].1 == numbers[chain.last()]
        }),
{
    let a = r.order@[e].0 as int;
    let b = r.order@[e].1 as int;
    assert(r@.before.contains((a, b)));
    assert(path.is_ordered(a, b));
    let k = choose|k: int|
        0 <= k < path.edges@.len() && #[trigger] path.is_action(k) && path.actions_before(k) == a
            && path.orders(k, b);
    let j = choose|j: int| #[trigger]
        path.is_nearest(k, j) && path.leads(k, path.id(j)) && path.yields(j, b);
    let tn = path.tns@[k + 1];
    let entry = choose|x: int|
        0 <= x < tn.order@.len() && tn.is_at(path.id(k), (#[trigger] tn.order@[x]).0 as int)
            && tn.is_at(path.id(j), tn.order@[x].1 as int);
    let chain = lemma_yields_chain(path, j, b);
    lemma_numbers(path, numbers, k);
    lemma_numbers(path, numbers, chain.last());
    assert forall|i: int| j < i < k implies (#[trigger] path.edges@[i]).task_id
        != path.edges@[j].task_id by {
        assert(path.id(i) != path.id(j));
    }
    (k, entry, chain)
}

/// The network of the actions has a node for each action of the path, and that of
/// the step `k` has the task that its node has in the network it is executed in.
pub proof fn law_every_action_is_a_node(
    path: SearchPath,
    r: HTN,
    numbers: Seq<int>,
    k: int,
    i: int,
)
    requires
        is_deordered(path, r),
        path.tns@[k + 1].wf(),
        numbers.len() == path.edges@.len() + 1,
        numbers[0] == 0,
        forall|i: int|
            0 <= i < path.edges@.len() ==> numbers[i + 1] == #[trigger] numbers[i]
                + (if path.edges@[i].method_name is None {
                1int
            } else {
                0int
            }),
        0 <= k < path.edges@.len(),
        path.edges@[k].method_name is None,
        0 <= i < path.tns@[k + 1].nodes@.len(),
        path.tns@[k + 1].nodes@[i] == path.edges@[k].task_id,
    ensures
        r.tasks@.len() == numbers.last(),
        r.nodes@.len() == numbers.last(),
        r.nodes@[numbers[k]] == numbers[k],
        0 <= numbers[k] < r.tasks@.len(),
        r.tasks@[numbers[k]] == path.tns@[k + 1].tasks@[i],
{
    lemma_numbers(path, numbers, path.edges@.len() as int);
    lemma_numbers(path, numbers, k);
    lemma_grows(path, numbers, k + 1, path.edges@.len() as int);
    let tn = path.tns@[k + 1];
    let x = path.edges@[k].task_id;
    assert(path.is_action(k));
    assert(tn.is_at(x, i));
    let y = choose|y: int| tn.is_at(x, y);
    if y < i {
        assert(tn.nodes@[y] < tn.nodes@[i]);
    } else if i < y {
        assert(tn.nodes@[i] < tn.nodes@[y]);
    }
}

proof fn lemma_grows(path: SearchPath, numbers: Seq<int>, k: int, n: int)
    requires
        numbers.len() == path.edges@.len() + 1,
        forall|i: int|
            0 <= i < path.edges@.len() ==> numbers[i + 1] == #[trigger] numbers[i]
                + (if path.edges@[i].method_name is None {
                1int
            } else {
                0int
            }),
        0 <= k <= n <= path.edges@.len(),
    ensures
        numbers[k] <= numbers[n],
    decreases n,
{
    if k < n {
        lemma_grows(path, numbers, k, n - 1);
        assert(numbers[n - 1] <= numbers[n]);
    }
}

/// The problem of carrying out a path's actions starts where the problem does, asks
/// for as much, knows the same facts and tasks, and has one task more: to do all
/// of the actions, by its one method.
pub proof fn law_subproblem_is_the_problem_with_one_task(
    problem: FONDProblem,
    path: SearchPath,
    sub: FONDProblem,
)
    requires
        is_subproblem(problem, path, sub),
    ensures
        forall|f: u32| #[trigger]
            sub.initial_state@.contains(f) <==> problem.initial_state@.contains(f),
        sub.rho == problem.rho,
        sub.facts.names@.len() == problem.facts.names@.len(),
        sub.tasks.tasks@.len() == problem.tasks.tasks@.len() + 1,
        forall|t: int|
            0 <= t < problem.tasks.tasks@.len() ==> #[trigger] sub.tasks.tasks@[t]
                == problem.tasks.tasks@[t],
        *sub.tasks.tasks@.last() is Compound,
        (*sub.tasks.tasks@.last())->Compound_0.methods@.len() == 1,
        is_deordered(path, (*sub.tasks.tasks@.last())->Compound_0.methods@[0].decomposition),
        sub.init_tn.tasks@ == seq![problem.tasks.tasks@.len() as usize],
        sub.init_tn.order@.len() == 0,
{
    if sub.init_tn.order@.len() > 0 {
        let e = sub.init_tn.order@[0];
        assert(sub.init_tn@.before.contains((e.0 as int, e.1 as int)));
    }
}

} // verus!

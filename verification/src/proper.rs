//! Whether a graph can end in a dead end, or go on without end.

use vstd::prelude::*;

use crate::policy::{NodeKind, NodeView, ReachNode};

verus! {

/// An edge leads from the node at `i` to the node at `j`.
pub open spec fn has_edge(nodes: Seq<NodeView>, i: int, j: int) -> bool {
    0 <= i < nodes.len() && exists|k: int|
        0 <= k < nodes[i].successors.len() && (#[trigger] nodes[i].successors[k]).0 == j
}

/// A path of `t` edges leads from the first node to the node at `i`.
pub open spec fn is_reached_in(nodes: Seq<NodeView>, t: nat, i: int) -> bool
    decreases t,
{
    if t == 0 {
        i == 0
    } else {
        exists|j: int| #[trigger]
            has_edge(nodes, j, i) && is_reached_in(nodes, (t - 1) as nat, j)
    }
}

/// A path leads from the first node to the node at `i`.
pub open spec fn is_reached(nodes: Seq<NodeView>, i: int) -> bool {
    exists|t: nat| is_reached_in(nodes, t, i)
}

/// No path leads from the first node to a dead end.
pub open spec fn is_proper(nodes: Seq<NodeView>) -> bool {
    forall|i: int|
        0 <= i < nodes.len() && #[trigger] is_reached(nodes, i) ==> nodes[i].kind != NodeKind::Dead
}

/// An edge of positive probability leads from the node at `i` to the node at `j`.
pub open spec fn has_live_edge(nodes: Seq<NodeView>, i: int, j: int) -> bool {
    0 <= i < nodes.len() && exists|k: int|
        0 <= k < nodes[i].successors.len() && (#[trigger] nodes[i].successors[k]).0 == j
            && nodes[i].successors[k].1 > 0
}

/// A path of `t` edges of positive probability leads from the node at `i` to a goal.
pub open spec fn reaches_goal_in(nodes: Seq<NodeView>, t: nat, i: int) -> bool
    decreases t,
{
    if t == 0 {
        0 <= i < nodes.len() && nodes[i].kind == NodeKind::Goal
    } else {
        exists|j: int| #[trigger]
            has_live_edge(nodes, i, j) && reaches_goal_in(nodes, (t - 1) as nat, j)
    }
}

/// A path of edges of positive probability leads from the node at `i` to a goal.
pub open spec fn reaches_goal(nodes: Seq<NodeView>, i: int) -> bool {
    exists|t: nat| reaches_goal_in(nodes, t, i)
}

/// Whatever happens, a goal stays in reach: a path leads to one from every node
/// to which a path leads from the first one. So no run is trapped in a loop, and
/// a goal is reached with probability 1.
pub open spec fn is_strong(nodes: Seq<NodeView>) -> bool {
    forall|i: int|
        0 <= i < nodes.len() && #[trigger] is_reached(nodes, i) ==> reaches_goal(nodes, i)
}

/// The number of entries that are not set.
spec fn unset(v: Seq<bool>) -> nat
    decreases v.len(),
{
    if v.len() == 0 {
        0
    } else {
        unset(v.drop_last()) + if v.last() {
            0nat
        } else {
            1nat
        }
    }
}

proof fn lemma_unset_update(v: Seq<bool>, i: int)
    requires
        0 <= i < v.len(),
        !v[i],
    ensures
        unset(v.update(i, true)) + 1 == unset(v),
    decreases v.len(),
{
    let u = v.update(i, true);
    if i == v.len() - 1 {
        assert(u.drop_last() =~= v.drop_last());
    } else {
        assert(u.drop_last() =~= v.drop_last().update(i, true));
        lemma_unset_update(v.drop_last(), i);
    }
}

/// What an edge leads to from a reached node is reached.
proof fn lemma_edge_reached(nodes: Seq<NodeView>, i: int, j: int)
    requires
        is_reached(nodes, i),
        has_edge(nodes, i, j),
    ensures
        is_reached(nodes, j),
{
    let t = choose|t: nat| is_reached_in(nodes, t, i);
    assert(is_reached_in(nodes, t + 1, j));
}

/// A set of nodes that holds the first one and is closed under edges holds all
/// that are reached.
proof fn lemma_closed(nodes: Seq<NodeView>, v: Seq<bool>, t: nat, i: int)
    requires
        v.len() == nodes.len(),
        v.len() > 0,
        v[0],
        forall|a: int, b: int|
            0 <= a < v.len() && v[a] && #[trigger] has_edge(nodes, a, b) ==> 0 <= b < v.len()
                && v[b],
        is_reached_in(nodes, t, i),
    ensures
        0 <= i < v.len(),
        v[i],
    decreases t,
{
    if t > 0 {
        let j = choose|j: int| #[trigger]
            has_edge(nodes, j, i) && is_reached_in(nodes, (t - 1) as nat, j);
        lemma_closed(nodes, v, (t - 1) as nat, j);
    }
}

/// What holds of the stack while the nodes are visited.
spec fn is_walk(nodes: Seq<NodeView>, visited: Seq<bool>, stack: Seq<usize>) -> bool {
    &&& visited.len() == nodes.len()
    &&& forall|k: int|
        0 <= k < stack.len() ==> #[trigger] stack[k] < nodes.len() && is_reached(
            nodes,
            stack[k] as int,
        )
    &&& forall|i: int|
        0 <= i < visited.len() && #[trigger] visited[i] ==> nodes[i].kind != NodeKind::Dead
    &&& forall|i: int, j: int|
        0 <= i < visited.len() && visited[i] && #[trigger] has_edge(nodes, i, j) ==> 0 <= j
            < visited.len() && (visited[j] || stack.contains(j as usize))
    &&& visited.len() > 0
    &&& visited[0] || stack.contains(0)
}

/// Whether no dead end can be reached from the first node.
pub fn is_reach_proper(reach: &[ReachNode]) -> (r: bool)
    requires
        reach@.len() > 0,
        crate::policy::edges_wf(crate::policy::views(reach@)),
    ensures
        r == is_proper(crate::policy::views(reach@)),
{
    let ghost nodes = crate::policy::views(reach@);
    let n: usize = reach.len();
    let mut visited: Vec<bool> = vec![false; n];
    let mut stack: Vec<usize> = vec![0];
    proof {
        assert(is_reached_in(nodes, 0, 0));
        assert(stack@[0] == 0);
    }
    while stack.len() > 0
        invariant
            n == reach@.len(),
            nodes == crate::policy::views(reach@),
            crate::policy::edges_wf(nodes),
            is_walk(nodes, visited@, stack@),
        decreases unset(visited@), stack@.len(),
    {
        let ghost stack0 = stack@;
        let ghost visited0 = visited@;
        let idx: usize = match stack.pop() {
            Some(idx) => idx,
            None => 0,
        };
        assert(stack0[stack0.len() - 1] == idx);
        assert(stack@ =~= stack0.drop_last());
        proof {
            assert forall|x: usize| stack0.contains(x) implies stack@.contains(x) || x == idx by {
                let k = choose|k: int| 0 <= k < stack0.len() && stack0[k] == x;
                if k < stack@.len() {
                    assert(stack@[k] == x);
                }
            }
            assert forall|k: int| 0 <= k < stack@.len() implies #[trigger] stack@[k] < nodes.len()
                && is_reached(nodes, stack@[k] as int) by {
                assert(stack@[k] == stack0[k]);
            }
        }
        if !visited[idx] {
            proof {
                lemma_unset_update(visited@, idx as int);
            }
            visited.set(idx, true);
            let node: &ReachNode = &reach[idx];
            assert(nodes[idx as int] == node@);
            if node.kind == NodeKind::Dead {
                assert(is_reached(nodes, idx as int));
                return false;
            }
            let ghost stack1 = stack@;
            let mut k: usize = 0;
            while k < node.successors.len()
                invariant
                    n == reach@.len(),
                    nodes == crate::policy::views(reach@),
                    crate::policy::edges_wf(nodes),
                    nodes[idx as int] == node@,
                    idx < n,
                    is_reached(nodes, idx as int),
                    visited@.len() == n,
                    k <= node.successors@.len(),
                    forall|x: int|
                        0 <= x < stack@.len() ==> #[trigger] stack@[x] < nodes.len() && is_reached(
                            nodes,
                            stack@[x] as int,
                        ),
                    forall|x: usize| stack1.contains(x) ==> #[trigger] stack@.contains(x),
                    forall|x: int|
                        0 <= x < k ==> {
                            let to = (#[trigger] node.successors@[x]).0;
                            to < n && (visited@[to as int] || stack@.contains(to))
                        },
                decreases node.successors@.len() - k,
            {
                let to: usize = node.successors[k].0;
                assert(nodes[idx as int].successors[k as int].0 < nodes.len());
                let ghost stack2 = stack@;
                if !visited[to] {
                    proof {
                        assert(nodes[idx as int].successors[k as int].0 == to);
                        assert(has_edge(nodes, idx as int, to as int));
                        lemma_edge_reached(nodes, idx as int, to as int);
                    }
                    stack.push(to);
                    assert(stack@[stack2.len() as int] == to);
                }
                proof {
                    assert forall|x: usize| stack2.contains(x) implies #[trigger] stack@.contains(
                        x,
                    ) by {
                        let y = choose|y: int| 0 <= y < stack2.len() && stack2[y] == x;
                        assert(stack@[y] == x);
                    }
                }
                k += 1;
            }
            proof {
                assert forall|i: int, j: int|
                    0 <= i < visited@.len() && visited@[i] && #[trigger] has_edge(
                        nodes,
                        i,
                        j,
                    ) implies 0 <= j < visited@.len() && (visited@[j] || stack@.contains(
                    j as usize,
                )) by {
                    if i == idx {
                        let x = choose|x: int|
                            0 <= x < nodes[i].successors.len() && (
                            #[trigger] nodes[i].successors[x]).0 == j;
                        assert(node.successors@[x].0 == j);
                    } else {
                        assert(visited0[i]);
                        assert(0 <= j < visited0.len() && (visited0[j] || stack0.contains(
                            j as usize,
                        )));
                        if !visited0[j] && j != idx {
                            assert(stack1.contains(j as usize));
                            assert(stack@.contains(j as usize));
                        }
                    }
                }
                if !visited@[0] {
                    assert(stack0.contains(0));
                    assert(stack1.contains(0));
                    assert(stack@.contains(0));
                }
            }
        } else {
            proof {
                assert forall|i: int, j: int|
                    0 <= i < visited@.len() && visited@[i] && #[trigger] has_edge(
                        nodes,
                        i,
                        j,
                    ) implies 0 <= j < visited@.len() && (visited@[j] || stack@.contains(
                    j as usize,
                )) by {
                    assert(visited0[j] || stack0.contains(j as usize));
                }
            }
        }
    }
    proof {
        assert forall|i: int|
            0 <= i < nodes.len() && #[trigger] is_reached(nodes, i) implies nodes[i].kind
            != NodeKind::Dead by {
            let t = choose|t: nat| is_reached_in(nodes, t, i);
            assert(visited@[0]);
            lemma_closed(nodes, visited@, t, i);
        }
    }
    true
}

/// A set of nodes that holds the goals and all from which a live edge leads into
/// it holds all that reach a goal.
proof fn lemma_closed_back(nodes: Seq<NodeView>, v: Seq<bool>, t: nat, i: int)
    requires
        v.len() == nodes.len(),
        crate::policy::edges_wf(nodes),
        forall|a: int|
            0 <= a < v.len() && (#[trigger] nodes[a]).kind == NodeKind::Goal ==> v[a],
        forall|a: int, b: int|
            0 <= b < v.len() && v[b] && #[trigger] has_live_edge(nodes, a, b) ==> v[a],
        reaches_goal_in(nodes, t, i),
    ensures
        0 <= i < v.len(),
        v[i],
    decreases t,
{
    if t > 0 {
        let j = choose|j: int| #[trigger]
            has_live_edge(nodes, i, j) && reaches_goal_in(nodes, (t - 1) as nat, j);
        lemma_closed_back(nodes, v, (t - 1) as nat, j);
    }
}

/// Whether a live edge leads from the node to a marked one.
fn leads_into(node: &ReachNode, v: &Vec<bool>, Ghost(nodes): Ghost<Seq<NodeView>>, Ghost(i): Ghost<int>) -> (r:
    bool)
    requires
        0 <= i < nodes.len(),
        nodes[i] == node@,
        v@.len() == nodes.len(),
        crate::policy::edges_wf(nodes),
    ensures
        r == exists|j: int| 0 <= j < v@.len() && v@[j] && #[trigger] has_live_edge(nodes, i, j),
{
    let mut k: usize = 0;
    while k < node.successors.len()
        invariant
            0 <= i < nodes.len(),
            nodes[i] == node@,
            v@.len() == nodes.len(),
            crate::policy::edges_wf(nodes),
            k <= node.successors@.len(),
            forall|x: int|
                0 <= x < k ==> !(v@[(#[trigger] node.successors@[x]).0 as int]
                    && node.successors@[x].1 > 0),
        decreases node.successors@.len() - k,
    {
        let (to, prob): (usize, u64) = node.successors[k];
        assert(nodes[i].successors[k as int].0 < nodes.len());
        if v[to] && prob > 0 {
            assert(nodes[i].successors[k as int].0 == to);
            assert(has_live_edge(nodes, i, to as int));
            return true;
        }
        k += 1;
    }
    proof {
        assert forall|j: int| 0 <= j < v@.len() && v@[j] implies !#[trigger] has_live_edge(
            nodes,
            i,
            j,
        ) by {
            if has_live_edge(nodes, i, j) {
                let x = choose|x: int|
                    0 <= x < nodes[i].successors.len() && (#[trigger] nodes[i].successors[x]).0
                        == j && nodes[i].successors[x].1 > 0;
                assert(node.successors@[x].0 == j);
            }
        }
    }
    false
}

/// The nodes from which a goal can be reached.
fn mark_hopeful(reach: &[ReachNode]) -> (v: Vec<bool>)
    requires
        crate::policy::edges_wf(crate::policy::views(reach@)),
    ensures
        v@.len() == reach@.len(),
        forall|i: int|
            0 <= i < v@.len() ==> (#[trigger] v@[i] <==> reaches_goal(
                crate::policy::views(reach@),
                i,
            )),
{
    let ghost nodes = crate::policy::views(reach@);
    let n: usize = reach.len();
    let mut v: Vec<bool> = vec![false; n];
    let mut changed: bool = true;
    while changed
        invariant
            n == reach@.len(),
            nodes == crate::policy::views(reach@),
            crate::policy::edges_wf(nodes),
            v@.len() == n,
            forall|i: int| 0 <= i < n && #[trigger] v@[i] ==> reaches_goal(nodes, i),
            !changed ==> forall|a: int|
                0 <= a < n && (#[trigger] nodes[a]).kind == NodeKind::Goal ==> v@[a],
            !changed ==> forall|a: int, b: int|
                0 <= b < n && v@[b] && #[trigger] has_live_edge(nodes, a, b) ==> v@[a],
        decreases
            unset(v@),
            if changed {
                1int
            } else {
                0int
            },
    {
        let ghost v0 = v@;
        changed = false;
        let mut i: usize = 0;
        while i < n
            invariant
                i <= n,
                n == reach@.len(),
                nodes == crate::policy::views(reach@),
                crate::policy::edges_wf(nodes),
                v@.len() == n,
                v0.len() == n,
                forall|j: int| 0 <= j < n && #[trigger] v@[j] ==> reaches_goal(nodes, j),
                !changed ==> v@ == v0,
                changed ==> unset(v@) < unset(v0),
                unset(v@) <= unset(v0),
                !changed ==> forall|a: int|
                    0 <= a < i && (#[trigger] nodes[a]).kind == NodeKind::Goal ==> v@[a],
                !changed ==> forall|a: int, b: int|
                    0 <= a < i && 0 <= b < n && v@[b] && #[trigger] has_live_edge(nodes, a, b)
                        ==> v@[a],
            decreases n - i,
        {
            let node: &ReachNode = &reach[i];
            assert(nodes[i as int] == node@);
            if !v[i] {
                let is_goal: bool = node.kind == NodeKind::Goal;
                if is_goal || leads_into(node, &v, Ghost(nodes), Ghost(i as int)) {
                    proof {
                        if is_goal {
                            assert(reaches_goal_in(nodes, 0, i as int));
                        } else {
                            let j = choose|j: int|
                                0 <= j < v@.len() && v@[j] && #[trigger] has_live_edge(
                                    nodes,
                                    i as int,
                                    j,
                                );
                            assert(reaches_goal(nodes, j));
                            let t = choose|t: nat| reaches_goal_in(nodes, t, j);
                            assert(reaches_goal_in(nodes, t + 1, i as int));
                        }
                        lemma_unset_update(v@, i as int);
                    }
                    v.set(i, true);
                    changed = true;
                }
            }
            i += 1;
        }
        proof {
            if !changed {
                assert forall|a: int, b: int|
                    0 <= b < n && v@[b] && #[trigger] has_live_edge(nodes, a, b) implies v@[a] by {
                    assert(0 <= a < n);
                }
            }
        }
    }
    proof {
        assert forall|i: int| 0 <= i < n && reaches_goal(nodes, i) implies #[trigger] v@[i] by {
            let t = choose|t: nat| reaches_goal_in(nodes, t, i);
            lemma_closed_back(nodes, v@, t, i);
        }
    }
    v
}

/// Marks what the edges of the node lead to. Gives whether a mark is new.
fn mark_successors(
    node: &ReachNode,
    v: &mut Vec<bool>,
    Ghost(nodes): Ghost<Seq<NodeView>>,
    Ghost(i): Ghost<int>,
) -> (changed: bool)
    requires
        0 <= i < nodes.len(),
        nodes[i] == node@,
        old(v)@.len() == nodes.len(),
        crate::policy::edges_wf(nodes),
        is_reached(nodes, i),
        forall|j: int| 0 <= j < nodes.len() && #[trigger] old(v)@[j] ==> is_reached(nodes, j),
    ensures
        final(v)@.len() == old(v)@.len(),
        forall|j: int| 0 <= j < nodes.len() && #[trigger] final(v)@[j] ==> is_reached(nodes, j),
        forall|j: int| 0 <= j < nodes.len() && #[trigger] old(v)@[j] ==> final(v)@[j],
        forall|j: int| #[trigger] has_edge(nodes, i, j) ==> 0 <= j < nodes.len() && final(v)@[j],
        !changed ==> final(v)@ == old(v)@,
        changed ==> unset(final(v)@) < unset(old(v)@),
{
    let mut changed: bool = false;
    let mut k: usize = 0;
    while k < node.successors.len()
        invariant
            0 <= i < nodes.len(),
            nodes[i] == node@,
            v@.len() == nodes.len(),
            crate::policy::edges_wf(nodes),
            is_reached(nodes, i),
            k <= node.successors@.len(),
            forall|j: int| 0 <= j < nodes.len() && #[trigger] v@[j] ==> is_reached(nodes, j),
            forall|j: int| 0 <= j < nodes.len() && #[trigger] old(v)@[j] ==> v@[j],
            forall|x: int|
                0 <= x < k ==> (#[trigger] node.successors@[x]).0 < nodes.len()
                    && v@[node.successors@[x].0 as int],
            !changed ==> v@ == old(v)@,
            changed ==> unset(v@) < unset(old(v)@),
            unset(v@) <= unset(old(v)@),
        decreases node.successors@.len() - k,
    {
        let to: usize = node.successors[k].0;
        assert(nodes[i].successors[k as int].0 < nodes.len());
        if !v[to] {
            proof {
                assert(nodes[i].successors[k as int].0 == to);
                assert(has_edge(nodes, i, to as int));
                lemma_edge_reached(nodes, i, to as int);
                lemma_unset_update(v@, to as int);
            }
            v.set(to, true);
            changed = true;
        }
        k += 1;
    }
    proof {
        assert forall|j: int| #[trigger] has_edge(nodes, i, j) implies 0 <= j < nodes.len()
            && v@[j] by {
            let x = choose|x: int|
                0 <= x < nodes[i].successors.len() && (#[trigger] nodes[i].successors[x]).0 == j;
            assert(node.successors@[x].0 == j);
        }
    }
    changed
}

/// The nodes to which a path leads from the first one.
fn mark_reached(reach: &[ReachNode]) -> (v: Vec<bool>)
    requires
        reach@.len() > 0,
        crate::policy::edges_wf(crate::policy::views(reach@)),
    ensures
        v@.len() == reach@.len(),
        forall|i: int|
            0 <= i < v@.len() ==> (#[trigger] v@[i] <==> is_reached(
                crate::policy::views(reach@),
                i,
            )),
{
    let ghost nodes = crate::policy::views(reach@);
    let n: usize = reach.len();
    let mut v: Vec<bool> = vec![false; n];
    v.set(0, true);
    assert(is_reached_in(nodes, 0, 0));
    let mut changed: bool = true;
    while changed
        invariant
            n == reach@.len(),
            n > 0,
            nodes == crate::policy::views(reach@),
            crate::policy::edges_wf(nodes),
            v@.len() == n,
            v@[0],
            forall|i: int| 0 <= i < n && #[trigger] v@[i] ==> is_reached(nodes, i),
            !changed ==> forall|a: int, b: int|
                0 <= a < n && v@[a] && #[trigger] has_edge(nodes, a, b) ==> 0 <= b < n && v@[b],
        decreases
            unset(v@),
            if changed {
                1int
            } else {
                0int
            },
    {
        let ghost v0 = v@;
        changed = false;
        let mut i: usize = 0;
        while i < n
            invariant
                i <= n,
                n == reach@.len(),
                n > 0,
                nodes == crate::policy::views(reach@),
                crate::policy::edges_wf(nodes),
                v@.len() == n,
                v@[0],
                forall|j: int| 0 <= j < n && #[trigger] v@[j] ==> is_reached(nodes, j),
                !changed ==> v@ == v0,
                changed ==> unset(v@) < unset(v0),
                unset(v@) <= unset(v0),
                !changed ==> forall|a: int, b: int|
                    0 <= a < i && v@[a] && #[trigger] has_edge(nodes, a, b) ==> 0 <= b < n
                        && v@[b],
            decreases n - i,
        {
            let node: &ReachNode = &reach[i];
            assert(nodes[i as int] == node@);
            if v[i] {
                assert(is_reached(nodes, i as int));
                if mark_successors(node, &mut v, Ghost(nodes), Ghost(i as int)) {
                    changed = true;
                }
            }
            i += 1;
        }
    }
    proof {
        assert forall|i: int| 0 <= i < n && is_reached(nodes, i) implies #[trigger] v@[i] by {
            let t = choose|t: nat| is_reached_in(nodes, t, i);
            lemma_closed(nodes, v@, t, i);
        }
    }
    v
}

/// Whether a goal stays in reach whatever happens.
pub fn is_reach_strong(reach: &[ReachNode]) -> (r: bool)
    requires
        reach@.len() > 0,
        crate::policy::edges_wf(crate::policy::views(reach@)),
    ensures
        r == is_strong(crate::policy::views(reach@)),
{
    let reached: Vec<bool> = mark_reached(reach);
    let hopeful: Vec<bool> = mark_hopeful(reach);
    let mut i: usize = 0;
    while i < reach.len()
        invariant
            i <= reach@.len(),
            reached@.len() == reach@.len(),
            hopeful@.len() == reach@.len(),
            forall|j: int|
                0 <= j < reached@.len() ==> (#[trigger] reached@[j] <==> is_reached(
                    crate::policy::views(reach@),
                    j,
                )),
            forall|j: int|
                0 <= j < hopeful@.len() ==> (#[trigger] hopeful@[j] <==> reaches_goal(
                    crate::policy::views(reach@),
                    j,
                )),
            forall|j: int| 0 <= j < i ==> (#[trigger] reached@[j] ==> hopeful@[j]),
        decreases reach@.len() - i,
    {
        if reached[i] && !hopeful[i] {
            assert(is_reached(crate::policy::views(reach@), i as int));
            return false;
        }
        i += 1;
    }
    proof {
        let nodes = crate::policy::views(reach@);
        assert forall|j: int| 0 <= j < nodes.len() && #[trigger] is_reached(
            nodes,
            j,
        ) implies reaches_goal(nodes, j) by {
            assert(reached@[j]);
        }
    }
    true
}

} // verus!

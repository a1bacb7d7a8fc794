//! The length of a relaxed plan that is read backwards out of the planning graph.

use std::collections::HashSet;
use vstd::prelude::*;

use crate::domain::ClassicalDomain;
use crate::graphplan::GraphPlan;
use crate::sets::elements;

verus! {

broadcast use vstd::std_specs::hash::group_hash_axioms;

/// The action `a` adds the fact `f` right below the layer of `f`.
pub open spec fn supplies(g: GraphPlan, f: u32, a: int) -> bool {
    g.domain.adds(a, f) && g.action_layer@[a] == g.fact_layer@[f as int] - 1
}

/// The action `a` comes before `b`: it is cheaper, or as cheap and earlier.
pub open spec fn preferred(d: ClassicalDomain, a: int, b: int) -> bool {
    d.actions@[a].cost < d.actions@[b].cost || (d.actions@[a].cost == d.actions@[b].cost && a <= b)
}

/// The action `a` is the best one that supplies the fact `f`.
pub open spec fn is_pick(g: GraphPlan, f: u32, a: int) -> bool {
    supplies(g, f, a) && forall|b: int| #[trigger] supplies(g, f, b) ==> preferred(*g.domain, a, b)
}

/// The action that is picked for the fact `f`.
pub open spec fn pick(g: GraphPlan, f: u32) -> int {
    choose|a: int| is_pick(g, f, a)
}

/// The wanted facts below `k` of the layer `i`, ascending.
pub open spec fn goals_below(g: GraphPlan, wanted: Set<u32>, i: nat, k: nat) -> Seq<u32>
    decreases k,
{
    if k == 0 {
        Seq::empty()
    } else {
        let rest = goals_below(g, wanted, i, (k - 1) as nat);
        let f = (k - 1) as u32;
        if wanted.contains(f) && g.fact_layer@[k - 1] == i {
            rest.push(f)
        } else {
            rest
        }
    }
}

/// The wanted facts of the layer `i`, ascending.
pub open spec fn layer_goals(g: GraphPlan, wanted: Set<u32>, i: nat) -> Seq<u32> {
    goals_below(g, wanted, i, g.domain.n_facts())
}

/// What the actions that are picked for `goals` add.
pub open spec fn marked(g: GraphPlan, goals: Seq<u32>) -> Set<u32> {
    Set::new(
        |f: u32|
            exists|j: int|
                0 <= j < goals.len() && #[trigger] g.domain.add(pick(g, goals[j])).contains(f),
    )
}

/// The precondition `p` of the action for the last of `goals` becomes a goal:
/// it does not hold at the start, and no action picked before it adds it.
pub open spec fn is_new_goal(g: GraphPlan, goals: Seq<u32>, p: u32) -> bool {
    &&& g.domain.pre(pick(g, goals.last())).contains(p)
    &&& g.fact_layer@[p as int] != 0
    &&& !marked(g, goals.drop_last()).contains(p)
}

/// The wanted facts once actions are picked for `goals` in turn.
pub open spec fn wanted_after(g: GraphPlan, wanted: Set<u32>, goals: Seq<u32>) -> Set<u32>
    decreases goals.len(),
{
    if goals.len() == 0 {
        wanted
    } else {
        let before = wanted_after(g, wanted, goals.drop_last());
        Set::new(|p: u32| before.contains(p) || is_new_goal(g, goals, p))
    }
}

/// The number of actions that are picked from the layer `i` down, when the
/// facts `wanted` are wanted there.
pub open spec fn steps(g: GraphPlan, wanted: Set<u32>, i: nat) -> nat
    decreases i,
{
    if i == 0 {
        0
    } else {
        let goals = layer_goals(g, wanted, i);
        goals.len() + steps(g, wanted_after(g, wanted, goals), (i - 1) as nat)
    }
}

/// The number of facts with a layer above `i`.
spec fn above(layers: Seq<u32>, i: nat) -> nat
    decreases layers.len(),
{
    if layers.len() == 0 {
        0
    } else {
        above(layers.drop_last(), i) + if layers.last() > i {
            1nat
        } else {
            0nat
        }
    }
}

/// The number of facts with the layer `i`.
spec fn at(layers: Seq<u32>, i: nat) -> nat
    decreases layers.len(),
{
    if layers.len() == 0 {
        0
    } else {
        at(layers.drop_last(), i) + if layers.last() == i {
            1nat
        } else {
            0nat
        }
    }
}

proof fn lemma_above_at(layers: Seq<u32>, i: nat)
    requires
        i > 0,
    ensures
        above(layers, (i - 1) as nat) == above(layers, i) + at(layers, i),
        above(layers, i) <= layers.len(),
    decreases layers.len(),
{
    if layers.len() > 0 {
        lemma_above_at(layers.drop_last(), i);
    }
}

proof fn lemma_above_bound(layers: Seq<u32>, i: nat)
    ensures
        above(layers, i) <= layers.len(),
    decreases layers.len(),
{
    if layers.len() > 0 {
        lemma_above_bound(layers.drop_last(), i);
    }
}

proof fn lemma_goals_at(g: GraphPlan, wanted: Set<u32>, i: nat, k: nat)
    requires
        k <= g.fact_layer@.len(),
    ensures
        goals_below(g, wanted, i, k).len() <= at(g.fact_layer@.take(k as int), i),
    decreases k,
{
    if k > 0 {
        lemma_goals_at(g, wanted, i, (k - 1) as nat);
        assert(g.fact_layer@.take(k as int).drop_last() =~= g.fact_layer@.take(k - 1));
    }
}

/// The goals of a layer are the wanted facts of that layer.
pub proof fn lemma_layer_goals(g: GraphPlan, wanted: Set<u32>, i: nat, k: nat)
    requires
        k <= g.domain.n_facts() <= u32::MAX,
    ensures
        forall|f: u32| #[trigger]
            goals_below(g, wanted, i, k).contains(f) <==> f < k && wanted.contains(f)
                && g.fact_layer@[f as int] == i,
        forall|x: int, y: int|
            0 <= x < y < goals_below(g, wanted, i, k).len() ==> #[trigger] goals_below(
                g,
                wanted,
                i,
                k,
            )[x] < #[trigger] goals_below(g, wanted, i, k)[y],
    decreases k,
{
    if k > 0 {
        lemma_layer_goals(g, wanted, i, (k - 1) as nat);
        let rest = goals_below(g, wanted, i, (k - 1) as nat);
        let all = goals_below(g, wanted, i, k);
        let last = (k - 1) as u32;
        assert forall|f: u32| #[trigger] all.contains(f) <==> f < k && wanted.contains(f)
            && g.fact_layer@[f as int] == i by {
            if rest.contains(f) {
                let x = choose|x: int| 0 <= x < rest.len() && rest[x] == f;
                assert(all[x] == f);
            }
            if all.len() > rest.len() {
                assert(all[rest.len() as int] == last);
            }
            if all.contains(f) && f != last {
                let x = choose|x: int| 0 <= x < all.len() && all[x] == f;
                assert(rest[x] == f);
                assert(rest.contains(f));
            }
        }
        assert forall|x: int, y: int| 0 <= x < y < all.len() implies #[trigger] all[x]
            < #[trigger] all[y] by {
            assert(rest[x] == all[x]);
            assert(rest.contains(rest[x]));
            if y < rest.len() {
                assert(rest[y] == all[y]);
            }
        }
    }
}

/// There is one best action for a fact that any action supplies.
proof fn lemma_pick(g: GraphPlan, f: u32, a: int)
    requires
        is_pick(g, f, a),
    ensures
        pick(g, f) == a,
{
    let b = pick(g, f);
    assert(is_pick(g, f, b));
    assert(supplies(g, f, a) && supplies(g, f, b));
}

/// The best action that supplies the fact `f`.
fn find_pick(g: &GraphPlan, f: u32) -> (a: usize)
    requires
        g.wf(),
        f < g.domain.n_facts(),
        g.fact_layer@[f as int] != u32::MAX,
        g.fact_layer@[f as int] > 0,
    ensures
        a < g.domain.n_actions(),
        is_pick(*g, f, a as int),
        a == pick(*g, f),
{
    let list: &Vec<usize> = &g.effect_to_actions[f as usize];
    let layer: u32 = g.fact_layer[f as usize] - 1;
    let mut best: Option<usize> = None;
    let mut j: usize = 0;
    while j < list.len()
        invariant
            j <= list@.len(),
            g.wf(),
            f < g.domain.n_facts(),
            g.fact_layer@[f as int] != u32::MAX,
            layer == g.fact_layer@[f as int] - 1,
            list@ == g.effect_to_actions@[f as int]@,
            forall|x: int|
                0 <= x < j && supplies(*g, f, #[trigger] list@[x] as int) ==> (best matches Some(
                    b,
                ) && preferred(*g.domain, b as int, list@[x] as int)),
            best matches Some(b) ==> supplies(*g, f, b as int),
        decreases list@.len() - j,
    {
        let a: usize = list[j];
        assert(list@.contains(a));
        if g.action_layer[a] == layer {
            assert(supplies(*g, f, a as int));
            match best {
                Some(b) => {
                    let ca: u32 = g.domain.actions[a].cost;
                    let cb: u32 = g.domain.actions[b].cost;
                    if ca < cb || (ca == cb && a < b) {
                        best = Some(a);
                    }
                },
                None => {
                    best = Some(a);
                },
            }
        }
        j += 1;
    }
    proof {
        let a = choose|a: int| #[trigger]
            g.domain.adds(a, f) && g.action_layer@[a] == g.fact_layer@[f as int] - 1;
        assert(supplies(*g, f, a));
        assert(g.action_layer.len() == g.domain.n_actions());
        assert(list@.contains(a as usize));
        let x = choose|x: int| 0 <= x < list@.len() && list@[x] == a as usize;
        assert(supplies(*g, f, list@[x] as int));
    }
    let a: usize = match best {
        Some(b) => b,
        None => 0,
    };
    proof {
        assert forall|b: int| #[trigger] supplies(*g, f, b) implies preferred(
            *g.domain,
            a as int,
            b,
        ) by {
            assert(g.action_layer.len() == g.domain.n_actions());
            assert(list@.contains(b as usize));
            let x = choose|x: int| 0 <= x < list@.len() && list@[x] == b as usize;
            assert(supplies(*g, f, list@[x] as int));
        }
        lemma_pick(*g, f, a as int);
    }
    a
}

/// The facts that a list of marks holds.
pub open spec fn marks_set(marks: Seq<bool>) -> Set<u32> {
    Set::new(|f: u32| f < marks.len() && marks[f as int])
}

/// The marked facts of the layer `i`, ascending.
fn find_goals(g: &GraphPlan, wanted: &Vec<bool>, i: u32) -> (goals: Vec<u32>)
    requires
        g.wf(),
        wanted@.len() == g.domain.n_facts(),
    ensures
        goals@ == layer_goals(*g, marks_set(wanted@), i as nat),
{
    let mut goals: Vec<u32> = Vec::new();
    let mut f: usize = 0;
    while f < wanted.len()
        invariant
            f <= wanted@.len(),
            g.wf(),
            wanted@.len() == g.domain.n_facts(),
            goals@ == goals_below(*g, marks_set(wanted@), i as nat, f as nat),
        decreases wanted@.len() - f,
    {
        if wanted[f] && g.fact_layer[f] == i {
            goals.push(f as u32);
        }
        assert(marks_set(wanted@).contains(f as u32) == wanted@[f as int]);
        f += 1;
    }
    goals
}

/// Sets the marks of the facts of `list`.
fn mark_all(marks: &mut Vec<bool>, list: &Vec<u32>)
    ensures
        final(marks)@.len() == old(marks)@.len(),
        forall|f: u32|
            f < old(marks)@.len() ==> #[trigger] final(marks)@[f as int] == (old(marks)@[f as int]
                || list@.contains(f)),
{
    let ghost start = marks@;
    let mut j: usize = 0;
    while j < list.len()
        invariant
            j <= list@.len(),
            marks@.len() == start.len(),
            forall|f: u32|
                f < start.len() ==> #[trigger] marks@[f as int] == (start[f as int]
                    || list@.take(j as int).contains(f)),
        decreases list@.len() - j,
    {
        let e: u32 = list[j];
        let ghost before = marks@;
        let ghost done = list@.take(j as int);
        assert(list@.take(j + 1) =~= done.push(e));
        if (e as usize) < marks.len() {
            marks.set(e as usize, true);
        }
        proof {
            assert forall|f: u32| #[trigger] done.push(e).contains(f) <==> f == e
                || done.contains(f) by {
                if done.contains(f) {
                    let x = choose|x: int| 0 <= x < done.len() && done[x] == f;
                    assert(done.push(e)[x] == f);
                }
                assert(done.push(e)[done.len() as int] == e);
            }
            assert forall|f: u32| f < start.len() implies #[trigger] marks@[f as int] == (
            start[f as int] || list@.take(j + 1).contains(f)) by {
                assert(before[f as int] == (start[f as int] || done.contains(f)));
            }
        }
        j += 1;
    }
    assert(list@.take(j as int) =~= list@);
}

/// Picks an action for each of the `goals` in turn and marks the preconditions
/// that become goals with it.
fn pick_layer(g: &GraphPlan, wanted: &mut Vec<bool>, goals: &Vec<u32>)
    requires
        g.wf(),
        old(wanted)@.len() == g.domain.n_facts(),
        forall|j: int|
            0 <= j < goals@.len() ==> #[trigger] goals@[j] < g.domain.n_facts()
                && 0 < g.fact_layer@[goals@[j] as int] < u32::MAX,
    ensures
        final(wanted)@.len() == old(wanted)@.len(),
        marks_set(final(wanted)@) == wanted_after(*g, marks_set(old(wanted)@), goals@),
{
    let n: usize = wanted.len();
    let ghost start = marks_set(wanted@);
    let mut marks: Vec<bool> = vec![false; n];
    let mut j: usize = 0;
    assert(goals@.take(0) =~= Seq::empty());
    while j < goals.len()
        invariant
            j <= goals@.len(),
            g.wf(),
            n == g.domain.n_facts(),
            wanted@.len() == n,
            marks@.len() == n,
            forall|x: int|
                0 <= x < goals@.len() ==> #[trigger] goals@[x] < g.domain.n_facts()
                    && 0 < g.fact_layer@[goals@[x] as int] < u32::MAX,
            marks_set(wanted@) == wanted_after(*g, start, goals@.take(j as int)),
            forall|f: u32|
                f < n ==> #[trigger] marks@[f as int] == marked(
                    *g,
                    goals@.take(j as int),
                ).contains(f),
        decreases goals@.len() - j,
    {
        let goal: u32 = goals[j];
        let a: usize = find_pick(g, goal);
        let ghost done = goals@.take(j as int);
        let ghost next = goals@.take(j + 1);
        assert(next.drop_last() =~= done);
        assert(next.last() == goal);
        let ghost before = wanted@;
        let pre: Vec<u32> = elements(&g.domain.actions[a].pre_cond);
        proof {
            assert(g.action_layer@[a as int] != u32::MAX);
            assert forall|p: u32| #[trigger] pre@.contains(p) implies p < n by {
                assert(g.domain.pre(a as int).contains(p));
            }
        }
        let mut k: usize = 0;
        while k < pre.len()
            invariant
                k <= pre@.len(),
                n == g.domain.n_facts(),
                g.wf(),
                wanted@.len() == n,
                before.len() == n,
                marks@.len() == n,
                forall|p: u32| #[trigger] pre@.contains(p) ==> p < n,
                forall|f: u32|
                    f < n ==> #[trigger] wanted@[f as int] == (before[f as int] || (pre@.take(
                        k as int,
                    ).contains(f) && g.fact_layer@[f as int] != 0 && !marks@[f as int])),
            decreases pre@.len() - k,
        {
            let p: u32 = pre[k];
            assert(pre@.contains(p));
            let ghost seen = pre@.take(k as int);
            let ghost w = wanted@;
            assert(pre@.take(k + 1) =~= seen.push(p));
            if g.fact_layer[p as usize] != 0 && !marks[p as usize] {
                wanted.set(p as usize, true);
            }
            proof {
                assert forall|f: u32| #[trigger] seen.push(p).contains(f) <==> f == p
                    || seen.contains(f) by {
                    if seen.contains(f) {
                        let x = choose|x: int| 0 <= x < seen.len() && seen[x] == f;
                        assert(seen.push(p)[x] == f);
                    }
                    assert(seen.push(p)[seen.len() as int] == p);
                }
                assert forall|f: u32| f < n implies #[trigger] wanted@[f as int] == (
                before[f as int] || (pre@.take(k + 1).contains(f) && g.fact_layer@[f as int] != 0
                    && !marks@[f as int])) by {
                    assert(w[f as int] == (before[f as int] || (seen.contains(f)
                        && g.fact_layer@[f as int] != 0 && !marks@[f as int])));
                }
            }
            k += 1;
        }
        assert(pre@.take(k as int) =~= pre@);
        proof {
            assert forall|p: u32| marks_set(wanted@).contains(p) <==> wanted_after(
                *g,
                start,
                next,
            ).contains(p) by {
                assert(marks_set(before).contains(p) <==> wanted_after(*g, start, done).contains(
                    p,
                ));
                assert(pre@.contains(p) <==> g.domain.pre(a as int).contains(p));
                if p < n {
                    assert(wanted@[p as int] == (before[p as int] || (pre@.contains(p)
                        && g.fact_layer@[p as int] != 0 && !marks@[p as int])));
                }
            }
            assert(marks_set(wanted@) =~= wanted_after(*g, start, next));
        }
        let ghost marks0 = marks@;
        let add: Vec<u32> = elements(&g.domain.actions[a].add_effects[0]);
        mark_all(&mut marks, &add);
        proof {
            assert forall|f: u32| f < n implies #[trigger] marks@[f as int] == marked(
                *g,
                next,
            ).contains(f) by {
                assert(marks0[f as int] == marked(*g, done).contains(f));
                assert(add@.contains(f) <==> g.domain.add(a as int).contains(f));
                if marked(*g, done).contains(f) {
                    let x = choose|x: int|
                        0 <= x < done.len() && #[trigger] g.domain.add(
                            pick(*g, done[x]),
                        ).contains(f);
                    assert(g.domain.add(pick(*g, next[x])).contains(f));
                }
                if add@.contains(f) {
                    assert(g.domain.add(pick(*g, next[j as int])).contains(f));
                }
                if marked(*g, next).contains(f) {
                    let x = choose|x: int|
                        0 <= x < next.len() && #[trigger] g.domain.add(
                            pick(*g, next[x]),
                        ).contains(f);
                    if x < j {
                        assert(g.domain.add(pick(*g, done[x])).contains(f));
                    }
                }
            }
        }
        j += 1;
    }
    assert(goals@.take(j as int) =~= goals@);
}

/// The goal facts that are facts of the domain.
pub open spec fn own_goals(g: GraphPlan, goal: Set<u32>) -> Set<u32> {
    Set::new(|f: u32| f < g.domain.n_facts() && goal.contains(f))
}

/// The number of actions of the relaxed plan for `goal_state` that the graph gives.
pub fn plan_length(domain: &ClassicalDomain, graphplan: &GraphPlan, goal_state: &HashSet<u32>) -> (len:
    u32)
    requires
        graphplan.wf(),
        graphplan.domain == domain,
    ensures
        len == steps(
            *graphplan,
            own_goals(*graphplan, goal_state@),
            graphplan.depth as nat,
        ),
        len <= domain.n_facts(),
{
    let n: usize = domain.facts.names.len();
    let mut wanted: Vec<bool> = vec![false; n];
    let start: Vec<u32> = elements(goal_state);
    mark_all(&mut wanted, &start);
    let ghost goal = own_goals(*graphplan, goal_state@);
    assert(marks_set(wanted@) =~= goal) by {
        assert forall|f: u32| marks_set(wanted@).contains(f) <==> goal.contains(f) by {
            assert(start@.contains(f) <==> goal_state@.contains(f));
        }
    }
    let mut len: u32 = 0;
    let mut i: u32 = graphplan.depth;
    while i > 0
        invariant
            graphplan.wf(),
            i <= graphplan.depth,
            n == graphplan.domain.n_facts(),
            wanted@.len() == n,
            len + steps(*graphplan, marks_set(wanted@), i as nat) == steps(
                *graphplan,
                goal,
                graphplan.depth as nat,
            ),
            len <= above(graphplan.fact_layer@, i as nat),
        decreases i,
    {
        let goals: Vec<u32> = find_goals(graphplan, &wanted, i);
        proof {
            lemma_layer_goals(
                *graphplan,
                marks_set(wanted@),
                i as nat,
                graphplan.domain.n_facts(),
            );
            lemma_goals_at(*graphplan, marks_set(wanted@), i as nat, graphplan.domain.n_facts());
            assert(graphplan.fact_layer@.take(n as int) =~= graphplan.fact_layer@);
            lemma_above_at(graphplan.fact_layer@, i as nat);
            lemma_above_bound(graphplan.fact_layer@, (i - 1) as nat);
            assert forall|j: int| 0 <= j < goals@.len() implies #[trigger] goals@[j]
                < graphplan.domain.n_facts() && 0 < graphplan.fact_layer@[goals@[j] as int]
                < u32::MAX by {
                assert(goals@.contains(goals@[j]));
            }
        }
        pick_layer(graphplan, &mut wanted, &goals);
        len = len + goals.len() as u32;
        i = i - 1;
    }
    proof {
        lemma_above_bound(graphplan.fact_layer@, 0);
    }
    len
}

/// The graph is one that the facts `s` and the goal give, and `len` is the
/// length of the relaxed plan that it gives.
pub open spec fn is_ff_of(
    g: GraphPlan,
    domain: ClassicalDomain,
    s: Set<u32>,
    goal: Set<u32>,
    len: u32,
) -> bool {
    &&& *g.domain == domain
    &&& g.wf()
    &&& g.is_layered(s, goal)
    &&& len == steps(g, own_goals(g, goal), g.depth as nat)
}

/// Some graph for the facts `s` and the goal gives a relaxed plan of length `len`.
pub open spec fn is_ff(domain: ClassicalDomain, s: Set<u32>, goal: Set<u32>, len: u32) -> bool {
    exists|g: GraphPlan| is_ff_of(g, domain, s, goal, len)
}

/// The length of a relaxed plan from `state` to `goal`, or nothing where the
/// goal cannot be reached. Where several graphs are possible, which one gives
/// the length is left open.
pub fn h_ff(domain: &ClassicalDomain, state: &HashSet<u32>, goal: &HashSet<u32>) -> (h: Option<u32>)
    requires
        2 * (domain.n_facts() + 1) < u32::MAX,
    ensures
        h is None <==> forall|k: nat| !#[trigger]
            crate::graphplan::reached_at(*domain, state@, goal@, k),
        h matches Some(len) ==> is_ff(*domain, state@, goal@, len),
{
    match GraphPlan::build_graph(domain, state, goal) {
        Some(graph) => {
            let len: u32 = plan_length(domain, &graph, goal);
            assert(is_ff_of(graph, *domain, state@, goal@, len));
            Some(len)
        },
        None => None,
    }
}

} // verus!

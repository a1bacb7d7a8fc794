//! Laws of the relaxed plan length.

use vstd::prelude::*;

use crate::domain::ClassicalDomain;
use crate::graphplan::GraphPlan;

verus! {

/// Some action is the best one that supplies a fact, where any action supplies it.
pub proof fn lemma_pick_exists(g: GraphPlan, f: u32, n: nat) -> (best: Option<int>)
    requires
        n <= g.domain.n_actions(),
    ensures
        match best {
            Some(a) => {
                &&& crate::ff::supplies(g, f, a)
                &&& forall|b: int|
                    b < n && #[trigger] crate::ff::supplies(g, f, b) ==> crate::ff::preferred(
                        *g.domain,
                        a,
                        b,
                    )
            },
            None => forall|b: int| b < n ==> !#[trigger] crate::ff::supplies(g, f, b),
        },
    decreases n,
{
    if n == 0 {
        None
    } else {
        let last = n - 1;
        let rest = lemma_pick_exists(g, f, (n - 1) as nat);
        match rest {
            Some(a) => if crate::ff::supplies(g, f, last) && !crate::ff::preferred(
                *g.domain,
                a,
                last,
            ) {
                Some(last)
            } else {
                rest
            },
            None => if crate::ff::supplies(g, f, last) {
                Some(last)
            } else {
                None
            },
        }
    }
}

/// The pick for a placed fact is a best supplying action.
pub proof fn lemma_pick_is_best(g: GraphPlan, f: u32)
    requires
        g.wf(),
        f < g.domain.n_facts(),
        0 < g.fact_layer@[f as int] < u32::MAX,
    ensures
        crate::ff::is_pick(g, f, crate::ff::pick(g, f)),
{
    let best = lemma_pick_exists(g, f, g.domain.n_actions());
    let a = choose|a: int| #[trigger]
        g.domain.adds(a, f) && g.action_layer@[a] == g.fact_layer@[f as int] - 1;
    assert(crate::ff::supplies(g, f, a));
    assert(best is Some);
    assert(crate::ff::is_pick(g, f, best->0));
}

/// What is wanted after some of the goals stays wanted after all of them.
proof fn lemma_wanted_grows(g: GraphPlan, wanted: Set<u32>, goals: Seq<u32>, m: int)
    requires
        0 <= m <= goals.len(),
    ensures
        crate::ff::wanted_after(g, wanted, goals.take(m)).subset_of(
            crate::ff::wanted_after(g, wanted, goals),
        ),
    decreases goals.len(),
{
    if m == goals.len() {
        assert(goals.take(m) =~= goals);
    } else {
        assert(goals.drop_last().take(m) =~= goals.take(m));
        lemma_wanted_grows(g, wanted, goals.drop_last(), m);
    }
}

/// From a layer with a wanted fact down, there is an action for each layer of facts.
proof fn lemma_steps_below(g: GraphPlan, s: Set<u32>, goal: Set<u32>, wanted: Set<u32>, i: nat, f: u32)
    requires
        g.wf(),
        g.is_layered(s, goal),
        i % 2 == 0,
        i <= g.depth,
        f < g.domain.n_facts(),
        wanted.contains(f),
        g.fact_layer@[f as int] == i,
    ensures
        crate::ff::steps(g, wanted, i) >= i / 2,
    decreases i,
{
    if i > 0 {
        let d = *g.domain;
        let n = d.n_facts();
        let goals = crate::ff::layer_goals(g, wanted, i);
        crate::ff::lemma_layer_goals(g, wanted, i, n);
        assert(goals.contains(f));
        let first = goals[0];
        assert(goals.contains(first));
        lemma_pick_is_best(g, first);
        let a = crate::ff::pick(g, first);
        let after = crate::ff::wanted_after(g, wanted, goals);
        let odd = crate::ff::layer_goals(g, after, (i - 1) as nat);
        crate::ff::lemma_layer_goals(g, after, (i - 1) as nat, n);
        assert(odd.len() == 0) by {
            if odd.len() > 0 {
                assert(odd.contains(odd[0]));
            }
        }
        assert(crate::ff::steps(g, after, (i - 1) as nat) == crate::ff::steps(
            g,
            after,
            (i - 2) as nat,
        ));
        if i > 2 {
            let j = (i / 2 - 1) as nat;
            assert(g.action_layer@[a] / 2 == j);
            assert(crate::graphplan::fires(d, s, j, a));
            let p = choose|p: u32|
                d.pre(a).contains(p) && !crate::graphplan::known(d, s, (j - 1) as nat).contains(p);
            assert(d.pre(a).contains(p) && !crate::graphplan::known(
                d,
                s,
                (j - 1) as nat,
            ).contains(p));
            assert(crate::graphplan::enters(d, s, j, p));
            assert(g.fact_layer@[p as int] == 2 * j);
            let one = goals.take(1);
            assert(one.drop_last() =~= Seq::empty());
            assert(one.last() == first);
            assert(crate::ff::is_new_goal(g, one, p));
            assert(crate::ff::wanted_after(g, wanted, one).contains(p));
            lemma_wanted_grows(g, wanted, goals, 1);
            lemma_steps_below(g, s, goal, after, (i - 2) as nat, p);
        }
    }
}

/// A relaxed plan has at least one action for every layer of facts above the
/// first, and none where the goal holds at the start.
pub proof fn law_one_action_per_layer(g: GraphPlan, s: Set<u32>, goal: Set<u32>, len: u32)
    requires
        crate::ff::is_ff_of(g, *g.domain, s, goal, len),
    ensures
        len >= g.depth / 2,
        len == 0 <==> goal.subset_of(crate::graphplan::known(*g.domain, s, 0)),
{
    let k = (g.depth / 2) as nat;
    let d = *g.domain;
    if k > 0 {
        let f = choose|f: u32|
            goal.contains(f) && !crate::graphplan::known(d, s, (k - 1) as nat).contains(f);
        assert(goal.contains(f) && !crate::graphplan::known(d, s, (k - 1) as nat).contains(f));
        assert(crate::graphplan::known(d, s, k).contains(f));
        crate::graphplan::lemma_known_bound(d, s, k, f);
        let l = g.fact_layer@[f as int];
        assert(crate::graphplan::enters(d, s, (l / 2) as nat, f));
        if l / 2 < k {
            crate::graphplan::lemma_known_grows(d, s, (l / 2) as nat, (k - 1) as nat);
        }
        assert(l == g.depth);
        lemma_steps_below(g, s, goal, crate::ff::own_goals(g, goal), g.depth as nat, f);
        crate::graphplan::lemma_known_grows(d, s, 0, (k - 1) as nat);
    }
}

/// What the graph reaches in `k` layers is within the first `k` layers.
proof fn lemma_known_in_layer(d: ClassicalDomain, s: Set<u32>, k: nat)
    ensures
        crate::graphplan::known(d, s, k).subset_of(crate::lmcut_laws::layer(d, s, k)),
    decreases k,
{
    if k > 0 {
        let k1 = (k - 1) as nat;
        lemma_known_in_layer(d, s, k1);
        let known = crate::graphplan::known(d, s, k1);
        let below = crate::lmcut_laws::layer(d, s, k1);
        assert forall|f: u32| crate::graphplan::known(d, s, k).contains(
            f,
        ) implies crate::lmcut_laws::layer(d, s, k).contains(f) by {
            if !known.contains(f) {
                let a = choose|a: int| #[trigger]
                    d.adds(a, f) && crate::graphplan::triggered(d, known, a);
                assert(d.adds(a, f) && d.pre(a).subset_of(below));
            }
        }
    }
}

/// The landmark-cut value never exceeds the relaxed plan length, and is finite
/// wherever that is.
pub proof fn law_lmcut_at_most_ff(
    d: ClassicalDomain,
    s: Set<u32>,
    goal: Set<u32>,
    len: u32,
    value: Option<u32>,
)
    requires
        crate::ff::is_ff(d, s, goal, len),
        crate::lmcut::is_lmcut_value(d, s, goal, value),
    ensures
        value matches Some(v) && v <= len,
{
    let g = choose|g: GraphPlan| crate::ff::is_ff_of(g, d, s, goal, len);
    let k = (g.depth / 2) as nat;
    law_one_action_per_layer(g, s, goal, len);
    lemma_known_in_layer(d, s, k);
    assert forall|f: u32| #[trigger] goal.contains(f) implies f < d.n_facts() by {
        crate::graphplan::lemma_known_bound(d, s, k, f);
    }
    crate::lmcut_laws::law_value_is_first_layer_with_the_goal(d, s, goal, value);
    assert(goal.subset_of(crate::lmcut_laws::layer(d, s, k)));
}

/// The actions that are picked for the goals, in turn.
spec fn picks(g: GraphPlan, goals: Seq<u32>) -> Seq<int> {
    goals.map_values(|f: u32| crate::ff::pick(g, f))
}

/// The plan adds what it adds, and keeps what holds.
proof fn lemma_result_push(d: ClassicalDomain, s: Set<u32>, plan: Seq<int>, a: int)
    ensures
        crate::lmcut_laws::relaxed_result(d, s, plan.push(a))
            == crate::lmcut_laws::relaxed_result(d, s, plan).union(d.add(a)),
        crate::lmcut_laws::is_relaxed_plan(d, s, plan.push(a)) <==> {
            &&& crate::lmcut_laws::is_relaxed_plan(d, s, plan)
            &&& 0 <= a < d.n_actions()
            &&& d.pre(a).subset_of(crate::lmcut_laws::relaxed_result(d, s, plan))
        },
{
    assert(plan.push(a).drop_last() =~= plan);
}

/// Plans keep what holds at the start.
proof fn lemma_result_grows(d: ClassicalDomain, s: Set<u32>, plan: Seq<int>)
    ensures
        s.subset_of(crate::lmcut_laws::relaxed_result(d, s, plan)),
    decreases plan.len(),
{
    if plan.len() > 0 {
        lemma_result_grows(d, s, plan.drop_last());
    }
}

/// The wanted facts have a place.
spec fn are_placed(g: GraphPlan, wanted: Set<u32>) -> bool {
    forall|f: u32| #[trigger]
        wanted.contains(f) ==> f < g.domain.n_facts() && g.fact_layer@[f as int] != u32::MAX
}

/// What becomes wanted has a place.
proof fn lemma_wanted_placed(g: GraphPlan, wanted: Set<u32>, goals: Seq<u32>)
    requires
        g.wf(),
        are_placed(g, wanted),
        forall|x: int|
            0 <= x < goals.len() ==> #[trigger] goals[x] < g.domain.n_facts() && 0
                < g.fact_layer@[goals[x] as int] < u32::MAX,
    ensures
        are_placed(g, crate::ff::wanted_after(g, wanted, goals)),
    decreases goals.len(),
{
    if goals.len() > 0 {
        let before = crate::ff::wanted_after(g, wanted, goals.drop_last());
        assert forall|x: int| 0 <= x < goals.drop_last().len() implies #[trigger] goals.drop_last()[x]
            < g.domain.n_facts() && 0 < g.fact_layer@[goals.drop_last()[x] as int] < u32::MAX by {
            assert(goals.drop_last()[x] == goals[x]);
        }
        lemma_wanted_placed(g, wanted, goals.drop_last());
        let last = goals[goals.len() - 1];
        lemma_pick_is_best(g, last);
        assert forall|f: u32| #[trigger] crate::ff::wanted_after(g, wanted, goals).contains(
            f,
        ) implies f < g.domain.n_facts() && g.fact_layer@[f as int] != u32::MAX by {
            if !before.contains(f) {
                assert(g.domain.pre(crate::ff::pick(g, last)).contains(f));
            }
        }
    }
}

/// What is wanted below the layer `i` holds.
spec fn holds_below(g: GraphPlan, held: Set<u32>, wanted: Set<u32>, i: nat) -> bool {
    forall|f: u32| #[trigger]
        wanted.contains(f) && g.fact_layer@[f as int] < i ==> held.contains(f)
}

/// The goals belong to the layer `i`.
spec fn are_of_layer(g: GraphPlan, goals: Seq<u32>, i: nat) -> bool {
    forall|x: int|
        0 <= x < goals.len() ==> #[trigger] goals[x] < g.domain.n_facts() && 0
            < g.fact_layer@[goals[x] as int] == i < u32::MAX
}

/// The graph is one of the facts `s` and the goal.
#[verifier::opaque]
spec fn is_graph(g: GraphPlan, s: Set<u32>, goal: Set<u32>) -> bool {
    g.wf() && g.is_layered(s, goal)
}

/// The action picked for the last goal can be applied where what the picks make
/// wanted below holds, and what the picks before it add.
proof fn lemma_pick_applies(
    g: GraphPlan,
    s: Set<u32>,
    goal: Set<u32>,
    wanted: Set<u32>,
    goals: Seq<u32>,
    i: nat,
    held: Set<u32>,
    m: int,
)
    requires
        is_graph(g, s, goal),
        0 < m <= goals.len(),
        are_of_layer(g, goals, i),
        holds_below(g, held, crate::ff::wanted_after(g, wanted, goals), i),
        s.subset_of(held),
        crate::ff::marked(g, goals.take(m - 1)).subset_of(held),
    ensures
        0 <= crate::ff::pick(g, goals[m - 1]) < g.domain.n_actions(),
        g.domain.pre(crate::ff::pick(g, goals[m - 1])).subset_of(held),
{
    reveal(is_graph);
    let d = *g.domain;
    let f = goals[m - 1];
    let a = crate::ff::pick(g, f);
    lemma_pick_is_best(g, f);
    let some = goals.take(m);
    assert(some.drop_last() =~= goals.take(m - 1));
    lemma_wanted_grows(g, wanted, goals, m);
    assert(g.action_layer@[a] == i - 1);
    assert forall|p: u32| d.pre(a).contains(p) implies held.contains(p) by {
        assert(g.fact_layer@[p as int] < i);
        if g.fact_layer@[p as int] == 0 {
            assert(crate::graphplan::enters(d, s, 0, p));
            assert(s.contains(p));
        } else if !crate::ff::marked(g, some.drop_last()).contains(p) {
            assert(crate::ff::is_new_goal(g, some, p));
            assert(crate::ff::wanted_after(g, wanted, some).contains(p));
        }
    }
}

/// The picks of a layer can follow a plan for what they make wanted.
proof fn lemma_append_picks(
    g: GraphPlan,
    s: Set<u32>,
    goal: Set<u32>,
    wanted: Set<u32>,
    goals: Seq<u32>,
    i: nat,
    below: Seq<int>,
    m: int,
)
    requires
        is_graph(g, s, goal),
        0 <= m <= goals.len(),
        are_of_layer(g, goals, i),
        crate::lmcut_laws::is_relaxed_plan(*g.domain, s, below),
        holds_below(
            g,
            crate::lmcut_laws::relaxed_result(*g.domain, s, below),
            crate::ff::wanted_after(g, wanted, goals),
            i,
        ),
    ensures
        crate::lmcut_laws::is_relaxed_plan(*g.domain, s, below + picks(g, goals.take(m))),
        crate::lmcut_laws::relaxed_result(*g.domain, s, below).subset_of(
            crate::lmcut_laws::relaxed_result(*g.domain, s, below + picks(g, goals.take(m))),
        ),
        crate::ff::marked(g, goals.take(m)).subset_of(
            crate::lmcut_laws::relaxed_result(*g.domain, s, below + picks(g, goals.take(m))),
        ),
    decreases m,
{
    let d = *g.domain;
    if m == 0 {
        assert(below + picks(g, goals.take(0)) =~= below);
    } else {
        lemma_append_picks(g, s, goal, wanted, goals, i, below, m - 1);
        let a = crate::ff::pick(g, goals[m - 1]);
        let before = below + picks(g, goals.take(m - 1));
        let some = goals.take(m);
        assert(below + picks(g, some) =~= before.push(a));
        let held = crate::lmcut_laws::relaxed_result(d, s, before);
        lemma_result_push(d, s, before, a);
        lemma_result_grows(d, s, before);
        lemma_pick_applies(g, s, goal, wanted, goals, i, held, m);
        assert forall|p: u32| crate::ff::marked(g, some).contains(p) implies held.union(
            d.add(a),
        ).contains(p) by {
            let j = choose|j: int|
                0 <= j < some.len() && #[trigger] d.add(crate::ff::pick(g, some[j])).contains(p);
            if j < m - 1 {
                assert(goals.take(m - 1)[j] == some[j]);
                assert(crate::ff::marked(g, goals.take(m - 1)).contains(p));
            }
        }
    }
}

/// What is wanted from the layer `i` down has a plan of as many actions as are
/// picked.
proof fn lemma_plan_exists(
    g: GraphPlan,
    s: Set<u32>,
    goal: Set<u32>,
    wanted: Set<u32>,
    i: nat,
) -> (plan: Seq<int>)
    requires
        g.wf(),
        g.is_layered(s, goal),
        are_placed(g, wanted),
        i <= g.depth,
    ensures
        plan.len() == crate::ff::steps(g, wanted, i),
        crate::lmcut_laws::is_relaxed_plan(*g.domain, s, plan),
        forall|f: u32|
            wanted.contains(f) && #[trigger] g.fact_layer@[f as int] <= i
                ==> crate::lmcut_laws::relaxed_result(*g.domain, s, plan).contains(f),
    decreases i,
{
    let d = *g.domain;
    if i == 0 {
        let plan = Seq::<int>::empty();
        assert forall|f: u32| wanted.contains(f) && #[trigger] g.fact_layer@[f as int]
            <= i implies crate::lmcut_laws::relaxed_result(d, s, plan).contains(f) by {
            assert(crate::graphplan::enters(d, s, 0, f));
        }
        plan
    } else {
        let goals = crate::ff::layer_goals(g, wanted, i);
        crate::ff::lemma_layer_goals(g, wanted, i, d.n_facts());
        let after = crate::ff::wanted_after(g, wanted, goals);
        assert forall|x: int| 0 <= x < goals.len() implies #[trigger] goals[x] < d.n_facts() && 0
            < g.fact_layer@[goals[x] as int] == i < u32::MAX by {
            assert(goals.contains(goals[x]));
        }
        assert(are_of_layer(g, goals, i));
        lemma_wanted_placed(g, wanted, goals);
        let below = lemma_plan_exists(g, s, goal, after, (i - 1) as nat);
        let n = goals.len() as int;
        assert(is_graph(g, s, goal)) by {
            reveal(is_graph);
        }
        lemma_append_picks(g, s, goal, wanted, goals, i, below, n);
        assert(goals.take(n) =~= goals);
        let plan = below + picks(g, goals);
        let held = crate::lmcut_laws::relaxed_result(d, s, plan);
        assert forall|f: u32| wanted.contains(f) && #[trigger] g.fact_layer@[f as int]
            <= i implies held.contains(f) by {
            if g.fact_layer@[f as int] == i {
                assert(goals.contains(f));
                let x = choose|x: int| 0 <= x < goals.len() && goals[x] == f;
                lemma_pick_is_best(g, f);
                assert(d.add(crate::ff::pick(g, goals[x])).contains(f));
                assert(crate::ff::marked(g, goals).contains(f));
            } else {
                assert(goals.take(0) =~= Seq::empty());
                lemma_wanted_grows(g, wanted, goals, 0);
            }
        }
        plan
    }
}

/// The plan leads to the goal, deletes ignored, in as many steps.
pub open spec fn is_plan_of(
    d: ClassicalDomain,
    s: Set<u32>,
    goal: Set<u32>,
    len: nat,
    plan: Seq<int>,
) -> bool {
    &&& plan.len() == len
    &&& crate::lmcut_laws::is_relaxed_plan(d, s, plan)
    &&& goal.subset_of(crate::lmcut_laws::relaxed_result(d, s, plan))
}

/// The length is the one of a relaxed plan for the goal.
pub proof fn law_length_is_the_one_of_a_plan(
    d: ClassicalDomain,
    s: Set<u32>,
    goal: Set<u32>,
    len: u32,
)
    requires
        crate::ff::is_ff(d, s, goal, len),
    ensures
        exists|plan: Seq<int>| is_plan_of(d, s, goal, len as nat, plan),
{
    let g = choose|g: GraphPlan| crate::ff::is_ff_of(g, d, s, goal, len);
    let wanted = crate::ff::own_goals(g, goal);
    let k = (g.depth / 2) as nat;
    assert forall|f: u32| #[trigger] goal.contains(f) implies f < d.n_facts() by {
        assert(crate::graphplan::known(d, s, k).contains(f));
        crate::graphplan::lemma_known_bound(d, s, k, f);
    }
    let plan = lemma_plan_exists(g, s, goal, wanted, g.depth as nat);
    assert forall|f: u32| goal.contains(f) implies crate::lmcut_laws::relaxed_result(
        d,
        s,
        plan,
    ).contains(f) by {
        assert(g.fact_layer@[f as int] != u32::MAX);
        assert(wanted.contains(f));
    }
    assert(is_plan_of(d, s, goal, len as nat, plan));
}

/// The first layers are within what the graph reaches.
proof fn lemma_layer_in_known(d: ClassicalDomain, s: Set<u32>, k: nat)
    ensures
        crate::lmcut_laws::layer(d, s, k).subset_of(crate::graphplan::known(d, s, k)),
    decreases k,
{
    if k > 0 {
        let k1 = (k - 1) as nat;
        lemma_layer_in_known(d, s, k1);
        let known = crate::graphplan::known(d, s, k1);
        let below = crate::lmcut_laws::layer(d, s, k1);
        assert forall|f: u32| crate::lmcut_laws::layer(d, s, k).contains(
            f,
        ) implies crate::graphplan::known(d, s, k).contains(f) by {
            if !below.contains(f) {
                let a = choose|a: int| #[trigger] d.adds(a, f) && d.pre(a).subset_of(below);
                assert(d.adds(a, f) && crate::graphplan::triggered(d, known, a));
            }
        }
    }
}

/// The number of the first layer with the goal is the landmark-cut value.
proof fn lemma_first_layer_is_the_value(
    d: ClassicalDomain,
    s: Set<u32>,
    goal: Set<u32>,
    k: nat,
    value: Option<u32>,
)
    requires
        crate::graphplan::reached_at(d, s, goal, k),
        crate::lmcut::is_lmcut_value(d, s, goal, value),
        k < u32::MAX,
    ensures
        value == Some(k as u32),
{
    lemma_known_in_layer(d, s, k);
    assert forall|f: u32| #[trigger] goal.contains(f) implies f < d.n_facts() by {
        crate::graphplan::lemma_known_bound(d, s, k, f);
    }
    crate::lmcut_laws::law_value_is_first_layer_with_the_goal(d, s, goal, value);
    assert(goal.subset_of(crate::lmcut_laws::layer(d, s, k)));
    let v = value->0 as nat;
    if v < k {
        lemma_layer_in_known(d, s, v);
        crate::graphplan::lemma_known_grows(d, s, v, (k - 1) as nat);
        assert(goal.subset_of(crate::graphplan::known(d, s, (k - 1) as nat)));
    }
}

/// The graph has two layers for each unit of the landmark-cut value.
pub proof fn law_depth_is_twice_the_lmcut_value(
    g: GraphPlan,
    s: Set<u32>,
    goal: Set<u32>,
    value: Option<u32>,
)
    requires
        g.is_layered(s, goal),
        crate::lmcut::is_lmcut_value(*g.domain, s, goal, value),
    ensures
        value == Some((g.depth / 2) as u32),
{
    let k = (g.depth / 2) as nat;
    assert(crate::graphplan::reached_at(*g.domain, s, goal, k));
    lemma_first_layer_is_the_value(*g.domain, s, goal, k, value);
}

} // verus!

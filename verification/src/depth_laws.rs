//! Laws of the depths of facts and of the landmark cuts, told by the actions of
//! the domain and what they cost.

use vstd::prelude::*;

use crate::domain::ClassicalDomain;

verus! {

/// What holds has no depth, and what an action adds is no deeper than the action's
/// cost and the deepest fact of its precondition.
pub proof fn law_depths_agree_with_the_actions(
    d: ClassicalDomain,
    costs: Seq<u32>,
    s: Set<u32>,
    h: Seq<u32>,
    a: int,
    f: u32,
    m: u32,
)
    requires
        d.facts.names@.len() <= u32::MAX,
        crate::hmax::is_hmax(d, costs, s, h),
        f < d.facts.names@.len(),
        m < u32::MAX,
    ensures
        h.len() == d.facts.names@.len(),
        s.contains(f) ==> h[f as int] == 0,
        0 <= a < d.actions@.len() && d.actions@[a].add_effects@.len() > 0
            && d.actions@[a].add_effects@[0]@.contains(f) && (forall|p: u32| #[trigger]
            d.actions@[a].pre_cond@.contains(p) ==> p < h.len() && h[p as int] <= m)
            ==> h[f as int] <= costs[a] + m,
{
    if 0 <= a < d.actions@.len() && d.actions@[a].add_effects@.len() > 0
        && d.actions@[a].add_effects@[0]@.contains(f) && (forall|p: u32| #[trigger]
        d.actions@[a].pre_cond@.contains(p) ==> p < h.len() && h[p as int] <= m) {
        assert(d.adds(a, f));
        let top = crate::hmax::lemma_greatest_exists(h, d.pre(a));
        assert(top <= m);
    }
}

/// The depth of a fact that does not hold is finite only where an action adds it
/// whose cost and whose whole precondition's depths come to no more.
pub proof fn law_depths_come_of_actions(
    d: ClassicalDomain,
    costs: Seq<u32>,
    s: Set<u32>,
    h: Seq<u32>,
    f: u32,
) -> (a: int)
    requires
        d.facts.names@.len() <= u32::MAX,
        crate::hmax::is_hmax(d, costs, s, h),
        f < d.facts.names@.len(),
        !s.contains(f),
        h[f as int] < u32::MAX,
    ensures
        0 <= a < d.actions@.len(),
        d.actions@[a].add_effects@.len() > 0,
        d.actions@[a].add_effects@[0]@.contains(f),
        costs[a] <= h[f as int],
        forall|p: u32| #[trigger]
            d.actions@[a].pre_cond@.contains(p) ==> p < h.len() && costs[a] + h[p as int]
                <= h[f as int],
{
    let k = h[f as int] as int;
    assert(crate::hmax::hmax_le(d, costs, s, k, f));
    let t = choose|t: nat| crate::hmax::reached_in(d, costs, s, t, k, f);
    let a = lemma_last_action(d, costs, s, h, t, k, f);
    assert forall|p: u32| #[trigger] d.actions@[a].pre_cond@.contains(p) implies p < h.len()
        && costs[a] + h[p as int] <= h[f as int] by {
        assert(d.pre(a).contains(p));
    }
    a
}

/// The action by which a fact is reached.
proof fn lemma_last_action(
    d: ClassicalDomain,
    costs: Seq<u32>,
    s: Set<u32>,
    h: Seq<u32>,
    t: nat,
    k: int,
    f: u32,
) -> (a: int)
    requires
        d.facts.names@.len() <= u32::MAX,
        crate::hmax::is_hmax(d, costs, s, h),
        !s.contains(f),
        0 <= k < u32::MAX,
        crate::hmax::reached_in(d, costs, s, t, k, f),
    ensures
        d.adds(a, f),
        costs[a] <= k,
        forall|p: u32| #[trigger]
            d.pre(a).contains(p) ==> p < h.len() && costs[a] + h[p as int] <= k,
    decreases t,
{
    let t1 = (t - 1) as nat;
    if crate::hmax::reached_in(d, costs, s, t1, k, f) {
        lemma_last_action(d, costs, s, h, t1, k, f)
    } else {
        let a = choose|a: int| #[trigger]
            d.adds(a, f) && crate::hmax::reaches_all(d, costs, s, t1, k - costs[a], d.pre(a));
        assert forall|p: u32| #[trigger] d.pre(a).contains(p) implies p < h.len() && costs[a]
            + h[p as int] <= k by {
            assert(crate::hmax::reached_in(d, costs, s, t1, k - costs[a], p));
            crate::hmax::lemma_hmax_below(d, costs, s, h, t1, k - costs[a], p);
        }
        a
    }
}

/// Nothing is deeper than it has to be: a table that has nothing for what holds, and
/// for what an action adds no more than the action's cost and the entry of some
/// fact of its precondition, has no entry above the depth.
pub proof fn law_depths_are_above_every_agreeing_table(
    d: ClassicalDomain,
    costs: Seq<u32>,
    s: Set<u32>,
    h: Seq<u32>,
    p: Seq<u32>,
    f: u32,
)
    requires
        d.facts.names@.len() <= u32::MAX,
        crate::hmax::is_hmax(d, costs, s, h),
        p.len() == d.facts.names@.len(),
        forall|g: u32| g < p.len() && #[trigger] s.contains(g) ==> p[g as int] == 0,
        forall|a: int, g: u32|
            0 <= a < d.actions@.len() && d.actions@[a].add_effects@.len() > 0
                && #[trigger] d.actions@[a].add_effects@[0]@.contains(g) && g < p.len()
                ==> p[g as int] <= costs[a] || exists|x: u32| #[trigger]
                d.actions@[a].pre_cond@.contains(x) && (x >= p.len() || p[g as int] <= costs[a]
                    + p[x as int]),
        f < p.len(),
        h[f as int] < u32::MAX,
    ensures
        p[f as int] <= h[f as int],
{
    let k = h[f as int] as int;
    assert(crate::hmax::hmax_le(d, costs, s, k, f));
    let t = choose|t: nat| crate::hmax::reached_in(d, costs, s, t, k, f);
    lemma_agreeing_below(d, costs, s, p, t, k, f);
}

proof fn lemma_agreeing_below(
    d: ClassicalDomain,
    costs: Seq<u32>,
    s: Set<u32>,
    p: Seq<u32>,
    t: nat,
    k: int,
    f: u32,
)
    requires
        p.len() == d.facts.names@.len(),
        forall|g: u32| g < p.len() && #[trigger] s.contains(g) ==> p[g as int] == 0,
        forall|a: int, g: u32|
            0 <= a < d.actions@.len() && d.actions@[a].add_effects@.len() > 0
                && #[trigger] d.actions@[a].add_effects@[0]@.contains(g) && g < p.len()
                ==> p[g as int] <= costs[a] || exists|x: u32| #[trigger]
                d.actions@[a].pre_cond@.contains(x) && (x >= p.len() || p[g as int] <= costs[a]
                    + p[x as int]),
        crate::hmax::reached_in(d, costs, s, t, k, f),
    ensures
        f < p.len(),
        p[f as int] <= k,
    decreases t,
{
    if t > 0 {
        let t1 = (t - 1) as nat;
        if crate::hmax::reached_in(d, costs, s, t1, k, f) {
            lemma_agreeing_below(d, costs, s, p, t1, k, f);
        } else {
            let a = choose|a: int| #[trigger]
                d.adds(a, f) && crate::hmax::reaches_all(d, costs, s, t1, k - costs[a], d.pre(a));
            assert(d.actions@[a].add_effects@[0]@.contains(f));
            if p[f as int] > costs[a] {
                let x = choose|x: u32| #[trigger]
                    d.actions@[a].pre_cond@.contains(x) && (x >= p.len() || p[f as int] <= costs[a]
                        + p[x as int]);
                assert(d.pre(a).contains(x));
                lemma_agreeing_below(d, costs, s, p, t1, k - costs[a], x);
            }
        }
    }
}

/// The depth of a goal is that of its deepest fact.
pub proof fn law_goal_is_as_deep_as_its_deepest_fact(
    d: ClassicalDomain,
    costs: Seq<u32>,
    s: Set<u32>,
    goal: Set<u32>,
    v: Option<u32>,
    h: Seq<u32>,
)
    requires
        d.facts.names@.len() <= u32::MAX,
        crate::hmax::is_hmax(d, costs, s, h),
        crate::hmax::is_goal_depth(d, costs, s, goal, v),
    ensures
        v is Some ==> forall|g: u32| #[trigger]
            goal.contains(g) ==> g < h.len() && h[g as int] <= v->0,
        v is Some && v->0 > 0 ==> exists|g: u32| #[trigger]
            goal.contains(g) && g < h.len() && h[g as int] == v->0,
        v is None ==> exists|g: u32| #[trigger]
            goal.contains(g) && (g >= h.len() || h[g as int] == u32::MAX),
{
    if v is Some {
        let k = v->0 as int;
        assert forall|g: u32| #[trigger] goal.contains(g) implies g < h.len() && h[g as int]
            <= k by {
            assert(crate::hmax::hmax_le(d, costs, s, k, g));
            let t = choose|t: nat| crate::hmax::reached_in(d, costs, s, t, k, g);
            crate::hmax::lemma_hmax_below(d, costs, s, h, t, k, g);
        }
        if k > 0 && forall|g: u32| #[trigger] goal.contains(g) ==> h[g as int] < k {
            assert forall|g: u32| #[trigger] goal.contains(g) implies crate::hmax::hmax_le(
                d,
                costs,
                s,
                k - 1,
                g,
            ) by {
                assert(crate::hmax::hmax_le(d, costs, s, h[g as int] as int, g));
                let t = choose|t: nat|
                    crate::hmax::reached_in(d, costs, s, t, h[g as int] as int, g);
                lemma_reached_in_mono(d, costs, s, t, h[g as int] as int, k - 1, g);
            }
            assert(crate::hmax::goal_le(d, costs, s, k - 1, goal));
        }
    } else {
        if forall|g: u32| #[trigger] goal.contains(g) ==> g < h.len() && h[g as int] < u32::MAX {
            let k = u32::MAX - 1;
            assert forall|g: u32| #[trigger] goal.contains(g) implies crate::hmax::hmax_le(
                d,
                costs,
                s,
                k,
                g,
            ) by {
                assert(crate::hmax::hmax_le(d, costs, s, h[g as int] as int, g));
                let t = choose|t: nat|
                    crate::hmax::reached_in(d, costs, s, t, h[g as int] as int, g);
                lemma_reached_in_mono(d, costs, s, t, h[g as int] as int, k, g);
            }
            assert(crate::hmax::goal_le(d, costs, s, k, goal));
        }
    }
}

/// What is reached at a cost is reached at a greater one.
proof fn lemma_reached_in_mono(
    d: ClassicalDomain,
    costs: Seq<u32>,
    s: Set<u32>,
    t: nat,
    k: int,
    l: int,
    f: u32,
)
    requires
        crate::hmax::reached_in(d, costs, s, t, k, f),
        k <= l,
    ensures
        crate::hmax::reached_in(d, costs, s, t, l, f),
    decreases t,
{
    if t > 0 {
        let t1 = (t - 1) as nat;
        if crate::hmax::reached_in(d, costs, s, t1, k, f) {
            lemma_reached_in_mono(d, costs, s, t1, k, l, f);
        } else {
            let a = choose|a: int| #[trigger]
                d.adds(a, f) && crate::hmax::reaches_all(d, costs, s, t1, k - costs[a], d.pre(a));
            assert forall|p: u32| #[trigger] d.pre(a).contains(p) implies crate::hmax::reached_in(
                d,
                costs,
                s,
                t1,
                l - costs[a],
                p,
            ) by {
                lemma_reached_in_mono(d, costs, s, t1, k - costs[a], l - costs[a], p);
            }
            assert(crate::hmax::reaches_all(d, costs, s, t1, l - costs[a], d.pre(a)));
        }
    }
}

/// The value of a run of cuts is what the cuts cost together, given by `sums`. Those
/// that are carried over are kept, and each further one costs one. As many come on top
/// as the goal is deep where actions of the carried cuts cost nothing and others
/// cost one.
pub proof fn law_value_is_what_the_cuts_cost(
    d: ClassicalDomain,
    s: Set<u32>,
    goal: Set<u32>,
    carried: Seq<(Seq<usize>, u32)>,
    v: u32,
    cuts: Seq<(Seq<usize>, u32)>,
    sums: Seq<int>,
    costs: Seq<u32>,
    h: Seq<u32>,
)
    requires
        d.facts.names@.len() <= u32::MAX,
        crate::lmcut::is_lmcut(d, s, goal, carried, Some(v), cuts),
        sums.len() == cuts.len() + 1,
        sums[0] == 0,
        forall|i: int| 0 <= i < cuts.len() ==> sums[i + 1] == #[trigger] sums[i] + cuts[i].1,
        costs.len() == d.actions@.len(),
        forall|a: int|
            0 <= a < costs.len() ==> #[trigger] costs[a] == (if exists|i: int|
                0 <= i < carried.len() && (#[trigger] carried[i]).1 > 0 && carried[i].0.contains(
                    a as usize,
                ) {
                0u32
            } else {
                1u32
            }),
        crate::hmax::is_hmax(d, costs, s, h),
    ensures
        v == sums.last(),
        cuts.len() >= carried.len(),
        forall|i: int| 0 <= i < carried.len() ==> #[trigger] cuts[i] == carried[i],
        forall|i: int| carried.len() <= i < cuts.len() ==> (#[trigger] cuts[i]).1 == 1,
        forall|g: u32| #[trigger]
            goal.contains(g) ==> g < h.len() && h[g as int] <= cuts.len() - carried.len(),
        cuts.len() > carried.len() ==> exists|g: u32| #[trigger]
            goal.contains(g) && g < h.len() && h[g as int] == cuts.len() - carried.len(),
{
    lemma_paid_total(cuts, sums, cuts.len() as int);
    assert(cuts.take(cuts.len() as int) =~= cuts);
    assert forall|i: int| 0 <= i < carried.len() implies #[trigger] cuts[i] == carried[i] by {
        assert(cuts.take(carried.len() as int)[i] == cuts[i]);
    }
    assert(d.actions.len() == d.n_actions());
    assert(costs =~= crate::lmcut::costs_after(d.n_actions(), carried));
    law_goal_is_as_deep_as_its_deepest_fact(
        d,
        costs,
        s,
        goal,
        Some((cuts.len() - carried.len()) as u32),
        h,
    );
}

proof fn lemma_paid_total(cuts: Seq<(Seq<usize>, u32)>, sums: Seq<int>, n: int)
    requires
        0 <= n <= cuts.len(),
        sums.len() == cuts.len() + 1,
        sums[0] == 0,
        forall|i: int| 0 <= i < cuts.len() ==> sums[i + 1] == #[trigger] sums[i] + cuts[i].1,
    ensures
        crate::lmcut::paid_total(cuts.take(n)) == sums[n],
    decreases n,
{
    if n > 0 {
        lemma_paid_total(cuts, sums, n - 1);
        assert(cuts.take(n).drop_last() =~= cuts.take(n - 1));
        assert(sums[n] == sums[n - 1] + cuts[n - 1].1);
    } else {
        assert(cuts.take(0).len() == 0);
    }
}

/// A cut that is found has actions, each listed once and in order. Where the actions
/// of the cuts before it cost nothing and others cost one, each of its actions
/// costs one, needs nothing that has a depth, and adds something that has.
pub proof fn law_cuts_cross_from_what_is_free(
    d: ClassicalDomain,
    s: Set<u32>,
    goal: Set<u32>,
    carried: Seq<(Seq<usize>, u32)>,
    value: Option<u32>,
    cuts: Seq<(Seq<usize>, u32)>,
    i: int,
    costs: Seq<u32>,
    h: Seq<u32>,
    a: usize,
) -> (f: u32)
    requires
        d.facts.names@.len() <= u32::MAX,
        crate::lmcut::is_lmcut(d, s, goal, carried, value, cuts),
        carried.len() <= i < cuts.len(),
        costs.len() == d.actions@.len(),
        forall|a: int|
            0 <= a < costs.len() ==> #[trigger] costs[a] == (if exists|m: int|
                0 <= m < i && (#[trigger] cuts[m]).1 > 0 && cuts[m].0.contains(a as usize) {
                0u32
            } else {
                1u32
            }),
        crate::hmax::is_hmax(d, costs, s, h),
        cuts[i].0.contains(a),
    ensures
        cuts[i].0.len() > 0,
        forall|x: int, y: int|
            0 <= x < y < cuts[i].0.len() ==> #[trigger] cuts[i].0[x] < #[trigger] cuts[i].0[y],
        a < d.actions@.len(),
        costs[a as int] == 1,
        forall|p: u32| #[trigger]
            d.actions@[a as int].pre_cond@.contains(p) ==> p < h.len() && h[p as int] == 0,
        d.actions@[a as int].add_effects@.len() > 0,
        d.actions@[a as int].add_effects@[0]@.contains(f),
        f < h.len(),
        h[f as int] > 0,
{
    lemma_costs_left(d, cuts, i, costs);
    assert(crate::lmcut::is_next_cut(d, costs, s, goal, cuts[i].0));
    let g = choose|g: Seq<u32>| #[trigger]
        crate::hmax::is_hmax(d, costs, s, g) && crate::lmcut::is_cut_of(
            d,
            costs,
            g,
            goal,
            cuts[i].0,
        );
    lemma_one_depth_table(d, costs, s, g, h);
    assert(crate::lmcut::in_cut(d, costs, h, goal, a as int));
    let f = choose|f: u32| #[trigger]
        d.adds(a as int, f) && crate::lmcut::in_zone(d, h, goal, f);
    let t = choose|t: nat| crate::lmcut::in_zone_at(d, h, goal, t, f);
    lemma_zone_is_deep(d, h, goal, t, f);
    assert forall|p: u32| #[trigger] d.actions@[a as int].pre_cond@.contains(p) implies p < h.len()
        && h[p as int] == 0 by {
        assert(d.pre(a as int).contains(p));
    }
    f
}

/// What is in the zone has a depth.
proof fn lemma_zone_is_deep(d: ClassicalDomain, h: Seq<u32>, goal: Set<u32>, t: nat, f: u32)
    requires
        crate::lmcut::in_zone_at(d, h, goal, t, f),
        h.len() == d.n_facts(),
    ensures
        f < h.len(),
        h[f as int] > 0,
    decreases t,
{
    if t > 0 {
        if crate::lmcut::in_zone_at(d, h, goal, (t - 1) as nat, f) {
            lemma_zone_is_deep(d, h, goal, (t - 1) as nat, f);
        } else {
            let g = choose|g: u32|
                crate::lmcut::in_zone_at(d, h, goal, (t - 1) as nat, g)
                    && #[trigger] crate::lmcut::supports(d, h, g, f);
            let a = choose|a: int| #[trigger] crate::lmcut::supports_by(d, h, a, g, f);
        }
    }
}

/// There is one table of depths.
proof fn lemma_one_depth_table(
    d: ClassicalDomain,
    costs: Seq<u32>,
    s: Set<u32>,
    h1: Seq<u32>,
    h2: Seq<u32>,
)
    requires
        crate::hmax::is_hmax(d, costs, s, h1),
        crate::hmax::is_hmax(d, costs, s, h2),
        d.n_facts() <= u32::MAX,
    ensures
        h1 == h2,
{
    assert forall|i: int| 0 <= i < h1.len() implies h1[i] == h2[i] by {
        let f = i as u32;
        if h1[f as int] < u32::MAX {
            let t = choose|t: nat|
                crate::hmax::reached_in(d, costs, s, t, h1[f as int] as int, f);
            crate::hmax::lemma_hmax_below(d, costs, s, h2, t, h1[f as int] as int, f);
        }
        if h2[f as int] < u32::MAX {
            let t = choose|t: nat|
                crate::hmax::reached_in(d, costs, s, t, h2[f as int] as int, f);
            crate::hmax::lemma_hmax_below(d, costs, s, h1, t, h2[f as int] as int, f);
        }
    }
    assert(h1 =~= h2);
}

/// Where an action is left out, the cuts without it stay, in their order: those given
/// by `which`.
pub proof fn law_cuts_without_an_action_stay_in_order(
    cuts: Seq<(Seq<usize>, u32)>,
    a: usize,
) -> (which: Seq<int>)
    ensures
        crate::lmcut::without(cuts, a).len() == which.len(),
        forall|x: int|
            0 <= x < which.len() ==> 0 <= #[trigger] which[x] < cuts.len()
                && !cuts[which[x]].0.contains(a) && crate::lmcut::without(cuts, a)[x]
                == cuts[which[x]],
        forall|x: int, y: int|
            0 <= x < y < which.len() ==> #[trigger] which[x] < #[trigger] which[y],
        forall|m: int|
            0 <= m < cuts.len() && !(#[trigger] cuts[m]).0.contains(a) ==> which.contains(m),
    decreases cuts.len(),
{
    reveal(Seq::filter);
    let all = crate::lmcut::without(cuts, a);
    if cuts.len() == 0 {
        Seq::empty()
    } else {
        let rest = cuts.drop_last();
        let before = crate::lmcut::without(rest, a);
        let less = law_cuts_without_an_action_stay_in_order(rest, a);
        let n = rest.len() as int;
        if !cuts.last().0.contains(a) {
            assert(all == before.push(cuts.last()));
            let which = less.push(n);
            assert forall|x: int| 0 <= x < which.len() implies 0 <= #[trigger] which[x]
                < cuts.len() && !cuts[which[x]].0.contains(a) && all[x] == cuts[which[x]] by {
                if x < less.len() {
                    assert(which[x] == less[x]);
                    assert(rest[less[x]] == cuts[less[x]]);
                }
            }
            assert forall|x: int, y: int| 0 <= x < y < which.len() implies #[trigger] which[x]
                < #[trigger] which[y] by {
                assert(which[x] == less[x]);
                if y < less.len() {
                    assert(which[y] == less[y]);
                } else {
                    assert(0 <= less[x] < rest.len());
                }
            }
            assert forall|m: int| 0 <= m < cuts.len() && !(#[trigger] cuts[m]).0.contains(
                a,
            ) implies which.contains(m) by {
                if m < n {
                    assert(rest[m] == cuts[m]);
                    let x = choose|x: int| 0 <= x < less.len() && less[x] == m;
                    assert(which[x] == m);
                } else {
                    assert(which[less.len() as int] == n);
                }
            }
            which
        } else {
            assert(all == before);
            assert forall|x: int| 0 <= x < less.len() implies 0 <= #[trigger] less[x] < cuts.len()
                && !cuts[less[x]].0.contains(a) && all[x] == cuts[less[x]] by {
                assert(rest[less[x]] == cuts[less[x]]);
            }
            assert forall|m: int| 0 <= m < cuts.len() && !(#[trigger] cuts[m]).0.contains(
                a,
            ) implies less.contains(m) by {
                assert(rest[m] == cuts[m]);
            }
            less
        }
    }
}

/// A goal that holds costs nothing and has no cuts. Otherwise the value and the cuts
/// are those on top of what is carried over.
pub proof fn law_landmarks_of_a_goal_that_holds(
    d: ClassicalDomain,
    s: Set<u32>,
    goal: Set<u32>,
    carried: Seq<(Seq<usize>, u32)>,
    value: Option<u32>,
    cuts: Seq<(Seq<usize>, u32)>,
)
    requires
        crate::lmcut::is_lmcut_full(d, s, goal, carried, value, cuts),
    ensures
        (forall|g: u32| #[trigger] goal.contains(g) ==> s.contains(g)) ==> value == Some(0u32)
            && cuts.len() == 0,
        (exists|g: u32| #[trigger] goal.contains(g) && !s.contains(g)) ==> crate::lmcut::is_lmcut(
            d,
            s,
            goal,
            carried,
            value,
            cuts,
        ),
        value is None ==> cuts == carried,
{
}

/// The costs that are left once the first cuts are paid for.
proof fn lemma_costs_left(
    d: ClassicalDomain,
    cuts: Seq<(Seq<usize>, u32)>,
    i: int,
    costs: Seq<u32>,
)
    requires
        0 <= i <= cuts.len(),
        costs.len() == d.actions@.len(),
        forall|a: int|
            0 <= a < costs.len() ==> #[trigger] costs[a] == (if exists|m: int|
                0 <= m < i && (#[trigger] cuts[m]).1 > 0 && cuts[m].0.contains(a as usize) {
                0u32
            } else {
                1u32
            }),
    ensures
        costs == crate::lmcut::costs_after(d.n_actions(), cuts.take(i)),
{
    let before = cuts.take(i);
    let all = crate::lmcut::costs_after(d.n_actions(), before);
    assert(d.actions.len() == d.n_actions());
    assert forall|x: int| 0 <= x < costs.len() implies costs[x] == all[x] by {
        if exists|m: int|
            0 <= m < i && (#[trigger] cuts[m]).1 > 0 && cuts[m].0.contains(x as usize) {
            let m = choose|m: int|
                0 <= m < i && (#[trigger] cuts[m]).1 > 0 && cuts[m].0.contains(x as usize);
            assert(before[m] == cuts[m]);
        }
        if crate::lmcut::is_paid(before, x as usize) {
            let m = choose|m: int|
                0 <= m < before.len() && (#[trigger] before[m]).1 > 0 && before[m].0.contains(
                    x as usize,
                );
            assert(before[m] == cuts[m]);
        }
    }
    assert(costs =~= all);
}

/// The action adds the fact `f`, and `p` is among the deepest facts that it needs: none
/// is deeper, and `p` has a depth.
pub open spec fn is_deepest_need(
    d: ClassicalDomain,
    h: Seq<u32>,
    a: int,
    f: u32,
    p: u32,
) -> bool {
    &&& 0 <= a < d.actions@.len()
    &&& f < d.facts.names@.len()
    &&& d.actions@[a].add_effects@.len() > 0
    &&& d.actions@[a].add_effects@[0]@.contains(f)
    &&& d.actions@[a].pre_cond@.contains(p)
    &&& p < h.len()
    &&& 0 < h[p as int] < u32::MAX
    &&& forall|q: u32| #[trigger]
        d.actions@[a].pre_cond@.contains(q) ==> q < h.len() && h[q as int] <= h[p as int]
}

/// A deepest need is what supports a fact.
proof fn lemma_deepest_need(d: ClassicalDomain, h: Seq<u32>, a: int, f: u32, p: u32)
    requires
        h.len() == d.facts.names@.len() <= u32::MAX,
    ensures
        is_deepest_need(d, h, a, f, p) <==> crate::lmcut::supports_by(d, h, a, f, p),
{
    if crate::lmcut::supports_by(d, h, a, f, p) {
        assert forall|q: u32| #[trigger] d.actions@[a].pre_cond@.contains(q) implies q < h.len()
            && h[q as int] <= h[p as int] by {
            assert(d.pre(a).contains(q));
        }
    }
    if is_deepest_need(d, h, a, f, p) {
        assert forall|q: u32| #[trigger] d.pre(a).contains(q) implies crate::hmax::entry(h, q)
            <= crate::hmax::entry(h, p) by {
            assert(d.actions@[a].pre_cond@.contains(q));
        }
        assert(d.pre(a).contains(p));
    }
}

/// A chain of deepest needs leads from the fact to the goal.
proof fn lemma_zone_chain(d: ClassicalDomain, h: Seq<u32>, goal: Set<u32>, t: nat, f: u32) -> (w: (
    Seq<u32>,
    Seq<int>,
))
    requires
        h.len() == d.facts.names@.len() <= u32::MAX,
        crate::lmcut::in_zone_at(d, h, goal, t, f),
    ensures
        w.0.len() == w.1.len() + 1,
        w.0[0] == f,
        goal.contains(w.0.last()),
        w.0.last() < h.len(),
        h[w.0.last() as int] > 0,
        forall|x: int|
            0 <= x < w.1.len() ==> is_deepest_need(d, h, #[trigger] w.1[x], w.0[x + 1], w.0[x]),
    decreases t,
{
    if t == 0 {
        (seq![f], Seq::empty())
    } else if crate::lmcut::in_zone_at(d, h, goal, (t - 1) as nat, f) {
        lemma_zone_chain(d, h, goal, (t - 1) as nat, f)
    } else {
        let g = choose|g: u32|
            crate::lmcut::in_zone_at(d, h, goal, (t - 1) as nat, g)
                && #[trigger] crate::lmcut::supports(d, h, g, f);
        let a = choose|a: int| #[trigger] crate::lmcut::supports_by(d, h, a, g, f);
        lemma_deepest_need(d, h, a, g, f);
        let (rest, less) = lemma_zone_chain(d, h, goal, (t - 1) as nat, g);
        let chain = seq![f] + rest;
        let links = seq![a] + less;
        assert(chain.last() == rest.last());
        assert forall|x: int| 0 <= x < links.len() implies is_deepest_need(
            d,
            h,
            #[trigger] links[x],
            chain[x + 1],
            chain[x],
        ) by {
            if x > 0 {
                assert(links[x] == less[x - 1]);
                assert(chain[x] == rest[x - 1]);
                assert(chain[x + 1] == rest[x - 1 + 1]);
            } else {
                assert(chain[1] == rest[0]);
            }
        }
        (chain, links)
    }
}

/// What a chain of deepest needs leads from is in the zone.
proof fn lemma_chain_zone(
    d: ClassicalDomain,
    h: Seq<u32>,
    goal: Set<u32>,
    chain: Seq<u32>,
    links: Seq<int>,
)
    requires
        h.len() == d.facts.names@.len() <= u32::MAX,
        chain.len() == links.len() + 1,
        goal.contains(chain.last()),
        chain.last() < h.len(),
        h[chain.last() as int] > 0,
        forall|x: int|
            0 <= x < links.len() ==> is_deepest_need(d, h, #[trigger] links[x], chain[x + 1], chain[x]),
    ensures
        crate::lmcut::in_zone_at(d, h, goal, links.len(), chain[0]),
    decreases links.len(),
{
    if links.len() > 0 {
        let rest = chain.skip(1);
        let less = links.skip(1);
        assert(rest.last() == chain.last());
        assert forall|x: int| 0 <= x < less.len() implies is_deepest_need(
            d,
            h,
            #[trigger] less[x],
            rest[x + 1],
            rest[x],
        ) by {
            assert(less[x] == links[x + 1]);
            assert(rest[x] == chain[x + 1] && rest[x + 1] == chain[x + 1 + 1]);
        }
        lemma_chain_zone(d, h, goal, rest, less);
        assert(rest[0] == chain[1]);
        assert(is_deepest_need(d, h, links[0], chain[1], chain[0]));
        lemma_deepest_need(d, h, links[0], chain[1], chain[0]);
        assert(crate::lmcut::supports(d, h, chain[1], chain[0]));
    }
}

/// A cut has every action that crosses into what leads to the goal: it costs one, needs
/// nothing that has a depth, and adds a fact from which deepest needs lead to a goal
/// fact that has a depth.
pub proof fn law_cuts_have_every_action_that_crosses(
    d: ClassicalDomain,
    s: Set<u32>,
    goal: Set<u32>,
    carried: Seq<(Seq<usize>, u32)>,
    value: Option<u32>,
    cuts: Seq<(Seq<usize>, u32)>,
    i: int,
    costs: Seq<u32>,
    h: Seq<u32>,
    a: usize,
    chain: Seq<u32>,
    links: Seq<int>,
)
    requires
        d.facts.names@.len() <= u32::MAX,
        crate::lmcut::is_lmcut(d, s, goal, carried, value, cuts),
        carried.len() <= i < cuts.len(),
        costs.len() == d.actions@.len(),
        forall|a: int|
            0 <= a < costs.len() ==> #[trigger] costs[a] == (if exists|m: int|
                0 <= m < i && (#[trigger] cuts[m]).1 > 0 && cuts[m].0.contains(a as usize) {
                0u32
            } else {
                1u32
            }),
        crate::hmax::is_hmax(d, costs, s, h),
        a < d.actions@.len(),
        costs[a as int] == 1,
        forall|p: u32| #[trigger]
            d.actions@[a as int].pre_cond@.contains(p) ==> p < h.len() && h[p as int] == 0,
        d.actions@[a as int].add_effects@.len() > 0,
        chain.len() == links.len() + 1,
        d.actions@[a as int].add_effects@[0]@.contains(chain[0]),
        chain[0] < h.len(),
        goal.contains(chain.last()),
        chain.last() < h.len(),
        h[chain.last() as int] > 0,
        forall|x: int|
            0 <= x < links.len() ==> is_deepest_need(d, h, #[trigger] links[x], chain[x + 1], chain[x]),
    ensures
        cuts[i].0.contains(a),
{
    lemma_costs_left(d, cuts, i, costs);
    assert(crate::lmcut::is_next_cut(d, costs, s, goal, cuts[i].0));
    let g = choose|g: Seq<u32>| #[trigger]
        crate::hmax::is_hmax(d, costs, s, g) && crate::lmcut::is_cut_of(
            d,
            costs,
            g,
            goal,
            cuts[i].0,
        );
    lemma_one_depth_table(d, costs, s, g, h);
    lemma_chain_zone(d, h, goal, chain, links);
    assert(crate::lmcut::in_zone(d, h, goal, chain[0]));
    assert(d.adds(a as int, chain[0]));
    assert(crate::hmax::bounded_by(h, d.pre(a as int), 0)) by {
        assert forall|p: u32| #[trigger] d.pre(a as int).contains(p) implies crate::hmax::entry(
            h,
            p,
        ) <= 0 by {
            assert(d.actions@[a as int].pre_cond@.contains(p));
        }
    }
    assert(crate::lmcut::in_cut(d, costs, h, goal, a as int));
}

/// A cut has no other action: what an action of it adds leads to the goal.
pub proof fn law_cuts_have_no_other_action(
    d: ClassicalDomain,
    s: Set<u32>,
    goal: Set<u32>,
    carried: Seq<(Seq<usize>, u32)>,
    value: Option<u32>,
    cuts: Seq<(Seq<usize>, u32)>,
    i: int,
    costs: Seq<u32>,
    h: Seq<u32>,
    a: usize,
) -> (w: (Seq<u32>, Seq<int>))
    requires
        d.facts.names@.len() <= u32::MAX,
        crate::lmcut::is_lmcut(d, s, goal, carried, value, cuts),
        carried.len() <= i < cuts.len(),
        costs.len() == d.actions@.len(),
        forall|a: int|
            0 <= a < costs.len() ==> #[trigger] costs[a] == (if exists|m: int|
                0 <= m < i && (#[trigger] cuts[m]).1 > 0 && cuts[m].0.contains(a as usize) {
                0u32
            } else {
                1u32
            }),
        crate::hmax::is_hmax(d, costs, s, h),
        cuts[i].0.contains(a),
    ensures
        w.0.len() == w.1.len() + 1,
        a < d.actions@.len(),
        d.actions@[a as int].add_effects@.len() > 0,
        d.actions@[a as int].add_effects@[0]@.contains(w.0[0]),
        goal.contains(w.0.last()),
        w.0.last() < h.len(),
        h[w.0.last() as int] > 0,
        forall|x: int|
            0 <= x < w.1.len() ==> is_deepest_need(d, h, #[trigger] w.1[x], w.0[x + 1], w.0[x]),
{
    lemma_costs_left(d, cuts, i, costs);
    assert(crate::lmcut::is_next_cut(d, costs, s, goal, cuts[i].0));
    let g = choose|g: Seq<u32>| #[trigger]
        crate::hmax::is_hmax(d, costs, s, g) && crate::lmcut::is_cut_of(
            d,
            costs,
            g,
            goal,
            cuts[i].0,
        );
    lemma_one_depth_table(d, costs, s, g, h);
    assert(crate::lmcut::in_cut(d, costs, h, goal, a as int));
    let f = choose|f: u32| #[trigger]
        d.adds(a as int, f) && crate::lmcut::in_zone(d, h, goal, f);
    let t = choose|t: nat| crate::lmcut::in_zone_at(d, h, goal, t, f);
    lemma_zone_chain(d, h, goal, t, f)
}

/// There is no value exactly where a goal fact has no depth, and no cut is found then.
pub proof fn law_no_value_where_the_goal_has_no_depth(
    d: ClassicalDomain,
    s: Set<u32>,
    goal: Set<u32>,
    carried: Seq<(Seq<usize>, u32)>,
    value: Option<u32>,
    cuts: Seq<(Seq<usize>, u32)>,
    costs: Seq<u32>,
    h: Seq<u32>,
)
    requires
        d.facts.names@.len() <= u32::MAX,
        crate::lmcut::is_lmcut(d, s, goal, carried, value, cuts),
        costs.len() == d.actions@.len(),
        forall|a: int|
            0 <= a < costs.len() ==> #[trigger] costs[a] == (if exists|m: int|
                0 <= m < carried.len() && (#[trigger] carried[m]).1 > 0 && carried[m].0.contains(
                    a as usize,
                ) {
                0u32
            } else {
                1u32
            }),
        crate::hmax::is_hmax(d, costs, s, h),
    ensures
        value is None <==> exists|g: u32| #[trigger]
            goal.contains(g) && (g >= h.len() || h[g as int] == u32::MAX),
        value is None ==> cuts == carried,
{
    lemma_costs_left(d, carried, carried.len() as int, costs);
    assert(carried.take(carried.len() as int) =~= carried);
    let depth = if value is Some {
        Some((cuts.len() - carried.len()) as u32)
    } else {
        None
    };
    law_goal_is_as_deep_as_its_deepest_fact(d, costs, s, goal, depth, h);
}

/// A goal that holds has the landmark value 0, and one with a fact that does not hold
/// and is none of the domain has none.
pub proof fn law_landmark_value_of_what_holds_and_of_what_is_unknown(
    d: ClassicalDomain,
    s: Set<u32>,
    goal: Set<u32>,
    value: Option<u32>,
    g: u32,
)
    requires
        crate::lmcut::is_lmcut_value(d, s, goal, value),
    ensures
        (forall|f: u32| #[trigger] goal.contains(f) ==> s.contains(f)) ==> value == Some(0u32),
        goal.contains(g) && !s.contains(g) && g >= d.facts.names@.len() ==> value is None,
{
    if goal.contains(g) && !s.contains(g) && g >= d.facts.names@.len() && value is Some {
        let costs = crate::lmcut::unit_costs(d);
        assert(!goal.subset_of(s));
        assert(crate::hmax::hmax_le(d, costs, s, value->0 as int, g));
    }
}

} // verus!

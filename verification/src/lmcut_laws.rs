//! Laws of the landmark-cut heuristic.

use vstd::prelude::*;

use crate::domain::ClassicalDomain;

verus! {

/// The facts that hold, deletes ignored, once `k` rounds of all applicable
/// actions were applied to `s`.
pub open spec fn layer(d: ClassicalDomain, s: Set<u32>, k: nat) -> Set<u32>
    decreases k,
{
    if k == 0 {
        Set::new(|f: u32| f < d.n_facts() && s.contains(f))
    } else {
        let below = layer(d, s, (k - 1) as nat);
        Set::new(
            |f: u32|
                below.contains(f) || exists|a: int| #[trigger]
                    d.adds(a, f) && d.pre(a).subset_of(below),
        )
    }
}

/// The facts that hold, deletes ignored, once the actions of `plan` were
/// applied to `s` in turn.
pub open spec fn relaxed_result(d: ClassicalDomain, s: Set<u32>, plan: Seq<int>) -> Set<u32>
    decreases plan.len(),
{
    if plan.len() == 0 {
        s
    } else {
        relaxed_result(d, s, plan.drop_last()).union(d.add(plan.last()))
    }
}

/// Every action of `plan` is applicable when its turn comes, deletes ignored.
pub open spec fn is_relaxed_plan(d: ClassicalDomain, s: Set<u32>, plan: Seq<int>) -> bool
    decreases plan.len(),
{
    if plan.len() == 0 {
        true
    } else {
        &&& is_relaxed_plan(d, s, plan.drop_last())
        &&& 0 <= plan.last() < d.n_actions()
        &&& d.pre(plan.last()).subset_of(relaxed_result(d, s, plan.drop_last()))
    }
}

/// A goal has one depth.
pub proof fn lemma_depth_unique(
    d: ClassicalDomain,
    costs: Seq<u32>,
    s: Set<u32>,
    goal: Set<u32>,
    v1: Option<u32>,
    v2: Option<u32>,
)
    requires
        crate::hmax::is_goal_depth(d, costs, s, goal, v1),
        crate::hmax::is_goal_depth(d, costs, s, goal, v2),
    ensures
        v1 == v2,
{
    if let Some(a) = v1 {
        assert(crate::hmax::goal_le(d, costs, s, a as int, goal));
    }
    if let Some(b) = v2 {
        assert(crate::hmax::goal_le(d, costs, s, b as int, goal));
    }
}

/// There is one table of depths.
proof fn lemma_table_unique(
    d: ClassicalDomain,
    costs: Seq<u32>,
    s: Set<u32>,
    h1: Seq<u32>,
    h2: Seq<u32>,
)
    requires
        crate::hmax::is_hmax(d, costs, s, h1),
        crate::hmax::is_hmax(d, costs, s, h2),
        d.n_facts() <= u32::MAX,
    ensures
        h1 == h2,
{
    assert forall|i: int| 0 <= i < h1.len() implies h1[i] == h2[i] by {
        let f = i as u32;
        if h1[f as int] < u32::MAX {
            let t = choose|t: nat|
                crate::hmax::reached_in(d, costs, s, t, h1[f as int] as int, f);
            crate::hmax::lemma_hmax_below(d, costs, s, h2, t, h1[f as int] as int, f);
        }
        if h2[f as int] < u32::MAX {
            let t = choose|t: nat|
                crate::hmax::reached_in(d, costs, s, t, h2[f as int] as int, f);
            crate::hmax::lemma_hmax_below(d, costs, s, h1, t, h2[f as int] as int, f);
        }
    }
    assert(h1 =~= h2);
}

/// Ascending lists with the same members are the same list.
proof fn lemma_ascending_unique(a: Seq<usize>, b: Seq<usize>)
    requires
        forall|i: int, j: int| 0 <= i < j < a.len() ==> a[i] < a[j],
        forall|i: int, j: int| 0 <= i < j < b.len() ==> b[i] < b[j],
        forall|x: usize| #[trigger] a.contains(x) <==> b.contains(x),
    ensures
        a == b,
    decreases a.len(),
{
    if a.len() == 0 {
        if b.len() > 0 {
            assert(b.contains(b[0]));
            assert(a.contains(b[0]));
        }
        assert(a =~= b);
    } else {
        assert(a.contains(a.last()));
        assert(b.contains(a.last()));
        assert(b.contains(b.last()));
        assert(a.contains(b.last()));
        let i = choose|i: int| 0 <= i < b.len() && b[i] == a.last();
        let j = choose|j: int| 0 <= j < a.len() && a[j] == b.last();
        assert(a.last() == b.last());
        let a1 = a.drop_last();
        let b1 = b.drop_last();
        assert forall|x: usize| #[trigger] a1.contains(x) <==> b1.contains(x) by {
            if a1.contains(x) {
                let k = choose|k: int| 0 <= k < a1.len() && a1[k] == x;
                assert(a[k] == x);
                assert(a.contains(x));
                assert(b.contains(x));
                let l = choose|l: int| 0 <= l < b.len() && b[l] == x;
                assert(b1[l] == x);
            }
            if b1.contains(x) {
                let k = choose|k: int| 0 <= k < b1.len() && b1[k] == x;
                assert(b[k] == x);
                assert(b.contains(x));
                assert(a.contains(x));
                let l = choose|l: int| 0 <= l < a.len() && a[l] == x;
                assert(a1[l] == x);
            }
        }
        lemma_ascending_unique(a1, b1);
        assert(a =~= a1.push(a.last()));
        assert(b =~= b1.push(b.last()));
    }
}

/// The costs give one cut.
proof fn lemma_cut_unique(
    d: ClassicalDomain,
    costs: Seq<u32>,
    s: Set<u32>,
    goal: Set<u32>,
    c1: Seq<usize>,
    c2: Seq<usize>,
)
    requires
        d.n_facts() <= u32::MAX,
        crate::lmcut::is_next_cut(d, costs, s, goal, c1),
        crate::lmcut::is_next_cut(d, costs, s, goal, c2),
    ensures
        c1 == c2,
{
    let h1 = choose|h: Seq<u32>| #[trigger]
        crate::hmax::is_hmax(d, costs, s, h) && crate::lmcut::is_cut_of(d, costs, h, goal, c1);
    let h2 = choose|h: Seq<u32>| #[trigger]
        crate::hmax::is_hmax(d, costs, s, h) && crate::lmcut::is_cut_of(d, costs, h, goal, c2);
    lemma_table_unique(d, costs, s, h1, h2);
    lemma_ascending_unique(c1, c2);
}

/// Runs of cuts that start from the same cuts agree as far as both go.
proof fn lemma_run_unique(
    d: ClassicalDomain,
    s: Set<u32>,
    goal: Set<u32>,
    from: int,
    cuts1: Seq<(Seq<usize>, u32)>,
    cuts2: Seq<(Seq<usize>, u32)>,
    i: int,
)
    requires
        d.n_facts() <= u32::MAX,
        crate::lmcut::is_cut_run(d, s, goal, cuts1, from),
        crate::lmcut::is_cut_run(d, s, goal, cuts2, from),
        0 <= from <= i,
        i <= cuts1.len(),
        i <= cuts2.len(),
        cuts1.take(from) == cuts2.take(from),
    ensures
        cuts1.take(i) == cuts2.take(i),
    decreases i,
{
    if i > from {
        lemma_run_unique(d, s, goal, from, cuts1, cuts2, i - 1);
        assert(cuts1[i - 1].1 == 1 && cuts2[i - 1].1 == 1);
        lemma_cut_unique(
            d,
            crate::lmcut::costs_after(d.n_actions(), cuts1.take(i - 1)),
            s,
            goal,
            cuts1[i - 1].0,
            cuts2[i - 1].0,
        );
        assert(cuts1.take(i) =~= cuts1.take(i - 1).push(cuts1[i - 1]));
        assert(cuts2.take(i) =~= cuts2.take(i - 1).push(cuts2[i - 1]));
    }
}

/// The value and the cuts are a function of the domain, the state, the goal
/// and the cuts that are carried over.
pub proof fn law_determined(
    d: ClassicalDomain,
    s: Set<u32>,
    goal: Set<u32>,
    carried: Seq<(Seq<usize>, u32)>,
    v1: Option<u32>,
    cuts1: Seq<(Seq<usize>, u32)>,
    v2: Option<u32>,
    cuts2: Seq<(Seq<usize>, u32)>,
)
    requires
        d.n_facts() <= u32::MAX,
        crate::lmcut::is_lmcut_full(d, s, goal, carried, v1, cuts1),
        crate::lmcut::is_lmcut_full(d, s, goal, carried, v2, cuts2),
    ensures
        v1 == v2,
        cuts1 == cuts2,
{
    if !goal.subset_of(s) {
        let costs = crate::lmcut::costs_after(d.n_actions(), carried);
        let n = carried.len();
        let d1 = if v1 is Some {
            Some((cuts1.len() - n) as u32)
        } else {
            None
        };
        let d2 = if v2 is Some {
            Some((cuts2.len() - n) as u32)
        } else {
            None
        };
        lemma_depth_unique(d, costs, s, goal, d1, d2);
        if v1 is Some {
            lemma_run_unique(d, s, goal, n as int, cuts1, cuts2, cuts1.len() as int);
            assert(cuts1.take(cuts1.len() as int) =~= cuts1);
            assert(cuts2.take(cuts2.len() as int) =~= cuts2);
        }
    }
}

/// The value that comes with the cuts is the value that comes without them.
pub proof fn law_full_has_the_standard_value(
    d: ClassicalDomain,
    s: Set<u32>,
    goal: Set<u32>,
    value: Option<u32>,
    full: Option<u32>,
    cuts: Seq<(Seq<usize>, u32)>,
)
    requires
        crate::lmcut::is_lmcut_value(d, s, goal, value),
        crate::lmcut::is_lmcut_full(d, s, goal, Seq::empty(), full, cuts),
    ensures
        value == full,
{
    if !goal.subset_of(s) {
        let none = Seq::<(Seq<usize>, u32)>::empty();
        assert forall|a: int| 0 <= a < d.n_actions() implies crate::lmcut::costs_after(
            d.n_actions(),
            none,
        )[a] == 1 by {
            assert(!crate::lmcut::is_paid(none, a as usize));
        }
        assert(crate::lmcut::costs_after(d.n_actions(), none) =~= crate::lmcut::unit_costs(d));
        lemma_depth_unique(d, crate::lmcut::unit_costs(d), s, goal, value, full);
    }
}

/// Carrying no cut over gives what the computation from scratch gives.
pub proof fn law_incremental_without_cuts_is_full(
    d: ClassicalDomain,
    s: Set<u32>,
    goal: Set<u32>,
    exclude_action: usize,
    full: Option<u32>,
    full_cuts: Seq<(Seq<usize>, u32)>,
    value: Option<u32>,
    cuts: Seq<(Seq<usize>, u32)>,
)
    requires
        d.n_facts() <= u32::MAX,
        crate::lmcut::is_lmcut_full(d, s, goal, Seq::empty(), full, full_cuts),
        crate::lmcut::is_lmcut_full(
            d,
            s,
            goal,
            crate::lmcut::without(Seq::empty(), exclude_action),
            value,
            cuts,
        ),
    ensures
        value == full,
        cuts == full_cuts,
{
    reveal(Seq::filter);
    assert(crate::lmcut::without(Seq::empty(), exclude_action) =~= Seq::empty());
    law_determined(d, s, goal, Seq::empty(), full, full_cuts, value, cuts);
}

/// Taking out nothing leaves the list.
proof fn lemma_without_nothing(cuts: Seq<(Seq<usize>, u32)>, x: usize)
    requires
        forall|i: int| 0 <= i < cuts.len() ==> !(#[trigger] cuts[i]).0.contains(x),
    ensures
        crate::lmcut::without(cuts, x) == cuts,
    decreases cuts.len(),
{
    reveal(Seq::filter);
    if cuts.len() > 0 {
        let rest = cuts.drop_last();
        assert forall|i: int| 0 <= i < rest.len() implies !(#[trigger] rest[i]).0.contains(x) by {
            assert(cuts[i] == rest[i]);
        }
        lemma_without_nothing(rest, x);
        assert(!cuts[cuts.len() - 1].0.contains(x));
        assert(cuts =~= rest.push(cuts.last()));
    }
    assert(crate::lmcut::without(cuts, x) =~= cuts);
}

/// Carrying all cuts over reproduces the value and adds no cut.
pub proof fn law_carrying_all_cuts_keeps_the_value(
    d: ClassicalDomain,
    s: Set<u32>,
    goal: Set<u32>,
    exclude_action: usize,
    full: Option<u32>,
    full_cuts: Seq<(Seq<usize>, u32)>,
    value: Option<u32>,
    cuts: Seq<(Seq<usize>, u32)>,
)
    requires
        d.n_facts() <= u32::MAX,
        crate::lmcut::is_lmcut_full(d, s, goal, Seq::empty(), full, full_cuts),
        forall|i: int|
            0 <= i < full_cuts.len() ==> !(#[trigger] full_cuts[i]).0.contains(exclude_action),
        crate::lmcut::is_lmcut_full(
            d,
            s,
            goal,
            crate::lmcut::without(full_cuts, exclude_action),
            value,
            cuts,
        ),
    ensures
        value == full,
        cuts == full_cuts,
{
    lemma_without_nothing(full_cuts, exclude_action);
    if !goal.subset_of(s) {
        if full is Some {
            let costs = crate::lmcut::costs_after(d.n_actions(), full_cuts);
            let depth = if value is Some {
                Some((cuts.len() - full_cuts.len()) as u32)
            } else {
                None
            };
            lemma_depth_unique(d, costs, s, goal, depth, Some(0u32));
            assert(cuts =~= cuts.take(full_cuts.len() as int));
        } else {
            law_determined(d, s, goal, Seq::empty(), full, full_cuts, value, cuts);
        }
    }
}

/// No two of the cuts that are found share an action, and none shares one with
/// a cut that was paid for before.
pub proof fn law_cuts_are_disjoint(
    d: ClassicalDomain,
    s: Set<u32>,
    goal: Set<u32>,
    carried: Seq<(Seq<usize>, u32)>,
    value: Option<u32>,
    cuts: Seq<(Seq<usize>, u32)>,
    i: int,
    j: int,
    a: usize,
)
    requires
        crate::lmcut::is_lmcut_full(d, s, goal, carried, value, cuts),
        0 <= i < j < cuts.len(),
        carried.len() <= j,
        cuts[i].1 > 0,
        cuts[i].0.contains(a),
    ensures
        !cuts[j].0.contains(a),
{
    let before = cuts.take(j);
    let costs = crate::lmcut::costs_after(d.n_actions(), before);
    assert(before[i] == cuts[i]);
    assert(crate::lmcut::is_paid(before, a));
    let h = choose|h: Seq<u32>| #[trigger]
        crate::hmax::is_hmax(d, costs, s, h) && crate::lmcut::is_cut_of(
            d,
            costs,
            h,
            goal,
            cuts[j].0,
        );
    if cuts[j].0.contains(a) {
        assert(crate::lmcut::in_cut(d, costs, h, goal, a as int));
    }
}

/// What a relaxed plan of `k` actions reaches lies within the depth `k`.
proof fn lemma_plan_depth(d: ClassicalDomain, s: Set<u32>, plan: Seq<int>, f: u32)
    requires
        is_relaxed_plan(d, s, plan),
        relaxed_result(d, s, plan).contains(f),
        f < d.n_facts(),
        forall|a: int, p: u32|
            0 <= a < d.n_actions() && #[trigger] d.pre(a).contains(p) ==> p < d.n_facts(),
    ensures
        crate::hmax::reached_in(
            d,
            crate::lmcut::unit_costs(d),
            s,
            plan.len(),
            plan.len() as int,
            f,
        ),
    decreases plan.len(),
{
    let costs = crate::lmcut::unit_costs(d);
    let k = plan.len();
    if k > 0 {
        let before = plan.drop_last();
        let a = plan.last();
        if relaxed_result(d, s, before).contains(f) {
            lemma_plan_depth(d, s, before, f);
            crate::hmax::lemma_reached_mono(d, costs, s, (k - 1) as nat, k, k - 1, k as int, f);
        } else {
            assert forall|p: u32| #[trigger] d.pre(a).contains(p) implies crate::hmax::reached_in(
                d,
                costs,
                s,
                (k - 1) as nat,
                k - costs[a],
                p,
            ) by {
                lemma_plan_depth(d, s, before, p);
            }
            assert(d.adds(a, f));
            assert(crate::hmax::reaches_all(
                d,
                costs,
                s,
                (k - 1) as nat,
                k - costs[a],
                d.pre(a),
            ));
        }
    }
}

/// The heuristic is admissible: it never exceeds the number of actions of a
/// plan that reaches the goal, deletes ignored, and is finite where there is one.
pub proof fn law_admissible(
    d: ClassicalDomain,
    s: Set<u32>,
    goal: Set<u32>,
    value: Option<u32>,
    plan: Seq<int>,
)
    requires
        crate::lmcut::is_lmcut_value(d, s, goal, value),
        is_relaxed_plan(d, s, plan),
        goal.subset_of(relaxed_result(d, s, plan)),
        forall|g: u32| #[trigger] goal.contains(g) ==> g < d.n_facts(),
        forall|a: int, p: u32|
            0 <= a < d.n_actions() && #[trigger] d.pre(a).contains(p) ==> p < d.n_facts(),
        plan.len() < u32::MAX,
    ensures
        value is Some,
        value->0 <= plan.len(),
{
    let costs = crate::lmcut::unit_costs(d);
    let k = plan.len() as int;
    assert forall|g: u32| #[trigger] goal.contains(g) implies crate::hmax::hmax_le(
        d,
        costs,
        s,
        k,
        g,
    ) by {
        lemma_plan_depth(d, s, plan, g);
    }
    assert(crate::hmax::goal_le(d, costs, s, k, goal));
}

/// A zone has a goal fact.
proof fn lemma_zone_has_goal(
    d: ClassicalDomain,
    h: Seq<u32>,
    goal: Set<u32>,
    t: nat,
    f: u32,
) -> (g: u32)
    requires
        crate::lmcut::in_zone_at(d, h, goal, t, f),
    ensures
        goal.contains(g),
        crate::lmcut::in_zone(d, h, goal, g),
    decreases t,
{
    if t == 0 {
        f
    } else if crate::lmcut::in_zone_at(d, h, goal, (t - 1) as nat, f) {
        lemma_zone_has_goal(d, h, goal, (t - 1) as nat, f)
    } else {
        let g = choose|g: u32|
            crate::lmcut::in_zone_at(d, h, goal, (t - 1) as nat, g)
                && #[trigger] crate::lmcut::supports(d, h, g, f);
        lemma_zone_has_goal(d, h, goal, (t - 1) as nat, g)
    }
}

/// One of the actions of the plan crosses into the zone.
spec fn crosses(
    d: ClassicalDomain,
    costs: Seq<u32>,
    h: Seq<u32>,
    goal: Set<u32>,
    plan: Seq<int>,
) -> bool {
    exists|j: int|
        0 <= j < plan.len() && crate::lmcut::in_cut(d, costs, h, goal, #[trigger] plan[j])
}

/// A plan that reaches a fact of the zone crosses into it.
proof fn lemma_plan_crosses(
    d: ClassicalDomain,
    costs: Seq<u32>,
    s: Set<u32>,
    h: Seq<u32>,
    goal: Set<u32>,
    plan: Seq<int>,
    f: u32,
)
    requires
        costs.len() == d.n_actions(),
        crate::lmcut::at_most_one(costs),
        crate::hmax::is_hmax(d, costs, s, h),
        is_relaxed_plan(d, s, plan),
        relaxed_result(d, s, plan).contains(f),
        crate::lmcut::in_zone(d, h, goal, f),
        forall|a: int, p: u32|
            0 <= a < d.n_actions() && #[trigger] d.pre(a).contains(p) ==> p < d.n_facts(),
        plan.len() < u32::MAX,
    ensures
        crosses(d, costs, h, goal, plan),
    decreases plan.len(),
{
    let t = choose|t: nat| crate::lmcut::in_zone_at(d, h, goal, t, f);
    crate::lmcut::lemma_zone_bound(d, h, goal, t, f);
    if plan.len() == 0 {
        assert(crate::hmax::reached_in(d, costs, s, 0, 0, f));
        crate::hmax::lemma_hmax_below(d, costs, s, h, 0, 0, f);
    } else {
        let before = plan.drop_last();
        let a = plan.last();
        let held = relaxed_result(d, s, before);
        if exists|g: u32| #[trigger] held.contains(g) && crate::lmcut::in_zone(d, h, goal, g) {
            let g = choose|g: u32| #[trigger]
                held.contains(g) && crate::lmcut::in_zone(d, h, goal, g);
            lemma_plan_crosses(d, costs, s, h, goal, before, g);
            let j = choose|j: int|
                0 <= j < before.len() && crate::lmcut::in_cut(
                    d,
                    costs,
                    h,
                    goal,
                    #[trigger] before[j],
                );
            assert(plan[j] == before[j]);
        } else {
            assert(d.adds(a, f));
            let m = crate::hmax::lemma_greatest_exists(h, d.pre(a));
            let unit = crate::lmcut::unit_costs(d);
            let k = before.len();
            assert forall|p: u32| #[trigger] d.pre(a).contains(p) implies crate::hmax::entry(h, p)
                <= k by {
                assert(held.contains(p));
                lemma_plan_depth(d, s, before, p);
                crate::lmcut::lemma_cheaper(d, unit, costs, s, k, k as int, p);
                crate::hmax::lemma_hmax_below(d, costs, s, h, k, k as int, p);
            }
            if m > 0 {
                let p = choose|p: u32| #[trigger]
                    d.pre(a).contains(p) && crate::hmax::entry(h, p) == m;
                assert(crate::lmcut::supports_by(d, h, a, f, p));
                assert(crate::lmcut::supports(d, h, f, p));
                assert(crate::lmcut::in_zone_at(d, h, goal, t + 1, p));
                assert(held.contains(p));
            }
            assert(m == 0);
            if costs[a] == 0 {
                assert(d.adds(a, f) && crate::hmax::is_greatest(h, d.pre(a), 0));
            }
            assert(crate::hmax::bounded_by(h, d.pre(a), 0));
            assert(crate::lmcut::in_cut(d, costs, h, goal, a));
            assert(plan[plan.len() - 1] == a);
        }
    }
}

/// The plan holds an action of the cut.
pub open spec fn holds_one_of(plan: Seq<int>, cut: Seq<usize>) -> bool {
    exists|j: int| 0 <= j < plan.len() && cut.contains(#[trigger] plan[j] as usize)
}

/// Every cut that is found is a landmark: a plan that reaches the goal, deletes
/// ignored, holds an action of it.
pub proof fn law_cuts_are_landmarks(
    d: ClassicalDomain,
    s: Set<u32>,
    goal: Set<u32>,
    carried: Seq<(Seq<usize>, u32)>,
    value: Option<u32>,
    cuts: Seq<(Seq<usize>, u32)>,
    i: int,
    plan: Seq<int>,
)
    requires
        crate::lmcut::is_lmcut_full(d, s, goal, carried, value, cuts),
        carried.len() <= i < cuts.len(),
        is_relaxed_plan(d, s, plan),
        goal.subset_of(relaxed_result(d, s, plan)),
        forall|a: int, p: u32|
            0 <= a < d.n_actions() && #[trigger] d.pre(a).contains(p) ==> p < d.n_facts(),
        plan.len() < u32::MAX,
    ensures
        holds_one_of(plan, cuts[i].0),
{
    let costs = crate::lmcut::costs_after(d.n_actions(), cuts.take(i));
    let cut = cuts[i].0;
    assert(crate::lmcut::is_next_cut(d, costs, s, goal, cut));
    let h = choose|h: Seq<u32>| #[trigger]
        crate::hmax::is_hmax(d, costs, s, h) && crate::lmcut::is_cut_of(d, costs, h, goal, cut);
    let b = cut[0];
    assert(cut.contains(b));
    let f = choose|f: u32| #[trigger]
        d.adds(b as int, f) && crate::lmcut::in_zone(d, h, goal, f);
    let t = choose|t: nat| crate::lmcut::in_zone_at(d, h, goal, t, f);
    let g = lemma_zone_has_goal(d, h, goal, t, f);
    lemma_plan_crosses(d, costs, s, h, goal, plan, g);
    let j = choose|j: int|
        0 <= j < plan.len() && crate::lmcut::in_cut(d, costs, h, goal, #[trigger] plan[j]);
    assert(d.actions.len() == d.n_actions());
    assert(cut.contains(plan[j] as usize));
}

/// A cut stays a landmark where the action `a` was applied, if it does not hold
/// `a`: what is left of a plan that starts with `a` holds an action of the cut.
pub proof fn law_cuts_without_an_action_stay_landmarks(
    d: ClassicalDomain,
    s: Set<u32>,
    goal: Set<u32>,
    carried: Seq<(Seq<usize>, u32)>,
    value: Option<u32>,
    cuts: Seq<(Seq<usize>, u32)>,
    i: int,
    a: usize,
    plan: Seq<int>,
)
    requires
        crate::lmcut::is_lmcut_full(d, s, goal, carried, value, cuts),
        carried.len() <= i < cuts.len(),
        !cuts[i].0.contains(a),
        is_relaxed_plan(d, s, seq![a as int] + plan),
        goal.subset_of(relaxed_result(d, s, seq![a as int] + plan)),
        forall|b: int, p: u32|
            0 <= b < d.n_actions() && #[trigger] d.pre(b).contains(p) ==> p < d.n_facts(),
        plan.len() + 1 < u32::MAX,
    ensures
        holds_one_of(plan, cuts[i].0),
{
    let all = seq![a as int] + plan;
    law_cuts_are_landmarks(d, s, goal, carried, value, cuts, i, all);
    let j = choose|j: int| 0 <= j < all.len() && cuts[i].0.contains(#[trigger] all[j] as usize);
    assert(all[0] == a as int);
    assert(j > 0);
    assert(plan[j - 1] == all[j]);
}

/// The two cuts share no action, unless one of them costs nothing.
pub open spec fn is_apart(c: (Seq<usize>, u32), e: (Seq<usize>, u32)) -> bool {
    c.1 > 0 && e.1 > 0 ==> forall|a: usize| c.0.contains(a) ==> !#[trigger] e.0.contains(a)
}

/// Every cut costs one at most, and no two share an action.
pub open spec fn are_apart(cuts: Seq<(Seq<usize>, u32)>) -> bool {
    &&& forall|i: int| 0 <= i < cuts.len() ==> (#[trigger] cuts[i]).1 <= 1
    &&& forall|i: int, j: int|
        0 <= i < j < cuts.len() ==> is_apart(#[trigger] cuts[i], #[trigger] cuts[j])
}

/// The plan holds an action of every cut.
pub open spec fn holds_all(plan: Seq<int>, cuts: Seq<(Seq<usize>, u32)>) -> bool {
    forall|i: int| 0 <= i < cuts.len() ==> holds_one_of(plan, (#[trigger] cuts[i]).0)
}

/// The position `j` of the plan has an action of one of the first `m` cuts that
/// cost something.
spec fn is_hit(plan: Seq<int>, cuts: Seq<(Seq<usize>, u32)>, m: int, j: int) -> bool {
    0 <= j < plan.len() && exists|i: int|
        0 <= i < m && (#[trigger] cuts[i]).1 > 0 && cuts[i].0.contains(plan[j] as usize)
}

/// Positions of the plan, one for each of the first `m` cuts that cost something.
proof fn lemma_hits(plan: Seq<int>, cuts: Seq<(Seq<usize>, u32)>, m: int) -> (hits: Set<int>)
    requires
        are_apart(cuts),
        holds_all(plan, cuts),
        0 <= m <= cuts.len(),
    ensures
        hits.finite(),
        hits.len() == crate::lmcut::paid_total(cuts.take(m)),
        forall|j: int| #[trigger] hits.contains(j) ==> is_hit(plan, cuts, m, j),
    decreases m,
{
    if m == 0 {
        assert(cuts.take(0) =~= Seq::empty());
        Set::empty()
    } else {
        let before = lemma_hits(plan, cuts, m - 1);
        assert(cuts.take(m).drop_last() =~= cuts.take(m - 1));
        let c = cuts[m - 1];
        assert forall|j: int| #[trigger] before.contains(j) implies is_hit(plan, cuts, m, j) by {
            let i = choose|i: int|
                0 <= i < m - 1 && (#[trigger] cuts[i]).1 > 0 && cuts[i].0.contains(
                    plan[j] as usize,
                );
            assert(cuts[i].1 > 0);
        }
        if c.1 == 0 {
            before
        } else {
            assert(holds_one_of(plan, c.0));
            let x = choose|x: int| 0 <= x < plan.len() && c.0.contains(#[trigger] plan[x] as usize);
            if before.contains(x) {
                let i = choose|i: int|
                    0 <= i < m - 1 && (#[trigger] cuts[i]).1 > 0 && cuts[i].0.contains(
                        plan[x] as usize,
                    );
                assert(is_apart(cuts[i], cuts[m - 1]));
            }
            assert(cuts[m - 1].1 > 0);
            before.insert(x)
        }
    }
}

/// The cuts that are found on top of landmarks that share no action are such
/// landmarks too, together with those that they stand on.
pub proof fn law_cuts_stay_apart(
    d: ClassicalDomain,
    s: Set<u32>,
    goal: Set<u32>,
    carried: Seq<(Seq<usize>, u32)>,
    value: Option<u32>,
    cuts: Seq<(Seq<usize>, u32)>,
    plan: Seq<int>,
)
    requires
        crate::lmcut::is_lmcut_full(d, s, goal, carried, value, cuts),
        are_apart(carried),
        holds_all(plan, carried),
        is_relaxed_plan(d, s, plan),
        goal.subset_of(relaxed_result(d, s, plan)),
        forall|a: int, p: u32|
            0 <= a < d.n_actions() && #[trigger] d.pre(a).contains(p) ==> p < d.n_facts(),
        plan.len() < u32::MAX,
    ensures
        are_apart(cuts),
        holds_all(plan, cuts),
{
    if !goal.subset_of(s) {
        let n = carried.len() as int;
        assert forall|i: int| 0 <= i < n implies #[trigger] cuts[i] == carried[i] by {
            assert(cuts.take(n)[i] == cuts[i]);
        }
        assert forall|i: int, j: int| 0 <= i < j < cuts.len() implies is_apart(
            #[trigger] cuts[i],
            #[trigger] cuts[j],
        ) by {
            if j < n {
                assert(is_apart(carried[i], carried[j]));
            } else if cuts[i].1 > 0 {
                assert forall|a: usize| cuts[i].0.contains(
                    a,
                ) implies !#[trigger] cuts[j].0.contains(a) by {
                    law_cuts_are_disjoint(d, s, goal, carried, value, cuts, i, j, a);
                }
            }
        }
        assert forall|i: int| 0 <= i < cuts.len() implies (#[trigger] cuts[i]).1 <= 1 by {
            if i < n {
                assert(carried[i].1 <= 1);
            }
        }
        assert forall|i: int| 0 <= i < cuts.len() implies holds_one_of(
            plan,
            (#[trigger] cuts[i]).0,
        ) by {
            if i < n {
                assert(holds_one_of(plan, carried[i].0));
            } else {
                law_cuts_are_landmarks(d, s, goal, carried, value, cuts, i, plan);
            }
        }
    }
}

/// The value on top of landmarks that share no action is admissible: it never
/// exceeds the number of actions of a plan that reaches the goal, deletes
/// ignored, and is finite where there is one.
pub proof fn law_value_on_landmarks_is_admissible(
    d: ClassicalDomain,
    s: Set<u32>,
    goal: Set<u32>,
    carried: Seq<(Seq<usize>, u32)>,
    value: Option<u32>,
    cuts: Seq<(Seq<usize>, u32)>,
    plan: Seq<int>,
)
    requires
        crate::lmcut::is_lmcut_full(d, s, goal, carried, value, cuts),
        are_apart(carried),
        holds_all(plan, carried),
        is_relaxed_plan(d, s, plan),
        goal.subset_of(relaxed_result(d, s, plan)),
        forall|g: u32| #[trigger] goal.contains(g) ==> g < d.n_facts(),
        forall|a: int, p: u32|
            0 <= a < d.n_actions() && #[trigger] d.pre(a).contains(p) ==> p < d.n_facts(),
        plan.len() < u32::MAX,
    ensures
        value is Some,
        value->0 <= plan.len(),
{
    if !goal.subset_of(s) {
        let unit = crate::lmcut::unit_costs(d);
        let costs = crate::lmcut::costs_after(d.n_actions(), carried);
        let k = plan.len();
        assert forall|g: u32| #[trigger] goal.contains(g) implies crate::hmax::hmax_le(
            d,
            costs,
            s,
            k as int,
            g,
        ) by {
            lemma_plan_depth(d, s, plan, g);
            crate::lmcut::lemma_cheaper(d, unit, costs, s, k, k as int, g);
        }
        assert(crate::hmax::goal_le(d, costs, s, k as int, goal));
        law_cuts_stay_apart(d, s, goal, carried, value, cuts, plan);
        let hits = lemma_hits(plan, cuts, cuts.len() as int);
        assert(cuts.take(cuts.len() as int) =~= cuts);
        let all = vstd::set_lib::set_int_range(0, plan.len() as int);
        vstd::set_lib::lemma_int_range(0, plan.len() as int);
        assert(hits.subset_of(all));
        vstd::set_lib::lemma_len_subset(hits, all);
    }
}

/// What holds of all cuts and of all pairs of cuts holds without those that hold
/// the action `x`.
proof fn lemma_without(cuts: Seq<(Seq<usize>, u32)>, x: usize)
    requires
        are_apart(cuts),
    ensures
        are_apart(crate::lmcut::without(cuts, x)),
        forall|i: int|
            0 <= i < crate::lmcut::without(cuts, x).len() ==> {
                let c = #[trigger] crate::lmcut::without(cuts, x)[i];
                cuts.contains(c) && !c.0.contains(x)
            },
    decreases cuts.len(),
{
    reveal(Seq::filter);
    let keep = |c: (Seq<usize>, u32)| !c.0.contains(x);
    if cuts.len() > 0 {
        let rest = cuts.drop_last();
        let last = cuts.last();
        assert(are_apart(rest)) by {
            assert forall|i: int, j: int| 0 <= i < j < rest.len() implies is_apart(
                #[trigger] rest[i],
                #[trigger] rest[j],
            ) by {
                assert(is_apart(cuts[i], cuts[j]));
            }
            assert forall|i: int| 0 <= i < rest.len() implies (#[trigger] rest[i]).1 <= 1 by {
                assert(cuts[i].1 <= 1);
            }
        }
        lemma_without(rest, x);
        let before = crate::lmcut::without(rest, x);
        let all = crate::lmcut::without(cuts, x);
        assert(all == if keep(last) {
            before.push(last)
        } else {
            before
        });
        assert(cuts[cuts.len() - 1] == last);
        assert forall|i: int| 0 <= i < all.len() implies {
            let c = #[trigger] all[i];
            cuts.contains(c) && !c.0.contains(x)
        } by {
            if i < before.len() {
                assert(all[i] == before[i]);
                let y = choose|y: int| 0 <= y < rest.len() && rest[y] == before[i];
                assert(cuts[y] == before[i]);
            }
        }
        assert forall|i: int, j: int| 0 <= i < j < all.len() implies is_apart(
            #[trigger] all[i],
            #[trigger] all[j],
        ) by {
            assert(all[i] == before[i]);
            if j < before.len() {
                assert(all[j] == before[j]);
                assert(is_apart(before[i], before[j]));
            } else {
                let y = choose|y: int| 0 <= y < rest.len() && rest[y] == before[i];
                assert(is_apart(cuts[y], cuts[cuts.len() - 1]));
            }
        }
        assert forall|i: int| 0 <= i < all.len() implies (#[trigger] all[i]).1 <= 1 by {
            let y = choose|y: int| 0 <= y < cuts.len() && cuts[y] == all[i];
            assert(cuts.contains(all[i]));
            assert(cuts[y].1 <= 1);
        }
    }
}

/// The incremental value is admissible after the action `a`: on top of the
/// parent's cuts without `a`, it never exceeds the number of actions of a plan
/// that reaches the goal and that, with `a` before it, reaches the parent's goal.
/// The parent's cuts may in turn stand on landmarks that share no action, so the
/// law carries over from child to child.
pub proof fn law_incremental_is_admissible(
    d: ClassicalDomain,
    parent: Set<u32>,
    parent_goal: Set<u32>,
    parent_carried: Seq<(Seq<usize>, u32)>,
    parent_value: Option<u32>,
    parent_cuts: Seq<(Seq<usize>, u32)>,
    a: usize,
    s: Set<u32>,
    goal: Set<u32>,
    value: Option<u32>,
    cuts: Seq<(Seq<usize>, u32)>,
    plan: Seq<int>,
)
    requires
        crate::lmcut::is_lmcut_full(
            d,
            parent,
            parent_goal,
            parent_carried,
            parent_value,
            parent_cuts,
        ),
        are_apart(parent_carried),
        holds_all(seq![a as int] + plan, parent_carried),
        is_relaxed_plan(d, parent, seq![a as int] + plan),
        parent_goal.subset_of(relaxed_result(d, parent, seq![a as int] + plan)),
        crate::lmcut::is_lmcut_full(
            d,
            s,
            goal,
            crate::lmcut::without(parent_cuts, a),
            value,
            cuts,
        ),
        is_relaxed_plan(d, s, plan),
        goal.subset_of(relaxed_result(d, s, plan)),
        forall|g: u32| #[trigger] goal.contains(g) ==> g < d.n_facts(),
        forall|b: int, p: u32|
            0 <= b < d.n_actions() && #[trigger] d.pre(b).contains(p) ==> p < d.n_facts(),
        plan.len() + 1 < u32::MAX,
    ensures
        value is Some,
        value->0 <= plan.len(),
        are_apart(cuts),
        holds_all(plan, cuts),
{
    let long = seq![a as int] + plan;
    law_cuts_stay_apart(d, parent, parent_goal, parent_carried, parent_value, parent_cuts, long);
    lemma_without(parent_cuts, a);
    let carried = crate::lmcut::without(parent_cuts, a);
    assert forall|i: int| 0 <= i < carried.len() implies holds_one_of(
        plan,
        (#[trigger] carried[i]).0,
    ) by {
        let c = carried[i];
        let y = choose|y: int| 0 <= y < parent_cuts.len() && parent_cuts[y] == c;
        assert(holds_one_of(long, parent_cuts[y].0));
        let x = choose|x: int| 0 <= x < long.len() && c.0.contains(#[trigger] long[x] as usize);
        assert(long[x] as usize != a);
        assert(long[x] == plan[x - 1]);
    }
    law_value_on_landmarks_is_admissible(d, s, goal, carried, value, cuts, plan);
    law_cuts_stay_apart(d, s, goal, carried, value, cuts, plan);
}

/// What is reached in `t` rounds within the depth `k` lies in the layer `k`.
proof fn lemma_reached_in_layer(d: ClassicalDomain, s: Set<u32>, t: nat, k: nat, f: u32)
    requires
        crate::hmax::reached_in(d, crate::lmcut::unit_costs(d), s, t, k as int, f),
    ensures
        layer(d, s, k).contains(f),
    decreases t,
{
    let costs = crate::lmcut::unit_costs(d);
    if t == 0 {
        lemma_layer_grows(d, s, 0, k, f);
    } else {
        let t1 = (t - 1) as nat;
        if crate::hmax::reached_in(d, costs, s, t1, k as int, f) {
            lemma_reached_in_layer(d, s, t1, k, f);
        } else {
            let a = choose|a: int| #[trigger]
                d.adds(a, f) && crate::hmax::reaches_all(d, costs, s, t1, k - costs[a], d.pre(a));
            let below = layer(d, s, (k - 1) as nat);
            assert forall|p: u32| d.pre(a).contains(p) implies below.contains(p) by {
                lemma_reached_in_layer(d, s, t1, (k - 1) as nat, p);
            }
            assert(d.adds(a, f) && d.pre(a).subset_of(below));
        }
    }
}

/// Later layers hold what earlier ones hold.
pub proof fn lemma_layer_grows(d: ClassicalDomain, s: Set<u32>, i: nat, j: nat, f: u32)
    requires
        i <= j,
        layer(d, s, i).contains(f),
    ensures
        layer(d, s, j).contains(f),
    decreases j,
{
    if i < j {
        lemma_layer_grows(d, s, i, (j - 1) as nat, f);
    }
}

/// The facts of the layer `k` lie within the depth `k`.
proof fn lemma_layer_reached(d: ClassicalDomain, s: Set<u32>, k: nat, f: u32)
    requires
        layer(d, s, k).contains(f),
    ensures
        crate::hmax::reached_in(d, crate::lmcut::unit_costs(d), s, k, k as int, f),
    decreases k,
{
    let costs = crate::lmcut::unit_costs(d);
    if k > 0 {
        let k1 = (k - 1) as nat;
        let below = layer(d, s, k1);
        if below.contains(f) {
            lemma_layer_reached(d, s, k1, f);
            crate::hmax::lemma_reached_mono(d, costs, s, k1, k, k1 as int, k as int, f);
        } else {
            let a = choose|a: int| #[trigger] d.adds(a, f) && d.pre(a).subset_of(below);
            assert forall|p: u32| #[trigger] d.pre(a).contains(p) implies crate::hmax::reached_in(
                d,
                costs,
                s,
                k1,
                k - costs[a],
                p,
            ) by {
                lemma_layer_reached(d, s, k1, p);
            }
            assert(d.adds(a, f));
            assert(crate::hmax::reaches_all(d, costs, s, k1, k - costs[a], d.pre(a)));
        }
    }
}

/// The value is the number of the first layer that holds the goal.
pub proof fn law_value_is_first_layer_with_the_goal(
    d: ClassicalDomain,
    s: Set<u32>,
    goal: Set<u32>,
    value: Option<u32>,
)
    requires
        crate::lmcut::is_lmcut_value(d, s, goal, value),
        forall|g: u32| #[trigger] goal.contains(g) ==> g < d.n_facts(),
    ensures
        match value {
            Some(v) => {
                &&& goal.subset_of(layer(d, s, v as nat))
                &&& forall|k: nat| k < v ==> !goal.subset_of(#[trigger] layer(d, s, k))
            },
            None => forall|k: nat|
                k < u32::MAX ==> !goal.subset_of(#[trigger] layer(d, s, k)),
        },
{
    let costs = crate::lmcut::unit_costs(d);
    assert forall|k: nat| goal.subset_of(#[trigger] layer(d, s, k)) implies crate::hmax::goal_le(
        d,
        costs,
        s,
        k as int,
        goal,
    ) by {
        assert forall|g: u32| #[trigger] goal.contains(g) implies crate::hmax::hmax_le(
            d,
            costs,
            s,
            k as int,
            g,
        ) by {
            lemma_layer_reached(d, s, k, g);
        }
    }
    if let Some(v) = value {
        assert forall|g: u32| goal.contains(g) implies layer(d, s, v as nat).contains(g) by {
            if !goal.subset_of(s) {
                assert(crate::hmax::hmax_le(d, costs, s, v as int, g));
                let t = choose|t: nat| crate::hmax::reached_in(d, costs, s, t, v as int, g);
                lemma_reached_in_layer(d, s, t, v as nat, g);
            }
        }
    }
}

} // verus!

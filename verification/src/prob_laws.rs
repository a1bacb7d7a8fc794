//! Laws of the probability bound.

use vstd::prelude::*;

use crate::domain::ClassicalDomain;
use crate::probability::ONE;

verus! {

/// A closed table stays closed when less holds at the start.
proof fn lemma_closed_for_less(d: ClassicalDomain, s1: Set<u32>, s2: Set<u32>, p: Seq<u64>)
    requires
        s1.subset_of(s2),
        crate::prob::is_closed(d, s2, p),
    ensures
        crate::prob::is_closed(d, s1, p),
{
}

/// A goal is at least as likely in a table with greater entries.
proof fn lemma_chance_mono(p: Seq<u64>, q: Seq<u64>, goal: Set<u32>, r1: u64, r2: u64)
    requires
        crate::prob::below(p, q),
        crate::prob::is_least_chance(p, goal, r1),
        crate::prob::is_least_chance(q, goal, r2),
    ensures
        r1 <= r2,
{
    assert(crate::prob::at_least(q, goal, r1)) by {
        assert forall|f: u32| #[trigger] goal.contains(f) implies r1 <= crate::prob::chance(
            q,
            f,
        ) by {
            assert(r1 <= crate::prob::chance(p, f));
        }
    }
}

/// The more facts hold at the start, the greater the bound.
pub proof fn law_monotone_in_state(
    d: ClassicalDomain,
    s1: Set<u32>,
    s2: Set<u32>,
    goal: Set<u32>,
    r1: u64,
    r2: u64,
)
    requires
        s1.subset_of(s2),
        crate::prob::is_prob_max(d, s1, goal, r1),
        crate::prob::is_prob_max(d, s2, goal, r2),
    ensures
        r1 <= r2,
{
    let p = choose|p: Seq<u64>| #[trigger]
        crate::prob::is_least(d, s1, p) && crate::prob::is_least_chance(p, goal, r1);
    let q = choose|q: Seq<u64>| #[trigger]
        crate::prob::is_least(d, s2, q) && crate::prob::is_least_chance(q, goal, r2);
    lemma_closed_for_less(d, s1, s2, q);
    lemma_chance_mono(p, q, goal, r1, r2);
}

/// The bound is a function of the domain, the start and the goal.
pub proof fn law_determined(
    d: ClassicalDomain,
    s: Set<u32>,
    goal: Set<u32>,
    r1: u64,
    r2: u64,
)
    requires
        crate::prob::is_prob_max(d, s, goal, r1),
        crate::prob::is_prob_max(d, s, goal, r2),
    ensures
        r1 == r2,
{
    law_monotone_in_state(d, s, s, goal, r1, r2);
    law_monotone_in_state(d, s, s, goal, r2, r1);
}

/// The more facts the goal has, the smaller the bound.
pub proof fn law_antitone_in_goal(
    d: ClassicalDomain,
    s: Set<u32>,
    goal1: Set<u32>,
    goal2: Set<u32>,
    r1: u64,
    r2: u64,
)
    requires
        goal1.subset_of(goal2),
        crate::prob::is_prob_max(d, s, goal1, r1),
        crate::prob::is_prob_max(d, s, goal2, r2),
    ensures
        r2 <= r1,
{
    let p = choose|p: Seq<u64>| #[trigger]
        crate::prob::is_least(d, s, p) && crate::prob::is_least_chance(p, goal1, r1);
    let q = choose|q: Seq<u64>| #[trigger]
        crate::prob::is_least(d, s, q) && crate::prob::is_least_chance(q, goal2, r2);
    assert(crate::prob::below(q, p));
    assert(crate::prob::at_least(p, goal1, r2)) by {
        assert forall|f: u32| #[trigger] goal1.contains(f) implies r2 <= crate::prob::chance(
            p,
            f,
        ) by {
            assert(goal2.contains(f));
            assert(r2 <= crate::prob::chance(q, f));
        }
    }
}

/// A goal that holds at the start is certain.
pub proof fn law_goal_that_holds_is_certain(
    d: ClassicalDomain,
    s: Set<u32>,
    goal: Set<u32>,
    r: u64,
)
    requires
        crate::prob::is_prob_max(d, s, goal, r),
        goal.subset_of(s),
        forall|g: u32| #[trigger] goal.contains(g) ==> g < d.n_facts(),
    ensures
        r == ONE,
{
    let p = choose|p: Seq<u64>| #[trigger]
        crate::prob::is_least(d, s, p) && crate::prob::is_least_chance(p, goal, r);
    assert(crate::prob::at_least(p, goal, ONE));
}

/// The set holds the facts of `s`, and what an action adds whose precondition
/// it holds.
pub open spec fn is_closed_set(d: ClassicalDomain, s: Set<u32>, reach: Set<u32>) -> bool {
    &&& forall|f: u32| f < d.n_facts() && #[trigger] s.contains(f) ==> reach.contains(f)
    &&& forall|a: int, f: u32| #[trigger]
        d.adds(a, f) && d.pre(a).subset_of(reach) ==> reach.contains(f)
}

/// The set holds the facts of `s`, and what an action adds whose precondition
/// it holds and whose outcome has a positive probability.
pub open spec fn is_live_closed_set(d: ClassicalDomain, s: Set<u32>, reach: Set<u32>) -> bool {
    &&& forall|f: u32| f < d.n_facts() && #[trigger] s.contains(f) ==> reach.contains(f)
    &&& forall|a: int, f: u32| #[trigger]
        d.adds(a, f) && d.pre(a).subset_of(reach) && crate::prob::first_prob(d, a) > 0
            ==> reach.contains(f)
}

/// A goal with a fact outside of what can be reached is a dead end.
pub proof fn law_unreachable_goal_is_a_dead_end(
    d: ClassicalDomain,
    s: Set<u32>,
    goal: Set<u32>,
    r: u64,
    reach: Set<u32>,
    g: u32,
)
    requires
        d.n_facts() <= u32::MAX,
        crate::prob::has_probabilities(d),
        crate::prob::is_prob_max(d, s, goal, r),
        is_live_closed_set(d, s, reach),
        goal.contains(g),
        !reach.contains(g),
    ensures
        r == 0,
{
    let p = choose|p: Seq<u64>| #[trigger]
        crate::prob::is_least(d, s, p) && crate::prob::is_least_chance(p, goal, r);
    let q = Seq::new(
        d.n_facts(),
        |i: int|
            if reach.contains(i as u32) {
                ONE
            } else {
                0u64
            },
    );
    assert(crate::prob::is_closed(d, s, q)) by {
        assert forall|a: int, f: u32, m: u64| #[trigger]
            d.adds(a, f) && #[trigger] crate::prob::at_least(
                q,
                d.pre(a),
                m,
            ) implies crate::prob::chance(q, f) >= crate::probability::scaled_up(
            m,
            crate::prob::first_prob(d, a),
        ) by {
            crate::probability::lemma_scaled_up_bound(m, crate::prob::first_prob(d, a));
            if m > 0 && crate::prob::first_prob(d, a) > 0 {
                assert forall|x: u32| d.pre(a).contains(x) implies reach.contains(x) by {
                    assert(m <= crate::prob::chance(q, x));
                }
            }
        }
    }
    assert(crate::prob::below(p, q));
    assert(r <= crate::prob::chance(p, g));
    if g < d.n_facts() {
        assert(p[g as int] <= q[g as int]);
    }
}

/// The facts with a positive probability.
pub open spec fn likely(p: Seq<u64>) -> Set<u32> {
    Set::new(|f: u32| crate::prob::chance(p, f) > 0)
}

/// The bound is 0 exactly where some goal fact lies outside of what outcomes of
/// positive probability can reach, however small the probabilities are.
pub proof fn law_zero_is_out_of_reach(d: ClassicalDomain, s: Set<u32>, goal: Set<u32>, r: u64)
    requires
        d.n_facts() <= u32::MAX,
        crate::prob::has_probabilities(d),
        crate::prob::is_prob_max(d, s, goal, r),
    ensures
        r == 0 <==> exists|reach: Set<u32>| #[trigger]
            is_live_closed_set(d, s, reach) && !goal.subset_of(reach),
{
    if r == 0 {
        let p = choose|p: Seq<u64>| #[trigger]
            crate::prob::is_least(d, s, p) && crate::prob::is_least_chance(p, goal, r);
        let reach = likely(p);
        assert forall|a: int, f: u32| #[trigger]
            d.adds(a, f) && d.pre(a).subset_of(reach) && crate::prob::first_prob(
                d,
                a,
            ) > 0 implies reach.contains(f) by {
            assert forall|g: u32| #[trigger] d.pre(a).contains(g) implies 1
                <= crate::prob::chance(p, g) by {
                assert(reach.contains(g));
            }
            assert(crate::prob::at_least(p, d.pre(a), 1));
            assert(crate::prob::first_prob(d, a) <= ONE);
            crate::probability::lemma_scaled_up_bound(1, crate::prob::first_prob(d, a));
        }
        assert(is_live_closed_set(d, s, reach));
        if goal.subset_of(reach) {
            assert forall|g: u32| #[trigger] goal.contains(g) implies 1 <= crate::prob::chance(
                p,
                g,
            ) by {
                assert(reach.contains(g));
            }
            assert(crate::prob::at_least(p, goal, 1));
        }
    }
    if exists|reach: Set<u32>| #[trigger]
        is_live_closed_set(d, s, reach) && !goal.subset_of(reach) {
        let reach = choose|reach: Set<u32>| #[trigger]
            is_live_closed_set(d, s, reach) && !goal.subset_of(reach);
        let g = choose|g: u32| goal.contains(g) && !reach.contains(g);
        law_unreachable_goal_is_a_dead_end(d, s, goal, r, reach, g);
    }
}

/// The product of the probabilities of the first outcomes of `plan`, each in
/// units of `1 / ONE`.
pub open spec fn product(d: ClassicalDomain, plan: Seq<int>) -> nat
    decreases plan.len(),
{
    if plan.len() == 0 {
        1
    } else {
        product(d, plan.drop_last()) * crate::prob::first_prob(d, plan.last()) as nat
    }
}

/// `ONE` to the power of `n`: the number of units of a product of `n` factors.
pub open spec fn units(n: nat) -> nat
    decreases n,
{
    if n == 0 {
        1
    } else {
        units((n - 1) as nat) * ONE as nat
    }
}

/// `x` units of `1 / ONE` are no less than the probability that all actions of
/// `plan` have their first outcome.
pub open spec fn is_above(x: u64, d: ClassicalDomain, plan: Seq<int>) -> bool {
    x * units(plan.len()) >= ONE * product(d, plan)
}

/// A bound that takes in one action after the other.
spec fn through(d: ClassicalDomain, plan: Seq<int>) -> u64
    decreases plan.len(),
{
    if plan.len() == 0 {
        ONE
    } else {
        crate::probability::scaled_up(
            through(d, plan.drop_last()),
            crate::prob::first_prob(d, plan.last()),
        ) as u64
    }
}

proof fn lemma_through(d: ClassicalDomain, s: Set<u32>, p: Seq<u64>, plan: Seq<int>)
    requires
        crate::prob::has_probabilities(d),
        crate::prob::is_closed(d, s, p),
        crate::lmcut_laws::is_relaxed_plan(d, s, plan),
        forall|a: int, f: u32|
            0 <= a < d.n_actions() && #[trigger] d.pre(a).contains(f) ==> f < d.n_facts(),
    ensures
        through(d, plan) <= ONE,
        is_above(through(d, plan), d, plan),
        forall|f: u32|
            f < d.n_facts() && #[trigger] crate::lmcut_laws::relaxed_result(d, s, plan).contains(f)
                ==> through(d, plan) <= crate::prob::chance(p, f),
    decreases plan.len(),
{
    if plan.len() > 0 {
        let rest = plan.drop_last();
        let a = plan.last();
        lemma_through(d, s, p, rest);
        let m = through(d, rest);
        let q = crate::prob::first_prob(d, a);
        assert(q <= ONE);
        crate::probability::lemma_scaled_up_bound(m, q);
        let (x, u, y) = (through(d, plan) as int, units(rest.len()) as int, product(d, rest) as int);
        assert(x * (u * ONE) >= ONE * (y * q)) by (nonlinear_arith)
            requires
                x * ONE >= m * q,
                m * u >= ONE * y,
                u >= 0,
                q >= 0,
        ;
        assert(crate::prob::at_least(p, d.pre(a), m));
        assert forall|f: u32|
            f < d.n_facts() && #[trigger] crate::lmcut_laws::relaxed_result(d, s, plan).contains(
                f,
            ) implies through(d, plan) <= crate::prob::chance(p, f) by {
            if d.add(a).contains(f) {
                assert(d.adds(a, f));
            } else {
                assert(crate::lmcut_laws::relaxed_result(d, s, rest).contains(f));
            }
        }
    }
}

/// The bound is no less than the probability with which any relaxed plan for
/// the goal runs through its first outcomes, which is the exact product of their
/// probabilities.
pub proof fn law_upper_bound(
    d: ClassicalDomain,
    s: Set<u32>,
    goal: Set<u32>,
    r: u64,
    plan: Seq<int>,
)
    requires
        crate::prob::has_probabilities(d),
        crate::prob::is_prob_max(d, s, goal, r),
        crate::lmcut_laws::is_relaxed_plan(d, s, plan),
        goal.subset_of(crate::lmcut_laws::relaxed_result(d, s, plan)),
        forall|g: u32| #[trigger] goal.contains(g) ==> g < d.n_facts(),
        forall|a: int, f: u32|
            0 <= a < d.n_actions() && #[trigger] d.pre(a).contains(f) ==> f < d.n_facts(),
    ensures
        is_above(r, d, plan),
{
    let p = choose|p: Seq<u64>| #[trigger]
        crate::prob::is_least(d, s, p) && crate::prob::is_least_chance(p, goal, r);
    lemma_through(d, s, p, plan);
    let x = through(d, plan);
    assert(crate::prob::at_least(p, goal, x));
    let u = units(plan.len());
    assert(r * u >= x * u) by (nonlinear_arith)
        requires
            r >= x,
            u >= 0,
    ;
}

/// A least probability exists.
proof fn lemma_least_chance_exists(p: Seq<u64>, facts: Set<u32>, n: nat) -> (m: u64)
    requires
        n <= u32::MAX + 1,
        p.len() <= u32::MAX,
    ensures
        m <= ONE,
        forall|f: u32| f < n && #[trigger] facts.contains(f) ==> m <= crate::prob::chance(p, f),
        m == ONE || exists|f: u32|
            f < n && #[trigger] facts.contains(f) && m == crate::prob::chance(p, f),
    decreases n,
{
    if n == 0 {
        ONE
    } else {
        let rest = lemma_least_chance_exists(p, facts, (n - 1) as nat);
        let g = (n - 1) as u32;
        if facts.contains(g) && crate::prob::chance(p, g) < rest {
            assert(facts.contains(g) && crate::prob::chance(p, g) == crate::prob::chance(p, g));
            crate::prob::chance(p, g)
        } else {
            rest
        }
    }
}

/// Every set of facts has a bound in the table.
proof fn lemma_has_bound(d: ClassicalDomain, s: Set<u32>, p: Seq<u64>, facts: Set<u32>) -> (m: u64)
    requires
        d.n_facts() <= u32::MAX,
        crate::prob::is_least(d, s, p),
    ensures
        crate::prob::is_least_chance(p, facts, m),
        crate::prob::is_prob_max(d, s, facts, m),
{
    let m = lemma_least_chance_exists(p, facts, (u32::MAX + 1) as nat);
    assert(crate::prob::at_least(p, facts, m));
    assert forall|k: u64| #[trigger] crate::prob::at_least(p, facts, k) implies k <= m by {
        if m < ONE {
            let f = choose|f: u32| #[trigger]
                facts.contains(f) && m == crate::prob::chance(p, f);
            assert(facts.contains(f));
        }
    }
    m
}

/// There is one least table.
proof fn lemma_one_table(d: ClassicalDomain, s: Set<u32>, p: Seq<u64>, q: Seq<u64>)
    requires
        crate::prob::is_least(d, s, p),
        crate::prob::is_least(d, s, q),
    ensures
        p == q,
{
    assert(crate::prob::below(p, q) && crate::prob::below(q, p));
    assert forall|i: int| 0 <= i < p.len() implies p[i] == q[i] by {
        assert(p[i] <= q[i] && q[i] <= p[i]);
    }
    assert(p =~= q);
}

/// A bound belongs to the least table.
proof fn lemma_bound_in_table(
    d: ClassicalDomain,
    s: Set<u32>,
    p: Seq<u64>,
    facts: Set<u32>,
    r: u64,
)
    requires
        crate::prob::is_least(d, s, p),
        crate::prob::is_prob_max(d, s, facts, r),
    ensures
        crate::prob::is_least_chance(p, facts, r),
{
    let q = choose|q: Seq<u64>| #[trigger]
        crate::prob::is_least(d, s, q) && crate::prob::is_least_chance(q, facts, r);
    lemma_one_table(d, s, p, q);
}

/// The entry of the one fact of a goal.
proof fn lemma_single_goal(p: Seq<u64>, f: u32, r: u64)
    requires
        crate::prob::is_least_chance(p, set![f], r),
    ensures
        r == if crate::prob::chance(p, f) <= ONE {
            crate::prob::chance(p, f)
        } else {
            ONE
        },
{
    let c = if crate::prob::chance(p, f) <= ONE {
        crate::prob::chance(p, f)
    } else {
        ONE
    };
    assert(set![f].contains(f));
    assert(crate::prob::at_least(p, set![f], c));
}

/// An action makes what it adds at least as likely as its own probability makes
/// its precondition: the bound of the fact is no less than the bound of the
/// precondition times the first probability that is given for the action, which
/// is 1 where none is given.
pub proof fn law_effects_are_as_likely_as_their_causes(
    d: ClassicalDomain,
    s: Set<u32>,
    a: int,
    f: u32,
    m: u64,
    r: u64,
)
    requires
        d.facts.names@.len() <= u32::MAX,
        forall|b: int|
            0 <= b < d.actions@.len() && (#[trigger] d.actions@[b]).probabilities@.len() > 0
                ==> d.actions@[b].probabilities@[0] <= ONE,
        0 <= a < d.actions@.len(),
        d.actions@[a].add_effects@.len() > 0,
        d.actions@[a].add_effects@[0]@.contains(f),
        f < d.facts.names@.len(),
        crate::prob::is_prob_max(d, s, d.actions@[a].pre_cond@, m),
        crate::prob::is_prob_max(d, s, set![f], r),
    ensures
        d.actions@[a].probabilities@.len() == 0 ==> r >= m,
        d.actions@[a].probabilities@.len() > 0 ==> r * ONE >= m * d.actions@[a].probabilities@[0],
{
    let p = choose|p: Seq<u64>| #[trigger]
        crate::prob::is_least(d, s, p) && crate::prob::is_least_chance(p, set![f], r);
    lemma_bound_in_table(d, s, p, d.actions@[a].pre_cond@, m);
    lemma_single_goal(p, f, r);
    let q = crate::prob::first_prob(d, a);
    assert(q <= ONE);
    assert(d.adds(a, f));
    assert(crate::prob::at_least(p, d.pre(a), m));
    crate::probability::lemma_scaled_up_bound(m, q);
    let v = crate::probability::scaled_up(m, q);
    assert(r >= v);
    assert(r * ONE >= v * ONE) by (nonlinear_arith)
        requires
            r >= v,
    ;
    if d.actions@[a].probabilities@.len() == 0 {
        assert(m * ONE <= v * ONE);
        assert(r >= m) by (nonlinear_arith)
            requires
                r * ONE >= m * ONE,
        ;
    }
}

/// The table in which the fact `f` has at most `v`.
spec fn capped_at(p: Seq<u64>, f: u32, v: u64) -> Seq<u64> {
    p.update(f as int, v)
}

/// The bound is attained: a fact that does not hold at the start and has a chance
/// has it from an action that adds it. The bound of the fact is the bound of
/// the action's precondition times the first probability that is given for the
/// action, rounded up to whole units; an action without one is certain.
pub proof fn law_chances_come_of_actions(d: ClassicalDomain, s: Set<u32>, f: u32, r: u64) -> (w: (
    int,
    u64,
))
    requires
        d.facts.names@.len() <= u32::MAX,
        forall|b: int|
            0 <= b < d.actions@.len() && (#[trigger] d.actions@[b]).probabilities@.len() > 0
                ==> d.actions@[b].probabilities@[0] <= ONE,
        !s.contains(f),
        crate::prob::is_prob_max(d, s, set![f], r),
        r > 0,
    ensures
        0 <= w.0 < d.actions@.len(),
        d.actions@[w.0].add_effects@.len() > 0,
        d.actions@[w.0].add_effects@[0]@.contains(f),
        crate::prob::is_prob_max(d, s, d.actions@[w.0].pre_cond@, w.1),
        d.actions@[w.0].probabilities@.len() == 0 ==> r == w.1,
        d.actions@[w.0].probabilities@.len() > 0 ==> (r - 1) * ONE < w.1
            * d.actions@[w.0].probabilities@[0] <= r * ONE,
{
    let p = choose|p: Seq<u64>| #[trigger]
        crate::prob::is_least(d, s, p) && crate::prob::is_least_chance(p, set![f], r);
    lemma_single_goal(p, f, r);
    assert forall|b: int| 0 <= b < d.n_actions() implies #[trigger] crate::prob::first_prob(d, b)
        <= ONE by {
        assert(d.actions@[b].probabilities@.len() > 0 ==> d.actions@[b].probabilities@[0] <= ONE);
    }
    assert(f < p.len());
    let top = p[f as int];
    // if nothing reached the entry, it could be lower
    if forall|a: int, m: u64| #[trigger]
        d.adds(a, f) && #[trigger] crate::prob::is_least_chance(p, d.pre(a), m)
            ==> crate::probability::scaled_up(m, crate::prob::first_prob(d, a)) < top {
        let low = capped_at(p, f, (top - 1) as u64);
        assert forall|g: u32| g < d.n_facts() && #[trigger] s.contains(g) implies crate::prob::chance(
            low,
            g,
        ) >= ONE by {
            assert(crate::prob::chance(p, g) >= ONE);
        }
        assert forall|a: int, g: u32, m: u64| #[trigger]
            d.adds(a, g) && #[trigger] crate::prob::at_least(
                low,
                d.pre(a),
                m,
            ) implies crate::prob::chance(low, g) >= crate::probability::scaled_up(
            m,
            crate::prob::first_prob(d, a),
        ) by {
            assert(crate::prob::at_least(p, d.pre(a), m)) by {
                assert forall|x: u32| #[trigger] d.pre(a).contains(x) implies m
                    <= crate::prob::chance(p, x) by {
                    assert(m <= crate::prob::chance(low, x));
                }
            }
            let best = lemma_has_bound(d, s, p, d.pre(a));
            assert(m <= best);
            crate::probability::lemma_scaled_up_mono(
                m,
                best,
                crate::prob::first_prob(d, a),
                crate::prob::first_prob(d, a),
            );
            assert(crate::prob::at_least(p, d.pre(a), best));
            assert(crate::prob::is_least_chance(p, d.pre(a), best));
        }
        assert(crate::prob::is_closed(d, s, low));
        assert(crate::prob::below(p, low));
        assert(p[f as int] <= low[f as int]);
    }
    let (a, m) = choose|a: int, m: u64|
        #![trigger d.adds(a, f), crate::prob::is_least_chance(p, d.pre(a), m)]
        d.adds(a, f) && crate::prob::is_least_chance(p, d.pre(a), m)
            && crate::probability::scaled_up(m, crate::prob::first_prob(d, a)) >= top;
    let q = crate::prob::first_prob(d, a);
    assert(crate::prob::at_least(p, d.pre(a), m));
    crate::probability::lemma_scaled_up_bound(m, q);
    let v = crate::probability::scaled_up(m, q) as int;
    assert(top >= v);
    assert(top == v);
    assert(crate::prob::is_prob_max(d, s, d.actions@[a].pre_cond@, m));
    let x = m * q;
    assert((v - 1) * ONE < x && x <= v * ONE) by (nonlinear_arith)
        requires
            v == (x + ONE - 1) / ONE as int,
            x >= 0,
            x == m * q,
            v > 0,
    ;
    if d.actions@[a].probabilities@.len() == 0 {
        assert(v == m) by (nonlinear_arith)
            requires
                v == (m * ONE + ONE - 1) / ONE as int,
                m >= 0,
        ;
    }
    (a, m)
}

/// A goal is as likely as its least likely fact: no more likely than any of its
/// facts, and just as likely as one of them unless it is certain.
pub proof fn law_goal_is_as_likely_as_its_least_likely_fact(
    d: ClassicalDomain,
    s: Set<u32>,
    goal: Set<u32>,
    r: u64,
)
    requires
        d.facts.names@.len() <= u32::MAX,
        crate::prob::is_prob_max(d, s, goal, r),
    ensures
        forall|g: u32, q: u64| #[trigger]
            goal.contains(g) && #[trigger] crate::prob::is_prob_max(d, s, set![g], q) ==> r <= q,
        r == ONE || exists|g: u32| #[trigger]
            goal.contains(g) && crate::prob::is_prob_max(d, s, set![g], r),
        r <= ONE,
{
    let p = choose|p: Seq<u64>| #[trigger]
        crate::prob::is_least(d, s, p) && crate::prob::is_least_chance(p, goal, r);
    assert forall|g: u32, q: u64| #[trigger]
        goal.contains(g) && #[trigger] crate::prob::is_prob_max(d, s, set![g], q) implies r <= q by {
        lemma_bound_in_table(d, s, p, set![g], q);
        lemma_single_goal(p, g, q);
        assert(r <= crate::prob::chance(p, g));
    }
    let m = lemma_least_chance_exists(p, goal, (u32::MAX + 1) as nat);
    assert(crate::prob::at_least(p, goal, m));
    if r < ONE {
        assert(m <= r);
        assert(m < ONE);
        let g = choose|g: u32| #[trigger] goal.contains(g) && m == crate::prob::chance(p, g);
        assert(r <= crate::prob::chance(p, g));
        let q = lemma_has_bound(d, s, p, set![g]);
        lemma_single_goal(p, g, q);
        assert(goal.contains(g) && crate::prob::is_prob_max(d, s, set![g], r));
    }
}

/// A fact that holds at the start is certain, and one that lies outside of what
/// actions with a positive first probability can reach has no chance.
pub proof fn law_certain_and_hopeless_facts(
    d: ClassicalDomain,
    s: Set<u32>,
    f: u32,
    r: u64,
    reach: Set<u32>,
)
    requires
        d.facts.names@.len() <= u32::MAX,
        forall|b: int|
            0 <= b < d.actions@.len() && (#[trigger] d.actions@[b]).probabilities@.len() > 0
                ==> d.actions@[b].probabilities@[0] <= ONE,
        crate::prob::is_prob_max(d, s, set![f], r),
        s.subset_of(reach),
        forall|a: int, g: u32|
            0 <= a < d.actions@.len() && d.actions@[a].add_effects@.len() > 0
                && #[trigger] d.actions@[a].add_effects@[0]@.contains(g) && (
            d.actions@[a].probabilities@.len() == 0 || d.actions@[a].probabilities@[0] > 0)
                && d.actions@[a].pre_cond@.subset_of(reach) ==> reach.contains(g),
    ensures
        s.contains(f) && f < d.facts.names@.len() ==> r == ONE,
        !reach.contains(f) ==> r == 0,
{
    if s.contains(f) && f < d.n_facts() {
        assert(set![f].subset_of(s));
        law_goal_that_holds_is_certain(d, s, set![f], r);
    }
    if !reach.contains(f) {
        assert forall|b: int| 0 <= b < d.n_actions() implies #[trigger] crate::prob::first_prob(
            d,
            b,
        ) <= ONE by {
            assert(d.actions@[b].probabilities@.len() > 0 ==> d.actions@[b].probabilities@[0]
                <= ONE);
        }
        assert forall|a: int, g: u32| #[trigger]
            d.adds(a, g) && d.pre(a).subset_of(reach) && crate::prob::first_prob(
                d,
                a,
            ) > 0 implies reach.contains(g) by {
            assert(d.actions@[a].add_effects@[0]@.contains(g));
        }
        assert(is_live_closed_set(d, s, reach));
        assert(set![f].contains(f));
        law_unreachable_goal_is_a_dead_end(d, s, set![f], r, reach, f);
    }
}

/// The bound is no less than the exact product of the probabilities of a plan:
/// `states` are the facts before and after each action of `plan` when nothing is
/// deleted, `products` the products of the first probabilities given for the
/// actions so far, and `scales` the powers of the unit that these are counted in.
pub proof fn law_bound_is_above_the_product_of_a_plan(
    d: ClassicalDomain,
    s: Set<u32>,
    goal: Set<u32>,
    r: u64,
    plan: Seq<int>,
    states: Seq<Set<u32>>,
    products: Seq<nat>,
    scales: Seq<nat>,
)
    requires
        forall|b: int|
            0 <= b < d.actions@.len() && (#[trigger] d.actions@[b]).probabilities@.len() > 0
                ==> d.actions@[b].probabilities@[0] <= ONE,
        crate::prob::is_prob_max(d, s, goal, r),
        states.len() == plan.len() + 1,
        products.len() == plan.len() + 1,
        scales.len() == plan.len() + 1,
        states[0] == s,
        products[0] == 1,
        scales[0] == 1,
        forall|j: int|
            0 <= j < plan.len() ==> {
                let a = d.actions@[#[trigger] plan[j]];
                &&& 0 <= plan[j] < d.actions@.len()
                &&& a.pre_cond@.subset_of(states[j])
                &&& a.add_effects@.len() > 0
                &&& states[j + 1] == states[j].union(a.add_effects@[0]@)
                &&& products[j + 1] == products[j] * (if a.probabilities@.len() == 0 {
                    ONE as nat
                } else {
                    a.probabilities@[0] as nat
                })
                &&& scales[j + 1] == scales[j] * ONE as nat
            },
        goal.subset_of(states.last()),
        forall|g: u32| #[trigger] goal.contains(g) ==> g < d.facts.names@.len(),
        forall|a: int, f: u32|
            0 <= a < d.actions@.len() && #[trigger] d.actions@[a].pre_cond@.contains(f) ==> f
                < d.facts.names@.len(),
    ensures
        r * scales.last() >= ONE * products.last(),
{
    assert forall|b: int| 0 <= b < d.n_actions() implies #[trigger] crate::prob::first_prob(d, b)
        <= ONE by {
        assert(d.actions@[b].probabilities@.len() > 0 ==> d.actions@[b].probabilities@[0] <= ONE);
    }
    lemma_plan_by_states(d, s, plan, states, products, scales, plan.len() as int);
    assert(plan.take(plan.len() as int) =~= plan);
    law_upper_bound(d, s, goal, r, plan);
}

proof fn lemma_plan_by_states(
    d: ClassicalDomain,
    s: Set<u32>,
    plan: Seq<int>,
    states: Seq<Set<u32>>,
    products: Seq<nat>,
    scales: Seq<nat>,
    n: int,
)
    requires
        0 <= n <= plan.len(),
        states.len() == plan.len() + 1,
        products.len() == plan.len() + 1,
        scales.len() == plan.len() + 1,
        states[0] == s,
        products[0] == 1,
        scales[0] == 1,
        forall|j: int|
            0 <= j < plan.len() ==> {
                let a = d.actions@[#[trigger] plan[j]];
                &&& 0 <= plan[j] < d.actions@.len()
                &&& a.pre_cond@.subset_of(states[j])
                &&& a.add_effects@.len() > 0
                &&& states[j + 1] == states[j].union(a.add_effects@[0]@)
                &&& products[j + 1] == products[j] * (if a.probabilities@.len() == 0 {
                    ONE as nat
                } else {
                    a.probabilities@[0] as nat
                })
                &&& scales[j + 1] == scales[j] * ONE as nat
            },
    ensures
        crate::lmcut_laws::is_relaxed_plan(d, s, plan.take(n)),
        crate::lmcut_laws::relaxed_result(d, s, plan.take(n)) =~= states[n],
        product(d, plan.take(n)) == products[n],
        units(n as nat) == scales[n],
    decreases n,
{
    if n > 0 {
        lemma_plan_by_states(d, s, plan, states, products, scales, n - 1);
        assert(plan.take(n).drop_last() =~= plan.take(n - 1));
        assert(plan.take(n).last() == plan[n - 1]);
    } else {
        assert(plan.take(0).len() == 0);
    }
}

/// The bound is the least that agrees with the actions: where a table has no less
/// than 1 for what holds at the start, and no less for what an action adds than
/// the action's first probability times any level that its precondition keeps,
/// no fact of the goal has an entry below the bound.
pub proof fn law_bound_is_below_every_agreeing_table(
    d: ClassicalDomain,
    s: Set<u32>,
    goal: Set<u32>,
    r: u64,
    q: Seq<u64>,
    g: u32,
)
    requires
        crate::prob::is_prob_max(d, s, goal, r),
        q.len() == d.facts.names@.len(),
        forall|f: u32| f < q.len() && #[trigger] s.contains(f) ==> q[f as int] >= ONE,
        forall|a: int, f: u32, m: u64|
            #![trigger d.actions@[a].add_effects@[0]@.contains(f), q[f as int] * m]
            0 <= a < d.actions@.len() && d.actions@[a].add_effects@.len() > 0
                && d.actions@[a].add_effects@[0]@.contains(f) && f < q.len() && m <= ONE && (forall|
                x: u32,
            | #[trigger]
                d.actions@[a].pre_cond@.contains(x) ==> m == 0 || x < q.len() && m <= q[x as int])
                ==> q[f as int] * ONE >= m * (if d.actions@[a].probabilities@.len() == 0 {
                ONE
            } else {
                d.actions@[a].probabilities@[0]
            }),
        goal.contains(g),
        g < q.len(),
    ensures
        r <= q[g as int],
{
    let p = choose|p: Seq<u64>| #[trigger]
        crate::prob::is_least(d, s, p) && crate::prob::is_least_chance(p, goal, r);
    assert forall|a: int, f: u32, m: u64| #[trigger]
        d.adds(a, f) && #[trigger] crate::prob::at_least(q, d.pre(a), m) implies crate::prob::chance(
        q,
        f,
    ) >= crate::probability::scaled_up(m, crate::prob::first_prob(d, a)) by {
        assert(d.actions@[a].add_effects@[0]@.contains(f));
        let e = q[f as int];
        let w = crate::prob::first_prob(d, a);
        assert(q[f as int] * m == e * m);
        assert forall|x: u32| #[trigger] d.actions@[a].pre_cond@.contains(x) implies m == 0 || x
            < q.len() && m <= q[x as int] by {
            assert(d.pre(a).contains(x));
        }
        assert(e * ONE >= m * w);
        assert(e >= (m * w + ONE - 1) / ONE as int) by (nonlinear_arith)
            requires
                e * ONE >= m * w,
        ;
        assert(m * w >= 0) by (nonlinear_arith);
        assert((m * w + ONE - 1) / ONE as int >= 0) by (nonlinear_arith)
            requires
                m * w >= 0,
        ;
    }
    assert(crate::prob::is_closed(d, s, q));
    assert(crate::prob::below(p, q));
    assert(r <= crate::prob::chance(p, g));
    assert(p[g as int] <= q[g as int]);
}

/// A goal with a fact that is none of the domain has no chance.
pub proof fn law_unknown_facts_have_no_chance(
    d: ClassicalDomain,
    s: Set<u32>,
    goal: Set<u32>,
    r: u64,
    g: u32,
)
    requires
        crate::prob::is_prob_max(d, s, goal, r),
        goal.contains(g),
        g >= d.facts.names@.len(),
    ensures
        r == 0,
{
    let p = choose|p: Seq<u64>| #[trigger]
        crate::prob::is_least(d, s, p) && crate::prob::is_least_chance(p, goal, r);
    assert(crate::prob::at_least(p, goal, r));
    assert(r <= crate::prob::chance(p, g));
}

} // verus!

//! Laws of the costs of goals.

use vstd::prelude::*;

use crate::costs::Combine;
use crate::domain::ClassicalDomain;
use crate::prob_laws::is_closed_set;

verus! {

/// There is one cost of a goal.
pub proof fn law_determined(
    d: ClassicalDomain,
    s: Set<u32>,
    goal: Set<u32>,
    how: Combine,
    v: Option<u32>,
    w: Option<u32>,
)
    requires
        crate::costs::is_goal_cost(d, s, goal, how, v),
        crate::costs::is_goal_cost(d, s, goal, how, w),
    ensures
        v == w,
{
    let p = choose|q: Seq<u32>| #[trigger]
        crate::costs::is_cost_table(d, s, how, q) && v == (if crate::costs::is_finite(q, goal) {
            Some(crate::costs::cost_of(q, goal, how, 0))
        } else {
            None
        });
    let q = choose|q: Seq<u32>| #[trigger]
        crate::costs::is_cost_table(d, s, how, q) && w == (if crate::costs::is_finite(q, goal) {
            Some(crate::costs::cost_of(q, goal, how, 0))
        } else {
            None
        });
    assert(crate::costs::below(p, q) && crate::costs::below(q, p));
    assert forall|i: int| 0 <= i < p.len() implies p[i] == q[i] by {
        assert(p[i] <= q[i] && q[i] <= p[i]);
    }
    assert(p =~= q);
}

/// What is reachable with a finite cost is closed.
proof fn lemma_finite_is_closed(d: ClassicalDomain, s: Set<u32>, how: Combine, q: Seq<u32>)
    requires
        d.n_facts() <= u32::MAX,
        crate::costs::is_consistent(d, s, how, q),
    ensures
        is_closed_set(d, s, finite_facts(q)),
{
    let reach = finite_facts(q);
    assert forall|a: int, f: u32| #[trigger] d.adds(a, f) && d.pre(a).subset_of(
        reach,
    ) implies reach.contains(f) by {
        assert forall|g: u32| #[trigger] d.pre(a).contains(g) implies g < q.len() && q[g as int]
            < u32::MAX by {
            assert(reach.contains(g));
        }
        assert(crate::costs::is_finite(q, d.pre(a)));
    }
}

/// The facts with a finite cost.
spec fn finite_facts(q: Seq<u32>) -> Set<u32> {
    Set::new(|f: u32| f < q.len() && q[f as int] < u32::MAX)
}

/// Nothing outside of a closed set has a finite cost.
proof fn lemma_closed_bounds(
    d: ClassicalDomain,
    s: Set<u32>,
    how: Combine,
    q: Seq<u32>,
    reach: Set<u32>,
    f: u32,
)
    requires
        d.n_facts() <= u32::MAX,
        crate::costs::is_cost_table(d, s, how, q),
        is_closed_set(d, s, reach),
        !reach.contains(f),
    ensures
        !finite_facts(q).contains(f),
{
    let p = Seq::new(
        d.n_facts(),
        |i: int|
            if reach.contains(i as u32) {
                0u32
            } else {
                u32::MAX
            },
    );
    assert forall|a: int, g: u32| #[trigger] d.adds(a, g) implies p[g as int]
        <= crate::costs::cost_of(p, d.pre(a), how, d.actions@[a].cost as nat) by {
        if !reach.contains(g) {
            let x = choose|x: u32| d.pre(a).contains(x) && !reach.contains(x);
            assert(d.pre(a).contains(x) && !reach.contains(x));
            assert(!crate::costs::is_finite(p, d.pre(a)));
        }
    }
    assert(crate::costs::is_consistent(d, s, how, p));
    if f < q.len() {
        assert(p[f as int] <= q[f as int]);
    }
}

/// Some closed set lacks a fact of the goal.
pub open spec fn is_cut_off(d: ClassicalDomain, s: Set<u32>, goal: Set<u32>) -> bool {
    exists|reach: Set<u32>| #[trigger] is_closed_set(d, s, reach) && !goal.subset_of(reach)
}

/// A goal is a dead end exactly where a fact of it cannot be reached, however
/// the costs are combined.
pub proof fn law_dead_end_is_cut_off(
    d: ClassicalDomain,
    s: Set<u32>,
    goal: Set<u32>,
    how: Combine,
    v: Option<u32>,
)
    requires
        d.n_facts() <= u32::MAX,
        crate::costs::is_goal_cost(d, s, goal, how, v),
    ensures
        v is None <==> is_cut_off(d, s, goal),
{
    let q = choose|q: Seq<u32>| #[trigger]
        crate::costs::is_cost_table(d, s, how, q) && v == (if crate::costs::is_finite(q, goal) {
            Some(crate::costs::cost_of(q, goal, how, 0))
        } else {
            None
        });
    let finite = finite_facts(q);
    if v is None {
        lemma_finite_is_closed(d, s, how, q);
        let f = choose|f: u32| #[trigger]
            goal.contains(f) && !(f < q.len() && q[f as int] < u32::MAX);
        assert(goal.contains(f) && !finite.contains(f));
    }
    if is_cut_off(d, s, goal) {
        let reach = choose|reach: Set<u32>| #[trigger]
            is_closed_set(d, s, reach) && !goal.subset_of(reach);
        let f = choose|f: u32| goal.contains(f) && !reach.contains(f);
        assert(goal.contains(f) && !reach.contains(f));
        lemma_closed_bounds(d, s, how, q, reach, f);
        assert(!crate::costs::is_finite(q, goal));
    }
}

/// The dearest fact costs no more than all of them.
proof fn lemma_max_at_most_sum(q: Seq<u32>, facts: Set<u32>, n: nat)
    requires
        n <= q.len(),
    ensures
        crate::costs::cost_below(q, facts, Combine::Max, n) <= crate::costs::cost_below(
            q,
            facts,
            Combine::Sum,
            n,
        ),
    decreases n,
{
    if n > 0 {
        lemma_max_at_most_sum(q, facts, (n - 1) as nat);
    }
}

/// A goal costs no more where the dearest fact pays for all than where each is
/// paid for, and is a dead end for both or for none.
pub proof fn law_max_at_most_sum(
    d: ClassicalDomain,
    s: Set<u32>,
    goal: Set<u32>,
    max: Option<u32>,
    sum: Option<u32>,
)
    requires
        d.n_facts() <= u32::MAX,
        crate::costs::is_goal_cost(d, s, goal, Combine::Max, max),
        crate::costs::is_goal_cost(d, s, goal, Combine::Sum, sum),
    ensures
        max is None <==> sum is None,
        max is Some ==> max->0 <= sum->0,
{
    law_dead_end_is_cut_off(d, s, goal, Combine::Max, max);
    law_dead_end_is_cut_off(d, s, goal, Combine::Sum, sum);
    let p = choose|q: Seq<u32>| #[trigger]
        crate::costs::is_cost_table(d, s, Combine::Max, q) && max == (
        if crate::costs::is_finite(q, goal) {
            Some(crate::costs::cost_of(q, goal, Combine::Max, 0))
        } else {
            None
        });
    let q = choose|q: Seq<u32>| #[trigger]
        crate::costs::is_cost_table(d, s, Combine::Sum, q) && sum == (
        if crate::costs::is_finite(q, goal) {
            Some(crate::costs::cost_of(q, goal, Combine::Sum, 0))
        } else {
            None
        });
    assert forall|a: int, f: u32| #[trigger] d.adds(a, f) implies p[f as int]
        <= crate::costs::cost_of(p, d.pre(a), Combine::Sum, d.actions@[a].cost as nat) by {
        lemma_max_at_most_sum(p, d.pre(a), p.len());
    }
    assert(crate::costs::is_consistent(d, s, Combine::Sum, p));
    crate::costs::lemma_cost_mono(p, q, goal, Combine::Sum, 0);
    lemma_max_at_most_sum(p, goal, p.len());
}

/// A goal costs no more where more facts hold.
pub proof fn law_more_facts_cost_no_more(
    d: ClassicalDomain,
    s: Set<u32>,
    more: Set<u32>,
    goal: Set<u32>,
    how: Combine,
    v: Option<u32>,
    w: Option<u32>,
)
    requires
        s.subset_of(more),
        crate::costs::is_goal_cost(d, s, goal, how, v),
        crate::costs::is_goal_cost(d, more, goal, how, w),
    ensures
        v is Some ==> w is Some && w->0 <= v->0,
{
    let q = choose|q: Seq<u32>| #[trigger]
        crate::costs::is_cost_table(d, s, how, q) && v == (if crate::costs::is_finite(q, goal) {
            Some(crate::costs::cost_of(q, goal, how, 0))
        } else {
            None
        });
    let p = choose|q: Seq<u32>| #[trigger]
        crate::costs::is_cost_table(d, more, how, q) && w == (if crate::costs::is_finite(q, goal) {
            Some(crate::costs::cost_of(q, goal, how, 0))
        } else {
            None
        });
    assert(crate::costs::is_consistent(d, s, how, p));
    crate::costs::lemma_cost_mono(p, q, goal, how, 0);
}

/// Facts that cost nothing cost nothing together.
pub proof fn lemma_nothing_to_pay(q: Seq<u32>, facts: Set<u32>, how: Combine, n: nat)
    requires
        n <= q.len() <= u32::MAX,
        forall|f: u32| #[trigger] facts.contains(f) ==> q[f as int] == 0,
    ensures
        crate::costs::cost_below(q, facts, how, n) == 0,
    decreases n,
{
    if n > 0 {
        lemma_nothing_to_pay(q, facts, how, (n - 1) as nat);
    }
}

/// A goal that holds costs nothing.
pub proof fn law_goal_that_holds_costs_nothing(
    d: ClassicalDomain,
    s: Set<u32>,
    goal: Set<u32>,
    how: Combine,
    v: Option<u32>,
)
    requires
        d.n_facts() <= u32::MAX,
        goal.subset_of(s),
        forall|g: u32| #[trigger] goal.contains(g) ==> g < d.n_facts(),
        crate::costs::is_goal_cost(d, s, goal, how, v),
    ensures
        v == Some(0u32),
{
    let q = choose|q: Seq<u32>| #[trigger]
        crate::costs::is_cost_table(d, s, how, q) && v == (if crate::costs::is_finite(q, goal) {
            Some(crate::costs::cost_of(q, goal, how, 0))
        } else {
            None
        });
    assert forall|f: u32| #[trigger] goal.contains(f) implies f < q.len() && q[f as int] == 0 by {
        assert(s.contains(f));
    }
    lemma_nothing_to_pay(q, goal, how, q.len());
}

/// The number of the first layer up to `k` that holds the fact, or `k + 1`.
spec fn first_layer(d: ClassicalDomain, s: Set<u32>, k: nat, f: u32) -> nat
    decreases k,
{
    if k == 0 {
        if crate::lmcut_laws::layer(d, s, 0).contains(f) {
            0
        } else {
            1
        }
    } else {
        let before = first_layer(d, s, (k - 1) as nat, f);
        if before < k || crate::lmcut_laws::layer(d, s, k).contains(f) {
            before
        } else {
            k + 1
        }
    }
}

/// A fact is in the layers from its first one on, and in none before.
proof fn lemma_first_layer(d: ClassicalDomain, s: Set<u32>, k: nat, f: u32, j: nat)
    requires
        j <= k,
    ensures
        first_layer(d, s, k, f) <= k + 1,
        crate::lmcut_laws::layer(d, s, j).contains(f) <==> first_layer(d, s, k, f) <= j,
    decreases k,
{
    if k > 0 {
        lemma_first_layer(d, s, (k - 1) as nat, f, (k - 1) as nat);
        if j < k {
            lemma_first_layer(d, s, (k - 1) as nat, f, j);
        } else if crate::lmcut_laws::layer(d, s, (k - 1) as nat).contains(f) {
            crate::lmcut_laws::lemma_layer_grows(d, s, (k - 1) as nat, k, f);
        }
    }
}

/// The entries of the facts are at most their cost.
proof fn lemma_entry_at_most_cost(q: Seq<u32>, facts: Set<u32>, n: nat, f: u32)
    requires
        f < n <= q.len() <= u32::MAX,
        facts.contains(f),
    ensures
        q[f as int] <= crate::costs::cost_below(q, facts, Combine::Max, n),
    decreases n,
{
    if f < n - 1 {
        lemma_entry_at_most_cost(q, facts, (n - 1) as nat, f);
    }
}

/// The cost of the dearest fact is at most what bounds all entries.
pub proof fn lemma_cost_at_most(q: Seq<u32>, facts: Set<u32>, n: nat, b: nat)
    requires
        n <= q.len() <= u32::MAX,
        forall|f: u32| #[trigger] facts.contains(f) && f < n ==> q[f as int] <= b,
    ensures
        crate::costs::cost_below(q, facts, Combine::Max, n) <= b,
    decreases n,
{
    if n > 0 {
        lemma_cost_at_most(q, facts, (n - 1) as nat, b);
        if facts.contains((n - 1) as u32) {
            assert(q[n - 1] <= b);
        }
    }
}

/// The table of the first layers of the facts up to the layer `k`.
spec fn first_layers(d: ClassicalDomain, s: Set<u32>, k: nat) -> Seq<u32> {
    Seq::new(d.n_facts(), |i: int| first_layer(d, s, k, i as u32) as u32)
}

/// The numbers of the first layers are consistent where every action costs
/// something.
proof fn lemma_first_layers_consistent(d: ClassicalDomain, s: Set<u32>, k: nat)
    requires
        d.n_facts() <= u32::MAX,
        k < u32::MAX - 1,
        forall|a: int| 0 <= a < d.n_actions() ==> (#[trigger] d.actions@[a]).cost >= 1,
    ensures
        crate::costs::is_consistent(d, s, Combine::Max, first_layers(d, s, k)),
{
    let p = first_layers(d, s, k);
    assert forall|f: u32| f < d.n_facts() && #[trigger] s.contains(f) implies p[f as int] == 0 by {
        lemma_first_layer(d, s, k, f, 0);
    }
    assert forall|a: int, f: u32| #[trigger] d.adds(a, f) implies p[f as int]
        <= crate::costs::cost_of(p, d.pre(a), Combine::Max, d.actions@[a].cost as nat) by {
        assert(d.actions@[a].cost >= 1);
        lemma_first_layer(d, s, k, f, k);
        if crate::costs::is_finite(p, d.pre(a)) {
            let most = crate::costs::cost_below(p, d.pre(a), Combine::Max, p.len());
            if most < k {
                let below = crate::lmcut_laws::layer(d, s, most);
                assert forall|g: u32| d.pre(a).contains(g) implies below.contains(g) by {
                    assert(g < p.len());
                    lemma_entry_at_most_cost(p, d.pre(a), p.len(), g);
                    lemma_first_layer(d, s, k, g, most);
                }
                assert(d.adds(a, f) && d.pre(a).subset_of(below));
                assert(crate::lmcut_laws::layer(d, s, most + 1).contains(f));
                lemma_first_layer(d, s, k, f, most + 1);
            }
        }
    }
}

/// Where every action costs something, the landmark bound is at most the cost
/// of the dearest chain, unless that was cut off.
pub proof fn law_lmcut_at_most_max(
    d: ClassicalDomain,
    s: Set<u32>,
    goal: Set<u32>,
    value: Option<u32>,
    v: u32,
)
    requires
        d.n_facts() <= u32::MAX,
        forall|a: int| 0 <= a < d.n_actions() ==> (#[trigger] d.actions@[a]).cost >= 1,
        crate::lmcut::is_lmcut_value(d, s, goal, value),
        crate::costs::is_goal_cost(d, s, goal, Combine::Max, Some(v)),
        v < u32::MAX - 1,
    ensures
        value matches Some(w) && w <= v,
{
    let q = choose|q: Seq<u32>| #[trigger]
        crate::costs::is_cost_table(d, s, Combine::Max, q) && Some(v) == (
        if crate::costs::is_finite(q, goal) {
            Some(crate::costs::cost_of(q, goal, Combine::Max, 0))
        } else {
            None
        });
    let k = v as nat;
    let p = first_layers(d, s, k);
    lemma_first_layers_consistent(d, s, k);
    assert(crate::costs::below(p, q));
    let last = crate::lmcut_laws::layer(d, s, k);
    assert forall|g: u32| #[trigger] goal.contains(g) implies g < d.n_facts() && last.contains(g) by {
        assert(g < q.len());
        assert(p[g as int] <= q[g as int]);
        lemma_entry_at_most_cost(q, goal, q.len(), g);
        lemma_first_layer(d, s, k, g, k);
    }
    crate::lmcut_laws::law_value_is_first_layer_with_the_goal(d, s, goal, value);
    assert(goal.subset_of(last));
}

/// Every set of facts has a cost in the table.
proof fn lemma_has_cost(d: ClassicalDomain, s: Set<u32>, how: Combine, q: Seq<u32>, facts: Set<u32>)
    requires
        crate::costs::is_cost_table(d, s, how, q),
    ensures
        crate::costs::is_finite(q, facts) ==> crate::costs::is_goal_cost(
            d,
            s,
            facts,
            how,
            Some(crate::costs::cost_of(q, facts, how, 0)),
        ),
        !crate::costs::is_finite(q, facts) ==> crate::costs::is_goal_cost(d, s, facts, how, None),
{
}

/// The cost of a goal is the one in the table.
proof fn lemma_cost_in_table(
    d: ClassicalDomain,
    s: Set<u32>,
    how: Combine,
    q: Seq<u32>,
    facts: Set<u32>,
    v: Option<u32>,
)
    requires
        crate::costs::is_cost_table(d, s, how, q),
        crate::costs::is_goal_cost(d, s, facts, how, v),
    ensures
        v == (if crate::costs::is_finite(q, facts) {
            Some(crate::costs::cost_of(q, facts, how, 0))
        } else {
            None
        }),
{
    lemma_has_cost(d, s, how, q, facts);
    if crate::costs::is_finite(q, facts) {
        law_determined(d, s, facts, how, v, Some(crate::costs::cost_of(q, facts, how, 0)));
    } else {
        law_determined(d, s, facts, how, v, None);
    }
}

/// What one more fact costs.
proof fn lemma_one_more_below(q: Seq<u32>, facts: Set<u32>, g: u32, how: Combine, n: nat)
    requires
        !facts.contains(g),
        n <= q.len() <= u32::MAX,
    ensures
        crate::costs::cost_below(q, facts.insert(g), how, n) == (if g < n {
            crate::costs::both(how, crate::costs::cost_below(q, facts, how, n), q[g as int] as nat)
        } else {
            crate::costs::cost_below(q, facts, how, n)
        }),
    decreases n,
{
    if n > 0 {
        lemma_one_more_below(q, facts, g, how, (n - 1) as nat);
    }
}

/// No fact costs nothing.
proof fn lemma_none_below(q: Seq<u32>, how: Combine, n: nat)
    ensures
        crate::costs::cost_below(q, Set::empty(), how, n) == 0,
    decreases n,
{
    if n > 0 {
        lemma_none_below(q, how, (n - 1) as nat);
    }
}

/// One fact has the cost of its entry.
proof fn lemma_single_cost(q: Seq<u32>, f: u32, how: Combine)
    requires
        q.len() <= u32::MAX,
    ensures
        crate::costs::is_finite(q, set![f]) <==> f < q.len() && q[f as int] < u32::MAX,
        crate::costs::is_finite(q, set![f]) ==> crate::costs::cost_of(q, set![f], how, 0)
            == q[f as int],
{
    lemma_none_below(q, how, q.len());
    lemma_one_more_below(q, Set::empty(), f, how, q.len());
    assert(set![f] =~= Set::empty().insert(f));
    assert(set![f].contains(f));
}

/// An action makes what it adds cost no more than its own cost and that of its
/// precondition.
pub proof fn law_effects_cost_no_more_than_their_causes(
    d: ClassicalDomain,
    s: Set<u32>,
    how: Combine,
    a: int,
    f: u32,
    m: u32,
    v: Option<u32>,
)
    requires
        d.facts.names@.len() <= u32::MAX,
        0 <= a < d.actions@.len(),
        d.actions@[a].add_effects@.len() > 0,
        d.actions@[a].add_effects@[0]@.contains(f),
        f < d.facts.names@.len(),
        crate::costs::is_goal_cost(d, s, d.actions@[a].pre_cond@, how, Some(m)),
        crate::costs::is_goal_cost(d, s, set![f], how, v),
    ensures
        v is Some,
        v->0 <= m + d.actions@[a].cost,
{
    let q = choose|q: Seq<u32>| #[trigger]
        crate::costs::is_cost_table(d, s, how, q) && v == (if crate::costs::is_finite(q, set![f]) {
            Some(crate::costs::cost_of(q, set![f], how, 0))
        } else {
            None
        });
    lemma_cost_in_table(d, s, how, q, d.actions@[a].pre_cond@, Some(m));
    lemma_single_cost(q, f, how);
    assert(d.adds(a, f));
    assert(q[f as int] <= crate::costs::cost_of(q, d.pre(a), how, d.actions@[a].cost as nat));
}

/// The cost of a fact that does not hold is that of an action that adds it and of
/// the action's precondition, as far as it can be held.
pub proof fn law_costs_come_of_actions(
    d: ClassicalDomain,
    s: Set<u32>,
    how: Combine,
    f: u32,
    v: u32,
) -> (w: (int, u32))
    requires
        d.facts.names@.len() <= u32::MAX,
        !s.contains(f),
        crate::costs::is_goal_cost(d, s, set![f], how, Some(v)),
    ensures
        0 <= w.0 < d.actions@.len(),
        d.actions@[w.0].add_effects@.len() > 0,
        d.actions@[w.0].add_effects@[0]@.contains(f),
        crate::costs::is_goal_cost(d, s, d.actions@[w.0].pre_cond@, how, Some(w.1)),
        v == (if w.1 + d.actions@[w.0].cost < u32::MAX {
            w.1 + d.actions@[w.0].cost
        } else {
            u32::MAX - 1
        }),
{
    let q = choose|q: Seq<u32>| #[trigger]
        crate::costs::is_cost_table(d, s, how, q) && Some(v) == (
        if crate::costs::is_finite(q, set![f]) {
            Some(crate::costs::cost_of(q, set![f], how, 0))
        } else {
            None
        });
    lemma_single_cost(q, f, how);
    assert(v == q[f as int] < u32::MAX);
    // if every action asked for more, the entry could be greater
    if forall|a: int| #[trigger]
        d.adds(a, f) ==> crate::costs::cost_of(q, d.pre(a), how, d.actions@[a].cost as nat) > v {
        let p = q.update(f as int, (v + 1) as u32);
        assert(crate::costs::below(q, p));
        assert forall|a: int, g: u32| #[trigger] d.adds(a, g) implies p[g as int]
            <= crate::costs::cost_of(p, d.pre(a), how, d.actions@[a].cost as nat) by {
            crate::costs::lemma_cost_mono(q, p, d.pre(a), how, d.actions@[a].cost as nat);
            assert(q[g as int] <= crate::costs::cost_of(
                q,
                d.pre(a),
                how,
                d.actions@[a].cost as nat,
            ));
        }
        assert forall|g: u32| g < d.n_facts() && #[trigger] s.contains(g) implies p[g as int]
            == 0 by {
            assert(q[g as int] == 0);
        }
        assert(crate::costs::is_consistent(d, s, how, p));
        assert(crate::costs::below(p, q));
        assert(p[f as int] <= q[f as int]);
    }
    let a = choose|a: int| #[trigger]
        d.adds(a, f) && crate::costs::cost_of(q, d.pre(a), how, d.actions@[a].cost as nat) <= v;
    assert(q[f as int] <= crate::costs::cost_of(q, d.pre(a), how, d.actions@[a].cost as nat));
    lemma_has_cost(d, s, how, q, d.pre(a));
    (a, crate::costs::cost_of(q, d.pre(a), how, 0))
}

/// A goal without facts costs nothing. With one more fact it costs the sum of both, as
/// far as it can be held, or the greater of both, and nothing finite where one of
/// them does not.
pub proof fn law_facts_are_paid_together(
    d: ClassicalDomain,
    s: Set<u32>,
    goal: Set<u32>,
    g: u32,
    how: Combine,
    v: Option<u32>,
    x: Option<u32>,
    y: Option<u32>,
)
    requires
        d.facts.names@.len() <= u32::MAX,
        !goal.contains(g),
        crate::costs::is_goal_cost(d, s, goal, how, v),
        crate::costs::is_goal_cost(d, s, set![g], how, x),
        crate::costs::is_goal_cost(d, s, goal.insert(g), how, y),
    ensures
        goal == Set::<u32>::empty() ==> v == Some(0u32),
        y is Some <==> v is Some && x is Some,
        y is Some && how == Combine::Max ==> y->0 == (if v->0 <= x->0 {
            x->0
        } else {
            v->0
        }),
        y is Some && how == Combine::Sum ==> y->0 == (if v->0 + x->0 < u32::MAX {
            v->0 + x->0
        } else {
            u32::MAX - 1
        }),
{
    let q = choose|q: Seq<u32>| #[trigger]
        crate::costs::is_cost_table(d, s, how, q) && v == (if crate::costs::is_finite(q, goal) {
            Some(crate::costs::cost_of(q, goal, how, 0))
        } else {
            None
        });
    lemma_cost_in_table(d, s, how, q, set![g], x);
    lemma_cost_in_table(d, s, how, q, goal.insert(g), y);
    lemma_single_cost(q, g, how);
    lemma_none_below(q, how, q.len());
    lemma_one_more_below(q, goal, g, how, q.len());
    let more = goal.insert(g);
    assert(more.contains(g));
    if crate::costs::is_finite(q, more) {
        assert forall|f: u32| #[trigger] goal.contains(f) implies f < q.len() && q[f as int]
            < u32::MAX by {
            assert(more.contains(f));
        }
    }
    if crate::costs::is_finite(q, goal) && crate::costs::is_finite(q, set![g]) {
        assert forall|f: u32| #[trigger] more.contains(f) implies f < q.len() && q[f as int]
            < u32::MAX by {
            if f != g {
                assert(goal.contains(f));
            }
        }
    }
    if how == Combine::Max && crate::costs::is_finite(q, goal) {
        lemma_max_below_limit(q, goal, q.len());
    }
}

/// The dearest of finite costs is finite.
proof fn lemma_max_below_limit(q: Seq<u32>, facts: Set<u32>, n: nat)
    requires
        n <= q.len() <= u32::MAX,
        crate::costs::is_finite(q, facts),
    ensures
        crate::costs::cost_below(q, facts, Combine::Max, n) < u32::MAX,
    decreases n,
{
    if n > 0 {
        lemma_max_below_limit(q, facts, (n - 1) as nat);
        if facts.contains((n - 1) as u32) {
            assert(q[n - 1] < u32::MAX);
        }
    }
}

/// The dearest fact pays for as much as the actions allow: where a table has
/// nothing for what holds, and for what an action adds no more than the action's
/// cost and the entry of some fact of its precondition, no fact costs less than
/// its entry.
pub proof fn law_max_is_above_every_agreeing_table(
    d: ClassicalDomain,
    s: Set<u32>,
    p: Seq<u32>,
    f: u32,
    v: Option<u32>,
)
    requires
        d.facts.names@.len() <= u32::MAX,
        p.len() == d.facts.names@.len(),
        forall|g: u32| g < p.len() && #[trigger] s.contains(g) ==> p[g as int] == 0,
        forall|a: int, g: u32|
            0 <= a < d.actions@.len() && d.actions@[a].add_effects@.len() > 0
                && #[trigger] d.actions@[a].add_effects@[0]@.contains(g) && g < p.len()
                ==> p[g as int] <= d.actions@[a].cost && p[g as int] < u32::MAX || exists|x: u32|
                #[trigger] d.actions@[a].pre_cond@.contains(x) && (x >= p.len() || p[x as int]
                    == u32::MAX || (p[g as int] < u32::MAX && p[g as int] <= d.actions@[a].cost
                    + p[x as int])),
        f < p.len(),
        crate::costs::is_goal_cost(d, s, set![f], Combine::Max, v),
    ensures
        v is Some ==> p[f as int] <= v->0,
{
    let q = choose|q: Seq<u32>| #[trigger]
        crate::costs::is_cost_table(d, s, Combine::Max, q) && v == (
        if crate::costs::is_finite(q, set![f]) {
            Some(crate::costs::cost_of(q, set![f], Combine::Max, 0))
        } else {
            None
        });
    lemma_single_cost(q, f, Combine::Max);
    assert forall|a: int, g: u32| #[trigger] d.adds(a, g) implies p[g as int]
        <= crate::costs::cost_of(p, d.pre(a), Combine::Max, d.actions@[a].cost as nat) by {
        assert(d.actions@[a].add_effects@[0]@.contains(g));
        if crate::costs::is_finite(p, d.pre(a)) {
            if !(p[g as int] <= d.actions@[a].cost && p[g as int] < u32::MAX) {
                let x = choose|x: u32| #[trigger]
                    d.actions@[a].pre_cond@.contains(x) && (x >= p.len() || p[x as int] == u32::MAX
                        || (p[g as int] < u32::MAX && p[g as int] <= d.actions@[a].cost
                        + p[x as int]));
                assert(d.pre(a).contains(x));
                lemma_max_at_least(p, d.pre(a), p.len(), x);
            }
        }
    }
    assert(crate::costs::is_consistent(d, s, Combine::Max, p));
    assert(crate::costs::below(p, q));
    assert(p[f as int] <= q[f as int]);
}

/// The dearest fact is at least as dear as each.
proof fn lemma_max_at_least(q: Seq<u32>, facts: Set<u32>, n: nat, x: u32)
    requires
        n <= q.len() <= u32::MAX,
        facts.contains(x),
        x < n,
    ensures
        crate::costs::cost_below(q, facts, Combine::Max, n) >= q[x as int],
    decreases n,
{
    if x < n - 1 {
        lemma_max_at_least(q, facts, (n - 1) as nat, x);
    }
}

/// A goal with a fact that is none of the domain, or one that no action leads to, has no
/// finite cost: one outside of a set that has the facts of the start and, with the
/// precondition of an action, the facts of the domain that this adds.
pub proof fn law_facts_out_of_reach_have_no_cost(
    d: ClassicalDomain,
    s: Set<u32>,
    goal: Set<u32>,
    how: Combine,
    v: Option<u32>,
    reach: Set<u32>,
    g: u32,
)
    requires
        d.facts.names@.len() <= u32::MAX,
        crate::costs::is_goal_cost(d, s, goal, how, v),
        goal.contains(g),
        g >= d.facts.names@.len() || !reach.contains(g),
        forall|f: u32| f < d.facts.names@.len() && #[trigger] s.contains(f) ==> reach.contains(f),
        forall|a: int, f: u32|
            0 <= a < d.actions@.len() && d.actions@[a].add_effects@.len() > 0
                && #[trigger] d.actions@[a].add_effects@[0]@.contains(f) && f
                < d.facts.names@.len() && d.actions@[a].pre_cond@.subset_of(reach)
                ==> reach.contains(f),
    ensures
        v is None,
{
    if g >= d.facts.names@.len() {
        let q = choose|q: Seq<u32>| #[trigger]
            crate::costs::is_cost_table(d, s, how, q) && v == (if crate::costs::is_finite(q, goal) {
                Some(crate::costs::cost_of(q, goal, how, 0))
            } else {
                None
            });
        assert(!crate::costs::is_finite(q, goal));
    } else {
        assert forall|a: int, f: u32| #[trigger] d.adds(a, f) && d.pre(a).subset_of(
            reach,
        ) implies reach.contains(f) by {
            assert(d.actions@[a].add_effects@[0]@.contains(f));
        }
        assert(is_closed_set(d, s, reach));
        assert(!goal.subset_of(reach));
        law_dead_end_is_cut_off(d, s, goal, how, v);
    }
}

/// The sum of the entries is what the facts cost together.
proof fn lemma_sum_of_entries(q: Seq<u32>, facts: Set<u32>, sums: Seq<int>, n: int)
    requires
        q.len() <= u32::MAX,
        sums.len() == q.len() + 1,
        sums[0] == 0,
        forall|i: int|
            0 < i < sums.len() ==> #[trigger] sums[i] == sums[i - 1] + (if facts.contains(
                (i - 1) as u32,
            ) {
                q[i - 1] as int
            } else {
                0
            }),
        0 <= n < sums.len(),
    ensures
        crate::costs::cost_below(q, facts, Combine::Sum, n as nat) == sums[n],
    decreases n,
{
    if n > 0 {
        lemma_sum_of_entries(q, facts, sums, n - 1);
        assert(sums[n] == sums[n - 1] + (if facts.contains((n - 1) as u32) {
            q[n - 1] as int
        } else {
            0
        }));
    }
}

/// Where every fact of a precondition is paid for, facts cost as much as the actions
/// allow: where a table has nothing for what holds, and for what an action adds no more
/// than the action's cost and the sum of its precondition's entries, as far as this
/// can be held, no fact costs less than its entry. `sums` adds up the entries of each
/// action's precondition, fact by fact.
pub proof fn law_sum_is_above_every_agreeing_table(
    d: ClassicalDomain,
    s: Set<u32>,
    p: Seq<u32>,
    sums: Seq<Seq<int>>,
    f: u32,
    v: Option<u32>,
)
    requires
        d.facts.names@.len() <= u32::MAX,
        p.len() == d.facts.names@.len(),
        sums.len() == d.actions@.len(),
        forall|a: int|
            0 <= a < sums.len() ==> (#[trigger] sums[a]).len() == p.len() + 1 && sums[a][0] == 0,
        forall|a: int, i: int|
            0 <= a < sums.len() && 0 < i < sums[a].len() ==> #[trigger] sums[a][i] == sums[a][i - 1]
                + (if d.actions@[a].pre_cond@.contains((i - 1) as u32) {
                p[i - 1] as int
            } else {
                0
            }),
        forall|g: u32| g < p.len() && #[trigger] s.contains(g) ==> p[g as int] == 0,
        forall|a: int, g: u32|
            0 <= a < d.actions@.len() && d.actions@[a].add_effects@.len() > 0
                && #[trigger] d.actions@[a].add_effects@[0]@.contains(g) && g < p.len() ==> (exists|
                x: u32,
            | #[trigger]
                d.actions@[a].pre_cond@.contains(x) && (x >= p.len() || p[x as int] == u32::MAX))
                || (p[g as int] < u32::MAX && p[g as int] <= d.actions@[a].cost + sums[a].last()),
        f < p.len(),
        crate::costs::is_goal_cost(d, s, set![f], Combine::Sum, v),
    ensures
        v is Some ==> p[f as int] <= v->0,
{
    let q = choose|q: Seq<u32>| #[trigger]
        crate::costs::is_cost_table(d, s, Combine::Sum, q) && v == (
        if crate::costs::is_finite(q, set![f]) {
            Some(crate::costs::cost_of(q, set![f], Combine::Sum, 0))
        } else {
            None
        });
    lemma_single_cost(q, f, Combine::Sum);
    assert forall|a: int, g: u32| #[trigger] d.adds(a, g) implies p[g as int]
        <= crate::costs::cost_of(p, d.pre(a), Combine::Sum, d.actions@[a].cost as nat) by {
        assert(d.actions@[a].add_effects@[0]@.contains(g));
        assert(sums[a].len() == p.len() + 1);
        lemma_sum_of_entries(p, d.pre(a), sums[a], p.len() as int);
        if crate::costs::is_finite(p, d.pre(a)) {
            assert forall|x: u32| #[trigger] d.actions@[a].pre_cond@.contains(x) implies x < p.len()
                && p[x as int] < u32::MAX by {
                assert(d.pre(a).contains(x));
            }
        }
    }
    assert(crate::costs::is_consistent(d, s, Combine::Sum, p));
    assert(crate::costs::below(p, q));
    assert(p[f as int] <= q[f as int]);
}

} // verus!

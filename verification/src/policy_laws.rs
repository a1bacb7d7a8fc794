//! Laws of what graphs of policies are worth, and of their order.

use vstd::prelude::*;

use crate::policy::{NodeKind, NodeView, TiebreakerKind};
use crate::probability::ONE;

verus! {

/// Every entry of `v` is at most that of `w`.
pub open spec fn below(v: Seq<u64>, w: Seq<u64>) -> bool {
    v.len() == w.len() && forall|i: int| 0 <= i < v.len() ==> #[trigger] v[i] <= w[i]
}

/// No node is worth more than its entry: the entries of the nodes with a fixed
/// value are at least that, and the others at least what their successors'
/// entries make them.
pub open spec fn is_upper(nodes: Seq<NodeView>, w: Seq<u64>) -> bool {
    &&& w.len() == nodes.len()
    &&& forall|i: int|
        0 <= i < nodes.len() ==> {
            if crate::policy::is_pinned(#[trigger] nodes[i]) {
                w[i] >= crate::policy::start_value(nodes[i])
            } else {
                w[i] >= crate::policy::backed_up(nodes[i], w)
            }
        }
}

/// No node is worth less than its entry.
pub open spec fn is_lower(nodes: Seq<NodeView>, v: Seq<u64>) -> bool {
    &&& v.len() == nodes.len()
    &&& forall|i: int|
        0 <= i < nodes.len() && !crate::policy::is_pinned(#[trigger] nodes[i]) ==> v[i]
            <= crate::policy::backed_up(nodes[i], v)
}

/// The edges lead to entries of a table of the length.
spec fn edges_within(successors: Seq<(usize, u64)>, n: int) -> bool {
    forall|k: int| 0 <= k < successors.len() ==> (#[trigger] successors[k]).0 < n
}

proof fn lemma_weighted_mono(
    successors: Seq<(usize, u64)>,
    v: Seq<u64>,
    w: Seq<u64>,
    k: nat,
)
    requires
        below(v, w),
        edges_within(successors, v.len() as int),
        k <= successors.len(),
    ensures
        crate::policy::weighted(successors, v, k) <= crate::policy::weighted(successors, w, k),
    decreases k,
{
    if k > 0 {
        lemma_weighted_mono(successors, v, w, (k - 1) as nat);
        let (j, p) = successors[k - 1];
        assert(successors[k - 1].0 < v.len());
        assert(v[j as int] <= w[j as int]);
        crate::probability::lemma_scaled_mono(v[j as int], w[j as int], p, p);
    }
}

/// A node is worth no less by greater values.
proof fn lemma_backed_up_mono(nodes: Seq<NodeView>, i: int, v: Seq<u64>, w: Seq<u64>)
    requires
        crate::policy::edges_wf(nodes),
        0 <= i < nodes.len(),
        v.len() == nodes.len(),
        below(v, w),
    ensures
        crate::policy::backed_up(nodes[i], v) <= crate::policy::backed_up(nodes[i], w),
{
    let s = nodes[i].successors;
    assert forall|k: int| 0 <= k < s.len() implies (#[trigger] s[k]).0 < v.len() by {
        assert(nodes[i].successors[k].0 < nodes.len());
    }
    lemma_weighted_mono(s, v, w, s.len());
}

/// Sweeping keeps the values below an upper table.
proof fn lemma_swept_below(nodes: Seq<NodeView>, v: Seq<u64>, w: Seq<u64>, i: nat)
    requires
        crate::policy::edges_wf(nodes),
        is_upper(nodes, w),
        below(v, w),
        i <= nodes.len(),
    ensures
        below(crate::policy::swept(nodes, v, i), w),
    decreases i,
{
    if i > 0 {
        lemma_swept_below(nodes, v, w, (i - 1) as nat);
        let u = crate::policy::swept(nodes, v, (i - 1) as nat);
        if !crate::policy::is_pinned(nodes[i - 1]) {
            lemma_backed_up_mono(nodes, i - 1, u, w);
        }
    }
}

proof fn lemma_after_below(nodes: Seq<NodeView>, w: Seq<u64>, k: nat)
    requires
        crate::policy::edges_wf(nodes),
        is_upper(nodes, w),
    ensures
        below(crate::policy::after(nodes, k), w),
    decreases k,
{
    if k == 0 {
        let v = crate::policy::start_values(nodes);
        assert forall|i: int| 0 <= i < v.len() implies #[trigger] v[i] <= w[i] by {
            assert(v[i] == crate::policy::start_value(nodes[i]));
        }
    } else {
        lemma_after_below(nodes, w, (k - 1) as nat);
        lemma_swept_below(nodes, crate::policy::after(nodes, (k - 1) as nat), w, nodes.len());
    }
}

/// The value of a graph never exceeds what an upper table says of its first node.
pub proof fn law_value_is_below_every_upper_table(nodes: Seq<NodeView>, w: Seq<u64>)
    requires
        nodes.len() > 0,
        crate::policy::edges_wf(nodes),
        is_upper(nodes, w),
    ensures
        crate::policy::vi_value(nodes) <= w[0],
{
    let last = choose|k: nat| crate::policy::is_last_sweep(nodes, k);
    lemma_after_below(nodes, w, last + 1);
}

/// Sweeping only raises the values, and none rises above what it is worth.
pub proof fn lemma_swept_rises(nodes: Seq<NodeView>, v: Seq<u64>, i: nat)
    requires
        crate::policy::edges_wf(nodes),
        is_lower(nodes, v),
        i <= nodes.len(),
    ensures
        is_lower(nodes, crate::policy::swept(nodes, v, i)),
        below(v, crate::policy::swept(nodes, v, i)),
    decreases i,
{
    if i > 0 {
        lemma_swept_rises(nodes, v, (i - 1) as nat);
        let u = crate::policy::swept(nodes, v, (i - 1) as nat);
        let n = nodes[i - 1];
        if !crate::policy::is_pinned(n) {
            let next = u.update(i - 1, crate::policy::backed_up(n, u));
            assert(below(u, next));
            assert forall|j: int|
                0 <= j < nodes.len() && !crate::policy::is_pinned(
                    #[trigger] nodes[j],
                ) implies next[j] <= crate::policy::backed_up(nodes[j], next) by {
                lemma_backed_up_mono(nodes, j, u, next);
            }
        }
    }
}

/// The values before the first sweep are no more than the nodes are worth.
pub proof fn lemma_start_is_lower(nodes: Seq<NodeView>)
    ensures
        is_lower(nodes, crate::policy::start_values(nodes)),
{
    let v = crate::policy::start_values(nodes);
    assert forall|i: int|
        0 <= i < nodes.len() && !crate::policy::is_pinned(#[trigger] nodes[i]) implies v[i]
        <= crate::policy::backed_up(nodes[i], v) by {
        assert(v[i] == crate::policy::start_value(nodes[i]));
    }
}

proof fn lemma_after_rises(nodes: Seq<NodeView>, k: nat)
    requires
        crate::policy::edges_wf(nodes),
    ensures
        is_lower(nodes, crate::policy::after(nodes, k)),
        below(crate::policy::start_values(nodes), crate::policy::after(nodes, k)),
    decreases k,
{
    if k == 0 {
        lemma_start_is_lower(nodes);
    } else {
        lemma_after_rises(nodes, (k - 1) as nat);
        lemma_swept_rises(nodes, crate::policy::after(nodes, (k - 1) as nat), nodes.len());
    }
}

/// The values rise from sweep to sweep, and no node is worth less than its value.
pub proof fn law_values_rise(nodes: Seq<NodeView>, k: nat)
    requires
        crate::policy::edges_wf(nodes),
    ensures
        below(crate::policy::after(nodes, k), crate::policy::after(nodes, k + 1)),
        is_lower(nodes, crate::policy::after(nodes, k)),
{
    lemma_after_rises(nodes, k);
    lemma_swept_rises(nodes, crate::policy::after(nodes, k), nodes.len());
}

/// Bringing the first `i` nodes up to date takes from what the values lack at
/// least the greatest change, which no value exceeds.
pub proof fn lemma_swept_lacks_less(nodes: Seq<NodeView>, v: Seq<u64>, i: nat)
    requires
        crate::policy::edges_wf(nodes),
        is_lower(nodes, v),
        i <= nodes.len(),
    ensures
        crate::probability::slack(crate::policy::swept(nodes, v, i))
            + crate::policy::greatest_change(nodes, v, i) <= crate::probability::slack(v),
        crate::policy::swept(nodes, v, i).len() == v.len(),
        forall|j: int|
            0 <= j < i ==> #[trigger] crate::policy::swept(nodes, v, i)[j]
                <= v[j] + crate::policy::greatest_change(nodes, v, i),
        forall|j: int| i <= j < v.len() ==> #[trigger] crate::policy::swept(nodes, v, i)[j] == v[j],
    decreases i,
{
    if i > 0 {
        lemma_swept_lacks_less(nodes, v, (i - 1) as nat);
        lemma_swept_rises(nodes, v, (i - 1) as nat);
        let u = crate::policy::swept(nodes, v, (i - 1) as nat);
        let n = nodes[i - 1];
        if !crate::policy::is_pinned(n) {
            let b = crate::policy::backed_up(n, u);
            assert(u[i - 1] == v[i - 1]);
            assert(u[i - 1] <= b);
            crate::probability::lemma_slack_update(u, i - 1, b);
        }
        assert forall|j: int| 0 <= j < i implies #[trigger] crate::policy::swept(nodes, v, i)[j]
            <= v[j] + crate::policy::greatest_change(nodes, v, i) by {
            if j < i - 1 {
                assert(u[j] <= v[j] + crate::policy::greatest_change(nodes, v, (i - 1) as nat));
            } else {
                assert(u[j] == v[j]);
            }
        }
        assert forall|j: int| i <= j < v.len() implies #[trigger] crate::policy::swept(
            nodes,
            v,
            i,
        )[j] == v[j] by {
            assert(u[j] == v[j]);
        }
    }
}

/// As long as no sweep is calm, the values lack less with each.
proof fn lemma_after_lacks_less(nodes: Seq<NodeView>, k: nat)
    requires
        crate::policy::edges_wf(nodes),
        forall|j: nat| j < k ==> !#[trigger] crate::policy::is_calm(nodes, j),
    ensures
        crate::probability::slack(crate::policy::after(nodes, k)) + k
            <= crate::probability::slack(crate::policy::start_values(nodes)),
    decreases k,
{
    if k > 0 {
        let before = crate::policy::after(nodes, (k - 1) as nat);
        lemma_after_lacks_less(nodes, (k - 1) as nat);
        lemma_after_rises(nodes, (k - 1) as nat);
        lemma_swept_lacks_less(nodes, before, nodes.len());
        assert(!crate::policy::is_calm(nodes, (k - 1) as nat));
    }
}

/// One of the first `k` sweeps is the last one, or none of them is calm.
proof fn lemma_first_calm(nodes: Seq<NodeView>, k: nat)
    ensures
        (exists|j: nat| crate::policy::is_last_sweep(nodes, j)) || forall|j: nat|
            j < k ==> !#[trigger] crate::policy::is_calm(nodes, j),
    decreases k,
{
    if k > 0 {
        lemma_first_calm(nodes, (k - 1) as nat);
        if crate::policy::is_calm(nodes, (k - 1) as nat) && forall|j: nat|
            j < k - 1 ==> !#[trigger] crate::policy::is_calm(nodes, j) {
            assert(crate::policy::is_last_sweep(nodes, (k - 1) as nat));
        }
    }
}

/// However slowly the values rise, the sweeps come to an end: there is exactly
/// one last sweep, it changes no value by as much as `EPSILON`, and the settled
/// values are those that it leaves.
pub proof fn law_sweeps_end(nodes: Seq<NodeView>) -> (k: nat)
    requires
        crate::policy::edges_wf(nodes),
    ensures
        crate::policy::is_last_sweep(nodes, k),
        forall|j: nat| crate::policy::is_last_sweep(nodes, j) ==> j == k,
        crate::policy::settled(nodes) == crate::policy::after(nodes, k + 1),
        crate::policy::settled(nodes).len() == nodes.len(),
        forall|i: int|
            0 <= i < nodes.len() ==> crate::policy::after(nodes, k)[i]
                <= #[trigger] crate::policy::settled(nodes)[i] < crate::policy::after(nodes, k)[i]
                + crate::policy::EPSILON,
{
    let most = crate::probability::slack(crate::policy::start_values(nodes)) + 1;
    lemma_first_calm(nodes, most);
    if forall|j: nat| j < most ==> !#[trigger] crate::policy::is_calm(nodes, j) {
        lemma_after_lacks_less(nodes, most);
    }
    let k = choose|k: nat| crate::policy::is_last_sweep(nodes, k);
    assert forall|j: nat| crate::policy::is_last_sweep(nodes, j) implies j == k by {
        if j < k {
            assert(crate::policy::is_calm(nodes, j));
        } else if k < j {
            assert(crate::policy::is_calm(nodes, k));
        }
    }
    let v = crate::policy::after(nodes, k);
    lemma_after_rises(nodes, k);
    lemma_swept_rises(nodes, v, nodes.len());
    lemma_swept_lacks_less(nodes, v, nodes.len());
    assert forall|i: int| 0 <= i < nodes.len() implies v[i]
        <= #[trigger] crate::policy::settled(nodes)[i] < v[i] + crate::policy::EPSILON by {
        assert(v[i] <= crate::policy::swept(nodes, v, nodes.len())[i]);
    }
    k
}

/// A sweep that changes nothing leaves all values as they are, and each node is
/// worth its value.
proof fn lemma_unchanged(nodes: Seq<NodeView>, v: Seq<u64>, i: nat)
    requires
        v.len() == nodes.len(),
        i <= nodes.len(),
        crate::policy::greatest_change(nodes, v, i) == 0,
    ensures
        crate::policy::swept(nodes, v, i) == v,
        forall|j: int|
            0 <= j < i && !crate::policy::is_pinned(#[trigger] nodes[j]) ==> v[j]
                == crate::policy::backed_up(nodes[j], v),
    decreases i,
{
    if i > 0 {
        lemma_unchanged(nodes, v, (i - 1) as nat);
        if !crate::policy::is_pinned(nodes[i - 1]) {
            assert(v.update(i - 1, v[i - 1]) =~= v);
        }
    }
}

proof fn lemma_pinned_stay(nodes: Seq<NodeView>, v: Seq<u64>, i: nat, j: int)
    requires
        v.len() == nodes.len(),
        i <= nodes.len(),
        0 <= j < nodes.len(),
        crate::policy::is_pinned(nodes[j]),
    ensures
        crate::policy::swept(nodes, v, i).len() == v.len(),
        crate::policy::swept(nodes, v, i)[j] == v[j],
    decreases i,
{
    if i > 0 {
        lemma_pinned_stay(nodes, v, (i - 1) as nat, j);
    }
}

proof fn lemma_pinned_after(nodes: Seq<NodeView>, k: nat, j: int)
    requires
        0 <= j < nodes.len(),
        crate::policy::is_pinned(nodes[j]),
    ensures
        crate::policy::after(nodes, k).len() == nodes.len(),
        crate::policy::after(nodes, k)[j] == crate::policy::start_value(nodes[j]),
    decreases k,
{
    if k > 0 {
        lemma_pinned_after(nodes, (k - 1) as nat, j);
        lemma_pinned_stay(nodes, crate::policy::after(nodes, (k - 1) as nat), nodes.len(), j);
    }
}

/// Where one more sweep would change nothing, the settled values are an upper
/// table, so the value of the graph is the least that any upper table has for
/// its first node.
pub proof fn law_settled_values_are_the_least_upper_table(nodes: Seq<NodeView>)
    requires
        nodes.len() > 0,
        crate::policy::edges_wf(nodes),
        crate::policy::greatest_change(nodes, crate::policy::settled(nodes), nodes.len()) == 0,
    ensures
        is_upper(nodes, crate::policy::settled(nodes)),
        forall|w: Seq<u64>| #[trigger]
            is_upper(nodes, w) ==> crate::policy::vi_value(nodes) <= w[0],
{
    let v = crate::policy::settled(nodes);
    let last = law_sweeps_end(nodes);
    lemma_unchanged(nodes, v, nodes.len());
    assert forall|i: int| 0 <= i < nodes.len() implies {
        if crate::policy::is_pinned(#[trigger] nodes[i]) {
            v[i] >= crate::policy::start_value(nodes[i])
        } else {
            v[i] >= crate::policy::backed_up(nodes[i], v)
        }
    } by {
        if crate::policy::is_pinned(nodes[i]) {
            lemma_pinned_after(nodes, last + 1, i);
        }
    }
    assert forall|w: Seq<u64>| #[trigger] is_upper(nodes, w) implies crate::policy::vi_value(nodes)
        <= w[0] by {
        law_value_is_below_every_upper_table(nodes, w);
    }
}

/// The sum of the probabilities of the first `k` edges.
pub open spec fn total_prob(successors: Seq<(usize, u64)>, k: nat) -> nat
    decreases k,
{
    if k == 0 {
        0
    } else {
        total_prob(successors, (k - 1) as nat) + successors[k - 1].1 as nat
    }
}

/// The probabilities of the edges of a node are those of one of several
/// outcomes, and no fixed value is more than certain.
pub open spec fn is_distribution(nodes: Seq<NodeView>) -> bool {
    forall|i: int|
        0 <= i < nodes.len() ==> (#[trigger] nodes[i]).prob_upper <= ONE && total_prob(
            nodes[i].successors,
            nodes[i].successors.len(),
        ) <= ONE
}

/// The table that says of every node that it is certain.
pub open spec fn all_certain(n: nat) -> Seq<u64> {
    Seq::new(n, |i: int| ONE)
}

/// Values of at most 1 that are weighted by probabilities come to at most the
/// sum of the probabilities.
pub proof fn lemma_weighted_at_most(successors: Seq<(usize, u64)>, v: Seq<u64>, k: nat)
    requires
        k <= successors.len(),
        total_prob(successors, k) <= u64::MAX,
        forall|x: int|
            0 <= x < k ==> (#[trigger] successors[x]).1 <= ONE && v[successors[x].0 as int] <= ONE,
    ensures
        crate::policy::weighted(successors, v, k) <= total_prob(successors, k),
    decreases k,
{
    if k > 0 {
        let (j, p) = successors[k - 1];
        assert(successors[k - 1].1 <= ONE);
        lemma_weighted_at_most(successors, v, (k - 1) as nat);
        crate::probability::lemma_scaled_mono(v[j as int], ONE, p, p);
        crate::probability::lemma_scaled_bound(ONE, p);
    }
}

/// No graph with proper probabilities is worth more than 1.
pub proof fn law_value_is_a_probability(nodes: Seq<NodeView>)
    requires
        crate::policy::edges_wf(nodes),
        is_distribution(nodes),
    ensures
        crate::policy::vi_value(nodes) <= ONE,
{
    if nodes.len() > 0 {
        let w = all_certain(nodes.len());
        assert forall|i: int| 0 <= i < nodes.len() implies {
            if crate::policy::is_pinned(#[trigger] nodes[i]) {
                w[i] >= crate::policy::start_value(nodes[i])
            } else {
                w[i] >= crate::policy::backed_up(nodes[i], w)
            }
        } by {
            let s = nodes[i].successors;
            assert forall|x: int| 0 <= x < s.len() implies (#[trigger] s[x]).1 <= ONE
                && w[s[x].0 as int] <= ONE by {
                assert(nodes[i].successors[x].0 < nodes.len());
            }
            lemma_weighted_at_most(s, w, s.len());
        }
        law_value_is_below_every_upper_table(nodes, w);
    }
}

/// Values of nothing, and what has no probability, come to nothing.
pub proof fn lemma_weighted_nothing(s: Seq<(usize, u64)>, v: Seq<u64>, k: nat)
    requires
        k <= s.len(),
        forall|x: int| 0 <= x < k ==> v[(#[trigger] s[x]).0 as int] == 0 || s[x].1 == 0,
    ensures
        crate::policy::weighted(s, v, k) == 0,
    decreases k,
{
    if k > 0 {
        lemma_weighted_nothing(s, v, (k - 1) as nat);
        assert(v[s[k - 1].0 as int] == 0 || s[k - 1].1 == 0);
        crate::probability::lemma_scaled_bound(v[s[k - 1].0 as int], 0);
    }
}

/// A graph that has no goal and waits for no method is worth nothing.
pub proof fn law_no_goal_no_value(nodes: Seq<NodeView>)
    requires
        nodes.len() > 0,
        crate::policy::edges_wf(nodes),
        forall|i: int|
            0 <= i < nodes.len() ==> (#[trigger] nodes[i]).kind != NodeKind::Goal && nodes[i].kind
                != NodeKind::Compound,
    ensures
        crate::policy::vi_value(nodes) == 0,
{
    let w = Seq::new(nodes.len(), |i: int| 0u64);
    assert forall|i: int| 0 <= i < nodes.len() implies {
        if crate::policy::is_pinned(#[trigger] nodes[i]) {
            w[i] >= crate::policy::start_value(nodes[i])
        } else {
            w[i] >= crate::policy::backed_up(nodes[i], w)
        }
    } by {
        let s = nodes[i].successors;
        assert forall|x: int| 0 <= x < s.len() implies w[(#[trigger] s[x]).0 as int] == 0 by {
            assert(nodes[i].successors[x].0 < nodes.len());
        }
        lemma_weighted_nothing(s, w, s.len());
    }
    law_value_is_below_every_upper_table(nodes, w);
}

/// The gains of the first `k` successors, each times the probability of its edge.
pub open spec fn weighted_gains(successors: Seq<(usize, u64)>, g: Seq<nat>, k: nat) -> nat
    decreases k,
{
    if k == 0 {
        0
    } else {
        let (j, p) = successors[k - 1];
        weighted_gains(successors, g, (k - 1) as nat) + g[j as int] * p as nat
    }
}

/// What greater values add to what a node is worth.
proof fn lemma_weighted_gains(
    successors: Seq<(usize, u64)>,
    v: Seq<u64>,
    w: Seq<u64>,
    g: Seq<nat>,
    k: nat,
)
    requires
        k <= successors.len(),
        forall|x: int|
            0 <= x < k ==> w[(#[trigger] successors[x]).0 as int] <= v[successors[x].0 as int]
                + g[successors[x].0 as int],
    ensures
        ONE * crate::policy::weighted(successors, w, k) <= ONE * crate::policy::weighted(
            successors,
            v,
            k,
        ) + weighted_gains(successors, g, k) + ONE * k,
    decreases k,
{
    if k > 0 {
        lemma_weighted_gains(successors, v, w, g, (k - 1) as nat);
        let (j, p) = successors[k - 1];
        assert(w[successors[k - 1].0 as int] <= v[j as int] + g[j as int]);
        let (a, b, c) = (w[j as int] as int, v[j as int] as int, g[j as int] as int);
        let (x, y) = (a * p / ONE as int, b * p / ONE as int);
        assert(ONE * x <= a * p && b * p < ONE * y + ONE && a * p <= b * p + c * p) by (nonlinear_arith)
            requires
                x == a * p / ONE as int,
                y == b * p / ONE as int,
                a <= b + c,
                p >= 0,
        ;
        assert(ONE * k == ONE * (k - 1) + ONE) by (nonlinear_arith);
        assert(0 <= x && 0 <= y) by (nonlinear_arith)
            requires
                x == a * p / ONE as int,
                y == b * p / ONE as int,
                a >= 0,
                b >= 0,
                p >= 0,
        ;
    }
}

/// Gains that no entry exceeds come to no more than that, by probabilities.
proof fn lemma_even_gains(successors: Seq<(usize, u64)>, g: Seq<nat>, most: nat, k: nat)
    requires
        k <= successors.len(),
        forall|x: int| 0 <= x < k ==> g[(#[trigger] successors[x]).0 as int] <= most,
    ensures
        weighted_gains(successors, g, k) <= most * total_prob(successors, k),
    decreases k,
{
    if k > 0 {
        lemma_even_gains(successors, g, most, (k - 1) as nat);
        let (j, p) = successors[k - 1];
        let t = total_prob(successors, (k - 1) as nat);
        assert(g[successors[k - 1].0 as int] <= most);
        assert(g[j as int] * p as nat <= most * p as nat) by (nonlinear_arith)
            requires
                g[j as int] <= most,
                p >= 0,
        ;
        assert(most * (t + p as nat) == most * t + most * p as nat) by (nonlinear_arith);
    } else {
        assert(most * 0 == 0) by (nonlinear_arith);
    }
}

/// The node at `i` is worth hardly more than its settled value: less than
/// `EPSILON` and a unit for each edge.
proof fn lemma_hardly_more(nodes: Seq<NodeView>, i: int)
    requires
        crate::policy::edges_wf(nodes),
        is_distribution(nodes),
        0 <= i < nodes.len(),
        !crate::policy::is_pinned(nodes[i]),
    ensures
        crate::policy::backed_up(nodes[i], crate::policy::settled(nodes))
            < crate::policy::settled(nodes)[i] + crate::policy::EPSILON
            + nodes[i].successors.len(),
{
    let last = law_sweeps_end(nodes);
    let v = crate::policy::after(nodes, last);
    let w = crate::policy::settled(nodes);
    lemma_after_rises(nodes, last);
    let u = crate::policy::swept(nodes, v, i as nat);
    lemma_swept_rises(nodes, v, i as nat);
    lemma_swept_keeps(nodes, v, i as nat, nodes.len(), i);
    let s = nodes[i].successors;
    let most = (crate::policy::EPSILON - 1) as nat;
    let g = Seq::new(nodes.len(), |j: int| most);
    assert forall|x: int| 0 <= x < s.len() implies w[(#[trigger] s[x]).0 as int]
        <= u[s[x].0 as int] + g[s[x].0 as int] by {
        assert(nodes[i].successors[x].0 < nodes.len());
        let j = s[x].0 as int;
        assert(w[j] < v[j] + crate::policy::EPSILON);
        assert(v[j] <= u[j]);
    }
    lemma_weighted_gains(s, u, w, g, s.len());
    assert forall|x: int| 0 <= x < s.len() implies g[(#[trigger] s[x]).0 as int] <= most by {
        assert(nodes[i].successors[x].0 < nodes.len());
    }
    lemma_even_gains(s, g, most, s.len());
    let total = total_prob(s, s.len());
    let (a, b) = (
        crate::policy::backed_up(nodes[i], w) as int,
        crate::policy::backed_up(nodes[i], u) as int,
    );
    let n = s.len() as int;
    assert(a <= b + most + n) by (nonlinear_arith)
        requires
            ONE * a <= ONE * b + most * total + ONE * n,
            total <= ONE,
            most >= 0,
    ;
}

proof fn lemma_swept_len(nodes: Seq<NodeView>, v: Seq<u64>, i: nat)
    requires
        v.len() == nodes.len(),
        i <= nodes.len(),
    ensures
        crate::policy::swept(nodes, v, i).len() == v.len(),
    decreases i,
{
    if i > 0 {
        lemma_swept_len(nodes, v, (i - 1) as nat);
    }
}

/// What a sweep made of the node at `i` stays until its end.
proof fn lemma_swept_keeps(nodes: Seq<NodeView>, v: Seq<u64>, i: nat, n: nat, j: int)
    requires
        v.len() == nodes.len(),
        i < n <= nodes.len(),
        i == j,
        !crate::policy::is_pinned(nodes[j]),
    ensures
        crate::policy::swept(nodes, v, n).len() == nodes.len(),
        crate::policy::swept(nodes, v, n)[j] == crate::policy::backed_up(
            nodes[j],
            crate::policy::swept(nodes, v, i),
        ),
    decreases n,
{
    if n > i + 1 {
        lemma_swept_keeps(nodes, v, i, (n - 1) as nat, j);
    } else {
        lemma_swept_len(nodes, v, i);
    }
}

/// The nodes are dead ends or loops that are never left.
pub open spec fn is_idle(nodes: Seq<NodeView>, idle: Set<int>) -> bool {
    forall|i: int|
        0 <= i < nodes.len() && #[trigger] idle.contains(i) ==> nodes[i].kind == NodeKind::Dead || (
        !crate::policy::is_pinned(nodes[i]) && forall|x: int|
            0 <= x < nodes[i].successors.len() && (#[trigger] nodes[i].successors[x]).1 > 0
                ==> idle.contains(nodes[i].successors[x].0 as int))
}

/// The entries bound the steps until a graph comes to a node with a fixed value
/// or one of the idle nodes: an entry is at least one more than those of the
/// successors are on average.
pub open spec fn is_time_bound(nodes: Seq<NodeView>, times: Seq<nat>, idle: Set<int>) -> bool {
    &&& times.len() == nodes.len()
    &&& forall|i: int| 0 <= i < nodes.len() && #[trigger] idle.contains(i) ==> times[i] == 0
    &&& forall|i: int|
        0 <= i < nodes.len() && !crate::policy::is_pinned(#[trigger] nodes[i]) && !idle.contains(i)
            ==> ONE * times[i] >= ONE + weighted_gains(
            nodes[i].successors,
            times,
            nodes[i].successors.len(),
        )
}

/// Idle nodes are worth nothing.
proof fn lemma_idle_is_worth_nothing(nodes: Seq<NodeView>, idle: Set<int>, i: int)
    requires
        crate::policy::edges_wf(nodes),
        is_idle(nodes, idle),
        0 <= i < nodes.len(),
        idle.contains(i),
    ensures
        crate::policy::settled(nodes)[i] == 0,
{
    let u = Seq::new(
        nodes.len(),
        |x: int|
            if idle.contains(x) {
                0u64
            } else {
                u64::MAX
            },
    );
    assert forall|j: int| 0 <= j < nodes.len() implies {
        if crate::policy::is_pinned(#[trigger] nodes[j]) {
            u[j] >= crate::policy::start_value(nodes[j])
        } else {
            u[j] >= crate::policy::backed_up(nodes[j], u)
        }
    } by {
        if idle.contains(j) && !crate::policy::is_pinned(nodes[j]) {
            let s = nodes[j].successors;
            assert forall|x: int| 0 <= x < s.len() implies u[(#[trigger] s[x]).0 as int] == 0
                || s[x].1 == 0 by {
                assert(nodes[j].successors[x].0 < nodes.len());
            }
            lemma_weighted_nothing(s, u, s.len());
        }
    }
    let last = law_sweeps_end(nodes);
    lemma_after_below(nodes, u, last + 1);
    assert(crate::policy::settled(nodes)[i] <= u[i]);
}

/// The value of a graph is short of what it is worth by no more than what one
/// sweep may leave out, `e`, for each step until the graph comes to a node with
/// a fixed value or is caught. There is an upper table that says so.
pub proof fn law_value_is_precise_in_time(
    nodes: Seq<NodeView>,
    times: Seq<nat>,
    idle: Set<int>,
    e: nat,
) -> (w: Seq<u64>)
    requires
        nodes.len() > 0,
        crate::policy::edges_wf(nodes),
        is_distribution(nodes),
        is_idle(nodes, idle),
        is_time_bound(nodes, times, idle),
        forall|i: int|
            0 <= i < nodes.len() ==> e >= crate::policy::EPSILON + 2 * (
            #[trigger] nodes[i]).successors.len(),
    ensures
        is_upper(nodes, w),
        w[0] <= crate::policy::vi_value(nodes) + e * times[0],
{
    let v = crate::policy::settled(nodes);
    let last = law_sweeps_end(nodes);
    let g = Seq::new(nodes.len(), |i: int| e * times[i]);
    let w = Seq::new(nodes.len(), |i: int| crate::policy::capped(v[i] + e * times[i]));
    assert forall|i: int| 0 <= i < nodes.len() implies {
        if crate::policy::is_pinned(#[trigger] nodes[i]) {
            w[i] >= crate::policy::start_value(nodes[i])
        } else {
            w[i] >= crate::policy::backed_up(nodes[i], w)
        }
    } by {
        assert(e * times[i] >= 0) by (nonlinear_arith)
            requires
                e >= 0,
                times[i] >= 0,
        ;
        if crate::policy::is_pinned(nodes[i]) {
            lemma_pinned_after(nodes, last + 1, i);
        } else if idle.contains(i) {
            let s = nodes[i].successors;
            assert forall|x: int| 0 <= x < s.len() implies w[(#[trigger] s[x]).0 as int] == 0
                || s[x].1 == 0 by {
                let j = nodes[i].successors[x].0 as int;
                assert(j < nodes.len());
                if s[x].1 > 0 {
                    assert(idle.contains(j));
                    lemma_idle_is_worth_nothing(nodes, idle, j);
                    assert(e * times[j] == 0) by (nonlinear_arith)
                        requires
                            times[j] == 0,
                    ;
                }
            }
            lemma_weighted_nothing(s, w, s.len());
        } else {
            let s = nodes[i].successors;
            lemma_hardly_more(nodes, i);
            assert forall|x: int| 0 <= x < s.len() implies w[(#[trigger] s[x]).0 as int]
                <= v[s[x].0 as int] + g[s[x].0 as int] by {
                assert(nodes[i].successors[x].0 < nodes.len());
            }
            lemma_weighted_gains(s, v, w, g, s.len());
            lemma_gains_in_time(nodes, i, times, g, e, s.len());
            let (a, b, c, t, n) = (
                crate::policy::backed_up(nodes[i], w) as int,
                crate::policy::backed_up(nodes[i], v) as int,
                weighted_gains(s, times, s.len()) as int,
                times[i] as int,
                s.len() as int,
            );
            assert(a <= b + e * t - e + n) by (nonlinear_arith)
                requires
                    ONE * a <= ONE * b + e * c + ONE * n,
                    ONE * t >= ONE + c,
                    e >= 0,
            ;
        }
    }
    w
}

/// Gains that grow with time come to the time's gain.
proof fn lemma_gains_in_time(
    nodes: Seq<NodeView>,
    i: int,
    times: Seq<nat>,
    g: Seq<nat>,
    e: nat,
    k: nat,
)
    requires
        crate::policy::edges_wf(nodes),
        0 <= i < nodes.len(),
        k <= nodes[i].successors.len(),
        times.len() == nodes.len(),
        g == Seq::new(nodes.len(), |x: int| e * times[x]),
    ensures
        weighted_gains(nodes[i].successors, g, k) == e * weighted_gains(
            nodes[i].successors,
            times,
            k,
        ),
    decreases k,
{
    if k > 0 {
        lemma_gains_in_time(nodes, i, times, g, e, (k - 1) as nat);
        assert(nodes[i].successors[k - 1].0 < nodes.len());
        let (j, p) = nodes[i].successors[k - 1];
        let (a, b, q) = (
            weighted_gains(nodes[i].successors, times, (k - 1) as nat),
            times[j as int],
            p as nat,
        );
        assert(e * (a + b * q) == e * a + (e * b) * q) by (nonlinear_arith);
    } else {
        assert(e * 0 == 0) by (nonlinear_arith);
    }
}

/// The order of policies is a strict order in which any two that neither goes
/// before the other have the same rank.
pub proof fn law_priority_is_an_order(
    a: (int, int, int),
    b: (int, int, int),
    c: (int, int, int),
)
    ensures
        !crate::policy::is_lower(a, a),
        crate::policy::is_lower(a, b) && crate::policy::is_lower(b, c) ==> crate::policy::is_lower(
            a,
            c,
        ),
        crate::policy::is_lower(a, b) || crate::policy::is_lower(b, a) || a == b,
{
}

/// A policy with the greater f-value goes first, whatever the tiebreaker.
pub proof fn law_greater_value_goes_first(
    tiebreaker: TiebreakerKind,
    f1: int,
    size1: int,
    open1: int,
    f2: int,
    size2: int,
    open2: int,
)
    requires
        f1 < f2,
    ensures
        crate::policy::is_lower(
            crate::policy::rank(tiebreaker, f1, size1, open1),
            crate::policy::rank(tiebreaker, f2, size2, open2),
        ),
{
}

/// The sums without a cap, and the weighted values with one.
proof fn lemma_sums(successors: Seq<(usize, u64)>, v: Seq<u64>, sums: Seq<int>, k: nat)
    requires
        k <= successors.len(),
        sums.len() == successors.len() + 1,
        sums[0] == 0,
        forall|x: int|
            0 <= x < successors.len() ==> sums[x + 1] == #[trigger] sums[x] + (
            v[successors[x].0 as int] * successors[x].1) / ONE as int,
    ensures
        0 <= sums[k as int],
        crate::policy::weighted(successors, v, k) == (if sums[k as int] <= u64::MAX {
            sums[k as int]
        } else {
            u64::MAX as int
        }),
    decreases k,
{
    if k > 0 {
        lemma_sums(successors, v, sums, (k - 1) as nat);
        assert(sums[k as int] == sums[k - 1] + (v[successors[k - 1].0 as int]
            * successors[k - 1].1) / ONE as int);
        let x = v[successors[k - 1].0 as int];
        let p = successors[k - 1].1;
        assert(x * p >= 0) by (nonlinear_arith);
        assert((x * p) / ONE as int >= 0) by (nonlinear_arith)
            requires
                x * p >= 0,
        ;
    }
}

/// What a sweep makes of the node at `i`, and what it goes by.
proof fn lemma_swept_at(nodes: Seq<NodeView>, v: Seq<u64>, n: nat, i: int)
    requires
        v.len() == nodes.len(),
        0 <= i < n <= nodes.len(),
    ensures
        crate::policy::swept(nodes, v, n).len() == v.len(),
        crate::policy::swept(nodes, v, i as nat).len() == v.len(),
        crate::policy::swept(nodes, v, n)[i] == (if crate::policy::is_pinned(nodes[i]) {
            v[i]
        } else {
            crate::policy::backed_up(nodes[i], crate::policy::swept(nodes, v, i as nat))
        }),
        forall|x: int|
            i <= x < v.len() ==> #[trigger] crate::policy::swept(nodes, v, i as nat)[x] == v[x],
        forall|x: int|
            0 <= x < i ==> #[trigger] crate::policy::swept(nodes, v, i as nat)[x]
                == crate::policy::swept(nodes, v, n)[x],
    decreases n,
{
    lemma_swept_keeps_later(nodes, v, i as nat);
    if i < n - 1 {
        lemma_swept_at(nodes, v, (n - 1) as nat, i);
    }
}

proof fn lemma_swept_keeps_later(nodes: Seq<NodeView>, v: Seq<u64>, i: nat)
    requires
        v.len() == nodes.len(),
        i <= nodes.len(),
    ensures
        crate::policy::swept(nodes, v, i).len() == v.len(),
        forall|x: int|
            i <= x < v.len() ==> #[trigger] crate::policy::swept(nodes, v, i)[x] == v[x],
    decreases i,
{
    if i > 0 {
        lemma_swept_keeps_later(nodes, v, (i - 1) as nat);
    }
}

/// The greatest change is that of some node.
proof fn lemma_some_change(nodes: Seq<NodeView>, v: Seq<u64>, n: nat) -> (i: int)
    requires
        v.len() == nodes.len(),
        n <= nodes.len(),
        crate::policy::greatest_change(nodes, v, n) > 0,
    ensures
        0 <= i < n,
        crate::policy::distance(v[i], crate::policy::swept(nodes, v, n)[i])
            == crate::policy::greatest_change(nodes, v, n),
    decreases n,
{
    let w = crate::policy::swept(nodes, v, (n - 1) as nat);
    lemma_swept_keeps_later(nodes, v, (n - 1) as nat);
    lemma_swept_keeps_later(nodes, v, n);
    lemma_swept_at(nodes, v, n, n - 1);
    if crate::policy::greatest_change(nodes, v, n) == crate::policy::greatest_change(
        nodes,
        v,
        (n - 1) as nat,
    ) {
        let i = lemma_some_change(nodes, v, (n - 1) as nat);
        lemma_swept_at(nodes, v, n, i);
        lemma_swept_at(nodes, v, (n - 1) as nat, i);
        i
    } else {
        n - 1
    }
}

proof fn lemma_after_len(nodes: Seq<NodeView>, k: nat)
    ensures
        crate::policy::after(nodes, k).len() == nodes.len(),
    decreases k,
{
    if k > 0 {
        lemma_after_len(nodes, (k - 1) as nat);
        lemma_swept_keeps_later(nodes, crate::policy::after(nodes, (k - 1) as nat), nodes.len());
    }
}

/// The units are such that a whole is 10^18 of them, and values that differ by
/// less than one part in 10^12 count as settled.
pub proof fn law_units()
    ensures
        ONE == 1_000_000_000_000_000_000,
        crate::policy::EPSILON == 1_000_000,
{
}

/// What a graph is worth is what repeated sweeps over its nodes settle at. The
/// tables are the values before the first sweep and after each. A goal is worth 1
/// throughout, a node that waits for a method its bound, and a dead end nothing.
/// Other nodes are worth nothing at first, and each sweep gives them, in their
/// order, the sum of the values of their successors at that time, each times the
/// probability of its edge and rounded down. The last sweep is the first that
/// changes no value by `EPSILON` or more. The sums of the node `i` in the sweep
/// that leads to the table `k` are given by `sums`.
pub proof fn law_value_is_what_sweeps_settle_at(nodes: Seq<NodeView>) -> (tables: Seq<Seq<u64>>)
    requires
        crate::policy::edges_wf(nodes),
        nodes.len() > 0,
    ensures
        tables.len() >= 2,
        crate::policy::vi_value(nodes) == tables.last()[0],
        forall|k: int| 0 <= k < tables.len() ==> (#[trigger] tables[k]).len() == nodes.len(),
        forall|k: int, i: int|
            0 <= k < tables.len() && 0 <= i < nodes.len() ==> {
                &&& nodes[i].kind == NodeKind::Goal ==> #[trigger] tables[k][i] == ONE
                &&& nodes[i].kind == NodeKind::Compound ==> tables[k][i] == nodes[i].prob_upper
                &&& nodes[i].kind == NodeKind::Dead ==> tables[k][i] == 0
            },
        forall|i: int|
            0 <= i < nodes.len() && (nodes[i].kind == NodeKind::Primitive || nodes[i].kind
                == NodeKind::Assigned) ==> #[trigger] tables[0][i] == 0,
        forall|k: int, i: int, sums: Seq<int>|
            #![trigger tables[k][i], sums.len()]
            0 < k < tables.len() && 0 <= i < nodes.len() && (nodes[i].kind
                == NodeKind::Primitive || nodes[i].kind == NodeKind::Assigned) && sums.len()
                == nodes[i].successors.len() + 1 && sums[0] == 0 && (forall|x: int|
                0 <= x < nodes[i].successors.len() ==> sums[x + 1] == #[trigger] sums[x] + ((
                if nodes[i].successors[x].0
                    < i {
                    tables[k][nodes[i].successors[x].0 as int]
                } else {
                    tables[k - 1][nodes[i].successors[x].0 as int]
                }) * nodes[i].successors[x].1) / ONE as int) ==> tables[k][i] == (if sums.last()
                <= u64::MAX {
                sums.last()
            } else {
                u64::MAX as int
            }),
        forall|i: int|
            0 <= i < nodes.len() ==> tables[tables.len() - 2][i] <= #[trigger] tables.last()[i]
                < tables[tables.len() - 2][i] + crate::policy::EPSILON,
        forall|k: int|
            0 < k < tables.len() - 1 ==> (#[trigger] tables[k]).len() == nodes.len() && exists|
                i: int,
            |
                0 <= i < nodes.len() && #[trigger] tables[k - 1][i] + crate::policy::EPSILON
                    <= tables[k][i],
{
    let last = law_sweeps_end(nodes);
    let tables = Seq::new(last + 2, |k: int| crate::policy::after(nodes, k as nat));
    assert forall|k: int| 0 <= k < tables.len() implies (#[trigger] tables[k]).len()
        == nodes.len() by {
        lemma_after_len(nodes, k as nat);
    }
    assert forall|k: int, i: int| 0 <= k < tables.len() && 0 <= i < nodes.len() implies {
        &&& nodes[i].kind == NodeKind::Goal ==> #[trigger] tables[k][i] == ONE
        &&& nodes[i].kind == NodeKind::Compound ==> tables[k][i] == nodes[i].prob_upper
        &&& nodes[i].kind == NodeKind::Dead ==> tables[k][i] == 0
    } by {
        if crate::policy::is_pinned(nodes[i]) {
            lemma_pinned_after(nodes, k as nat, i);
        }
    }
    assert forall|k: int, i: int, sums: Seq<int>|
        #![trigger tables[k][i], sums.len()]
        0 < k < tables.len() && 0 <= i < nodes.len() && (nodes[i].kind == NodeKind::Primitive
            || nodes[i].kind == NodeKind::Assigned) && sums.len() == nodes[i].successors.len() + 1
            && sums[0] == 0 && (forall|x: int|
            0 <= x < nodes[i].successors.len() ==> sums[x + 1] == #[trigger] sums[x] + ((
                if nodes[i].successors[x].0
                < i {
                tables[k][nodes[i].successors[x].0 as int]
            } else {
                tables[k - 1][nodes[i].successors[x].0 as int]
            }) * nodes[i].successors[x].1) / ONE as int) implies tables[k][i] == (
    if sums.last() <= u64::MAX {
        sums.last()
    } else {
        u64::MAX as int
    }) by {
        let v = crate::policy::after(nodes, (k - 1) as nat);
        lemma_after_len(nodes, (k - 1) as nat);
        lemma_swept_at(nodes, v, nodes.len(), i);
        let w = crate::policy::swept(nodes, v, i as nat);
        let s = nodes[i].successors;
        assert(tables[k] == crate::policy::swept(nodes, v, nodes.len()));
        assert forall|x: int| 0 <= x < s.len() implies sums[x + 1] == #[trigger] sums[x] + (
        w[s[x].0 as int] * s[x].1) / ONE as int by {
            assert(nodes[i].successors[x].0 < nodes.len());
            if s[x].0 < i {
                assert(w[s[x].0 as int] == tables[k][s[x].0 as int]);
            } else {
                assert(w[s[x].0 as int] == v[s[x].0 as int]);
            }
        }
        lemma_sums(s, w, sums, s.len());
    }
    assert forall|i: int| 0 <= i < nodes.len() implies tables[tables.len() - 2][i]
        <= #[trigger] tables.last()[i] < tables[tables.len() - 2][i] + crate::policy::EPSILON by {
        assert(crate::policy::settled(nodes)[i] == tables.last()[i]);
    }
    assert forall|k: int| 0 < k < tables.len() - 1 implies (#[trigger] tables[k]).len()
        == nodes.len() && exists|i: int|
        0 <= i < nodes.len() && #[trigger] tables[k - 1][i] + crate::policy::EPSILON
            <= tables[k][i] by {
        let v = crate::policy::after(nodes, (k - 1) as nat);
        lemma_after_len(nodes, (k - 1) as nat);
        assert(!crate::policy::is_calm(nodes, (k - 1) as nat));
        let i = lemma_some_change(nodes, v, nodes.len());
        law_values_rise(nodes, (k - 1) as nat);
        assert(v[i] <= crate::policy::after(nodes, k as nat)[i]);
        assert(tables[k - 1][i] + crate::policy::EPSILON <= tables[k][i]);
    }
    tables
}

/// A table bounds what a graph is worth where it has no less than 1 for a goal, no
/// less than its bound for a node that waits for a method, and for any other
/// node no less than the sum of its successors' entries, each times the
/// probability of its edge and rounded down. The sums are given by `sums`.
pub proof fn law_value_is_at_most_a_bounding_table(
    nodes: Seq<NodeView>,
    w: Seq<u64>,
    sums: Seq<Seq<int>>,
)
    requires
        crate::policy::edges_wf(nodes),
        nodes.len() > 0,
        w.len() == nodes.len(),
        sums.len() == nodes.len(),
        forall|i: int|
            0 <= i < nodes.len() ==> {
                &&& (#[trigger] sums[i]).len() == nodes[i].successors.len() + 1
                &&& sums[i][0] == 0
                &&& forall|x: int|
                    0 <= x < nodes[i].successors.len() ==> sums[i][x + 1] == #[trigger] sums[i][x]
                        + (w[nodes[i].successors[x].0 as int] * nodes[i].successors[x].1)
                        / ONE as int
                &&& match nodes[i].kind {
                    NodeKind::Goal => w[i] >= ONE,
                    NodeKind::Compound => w[i] >= nodes[i].prob_upper,
                    NodeKind::Dead => true,
                    _ => w[i] >= sums[i].last(),
                }
            },
    ensures
        crate::policy::vi_value(nodes) <= w[0],
{
    assert forall|i: int| 0 <= i < nodes.len() implies {
        if crate::policy::is_pinned(#[trigger] nodes[i]) {
            w[i] >= crate::policy::start_value(nodes[i])
        } else {
            w[i] >= crate::policy::backed_up(nodes[i], w)
        }
    } by {
        assert(sums[i].len() == nodes[i].successors.len() + 1);
        lemma_sums(nodes[i].successors, w, sums[i], nodes[i].successors.len());
    }
    law_value_is_below_every_upper_table(nodes, w);
}

/// A policy goes before another where its value is greater; where the values tie,
/// by what the tiebreaker looks at: more assignments, or fewer nodes that wait,
/// or more assignments and, where these tie too, fewer nodes that wait.
pub proof fn law_ranks(tiebreaker: TiebreakerKind, f: int, g: int, n: int, m: int, x: int, y: int)
    ensures
        crate::policy::is_lower(
            crate::policy::rank(tiebreaker, f, n, x),
            crate::policy::rank(tiebreaker, g, m, y),
        ) <==> f < g || (f == g && match tiebreaker {
            TiebreakerKind::NoTiebreak => false,
            TiebreakerKind::PolicySize => n < m,
            TiebreakerKind::ClosureFirst => x > y,
            TiebreakerKind::Combined => n < m || (n == m && x > y),
        }),
        crate::policy::rank(tiebreaker, f, n, x) == crate::policy::rank(tiebreaker, g, m, y) <==> f
            == g && match tiebreaker {
            TiebreakerKind::NoTiebreak => true,
            TiebreakerKind::PolicySize => n == m,
            TiebreakerKind::ClosureFirst => x == y,
            TiebreakerKind::Combined => n == m && x == y,
        },
{
}

} // verus!

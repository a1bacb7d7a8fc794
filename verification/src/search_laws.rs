//! Laws of the partial policies that a search goes through.

use vstd::multiset::Multiset;
use vstd::prelude::*;

use crate::dead_ends::{is_place, is_sound};
use crate::order::Ranked;
use crate::policy::{NodeKind, NodeView, SearchMode, TiebreakerKind};
use crate::policy_laws::{is_distribution, is_upper};
use crate::reach::{Choice, Setting};
use crate::reach_laws::is_finer;
use crate::search_space::{is_chain, is_derived, Moment, Partial};
use crate::signature::Place;

verus! {

/// The steps are what the policy has, each place once.
pub open spec fn is_list_of(p: Partial) -> bool {
    &&& forall|i: int, j: int|
        0 <= i < j < p.steps.len() ==> (#[trigger] p.steps[i]).0 != (#[trigger] p.steps[j]).0
    &&& forall|i: int|
        0 <= i < p.steps.len() ==> p.policy.contains_key((#[trigger] p.steps[i]).0)
            && p.policy[p.steps[i].0] == Choice::By(p.steps[i].1.0, p.steps[i].1.1)
    &&& forall|place: Place| #[trigger]
        p.policy.contains_key(place) ==> exists|i: int|
            0 <= i < p.steps.len() && (#[trigger] p.steps[i]).0 == place
}

/// The place at which a policy waits is one for which it has nothing.
proof fn lemma_next_is_open(cx: Setting, start: Place, p: Partial)
    requires
        p.ok(cx, start),
        p.out_c.len() > 0,
    ensures
        !p.policy.contains_key(p.next_place()),
{
    let i = p.out_c[0];
    assert(p.out_c.contains(i));
    assert(crate::reach::node_ok(
        cx,
        p.policy,
        crate::reach::places_of(p.nodes),
        p.nodes[i as int],
    ));
}

proof fn lemma_chain_lists(cx: Setting, start: Place, chain: Seq<Partial>, k: int)
    requires
        is_chain(cx, start, chain),
        0 <= k < chain.len(),
    ensures
        chain[k].ok(cx, start),
        is_list_of(chain[k]),
    decreases k,
{
    if k > 0 {
        lemma_chain_lists(cx, start, chain, k - 1);
        let p = chain[k - 1];
        let q = chain[k];
        assert(q.follows(cx, start, p));
        let d = choose|d: (int, int)| q.is_child(cx, start, p, d);
        lemma_next_is_open(cx, start, p);
        let n = p.steps.len() as int;
        assert(q.steps[n] == (p.next_place(), d));
        assert forall|i: int| 0 <= i < n implies q.steps[i] == #[trigger] p.steps[i] by {}
        assert forall|i: int, j: int| 0 <= i < j < q.steps.len() implies (
        #[trigger] q.steps[i]).0 != (#[trigger] q.steps[j]).0 by {
            assert(p.policy.contains_key(p.steps[i].0));
        }
        assert forall|i: int| 0 <= i < q.steps.len() implies q.policy.contains_key(
            (#[trigger] q.steps[i]).0,
        ) && q.policy[q.steps[i].0] == Choice::By(q.steps[i].1.0, q.steps[i].1.1) by {
            if i < n {
                assert(p.policy.contains_key(p.steps[i].0));
            }
        }
        assert forall|place: Place| #[trigger] q.policy.contains_key(place) implies exists|i: int|
            0 <= i < q.steps.len() && (#[trigger] q.steps[i]).0 == place by {
            if place != p.next_place() {
                assert(p.policy.contains_key(place));
                let i = choose|i: int|
                    0 <= i < p.steps.len() && (#[trigger] p.steps[i]).0 == place;
                assert(q.steps[i].0 == place);
            } else {
                assert(q.steps[n].0 == place);
            }
        }
    }
}

/// A method can be assigned at the place: nothing can be executed there, and
/// something decomposed.
pub open spec fn is_waiting(cx: Setting, place: Place) -> bool {
    &&& place.net.len() > 0
    &&& crate::reach::executable(cx, place).len() == 0
    &&& crate::reach::decomposable(cx, place).len() > 0
}

proof fn lemma_chain_waits(cx: Setting, start: Place, chain: Seq<Partial>, k: int)
    requires
        is_chain(cx, start, chain),
        0 <= k < chain.len(),
    ensures
        forall|x: Place| #[trigger] chain[k].policy.contains_key(x) ==> is_waiting(cx, x),
    decreases k,
{
    if k > 0 {
        lemma_chain_waits(cx, start, chain, k - 1);
        lemma_chain_lists(cx, start, chain, k - 1);
        let p = chain[k - 1];
        assert(chain[k].follows(cx, start, p));
        let d = choose|d: (int, int)| chain[k].is_child(cx, start, p, d);
        assert(p.out_c.contains(p.out_c[0]));
        assert(crate::reach::node_ok(
            cx,
            p.policy,
            crate::reach::places_of(p.nodes),
            p.nodes[p.out_c[0] as int],
        ));
        assert forall|x: Place| #[trigger] chain[k].policy.contains_key(x) implies is_waiting(
            cx,
            x,
        ) by {
            if x != p.next_place() {
                assert(p.policy.contains_key(x));
            }
        }
    }
}

/// A policy of a search assigns methods only where one can be assigned.
pub proof fn law_policy_is_for_waiting_places(cx: Setting, start: Place, p: Partial)
    requires
        is_derived(cx, start, p),
    ensures
        forall|x: Place| #[trigger] p.policy.contains_key(x) ==> is_waiting(cx, x),
{
    let chain = choose|chain: Seq<Partial>| #[trigger]
        is_chain(cx, start, chain) && chain.last() == p;
    lemma_chain_waits(cx, start, chain, chain.len() - 1);
}

/// Every policy of a search has exactly the assignments that were made on the
/// way to it, and assigns no place twice.
pub proof fn law_steps_are_the_policy(cx: Setting, start: Place, p: Partial)
    requires
        is_derived(cx, start, p),
    ensures
        p.ok(cx, start),
        is_list_of(p),
{
    let chain = choose|chain: Seq<Partial>| #[trigger]
        is_chain(cx, start, chain) && chain.last() == p;
    lemma_chain_lists(cx, start, chain, chain.len() - 1);
}

/// Assignments stay.
proof fn lemma_chain_is_finer(cx: Setting, start: Place, chain: Seq<Partial>, i: int, j: int)
    requires
        is_chain(cx, start, chain),
        0 <= i <= j < chain.len(),
    ensures
        is_finer(cx, chain[j].policy, chain[i].policy),
    decreases j,
{
    if i < j {
        lemma_chain_is_finer(cx, start, chain, i, j - 1);
        lemma_chain_lists(cx, start, chain, j - 1);
        let p = chain[j - 1];
        assert(chain[j].follows(cx, start, p));
        let d = choose|d: (int, int)| chain[j].is_child(cx, start, p, d);
        lemma_next_is_open(cx, start, p);
        assert forall|x: Place| #[trigger] chain[i].policy.contains_key(x) implies chain[j]
            .policy.contains_key(x) && crate::reach_laws::is_alike(
            cx,
            x,
            chain[j].policy[x],
            chain[i].policy[x],
        ) by {
            assert(p.policy.contains_key(x));
        }
    }
}

/// Along a search no policy is worth more than what bounds one before it.
pub proof fn law_descendants_promise_no_more(
    cx: Setting,
    start: Place,
    chain: Seq<Partial>,
    i: int,
    j: int,
    w: Seq<u64>,
)
    requires
        is_sound(cx.tasks, cx.n_facts),
        is_place(cx.tasks, cx.n_facts, start),
        is_chain(cx, start, chain),
        0 <= i <= j < chain.len(),
        is_distribution(chain[j].nodes),
        is_upper(chain[i].nodes, w),
    ensures
        crate::policy::vi_value(chain[j].nodes) <= w[0],
{
    lemma_chain_is_finer(cx, start, chain, i, j);
    lemma_chain_lists(cx, start, chain, i);
    lemma_chain_lists(cx, start, chain, j);
    crate::reach_laws::law_finer_policy_promises_no_more(
        cx,
        chain[i].policy,
        chain[j].policy,
        start,
        chain[i].nodes,
        chain[j].nodes,
        w,
    );
}

/// The bound of a policy is one number.
pub proof fn law_nearest_is_determined(
    nodes: Seq<NodeView>,
    out_c: Seq<usize>,
    policy_size: int,
    f: int,
    g: int,
)
    requires
        crate::lower_bound::is_nearest(nodes, out_c, policy_size, f),
        crate::lower_bound::is_nearest(nodes, out_c, policy_size, g),
    ensures
        f == g,
{
    if out_c.len() > 0 {
        let count = policy_size + out_c.len();
        let finite = crate::lower_bound::finite_bounds(nodes, out_c);
        let s = choose|s: Seq<u32>| #[trigger]
            crate::lower_bound::descends(s) && s.to_multiset() == finite.to_multiset() && f
                == -crate::lower_bound::bound_of(count, s);
        let r = choose|s: Seq<u32>| #[trigger]
            crate::lower_bound::descends(s) && s.to_multiset() == finite.to_multiset() && g
                == -crate::lower_bound::bound_of(count, s);
        let order = |x: u32, y: u32| x >= y;
        assert(vstd::relations::sorted_by(s, order)) by {
            assert forall|i: int, j: int| 0 <= i < j < s.len() implies #[trigger] order(
                s[i],
                s[j],
            ) by {
                assert(s[i] >= s[j]);
            }
        }
        assert(vstd::relations::sorted_by(r, order)) by {
            assert forall|i: int, j: int| 0 <= i < j < r.len() implies #[trigger] order(
                r[i],
                r[j],
            ) by {
                assert(r[i] >= r[j]);
            }
        }
        assert(vstd::relations::total_ordering(order));
        vstd::seq_lib::lemma_sorted_unique(s, r, order);
    }
}

/// The greatest sum is at least each entry.
proof fn lemma_steepest_bounds(s: Seq<u32>, i: int)
    requires
        0 <= i < s.len(),
    ensures
        s[i] <= crate::lower_bound::steepest(s),
    decreases s.len(),
{
    if i < s.len() - 1 {
        lemma_steepest_bounds(s.drop_last(), i);
    }
}

/// The finite bound of a listed node is among the finite bounds.
proof fn lemma_finite_bound_listed(nodes: Seq<NodeView>, out_c: Seq<usize>, k: int)
    requires
        0 <= k < out_c.len(),
        nodes[out_c[k] as int].cost_lower is Some,
    ensures
        crate::lower_bound::finite_bounds(nodes, out_c).contains(
            nodes[out_c[k] as int].cost_lower->0,
        ),
    decreases out_c.len(),
{
    let h = nodes[out_c[k] as int].cost_lower->0;
    let all = crate::lower_bound::finite_bounds(nodes, out_c);
    let rest = crate::lower_bound::finite_bounds(nodes, out_c.drop_last());
    if k < out_c.len() - 1 {
        lemma_finite_bound_listed(nodes, out_c.drop_last(), k);
        let x = choose|x: int| 0 <= x < rest.len() && rest[x] == h;
        assert(all[x] == h);
    } else {
        assert(all[rest.len() as int] == h);
    }
}

/// The bound counts the assignments that are made and one for each node that
/// waits, and is at least the bound of each of these.
pub proof fn law_nearest_counts_what_is_owed(
    nodes: Seq<NodeView>,
    out_c: Seq<usize>,
    policy_size: int,
    f: int,
)
    requires
        crate::lower_bound::is_nearest(nodes, out_c, policy_size, f),
    ensures
        -f >= policy_size + out_c.len(),
        out_c.len() == 0 ==> -f == policy_size,
        forall|k: int|
            0 <= k < out_c.len() ==> match nodes[#[trigger] out_c[k] as int].cost_lower {
                Some(h) => h <= -f,
                None => true,
            },
{
    broadcast use vstd::seq_lib::group_to_multiset_ensures;

    if out_c.len() > 0 {
        let count = policy_size + out_c.len();
        let finite = crate::lower_bound::finite_bounds(nodes, out_c);
        let s = choose|s: Seq<u32>| #[trigger]
            crate::lower_bound::descends(s) && s.to_multiset() == finite.to_multiset() && f
                == -crate::lower_bound::bound_of(count, s);
        assert forall|k: int| 0 <= k < out_c.len() implies match nodes[
            #[trigger] out_c[k] as int].cost_lower {
            Some(h) => h <= -f,
            None => true,
        } by {
            if let Some(h) = nodes[out_c[k] as int].cost_lower {
                lemma_finite_bound_listed(nodes, out_c, k);
                assert(finite.to_multiset().count(h) > 0);
                assert(s.contains(h));
                let i = choose|i: int| 0 <= i < s.len() && s[i] == h;
                lemma_steepest_bounds(s, i);
            }
        }
    }
}

/// How many of the entries are at least `h`.
spec fn count_from(s: Seq<u32>, h: int) -> nat
    decreases s.len(),
{
    if s.len() == 0 {
        0
    } else {
        count_from(s.drop_last(), h) + if s.last() >= h {
            1nat
        } else {
            0nat
        }
    }
}

/// The count depends on which entries there are only.
proof fn lemma_count_of_multiset(s: Seq<u32>, h: int)
    ensures
        count_from(s, h) == s.to_multiset().filter(|x: u32| x >= h).len(),
    decreases s.len(),
{
    broadcast use vstd::seq_lib::group_to_multiset_ensures;

    let p = |x: u32| x >= h;
    if s.len() == 0 {
        assert(s.to_multiset().filter(p) =~= Multiset::empty());
    } else {
        let rest = s.drop_last();
        lemma_count_of_multiset(rest, h);
        assert(s =~= rest.push(s.last()));
        assert(s.to_multiset() =~= rest.to_multiset().insert(s.last()));
        if s.last() >= h {
            assert(s.to_multiset().filter(p) =~= rest.to_multiset().filter(p).insert(s.last()));
        } else {
            assert(s.to_multiset().filter(p) =~= rest.to_multiset().filter(p));
        }
    }
}

/// The first entries of a descending list are the greatest.
proof fn lemma_count_descending(s: Seq<u32>, h: int)
    requires
        crate::lower_bound::descends(s),
    ensures
        count_from(s, h) <= s.len(),
        forall|i: int| 0 <= i < s.len() ==> (i < count_from(s, h) <==> #[trigger] s[i] >= h),
    decreases s.len(),
{
    if s.len() > 0 {
        let rest = s.drop_last();
        assert forall|i: int, j: int| 0 <= i < j < rest.len() implies #[trigger] rest[i]
            >= #[trigger] rest[j] by {
            assert(s[i] >= s[j]);
        }
        lemma_count_descending(rest, h);
        let n = s.len() - 1;
        assert forall|i: int| 0 <= i < s.len() implies (i < count_from(s, h) <==> #[trigger] s[i]
            >= h) by {
            if i < n {
                assert(rest[i] == s[i]);
                assert(s[i] >= s[n]);
            } else if n > 0 {
                assert(rest[n - 1] == s[n - 1]);
                assert(s[n - 1] >= s[n]);
            }
        }
    }
}

/// The greatest sum of an entry and its position is one, and none is greater.
proof fn lemma_steepest(s: Seq<u32>) -> (i: int)
    requires
        s.len() > 0,
    ensures
        0 <= i < s.len(),
        crate::lower_bound::steepest(s) == s[i] + i,
        forall|j: int| 0 <= j < s.len() ==> #[trigger] s[j] + j <= crate::lower_bound::steepest(s),
    decreases s.len(),
{
    let rest = s.drop_last();
    if rest.len() == 0 {
        assert(crate::lower_bound::steepest(rest) == 0);
        0
    } else {
        let i = lemma_steepest(rest);
        assert forall|j: int| 0 <= j < s.len() implies #[trigger] s[j] + j
            <= crate::lower_bound::steepest(s) by {
            if j < rest.len() {
                assert(rest[j] == s[j]);
            }
        }
        if s.last() + s.len() - 1 > crate::lower_bound::steepest(rest) {
            s.len() - 1
        } else {
            i
        }
    }
}

/// Positions of listed nodes with a bound of at least `h` are no more than the
/// bounds of at least `h`.
proof fn lemma_positions_count(
    nodes: Seq<NodeView>,
    out_c: Seq<usize>,
    which: Seq<int>,
    h: int,
)
    requires
        which.no_duplicates(),
        forall|x: int|
            0 <= x < which.len() ==> 0 <= #[trigger] which[x] < out_c.len()
                && nodes[out_c[which[x]] as int].cost_lower is Some
                && nodes[out_c[which[x]] as int].cost_lower->0 >= h,
    ensures
        which.len() <= count_from(crate::lower_bound::finite_bounds(nodes, out_c), h),
    decreases out_c.len(),
{
    if out_c.len() == 0 {
        if which.len() > 0 {
            assert(0 <= which[0] < out_c.len());
        }
    } else {
        let rest = out_c.drop_last();
        let n = rest.len() as int;
        let all = crate::lower_bound::finite_bounds(nodes, out_c);
        let less = crate::lower_bound::finite_bounds(nodes, rest);
        if nodes[out_c[n] as int].cost_lower is Some {
            assert(all.drop_last() =~= less);
        }
        if which.contains(n) {
            let x = choose|x: int| 0 <= x < which.len() && which[x] == n;
            let fewer = which.remove(x);
            assert forall|y: int| 0 <= y < fewer.len() implies 0 <= #[trigger] fewer[y]
                < rest.len() && nodes[rest[fewer[y]] as int].cost_lower is Some
                && nodes[rest[fewer[y]] as int].cost_lower->0 >= h by {
                let z = if y < x {
                    y
                } else {
                    y + 1
                };
                assert(fewer[y] == which[z]);
                assert(which[z] != which[x]);
            }
            assert forall|y: int, z: int|
                0 <= y < fewer.len() && 0 <= z < fewer.len() && y != z implies fewer[y]
                != fewer[z] by {
                let a = if y < x {
                    y
                } else {
                    y + 1
                };
                let b = if z < x {
                    z
                } else {
                    z + 1
                };
                assert(fewer[y] == which[a] && fewer[z] == which[b]);
            }
            lemma_positions_count(nodes, rest, fewer, h);
        } else {
            assert forall|y: int| 0 <= y < which.len() implies 0 <= #[trigger] which[y]
                < rest.len() && nodes[rest[which[y]] as int].cost_lower is Some
                && nodes[rest[which[y]] as int].cost_lower->0 >= h by {
                assert(which.contains(which[y]));
            }
            lemma_positions_count(nodes, rest, which, h);
        }
    }
}

/// As many positions of listed nodes have a bound of at least `h` as there are
/// such bounds.
proof fn lemma_positions(nodes: Seq<NodeView>, out_c: Seq<usize>, h: int) -> (which: Seq<int>)
    ensures
        which.no_duplicates(),
        forall|x: int|
            0 <= x < which.len() ==> 0 <= #[trigger] which[x] < out_c.len()
                && nodes[out_c[which[x]] as int].cost_lower is Some
                && nodes[out_c[which[x]] as int].cost_lower->0 >= h,
        which.len() == count_from(crate::lower_bound::finite_bounds(nodes, out_c), h),
    decreases out_c.len(),
{
    if out_c.len() == 0 {
        Seq::empty()
    } else {
        let rest = out_c.drop_last();
        let n = rest.len() as int;
        let all = crate::lower_bound::finite_bounds(nodes, out_c);
        let less = crate::lower_bound::finite_bounds(nodes, rest);
        if nodes[out_c[n] as int].cost_lower is Some {
            assert(all.drop_last() =~= less);
        }
        let fewer = lemma_positions(nodes, rest, h);
        assert forall|x: int| 0 <= x < fewer.len() implies 0 <= #[trigger] fewer[x] < out_c.len()
            && nodes[out_c[fewer[x]] as int].cost_lower is Some
            && nodes[out_c[fewer[x]] as int].cost_lower->0 >= h by {
            assert(rest[fewer[x]] == out_c[fewer[x]]);
        }
        if nodes[out_c[n] as int].cost_lower is Some && nodes[out_c[n] as int].cost_lower->0 >= h {
            assert(!fewer.contains(n)) by {
                if fewer.contains(n) {
                    let x = choose|x: int| 0 <= x < fewer.len() && fewer[x] == n;
                    assert(0 <= fewer[x] < rest.len());
                }
            }
            let which = fewer.push(n);
            assert(which.no_duplicates()) by {
                assert forall|y: int, z: int|
                    0 <= y < which.len() && 0 <= z < which.len() && y != z implies which[y]
                    != which[z] by {
                    if y < fewer.len() && z < fewer.len() {
                        assert(which[y] == fewer[y] && which[z] == fewer[z]);
                    } else if y < fewer.len() {
                        assert(fewer.contains(fewer[y]));
                    } else {
                        assert(fewer.contains(fewer[z]));
                    }
                }
            }
            which
        } else {
            fewer
        }
    }
}

/// The nodes that wait are taken up one by one: where several of them need at least
/// `h` assignments each, the last of these has to wait for the others.
pub proof fn law_waiting_nodes_are_taken_up_in_turn(
    nodes: Seq<NodeView>,
    out_c: Seq<usize>,
    policy_size: int,
    f: int,
    which: Seq<int>,
    h: int,
)
    requires
        crate::lower_bound::is_nearest(nodes, out_c, policy_size, f),
        which.len() > 0,
        which.no_duplicates(),
        forall|x: int|
            0 <= x < which.len() ==> 0 <= #[trigger] which[x] < out_c.len()
                && nodes[out_c[which[x]] as int].cost_lower is Some
                && nodes[out_c[which[x]] as int].cost_lower->0 >= h,
    ensures
        -f >= h + which.len() - 1,
{
    assert(0 <= which[0] < out_c.len());
    let count = policy_size + out_c.len();
    let finite = crate::lower_bound::finite_bounds(nodes, out_c);
    let s = choose|s: Seq<u32>| #[trigger]
        crate::lower_bound::descends(s) && s.to_multiset() == finite.to_multiset() && f
            == -crate::lower_bound::bound_of(count, s);
    lemma_positions_count(nodes, out_c, which, h);
    lemma_count_of_multiset(s, h);
    lemma_count_of_multiset(finite, h);
    lemma_count_descending(s, h);
    let i = which.len() - 1;
    assert(s[i] >= h);
    let top = lemma_steepest(s);
    assert(s[i] + i <= crate::lower_bound::steepest(s));
}

/// The bound is no more than what it counts: the assignments that are made and one
/// for each node that waits, beyond which the least bound of these counts less the
/// one assignment of its node, or the assignments that nodes which are taken up in
/// turn need. It is the first where `which` has nothing, and otherwise the
/// second for the bound `h` of the nodes listed at `which`.
pub proof fn law_nearest_counts_no_more(
    nodes: Seq<NodeView>,
    out_c: Seq<usize>,
    policy_size: int,
    f: int,
) -> (w: (Seq<int>, int))
    requires
        crate::lower_bound::is_nearest(nodes, out_c, policy_size, f),
        out_c.len() > 0,
    ensures
        w.0.no_duplicates(),
        forall|x: int|
            0 <= x < w.0.len() ==> 0 <= #[trigger] w.0[x] < out_c.len()
                && nodes[out_c[w.0[x]] as int].cost_lower is Some
                && nodes[out_c[w.0[x]] as int].cost_lower->0 >= w.1,
        w.0.len() > 0 ==> -f <= w.1 + w.0.len() - 1,
        w.0.len() == 0 ==> -f == policy_size + out_c.len() || exists|k: int|
            0 <= k < out_c.len() && nodes[#[trigger] out_c[k] as int].cost_lower is Some && -f
                == policy_size + out_c.len() + nodes[out_c[k] as int].cost_lower->0 - 1,
{
    broadcast use vstd::seq_lib::group_to_multiset_ensures;

    let count = policy_size + out_c.len();
    let finite = crate::lower_bound::finite_bounds(nodes, out_c);
    let s = choose|s: Seq<u32>| #[trigger]
        crate::lower_bound::descends(s) && s.to_multiset() == finite.to_multiset() && f
            == -crate::lower_bound::bound_of(count, s);
    if s.len() > 0 && -f == crate::lower_bound::steepest(s) {
        let i = lemma_steepest(s);
        let h = s[i] as int;
        let which = lemma_positions(nodes, out_c, h);
        lemma_count_of_multiset(s, h);
        lemma_count_of_multiset(finite, h);
        lemma_count_descending(s, h);
        assert(i < count_from(s, h));
        (which, h)
    } else {
        if s.len() > 0 && s.last() > 0 {
            let h = s.last();
            assert(s.contains(h));
            assert(finite.to_multiset().count(h) > 0);
            assert(finite.contains(h));
            let k = lemma_finite_bound_source(nodes, out_c, h);
            assert(nodes[out_c[k] as int].cost_lower is Some);
        }
        (Seq::empty(), 0)
    }
}

/// A finite bound is that of a listed node.
proof fn lemma_finite_bound_source(nodes: Seq<NodeView>, out_c: Seq<usize>, h: u32) -> (k: int)
    requires
        crate::lower_bound::finite_bounds(nodes, out_c).contains(h),
    ensures
        0 <= k < out_c.len(),
        nodes[out_c[k] as int].cost_lower == Some(h),
    decreases out_c.len(),
{
    let all = crate::lower_bound::finite_bounds(nodes, out_c);
    let rest = out_c.drop_last();
    let less = crate::lower_bound::finite_bounds(nodes, rest);
    let x = choose|x: int| 0 <= x < all.len() && all[x] == h;
    if x < less.len() {
        assert(less[x] == h);
        lemma_finite_bound_source(nodes, rest, h)
    } else {
        out_c.len() - 1
    }
}

/// Where all nodes that wait and are bounded have at least the bound `h`, and some
/// is bounded, the bound counts what goes beyond one assignment of such a node.
pub proof fn law_least_bound_counts(
    nodes: Seq<NodeView>,
    out_c: Seq<usize>,
    policy_size: int,
    f: int,
    h: int,
    some: int,
)
    requires
        crate::lower_bound::is_nearest(nodes, out_c, policy_size, f),
        forall|k: int|
            0 <= k < out_c.len() && nodes[#[trigger] out_c[k] as int].cost_lower is Some
                ==> nodes[out_c[k] as int].cost_lower->0 >= h,
        0 <= some < out_c.len(),
        nodes[out_c[some] as int].cost_lower is Some,
    ensures
        -f >= policy_size + out_c.len() + h - 1,
{
    broadcast use vstd::seq_lib::group_to_multiset_ensures;

    let count = policy_size + out_c.len();
    let finite = crate::lower_bound::finite_bounds(nodes, out_c);
    let s = choose|s: Seq<u32>| #[trigger]
        crate::lower_bound::descends(s) && s.to_multiset() == finite.to_multiset() && f
            == -crate::lower_bound::bound_of(count, s);
    lemma_finite_bound_listed(nodes, out_c, some);
    let b = nodes[out_c[some] as int].cost_lower->0;
    assert(finite.to_multiset().count(b) > 0);
    assert(s.contains(b));
    let x = s.last();
    assert(s.contains(x));
    assert(finite.to_multiset().count(x) > 0);
    assert(finite.contains(x));
    let k = lemma_finite_bound_source(nodes, out_c, x);
    assert(nodes[out_c[k] as int].cost_lower->0 >= h);
}

/// The list of the nodes that wait for a method has each of them, in their order.
pub proof fn law_waiting_nodes_are_listed_in_order(
    nodes: Seq<NodeView>,
    out_c: Seq<usize>,
    i: int,
    x: int,
    y: int,
)
    requires
        crate::reach::is_out_c(nodes, out_c),
        0 <= i < nodes.len() <= usize::MAX,
        0 <= x < y < out_c.len(),
    ensures
        nodes[i].kind == NodeKind::Compound <==> exists|k: int|
            0 <= k < out_c.len() && #[trigger] out_c[k] == i,
        out_c[x] < out_c[y],
{
    assert(out_c[x].precedes(out_c[y]));
    let n = i as usize;
    assert(out_c.contains(n) <==> nodes[i].kind == NodeKind::Compound);
    if out_c.contains(n) {
        let k = choose|k: int| 0 <= k < out_c.len() && out_c[k] == n;
        assert(out_c[k] == i);
    }
}

/// A search starts with the policy that assigns nothing. It goes on from a policy by
/// assigning one method that is possible there at the first place that waits for
/// one, and leaves the others as they are.
pub proof fn law_children_assign_one_method_more(
    cx: Setting,
    start: Place,
    parent: Partial,
    q: Partial,
    d: (int, int),
    p: Place,
)
    requires
        q.is_child(cx, start, parent, d),
    ensures
        ({
            let place = parent.nodes[parent.out_c[0] as int].place;
            let net = place.net;
            &&& parent.out_c.len() > 0
            &&& 0 <= d.0 < net.tasks.len()
            &&& forall|y: int| !#[trigger] net.before.contains((y, d.0))
            &&& *cx.tasks.tasks@[net.tasks[d.0] as int] is Compound
            &&& 0 <= d.1 < (*cx.tasks.tasks@[net.tasks[d.0] as int])->Compound_0.methods@.len()
            &&& q.policy.contains_key(place)
            &&& q.policy[place] == Choice::By(d.0, d.1)
            &&& p != place ==> (q.policy.contains_key(p) <==> parent.policy.contains_key(p))
            &&& p != place && parent.policy.contains_key(p) ==> q.policy[p] == parent.policy[p]
            &&& q.steps.len() == parent.steps.len() + 1
            &&& crate::reach::is_reach(cx, q.policy, start, q.nodes)
            &&& crate::reach::is_out_c(q.nodes, q.out_c)
            &&& cx.mode == SearchMode::MaxProb ==> q.f == crate::policy::vi_value(q.nodes)
            &&& cx.mode == SearchMode::MinCost ==> crate::lower_bound::is_nearest(
                q.nodes,
                q.out_c,
                q.steps.len() as int,
                q.f,
            )
        }),
{
    let place = parent.next_place();
    crate::step_laws::law_decompositions_are_all(cx.tasks, place.net, place.net.tasks.len());
    assert(crate::reach::decomposable(cx, place).contains(d));
}

/// A search is over where nothing waits. In a search for the most probable policy it is
/// over too where the best policy found is certain within the precision, or nothing
/// that waits promises more. It is not over otherwise.
pub proof fn law_search_is_over_where_nothing_better_can_come(cx: Setting, m: Moment)
    ensures
        m.is_over(cx) <==> {
            ||| m.open.len() == 0
            ||| {
                &&& cx.mode == SearchMode::MaxProb
                &&& m.best is Some
                &&& m.best->0.f >= 1_000_000_000_000_000_000 - 1_000_000 || forall|k: int|
                    0 <= k < m.open.len() ==> (#[trigger] m.found[m.open[k]]).f <= m.best->0.f
            }
        },
{
    reveal(Moment::is_over);
    if cx.mode == SearchMode::MaxProb && m.best is Some {
        if forall|k: int|
            0 <= k < m.open.len() ==> (#[trigger] m.waiting(k)).f <= m.best->0.f {
            assert forall|k: int| 0 <= k < m.open.len() implies (#[trigger] m.found[m.open[k]]).f
                <= m.best->0.f by {
                assert(m.waiting(k).f <= m.best->0.f);
            }
        }
        if forall|k: int|
            0 <= k < m.open.len() ==> (#[trigger] m.found[m.open[k]]).f <= m.best->0.f {
            assert forall|k: int| 0 <= k < m.open.len() implies (#[trigger] m.waiting(k)).f
                <= m.best->0.f by {
                assert(m.found[m.open[k]].f <= m.best->0.f);
            }
        }
    }
}

/// The policy that goes first has the greatest bound of those that wait. Where others
/// have the same bound, the tiebreaker decides: by more assignments, by fewer nodes
/// that wait, or by both in turn. Where it does not, the earliest goes first.
pub proof fn law_greatest_bound_goes_first(
    m: Moment,
    tiebreaker: TiebreakerKind,
    k: int,
    j: int,
)
    requires
        m.goes_first(tiebreaker, k),
        0 <= j < m.open.len(),
        j != k,
    ensures
        0 <= k < m.open.len(),
        ({
            let p = m.found[m.open[k]];
            let q = m.found[m.open[j]];
            let tie = match tiebreaker {
                TiebreakerKind::NoTiebreak => true,
                TiebreakerKind::PolicySize => p.steps.len() == q.steps.len(),
                TiebreakerKind::ClosureFirst => p.out_c.len() == q.out_c.len(),
                TiebreakerKind::Combined => p.steps.len() == q.steps.len() && p.out_c.len()
                    == q.out_c.len(),
            };
            let ahead = match tiebreaker {
                TiebreakerKind::NoTiebreak => false,
                TiebreakerKind::PolicySize => p.steps.len() > q.steps.len(),
                TiebreakerKind::ClosureFirst => p.out_c.len() < q.out_c.len(),
                TiebreakerKind::Combined => p.steps.len() > q.steps.len() || (p.steps.len()
                    == q.steps.len() && p.out_c.len() < q.out_c.len()),
            };
            p.f > q.f || (p.f == q.f && (ahead || (tie && k < j)))
        }),
{
    reveal(Moment::goes_first);
    let p = m.waiting(k);
    let q = m.waiting(j);
    crate::policy_laws::law_ranks(
        tiebreaker,
        q.f,
        p.f,
        q.steps.len() as int,
        p.steps.len() as int,
        q.out_c.len() as int,
        p.out_c.len() as int,
    );
    crate::policy_laws::law_ranks(
        tiebreaker,
        p.f,
        q.f,
        p.steps.len() as int,
        q.steps.len() as int,
        p.out_c.len() as int,
        q.out_c.len() as int,
    );
    assert(!crate::policy::is_lower(p.rank_by(tiebreaker), q.rank_by(tiebreaker)));
    if j < k {
        assert(crate::policy::is_lower(q.rank_by(tiebreaker), p.rank_by(tiebreaker)));
    }
}

/// A look at a policy takes it from those that wait. Where it cannot beat the best one
/// found, since its bound is no greater, or its assignments and one for each node
/// that waits are no fewer, nothing else changes. Where it waits for nothing it is the
/// new best one, provided that a search for certain success finds its graph strong.
/// Otherwise the best one stays, and the policies found before stay found.
pub proof fn law_looks_keep_what_was_found(
    cx: Setting,
    start: Place,
    rho: int,
    m: Moment,
    k: int,
    next: Moment,
    i: int,
)
    requires
        m.looks_at(cx, start, rho, k, next),
        0 <= k < m.open.len(),
        0 <= i < m.found.len(),
    ensures
        ({
            let p = m.found[m.open[k]];
            let beaten = m.best is Some && match cx.mode {
                SearchMode::MaxProb => p.f <= m.best->0.f,
                SearchMode::MinCost => p.steps.len() + p.out_c.len() >= -m.best->0.f,
            };
            &&& next.found.len() >= m.found.len()
            &&& next.found[i] == m.found[i]
            &&& beaten ==> next.found == m.found && next.best == m.best
            &&& !beaten && p.out_c.len() == 0 ==> next.found == m.found && (if cx.mode
                == SearchMode::MaxProb || crate::proper::is_strong(p.nodes) {
                next.best == Some(p)
            } else {
                next.best == m.best
            })
            &&& !beaten && p.out_c.len() > 0 ==> next.best == m.best
            &&& next.open.len() == m.open.len() - 1 + (next.found.len() - m.found.len())
        }),
{
    reveal(Moment::looks_at);
    let p = m.waiting(k);
    let beaten = m.best is Some && p.is_beaten(cx, m.best->0.f);
    if !beaten && !p.is_closed() {
        let bar = crate::search_space::at_least(m.best_f(), rho);
        let children = choose|children: Seq<Partial>| #[trigger]
            crate::search_space::are_children(cx, start, p, children) && next.found
                == crate::search_space::all_taken_up(
                cx,
                m.found,
                children,
                bar,
                children.len(),
            );
        lemma_taken_up_grows(cx, m.found, children, bar, children.len());
    }
}

proof fn lemma_taken_up_grows(
    cx: Setting,
    found: Seq<Partial>,
    children: Seq<Partial>,
    bar: int,
    n: nat,
)
    ensures
        found.len() <= crate::search_space::all_taken_up(cx, found, children, bar, n).len(),
        forall|i: int|
            0 <= i < found.len() ==> #[trigger] crate::search_space::all_taken_up(
                cx,
                found,
                children,
                bar,
                n,
            )[i] == found[i],
    decreases n,
{
    if n > 0 {
        lemma_taken_up_grows(cx, found, children, bar, (n - 1) as nat);
    }
}

/// A child is left out only where it promises less than the threshold or than the best
/// policy found in a search for the most probable one, or where one with the same
/// graph and as many assignments was found. All others are found, each once.
pub proof fn law_children_are_left_out_only_where_nothing_is_lost(
    cx: Setting,
    found: Seq<Partial>,
    q: Partial,
    best: Option<int>,
    rho: int,
)
    ensures
        ({
            let bar = crate::search_space::at_least(best, rho);
            let more = crate::search_space::taken_up(cx, found, q, bar);
            let known = exists|j: int|
                0 <= j < found.len() && (#[trigger] found[j]).nodes == q.nodes
                    && found[j].steps.len() == q.steps.len();
            let hopeless = cx.mode == SearchMode::MaxProb && (q.f < rho || (best is Some && q.f
                < best->0));
            &&& known || hopeless ==> more == found
            &&& !known && !hopeless ==> more == found.push(q)
        }),
{
    if crate::search_space::is_matched(found, q) {
        let j = choose|j: int| 0 <= j < found.len() && q.matches(#[trigger] found[j]);
        assert(found[j].nodes == q.nodes);
    }
    if exists|j: int|
        0 <= j < found.len() && (#[trigger] found[j]).nodes == q.nodes && found[j].steps.len()
            == q.steps.len() {
        let j = choose|j: int|
            0 <= j < found.len() && (#[trigger] found[j]).nodes == q.nodes && found[j].steps.len()
                == q.steps.len();
        assert(q.matches(found[j]));
    }
}

} // verus!

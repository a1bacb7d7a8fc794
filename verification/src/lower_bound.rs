//! A lower bound on the assignments that a partial policy comes to.

use vstd::prelude::*;

use crate::policy::{NodeView, ReachNode};

verus! {

/// The finite bounds of the listed nodes.
pub open spec fn finite_bounds(nodes: Seq<NodeView>, out_c: Seq<usize>) -> Seq<u32>
    decreases out_c.len(),
{
    if out_c.len() == 0 {
        Seq::empty()
    } else {
        let rest = finite_bounds(nodes, out_c.drop_last());
        match nodes[out_c.last() as int].cost_lower {
            Some(h) => rest.push(h),
            None => rest,
        }
    }
}

/// No entry is smaller than a later one.
pub open spec fn descends(s: Seq<u32>) -> bool {
    forall|i: int, j: int| 0 <= i < j < s.len() ==> #[trigger] s[i] >= #[trigger] s[j]
}

/// The greatest sum of an entry and its position; 0 where there is none.
pub open spec fn steepest(s: Seq<u32>) -> int
    decreases s.len(),
{
    if s.len() == 0 {
        0
    } else {
        let rest = steepest(s.drop_last());
        let here = s.last() + s.len() - 1;
        if here > rest {
            here
        } else {
            rest
        }
    }
}

/// The bound from the assignments made and owed, `count`, and the descending
/// bounds `s` of the nodes that wait: the nodes are taken up one by one, so the
/// node at `i` needs `i` assignments before its own, and the least bound counts
/// beyond the assignment of its own node.
pub open spec fn bound_of(count: int, s: Seq<u32>) -> int {
    if s.len() == 0 {
        count
    } else {
        let least: int = if s.last() > 0 {
            s.last() - 1
        } else {
            0
        };
        if steepest(s) > count + least {
            steepest(s)
        } else {
            count + least
        }
    }
}

/// `f` is the negated bound of a policy of the given size.
pub open spec fn is_nearest(
    nodes: Seq<NodeView>,
    out_c: Seq<usize>,
    policy_size: int,
    f: int,
) -> bool {
    if out_c.len() == 0 {
        f == -policy_size
    } else {
        exists|s: Seq<u32>| #[trigger]
            descends(s) && s.to_multiset() == finite_bounds(nodes, out_c).to_multiset() && f
                == -bound_of(policy_size + out_c.len(), s)
    }
}

/// Puts `x` behind all entries that are no smaller.
fn insert_descending(v: &mut Vec<u32>, x: u32)
    requires
        descends(old(v)@),
    ensures
        descends(final(v)@),
        final(v)@.to_multiset() == old(v)@.to_multiset().insert(x),
        final(v)@.len() == old(v)@.len() + 1,
{
    broadcast use vstd::seq_lib::group_to_multiset_ensures;

    let ghost start = v@;
    let mut i: usize = 0;
    while i < v.len() && v[i] >= x
        invariant
            v@ == start,
            i <= v@.len(),
            forall|k: int| 0 <= k < i ==> #[trigger] v@[k] >= x,
        decreases v@.len() - i,
    {
        i += 1;
    }
    v.insert(i, x);
    proof {
        assert(v@ =~= start.insert(i as int, x));
        assert forall|k: int, l: int| 0 <= k < l < v@.len() implies #[trigger] v@[k]
            >= #[trigger] v@[l] by {
            if k < i && l < i {
                assert(start[k] >= start[l]);
            } else if k < i && l > i {
                assert(start[k] >= start[l - 1]);
            } else if k > i {
                assert(start[k - 1] >= start[l - 1]);
            } else if k == i && l - 1 > i {
                assert(start[i as int] >= start[l - 1]);
            }
        }
    }
}

/// The negated bound on the assignments of a policy that has made
/// `policy_size` of them and has the nodes `out_c` left to assign.
pub fn delta_nearest_f_value(reach: &[ReachNode], out_c: &[usize], policy_size: usize) -> (f: i128)
    requires
        forall|k: int| 0 <= k < out_c@.len() ==> #[trigger] out_c@[k] < reach@.len(),
    ensures
        is_nearest(crate::policy::views(reach@), out_c@, policy_size as int, f as int),
{
    broadcast use vstd::seq_lib::group_to_multiset_ensures;

    if out_c.len() == 0 {
        return -(policy_size as i128);
    }
    let ghost nodes = crate::policy::views(reach@);
    let mut s: Vec<u32> = Vec::new();
    let mut k: usize = 0;
    assert(out_c@.take(0) =~= Seq::empty());
    while k < out_c.len()
        invariant
            k <= out_c@.len(),
            nodes == crate::policy::views(reach@),
            forall|k: int| 0 <= k < out_c@.len() ==> #[trigger] out_c@[k] < reach@.len(),
            descends(s@),
            s@.to_multiset() == finite_bounds(nodes, out_c@.take(k as int)).to_multiset(),
        decreases out_c@.len() - k,
    {
        let node: &ReachNode = &reach[out_c[k]];
        assert(nodes[out_c@[k as int] as int] == node@);
        assert(out_c@.take(k + 1).drop_last() =~= out_c@.take(k as int));
        assert(out_c@.take(k + 1).last() == out_c@[k as int]);
        match node.cost_lower {
            Some(h) => {
                insert_descending(&mut s, h);
                proof {
                    let rest = finite_bounds(nodes, out_c@.take(k as int));
                    assert(finite_bounds(nodes, out_c@.take(k + 1)) == rest.push(h));
                    rest.to_multiset_ensures();
                }
            },
            None => {},
        }
        k += 1;
    }
    assert(out_c@.take(k as int) =~= out_c@);
    let count: i128 = policy_size as i128 + out_c.len() as i128;
    if s.len() == 0 {
        assert(descends(s@));
        return -count;
    }
    let mut delta: i128 = 0;
    let mut i: usize = 0;
    assert(s@.take(0) =~= Seq::empty());
    while i < s.len()
        invariant
            i <= s@.len(),
            delta == steepest(s@.take(i as int)),
            0 <= delta <= u32::MAX + usize::MAX,
        decreases s@.len() - i,
    {
        assert(s@.take(i + 1).drop_last() =~= s@.take(i as int));
        let here: i128 = s[i] as i128 + i as i128;
        if here > delta {
            delta = here;
        }
        i += 1;
    }
    assert(s@.take(i as int) =~= s@);
    let last: u32 = s[s.len() - 1];
    let least: i128 = if last > 0 {
        last as i128 - 1
    } else {
        0
    };
    let bound: i128 = if delta > count + least {
        delta
    } else {
        count + least
    };
    assert(descends(s@));
    -bound
}

} // verus!

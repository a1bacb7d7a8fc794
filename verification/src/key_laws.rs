//! Laws of the descriptions of places and graphs, and of the order of lists.

use vstd::prelude::*;

use crate::order::Ranked;
use crate::policy::{NodeKind, NodeView, PartialPolicyState, ReachSig, TiebreakerKind};
use crate::signature::{CompoundSig, Place};
use crate::task_network::HTN;

verus! {

/// A description is that of a place exactly where it lists the positions with their
/// tasks, the pairs of positions of which the first comes before the second in
/// ascending order, and the facts in ascending order, each once.
pub proof fn law_keys_list_what_a_place_is(key: CompoundSig, p: Place)
    ensures
        key.describes(p) <==> {
            &&& key.tn_mappings@.len() == p.net.tasks.len()
            &&& forall|i: int|
                0 <= i < p.net.tasks.len() ==> (#[trigger] key.tn_mappings@[i]).0 == i
                    && key.tn_mappings@[i].1 == p.net.tasks[i]
            &&& forall|x: usize, y: usize| #[trigger]
                key.tn_orderings@.contains((x, y)) <==> p.net.before.contains((x as int, y as int))
            &&& forall|i: int, j: int|
                0 <= i < j < key.tn_orderings@.len() ==> (#[trigger] key.tn_orderings@[i]).0 < (
                #[trigger] key.tn_orderings@[j]).0 || (key.tn_orderings@[i].0
                    == key.tn_orderings@[j].0 && key.tn_orderings@[i].1 < key.tn_orderings@[j].1)
            &&& forall|f: u32| #[trigger]
                key.state_facts@.contains(f) <==> p.facts.contains(f)
            &&& forall|i: int, j: int|
                0 <= i < j < key.state_facts@.len() ==> #[trigger] key.state_facts@[i]
                    < #[trigger] key.state_facts@[j]
        },
{
    reveal(CompoundSig::describes);
    let list = key.tn_orderings@;
    let facts = key.state_facts@;
    if key.describes(p) {
        assert forall|x: usize, y: usize| #[trigger] list.contains((x, y))
            <==> p.net.before.contains((x as int, y as int)) by {
            let e = (x, y);
            assert(list.contains(e) <==> p.net.before.contains((e.0 as int, e.1 as int)));
        }
        assert forall|i: int, j: int| 0 <= i < j < list.len() implies (#[trigger] list[i]).0 < (
        #[trigger] list[j]).0 || (list[i].0 == list[j].0 && list[i].1 < list[j].1) by {
            assert(list[i].precedes(list[j]));
        }
        assert forall|i: int, j: int| 0 <= i < j < facts.len() implies #[trigger] facts[i]
            < #[trigger] facts[j] by {
            assert(facts[i].precedes(facts[j]));
        }
    } else {
        if (forall|x: usize, y: usize| #[trigger]
            list.contains((x, y)) <==> p.net.before.contains((x as int, y as int))) {
            assert forall|e: (usize, usize)| #[trigger] list.contains(e) <==> p.net.before.contains(
                (e.0 as int, e.1 as int),
            ) by {
                assert(list.contains((e.0, e.1)) <==> p.net.before.contains(
                    (e.0 as int, e.1 as int),
                ));
            }
        }
    }
}

/// Two descriptions are equal where they list the same, and this is so exactly where
/// the places are the same: the same tasks, the same order and the same facts.
pub proof fn law_keys_tell_places_apart(a: CompoundSig, b: CompoundSig, p: Place, q: Place)
    requires
        a.describes(p),
        b.describes(q),
        crate::signature::is_bounded(p.net),
        crate::signature::is_bounded(q.net),
    ensures
        a.equals(b) <==> a.tn_mappings@ == b.tn_mappings@ && a.tn_orderings@ == b.tn_orderings@
            && a.state_facts@ == b.state_facts@,
        a.equals(b) <==> p.net.tasks == q.net.tasks && p.net.before == q.net.before && p.facts
            == q.facts,
{
    reveal(CompoundSig::equals);
    a.lemma_canonical(b, p, q);
}

/// The first difference decides in the order of words, and a word comes before one
/// that goes on from it.
pub proof fn law_first_difference_decides<T: Ranked>(a: Seq<T>, b: Seq<T>, i: int)
    requires
        0 <= i <= a.len(),
        i <= b.len(),
        forall|j: int| 0 <= j < i ==> #[trigger] a[j] == b[j],
        i < a.len() && i < b.len() ==> a[i] != b[i],
    ensures
        i < a.len() && i < b.len() ==> (crate::order::word_precedes(a, b) <==> a[i].precedes(b[i])),
        i == a.len() ==> (crate::order::word_precedes(a, b) <==> a.len() < b.len()),
        i == b.len() ==> !crate::order::word_precedes(a, b),
    decreases i,
{
    if i > 0 {
        let x = a.drop_first();
        let y = b.drop_first();
        assert(a[0] == b[0]);
        assert forall|j: int| 0 <= j < i - 1 implies #[trigger] x[j] == y[j] by {
            assert(a[j + 1] == b[j + 1]);
        }
        law_first_difference_decides(x, y, i - 1);
    }
}

/// Numbers are ordered by size, and pairs by the first number and, where that is the
/// same, by the second.
pub proof fn law_numbers_and_pairs_are_ordered(
    x: u32,
    y: u32,
    i: usize,
    j: usize,
    p: (usize, usize),
    q: (usize, usize),
)
    ensures
        x.precedes(y) <==> x < y,
        i.precedes(j) <==> i < j,
        p.precedes(q) <==> p.0 < q.0 || (p.0 == q.0 && p.1 < q.1),
{
}

/// Descriptions are ordered by the tasks, where these are the same by the order of the
/// nodes, and where this is the same too by the facts.
pub proof fn law_keys_are_ordered_part_by_part(a: CompoundSig, b: CompoundSig)
    ensures
        a.tn_mappings@ != b.tn_mappings@ ==> (a.goes_before(b) <==> crate::order::word_precedes(
            a.tn_mappings@,
            b.tn_mappings@,
        )),
        a.tn_mappings@ == b.tn_mappings@ && a.tn_orderings@ != b.tn_orderings@ ==> (a.goes_before(b)
            <==> crate::order::word_precedes(a.tn_orderings@, b.tn_orderings@)),
        a.tn_mappings@ == b.tn_mappings@ && a.tn_orderings@ == b.tn_orderings@ ==> (a.goes_before(b)
            <==> crate::order::word_precedes(a.state_facts@, b.state_facts@)),
{
    reveal(CompoundSig::goes_before);
    crate::order::lemma_words_total(a.tn_mappings@, b.tn_mappings@, a.tn_mappings@);
    crate::order::lemma_words_total(a.tn_orderings@, b.tn_orderings@, a.tn_orderings@);
}

/// The description of a graph has its value and, sorted, a description for each node
/// that waits for a method and no other.
pub proof fn law_graph_keys_describe_what_waits(
    sig: ReachSig,
    nodes: Seq<NodeView>,
    f: int,
    counts: Seq<int>,
)
    requires
        sig.describes(nodes, f),
        counts.len() == nodes.len() + 1,
        counts[0] == 0,
        forall|i: int|
            0 <= i < nodes.len() ==> counts[i + 1] == #[trigger] counts[i] + (if nodes[i].kind
                == NodeKind::Compound {
                1int
            } else {
                0int
            }),
    ensures
        sig.f_value_bits == f,
        sig.compounds@.len() == counts.last(),
        forall|i: int|
            0 <= i < nodes.len() && (#[trigger] nodes[i]).kind == NodeKind::Compound ==> exists|
                k: int,
            |
                0 <= k < sig.compounds@.len() && (#[trigger] sig.compounds@[k]).describes(
                    nodes[i].place,
                ),
        forall|k: int|
            0 <= k < sig.compounds@.len() ==> is_one_that_waits(
                nodes,
                #[trigger] sig.compounds@[k],
            ),
        forall|x: int, y: int|
            0 <= x < y < sig.compounds@.len() ==> !(#[trigger] sig.compounds@[y]).goes_before(
                #[trigger] sig.compounds@[x],
            ),
{
    broadcast use vstd::seq_lib::group_to_multiset_ensures;

    let places = choose|places: Seq<Place>| #[trigger]
        crate::policy::are_described(sig.compounds@, places) && places.to_multiset()
            == crate::policy::frontier(nodes);
    lemma_frontier(nodes, counts);
    assert(places.to_multiset().len() == places.len());
    assert forall|i: int|
        0 <= i < nodes.len() && (#[trigger] nodes[i]).kind == NodeKind::Compound implies exists|
        k: int,
    |
        0 <= k < sig.compounds@.len() && (#[trigger] sig.compounds@[k]).describes(
            nodes[i].place,
        ) by {
        assert(places.to_multiset().count(nodes[i].place) > 0);
        assert(places.contains(nodes[i].place));
        let k = choose|k: int| 0 <= k < places.len() && places[k] == nodes[i].place;
        assert(sig.compounds@[k].describes(places[k]));
    }
    assert forall|k: int| 0 <= k < sig.compounds@.len() implies is_one_that_waits(
        nodes,
        #[trigger] sig.compounds@[k],
    ) by {
        assert(sig.compounds@[k].describes(places[k]));
        assert(places.contains(places[k]));
        assert(crate::policy::frontier(nodes).count(places[k]) > 0);
        let i = lemma_frontier_source(nodes, places[k]);
        assert(nodes[i].kind == NodeKind::Compound);
    }
}

/// The description is that of a node that waits for a method.
pub open spec fn is_one_that_waits(nodes: Seq<NodeView>, key: CompoundSig) -> bool {
    exists|i: int|
        0 <= i < nodes.len() && (#[trigger] nodes[i]).kind == NodeKind::Compound && key.describes(
            nodes[i].place,
        )
}

proof fn lemma_frontier(nodes: Seq<NodeView>, counts: Seq<int>)
    requires
        counts.len() == nodes.len() + 1,
        counts[0] == 0,
        forall|i: int|
            0 <= i < nodes.len() ==> counts[i + 1] == #[trigger] counts[i] + (if nodes[i].kind
                == NodeKind::Compound {
                1int
            } else {
                0int
            }),
    ensures
        crate::policy::frontier(nodes).len() == counts.last(),
        forall|i: int|
            0 <= i < nodes.len() && (#[trigger] nodes[i]).kind == NodeKind::Compound
                ==> crate::policy::frontier(nodes).count(nodes[i].place) > 0,
    decreases nodes.len(),
{
    if nodes.len() > 0 {
        let rest = nodes.drop_last();
        let less = counts.drop_last();
        assert forall|i: int| 0 <= i < rest.len() implies less[i + 1] == #[trigger] less[i] + (
        if rest[i].kind == NodeKind::Compound {
            1int
        } else {
            0int
        }) by {
            assert(counts[i + 1] == counts[i] + (if nodes[i].kind == NodeKind::Compound {
                1int
            } else {
                0int
            }));
        }
        lemma_frontier(rest, less);
        let n = nodes.len() - 1;
        assert(counts[n + 1] == counts[n] + (if nodes[n].kind == NodeKind::Compound {
            1int
        } else {
            0int
        }));
        assert forall|i: int|
            0 <= i < nodes.len() && (#[trigger] nodes[i]).kind
                == NodeKind::Compound implies crate::policy::frontier(nodes).count(nodes[i].place)
            > 0 by {
            if i < n {
                assert(rest[i] == nodes[i]);
            }
        }
    }
}

proof fn lemma_frontier_source(nodes: Seq<NodeView>, p: Place) -> (i: int)
    requires
        crate::policy::frontier(nodes).count(p) > 0,
    ensures
        0 <= i < nodes.len(),
        nodes[i].kind == NodeKind::Compound,
        nodes[i].place == p,
    decreases nodes.len(),
{
    let rest = nodes.drop_last();
    if nodes.len() > 0 && nodes.last().kind == NodeKind::Compound && nodes.last().place == p {
        nodes.len() - 1
    } else {
        lemma_frontier_source(rest, p)
    }
}

/// Where a node is replaced, the others keep their identifiers and the new ones go on
/// from the greatest, as far as there are such numbers. If not, all nodes are
/// numbered from the start.
pub proof fn law_new_nodes_have_new_identifiers(ids: Seq<usize>, i: int, m: nat, x: int)
    requires
        0 <= i < ids.len(),
        0 <= x < ids.len() - 1 + m,
    ensures
        crate::task_network::replaced_ids(ids, i, m).len() == ids.len() - 1 + m,
        ids[ids.len() - 1] + m <= usize::MAX ==> crate::task_network::replaced_ids(ids, i, m)[x]
            == (if x < i && x < ids.len() - 1 {
            ids[x] as int
        } else if x < ids.len() - 1 {
            ids[x + 1] as int
        } else {
            ids[ids.len() - 1] + 1 + (x - (ids.len() - 1))
        }),
        ids[ids.len() - 1] + m > usize::MAX && ids.len() - 1 + m <= usize::MAX
            ==> crate::task_network::replaced_ids(ids, i, m)[x] == x,
{
}

/// Two policies are equal where neither goes before the other: their values tie, and
/// so does what the tiebreaker of the first looks at.
pub proof fn law_equal_policies_tie(a: PartialPolicyState, b: PartialPolicyState)
    ensures
        vstd::std_specs::cmp::PartialEqSpec::eq_spec(&a, &b) <==> a.f_value == b.f_value
            && match a.tiebreaker {
            TiebreakerKind::NoTiebreak => true,
            TiebreakerKind::PolicySize => a.policy_size == b.policy_size,
            TiebreakerKind::ClosureFirst => a.out_c@.len() == b.out_c@.len(),
            TiebreakerKind::Combined => a.policy_size == b.policy_size && a.out_c@.len()
                == b.out_c@.len(),
        },
{
}

/// A policy is less than another where that goes before it: it has a greater value, or
/// the same and more of what the tiebreaker of the first looks at.
pub proof fn law_lesser_policies_go_later(a: PartialPolicyState, b: PartialPolicyState)
    ensures
        vstd::std_specs::cmp::PartialOrdSpec::partial_cmp_spec(&a, &b) == Some(
            core::cmp::Ordering::Less,
        ) <==> a.f_value < b.f_value || (a.f_value == b.f_value && match a.tiebreaker {
            TiebreakerKind::NoTiebreak => false,
            TiebreakerKind::PolicySize => a.policy_size < b.policy_size,
            TiebreakerKind::ClosureFirst => a.out_c@.len() > b.out_c@.len(),
            TiebreakerKind::Combined => a.policy_size < b.policy_size || (a.policy_size
                == b.policy_size && a.out_c@.len() > b.out_c@.len()),
        }),
{
}

/// The canonical form of a network lists each position with its task, and the pairs of
/// positions of which the first comes before the second, in ascending order.
pub proof fn law_canonical_networks(
    mappings: Seq<(usize, usize)>,
    orderings: Seq<(usize, usize)>,
    tn: HTN,
    i: int,
    j: int,
    x: usize,
    y: usize,
)
    requires
        crate::signature::is_mapping(mappings, tn@),
        crate::signature::is_ordering(orderings, tn@),
    ensures
        mappings.len() == tn.tasks@.len(),
        0 <= i < mappings.len() ==> mappings[i].0 == i && mappings[i].1 == tn.tasks@[i],
        orderings.contains((x, y)) <==> tn.order@.contains((x, y)),
        0 <= i < j < orderings.len() ==> orderings[i].0 < orderings[j].0 || (orderings[i].0
            == orderings[j].0 && orderings[i].1 < orderings[j].1),
{
    let e = (x, y);
    assert(orderings.contains(e) <==> tn@.before.contains((e.0 as int, e.1 as int)));
    if tn.order@.contains(e) {
        let k = choose|k: int| 0 <= k < tn.order@.len() && tn.order@[k] == e;
        assert(tn.order@[k].0 == x as int && tn.order@[k].1 == y as int);
        assert(tn@.before.contains((x as int, y as int)));
    }
    if tn@.before.contains((x as int, y as int)) {
        let k = choose|k: int|
            0 <= k < tn.order@.len() && (#[trigger] tn.order@[k]).0 == x as int && tn.order@[k].1
                == y as int;
        assert(tn.order@[k] == e);
    }
    if 0 <= i < j < orderings.len() {
        assert(orderings[i].precedes(orderings[j]));
    }
}

/// The descriptions of two graphs are equal where their values are, and they describe the
/// same one by one.
pub proof fn law_graph_keys_are_equal_one_by_one(a: ReachSig, b: ReachSig)
    ensures
        a.equals(b) <==> a.f_value_bits == b.f_value_bits && a.compounds@.len()
            == b.compounds@.len() && forall|k: int|
            0 <= k < a.compounds@.len() ==> (#[trigger] a.compounds@[k]).tn_mappings@
                == b.compounds@[k].tn_mappings@ && a.compounds@[k].tn_orderings@
                == b.compounds@[k].tn_orderings@ && a.compounds@[k].state_facts@
                == b.compounds@[k].state_facts@,
{
    reveal(CompoundSig::equals);
}

} // verus!

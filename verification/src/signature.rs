//! Canonical descriptions of task networks with states, and of partial policies.

use std::collections::HashSet;
use vstd::prelude::*;

use crate::order::{ascending, ascending_facts, is_word_before};
use crate::task_network::{Network, HTN};

verus! {

/// A task network, with its nodes known by their positions, and the facts that hold.
#[verifier::ext_equal]
pub struct Place {
    pub net: Network,
    pub facts: Set<u32>,
}

/// Only nodes of the network come before each other.
pub open spec fn is_bounded(net: Network) -> bool {
    forall|x: int, y: int| #[trigger]
        net.before.contains((x, y)) ==> 0 <= x < net.len() <= usize::MAX && 0 <= y < net.len()
}

/// The nodes of a well-formed network are its own.
pub proof fn lemma_bounded(tn: &HTN)
    requires
        tn.wf(),
    ensures
        is_bounded(tn@),
{
    assert forall|x: int, y: int| #[trigger] tn@.before.contains((x, y)) implies 0 <= x
        < tn@.len() <= usize::MAX && 0 <= y < tn@.len() by {
        let k = choose|k: int|
            0 <= k < tn.order@.len() && (#[trigger] tn.order@[k]).0 == x && tn.order@[k].1 == y;
        assert(tn.tasks.len() == tn.tasks@.len());
    }
}

/// Canonical description of a task network with a state.
pub struct CompoundSig {
    /// The nodes, renamed to their positions, with their tasks.
    pub tn_mappings: Vec<(usize, usize)>,
    /// The ordered pairs of renamed nodes, ascending and each once.
    pub tn_orderings: Vec<(usize, usize)>,
    /// The facts, ascending.
    pub state_facts: Vec<u32>,
}

/// The list pairs the positions with the tasks.
pub open spec fn is_mapping(mappings: Seq<(usize, usize)>, net: Network) -> bool {
    &&& mappings.len() == net.len()
    &&& forall|i: int|
        0 <= i < net.len() ==> (#[trigger] mappings[i]).0 == i && mappings[i].1 == net.tasks[i]
}

/// The list holds the order of the nodes, ascending.
pub open spec fn is_ordering(orderings: Seq<(usize, usize)>, net: Network) -> bool {
    &&& crate::order::ascends(orderings)
    &&& forall|p: (usize, usize)| #[trigger]
        orderings.contains(p) <==> net.before.contains((p.0 as int, p.1 as int))
}

impl CompoundSig {
    /// The description is the one of the place.
    #[verifier::opaque]
    pub open spec fn describes(&self, place: Place) -> bool {
        &&& is_mapping(self.tn_mappings@, place.net)
        &&& is_ordering(self.tn_orderings@, place.net)
        &&& crate::order::ascends(self.state_facts@)
        &&& forall|f: u32| #[trigger] self.state_facts@.contains(f) <==> place.facts.contains(f)
    }

    /// The two descriptions are equal.
    #[verifier::opaque]
    pub open spec fn equals(&self, other: CompoundSig) -> bool {
        &&& self.tn_mappings@ == other.tn_mappings@
        &&& self.tn_orderings@ == other.tn_orderings@
        &&& self.state_facts@ == other.state_facts@
    }

    /// Two places have equal descriptions exactly where they are equal.
    pub proof fn lemma_canonical(&self, other: CompoundSig, p: Place, q: Place)
        requires
            self.describes(p),
            other.describes(q),
            is_bounded(p.net),
            is_bounded(q.net),
        ensures
            self.equals(other) <==> p == q,
    {
        reveal(CompoundSig::describes);
        reveal(CompoundSig::equals);
        if self.equals(other) {
            assert(p.net.tasks =~= q.net.tasks) by {
                assert forall|i: int| 0 <= i < p.net.len() implies p.net.tasks[i]
                    == q.net.tasks[i] by {
                    assert(self.tn_mappings@[i] == other.tn_mappings@[i]);
                }
            }
            assert forall|x: (int, int)| p.net.before.contains(x) <==> q.net.before.contains(x) by {
                let (a, b) = x;
                if p.net.before.contains(x) {
                    assert(p.net.before.contains((a, b)));
                    assert(self.tn_orderings@.contains((a as usize, b as usize)));
                    assert(other.tn_orderings@.contains((a as usize, b as usize)));
                }
                if q.net.before.contains(x) {
                    assert(q.net.before.contains((a, b)));
                    assert(other.tn_orderings@.contains((a as usize, b as usize)));
                    assert(self.tn_orderings@.contains((a as usize, b as usize)));
                }
            }
            assert(p.net.before =~= q.net.before);
            assert forall|f: u32| p.facts.contains(f) <==> q.facts.contains(f) by {
                assert(self.state_facts@.contains(f) <==> other.state_facts@.contains(f));
            }
            assert(p.facts =~= q.facts);
        }
        if p == q {
            assert(self.tn_mappings@ =~= other.tn_mappings@) by {
                assert forall|i: int|
                    0 <= i < p.net.len() implies #[trigger] self.tn_mappings@[i]
                    == other.tn_mappings@[i] by {
                    assert(other.tn_mappings@[i].0 == i);
                }
            }
            crate::order::lemma_ascending_unique(self.tn_orderings@, other.tn_orderings@);
            crate::order::lemma_ascending_unique(self.state_facts@, other.state_facts@);
        }
    }

    /// The description comes before the other: by the tasks, by the order of the
    /// nodes where those are equal, and by the facts where these are too.
    #[verifier::opaque]
    pub open spec fn goes_before(&self, other: CompoundSig) -> bool {
        ||| crate::order::word_precedes(self.tn_mappings@, other.tn_mappings@)
        ||| self.tn_mappings@ == other.tn_mappings@ && crate::order::word_precedes(
            self.tn_orderings@,
            other.tn_orderings@,
        )
        ||| self.tn_mappings@ == other.tn_mappings@ && self.tn_orderings@ == other.tn_orderings@
            && crate::order::word_precedes(self.state_facts@, other.state_facts@)
    }

    /// The order of the descriptions is total.
    pub proof fn lemma_total_order(&self, b: CompoundSig, c: CompoundSig)
        ensures
            !self.goes_before(*self),
            self.goes_before(b) && b.goes_before(c) ==> self.goes_before(c),
            self.goes_before(b) || b.goes_before(*self) || self.equals(b),
    {
        reveal(CompoundSig::goes_before);
        reveal(CompoundSig::equals);
        crate::order::lemma_words_total(self.tn_mappings@, b.tn_mappings@, c.tn_mappings@);
        crate::order::lemma_words_total(self.tn_orderings@, b.tn_orderings@, c.tn_orderings@);
        crate::order::lemma_words_total(self.state_facts@, b.state_facts@, c.state_facts@);
    }

    /// Equal descriptions stand at one place in the order.
    pub proof fn lemma_equals_before(&self, b: CompoundSig, c: CompoundSig)
        requires
            self.equals(b),
        ensures
            self.goes_before(c) == b.goes_before(c),
            c.goes_before(*self) == c.goes_before(b),
    {
        reveal(CompoundSig::goes_before);
        reveal(CompoundSig::equals);
    }

    /// Whether the description comes before the other.
    pub fn is_before(&self, other: &CompoundSig) -> (r: bool)
        ensures
            r == self.goes_before(*other),
    {
        reveal(CompoundSig::goes_before);
        proof {
            crate::order::lemma_words_total(
                self.tn_mappings@,
                other.tn_mappings@,
                self.tn_mappings@,
            );
            crate::order::lemma_words_total(
                self.tn_orderings@,
                other.tn_orderings@,
                self.tn_orderings@,
            );
        }
        if is_word_before(&self.tn_mappings, &other.tn_mappings) {
            return true;
        }
        if !same_pairs(&self.tn_mappings, &other.tn_mappings) {
            return false;
        }
        if is_word_before(&self.tn_orderings, &other.tn_orderings) {
            return true;
        }
        if !same_pairs(&self.tn_orderings, &other.tn_orderings) {
            return false;
        }
        is_word_before(&self.state_facts, &other.state_facts)
    }

    /// The same description.
    pub fn duplicate(&self) -> (r: CompoundSig)
        ensures
            forall|p: Place| #[trigger] r.describes(p) <==> self.describes(p),
    {
        reveal(CompoundSig::describes);
        let state_facts: Vec<u32> = self.state_facts.clone();
        assert(state_facts@ =~= self.state_facts@);
        CompoundSig {
            tn_mappings: copy_pairs(&self.tn_mappings),
            tn_orderings: copy_pairs(&self.tn_orderings),
            state_facts,
        }
    }

    /// Whether the two descriptions are equal.
    pub fn same(&self, other: &CompoundSig) -> (r: bool)
        ensures
            r == self.equals(*other),
    {
        reveal(CompoundSig::equals);
        same_pairs(&self.tn_mappings, &other.tn_mappings) && same_pairs(
            &self.tn_orderings,
            &other.tn_orderings,
        ) && same_facts(&self.state_facts, &other.state_facts)
    }
}

/// The same list.
fn copy_pairs(list: &Vec<(usize, usize)>) -> (r: Vec<(usize, usize)>)
    ensures
        r@ == list@,
{
    let mut r: Vec<(usize, usize)> = Vec::new();
    let mut i: usize = 0;
    while i < list.len()
        invariant
            i <= list@.len(),
            r@ == list@.take(i as int),
        decreases list@.len() - i,
    {
        r.push(list[i]);
        assert(list@.take(i + 1) =~= list@.take(i as int).push(list@[i as int]));
        i += 1;
    }
    assert(list@.take(i as int) =~= list@);
    r
}

/// Whether the two lists are equal.
fn same_pairs(a: &Vec<(usize, usize)>, b: &Vec<(usize, usize)>) -> (r: bool)
    ensures
        r == (a@ == b@),
{
    if a.len() != b.len() {
        return false;
    }
    let mut i: usize = 0;
    while i < a.len()
        invariant
            i <= a@.len(),
            a@.len() == b@.len(),
            forall|k: int| 0 <= k < i ==> a@[k] == b@[k],
        decreases a@.len() - i,
    {
        if a[i].0 != b[i].0 || a[i].1 != b[i].1 {
            assert(a@[i as int] != b@[i as int]);
            return false;
        }
        i += 1;
    }
    assert(a@ =~= b@);
    true
}

/// Whether the two lists are equal.
fn same_facts(a: &Vec<u32>, b: &Vec<u32>) -> (r: bool)
    ensures
        r == (a@ == b@),
{
    if a.len() != b.len() {
        return false;
    }
    let mut i: usize = 0;
    while i < a.len()
        invariant
            i <= a@.len(),
            a@.len() == b@.len(),
            forall|k: int| 0 <= k < i ==> a@[k] == b@[k],
        decreases a@.len() - i,
    {
        if a[i] != b[i] {
            assert(a@[i as int] != b@[i as int]);
            return false;
        }
        i += 1;
    }
    assert(a@ =~= b@);
    true
}

/// The nodes of the network, renamed to their positions, with their tasks, and
/// the order of the renamed nodes.
pub fn canonicalize_tn(tn: &HTN) -> (r: (Vec<(usize, usize)>, Vec<(usize, usize)>))
    requires
        tn.wf(),
    ensures
        is_mapping(r.0@, tn@),
        is_ordering(r.1@, tn@),
{
    let mut mappings: Vec<(usize, usize)> = Vec::new();
    let mut i: usize = 0;
    while i < tn.tasks.len()
        invariant
            i <= tn.tasks@.len(),
            mappings@.len() == i,
            forall|k: int|
                0 <= k < i ==> (#[trigger] mappings@[k]).0 == k && mappings@[k].1 == tn.tasks@[k],
        decreases tn.tasks@.len() - i,
    {
        mappings.push((i, tn.tasks[i]));
        i += 1;
    }
    let orderings: Vec<(usize, usize)> = ascending(&tn.order);
    proof {
        assert forall|p: (usize, usize)| #[trigger]
            orderings@.contains(p) <==> tn@.before.contains((p.0 as int, p.1 as int)) by {
            if tn.order@.contains(p) {
                let k = choose|k: int| 0 <= k < tn.order@.len() && tn.order@[k] == p;
                assert(tn.order@[k].0 == p.0 && tn.order@[k].1 == p.1);
            }
            if tn@.before.contains((p.0 as int, p.1 as int)) {
                let k = choose|k: int|
                    0 <= k < tn.order@.len() && (#[trigger] tn.order@[k]).0 == p.0
                        && tn.order@[k].1 == p.1;
                assert(tn.order@[k] == p);
            }
        }
    }
    (mappings, orderings)
}

/// The place of a network with the facts.
pub open spec fn place_of(net: Network, facts: Set<u32>) -> Place {
    Place { net, facts }
}

/// The canonical description of the network with the state.
pub fn make_key(tn: &HTN, state: &HashSet<u32>) -> (key: CompoundSig)
    requires
        tn.wf(),
    ensures
        key.describes(place_of(tn@, state@)),
{
    let (tn_mappings, tn_orderings): (Vec<(usize, usize)>, Vec<(usize, usize)>) = canonicalize_tn(
        tn,
    );
    let state_facts: Vec<u32> = ascending_facts(state);
    reveal(CompoundSig::describes);
    CompoundSig { tn_mappings, tn_orderings, state_facts }
}

} // verus!

//! The graph of what a partial policy reaches.

use std::collections::HashSet;
use std::rc::Rc;
use vstd::prelude::*;

use crate::composition::{HeuristicType, RelaxedComposition};
use crate::policy::{NodeKind, NodeView, ReachNode, SearchMode};
use crate::probability::ONE;
use crate::progress::{progress, ConnectionLabel, Expansion};
use crate::signature::{make_key, CompoundSig, Place};
use crate::task_network::{DomainTasks, Network, HTN};

verus! {

/// What the graphs of one search have in common.
pub struct Setting {
    pub tasks: DomainTasks,
    pub n_facts: nat,
    /// The identifiers of the nodes of the initial network.
    pub ids: Seq<usize>,
    pub h_type: HeuristicType,
    pub mode: SearchMode,
}

/// What a policy does at a place.
pub enum Choice {
    /// It decomposes the node at the first position by the method at the second.
    By(int, int),
    /// It names a method that is not possible there.
    Missing,
}

/// The method that a policy uses at the places for which it has one.
pub type Policy = Map<Place, Choice>;

/// The bounds of a compound node for which the heuristic gives `v`.
pub open spec fn bounds(mode: SearchMode, v: Option<u32>) -> (u64, Option<u32>) {
    let prob: u64 = if v is None {
        0
    } else {
        ONE
    };
    match mode {
        SearchMode::MaxProb => (prob, Some(0)),
        SearchMode::MinCost => (prob, v),
    }
}

/// The bounds are those of a value of the heuristic at the place.
pub open spec fn are_bounds(cx: Setting, place: Place, b: (u64, Option<u32>)) -> bool {
    exists|v: Option<u32>| #[trigger]
        crate::composition::is_h_val(
            cx.tasks,
            cx.n_facts,
            place.net,
            place.facts,
            cx.h_type,
            v,
        ) && b == bounds(cx.mode, v)
}

/// The actions that can be executed at the place, in order.
pub open spec fn executable(cx: Setting, place: Place) -> Seq<int> {
    crate::progress::executions(cx.tasks, place.net, place.facts, place.net.len())
}

/// The decompositions that are possible at the place, in order.
pub open spec fn decomposable(cx: Setting, place: Place) -> Seq<(int, int)> {
    crate::progress::decompositions(cx.tasks, place.net, place.net.len())
}

/// The place after the outcome `k` of executing the node at `i`.
pub open spec fn after_outcome(cx: Setting, place: Place, i: int, k: int) -> Place {
    Place {
        net: place.net.without(i),
        facts: crate::progress::outcome(
            place.facts,
            crate::progress::action_at(cx.tasks, place.net, i),
            k,
        ),
    }
}

/// The place after decomposing the node at `i` by the method `m`.
pub open spec fn after_method(cx: Setting, place: Place, i: int, m: int) -> Place {
    Place {
        net: place.net.decomposed(
            i,
            crate::progress::method_at(cx.tasks, place.net, i, m).decomposition@,
        ),
        facts: place.facts,
    }
}

/// The probability of the outcome `k` of executing the node at `i`; 1 where
/// none is given.
pub open spec fn outcome_prob(cx: Setting, place: Place, i: int, k: int) -> u64 {
    let p = crate::progress::action_at(cx.tasks, place.net, i).probabilities@;
    if k < p.len() {
        p[k]
    } else {
        ONE
    }
}

/// The edge leads to the place with the probability.
pub open spec fn leads_to(places: Seq<Place>, edge: (usize, u64), to: Place, prob: u64) -> bool {
    edge.0 < places.len() && places[edge.0 as int] == to && edge.1 == prob
}

/// The node is one without successors of the given kind.
pub open spec fn is_leaf(n: NodeView, kind: NodeKind, prob_upper: u64) -> bool {
    n.kind == kind && n.prob_upper == prob_upper && n.cost_lower == Some(0u32)
        && n.successors.len() == 0
}

/// The node executes the first action that can be, and its edges lead to the outcomes.
pub open spec fn is_action_node(cx: Setting, places: Seq<Place>, n: NodeView) -> bool {
    let i = executable(cx, n.place)[0];
    &&& n.kind == NodeKind::Primitive
    &&& n.prob_upper == ONE
    &&& n.cost_lower == Some(0u32)
    &&& n.successors.len() == crate::progress::action_at(
        cx.tasks,
        n.place.net,
        i,
    ).add_effects@.len()
    &&& forall|k: int|
        0 <= k < n.successors.len() ==> leads_to(
            places,
            #[trigger] n.successors[k],
            after_outcome(cx, n.place, i, k),
            outcome_prob(cx, n.place, i, k),
        )
}

/// The node waits for a method.
pub open spec fn is_open_node(cx: Setting, n: NodeView) -> bool {
    &&& n.kind == NodeKind::Compound
    &&& n.successors.len() == 0
    &&& are_bounds(cx, n.place, (n.prob_upper, n.cost_lower))
}

/// The node follows the decomposition of the node at `i` by the method `m`.
pub open spec fn is_assigned_node(
    cx: Setting,
    places: Seq<Place>,
    n: NodeView,
    i: int,
    m: int,
) -> bool {
    &&& n.kind == NodeKind::Assigned
    &&& decomposable(cx, n.place).contains((i, m))
    &&& n.successors.len() == 1
    &&& leads_to(places, n.successors[0], after_method(cx, n.place, i, m), ONE)
    &&& exists|cost: Option<u32>| #[trigger] are_bounds(cx, n.place, (n.prob_upper, cost))
}

/// The node is what its place and the policy make it. Its edges are positions
/// in the list of places.
pub open spec fn node_ok(cx: Setting, policy: Policy, places: Seq<Place>, n: NodeView) -> bool {
    if n.place.net.len() == 0 {
        is_leaf(n, NodeKind::Goal, ONE)
    } else if executable(cx, n.place).len() > 0 {
        is_action_node(cx, places, n)
    } else if decomposable(cx, n.place).len() == 0 {
        is_leaf(n, NodeKind::Dead, 0)
    } else if !policy.contains_key(n.place) {
        is_open_node(cx, n)
    } else {
        match policy[n.place] {
            Choice::By(i, m) => is_assigned_node(cx, places, n, i, m),
            Choice::Missing => is_leaf(n, NodeKind::Dead, 0),
        }
    }
}

/// The places of the nodes.
pub open spec fn places_of(nodes: Seq<NodeView>) -> Seq<Place> {
    nodes.map_values(|n: NodeView| n.place)
}

/// Some edge of an earlier node leads to the node at `i`.
pub open spec fn is_entered(nodes: Seq<NodeView>, i: int) -> bool {
    exists|j: int, k: int|
        0 <= j < i && j < nodes.len() && 0 <= k < nodes[j].successors.len() && (
        #[trigger] nodes[j].successors[k]).0 == i
}

/// The graph of what the policy reaches from the place `start`: no place occurs
/// twice, every node is what its place and the policy make it, and all but the
/// first are entered from an earlier one.
pub open spec fn is_reach(cx: Setting, policy: Policy, start: Place, nodes: Seq<NodeView>) -> bool {
    &&& nodes.len() > 0
    &&& nodes[0].place == start
    &&& places_of(nodes).no_duplicates()
    &&& forall|i: int|
        0 <= i < nodes.len() ==> node_ok(cx, policy, places_of(nodes), #[trigger] nodes[i])
    &&& forall|i: int| 0 < i < nodes.len() ==> #[trigger] is_entered(nodes, i)
}

/// An edge before the edge `k` of the node at `i` leads to the node at `m`: one
/// of an earlier node, or an earlier one of the same node.
pub open spec fn is_entered_before(nodes: Seq<NodeView>, i: int, k: int, m: int) -> bool {
    exists|a: int, b: int|
        0 <= a < nodes.len() && 0 <= b < nodes[a].successors.len() && (
        #[trigger] nodes[a].successors[b]).0 == m && (a < i || (a == i && b < k))
}

/// The nodes from `from` on are numbered in the order in which they are found
/// when the edges are followed in turn: where an edge leads to a node, all of
/// them before it are found already.
pub open spec fn is_numbered(nodes: Seq<NodeView>, from: int) -> bool {
    forall|i: int, k: int, m: int|
        0 <= i < nodes.len() && 0 <= k < nodes[i].successors.len() && from <= m
            < nodes[i].successors[k].0 ==> #[trigger] is_entered_before(nodes, i, k, m)
}

/// The identifiers of the network that the step of the node leads to: an action
/// leaves those of the other nodes, and a method brings new ones.
pub open spec fn next_ids(cx: Setting, policy: Policy, n: NodeView, ids: Seq<usize>) -> Seq<usize> {
    if executable(cx, n.place).len() > 0 {
        ids.remove(executable(cx, n.place)[0])
    } else {
        match policy[n.place] {
            Choice::By(i, m) => crate::task_network::replaced_ids(
                ids,
                i,
                crate::progress::method_at(cx.tasks, n.place.net, i, m).decomposition.nodes@.len(),
            ),
            Choice::Missing => ids,
        }
    }
}

/// Some edge of an earlier node leads to the node at `i` and hands the
/// identifiers on.
pub open spec fn is_handed_on(
    cx: Setting,
    policy: Policy,
    nodes: Seq<NodeView>,
    ids: Seq<Seq<usize>>,
    i: int,
) -> bool {
    exists|j: int, k: int|
        0 <= j < i && j < nodes.len() && 0 <= k < nodes[j].successors.len() && (
        #[trigger] nodes[j].successors[k]).0 == i && ids[i] == next_ids(
            cx,
            policy,
            nodes[j],
            ids[j],
        )
}

/// The first node with an edge to the node at `i` hands the identifiers on.
pub open spec fn is_first_to_hand_on(
    cx: Setting,
    policy: Policy,
    nodes: Seq<NodeView>,
    ids: Seq<Seq<usize>>,
    i: int,
) -> bool {
    exists|j: int, k: int|
        0 <= j < nodes.len() && 0 <= k < nodes[j].successors.len() && (
        #[trigger] nodes[j].successors[k]).0 == i && ids[i] == next_ids(
            cx,
            policy,
            nodes[j],
            ids[j],
        ) && no_edge_before(nodes, j, i)
}

/// No node before the one at `j` has an edge to the node at `i`.
pub open spec fn no_edge_before(nodes: Seq<NodeView>, j: int, i: int) -> bool {
    forall|a: int, b: int|
        0 <= a < j && a < nodes.len() && 0 <= b < nodes[a].successors.len() ==> (
        #[trigger] nodes[a].successors[b]).0 != i
}

/// The nodes from `from` up to `to` have their identifiers from the node by which
/// they were found.
pub open spec fn are_found_ids(
    cx: Setting,
    policy: Policy,
    nodes: Seq<NodeView>,
    ids: Seq<Seq<usize>>,
    from: int,
    to: int,
) -> bool {
    forall|i: int|
        from <= i < to ==> #[trigger] is_first_to_hand_on(cx, policy, nodes, ids, i)
}

/// The identifiers of the networks of the nodes: the first node has those of the
/// initial network, and the others have theirs from an earlier node.
pub open spec fn are_ids(
    cx: Setting,
    policy: Policy,
    nodes: Seq<NodeView>,
    ids: Seq<Seq<usize>>,
) -> bool {
    &&& ids.len() == nodes.len()
    &&& ids[0] == cx.ids
    &&& forall|i: int|
        0 < i < nodes.len() ==> #[trigger] is_handed_on(cx, policy, nodes, ids, i)
}

/// The identifiers of the networks of the nodes.
pub open spec fn ids_of(reach: Seq<ReachNode>) -> Seq<Seq<usize>> {
    reach.map_values(|n: ReachNode| n.tn.nodes@)
}

/// The nodes with a method cost nothing more.
pub open spec fn assigned_cost_nothing(nodes: Seq<NodeView>) -> bool {
    forall|i: int|
        0 <= i < nodes.len() && (#[trigger] nodes[i]).kind == NodeKind::Assigned
            ==> nodes[i].cost_lower == Some(0u32)
}

/// The list holds the positions of the nodes that wait for a method, ascending.
pub open spec fn is_out_c(nodes: Seq<NodeView>, out_c: Seq<usize>) -> bool {
    &&& crate::order::ascends(out_c)
    &&& forall|i: usize| #[trigger]
        out_c.contains(i) <==> i < nodes.len() && nodes[i as int].kind == NodeKind::Compound
}

/// A method that a policy uses at a place.
pub struct Assignment {
    pub key: CompoundSig,
    pub task_name: String,
    pub method_name: String,
}

/// The decomposition `d` is the one of the named task by the named method.
pub open spec fn is_named(
    tasks: DomainTasks,
    net: Network,
    d: (int, int),
    task: Seq<char>,
    method: Seq<char>,
) -> bool {
    crate::progress::compound_at(tasks, net, d.0).name@ == task && crate::progress::method_at(
        tasks,
        net,
        d.0,
        d.1,
    ).name@ == method
}

/// The first of the decompositions that has the names.
pub open spec fn first_named(
    tasks: DomainTasks,
    net: Network,
    ds: Seq<(int, int)>,
    task: Seq<char>,
    method: Seq<char>,
) -> Choice
    decreases ds.len(),
{
    if ds.len() == 0 {
        Choice::Missing
    } else {
        match first_named(tasks, net, ds.drop_last(), task, method) {
            Choice::By(i, m) => Choice::By(i, m),
            Choice::Missing => if is_named(tasks, net, ds.last(), task, method) {
                Choice::By(ds.last().0, ds.last().1)
            } else {
                Choice::Missing
            },
        }
    }
}

/// The position of the first assignment for the place; `len` where there is none.
pub open spec fn first_for(list: Seq<Assignment>, place: Place) -> nat
    decreases list.len(),
{
    if list.len() == 0 {
        0
    } else {
        let rest = first_for(list.drop_last(), place);
        if rest < list.len() - 1 || list.last().key.describes(place) {
            rest
        } else {
            list.len()
        }
    }
}

/// The policy that the assignments make.
pub open spec fn policy_of(tasks: DomainTasks, list: Seq<Assignment>) -> Policy {
    Map::new(
        |p: Place| first_for(list, p) < list.len(),
        |p: Place|
            first_named(
                tasks,
                p.net,
                crate::progress::decompositions(tasks, p.net, p.net.len()),
                list[first_for(list, p) as int].task_name@,
                list[first_for(list, p) as int].method_name@,
            ),
    )
}

/// A network with a state.
struct Spot {
    tn: Rc<HTN>,
    state: Rc<HashSet<u32>>,
}

impl Spot {
    spec fn place(&self) -> Place {
        crate::signature::place_of(self.tn@, self.state@)
    }

    /// The network is one of the tasks, and the facts are below `n_facts`.
    spec fn ok(&self, domain: Rc<DomainTasks>, n_facts: nat) -> bool {
        &&& crate::progress::network_wf(*self.tn)
        &&& self.tn.domain == domain
        &&& forall|f: u32| #[trigger] self.state@.contains(f) ==> f < n_facts
    }
}

/// The graph under construction. The places behind the last node wait for their
/// nodes.
struct Builder {
    spots: Vec<Spot>,
    /// The descriptions of the places.
    keys: Vec<CompoundSig>,
    nodes: Vec<ReachNode>,
    out_c: Vec<usize>,
}

impl Builder {
    /// The places found so far.
    spec fn places(&self) -> Seq<Place> {
        self.spots@.map_values(|s: Spot| s.place())
    }

    /// The nodes made so far.
    spec fn views(&self) -> Seq<NodeView> {
        crate::policy::views(self.nodes@)
    }

    /// The identifiers of the networks of the places.
    spec fn ids(&self) -> Seq<Seq<usize>> {
        self.spots@.map_values(|s: Spot| s.tn.nodes@)
    }

    /// What holds of the places.
    spec fn places_ok(&self, domain: Rc<DomainTasks>, n_facts: nat) -> bool {
        &&& self.keys@.len() == self.spots@.len()
        &&& forall|i: int| 0 <= i < self.spots@.len() ==> (#[trigger] self.spots@[i]).ok(
            domain,
            n_facts,
        )
        &&& forall|i: int|
            0 <= i < self.spots@.len() ==> (#[trigger] self.keys@[i]).describes(
                self.spots@[i].place(),
            )
        &&& self.places().no_duplicates()
    }

    /// The position of the place of the network with the state. A place that is
    /// not there yet is added as the last one.
    fn get_or_insert(
        &mut self,
        tn: &Rc<HTN>,
        state: &Rc<HashSet<u32>>,
        Ghost(domain): Ghost<Rc<DomainTasks>>,
        Ghost(n_facts): Ghost<nat>,
    ) -> (idx: usize)
        requires
            old(self).places_ok(domain, n_facts),
            crate::progress::network_wf(**tn),
            tn.domain == domain,
            forall|f: u32| #[trigger] state@.contains(f) ==> f < n_facts,
        ensures
            final(self).places_ok(domain, n_facts),
            final(self).nodes == old(self).nodes,
            final(self).out_c == old(self).out_c,
            idx < final(self).places().len(),
            final(self).places()[idx as int] == crate::signature::place_of(tn@, state@),
            final(self).places() == old(self).places() || (final(self).places()
                == old(self).places().push(crate::signature::place_of(tn@, state@)) && idx
                == old(self).places().len()),
            final(self).spots@.len() >= old(self).spots@.len(),
            forall|i: int|
                0 <= i < old(self).spots@.len() ==> final(self).spots@[i] == old(self).spots@[i],
            final(self).spots@.len() > old(self).spots@.len() ==> final(self).spots@.last().tn
                == *tn,
    {
        let ghost place = crate::signature::place_of(tn@, state@);
        let key: CompoundSig = make_key(tn, state);
        proof {
            crate::signature::lemma_bounded(&**tn);
        }
        let mut i: usize = 0;
        while i < self.keys.len()
            invariant
                *self == *old(self),
                self.places_ok(domain, n_facts),
                i <= self.keys@.len(),
                place == crate::signature::place_of(tn@, state@),
                key.describes(place),
                crate::signature::is_bounded(place.net),
                forall|j: int| 0 <= j < i ==> #[trigger] self.places()[j] != place,
            decreases self.keys@.len() - i,
        {
            proof {
                let spot = self.spots@[i as int];
                assert(spot.ok(domain, n_facts));
                crate::signature::lemma_bounded(&*spot.tn);
                self.keys@[i as int].lemma_canonical(key, spot.place(), place);
                assert(self.places()[i as int] == spot.place());
            }
            if self.keys[i].same(&key) {
                return i;
            }
            i += 1;
        }
        let ghost before = self.places();
        let ghost spots0 = self.spots@;
        let ghost keys0 = self.keys@;
        let spot: Spot = Spot { tn: Rc::clone(tn), state: Rc::clone(state) };
        assert(spot.place() == place);
        assert(spot.ok(domain, n_facts));
        self.spots.push(spot);
        self.keys.push(key);
        proof {
            assert(self.places() =~= before.push(place));
            assert forall|a: int, b: int|
                0 <= a < self.places().len() && 0 <= b < self.places().len() && a
                    != b implies self.places()[a] != self.places()[b] by {
                if a < before.len() && b < before.len() {
                    assert(before[a] != before[b]);
                } else if a < before.len() {
                    assert(old(self).places()[a] != place);
                } else {
                    assert(old(self).places()[b] != place);
                }
            }
            assert forall|j: int| 0 <= j < self.spots@.len() implies (
            #[trigger] self.keys@[j]).describes(self.spots@[j].place()) by {
                if j < spots0.len() {
                    assert(keys0[j].describes(spots0[j].place()));
                }
            }
        }
        self.spots.len() - 1
    }
}

/// One of the edges leads to the position `i`.
spec fn is_target(successors: Seq<(usize, u64)>, i: int) -> bool {
    exists|k: int| 0 <= k < successors.len() && (#[trigger] successors[k]).0 == i
}

/// One of the edges before the one at `k` leads to the position `m`.
spec fn is_target_before(successors: Seq<(usize, u64)>, k: int, m: int) -> bool {
    exists|b: int| 0 <= b < k && (#[trigger] successors[b]).0 == m
}

/// Where an edge leads to a position, earlier ones lead to those from `from` on
/// before it.
spec fn is_in_turn(successors: Seq<(usize, u64)>, from: int) -> bool {
    forall|k: int, m: int|
        0 <= k < successors.len() && from <= m < successors[k].0 ==> #[trigger] is_target_before(
            successors,
            k,
            m,
        )
}

/// The numbers stay in order with a node more whose edges lead to what is found
/// already and to new places in turn.
proof fn lemma_numbered_push(nodes: Seq<NodeView>, n: NodeView, found: int, from: int)
    requires
        is_numbered(nodes, from),
        from >= 1,
        forall|m: int| 0 < m < found ==> #[trigger] is_entered(nodes, m),
        is_in_turn(n.successors, found),
    ensures
        is_numbered(nodes.push(n), from),
{
    let more = nodes.push(n);
    assert forall|i: int, k: int, m: int|
        0 <= i < more.len() && 0 <= k < more[i].successors.len() && from <= m
            < more[i].successors[k].0 implies #[trigger] is_entered_before(more, i, k, m) by {
        if i < nodes.len() {
            assert(more[i] == nodes[i]);
            assert(is_entered_before(nodes, i, k, m));
            let (a, b) = choose|a: int, b: int|
                0 <= a < nodes.len() && 0 <= b < nodes[a].successors.len() && (
                #[trigger] nodes[a].successors[b]).0 == m && (a < i || (a == i && b < k));
            assert(more[a] == nodes[a]);
            assert(more[a].successors[b].0 == m);
        } else if m < found {
            assert(is_entered(nodes, m));
            let (a, b) = choose|a: int, b: int|
                0 <= a < m && a < nodes.len() && 0 <= b < nodes[a].successors.len() && (
                #[trigger] nodes[a].successors[b]).0 == m;
            assert(more[a] == nodes[a]);
            assert(more[a].successors[b].0 == m);
        } else {
            assert(is_target_before(n.successors, k, m));
            let b = choose|b: int| 0 <= b < k && (#[trigger] n.successors[b]).0 == m;
            assert(more[i].successors[b].0 == m);
        }
    }
}

/// The one list begins with the other.
pub open spec fn extends(longer: Seq<Place>, shorter: Seq<Place>) -> bool {
    shorter.len() <= longer.len() && forall|i: int|
        0 <= i < shorter.len() ==> #[trigger] longer[i] == shorter[i]
}

/// A node stays what it is when places are added.
proof fn lemma_node_ok_extends(
    cx: Setting,
    policy: Policy,
    places: Seq<Place>,
    more: Seq<Place>,
    n: NodeView,
)
    requires
        node_ok(cx, policy, places, n),
        extends(more, places),
    ensures
        node_ok(cx, policy, more, n),
{
    if n.place.net.len() == 0 {
    } else if executable(cx, n.place).len() > 0 {
        let i = executable(cx, n.place)[0];
        assert forall|k: int| 0 <= k < n.successors.len() implies leads_to(
            more,
            #[trigger] n.successors[k],
            after_outcome(cx, n.place, i, k),
            outcome_prob(cx, n.place, i, k),
        ) by {
            assert(leads_to(
                places,
                n.successors[k],
                after_outcome(cx, n.place, i, k),
                outcome_prob(cx, n.place, i, k),
            ));
        }
    }
}

/// The two policies do the same at the place.
pub open spec fn agree_at(policy: Policy, other: Policy, place: Place) -> bool {
    &&& policy.contains_key(place) == other.contains_key(place)
    &&& policy.contains_key(place) ==> policy[place] == other[place]
}

/// A node is the same under policies that agree at its place.
pub proof fn lemma_node_ok_policy(
    cx: Setting,
    policy: Policy,
    other: Policy,
    places: Seq<Place>,
    n: NodeView,
)
    requires
        node_ok(cx, policy, places, n),
        agree_at(policy, other, n.place),
    ensures
        node_ok(cx, other, places, n),
{
}

/// An entered node stays entered when nodes and identifiers are added.
proof fn lemma_handed_on_extends(
    cx: Setting,
    policy: Policy,
    nodes: Seq<NodeView>,
    more: Seq<NodeView>,
    ids: Seq<Seq<usize>>,
    more_ids: Seq<Seq<usize>>,
    i: int,
)
    requires
        is_handed_on(cx, policy, nodes, ids, i),
        0 < i < ids.len() <= more_ids.len(),
        nodes.len() <= more.len(),
        forall|j: int| 0 <= j < nodes.len() ==> #[trigger] more[j] == nodes[j],
        forall|j: int| 0 <= j < ids.len() ==> #[trigger] more_ids[j] == ids[j],
    ensures
        is_handed_on(cx, policy, more, more_ids, i),
{
    let (j, k) = choose|j: int, k: int|
        0 <= j < i && j < nodes.len() && 0 <= k < nodes[j].successors.len() && (
        #[trigger] nodes[j].successors[k]).0 == i && ids[i] == next_ids(
            cx,
            policy,
            nodes[j],
            ids[j],
        );
    assert(more[j] == nodes[j]);
    assert(more_ids[j] == ids[j] && more_ids[i] == ids[i]);
    assert(more[j].successors[k].0 == i);
}

/// What is found has an edge to it, so it has a position.
proof fn lemma_found_is_entered(
    cx: Setting,
    policy: Policy,
    nodes: Seq<NodeView>,
    ids: Seq<Seq<usize>>,
    i: int,
)
    requires
        is_first_to_hand_on(cx, policy, nodes, ids, i),
    ensures
        i >= 0,
{
}

/// The edges of a node lead to listed places.
proof fn lemma_targets_listed(
    cx: Setting,
    policy: Policy,
    places: Seq<Place>,
    n: NodeView,
    k: int,
)
    requires
        node_ok(cx, policy, places, n),
        0 <= k < n.successors.len(),
    ensures
        n.successors[k].0 < places.len(),
{
    if n.place.net.len() > 0 && executable(cx, n.place).len() > 0 {
        let i = executable(cx, n.place)[0];
        assert(leads_to(
            places,
            n.successors[k],
            after_outcome(cx, n.place, i, k),
            outcome_prob(cx, n.place, i, k),
        ));
    }
}

/// Identifiers stay those that were found when nodes and identifiers are added.
proof fn lemma_found_extends(
    cx: Setting,
    policy: Policy,
    nodes: Seq<NodeView>,
    more: Seq<NodeView>,
    ids: Seq<Seq<usize>>,
    more_ids: Seq<Seq<usize>>,
    i: int,
)
    requires
        is_first_to_hand_on(cx, policy, nodes, ids, i),
        0 <= i < ids.len() <= more_ids.len(),
        nodes.len() <= more.len(),
        nodes.len() <= ids.len(),
        forall|j: int| 0 <= j < nodes.len() ==> #[trigger] more[j] == nodes[j],
        forall|j: int| 0 <= j < ids.len() ==> #[trigger] more_ids[j] == ids[j],
    ensures
        is_first_to_hand_on(cx, policy, more, more_ids, i),
{
    let (j, k) = choose|j: int, k: int|
        0 <= j < nodes.len() && 0 <= k < nodes[j].successors.len() && (
        #[trigger] nodes[j].successors[k]).0 == i && ids[i] == next_ids(
            cx,
            policy,
            nodes[j],
            ids[j],
        ) && no_edge_before(nodes, j, i);
    assert(more[j] == nodes[j]);
    assert(more_ids[j] == ids[j] && more_ids[i] == ids[i]);
    assert(no_edge_before(more, j, i)) by {
        assert forall|a: int, b: int|
            0 <= a < j && a < more.len() && 0 <= b < more[a].successors.len() implies (
        #[trigger] more[a].successors[b]).0 != i by {
            assert(more[a] == nodes[a]);
            assert(nodes[a].successors[b].0 != i);
        }
    }
    assert(more[j].successors[k].0 == i);
}

impl Builder {
    /// What holds of the nodes and places under the policy.
    spec fn ok(&self, cx: Setting, domain: Rc<DomainTasks>, policy: Policy) -> bool {
        &&& cx.tasks == *domain
        &&& self.places_ok(domain, cx.n_facts)
        &&& self.nodes@.len() <= self.spots@.len()
        &&& forall|i: int|
            0 <= i < self.nodes@.len() ==> (#[trigger] self.nodes@[i]).tn == self.spots@[i].tn
                && self.nodes@[i].state == self.spots@[i].state
        &&& forall|i: int|
            0 <= i < self.nodes@.len() ==> node_ok(
                cx,
                policy,
                self.places(),
                #[trigger] self.views()[i],
            )
        &&& is_out_c(self.views(), self.out_c@)
    }

    /// All places but the first are entered and have their identifiers from
    /// there.
    spec fn all_entered(&self, cx: Setting, policy: Policy) -> bool {
        forall|i: int|
            0 < i < self.spots@.len() ==> #[trigger] is_handed_on(
                cx,
                policy,
                self.views(),
                self.ids(),
                i,
            )
    }

    /// The edges of the nodes lead to places found.
    proof fn lemma_edges_within(&self, cx: Setting, domain: Rc<DomainTasks>, policy: Policy)
        requires
            self.ok(cx, domain, policy),
        ensures
            forall|a: int, b: int|
                0 <= a < self.nodes@.len() && 0 <= b < self.views()[a].successors.len() ==> (
                #[trigger] self.views()[a].successors[b]).0 < self.spots@.len(),
    {
        assert forall|a: int, b: int|
            0 <= a < self.nodes@.len() && 0 <= b < self.views()[a].successors.len() implies (
        #[trigger] self.views()[a].successors[b]).0 < self.spots@.len() by {
            assert(node_ok(cx, policy, self.places(), self.views()[a]));
            lemma_targets_listed(cx, policy, self.places(), self.views()[a], b);
        }
    }

    /// Identifiers stay those that were found when places are added.
    proof fn lemma_found_stays(&self, before: Builder, cx: Setting, policy: Policy, to: int)
        requires
            self.views() == before.views(),
            before.nodes@.len() <= before.spots@.len() <= self.spots@.len(),
            to <= before.spots@.len(),
            forall|j: int| 0 <= j < before.spots@.len() ==> self.spots@[j] == before.spots@[j],
        ensures
            forall|from: int|
                are_found_ids(cx, policy, before.views(), before.ids(), from, to)
                    ==> #[trigger] are_found_ids(cx, policy, self.views(), self.ids(), from, to),
    {
        assert forall|from: int|
            are_found_ids(
                cx,
                policy,
                before.views(),
                before.ids(),
                from,
                to,
            ) implies #[trigger] are_found_ids(cx, policy, self.views(), self.ids(), from, to) by {
            assert forall|i: int| from <= i < to implies #[trigger] is_first_to_hand_on(
                cx,
                policy,
                self.views(),
                self.ids(),
                i,
            ) by {
                assert(is_first_to_hand_on(cx, policy, before.views(), before.ids(), i));
                lemma_found_is_entered(cx, policy, before.views(), before.ids(), i);
                assert forall|j: int| 0 <= j < before.ids().len() implies #[trigger] self.ids()[j]
                    == before.ids()[j] by {
                    assert(self.spots@[j] == before.spots@[j]);
                }
                lemma_found_extends(
                    cx,
                    policy,
                    before.views(),
                    self.views(),
                    before.ids(),
                    self.ids(),
                    i,
                );
            }
        }
    }

    /// Adds the node of the next place.
    fn push_node(
        &mut self,
        node: ReachNode,
        Ghost(cx): Ghost<Setting>,
        Ghost(domain): Ghost<Rc<DomainTasks>>,
        Ghost(policy): Ghost<Policy>,
        Ghost(entered): Ghost<int>,
    )
        requires
            old(self).ok(cx, domain, policy),
            old(self).nodes@.len() < old(self).spots@.len(),
            node.tn == old(self).spots@[old(self).nodes@.len() as int].tn,
            node.state == old(self).spots@[old(self).nodes@.len() as int].state,
            node_ok(cx, policy, old(self).places(), node@),
            old(self).nodes@.len() < entered <= old(self).spots@.len(),
            forall|i: int|
                0 < i < entered ==> #[trigger] is_handed_on(
                    cx,
                    policy,
                    old(self).views(),
                    old(self).ids(),
                    i,
                ),
            forall|i: int|
                entered <= i < old(self).spots@.len() ==> #[trigger] is_target(
                    node.successors@,
                    i,
                ) && old(self).ids()[i] == next_ids(cx, policy, node@, node.tn.nodes@),
            is_in_turn(node.successors@, entered),
            forall|a: int, b: int|
                0 <= a < old(self).nodes@.len() && 0 <= b < old(self).views()[a].successors.len()
                    ==> (#[trigger] old(self).views()[a].successors[b]).0 < entered,
        ensures
            forall|from: int|
                are_found_ids(cx, policy, old(self).views(), old(self).ids(), from, entered)
                    ==> #[trigger] are_found_ids(
                    cx,
                    policy,
                    final(self).views(),
                    final(self).ids(),
                    from,
                    final(self).spots@.len() as int,
                ),
            final(self).ok(cx, domain, policy),
            final(self).all_entered(cx, policy),
            forall|from: int|
                from >= 1 && is_numbered(old(self).views(), from) ==> #[trigger] is_numbered(
                    final(self).views(),
                    from,
                ),
            final(self).spots == old(self).spots,
            final(self).views() == old(self).views().push(node@),
            final(self).nodes@.len() == old(self).nodes@.len() + 1,
            final(self).nodes@ == old(self).nodes@.push(node),
    {
        let ghost before = self.views();
        let ghost out0 = self.out_c@;
        let idx: usize = self.nodes.len();
        let ghost v = node@;
        if node.kind == NodeKind::Compound {
            self.out_c.push(idx);
        }
        self.nodes.push(node);
        proof {
            assert(self.views() =~= before.push(v));
            assert(self.places() == old(self).places());
            assert forall|i: int| 0 <= i < self.nodes@.len() implies node_ok(
                cx,
                policy,
                self.places(),
                #[trigger] self.views()[i],
            ) by {
                if i < before.len() {
                    assert(self.views()[i] == before[i]);
                }
            }
            assert(crate::order::ascends(self.out_c@)) by {
                assert forall|i: int, j: int| 0 <= i < j < self.out_c@.len() implies (
                #[trigger] self.out_c@[i]) < (#[trigger] self.out_c@[j]) by {
                    if j < out0.len() {
                        assert(crate::order::Ranked::precedes(out0[i], out0[j]));
                    } else {
                        assert(out0.contains(out0[i]));
                    }
                }
            }
            assert forall|i: usize| #[trigger]
                self.out_c@.contains(i) <==> i < self.views().len() && self.views()[i as int].kind
                    == NodeKind::Compound by {
                if i < before.len() {
                    assert(self.views()[i as int] == before[i as int]);
                }
                if out0.contains(i) {
                    let k = choose|k: int| 0 <= k < out0.len() && out0[k] == i;
                    assert(self.out_c@[k] == i);
                }
                if self.out_c@.len() > out0.len() {
                    assert(self.out_c@[out0.len() as int] == idx);
                }
                if self.out_c@.contains(i) && i != idx {
                    let k = choose|k: int| 0 <= k < self.out_c@.len() && self.out_c@[k] == i;
                    assert(out0[k] == i);
                    assert(out0.contains(i));
                }
                if self.out_c@.contains(i) && i == idx {
                    let k = choose|k: int| 0 <= k < self.out_c@.len() && self.out_c@[k] == i;
                    if k < out0.len() {
                        assert(out0.contains(i));
                    }
                }
            }
            assert(self.ids() =~= old(self).ids());
            assert(self.ids()[idx as int] == self.nodes@[idx as int].tn.nodes@);
            assert forall|from: int|
                from >= 1 && is_numbered(before, from) implies #[trigger] is_numbered(
                self.views(),
                from,
            ) by {
                assert forall|m: int| 0 < m < entered implies #[trigger] is_entered(before, m) by {
                    assert(is_handed_on(cx, policy, before, self.ids(), m));
                }
                lemma_numbered_push(before, v, entered, from);
            }
            assert forall|from: int|
                are_found_ids(
                    cx,
                    policy,
                    before,
                    self.ids(),
                    from,
                    entered,
                ) implies #[trigger] are_found_ids(
                cx,
                policy,
                self.views(),
                self.ids(),
                from,
                self.spots@.len() as int,
            ) by {
                assert forall|i: int| from <= i < self.spots@.len() implies #[trigger]
                    is_first_to_hand_on(cx, policy, self.views(), self.ids(), i) by {
                    if i < entered {
                        assert(is_first_to_hand_on(cx, policy, before, self.ids(), i));
                        lemma_found_is_entered(cx, policy, before, self.ids(), i);
                        lemma_found_extends(
                            cx,
                            policy,
                            before,
                            self.views(),
                            self.ids(),
                            self.ids(),
                            i,
                        );
                    } else {
                        assert(is_target(v.successors, i));
                        let k = choose|k: int|
                            0 <= k < v.successors.len() && (#[trigger] v.successors[k]).0 == i;
                        assert(self.views()[idx as int].successors[k].0 == i);
                        assert(no_edge_before(self.views(), idx as int, i)) by {
                            assert forall|a: int, b: int|
                                0 <= a < idx && a < self.views().len() && 0 <= b
                                    < self.views()[a].successors.len() implies (
                            #[trigger] self.views()[a].successors[b]).0 != i by {
                                assert(self.views()[a] == before[a]);
                                assert(before[a].successors[b].0 < entered);
                            }
                        }
                    }
                }
            }
            assert forall|i: int| 0 < i < self.spots@.len() implies #[trigger] is_handed_on(
                cx,
                policy,
                self.views(),
                self.ids(),
                i,
            ) by {
                if i < entered {
                    assert(is_handed_on(cx, policy, before, self.ids(), i));
                    lemma_handed_on_extends(
                        cx,
                        policy,
                        before,
                        self.views(),
                        self.ids(),
                        self.ids(),
                        i,
                    );
                } else {
                    assert(is_target(v.successors, i));
                    let k = choose|k: int|
                        0 <= k < v.successors.len() && (#[trigger] v.successors[k]).0 == i;
                    assert(self.views()[idx as int].successors[k].0 == i);
                }
            }
        }
    }
}

impl Builder {
    /// The edges of the node that executes the action of the step, one for each
    /// outcome. Places that are not there yet are added.
    fn action_successors(
        &mut self,
        e: &Expansion,
        Ghost(cx): Ghost<Setting>,
        Ghost(domain): Ghost<Rc<DomainTasks>>,
        Ghost(place): Ghost<Place>,
        Ghost(i): Ghost<int>,
    ) -> (successors: Vec<(usize, u64)>)
        requires
            cx.tasks == *domain,
            old(self).places_ok(domain, cx.n_facts),
            crate::problem::actions_wf(cx.tasks, cx.n_facts),
            e.executes(cx.tasks, place.net, place.facts, i),
            crate::progress::is_executable(cx.tasks, place.net, place.facts, i),
            place.net.tasks[i] < cx.tasks.n_tasks(),
            forall|f: u32| #[trigger] place.facts.contains(f) ==> f < cx.n_facts,
            crate::progress::network_wf(*e.tn),
            e.tn.domain == domain,
        ensures
            final(self).places_ok(domain, cx.n_facts),
            final(self).nodes == old(self).nodes,
            final(self).out_c == old(self).out_c,
            extends(final(self).places(), old(self).places()),
            final(self).spots@.len() >= old(self).spots@.len(),
            forall|j: int|
                0 <= j < old(self).spots@.len() ==> final(self).spots@[j] == old(self).spots@[j],
            successors@.len() == crate::progress::action_at(
                cx.tasks,
                place.net,
                i,
            ).add_effects@.len(),
            forall|k: int|
                0 <= k < successors@.len() ==> leads_to(
                    final(self).places(),
                    #[trigger] successors@[k],
                    after_outcome(cx, place, i, k),
                    outcome_prob(cx, place, i, k),
                ),
            forall|j: int|
                old(self).spots@.len() <= j < final(self).spots@.len() ==> #[trigger] is_target(
                    successors@,
                    j,
                ) && final(self).spots@[j].tn == e.tn,
            is_in_turn(successors@, old(self).spots@.len() as int),
    {
        let ghost action = crate::progress::action_at(cx.tasks, place.net, i);
        let ghost start = self.places();
        let ghost spots0 = self.spots@;
        proof {
            let task = cx.tasks.tasks@[place.net.tasks[i] as int];
            assert(*task is Primitive);
            assert(crate::problem::action_wf(action, cx.n_facts));
        }
        let mut successors: Vec<(usize, u64)> = Vec::new();
        let mut k: usize = 0;
        while k < e.states.len()
            invariant
                k <= e.states@.len(),
                cx.tasks == *domain,
                action == crate::progress::action_at(cx.tasks, place.net, i),
                crate::problem::action_wf(action, cx.n_facts),
                self.places_ok(domain, cx.n_facts),
                self.nodes == old(self).nodes,
                self.out_c == old(self).out_c,
                e.executes(cx.tasks, place.net, place.facts, i),
                forall|f: u32| #[trigger] place.facts.contains(f) ==> f < cx.n_facts,
                crate::progress::network_wf(*e.tn),
                e.tn.domain == domain,
                start.len() == spots0.len(),
                extends(self.places(), start),
                self.spots@.len() >= spots0.len(),
                forall|j: int| 0 <= j < spots0.len() ==> self.spots@[j] == spots0[j],
                successors@.len() == k,
                forall|x: int|
                    0 <= x < k ==> leads_to(
                        self.places(),
                        #[trigger] successors@[x],
                        after_outcome(cx, place, i, x),
                        outcome_prob(cx, place, i, x),
                    ),
                forall|j: int|
                    spots0.len() <= j < self.spots@.len() ==> #[trigger] is_target(successors@, j)
                        && self.spots@[j].tn == e.tn,
                is_in_turn(successors@, spots0.len() as int),
            decreases e.states@.len() - k,
        {
            let p: u64 = if k < e.outcome_probabilities.len() {
                e.outcome_probabilities[k]
            } else {
                ONE
            };
            let state: &Rc<HashSet<u32>> = &e.states[k];
            proof {
                assert(state@ == crate::progress::outcome(place.facts, action, k as int));
                assert forall|f: u32| #[trigger] state@.contains(f) implies f < cx.n_facts by {
                    if !place.facts.contains(f) {
                        assert(action.add_effects@[k as int]@.contains(f));
                    }
                }
            }
            let ghost places0 = self.places();
            let ghost succ0 = successors@;
            let idx: usize = self.get_or_insert(&e.tn, state, Ghost(domain), Ghost(cx.n_facts));
            successors.push((idx, p));
            proof {
                assert(self.places()[idx as int] == after_outcome(cx, place, i, k as int));
                assert forall|x: int| 0 <= x < k + 1 implies leads_to(
                    self.places(),
                    #[trigger] successors@[x],
                    after_outcome(cx, place, i, x),
                    outcome_prob(cx, place, i, x),
                ) by {
                    if x < k {
                        assert(successors@[x] == succ0[x]);
                        assert(leads_to(
                            places0,
                            succ0[x],
                            after_outcome(cx, place, i, x),
                            outcome_prob(cx, place, i, x),
                        ));
                    }
                }
                assert forall|j: int| spots0.len() <= j < self.spots@.len() implies #[trigger]
                    is_target(successors@, j) && self.spots@[j].tn == e.tn by {
                    if j < places0.len() {
                        assert(is_target(succ0, j));
                        let y = choose|y: int| 0 <= y < succ0.len() && (#[trigger] succ0[y]).0 == j;
                        assert(successors@[y].0 == j);
                    } else {
                        assert(successors@[k as int].0 == j);
                    }
                }
                assert forall|x: int, m: int|
                    0 <= x < successors@.len() && spots0.len() <= m
                        < successors@[x].0 implies #[trigger] is_target_before(
                    successors@,
                    x,
                    m,
                ) by {
                    if x < k {
                        assert(successors@[x] == succ0[x]);
                        assert(is_target_before(succ0, x, m));
                        let y = choose|y: int| 0 <= y < x && (#[trigger] succ0[y]).0 == m;
                        assert(successors@[y].0 == m);
                    } else {
                        assert(is_target(succ0, m));
                        let y = choose|y: int| 0 <= y < succ0.len() && (#[trigger] succ0[y]).0 == m;
                        assert(successors@[y].0 == m);
                    }
                }
            }
            k += 1;
        }
        successors
    }
}

/// The key is the description of some place.
pub open spec fn is_key(sig: CompoundSig) -> bool {
    exists|p: Place| crate::signature::is_bounded(p.net) && #[trigger] sig.describes(p)
}

/// The keys of the assignments are descriptions of places.
pub open spec fn keys_wf(list: Seq<Assignment>) -> bool {
    forall|k: int| 0 <= k < list.len() ==> is_key(#[trigger] list[k].key)
}

/// The position of the first assignment for the place; the number of
/// assignments where there is none.
fn find_assignment(list: &[Assignment], key: &CompoundSig, Ghost(place): Ghost<Place>) -> (k: usize)
    requires
        keys_wf(list@),
        key.describes(place),
        crate::signature::is_bounded(place.net),
    ensures
        k == first_for(list@, place),
        k <= list@.len(),
        forall|x: int| 0 <= x < k ==> !(#[trigger] list@[x]).key.describes(place),
{
    let mut k: usize = 0;
    assert(list@.take(0) =~= Seq::empty());
    while k < list.len()
        invariant
            k <= list@.len(),
            keys_wf(list@),
            key.describes(place),
            crate::signature::is_bounded(place.net),
            first_for(list@.take(k as int), place) == k,
            forall|x: int| 0 <= x < k ==> !(#[trigger] list@[x]).key.describes(place),
        decreases list@.len() - k,
    {
        let ghost own = list@[k as int].key;
        proof {
            assert(is_key(own));
            let p = choose|p: Place|
                crate::signature::is_bounded(p.net) && #[trigger] own.describes(p);
            own.lemma_canonical(*key, p, place);
            if own.describes(place) {
                own.lemma_canonical(own, p, place);
                own.lemma_canonical(own, p, p);
            }
            assert(list@.take(k + 1).drop_last() =~= list@.take(k as int));
            assert(list@.take(k + 1).last() == list@[k as int]);
        }
        if list[k].key.same(key) {
            proof {
                lemma_first_for_stays(list@, (k + 1) as int, place);
            }
            return k;
        }
        k += 1;
    }
    assert(list@.take(k as int) =~= list@);
    k
}

/// The first assignment for a place is the same among more assignments.
proof fn lemma_first_for_stays(list: Seq<Assignment>, m: int, place: Place)
    requires
        0 <= m <= list.len(),
        first_for(list.take(m), place) < m,
    ensures
        first_for(list, place) == first_for(list.take(m), place),
    decreases list.len(),
{
    if m == list.len() {
        assert(list.take(m) =~= list);
    } else {
        assert(list.drop_last().take(m) =~= list.take(m));
        lemma_first_for_stays(list.drop_last(), m, place);
    }
}

/// The first of more decompositions is the first of fewer, where those have one.
proof fn lemma_first_named_stays(
    tasks: DomainTasks,
    net: Network,
    ds: Seq<(int, int)>,
    m: int,
    task: Seq<char>,
    method: Seq<char>,
)
    requires
        0 <= m <= ds.len(),
        first_named(tasks, net, ds.take(m), task, method) is By,
    ensures
        first_named(tasks, net, ds, task, method) == first_named(
            tasks,
            net,
            ds.take(m),
            task,
            method,
        ),
    decreases ds.len(),
{
    if m == ds.len() {
        assert(ds.take(m) =~= ds);
    } else {
        assert(ds.drop_last().take(m) =~= ds.take(m));
        lemma_first_named_stays(tasks, net, ds.drop_last(), m, task, method);
    }
}

/// The steps are the decompositions that are possible at the place.
spec fn are_decompositions(cx: Setting, place: Place, steps: Seq<Expansion>) -> bool {
    &&& steps.len() == decomposable(cx, place).len()
    &&& forall|k: int|
        0 <= k < steps.len() ==> (#[trigger] steps[k]).decomposes(
            cx.tasks,
            place.net,
            place.facts,
            decomposable(cx, place)[k],
        )
}

/// The position of the first step that decomposes the named task by the named method.
fn find_decomposition(
    steps: &Vec<Expansion>,
    task: &String,
    method: &String,
    Ghost(cx): Ghost<Setting>,
    Ghost(place): Ghost<Place>,
) -> (r: Option<usize>)
    requires
        are_decompositions(cx, place, steps@),
    ensures
        match r {
            Some(k) => k < steps@.len() && first_named(
                cx.tasks,
                place.net,
                decomposable(cx, place),
                task@,
                method@,
            ) == Choice::By(decomposable(cx, place)[k as int].0, decomposable(cx, place)[k as int].1),
            None => first_named(cx.tasks, place.net, decomposable(cx, place), task@, method@)
                == Choice::Missing,
        },
{
    let ghost ds = decomposable(cx, place);
    let mut k: usize = 0;
    assert(ds.take(0) =~= Seq::empty());
    while k < steps.len()
        invariant
            k <= steps@.len(),
            ds == decomposable(cx, place),
            are_decompositions(cx, place, steps@),
            first_named(cx.tasks, place.net, ds.take(k as int), task@, method@) == Choice::Missing,
        decreases steps@.len() - k,
    {
        proof {
            assert(steps@[k as int].decomposes(cx.tasks, place.net, place.facts, ds[k as int]));
            assert(ds.take(k + 1).drop_last() =~= ds.take(k as int));
            assert(ds.take(k + 1).last() == ds[k as int]);
        }
        let found: bool = match &steps[k].connection_label {
            ConnectionLabel::Execution(_) => false,
            ConnectionLabel::Decomposition(t, m) => *t == *task && *m == *method,
        };
        if found {
            proof {
                lemma_first_named_stays(
                    cx.tasks,
                    place.net,
                    ds,
                    (k + 1) as int,
                    task@,
                    method@,
                );
            }
            return Some(k);
        }
        k += 1;
    }
    assert(ds.take(k as int) =~= ds);
    None
}

/// The bounds of a compound node.
fn bounds_of(
    relaxed: &RelaxedComposition,
    tn: &Rc<HTN>,
    state: &Rc<HashSet<u32>>,
    h_type: HeuristicType,
    mode: SearchMode,
    Ghost(cx): Ghost<Setting>,
) -> (b: (u64, Option<u32>))
    requires
        relaxed.is_of(cx.tasks, cx.n_facts),
        crate::progress::network_wf(**tn),
        cx.tasks == *tn.domain,
        cx.h_type == h_type,
        cx.mode == mode,
    ensures
        are_bounds(cx, crate::signature::place_of(tn@, state@), b),
{
    let v: Option<u32> = relaxed.h_val(tn, state, h_type);
    let prob: u64 = match v {
        Some(_) => ONE,
        None => 0,
    };
    let cost: Option<u32> = match mode {
        SearchMode::MaxProb => Some(0),
        SearchMode::MinCost => v,
    };
    proof {
        let place = crate::signature::place_of(tn@, state@);
        assert(tn.dom() == cx.tasks);
        assert(crate::composition::is_h_val(
            cx.tasks,
            cx.n_facts,
            place.net,
            place.facts,
            cx.h_type,
            v,
        ));
        assert(bounds(cx.mode, v).0 == prob);
        assert(bounds(cx.mode, v).1 == cost);
        assert((prob, cost) == bounds(cx.mode, v));
        assert(are_bounds(cx, place, (prob, cost)));
    }
    (prob, cost)
}

impl Builder {
    /// Adds the node of the next place, at which only decompositions are possible.
    fn expand_compound(
        &mut self,
        steps: &Vec<Expansion>,
        relaxed: &RelaxedComposition,
        h_type: HeuristicType,
        mode: SearchMode,
        assignments: &[Assignment],
        Ghost(cx): Ghost<Setting>,
        Ghost(domain): Ghost<Rc<DomainTasks>>,
        Ghost(policy): Ghost<Policy>,
    )
        requires
            old(self).ok(cx, domain, policy),
            old(self).all_entered(cx, policy),
            old(self).nodes@.len() < old(self).spots@.len(),
            agree_at(
                policy,
                policy_of(cx.tasks, assignments@),
                old(self).spots@[old(self).nodes@.len() as int].place(),
            ),
            relaxed.is_of(cx.tasks, cx.n_facts),
            keys_wf(assignments@),
            cx.h_type == h_type,
            cx.mode == mode,
            ({
                let place = old(self).spots@[old(self).nodes@.len() as int].place();
                &&& place.net.len() > 0
                &&& executable(cx, place).len() == 0
                &&& steps@.len() > 0
                &&& are_decompositions(cx, place, steps@)
            }),
            forall|k: int|
                0 <= k < steps@.len() ==> crate::progress::network_wf(*(#[trigger] steps@[k]).tn)
                    && steps@[k].tn.domain == domain,
            ({
                let spot = old(self).spots@[old(self).nodes@.len() as int];
                forall|k: int|
                    0 <= k < steps@.len() ==> (#[trigger] steps@[k]).replaces_ids(
                        *spot.tn,
                        decomposable(cx, spot.place())[k],
                    )
            }),
        ensures
            final(self).ok(cx, domain, policy),
            final(self).all_entered(cx, policy),
            final(self).views().last().kind == NodeKind::Assigned
                ==> final(self).views().last().cost_lower == Some(0u32),
            forall|from: int|
                are_found_ids(
                    cx,
                    policy,
                    old(self).views(),
                    old(self).ids(),
                    from,
                    old(self).spots@.len() as int,
                ) ==> #[trigger] are_found_ids(
                    cx,
                    policy,
                    final(self).views(),
                    final(self).ids(),
                    from,
                    final(self).spots@.len() as int,
                ),
            forall|from: int|
                from >= 1 && is_numbered(old(self).views(), from) ==> #[trigger] is_numbered(
                    final(self).views(),
                    from,
                ),
            final(self).nodes@.len() == old(self).nodes@.len() + 1,
            final(self).nodes@.take(old(self).nodes@.len() as int) == old(self).nodes@,
            final(self).spots@.len() >= old(self).spots@.len(),
            forall|j: int|
                0 <= j < old(self).spots@.len() ==> final(self).spots@[j] == old(self).spots@[j],
    {
        let idx: usize = self.nodes.len();
        let tn: Rc<HTN> = Rc::clone(&self.spots[idx].tn);
        let state: Rc<HashSet<u32>> = Rc::clone(&self.spots[idx].state);
        let ghost place = crate::signature::place_of(tn@, state@);
        proof {
            let spot = self.spots@[idx as int];
            assert(spot.place() == place);
            assert(spot.ok(domain, cx.n_facts));
            crate::signature::lemma_bounded(&*spot.tn);
            self.lemma_edges_within(cx, domain, policy);
        }
        let (prob_upper, cost_lower): (u64, Option<u32>) = bounds_of(
            relaxed,
            &tn,
            &state,
            h_type,
            mode,
            Ghost(cx),
        );
        let key: CompoundSig = make_key(&tn, &state);
        let k: usize = find_assignment(assignments, &key, Ghost(place));
        let ghost spots0 = self.spots@.len() as int;
        if k == assignments.len() {
            assert(!policy.contains_key(place));
            let node: ReachNode = ReachNode {
                tn,
                state,
                kind: NodeKind::Compound,
                prob_upper,
                cost_lower,
                successors: Vec::new(),
            };
            assert(is_open_node(cx, node@));
            self.push_node(node, Ghost(cx), Ghost(domain), Ghost(policy), Ghost(spots0));
        } else {
            assert(policy.contains_key(place));
            match find_decomposition(
                steps,
                &assignments[k].task_name,
                &assignments[k].method_name,
                Ghost(cx),
                Ghost(place),
            ) {
                Some(m) => {
                    let ghost d = decomposable(cx, place)[m as int];
                    let ghost places0 = self.places();
                    let ghost before = *self;
                    assert(steps@[m as int].decomposes(cx.tasks, place.net, place.facts, d));
                    let to: usize = self.get_or_insert(
                        &steps[m].tn,
                        &state,
                        Ghost(domain),
                        Ghost(cx.n_facts),
                    );
                    let node: ReachNode = ReachNode {
                        tn,
                        state,
                        kind: NodeKind::Assigned,
                        prob_upper,
                        cost_lower: Some(0),
                        successors: vec![(to, ONE)],
                    };
                    proof {
                        assert(self.places()[to as int] == after_method(cx, place, d.0, d.1));
                        assert(are_bounds(cx, place, (prob_upper, cost_lower)));
                        assert(decomposable(cx, place).contains((d.0, d.1)));
                        assert(node@.successors[0] == (to, ONE));
                        assert(node@.place == place);
                        assert(are_bounds(cx, node@.place, (node@.prob_upper, cost_lower)));
                        assert(is_assigned_node(cx, self.places(), node@, d.0, d.1));
                        assert(extends(self.places(), places0));
                        assert(self.views() == before.views());
                        self.lemma_found_stays(before, cx, policy, spots0);
                        assert forall|i: int| 0 <= i < self.nodes@.len() implies node_ok(
                            cx,
                            policy,
                            self.places(),
                            #[trigger] self.views()[i],
                        ) by {
                            assert(node_ok(cx, policy, places0, before.views()[i]));
                            lemma_node_ok_extends(
                                cx,
                                policy,
                                places0,
                                self.places(),
                                self.views()[i],
                            );
                        }
                        assert forall|i: int|
                            spots0 <= i < self.spots@.len() implies #[trigger] is_target(
                            node.successors@,
                            i,
                        ) && self.ids()[i] == next_ids(cx, policy, node@, node.tn.nodes@) by {
                            assert(node.successors@[0].0 == i);
                            assert(steps@[m as int].replaces_ids(*node.tn, d));
                        }
                        assert forall|i: int| 0 < i < spots0 implies #[trigger] is_handed_on(
                            cx,
                            policy,
                            self.views(),
                            self.ids(),
                            i,
                        ) by {
                            lemma_handed_on_extends(
                                cx,
                                policy,
                                before.views(),
                                self.views(),
                                before.ids(),
                                self.ids(),
                                i,
                            );
                        }
                    }
                    self.push_node(node, Ghost(cx), Ghost(domain), Ghost(policy), Ghost(spots0));
                },
                None => {
                    let node: ReachNode = ReachNode {
                        tn,
                        state,
                        kind: NodeKind::Dead,
                        prob_upper: 0,
                        cost_lower: Some(0),
                        successors: Vec::new(),
                    };
                    self.push_node(node, Ghost(cx), Ghost(domain), Ghost(policy), Ghost(spots0));
                },
            }
        }
        assert(self.nodes@.take(old(self).nodes@.len() as int) =~= old(self).nodes@);
    }
}

impl Builder {
    /// Adds the node of the next place.
    fn expand_next(
        &mut self,
        relaxed: &RelaxedComposition,
        h_type: HeuristicType,
        mode: SearchMode,
        assignments: &[Assignment],
        Ghost(cx): Ghost<Setting>,
        Ghost(domain): Ghost<Rc<DomainTasks>>,
        Ghost(policy): Ghost<Policy>,
    )
        requires
            old(self).ok(cx, domain, policy),
            old(self).all_entered(cx, policy),
            old(self).nodes@.len() < old(self).spots@.len(),
            agree_at(
                policy,
                policy_of(cx.tasks, assignments@),
                old(self).spots@[old(self).nodes@.len() as int].place(),
            ),
            relaxed.is_of(cx.tasks, cx.n_facts),
            crate::problem::actions_wf(cx.tasks, cx.n_facts),
            keys_wf(assignments@),
            cx.h_type == h_type,
            cx.mode == mode,
        ensures
            final(self).ok(cx, domain, policy),
            final(self).all_entered(cx, policy),
            final(self).views().last().kind == NodeKind::Assigned
                ==> final(self).views().last().cost_lower == Some(0u32),
            forall|from: int|
                are_found_ids(
                    cx,
                    policy,
                    old(self).views(),
                    old(self).ids(),
                    from,
                    old(self).spots@.len() as int,
                ) ==> #[trigger] are_found_ids(
                    cx,
                    policy,
                    final(self).views(),
                    final(self).ids(),
                    from,
                    final(self).spots@.len() as int,
                ),
            forall|from: int|
                from >= 1 && is_numbered(old(self).views(), from) ==> #[trigger] is_numbered(
                    final(self).views(),
                    from,
                ),
            final(self).nodes@.len() == old(self).nodes@.len() + 1,
            final(self).nodes@.take(old(self).nodes@.len() as int) == old(self).nodes@,
            final(self).spots@.len() >= old(self).spots@.len(),
            forall|j: int|
                0 <= j < old(self).spots@.len() ==> final(self).spots@[j] == old(self).spots@[j],
    {
        let idx: usize = self.nodes.len();
        let tn: Rc<HTN> = Rc::clone(&self.spots[idx].tn);
        let state: Rc<HashSet<u32>> = Rc::clone(&self.spots[idx].state);
        let ghost place = crate::signature::place_of(tn@, state@);
        let ghost spots0 = self.spots@.len() as int;
        proof {
            let spot = self.spots@[idx as int];
            assert(spot.place() == place);
            assert(spot.ok(domain, cx.n_facts));
            self.lemma_edges_within(cx, domain, policy);
        }
        if tn.is_empty() {
            let node: ReachNode = ReachNode {
                tn,
                state,
                kind: NodeKind::Goal,
                prob_upper: ONE,
                cost_lower: Some(0),
                successors: Vec::new(),
            };
            self.push_node(node, Ghost(cx), Ghost(domain), Ghost(policy), Ghost(spots0));
            assert(self.nodes@.take(old(self).nodes@.len() as int) =~= old(self).nodes@);
            return;
        }
        let steps: Vec<Expansion> = progress(&tn, &state);
        if steps.len() == 0 {
            let node: ReachNode = ReachNode {
                tn,
                state,
                kind: NodeKind::Dead,
                prob_upper: 0,
                cost_lower: Some(0),
                successors: Vec::new(),
            };
            self.push_node(node, Ghost(cx), Ghost(domain), Ghost(policy), Ghost(spots0));
            assert(self.nodes@.take(old(self).nodes@.len() as int) =~= old(self).nodes@);
            return;
        }
        proof {
            let e = executable(cx, place);
            if e.len() > 0 {
                assert(steps@[0].executes(cx.tasks, place.net, place.facts, e[0]));
                lemma_executions(cx.tasks, place.net, place.facts, place.net.len());
            } else {
                assert(steps@[0].decomposes(
                    cx.tasks,
                    place.net,
                    place.facts,
                    decomposable(cx, place)[0],
                ));
            }
        }
        if !steps[0].connection_label.is_decomposition() {
            let ghost i = executable(cx, place)[0];
            let ghost places0 = self.places();
            let ghost before = *self;
            assert(crate::progress::is_executable(cx.tasks, place.net, place.facts, i));
            assert(tn.tasks@[i] < cx.tasks.n_tasks());
            let successors: Vec<(usize, u64)> = self.action_successors(
                &steps[0],
                Ghost(cx),
                Ghost(domain),
                Ghost(place),
                Ghost(i),
            );
            let node: ReachNode = ReachNode {
                tn,
                state,
                kind: NodeKind::Primitive,
                prob_upper: ONE,
                cost_lower: Some(0),
                successors,
            };
            proof {
                assert(node@.place == place);
                assert(is_action_node(cx, self.places(), node@));
                assert(self.views() == before.views());
                self.lemma_found_stays(before, cx, policy, spots0);
                assert forall|j: int| 0 <= j < self.nodes@.len() implies node_ok(
                    cx,
                    policy,
                    self.places(),
                    #[trigger] self.views()[j],
                ) by {
                    assert(node_ok(cx, policy, places0, before.views()[j]));
                    lemma_node_ok_extends(cx, policy, places0, self.places(), self.views()[j]);
                }
                assert(steps@[0].keeps_ids(*node.tn, i));
                assert forall|j: int| 0 < j < spots0 implies #[trigger] is_handed_on(
                    cx,
                    policy,
                    self.views(),
                    self.ids(),
                    j,
                ) by {
                    lemma_handed_on_extends(
                        cx,
                        policy,
                        before.views(),
                        self.views(),
                        before.ids(),
                        self.ids(),
                        j,
                    );
                }
                assert forall|j: int|
                    spots0 <= j < self.spots@.len() implies #[trigger] is_target(
                    node.successors@,
                    j,
                ) && self.ids()[j] == next_ids(cx, policy, node@, node.tn.nodes@) by {
                    assert(is_target(node.successors@, j));
                    assert(self.spots@[j].tn == steps@[0].tn);
                }
            }
            self.push_node(node, Ghost(cx), Ghost(domain), Ghost(policy), Ghost(spots0));
            assert(self.nodes@.take(old(self).nodes@.len() as int) =~= old(self).nodes@);
        } else {
            self.expand_compound(
                &steps,
                relaxed,
                h_type,
                mode,
                assignments,
                Ghost(cx),
                Ghost(domain),
                Ghost(policy),
            );
        }
    }
}

/// The listed actions can be executed.
pub proof fn lemma_executions(tasks: DomainTasks, net: Network, facts: Set<u32>, n: nat)
    ensures
        forall|k: int|
            0 <= k < crate::progress::executions(tasks, net, facts, n).len()
                ==> crate::progress::is_executable(
                tasks,
                net,
                facts,
                #[trigger] crate::progress::executions(tasks, net, facts, n)[k],
            ),
    decreases n,
{
    if n > 0 {
        lemma_executions(tasks, net, facts, (n - 1) as nat);
        let rest = crate::progress::executions(tasks, net, facts, (n - 1) as nat);
        let all = crate::progress::executions(tasks, net, facts, n);
        assert forall|k: int| 0 <= k < all.len() implies crate::progress::is_executable(
            tasks,
            net,
            facts,
            #[trigger] all[k],
        ) by {
            if k < rest.len() {
                assert(all[k] == rest[k]);
            }
        }
    }
}

/// The networks of the nodes are ones of the tasks, and the facts of their
/// states are below `n_facts`.
pub open spec fn nodes_wf(reach: Seq<ReachNode>, domain: Rc<DomainTasks>, n_facts: nat) -> bool {
    forall|i: int|
        0 <= i < reach.len() ==> {
            &&& crate::progress::network_wf(*(#[trigger] reach[i]).tn)
            &&& reach[i].tn.domain == domain
            &&& forall|f: u32| #[trigger] reach[i].state@.contains(f) ==> f < n_facts
        }
}

/// The keys are the descriptions of the places of the nodes.
pub open spec fn keys_of(keys: Seq<CompoundSig>, nodes: Seq<NodeView>) -> bool {
    &&& keys.len() == nodes.len()
    &&& forall|i: int| 0 <= i < nodes.len() ==> (#[trigger] keys[i]).describes(nodes[i].place)
}

impl Builder {
    /// Once every place has its node, the nodes are the graph of what the
    /// policy reaches.
    proof fn lemma_complete(&self, cx: Setting, domain: Rc<DomainTasks>, policy: Policy)
        requires
            self.ok(cx, domain, policy),
            self.all_entered(cx, policy),
            self.nodes@.len() == self.spots@.len(),
            self.spots@.len() > 0,
            self.ids()[0] == cx.ids,
        ensures
            is_reach(cx, policy, self.places()[0], self.views()),
            are_ids(cx, policy, self.views(), ids_of(self.nodes@)),
            ids_of(self.nodes@) == self.ids(),
            nodes_wf(self.nodes@, domain, cx.n_facts),
            keys_of(self.keys@, self.views()),
    {
        assert(ids_of(self.nodes@) =~= self.ids()) by {
            assert forall|i: int| 0 <= i < self.nodes@.len() implies ids_of(self.nodes@)[i]
                == self.ids()[i] by {
                assert(self.nodes@[i].tn == self.spots@[i].tn);
            }
        }
        assert forall|i: int| 0 < i < self.views().len() implies #[trigger] is_entered(
            self.views(),
            i,
        ) by {
            assert(is_handed_on(cx, policy, self.views(), self.ids(), i));
        }
        assert(places_of(self.views()) =~= self.places()) by {
            assert forall|i: int| 0 <= i < self.nodes@.len() implies places_of(self.views())[i]
                == self.places()[i] by {
                assert(self.nodes@[i].tn == self.spots@[i].tn);
            }
        }
        assert forall|i: int| 0 <= i < self.nodes@.len() implies {
            &&& crate::progress::network_wf(*(#[trigger] self.nodes@[i]).tn)
            &&& self.nodes@[i].tn.domain == domain
            &&& forall|f: u32| #[trigger]
                self.nodes@[i].state@.contains(f) ==> f < cx.n_facts
        } by {
            assert(self.spots@[i].ok(domain, cx.n_facts));
        }
        assert forall|i: int| 0 <= i < self.views().len() implies (
        #[trigger] self.keys@[i]).describes(self.views()[i].place) by {
            assert(self.keys@[i].describes(self.spots@[i].place()));
            assert(places_of(self.views())[i] == self.places()[i]);
        }
    }
}

/// What the graphs that start with the network have in common.
pub open spec fn reach_setting(
    tn: Rc<HTN>,
    n_facts: nat,
    h_type: HeuristicType,
    mode: SearchMode,
) -> Setting {
    Setting { tasks: tn.dom(), n_facts, ids: tn.nodes@, h_type, mode }
}

/// The graph of what the policy of the assignments reaches from the initial
/// network and state, the descriptions of its places, and the positions of the
/// nodes that wait for a method.
pub fn compute_reach(
    init_tn: Rc<HTN>,
    init_state: Rc<HashSet<u32>>,
    assignments: &[Assignment],
    relaxed: &RelaxedComposition,
    h_type: HeuristicType,
    mode: SearchMode,
) -> (r: (Vec<ReachNode>, Vec<CompoundSig>, Vec<usize>))
    requires
        crate::progress::network_wf(*init_tn),
        forall|f: u32| #[trigger] init_state@.contains(f) ==> f < relaxed.n_facts,
        relaxed.is_of(init_tn.dom(), relaxed.n_facts as nat),
        crate::problem::actions_wf(init_tn.dom(), relaxed.n_facts as nat),
        keys_wf(assignments@),
    ensures
        is_reach(
            reach_setting(init_tn, relaxed.n_facts as nat, h_type, mode),
            policy_of(init_tn.dom(), assignments@),
            crate::signature::place_of(init_tn@, init_state@),
            crate::policy::views(r.0@),
        ),
        are_ids(
            reach_setting(init_tn, relaxed.n_facts as nat, h_type, mode),
            policy_of(init_tn.dom(), assignments@),
            crate::policy::views(r.0@),
            ids_of(r.0@),
        ),
        assigned_cost_nothing(crate::policy::views(r.0@)),
        is_numbered(crate::policy::views(r.0@), 1),
        are_found_ids(
            reach_setting(init_tn, relaxed.n_facts as nat, h_type, mode),
            policy_of(init_tn.dom(), assignments@),
            crate::policy::views(r.0@),
            ids_of(r.0@),
            1,
            r.0@.len() as int,
        ),
        is_out_c(crate::policy::views(r.0@), r.2@),
        keys_of(r.1@, crate::policy::views(r.0@)),
        nodes_wf(r.0@, init_tn.domain, relaxed.n_facts as nat),
        r.0@.len() > 0,
        r.0@[0].tn.tasks@ == init_tn.tasks@,
        forall|f: u32| #[trigger] r.0@[0].state@.contains(f) <==> init_state@.contains(f),
        forall|i: int|
            0 <= i < r.0@.len() && (#[trigger] r.0@[i]).kind == NodeKind::Assigned
                ==> r.0@[i].cost_lower == Some(0u32),
        forall|i: int| 0 <= i < r.0@.len() ==> (#[trigger] r.0@[i]).tn.domain == init_tn.domain,
{
    let ghost cx = reach_setting(init_tn, relaxed.n_facts as nat, h_type, mode);
    let ghost policy = policy_of(cx.tasks, assignments@);
    let ghost place = crate::signature::place_of(init_tn@, init_state@);
    let domain: Rc<DomainTasks> = Rc::clone(&init_tn.domain);
    let mut b: Builder = Builder {
        spots: Vec::new(),
        keys: Vec::new(),
        nodes: Vec::new(),
        out_c: Vec::new(),
    };
    let first: usize = b.get_or_insert(
        &init_tn,
        &init_state,
        Ghost(domain),
        Ghost(cx.n_facts),
    );
    assert(b.places()[0] == place);
    while b.nodes.len() < b.spots.len()
        invariant
            b.ok(cx, domain, policy),
            b.all_entered(cx, policy),
            b.spots@.len() > 0,
            b.ids()[0] == cx.ids,
            assigned_cost_nothing(b.views()),
            is_numbered(b.views(), 1),
            are_found_ids(cx, policy, b.views(), b.ids(), 1, b.spots@.len() as int),
            b.places()[0] == place,
            policy == policy_of(cx.tasks, assignments@),
            relaxed.is_of(cx.tasks, cx.n_facts),
            crate::problem::actions_wf(cx.tasks, cx.n_facts),
            keys_wf(assignments@),
            cx.h_type == h_type,
            cx.mode == mode,
        decreases usize::MAX - b.nodes@.len(),
    {
        let ghost before = b;
        assert(b.spots@.len() == b.spots.len());
        b.expand_next(
            relaxed,
            h_type,
            mode,
            assignments,
            Ghost(cx),
            Ghost(domain),
            Ghost(policy),
        );
        proof {
            assert(b.spots@[0] == before.spots@[0]);
            assert(b.places()[0] == b.spots@[0].place());
            assert(b.ids()[0] == before.ids()[0]);
            assert forall|i: int|
                0 <= i < b.views().len() && (#[trigger] b.views()[i]).kind
                    == NodeKind::Assigned implies b.views()[i].cost_lower == Some(0u32) by {
                if i < before.nodes@.len() {
                    assert(b.nodes@.take(before.nodes@.len() as int)[i] == before.nodes@[i]);
                    assert(b.views()[i] == before.views()[i]);
                }
            }
        }
    }
    proof {
        b.lemma_complete(cx, domain, policy);
    }
    proof {
        let all = crate::policy::views(b.nodes@);
        assert forall|i: int|
            0 <= i < b.nodes@.len() && (#[trigger] b.nodes@[i]).kind == NodeKind::Assigned implies
            b.nodes@[i].cost_lower == Some(0u32) by {
            assert(all[i].kind == NodeKind::Assigned);
        }
    }
    (b.nodes, b.keys, b.out_c)
}

/// The same list of edges.
fn copy_edges(list: &Vec<(usize, u64)>) -> (r: Vec<(usize, u64)>)
    ensures
        r@ == list@,
{
    let mut r: Vec<(usize, u64)> = Vec::new();
    let mut i: usize = 0;
    while i < list.len()
        invariant
            i <= list@.len(),
            r@ == list@.take(i as int),
        decreases list@.len() - i,
    {
        r.push(list[i]);
        assert(list@.take(i + 1) =~= list@.take(i as int).push(list@[i as int]));
        i += 1;
    }
    assert(list@.take(i as int) =~= list@);
    r
}

/// The same node, of which the network and the state are shared.
pub fn copy_node(node: &ReachNode) -> (r: ReachNode)
    ensures
        r@ == node@,
        r.tn == node.tn,
        r.state == node.state,
{
    ReachNode {
        tn: Rc::clone(&node.tn),
        state: Rc::clone(&node.state),
        kind: node.kind,
        prob_upper: node.prob_upper,
        cost_lower: node.cost_lower,
        successors: copy_edges(&node.successors),
    }
}

impl Builder {
    /// The builder that holds the given graph.
    fn from_graph(
        reach: &[ReachNode],
        keys: &Vec<CompoundSig>,
        out_c: &[usize],
        Ghost(domain): Ghost<Rc<DomainTasks>>,
        Ghost(n_facts): Ghost<nat>,
    ) -> (b: Builder)
        requires
            keys_of(keys@, crate::policy::views(reach@)),
            nodes_wf(reach@, domain, n_facts),
            places_of(crate::policy::views(reach@)).no_duplicates(),
        ensures
            b.places_ok(domain, n_facts),
            b.views() == crate::policy::views(reach@),
            b.places() == places_of(crate::policy::views(reach@)),
            b.nodes@.len() == b.spots@.len(),
            forall|i: int|
                0 <= i < b.nodes@.len() ==> (#[trigger] b.nodes@[i]).tn == b.spots@[i].tn
                    && b.nodes@[i].state == b.spots@[i].state,
            b.ids() == ids_of(reach@),
            b.out_c@ == out_c@,
    {
        let mut spots: Vec<Spot> = Vec::new();
        let mut own_keys: Vec<CompoundSig> = Vec::new();
        let mut nodes: Vec<ReachNode> = Vec::new();
        let ghost views = crate::policy::views(reach@);
        let mut i: usize = 0;
        while i < reach.len()
            invariant
                i <= reach@.len(),
                views == crate::policy::views(reach@),
                keys_of(keys@, views),
                nodes_wf(reach@, domain, n_facts),
                spots@.len() == i,
                own_keys@.len() == i,
                nodes@.len() == i,
                forall|j: int|
                    0 <= j < i ==> {
                        &&& (#[trigger] nodes@[j])@ == views[j]
                        &&& nodes@[j].tn == spots@[j].tn
                        &&& nodes@[j].state == spots@[j].state
                    },
                forall|j: int|
                    0 <= j < i ==> (#[trigger] spots@[j]).place() == views[j].place
                        && spots@[j].ok(domain, n_facts) && spots@[j].tn == reach@[j].tn,
                forall|j: int| 0 <= j < i ==> (#[trigger] own_keys@[j]).describes(views[j].place),
            decreases reach@.len() - i,
        {
            let node: &ReachNode = &reach[i];
            assert(views[i as int] == node@);
            assert(keys@[i as int].describes(views[i as int].place));
            spots.push(Spot { tn: Rc::clone(&node.tn), state: Rc::clone(&node.state) });
            own_keys.push(keys[i].duplicate());
            nodes.push(copy_node(node));
            i += 1;
        }
        let mut own_out_c: Vec<usize> = Vec::new();
        let mut k: usize = 0;
        while k < out_c.len()
            invariant
                k <= out_c@.len(),
                own_out_c@ == out_c@.take(k as int),
            decreases out_c@.len() - k,
        {
            own_out_c.push(out_c[k]);
            assert(out_c@.take(k + 1) =~= out_c@.take(k as int).push(out_c@[k as int]));
            k += 1;
        }
        assert(out_c@.take(k as int) =~= out_c@);
        let b: Builder = Builder { spots, keys: own_keys, nodes, out_c: own_out_c };
        proof {
            assert(b.views() =~= views);
            assert(b.places() =~= places_of(views));
            assert(b.ids() =~= ids_of(reach@));
        }
        b
    }

    /// Lets the node at `idx`, which is the first that waits for a method,
    /// follow the decomposition to the place at `to`.
    fn assign(
        &mut self,
        idx: usize,
        to: usize,
        Ghost(cx): Ghost<Setting>,
        Ghost(domain): Ghost<Rc<DomainTasks>>,
        Ghost(policy): Ghost<Policy>,
        Ghost(d): Ghost<(int, int)>,
    )
        requires
            old(self).ok(cx, domain, policy),
            old(self).out_c@.len() > 0,
            old(self).out_c@[0] == idx,
            to < old(self).places().len(),
            old(self).places()[to as int] == after_method(
                cx,
                old(self).places()[idx as int],
                d.0,
                d.1,
            ),
            decomposable(cx, old(self).places()[idx as int]).contains(d),
            old(self).nodes@.len() <= old(self).spots@.len() <= old(self).nodes@.len() + 1,
            old(self).spots@.len() > old(self).nodes@.len() ==> to == old(self).nodes@.len(),
            forall|i: int|
                0 < i < old(self).nodes@.len() ==> #[trigger] is_handed_on(
                    cx,
                    policy,
                    old(self).views(),
                    old(self).ids(),
                    i,
                ),
            old(self).spots@.len() > old(self).nodes@.len() ==> old(self).ids()[to as int]
                == crate::task_network::replaced_ids(
                old(self).ids()[idx as int],
                d.0,
                crate::progress::method_at(
                    cx.tasks,
                    old(self).places()[idx as int].net,
                    d.0,
                    d.1,
                ).decomposition.nodes@.len(),
            ),
        ensures
            final(self).ok(
                cx,
                domain,
                policy.insert(old(self).places()[idx as int], Choice::By(d.0, d.1)),
            ),
            final(self).all_entered(
                cx,
                policy.insert(old(self).places()[idx as int], Choice::By(d.0, d.1)),
            ),
            final(self).spots == old(self).spots,
            idx < old(self).nodes@.len(),
            final(self).nodes@.len() == old(self).nodes@.len(),
            final(self).views() == old(self).views().update(
                idx as int,
                (NodeView {
                    kind: NodeKind::Assigned,
                    successors: seq![(to, ONE)],
                    ..old(self).views()[idx as int]
                }),
            ),
    {
        let ghost before = self.views();
        let ghost places = self.places();
        let ghost out0 = self.out_c@;
        let ghost place = places[idx as int];
        let ghost next = policy.insert(place, Choice::By(d.0, d.1));
        proof {
            assert(out0.contains(out0[0]));
            assert(before[idx as int].kind == NodeKind::Compound);
            assert(node_ok(cx, policy, places, before[idx as int]));
            assert(self.nodes@[idx as int].tn == self.spots@[idx as int].tn);
            assert(before[idx as int].place == place);
            assert(is_open_node(cx, before[idx as int]));
        }
        let mut node: ReachNode = copy_node(&self.nodes[idx]);
        node.kind = NodeKind::Assigned;
        node.successors = vec![(to, ONE)];
        let ghost v = node@;
        self.nodes.set(idx, node);
        let first: usize = self.out_c.remove(0);
        proof {
            let own = NodeView {
                kind: NodeKind::Assigned,
                successors: seq![(to, ONE)],
                ..before[idx as int]
            };
            assert(v.successors =~= seq![(to, ONE)]);
            assert(v == own);
            assert(self.views() =~= before.update(idx as int, own));
            assert(self.places() == places);
            assert forall|i: int| 0 <= i < self.nodes@.len() implies node_ok(
                cx,
                next,
                self.places(),
                #[trigger] self.views()[i],
            ) by {
                assert(node_ok(cx, policy, places, before[i]));
                if i == idx {
                    assert(v.successors[0] == (to, ONE));
                    assert(are_bounds(cx, place, (v.prob_upper, before[i].cost_lower)));
                    assert(d == (d.0, d.1));
                    assert(is_assigned_node(cx, places, v, d.0, d.1));
                } else {
                    assert(self.nodes@[i].tn == self.spots@[i].tn);
                    assert(before[i].place == places[i]);
                    assert(places[i] != places[idx as int]);
                    lemma_node_ok_policy(cx, policy, next, places, before[i]);
                }
            }
            assert(self.out_c@ =~= out0.skip(1));
            assert(is_out_c(self.views(), self.out_c@)) by {
                assert forall|i: int, j: int| 0 <= i < j < self.out_c@.len() implies (
                #[trigger] self.out_c@[i]) < (#[trigger] self.out_c@[j]) by {
                    assert(self.out_c@[i] == out0[i + 1] && self.out_c@[j] == out0[j + 1]);
                    assert(crate::order::Ranked::precedes(out0[i + 1], out0[j + 1]));
                }
                assert forall|i: usize| #[trigger]
                    self.out_c@.contains(i) <==> i < self.views().len()
                        && self.views()[i as int].kind == NodeKind::Compound by {
                    if self.out_c@.contains(i) {
                        let k = choose|k: int| 0 <= k < self.out_c@.len() && self.out_c@[k] == i;
                        assert(out0[k + 1] == i);
                        assert(out0.contains(i));
                        assert(crate::order::Ranked::precedes(out0[0], out0[k + 1]));
                    }
                    if i < self.views().len() && self.views()[i as int].kind
                        == NodeKind::Compound {
                        assert(i != idx);
                        assert(before[i as int] == self.views()[i as int]);
                        assert(out0.contains(i));
                        let k = choose|k: int| 0 <= k < out0.len() && out0[k] == i;
                        assert(self.out_c@[k - 1] == i);
                    }
                }
            }
            let ids = self.ids();
            assert(ids =~= old(self).ids());
            assert forall|i: int| 0 < i < self.spots@.len() implies #[trigger] is_handed_on(
                cx,
                next,
                self.views(),
                ids,
                i,
            ) by {
                if i < before.len() {
                    assert(is_handed_on(cx, policy, before, ids, i));
                    let (j, k) = choose|j: int, k: int|
                        0 <= j < i && j < before.len() && 0 <= k < before[j].successors.len() && (
                        #[trigger] before[j].successors[k]).0 == i && ids[i] == next_ids(
                            cx,
                            policy,
                            before[j],
                            ids[j],
                        );
                    assert(j != idx);
                    assert(self.views()[j] == before[j]);
                    assert(self.nodes@[j].tn == self.spots@[j].tn);
                    assert(before[j].place == places[j]);
                    assert(places[j] != places[idx as int]);
                    assert(self.views()[j].successors[k].0 == i);
                } else {
                    assert(self.views()[idx as int].successors[0].0 == i);
                    assert(executable(cx, place).len() == 0);
                }
            }
        }
    }
}

/// The policy has methods for places of the graph only.
pub open spec fn is_within(policy: Policy, nodes: Seq<NodeView>) -> bool {
    forall|p: Place| #[trigger] policy.contains_key(p) ==> places_of(nodes).contains(p)
}

/// `after` is the graph `before` in which the node at `idx` follows the
/// decomposition `d`, with the nodes that this reaches behind the others.
pub open spec fn is_extension(
    cx: Setting,
    before: Seq<NodeView>,
    idx: int,
    d: (int, int),
    after: Seq<NodeView>,
) -> bool {
    &&& before.len() <= after.len()
    &&& forall|i: int|
        0 <= i < before.len() && i != idx ==> #[trigger] after[i] == before[i]
    &&& after[idx].kind == NodeKind::Assigned
    &&& after[idx].place == before[idx].place
    &&& after[idx].prob_upper == before[idx].prob_upper
    &&& after[idx].cost_lower == before[idx].cost_lower
    &&& after[idx].successors.len() == 1
    &&& leads_to(
        places_of(after),
        after[idx].successors[0],
        after_method(cx, before[idx].place, d.0, d.1),
        ONE,
    )
    &&& is_numbered(after, before.len() as int)
}

/// Extends the graph of a policy to that of the policy which also decomposes,
/// at the place of the node at `node_idx`, as the network `expansion_tn` says.
/// The known nodes are kept; only what is newly reached is explored.
pub(crate) fn compute_reach_incremental(
    parent_reach: &[ReachNode],
    parent_index_map: &Vec<CompoundSig>,
    parent_out_c: &[usize],
    node_idx: usize,
    expansion_tn: &Rc<HTN>,
    node_state: &Rc<HashSet<u32>>,
    relaxed: &RelaxedComposition,
    h_type: HeuristicType,
    mode: SearchMode,
    Ghost(cx): Ghost<Setting>,
    Ghost(domain): Ghost<Rc<DomainTasks>>,
    Ghost(policy): Ghost<Policy>,
    Ghost(start): Ghost<Place>,
    Ghost(d): Ghost<(int, int)>,
) -> (r: (Vec<ReachNode>, Vec<CompoundSig>, Vec<usize>))
    requires
        cx.tasks == *domain,
        cx.h_type == h_type,
        cx.mode == mode,
        relaxed.is_of(cx.tasks, cx.n_facts),
        crate::problem::actions_wf(cx.tasks, cx.n_facts),
        is_reach(cx, policy, start, crate::policy::views(parent_reach@)),
        is_within(policy, crate::policy::views(parent_reach@)),
        is_out_c(crate::policy::views(parent_reach@), parent_out_c@),
        keys_of(parent_index_map@, crate::policy::views(parent_reach@)),
        nodes_wf(parent_reach@, domain, cx.n_facts),
        are_ids(cx, policy, crate::policy::views(parent_reach@), ids_of(parent_reach@)),
        parent_out_c@.len() > 0,
        parent_out_c@[0] == node_idx,
        node_idx < parent_reach@.len(),
        crate::progress::network_wf(**expansion_tn),
        expansion_tn.domain == domain,
        forall|f: u32| #[trigger] node_state@.contains(f) ==> f < cx.n_facts,
        decomposable(cx, parent_reach@[node_idx as int]@.place).contains(d),
        crate::signature::place_of(expansion_tn@, node_state@) == after_method(
            cx,
            parent_reach@[node_idx as int]@.place,
            d.0,
            d.1,
        ),
        expansion_tn.nodes@ == crate::task_network::replaced_ids(
            parent_reach@[node_idx as int].tn.nodes@,
            d.0,
            crate::progress::method_at(
                cx.tasks,
                parent_reach@[node_idx as int].tn@,
                d.0,
                d.1,
            ).decomposition.nodes@.len(),
        ),
    ensures
        is_reach(
            cx,
            policy.insert(parent_reach@[node_idx as int]@.place, Choice::By(d.0, d.1)),
            start,
            crate::policy::views(r.0@),
        ),
        is_within(
            policy.insert(parent_reach@[node_idx as int]@.place, Choice::By(d.0, d.1)),
            crate::policy::views(r.0@),
        ),
        is_extension(
            cx,
            crate::policy::views(parent_reach@),
            node_idx as int,
            d,
            crate::policy::views(r.0@),
        ),
        is_out_c(crate::policy::views(r.0@), r.2@),
        keys_of(r.1@, crate::policy::views(r.0@)),
        nodes_wf(r.0@, domain, cx.n_facts),
        are_ids(
            cx,
            policy.insert(parent_reach@[node_idx as int]@.place, Choice::By(d.0, d.1)),
            crate::policy::views(r.0@),
            ids_of(r.0@),
        ),
        ids_of(r.0@).take(parent_reach@.len() as int) == ids_of(parent_reach@),
        are_found_ids(
            cx,
            policy.insert(parent_reach@[node_idx as int]@.place, Choice::By(d.0, d.1)),
            crate::policy::views(r.0@),
            ids_of(r.0@),
            parent_reach@.len() as int,
            r.0@.len() as int,
        ),
{
    let ghost before = crate::policy::views(parent_reach@);
    let ghost n = before.len();
    let ghost place = parent_reach@[node_idx as int]@.place;
    let ghost next = policy.insert(place, Choice::By(d.0, d.1));
    let ghost places0 = places_of(before);
    let mut b: Builder = Builder::from_graph(
        parent_reach,
        parent_index_map,
        parent_out_c,
        Ghost(domain),
        Ghost(cx.n_facts),
    );
    assert(places0[node_idx as int] == place);
    let ghost b0 = b;
    let ghost ids0 = ids_of(parent_reach@);
    let to: usize = b.get_or_insert(expansion_tn, node_state, Ghost(domain), Ghost(cx.n_facts));
    proof {
        assert(b.views() == before);
        assert(extends(b.places(), places0));
        assert(b.places()[node_idx as int] == place);
        assert forall|i: int| 0 <= i < b.nodes@.len() implies node_ok(
            cx,
            policy,
            b.places(),
            #[trigger] b.views()[i],
        ) by {
            assert(node_ok(cx, policy, places0, before[i]));
            lemma_node_ok_extends(cx, policy, places0, b.places(), before[i]);
        }
        assert forall|i: int| 0 <= i < b.nodes@.len() implies (#[trigger] b.nodes@[i]).tn
            == b.spots@[i].tn && b.nodes@[i].state == b.spots@[i].state by {
            assert(b.spots@[i] == b0.spots@[i]);
            assert(b0.nodes@[i].tn == b0.spots@[i].tn);
        }
        assert forall|i: int| 0 <= i < n implies #[trigger] b.ids()[i] == ids0[i] by {
            assert(b.spots@[i] == b0.spots@[i]);
            assert(b0.ids()[i] == ids0[i]);
        }
        assert forall|i: int| 0 < i < b.nodes@.len() implies #[trigger] is_handed_on(
            cx,
            policy,
            b.views(),
            b.ids(),
            i,
        ) by {
            lemma_handed_on_extends(cx, policy, before, b.views(), ids0, b.ids(), i);
        }
        assert(ids0[node_idx as int] == parent_reach@[node_idx as int].tn.nodes@);
    }
    b.assign(node_idx, to, Ghost(cx), Ghost(domain), Ghost(policy), Ghost(d));
    let ghost changed = b.views();
    let none: [Assignment; 0] = [];
    proof {
        lemma_edges_wf(cx, policy, start, parent_reach@, domain);
        assert forall|i: int| n <= i < b.spots@.len() implies #[trigger] is_first_to_hand_on(
            cx,
            next,
            changed,
            b.ids(),
            i,
        ) by {
            assert(is_handed_on(cx, next, changed, b.ids(), i));
            let (j, k) = choose|j: int, k: int|
                0 <= j < i && j < changed.len() && 0 <= k < changed[j].successors.len() && (
                #[trigger] changed[j].successors[k]).0 == i && b.ids()[i] == next_ids(
                    cx,
                    next,
                    changed[j],
                    b.ids()[j],
                );
            assert(no_edge_before(changed, j, i)) by {
                assert forall|x: int, y: int|
                    0 <= x < j && x < changed.len() && 0 <= y
                        < changed[x].successors.len() implies (
                #[trigger] changed[x].successors[y]).0 != i by {
                    if j != node_idx {
                        assert(changed[j] == before[j]);
                        assert(before[j].successors[k].0 < n);
                    }
                    assert(changed[x] == before[x]);
                    assert(before[x].successors[y].0 < n);
                }
            }
        }
        assert forall|i: int, k: int, m: int|
            0 <= i < changed.len() && 0 <= k < changed[i].successors.len() && n <= m
                < changed[i].successors[k].0 implies #[trigger] is_entered_before(
            changed,
            i,
            k,
            m,
        ) by {
            if i != node_idx {
                assert(changed[i] == before[i]);
                assert(before[i].successors[k].0 < n);
            }
        }
        assert forall|p: Place| next.contains_key(p) implies places0.contains(p) by {
            if p == place {
                assert(places0[node_idx as int] == p);
            }
        }
    }
    while b.nodes.len() < b.spots.len()
        invariant
            b.ok(cx, domain, next),
            b.all_entered(cx, next),
            n == places0.len(),
            n == ids0.len(),
            n <= b.spots@.len(),
            is_numbered(b.views(), n as int),
            are_found_ids(cx, next, b.views(), b.ids(), n as int, b.spots@.len() as int),
            forall|i: int| 0 <= i < n ==> #[trigger] b.ids()[i] == ids0[i],
            ids0[0] == cx.ids,
            n == changed.len(),
            n > 0,
            n <= b.nodes@.len(),
            b.views().take(n as int) == changed,
            extends(b.places(), places0),
            forall|p: Place| #[trigger] next.contains_key(p) ==> places0.contains(p),
            none@.len() == 0,
            relaxed.is_of(cx.tasks, cx.n_facts),
            crate::problem::actions_wf(cx.tasks, cx.n_facts),
            cx.h_type == h_type,
            cx.mode == mode,
        decreases usize::MAX - b.nodes@.len(),
    {
        let ghost b1 = b;
        let ghost idx = b.nodes@.len() as int;
        let ghost fresh = b.spots@[idx].place();
        proof {
            assert(b.spots@.len() == b.spots.len());
            assert(b.places()[idx] == fresh);
            if next.contains_key(fresh) {
                let j = choose|j: int| 0 <= j < places0.len() && places0[j] == fresh;
                assert(b.places()[j] == b.places()[idx]);
            }
            let listed = policy_of(cx.tasks, none@);
            assert(first_for(none@, fresh) == 0);
            assert(!listed.contains_key(fresh));
        }
        b.expand_next(
            relaxed,
            h_type,
            mode,
            &none,
            Ghost(cx),
            Ghost(domain),
            Ghost(next),
        );
        proof {
            assert forall|i: int| 0 <= i < places0.len() implies #[trigger] b.places()[i]
                == places0[i] by {
                assert(b.spots@[i] == b1.spots@[i]);
                assert(b1.places()[i] == places0[i]);
            }
            assert forall|i: int| 0 <= i < n implies #[trigger] b.ids()[i] == ids0[i] by {
                assert(b.spots@[i] == b1.spots@[i]);
                assert(b1.ids()[i] == ids0[i]);
            }
            assert(b.views().take(n as int) =~= changed) by {
                assert forall|i: int| 0 <= i < n implies b.views()[i] == changed[i] by {
                    assert(b.nodes@.take(b1.nodes@.len() as int)[i] == b1.nodes@[i]);
                    assert(b1.views().take(n as int)[i] == changed[i]);
                }
            }
        }
    }
    proof {
        assert(b.ids()[0] == ids0[0]);
        b.lemma_complete(cx, domain, next);
        assert(b.places()[0] == places0[0]);
        assert(ids_of(b.nodes@).take(n as int) =~= ids0) by {
            assert forall|i: int| 0 <= i < n implies ids_of(b.nodes@)[i] == ids0[i] by {
                assert(b.nodes@[i].tn == b.spots@[i].tn);
                assert(b.ids()[i] == ids0[i]);
            }
        }
        let after = b.views();
        assert(places_of(after) =~= b.places()) by {
            assert forall|i: int| 0 <= i < after.len() implies places_of(after)[i]
                == b.places()[i] by {
                assert(b.nodes@[i].tn == b.spots@[i].tn);
            }
        }
        assert forall|i: int| 0 <= i < n implies #[trigger] after[i] == changed[i] by {
            assert(after.take(n as int)[i] == changed[i]);
        }
        assert(after[node_idx as int] == changed[node_idx as int]);
        assert(is_extension(cx, before, node_idx as int, d, after)) by {
            assert(after[node_idx as int].successors[0] == (to, ONE));
            assert(node_ok(cx, next, b.places(), after[node_idx as int]));
        }
        assert forall|p: Place| #[trigger] next.contains_key(p) implies places_of(
            after,
        ).contains(p) by {
            assert(places0.contains(p));
            let j = choose|j: int| 0 <= j < places0.len() && places0[j] == p;
            assert(places_of(after)[j] == p);
        }
    }
    (b.nodes, b.keys, b.out_c)
}

/// The edges of the graph of a policy lead to its nodes and have probabilities.
pub proof fn lemma_edges_wf(
    cx: Setting,
    policy: Policy,
    start: Place,
    reach: Seq<ReachNode>,
    domain: Rc<DomainTasks>,
)
    requires
        cx.tasks == *domain,
        is_reach(cx, policy, start, crate::policy::views(reach)),
        nodes_wf(reach, domain, cx.n_facts),
        crate::problem::actions_wf(cx.tasks, cx.n_facts),
    ensures
        crate::policy::edges_wf(crate::policy::views(reach)),
        crate::policy::networks_wf(reach),
{
    let nodes = crate::policy::views(reach);
    assert forall|i: int, k: int|
        #![trigger nodes[i].successors[k]]
        0 <= i < nodes.len() && 0 <= k < nodes[i].successors.len() implies nodes[i].successors[k].0
        < nodes.len() && nodes[i].successors[k].1 <= ONE by {
        let n = nodes[i];
        assert(node_ok(cx, policy, places_of(nodes), n));
        if n.place.net.len() > 0 && executable(cx, n.place).len() > 0 {
            let e = executable(cx, n.place)[0];
            lemma_executions(cx.tasks, n.place.net, n.place.facts, n.place.net.len());
            assert(crate::progress::is_executable(cx.tasks, n.place.net, n.place.facts, e));
            assert(leads_to(
                places_of(nodes),
                n.successors[k],
                after_outcome(cx, n.place, e, k),
                outcome_prob(cx, n.place, e, k),
            ));
            assert(crate::progress::network_wf(*reach[i].tn));
            let t = reach[i].tn.tasks@[e];
            assert(t < cx.tasks.n_tasks());
            assert(*cx.tasks.tasks@[t as int] is Primitive);
            let action = crate::progress::action_at(cx.tasks, n.place.net, e);
            assert(crate::problem::action_wf(action, cx.n_facts));
            if k < action.probabilities@.len() {
                assert(action.probabilities@[k] <= ONE);
            }
        }
    }
    assert forall|i: int| 0 <= i < reach.len() implies (#[trigger] reach[i]).tn.wf() by {
        assert(crate::progress::network_wf(*reach[i].tn));
    }
}

} // verus!

//! Partial policies: the nodes that they reach, and what they are worth.

use std::cmp::Ordering;
use std::collections::HashSet;
use std::rc::Rc;
use vstd::multiset::Multiset;
use vstd::prelude::*;

use crate::probability::{scale, ONE};
use crate::signature::{make_key, CompoundSig, Place};
use crate::task_network::HTN;

verus! {

/// Secondary ordering applied when two partial policies have equal f-value.
#[derive(Clone, Copy, Debug, PartialEq, Eq, Structural)]
pub enum TiebreakerKind {
    /// No secondary criterion: the policy that came first goes first.
    NoTiebreak,
    /// Prefer more assignments.
    PolicySize,
    /// Prefer fewer unresolved compound nodes.
    ClosureFirst,
    /// Prefer more assignments first; break further ties by fewer unresolved nodes.
    Combined,
}

/// What the search is for.
#[derive(Clone, Copy, Debug, PartialEq, Eq, Structural)]
pub enum SearchMode {
    /// The greatest probability of success.
    MaxProb,
    /// The fewest assignments with certain success.
    MinCost,
}

/// Classification of a node in the reach graph.
#[derive(Clone, Copy, Debug, PartialEq, Eq, Structural)]
pub enum NodeKind {
    /// Empty task network: the goal is achieved.
    Goal,
    /// No applicable expansion.
    Dead,
    /// Compound task node without an assigned method.
    Compound,
    /// Compound task node with an assigned method.
    Assigned,
    /// Primitive action step.
    Primitive,
}

/// One node in the reach graph.
pub struct ReachNode {
    pub tn: Rc<HTN>,
    pub state: Rc<HashSet<u32>>,
    pub kind: NodeKind,
    /// An upper bound on the probability of success from this node.
    pub prob_upper: u64,
    /// A lower bound on the assignments from this node on; `None` is infinite.
    pub cost_lower: Option<u32>,
    /// Outgoing edges: the position of the successor and the edge's probability.
    pub successors: Vec<(usize, u64)>,
}

/// What a node says.
#[verifier::ext_equal]
pub struct NodeView {
    pub place: Place,
    pub kind: NodeKind,
    pub prob_upper: u64,
    pub cost_lower: Option<u32>,
    pub successors: Seq<(usize, u64)>,
}

/// The view leaves out the identifiers of the network; `crate::reach::ids_of`
/// has those.
impl View for ReachNode {
    type V = NodeView;

    open spec fn view(&self) -> NodeView {
        NodeView {
            place: crate::signature::place_of(self.tn@, self.state@),
            kind: self.kind,
            prob_upper: self.prob_upper,
            cost_lower: self.cost_lower,
            successors: self.successors@,
        }
    }
}

/// What the nodes say.
pub open spec fn views(reach: Seq<ReachNode>) -> Seq<NodeView> {
    reach.map_values(|n: ReachNode| n@)
}

/// The edges lead to nodes of the graph and have probabilities.
pub open spec fn edges_wf(nodes: Seq<NodeView>) -> bool {
    forall|i: int, k: int|
        #![trigger nodes[i].successors[k]]
        0 <= i < nodes.len() && 0 <= k < nodes[i].successors.len()
            ==> nodes[i].successors[k].0 < nodes.len() && nodes[i].successors[k].1 <= ONE
}

/// The value of the node is fixed.
pub open spec fn is_pinned(node: NodeView) -> bool {
    node.kind == NodeKind::Goal || node.kind == NodeKind::Dead || node.kind == NodeKind::Compound
}

/// The value of a node before the first sweep: the fixed value, or 0.
pub open spec fn start_value(node: NodeView) -> u64 {
    match node.kind {
        NodeKind::Goal => ONE,
        NodeKind::Compound => node.prob_upper,
        _ => 0,
    }
}

/// The values of all nodes before the first sweep.
pub open spec fn start_values(nodes: Seq<NodeView>) -> Seq<u64> {
    nodes.map_values(|n: NodeView| start_value(n))
}

/// The number, as far as it can be held.
pub open spec fn capped(x: int) -> u64 {
    if x <= u64::MAX {
        x as u64
    } else {
        u64::MAX
    }
}

/// The values of the first `k` successors, weighted by their probabilities.
pub open spec fn weighted(successors: Seq<(usize, u64)>, v: Seq<u64>, k: nat) -> u64
    decreases k,
{
    if k == 0 {
        0
    } else {
        let (j, p) = successors[k - 1];
        capped(
            weighted(successors, v, (k - 1) as nat) + crate::probability::scaled(v[j as int], p),
        )
    }
}

/// What the node is worth by the values of its successors.
pub open spec fn backed_up(node: NodeView, v: Seq<u64>) -> u64 {
    weighted(node.successors, v, node.successors.len())
}

/// The values once the first `i` nodes are brought up to date in turn.
pub open spec fn swept(nodes: Seq<NodeView>, v: Seq<u64>, i: nat) -> Seq<u64>
    decreases i,
{
    if i == 0 {
        v
    } else {
        let w = swept(nodes, v, (i - 1) as nat);
        if is_pinned(nodes[i - 1]) {
            w
        } else {
            w.update(i - 1, backed_up(nodes[i - 1], w))
        }
    }
}

/// The difference of two values.
pub open spec fn distance(x: u64, y: u64) -> u64 {
    if x <= y {
        (y - x) as u64
    } else {
        (x - y) as u64
    }
}

/// The greatest change of a value while the first `i` nodes are brought up to date.
pub open spec fn greatest_change(nodes: Seq<NodeView>, v: Seq<u64>, i: nat) -> u64
    decreases i,
{
    if i == 0 {
        0
    } else {
        let w = swept(nodes, v, (i - 1) as nat);
        let rest = greatest_change(nodes, v, (i - 1) as nat);
        if is_pinned(nodes[i - 1]) || distance(w[i - 1], backed_up(nodes[i - 1], w)) <= rest {
            rest
        } else {
            distance(w[i - 1], backed_up(nodes[i - 1], w))
        }
    }
}

/// A sweep that changes no value by this much is the last one: a
/// millionth of a millionth.
pub const EPSILON: u64 = 1_000_000;

/// The values after `k` sweeps.
pub open spec fn after(nodes: Seq<NodeView>, k: nat) -> Seq<u64>
    decreases k,
{
    if k == 0 {
        start_values(nodes)
    } else {
        swept(nodes, after(nodes, (k - 1) as nat), nodes.len())
    }
}

/// The sweep that follows on `k` sweeps changes no value by as much as `EPSILON`.
pub open spec fn is_calm(nodes: Seq<NodeView>, k: nat) -> bool {
    greatest_change(nodes, after(nodes, k), nodes.len()) < EPSILON
}

/// The sweep that follows on `k` sweeps is the first one to change no value by
/// as much as `EPSILON`.
pub open spec fn is_last_sweep(nodes: Seq<NodeView>, k: nat) -> bool {
    is_calm(nodes, k) && forall|j: nat| j < k ==> !#[trigger] is_calm(nodes, j)
}

/// The values after the last sweep.
pub open spec fn settled(nodes: Seq<NodeView>) -> Seq<u64> {
    after(nodes, (choose|k: nat| is_last_sweep(nodes, k)) + 1)
}

/// What the graph is worth: the settled value of its first node.
pub open spec fn vi_value(nodes: Seq<NodeView>) -> u64 {
    if nodes.len() == 0 {
        ONE
    } else {
        settled(nodes)[0]
    }
}

/// What the node is worth by the values of its successors.
fn back_up(node: &ReachNode, v: &Vec<u64>) -> (r: u64)
    requires
        forall|k: int|
            0 <= k < node.successors@.len() ==> (#[trigger] node.successors@[k]).0 < v@.len()
                && node.successors@[k].1 <= ONE,
    ensures
        r == backed_up(node@, v@),
{
    let mut sum: u64 = 0;
    let mut k: usize = 0;
    while k < node.successors.len()
        invariant
            k <= node.successors@.len(),
            forall|k: int|
                0 <= k < node.successors@.len() ==> (#[trigger] node.successors@[k]).0 < v@.len()
                    && node.successors@[k].1 <= ONE,
            sum == weighted(node.successors@, v@, k as nat),
        decreases node.successors@.len() - k,
    {
        let (j, p): (usize, u64) = node.successors[k];
        let term: u64 = scale(v[j], p);
        sum = sum.saturating_add(term);
        k += 1;
    }
    sum
}

/// Brings the values of all nodes up to date in turn. Gives the greatest change.
fn sweep(reach: &[ReachNode], v: &mut Vec<u64>) -> (change: u64)
    requires
        old(v)@.len() == reach@.len(),
        edges_wf(views(reach@)),
    ensures
        final(v)@ == swept(views(reach@), old(v)@, reach@.len()),
        final(v)@.len() == old(v)@.len(),
        change == greatest_change(views(reach@), old(v)@, reach@.len()),
{
    let ghost nodes = views(reach@);
    let ghost start = v@;
    let mut change: u64 = 0;
    let mut i: usize = 0;
    while i < reach.len()
        invariant
            i <= reach@.len(),
            v@.len() == reach@.len(),
            nodes == views(reach@),
            edges_wf(nodes),
            v@ == swept(nodes, start, i as nat),
            change == greatest_change(nodes, start, i as nat),
        decreases reach@.len() - i,
    {
        let node: &ReachNode = &reach[i];
        assert(nodes[i as int] == node@);
        match node.kind {
            NodeKind::Goal => {},
            NodeKind::Dead => {},
            NodeKind::Compound => {},
            _ => {
                proof {
                    assert forall|k: int| 0 <= k < node.successors@.len() implies (
                    #[trigger] node.successors@[k]).0 < v@.len() && node.successors@[k].1 <= ONE by {
                        assert(nodes[i as int].successors[k].0 < nodes.len());
                    }
                }
                let new_v: u64 = back_up(node, v);
                let old_v: u64 = v[i];
                let diff: u64 = if old_v <= new_v {
                    new_v - old_v
                } else {
                    old_v - new_v
                };
                if diff > change {
                    change = diff;
                }
                v.set(i, new_v);
            },
        }
        i += 1;
    }
    change
}

/// A single method assignment recorded in the policy.
pub struct PolicyAssignment {
    pub tn_snapshot: Rc<HTN>,
    pub state: Rc<HashSet<u32>>,
    pub task_name: String,
    pub method_name: String,
}

/// Persistent (shared) linked list of policy assignments, the latest first.
pub struct PolicyLink {
    pub parent: Option<Rc<PolicyLink>>,
    pub assignment: PolicyAssignment,
}

/// One node in the open list: a partial policy.
pub struct PartialPolicyState {
    /// The nodes that the policy reaches, the initial one first.
    pub reach: Vec<ReachNode>,
    /// The positions of the compound nodes without an assigned method.
    pub out_c: Vec<usize>,
    /// The assignments made so far.
    pub policy_tail: Option<Rc<PolicyLink>>,
    /// The bound that orders the open list: units of `1 / ONE` of probability,
    /// or the negated number of assignments.
    pub f_value: i128,
    /// The number of assignments made so far.
    pub policy_size: usize,
    /// Which secondary criterion to use when f-values tie.
    pub tiebreaker: TiebreakerKind,
}

impl PartialPolicyState {
    /// Whether every compound node has a method.
    pub fn is_closed(&self) -> (r: bool)
        ensures
            r == (self.out_c@.len() == 0),
    {
        self.out_c.len() == 0
    }

    /// What the graph is worth: the value of its first node after sweeping the
    /// nodes without a fixed value, starting from 0, until a sweep changes no
    /// value by as much as `EPSILON`.
    pub fn compute_f_by_vi(reach: &[ReachNode]) -> (f: u64)
        requires
            edges_wf(views(reach@)),
        ensures
            f == vi_value(views(reach@)),
            reach@.len() == 0 ==> f == ONE,
            reach@.len() > 0 ==> exists|k: nat| #[trigger]
                is_last_sweep(views(reach@), k) && f == after(views(reach@), k + 1)[0],
    {
        let n: usize = reach.len();
        if n == 0 {
            return ONE;
        }
        let ghost nodes = views(reach@);
        let mut v: Vec<u64> = Vec::new();
        let mut i: usize = 0;
        while i < n
            invariant
                i <= n,
                n == reach@.len(),
                nodes == views(reach@),
                v@ == start_values(nodes).take(i as int),
            decreases n - i,
        {
            let node: &ReachNode = &reach[i];
            assert(nodes[i as int] == node@);
            let value: u64 = match node.kind {
                NodeKind::Goal => ONE,
                NodeKind::Compound => node.prob_upper,
                _ => 0,
            };
            assert(start_values(nodes).take(i + 1) =~= start_values(nodes).take(i as int).push(
                start_value(nodes[i as int]),
            ));
            v.push(value);
            i += 1;
        }
        assert(start_values(nodes).take(i as int) =~= start_values(nodes));
        let mut change: u64 = EPSILON;
        let ghost mut k: nat = 0;
        proof {
            crate::policy_laws::lemma_start_is_lower(nodes);
        }
        while change >= EPSILON
            invariant
                n == reach@.len(),
                n > 0,
                nodes == views(reach@),
                edges_wf(nodes),
                v@.len() == n,
                v@ == after(nodes, k),
                crate::policy_laws::is_lower(nodes, v@),
                change >= EPSILON ==> forall|j: nat| j < k ==> !#[trigger] is_calm(nodes, j),
                change < EPSILON ==> k > 0 && is_last_sweep(nodes, (k - 1) as nat),
            decreases crate::probability::slack(v@) + if change >= EPSILON {
                1nat
            } else {
                0nat
            },
        {
            proof {
                crate::policy_laws::lemma_swept_rises(nodes, v@, nodes.len());
                crate::policy_laws::lemma_swept_lacks_less(nodes, v@, nodes.len());
            }
            change = sweep(reach, &mut v);
            proof {
                assert(change < EPSILON <==> is_calm(nodes, k));
                k = k + 1;
            }
        }
        proof {
            let last = choose|j: nat| is_last_sweep(nodes, j);
            assert(is_last_sweep(nodes, (k - 1) as nat));
            assert(last == k - 1) by {
                if last < k - 1 {
                    assert(is_calm(nodes, last));
                }
            }
        }
        v[0]
    }
}

/// Where a policy stands among others, by the f-value, and by what the
/// tiebreaker looks at where those tie. The greatest goes first.
pub open spec fn rank(
    tiebreaker: TiebreakerKind,
    f_value: int,
    policy_size: int,
    open_nodes: int,
) -> (int, int, int) {
    match tiebreaker {
        TiebreakerKind::NoTiebreak => (f_value, 0, 0),
        TiebreakerKind::PolicySize => (f_value, policy_size, 0),
        TiebreakerKind::ClosureFirst => (f_value, -open_nodes, 0),
        TiebreakerKind::Combined => (f_value, policy_size, -open_nodes),
    }
}

/// The one triple comes before the other in the order of words.
pub open spec fn is_lower(a: (int, int, int), b: (int, int, int)) -> bool {
    a.0 < b.0 || (a.0 == b.0 && (a.1 < b.1 || (a.1 == b.1 && a.2 < b.2)))
}

/// How two sizes compare.
fn compare_sizes(a: usize, b: usize) -> (r: Ordering)
    ensures
        r == (if a < b {
            Ordering::Less
        } else if a > b {
            Ordering::Greater
        } else {
            Ordering::Equal
        }),
{
    if a < b {
        Ordering::Less
    } else if a > b {
        Ordering::Greater
    } else {
        Ordering::Equal
    }
}

impl PartialPolicyState {
    /// Where this policy stands, by the given tiebreaker.
    pub open spec fn rank_by(&self, tiebreaker: TiebreakerKind) -> (int, int, int) {
        rank(
            tiebreaker,
            self.f_value as int,
            self.policy_size as int,
            self.out_c@.len() as int,
        )
    }

    /// Whether this policy goes after the other, before it, or neither.
    pub fn priority(&self, other: &PartialPolicyState) -> (r: Ordering)
        ensures
            r == Ordering::Less <==> is_lower(
                self.rank_by(self.tiebreaker),
                other.rank_by(self.tiebreaker),
            ),
            r == Ordering::Greater <==> is_lower(
                other.rank_by(self.tiebreaker),
                self.rank_by(self.tiebreaker),
            ),
            r == Ordering::Equal <==> self.rank_by(self.tiebreaker) == other.rank_by(
                self.tiebreaker,
            ),
            r == Ordering::Less <==> self.f_value < other.f_value || (self.f_value == other.f_value
                && match self.tiebreaker {
                TiebreakerKind::NoTiebreak => false,
                TiebreakerKind::PolicySize => self.policy_size < other.policy_size,
                TiebreakerKind::ClosureFirst => self.out_c@.len() > other.out_c@.len(),
                TiebreakerKind::Combined => self.policy_size < other.policy_size || (
                self.policy_size == other.policy_size && self.out_c@.len() > other.out_c@.len()),
            }),
            r == Ordering::Equal <==> self.f_value == other.f_value && match self.tiebreaker {
                TiebreakerKind::NoTiebreak => true,
                TiebreakerKind::PolicySize => self.policy_size == other.policy_size,
                TiebreakerKind::ClosureFirst => self.out_c@.len() == other.out_c@.len(),
                TiebreakerKind::Combined => self.policy_size == other.policy_size
                    && self.out_c@.len() == other.out_c@.len(),
            },
    {
        if self.f_value < other.f_value {
            return Ordering::Less;
        }
        if self.f_value > other.f_value {
            return Ordering::Greater;
        }
        match self.tiebreaker {
            TiebreakerKind::NoTiebreak => Ordering::Equal,
            TiebreakerKind::PolicySize => compare_sizes(self.policy_size, other.policy_size),
            TiebreakerKind::ClosureFirst => compare_sizes(other.out_c.len(), self.out_c.len()),
            TiebreakerKind::Combined => {
                match compare_sizes(self.policy_size, other.policy_size) {
                    Ordering::Less => Ordering::Less,
                    Ordering::Greater => Ordering::Greater,
                    Ordering::Equal => compare_sizes(other.out_c.len(), self.out_c.len()),
                }
            },
        }
    }
}

/// How the ranks compare.
pub open spec fn compared(a: (int, int, int), b: (int, int, int)) -> Ordering {
    if is_lower(a, b) {
        Ordering::Less
    } else if is_lower(b, a) {
        Ordering::Greater
    } else {
        Ordering::Equal
    }
}

/// Two policies are equal where neither goes before the other.
impl PartialEq for PartialPolicyState {
    fn eq(&self, other: &PartialPolicyState) -> (r: bool) {
        match self.priority(other) {
            Ordering::Equal => true,
            _ => false,
        }
    }
}

impl vstd::std_specs::cmp::PartialEqSpecImpl for PartialPolicyState {
    open spec fn obeys_eq_spec() -> bool {
        true
    }

    open spec fn eq_spec(&self, other: &PartialPolicyState) -> bool {
        self.rank_by(self.tiebreaker) == other.rank_by(self.tiebreaker)
    }
}

impl PartialOrd for PartialPolicyState {
    fn partial_cmp(&self, other: &PartialPolicyState) -> (r: Option<Ordering>) {
        Some(self.priority(other))
    }
}

impl vstd::std_specs::cmp::PartialOrdSpecImpl for PartialPolicyState {
    open spec fn obeys_partial_cmp_spec() -> bool {
        true
    }

    open spec fn partial_cmp_spec(&self, other: &PartialPolicyState) -> Option<Ordering> {
        Some(compared(self.rank_by(self.tiebreaker), other.rank_by(self.tiebreaker)))
    }
}

/// The places of the compound nodes without a method, with how often they occur.
pub open spec fn frontier(nodes: Seq<NodeView>) -> Multiset<Place>
    decreases nodes.len(),
{
    if nodes.len() == 0 {
        Multiset::empty()
    } else {
        let rest = frontier(nodes.drop_last());
        if nodes.last().kind == NodeKind::Compound {
            rest.insert(nodes.last().place)
        } else {
            rest
        }
    }
}

/// Deduplication key for a partial policy: its f-value and its unresolved
/// compound nodes.
pub struct ReachSig {
    pub f_value_bits: i128,
    /// The descriptions of the unresolved nodes, in their order.
    pub compounds: Vec<CompoundSig>,
}

/// No description comes before an earlier one.
pub open spec fn is_sorted(compounds: Seq<CompoundSig>) -> bool {
    forall|x: int, y: int|
        0 <= x < y < compounds.len() ==> !(#[trigger] compounds[y]).goes_before(
            #[trigger] compounds[x],
        )
}

/// The descriptions are those of the places, one each.
pub open spec fn are_described(compounds: Seq<CompoundSig>, places: Seq<Place>) -> bool {
    &&& compounds.len() == places.len()
    &&& forall|k: int|
        0 <= k < places.len() ==> (#[trigger] compounds[k]).describes(places[k])
}

/// The descriptions are those of the unresolved nodes.
pub open spec fn lists_frontier(compounds: Seq<CompoundSig>, nodes: Seq<NodeView>) -> bool {
    exists|places: Seq<Place>| #[trigger]
        are_described(compounds, places) && places.to_multiset() == frontier(nodes)
}

impl ReachSig {
    /// The key describes a graph with the given f-value.
    pub open spec fn describes(&self, nodes: Seq<NodeView>, f: int) -> bool {
        &&& self.f_value_bits == f
        &&& is_sorted(self.compounds@)
        &&& lists_frontier(self.compounds@, nodes)
    }

    /// The two keys are equal: their descriptions are, one by one.
    pub open spec fn equals(&self, other: ReachSig) -> bool {
        &&& self.f_value_bits == other.f_value_bits
        &&& self.compounds@.len() == other.compounds@.len()
        &&& forall|k: int|
            0 <= k < self.compounds@.len() ==> (#[trigger] self.compounds@[k]).equals(
                other.compounds@[k],
            )
    }

    /// Keys are equal exactly where the policies have the same f-value and the
    /// same unresolved nodes.
    pub proof fn lemma_canonical(
        &self,
        other: ReachSig,
        nodes1: Seq<NodeView>,
        nodes2: Seq<NodeView>,
    )
        requires
            self.describes(nodes1, self.f_value_bits as int),
            other.describes(nodes2, other.f_value_bits as int),
            nodes_bounded(nodes1),
            nodes_bounded(nodes2),
        ensures
            self.equals(other) <==> self.f_value_bits == other.f_value_bits && frontier(nodes1)
                == frontier(nodes2),
    {
        broadcast use vstd::seq_lib::group_to_multiset_ensures;

        let p = choose|places: Seq<Place>| #[trigger]
            are_described(self.compounds@, places) && places.to_multiset() == frontier(nodes1);
        let q = choose|places: Seq<Place>| #[trigger]
            are_described(other.compounds@, places) && places.to_multiset() == frontier(nodes2);
        assert forall|k: int| 0 <= k < p.len() implies crate::signature::is_bounded(
            (#[trigger] p[k]).net,
        ) by {
            assert(p.contains(p[k]));
            assert(p.to_multiset().count(p[k]) > 0);
            lemma_frontier_bounded(nodes1, p[k]);
        }
        assert forall|k: int| 0 <= k < q.len() implies crate::signature::is_bounded(
            (#[trigger] q[k]).net,
        ) by {
            assert(q.contains(q[k]));
            assert(q.to_multiset().count(q[k]) > 0);
            lemma_frontier_bounded(nodes2, q[k]);
        }
        if self.equals(other) {
            assert forall|k: int| 0 <= k < p.len() implies #[trigger] p[k] == q[k] by {
                assert(self.compounds@[k].equals(other.compounds@[k]));
                assert(self.compounds@[k].describes(p[k]));
                assert(other.compounds@[k].describes(q[k]));
                assert(crate::signature::is_bounded(q[k].net));
                self.compounds@[k].lemma_canonical(other.compounds@[k], p[k], q[k]);
            }
            assert(p =~= q);
        }
        if frontier(nodes1) == frontier(nodes2) {
            lemma_sorted_unique(self.compounds@, other.compounds@, p, q);
            assert forall|k: int|
                0 <= k < self.compounds@.len() implies (#[trigger] self.compounds@[k]).equals(
                other.compounds@[k],
            ) by {
                assert(other.compounds@[k].describes(q[k]));
                assert(crate::signature::is_bounded(p[k].net));
                self.compounds@[k].lemma_canonical(other.compounds@[k], p[k], q[k]);
            }
        }
    }

    /// Whether the two keys are equal.
    pub fn same(&self, other: &ReachSig) -> (r: bool)
        ensures
            r == self.equals(*other),
    {
        if self.f_value_bits != other.f_value_bits || self.compounds.len()
            != other.compounds.len() {
            return false;
        }
        let mut k: usize = 0;
        while k < self.compounds.len()
            invariant
                k <= self.compounds@.len(),
                self.compounds@.len() == other.compounds@.len(),
                forall|x: int|
                    0 <= x < k ==> (#[trigger] self.compounds@[x]).equals(other.compounds@[x]),
            decreases self.compounds@.len() - k,
        {
            if !self.compounds[k].same(&other.compounds[k]) {
                assert(!self.compounds@[k as int].equals(other.compounds@[k as int]));
                return false;
            }
            k += 1;
        }
        true
    }
}

/// Sorted descriptions of the same places, each as often, are those of the same
/// list.
proof fn lemma_sorted_unique(
    a: Seq<CompoundSig>,
    b: Seq<CompoundSig>,
    p: Seq<Place>,
    q: Seq<Place>,
)
    requires
        is_sorted(a),
        is_sorted(b),
        are_described(a, p),
        are_described(b, q),
        p.to_multiset() == q.to_multiset(),
        forall|k: int|
            0 <= k < p.len() ==> crate::signature::is_bounded((#[trigger] p[k]).net),
        forall|k: int|
            0 <= k < q.len() ==> crate::signature::is_bounded((#[trigger] q[k]).net),
    ensures
        p == q,
    decreases p.len(),
{
    broadcast use vstd::seq_lib::group_to_multiset_ensures;

    assert(p.len() == p.to_multiset().len());
    assert(q.len() == q.to_multiset().len());
    if p.len() == 0 {
        assert(p =~= q);
    } else {
        assert(p.contains(p[0]));
        assert(q.to_multiset().count(p[0]) > 0);
        assert(q.contains(p[0]));
        assert(q.contains(q[0]));
        assert(p.to_multiset().count(q[0]) > 0);
        assert(p.contains(q[0]));
        let j = choose|j: int| 0 <= j < q.len() && q[j] == p[0];
        let i = choose|i: int| 0 <= i < p.len() && p[i] == q[0];
        assert(a[0].describes(p[0]) && a[i].describes(p[i]));
        assert(b[0].describes(q[0]) && b[j].describes(q[j]));
        a[0].lemma_canonical(b[j], p[0], q[j]);
        a[i].lemma_canonical(b[0], p[i], q[0]);
        a[0].lemma_equals_before(b[j], b[0]);
        a[i].lemma_equals_before(b[0], a[0]);
        a[0].lemma_total_order(b[0], a[0]);
        b[0].lemma_total_order(a[0], b[0]);
        assert(a[0].equals(b[0])) by {
            if i > 0 {
                assert(!a[i].goes_before(a[0]));
            }
            if j > 0 {
                assert(!b[j].goes_before(b[0]));
            }
        }
        a[0].lemma_canonical(b[0], p[0], q[0]);
        let (a1, b1) = (a.drop_first(), b.drop_first());
        let (p1, q1) = (p.drop_first(), q.drop_first());
        assert(p.remove(0) =~= p1);
        assert(q.remove(0) =~= q1);
        assert(p1.to_multiset() == p.to_multiset().remove(p[0]));
        assert(q1.to_multiset() == q.to_multiset().remove(q[0]));
        assert(is_sorted(a1)) by {
            assert forall|x: int, y: int| 0 <= x < y < a1.len() implies !(
            #[trigger] a1[y]).goes_before(#[trigger] a1[x]) by {
                assert(!a[y + 1].goes_before(a[x + 1]));
            }
        }
        assert(is_sorted(b1)) by {
            assert forall|x: int, y: int| 0 <= x < y < b1.len() implies !(
            #[trigger] b1[y]).goes_before(#[trigger] b1[x]) by {
                assert(!b[y + 1].goes_before(b[x + 1]));
            }
        }
        assert forall|k: int| 0 <= k < p1.len() implies (#[trigger] a1[k]).describes(p1[k]) by {
            assert(a[k + 1].describes(p[k + 1]));
        }
        assert forall|k: int| 0 <= k < q1.len() implies (#[trigger] b1[k]).describes(q1[k]) by {
            assert(b[k + 1].describes(q[k + 1]));
        }
        assert forall|k: int| 0 <= k < p1.len() implies crate::signature::is_bounded(
            (#[trigger] p1[k]).net,
        ) by {
            assert(p1[k] == p[k + 1]);
        }
        assert forall|k: int| 0 <= k < q1.len() implies crate::signature::is_bounded(
            (#[trigger] q1[k]).net,
        ) by {
            assert(q1[k] == q[k + 1]);
        }
        lemma_sorted_unique(a1, b1, p1, q1);
        assert(p =~= seq![p[0]] + p1);
        assert(q =~= seq![q[0]] + q1);
    }
}

/// The networks of the nodes order their own nodes only.
pub open spec fn nodes_bounded(nodes: Seq<NodeView>) -> bool {
    forall|i: int|
        0 <= i < nodes.len() ==> crate::signature::is_bounded((#[trigger] nodes[i]).place.net)
}

proof fn lemma_frontier_bounded(nodes: Seq<NodeView>, p: Place)
    requires
        nodes_bounded(nodes),
        frontier(nodes).count(p) > 0,
    ensures
        crate::signature::is_bounded(p.net),
    decreases nodes.len(),
{
    if nodes.len() > 0 {
        let rest = nodes.drop_last();
        assert(crate::signature::is_bounded(nodes[nodes.len() - 1].place.net));
        if frontier(rest).count(p) > 0 {
            assert forall|i: int| 0 <= i < rest.len() implies crate::signature::is_bounded(
                (#[trigger] rest[i]).place.net,
            ) by {
                assert(crate::signature::is_bounded(nodes[i].place.net));
            }
            lemma_frontier_bounded(rest, p);
        }
    }
}

/// The networks of the nodes are well-formed.
pub open spec fn networks_wf(reach: Seq<ReachNode>) -> bool {
    forall|i: int| 0 <= i < reach.len() ==> (#[trigger] reach[i]).tn.wf()
}

/// Well-formed networks order their own nodes only.
pub proof fn lemma_nodes_bounded(reach: Seq<ReachNode>)
    requires
        networks_wf(reach),
    ensures
        nodes_bounded(views(reach)),
{
    assert forall|i: int| 0 <= i < reach.len() implies crate::signature::is_bounded(
        (#[trigger] views(reach)[i]).place.net,
    ) by {
        assert(reach[i].tn.wf());
        crate::signature::lemma_bounded(&*reach[i].tn);
    }
}

/// Puts the description in its place in the sorted list.
fn insert_sorted(
    compounds: &mut Vec<CompoundSig>,
    sig: CompoundSig,
    Ghost(places): Ghost<Seq<Place>>,
    Ghost(place): Ghost<Place>,
) -> (more: Ghost<Seq<Place>>)
    requires
        is_sorted(old(compounds)@),
        are_described(old(compounds)@, places),
        sig.describes(place),
    ensures
        is_sorted(final(compounds)@),
        are_described(final(compounds)@, more@),
        more@.to_multiset() == places.to_multiset().insert(place),
{
    let ghost before = compounds@;
    let ghost added = sig;
    let mut pos: usize = 0;
    while pos < compounds.len() && !sig.is_before(&compounds[pos])
        invariant
            compounds@ == before,
            pos <= compounds@.len(),
            forall|x: int| 0 <= x < pos ==> !sig.goes_before(#[trigger] compounds@[x]),
        decreases compounds@.len() - pos,
    {
        pos += 1;
    }
    compounds.insert(pos, sig);
    let ghost more = places.insert(pos as int, place);
    proof {
        let after = compounds@;
        broadcast use vstd::seq_lib::group_to_multiset_ensures;

        assert forall|x: int, y: int| 0 <= x < y < after.len() implies !(
        #[trigger] after[y]).goes_before(#[trigger] after[x]) by {
            let ox = if x < pos {
                x
            } else {
                x - 1
            };
            let oy = if y < pos {
                y
            } else {
                y - 1
            };
            if x == pos {
                let first = before[pos as int];
                assert(added.goes_before(first));
                assert(after[y] == before[oy]);
                if oy > pos {
                    assert(!before[oy].goes_before(first));
                }
                before[oy].lemma_total_order(added, first);
                first.lemma_total_order(first, first);
            } else if y == pos {
                assert(after[x] == before[x]);
            } else {
                assert(after[x] == before[ox] && after[y] == before[oy]);
            }
        }
        assert forall|k: int| 0 <= k < more.len() implies (#[trigger] after[k]).describes(
            more[k],
        ) by {
            if k < pos {
                assert(before[k].describes(places[k]));
            } else if k > pos {
                assert(before[k - 1].describes(places[k - 1]));
            }
        }
    }
    Ghost(more)
}

/// The deduplication key of a graph with the given f-value.
pub fn compute_reach_sig(reach: &[ReachNode], f: i128) -> (sig: ReachSig)
    requires
        networks_wf(reach@),
    ensures
        sig.describes(views(reach@), f as int),
{
    let ghost nodes = views(reach@);
    let mut compounds: Vec<CompoundSig> = Vec::new();
    let ghost mut places: Seq<Place> = Seq::empty();
    proof {
        broadcast use vstd::seq_lib::group_to_multiset_ensures;

        assert(places.to_multiset() =~= Multiset::empty());
        assert(nodes.take(0) =~= Seq::empty());
    }
    let mut i: usize = 0;
    while i < reach.len()
        invariant
            i <= reach@.len(),
            nodes == views(reach@),
            networks_wf(reach@),
            is_sorted(compounds@),
            are_described(compounds@, places),
            places.to_multiset() == frontier(nodes.take(i as int)),
        decreases reach@.len() - i,
    {
        let node: &ReachNode = &reach[i];
        assert(nodes[i as int] == node@);
        assert(nodes.take(i + 1).drop_last() =~= nodes.take(i as int));
        if node.kind == NodeKind::Compound {
            let sig: CompoundSig = make_key(&node.tn, &node.state);
            let Ghost(more) = insert_sorted(
                &mut compounds,
                sig,
                Ghost(places),
                Ghost(node@.place),
            );
            proof {
                places = more;
            }
        }
        i += 1;
    }
    assert(nodes.take(i as int) =~= nodes);
    ReachSig { f_value_bits: f, compounds }
}

impl PartialPolicyState {
    /// The deduplication key of this policy.
    pub fn reach_sig(&self) -> (sig: ReachSig)
        requires
            networks_wf(self.reach@),
        ensures
            sig.describes(views(self.reach@), self.f_value as int),
    {
        compute_reach_sig(self.reach.as_slice(), self.f_value)
    }
}

} // verus!

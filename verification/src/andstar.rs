//! Best-first search through partial policies.

use std::cmp::Ordering;
use std::collections::HashSet;
use std::rc::Rc;
use vstd::prelude::*;

use crate::composition::{HeuristicType, RelaxedComposition};
use crate::domain::Facts;
use crate::lower_bound::delta_nearest_f_value;
use crate::order::ascending_facts;
use crate::policy::{
    compute_reach_sig, NodeKind, NodeView, PartialPolicyState, PolicyAssignment, PolicyLink,
    ReachNode, ReachSig, SearchMode, TiebreakerKind,
};
use crate::probability::ONE;
use crate::problem::FONDProblem;
use crate::progress::{progress, ConnectionLabel, Expansion};
use crate::proper::{is_reach_proper, is_reach_strong};
use crate::reach::{compute_reach, compute_reach_incremental, Assignment, Policy, Setting};
use crate::search_space::{Moment, Partial};
use crate::sets::copy_set;
use crate::signature::{make_key, CompoundSig, Place};
use crate::task_network::{DomainTasks, HTN};

verus! {

/// Where a policy does something.
pub struct PolicyNode {
    pub tn: Rc<HTN>,
    /// The names of the facts that hold, in the order of the facts.
    pub state: Vec<String>,
}

/// What a policy does.
pub struct PolicyOutput {
    pub task: String,
    pub method: String,
}

/// A policy with the probability of its success.
pub struct StrongPolicy {
    /// The assignments, the latest first.
    pub transitions: Vec<(PolicyNode, PolicyOutput)>,
    pub makespan: u16,
    /// The probability of success, in units of `1 / ONE`.
    pub success_probability: u64,
}

pub enum SearchResult {
    Success(StrongPolicy),
    NoSolution,
}

/// What a search took.
pub struct SearchStats {
    pub max_depth: u32,
    pub search_nodes: usize,
    pub explored_nodes: usize,
    pub success_probability: Option<u64>,
    pub rho_threshold: u64,
}

fn make_stats(explored: usize, prob: Option<u64>, rho: u64) -> (stats: SearchStats)
    ensures
        stats == (SearchStats {
            max_depth: 0,
            search_nodes: explored,
            explored_nodes: explored,
            success_probability: prob,
            rho_threshold: rho,
        }),
{
    SearchStats {
        max_depth: 0,
        search_nodes: explored,
        explored_nodes: explored,
        success_probability: prob,
        rho_threshold: rho,
    }
}

/// The assignment is the decomposition `step.1` at the place `step.0`, where the
/// nodes have the identifiers.
pub open spec fn is_record(
    domain: Rc<DomainTasks>,
    n_facts: nat,
    a: PolicyAssignment,
    step: (Place, (int, int)),
    ids: Seq<usize>,
) -> bool {
    let (place, d) = step;
    &&& a.tn_snapshot@ == place.net
    &&& a.tn_snapshot.nodes@ == ids
    &&& a.tn_snapshot.domain == domain
    &&& a.state@ == place.facts
    &&& a.task_name@ == crate::progress::compound_at(*domain, place.net, d.0).name@
    &&& a.method_name@ == crate::progress::method_at(*domain, place.net, d.0, d.1).name@
    &&& forall|f: u32| #[trigger] place.facts.contains(f) ==> f < n_facts
}

/// The links hold the steps, the latest first.
pub open spec fn records(
    domain: Rc<DomainTasks>,
    n_facts: nat,
    tail: Option<Rc<PolicyLink>>,
    steps: Seq<(Place, (int, int))>,
    ids: Seq<Seq<usize>>,
) -> bool
    decreases steps.len(),
{
    match tail {
        None => steps.len() == 0 && ids.len() == 0,
        Some(link) => {
            &&& steps.len() > 0
            &&& ids.len() > 0
            &&& is_record(domain, n_facts, link.assignment, steps.last(), ids.last())
            &&& records(domain, n_facts, link.parent, steps.drop_last(), ids.drop_last())
        },
    }
}

/// The names are those of the facts, in the order of the facts.
pub open spec fn are_names(all: Facts, facts: Set<u32>, names: Seq<String>) -> bool {
    exists|ids: Seq<u32>| #[trigger]
        crate::order::ascends(ids) && ids.len() == names.len() && (forall|f: u32| #[trigger]
            ids.contains(f) <==> facts.contains(f)) && (forall|k: int|
            0 <= k < ids.len() ==> (#[trigger] names[k])@ == all.names@[ids[k] as int]@)
}

/// The entry of the policy is the step, at a network with the identifiers.
pub open spec fn is_transition(
    domain: Rc<DomainTasks>,
    all: Facts,
    t: (PolicyNode, PolicyOutput),
    step: (Place, (int, int)),
    ids: Seq<usize>,
) -> bool {
    let (place, d) = step;
    &&& t.0.tn@ == place.net
    &&& t.0.tn.nodes@ == ids
    &&& t.0.tn.domain == domain
    &&& are_names(all, place.facts, t.0.state@)
    &&& t.1.task@ == crate::progress::compound_at(*domain, place.net, d.0).name@
    &&& t.1.method@ == crate::progress::method_at(*domain, place.net, d.0, d.1).name@
}

/// The entries of the policy are the steps, the latest first.
pub open spec fn are_transitions(
    domain: Rc<DomainTasks>,
    all: Facts,
    transitions: Seq<(PolicyNode, PolicyOutput)>,
    steps: Seq<(Place, (int, int))>,
    ids: Seq<Seq<usize>>,
) -> bool {
    &&& transitions.len() == steps.len()
    &&& forall|k: int|
        0 <= k < steps.len() ==> is_transition(
            domain,
            all,
            #[trigger] transitions[k],
            steps[steps.len() - 1 - k],
            ids[steps.len() - 1 - k],
        )
}

/// The names of the facts of the state, in the order of the facts.
fn fact_names(facts: &Facts, state: &HashSet<u32>) -> (names: Vec<String>)
    requires
        forall|f: u32| #[trigger] state@.contains(f) ==> f < facts.spec_count(),
    ensures
        are_names(*facts, state@, names@),
{
    let ids: Vec<u32> = ascending_facts(state);
    let mut names: Vec<String> = Vec::new();
    let mut k: usize = 0;
    while k < ids.len()
        invariant
            k <= ids@.len(),
            forall|f: u32| #[trigger] state@.contains(f) ==> f < facts.spec_count(),
            forall|f: u32| #[trigger] ids@.contains(f) <==> state@.contains(f),
            names@.len() == k,
            forall|x: int|
                0 <= x < k ==> (#[trigger] names@[x])@ == facts.names@[ids@[x] as int]@,
        decreases ids@.len() - k,
    {
        assert(ids@.contains(ids@[k as int]));
        names.push(facts.get_fact(ids[k]).clone());
        k += 1;
    }
    assert(crate::order::ascends(ids@));
    names
}

/// The links hold identifiers for every step.
proof fn lemma_as_many(
    domain: Rc<DomainTasks>,
    n_facts: nat,
    tail: &Option<Rc<PolicyLink>>,
    steps: Seq<(Place, (int, int))>,
    ids: Seq<Seq<usize>>,
)
    requires
        records(domain, n_facts, *tail, steps, ids),
    ensures
        ids.len() == steps.len(),
    decreases steps.len(),
{
    match tail {
        None => {},
        Some(link) => {
            lemma_as_many(domain, n_facts, &link.parent, steps.drop_last(), ids.drop_last());
        },
    }
}

/// The entries of the policy that the links hold.
fn transitions_of(
    facts: &Facts,
    tail: &Option<Rc<PolicyLink>>,
    Ghost(domain): Ghost<Rc<DomainTasks>>,
    Ghost(steps): Ghost<Seq<(Place, (int, int))>>,
    Ghost(ids): Ghost<Seq<Seq<usize>>>,
) -> (transitions: Vec<(PolicyNode, PolicyOutput)>)
    requires
        records(domain, facts.spec_count(), *tail, steps, ids),
    ensures
        are_transitions(domain, *facts, transitions@, steps, ids),
{
    let mut transitions: Vec<(PolicyNode, PolicyOutput)> = Vec::new();
    let mut cur: &Option<Rc<PolicyLink>> = tail;
    let ghost mut rest = steps;
    let ghost mut rest_ids = ids;
    proof {
        lemma_as_many(domain, facts.spec_count(), tail, steps, ids);
        assert(steps.take(steps.len() as int) =~= steps);
        assert(ids.take(ids.len() as int) =~= ids);
    }
    while cur.is_some()
        invariant
            records(domain, facts.spec_count(), *cur, rest, rest_ids),
            transitions@.len() + rest.len() == steps.len(),
            ids.len() == steps.len(),
            rest_ids.len() == rest.len(),
            rest == steps.take(rest.len() as int),
            rest_ids == ids.take(rest.len() as int),
            forall|k: int|
                0 <= k < transitions@.len() ==> is_transition(
                    domain,
                    *facts,
                    #[trigger] transitions@[k],
                    steps[steps.len() - 1 - k],
                    ids[steps.len() - 1 - k],
                ),
        decreases rest.len(),
    {
        match cur {
            Some(link) => {
                let a: &PolicyAssignment = &link.assignment;
                let state: Vec<String> = fact_names(facts, &a.state);
                transitions.push(
                    (
                        PolicyNode { tn: Rc::clone(&a.tn_snapshot), state },
                        PolicyOutput { task: a.task_name.clone(), method: a.method_name.clone() },
                    ),
                );
                proof {
                    assert(rest.last() == steps[rest.len() - 1]);
                    assert(rest_ids.last() == ids[rest.len() - 1]);
                    rest = rest.drop_last();
                    rest_ids = rest_ids.drop_last();
                    assert(rest =~= steps.take(rest.len() as int));
                    assert(rest_ids =~= ids.take(rest.len() as int));
                }
                cur = &link.parent;
            },
            None => {},
        }
    }
    transitions
}

/// Whether the one policy goes strictly before the other.
fn goes_before(a: &PartialPolicyState, b: &PartialPolicyState) -> (r: bool)
    ensures
        r == crate::policy::is_lower(b.rank_by(a.tiebreaker), a.rank_by(a.tiebreaker)),
{
    match a.priority(b) {
        Ordering::Greater => true,
        _ => false,
    }
}

/// A partial policy in the open list, with its position among those found.
struct Candidate {
    pi: PartialPolicyState,
    id: Ghost<int>,
}

/// The policy is what `p` says.
spec fn represents(
    pi: PartialPolicyState,
    p: Partial,
    cx: Setting,
    domain: Rc<DomainTasks>,
) -> bool {
    &&& crate::policy::views(pi.reach@) == p.nodes
    &&& pi.out_c@ == p.out_c
    &&& pi.policy_size == p.steps.len()
    &&& pi.f_value == p.f
    &&& crate::reach::ids_of(pi.reach@) == p.ids
    &&& records(domain, cx.n_facts, pi.policy_tail, p.steps, p.step_ids)
    &&& crate::reach::nodes_wf(pi.reach@, domain, cx.n_facts)
}

/// The position of the policy that goes first: none goes before it, and it goes
/// before all earlier ones.
fn find_best(open: &Vec<Candidate>, Ghost(tiebreaker): Ghost<TiebreakerKind>) -> (k: usize)
    requires
        open@.len() > 0,
        forall|j: int| 0 <= j < open@.len() ==> (#[trigger] open@[j]).pi.tiebreaker == tiebreaker,
    ensures
        k < open@.len(),
        forall|j: int|
            0 <= j < open@.len() ==> !crate::policy::is_lower(
                open@[k as int].pi.rank_by(tiebreaker),
                (#[trigger] open@[j]).pi.rank_by(tiebreaker),
            ),
        forall|j: int|
            0 <= j < k ==> crate::policy::is_lower(
                (#[trigger] open@[j]).pi.rank_by(tiebreaker),
                open@[k as int].pi.rank_by(tiebreaker),
            ),
{
    let mut k: usize = 0;
    let mut i: usize = 1;
    while i < open.len()
        invariant
            k < i <= open@.len(),
            forall|j: int|
                0 <= j < open@.len() ==> (#[trigger] open@[j]).pi.tiebreaker == tiebreaker,
            forall|j: int|
                0 <= j < i ==> !crate::policy::is_lower(
                    open@[k as int].pi.rank_by(tiebreaker),
                    (#[trigger] open@[j]).pi.rank_by(tiebreaker),
                ),
            forall|j: int|
                0 <= j < k ==> crate::policy::is_lower(
                    (#[trigger] open@[j]).pi.rank_by(tiebreaker),
                    open@[k as int].pi.rank_by(tiebreaker),
                ),
        decreases open@.len() - i,
    {
        assert(open@[i as int].pi.tiebreaker == tiebreaker);
        if goes_before(&open[i].pi, &open[k].pi) {
            k = i;
        }
        i += 1;
    }
    k
}

/// The bound of a graph that the search goes by.
fn f_value_of(reach: &Vec<ReachNode>, out_c: &Vec<usize>, size: usize, mode: SearchMode) -> (f: i128)
    requires
        crate::policy::edges_wf(crate::policy::views(reach@)),
        forall|k: int| 0 <= k < out_c@.len() ==> #[trigger] out_c@[k] < reach@.len(),
    ensures
        match mode {
            SearchMode::MaxProb => f == crate::policy::vi_value(crate::policy::views(reach@)),
            SearchMode::MinCost => crate::lower_bound::is_nearest(
                crate::policy::views(reach@),
                out_c@,
                size as int,
                f as int,
            ),
        },
{
    match mode {
        SearchMode::MaxProb => PartialPolicyState::compute_f_by_vi(reach.as_slice()) as i128,
        SearchMode::MinCost => delta_nearest_f_value(reach.as_slice(), out_c.as_slice(), size),
    }
}

/// What a node says besides its place.
struct Mark {
    kind: NodeKind,
    prob_upper: u64,
    cost_lower: Option<u32>,
    successors: Vec<(usize, u64)>,
}

impl Mark {
    /// The node says this.
    spec fn is_of(&self, n: NodeView) -> bool {
        &&& self.kind == n.kind
        &&& self.prob_upper == n.prob_upper
        &&& self.cost_lower == n.cost_lower
        &&& self.successors@ == n.successors
    }

    /// What the node says.
    fn new(node: &ReachNode) -> (m: Mark)
        ensures
            m.is_of(node@),
    {
        let mut successors: Vec<(usize, u64)> = Vec::new();
        let mut k: usize = 0;
        while k < node.successors.len()
            invariant
                k <= node.successors@.len(),
                successors@ == node.successors@.take(k as int),
            decreases node.successors@.len() - k,
        {
            successors.push(node.successors[k]);
            assert(node.successors@.take(k + 1) =~= node.successors@.take(k as int).push(
                node.successors@[k as int],
            ));
            k += 1;
        }
        assert(node.successors@.take(k as int) =~= node.successors@);
        Mark {
            kind: node.kind,
            prob_upper: node.prob_upper,
            cost_lower: node.cost_lower,
            successors,
        }
    }

    /// Whether the two are equal.
    fn same(&self, other: &Mark) -> (r: bool)
        ensures
            r == (self.kind == other.kind && self.prob_upper == other.prob_upper && self.cost_lower
                == other.cost_lower && self.successors@ == other.successors@),
    {
        let same_cost: bool = match (self.cost_lower, other.cost_lower) {
            (Some(a), Some(b)) => a == b,
            (None, None) => true,
            _ => false,
        };
        if self.kind != other.kind || self.prob_upper != other.prob_upper || !same_cost
            || self.successors.len() != other.successors.len() {
            return false;
        }
        let mut k: usize = 0;
        while k < self.successors.len()
            invariant
                k <= self.successors@.len(),
                self.successors@.len() == other.successors@.len(),
                forall|x: int| 0 <= x < k ==> self.successors@[x] == other.successors@[x],
            decreases self.successors@.len() - k,
        {
            if self.successors[k].0 != other.successors[k].0 || self.successors[k].1
                != other.successors[k].1 {
                assert(self.successors@[k as int] != other.successors@[k as int]);
                return false;
            }
            k += 1;
        }
        assert(self.successors@ =~= other.successors@);
        true
    }
}

/// What is kept of a policy to know its like again: the deduplication key, the
/// number of assignments, and the graph.
struct Seen {
    sig: ReachSig,
    size: usize,
    keys: Vec<CompoundSig>,
    marks: Vec<Mark>,
}

impl Seen {
    /// The record is the one of the policy.
    spec fn is_of(&self, p: Partial) -> bool {
        &&& self.sig.describes(p.nodes, crate::policy::vi_value(p.nodes) as int)
        &&& self.size == p.steps.len()
        &&& crate::reach::keys_of(self.keys@, p.nodes)
        &&& self.marks@.len() == p.nodes.len()
        &&& forall|i: int| 0 <= i < p.nodes.len() ==> (#[trigger] self.marks@[i]).is_of(p.nodes[i])
    }

    /// The record of a policy with the graph and as many assignments.
    fn new(
        reach: &Vec<ReachNode>,
        keys: Vec<CompoundSig>,
        size: usize,
        Ghost(p): Ghost<Partial>,
    ) -> (s: Seen)
        requires
            crate::policy::views(reach@) == p.nodes,
            crate::policy::edges_wf(p.nodes),
            crate::policy::networks_wf(reach@),
            crate::reach::keys_of(keys@, p.nodes),
            size == p.steps.len(),
        ensures
            s.is_of(p),
    {
        let f: i128 = PartialPolicyState::compute_f_by_vi(reach.as_slice()) as i128;
        let sig: ReachSig = compute_reach_sig(reach.as_slice(), f);
        let mut marks: Vec<Mark> = Vec::new();
        let mut i: usize = 0;
        while i < reach.len()
            invariant
                i <= reach@.len(),
                crate::policy::views(reach@) == p.nodes,
                marks@.len() == i,
                forall|j: int| 0 <= j < i ==> (#[trigger] marks@[j]).is_of(p.nodes[j]),
            decreases reach@.len() - i,
        {
            assert(p.nodes[i as int] == reach@[i as int]@);
            marks.push(Mark::new(&reach[i]));
            i += 1;
        }
        Seen { sig, size, keys, marks }
    }

    /// Whether the two policies count as one.
    fn same(&self, other: &Seen, Ghost(p): Ghost<Partial>, Ghost(q): Ghost<Partial>) -> (r: bool)
        requires
            self.is_of(p),
            other.is_of(q),
            crate::policy::nodes_bounded(p.nodes),
            crate::policy::nodes_bounded(q.nodes),
        ensures
            r == p.matches(q),
    {
        proof {
            self.sig.lemma_canonical(other.sig, p.nodes, q.nodes);
        }
        if !self.sig.same(&other.sig) || self.size != other.size || self.keys.len()
            != other.keys.len() {
            return false;
        }
        let mut i: usize = 0;
        while i < self.keys.len()
            invariant
                i <= self.keys@.len(),
                self.keys@.len() == other.keys@.len(),
                self.is_of(p),
                other.is_of(q),
                crate::policy::nodes_bounded(p.nodes),
                crate::policy::nodes_bounded(q.nodes),
                forall|j: int| 0 <= j < i ==> p.nodes[j] == q.nodes[j],
            decreases self.keys@.len() - i,
        {
            proof {
                let (x, y) = (p.nodes[i as int], q.nodes[i as int]);
                assert(self.keys@[i as int].describes(x.place));
                assert(other.keys@[i as int].describes(y.place));
                self.keys@[i as int].lemma_canonical(other.keys@[i as int], x.place, y.place);
                assert(self.marks@[i as int].is_of(x));
                assert(other.marks@[i as int].is_of(y));
            }
            if !self.keys[i].same(&other.keys[i]) || !self.marks[i].same(&other.marks[i]) {
                return false;
            }
            assert(p.nodes[i as int] =~= q.nodes[i as int]);
            i += 1;
        }
        assert(p.nodes =~= q.nodes);
        true
    }
}

/// A search under way.
struct Search {
    open: Vec<Candidate>,
    /// What is kept of the policies found.
    seen: Vec<Seen>,
    /// The policies found.
    found: Ghost<Seq<Partial>>,
    explored: usize,
}

impl Search {
    /// The policy found at `i` is described by its key and comes about by
    /// assignments.
    spec fn entry_ok(&self, cx: Setting, start: Place, i: int) -> bool {
        let p = self.found@[i];
        &&& self.seen@[i].is_of(p)
        &&& crate::policy::nodes_bounded(p.nodes)
        &&& p.ok(cx, start)
        &&& crate::search_space::is_derived(cx, start, p)
    }

    /// The candidate is one of the policies found.
    spec fn candidate_ok(
        &self,
        cx: Setting,
        domain: Rc<DomainTasks>,
        tiebreaker: TiebreakerKind,
        c: Candidate,
    ) -> bool {
        &&& 0 <= c.id@ < self.found@.len()
        &&& represents(c.pi, self.found@[c.id@], cx, domain)
        &&& c.pi.tiebreaker == tiebreaker
        &&& c.pi.policy_size <= self.explored
    }

    /// What holds throughout the search.
    spec fn ok(
        &self,
        cx: Setting,
        domain: Rc<DomainTasks>,
        start: Place,
        tiebreaker: TiebreakerKind,
    ) -> bool {
        &&& cx.tasks == *domain
        &&& self.seen@.len() == self.found@.len()
        &&& self.found@.len() > 0
        &&& self.found@[0].is_initial(cx, start)
        &&& forall|i: int| 0 <= i < self.found@.len() ==> #[trigger] self.entry_ok(cx, start, i)
        &&& forall|k: int|
            0 <= k < self.open@.len() ==> self.candidate_ok(
                cx,
                domain,
                tiebreaker,
                #[trigger] self.open@[k],
            )
        &&& self.explored + self.open@.len() <= self.seen@.len()
    }

    /// The positions of the policies that wait, among those found.
    spec fn ids(&self) -> Seq<int> {
        self.open@.map_values(|c: Candidate| c.id@)
    }

    /// The policy found at `i` waits in the open list.
    spec fn is_open(&self, i: int) -> bool {
        exists|k: int| 0 <= k < self.open@.len() && (#[trigger] self.open@[k]).id@ == i
    }

    /// Every policy found waits in the open list, or needs no further look, or
    /// is the one at `but`.
    spec fn all_done_but(
        &self,
        cx: Setting,
        start: Place,
        best: Option<int>,
        bar: int,
        but: int,
    ) -> bool {
        forall|i: int|
            0 <= i < self.found@.len() && i != but ==> self.is_open(i)
                || crate::search_space::is_done(
                cx,
                start,
                self.found@,
                #[trigger] self.found@[i],
                best,
                bar,
            )
    }

    /// Whether a policy that counts as one with this was found before.
    fn has_seen(
        &self,
        record: &Seen,
        Ghost(cx): Ghost<Setting>,
        Ghost(domain): Ghost<Rc<DomainTasks>>,
        Ghost(start): Ghost<Place>,
        Ghost(tiebreaker): Ghost<TiebreakerKind>,
        Ghost(q): Ghost<Partial>,
    ) -> (r: bool)
        requires
            self.ok(cx, domain, start, tiebreaker),
            record.is_of(q),
            crate::policy::nodes_bounded(q.nodes),
        ensures
            r == crate::search_space::is_matched(self.found@, q),
    {
        let mut i: usize = 0;
        while i < self.seen.len()
            invariant
                i <= self.seen@.len(),
                self.ok(cx, domain, start, tiebreaker),
                record.is_of(q),
                crate::policy::nodes_bounded(q.nodes),
                forall|j: int| 0 <= j < i ==> !q.matches(#[trigger] self.found@[j]),
            decreases self.seen@.len() - i,
        {
            assert(self.entry_ok(cx, start, i as int));
            if record.same(&self.seen[i], Ghost(q), Ghost(self.found@[i as int])) {
                assert(q.matches(self.found@[i as int]));
                return true;
            }
            i += 1;
        }
        false
    }
}

/// The graph of a policy with one assignment more.
struct Grown {
    reach: Vec<ReachNode>,
    keys: Vec<CompoundSig>,
    out_c: Vec<usize>,
    f: i128,
    /// The policy.
    q: Ghost<Partial>,
}

/// The graph of the policy that assigns the decomposition of the step besides
/// what `pi` assigns.
fn grow(
    pi: &PartialPolicyState,
    keys: &Vec<CompoundSig>,
    step: &Expansion,
    relaxed: &RelaxedComposition,
    h_type: HeuristicType,
    mode: SearchMode,
    Ghost(p): Ghost<Partial>,
    Ghost(d): Ghost<(int, int)>,
    Ghost(cx): Ghost<Setting>,
    Ghost(domain): Ghost<Rc<DomainTasks>>,
    Ghost(start): Ghost<Place>,
) -> (r: Grown)
    requires
        cx.tasks == *domain,
        cx.h_type == h_type,
        cx.mode == mode,
        relaxed.is_of(cx.tasks, cx.n_facts),
        crate::problem::actions_wf(cx.tasks, cx.n_facts),
        represents(*pi, p, cx, domain),
        p.ok(cx, start),
        pi.out_c@.len() > 0,
        pi.policy_size < usize::MAX,
        crate::reach::keys_of(keys@, p.nodes),
        crate::reach::decomposable(cx, p.next_place()).contains(d),
        step.decomposes(cx.tasks, p.next_place().net, p.next_place().facts, d),
        crate::progress::network_wf(*step.tn),
        step.tn.domain == domain,
        step.replaces_ids(*pi.reach@[pi.out_c@[0] as int].tn, d),
    ensures
        r.q@.is_child(cx, start, p, d),
        crate::policy::views(r.reach@) == r.q@.nodes,
        r.out_c@ == r.q@.out_c,
        r.f == r.q@.f,
        crate::reach::ids_of(r.reach@) == r.q@.ids,
        crate::reach::keys_of(r.keys@, r.q@.nodes),
        crate::reach::nodes_wf(r.reach@, domain, cx.n_facts),
        crate::policy::edges_wf(r.q@.nodes),
        crate::policy::networks_wf(r.reach@),
        crate::policy::nodes_bounded(r.q@.nodes),
{
    let node_idx: usize = pi.out_c[0];
    proof {
        assert(pi.out_c@.contains(pi.out_c@[0]));
        assert(p.nodes[node_idx as int] == pi.reach@[node_idx as int]@);
    }
    let node_state: Rc<HashSet<u32>> = Rc::clone(&pi.reach[node_idx].state);
    let ghost place = p.next_place();
    let (reach, new_keys, out_c): (Vec<ReachNode>, Vec<CompoundSig>, Vec<usize>) =
        compute_reach_incremental(
        pi.reach.as_slice(),
        keys,
        pi.out_c.as_slice(),
        node_idx,
        &step.tn,
        &node_state,
        relaxed,
        h_type,
        mode,
        Ghost(cx),
        Ghost(domain),
        Ghost(p.policy),
        Ghost(start),
        Ghost(d),
    );
    let ghost next = p.policy.insert(place, crate::reach::Choice::By(d.0, d.1));
    let ghost nodes = crate::policy::views(reach@);
    proof {
        crate::reach::lemma_edges_wf(cx, next, start, reach@, domain);
        crate::policy::lemma_nodes_bounded(reach@);
        assert forall|k: int| 0 <= k < out_c@.len() implies #[trigger] out_c@[k]
            < reach@.len() by {
            assert(out_c@.contains(out_c@[k]));
        }
    }
    let size: usize = pi.policy_size + 1;
    let f: i128 = f_value_of(&reach, &out_c, size, mode);
    let ghost q = Partial {
        policy: next,
        nodes,
        out_c: out_c@,
        steps: p.steps.push((place, d)),
        f: f as int,
        ids: crate::reach::ids_of(reach@),
        step_ids: p.step_ids.push(p.ids[node_idx as int]),
    };
    proof {
        assert(q.is_child(cx, start, p, d));
    }
    Grown { reach, keys: new_keys, out_c, f, q: Ghost(q) }
}

impl Search {
    /// More was found, and what waited still does.
    spec fn grows(&self, before: Search) -> bool {
        &&& before.found@.len() <= self.found@.len()
        &&& forall|i: int|
            0 <= i < before.found@.len() ==> #[trigger] self.found@[i] == before.found@[i]
        &&& forall|i: int| before.is_open(i) ==> #[trigger] self.is_open(i)
        &&& forall|i: int|
            before.found@.len() <= i < self.found@.len() ==> #[trigger] self.is_open(i)
        &&& self.explored == before.explored
        &&& self.seen@.len() - self.open@.len() == before.seen@.len() - before.open@.len()
    }

    /// Adds the policy as the last one to the open list.
    fn push(
        &mut self,
        pi: PartialPolicyState,
        record: Seen,
        Ghost(q): Ghost<Partial>,
        Ghost(cx): Ghost<Setting>,
        Ghost(domain): Ghost<Rc<DomainTasks>>,
        Ghost(start): Ghost<Place>,
        Ghost(tiebreaker): Ghost<TiebreakerKind>,
    )
        requires
            old(self).ok(cx, domain, start, tiebreaker),
            represents(pi, q, cx, domain),
            pi.tiebreaker == tiebreaker,
            pi.policy_size <= old(self).explored,
            record.is_of(q),
            crate::policy::nodes_bounded(q.nodes),
            q.ok(cx, start),
            crate::search_space::is_derived(cx, start, q),
        ensures
            final(self).ok(cx, domain, start, tiebreaker),
            final(self).grows(*old(self)),
            final(self).found@ == old(self).found@.push(q),
            final(self).ids() == old(self).ids().push(old(self).found@.len() as int),
            final(self).seen@.len() == old(self).seen@.len() + 1,
            final(self).open@.len() == old(self).open@.len() + 1,
    {
        let ghost before = *self;
        let ghost id = self.found@.len() as int;
        self.open.push(Candidate { pi, id: Ghost(id) });
        self.seen.push(record);
        self.found = Ghost(self.found@.push(q));
        proof {
            assert(self.ids() =~= before.ids().push(id));
            assert forall|i: int| 0 <= i < self.found@.len() implies #[trigger] self.entry_ok(
                cx,
                start,
                i,
            ) by {
                if i < before.found@.len() {
                    assert(before.entry_ok(cx, start, i));
                    assert(self.found@[i] == before.found@[i]);
                    assert(self.seen@[i] == before.seen@[i]);
                }
            }
            assert forall|k: int| 0 <= k < self.open@.len() implies self.candidate_ok(
                cx,
                domain,
                tiebreaker,
                #[trigger] self.open@[k],
            ) by {
                if k < before.open@.len() {
                    assert(self.open@[k] == before.open@[k]);
                    assert(before.candidate_ok(cx, domain, tiebreaker, before.open@[k]));
                }
            }
            assert forall|i: int| before.is_open(i) implies #[trigger] self.is_open(i) by {
                let k = choose|k: int|
                    0 <= k < before.open@.len() && (#[trigger] before.open@[k]).id@ == i;
                assert(self.open@[k].id@ == i);
            }
            assert forall|i: int|
                before.found@.len() <= i < self.found@.len() implies #[trigger] self.is_open(i) by {
                assert(self.open@[before.open@.len() as int].id@ == i);
            }
        }
    }

    /// Takes up the policy that assigns the decomposition of the step besides
    /// what `pi` assigns, unless it is worth less than `bar` or counts as one
    /// with a policy found before.
    fn add_child(
        &mut self,
        pi: &PartialPolicyState,
        keys: &Vec<CompoundSig>,
        step: &Expansion,
        bar: u64,
        relaxed: &RelaxedComposition,
        h_type: HeuristicType,
        mode: SearchMode,
        Ghost(p): Ghost<Partial>,
        Ghost(d): Ghost<(int, int)>,
        Ghost(cx): Ghost<Setting>,
        Ghost(domain): Ghost<Rc<DomainTasks>>,
        Ghost(start): Ghost<Place>,
    ) -> (r: Ghost<Partial>)
        requires
            old(self).ok(cx, domain, start, pi.tiebreaker),
            cx.h_type == h_type,
            cx.mode == mode,
            relaxed.is_of(cx.tasks, cx.n_facts),
            crate::problem::actions_wf(cx.tasks, cx.n_facts),
            represents(*pi, p, cx, domain),
            p.ok(cx, start),
            crate::search_space::is_derived(cx, start, p),
            pi.out_c@.len() > 0,
            pi.policy_size < old(self).explored,
            crate::reach::keys_of(keys@, p.nodes),
            crate::reach::decomposable(cx, p.next_place()).contains(d),
            step.decomposes(cx.tasks, p.next_place().net, p.next_place().facts, d),
            crate::progress::network_wf(*step.tn),
            step.tn.domain == domain,
            step.replaces_ids(*pi.reach@[pi.out_c@[0] as int].tn, d),
        ensures
            final(self).ok(cx, domain, start, pi.tiebreaker),
            final(self).grows(*old(self)),
            crate::search_space::is_covered(cx, start, final(self).found@, p, d, bar as int),
            r@.is_child(cx, start, p, d),
            final(self).found@ == crate::search_space::taken_up(
                cx,
                old(self).found@,
                r@,
                bar as int,
            ),
            final(self).ids() == old(self).ids() + crate::search_space::positions(
                old(self).found@.len(),
                final(self).found@.len(),
            ),
    {
        let node_idx: usize = pi.out_c[0];
        proof {
            assert(pi.out_c@.contains(pi.out_c@[0]));
            assert(p.nodes[node_idx as int] == pi.reach@[node_idx as int]@);
        }
        let node_tn: Rc<HTN> = Rc::clone(&pi.reach[node_idx].tn);
        let node_state: Rc<HashSet<u32>> = Rc::clone(&pi.reach[node_idx].state);
        let ghost place = p.next_place();
        let ghost node_tn_ids = node_tn.nodes@;
        let Grown { reach, keys: new_keys, out_c, f, q: Ghost(q) } = grow(
            pi,
            keys,
            step,
            relaxed,
            h_type,
            mode,
            Ghost(p),
            Ghost(d),
            Ghost(cx),
            Ghost(domain),
            Ghost(start),
        );
        let size: usize = pi.policy_size + 1;
        proof {
            crate::search_space::lemma_child_derived(cx, start, p, q, d);
        }
        let ghost none = crate::search_space::positions(self.found@.len(), self.found@.len());
        assert(self.ids() =~= self.ids() + none);
        if mode == SearchMode::MaxProb && f < bar as i128 {
            return Ghost(q);
        }
        let record: Seen = Seen::new(&reach, new_keys, size, Ghost(q));
        if self.has_seen(
            &record,
            Ghost(cx),
            Ghost(domain),
            Ghost(start),
            Ghost(pi.tiebreaker),
            Ghost(q),
        ) {
            return Ghost(q);
        }
        let (task_name, method_name): (String, String) = match &step.connection_label {
            ConnectionLabel::Decomposition(t, m) => (t.clone(), m.clone()),
            ConnectionLabel::Execution(t) => (t.clone(), t.clone()),
        };
        let parent: Option<Rc<PolicyLink>> = match &pi.policy_tail {
            Some(link) => Some(Rc::clone(link)),
            None => None,
        };
        let link: Rc<PolicyLink> = Rc::new(
            PolicyLink {
                parent,
                assignment: PolicyAssignment {
                    tn_snapshot: node_tn,
                    state: node_state,
                    task_name,
                    method_name,
                },
            },
        );
        let child: PartialPolicyState = PartialPolicyState {
            reach,
            out_c,
            policy_tail: Some(link),
            f_value: f,
            policy_size: size,
            tiebreaker: pi.tiebreaker,
        };
        proof {
            assert(q.steps.drop_last() =~= p.steps);
            assert(q.steps.last() == (place, d));
            assert(q.step_ids.drop_last() =~= p.step_ids);
            assert(q.step_ids.last() == node_tn_ids);
            assert(is_record(domain, cx.n_facts, link.assignment, (place, d), node_tn_ids));
            assert(records(domain, cx.n_facts, child.policy_tail, q.steps, q.step_ids));
            assert(represents(child, q, cx, domain));
        }
        let ghost before = *self;
        self.push(
            child,
            record,
            Ghost(q),
            Ghost(cx),
            Ghost(domain),
            Ghost(start),
            Ghost(pi.tiebreaker),
        );
        proof {
            assert(q.matches(self.found@[self.found@.len() - 1]));
            assert(crate::search_space::is_matched(self.found@, q));
            assert(self.ids() =~= before.ids() + crate::search_space::positions(
                before.found@.len(),
                self.found@.len(),
            ));
        }
        Ghost(q)
    }
}

/// What the first `n` children add depends on no other.
proof fn lemma_taken_up_stays(
    cx: Setting,
    found: Seq<Partial>,
    children: Seq<Partial>,
    more: Seq<Partial>,
    bar: int,
    n: nat,
)
    requires
        n <= children.len() <= more.len(),
        forall|x: int| 0 <= x < n ==> #[trigger] more[x] == children[x],
    ensures
        crate::search_space::all_taken_up(cx, found, more, bar, n)
            == crate::search_space::all_taken_up(cx, found, children, bar, n),
    decreases n,
{
    if n > 0 {
        lemma_taken_up_stays(cx, found, children, more, bar, (n - 1) as nat);
        assert(more[n - 1] == children[n - 1]);
    }
}

/// The descriptions of the places of the nodes.
fn index_of(reach: &Vec<ReachNode>, Ghost(domain): Ghost<Rc<DomainTasks>>, Ghost(n_facts): Ghost<nat>) -> (keys:
    Vec<CompoundSig>)
    requires
        crate::reach::nodes_wf(reach@, domain, n_facts),
    ensures
        crate::reach::keys_of(keys@, crate::policy::views(reach@)),
{
    let mut keys: Vec<CompoundSig> = Vec::new();
    let ghost nodes = crate::policy::views(reach@);
    let mut i: usize = 0;
    while i < reach.len()
        invariant
            i <= reach@.len(),
            nodes == crate::policy::views(reach@),
            crate::reach::nodes_wf(reach@, domain, n_facts),
            keys@.len() == i,
            forall|j: int| 0 <= j < i ==> (#[trigger] keys@[j]).describes(nodes[j].place),
        decreases reach@.len() - i,
    {
        assert(crate::progress::network_wf(*reach@[i as int].tn));
        assert(nodes[i as int] == reach@[i as int]@);
        keys.push(make_key(&reach[i].tn, &reach[i].state));
        i += 1;
    }
    keys
}

impl Search {
    /// Takes up the policies that assign one method more than `pi`.
    fn expand(
        &mut self,
        pi: &PartialPolicyState,
        bar: u64,
        relaxed: &RelaxedComposition,
        h_type: HeuristicType,
        mode: SearchMode,
        Ghost(p): Ghost<Partial>,
        Ghost(cx): Ghost<Setting>,
        Ghost(domain): Ghost<Rc<DomainTasks>>,
        Ghost(start): Ghost<Place>,
    )
        requires
            old(self).ok(cx, domain, start, pi.tiebreaker),
            cx.h_type == h_type,
            cx.mode == mode,
            relaxed.is_of(cx.tasks, cx.n_facts),
            crate::problem::actions_wf(cx.tasks, cx.n_facts),
            represents(*pi, p, cx, domain),
            p.ok(cx, start),
            crate::search_space::is_derived(cx, start, p),
            pi.out_c@.len() > 0,
            pi.policy_size < old(self).explored,
        ensures
            final(self).ok(cx, domain, start, pi.tiebreaker),
            final(self).grows(*old(self)),
            crate::search_space::is_expanded(cx, start, final(self).found@, p, bar as int),
            crate::search_space::is_taken_further(
                cx,
                start,
                old(self).found@,
                p,
                bar as int,
                final(self).found@,
            ),
            final(self).ids() == old(self).ids() + crate::search_space::positions(
                old(self).found@.len(),
                final(self).found@.len(),
            ),
    {
        let keys: Vec<CompoundSig> = index_of(&pi.reach, Ghost(domain), Ghost(cx.n_facts));
        let node_idx: usize = pi.out_c[0];
        let ghost place = p.next_place();
        proof {
            assert(pi.out_c@.contains(pi.out_c@[0]));
            assert(p.nodes[node_idx as int] == pi.reach@[node_idx as int]@);
            assert(crate::reach::node_ok(
                cx,
                p.policy,
                crate::reach::places_of(p.nodes),
                p.nodes[node_idx as int],
            ));
            assert(crate::progress::network_wf(*pi.reach@[node_idx as int].tn));
            assert(crate::reach::executable(cx, place).len() == 0);
        }
        let steps: Vec<Expansion> = progress(&pi.reach[node_idx].tn, &pi.reach[node_idx].state);
        let ghost ds = crate::reach::decomposable(cx, place);
        let ghost mut children: Seq<Partial> = Seq::empty();
        let mut k: usize = 0;
        assert(self.ids() =~= self.ids() + crate::search_space::positions(
            self.found@.len(),
            self.found@.len(),
        ));
        while k < steps.len()
            invariant
                k <= steps@.len(),
                children.len() == k,
                forall|x: int|
                    0 <= x < k ==> (#[trigger] children[x]).is_child(cx, start, p, ds[x]),
                self.found@ == crate::search_space::all_taken_up(
                    cx,
                    old(self).found@,
                    children,
                    bar as int,
                    k as nat,
                ),
                self.ids() == old(self).ids() + crate::search_space::positions(
                    old(self).found@.len(),
                    self.found@.len(),
                ),
                self.ok(cx, domain, start, pi.tiebreaker),
                self.grows(*old(self)),
                cx.h_type == h_type,
                cx.mode == mode,
                relaxed.is_of(cx.tasks, cx.n_facts),
                crate::problem::actions_wf(cx.tasks, cx.n_facts),
                represents(*pi, p, cx, domain),
                p.ok(cx, start),
                crate::search_space::is_derived(cx, start, p),
                pi.out_c@.len() > 0,
                pi.policy_size < self.explored,
                crate::reach::keys_of(keys@, p.nodes),
                place == p.next_place(),
                ds == crate::reach::decomposable(cx, place),
                steps@.len() == ds.len(),
                forall|x: int|
                    0 <= x < steps@.len() ==> (#[trigger] steps@[x]).decomposes(
                        cx.tasks,
                        place.net,
                        place.facts,
                        ds[x],
                    ) && crate::progress::network_wf(*steps@[x].tn) && steps@[x].tn.domain == domain
                        && steps@[x].replaces_ids(*pi.reach@[node_idx as int].tn, ds[x]),
                node_idx == pi.out_c@[0],
                forall|x: int|
                    0 <= x < k ==> crate::search_space::is_covered(
                        cx,
                        start,
                        self.found@,
                        p,
                        #[trigger] ds[x],
                        bar as int,
                    ),
            decreases steps@.len() - k,
        {
            let ghost before = *self;
            let ghost d = ds[k as int];
            assert(ds.contains(d));
            assert(steps@[k as int].decomposes(cx.tasks, place.net, place.facts, d));
            let Ghost(child) = self.add_child(
                pi,
                &keys,
                &steps[k],
                bar,
                relaxed,
                h_type,
                mode,
                Ghost(p),
                Ghost(d),
                Ghost(cx),
                Ghost(domain),
                Ghost(start),
            );
            proof {
                let earlier = children;
                children = children.push(child);
                lemma_taken_up_stays(
                    cx,
                    old(self).found@,
                    earlier,
                    children,
                    bar as int,
                    k as nat,
                );
                assert(self.ids() =~= old(self).ids() + crate::search_space::positions(
                    old(self).found@.len(),
                    self.found@.len(),
                ));
                assert forall|x: int| 0 <= x < k + 1 implies crate::search_space::is_covered(
                    cx,
                    start,
                    self.found@,
                    p,
                    #[trigger] ds[x],
                    bar as int,
                ) by {
                    if x < k {
                        crate::search_space::lemma_covered_stays(
                            cx,
                            start,
                            before.found@,
                            self.found@,
                            p,
                            ds[x],
                            bar as int,
                            bar as int,
                        );
                    }
                }
                assert(self.grows(*old(self))) by {
                    assert forall|i: int| old(self).is_open(i) implies #[trigger] self.is_open(
                        i,
                    ) by {
                        assert(before.is_open(i));
                    }
                    assert forall|i: int|
                        old(self).found@.len() <= i < self.found@.len() implies #[trigger]
                        self.is_open(i) by {
                        if i < before.found@.len() {
                            assert(before.is_open(i));
                        }
                    }
                    assert forall|i: int| 0 <= i < old(self).found@.len() implies #[trigger]
                        self.found@[i] == old(self).found@[i] by {
                        assert(before.found@[i] == old(self).found@[i]);
                    }
                }
            }
            k += 1;
        }
        proof {
            assert(crate::search_space::are_children(cx, start, p, children));
            assert forall|d: (int, int)| #[trigger] ds.contains(
                d,
            ) implies crate::search_space::is_covered(
                cx,
                start,
                self.found@,
                p,
                d,
                bar as int,
            ) by {
                let x = choose|x: int| 0 <= x < ds.len() && ds[x] == d;
                assert(crate::search_space::is_covered(
                    cx,
                    start,
                    self.found@,
                    p,
                    ds[x],
                    bar as int,
                ));
            }
        }
    }
}

impl Search {
    /// Takes the candidate at `k` from the open list.
    fn take(
        &mut self,
        k: usize,
        Ghost(cx): Ghost<Setting>,
        Ghost(domain): Ghost<Rc<DomainTasks>>,
        Ghost(start): Ghost<Place>,
        Ghost(tiebreaker): Ghost<TiebreakerKind>,
    ) -> (c: Candidate)
        requires
            old(self).ok(cx, domain, start, tiebreaker),
            k < old(self).open@.len(),
        ensures
            final(self).ok(cx, domain, start, tiebreaker),
            c == old(self).open@[k as int],
            final(self).candidate_ok(cx, domain, tiebreaker, c),
            c.pi.policy_size < final(self).explored,
            final(self).explored == old(self).explored + 1,
            final(self).found == old(self).found,
            final(self).seen == old(self).seen,
            final(self).open@ == old(self).open@.remove(k as int),
            final(self).ids() == old(self).ids().remove(k as int),
            forall|i: int| i != c.id@ && old(self).is_open(i) ==> #[trigger] final(self).is_open(i),
    {
        let ghost before = *self;
        assert(before.candidate_ok(cx, domain, tiebreaker, before.open@[k as int]));
        assert(self.seen@.len() == self.seen.len());
        let c: Candidate = self.open.remove(k);
        self.explored = self.explored + 1;
        proof {
            assert(self.open@ =~= before.open@.remove(k as int));
            assert(self.ids() =~= before.ids().remove(k as int));
            assert forall|i: int| 0 <= i < self.found@.len() implies #[trigger] self.entry_ok(
                cx,
                start,
                i,
            ) by {
                assert(before.entry_ok(cx, start, i));
            }
            assert forall|j: int| 0 <= j < self.open@.len() implies self.candidate_ok(
                cx,
                domain,
                tiebreaker,
                #[trigger] self.open@[j],
            ) by {
                let o = if j < k {
                    j
                } else {
                    j + 1
                };
                assert(self.open@[j] == before.open@[o]);
                assert(before.candidate_ok(cx, domain, tiebreaker, before.open@[o]));
            }
            assert forall|i: int| i != c.id@ && before.is_open(i) implies #[trigger] self.is_open(
                i,
            ) by {
                let o = choose|o: int|
                    0 <= o < before.open@.len() && (#[trigger] before.open@[o]).id@ == i;
                if o < k {
                    assert(self.open@[o].id@ == i);
                } else {
                    assert(self.open@[o - 1].id@ == i);
                }
            }
        }
        c
    }

    /// The policy that goes first in the open list does so at the moment.
    proof fn lemma_first(
        &self,
        best: Option<Best>,
        cx: Setting,
        domain: Rc<DomainTasks>,
        start: Place,
        tiebreaker: TiebreakerKind,
        k: int,
    )
        requires
            self.ok(cx, domain, start, tiebreaker),
            0 <= k < self.open@.len(),
            forall|j: int|
                0 <= j < self.open@.len() ==> !crate::policy::is_lower(
                    self.open@[k].pi.rank_by(tiebreaker),
                    (#[trigger] self.open@[j]).pi.rank_by(tiebreaker),
                ),
            forall|j: int|
                0 <= j < k ==> crate::policy::is_lower(
                    (#[trigger] self.open@[j]).pi.rank_by(tiebreaker),
                    self.open@[k].pi.rank_by(tiebreaker),
                ),
        ensures
            moment(*self, best).goes_first(tiebreaker, k),
            moment(*self, best).open.len() == self.open@.len(),
            moment(*self, best).waiting(k) == self.found@[self.open@[k].id@],
            moment(*self, best).waiting(k).f == self.open@[k].pi.f_value,
    {
        reveal(Moment::goes_first);
        let now = moment(*self, best);
        assert forall|j: int| 0 <= j < self.open@.len() implies (#[trigger] now.waiting(
            j,
        )).rank_by(tiebreaker) == self.open@[j].pi.rank_by(tiebreaker) && now.waiting(j).f
            == self.open@[j].pi.f_value by {
            assert(self.candidate_ok(cx, domain, tiebreaker, self.open@[j]));
        }
        assert(now.waiting(k).f == self.open@[k].pi.f_value);
        assert forall|j: int| 0 <= j < now.open.len() implies !crate::policy::is_lower(
            now.waiting(k).rank_by(tiebreaker),
            (#[trigger] now.waiting(j)).rank_by(tiebreaker),
        ) by {
            assert(self.open@[j].pi.rank_by(tiebreaker) == now.waiting(j).rank_by(tiebreaker));
        }
        assert forall|j: int| 0 <= j < k implies crate::policy::is_lower(
            (#[trigger] now.waiting(j)).rank_by(tiebreaker),
            now.waiting(k).rank_by(tiebreaker),
        ) by {
            assert(self.open@[j].pi.rank_by(tiebreaker) == now.waiting(j).rank_by(tiebreaker));
        }
    }

    /// Once nothing in the open list promises more than the best policy, the
    /// search is over.
    proof fn lemma_over(
        &self,
        best: Option<Best>,
        cx: Setting,
        domain: Rc<DomainTasks>,
        start: Place,
        tiebreaker: TiebreakerKind,
    )
        requires
            self.ok(cx, domain, start, tiebreaker),
            cx.mode == SearchMode::MaxProb,
            best is Some,
            forall|j: int|
                0 <= j < self.open@.len() ==> (#[trigger] self.open@[j]).pi.f_value
                    <= best->0.p@.f,
        ensures
            moment(*self, best).is_over(cx),
    {
        reveal(Moment::is_over);
        let now = moment(*self, best);
        assert forall|j: int| 0 <= j < now.open.len() implies (#[trigger] now.waiting(j)).f
            <= now.best->0.f by {
            assert(self.candidate_ok(cx, domain, tiebreaker, self.open@[j]));
            assert(self.open@[j].pi.f_value <= best->0.p@.f);
        }
    }

    /// Once nothing in the open list promises more than `best`, no policy found
    /// needs a further look.
    proof fn lemma_stop(
        &self,
        cx: Setting,
        domain: Rc<DomainTasks>,
        start: Place,
        tiebreaker: TiebreakerKind,
        best: int,
        bar: int,
        but: int,
    )
        requires
            self.ok(cx, domain, start, tiebreaker),
            self.all_done_but(cx, start, Some(best), bar, but),
            cx.mode == SearchMode::MaxProb,
            forall|k: int|
                0 <= k < self.open@.len() ==> (#[trigger] self.open@[k]).pi.f_value <= best,
            0 <= but < self.found@.len() ==> self.found@[but].f <= best,
        ensures
            forall|i: int|
                0 <= i < self.found@.len() ==> crate::search_space::is_done(
                    cx,
                    start,
                    self.found@,
                    #[trigger] self.found@[i],
                    Some(best),
                    bar,
                ),
    {
        assert forall|i: int|
            0 <= i < self.found@.len() implies crate::search_space::is_done(
            cx,
            start,
            self.found@,
            #[trigger] self.found@[i],
            Some(best),
            bar,
        ) by {
            if i != but && self.is_open(i) {
                let k = choose|k: int|
                    0 <= k < self.open@.len() && (#[trigger] self.open@[k]).id@ == i;
                assert(self.candidate_ok(cx, domain, tiebreaker, self.open@[k]));
                assert(self.open@[k].pi.f_value <= best);
            }
        }
    }
}

/// The best closed policy found so far.
struct Best {
    pi: PartialPolicyState,
    /// The probability of its success.
    prob: u64,
    p: Ghost<Partial>,
}

impl Best {
    /// The policy is a closed one with the probability of success that it says.
    spec fn ok(&self, cx: Setting, domain: Rc<DomainTasks>, start: Place) -> bool {
        &&& represents(self.pi, self.p@, cx, domain)
        &&& self.p@.ok(cx, start)
        &&& crate::search_space::is_derived(cx, start, self.p@)
        &&& self.p@.is_closed()
        &&& match cx.mode {
            SearchMode::MaxProb => self.prob == self.p@.f,
            SearchMode::MinCost => {
                &&& self.prob == ONE
                &&& crate::proper::is_proper(self.p@.nodes)
                &&& crate::proper::is_strong(self.p@.nodes)
            },
        }
    }
}

/// The bound of the best policy.
spec fn best_f(best: Option<Best>) -> Option<int> {
    match best {
        Some(b) => Some(b.p@.f),
        None => None,
    }
}

/// What the best policy is.
spec fn best_p(best: Option<Best>) -> Option<Partial> {
    match best {
        Some(b) => Some(b.p@),
        None => None,
    }
}

/// Where the search stands.
spec fn moment(search: Search, best: Option<Best>) -> Moment {
    Moment { found: search.found@, open: search.ids(), best: best_p(best) }
}

/// The best policy succeeds for certain, within the precision of the values.
spec fn is_certain(cx: Setting, best: Option<Best>) -> bool {
    cx.mode == SearchMode::MaxProb && best is Some && best->0.prob >= ONE - crate::policy::EPSILON
}

impl Search {
    /// No policy found needs a further look.
    spec fn all_done(&self, cx: Setting, start: Place, best: Option<int>, rho: int) -> bool {
        forall|i: int|
            0 <= i < self.found@.len() ==> crate::search_space::is_done(
                cx,
                start,
                self.found@,
                #[trigger] self.found@[i],
                best,
                crate::search_space::at_least(best, rho),
            )
    }

    /// One more policy found needs no further look.
    proof fn lemma_one_done(
        &self,
        before: Search,
        cx: Setting,
        start: Place,
        best: Option<int>,
        better: Option<int>,
        rho: int,
        id: int,
    )
        requires
            before.all_done_but(cx, start, best, crate::search_space::at_least(best, rho), id),
            self.grows(before),
            best matches Some(b) ==> (better matches Some(c) && b <= c),
            0 <= id < self.found@.len() ==> crate::search_space::is_done(
                cx,
                start,
                self.found@,
                self.found@[id],
                better,
                crate::search_space::at_least(better, rho),
            ),
        ensures
            self.all_done_but(cx, start, better, crate::search_space::at_least(better, rho), -1),
    {
        let bar = crate::search_space::at_least(best, rho);
        let higher = crate::search_space::at_least(better, rho);
        assert forall|i: int| 0 <= i < self.found@.len() && i != -1 implies self.is_open(i)
            || crate::search_space::is_done(
            cx,
            start,
            self.found@,
            #[trigger] self.found@[i],
            better,
            higher,
        ) by {
            if i != id {
                if i < before.found@.len() {
                    assert(self.found@[i] == before.found@[i]);
                    if before.is_open(i) {
                        assert(self.is_open(i));
                    } else {
                        crate::search_space::lemma_done_stays(
                            cx,
                            start,
                            before.found@,
                            self.found@,
                            self.found@[i],
                            best,
                            better,
                            bar,
                            higher,
                        );
                    }
                } else {
                    assert(self.is_open(i));
                }
            }
        }
    }

    /// Looks at the candidate, which was taken from the open list. Gives the best
    /// closed policy, and whether that is certain.
    fn look(
        &mut self,
        c: Candidate,
        best: Option<Best>,
        rho: u64,
        relaxed: &RelaxedComposition,
        h_type: HeuristicType,
        mode: SearchMode,
        Ghost(cx): Ghost<Setting>,
        Ghost(domain): Ghost<Rc<DomainTasks>>,
        Ghost(start): Ghost<Place>,
        Ghost(tiebreaker): Ghost<TiebreakerKind>,
    ) -> (r: (Option<Best>, bool))
        requires
            old(self).ok(cx, domain, start, tiebreaker),
            old(self).candidate_ok(cx, domain, tiebreaker, c),
            c.pi.policy_size < old(self).explored,
            cx.h_type == h_type,
            cx.mode == mode,
            relaxed.is_of(cx.tasks, cx.n_facts),
            crate::problem::actions_wf(cx.tasks, cx.n_facts),
            best matches Some(b) ==> b.ok(cx, domain, start),
            mode == SearchMode::MaxProb && best is Some ==> c.pi.f_value > best->0.prob,
            old(self).all_done_but(
                cx,
                start,
                best_f(best),
                crate::search_space::at_least(best_f(best), rho as int),
                c.id@,
            ),
        ensures
            final(self).ok(cx, domain, start, tiebreaker),
            final(self).explored == old(self).explored,
            final(self).seen@.len() - final(self).open@.len() == old(self).seen@.len()
                - old(self).open@.len(),
            r.0 matches Some(b) ==> b.ok(cx, domain, start),
            r.1 ==> is_certain(cx, r.0),
            !r.1 && !is_certain(cx, best) ==> !is_certain(cx, r.0),
            final(self).all_done_but(
                cx,
                start,
                best_f(r.0),
                crate::search_space::at_least(best_f(r.0), rho as int),
                -1,
            ),
            ({
                let p = old(self).found@[c.id@];
                if best is Some && p.is_beaten(cx, best->0.p@.f) {
                    &&& final(self).found == old(self).found
                    &&& final(self).ids() == old(self).ids()
                    &&& best_p(r.0) == best_p(best)
                } else if p.is_closed() {
                    &&& final(self).found == old(self).found
                    &&& final(self).ids() == old(self).ids()
                    &&& best_p(r.0) == (if p.is_success(cx) {
                        Some(p)
                    } else {
                        best_p(best)
                    })
                } else {
                    &&& best_p(r.0) == best_p(best)
                    &&& crate::search_space::is_taken_further(
                        cx,
                        start,
                        old(self).found@,
                        p,
                        crate::search_space::at_least(best_f(best), rho as int),
                        final(self).found@,
                    )
                    &&& final(self).ids() == old(self).ids() + crate::search_space::positions(
                        old(self).found@.len(),
                        final(self).found@.len(),
                    )
                }
            }),
    {
        let ghost taken = *self;
        let ghost id = c.id@;
        let ghost p = self.found@[id];
        proof {
            assert(self.entry_ok(cx, start, id));
            assert(taken.grows(taken));
            crate::reach::lemma_edges_wf(cx, p.policy, start, c.pi.reach@, domain);
        }
        // No policy that goes on from this one can be shorter than the best one.
        if mode == SearchMode::MinCost {
            let longer: bool = match &best {
                Some(b) => c.pi.policy_size >= b.pi.policy_size || c.pi.out_c.len()
                    >= b.pi.policy_size - c.pi.policy_size,
                None => false,
            };
            if longer {
                proof {
                    self.lemma_one_done(
                        taken,
                        cx,
                        start,
                        best_f(best),
                        best_f(best),
                        rho as int,
                        id,
                    );
                }
                return (best, false);
            }
        }
        if c.pi.is_closed() {
            match mode {
                SearchMode::MaxProb => {
                    let prob: u64 = c.pi.f_value as u64;
                    let found: Option<Best> = Some(Best { pi: c.pi, prob, p: Ghost(p) });
                    proof {
                        self.lemma_one_done(
                            taken,
                            cx,
                            start,
                            best_f(best),
                            best_f(found),
                            rho as int,
                            id,
                        );
                    }
                    (found, prob >= ONE - crate::policy::EPSILON)
                },
                SearchMode::MinCost => {
                    if is_reach_proper(c.pi.reach.as_slice()) && is_reach_strong(
                        c.pi.reach.as_slice(),
                    ) {
                        let found: Option<Best> = Some(Best { pi: c.pi, prob: ONE, p: Ghost(p) });
                        proof {
                            self.lemma_one_done(
                                taken,
                                cx,
                                start,
                                best_f(best),
                                best_f(found),
                                rho as int,
                                id,
                            );
                        }
                        return (found, false);
                    }
                    proof {
                        if crate::proper::is_strong(p.nodes) {
                            crate::reach_laws::law_strong_is_proper(
                                cx,
                                p.policy,
                                start,
                                p.nodes,
                            );
                        }
                        self.lemma_one_done(
                            taken,
                            cx,
                            start,
                            best_f(best),
                            best_f(best),
                            rho as int,
                            id,
                        );
                    }
                    (best, false)
                },
            }
        } else {
            let bar: u64 = match &best {
                Some(b) => if b.prob > rho {
                    b.prob
                } else {
                    rho
                },
                None => rho,
            };
            self.expand(
                &c.pi,
                bar,
                relaxed,
                h_type,
                mode,
                Ghost(p),
                Ghost(cx),
                Ghost(domain),
                Ghost(start),
            );
            proof {
                assert(self.found@[id] == p);
                if mode == SearchMode::MinCost {
                    let children = choose|children: Seq<Partial>| #[trigger]
                        crate::search_space::are_children(cx, start, p, children) && self.found@
                            == crate::search_space::all_taken_up(
                            cx,
                            taken.found@,
                            children,
                            bar as int,
                            children.len(),
                        );
                    crate::search_space::lemma_bar_is_idle(
                        cx,
                        taken.found@,
                        children,
                        bar as int,
                        crate::search_space::at_least(best_f(best), rho as int),
                        children.len(),
                    );
                }
                self.lemma_one_done(
                    taken,
                    cx,
                    start,
                    best_f(best),
                    best_f(best),
                    rho as int,
                    id,
                );
            }
            (best, false)
        }
    }

    /// Looks at the policy that goes first. Gives the best closed policy, and
    /// whether the search is over.
    fn turn(
        &mut self,
        best: Option<Best>,
        rho: u64,
        relaxed: &RelaxedComposition,
        h_type: HeuristicType,
        mode: SearchMode,
        Ghost(cx): Ghost<Setting>,
        Ghost(domain): Ghost<Rc<DomainTasks>>,
        Ghost(start): Ghost<Place>,
        Ghost(tiebreaker): Ghost<TiebreakerKind>,
    ) -> (r: (Option<Best>, bool))
        requires
            old(self).ok(cx, domain, start, tiebreaker),
            old(self).open@.len() > 0,
            cx.h_type == h_type,
            cx.mode == mode,
            relaxed.is_of(cx.tasks, cx.n_facts),
            crate::problem::actions_wf(cx.tasks, cx.n_facts),
            best matches Some(b) ==> b.ok(cx, domain, start),
            old(self).all_done_but(
                cx,
                start,
                best_f(best),
                crate::search_space::at_least(best_f(best), rho as int),
                -1,
            ),
        ensures
            final(self).ok(cx, domain, start, tiebreaker),
            r.0 matches Some(b) ==> b.ok(cx, domain, start),
            final(self).explored == old(self).explored || final(self).explored
                == old(self).explored + 1,
            final(self).explored == old(self).explored ==> r.1 && moment(*final(self), r.0)
                == moment(*old(self), best) && moment(*final(self), r.0).is_over(cx),
            final(self).explored > old(self).explored ==> moment(*old(self), best).leads_to(
                cx,
                start,
                rho as int,
                tiebreaker,
                moment(*final(self), r.0),
            ),
            final(self).explored > old(self).explored && !is_certain(cx, best) ==> !moment(
                *old(self),
                best,
            ).is_over(cx),
            r.1 ==> moment(*final(self), r.0).is_over(cx),
            !r.1 && !is_certain(cx, best) ==> !is_certain(cx, r.0),
            final(self).seen@.len() - final(self).open@.len() >= old(self).seen@.len()
                - old(self).open@.len(),
            r.1 ==> r.0 is Some && (is_certain(cx, r.0) || final(self).all_done(
                cx,
                start,
                best_f(r.0),
                rho as int,
            )),
            !r.1 ==> final(self).all_done_but(
                cx,
                start,
                best_f(r.0),
                crate::search_space::at_least(best_f(r.0), rho as int),
                -1,
            ) && final(self).seen@.len() - final(self).open@.len() == old(self).seen@.len()
                - old(self).open@.len() + 1,
    {
        proof {
            assert forall|j: int| 0 <= j < self.open@.len() implies (
            #[trigger] self.open@[j]).pi.tiebreaker == tiebreaker by {
                assert(self.candidate_ok(cx, domain, tiebreaker, self.open@[j]));
            }
        }
        let k: usize = find_best(&self.open, Ghost(tiebreaker));
        let ghost top = self.open@[k as int].pi.f_value;
        proof {
            assert(self.candidate_ok(cx, domain, tiebreaker, self.open@[k as int]));
            assert forall|j: int| 0 <= j < self.open@.len() implies (
            #[trigger] self.open@[j]).pi.f_value <= top by {
                assert(!crate::policy::is_lower(
                    self.open@[k as int].pi.rank_by(tiebreaker),
                    self.open@[j].pi.rank_by(tiebreaker),
                ));
            }
        }
        let ghost now = moment(*self, best);
        proof {
            self.lemma_first(best, cx, domain, start, tiebreaker, k as int);
        }
        // Nothing that is left can beat the best closed policy.
        if mode == SearchMode::MaxProb {
            let beaten: bool = match &best {
                Some(b) => self.open[k].pi.f_value <= b.prob as i128,
                None => false,
            };
            if beaten {
                proof {
                    self.lemma_stop(
                        cx,
                        domain,
                        start,
                        tiebreaker,
                        best_f(best)->0,
                        crate::search_space::at_least(best_f(best), rho as int),
                        -1,
                    );
                    self.lemma_over(best, cx, domain, start, tiebreaker);
                }
                return (best, true);
            }
        }
        let ghost before = *self;
        let c: Candidate = self.take(
            k,
            Ghost(cx),
            Ghost(domain),
            Ghost(start),
            Ghost(tiebreaker),
        );
        let ghost taken = *self;
        proof {
            let id = c.id@;
            let bar0 = crate::search_space::at_least(best_f(best), rho as int);
            assert forall|i: int| 0 <= i < self.found@.len() && i != id implies self.is_open(i)
                || crate::search_space::is_done(
                cx,
                start,
                self.found@,
                #[trigger] self.found@[i],
                best_f(best),
                bar0,
            ) by {
                if before.is_open(i) {
                    assert(self.is_open(i));
                }
            }
            assert(taken.all_done_but(cx, start, best_f(best), bar0, id));
        }
        let (next, certain): (Option<Best>, bool) = self.look(
            c,
            best,
            rho,
            relaxed,
            h_type,
            mode,
            Ghost(cx),
            Ghost(domain),
            Ghost(start),
            Ghost(tiebreaker),
        );
        proof {
            let p = now.waiting(k as int);
            let later = moment(*self, next);
            assert(now.best_f() == best_f(best));
            if !is_certain(cx, best) {
                now.lemma_not_over(cx, k as int);
            }
            if (now.best is Some && p.is_beaten(cx, now.best->0.f)) || p.is_closed() {
                now.lemma_look_ends(cx, start, rho as int, tiebreaker, k as int, later);
            } else {
                now.lemma_look_goes_on(cx, start, rho as int, tiebreaker, k as int, later);
            }
            assert(is_certain(cx, next) ==> later.is_over(cx)) by {
                reveal(Moment::is_over);
            }
        }
        (next, certain)
    }
}

/// What the graphs of a search for the problem have in common.
pub open spec fn setting_of(
    problem: FONDProblem,
    h_type: HeuristicType,
    mode: SearchMode,
) -> Setting {
    Setting {
        tasks: *problem.tasks,
        n_facts: problem.facts.spec_count(),
        ids: problem.init_tn.nodes@,
        h_type,
        mode,
    }
}

/// The place at which the problem starts.
pub open spec fn start_of(problem: FONDProblem) -> Place {
    crate::signature::place_of(problem.init_tn@, problem.initial_state@)
}

/// The policy is the closed one `p`, with its probability of success.
pub open spec fn is_solution(
    problem: FONDProblem,
    cx: Setting,
    p: Partial,
    policy: StrongPolicy,
) -> bool {
    &&& crate::search_space::is_derived(cx, start_of(problem), p)
    &&& p.is_closed()
    &&& are_transitions(problem.tasks, problem.facts, policy.transitions@, p.steps, p.step_ids)
    &&& policy.makespan == p.steps.len() as u16
    &&& policy.success_probability >= problem.rho
    &&& match cx.mode {
        SearchMode::MaxProb => policy.success_probability == crate::policy::vi_value(p.nodes),
        SearchMode::MinCost => {
            &&& policy.success_probability == ONE
            &&& crate::proper::is_proper(p.nodes)
            &&& crate::proper::is_strong(p.nodes)
        },
    }
}

/// The search is complete for the bound `best`.
pub open spec fn is_complete(problem: FONDProblem, cx: Setting, best: Option<int>) -> bool {
    exists|found: Seq<Partial>| #[trigger]
        crate::search_space::is_exhausted(
            cx,
            start_of(problem),
            found,
            best,
            problem.rho as int,
        )
}

/// The policy solves the problem, and the search is complete for its bound, or
/// it succeeds for certain within the precision of the values.
pub open spec fn is_best(
    problem: FONDProblem,
    cx: Setting,
    p: Partial,
    policy: StrongPolicy,
) -> bool {
    &&& is_solution(problem, cx, p, policy)
    &&& p.ok(cx, start_of(problem))
    &&& is_complete(problem, cx, Some(p.f)) || (cx.mode == SearchMode::MaxProb
        && policy.success_probability >= ONE - crate::policy::EPSILON)
}

/// The policy is a best one.
pub open spec fn is_best_policy(problem: FONDProblem, cx: Setting, policy: StrongPolicy) -> bool {
    exists|p: Partial| is_best(problem, cx, p, policy)
}

/// A closed policy succeeds for certain within the precision of the values, but
/// not within the threshold.
pub open spec fn is_nearly_certain(problem: FONDProblem, cx: Setting, p: Partial) -> bool {
    &&& crate::search_space::is_derived(cx, start_of(problem), p)
    &&& p.is_closed()
    &&& ONE - crate::policy::EPSILON <= crate::policy::vi_value(p.nodes) < problem.rho
}

/// There is no solution: the search is complete for a bound that the threshold
/// exceeds, or the threshold exceeds the value of a policy that is certain
/// within the precision of the values.
pub open spec fn is_unsolved(problem: FONDProblem, cx: Setting) -> bool {
    match cx.mode {
        SearchMode::MaxProb => {
            ||| is_complete(problem, cx, None)
            ||| exists|best: int| best < problem.rho && #[trigger] is_complete(problem, cx, Some(best))
            ||| exists|p: Partial| is_nearly_certain(problem, cx, p)
        },
        SearchMode::MinCost => is_complete(problem, cx, None) || problem.rho > ONE,
    }
}

/// The result is a best policy, or there is none.
pub open spec fn is_result(problem: FONDProblem, cx: Setting, result: SearchResult) -> bool {
    match result {
        SearchResult::Success(policy) => is_best_policy(problem, cx, policy),
        SearchResult::NoSolution => is_unsolved(problem, cx),
    }
}

/// A search that looks at `n` policies, each the one that goes first by the
/// tiebreaker, is over and leaves `best`.
pub open spec fn is_whole_trace(
    problem: FONDProblem,
    cx: Setting,
    tiebreaker: TiebreakerKind,
    n: nat,
    best: Option<Partial>,
) -> bool {
    exists|trace: Seq<Moment>| #[trigger]
        crate::search_space::is_trace(
            cx,
            start_of(problem),
            problem.rho as int,
            tiebreaker,
            trace,
        ) && trace.len() == n + 1 && trace.last().is_over(cx) && trace.last().best == best
}

/// The result is what the search with the best policy `best` comes to: that
/// policy where it reaches the threshold, or nothing.
pub open spec fn comes_of(
    problem: FONDProblem,
    cx: Setting,
    best: Option<Partial>,
    result: SearchResult,
) -> bool {
    match result {
        SearchResult::Success(policy) => best is Some && is_best(problem, cx, best->0, policy),
        SearchResult::NoSolution => best is Some ==> problem.rho > (match cx.mode {
            SearchMode::MaxProb => best->0.f,
            SearchMode::MinCost => ONE as int,
        }),
    }
}

/// The statistics are those of a search with the tiebreaker and the result.
pub open spec fn are_stats(
    problem: FONDProblem,
    cx: Setting,
    tiebreaker: TiebreakerKind,
    result: SearchResult,
    stats: SearchStats,
) -> bool {
    &&& stats.max_depth == 0
    &&& stats.search_nodes == stats.explored_nodes
    &&& stats.explored_nodes > 0
    &&& exists|best: Option<Partial>| #[trigger]
        is_whole_trace(problem, cx, tiebreaker, stats.explored_nodes as nat, best) && comes_of(
            problem,
            cx,
            best,
            result,
        )
    &&& stats.rho_threshold == problem.rho
    &&& stats.success_probability == (match result {
        SearchResult::Success(policy) => Some(policy.success_probability),
        SearchResult::NoSolution => None,
    })
}

/// The search that has found the policy that assigns nothing.
fn begin(
    problem: &FONDProblem,
    relaxed: &RelaxedComposition,
    h_type: HeuristicType,
    tiebreaker: TiebreakerKind,
    mode: SearchMode,
    Ghost(cx): Ghost<Setting>,
    Ghost(start): Ghost<Place>,
) -> (search: Search)
    requires
        problem.wf(),
        cx == setting_of(*problem, h_type, mode),
        start == start_of(*problem),
        relaxed.is_of(cx.tasks, cx.n_facts),
    ensures
        search.ok(cx, problem.tasks, start, tiebreaker),
        search.open@.len() > 0,
        search.explored == 0,
        moment(search, None).is_initial(cx, start),
        forall|best: Option<int>, bar: int| #[trigger]
            search.all_done_but(cx, start, best, bar, -1),
{
    let domain: Rc<DomainTasks> = Rc::clone(&problem.tasks);
    let init_tn: Rc<HTN> = Rc::new(problem.init_tn.duplicate());
    let init_state: Rc<HashSet<u32>> = Rc::new(copy_set(&problem.initial_state));
    proof {
        assert(init_tn.dom() == cx.tasks);
        assert forall|i: int| 0 <= i < init_tn.tasks@.len() implies #[trigger] init_tn.tasks@[i]
            < cx.tasks.n_tasks() by {
            assert(problem.init_tn.tasks@[i] < cx.tasks.n_tasks());
        }
        assert forall|t: int|
            0 <= t < cx.tasks.n_tasks() && (*#[trigger] cx.tasks.tasks@[t] is Primitive) implies (
        *cx.tasks.tasks@[t])->Primitive_0.del_effects@.len() == (
        *cx.tasks.tasks@[t])->Primitive_0.add_effects@.len() by {
            assert(crate::problem::action_wf((*cx.tasks.tasks@[t])->Primitive_0, cx.n_facts));
        }
    }
    let none: [Assignment; 0] = [];
    let (reach, keys, out_c): (Vec<ReachNode>, Vec<CompoundSig>, Vec<usize>) = compute_reach(
        init_tn,
        init_state,
        &none,
        relaxed,
        h_type,
        mode,
    );
    let ghost nodes = crate::policy::views(reach@);
    let ghost policy: Policy = Map::empty();
    proof {
        let listed = crate::reach::policy_of(cx.tasks, none@);
        assert(listed =~= policy) by {
            assert forall|q: Place| !#[trigger] listed.contains_key(q) by {
                assert(crate::reach::first_for(none@, q) == 0);
            }
        }
        crate::reach::lemma_edges_wf(cx, policy, start, reach@, domain);
        crate::policy::lemma_nodes_bounded(reach@);
        assert forall|k: int| 0 <= k < out_c@.len() implies #[trigger] out_c@[k] < reach@.len() by {
            assert(out_c@.contains(out_c@[k]));
        }
    }
    let f_value: i128 = f_value_of(&reach, &out_c, 0, mode);
    let ghost p0 = Partial {
        policy,
        nodes,
        out_c: out_c@,
        steps: Seq::empty(),
        f: f_value as int,
        ids: crate::reach::ids_of(reach@),
        step_ids: Seq::empty(),
    };
    let record: Seen = Seen::new(&reach, keys, 0, Ghost(p0));
    let pi: PartialPolicyState = PartialPolicyState {
        reach,
        out_c,
        policy_tail: None,
        f_value,
        policy_size: 0,
        tiebreaker,
    };
    proof {
        assert(p0.is_initial(cx, start));
        crate::search_space::lemma_initial_derived(cx, start, p0);
        assert(represents(pi, p0, cx, domain));
    }
    let ghost found0 = seq![p0];
    let first: Candidate = Candidate { pi, id: Ghost(0) };
    let search: Search = Search {
        open: vec![first],
        seen: vec![record],
        found: Ghost(found0),
        explored: 0,
    };
    proof {
        assert(search.open@[0].id@ == 0);
        assert(search.is_open(0));
        assert(search.entry_ok(cx, start, 0));
        assert(search.ok(cx, domain, start, tiebreaker));
        assert(search.ids() =~= seq![0int]);
    }
    search
}

/// Looks at the policies, the one that goes first at a time, until nothing that
/// is left can be better.
fn explore(
    search: &mut Search,
    problem: &FONDProblem,
    relaxed: &RelaxedComposition,
    h_type: HeuristicType,
    mode: SearchMode,
    Ghost(cx): Ghost<Setting>,
    Ghost(start): Ghost<Place>,
    Ghost(tiebreaker): Ghost<TiebreakerKind>,
) -> (best: Option<Best>)
    requires
        problem.wf(),
        cx == setting_of(*problem, h_type, mode),
        start == start_of(*problem),
        relaxed.is_of(cx.tasks, cx.n_facts),
        old(search).ok(cx, problem.tasks, start, tiebreaker),
        old(search).explored == 0,
        moment(*old(search), None).is_initial(cx, start),
        forall|best: Option<int>, bar: int| #[trigger]
            old(search).all_done_but(cx, start, best, bar, -1),
    ensures
        best matches Some(b) ==> b.ok(cx, problem.tasks, start),
        is_certain(cx, best) || is_complete(*problem, cx, best_f(best)),
        is_whole_trace(
            *problem,
            cx,
            tiebreaker,
            final(search).explored as nat,
            best_p(best),
        ),
{
    let ghost domain = problem.tasks;
    let ghost rho = problem.rho as int;
    let mut best: Option<Best> = None;
    let mut over: bool = false;
    let ghost mut trace: Seq<Moment> = seq![moment(*search, best)];
    while !over && search.open.len() > 0
        invariant
            rho == problem.rho,
            crate::search_space::is_trace(cx, start, rho, tiebreaker, trace),
            trace.len() == search.explored + 1,
            trace.last() == moment(*search, best),
            over ==> trace.last().is_over(cx),
            !over ==> !is_certain(cx, best),
            search.ok(cx, domain, start, tiebreaker),
            cx.h_type == h_type,
            cx.mode == mode,
            relaxed.is_of(cx.tasks, cx.n_facts),
            crate::problem::actions_wf(cx.tasks, cx.n_facts),
            best matches Some(b) ==> b.ok(cx, domain, start),
            !over ==> search.all_done_but(
                cx,
                start,
                best_f(best),
                crate::search_space::at_least(best_f(best), problem.rho as int),
                -1,
            ),
            over ==> best is Some && (is_certain(cx, best) || search.all_done(
                cx,
                start,
                best_f(best),
                problem.rho as int,
            )),
        decreases
            usize::MAX - (search.seen@.len() - search.open@.len()),
            if over {
                0int
            } else {
                1int
            },
    {
        let ghost explored = search.explored;
        let ghost now = moment(*search, best);
        let (next, stop): (Option<Best>, bool) = search.turn(
            best,
            problem.rho,
            relaxed,
            h_type,
            mode,
            Ghost(cx),
            Ghost(domain),
            Ghost(start),
            Ghost(tiebreaker),
        );
        best = next;
        over = stop;
        assert(search.seen@.len() == search.seen.len());
        proof {
            if search.explored > explored {
                crate::search_space::lemma_trace_grows(
                    cx,
                    start,
                    rho,
                    tiebreaker,
                    trace,
                    moment(*search, best),
                );
                trace = trace.push(moment(*search, best));
            }
        }
    }
    proof {
        assert(crate::search_space::is_trace(cx, start, rho, tiebreaker, trace));
        assert(trace.last().is_over(cx)) by {
            reveal(Moment::is_over);
        }
        if !over {
            assert forall|i: int|
                0 <= i < search.found@.len() implies crate::search_space::is_done(
                cx,
                start,
                search.found@,
                #[trigger] search.found@[i],
                best_f(best),
                crate::search_space::at_least(best_f(best), problem.rho as int),
            ) by {
                assert(!search.is_open(i));
            }
        }
        if !is_certain(cx, best) {
            assert forall|i: int|
                0 <= i < search.found@.len() implies crate::search_space::is_derived(
                cx,
                start,
                #[trigger] search.found@[i],
            ) by {
                assert(search.entry_ok(cx, start, i));
            }
            assert(crate::search_space::is_exhausted(
                cx,
                start,
                search.found@,
                best_f(best),
                problem.rho as int,
            ));
        }
    }
    best
}

/// The result of a search that is over, and its probability of success.
fn conclude(
    problem: &FONDProblem,
    best: Option<Best>,
    Ghost(cx): Ghost<Setting>,
    Ghost(start): Ghost<Place>,
) -> (r: (SearchResult, Option<u64>))
    requires
        cx.tasks == *problem.tasks,
        cx.n_facts == problem.facts.spec_count(),
        start == start_of(*problem),
        best matches Some(b) ==> b.ok(cx, problem.tasks, start),
        is_certain(cx, best) || is_complete(*problem, cx, best_f(best)),
    ensures
        is_result(*problem, cx, r.0),
        comes_of(*problem, cx, best_p(best), r.0),
        r.1 == (match r.0 {
            SearchResult::Success(policy) => Some(policy.success_probability),
            SearchResult::NoSolution => None,
        }),
{
    match best {
        Some(b) => {
            let ghost p = b.p@;
            if b.prob >= problem.rho {
                let transitions: Vec<(PolicyNode, PolicyOutput)> = transitions_of(
                    &problem.facts,
                    &b.pi.policy_tail,
                    Ghost(problem.tasks),
                    Ghost(p.steps),
                    Ghost(p.step_ids),
                );
                let found: StrongPolicy = StrongPolicy {
                    transitions,
                    makespan: b.pi.policy_size as u16,
                    success_probability: b.prob,
                };
                assert(is_solution(*problem, cx, p, found));
                assert(is_best(*problem, cx, p, found));
                assert(is_best_policy(*problem, cx, found));
                (SearchResult::Success(found), Some(b.prob))
            } else {
                proof {
                    assert(best_f(best) == Some(p.f));
                    if is_certain(cx, best) {
                        assert(is_nearly_certain(*problem, cx, p));
                    }
                    assert(is_unsolved(*problem, cx));
                }
                (SearchResult::NoSolution, None)
            }
        },
        None => (SearchResult::NoSolution, None),
    }
}

/// A search looks at one policy at least.
proof fn lemma_some_look(
    problem: FONDProblem,
    cx: Setting,
    tiebreaker: TiebreakerKind,
    n: nat,
    best: Option<Partial>,
)
    requires
        is_whole_trace(problem, cx, tiebreaker, n, best),
    ensures
        n > 0,
{
    let trace = choose|trace: Seq<Moment>| #[trigger]
        crate::search_space::is_trace(
            cx,
            start_of(problem),
            problem.rho as int,
            tiebreaker,
            trace,
        ) && trace.len() == n + 1 && trace.last().is_over(cx) && trace.last().best == best;
    reveal(Moment::is_over);
    assert(trace[0].open.len() == 1);
}

/// Searches for a policy from the policy that assigns nothing, the one with the
/// greatest bound first, until nothing that is left can be better.
fn run_internal(
    problem: &FONDProblem,
    h_type: HeuristicType,
    tiebreaker: TiebreakerKind,
    mode: SearchMode,
) -> (r: (SearchResult, SearchStats))
    requires
        problem.wf(),
    ensures
        is_result(*problem, setting_of(*problem, h_type, mode), r.0),
        are_stats(*problem, setting_of(*problem, h_type, mode), tiebreaker, r.0, r.1),
{
    let ghost cx = setting_of(*problem, h_type, mode);
    let ghost start = start_of(*problem);
    let relaxed: RelaxedComposition = RelaxedComposition::new(problem);
    let mut search: Search = begin(
        problem,
        &relaxed,
        h_type,
        tiebreaker,
        mode,
        Ghost(cx),
        Ghost(start),
    );
    let best: Option<Best> = explore(
        &mut search,
        problem,
        &relaxed,
        h_type,
        mode,
        Ghost(cx),
        Ghost(start),
        Ghost(tiebreaker),
    );
    let ghost best_p0 = best_p(best);
    let (result, prob): (SearchResult, Option<u64>) = conclude(
        problem,
        best,
        Ghost(cx),
        Ghost(start),
    );
    proof {
        lemma_some_look(*problem, cx, tiebreaker, search.explored as nat, best_p0);
    }
    let stats: SearchStats = make_stats(search.explored, prob, problem.rho);
    assert(is_whole_trace(*problem, cx, tiebreaker, stats.explored_nodes as nat, best_p0));
    (result, stats)
}

/// A policy with the greatest probability of success, within the precision of
/// the values, where one reaches the threshold.
pub fn run(problem: &FONDProblem, h_type: HeuristicType, tiebreaker: TiebreakerKind) -> (r: (
    SearchResult,
    SearchStats,
))
    requires
        problem.wf(),
    ensures
        is_result(*problem, setting_of(*problem, h_type, SearchMode::MaxProb), r.0),
        are_stats(
            *problem,
            setting_of(*problem, h_type, SearchMode::MaxProb),
            tiebreaker,
            r.0,
            r.1,
        ),
        r.0 matches SearchResult::Success(policy) ==> policy.success_probability >= problem.rho
            && policy.makespan == policy.transitions@.len() as u16 && r.1.success_probability
            == Some(policy.success_probability),
        r.0 is NoSolution ==> r.1.success_probability is None,
        r.1.rho_threshold == problem.rho,
        r.1.search_nodes == r.1.explored_nodes,
        r.1.explored_nodes >= 1,
        r.1.max_depth == 0,
{
    run_internal(problem, h_type, tiebreaker, SearchMode::MaxProb)
}

/// A policy that succeeds for certain, whatever happens, with the fewest
/// assignments. The heuristics that count costs guide the search; the one that
/// bounds the probability only tells dead ends apart here.
pub fn run_fond(problem: &FONDProblem, h_type: HeuristicType, tiebreaker: TiebreakerKind) -> (r: (
    SearchResult,
    SearchStats,
))
    requires
        problem.wf(),
    ensures
        is_result(*problem, setting_of(*problem, h_type, SearchMode::MinCost), r.0),
        are_stats(
            *problem,
            setting_of(*problem, h_type, SearchMode::MinCost),
            tiebreaker,
            r.0,
            r.1,
        ),
        r.0 matches SearchResult::Success(policy) ==> policy.success_probability >= problem.rho
            && policy.makespan == policy.transitions@.len() as u16 && r.1.success_probability
            == Some(policy.success_probability) && policy.success_probability == ONE,
        r.0 is NoSolution ==> r.1.success_probability is None,
        r.1.rho_threshold == problem.rho,
        r.1.search_nodes == r.1.explored_nodes,
        r.1.explored_nodes >= 1,
        r.1.max_depth == 0,
{
    run_internal(problem, h_type, tiebreaker, SearchMode::MinCost)
}

} // verus!

//! The partial policies that a search goes through, and what it owes for those
//! that it leaves out.

use vstd::prelude::*;

use crate::policy::{NodeView, SearchMode, TiebreakerKind};
use crate::probability::ONE;
use crate::reach::{Choice, Policy, Setting};
use crate::signature::Place;

verus! {

/// A partial policy with its graph.
pub struct Partial {
    pub policy: Policy,
    pub nodes: Seq<NodeView>,
    pub out_c: Seq<usize>,
    /// The places with their decompositions, in the order of assignment.
    pub steps: Seq<(Place, (int, int))>,
    /// The bound that the search goes by.
    pub f: int,
    /// The identifiers of the networks of the nodes.
    pub ids: Seq<Seq<usize>>,
    /// The identifiers of the networks at which the steps were assigned.
    pub step_ids: Seq<Seq<usize>>,
}

impl Partial {
    /// Every compound node has a method.
    pub open spec fn is_closed(&self) -> bool {
        self.out_c.len() == 0
    }

    /// The place at which the next method is assigned.
    pub open spec fn next_place(&self) -> Place {
        self.nodes[self.out_c[0] as int].place
    }

    /// The graph is the one of the policy from the place `start`, and the bound
    /// is the one of the graph.
    pub open spec fn ok(&self, cx: Setting, start: Place) -> bool {
        &&& crate::reach::is_reach(cx, self.policy, start, self.nodes)
        &&& crate::reach::is_within(self.policy, self.nodes)
        &&& crate::reach::is_out_c(self.nodes, self.out_c)
        &&& crate::reach::are_ids(cx, self.policy, self.nodes, self.ids)
        &&& match cx.mode {
            SearchMode::MaxProb => self.f == crate::policy::vi_value(self.nodes),
            SearchMode::MinCost => crate::lower_bound::is_nearest(
                self.nodes,
                self.out_c,
                self.steps.len() as int,
                self.f,
            ),
        }
    }

    /// The policy that assigns nothing.
    pub open spec fn is_initial(&self, cx: Setting, start: Place) -> bool {
        &&& self.ok(cx, start)
        &&& self.policy == Map::<Place, Choice>::empty()
        &&& self.steps.len() == 0
        &&& self.step_ids.len() == 0
        &&& crate::reach::is_numbered(self.nodes, 1)
        &&& crate::reach::are_found_ids(
            cx,
            self.policy,
            self.nodes,
            self.ids,
            1,
            self.nodes.len() as int,
        )
    }

    /// The policy assigns what `parent` does, and the decomposition `d` at the
    /// first place at which `parent` waits for a method.
    pub open spec fn is_child(
        &self,
        cx: Setting,
        start: Place,
        parent: Partial,
        d: (int, int),
    ) -> bool {
        &&& parent.out_c.len() > 0
        &&& crate::reach::decomposable(cx, parent.next_place()).contains(d)
        &&& self.ok(cx, start)
        &&& self.policy == parent.policy.insert(parent.next_place(), Choice::By(d.0, d.1))
        &&& self.steps == parent.steps.push((parent.next_place(), d))
        &&& self.step_ids == parent.step_ids.push(parent.ids[parent.out_c[0] as int])
        &&& self.ids.take(parent.ids.len() as int) == parent.ids
        &&& crate::reach::are_found_ids(
            cx,
            self.policy,
            self.nodes,
            self.ids,
            parent.nodes.len() as int,
            self.nodes.len() as int,
        )
        &&& crate::reach::is_extension(
            cx,
            parent.nodes,
            parent.out_c[0] as int,
            d,
            self.nodes,
        )
    }

    /// The policy is a child of `parent`.
    pub open spec fn follows(&self, cx: Setting, start: Place, parent: Partial) -> bool {
        exists|d: (int, int)| self.is_child(cx, start, parent, d)
    }

    /// The two count as one: they have the same graph and as many assignments.
    pub open spec fn matches(&self, other: Partial) -> bool {
        self.nodes == other.nodes && self.steps.len() == other.steps.len()
    }

    /// Nothing that goes on from the policy beats a solution with the bound `b`:
    /// its own bound is no greater, or its assignments and one for each node
    /// that waits are no fewer.
    pub open spec fn is_beaten(&self, cx: Setting, b: int) -> bool {
        match cx.mode {
            SearchMode::MaxProb => self.f <= b,
            SearchMode::MinCost => self.steps.len() + self.out_c.len() >= -b,
        }
    }
}

impl Partial {
    /// Where the policy stands among others, by the tiebreaker.
    pub open spec fn rank_by(&self, tiebreaker: TiebreakerKind) -> (int, int, int) {
        crate::policy::rank(
            tiebreaker,
            self.f,
            self.steps.len() as int,
            self.out_c.len() as int,
        )
    }

    /// The policy is closed and succeeds as the search asks.
    pub open spec fn is_success(&self, cx: Setting) -> bool {
        self.is_closed() && (cx.mode == SearchMode::MinCost ==> crate::proper::is_strong(
            self.nodes,
        ))
    }
}

/// The list leads from the policy that assigns nothing, one assignment at a time.
pub open spec fn is_chain(cx: Setting, start: Place, chain: Seq<Partial>) -> bool {
    &&& chain.len() > 0
    &&& chain[0].is_initial(cx, start)
    &&& forall|i: int|
        0 < i < chain.len() ==> (#[trigger] chain[i]).follows(cx, start, chain[i - 1])
}

/// Some list of assignments leads to the policy.
pub open spec fn is_derived(cx: Setting, start: Place, p: Partial) -> bool {
    exists|chain: Seq<Partial>| #[trigger] is_chain(cx, start, chain) && chain.last() == p
}

/// One of the policies found counts as one with `q`.
pub open spec fn is_matched(found: Seq<Partial>, q: Partial) -> bool {
    exists|j: int| 0 <= j < found.len() && q.matches(#[trigger] found[j])
}

/// The decomposition `d` at the policy `p` is accounted for: it leads to a
/// policy that is worth less than `bar` or counts as one with a policy found.
pub open spec fn is_covered(
    cx: Setting,
    start: Place,
    found: Seq<Partial>,
    p: Partial,
    d: (int, int),
    bar: int,
) -> bool {
    exists|q: Partial| #[trigger]
        q.is_child(cx, start, p, d) && ((cx.mode == SearchMode::MaxProb && q.f < bar)
            || is_matched(found, q))
}

/// All decompositions at the policy `p` are accounted for.
pub open spec fn is_expanded(
    cx: Setting,
    start: Place,
    found: Seq<Partial>,
    p: Partial,
    bar: int,
) -> bool {
    &&& !p.is_closed()
    &&& forall|d: (int, int)| #[trigger]
        crate::reach::decomposable(cx, p.next_place()).contains(d) ==> is_covered(
            cx,
            start,
            found,
            p,
            d,
            bar,
        )
}

/// The policy `p` needs no further look once `best` is known: nothing that goes
/// on from it beats that, it is closed but no solution, or everything that
/// follows from it is accounted for.
pub open spec fn is_done(
    cx: Setting,
    start: Place,
    found: Seq<Partial>,
    p: Partial,
    best: Option<int>,
    bar: int,
) -> bool {
    ||| best matches Some(b) && p.is_beaten(cx, b)
    ||| cx.mode == SearchMode::MinCost && p.is_closed() && !crate::proper::is_strong(p.nodes)
    ||| is_expanded(cx, start, found, p, bar)
}

/// The greater of the two; `x` where there is no other.
pub open spec fn at_least(best: Option<int>, x: int) -> int {
    match best {
        Some(b) => if b > x {
            b
        } else {
            x
        },
        None => x,
    }
}

/// The search is complete: it found the policy that assigns nothing, and what
/// it found needs no further look. So of every policy that is left out one with
/// the same graph was looked at, or it promised less than the best one found and
/// the threshold ask.
pub open spec fn is_exhausted(
    cx: Setting,
    start: Place,
    found: Seq<Partial>,
    best: Option<int>,
    rho: int,
) -> bool {
    &&& found.len() > 0
    &&& found[0].is_initial(cx, start)
    &&& forall|i: int| 0 <= i < found.len() ==> is_derived(cx, start, #[trigger] found[i])
    &&& forall|i: int|
        0 <= i < found.len() ==> is_done(
            cx,
            start,
            found,
            #[trigger] found[i],
            best,
            at_least(best, rho),
        )
}

/// A policy that needs no further look needs none when more is found and a
/// better one is known.
pub proof fn lemma_done_stays(
    cx: Setting,
    start: Place,
    found: Seq<Partial>,
    more: Seq<Partial>,
    p: Partial,
    best: Option<int>,
    better: Option<int>,
    bar: int,
    higher: int,
)
    requires
        is_done(cx, start, found, p, best, bar),
        found.len() <= more.len(),
        forall|j: int| 0 <= j < found.len() ==> #[trigger] more[j] == found[j],
        best matches Some(b) ==> (better matches Some(c) && b <= c),
        bar <= higher,
    ensures
        is_done(cx, start, more, p, better, higher),
{
    if is_expanded(cx, start, found, p, bar) {
        assert forall|d: (int, int)| #[trigger]
            crate::reach::decomposable(cx, p.next_place()).contains(d) implies is_covered(
            cx,
            start,
            more,
            p,
            d,
            higher,
        ) by {
            assert(is_covered(cx, start, found, p, d, bar));
            lemma_covered_stays(cx, start, found, more, p, d, bar, higher);
        }
    }
}

/// What is accounted for stays so when more is found and the bar rises.
pub proof fn lemma_covered_stays(
    cx: Setting,
    start: Place,
    found: Seq<Partial>,
    more: Seq<Partial>,
    p: Partial,
    d: (int, int),
    bar: int,
    higher: int,
)
    requires
        is_covered(cx, start, found, p, d, bar),
        found.len() <= more.len(),
        forall|j: int| 0 <= j < found.len() ==> #[trigger] more[j] == found[j],
        bar <= higher,
    ensures
        is_covered(cx, start, more, p, d, higher),
{
    let q = choose|q: Partial| #[trigger]
        q.is_child(cx, start, p, d) && ((cx.mode == SearchMode::MaxProb && q.f < bar)
            || is_matched(found, q));
    if is_matched(found, q) {
        let j = choose|j: int| 0 <= j < found.len() && q.matches(#[trigger] found[j]);
        assert(q.matches(more[j]));
        assert(is_matched(more, q));
    }
    assert(q.is_child(cx, start, p, d));
}

/// A child of a derived policy is derived.
pub proof fn lemma_child_derived(
    cx: Setting,
    start: Place,
    p: Partial,
    q: Partial,
    d: (int, int),
)
    requires
        is_derived(cx, start, p),
        q.is_child(cx, start, p, d),
    ensures
        is_derived(cx, start, q),
{
    let chain = choose|chain: Seq<Partial>| #[trigger]
        is_chain(cx, start, chain) && chain.last() == p;
    let longer = chain.push(q);
    assert(is_chain(cx, start, longer)) by {
        assert(longer[0] == chain[0]);
        assert forall|i: int| 0 < i < longer.len() implies (#[trigger] longer[i]).follows(
            cx,
            start,
            longer[i - 1],
        ) by {
            if i < chain.len() {
                assert(longer[i] == chain[i] && longer[i - 1] == chain[i - 1]);
            } else {
                assert(longer[i - 1] == chain.last());
                assert(longer[i].is_child(cx, start, longer[i - 1], d));
            }
        }
    }
    assert(longer.last() == q);
}

/// The policy that assigns nothing is derived.
pub proof fn lemma_initial_derived(cx: Setting, start: Place, p: Partial)
    requires
        p.is_initial(cx, start),
    ensures
        is_derived(cx, start, p),
{
    let chain = seq![p];
    assert(is_chain(cx, start, chain));
    assert(chain.last() == p);
}

/// The positions from `a` up to `b`.
pub open spec fn positions(a: nat, b: nat) -> Seq<int> {
    Seq::new((b - a) as nat, |i: int| a + i)
}

/// The policies are the children of `p`, one for each decomposition, in order.
pub open spec fn are_children(
    cx: Setting,
    start: Place,
    p: Partial,
    children: Seq<Partial>,
) -> bool {
    let ds = crate::reach::decomposable(cx, p.next_place());
    &&& children.len() == ds.len()
    &&& forall|x: int|
        0 <= x < ds.len() ==> (#[trigger] children[x]).is_child(cx, start, p, ds[x])
}

/// The policies found with `q`, unless it is worth less than `bar` or counts as
/// one with a policy found before.
pub open spec fn taken_up(
    cx: Setting,
    found: Seq<Partial>,
    q: Partial,
    bar: int,
) -> Seq<Partial> {
    if (cx.mode == SearchMode::MaxProb && q.f < bar) || is_matched(found, q) {
        found
    } else {
        found.push(q)
    }
}

/// The policies found once the first `n` children are taken up in turn.
pub open spec fn all_taken_up(
    cx: Setting,
    found: Seq<Partial>,
    children: Seq<Partial>,
    bar: int,
    n: nat,
) -> Seq<Partial>
    decreases n,
{
    if n == 0 {
        found
    } else {
        taken_up(
            cx,
            all_taken_up(cx, found, children, bar, (n - 1) as nat),
            children[n - 1],
            bar,
        )
    }
}

/// The policies in `more` are those found once the children of `p` are taken up.
pub open spec fn is_taken_further(
    cx: Setting,
    start: Place,
    found: Seq<Partial>,
    p: Partial,
    bar: int,
    more: Seq<Partial>,
) -> bool {
    exists|children: Seq<Partial>| #[trigger]
        are_children(cx, start, p, children) && more == all_taken_up(
            cx,
            found,
            children,
            bar,
            children.len(),
        )
}

/// Only the search for the greatest probability looks at the bar.
pub proof fn lemma_bar_is_idle(
    cx: Setting,
    found: Seq<Partial>,
    children: Seq<Partial>,
    bar: int,
    other: int,
    n: nat,
)
    requires
        cx.mode == SearchMode::MinCost,
    ensures
        all_taken_up(cx, found, children, bar, n) == all_taken_up(cx, found, children, other, n),
    decreases n,
{
    if n > 0 {
        lemma_bar_is_idle(cx, found, children, bar, other, (n - 1) as nat);
    }
}

/// A search between two looks.
#[verifier::ext_equal]
pub struct Moment {
    /// The policies found.
    pub found: Seq<Partial>,
    /// The positions of those that wait for a look, in the order in which they
    /// came.
    pub open: Seq<int>,
    /// The best closed policy.
    pub best: Option<Partial>,
}

impl Moment {
    /// The bound of the best policy.
    pub open spec fn best_f(&self) -> Option<int> {
        match self.best {
            Some(b) => Some(b.f),
            None => None,
        }
    }

    /// The policy that waits at the position `k`.
    pub open spec fn waiting(&self, k: int) -> Partial {
        self.found[self.open[k]]
    }

    /// Only the policy that assigns nothing is found.
    pub open spec fn is_initial(&self, cx: Setting, start: Place) -> bool {
        &&& self.found.len() == 1
        &&& self.found[0].is_initial(cx, start)
        &&& self.open == seq![0int]
        &&& self.best is None
    }

    /// Nothing that waits can change the result: nothing waits, or the best
    /// policy is certain within the precision of the values, or nothing that
    /// waits has a greater bound than the best policy.
    #[verifier::opaque]
    pub open spec fn is_over(&self, cx: Setting) -> bool {
        ||| self.open.len() == 0
        ||| cx.mode == SearchMode::MaxProb && self.best is Some && (self.best->0.f >= ONE
            - crate::policy::EPSILON || forall|k: int|
            0 <= k < self.open.len() ==> (#[trigger] self.waiting(k)).f <= self.best->0.f)
    }

    /// The policy that waits at `k` goes first: none of those that wait goes
    /// before it by the tiebreaker, and it goes before all that came earlier.
    #[verifier::opaque]
    pub open spec fn goes_first(&self, tiebreaker: TiebreakerKind, k: int) -> bool {
        &&& 0 <= k < self.open.len()
        &&& forall|j: int|
            0 <= j < self.open.len() ==> !crate::policy::is_lower(
                self.waiting(k).rank_by(tiebreaker),
                (#[trigger] self.waiting(j)).rank_by(tiebreaker),
            )
        &&& forall|j: int|
            0 <= j < k ==> crate::policy::is_lower(
                (#[trigger] self.waiting(j)).rank_by(tiebreaker),
                self.waiting(k).rank_by(tiebreaker),
            )
    }

    /// The search takes a look at the policy that waits at `k` and goes on as
    /// `next`. A policy that cannot beat the best one is passed over, a closed
    /// one that succeeds is the new best one, and of others the children are
    /// taken up.
    #[verifier::opaque]
    pub open spec fn looks_at(
        &self,
        cx: Setting,
        start: Place,
        rho: int,
        k: int,
        next: Moment,
    ) -> bool {
        let p = self.waiting(k);
        &&& next.open == self.open.remove(k) + positions(self.found.len(), next.found.len())
        &&& if self.best is Some && p.is_beaten(cx, self.best->0.f) {
            next.found == self.found && next.best == self.best
        } else if p.is_closed() {
            next.found == self.found && next.best == (if p.is_success(cx) {
                Some(p)
            } else {
                self.best
            })
        } else {
            next.best == self.best && is_taken_further(
                cx,
                start,
                self.found,
                p,
                at_least(self.best_f(), rho),
                next.found,
            )
        }
    }

    /// The search takes a look at the policy that goes first and goes on as `next`.
    #[verifier::opaque]
    pub open spec fn leads_to(
        &self,
        cx: Setting,
        start: Place,
        rho: int,
        tiebreaker: TiebreakerKind,
        next: Moment,
    ) -> bool {
        exists|k: int| #[trigger]
            self.goes_first(tiebreaker, k) && self.looks_at(cx, start, rho, k, next)
    }
}

impl Moment {
    /// The look at a policy that cannot beat the best one, or that is closed.
    pub proof fn lemma_look_ends(
        &self,
        cx: Setting,
        start: Place,
        rho: int,
        tiebreaker: TiebreakerKind,
        k: int,
        next: Moment,
    )
        requires
            self.goes_first(tiebreaker, k),
            next.found == self.found,
            next.open == self.open.remove(k),
            ({
                let p = self.waiting(k);
                if self.best is Some && p.is_beaten(cx, self.best->0.f) {
                    next.best == self.best
                } else {
                    p.is_closed() && next.best == (if p.is_success(cx) {
                        Some(p)
                    } else {
                        self.best
                    })
                }
            }),
        ensures
            self.leads_to(cx, start, rho, tiebreaker, next),
    {
        reveal(Moment::leads_to);
        reveal(Moment::looks_at);
        assert(next.open =~= self.open.remove(k) + positions(self.found.len(), next.found.len()));
        assert(self.looks_at(cx, start, rho, k, next));
    }

    /// The look at a policy of which the children are taken up.
    pub proof fn lemma_look_goes_on(
        &self,
        cx: Setting,
        start: Place,
        rho: int,
        tiebreaker: TiebreakerKind,
        k: int,
        next: Moment,
    )
        requires
            self.goes_first(tiebreaker, k),
            next.open == self.open.remove(k) + positions(self.found.len(), next.found.len()),
            next.best == self.best,
            self.best is Some ==> !self.waiting(k).is_beaten(cx, self.best->0.f),
            !self.waiting(k).is_closed(),
            is_taken_further(
                cx,
                start,
                self.found,
                self.waiting(k),
                at_least(self.best_f(), rho),
                next.found,
            ),
        ensures
            self.leads_to(cx, start, rho, tiebreaker, next),
    {
        reveal(Moment::leads_to);
        reveal(Moment::looks_at);
        assert(self.looks_at(cx, start, rho, k, next));
    }

    /// A search is not over as long as a policy waits that has a greater bound
    /// than the best one, which is not certain.
    pub proof fn lemma_not_over(&self, cx: Setting, k: int)
        requires
            0 <= k < self.open.len(),
            cx.mode == SearchMode::MaxProb && self.best is Some ==> self.best->0.f < ONE
                - crate::policy::EPSILON && self.best->0.f < self.waiting(k).f,
        ensures
            !self.is_over(cx),
    {
        reveal(Moment::is_over);
    }
}

/// The moment at `i` follows on the one before it, which is not the end.
pub open spec fn goes_on(
    cx: Setting,
    start: Place,
    rho: int,
    tiebreaker: TiebreakerKind,
    trace: Seq<Moment>,
    i: int,
) -> bool {
    &&& !trace[i - 1].is_over(cx)
    &&& trace[i - 1].leads_to(cx, start, rho, tiebreaker, trace[i])
}

/// The moments of a search from the start on, one look apart: as long as it is
/// not over, the policy that goes first by the tiebreaker is looked at.
pub open spec fn is_trace(
    cx: Setting,
    start: Place,
    rho: int,
    tiebreaker: TiebreakerKind,
    trace: Seq<Moment>,
) -> bool {
    &&& trace.len() > 0
    &&& trace[0].is_initial(cx, start)
    &&& forall|i: int|
        0 < i < trace.len() ==> #[trigger] goes_on(cx, start, rho, tiebreaker, trace, i)
}

/// One look more makes the trace longer.
pub proof fn lemma_trace_grows(
    cx: Setting,
    start: Place,
    rho: int,
    tiebreaker: TiebreakerKind,
    trace: Seq<Moment>,
    next: Moment,
)
    requires
        is_trace(cx, start, rho, tiebreaker, trace),
        !trace.last().is_over(cx),
        trace.last().leads_to(cx, start, rho, tiebreaker, next),
    ensures
        is_trace(cx, start, rho, tiebreaker, trace.push(next)),
{
    let longer = trace.push(next);
    assert forall|i: int| 0 < i < longer.len() implies #[trigger] goes_on(
        cx,
        start,
        rho,
        tiebreaker,
        longer,
        i,
    ) by {
        if i < trace.len() {
            assert(goes_on(cx, start, rho, tiebreaker, trace, i));
        }
    }
}

} // verus!

//! The relaxed planning graph: in which layer each fact and each action first occurs.

use std::collections::{HashMap, HashSet, VecDeque};
use vstd::prelude::*;

use crate::domain::ClassicalDomain;
use crate::hmax::ActionLists;
use crate::sets::{elements, invert};

verus! {

broadcast use vstd::std_specs::hash::group_hash_axioms;

/// The action `a` is set off by the facts: all of its precondition holds.
pub open spec fn triggered(d: ClassicalDomain, facts: Set<u32>, a: int) -> bool {
    0 <= a < d.n_actions() && d.pre(a).subset_of(facts)
}

/// The facts of the layers up to `2 * k`.
pub open spec fn known(d: ClassicalDomain, s: Set<u32>, k: nat) -> Set<u32>
    decreases k,
{
    if k == 0 {
        Set::new(|f: u32| f < d.n_facts() && s.contains(f))
    } else {
        let below = known(d, s, (k - 1) as nat);
        Set::new(
            |f: u32|
                below.contains(f) || exists|a: int| #[trigger]
                    d.adds(a, f) && triggered(d, below, a),
        )
    }
}

/// The fact `f` first occurs in the layer `2 * k`.
pub open spec fn enters(d: ClassicalDomain, s: Set<u32>, k: nat, f: u32) -> bool {
    known(d, s, k).contains(f) && (k > 0 ==> !known(d, s, (k - 1) as nat).contains(f))
}

/// The action `a` first occurs in the layer `2 * k + 1`.
pub open spec fn fires(d: ClassicalDomain, s: Set<u32>, k: nat, a: int) -> bool {
    triggered(d, known(d, s, k), a) && (k > 0 ==> !triggered(
        d,
        known(d, s, (k - 1) as nat),
        a,
    ))
}

/// `2 * k` is the first layer by which all facts of `goal` have occurred.
pub open spec fn reached_at(d: ClassicalDomain, s: Set<u32>, goal: Set<u32>, k: nat) -> bool {
    goal.subset_of(known(d, s, k)) && (k > 0 ==> !goal.subset_of(known(d, s, (k - 1) as nat)))
}

/// How the facts are gone through: the order in which they are found, the event
/// that finds each of them, and how many of them were visited. An event is a
/// number of visits and an action that is set off after that many.
pub struct Visits {
    pub order: Seq<u32>,
    pub events: Seq<(int, int)>,
    pub done: nat,
}

/// The event `x` is earlier than the event `y`: it comes after fewer visits, or
/// after as many with an action of a smaller number.
pub open spec fn is_earlier(x: (int, int), y: (int, int)) -> bool {
    x.0 < y.0 || (x.0 == y.0 && x.1 < y.1)
}

/// The first `t` visited facts set off the action `a`, and no fewer do.
pub open spec fn set_off(d: ClassicalDomain, order: Seq<u32>, t: int, a: int) -> bool {
    &&& 0 <= t <= order.len()
    &&& triggered(d, order.take(t).to_set(), a)
    &&& t > 0 ==> !triggered(d, order.take(t - 1).to_set(), a)
}

/// The event `e` is the first one whose action adds the fact `f`.
pub open spec fn brings(d: ClassicalDomain, order: Seq<u32>, e: (int, int), f: u32) -> bool {
    &&& set_off(d, order, e.0, e.1)
    &&& d.adds(e.1, f)
    &&& forall|t: int, a: int|
        is_earlier((t, a), e) && #[trigger] set_off(d, order, t, a) ==> !d.adds(a, f)
}

/// The facts `s` come first, in any order. All other facts follow by the events
/// that bring them.
pub open spec fn is_trail(d: ClassicalDomain, s: Set<u32>, v: Visits) -> bool {
    &&& v.done <= v.order.len()
    &&& v.events.len() == v.order.len()
    &&& v.order.no_duplicates()
    &&& forall|f: u32| known(d, s, 0).contains(f) ==> #[trigger] v.order.contains(f)
    &&& forall|i: int|
        0 <= i < v.order.len() ==> if known(d, s, 0).contains(#[trigger] v.order[i]) {
            v.events[i] == (-1int, -1int)
        } else {
            0 <= v.events[i].0 <= v.done && brings(d, v.order, v.events[i], v.order[i])
        }
    &&& forall|i: int, j: int|
        0 <= i < j < v.order.len() ==> !is_earlier(#[trigger] v.events[j], #[trigger] v.events[i])
}

/// The trail holds all that the actions add which the visited facts set off.
pub open spec fn is_visit(d: ClassicalDomain, s: Set<u32>, v: Visits) -> bool {
    &&& is_trail(d, s, v)
    &&& forall|a: int, f: u32| #[trigger]
        d.adds(a, f) && triggered(d, v.order.take(v.done as int).to_set(), a)
            ==> v.order.contains(f)
}

/// A fact more does not change what fewer visits set off.
proof fn lemma_set_off_push(d: ClassicalDomain, order: Seq<u32>, f: u32, t: int, a: int)
    requires
        t <= order.len(),
    ensures
        set_off(d, order.push(f), t, a) == set_off(d, order, t, a),
{
    if t >= 0 {
        assert(order.push(f).take(t) =~= order.take(t));
        if t > 0 {
            assert(order.push(f).take(t - 1) =~= order.take(t - 1));
        }
    }
}

/// More visits set off no fewer actions.
proof fn lemma_triggered_later(d: ClassicalDomain, order: Seq<u32>, i: int, j: int, a: int)
    requires
        0 <= i <= j <= order.len(),
        triggered(d, order.take(i).to_set(), a),
    ensures
        triggered(d, order.take(j).to_set(), a),
{
    assert forall|p: u32| d.pre(a).contains(p) implies order.take(j).to_set().contains(p) by {
        assert(order.take(i).to_set().contains(p));
        let x = choose|x: int| 0 <= x < i && order.take(i)[x] == p;
        assert(order.take(j)[x] == p);
    }
}

/// Facts stay known.
pub proof fn lemma_known_grows(d: ClassicalDomain, s: Set<u32>, i: nat, j: nat)
    requires
        i <= j,
    ensures
        known(d, s, i).subset_of(known(d, s, j)),
    decreases j,
{
    if i < j {
        lemma_known_grows(d, s, i, (j - 1) as nat);
    }
}

/// Known facts are facts of the domain.
pub proof fn lemma_known_bound(d: ClassicalDomain, s: Set<u32>, k: nat, f: u32)
    requires
        known(d, s, k).contains(f),
    ensures
        f < d.n_facts(),
    decreases k,
{
    if k > 0 && known(d, s, (k - 1) as nat).contains(f) {
        lemma_known_bound(d, s, (k - 1) as nat, f);
    }
}

/// The number of entries that are not placed.
spec fn unplaced(placed: Seq<u32>) -> nat
    decreases placed.len(),
{
    if placed.len() == 0 {
        0
    } else {
        unplaced(placed.drop_last()) + if placed.last() == u32::MAX {
            1nat
        } else {
            0nat
        }
    }
}

proof fn lemma_unplaced_update(placed: Seq<u32>, i: int, v: u32)
    requires
        0 <= i < placed.len(),
        placed[i] == u32::MAX,
        v != u32::MAX,
    ensures
        unplaced(placed.update(i, v)) + 1 == unplaced(placed),
    decreases placed.len(),
{
    let u = placed.update(i, v);
    if i == placed.len() - 1 {
        assert(u.drop_last() =~= placed.drop_last());
    } else {
        assert(u.drop_last() =~= placed.drop_last().update(i, v));
        lemma_unplaced_update(placed.drop_last(), i, v);
    }
}

proof fn lemma_unplaced_bound(placed: Seq<u32>)
    ensures
        unplaced(placed) <= placed.len(),
    decreases placed.len(),
{
    if placed.len() > 0 {
        lemma_unplaced_bound(placed.drop_last());
    }
}

/// The fact `g` has a layer.
spec fn is_placed(placed: Seq<u32>, g: u32) -> bool {
    g < placed.len() && placed[g as int] != u32::MAX
}

/// The number of goal facts without a layer.
spec fn open_goals(goal: Seq<u32>, placed: Seq<u32>) -> nat
    decreases goal.len(),
{
    if goal.len() == 0 {
        0
    } else {
        open_goals(goal.drop_last(), placed) + if is_placed(placed, goal.last()) {
            0nat
        } else {
            1nat
        }
    }
}

proof fn lemma_open_goals_zero(goal: Seq<u32>, placed: Seq<u32>)
    ensures
        open_goals(goal, placed) == 0 <==> forall|i: int|
            0 <= i < goal.len() ==> is_placed(placed, #[trigger] goal[i]),
    decreases goal.len(),
{
    if goal.len() > 0 {
        let rest = goal.drop_last();
        lemma_open_goals_zero(rest, placed);
        if open_goals(goal, placed) == 0 {
            assert forall|i: int| 0 <= i < goal.len() implies is_placed(
                placed,
                #[trigger] goal[i],
            ) by {
                if i < rest.len() {
                    assert(is_placed(placed, rest[i]));
                }
            }
        } else if forall|i: int| 0 <= i < goal.len() ==> is_placed(placed, #[trigger] goal[i]) {
            assert forall|i: int| 0 <= i < rest.len() implies is_placed(
                placed,
                #[trigger] rest[i],
            ) by {
                assert(is_placed(placed, goal[i]));
            }
            assert(is_placed(placed, goal[goal.len() - 1]));
        }
    }
}

/// Placing a fact closes the goal that it is, and no other.
proof fn lemma_open_goals_update(goal: Seq<u32>, placed: Seq<u32>, e: u32, v: u32)
    requires
        goal.no_duplicates(),
        e < placed.len(),
        placed[e as int] == u32::MAX,
        v != u32::MAX,
    ensures
        goal.contains(e) ==> open_goals(goal, placed.update(e as int, v)) + 1 == open_goals(
            goal,
            placed,
        ),
        !goal.contains(e) ==> open_goals(goal, placed.update(e as int, v)) == open_goals(
            goal,
            placed,
        ),
    decreases goal.len(),
{
    if goal.len() > 0 {
        let rest = goal.drop_last();
        assert(rest.no_duplicates()) by {
            assert forall|i: int, j: int| 0 <= i < rest.len() && 0 <= j < rest.len() && i
                != j implies rest[i] != rest[j] by {
                assert(goal[i] != goal[j]);
            }
        }
        lemma_open_goals_update(rest, placed, e, v);
        if goal.last() == e {
            assert(goal[goal.len() - 1] == e);
            if rest.contains(e) {
                let i = choose|i: int| 0 <= i < rest.len() && rest[i] == e;
                assert(goal[i] == goal[goal.len() - 1]);
            }
        } else {
            if goal.contains(e) {
                let i = choose|i: int| 0 <= i < goal.len() && goal[i] == e;
                assert(rest[i] == e);
            }
            if rest.contains(e) {
                let i = choose|i: int| 0 <= i < rest.len() && rest[i] == e;
                assert(goal[i] == e);
            }
        }
    }
}

/// The graph under construction.
struct Builder {
    /// The layer of each fact, `u32::MAX` where it has none.
    fact_placed: Vec<u32>,
    /// The layer of each action, `u32::MAX` where it has none.
    action_placed: Vec<u32>,
    /// The facts that were taken from the queue.
    visited: Vec<bool>,
    /// For each fact, the placed actions that add it.
    effects: Vec<Vec<usize>>,
    /// The facts that were not visited yet, with their layers.
    queue: VecDeque<(u32, u32)>,
    /// The number of goal facts without a layer.
    remaining_goals: usize,
    /// How the facts were gone through so far.
    trail: Ghost<Visits>,
}

/// The trail agrees with the queue, the visited facts and the placed ones.
#[verifier::opaque]
spec fn trail_ok(
    d: ClassicalDomain,
    s: Set<u32>,
    v: Visits,
    queue: Seq<(u32, u32)>,
    visited: Seq<bool>,
    placed: Seq<u32>,
) -> bool {
    &&& is_trail(d, s, v)
    &&& placed.len() == d.n_facts()
    &&& visited.len() == d.n_facts()
    &&& v.done + queue.len() == v.order.len()
    &&& forall|i: int| 0 <= i < queue.len() ==> (#[trigger] queue[i]).0 == v.order[v.done + i]
    &&& forall|f: u32| #[trigger]
        v.order.take(v.done as int).contains(f) <==> f < d.n_facts() && visited[f as int]
    &&& forall|f: u32| #[trigger] v.order.contains(f) <==> is_placed(placed, f)
}

/// The action `a` is set off by the last visit, and all events before that were
/// dealt with.
#[verifier::opaque]
spec fn is_ready(d: ClassicalDomain, v: Visits, acted: Seq<u32>, a: int) -> bool {
    &&& set_off(d, v.order, v.done as int, a)
    &&& forall|i: int|
        0 <= i < v.events.len() ==> !is_earlier((v.done as int, a), #[trigger] v.events[i])
    &&& forall|t: int, b: int|
        is_earlier((t, b), (v.done as int, a)) && #[trigger] set_off(d, v.order, t, b) ==> b != a
            && acted[b] != u32::MAX
}

/// The last visit found the goal fact at the position `i`, with the layer `l`.
spec fn is_new_goal(v: Visits, placed: Seq<u32>, goal: Set<u32>, l: nat, i: int) -> bool {
    &&& 0 <= i < v.order.len()
    &&& goal.contains(v.order[i])
    &&& v.events[i].0 == v.done
    &&& is_placed(placed, v.order[i])
    &&& placed[v.order[i] as int] == l
}

/// The last visit found a goal fact with the layer `l`.
spec fn has_new_goal(v: Visits, placed: Seq<u32>, goal: Set<u32>, l: nat) -> bool {
    exists|i: int| #[trigger] is_new_goal(v, placed, goal, l, i)
}

/// The trail with one more fact, which the action `a` adds.
spec fn trail_push(v: Visits, f: u32, a: int) -> Visits {
    Visits {
        order: v.order.push(f),
        events: v.events.push((v.done as int, a)),
        done: v.done,
    }
}

/// The trail goes on with a fact that the ready action adds.
proof fn lemma_trail_push(
    d: ClassicalDomain,
    s: Set<u32>,
    v: Visits,
    queue: Seq<(u32, u32)>,
    visited: Seq<bool>,
    placed: Seq<u32>,
    acted: Seq<u32>,
    a: int,
    f: u32,
    l: u32,
)
    requires
        trail_ok(d, s, v, queue, visited, placed),
        is_ready(d, v, acted, a),
        d.adds(a, f),
        f < d.n_facts(),
        placed[f as int] == u32::MAX,
        !known(d, s, 0).contains(f),
        l != u32::MAX,
        forall|b: int|
            b != a && 0 <= b < d.n_actions() && #[trigger] acted[b] != u32::MAX ==> !d.adds(b, f),
    ensures
        trail_ok(
            d,
            s,
            trail_push(v, f, a),
            queue.push((f, l)),
            visited,
            placed.update(f as int, l),
        ),
        is_ready(d, trail_push(v, f, a), acted, a),
{
    reveal(trail_ok);
    reveal(is_ready);
    let w = trail_push(v, f, a);
    let e = (v.done as int, a);
    assert(!v.order.contains(f));
    assert forall|x: u32| #[trigger] w.order.contains(x) <==> x == f || v.order.contains(x) by {
        if v.order.contains(x) {
            let i = choose|i: int| 0 <= i < v.order.len() && v.order[i] == x;
            assert(w.order[i] == x);
        }
        assert(w.order[v.order.len() as int] == f);
    }
    assert forall|t: int, b: int| t <= v.done implies #[trigger] set_off(d, w.order, t, b)
        == set_off(d, v.order, t, b) by {
        lemma_set_off_push(d, v.order, f, t, b);
    }
    assert(brings(d, w.order, e, f)) by {
        assert forall|t: int, b: int|
            is_earlier((t, b), e) && #[trigger] set_off(d, w.order, t, b) implies !d.adds(b, f) by {
            assert(set_off(d, v.order, t, b));
            assert(acted[b] != u32::MAX);
        }
    }
    assert forall|i: int| 0 <= i < w.order.len() implies if known(d, s, 0).contains(
        #[trigger] w.order[i],
    ) {
        w.events[i] == (-1int, -1int)
    } else {
        0 <= w.events[i].0 <= w.done && brings(d, w.order, w.events[i], w.order[i])
    } by {
        if i < v.order.len() {
            assert(w.order[i] == v.order[i]);
            assert(w.events[i] == v.events[i]);
            if !known(d, s, 0).contains(v.order[i]) {
                let e1 = v.events[i];
                assert(brings(d, v.order, e1, v.order[i]));
                assert forall|t: int, b: int|
                    is_earlier((t, b), e1) && #[trigger] set_off(
                        d,
                        w.order,
                        t,
                        b,
                    ) implies !d.adds(b, v.order[i]) by {
                    assert(set_off(d, v.order, t, b));
                }
            }
        }
    }
    assert(w.order.no_duplicates()) by {
        assert forall|i: int, j: int| 0 <= i < w.order.len() && 0 <= j < w.order.len() && i
            != j implies w.order[i] != w.order[j] by {
            if i < v.order.len() {
                assert(v.order.contains(v.order[i]));
            }
            if j < v.order.len() {
                assert(v.order.contains(v.order[j]));
            }
        }
    }
    assert(w.order.take(w.done as int) =~= v.order.take(v.done as int));
    let q = queue.push((f, l));
    assert forall|i: int| 0 <= i < q.len() implies (#[trigger] q[i]).0 == w.order[w.done + i] by {
        if i < queue.len() {
            assert(queue[i].0 == v.order[v.done + i]);
        }
    }
    assert forall|i: int| 0 <= i < w.events.len() implies !is_earlier(e, #[trigger] w.events[i]) by {
        if i < v.events.len() {
            assert(w.events[i] == v.events[i]);
        }
    }
}

/// The trail agrees with the queue after the next visit.
proof fn lemma_trail_visit(
    d: ClassicalDomain,
    s: Set<u32>,
    v: Visits,
    queue: Seq<(u32, u32)>,
    visited: Seq<bool>,
    placed: Seq<u32>,
    f: u32,
)
    requires
        trail_ok(d, s, v, queue, visited, placed),
        queue.len() > 0,
        queue[0].0 == f,
        f < d.n_facts(),
    ensures
        trail_ok(
            d,
            s,
            (Visits { done: v.done + 1, ..v }),
            queue.subrange(1, queue.len() as int),
            visited.update(f as int, true),
            placed,
        ),
{
    reveal(trail_ok);
    let w = Visits { done: v.done + 1, ..v };
    let now = visited.update(f as int, true);
    let rest = queue.subrange(1, queue.len() as int);
    assert(v.order[v.done as int] == queue[0].0);
    let a = v.order.take(v.done as int);
    let b = w.order.take(w.done as int);
    assert(b =~= a.push(f));
    assert forall|x: u32| #[trigger] b.contains(x) <==> x < d.n_facts() && now[x as int] by {
        if a.contains(x) {
            let i = choose|i: int| 0 <= i < a.len() && a[i] == x;
            assert(b[i] == x);
        }
        assert(b[a.len() as int] == f);
        if b.contains(x) && x != f {
            let i = choose|i: int| 0 <= i < b.len() && b[i] == x;
            assert(a[i] == x);
            assert(a.contains(x));
        }
    }
    assert forall|i: int| 0 <= i < rest.len() implies (#[trigger] rest[i]).0 == w.order[w.done
        + i] by {
        assert(queue[i + 1].0 == v.order[v.done + (i + 1)]);
    }
}

/// What was found before stays found.
proof fn lemma_new_goal_kept(
    v: Visits,
    placed: Seq<u32>,
    goal: Set<u32>,
    l: nat,
    f: u32,
    a: int,
    m: u32,
)
    requires
        f < placed.len(),
        placed[f as int] == u32::MAX,
        v.events.len() == v.order.len(),
        has_new_goal(v, placed, goal, l) || (goal.contains(f) && l == m && m != u32::MAX),
    ensures
        has_new_goal(trail_push(v, f, a), placed.update(f as int, m), goal, l),
{
    let w = trail_push(v, f, a);
    let after = placed.update(f as int, m);
    if has_new_goal(v, placed, goal, l) {
        let i = choose|i: int| #[trigger] is_new_goal(v, placed, goal, l, i);
        assert(w.order[i] == v.order[i]);
        assert(w.events[i] == v.events[i]);
        assert(is_new_goal(w, after, goal, l, i));
    } else {
        assert(is_new_goal(w, after, goal, l, v.order.len() as int));
    }
}

impl Builder {
    spec fn fp(&self, f: u32) -> u32 {
        self.fact_placed@[f as int]
    }

    spec fn ap(&self, a: int) -> u32 {
        self.action_placed@[a]
    }

    spec fn seen(&self) -> Set<u32> {
        Set::new(|f: u32| f < self.visited@.len() && self.visited@[f as int])
    }

    /// What holds of the layers while the facts of the layer `2 * k` are visited.
    spec fn layers_ok(&self, d: ClassicalDomain, s: Set<u32>, k: nat) -> bool {
        &&& self.fact_placed@.len() == d.n_facts()
        &&& self.action_placed@.len() == d.n_actions()
        &&& self.visited@.len() == d.n_facts()
        &&& self.effects@.len() == d.n_facts()
        &&& forall|f: u32|
            f < d.n_facts() && #[trigger] self.fp(f) != u32::MAX ==> {
                &&& self.fp(f) % 2 == 0
                &&& self.fp(f) <= 2 * k + 2
                &&& enters(d, s, (self.fp(f) / 2) as nat, f)
                &&& self.fp(f) <= 2 * (d.n_facts() - unplaced(self.fact_placed@))
            }
        &&& forall|f: u32|
            #[trigger] known(d, s, k).contains(f) ==> self.fp(f) != u32::MAX
        &&& forall|a: int|
            0 <= a < d.n_actions() && #[trigger] self.ap(a) != u32::MAX ==> {
                &&& self.ap(a) % 2 == 1
                &&& self.ap(a) <= 2 * k + 1
                &&& fires(d, s, (self.ap(a) / 2) as nat, a)
                &&& triggered(d, self.seen(), a)
            }
        &&& forall|f: u32|
            f < d.n_facts() && #[trigger] self.fp(f) != u32::MAX && self.fp(f) > 0 ==> exists|
                a: int,
            | #[trigger]
                d.adds(a, f) && self.ap(a) == self.fp(f) - 1
    }

    /// What holds of the queue while the facts of the layer `2 * k` are visited.
    spec fn queue_ok(&self, d: ClassicalDomain, k: nat) -> bool {
        &&& forall|i: int|
            0 <= i < self.queue@.len() ==> {
                let (f, l) = #[trigger] self.queue@[i];
                &&& f < d.n_facts()
                &&& self.fp(f) == l
                &&& 2 * k <= l < u32::MAX
                &&& !self.visited@[f as int]
            }
        &&& forall|i: int, j: int|
            0 <= i < j < self.queue@.len() ==> (#[trigger] self.queue@[i]).1 <= (
            #[trigger] self.queue@[j]).1 && self.queue@[i].0 != self.queue@[j].0
        &&& forall|f: u32|
            f < d.n_facts() && #[trigger] self.fp(f) != u32::MAX && !self.visited@[f as int]
                ==> self.queue@.contains((f, self.fp(f)))
        &&& forall|f: u32|
            f < d.n_facts() && #[trigger] self.visited@[f as int] ==> self.fp(f) <= 2 * k
                && self.fp(f) != u32::MAX
    }

    /// What holds of the placed action `a` and what it adds.
    spec fn effects_ok(&self, d: ClassicalDomain, a: usize) -> bool {
        forall|f: u32|
            f < d.n_facts() ==> {
                &&& #[trigger] self.effects@[f as int]@.contains(a) <==> d.adds(a as int, f)
                    && self.ap(a as int) != u32::MAX
                &&& d.adds(a as int, f) && self.ap(a as int) != u32::MAX ==> self.fp(f) != u32::MAX
            }
    }

    /// What holds of the trail.
    spec fn order_ok(&self, d: ClassicalDomain, s: Set<u32>) -> bool {
        trail_ok(d, s, self.trail@, self.queue@, self.visited@, self.fact_placed@)
    }

    /// What holds of the trail right before the action `a` is dealt with.
    spec fn ready(&self, d: ClassicalDomain, a: int) -> bool {
        is_ready(d, self.trail@, self.action_placed@, a)
    }

    /// The last visit found a goal fact with the layer `l`.
    spec fn new_goal(&self, goal: Set<u32>, l: nat) -> bool {
        has_new_goal(self.trail@, self.fact_placed@, goal, l)
    }

    /// What holds of the goal count.
    spec fn goals_ok(&self, goal: Seq<u32>) -> bool {
        self.remaining_goals == open_goals(goal, self.fact_placed@)
    }

    /// What holds of an action's effects stays true while facts are placed.
    proof fn lemma_effects_kept(before: Builder, after: Builder, d: ClassicalDomain, b: usize)
        requires
            before.effects_ok(d, b),
            after.effects@ == before.effects@,
            after.ap(b as int) == before.ap(b as int),
            forall|f: u32|
                f < d.n_facts() && #[trigger] before.fp(f) != u32::MAX ==> after.fp(f) != u32::MAX,
        ensures
            after.effects_ok(d, b),
    {
        assert forall|f: u32| f < d.n_facts() implies {
            &&& #[trigger] after.effects@[f as int]@.contains(b) <==> d.adds(b as int, f)
                && after.ap(b as int) != u32::MAX
            &&& d.adds(b as int, f) && after.ap(b as int) != u32::MAX ==> after.fp(f) != u32::MAX
        } by {
            assert(before.effects@[f as int]@.contains(b) <==> d.adds(b as int, f) && before.ap(
                b as int,
            ) != u32::MAX);
            if before.fp(f) != u32::MAX {
                assert(after.fp(f) != u32::MAX);
            }
        }
    }

    /// Gives the fact `e`, which the action `a` adds, the layer `l` and queues it.
    fn place_fact(
        &mut self,
        d: &ClassicalDomain,
        goal: &HashSet<u32>,
        goal_list: &Vec<u32>,
        a: usize,
        e: u32,
        l: u32,
        Ghost(s): Ghost<Set<u32>>,
        Ghost(k): Ghost<nat>,
    )
        requires
            old(self).layers_ok(*d, s, k),
            old(self).queue_ok(*d, k),
            old(self).goals_ok(goal_list@),
            goal_list@.no_duplicates(),
            forall|x: u32| goal@.contains(x) <==> #[trigger] goal_list@.contains(x),
            d.adds(a as int, e),
            old(self).ap(a as int) == 2 * k + 1,
            old(self).fp(e) == u32::MAX,
            old(self).order_ok(*d, s),
            old(self).ready(*d, a as int),
            forall|b: int|
                b != a && 0 <= b < d.n_actions() && #[trigger] old(self).action_placed@[b]
                    != u32::MAX ==> !d.adds(b, e),
            l == 2 * k + 2,
            l < u32::MAX,
            2 * k <= 2 * (d.n_facts() - unplaced(old(self).fact_placed@)),
        ensures
            final(self).layers_ok(*d, s, k),
            final(self).queue_ok(*d, k),
            final(self).goals_ok(goal_list@),
            final(self).fact_placed@ == old(self).fact_placed@.update(e as int, l),
            final(self).action_placed == old(self).action_placed,
            final(self).visited == old(self).visited,
            final(self).effects == old(self).effects,
            unplaced(final(self).fact_placed@) + final(self).queue@.len() == unplaced(
                old(self).fact_placed@,
            ) + old(self).queue@.len(),
            unplaced(final(self).fact_placed@) < unplaced(old(self).fact_placed@),
            final(self).order_ok(*d, s),
            final(self).ready(*d, a as int),
            final(self).trail@.done == old(self).trail@.done,
            final(self).trail@.order.take(old(self).trail@.done as int) == old(
                self,
            ).trail@.order.take(old(self).trail@.done as int),
            old(self).new_goal(goal@, l as nat) || final(self).remaining_goals < old(
                self,
            ).remaining_goals ==> final(self).new_goal(goal@, l as nat),
            final(self).remaining_goals <= old(self).remaining_goals,
    {
        let ghost before = *self;
        proof {
            lemma_known_grows(*d, s, 0, k);
            lemma_trail_push(
                *d,
                s,
                self.trail@,
                self.queue@,
                self.visited@,
                self.fact_placed@,
                self.action_placed@,
                a as int,
                e,
                l,
            );
            assert(self.trail@.events.len() == self.trail@.order.len()) by {
                reveal(trail_ok);
            }
            if before.new_goal(goal@, l as nat) || goal@.contains(e) {
                lemma_new_goal_kept(
                    self.trail@,
                    self.fact_placed@,
                    goal@,
                    l as nat,
                    e,
                    a as int,
                    l,
                );
            }
            lemma_unplaced_update(self.fact_placed@, e as int, l);
            lemma_open_goals_update(goal_list@, self.fact_placed@, e, l);
        }
        self.fact_placed.set(e as usize, l);
        self.queue.push_back((e, l));
        self.trail = Ghost(trail_push(self.trail@, e, a as int));
        assert(self.trail@.order.take(before.trail@.done as int)
            =~= before.trail@.order.take(before.trail@.done as int)) by {
            reveal(trail_ok);
        }
        if goal.contains(&e) {
            assert(goal_list@.contains(e));
            self.remaining_goals = self.remaining_goals - 1;
        } else {
            assert(!goal_list@.contains(e));
        }
        proof {
            let q0 = before.queue@;
            let q1 = self.queue@;
            assert(q1 == q0.push((e, l)));
            assert forall|f: u32| f < d.n_facts() && f != e implies #[trigger] self.fp(f)
                == before.fp(f) by {}
            assert(self.fp(e) == l);
            assert(self.seen() =~= before.seen());
            assert(known(*d, s, k + 1).contains(e)) by {
                assert(before.ap(a as int) != u32::MAX);
                assert(d.adds(a as int, e) && triggered(*d, known(*d, s, k), a as int));
            }
            assert(!known(*d, s, k).contains(e));
            assert(enters(*d, s, k + 1, e));
            assert(self.fp(e) / 2 == k + 1);
            assert forall|f: u32| f < d.n_facts() && #[trigger] self.fp(f) != u32::MAX implies {
                &&& self.fp(f) % 2 == 0
                &&& self.fp(f) <= 2 * k + 2
                &&& enters(*d, s, (self.fp(f) / 2) as nat, f)
                &&& self.fp(f) <= 2 * (d.n_facts() - unplaced(self.fact_placed@))
            } by {
                if f != e {
                    assert(before.fp(f) != u32::MAX);
                }
            }
            assert forall|f: u32| #[trigger] known(*d, s, k).contains(f) implies self.fp(f)
                != u32::MAX by {
                lemma_known_bound(*d, s, k, f);
                assert(before.fp(f) != u32::MAX);
            }
            assert forall|b: int| 0 <= b < d.n_actions() implies #[trigger] self.ap(b)
                == before.ap(b) by {}
            assert forall|f: u32|
                f < d.n_facts() && #[trigger] self.fp(f) != u32::MAX && self.fp(f)
                    > 0 implies exists|b: int| #[trigger]
                d.adds(b, f) && self.ap(b) == self.fp(f) - 1 by {
                if f == e {
                    assert(d.adds(a as int, e) && self.ap(a as int) == self.fp(e) - 1);
                } else {
                    let b = choose|b: int| #[trigger]
                        d.adds(b, f) && before.ap(b) == before.fp(f) - 1;
                    assert(d.adds(b, f) && self.ap(b) == self.fp(f) - 1);
                }
            }
            assert forall|i: int| 0 <= i < q1.len() implies {
                let (f, m) = #[trigger] q1[i];
                &&& f < d.n_facts()
                &&& self.fp(f) == m
                &&& 2 * k <= m < u32::MAX
                &&& !self.visited@[f as int]
            } by {
                if i < q0.len() {
                    assert(q0[i] == q1[i]);
                    assert(before.fp(q0[i].0) != u32::MAX);
                } else {
                    if before.visited@[e as int] {
                        assert(before.fp(e) != u32::MAX);
                    }
                }
            }
            assert forall|i: int, j: int| 0 <= i < j < q1.len() implies (#[trigger] q1[i]).1 <= (
            #[trigger] q1[j]).1 && q1[i].0 != q1[j].0 by {
                assert(q0[i] == q1[i]);
                if j < q0.len() {
                    assert(q0[j] == q1[j]);
                } else {
                    assert(before.fp(q0[i].0) != u32::MAX);
                }
            }
            assert forall|f: u32|
                f < d.n_facts() && #[trigger] self.fp(f) != u32::MAX
                    && !self.visited@[f as int] implies q1.contains((f, self.fp(f))) by {
                if f == e {
                    assert(q1[q0.len() as int] == (e, l));
                } else {
                    assert(before.fp(f) != u32::MAX);
                    let j = choose|j: int| 0 <= j < q0.len() && q0[j] == (f, before.fp(f));
                    assert(q1[j] == (f, self.fp(f)));
                }
            }
            assert forall|f: u32| f < d.n_facts() && #[trigger] self.visited@[f as int] implies
                self.fp(f) <= 2 * k && self.fp(f) != u32::MAX by {
                assert(before.visited@[f as int]);
                assert(before.fp(f) != u32::MAX);
            }
        }
    }

    /// Records what the placed action `a` adds, and gives the facts among it
    /// that have no layer yet the layer `l`.
    fn place_effects(
        &mut self,
        d: &ClassicalDomain,
        goal: &HashSet<u32>,
        goal_list: &Vec<u32>,
        add: &Vec<u32>,
        a: usize,
        l: u32,
        Ghost(s): Ghost<Set<u32>>,
        Ghost(k): Ghost<nat>,
    )
        requires
            old(self).layers_ok(*d, s, k),
            old(self).queue_ok(*d, k),
            old(self).goals_ok(goal_list@),
            goal_list@.no_duplicates(),
            forall|x: u32| goal@.contains(x) <==> #[trigger] goal_list@.contains(x),
            a < d.n_actions(),
            add@.to_set() == d.add(a as int),
            old(self).ap(a as int) == 2 * k + 1,
            old(self).order_ok(*d, s),
            old(self).ready(*d, a as int),
            d.n_actions() <= usize::MAX,
            l == 2 * k + 2,
            l < u32::MAX,
            2 * k <= 2 * (d.n_facts() - unplaced(old(self).fact_placed@)),
            forall|b: usize| b != a ==> #[trigger] old(self).effects_ok(*d, b),
            forall|f: u32|
                f < d.n_facts() ==> !(#[trigger] old(self).effects@[f as int])@.contains(a),
        ensures
            final(self).layers_ok(*d, s, k),
            final(self).queue_ok(*d, k),
            final(self).goals_ok(goal_list@),
            final(self).action_placed == old(self).action_placed,
            final(self).visited == old(self).visited,
            forall|b: usize| #[trigger] final(self).effects_ok(*d, b),
            forall|f: u32|
                f < d.n_facts() && #[trigger] old(self).fp(f) != u32::MAX ==> final(self).fp(f)
                    == old(self).fp(f),
            unplaced(final(self).fact_placed@) + final(self).queue@.len() == unplaced(
                old(self).fact_placed@,
            ) + old(self).queue@.len(),
            unplaced(final(self).fact_placed@) <= unplaced(old(self).fact_placed@),
            final(self).order_ok(*d, s),
            final(self).ready(*d, a as int),
            final(self).trail@.done == old(self).trail@.done,
            final(self).trail@.order.take(old(self).trail@.done as int) == old(
                self,
            ).trail@.order.take(old(self).trail@.done as int),
            old(self).new_goal(goal@, l as nat) || final(self).remaining_goals < old(
                self,
            ).remaining_goals ==> final(self).new_goal(goal@, l as nat),
            final(self).remaining_goals <= old(self).remaining_goals,
    {
        let mut i: usize = 0;
        while i < add.len()
            invariant
                i <= add@.len(),
                self.layers_ok(*d, s, k),
                self.queue_ok(*d, k),
                self.goals_ok(goal_list@),
                goal_list@.no_duplicates(),
                forall|x: u32| goal@.contains(x) <==> #[trigger] goal_list@.contains(x),
                a < d.n_actions(),
                add@.to_set() == d.add(a as int),
                self.action_placed == old(self).action_placed,
                self.visited == old(self).visited,
                self.ap(a as int) == 2 * k + 1,
                self.order_ok(*d, s),
                self.ready(*d, a as int),
                self.trail@.done == old(self).trail@.done,
                self.trail@.order.take(old(self).trail@.done as int) == old(
                    self,
                ).trail@.order.take(old(self).trail@.done as int),
                d.n_actions() <= usize::MAX,
                l == 2 * k + 2,
                l < u32::MAX,
                2 * k <= 2 * (d.n_facts() - unplaced(self.fact_placed@)),
                forall|b: usize| b != a ==> #[trigger] self.effects_ok(*d, b),
                forall|f: u32|
                    f < d.n_facts() ==> (#[trigger] self.effects@[f as int]@.contains(a)
                        <==> add@.take(i as int).contains(f)),
                forall|j: int|
                    0 <= j < i && (#[trigger] add@[j]) < d.n_facts() ==> self.fp(add@[j])
                        != u32::MAX,
                forall|f: u32|
                    f < d.n_facts() && #[trigger] old(self).fp(f) != u32::MAX ==> self.fp(f)
                        == old(self).fp(f),
                unplaced(self.fact_placed@) + self.queue@.len() == unplaced(
                    old(self).fact_placed@,
                ) + old(self).queue@.len(),
                unplaced(self.fact_placed@) <= unplaced(old(self).fact_placed@),
                old(self).new_goal(goal@, l as nat) || self.remaining_goals < old(
                    self,
                ).remaining_goals ==> self.new_goal(goal@, l as nat),
                self.remaining_goals <= old(self).remaining_goals,
            decreases add@.len() - i,
        {
            let e: u32 = add[i];
            let ghost before = *self;
            let ghost seen_list = add@.take(i as int);
            assert(add@.take(i + 1) =~= seen_list.push(e));
            proof {
                assert(add@.to_set().contains(e));
                assert forall|g: u32| seen_list.push(e).contains(g) <==> g == e
                    || seen_list.contains(g) by {
                    if seen_list.contains(g) {
                        let j = choose|j: int| 0 <= j < seen_list.len() && seen_list[j] == g;
                        assert(seen_list.push(e)[j] == g);
                    }
                    assert(seen_list.push(e)[seen_list.len() as int] == e);
                }
            }
            if (e as usize) < self.fact_placed.len() {
                assert(d.adds(a as int, e));
                self.effects[e as usize].push(a);
                let ghost mid = *self;
                proof {
                    let list0 = before.effects@[e as int]@;
                    let list1 = mid.effects@[e as int]@;
                    assert(list1 == list0.push(a));
                    assert forall|b: usize| list1.contains(b) <==> b == a || list0.contains(b) by {
                        if list0.contains(b) {
                            let j = choose|j: int| 0 <= j < list0.len() && list0[j] == b;
                            assert(list1[j] == b);
                        }
                        assert(list1[list0.len() as int] == a);
                    }
                    assert forall|f: u32| f < d.n_facts() && f != e implies #[trigger] mid.effects@[f as int]
                        == before.effects@[f as int] by {}
                    assert(mid.layers_ok(*d, s, k)) by {
                        assert(mid.seen() =~= before.seen());
                        assert forall|f: u32| f < d.n_facts() implies #[trigger] mid.fp(f)
                            == before.fp(f) by {}
                        assert forall|b: int| #[trigger] mid.ap(b) == before.ap(b) by {}
                        assert forall|f: u32|
                            f < d.n_facts() && #[trigger] mid.fp(f) != u32::MAX && mid.fp(f)
                                > 0 implies exists|b: int| #[trigger]
                            d.adds(b, f) && mid.ap(b) == mid.fp(f) - 1 by {
                            let b = choose|b: int| #[trigger]
                                d.adds(b, f) && before.ap(b) == before.fp(f) - 1;
                            assert(d.adds(b, f) && mid.ap(b) == mid.fp(f) - 1);
                        }
                    }
                    assert(mid.queue_ok(*d, k)) by {
                        assert forall|f: u32| f < d.n_facts() implies #[trigger] mid.fp(f)
                            == before.fp(f) by {}
                    }
                    assert forall|b: usize| b != a implies #[trigger] mid.effects_ok(*d, b) by {
                        assert(before.effects_ok(*d, b));
                        assert forall|f: u32| f < d.n_facts() implies {
                            &&& #[trigger] mid.effects@[f as int]@.contains(b) <==> d.adds(
                                b as int,
                                f,
                            ) && mid.ap(b as int) != u32::MAX
                            &&& d.adds(b as int, f) && mid.ap(b as int) != u32::MAX ==> mid.fp(f)
                                != u32::MAX
                        } by {
                            assert(before.effects@[f as int]@.contains(b) <==> d.adds(b as int, f)
                                && before.ap(b as int) != u32::MAX);
                        }
                    }
                }
                if self.fact_placed[e as usize] == u32::MAX {
                    proof {
                        assert forall|b: int|
                            b != a && 0 <= b < d.n_actions() && #[trigger] mid.action_placed@[b]
                                != u32::MAX implies !d.adds(b, e) by {
                            let c = b as usize;
                            assert(mid.effects_ok(*d, c));
                            assert(mid.effects@[e as int]@.contains(c) <==> d.adds(c as int, e)
                                && mid.ap(c as int) != u32::MAX);
                            assert(mid.ap(c as int) != u32::MAX);
                        }
                    }
                    self.place_fact(d, goal, goal_list, a, e, l, Ghost(s), Ghost(k));
                    proof {
                        assert forall|f: u32| f < d.n_facts() && f != e implies #[trigger] self.fp(f)
                            == mid.fp(f) by {}
                        assert(self.fp(e) == l);
                        assert forall|b: usize| b != a implies #[trigger] self.effects_ok(
                            *d,
                            b,
                        ) by {
                            assert(mid.effects_ok(*d, b));
                            Self::lemma_effects_kept(mid, *self, *d, b);
                        }
                    }
                }
                proof {
                    assert(self.effects@ == mid.effects@);
                    assert(self.effects@[e as int]@.contains(a));
                }
            }
            proof {
                assert forall|f: u32| f < d.n_facts() implies (
                #[trigger] self.effects@[f as int]@.contains(a) <==> add@.take(i + 1).contains(
                    f,
                )) by {
                    assert(before.effects@[f as int]@.contains(a) <==> seen_list.contains(f));
                }
            }
            i += 1;
        }
        proof {
            assert(add@.take(i as int) =~= add@);
            assert(self.effects_ok(*d, a)) by {
                assert forall|f: u32| f < d.n_facts() implies {
                    &&& #[trigger] self.effects@[f as int]@.contains(a) <==> d.adds(a as int, f)
                        && self.ap(a as int) != u32::MAX
                    &&& d.adds(a as int, f) && self.ap(a as int) != u32::MAX ==> self.fp(f)
                        != u32::MAX
                } by {
                    assert(add@.to_set().contains(f) <==> add@.contains(f));
                    if add@.contains(f) {
                        let j = choose|j: int| 0 <= j < add@.len() && add@[j] == f;
                        assert(add@[j] < d.n_facts());
                    }
                }
            }
        }
    }

    /// Gives the action `a`, all of whose precondition was visited, the layer
    /// above `l`, and places what it adds. Above the layer 0 the fact `f` of the
    /// layer `l` is the part of the precondition that was visited last.
    fn place_action(
        &mut self,
        d: &ClassicalDomain,
        goal: &HashSet<u32>,
        goal_list: &Vec<u32>,
        add: &Vec<u32>,
        a: usize,
        Ghost(f): Ghost<u32>,
        l: u32,
        Ghost(s): Ghost<Set<u32>>,
        Ghost(k): Ghost<nat>,
    )
        requires
            2 * (d.n_facts() + 1) < u32::MAX,
            old(self).layers_ok(*d, s, k),
            old(self).queue_ok(*d, k),
            old(self).goals_ok(goal_list@),
            goal_list@.no_duplicates(),
            forall|x: u32| goal@.contains(x) <==> #[trigger] goal_list@.contains(x),
            a < d.n_actions(),
            add@.to_set() == d.add(a as int),
            triggered(*d, old(self).seen(), a as int),
            k > 0 ==> d.pre(a as int).contains(f) && f < d.n_facts() && old(self).fp(f) == l
                && old(self).visited@[f as int],
            l == 2 * k,
            old(self).ap(a as int) == u32::MAX,
            old(self).order_ok(*d, s),
            old(self).ready(*d, a as int),
            d.n_actions() <= usize::MAX,
            forall|b: usize| #[trigger] old(self).effects_ok(*d, b),
        ensures
            final(self).layers_ok(*d, s, k),
            final(self).queue_ok(*d, k),
            final(self).goals_ok(goal_list@),
            final(self).action_placed@ == old(self).action_placed@.update(
                a as int,
                (2 * k + 1) as u32,
            ),
            final(self).visited == old(self).visited,
            forall|b: usize| #[trigger] final(self).effects_ok(*d, b),
            forall|x: u32|
                x < d.n_facts() && #[trigger] old(self).fp(x) != u32::MAX ==> final(self).fp(x)
                    == old(self).fp(x),
            unplaced(final(self).fact_placed@) + final(self).queue@.len() == unplaced(
                old(self).fact_placed@,
            ) + old(self).queue@.len(),
            final(self).order_ok(*d, s),
            final(self).ready(*d, a as int),
            final(self).trail@.done == old(self).trail@.done,
            final(self).trail@.order.take(old(self).trail@.done as int) == old(
                self,
            ).trail@.order.take(old(self).trail@.done as int),
            old(self).new_goal(goal@, 2 * k + 2) || final(self).remaining_goals < old(
                self,
            ).remaining_goals ==> final(self).new_goal(goal@, 2 * k + 2),
            final(self).remaining_goals <= old(self).remaining_goals,
    {
        let ghost before = *self;
        proof {
            lemma_unplaced_bound(self.fact_placed@);
            if k > 0 {
                assert(before.fp(f) != u32::MAX);
            }
        }
        self.action_placed.set(a, l + 1);
        let ghost mid = *self;
        proof {
            assert(mid.seen() =~= before.seen());
            assert forall|x: u32| x < d.n_facts() implies #[trigger] mid.fp(x) == before.fp(
                x,
            ) by {}
            assert forall|b: int| 0 <= b < d.n_actions() && b != a implies #[trigger] mid.ap(b)
                == before.ap(b) by {}
            assert(mid.ap(a as int) == 2 * k + 1);
            assert(triggered(*d, known(*d, s, k), a as int)) by {
                assert forall|p: u32| d.pre(a as int).contains(p) implies known(
                    *d,
                    s,
                    k,
                ).contains(p) by {
                    assert(before.seen().contains(p));
                    assert(before.visited@[p as int]);
                    assert(before.fp(p) != u32::MAX);
                    lemma_known_grows(*d, s, (before.fp(p) / 2) as nat, k);
                }
            }
            if k > 0 {
                assert(!triggered(*d, known(*d, s, (k - 1) as nat), a as int)) by {
                    assert(enters(*d, s, (before.fp(f) / 2) as nat, f));
                    assert(before.fp(f) / 2 == k);
                }
            }
            assert(mid.ap(a as int) / 2 == k);
            assert(mid.ready(*d, a as int)) by {
                reveal(is_ready);
            }
            assert(fires(*d, s, k, a as int));
            assert(mid.layers_ok(*d, s, k)) by {
                assert forall|x: u32|
                    x < d.n_facts() && #[trigger] mid.fp(x) != u32::MAX && mid.fp(x)
                        > 0 implies exists|b: int| #[trigger]
                    d.adds(b, x) && mid.ap(b) == mid.fp(x) - 1 by {
                    let b = choose|b: int| #[trigger]
                        d.adds(b, x) && before.ap(b) == before.fp(x) - 1;
                    assert(before.fp(x) != u32::MAX);
                    assert(b != a);
                    assert(d.adds(b, x) && mid.ap(b) == mid.fp(x) - 1);
                }
            }
            assert(mid.queue_ok(*d, k));
            assert forall|b: usize| b != a implies #[trigger] mid.effects_ok(*d, b) by {
                assert(before.effects_ok(*d, b));
                assert forall|x: u32| x < d.n_facts() implies {
                    &&& #[trigger] mid.effects@[x as int]@.contains(b) <==> d.adds(b as int, x)
                        && mid.ap(b as int) != u32::MAX
                    &&& d.adds(b as int, x) && mid.ap(b as int) != u32::MAX ==> mid.fp(x)
                        != u32::MAX
                } by {
                    assert(before.effects@[x as int]@.contains(b) <==> d.adds(b as int, x)
                        && before.ap(b as int) != u32::MAX);
                    if b < d.n_actions() {
                        assert(mid.ap(b as int) == before.ap(b as int));
                    }
                    assert(d.adds(b as int, x) && mid.ap(b as int) != u32::MAX ==> mid.fp(x)
                        != u32::MAX);
                }
                assert(mid.effects_ok(*d, b));
            }
            assert forall|x: u32| x < d.n_facts() implies !(
            #[trigger] mid.effects@[x as int])@.contains(a) by {
                assert(before.effects_ok(*d, a));
                assert(before.effects@[x as int]@.contains(a) <==> d.adds(a as int, x)
                    && before.ap(a as int) != u32::MAX);
            }
        }
        self.place_effects(d, goal, goal_list, add, a, l + 2, Ghost(s), Ghost(k));
        proof {
            assert forall|x: u32|
                x < d.n_facts() && #[trigger] before.fp(x) != u32::MAX implies self.fp(x)
                == before.fp(x) by {}
        }
    }

    /// Whether all listed facts were visited.
    fn all_visited(&self, facts: &Vec<u32>) -> (r: bool)
        ensures
            r == facts@.to_set().subset_of(self.seen()),
    {
        let mut i: usize = 0;
        while i < facts.len()
            invariant
                i <= facts@.len(),
                forall|j: int| 0 <= j < i ==> self.seen().contains(#[trigger] facts@[j]),
            decreases facts@.len() - i,
        {
            let p: u32 = facts[i];
            if (p as usize) >= self.visited.len() || !self.visited[p as usize] {
                assert(facts@.to_set().contains(facts@[i as int]));
                assert(!self.seen().contains(p));
                return false;
            }
            i += 1;
        }
        proof {
            assert forall|p: u32| facts@.to_set().contains(p) implies self.seen().contains(p) by {
                let j = choose|j: int| 0 <= j < facts@.len() && facts@[j] == p;
                assert(self.seen().contains(facts@[j]));
            }
        }
        true
    }

    /// Every action that the visited facts set off has a layer.
    spec fn fired_ok(&self, d: ClassicalDomain) -> bool {
        forall|a: int| #[trigger] triggered(d, self.seen(), a) ==> self.ap(a) != u32::MAX
    }

    /// Once the first fact in the queue belongs to the layer above `2 * k`, all
    /// facts of that layer are placed.
    proof fn lemma_next_layer(&self, d: ClassicalDomain, s: Set<u32>, k: nat)
        requires
            self.layers_ok(d, s, k),
            self.queue_ok(d, k),
            forall|b: usize| #[trigger] self.effects_ok(d, b),
            self.fired_ok(d),
            self.queue@.len() == 0 || self.queue@[0].1 == 2 * k + 2,
            d.n_actions() <= usize::MAX,
        ensures
            self.layers_ok(d, s, k + 1),
            self.queue_ok(d, k + 1),
            self.queue@.len() == 0 ==> self.queue_ok(d, k + 1),
    {
        assert forall|f: u32| #[trigger] known(d, s, k + 1).contains(f) implies self.fp(f)
            != u32::MAX by {
            if !known(d, s, k).contains(f) {
                let a = choose|a: int| #[trigger]
                    d.adds(a, f) && triggered(d, known(d, s, k), a);
                assert forall|p: u32| d.pre(a).contains(p) implies self.seen().contains(p) by {
                    assert(known(d, s, k).contains(p));
                    lemma_known_bound(d, s, k, p);
                    assert(self.fp(p) != u32::MAX);
                    let j = (self.fp(p) / 2) as nat;
                    if j > k {
                        lemma_known_grows(d, s, k, (j - 1) as nat);
                    }
                    if !self.visited@[p as int] {
                        assert(self.queue@.contains((p, self.fp(p))));
                        let i = choose|i: int|
                            0 <= i < self.queue@.len() && self.queue@[i] == (p, self.fp(p));
                        assert(self.queue@[0].1 <= self.queue@[i].1);
                    }
                }
                assert(triggered(d, self.seen(), a));
                let b = a as usize;
                assert(self.effects_ok(d, b));
                assert(self.effects@[f as int]@.contains(b) <==> d.adds(b as int, f) && self.ap(
                    b as int,
                ) != u32::MAX);
            }
        }
        assert forall|i: int| 0 <= i < self.queue@.len() implies {
            let (f, l) = #[trigger] self.queue@[i];
            &&& f < d.n_facts()
            &&& self.fp(f) == l
            &&& 2 * (k + 1) <= l < u32::MAX
            &&& !self.visited@[f as int]
        } by {
            assert(self.queue@[0].1 <= self.queue@[i].1);
        }
    }

    /// The visited facts are the first ones of the trail.
    proof fn lemma_seen(&self, d: ClassicalDomain, s: Set<u32>)
        requires
            self.order_ok(d, s),
        ensures
            self.seen() == self.trail@.order.take(self.trail@.done as int).to_set(),
            self.trail@.done <= self.trail@.order.len(),
            self.trail@.events.len() == self.trail@.order.len(),
    {
        reveal(trail_ok);
        let v = self.trail@;
        let a = v.order.take(v.done as int);
        assert forall|f: u32| self.seen().contains(f) <==> a.to_set().contains(f) by {
            assert(a.contains(f) <==> f < d.n_facts() && self.visited@[f as int]);
        }
        assert(self.seen() =~= a.to_set());
    }

    /// The action `a` is ready where the last visit set it off and all actions
    /// of smaller numbers that it set off have a layer.
    proof fn lemma_ready(&self, d: ClassicalDomain, s: Set<u32>, a: int)
        requires
            self.order_ok(d, s),
            self.action_placed@.len() == d.n_actions(),
            triggered(d, self.seen(), a),
            self.ap(a) == u32::MAX,
            self.trail@.done > 0 ==> forall|b: int| #[trigger]
                triggered(
                    d,
                    self.trail@.order.take(self.trail@.done - 1).to_set(),
                    b,
                ) ==> self.ap(b) != u32::MAX,
            forall|b: int| b < a && #[trigger] triggered(d, self.seen(), b) ==> self.ap(b)
                != u32::MAX,
            forall|i: int|
                0 <= i < self.trail@.events.len() ==> !is_earlier(
                    (self.trail@.done as int, a),
                    #[trigger] self.trail@.events[i],
                ),
        ensures
            self.ready(d, a),
    {
        self.lemma_seen(d, s);
        reveal(is_ready);
        let v = self.trail@;
        let last = v.done as int;
        if last > 0 {
            assert(!triggered(d, v.order.take(last - 1).to_set(), a));
        }
        assert forall|t: int, b: int|
            is_earlier((t, b), (last, a)) && #[trigger] set_off(d, v.order, t, b) implies b != a
            && self.action_placed@[b] != u32::MAX by {
            if t < last {
                lemma_triggered_later(d, v.order, t, last - 1, b);
                assert(self.ap(b) != u32::MAX);
            } else {
                assert(triggered(d, self.seen(), b));
                assert(self.ap(b) != u32::MAX);
            }
        }
    }

    /// No event comes after one of a ready action.
    proof fn lemma_ready_is_last(&self, d: ClassicalDomain, a: int, b: int)
        requires
            self.ready(d, a),
            a <= b,
        ensures
            forall|i: int|
                0 <= i < self.trail@.events.len() ==> !is_earlier(
                    (self.trail@.done as int, b),
                    #[trigger] self.trail@.events[i],
                ),
    {
        reveal(is_ready);
    }

    /// No event is later than the last visit.
    proof fn lemma_new_visit(&self, d: ClassicalDomain, s: Set<u32>, last: int, b: int)
        requires
            self.order_ok(d, s),
            last > self.trail@.done,
        ensures
            forall|i: int|
                0 <= i < self.trail@.events.len() ==> !is_earlier(
                    (last, b),
                    #[trigger] self.trail@.events[i],
                ),
    {
        reveal(trail_ok);
        let v = self.trail@;
        assert forall|i: int| 0 <= i < v.events.len() implies !is_earlier(
            (last, b),
            #[trigger] v.events[i],
        ) by {
            let f = v.order[i];
            assert(v.events[i].0 <= v.done);
        }
    }

    /// Takes the first fact from the queue and marks it as visited.
    fn take_next(&mut self, d: &ClassicalDomain, Ghost(s): Ghost<Set<u32>>, Ghost(k): Ghost<nat>) -> (r:
        (u32, u32, Ghost<nat>))
        requires
            2 * (d.n_facts() + 1) < u32::MAX,
            d.n_actions() <= usize::MAX,
            old(self).layers_ok(*d, s, k),
            old(self).queue_ok(*d, k),
            forall|b: usize| #[trigger] old(self).effects_ok(*d, b),
            old(self).fired_ok(*d),
            old(self).order_ok(*d, s),
            old(self).queue@.len() > 0,
        ensures
            r.0 < d.n_facts(),
            final(self).order_ok(*d, s),
            final(self).trail@ == (Visits { done: old(self).trail@.done + 1, ..old(self).trail@ }),
            old(self).seen() == old(self).trail@.order.take(old(self).trail@.done as int).to_set(),
            final(self).action_placed == old(self).action_placed,
            r.1 == 2 * r.2@,
            final(self).fp(r.0) == r.1,
            final(self).visited@ == old(self).visited@.update(r.0 as int, true),
            final(self).layers_ok(*d, s, r.2@),
            final(self).queue_ok(*d, r.2@),
            forall|b: usize| #[trigger] final(self).effects_ok(*d, b),
            forall|a: int|
                #[trigger] triggered(*d, final(self).seen(), a) && final(self).ap(a) == u32::MAX
                    ==> d.pre(a).contains(r.0),
            final(self).fact_placed == old(self).fact_placed,
            final(self).remaining_goals == old(self).remaining_goals,
            final(self).queue@.len() + 1 == old(self).queue@.len(),
    {
        let ghost start = *self;
        assert(start.queue@[0].0 < d.n_facts());
        let (f, l): (u32, u32) = match self.queue.pop_front() {
            Some(front) => front,
            None => (0, 0),
        };
        let ghost level: nat = (l / 2) as nat;
        proof {
            assert(start.queue@[0] == (f, l));
            assert(start.fp(f) != u32::MAX);
            if level != k {
                start.lemma_next_layer(*d, s, k);
            }
            assert(level == k || level == k + 1);
            assert(l == 2 * level);
        }
        self.visited.set(f as usize, true);
        self.trail = Ghost(Visits { done: self.trail@.done + 1, ..self.trail@ });
        let ghost mid = *self;
        proof {
            lemma_trail_visit(
                *d,
                s,
                start.trail@,
                start.queue@,
                start.visited@,
                start.fact_placed@,
                f,
            );
            start.lemma_seen(*d, s);
        }
        proof {
            assert forall|x: u32| x < d.n_facts() implies #[trigger] mid.fp(x) == start.fp(x) by {}
            assert forall|b: int| #[trigger] mid.ap(b) == start.ap(b) by {}
            assert forall|x: u32| start.seen().contains(x) implies mid.seen().contains(x) by {}
            assert forall|x: u32| mid.seen().contains(x) implies start.seen().contains(x) || x
                == f by {}
            assert(mid.layers_ok(*d, s, level)) by {
                assert forall|b: int|
                    0 <= b < d.n_actions() && #[trigger] mid.ap(b) != u32::MAX implies triggered(
                    *d,
                    mid.seen(),
                    b,
                ) by {
                    assert(start.ap(b) != u32::MAX);
                    assert(triggered(*d, start.seen(), b));
                }
                assert forall|x: u32|
                    x < d.n_facts() && #[trigger] mid.fp(x) != u32::MAX && mid.fp(x)
                        > 0 implies exists|b: int| #[trigger]
                    d.adds(b, x) && mid.ap(b) == mid.fp(x) - 1 by {
                    assert(start.fp(x) != u32::MAX);
                    let b = choose|b: int| #[trigger]
                        d.adds(b, x) && start.ap(b) == start.fp(x) - 1;
                    assert(d.adds(b, x) && mid.ap(b) == mid.fp(x) - 1);
                }
                assert forall|x: u32| #[trigger] known(*d, s, level).contains(x) implies mid.fp(x)
                    != u32::MAX by {
                    lemma_known_bound(*d, s, level, x);
                    assert(start.fp(x) != u32::MAX);
                }
            }
            assert(mid.queue_ok(*d, level)) by {
                let q0 = start.queue@;
                let q1 = mid.queue@;
                assert forall|i: int| 0 <= i < q1.len() implies {
                    let (x, m) = #[trigger] q1[i];
                    &&& x < d.n_facts()
                    &&& mid.fp(x) == m
                    &&& 2 * level <= m < u32::MAX
                    &&& !mid.visited@[x as int]
                } by {
                    assert(q1[i] == q0[i + 1]);
                    assert(q0[0].0 != q0[i + 1].0);
                    assert(q0[0].1 <= q0[i + 1].1);
                }
                assert forall|i: int, j: int| 0 <= i < j < q1.len() implies (
                #[trigger] q1[i]).1 <= (#[trigger] q1[j]).1 && q1[i].0 != q1[j].0 by {
                    assert(q1[i] == q0[i + 1]);
                    assert(q1[j] == q0[j + 1]);
                }
                assert forall|x: u32|
                    x < d.n_facts() && #[trigger] mid.fp(x) != u32::MAX
                        && !mid.visited@[x as int] implies q1.contains((x, mid.fp(x))) by {
                    assert(start.fp(x) != u32::MAX);
                    assert(q0.contains((x, start.fp(x))));
                    let j = choose|j: int| 0 <= j < q0.len() && q0[j] == (x, start.fp(x));
                    assert(j > 0);
                    assert(q1[j - 1] == (x, mid.fp(x)));
                }
                assert forall|x: u32| x < d.n_facts() && #[trigger] mid.visited@[x as int] implies
                    mid.fp(x) <= 2 * level && mid.fp(x) != u32::MAX by {
                    if x != f {
                        assert(start.visited@[x as int]);
                    }
                }
            }
            assert forall|b: usize| #[trigger] mid.effects_ok(*d, b) by {
                assert(start.effects_ok(*d, b));
                assert forall|x: u32| x < d.n_facts() implies {
                    &&& #[trigger] mid.effects@[x as int]@.contains(b) <==> d.adds(b as int, x)
                        && mid.ap(b as int) != u32::MAX
                    &&& d.adds(b as int, x) && mid.ap(b as int) != u32::MAX ==> mid.fp(x)
                        != u32::MAX
                } by {
                    assert(start.effects@[x as int]@.contains(b) <==> d.adds(b as int, x)
                        && start.ap(b as int) != u32::MAX);
                    assert(d.adds(b as int, x) && mid.ap(b as int) != u32::MAX ==> mid.fp(x)
                        != u32::MAX);
                }
            }
        }
        proof {
            assert forall|a: int|
                #[trigger] triggered(*d, mid.seen(), a) && mid.ap(a) == u32::MAX implies d.pre(
                a,
            ).contains(f) by {
                assert(start.ap(a) == u32::MAX);
                assert(!triggered(*d, start.seen(), a));
            }
        }
        (f, l, Ghost(level))
    }

    /// Takes the first fact from the queue and places every action whose
    /// precondition is complete with it.
    fn visit_next(
        &mut self,
        d: &ClassicalDomain,
        lists: &ActionLists,
        users: &Vec<Vec<usize>>,
        goal: &HashSet<u32>,
        goal_list: &Vec<u32>,
        Ghost(s): Ghost<Set<u32>>,
        Ghost(k): Ghost<nat>,
    ) -> (level: Ghost<nat>)
        requires
            2 * (d.n_facts() + 1) < u32::MAX,
            lists.wf(*d),
            users@.len() == d.n_facts(),
            forall|f: u32, a: usize|
                f < d.n_facts() ==> (#[trigger] users@[f as int]@.contains(a) <==> a
                    < d.n_actions() && d.pre(a as int).contains(f)),
            forall|f: int, i: int, j: int|
                0 <= f < d.n_facts() && 0 <= i < j < users@[f]@.len()
                    ==> #[trigger] users@[f]@[i] <= #[trigger] users@[f]@[j],
            old(self).order_ok(*d, s),
            old(self).layers_ok(*d, s, k),
            old(self).queue_ok(*d, k),
            old(self).goals_ok(goal_list@),
            goal_list@.no_duplicates(),
            forall|x: u32| goal@.contains(x) <==> #[trigger] goal_list@.contains(x),
            forall|b: usize| #[trigger] old(self).effects_ok(*d, b),
            old(self).fired_ok(*d),
            old(self).queue@.len() > 0,
        ensures
            final(self).layers_ok(*d, s, level@),
            final(self).queue_ok(*d, level@),
            final(self).goals_ok(goal_list@),
            forall|b: usize| #[trigger] final(self).effects_ok(*d, b),
            final(self).fired_ok(*d),
            unplaced(final(self).fact_placed@) + final(self).queue@.len() < unplaced(
                old(self).fact_placed@,
            ) + old(self).queue@.len(),
            final(self).order_ok(*d, s),
            final(self).remaining_goals < old(self).remaining_goals ==> final(self).new_goal(
                goal@,
                2 * level@ + 2,
            ),
            final(self).remaining_goals <= old(self).remaining_goals,
    {
        assert(lists.pre.len() == d.n_actions());
        let ghost start = *self;
        let (f, l, Ghost(level)) = self.take_next(d, Ghost(s), Ghost(k));
        let ghost mid = *self;
        let ghost done = mid.trail@.done;
        let list: &Vec<usize> = &users[f as usize];
        let mut j: usize = 0;
        proof {
            assert forall|a: int| #[trigger] triggered(*d, self.seen(), a) implies self.ap(a)
                != u32::MAX || exists|m: int| j <= m < list@.len() && #[trigger] list@[m] == a by {
                if self.ap(a) == u32::MAX {
                    assert(d.pre(a).contains(f));
                    assert(list@.contains(a as usize));
                    let m = choose|m: int| 0 <= m < list@.len() && list@[m] == a as usize;
                    assert(list@[m] == a);
                }
            }
            assert forall|a: int| #[trigger] triggered(*d, start.seen(), a) implies self.ap(a)
                != u32::MAX by {
                assert(start.ap(a) != u32::MAX);
            }
            assert forall|x: int, i: int|
                j <= x < list@.len() && 0 <= i < self.trail@.events.len() implies !is_earlier(
                (done as int, #[trigger] list@[x] as int),
                #[trigger] self.trail@.events[i],
            ) by {
                start.lemma_new_visit(*d, s, done as int, list@[x] as int);
            }
            start.lemma_seen(*d, s);
            mid.lemma_seen(*d, s);
        }
        while j < list.len()
            invariant
                2 * (d.n_facts() + 1) < u32::MAX,
                lists.wf(*d),
                f < d.n_facts(),
                list@ == users@[f as int]@,
                forall|a: usize|
                    #[trigger] list@.contains(a) <==> a < d.n_actions() && d.pre(
                        a as int,
                    ).contains(f),
                j <= list@.len(),
                l == 2 * level,
                self.fp(f) == l,
                self.visited@[f as int],
                forall|x: int, y: int|
                    0 <= x < y < list@.len() ==> #[trigger] list@[x] <= #[trigger] list@[y],
                self.order_ok(*d, s),
                self.trail@.done == done,
                done > 0,
                start.trail@.done == done - 1,
                start.trail@.done <= start.trail@.order.len(),
                d.n_actions() <= usize::MAX,
                start.trail@.order == mid.trail@.order,
                done <= mid.trail@.order.len(),
                self.trail@.order.take(done as int) == mid.trail@.order.take(done as int),
                start.seen() == start.trail@.order.take(done - 1).to_set(),
                forall|a: int| #[trigger]
                    triggered(*d, start.seen(), a) ==> self.ap(a) != u32::MAX,
                forall|x: int, i: int|
                    j <= x < list@.len() && 0 <= i < self.trail@.events.len() ==> !is_earlier(
                        (done as int, #[trigger] list@[x] as int),
                        #[trigger] self.trail@.events[i],
                    ),
                self.layers_ok(*d, s, level),
                self.queue_ok(*d, level),
                self.goals_ok(goal_list@),
                goal_list@.no_duplicates(),
                forall|x: u32| goal@.contains(x) <==> #[trigger] goal_list@.contains(x),
                forall|b: usize| #[trigger] self.effects_ok(*d, b),
                forall|a: int| #[trigger]
                    triggered(*d, self.seen(), a) ==> self.ap(a) != u32::MAX || exists|m: int|
                        j <= m < list@.len() && #[trigger] list@[m] == a,
                unplaced(self.fact_placed@) + self.queue@.len() == unplaced(mid.fact_placed@)
                    + mid.queue@.len(),
                self.remaining_goals < mid.remaining_goals ==> self.new_goal(goal@, 2 * level + 2),
                self.remaining_goals <= mid.remaining_goals,
            decreases list@.len() - j,
        {
            let a: usize = list[j];
            let ghost before = *self;
            assert(list@.contains(a));
            assert(lists.pre@[a as int]@.to_set() == d.pre(a as int));
            assert(lists.add@[a as int]@.to_set() == d.add(a as int));
            if self.action_placed[a] == u32::MAX && self.all_visited(&lists.pre[a]) {
                assert(d.pre(a as int).contains(f));
                proof {
                    assert forall|b: int|
                        b < a && #[trigger] triggered(*d, self.seen(), b) implies self.ap(b)
                        != u32::MAX by {
                        if self.ap(b) == u32::MAX {
                            let m = choose|m: int|
                                j <= m < list@.len() && #[trigger] list@[m] == b;
                            assert(list@[j as int] <= list@[m]);
                        }
                    }
                    self.lemma_seen(*d, s);
                    let o1 = self.trail@.order;
                    let o2 = mid.trail@.order;
                    assert(o1.take(done as int).take(done - 1) =~= o1.take(done - 1));
                    assert(o2.take(done as int).take(done - 1) =~= o2.take(done - 1));
                    self.lemma_ready(*d, s, a as int);
                }
                self.place_action(
                    d,
                    goal,
                    goal_list,
                    &lists.add[a],
                    a,
                    Ghost(f),
                    l,
                    Ghost(s),
                    Ghost(level),
                );
                proof {
                    assert(self.seen() =~= before.seen());
                    assert forall|x: int, i: int|
                        j + 1 <= x < list@.len() && 0 <= i < self.trail@.events.len() implies
                        !is_earlier(
                        (done as int, #[trigger] list@[x] as int),
                        #[trigger] self.trail@.events[i],
                    ) by {
                        assert(list@[j as int] <= list@[x]);
                        self.lemma_ready_is_last(*d, a as int, list@[x] as int);
                    }
                }
            }
            proof {
                assert forall|b: int| #[trigger] triggered(*d, self.seen(), b) implies self.ap(b)
                    != u32::MAX || exists|m: int|
                    j + 1 <= m < list@.len() && #[trigger] list@[m] == b by {
                    assert(triggered(*d, before.seen(), b));
                    if before.ap(b) == u32::MAX && b != a {
                        let m = choose|m: int| j <= m < list@.len() && #[trigger] list@[m] == b;
                        assert(list@[m] == b);
                    }
                }
            }
            j += 1;
        }
        Ghost(level)
    }

    /// With an empty queue, every fact that any number of layers reaches is placed.
    proof fn lemma_exhausted(&self, d: ClassicalDomain, s: Set<u32>, k: nat, m: nat, f: u32)
        requires
            self.layers_ok(d, s, k),
            self.queue_ok(d, k),
            forall|b: usize| #[trigger] self.effects_ok(d, b),
            self.fired_ok(d),
            self.queue@.len() == 0,
            d.n_actions() <= usize::MAX,
            known(d, s, m).contains(f),
        ensures
            f < d.n_facts(),
            self.fp(f) != u32::MAX,
        decreases m,
    {
        lemma_known_bound(d, s, m, f);
        if m == 0 {
            lemma_known_grows(d, s, 0, k);
            assert(known(d, s, k).contains(f));
        } else {
            let below = known(d, s, (m - 1) as nat);
            if below.contains(f) {
                self.lemma_exhausted(d, s, k, (m - 1) as nat, f);
            } else {
                let a = choose|a: int| #[trigger] d.adds(a, f) && triggered(d, below, a);
                assert forall|p: u32| d.pre(a).contains(p) implies self.seen().contains(p) by {
                    self.lemma_exhausted(d, s, k, (m - 1) as nat, p);
                    assert(self.visited@[p as int] || self.queue@.contains((p, self.fp(p))));
                }
                assert(triggered(d, self.seen(), a));
                let b = a as usize;
                assert(self.effects_ok(d, b));
                assert(self.effects@[f as int]@.contains(b) <==> d.adds(b as int, f) && self.ap(
                    b as int,
                ) != u32::MAX);
            }
        }
    }

    /// The search for the goal is over: nothing was visited and the goal holds
    /// at the start, or the last visit of the layer `2 * k` placed a goal fact.
    spec fn stopped(&self, d: ClassicalDomain, goal: Set<u32>, k: nat, last: nat) -> bool {
        ||| {
            &&& last == 0
            &&& forall|f: u32| f < d.n_facts() ==> !#[trigger] self.visited@[f as int]
            &&& forall|f: u32|
                f < d.n_facts() && #[trigger] self.fp(f) != u32::MAX ==> self.fp(f) == 0
            &&& forall|a: int| 0 <= a < d.n_actions() ==> #[trigger] self.ap(a) == u32::MAX
        }
        ||| {
            &&& last == k + 1
            &&& self.new_goal(goal, 2 * last)
        }
    }

    /// A goal fact has the layer `l` where the last visit found one.
    proof fn lemma_new_goal(&self, goal: Set<u32>, l: nat) -> (g: u32)
        requires
            self.new_goal(goal, l),
        ensures
            goal.contains(g),
            g < self.fact_placed@.len(),
            self.fp(g) == l,
            self.fp(g) != u32::MAX,
    {
        let i = choose|i: int| #[trigger]
            is_new_goal(self.trail@, self.fact_placed@, goal, l, i);
        self.trail@.order[i]
    }

    /// What the layers are when all goal facts have one.
    proof fn lemma_finished(
        &self,
        d: ClassicalDomain,
        s: Set<u32>,
        goal: Set<u32>,
        k: nat,
        last: nat,
    )
        requires
            self.layers_ok(d, s, k),
            self.queue_ok(d, k),
            last > 0 ==> self.fired_ok(d),
            forall|g: u32| #[trigger]
                goal.contains(g) ==> g < d.n_facts() && self.fp(g) != u32::MAX,
            self.stopped(d, goal, k, last),
        ensures
            reached_at(d, s, goal, last),
            forall|f: u32|
                f < d.n_facts() && #[trigger] self.fp(f) != u32::MAX ==> self.fp(f) <= 2 * last,
            forall|f: u32, j: nat|
                (j < last || j == 0) && #[trigger] enters(d, s, j, f) ==> f < d.n_facts()
                    && self.fp(f) == 2 * j,
            forall|a: int|
                0 <= a < d.n_actions() && #[trigger] self.ap(a) != u32::MAX ==> self.ap(a) < 2
                    * last,
            forall|a: int, j: nat|
                j + 1 < last && #[trigger] fires(d, s, j, a) ==> self.ap(a) == 2 * j + 1,
            forall|a: int, p: u32|
                0 <= a < d.n_actions() && #[trigger] self.ap(a) != u32::MAX
                    && #[trigger] d.pre(a).contains(p) ==> p < d.n_facts() && self.fp(p)
                    < self.ap(a),
    {
        assert(goal.subset_of(known(d, s, last))) by {
            assert forall|g: u32| goal.contains(g) implies known(d, s, last).contains(g) by {
                let j = (self.fp(g) / 2) as nat;
                assert(enters(d, s, j, g));
                lemma_known_grows(d, s, j, last);
            }
        }
        if last > 0 {
            let g = self.lemma_new_goal(goal, 2 * last);
            assert(enters(d, s, (self.fp(g) / 2) as nat, g));
            assert(self.fp(g) / 2 == last);
            assert(!known(d, s, (last - 1) as nat).contains(g));
        }
        assert forall|f: u32, j: nat|
            (j < last || j == 0) && #[trigger] enters(d, s, j, f) implies f < d.n_facts()
            && self.fp(f) == 2 * j by {
            lemma_known_bound(d, s, j, f);
            lemma_known_grows(d, s, j, k);
            assert(known(d, s, k).contains(f));
            lemma_enters_once(d, s, j, (self.fp(f) / 2) as nat, f);
        }
        assert forall|a: int| 0 <= a < d.n_actions() && #[trigger] self.ap(a) != u32::MAX implies
            self.ap(a) < 2 * last by {
            assert(self.ap(a) <= 2 * k + 1);
        }
        assert forall|a: int, j: nat| j + 1 < last && #[trigger] fires(d, s, j, a) implies self.ap(
            a,
        ) == 2 * j + 1 by {
            assert forall|p: u32| d.pre(a).contains(p) implies self.seen().contains(p) by {
                assert(known(d, s, j).contains(p));
                lemma_known_bound(d, s, j, p);
                lemma_known_grows(d, s, j, k);
                assert(known(d, s, k).contains(p));
                let i = (self.fp(p) / 2) as nat;
                assert(enters(d, s, i, p));
                if i > j {
                    lemma_known_grows(d, s, j, (i - 1) as nat);
                }
                if !self.visited@[p as int] {
                    assert(self.queue@.contains((p, self.fp(p))));
                    let m = choose|m: int|
                        0 <= m < self.queue@.len() && self.queue@[m] == (p, self.fp(p));
                    assert(self.queue@[m].1 >= 2 * k);
                }
            }
            assert(triggered(d, self.seen(), a));
            assert(self.ap(a) != u32::MAX);
            lemma_fires_once(d, s, j, (self.ap(a) / 2) as nat, a);
        }
        assert forall|a: int, p: u32|
            0 <= a < d.n_actions() && #[trigger] self.ap(a) != u32::MAX && #[trigger] d.pre(
                a,
            ).contains(p) implies p < d.n_facts() && self.fp(p) < self.ap(a) by {
            let j = (self.ap(a) / 2) as nat;
            assert(fires(d, s, j, a));
            assert(known(d, s, j).contains(p));
            lemma_known_bound(d, s, j, p);
            assert(self.seen().contains(p));
            assert(self.visited@[p as int]);
            let i = (self.fp(p) / 2) as nat;
            assert(enters(d, s, i, p));
            if i > j {
                lemma_known_grows(d, s, j, (i - 1) as nat);
            }
        }
    }
}

/// A fact enters in one layer only.
proof fn lemma_enters_once(d: ClassicalDomain, s: Set<u32>, i: nat, j: nat, f: u32)
    requires
        enters(d, s, i, f),
        enters(d, s, j, f),
    ensures
        i == j,
{
    if i < j {
        lemma_known_grows(d, s, i, (j - 1) as nat);
    }
    if j < i {
        lemma_known_grows(d, s, j, (i - 1) as nat);
    }
}

/// An action first occurs in one layer only.
proof fn lemma_fires_once(d: ClassicalDomain, s: Set<u32>, i: nat, j: nat, a: int)
    requires
        fires(d, s, i, a),
        fires(d, s, j, a),
    ensures
        i == j,
{
    if i < j {
        lemma_known_grows(d, s, i, (j - 1) as nat);
    }
    if j < i {
        lemma_known_grows(d, s, j, (i - 1) as nat);
    }
}

/// The number of goal facts without a layer.
fn count_open_goals(goal: &Vec<u32>, placed: &Vec<u32>) -> (n: usize)
    ensures
        n == open_goals(goal@, placed@),
        n <= goal@.len(),
{
    let mut n: usize = 0;
    let mut i: usize = 0;
    while i < goal.len()
        invariant
            i <= goal@.len(),
            n <= i,
            n == open_goals(goal@.take(i as int), placed@),
        decreases goal@.len() - i,
    {
        let g: u32 = goal[i];
        assert(goal@.take(i + 1).drop_last() =~= goal@.take(i as int));
        if (g as usize) >= placed.len() || placed[g as usize] == u32::MAX {
            n += 1;
        }
        i += 1;
    }
    assert(goal@.take(i as int) =~= goal@);
    n
}

impl Builder {
    /// The graph with the facts of `state` in the layer 0 and nothing else.
    fn seed(d: &ClassicalDomain, state: &HashSet<u32>, goal_list: &Vec<u32>) -> (b: Builder)
        requires
            2 * (d.n_facts() + 1) < u32::MAX,
        ensures
            b.layers_ok(*d, state@, 0),
            b.queue_ok(*d, 0),
            b.goals_ok(goal_list@),
            forall|a: usize| #[trigger] b.effects_ok(*d, a),
            forall|a: int| 0 <= a < d.n_actions() ==> #[trigger] b.ap(a) == u32::MAX,
            b.seen() == Set::<u32>::empty(),
            b.order_ok(*d, state@),
            b.trail@.done == 0,
            forall|i: int| 0 <= i < b.trail@.events.len() ==> #[trigger] b.trail@.events[i] == (
                -1int,
                -1int,
            ),
            forall|goal: Set<u32>| #[trigger] b.stopped(*d, goal, 0, 0),
    {
        let n: usize = d.facts.names.len();
        let m: usize = d.actions.len();
        let mut fact_placed: Vec<u32> = vec![u32::MAX; n];
        let action_placed: Vec<u32> = vec![u32::MAX; m];
        let visited: Vec<bool> = vec![false; n];
        let none: Vec<Vec<u32>> = Vec::new();
        let effects: Vec<Vec<usize>> = invert(n, &none);
        let mut queue: VecDeque<(u32, u32)> = VecDeque::new();
        let start: Vec<u32> = elements(state);
        let mut i: usize = 0;
        while i < start.len()
            invariant
                i <= start@.len(),
                start@.no_duplicates(),
                n == d.n_facts(),
                fact_placed@.len() == n,
                forall|f: u32|
                    f < n ==> #[trigger] fact_placed@[f as int] == (if start@.take(
                        i as int,
                    ).contains(f) {
                        0u32
                    } else {
                        u32::MAX
                    }),
                forall|j: int|
                    0 <= j < queue@.len() ==> (#[trigger] queue@[j]).1 == 0 && queue@[j].0 < n
                        && start@.take(i as int).contains(queue@[j].0),
                forall|j: int, l: int|
                    0 <= j < l < queue@.len() ==> (#[trigger] queue@[j]).0 != (
                    #[trigger] queue@[l]).0,
                forall|f: u32|
                    f < n && #[trigger] start@.take(i as int).contains(f) ==> queue@.contains(
                        (f, 0u32),
                    ),
            decreases start@.len() - i,
        {
            let f: u32 = start[i];
            let ghost l = start@.take(i as int);
            let ghost q0 = queue@;
            let ghost fp0 = fact_placed@;
            assert(start@.take(i + 1) =~= l.push(f));
            proof {
                assert forall|x: u32| #[trigger] l.push(f).contains(x) <==> x == f || l.contains(
                    x,
                ) by {
                    if l.contains(x) {
                        let j = choose|j: int| 0 <= j < l.len() && l[j] == x;
                        assert(l.push(f)[j] == x);
                    }
                    assert(l.push(f)[l.len() as int] == f);
                }
                assert(!l.contains(f)) by {
                    if l.contains(f) {
                        let j = choose|j: int| 0 <= j < l.len() && l[j] == f;
                        assert(start@[j] == start@[i as int]);
                    }
                }
            }
            if (f as usize) < n {
                fact_placed.set(f as usize, 0);
                queue.push_back((f, 0));
            }
            i += 1;
            proof {
                assert forall|x: u32| x < n implies #[trigger] fact_placed@[x as int] == (
                if start@.take(i as int).contains(x) {
                    0u32
                } else {
                    u32::MAX
                }) by {
                    assert(fp0[x as int] == (if l.contains(x) {
                        0u32
                    } else {
                        u32::MAX
                    }));
                }
                assert forall|x: u32|
                    x < n && #[trigger] start@.take(i as int).contains(x) implies queue@.contains(
                    (x, 0u32),
                ) by {
                    if x == f {
                        assert(queue@[q0.len() as int] == (x, 0u32));
                    } else {
                        let j = choose|j: int| 0 <= j < q0.len() && q0[j] == (x, 0u32);
                        assert(queue@[j] == (x, 0u32));
                    }
                }
            }
        }
        assert(start@.take(i as int) =~= start@);
        let remaining_goals: usize = count_open_goals(goal_list, &fact_placed);
        let ghost v = Visits {
            order: Seq::new(queue@.len(), |i: int| queue@[i].0),
            events: Seq::new(queue@.len(), |i: int| (-1int, -1int)),
            done: 0,
        };
        let b: Builder = Builder {
            fact_placed,
            action_placed,
            visited,
            effects,
            queue,
            remaining_goals,
            trail: Ghost(v),
        };
        proof {
            let s = state@;
            assert forall|f: u32| f < d.n_facts() implies #[trigger] b.fp(f) == (if s.contains(
                f,
            ) {
                0u32
            } else {
                u32::MAX
            }) by {
                assert(start@.contains(f) <==> s.contains(f));
            }
            assert forall|f: u32| f < d.n_facts() && #[trigger] b.fp(f) != u32::MAX implies {
                &&& b.fp(f) == 0
                &&& enters(*d, s, 0, f)
                &&& b.fp(f) <= 2 * (d.n_facts() - unplaced(b.fact_placed@))
            } by {
                lemma_unplaced_bound(b.fact_placed@);
            }
            assert(b.layers_ok(*d, s, 0));
            assert(b.queue_ok(*d, 0)) by {
                assert forall|f: u32|
                    f < d.n_facts() && #[trigger] b.fp(f) != u32::MAX
                        && !b.visited@[f as int] implies b.queue@.contains((f, b.fp(f))) by {
                    assert(start@.contains(f));
                }
            }
            assert forall|a: usize| #[trigger] b.effects_ok(*d, a) by {}
            assert(b.seen() =~= Set::empty());
            assert(b.order_ok(*d, s)) by {
                reveal(trail_ok);
                assert forall|f: u32| #[trigger] v.order.contains(f) <==> is_placed(
                    b.fact_placed@,
                    f,
                ) by {
                    if v.order.contains(f) {
                        let i = choose|i: int| 0 <= i < v.order.len() && v.order[i] == f;
                        assert(b.queue@[i].0 == f);
                        assert(b.fp(f) == 0);
                    }
                    if is_placed(b.fact_placed@, f) {
                        assert(b.fp(f) != u32::MAX);
                        assert(b.queue@.contains((f, b.fp(f))));
                        let i = choose|i: int|
                            0 <= i < b.queue@.len() && b.queue@[i] == (f, b.fp(f));
                        assert(v.order[i] == f);
                    }
                }
                assert forall|f: u32| known(*d, s, 0).contains(f) implies #[trigger] v.order.contains(
                    f,
                ) by {
                    assert(b.fp(f) == 0);
                }
                assert forall|i: int| 0 <= i < v.order.len() implies known(*d, s, 0).contains(
                    #[trigger] v.order[i],
                ) by {
                    let f = v.order[i];
                    assert(v.order.contains(f));
                    assert(b.fp(f) != u32::MAX);
                }
                assert(v.order.take(0) =~= Seq::empty());
            }
        }
        b
    }

    /// Places the actions that need nothing.
    fn fire_free(
        &mut self,
        d: &ClassicalDomain,
        lists: &ActionLists,
        goal: &HashSet<u32>,
        goal_list: &Vec<u32>,
        Ghost(s): Ghost<Set<u32>>,
    )
        requires
            2 * (d.n_facts() + 1) < u32::MAX,
            lists.wf(*d),
            old(self).layers_ok(*d, s, 0),
            old(self).queue_ok(*d, 0),
            old(self).goals_ok(goal_list@),
            goal_list@.no_duplicates(),
            forall|x: u32| goal@.contains(x) <==> #[trigger] goal_list@.contains(x),
            forall|b: usize| #[trigger] old(self).effects_ok(*d, b),
            old(self).seen() == Set::<u32>::empty(),
            old(self).order_ok(*d, s),
            old(self).trail@.done == 0,
            forall|i: int|
                0 <= i < old(self).trail@.events.len() ==> #[trigger] old(self).trail@.events[i]
                    == (-1int, -1int),
            forall|b: int| 0 <= b < d.n_actions() ==> #[trigger] old(self).ap(b) == u32::MAX,
        ensures
            final(self).layers_ok(*d, s, 0),
            final(self).queue_ok(*d, 0),
            final(self).goals_ok(goal_list@),
            forall|b: usize| #[trigger] final(self).effects_ok(*d, b),
            final(self).fired_ok(*d),
            final(self).order_ok(*d, s),
            final(self).remaining_goals < old(self).remaining_goals ==> final(self).new_goal(
                goal@,
                2,
            ),
            final(self).remaining_goals <= old(self).remaining_goals,
    {
        let n: usize = lists.pre.len();
        let mut a: usize = 0;
        while a < n
            invariant
                a <= n,
                n == d.n_actions(),
                2 * (d.n_facts() + 1) < u32::MAX,
                lists.wf(*d),
                self.layers_ok(*d, s, 0),
                self.queue_ok(*d, 0),
                self.goals_ok(goal_list@),
                goal_list@.no_duplicates(),
                forall|x: u32| goal@.contains(x) <==> #[trigger] goal_list@.contains(x),
                forall|b: usize| #[trigger] self.effects_ok(*d, b),
                self.seen() == Set::<u32>::empty(),
                forall|b: int| a <= b < n ==> #[trigger] self.ap(b) == u32::MAX,
                forall|b: int|
                    0 <= b < a && #[trigger] triggered(*d, self.seen(), b) ==> self.ap(b)
                        != u32::MAX,
                self.order_ok(*d, s),
                self.trail@.done == 0,
                forall|b: int, i: int|
                    a <= b && 0 <= i < self.trail@.events.len() ==> !#[trigger] is_earlier(
                        (0int, b),
                        self.trail@.events[i],
                    ),
                self.remaining_goals < old(self).remaining_goals ==> self.new_goal(goal@, 2),
                self.remaining_goals <= old(self).remaining_goals,
            decreases n - a,
        {
            let ghost before = *self;
            assert(lists.pre@[a as int]@.to_set() == d.pre(a as int));
            assert(lists.add@[a as int]@.to_set() == d.add(a as int));
            if lists.pre[a].len() == 0 {
                proof {
                    assert forall|p: u32| !d.pre(a as int).contains(p) by {
                        assert(!lists.pre@[a as int]@.contains(p));
                    }
                    assert forall|i: int| 0 <= i < self.trail@.events.len() implies !is_earlier(
                        (self.trail@.done as int, a as int),
                        #[trigger] self.trail@.events[i],
                    ) by {
                        assert(!is_earlier((0int, a as int), self.trail@.events[i]));
                    }
                    self.lemma_ready(*d, s, a as int);
                }
                self.place_action(
                    d,
                    goal,
                    goal_list,
                    &lists.add[a],
                    a,
                    Ghost(0),
                    0,
                    Ghost(s),
                    Ghost(0),
                );
                proof {
                    assert(self.seen() =~= before.seen());
                    assert forall|b: int, i: int|
                        a + 1 <= b && 0 <= i < self.trail@.events.len() implies
                        !#[trigger] is_earlier((0int, b), self.trail@.events[i]) by {
                        self.lemma_ready_is_last(*d, a as int, b);
                    }
                    assert forall|b: int|
                        0 <= b < a + 1 && #[trigger] triggered(*d, self.seen(), b) implies self.ap(
                        b,
                    ) != u32::MAX by {
                        if b < a {
                            assert(triggered(*d, before.seen(), b));
                            assert(before.ap(b) != u32::MAX);
                        }
                    }
                    assert forall|b: int| a < b < n implies #[trigger] self.ap(b) == u32::MAX by {
                        assert(before.ap(b) == u32::MAX);
                    }
                }
            } else {
                proof {
                    let p = lists.pre@[a as int]@[0];
                    assert(lists.pre@[a as int]@.to_set().contains(p));
                    assert(!triggered(*d, self.seen(), a as int));
                }
            }
            a += 1;
        }
    }
}

/// The layers of facts and actions, from the facts of the layer 0 up to the
/// layer that completes the goal. Facts have even layers and actions odd ones.
pub struct GraphPlan<'a> {
    /// The layer of every action, `u32::MAX` where it has none.
    pub actions: HashMap<usize, u32>,
    /// The layer of every fact, `u32::MAX` where it has none.
    pub facts: HashMap<u32, u32>,
    /// The last layer.
    pub depth: u32,
    pub domain: &'a ClassicalDomain,
    /// For each fact, the actions with a layer that add it.
    pub effect_to_actions: Vec<Vec<usize>>,
    /// The layer of each action.
    pub action_layer: Vec<u32>,
    /// The layer of each fact.
    pub fact_layer: Vec<u32>,
}

impl<'a> GraphPlan<'a> {
    /// The parts of the graph agree with each other: an action stands above its
    /// precondition, and a fact above an action that adds it.
    pub open spec fn wf(&self) -> bool {
        let d = *self.domain;
        &&& self.action_layer@.len() == d.n_actions()
        &&& self.fact_layer@.len() == d.n_facts()
        &&& self.effect_to_actions@.len() == d.n_facts()
        &&& 2 * (d.n_facts() + 1) < u32::MAX
        &&& self.depth % 2 == 0
        &&& forall|f: u32| #[trigger] self.facts@.contains_key(f) <==> f < d.n_facts()
        &&& forall|f: u32|
            f < d.n_facts() ==> #[trigger] self.facts@[f] == self.fact_layer@[f as int]
        &&& forall|a: usize| #[trigger] self.actions@.contains_key(a) <==> a < d.n_actions()
        &&& forall|a: usize|
            a < d.n_actions() ==> #[trigger] self.actions@[a] == self.action_layer@[a as int]
        &&& forall|f: u32, a: usize|
            f < d.n_facts() ==> (#[trigger] self.effect_to_actions@[f as int]@.contains(a)
                <==> d.adds(a as int, f) && self.action_layer@[a as int] != u32::MAX)
        &&& forall|a: int|
            0 <= a < d.n_actions() && #[trigger] self.action_layer@[a] != u32::MAX ==> {
                &&& self.action_layer@[a] % 2 == 1
                &&& forall|p: u32| #[trigger]
                    d.pre(a).contains(p) ==> p < d.n_facts() && self.fact_layer@[p as int]
                        < self.action_layer@[a]
            }
        &&& forall|f: u32|
            f < d.n_facts() && #[trigger] self.fact_layer@[f as int] != u32::MAX ==> {
                &&& self.fact_layer@[f as int] % 2 == 0
                &&& self.fact_layer@[f as int] <= self.depth
                &&& self.fact_layer@[f as int] > 0 ==> exists|a: int| #[trigger]
                    d.adds(a, f) && self.action_layer@[a] == self.fact_layer@[f as int] - 1
            }
    }

    /// The graph holds the layers in which facts and actions first occur when
    /// the facts `s` hold at the start: all that come before the last layer,
    /// the goal, and of the rest what the visits found up to the one that
    /// completed the goal.
    pub open spec fn is_layered(&self, s: Set<u32>, goal: Set<u32>) -> bool {
        let d = *self.domain;
        let k = (self.depth / 2) as nat;
        &&& reached_at(d, s, goal, k)
        &&& forall|f: u32|
            f < d.n_facts() && #[trigger] self.fact_layer@[f as int] != u32::MAX ==> enters(
                d,
                s,
                (self.fact_layer@[f as int] / 2) as nat,
                f,
            )
        &&& forall|f: u32, j: nat|
            (j < k || j == 0) && #[trigger] enters(d, s, j, f) ==> self.fact_layer@[f as int] == 2
                * j
        &&& forall|f: u32| #[trigger] goal.contains(f) ==> self.fact_layer@[f as int] != u32::MAX
        &&& forall|a: int|
            0 <= a < d.n_actions() && #[trigger] self.action_layer@[a] != u32::MAX ==> {
                &&& self.action_layer@[a] < self.depth
                &&& fires(d, s, (self.action_layer@[a] / 2) as nat, a)
            }
        &&& forall|a: int, j: nat|
            j + 1 < k && #[trigger] fires(d, s, j, a) ==> self.action_layer@[a] == 2 * j + 1
        &&& self.depth > 0 ==> exists|v: Visits| #[trigger] self.is_visited(s, goal, v)
    }

    /// The facts and actions with a layer are those that the visits found, and
    /// the last visit found a fact of the goal.
    pub open spec fn is_visited(&self, s: Set<u32>, goal: Set<u32>, v: Visits) -> bool {
        let d = *self.domain;
        &&& is_visit(d, s, v)
        &&& exists|a: int, f: u32|
            goal.contains(f) && !known(d, s, 0).contains(f) && #[trigger] brings(
                d,
                v.order,
                (v.done as int, a),
                f,
            )
        &&& forall|f: u32| #[trigger]
            v.order.contains(f) <==> f < d.n_facts() && self.fact_layer@[f as int] != u32::MAX
        &&& forall|a: int| #[trigger]
            triggered(d, v.order.take(v.done as int).to_set(), a) <==> 0 <= a < d.n_actions()
                && self.action_layer@[a] != u32::MAX
    }

    /// The graph of the finished builder was found on its trail.
    proof fn lemma_visited(
        g: GraphPlan,
        b: Builder,
        s: Set<u32>,
        goal: Set<u32>,
        k: nat,
        last: nat,
    )
        requires
            b.layers_ok(*g.domain, s, k),
            b.order_ok(*g.domain, s),
            b.fired_ok(*g.domain),
            forall|a: usize| #[trigger] b.effects_ok(*g.domain, a),
            b.new_goal(goal, 2 * last),
            g.domain.n_actions() <= usize::MAX,
            g.fact_layer@ == b.fact_placed@,
            g.action_layer@ == b.action_placed@,
        ensures
            g.is_visited(s, goal, b.trail@),
    {
        let d = *g.domain;
        let v = b.trail@;
        b.lemma_seen(d, s);
        reveal(trail_ok);
        assert forall|a: int, f: u32| #[trigger]
            d.adds(a, f) && triggered(d, v.order.take(v.done as int).to_set(), a) implies
            v.order.contains(f) by {
            assert(triggered(d, b.seen(), a));
            assert(b.ap(a) != u32::MAX);
            let c = a as usize;
            assert(b.effects_ok(d, c));
            assert(b.effects@[f as int]@.contains(c) <==> d.adds(c as int, f) && b.ap(c as int)
                != u32::MAX);
            assert(is_placed(b.fact_placed@, f));
        }
        let i = choose|i: int| #[trigger]
            is_new_goal(v, b.fact_placed@, goal, 2 * last, i);
        let f = v.order[i];
        assert(v.events[i].0 == v.done);
        assert(brings(d, v.order, (v.done as int, v.events[i].1), f));
        assert forall|a: int| #[trigger]
            triggered(d, v.order.take(v.done as int).to_set(), a) <==> 0 <= a < d.n_actions()
                && g.action_layer@[a] != u32::MAX by {
            if 0 <= a < d.n_actions() && b.ap(a) != u32::MAX {
                assert(triggered(d, b.seen(), a));
            }
            if triggered(d, b.seen(), a) {
                assert(b.ap(a) != u32::MAX);
            }
        }
        assert forall|f: u32| #[trigger] v.order.contains(f) <==> f < d.n_facts()
            && g.fact_layer@[f as int] != u32::MAX by {
            assert(v.order.contains(f) <==> is_placed(b.fact_placed@, f));
        }
    }

    /// The graph that the finished builder holds.
    fn from_builder(
        domain: &'a ClassicalDomain,
        b: Builder,
        goal: &HashSet<u32>,
        Ghost(s): Ghost<Set<u32>>,
        Ghost(k): Ghost<nat>,
        Ghost(last): Ghost<nat>,
    ) -> (g: GraphPlan<'a>)
        requires
            2 * (domain.n_facts() + 1) < u32::MAX,
            b.layers_ok(*domain, s, k),
            b.queue_ok(*domain, k),
            b.order_ok(*domain, s),
            domain.n_actions() <= usize::MAX,
            last > 0 ==> b.fired_ok(*domain),
            forall|a: usize| #[trigger] b.effects_ok(*domain, a),
            forall|f: u32| #[trigger]
                goal@.contains(f) ==> f < domain.n_facts() && b.fp(f) != u32::MAX,
            b.stopped(*domain, goal@, k, last),
        ensures
            g.domain == domain,
            g.wf(),
            g.is_layered(s, goal@),
    {
        let ghost b0 = b;
        let mut facts: HashMap<u32, u32> = HashMap::new();
        let mut depth: u32 = 0;
        let mut f: usize = 0;
        while f < b.fact_placed.len()
            invariant
                f <= b.fact_placed@.len(),
                2 * (b.fact_placed@.len() + 1) < u32::MAX,
                forall|x: u32| #[trigger] facts@.contains_key(x) <==> x < f,
                forall|x: u32| x < f ==> #[trigger] facts@[x] == b.fact_placed@[x as int],
                forall|x: u32| x < f && #[trigger] b.fp(x) != u32::MAX ==> b.fp(x) <= depth,
                depth == 0 || exists|x: u32| x < f && #[trigger] b.fp(x) == depth,
                depth < u32::MAX,
            decreases b.fact_placed@.len() - f,
        {
            let l: u32 = b.fact_placed[f];
            facts.insert(f as u32, l);
            assert(b.fp(f as u32) == l);
            if l != u32::MAX && l > depth {
                depth = l;
            }
            f += 1;
        }
        let mut actions: HashMap<usize, u32> = HashMap::new();
        let mut a: usize = 0;
        while a < b.action_placed.len()
            invariant
                a <= b.action_placed@.len(),
                forall|x: usize| #[trigger] actions@.contains_key(x) <==> x < a,
                forall|x: usize| x < a ==> #[trigger] actions@[x] == b.action_placed@[x as int],
            decreases b.action_placed@.len() - a,
        {
            actions.insert(a, b.action_placed[a]);
            a += 1;
        }
        proof {
            b.lemma_finished(*domain, s, goal@, k, last);
            assert(depth == 2 * last) by {
                if depth > 0 {
                    let x = choose|x: u32| x < f && #[trigger] b.fp(x) == depth;
                    assert(b.fp(x) <= 2 * last);
                }
                if last > 0 {
                    let x = b.lemma_new_goal(goal@, 2 * last);
                }
            }
        }
        let g: GraphPlan<'a> = GraphPlan {
            actions,
            facts,
            depth,
            domain,
            effect_to_actions: b.effects,
            action_layer: b.action_placed,
            fact_layer: b.fact_placed,
        };
        proof {
            let d = *domain;
            assert forall|x: u32| x < d.n_facts() implies #[trigger] g.fact_layer@[x as int]
                == b0.fp(x) by {}
            assert forall|x: int| 0 <= x < d.n_actions() implies #[trigger] g.action_layer@[x]
                == b0.ap(x) by {}
            assert(g.wf()) by {
                assert forall|x: u32, y: usize| x < d.n_facts() implies (
                #[trigger] g.effect_to_actions@[x as int]@.contains(y) <==> d.adds(y as int, x)
                    && g.action_layer@[y as int] != u32::MAX) by {
                    assert(b0.effects_ok(d, y));
                    assert(b0.effects@[x as int]@.contains(y) <==> d.adds(y as int, x) && b0.ap(
                        y as int,
                    ) != u32::MAX);
                }
                assert forall|x: u32|
                    x < d.n_facts() && #[trigger] g.fact_layer@[x as int] != u32::MAX implies {
                    &&& g.fact_layer@[x as int] % 2 == 0
                    &&& g.fact_layer@[x as int] <= g.depth
                    &&& g.fact_layer@[x as int] > 0 ==> exists|y: int| #[trigger]
                        d.adds(y, x) && g.action_layer@[y] == g.fact_layer@[x as int] - 1
                } by {
                    assert(b0.fp(x) != u32::MAX);
                    if b0.fp(x) > 0 {
                        let y = choose|y: int| #[trigger]
                            d.adds(y, x) && b0.ap(y) == b0.fp(x) - 1;
                        assert(d.adds(y, x) && g.action_layer@[y] == g.fact_layer@[x as int] - 1);
                    }
                }
            }
            if depth > 0 {
                Self::lemma_visited(g, b0, s, goal@, k, last);
            }
        }
        g
    }

    /// The graph from the facts of `state` to the facts of `goal`, or nothing
    /// where no number of layers reaches all of them.
    pub fn build_graph(
        domain: &'a ClassicalDomain,
        state: &HashSet<u32>,
        goal: &HashSet<u32>,
    ) -> (graph: Option<GraphPlan<'a>>)
        requires
            2 * (domain.n_facts() + 1) < u32::MAX,
        ensures
            graph is None <==> forall|k: nat| !#[trigger] reached_at(*domain, state@, goal@, k),
            graph matches Some(g) ==> g.domain == domain && g.wf() && g.is_layered(state@, goal@),
    {
        let lists: ActionLists = ActionLists::new(domain);
        let n: usize = domain.facts.names.len();
        let users: Vec<Vec<usize>> = invert(n, &lists.pre);
        let goal_list: Vec<u32> = elements(goal);
        let mut builder: Builder = Builder::seed(domain, state, &goal_list);
        let ghost mut k: nat = 0;
        let ghost mut last: nat = 0;
        proof {
            assert forall|f: u32, a: usize| f < domain.n_facts() implies (
            #[trigger] users@[f as int]@.contains(a) <==> a < domain.n_actions() && domain.pre(
                a as int,
            ).contains(f)) by {
                if a < domain.n_actions() {
                    assert(lists.pre@[a as int]@.to_set() == domain.pre(a as int));
                    assert(lists.pre@[a as int]@.to_set().contains(f)
                        <==> lists.pre@[a as int]@.contains(f));
                }
            }
        }
        if builder.remaining_goals > 0 {
            builder.fire_free(domain, &lists, goal, &goal_list, Ghost(state@));
            proof {
                last = 1;
            }
        }
        while builder.remaining_goals > 0 && builder.queue.len() > 0
            invariant
                2 * (domain.n_facts() + 1) < u32::MAX,
                lists.wf(*domain),
                users@.len() == domain.n_facts(),
                forall|f: u32, a: usize|
                    f < domain.n_facts() ==> (#[trigger] users@[f as int]@.contains(a) <==> a
                        < domain.n_actions() && domain.pre(a as int).contains(f)),
                forall|f: int, i: int, j: int|
                    0 <= f < domain.n_facts() && 0 <= i < j < users@[f]@.len()
                        ==> #[trigger] users@[f]@[i] <= #[trigger] users@[f]@[j],
                builder.layers_ok(*domain, state@, k),
                builder.queue_ok(*domain, k),
                builder.order_ok(*domain, state@),
                builder.goals_ok(goal_list@),
                goal_list@.no_duplicates(),
                forall|x: u32| goal@.contains(x) <==> #[trigger] goal_list@.contains(x),
                forall|b: usize| #[trigger] builder.effects_ok(*domain, b),
                last > 0 ==> builder.fired_ok(*domain),
                builder.remaining_goals > 0 ==> last > 0,
                builder.remaining_goals == 0 ==> builder.stopped(*domain, goal@, k, last),
            decreases unplaced(builder.fact_placed@) + builder.queue@.len(),
        {
            let Ghost(level) = builder.visit_next(
                domain,
                &lists,
                &users,
                goal,
                &goal_list,
                Ghost(state@),
                Ghost(k),
            );
            proof {
                k = level;
                last = level + 1;
            }
        }
        proof {
            lemma_open_goals_zero(goal_list@, builder.fact_placed@);
        }
        assert(lists.pre.len() == domain.n_actions());
        if builder.remaining_goals > 0 {
            proof {
                assert forall|m: nat| !#[trigger] reached_at(*domain, state@, goal@, m) by {
                    if goal@.subset_of(known(*domain, state@, m)) {
                        assert forall|i: int| 0 <= i < goal_list@.len() implies is_placed(
                            builder.fact_placed@,
                            #[trigger] goal_list@[i],
                        ) by {
                            let g = goal_list@[i];
                            assert(goal_list@.contains(g));
                            builder.lemma_exhausted(*domain, state@, k, m, g);
                        }
                    }
                }
            }
            return None;
        }
        proof {
            assert forall|g: u32| #[trigger] goal@.contains(g) implies g < domain.n_facts()
                && builder.fp(g) != u32::MAX by {
                assert(goal_list@.contains(g));
                let i = choose|i: int| 0 <= i < goal_list@.len() && goal_list@[i] == g;
                assert(is_placed(builder.fact_placed@, goal_list@[i]));
            }
            builder.lemma_finished(*domain, state@, goal@, k, last);
            assert(reached_at(*domain, state@, goal@, last));
        }
        let graph: GraphPlan<'a> = GraphPlan::from_builder(
            domain,
            builder,
            goal,
            Ghost(state@),
            Ghost(k),
            Ghost(last),
        );
        Some(graph)
    }

    /// Whether all facts of `goal` have a layer in `indices`.
    pub fn all_goals_satisfied(indices: &HashMap<u32, u32>, goal: &HashSet<u32>) -> (r: bool)
        requires
            goal@.subset_of(indices@.dom()),
        ensures
            r == forall|g: u32| #[trigger] goal@.contains(g) ==> indices@[g] != u32::MAX,
    {
        let list: Vec<u32> = elements(goal);
        let mut i: usize = 0;
        while i < list.len()
            invariant
                i <= list@.len(),
                goal@.subset_of(indices@.dom()),
                forall|x: u32| goal@.contains(x) <==> #[trigger] list@.contains(x),
                forall|j: int| 0 <= j < i ==> indices@[#[trigger] list@[j]] != u32::MAX,
            decreases list@.len() - i,
        {
            assert(list@.contains(list@[i as int]));
            match indices.get(&list[i]) {
                Some(l) => {
                    if *l == u32::MAX {
                        return false;
                    }
                },
                None => {},
            }
            i += 1;
        }
        proof {
            assert forall|g: u32| #[trigger] goal@.contains(g) implies indices@[g] != u32::MAX by {
                assert(list@.contains(g));
            }
        }
        true
    }

    /// The goal facts of each layer.
    pub fn compute_goal_indices(&self, goal: &HashSet<u32>) -> (mapping: HashMap<
        u32,
        HashSet<u32>,
    >)
        ensures
            forall|l: u32| #[trigger]
                mapping@.contains_key(l) <==> exists|g: u32|
                    self.is_goal_of_layer(goal@, l, g),
            forall|l: u32, g: u32|
                mapping@.contains_key(l) ==> (#[trigger] mapping@[l]@.contains(g)
                    <==> self.is_goal_of_layer(goal@, l, g)),
    {
        let mut mapping: HashMap<u32, HashSet<u32>> = HashMap::new();
        let list: Vec<u32> = elements(goal);
        let mut i: usize = 0;
        while i < list.len()
            invariant
                i <= list@.len(),
                forall|x: u32| goal@.contains(x) <==> #[trigger] list@.contains(x),
                forall|l: u32| #[trigger]
                    mapping@.contains_key(l) <==> exists|j: int|
                        0 <= j < i && self.is_goal_of_layer(goal@, l, #[trigger] list@[j]),
                forall|l: u32, g: u32|
                    mapping@.contains_key(l) ==> (#[trigger] mapping@[l]@.contains(g)
                        <==> list@.take(i as int).contains(g) && self.is_goal_of_layer(
                        goal@,
                        l,
                        g,
                    )),
            decreases list@.len() - i,
        {
            let g: u32 = list[i];
            let ghost before = mapping@;
            let ghost done = list@.take(i as int);
            assert(list@.contains(list@[i as int]));
            assert(list@.take(i + 1) =~= done.push(g));
            proof {
                assert forall|x: u32| #[trigger] done.push(g).contains(x) <==> x == g
                    || done.contains(x) by {
                    if done.contains(x) {
                        let j = choose|j: int| 0 <= j < done.len() && done[j] == x;
                        assert(done.push(g)[j] == x);
                    }
                    assert(done.push(g)[done.len() as int] == g);
                }
            }
            match self.facts.get(&g) {
                Some(layer) => {
                    let layer: u32 = *layer;
                    let mut facts: HashSet<u32> = match mapping.remove(&layer) {
                        Some(facts) => facts,
                        None => HashSet::new(),
                    };
                    let ghost facts0 = facts@;
                    facts.insert(g);
                    mapping.insert(layer, facts);
                    proof {
                        assert forall|l: u32| #[trigger]
                            mapping@.contains_key(l) <==> exists|j: int|
                                0 <= j < i + 1 && self.is_goal_of_layer(
                                    goal@,
                                    l,
                                    #[trigger] list@[j],
                                ) by {
                            if before.contains_key(l) {
                                let j = choose|j: int|
                                    0 <= j < i && self.is_goal_of_layer(
                                        goal@,
                                        l,
                                        #[trigger] list@[j],
                                    );
                                assert(self.is_goal_of_layer(goal@, l, list@[j]));
                            }
                            if l == layer {
                                assert(self.is_goal_of_layer(goal@, l, list@[i as int]));
                            }
                        }
                        assert forall|l: u32, x: u32| mapping@.contains_key(l) implies (
                        #[trigger] mapping@[l]@.contains(x) <==> list@.take(i + 1).contains(x)
                            && self.is_goal_of_layer(goal@, l, x)) by {
                            if before.contains_key(l) {
                                assert(before[l]@.contains(x) <==> done.contains(x)
                                    && self.is_goal_of_layer(goal@, l, x));
                            }
                            if l == layer {
                                assert(mapping@[l]@ == facts0.insert(g));
                                if !before.contains_key(l) && x != g && done.contains(x)
                                    && self.is_goal_of_layer(goal@, l, x) {
                                    let j = choose|j: int| 0 <= j < done.len() && done[j] == x;
                                    assert(list@[j] == x);
                                }
                            } else {
                                assert(mapping@[l] == before[l]);
                            }
                        }
                    }
                },
                None => {
                    assert(forall|l: u32| !self.is_goal_of_layer(goal@, l, g));
                },
            }
            i += 1;
        }
        assert(list@.take(i as int) =~= list@);
        proof {
            assert forall|l: u32| #[trigger] mapping@.contains_key(l) <==> exists|g: u32|
                self.is_goal_of_layer(goal@, l, g) by {
                if exists|g: u32| self.is_goal_of_layer(goal@, l, g) {
                    let g = choose|g: u32| self.is_goal_of_layer(goal@, l, g);
                    assert(list@.contains(g));
                    let j = choose|j: int| 0 <= j < list@.len() && list@[j] == g;
                    assert(self.is_goal_of_layer(goal@, l, list@[j]));
                }
            }
            assert forall|l: u32, g: u32| mapping@.contains_key(l) implies (
            #[trigger] mapping@[l]@.contains(g) <==> self.is_goal_of_layer(goal@, l, g)) by {
                assert(goal@.contains(g) <==> list@.contains(g));
            }
        }
        mapping
    }

    /// The fact `g` is a goal fact with the layer `l`.
    pub open spec fn is_goal_of_layer(&self, goal: Set<u32>, l: u32, g: u32) -> bool {
        goal.contains(g) && self.facts@.contains_key(g) && self.facts@[g] == l
    }

    /// The actions of the layer `index`, which is odd.
    pub fn get_action_layer(&self, index: u32) -> (actions: HashSet<usize>)
        requires
            index % 2 == 1,
            self.wf(),
        ensures
            forall|a: usize| #[trigger]
                actions@.contains(a) <==> a < self.domain.n_actions() && self.actions@[a] == index
                    && index != u32::MAX,
    {
        let mut actions: HashSet<usize> = HashSet::new();
        if index == u32::MAX {
            return actions;
        }
        let mut a: usize = 0;
        while a < self.action_layer.len()
            invariant
                a <= self.action_layer@.len(),
                self.wf(),
                forall|x: usize| #[trigger]
                    actions@.contains(x) <==> x < a && self.actions@[x] == index,
            decreases self.action_layer@.len() - a,
        {
            if self.action_layer[a] == index {
                actions.insert(a);
            }
            assert(self.actions@[a] == self.action_layer@[a as int]);
            a += 1;
        }
        actions
    }

    /// The facts of the layer `index`, which is even.
    pub fn get_fact_layer(&self, index: u32) -> (facts: HashSet<u32>)
        requires
            index % 2 == 0,
            self.wf(),
        ensures
            forall|f: u32| #[trigger]
                facts@.contains(f) <==> f < self.domain.n_facts() && self.facts@[f] == index,
    {
        let mut facts: HashSet<u32> = HashSet::new();
        let mut f: usize = 0;
        while f < self.fact_layer.len()
            invariant
                f <= self.fact_layer@.len(),
                self.wf(),
                forall|x: u32| #[trigger] facts@.contains(x) <==> x < f && self.facts@[x] == index,
            decreases self.fact_layer@.len() - f,
        {
            if self.fact_layer[f] == index {
                facts.insert(f as u32);
            }
            assert(self.facts@[f as u32] == self.fact_layer@[f as int]);
            f += 1;
        }
        facts
    }
}

} // verus!

//! The maximum heuristic: how deep a fact lies when the actions' delete sets
//! are ignored and a precondition costs as much as its dearest fact.

use vstd::prelude::*;

use crate::domain::ClassicalDomain;
use crate::sets::elements;

verus! {

broadcast use vstd::std_specs::hash::group_hash_axioms;

/// From the facts `s`, the fact `f` is reached in at most `t` rounds of
/// actions, and the cost of the dearest chain of actions behind it is at most `k`.
pub open spec fn reached_in(
    d: ClassicalDomain,
    costs: Seq<u32>,
    s: Set<u32>,
    t: nat,
    k: int,
    f: u32,
) -> bool
    decreases t, 0nat,
{
    if k < 0 || f >= d.n_facts() {
        false
    } else if t == 0 {
        s.contains(f)
    } else {
        ||| reached_in(d, costs, s, (t - 1) as nat, k, f)
        ||| exists|a: int| #[trigger] d.adds(a, f) && reaches_all(
            d,
            costs,
            s,
            (t - 1) as nat,
            k - costs[a],
            d.pre(a),
        )
    }
}

/// Every fact of `facts` is reached in at most `t` rounds at a cost of at most `k`.
pub open spec fn reaches_all(
    d: ClassicalDomain,
    costs: Seq<u32>,
    s: Set<u32>,
    t: nat,
    k: int,
    facts: Set<u32>,
) -> bool
    decreases t, 1nat,
{
    k >= 0 && forall|p: u32| #[trigger] facts.contains(p) ==> reached_in(d, costs, s, t, k, p)
}

/// The depth of the fact `f` is at most `k`.
pub open spec fn hmax_le(d: ClassicalDomain, costs: Seq<u32>, s: Set<u32>, k: int, f: u32) -> bool {
    exists|t: nat| #[trigger] reached_in(d, costs, s, t, k, f)
}

/// The depth of every fact of `goal` is at most `k`.
pub open spec fn goal_le(
    d: ClassicalDomain,
    costs: Seq<u32>,
    s: Set<u32>,
    k: int,
    goal: Set<u32>,
) -> bool {
    k >= 0 && forall|g: u32| #[trigger] goal.contains(g) ==> hmax_le(d, costs, s, k, g)
}

/// `v` is the depth of `goal`: the depth of its deepest fact. `None` stands for
/// a goal that no depth below `u32::MAX` reaches.
pub open spec fn is_goal_depth(
    d: ClassicalDomain,
    costs: Seq<u32>,
    s: Set<u32>,
    goal: Set<u32>,
    v: Option<u32>,
) -> bool {
    match v {
        Some(v) => {
            &&& v < u32::MAX
            &&& goal_le(d, costs, s, v as int, goal)
            &&& forall|k: int| k < v ==> !#[trigger] goal_le(d, costs, s, k, goal)
        },
        None => forall|k: int| k < u32::MAX ==> !#[trigger] goal_le(d, costs, s, k, goal),
    }
}

/// The entry of the fact `p` in the table `h`; a fact outside of it has none.
pub open spec fn entry(h: Seq<u32>, p: u32) -> u32 {
    if p < h.len() {
        h[p as int]
    } else {
        u32::MAX
    }
}

/// No fact of `facts` has an entry above `m`.
pub open spec fn bounded_by(h: Seq<u32>, facts: Set<u32>, m: int) -> bool {
    forall|p: u32| #[trigger] facts.contains(p) ==> entry(h, p) <= m
}

/// `m` is the greatest entry of `facts`, and 0 where there is no fact.
pub open spec fn is_greatest(h: Seq<u32>, facts: Set<u32>, m: u32) -> bool {
    &&& bounded_by(h, facts, m as int)
    &&& m == 0 || exists|p: u32| #[trigger] facts.contains(p) && entry(h, p) == m
}

/// Every action carries the depth of its precondition over to what it adds.
pub open spec fn is_closed(d: ClassicalDomain, costs: Seq<u32>, h: Seq<u32>) -> bool {
    forall|a: int, f: u32, m: u32| #[trigger]
        d.adds(a, f) && #[trigger] is_greatest(h, d.pre(a), m) && m < u32::MAX ==> h[f as int]
            <= costs[a] + m
}

/// Every finite entry of the table is a depth that some derivation gives.
pub open spec fn is_sound(d: ClassicalDomain, costs: Seq<u32>, s: Set<u32>, h: Seq<u32>) -> bool {
    &&& h.len() == d.n_facts()
    &&& forall|f: u32|
        f < d.n_facts() && #[trigger] h[f as int] < u32::MAX ==> hmax_le(
            d,
            costs,
            s,
            h[f as int] as int,
            f,
        )
    &&& forall|f: u32| f < d.n_facts() && #[trigger] s.contains(f) ==> h[f as int] == 0
}

/// The table `h` holds the depth of every fact, and `u32::MAX` for a fact that
/// is not reached.
pub open spec fn is_hmax(d: ClassicalDomain, costs: Seq<u32>, s: Set<u32>, h: Seq<u32>) -> bool {
    is_sound(d, costs, s, h) && is_closed(d, costs, h)
}

/// More rounds and a higher bound keep what is reached.
pub proof fn lemma_reached_mono(
    d: ClassicalDomain,
    costs: Seq<u32>,
    s: Set<u32>,
    t1: nat,
    t2: nat,
    k1: int,
    k2: int,
    f: u32,
)
    requires
        t1 <= t2,
        k1 <= k2,
        reached_in(d, costs, s, t1, k1, f),
    ensures
        reached_in(d, costs, s, t2, k2, f),
    decreases t2,
{
    if t2 == 0 {
    } else if t1 < t2 {
        lemma_reached_mono(d, costs, s, t1, (t2 - 1) as nat, k1, k2, f);
    } else {
        if reached_in(d, costs, s, (t1 - 1) as nat, k1, f) {
            lemma_reached_mono(d, costs, s, (t1 - 1) as nat, (t2 - 1) as nat, k1, k2, f);
        } else {
            let a = choose|a: int| #[trigger]
                d.adds(a, f) && reaches_all(
                    d,
                    costs,
                    s,
                    (t1 - 1) as nat,
                    k1 - costs[a],
                    d.pre(a),
                );
            assert forall|p: u32| #[trigger] d.pre(a).contains(p) implies reached_in(
                d,
                costs,
                s,
                (t2 - 1) as nat,
                k2 - costs[a],
                p,
            ) by {
                lemma_reached_mono(
                    d,
                    costs,
                    s,
                    (t1 - 1) as nat,
                    (t2 - 1) as nat,
                    k1 - costs[a],
                    k2 - costs[a],
                    p,
                );
            }
            assert(d.adds(a, f) && reaches_all(
                d,
                costs,
                s,
                (t2 - 1) as nat,
                k2 - costs[a],
                d.pre(a),
            ));
        }
    }
}

/// Entries that are bounded by `b` have a greatest one.
proof fn lemma_greatest_below(h: Seq<u32>, facts: Set<u32>, b: u32) -> (m: u32)
    requires
        bounded_by(h, facts, b as int),
    ensures
        is_greatest(h, facts, m),
    decreases b,
{
    if b == 0 {
        0
    } else if bounded_by(h, facts, b - 1) {
        lemma_greatest_below(h, facts, (b - 1) as u32)
    } else {
        b
    }
}

/// Every set of facts has a greatest entry.
pub proof fn lemma_greatest_exists(h: Seq<u32>, facts: Set<u32>) -> (m: u32)
    ensures
        is_greatest(h, facts, m),
{
    lemma_greatest_below(h, facts, u32::MAX)
}

/// A table of depths lies below every bound that a derivation gives.
pub proof fn lemma_hmax_below(
    d: ClassicalDomain,
    costs: Seq<u32>,
    s: Set<u32>,
    h: Seq<u32>,
    t: nat,
    k: int,
    f: u32,
)
    requires
        is_hmax(d, costs, s, h),
        reached_in(d, costs, s, t, k, f),
    ensures
        h[f as int] <= k,
    decreases t,
{
    if t > 0 {
        if reached_in(d, costs, s, (t - 1) as nat, k, f) {
            lemma_hmax_below(d, costs, s, h, (t - 1) as nat, k, f);
        } else {
            let a = choose|a: int| #[trigger]
                d.adds(a, f) && reaches_all(
                    d,
                    costs,
                    s,
                    (t - 1) as nat,
                    k - costs[a],
                    d.pre(a),
                );
            assert forall|p: u32| #[trigger] d.pre(a).contains(p) implies entry(h, p) <= k
                - costs[a] by {
                lemma_hmax_below(d, costs, s, h, (t - 1) as nat, k - costs[a], p);
            }
            let m = lemma_greatest_exists(h, d.pre(a));
            if m < u32::MAX {
                assert(d.adds(a, f) && is_greatest(h, d.pre(a), m));
            } else {
                assert(k - costs[a] >= u32::MAX);
            }
        }
    }
}

/// The greatest entry of a set of facts is unique.
pub proof fn lemma_greatest_unique(h: Seq<u32>, facts: Set<u32>, m1: u32, m2: u32)
    requires
        is_greatest(h, facts, m1),
        is_greatest(h, facts, m2),
    ensures
        m1 == m2,
{
    if m1 != 0 {
        let p = choose|p: u32| #[trigger] facts.contains(p) && entry(h, p) == m1;
        assert(facts.contains(p));
    }
    if m2 != 0 {
        let p = choose|p: u32| #[trigger] facts.contains(p) && entry(h, p) == m2;
        assert(facts.contains(p));
    }
}

/// The greatest entry of the goal is the depth of the goal.
pub proof fn lemma_goal_depth(
    d: ClassicalDomain,
    costs: Seq<u32>,
    s: Set<u32>,
    h: Seq<u32>,
    goal: Set<u32>,
    m: u32,
)
    requires
        is_hmax(d, costs, s, h),
        is_greatest(h, goal, m),
    ensures
        is_goal_depth(
            d,
            costs,
            s,
            goal,
            if m == u32::MAX {
                None
            } else {
                Some(m)
            },
        ),
{
    if m < u32::MAX {
        assert forall|g: u32| #[trigger] goal.contains(g) implies hmax_le(
            d,
            costs,
            s,
            m as int,
            g,
        ) by {
            assert(h[g as int] < u32::MAX);
            let t = choose|t: nat| reached_in(d, costs, s, t, h[g as int] as int, g);
            lemma_reached_mono(d, costs, s, t, t, h[g as int] as int, m as int, g);
        }
    }
    assert forall|k: int| k < m implies !#[trigger] goal_le(d, costs, s, k, goal) by {
        if goal_le(d, costs, s, k, goal) {
            let g = choose|g: u32| #[trigger] goal.contains(g) && entry(h, g) == m;
            assert(hmax_le(d, costs, s, k, g));
            let t = choose|t: nat| reached_in(d, costs, s, t, k, g);
            assert(g < d.n_facts());
            lemma_hmax_below(d, costs, s, h, t, k, g);
        }
    }
}

/// The precondition and the add set of every action, as lists.
pub struct ActionLists {
    pub pre: Vec<Vec<u32>>,
    pub add: Vec<Vec<u32>>,
}

impl ActionLists {
    /// The lists hold what the domain's sets hold.
    pub open spec fn wf(&self, d: ClassicalDomain) -> bool {
        &&& self.pre@.len() == d.n_actions()
        &&& self.add@.len() == d.n_actions()
        &&& forall|a: int|
            #![trigger self.pre@[a]]
            #![trigger d.pre(a)]
            0 <= a < d.n_actions() ==> self.pre@[a]@.to_set() == d.pre(a)
        &&& forall|a: int|
            #![trigger self.add@[a]]
            #![trigger d.add(a)]
            0 <= a < d.n_actions() ==> self.add@[a]@.to_set() == d.add(a)
        &&& forall|a: int| 0 <= a < d.n_actions() ==> (#[trigger] self.pre@[a])@.no_duplicates()
        &&& forall|a: int| 0 <= a < d.n_actions() ==> (#[trigger] self.add@[a])@.no_duplicates()
    }

    pub fn new(d: &ClassicalDomain) -> (lists: ActionLists)
        ensures
            lists.wf(*d),
    {
        let mut pre: Vec<Vec<u32>> = Vec::new();
        let mut add: Vec<Vec<u32>> = Vec::new();
        let n: usize = d.actions.len();
        let mut i: usize = 0;
        while i < n
            invariant
                i <= n,
                n == d.n_actions(),
                pre@.len() == i,
                add@.len() == i,
                forall|a: int|
                    0 <= a < i ==> (#[trigger] pre@[a])@.to_set() == d.pre(a)
                        && pre@[a]@.no_duplicates(),
                forall|a: int|
                    0 <= a < i ==> (#[trigger] add@[a])@.to_set() == d.add(a)
                        && add@[a]@.no_duplicates(),
            decreases n - i,
        {
            pre.push(elements(&d.actions[i].pre_cond));
            if d.actions[i].add_effects.len() == 0 {
                let none: Vec<u32> = Vec::new();
                assert(none@.to_set() =~= Set::empty());
                add.push(none);
            } else {
                add.push(elements(&d.actions[i].add_effects[0]));
            }
            i += 1;
        }
        ActionLists { pre, add }
    }
}

/// The greatest entry of the listed facts.
pub fn greatest_entry(h: &Vec<u32>, facts: &Vec<u32>) -> (m: u32)
    ensures
        is_greatest(h@, facts@.to_set(), m),
        forall|i: int|
            0 <= i < facts@.len() ==> m >= (if #[trigger] facts@[i] < h@.len() {
                h@[facts@[i] as int]
            } else {
                u32::MAX
            }),
        m == 0 || exists|i: int|
            0 <= i < facts@.len() && m == (if #[trigger] facts@[i] < h@.len() {
                h@[facts@[i] as int]
            } else {
                u32::MAX
            }),
{
    let mut m: u32 = 0;
    let mut i: usize = 0;
    while i < facts.len()
        invariant
            i <= facts@.len(),
            forall|j: int| 0 <= j < i ==> entry(h@, #[trigger] facts@[j]) <= m,
            m == 0 || exists|j: int| 0 <= j < i && entry(h@, #[trigger] facts@[j]) == m,
        decreases facts@.len() - i,
    {
        let p: u32 = facts[i];
        let v: u32 = if (p as usize) < h.len() {
            h[p as usize]
        } else {
            u32::MAX
        };
        if v > m {
            m = v;
        }
        assert(entry(h@, facts@[i as int]) == v);
        i += 1;
    }
    proof {
        assert forall|p: u32| #[trigger] facts@.to_set().contains(p) implies entry(h@, p) <= m by {
            let j = choose|j: int| 0 <= j < facts@.len() && facts@[j] == p;
            assert(entry(h@, facts@[j]) <= m);
        }
        if m != 0 {
            let j = choose|j: int| 0 <= j < facts@.len() && entry(h@, #[trigger] facts@[j]) == m;
            assert(facts@.to_set().contains(facts@[j]));
        }
    }
    m
}

/// The sum of a table's entries.
pub open spec fn total(h: Seq<u32>) -> nat
    decreases h.len(),
{
    if h.len() == 0 {
        0
    } else {
        total(h.drop_last()) + h.last() as nat
    }
}

/// Writing one entry changes the sum by the difference.
pub proof fn lemma_total_update(h: Seq<u32>, i: int, v: u32)
    requires
        0 <= i < h.len(),
    ensures
        total(h.update(i, v)) == total(h) - h[i] + v,
    decreases h.len(),
{
    let u = h.update(i, v);
    if i == h.len() - 1 {
        assert(u.drop_last() =~= h.drop_last());
    } else {
        assert(u.drop_last() =~= h.drop_last().update(i, v));
        lemma_total_update(h.drop_last(), i, v);
    }
}

/// The table `h` after each listed fact's entry is lowered to `v`.
pub open spec fn lowered(h: Seq<u32>, facts: Set<u32>, v: u32) -> Seq<u32> {
    Seq::new(
        h.len(),
        |i: int|
            if facts.contains(i as u32) && i <= u32::MAX && v < h[i] {
                v
            } else {
                h[i]
            },
    )
}

/// Lowers the entry of each listed fact to `v`, and tells whether any was above it.
fn lower_all(h: &mut Vec<u32>, facts: &Vec<u32>, v: u32) -> (changed: bool)
    ensures
        final(h)@ == lowered(old(h)@, facts@.to_set(), v),
        changed ==> total(final(h)@) < total(old(h)@),
        !changed ==> final(h)@ == old(h)@,
{
    let mut changed: bool = false;
    let mut i: usize = 0;
    proof {
        assert(h@ =~= lowered(h@, facts@.take(0).to_set(), v));
    }
    while i < facts.len()
        invariant
            i <= facts@.len(),
            h@ == lowered(old(h)@, facts@.take(i as int).to_set(), v),
            changed ==> total(h@) < total(old(h)@),
            !changed ==> h@ == old(h)@,
        decreases facts@.len() - i,
    {
        let ghost h0 = h@;
        let f: u32 = facts[i];
        proof {
            assert(facts@.take(i + 1) =~= facts@.take(i as int).push(f));
            assert forall|x: u32|
                facts@.take(i + 1).to_set().contains(x) <==> x == f || facts@.take(
                    i as int,
                ).to_set().contains(x) by {
                let l = facts@.take(i as int);
                if l.contains(x) {
                    let j = choose|j: int| 0 <= j < l.len() && l[j] == x;
                    assert(l.push(f)[j] == x);
                }
                if x == f {
                    assert(l.push(f)[l.len() as int] == x);
                }
            }
        }
        if (f as usize) < h.len() && v < h[f as usize] {
            proof {
                lemma_total_update(h@, f as int, v);
            }
            h.set(f as usize, v);
            changed = true;
        }
        i += 1;
        assert(h@ =~= lowered(old(h)@, facts@.take(i as int).to_set(), v));
    }
    proof {
        assert(facts@.take(i as int) =~= facts@);
    }
    changed
}

/// Facts that are all within the depth `k` are so after a common number of rounds.
pub proof fn lemma_common_rounds(
    d: ClassicalDomain,
    costs: Seq<u32>,
    s: Set<u32>,
    k: int,
    facts: Seq<u32>,
) -> (t: nat)
    requires
        k >= 0,
        forall|j: int| 0 <= j < facts.len() ==> hmax_le(d, costs, s, k, #[trigger] facts[j]),
    ensures
        reaches_all(d, costs, s, t, k, facts.to_set()),
    decreases facts.len(),
{
    if facts.len() == 0 {
        assert(facts.to_set() =~= Set::empty());
        0
    } else {
        let rest = facts.drop_last();
        let last = facts.last();
        assert forall|j: int| 0 <= j < rest.len() implies hmax_le(
            d,
            costs,
            s,
            k,
            #[trigger] rest[j],
        ) by {
            assert(hmax_le(d, costs, s, k, facts[j]));
        }
        let t1 = lemma_common_rounds(d, costs, s, k, rest);
        assert(hmax_le(d, costs, s, k, facts[facts.len() - 1]));
        let t2 = choose|t: nat| reached_in(d, costs, s, t, k, last);
        let t = if t1 < t2 {
            t2
        } else {
            t1
        };
        assert forall|p: u32| #[trigger] facts.to_set().contains(p) implies reached_in(
            d,
            costs,
            s,
            t,
            k,
            p,
        ) by {
            if p == last {
                lemma_reached_mono(d, costs, s, t2, t, k, k, p);
            } else {
                let j = choose|j: int| 0 <= j < facts.len() && facts[j] == p;
                assert(rest[j] == p);
                assert(rest.to_set().contains(p));
                lemma_reached_mono(d, costs, s, t1, t, k, k, p);
            }
        }
        t
    }
}

/// Carrying the depth of an action's precondition over to its add set keeps a table sound.
proof fn lemma_lowered_sound(
    d: ClassicalDomain,
    costs: Seq<u32>,
    s: Set<u32>,
    h: Seq<u32>,
    a: int,
    pre: Seq<u32>,
    m: u32,
    v: u32,
)
    requires
        is_sound(d, costs, s, h),
        0 <= a < d.n_actions(),
        costs.len() == d.n_actions(),
        pre.to_set() == d.pre(a),
        is_greatest(h, d.pre(a), m),
        v == u32::MAX || (m < u32::MAX && v == costs[a] + m),
    ensures
        is_sound(d, costs, s, lowered(h, d.add(a), v)),
{
    let h2 = lowered(h, d.add(a), v);
    assert forall|f: u32| f < d.n_facts() && #[trigger] h2[f as int] < u32::MAX implies hmax_le(
        d,
        costs,
        s,
        h2[f as int] as int,
        f,
    ) by {
        if h2[f as int] == h[f as int] {
            assert(h[f as int] < u32::MAX);
        } else {
            assert(d.adds(a, f));
            assert forall|j: int| 0 <= j < pre.len() implies hmax_le(
                d,
                costs,
                s,
                m as int,
                #[trigger] pre[j],
            ) by {
                let p = pre[j];
                assert(pre.to_set().contains(p));
                assert(entry(h, p) <= m);
                assert(h[p as int] < u32::MAX);
                let t = choose|t: nat| reached_in(d, costs, s, t, h[p as int] as int, p);
                lemma_reached_mono(d, costs, s, t, t, h[p as int] as int, m as int, p);
            }
            let t = lemma_common_rounds(d, costs, s, m as int, pre);
            assert(reached_in(d, costs, s, t + 1, v as int, f));
        }
    }
}

/// The depth of every fact, where the action `a` costs `costs[a]` and the
/// listed facts hold at the start.
pub fn hmax_table(
    d: &ClassicalDomain,
    lists: &ActionLists,
    costs: &Vec<u32>,
    state: &Vec<u32>,
) -> (h: Vec<u32>)
    requires
        lists.wf(*d),
        costs@.len() == d.n_actions(),
    ensures
        is_hmax(*d, costs@, state@.to_set(), h@),
{
    let n: usize = d.facts.names.len();
    let ghost s = state@.to_set();
    let mut h: Vec<u32> = vec![u32::MAX; n];
    let mut i: usize = 0;
    while i < state.len()
        invariant
            i <= state@.len(),
            n == d.n_facts(),
            h@.len() == n,
            s == state@.to_set(),
            forall|f: u32|
                f < n && #[trigger] h@[f as int] < u32::MAX ==> s.contains(f) && h@[f as int] == 0,
            forall|j: int|
                0 <= j < i && (#[trigger] state@[j]) < n ==> h@[state@[j] as int] == 0,
        decreases state@.len() - i,
    {
        let f: u32 = state[i];
        if (f as usize) < n {
            h.set(f as usize, 0);
            assert(s.contains(state@[i as int]));
        }
        i += 1;
    }
    proof {
        assert forall|f: u32| f < d.n_facts() && #[trigger] h@[f as int] < u32::MAX implies hmax_le(
            *d,
            costs@,
            s,
            h@[f as int] as int,
            f,
        ) by {
            assert(reached_in(*d, costs@, s, 0, 0, f));
        }
        assert forall|f: u32| f < d.n_facts() && #[trigger] s.contains(f) implies h@[f as int]
            == 0 by {
            let j = choose|j: int| 0 <= j < state@.len() && state@[j] == f;
            assert(state@[j] < n);
        }
    }
    let mut changed: bool = true;
    while changed
        invariant
            lists.wf(*d),
            costs@.len() == d.n_actions(),
            s == state@.to_set(),
            is_sound(*d, costs@, s, h@),
            !changed ==> is_closed(*d, costs@, h@),
        decreases total(h@), (if changed { 1int } else { 0 }),
    {
        changed = false;
        let ghost h0 = h@;
        let mut a: usize = 0;
        let n_actions: usize = lists.pre.len();
        while a < n_actions
            invariant
                lists.wf(*d),
                costs@.len() == d.n_actions(),
                n_actions == d.n_actions(),
                a <= n_actions,
                is_sound(*d, costs@, s, h@),
                changed ==> total(h@) < total(h0),
                !changed ==> h@ == h0,
                !changed ==> forall|b: int, f: u32, m: u32|
                    b < a && #[trigger] d.adds(b, f) && #[trigger] is_greatest(h@, d.pre(b), m) && m
                        < u32::MAX ==> h@[f as int] <= costs@[b] + m,
            decreases n_actions - a,
        {
            let ghost h1 = h@;
            let m: u32 = greatest_entry(&h, &lists.pre[a]);
            let v: u32 = if m == u32::MAX {
                u32::MAX
            } else {
                costs[a].saturating_add(m)
            };
            assert(lists.pre@[a as int]@.to_set() == d.pre(a as int));
            assert(lists.add@[a as int]@.to_set() == d.add(a as int));
            let lowered_any: bool = lower_all(&mut h, &lists.add[a], v);
            proof {
                lemma_lowered_sound(*d, costs@, s, h1, a as int, lists.pre@[a as int]@, m, v);
                if !lowered_any {
                    assert forall|f: u32, m2: u32| #[trigger]
                        d.adds(a as int, f) && #[trigger] is_greatest(h@, d.pre(a as int), m2)
                            && m2 < u32::MAX implies h@[f as int] <= costs@[a as int] + m2 by {
                        lemma_greatest_unique(h@, d.pre(a as int), m, m2);
                        assert(lowered(h1, d.add(a as int), v)[f as int] == h1[f as int]);
                    }
                }
            }
            if lowered_any {
                changed = true;
            }
            a += 1;
        }
    }
    h
}

} // verus!

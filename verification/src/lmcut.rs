//! The landmark-cut heuristic: cuts of actions between what is reached for
//! free and the goal, each paid for once.

use std::collections::{HashSet, VecDeque};
use vstd::prelude::*;

use crate::domain::ClassicalDomain;
use crate::hmax::{greatest_entry, hmax_table, ActionLists};
use crate::sets::{elements, invert, is_subset};

verus! {

broadcast use vstd::std_specs::hash::group_hash_axioms;

/// A fact `p` of the deepest part of the precondition of an action that adds `f`.
pub open spec fn supports(
    d: ClassicalDomain,
    h: Seq<u32>,
    f: u32,
    p: u32,
) -> bool {
    exists|a: int| #[trigger] supports_by(d, h, a, f, p)
}

/// The action `a` adds `f`, and `p` is among the deepest facts of its
/// precondition, which is not free.
pub open spec fn supports_by(d: ClassicalDomain, h: Seq<u32>, a: int, f: u32, p: u32) -> bool {
    &&& d.adds(a, f)
    &&& d.pre(a).contains(p)
    &&& 0 < crate::hmax::entry(h, p) < u32::MAX
    &&& crate::hmax::is_greatest(h, d.pre(a), crate::hmax::entry(h, p))
}

/// The fact `f` belongs to the goal zone after at most `t` steps back from the goal.
pub open spec fn in_zone_at(
    d: ClassicalDomain,
    h: Seq<u32>,
    goal: Set<u32>,
    t: nat,
    f: u32,
) -> bool
    decreases t,
{
    if t == 0 {
        goal.contains(f) && f < d.n_facts() && h[f as int] > 0
    } else {
        ||| in_zone_at(d, h, goal, (t - 1) as nat, f)
        ||| exists|g: u32|
            in_zone_at(d, h, goal, (t - 1) as nat, g) && #[trigger] supports(
                d,
                h,
                g,
                f,
            )
    }
}

/// The goal zone: the goal facts that are not free, and whatever supports the zone.
pub open spec fn in_zone(
    d: ClassicalDomain,
    h: Seq<u32>,
    goal: Set<u32>,
    f: u32,
) -> bool {
    exists|t: nat| #[trigger] in_zone_at(d, h, goal, t, f)
}

/// The action `a` crosses into the goal zone: its precondition is free, it is
/// not, and it adds a fact of the zone.
pub open spec fn in_cut(
    d: ClassicalDomain,
    costs: Seq<u32>,
    h: Seq<u32>,
    goal: Set<u32>,
    a: int,
) -> bool {
    &&& 0 <= a < d.n_actions()
    &&& costs[a] > 0
    &&& crate::hmax::bounded_by(h, d.pre(a), 0)
    &&& exists|f: u32| #[trigger] d.adds(a, f) && in_zone(d, h, goal, f)
}

/// Facts of the zone are facts of the domain.
pub proof fn lemma_zone_bound(
    d: ClassicalDomain,
    h: Seq<u32>,
    goal: Set<u32>,
    t: nat,
    f: u32,
)
    requires
        h.len() == d.n_facts(),
        in_zone_at(d, h, goal, t, f),
    ensures
        f < d.n_facts(),
        h[f as int] > 0,
    decreases t,
{
    if t > 0 {
        if in_zone_at(d, h, goal, (t - 1) as nat, f) {
            lemma_zone_bound(d, h, goal, (t - 1) as nat, f);
        }
    }
}

/// The number of facts that are not marked.
spec fn unmarked(z: Seq<bool>) -> nat
    decreases z.len(),
{
    if z.len() == 0 {
        0
    } else {
        unmarked(z.drop_last()) + if z.last() {
            0nat
        } else {
            1nat
        }
    }
}

proof fn lemma_unmarked_update(z: Seq<bool>, i: int)
    requires
        0 <= i < z.len(),
        !z[i],
    ensures
        unmarked(z.update(i, true)) + 1 == unmarked(z),
    decreases z.len(),
{
    let u = z.update(i, true);
    if i == z.len() - 1 {
        assert(u.drop_last() =~= z.drop_last());
    } else {
        assert(u.drop_last() =~= z.drop_last().update(i, true));
        lemma_unmarked_update(z.drop_last(), i);
    }
}

/// Every queued fact is marked.
spec fn queue_marked(z: Seq<bool>, queue: Seq<u32>) -> bool {
    forall|x: u32| #[trigger] queue.contains(x) ==> x < z.len() && z[x as int]
}

/// Marks and queues each listed fact whose entry is `m` and that is not marked yet.
fn mark_at(z: &mut Vec<bool>, queue: &mut VecDeque<u32>, h: &Vec<u32>, facts: &Vec<u32>, m: u32)
    requires
        old(z)@.len() == h@.len(),
        queue_marked(old(z)@, old(queue)@),
    ensures
        final(z)@.len() == h@.len(),
        queue_marked(final(z)@, final(queue)@),
        forall|x: u32|
            x < h@.len() ==> (#[trigger] final(z)@[x as int] <==> old(z)@[x as int] || (
            facts@.contains(x) && h@[x as int] == m)),
        forall|x: u32|
            x < h@.len() && #[trigger] final(z)@[x as int] && !old(z)@[x as int] ==> final(queue)@.contains(
                x,
            ),
        forall|x: u32| #[trigger] old(queue)@.contains(x) ==> final(queue)@.contains(x),
        unmarked(final(z)@) + final(queue)@.len() == unmarked(old(z)@) + old(queue)@.len(),
{
    let mut i: usize = 0;
    while i < facts.len()
        invariant
            i <= facts@.len(),
            z@.len() == h@.len(),
            queue_marked(z@, queue@),
            forall|x: u32|
                x < h@.len() && #[trigger] z@[x as int] ==> old(z)@[x as int] || (facts@.contains(x)
                    && h@[x as int] == m),
            forall|x: u32| x < h@.len() && #[trigger] old(z)@[x as int] ==> z@[x as int],
            forall|j: int|
                0 <= j < i && (#[trigger] facts@[j]) < h@.len() && h@[facts@[j] as int] == m
                    ==> z@[facts@[j] as int],
            forall|x: u32|
                x < h@.len() && #[trigger] z@[x as int] && !old(z)@[x as int] ==> queue@.contains(
                    x,
                ),
            forall|x: u32| #[trigger] old(queue)@.contains(x) ==> queue@.contains(x),
            unmarked(z@) + queue@.len() == unmarked(old(z)@) + old(queue)@.len(),
        decreases facts@.len() - i,
    {
        let p: u32 = facts[i];
        if (p as usize) < h.len() && h[p as usize] == m && !z[p as usize] {
            let ghost q0 = queue@;
            proof {
                lemma_unmarked_update(z@, p as int);
                assert(facts@.contains(p));
            }
            z.set(p as usize, true);
            queue.push_back(p);
            proof {
                assert(queue@[q0.len() as int] == p);
                assert forall|x: u32| #[trigger] q0.contains(x) implies queue@.contains(x) by {
                    let j = choose|j: int| 0 <= j < q0.len() && q0[j] == x;
                    assert(queue@[j] == x);
                }
                assert forall|x: u32| #[trigger] queue@.contains(x) implies x < z@.len()
                    && z@[x as int] by {
                    let j = choose|j: int| 0 <= j < queue@.len() && queue@[j] == x;
                    if j < q0.len() {
                        assert(q0[j] == x);
                        assert(q0.contains(x));
                    }
                }
            }
        }
        i += 1;
    }
}

/// The actions that add each fact.
fn achievers_of(d: &ClassicalDomain, lists: &ActionLists) -> (achievers: Vec<Vec<usize>>)
    requires
        lists.wf(*d),
    ensures
        achievers@.len() == d.n_facts(),
        forall|f: u32, a: usize|
            f < d.n_facts() ==> (#[trigger] achievers@[f as int]@.contains(a) <==> d.adds(
                a as int,
                f,
            )),
{
    let achievers: Vec<Vec<usize>> = invert(d.facts.names.len(), &lists.add);
    proof {
        assert forall|f: u32, a: usize| f < d.n_facts() implies (
        #[trigger] achievers@[f as int]@.contains(a) <==> d.adds(a as int, f)) by {
            if a < d.n_actions() {
                assert(lists.add@[a as int]@.to_set() == d.add(a as int));
                assert(lists.add@[a as int]@.to_set().contains(f)
                    <==> lists.add@[a as int]@.contains(f));
            }
        }
    }
    achievers
}

/// Whatever supports `f` is marked.
spec fn supporters_marked(
    d: ClassicalDomain,
    h: Seq<u32>,
    z: Seq<bool>,
    f: u32,
) -> bool {
    forall|a: int, p: u32| #[trigger] supports_by(d, h, a, f, p) ==> z[p as int]
}

/// A marking that holds the goal and is closed under support holds the whole zone.
proof fn lemma_zone_covered(
    d: ClassicalDomain,
    h: Seq<u32>,
    goal: Set<u32>,
    z: Seq<bool>,
    t: nat,
    f: u32,
)
    requires
        h.len() == d.n_facts(),
        forall|g: u32|
            #[trigger] goal.contains(g) && g < d.n_facts() && h[g as int] > 0 ==> z[g as int],
        forall|g: u32|
            g < d.n_facts() && #[trigger] z[g as int] ==> supporters_marked(d, h, z, g),
        in_zone_at(d, h, goal, t, f),
    ensures
        z[f as int],
    decreases t,
{
    if t > 0 {
        if in_zone_at(d, h, goal, (t - 1) as nat, f) {
            lemma_zone_covered(d, h, goal, z, (t - 1) as nat, f);
        } else {
            let g = choose|g: u32|
                in_zone_at(d, h, goal, (t - 1) as nat, g) && #[trigger] supports(
                    d,
                    h,
                    g,
                    f,
                );
            lemma_zone_covered(d, h, goal, z, (t - 1) as nat, g);
            lemma_zone_bound(d, h, goal, (t - 1) as nat, g);
            assert(z[g as int]);
        }
    }
}

/// The goal zone, as one mark per fact.
fn goal_zone(
    d: &ClassicalDomain,
    lists: &ActionLists,
    achievers: &Vec<Vec<usize>>,
    costs: &Vec<u32>,
    h: &Vec<u32>,
    goal: &Vec<u32>,
) -> (z: Vec<bool>)
    requires
        lists.wf(*d),
        costs@.len() == d.n_actions(),
        h@.len() == d.n_facts(),
        crate::hmax::bounded_by(h@, goal@.to_set(), u32::MAX - 1),
        achievers@.len() == d.n_facts(),
        forall|f: u32, a: usize|
            f < d.n_facts() ==> (#[trigger] achievers@[f as int]@.contains(a) <==> d.adds(
                a as int,
                f,
            )),
    ensures
        z@.len() == d.n_facts(),
        forall|f: u32|
            f < d.n_facts() ==> (#[trigger] z@[f as int] <==> in_zone(
                *d,
                h@,
                goal@.to_set(),
                f,
            )),
{
    let n: usize = h.len();
    let ghost g = goal@.to_set();
    let mut z: Vec<bool> = vec![false; n];
    let mut queue: VecDeque<u32> = VecDeque::new();
    let mut i: usize = 0;
    while i < goal.len()
        invariant
            i <= goal@.len(),
            n == h@.len(),
            n == d.n_facts(),
            g == goal@.to_set(),
            z@.len() == n,
            queue_marked(z@, queue@),
            forall|f: u32|
                f < n && #[trigger] z@[f as int] ==> queue@.contains(f) && g.contains(f) && in_zone(
                    *d,
                    h@,
                    g,
                    f,
                ),
            forall|j: int|
                0 <= j < i && (#[trigger] goal@[j]) < n && h@[goal@[j] as int] > 0
                    ==> z@[goal@[j] as int],
        decreases goal@.len() - i,
    {
        let f: u32 = goal[i];
        if (f as usize) < n && h[f as usize] > 0 && !z[f as usize] {
            let ghost q0 = queue@;
            z.set(f as usize, true);
            queue.push_back(f);
            proof {
                assert(g.contains(f));
                assert(in_zone_at(*d, h@, g, 0, f));
                assert(queue@[q0.len() as int] == f);
                assert forall|x: u32| #[trigger] q0.contains(x) implies queue@.contains(x) by {
                    let j = choose|j: int| 0 <= j < q0.len() && q0[j] == x;
                    assert(queue@[j] == x);
                }
                assert forall|x: u32| #[trigger] queue@.contains(x) implies x < z@.len()
                    && z@[x as int] by {
                    let j = choose|j: int| 0 <= j < queue@.len() && queue@[j] == x;
                    if j < q0.len() {
                        assert(q0[j] == x);
                        assert(q0.contains(x));
                    }
                }
            }
        }
        i += 1;
    }
    proof {
        assert forall|f: u32| #[trigger] g.contains(f) && f < n && h@[f as int] > 0 implies z@[f as int] by {
            let j = choose|j: int| 0 <= j < goal@.len() && goal@[j] == f;
            assert(goal@[j] < n);
        }
    }
    while queue.len() > 0
        invariant
            lists.wf(*d),
            costs@.len() == d.n_actions(),
            h@.len() == d.n_facts(),
            n == h@.len(),
            g == goal@.to_set(),
            crate::hmax::bounded_by(h@, g, u32::MAX - 1),
            achievers@.len() == d.n_facts(),
            forall|f: u32, a: usize|
                f < d.n_facts() ==> (#[trigger] achievers@[f as int]@.contains(a) <==> d.adds(
                    a as int,
                    f,
                )),
            z@.len() == n,
            queue_marked(z@, queue@),
            forall|f: u32|
                f < n && #[trigger] z@[f as int] ==> in_zone(*d, h@, g, f) && h@[f as int]
                    < u32::MAX,
            forall|f: u32|
                #[trigger] g.contains(f) && f < n && h@[f as int] > 0 ==> z@[f as int],
            forall|f: u32|
                f < n && #[trigger] z@[f as int] && !queue@.contains(f) ==> supporters_marked(
                    *d,
                    h@,
                    z@,
                    f,
                ),
        decreases unmarked(z@) + queue@.len(),
    {
        let ghost q0 = queue@;
        let ghost z0 = z@;
        let f: u32 = match queue.pop_front() {
            Some(f) => f,
            None => 0,
        };
        assert(q0.contains(f));
        assert(f < n);
        proof {
            assert forall|x: u32| #[trigger] queue@.contains(x) implies q0.contains(x) by {
                let j = choose|j: int| 0 <= j < queue@.len() && queue@[j] == x;
                assert(q0[j + 1] == x);
            }
            assert forall|x: u32| #[trigger] q0.contains(x) && x != f implies queue@.contains(x) by {
                let j = choose|j: int| 0 <= j < q0.len() && q0[j] == x;
                assert(queue@[j - 1] == x);
            }
        }
        let list: &Vec<usize> = &achievers[f as usize];
        let mut j: usize = 0;
        while j < list.len()
            invariant
                lists.wf(*d),
                costs@.len() == d.n_actions(),
                h@.len() == d.n_facts(),
                n == h@.len(),
                f < n,
                list@ == achievers@[f as int]@,
                forall|a: usize| #[trigger] list@.contains(a) <==> d.adds(a as int, f),
                j <= list@.len(),
                in_zone(*d, h@, g, f),
                z@.len() == n,
                queue_marked(z@, queue@),
                forall|x: u32| x < n && #[trigger] z0[x as int] ==> z@[x as int],
                forall|x: u32|
                    x < n && #[trigger] z@[x as int] ==> in_zone(*d, h@, g, x)
                        && h@[x as int] < u32::MAX,
                forall|x: u32|
                    x < n && #[trigger] z@[x as int] && !queue@.contains(x) && x != f
                        ==> supporters_marked(*d, h@, z@, x),
                forall|k: int, p: u32|
                    0 <= k < j && #[trigger] supports_by(*d, h@, list@[k] as int, f, p)
                        ==> z@[p as int],
                unmarked(z@) + queue@.len() < unmarked(z0) + q0.len(),
            decreases list@.len() - j,
        {
            let a: usize = list[j];
            assert(list@.contains(a));
            let m: u32 = greatest_entry(h, &lists.pre[a]);
            assert(lists.pre@[a as int]@.to_set() == d.pre(a as int));
            let ghost z1 = z@;
            let ghost q1 = queue@;
            if m != u32::MAX && m > 0 {
                mark_at(&mut z, &mut queue, h, &lists.pre[a], m);
                proof {
                    let t = choose|t: nat| in_zone_at(*d, h@, g, t, f);
                    assert forall|x: u32| x < n && #[trigger] z@[x as int] implies in_zone(
                        *d,
                        h@,
                        g,
                        x,
                    ) && h@[x as int] < u32::MAX by {
                        if !z1[x as int] {
                            assert(lists.pre@[a as int]@.to_set().contains(x));
                            assert(supports_by(*d, h@, a as int, f, x));
                            assert(supports(*d, h@, f, x));
                            assert(in_zone_at(*d, h@, g, t + 1, x));
                        }
                    }
                    assert forall|x: u32|
                        x < n && #[trigger] z@[x as int] && !queue@.contains(x) && x
                            != f implies supporters_marked(*d, h@, z@, x) by {
                        assert(z1[x as int]);
                        assert(!q1.contains(x));
                        assert(supporters_marked(*d, h@, z1, x));
                        assert forall|b: int, p: u32| #[trigger]
                            supports_by(*d, h@, b, x, p) implies z@[p as int] by {
                            assert(z1[p as int]);
                        }
                    }
                }
            }
            proof {
                assert forall|p: u32| #[trigger]
                    supports_by(*d, h@, a as int, f, p) implies z@[p as int] by {
                    crate::hmax::lemma_greatest_unique(
                        h@,
                        d.pre(a as int),
                        m,
                        crate::hmax::entry(h@, p),
                    );
                    assert(lists.pre@[a as int]@.to_set().contains(p));
                }
                assert forall|k: int, p: u32|
                    0 <= k < j + 1 && #[trigger] supports_by(
                        *d,
                        h@,
                        list@[k] as int,
                        f,
                        p,
                    ) implies z@[p as int] by {
                    if k < j {
                        assert(z1[p as int]);
                    }
                }
            }
            j += 1;
        }
        proof {
            assert forall|a: int, p: u32| #[trigger]
                supports_by(*d, h@, a, f, p) implies z@[p as int] by {
                assert(costs.len() == d.n_actions());
                assert(list@.contains(a as usize));
                let k = choose|k: int| 0 <= k < list@.len() && list@[k] == a as usize;
                assert(supports_by(*d, h@, list@[k] as int, f, p));
            }
        }
    }
    proof {
        assert forall|f: u32| f < d.n_facts() && in_zone(*d, h@, g, f) implies
            #[trigger] z@[f as int] by {
            let t = choose|t: nat| in_zone_at(*d, h@, g, t, f);
            lemma_zone_covered(*d, h@, g, z@, t, f);
        }
    }
    z
}

/// `cut` lists the actions that cross into the goal zone, in ascending order.
pub open spec fn is_cut_of(
    d: ClassicalDomain,
    costs: Seq<u32>,
    h: Seq<u32>,
    goal: Set<u32>,
    cut: Seq<usize>,
) -> bool {
    &&& forall|i: int, j: int| 0 <= i < j < cut.len() ==> cut[i] < cut[j]
    &&& forall|a: usize| #[trigger] cut.contains(a) <==> in_cut(d, costs, h, goal, a as int)
}

/// `cut` is the cut that the costs `costs` give.
pub open spec fn is_next_cut(
    d: ClassicalDomain,
    costs: Seq<u32>,
    s: Set<u32>,
    goal: Set<u32>,
    cut: Seq<usize>,
) -> bool {
    exists|h: Seq<u32>| #[trigger]
        crate::hmax::is_hmax(d, costs, s, h) && is_cut_of(d, costs, h, goal, cut)
}

/// The costs once every action of `cut` is paid for.
pub open spec fn paid(costs: Seq<u32>, cut: Seq<usize>) -> Seq<u32> {
    Seq::new(
        costs.len(),
        |a: int|
            if cut.contains(a as usize) && a <= usize::MAX {
                (costs[a] - 1) as u32
            } else {
                costs[a]
            },
    )
}

/// Every action costs one or nothing.
pub open spec fn at_most_one(costs: Seq<u32>) -> bool {
    forall|a: int| 0 <= a < costs.len() ==> #[trigger] costs[a] <= 1
}

/// The cut as a list.
fn find_cut(
    d: &ClassicalDomain,
    lists: &ActionLists,
    costs: &Vec<u32>,
    h: &Vec<u32>,
    z: &Vec<bool>,
    goal: &Vec<u32>,
) -> (cut: Vec<usize>)
    requires
        lists.wf(*d),
        costs@.len() == d.n_actions(),
        h@.len() == d.n_facts(),
        z@.len() == d.n_facts(),
        forall|f: u32|
            f < d.n_facts() ==> (#[trigger] z@[f as int] <==> in_zone(
                *d,
                h@,
                goal@.to_set(),
                f,
            )),
    ensures
        is_cut_of(*d, costs@, h@, goal@.to_set(), cut@),
{
    let n_actions: usize = costs.len();
    let mut cut: Vec<usize> = Vec::new();
    let mut a: usize = 0;
    while a < n_actions
        invariant
            a <= n_actions,
            n_actions == d.n_actions(),
            lists.wf(*d),
            costs@.len() == d.n_actions(),
            h@.len() == d.n_facts(),
            z@.len() == d.n_facts(),
            forall|f: u32|
                f < d.n_facts() ==> (#[trigger] z@[f as int] <==> in_zone(
                    *d,
                    h@,
                    goal@.to_set(),
                    f,
                )),
            forall|i: int| 0 <= i < cut@.len() ==> #[trigger] cut@[i] < a,
            forall|i: int, j: int| 0 <= i < j < cut@.len() ==> cut@[i] < cut@[j],
            forall|b: usize|
                #[trigger] cut@.contains(b) <==> b < a && in_cut(
                    *d,
                    costs@,
                    h@,
                    goal@.to_set(),
                    b as int,
                ),
        decreases n_actions - a,
    {
        let ghost cut0 = cut@;
        let m: u32 = greatest_entry(h, &lists.pre[a]);
        assert(lists.pre@[a as int]@.to_set() == d.pre(a as int));
        assert(lists.add@[a as int]@.to_set() == d.add(a as int));
        let mut crosses: bool = false;
        let add: &Vec<u32> = &lists.add[a];
        let mut j: usize = 0;
        while j < add.len()
            invariant
                j <= add@.len(),
                a < d.n_actions(),
                add@.to_set() == d.add(a as int),
                z@.len() == d.n_facts(),
                forall|f: u32|
                    f < d.n_facts() ==> (#[trigger] z@[f as int] <==> in_zone(
                        *d,
                        h@,
                        goal@.to_set(),
                        f,
                    )),
                crosses ==> exists|f: u32| #[trigger]
                    d.adds(a as int, f) && in_zone(*d, h@, goal@.to_set(), f),
                !crosses ==> forall|i: int|
                    0 <= i < j && (#[trigger] add@[i]) < d.n_facts() ==> !z@[add@[i] as int],
            decreases add@.len() - j,
        {
            let f: u32 = add[j];
            if (f as usize) < z.len() && z[f as usize] {
                crosses = true;
                assert(add@.to_set().contains(f));
                assert(d.adds(a as int, f));
            }
            j += 1;
        }
        proof {
            if !crosses {
                assert forall|f: u32| #[trigger] d.adds(a as int, f) implies !in_zone(
                    *d,
                    h@,
                    goal@.to_set(),
                    f,
                ) by {
                    assert(add@.to_set().contains(f));
                    let i = choose|i: int| 0 <= i < add@.len() && add@[i] == f;
                    assert(add@[i] < d.n_facts());
                    assert(!z@[f as int]);
                }
            }
            if m != 0 {
                let p = choose|p: u32| #[trigger]
                    d.pre(a as int).contains(p) && crate::hmax::entry(h@, p) == m;
                assert(!crate::hmax::bounded_by(h@, d.pre(a as int), 0));
            }
        }
        if costs[a] != 0 && m == 0 && crosses {
            cut.push(a);
            assert(cut@[cut0.len() as int] == a);
        }
        proof {
            assert forall|b: usize|
                #[trigger] cut@.contains(b) <==> b < a + 1 && in_cut(
                    *d,
                    costs@,
                    h@,
                    goal@.to_set(),
                    b as int,
                ) by {
                if cut0.contains(b) {
                    let i = choose|i: int| 0 <= i < cut0.len() && cut0[i] == b;
                    assert(cut@[i] == b);
                }
                if cut@.contains(b) && b != a {
                    let i = choose|i: int| 0 <= i < cut@.len() && cut@[i] == b;
                    assert(cut0[i] == b);
                    assert(cut0.contains(b));
                }
                if cut@.contains(a) && cut@ == cut0 {
                    let i = choose|i: int| 0 <= i < cut@.len() && cut@[i] == a;
                    assert(cut@[i] < a);
                }
            }
        }
        a += 1;
    }
    assert forall|b: usize|
        #[trigger] cut@.contains(b) <==> in_cut(*d, costs@, h@, goal@.to_set(), b as int) by {}
    cut
}

/// Lower costs reach whatever higher costs reach.
pub proof fn lemma_cheaper(
    d: ClassicalDomain,
    costs: Seq<u32>,
    less: Seq<u32>,
    s: Set<u32>,
    t: nat,
    k: int,
    f: u32,
)
    requires
        costs.len() == d.n_actions(),
        less.len() == d.n_actions(),
        forall|a: int| 0 <= a < d.n_actions() ==> #[trigger] less[a] <= costs[a],
        crate::hmax::reached_in(d, costs, s, t, k, f),
    ensures
        crate::hmax::reached_in(d, less, s, t, k, f),
    decreases t,
{
    if t > 0 {
        let t1 = (t - 1) as nat;
        if crate::hmax::reached_in(d, costs, s, t1, k, f) {
            lemma_cheaper(d, costs, less, s, t1, k, f);
        } else {
            let a = choose|a: int| #[trigger]
                d.adds(a, f) && crate::hmax::reaches_all(d, costs, s, t1, k - costs[a], d.pre(a));
            assert forall|p: u32| #[trigger] d.pre(a).contains(p) implies crate::hmax::reached_in(
                d,
                less,
                s,
                t1,
                k - less[a],
                p,
            ) by {
                lemma_cheaper(d, costs, less, s, t1, k - costs[a], p);
                crate::hmax::lemma_reached_mono(
                    d,
                    less,
                    s,
                    t1,
                    t1,
                    k - costs[a],
                    k - less[a],
                    p,
                );
            }
            assert(d.adds(a, f) && crate::hmax::reaches_all(
                d,
                less,
                s,
                t1,
                k - less[a],
                d.pre(a),
            ));
        }
    }
}

/// Lower costs give lower depths.
proof fn lemma_cheaper_table(
    d: ClassicalDomain,
    costs: Seq<u32>,
    less: Seq<u32>,
    s: Set<u32>,
    h: Seq<u32>,
    h2: Seq<u32>,
    f: u32,
)
    requires
        costs.len() == d.n_actions(),
        less.len() == d.n_actions(),
        forall|a: int| 0 <= a < d.n_actions() ==> #[trigger] less[a] <= costs[a],
        crate::hmax::is_hmax(d, costs, s, h),
        crate::hmax::is_hmax(d, less, s, h2),
    ensures
        crate::hmax::entry(h2, f) <= crate::hmax::entry(h, f),
{
    if f < d.n_facts() && h[f as int] < u32::MAX {
        let k = h[f as int] as int;
        let t = choose|t: nat| crate::hmax::reached_in(d, costs, s, t, k, f);
        lemma_cheaper(d, costs, less, s, t, k, f);
        crate::hmax::lemma_hmax_below(d, less, s, h2, t, k, f);
    }
}

/// Paying for a cut lowers no depth by more than one.
proof fn lemma_cut_lowers_by_at_most_one(
    d: ClassicalDomain,
    costs: Seq<u32>,
    s: Set<u32>,
    h: Seq<u32>,
    goal: Set<u32>,
    cut: Seq<usize>,
    t: nat,
    k: int,
    f: u32,
)
    requires
        costs.len() == d.n_actions(),
        d.n_actions() <= usize::MAX,
        at_most_one(costs),
        crate::hmax::is_hmax(d, costs, s, h),
        is_cut_of(d, costs, h, goal, cut),
        crate::hmax::reached_in(d, paid(costs, cut), s, t, k, f),
    ensures
        h[f as int] <= k + 1,
    decreases t,
{
    let less = paid(costs, cut);
    if t > 0 {
        let t1 = (t - 1) as nat;
        if crate::hmax::reached_in(d, less, s, t1, k, f) {
            lemma_cut_lowers_by_at_most_one(d, costs, s, h, goal, cut, t1, k, f);
        } else {
            let a = choose|a: int| #[trigger]
                d.adds(a, f) && crate::hmax::reaches_all(d, less, s, t1, k - less[a], d.pre(a));
            if cut.contains(a as usize) {
                assert(in_cut(d, costs, h, goal, a));
                assert(crate::hmax::is_greatest(h, d.pre(a), 0));
                assert(d.adds(a, f));
            } else {
                assert(less[a] == costs[a]);
                let m = crate::hmax::lemma_greatest_exists(h, d.pre(a));
                assert forall|p: u32| #[trigger] d.pre(a).contains(p) implies crate::hmax::entry(
                    h,
                    p,
                ) <= k - costs[a] + 1 by {
                    lemma_cut_lowers_by_at_most_one(
                        d,
                        costs,
                        s,
                        h,
                        goal,
                        cut,
                        t1,
                        k - costs[a],
                        p,
                    );
                }
                if m < u32::MAX {
                    assert(d.adds(a, f) && crate::hmax::is_greatest(h, d.pre(a), m));
                }
            }
        }
    }
}

/// Paying for the cut lowers the depth of every fact of the goal zone.
proof fn lemma_cut_lowers_zone(
    d: ClassicalDomain,
    costs: Seq<u32>,
    s: Set<u32>,
    h: Seq<u32>,
    h2: Seq<u32>,
    goal: Set<u32>,
    cut: Seq<usize>,
    t: nat,
    f: u32,
)
    requires
        costs.len() == d.n_actions(),
        d.n_actions() <= usize::MAX,
        at_most_one(costs),
        crate::hmax::is_hmax(d, costs, s, h),
        crate::hmax::is_hmax(d, paid(costs, cut), s, h2),
        is_cut_of(d, costs, h, goal, cut),
        in_zone(d, h, goal, f),
        f < d.n_facts(),
        h[f as int] < u32::MAX,
        crate::hmax::reached_in(d, costs, s, t, h[f as int] as int, f),
    ensures
        h2[f as int] < h[f as int],
    decreases t,
{
    let less = paid(costs, cut);
    let k = h[f as int] as int;
    let tz = choose|tz: nat| in_zone_at(d, h, goal, tz, f);
    lemma_zone_bound(d, h, goal, tz, f);
    assert forall|b: int| 0 <= b < d.n_actions() implies #[trigger] less[b] <= costs[b] by {
        if cut.contains(b as usize) {
            assert(in_cut(d, costs, h, goal, b));
        }
    }
    assert(t > 0);
    let t1 = (t - 1) as nat;
    if crate::hmax::reached_in(d, costs, s, t1, k, f) {
        lemma_cut_lowers_zone(d, costs, s, h, h2, goal, cut, t1, f);
    } else {
        let a = choose|a: int| #[trigger]
            d.adds(a, f) && crate::hmax::reaches_all(d, costs, s, t1, k - costs[a], d.pre(a));
        assert forall|p: u32| #[trigger] d.pre(a).contains(p) implies crate::hmax::entry(h, p) <= k
            - costs[a] by {
            crate::hmax::lemma_hmax_below(d, costs, s, h, t1, k - costs[a], p);
        }
        let m = crate::hmax::lemma_greatest_exists(h, d.pre(a));
        assert(m == k - costs[a]) by {
            assert(d.adds(a, f) && crate::hmax::is_greatest(h, d.pre(a), m));
        }
        let m2 = crate::hmax::lemma_greatest_exists(h2, d.pre(a));
        if m == 0 {
            assert(in_cut(d, costs, h, goal, a));
            assert(cut.contains(a as usize));
            assert(less[a] == 0);
            assert forall|p: u32| #[trigger] d.pre(a).contains(p) implies crate::hmax::entry(
                h2,
                p,
            ) <= 0 by {
                lemma_cheaper_table(d, costs, less, s, h, h2, p);
            }
            assert(crate::hmax::is_greatest(h2, d.pre(a), 0));
            assert(d.adds(a, f));
        } else {
            assert forall|p: u32| #[trigger] d.pre(a).contains(p) implies crate::hmax::entry(
                h2,
                p,
            ) < m by {
                lemma_cheaper_table(d, costs, less, s, h, h2, p);
                if crate::hmax::entry(h, p) == m {
                    assert(supports_by(d, h, a, f, p));
                    assert(supports(d, h, f, p));
                    assert(in_zone_at(d, h, goal, tz + 1, p));
                    lemma_cut_lowers_zone(d, costs, s, h, h2, goal, cut, t1, p);
                }
            }
            assert(m2 < m);
            assert(d.adds(a, f) && crate::hmax::is_greatest(h2, d.pre(a), m2));
        }
    }
}

/// Paying for the cut lowers the depth of a goal that is not free by exactly one.
proof fn lemma_cut_lowers_goal(
    d: ClassicalDomain,
    costs: Seq<u32>,
    s: Set<u32>,
    h: Seq<u32>,
    h2: Seq<u32>,
    goal: Set<u32>,
    cut: Seq<usize>,
    m: u32,
    m2: u32,
)
    requires
        costs.len() == d.n_actions(),
        d.n_actions() <= usize::MAX,
        at_most_one(costs),
        crate::hmax::is_hmax(d, costs, s, h),
        crate::hmax::is_hmax(d, paid(costs, cut), s, h2),
        is_cut_of(d, costs, h, goal, cut),
        crate::hmax::is_greatest(h, goal, m),
        crate::hmax::is_greatest(h2, goal, m2),
        0 < m < u32::MAX,
    ensures
        m2 == m - 1,
{
    let less = paid(costs, cut);
    assert forall|b: int| 0 <= b < d.n_actions() implies #[trigger] less[b] <= costs[b] by {
        if cut.contains(b as usize) {
            assert(in_cut(d, costs, h, goal, b));
        }
    }
    assert forall|g: u32| #[trigger] goal.contains(g) implies crate::hmax::entry(h2, g) < m by {
        lemma_cheaper_table(d, costs, less, s, h, h2, g);
        if h[g as int] > 0 {
            assert(in_zone_at(d, h, goal, 0, g));
            let t = choose|t: nat|
                crate::hmax::reached_in(d, costs, s, t, h[g as int] as int, g);
            lemma_cut_lowers_zone(d, costs, s, h, h2, goal, cut, t, g);
        }
    }
    let g = choose|g: u32| #[trigger] goal.contains(g) && crate::hmax::entry(h, g) == m;
    assert(crate::hmax::entry(h2, g) < m);
    let k = h2[g as int] as int;
    let t = choose|t: nat| crate::hmax::reached_in(d, less, s, t, k, g);
    lemma_cut_lowers_by_at_most_one(d, costs, s, h, goal, cut, t, k, g);
}

/// Cuts, each with the cost that was deducted for it.
pub type LandmarkCuts = Vec<(Vec<usize>, u32)>;

/// What a list of cuts holds.
pub open spec fn cuts_view(cuts: Seq<(Vec<usize>, u32)>) -> Seq<(Seq<usize>, u32)> {
    Seq::new(cuts.len(), |i: int| (cuts[i].0@, cuts[i].1))
}

/// The sum of the costs of the cuts.
pub open spec fn paid_total(cuts: Seq<(Seq<usize>, u32)>) -> nat
    decreases cuts.len(),
{
    if cuts.len() == 0 {
        0
    } else {
        paid_total(cuts.drop_last()) + cuts.last().1 as nat
    }
}

/// The action `a` is part of a cut that was paid for.
pub open spec fn is_paid(cuts: Seq<(Seq<usize>, u32)>, a: usize) -> bool {
    exists|i: int| 0 <= i < cuts.len() && (#[trigger] cuts[i]).1 > 0 && cuts[i].0.contains(a)
}

/// The costs that `n` actions of cost one keep once the cuts are paid for.
pub open spec fn costs_after(n: nat, cuts: Seq<(Seq<usize>, u32)>) -> Seq<u32> {
    Seq::new(
        n,
        |a: int|
            if is_paid(cuts, a as usize) && a <= usize::MAX {
                0u32
            } else {
                1u32
            },
    )
}

/// Every action costs one.
pub open spec fn unit_costs(d: ClassicalDomain) -> Seq<u32> {
    Seq::new(d.n_actions(), |a: int| 1u32)
}

/// `cuts[from..]` are cuts of cost one that hold an action, each the cut that the costs give once
/// the cuts before it are paid for.
pub open spec fn is_cut_run(
    d: ClassicalDomain,
    s: Set<u32>,
    goal: Set<u32>,
    cuts: Seq<(Seq<usize>, u32)>,
    from: int,
) -> bool {
    forall|i: int|
        from <= i < cuts.len() ==> (#[trigger] cuts[i]).1 == 1 && cuts[i].0.len() > 0
            && is_next_cut(d, costs_after(d.n_actions(), cuts.take(i)), s, goal, cuts[i].0)
}

/// What the core of the heuristic gives for the cuts `carried` that are paid
/// for already: their cost and the depth of the goal under the costs that are
/// left, and the cuts that bring that depth down to nothing.
pub open spec fn is_lmcut(
    d: ClassicalDomain,
    s: Set<u32>,
    goal: Set<u32>,
    carried: Seq<(Seq<usize>, u32)>,
    value: Option<u32>,
    cuts: Seq<(Seq<usize>, u32)>,
) -> bool {
    let costs = costs_after(d.n_actions(), carried);
    &&& carried.len() <= cuts.len()
    &&& cuts.take(carried.len() as int) == carried
    &&& is_cut_run(d, s, goal, cuts, carried.len() as int)
    &&& match value {
        Some(v) => {
            &&& v == paid_total(cuts)
            &&& v == paid_total(carried) + (cuts.len() - carried.len())
            &&& crate::hmax::is_goal_depth(
                d,
                costs,
                s,
                goal,
                Some((cuts.len() - carried.len()) as u32),
            )
            &&& cuts.len() - carried.len() < u32::MAX
            &&& crate::hmax::is_goal_depth(
                d,
                costs_after(d.n_actions(), cuts),
                s,
                goal,
                Some(0u32),
            )
        },
        None => cuts == carried && crate::hmax::is_goal_depth(d, costs, s, goal, None),
    }
}

/// The cost of the carried cuts and of those that come on top fits a `u32`.
pub open spec fn fits(
    d: ClassicalDomain,
    s: Set<u32>,
    goal: Set<u32>,
    carried: Seq<(Seq<usize>, u32)>,
) -> bool {
    ||| paid_total(carried) + d.n_actions() <= u32::MAX
    ||| paid_total(carried) <= u32::MAX && forall|v: u32| #[trigger]
        crate::hmax::is_goal_depth(
            d,
            costs_after(d.n_actions(), carried),
            s,
            goal,
            Some(v),
        ) ==> paid_total(carried) + v <= u32::MAX
}

/// Costs of at most one sum up to at most the number of actions.
proof fn lemma_total_at_most_len(costs: Seq<u32>)
    requires
        at_most_one(costs),
    ensures
        crate::hmax::total(costs) <= costs.len(),
    decreases costs.len(),
{
    if costs.len() > 0 {
        assert(costs[costs.len() - 1] <= 1);
        assert forall|a: int| 0 <= a < costs.drop_last().len() implies #[trigger] costs.drop_last()[a]
            <= 1 by {
            assert(costs[a] <= 1);
        }
        lemma_total_at_most_len(costs.drop_last());
    }
}

/// The costs after one cut more.
proof fn lemma_costs_after_push(n: nat, cuts: Seq<(Seq<usize>, u32)>, c: (Seq<usize>, u32))
    ensures
        costs_after(n, cuts.push(c)).len() == n,
        forall|a: int|
            0 <= a < n && a <= usize::MAX ==> #[trigger] costs_after(n, cuts.push(c))[a] == (if c.1
                > 0 && c.0.contains(a as usize) {
                0
            } else {
                costs_after(n, cuts)[a]
            }),
{
    let more = cuts.push(c);
    assert forall|a: int| 0 <= a < n && a <= usize::MAX implies #[trigger] costs_after(n, more)[a]
        == (if c.1 > 0 && c.0.contains(a as usize) {
        0
    } else {
        costs_after(n, cuts)[a]
    }) by {
        let b = a as usize;
        if is_paid(cuts, b) {
            let i = choose|i: int|
                0 <= i < cuts.len() && (#[trigger] cuts[i]).1 > 0 && cuts[i].0.contains(b);
            assert(more[i] == cuts[i]);
        }
        if c.1 > 0 && c.0.contains(b) {
            assert(more[cuts.len() as int] == c);
        }
        if is_paid(more, b) && !(c.1 > 0 && c.0.contains(b)) {
            let i = choose|i: int|
                0 <= i < more.len() && (#[trigger] more[i]).1 > 0 && more[i].0.contains(b);
            assert(cuts[i] == more[i]);
        }
    }
}

/// Deducts `c` from the cost of every listed action, down to nothing.
fn deduct(costs: &mut Vec<u32>, cut: &Vec<usize>, c: u32)
    requires
        at_most_one(old(costs)@),
    ensures
        final(costs)@.len() == old(costs)@.len(),
        at_most_one(final(costs)@),
        forall|a: int|
            0 <= a < old(costs)@.len() ==> #[trigger] final(costs)@[a] == (if c > 0
                && cut@.contains(a as usize) {
                0
            } else {
                old(costs)@[a]
            }),
        crate::hmax::total(final(costs)@) <= crate::hmax::total(old(costs)@),
        forall|a: int|
            0 <= a < old(costs)@.len() && c > 0 && #[trigger] old(costs)@[a] > 0 && cut@.contains(
                a as usize,
            ) ==> crate::hmax::total(final(costs)@) < crate::hmax::total(old(costs)@),
{
    let mut i: usize = 0;
    while i < cut.len()
        invariant
            i <= cut@.len(),
            costs@.len() == old(costs)@.len(),
            at_most_one(old(costs)@),
            forall|a: int|
                0 <= a < costs@.len() ==> #[trigger] costs@[a] == (if c > 0 && cut@.take(
                    i as int,
                ).contains(a as usize) {
                    0
                } else {
                    old(costs)@[a]
                }),
            crate::hmax::total(costs@) <= crate::hmax::total(old(costs)@),
            costs@ != old(costs)@ ==> crate::hmax::total(costs@) < crate::hmax::total(
                old(costs)@,
            ),
        decreases cut@.len() - i,
    {
        let ghost before = costs@;
        let a: usize = cut[i];
        let ghost l = cut@.take(i as int);
        assert(cut@.take(i + 1) =~= l.push(a));
        if a < costs.len() {
            let left: u32 = costs[a].saturating_sub(c);
            proof {
                crate::hmax::lemma_total_update(costs@, a as int, left);
                assert(old(costs)@[a as int] <= 1);
            }
            costs.set(a, left);
            proof {
                if left == before[a as int] {
                    assert(costs@ =~= before);
                }
            }
        }
        proof {
            assert forall|b: usize| l.push(a).contains(b) <==> b == a || l.contains(b) by {
                if l.contains(b) {
                    let k = choose|k: int| 0 <= k < l.len() && l[k] == b;
                    assert(l.push(a)[k] == b);
                }
                assert(l.push(a)[l.len() as int] == a);
            }
        }
        i += 1;
    }
    proof {
        assert(cut@.take(i as int) =~= cut@);
    }
}

/// The landmark-cut value and the cuts, where the cuts `carried_cuts` are paid
/// for already. They come first in the list of cuts that is returned.
pub fn h_lmcut_core(
    domain: &ClassicalDomain,
    state: &HashSet<u32>,
    goal: &HashSet<u32>,
    carried_cuts: &[(Vec<usize>, u32)],
) -> (r: (Option<u32>, LandmarkCuts))
    requires
        fits(*domain, state@, goal@, cuts_view(carried_cuts@)),
    ensures
        is_lmcut(*domain, state@, goal@, cuts_view(carried_cuts@), r.0, cuts_view(r.1@)),
{
    let lists: ActionLists = ActionLists::new(domain);
    let achievers: Vec<Vec<usize>> = achievers_of(domain, &lists);
    let state_list: Vec<u32> = elements(state);
    let goal_list: Vec<u32> = elements(goal);
    let n_actions: usize = domain.actions.len();
    let ghost carried = cuts_view(carried_cuts@);
    let ghost d = *domain;

    let mut costs: Vec<u32> = vec![1; n_actions];
    let mut all_cuts: LandmarkCuts = Vec::new();
    let mut h_total: u32 = 0;
    let mut i: usize = 0;
    proof {
        assert(cuts_view(all_cuts@) =~= carried.take(0));
        assert forall|a: int| 0 <= a < n_actions implies #[trigger] costs@[a] == costs_after(
            d.n_actions(),
            carried.take(0),
        )[a] by {
            assert(!is_paid(carried.take(0), a as usize));
        }
        assert(costs@ =~= costs_after(d.n_actions(), carried.take(0)));
    }
    while i < carried_cuts.len()
        invariant
            i <= carried_cuts@.len(),
            carried == cuts_view(carried_cuts@),
            d == *domain,
            n_actions == d.n_actions(),
            paid_total(carried) <= u32::MAX,
            cuts_view(all_cuts@) == carried.take(i as int),
            costs@ == costs_after(d.n_actions(), carried.take(i as int)),
            h_total == paid_total(carried.take(i as int)),
        decreases carried_cuts@.len() - i,
    {
        let ghost done = carried.take(i as int);
        let ghost c = carried[i as int];
        let cut: &Vec<usize> = &carried_cuts[i].0;
        let cost: u32 = carried_cuts[i].1;
        proof {
            assert(carried.take(i + 1) =~= done.push(c));
            assert(done.push(c).drop_last() =~= done);
            lemma_paid_total_prefix(carried, i + 1);
            lemma_costs_after_push(d.n_actions(), done, c);
        }
        h_total += cost;
        let ghost before = costs@;
        deduct(&mut costs, cut, cost);
        let copy: Vec<usize> = cut.clone();
        assert(copy@ =~= cut@);
        let ghost cuts0 = all_cuts@;
        all_cuts.push((copy, cost));
        proof {
            assert(cuts_view(all_cuts@) =~= cuts_view(cuts0).push(c));
            assert(costs@ =~= costs_after(d.n_actions(), done.push(c)));
        }
        i += 1;
    }
    assert(carried.take(i as int) =~= carried);

    let ghost costs0 = costs@;
    let ghost base = h_total;
    let mut h: Vec<u32> = hmax_table(domain, &lists, &costs, &state_list);
    let mut m: u32 = greatest_entry(&h, &goal_list);
    let ghost m0 = m;
    proof {
        crate::hmax::lemma_goal_depth(d, costs0, state@, h@, goal@, m);
        lemma_total_at_most_len(costs0);
    }
    if m == u32::MAX {
        proof {
            assert(cuts_view(all_cuts@).take(carried.len() as int) =~= carried);
        }
        return (None, all_cuts);
    }
    while m > 0
        invariant
            d == *domain,
            lists.wf(d),
            achievers@.len() == d.n_facts(),
            forall|f: u32, a: usize|
                f < d.n_facts() ==> (#[trigger] achievers@[f as int]@.contains(a) <==> d.adds(
                    a as int,
                    f,
                )),
            state_list@.to_set() == state@,
            goal_list@.to_set() == goal@,
            n_actions == d.n_actions(),
            m <= m0 < u32::MAX,
            fits(d, state@, goal@, carried),
            costs0 == costs_after(d.n_actions(), carried),
            crate::hmax::is_goal_depth(d, costs0, state@, goal@, Some(m0)),
            base == paid_total(carried),
            h_total == base + (m0 - m),
            h_total == paid_total(cuts_view(all_cuts@)),
            all_cuts@.len() == carried.len() + (m0 - m),
            cuts_view(all_cuts@).take(carried.len() as int) == carried,
            is_cut_run(d, state@, goal@, cuts_view(all_cuts@), carried.len() as int),
            costs@ == costs_after(d.n_actions(), cuts_view(all_cuts@)),
            at_most_one(costs@),
            crate::hmax::total(costs@) + (m0 - m) <= n_actions,
            crate::hmax::is_hmax(d, costs@, state@, h@),
            crate::hmax::is_greatest(h@, goal@, m),
        decreases m,
    {
        let ghost cuts0 = cuts_view(all_cuts@);
        let ghost before = costs@;
        let ghost h0 = h@;
        let ghost vec0 = all_cuts@;
        let z: Vec<bool> = goal_zone(domain, &lists, &achievers, &costs, &h, &goal_list);
        let cut: Vec<usize> = find_cut(domain, &lists, &costs, &h, &z, &goal_list);
        let ghost c: (Seq<usize>, u32) = (cut@, 1u32);
        // An action costs one or nothing, so the cut costs one.
        deduct(&mut costs, &cut, 1);
        proof {
            assert forall|a: int| 0 <= a < n_actions implies costs@[a] == paid(before, cut@)[a] by {
                if cut@.contains(a as usize) {
                    assert(in_cut(d, before, h0, goal@, a));
                    assert(before[a] <= 1);
                }
            }
            assert(costs@ =~= paid(before, cut@));
            if cut@.len() == 0 {
                assert(paid(before, cut@) =~= before);
                lemma_cut_lowers_goal(d, before, state@, h0, h0, goal@, cut@, m, m);
            }
            let a = cut@[0];
            assert(cut@.contains(a));
            assert(in_cut(d, before, h0, goal@, a as int));
            assert(before[a as int] > 0);
            lemma_costs_after_push(d.n_actions(), cuts0, c);
            assert(costs@ =~= costs_after(d.n_actions(), cuts0.push(c)));
            assert(cuts0.push(c).drop_last() =~= cuts0);
        }
        h_total += 1;
        all_cuts.push((cut, 1));
        let ghost m_before = m;
        h = hmax_table(domain, &lists, &costs, &state_list);
        m = greatest_entry(&h, &goal_list);
        proof {
            lemma_cut_lowers_goal(d, before, state@, h0, h@, goal@, cut@, m_before, m);
            let cuts1 = cuts_view(all_cuts@);
            assert(cuts1 =~= cuts0.push(c));
            assert(cuts1.take(carried.len() as int) =~= cuts0.take(carried.len() as int));
            assert forall|j: int| carried.len() <= j < cuts1.len() implies (
            #[trigger] cuts1[j]).1 == 1 && cuts1[j].0.len() > 0 && is_next_cut(
                d,
                costs_after(d.n_actions(), cuts1.take(j)),
                state@,
                goal@,
                cuts1[j].0,
            ) by {
                if j < cuts0.len() {
                    assert(cuts1[j] == cuts0[j]);
                    assert(cuts1.take(j) =~= cuts0.take(j));
                } else {
                    assert(cuts1.take(j) =~= cuts0);
                    assert(crate::hmax::is_hmax(d, before, state@, h0));
                }
            }
        }
    }
    proof {
        crate::hmax::lemma_goal_depth(d, costs@, state@, h@, goal@, m);
    }
    (Some(h_total), all_cuts)
}

/// A part of the cuts costs no more than all of them.
proof fn lemma_paid_total_prefix(cuts: Seq<(Seq<usize>, u32)>, i: int)
    requires
        0 <= i <= cuts.len(),
    ensures
        paid_total(cuts.take(i)) <= paid_total(cuts),
    decreases cuts.len(),
{
    if i == cuts.len() {
        assert(cuts.take(i) =~= cuts);
    } else {
        lemma_paid_total_prefix(cuts.drop_last(), i);
        assert(cuts.drop_last().take(i) =~= cuts.take(i));
    }
}

/// The value of the heuristic: nothing where the goal holds already, and the
/// depth of the goal under unit costs otherwise. `None` stands for infinity.
pub open spec fn is_lmcut_value(
    d: ClassicalDomain,
    s: Set<u32>,
    goal: Set<u32>,
    value: Option<u32>,
) -> bool {
    if goal.subset_of(s) {
        value == Some(0u32)
    } else {
        crate::hmax::is_goal_depth(d, unit_costs(d), s, goal, value)
    }
}

/// The value and the cuts that the heuristic gives on top of the cuts `carried`.
pub open spec fn is_lmcut_full(
    d: ClassicalDomain,
    s: Set<u32>,
    goal: Set<u32>,
    carried: Seq<(Seq<usize>, u32)>,
    value: Option<u32>,
    cuts: Seq<(Seq<usize>, u32)>,
) -> bool {
    if goal.subset_of(s) {
        value == Some(0u32) && cuts == Seq::<(Seq<usize>, u32)>::empty()
    } else {
        is_lmcut(d, s, goal, carried, value, cuts)
    }
}

/// The cuts that do not hold the action `x`, in their order.
pub open spec fn without(cuts: Seq<(Seq<usize>, u32)>, x: usize) -> Seq<(Seq<usize>, u32)> {
    cuts.filter(|c: (Seq<usize>, u32)| !c.0.contains(x))
}

/// With no cut paid for, every action costs one.
proof fn lemma_costs_after_none(d: ClassicalDomain)
    ensures
        costs_after(d.n_actions(), Seq::empty()) == unit_costs(d),
{
    assert forall|a: int| 0 <= a < d.n_actions() implies costs_after(
        d.n_actions(),
        Seq::empty(),
    )[a] == 1 by {
        assert(!is_paid(Seq::empty(), a as usize));
    }
    assert(costs_after(d.n_actions(), Seq::empty()) =~= unit_costs(d));
}

/// The landmark-cut value; the cuts are dropped.
pub fn h_lmcut(domain: &ClassicalDomain, state: &HashSet<u32>, goal: &HashSet<u32>) -> (r: Option<
    u32,
>)
    ensures
        is_lmcut_value(*domain, state@, goal@, r),
{
    if is_subset(goal, state) {
        return Some(0);
    }
    let none: [(Vec<usize>, u32); 0] = [];
    let ghost no_cuts = cuts_view(none@);
    proof {
        assert(no_cuts =~= Seq::empty());
        lemma_costs_after_none(*domain);
        assert(fits(*domain, state@, goal@, no_cuts));
    }
    h_lmcut_core(domain, state, goal, &none).0
}

/// The landmark-cut value together with the cuts.
pub fn h_lmcut_full(domain: &ClassicalDomain, state: &HashSet<u32>, goal: &HashSet<u32>) -> (r: (
    Option<u32>,
    LandmarkCuts,
))
    ensures
        is_lmcut_full(*domain, state@, goal@, Seq::empty(), r.0, cuts_view(r.1@)),
{
    if is_subset(goal, state) {
        let cuts: LandmarkCuts = Vec::new();
        assert(cuts_view(cuts@) =~= Seq::empty());
        return (Some(0), cuts);
    }
    let none: [(Vec<usize>, u32); 0] = [];
    proof {
        assert(cuts_view(none@) =~= Seq::empty());
        assert(fits(*domain, state@, goal@, cuts_view(none@)));
    }
    h_lmcut_core(domain, state, goal, &none)
}

/// Whether the action `x` is listed.
fn lists_action(cut: &Vec<usize>, x: usize) -> (r: bool)
    ensures
        r == cut@.contains(x),
{
    let mut i: usize = 0;
    while i < cut.len()
        invariant
            i <= cut@.len(),
            forall|j: int| 0 <= j < i ==> #[trigger] cut@[j] != x,
        decreases cut@.len() - i,
    {
        if cut[i] == x {
            assert(cut@[i as int] == x);
            return true;
        }
        i += 1;
    }
    false
}

/// The landmark-cut value, starting from the cuts of a parent without those
/// that hold the action `exclude_action`.
pub fn h_lmcut_incremental(
    domain: &ClassicalDomain,
    state: &HashSet<u32>,
    goal: &HashSet<u32>,
    parent_cuts: &[(Vec<usize>, u32)],
    exclude_action: usize,
) -> (r: (Option<u32>, LandmarkCuts))
    requires
        goal@.subset_of(state@) || fits(
            *domain,
            state@,
            goal@,
            without(cuts_view(parent_cuts@), exclude_action),
        ),
    ensures
        is_lmcut_full(
            *domain,
            state@,
            goal@,
            without(cuts_view(parent_cuts@), exclude_action),
            r.0,
            cuts_view(r.1@),
        ),
{
    if is_subset(goal, state) {
        let cuts: LandmarkCuts = Vec::new();
        assert(cuts_view(cuts@) =~= Seq::empty());
        return (Some(0), cuts);
    }
    let ghost parents = cuts_view(parent_cuts@);
    let ghost keep = |c: (Seq<usize>, u32)| !c.0.contains(exclude_action);
    let mut carried: LandmarkCuts = Vec::new();
    let mut i: usize = 0;
    proof {
        assert(cuts_view(carried@) =~= without(parents.take(0), exclude_action)) by {
            reveal(Seq::filter);
            assert(parents.take(0) =~= Seq::empty());
        }
    }
    while i < parent_cuts.len()
        invariant
            i <= parent_cuts@.len(),
            parents == cuts_view(parent_cuts@),
            keep == (|c: (Seq<usize>, u32)| !c.0.contains(exclude_action)),
            cuts_view(carried@) == without(parents.take(i as int), exclude_action),
        decreases parent_cuts@.len() - i,
    {
        let ghost before = carried@;
        let ghost c = parents[i as int];
        proof {
            reveal(Seq::filter);
            assert(parents.take(i + 1).drop_last() =~= parents.take(i as int));
            assert(parents.take(i + 1).last() == c);
        }
        if !lists_action(&parent_cuts[i].0, exclude_action) {
            let copy: Vec<usize> = parent_cuts[i].0.clone();
            assert(copy@ =~= parent_cuts@[i as int].0@);
            carried.push((copy, parent_cuts[i].1));
            assert(cuts_view(carried@) =~= cuts_view(before).push(c));
        }
        i += 1;
    }
    assert(parents.take(i as int) =~= parents);
    h_lmcut_core(domain, state, goal, &carried)
}

} // verus!

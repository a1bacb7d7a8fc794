//! An upper bound on the probability of a goal when deletes are ignored.

use std::collections::HashSet;
use vstd::prelude::*;

use crate::domain::ClassicalDomain;
use crate::hmax::ActionLists;
use crate::probability::{scale_up, ONE};
use crate::sets::elements;

verus! {

broadcast use vstd::std_specs::hash::group_hash_axioms;

/// The probability of the first outcome of the action `a`; 1 where none is given.
pub open spec fn first_prob(d: ClassicalDomain, a: int) -> u64 {
    if d.actions@[a].probabilities@.len() == 0 {
        ONE
    } else {
        d.actions@[a].probabilities@[0]
    }
}

/// The first outcomes have probabilities.
pub open spec fn has_probabilities(d: ClassicalDomain) -> bool {
    forall|a: int| 0 <= a < d.n_actions() ==> #[trigger] first_prob(d, a) <= ONE
}

/// The entry of the fact `f`; a fact outside of the table has none.
pub open spec fn chance(p: Seq<u64>, f: u32) -> u64 {
    if f < p.len() {
        p[f as int]
    } else {
        0
    }
}

/// Every one of the facts has at least the probability `m`.
pub open spec fn at_least(p: Seq<u64>, facts: Set<u32>, m: u64) -> bool {
    m <= ONE && forall|f: u32| #[trigger] facts.contains(f) ==> m <= chance(p, f)
}

/// `m` is the least probability of the facts, and 1 where there are none.
pub open spec fn is_least_chance(p: Seq<u64>, facts: Set<u32>, m: u64) -> bool {
    at_least(p, facts, m) && forall|k: u64| #[trigger] at_least(p, facts, k) ==> k <= m
}

/// The table holds 1 for the facts of `s`, and for what an action adds no less
/// than the share of its precondition's probability that the action has, rounded
/// up to whole units.
pub open spec fn is_closed(d: ClassicalDomain, s: Set<u32>, p: Seq<u64>) -> bool {
    &&& p.len() == d.n_facts()
    &&& forall|f: u32| f < d.n_facts() && #[trigger] s.contains(f) ==> chance(p, f) >= ONE
    &&& forall|a: int, f: u32, m: u64| #[trigger]
        d.adds(a, f) && #[trigger] at_least(p, d.pre(a), m) ==> chance(p, f)
            >= crate::probability::scaled_up(m, first_prob(d, a))
}

/// Every entry of `p` is at most that of `q`.
pub open spec fn below(p: Seq<u64>, q: Seq<u64>) -> bool {
    p.len() == q.len() && forall|i: int| 0 <= i < p.len() ==> #[trigger] p[i] <= q[i]
}

/// The table is the least one that is closed.
pub open spec fn is_least(d: ClassicalDomain, s: Set<u32>, p: Seq<u64>) -> bool {
    is_closed(d, s, p) && forall|q: Seq<u64>| #[trigger] is_closed(d, s, q) ==> below(p, q)
}

/// `r` is the least probability of a goal fact in the least closed table.
pub open spec fn is_prob_max(d: ClassicalDomain, s: Set<u32>, goal: Set<u32>, r: u64) -> bool {
    exists|p: Seq<u64>| #[trigger] is_least(d, s, p) && is_least_chance(p, goal, r)
}

/// The least probability of the listed facts, and 1 where there are none.
fn least_chance(p: &Vec<u64>, list: &Vec<u32>, Ghost(facts): Ghost<Set<u32>>) -> (m: u64)
    requires
        forall|f: u32| facts.contains(f) <==> #[trigger] list@.contains(f),
    ensures
        is_least_chance(p@, facts, m),
{
    let mut m: u64 = ONE;
    let mut j: usize = 0;
    while j < list.len()
        invariant
            j <= list@.len(),
            m <= ONE,
            forall|x: int| 0 <= x < j ==> m <= chance(p@, #[trigger] list@[x]),
            m == ONE || exists|x: int| 0 <= x < j && m == chance(p@, #[trigger] list@[x]),
        decreases list@.len() - j,
    {
        let f: u32 = list[j];
        let c: u64 = if (f as usize) < p.len() {
            p[f as usize]
        } else {
            0
        };
        assert(c == chance(p@, list@[j as int]));
        if c < m {
            m = c;
        }
        j += 1;
    }
    proof {
        assert forall|f: u32| #[trigger] facts.contains(f) implies m <= chance(p@, f) by {
            assert(list@.contains(f));
        }
        assert forall|k: u64| #[trigger] at_least(p@, facts, k) implies k <= m by {
            if m < ONE {
                let x = choose|x: int| 0 <= x < list@.len() && m == chance(p@, #[trigger] list@[x]);
                assert(list@.contains(list@[x]));
                assert(facts.contains(list@[x]));
            }
        }
    }
    m
}

/// Raises what the action `a` adds to at least `v`. Says whether anything rose.
fn raise(p: &mut Vec<u64>, add: &Vec<u32>, v: u64) -> (changed: bool)
    requires
        v <= ONE,
    ensures
        final(p)@.len() == old(p)@.len(),
        forall|f: u32|
            f < old(p)@.len() ==> #[trigger] final(p)@[f as int] == (if add@.contains(f)
                && old(p)@[f as int] < v {
                v
            } else {
                old(p)@[f as int]
            }),
        changed ==> crate::probability::slack(final(p)@) < crate::probability::slack(old(p)@),
        !changed ==> final(p)@ == old(p)@,
{
    let ghost start = p@;
    let mut changed: bool = false;
    let mut j: usize = 0;
    while j < add.len()
        invariant
            j <= add@.len(),
            p@.len() == start.len(),
            forall|f: u32|
                f < start.len() ==> #[trigger] p@[f as int] == (if add@.take(j as int).contains(f)
                    && start[f as int] < v {
                    v
                } else {
                    start[f as int]
                }),
            changed ==> crate::probability::slack(p@) < crate::probability::slack(start),
            !changed ==> p@ == start,
        decreases add@.len() - j,
    {
        let e: u32 = add[j];
        let ghost before = p@;
        let ghost done = add@.take(j as int);
        assert(add@.take(j + 1) =~= done.push(e));
        if (e as usize) < p.len() && p[e as usize] < v {
            proof {
                crate::probability::lemma_slack_update(p@, e as int, v);
            }
            p.set(e as usize, v);
            changed = true;
        }
        proof {
            assert forall|f: u32| #[trigger] done.push(e).contains(f) <==> f == e
                || done.contains(f) by {
                if done.contains(f) {
                    let x = choose|x: int| 0 <= x < done.len() && done[x] == f;
                    assert(done.push(e)[x] == f);
                }
                assert(done.push(e)[done.len() as int] == e);
            }
            assert forall|f: u32| f < start.len() implies #[trigger] p@[f as int] == (
            if add@.take(j + 1).contains(f) && start[f as int] < v {
                v
            } else {
                start[f as int]
            }) by {
                assert(before[f as int] == (if done.contains(f) && start[f as int] < v {
                    v
                } else {
                    start[f as int]
                }));
            }
        }
        j += 1;
    }
    assert(add@.take(j as int) =~= add@);
    changed
}

/// What the action `a` asks of a closed table.
spec fn closed_at(d: ClassicalDomain, p: Seq<u64>, a: int) -> bool {
    forall|f: u32, m: u64| #[trigger]
        d.adds(a, f) && #[trigger] at_least(p, d.pre(a), m) ==> chance(p, f)
            >= crate::probability::scaled_up(m, first_prob(d, a))
}

/// The table has an entry for each fact, 1 for the facts of `s`, and no entry
/// above what a closed table has.
spec fn is_sound(d: ClassicalDomain, s: Set<u32>, p: Seq<u64>) -> bool {
    &&& p.len() == d.n_facts() <= u32::MAX
    &&& forall|i: int| 0 <= i < p.len() ==> #[trigger] p[i] <= ONE
    &&& forall|f: u32| f < d.n_facts() && #[trigger] s.contains(f) ==> chance(p, f) >= ONE
    &&& forall|q: Seq<u64>| #[trigger] is_closed(d, s, q) ==> below(p, q)
}

/// Lets every action raise what it adds. Says whether anything rose.
fn sweep(d: &ClassicalDomain, lists: &ActionLists, p: &mut Vec<u64>, Ghost(s): Ghost<Set<u32>>) -> (
    changed: bool)
    requires
        lists.wf(*d),
        has_probabilities(*d),
        is_sound(*d, s, old(p)@),
    ensures
        is_sound(*d, s, final(p)@),
        changed ==> crate::probability::slack(final(p)@) < crate::probability::slack(old(p)@),
        !changed ==> is_closed(*d, s, final(p)@) && final(p)@ == old(p)@,
{
    let ghost start = p@;
    let mut changed: bool = false;
    let mut a: usize = 0;
    while a < d.actions.len()
        invariant
            a <= d.n_actions(),
            lists.wf(*d),
            has_probabilities(*d),
            is_sound(*d, s, p@),
            changed ==> crate::probability::slack(p@) < crate::probability::slack(start),
            !changed ==> p@ == start,
            !changed ==> forall|b: int| 0 <= b < a ==> #[trigger] closed_at(*d, p@, b),
        decreases d.n_actions() - a,
    {
        let ghost before = p@;
        proof {
            assert forall|f: u32| d.pre(a as int).contains(f)
                <==> #[trigger] lists.pre@[a as int]@.contains(f) by {
                assert(lists.pre@[a as int]@.to_set().contains(f)
                    <==> lists.pre@[a as int]@.contains(f));
            }
        }
        let m: u64 = least_chance(p, &lists.pre[a], Ghost(d.pre(a as int)));
        let share: u64 = if d.actions[a].probabilities.len() == 0 {
            ONE
        } else {
            d.actions[a].probabilities[0]
        };
        assert(share == first_prob(*d, a as int));
        let v: u64 = scale_up(m, share);
        proof {
            crate::probability::lemma_scaled_up_bound(m, share);
        }
        let rose: bool = raise(p, &lists.add[a], v);
        proof {
            assert forall|f: u32| d.add(a as int).contains(f)
                <==> #[trigger] lists.add@[a as int]@.contains(f) by {
                assert(lists.add@[a as int]@.to_set().contains(f)
                    <==> lists.add@[a as int]@.contains(f));
            }
            assert forall|x: int| 0 <= x < p@.len() implies #[trigger] p@[x] <= ONE by {
                assert(p@[x as u32 as int] == p@[x]);
                assert(before[x] <= ONE);
            }
            assert forall|f: u32| f < d.n_facts() && #[trigger] s.contains(f) implies chance(
                p@,
                f,
            ) >= ONE by {
                assert(chance(before, f) >= ONE);
                assert(p@[f as int] >= before[f as int]);
            }
            assert forall|q: Seq<u64>| #[trigger] is_closed(*d, s, q) implies below(p@, q) by {
                assert(below(before, q));
                assert(at_least(q, d.pre(a as int), m)) by {
                    assert forall|f: u32| #[trigger] d.pre(a as int).contains(f) implies m
                        <= chance(q, f) by {
                        assert(m <= chance(before, f));
                    }
                }
                assert forall|x: int| 0 <= x < p@.len() implies #[trigger] p@[x] <= q[x] by {
                    let f = x as u32;
                    assert(before[x] <= q[x]);
                    assert(p@[f as int] == p@[x]);
                    if p@[x] != before[x] {
                        assert(lists.add@[a as int]@.contains(f));
                        assert(d.adds(a as int, f));
                    }
                }
            }
            if !rose {
                assert(closed_at(*d, p@, a as int)) by {
                    assert forall|f: u32, k: u64| #[trigger]
                        d.adds(a as int, f) && #[trigger] at_least(
                            p@,
                            d.pre(a as int),
                            k,
                        ) implies chance(p@, f) >= crate::probability::scaled_up(k, share) by {
                        assert(k <= m);
                        crate::probability::lemma_scaled_up_mono(k, m, share, share);
                        assert(lists.add@[a as int]@.contains(f));
                        assert(p@[f as int] >= v);
                    }
                }
            }
        }
        if rose {
            changed = true;
        }
        a += 1;
    }
    proof {
        if !changed {
            assert forall|b: int, f: u32, m: u64| #[trigger]
                d.adds(b, f) && #[trigger] at_least(p@, d.pre(b), m) implies chance(p@, f)
                >= crate::probability::scaled_up(m, first_prob(*d, b)) by {
                assert(closed_at(*d, p@, b));
            }
        }
    }
    changed
}

/// The least probability of a goal fact, when every fact has the greatest
/// probability that a chain of first outcomes gives it and deletes are ignored.
/// What is less than a unit counts as one, so this is an upper bound: it is 1 for
/// an empty goal, and 0 exactly for one with a fact that cannot be reached.
pub fn h_prob_max(domain: &ClassicalDomain, state: &HashSet<u32>, goal: &HashSet<u32>) -> (r: u64)
    requires
        domain.n_facts() <= u32::MAX,
        has_probabilities(*domain),
    ensures
        is_prob_max(*domain, state@, goal@, r),
        r <= ONE,
{
    let lists: ActionLists = ActionLists::new(domain);
    let n: usize = domain.facts.names.len();
    let mut p: Vec<u64> = vec![0; n];
    let start: Vec<u32> = elements(state);
    let rose: bool = raise(&mut p, &start, ONE);
    proof {
        assert forall|x: int| 0 <= x < p@.len() implies #[trigger] p@[x] <= ONE by {
            assert(p@[x as u32 as int] <= ONE);
        }
        assert forall|f: u32|
            f < domain.n_facts() && #[trigger] state@.contains(f) implies chance(p@, f) >= ONE by {
            assert(start@.contains(f));
            assert(p@[f as int] == ONE);
        }
        assert forall|q: Seq<u64>| #[trigger] is_closed(*domain, state@, q) implies below(p@, q) by {
            assert forall|x: int| 0 <= x < p@.len() implies #[trigger] p@[x] <= q[x] by {
                let f = x as u32;
                assert(p@[f as int] == p@[x]);
                if start@.contains(f) {
                    assert(state@.contains(f));
                    assert(chance(q, f) >= ONE);
                }
            }
        }
    }
    let mut changed: bool = true;
    while changed
        invariant
            lists.wf(*domain),
            has_probabilities(*domain),
            is_sound(*domain, state@, p@),
            !changed ==> is_closed(*domain, state@, p@),
        decreases crate::probability::slack(p@) + if changed {
            1nat
        } else {
            0nat
        },
    {
        changed = sweep(domain, &lists, &mut p, Ghost(state@));
    }
    let goals: Vec<u32> = elements(goal);
    let r: u64 = least_chance(&p, &goals, Ghost(goal@));
    assert(is_least(*domain, state@, p@));
    r
}

} // verus!

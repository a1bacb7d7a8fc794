//! The cost of a goal when deletes are ignored, where the facts of a
//! precondition are paid for one by one or the dearest one pays for all.

use std::collections::HashSet;
use vstd::prelude::*;

use crate::domain::ClassicalDomain;
use crate::hmax::ActionLists;
use crate::sets::elements;

verus! {

broadcast use vstd::std_specs::hash::group_hash_axioms;

/// How the costs of several facts make one cost.
#[derive(Clone, Copy, PartialEq, Eq, Structural)]
pub enum Combine {
    Sum,
    Max,
}

/// The cost of two things together.
pub open spec fn both(how: Combine, x: nat, y: nat) -> nat {
    match how {
        Combine::Sum => x + y,
        Combine::Max => if x <= y {
            y
        } else {
            x
        },
    }
}

/// The cost of those of the facts that are below `n`.
pub open spec fn cost_below(q: Seq<u32>, facts: Set<u32>, how: Combine, n: nat) -> nat
    decreases n,
{
    if n == 0 {
        0
    } else {
        let rest = cost_below(q, facts, how, (n - 1) as nat);
        if facts.contains((n - 1) as u32) {
            both(how, rest, q[n - 1] as nat)
        } else {
            rest
        }
    }
}

/// All of the facts have a finite cost.
pub open spec fn is_finite(q: Seq<u32>, facts: Set<u32>) -> bool {
    forall|f: u32| #[trigger] facts.contains(f) ==> f < q.len() && q[f as int] < u32::MAX
}

/// The cost of the facts and `more`. It is infinite, which `u32::MAX` stands
/// for, where that of a fact is, and is cut off right below that elsewhere.
pub open spec fn cost_of(q: Seq<u32>, facts: Set<u32>, how: Combine, more: nat) -> u32 {
    if !is_finite(q, facts) {
        u32::MAX
    } else if cost_below(q, facts, how, q.len()) + more < u32::MAX {
        (cost_below(q, facts, how, q.len()) + more) as u32
    } else {
        (u32::MAX - 1) as u32
    }
}

/// No entry exceeds what the facts of `s` and the actions allow.
pub open spec fn is_consistent(d: ClassicalDomain, s: Set<u32>, how: Combine, q: Seq<u32>) -> bool {
    &&& q.len() == d.n_facts()
    &&& forall|f: u32| f < d.n_facts() && #[trigger] s.contains(f) ==> q[f as int] == 0
    &&& forall|a: int, f: u32| #[trigger]
        d.adds(a, f) ==> q[f as int] <= cost_of(q, d.pre(a), how, d.actions@[a].cost as nat)
}

/// Every entry of `p` is at most that of `q`.
pub open spec fn below(p: Seq<u32>, q: Seq<u32>) -> bool {
    p.len() == q.len() && forall|i: int| 0 <= i < p.len() ==> #[trigger] p[i] <= q[i]
}

/// The table is the greatest one that is consistent.
pub open spec fn is_cost_table(d: ClassicalDomain, s: Set<u32>, how: Combine, q: Seq<u32>) -> bool {
    is_consistent(d, s, how, q) && forall|p: Seq<u32>| #[trigger]
        is_consistent(d, s, how, p) ==> below(p, q)
}

/// `v` is the cost of the goal in the greatest consistent table.
pub open spec fn is_goal_cost(
    d: ClassicalDomain,
    s: Set<u32>,
    goal: Set<u32>,
    how: Combine,
    v: Option<u32>,
) -> bool {
    exists|q: Seq<u32>| #[trigger]
        is_cost_table(d, s, how, q) && v == (if is_finite(q, goal) {
            Some(cost_of(q, goal, how, 0))
        } else {
            None
        })
}

proof fn lemma_cost_below_mono(p: Seq<u32>, q: Seq<u32>, facts: Set<u32>, how: Combine, n: nat)
    requires
        below(p, q),
        n <= q.len(),
    ensures
        cost_below(p, facts, how, n) <= cost_below(q, facts, how, n),
    decreases n,
{
    if n > 0 {
        lemma_cost_below_mono(p, q, facts, how, (n - 1) as nat);
        assert(p[n - 1] <= q[n - 1]);
    }
}

/// Facts cost no less in a table with greater entries.
pub proof fn lemma_cost_mono(p: Seq<u32>, q: Seq<u32>, facts: Set<u32>, how: Combine, more: nat)
    requires
        below(p, q),
    ensures
        cost_of(p, facts, how, more) <= cost_of(q, facts, how, more),
        is_finite(q, facts) ==> is_finite(p, facts),
{
    lemma_cost_below_mono(p, q, facts, how, q.len());
    if is_finite(q, facts) {
        assert forall|f: u32| #[trigger] facts.contains(f) implies f < p.len() && p[f as int]
            < u32::MAX by {
            assert(p[f as int] <= q[f as int]);
        }
    }
}

/// Whether all of the listed facts have a finite cost.
fn all_finite(q: &Vec<u32>, list: &Vec<u32>, Ghost(facts): Ghost<Set<u32>>) -> (r: bool)
    requires
        forall|f: u32| facts.contains(f) <==> #[trigger] list@.contains(f),
    ensures
        r == is_finite(q@, facts),
{
    let mut j: usize = 0;
    while j < list.len()
        invariant
            j <= list@.len(),
            forall|f: u32| facts.contains(f) <==> #[trigger] list@.contains(f),
            forall|x: int|
                0 <= x < j ==> #[trigger] list@[x] < q@.len() && q@[list@[x] as int] < u32::MAX,
        decreases list@.len() - j,
    {
        let f: u32 = list[j];
        assert(list@.contains(f));
        if (f as usize) >= q.len() || q[f as usize] == u32::MAX {
            assert(facts.contains(f));
            return false;
        }
        j += 1;
    }
    proof {
        assert forall|f: u32| #[trigger] facts.contains(f) implies f < q@.len() && q@[f as int]
            < u32::MAX by {
            assert(list@.contains(f));
        }
    }
    true
}

/// The cost of the facts and `more`.
fn combined_cost(
    q: &Vec<u32>,
    facts: &HashSet<u32>,
    list: &Vec<u32>,
    how: Combine,
    more: u32,
) -> (c: u32)
    requires
        q@.len() <= u32::MAX,
        forall|f: u32| facts@.contains(f) <==> #[trigger] list@.contains(f),
    ensures
        c == cost_of(q@, facts@, how, more as nat),
{
    if !all_finite(q, list, Ghost(facts@)) {
        return u32::MAX;
    }
    let mut sum: u64 = 0;
    let mut f: usize = 0;
    while f < q.len()
        invariant
            f <= q@.len() <= u32::MAX,
            sum == cost_below(q@, facts@, how, f as nat),
            sum <= f * u32::MAX,
        decreases q@.len() - f,
    {
        assert(f * u32::MAX + u32::MAX == (f + 1) * u32::MAX) by (nonlinear_arith);
        assert((f + 1) * u32::MAX <= u32::MAX * u32::MAX) by (nonlinear_arith)
            requires
                f + 1 <= u32::MAX,
        ;
        if facts.contains(&(f as u32)) {
            let c: u64 = q[f] as u64;
            match how {
                Combine::Sum => {
                    sum = sum + c;
                },
                Combine::Max => {
                    if sum <= c {
                        sum = c;
                    }
                },
            }
        }
        f += 1;
    }
    assert(sum <= u32::MAX * u32::MAX) by (nonlinear_arith)
        requires
            sum <= f * u32::MAX,
            f <= u32::MAX,
    ;
    if sum + (more as u64) < u32::MAX as u64 {
        (sum + more as u64) as u32
    } else {
        u32::MAX - 1
    }
}

/// The table has an entry for each fact, 0 for the facts of `s`, and no entry
/// below what a consistent table has.
spec fn is_sound(d: ClassicalDomain, s: Set<u32>, how: Combine, q: Seq<u32>) -> bool {
    &&& q.len() == d.n_facts() <= u32::MAX
    &&& forall|f: u32| f < d.n_facts() && #[trigger] s.contains(f) ==> q[f as int] == 0
    &&& forall|p: Seq<u32>| #[trigger] is_consistent(d, s, how, p) ==> below(p, q)
}

/// Lowers the entries of the listed facts to at most `c`. Says whether any sank.
fn lower(q: &mut Vec<u32>, add: &Vec<u32>, c: u32) -> (changed: bool)
    ensures
        final(q)@.len() == old(q)@.len(),
        forall|f: u32|
            f < old(q)@.len() ==> #[trigger] final(q)@[f as int] == (if add@.contains(f)
                && old(q)@[f as int] > c {
                c
            } else {
                old(q)@[f as int]
            }),
        changed ==> crate::hmax::total(final(q)@) < crate::hmax::total(old(q)@),
        !changed ==> final(q)@ == old(q)@,
{
    let ghost start = q@;
    let mut changed: bool = false;
    let mut j: usize = 0;
    while j < add.len()
        invariant
            j <= add@.len(),
            q@.len() == start.len(),
            forall|f: u32|
                f < start.len() ==> #[trigger] q@[f as int] == (if add@.take(j as int).contains(f)
                    && start[f as int] > c {
                    c
                } else {
                    start[f as int]
                }),
            changed ==> crate::hmax::total(q@) < crate::hmax::total(start),
            !changed ==> q@ == start,
        decreases add@.len() - j,
    {
        let e: u32 = add[j];
        let ghost before = q@;
        let ghost done = add@.take(j as int);
        assert(add@.take(j + 1) =~= done.push(e));
        if (e as usize) < q.len() && q[e as usize] > c {
            proof {
                crate::hmax::lemma_total_update(q@, e as int, c);
            }
            q.set(e as usize, c);
            changed = true;
        }
        proof {
            assert forall|f: u32| #[trigger] done.push(e).contains(f) <==> f == e
                || done.contains(f) by {
                if done.contains(f) {
                    let x = choose|x: int| 0 <= x < done.len() && done[x] == f;
                    assert(done.push(e)[x] == f);
                }
                assert(done.push(e)[done.len() as int] == e);
            }
            assert forall|f: u32| f < start.len() implies #[trigger] q@[f as int] == (
            if add@.take(j + 1).contains(f) && start[f as int] > c {
                c
            } else {
                start[f as int]
            }) by {
                assert(before[f as int] == (if done.contains(f) && start[f as int] > c {
                    c
                } else {
                    start[f as int]
                }));
            }
        }
        j += 1;
    }
    assert(add@.take(j as int) =~= add@);
    changed
}

/// What the action `a` asks of a consistent table.
spec fn consistent_at(d: ClassicalDomain, how: Combine, q: Seq<u32>, a: int) -> bool {
    forall|f: u32| #[trigger]
        d.adds(a, f) ==> q[f as int] <= cost_of(q, d.pre(a), how, d.actions@[a].cost as nat)
}

/// Lets every action lower what it adds. Says whether anything sank.
fn sweep(
    d: &ClassicalDomain,
    lists: &ActionLists,
    how: Combine,
    q: &mut Vec<u32>,
    Ghost(s): Ghost<Set<u32>>,
) -> (changed: bool)
    requires
        lists.wf(*d),
        is_sound(*d, s, how, old(q)@),
    ensures
        is_sound(*d, s, how, final(q)@),
        changed ==> crate::hmax::total(final(q)@) < crate::hmax::total(old(q)@),
        !changed ==> is_consistent(*d, s, how, final(q)@) && final(q)@ == old(q)@,
{
    let ghost start = q@;
    let mut changed: bool = false;
    let mut a: usize = 0;
    while a < d.actions.len()
        invariant
            a <= d.n_actions(),
            lists.wf(*d),
            is_sound(*d, s, how, q@),
            changed ==> crate::hmax::total(q@) < crate::hmax::total(start),
            !changed ==> q@ == start,
            !changed ==> forall|b: int| 0 <= b < a ==> #[trigger] consistent_at(*d, how, q@, b),
        decreases d.n_actions() - a,
    {
        let ghost before = q@;
        proof {
            assert forall|f: u32| d.pre(a as int).contains(f)
                <==> #[trigger] lists.pre@[a as int]@.contains(f) by {
                assert(lists.pre@[a as int]@.to_set().contains(f)
                    <==> lists.pre@[a as int]@.contains(f));
            }
        }
        let c: u32 = combined_cost(
            q,
            &d.actions[a].pre_cond,
            &lists.pre[a],
            how,
            d.actions[a].cost,
        );
        let sank: bool = lower(q, &lists.add[a], c);
        proof {
            assert forall|f: u32| d.add(a as int).contains(f)
                <==> #[trigger] lists.add@[a as int]@.contains(f) by {
                assert(lists.add@[a as int]@.to_set().contains(f)
                    <==> lists.add@[a as int]@.contains(f));
            }
            assert forall|f: u32|
                f < d.n_facts() && #[trigger] s.contains(f) implies q@[f as int] == 0 by {
                assert(before[f as int] == 0);
            }
            assert forall|p: Seq<u32>| #[trigger] is_consistent(*d, s, how, p) implies below(
                p,
                q@,
            ) by {
                assert(below(p, before));
                lemma_cost_mono(
                    p,
                    before,
                    d.pre(a as int),
                    how,
                    d.actions@[a as int].cost as nat,
                );
                assert forall|x: int| 0 <= x < p.len() implies #[trigger] p[x] <= q@[x] by {
                    let f = x as u32;
                    assert(p[x] <= before[x]);
                    assert(q@[f as int] == q@[x]);
                    if q@[x] != before[x] {
                        assert(lists.add@[a as int]@.contains(f));
                        assert(d.adds(a as int, f));
                    }
                }
            }
            if !sank {
                assert(consistent_at(*d, how, q@, a as int)) by {
                    assert forall|f: u32| #[trigger] d.adds(a as int, f) implies q@[f as int]
                        <= cost_of(q@, d.pre(a as int), how, d.actions@[a as int].cost as nat) by {
                        assert(lists.add@[a as int]@.contains(f));
                        assert(q@[f as int] <= c);
                    }
                }
            }
        }
        if sank {
            changed = true;
        }
        a += 1;
    }
    proof {
        if !changed {
            assert forall|b: int, f: u32| #[trigger] d.adds(b, f) implies q@[f as int] <= cost_of(
                q@,
                d.pre(b),
                how,
                d.actions@[b].cost as nat,
            ) by {
                assert(consistent_at(*d, how, q@, b));
            }
        }
    }
    changed
}

/// The cost of the goal, or nothing where it cannot be reached.
fn goal_cost(
    domain: &ClassicalDomain,
    state: &HashSet<u32>,
    goal: &HashSet<u32>,
    how: Combine,
) -> (v: Option<u32>)
    requires
        domain.n_facts() <= u32::MAX,
    ensures
        is_goal_cost(*domain, state@, goal@, how, v),
{
    let lists: ActionLists = ActionLists::new(domain);
    let n: usize = domain.facts.names.len();
    let mut q: Vec<u32> = vec![u32::MAX; n];
    let start: Vec<u32> = elements(state);
    let sank: bool = lower(&mut q, &start, 0);
    proof {
        assert forall|f: u32|
            f < domain.n_facts() && #[trigger] state@.contains(f) implies q@[f as int] == 0 by {
            assert(start@.contains(f));
        }
        assert forall|p: Seq<u32>| #[trigger] is_consistent(
            *domain,
            state@,
            how,
            p,
        ) implies below(p, q@) by {
            assert forall|x: int| 0 <= x < p.len() implies #[trigger] p[x] <= q@[x] by {
                let f = x as u32;
                assert(q@[f as int] == q@[x]);
                if start@.contains(f) {
                    assert(state@.contains(f));
                }
            }
        }
    }
    let mut changed: bool = true;
    while changed
        invariant
            lists.wf(*domain),
            is_sound(*domain, state@, how, q@),
            !changed ==> is_consistent(*domain, state@, how, q@),
        decreases crate::hmax::total(q@) + if changed {
            1nat
        } else {
            0nat
        },
    {
        changed = sweep(domain, &lists, how, &mut q, Ghost(state@));
    }
    assert(is_cost_table(*domain, state@, how, q@));
    let goals: Vec<u32> = elements(goal);
    if all_finite(&q, &goals, Ghost(goal@)) {
        Some(combined_cost(&q, goal, &goals, how, 0))
    } else {
        None
    }
}

/// The cost of the goal when every fact of a precondition is paid for.
pub fn h_add(domain: &ClassicalDomain, state: &HashSet<u32>, goal: &HashSet<u32>) -> (v: Option<
    u32,
>)
    requires
        domain.n_facts() <= u32::MAX,
    ensures
        is_goal_cost(*domain, state@, goal@, Combine::Sum, v),
{
    goal_cost(domain, state, goal, Combine::Sum)
}

/// The cost of the goal when the dearest fact of a precondition pays for all.
pub fn h_max(domain: &ClassicalDomain, state: &HashSet<u32>, goal: &HashSet<u32>) -> (v: Option<
    u32,
>)
    requires
        domain.n_facts() <= u32::MAX,
    ensures
        is_goal_cost(*domain, state@, goal@, Combine::Max, v),
{
    goal_cost(domain, state, goal, Combine::Max)
}

} // verus!

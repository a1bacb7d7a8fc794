//! Walking hash sets of integers.

use std::collections::HashSet;
use vstd::prelude::*;

verus! {

broadcast use vstd::std_specs::hash::group_hash_axioms;

/// The elements of `s`, each once, in the order in which the set is walked.
pub fn elements(s: &HashSet<u32>) -> (v: Vec<u32>)
    ensures
        v@.no_duplicates(),
        v@.to_set() == s@,
        v@.len() == s@.len(),
        forall|x: u32| s@.contains(x) <==> #[trigger] v@.contains(x),
{
    let mut v: Vec<u32> = Vec::new();
    for x in it: s.iter()
        invariant
            it.seq() == vstd::std_specs::iter::IteratorSpec::remaining(&s.iter()),
            v@ == it.seq().unref().take(it.index()),
    {
        v.push(*x);
    }
    proof {
        let r = vstd::std_specs::iter::IteratorSpec::remaining(&s.iter());
        assert(v@ =~= r.unref());
    }
    v
}

/// Whether every element of `a` is one of `b`.
pub fn is_subset(a: &HashSet<u32>, b: &HashSet<u32>) -> (r: bool)
    ensures
        r == a@.subset_of(b@),
{
    let list: Vec<u32> = elements(a);
    let mut i: usize = 0;
    while i < list.len()
        invariant
            i <= list@.len(),
            forall|x: u32| a@.contains(x) <==> #[trigger] list@.contains(x),
            forall|j: int| 0 <= j < i ==> b@.contains(#[trigger] list@[j]),
        decreases list@.len() - i,
    {
        if !b.contains(&list[i]) {
            assert(list@.contains(list@[i as int]));
            return false;
        }
        i += 1;
    }
    proof {
        assert forall|x: u32| a@.contains(x) implies b@.contains(x) by {
            assert(list@.contains(x));
        }
    }
    true
}

/// For every number below `n`, the positions of the lists that hold it, in
/// ascending order.
pub fn invert(n: usize, lists: &Vec<Vec<u32>>) -> (index: Vec<Vec<usize>>)
    ensures
        index@.len() == n,
        forall|f: u32, a: usize|
            f < n ==> (#[trigger] index@[f as int]@.contains(a) <==> a < lists@.len()
                && lists@[a as int]@.contains(f)),
        forall|f: int, i: int, j: int|
            0 <= f < n && 0 <= i < j < index@[f]@.len() ==> #[trigger] index@[f]@[i]
                <= #[trigger] index@[f]@[j],
{
    let mut index: Vec<Vec<usize>> = Vec::new();
    let mut i: usize = 0;
    while i < n
        invariant
            i <= n,
            index@.len() == i,
            forall|f: int| 0 <= f < i ==> (#[trigger] index@[f])@.len() == 0,
        decreases n - i,
    {
        index.push(Vec::new());
        i += 1;
    }
    let mut a: usize = 0;
    while a < lists.len()
        invariant
            a <= lists@.len(),
            index@.len() == n,
            forall|f: u32, b: usize|
                f < n ==> (#[trigger] index@[f as int]@.contains(b) <==> b < a
                    && lists@[b as int]@.contains(f)),
            forall|f: int, x: int, y: int|
                0 <= f < n && 0 <= x < y < index@[f]@.len() ==> #[trigger] index@[f]@[x]
                    <= #[trigger] index@[f]@[y],
        decreases lists@.len() - a,
    {
        let list: &Vec<u32> = &lists[a];
        let mut j: usize = 0;
        while j < list.len()
            invariant
                j <= list@.len(),
                a < lists@.len(),
                list@ == lists@[a as int]@,
                index@.len() == n,
                forall|f: u32, b: usize|
                    f < n ==> (#[trigger] index@[f as int]@.contains(b) <==> (b < a
                        && lists@[b as int]@.contains(f)) || (b == a && list@.take(
                        j as int,
                    ).contains(f))),
                forall|f: int, x: int, y: int|
                    0 <= f < n && 0 <= x < y < index@[f]@.len() ==> #[trigger] index@[f]@[x]
                        <= #[trigger] index@[f]@[y],
            decreases list@.len() - j,
        {
            let f: u32 = list[j];
            let ghost l = list@.take(j as int);
            assert(list@.take(j + 1) =~= l.push(f));
            let ghost before = index@;
            if (f as usize) < n {
                index[f as usize].push(a);
            }
            proof {
                assert forall|g: u32| l.push(f).contains(g) <==> g == f || l.contains(g) by {
                    if l.contains(g) {
                        let k = choose|k: int| 0 <= k < l.len() && l[k] == g;
                        assert(l.push(f)[k] == g);
                    }
                    assert(l.push(f)[l.len() as int] == f);
                }
                assert forall|g: u32, b: usize| g < n implies (
                #[trigger] index@[g as int]@.contains(b) <==> (b < a
                    && lists@[b as int]@.contains(g)) || (b == a && list@.take(
                    j + 1,
                ).contains(g))) by {
                    let old_list = before[g as int]@;
                    assert(old_list.contains(b) <==> (b < a && lists@[b as int]@.contains(g))
                        || (b == a && l.contains(g)));
                    if g == f {
                        let new_list = index@[g as int]@;
                        assert(new_list == old_list.push(a));
                        assert(new_list[old_list.len() as int] == a);
                        if old_list.contains(b) {
                            let k = choose|k: int| 0 <= k < old_list.len() && old_list[k] == b;
                            assert(new_list[k] == b);
                        }
                    } else {
                        assert(index@[g as int] == before[g as int]);
                    }
                }
                assert forall|g: int, x: int, y: int|
                    0 <= g < n && 0 <= x < y < index@[g]@.len() implies #[trigger] index@[g]@[x]
                    <= #[trigger] index@[g]@[y] by {
                    let old_list = before[g]@;
                    if g == f as int {
                        assert(index@[g]@ == old_list.push(a));
                        assert(old_list[x] == index@[g]@[x]);
                        assert(before[f as int]@.contains(old_list[x]));
                        if y < old_list.len() {
                            assert(old_list[y] == index@[g]@[y]);
                        }
                    } else {
                        assert(index@[g] == before[g]);
                        assert(old_list[x] <= old_list[y]);
                    }
                }
            }
            j += 1;
        }
        assert(list@.take(j as int) =~= list@);
        a += 1;
    }
    index
}

/// The set of the elements of `list` and `more`.
pub fn set_with(list: &Vec<u32>, more: u32) -> (s: HashSet<u32>)
    ensures
        forall|x: u32| #[trigger] s@.contains(x) <==> list@.contains(x) || x == more,
{
    let mut s: HashSet<u32> = HashSet::new();
    s.insert(more);
    let mut i: usize = 0;
    while i < list.len()
        invariant
            i <= list@.len(),
            forall|x: u32| #[trigger]
                s@.contains(x) <==> list@.take(i as int).contains(x) || x == more,
        decreases list@.len() - i,
    {
        let f: u32 = list[i];
        let ghost done = list@.take(i as int);
        assert(list@.take(i + 1) =~= done.push(f));
        proof {
            assert forall|x: u32| #[trigger] done.push(f).contains(x) <==> x == f
                || done.contains(x) by {
                if done.contains(x) {
                    let k = choose|k: int| 0 <= k < done.len() && done[k] == x;
                    assert(done.push(f)[k] == x);
                }
                assert(done.push(f)[done.len() as int] == f);
            }
        }
        s.insert(f);
        i += 1;
    }
    assert(list@.take(i as int) =~= list@);
    s
}

/// The same set.
pub fn copy_set(set: &HashSet<u32>) -> (r: HashSet<u32>)
    ensures
        r@ == set@,
{
    let list: Vec<u32> = elements(set);
    let mut r: HashSet<u32> = HashSet::new();
    let mut i: usize = 0;
    while i < list.len()
        invariant
            i <= list@.len(),
            forall|x: u32| #[trigger] r@.contains(x) <==> list@.take(i as int).contains(x),
        decreases list@.len() - i,
    {
        let f: u32 = list[i];
        let ghost done = list@.take(i as int);
        assert(list@.take(i + 1) =~= done.push(f));
        proof {
            assert forall|x: u32| #[trigger] done.push(f).contains(x) <==> x == f
                || done.contains(x) by {
                if done.contains(x) {
                    let k = choose|k: int| 0 <= k < done.len() && done[k] == x;
                    assert(done.push(f)[k] == x);
                }
                assert(done.push(f)[done.len() as int] == f);
            }
        }
        r.insert(f);
        i += 1;
    }
    assert(list@.take(i as int) =~= list@);
    assert(r@ =~= set@) by {
        assert forall|x: u32| r@.contains(x) <==> set@.contains(x) by {
            assert(set@.contains(x) <==> list@.contains(x));
        }
    }
    r
}

} // verus!

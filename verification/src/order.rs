//! Ascending lists without repetition, one for each set.

use std::collections::HashSet;
use vstd::prelude::*;

use crate::sets::elements;

verus! {

/// A type with a strict total order.
pub trait Ranked: Sized {
    /// `self` comes before `other`.
    spec fn precedes(self, other: Self) -> bool;

    proof fn lemma_total_order(a: Self, b: Self, c: Self)
        ensures
            !a.precedes(a),
            a.precedes(b) && b.precedes(c) ==> a.precedes(c),
            a.precedes(b) || b.precedes(a) || a == b,
    ;

    fn is_before(&self, other: &Self) -> (r: bool)
        ensures
            r == self.precedes(*other),
    ;

    fn copied(&self) -> (r: Self)
        ensures
            r == *self,
    ;
}

impl Ranked for u32 {
    open spec fn precedes(self, other: u32) -> bool {
        self < other
    }

    proof fn lemma_total_order(a: u32, b: u32, c: u32) {
    }

    fn copied(&self) -> (r: u32) {
        *self
    }

    fn is_before(&self, other: &u32) -> (r: bool) {
        *self < *other
    }
}

impl Ranked for usize {
    open spec fn precedes(self, other: usize) -> bool {
        self < other
    }

    proof fn lemma_total_order(a: usize, b: usize, c: usize) {
    }

    fn copied(&self) -> (r: usize) {
        *self
    }

    fn is_before(&self, other: &usize) -> (r: bool) {
        *self < *other
    }
}

impl Ranked for (usize, usize) {
    open spec fn precedes(self, other: (usize, usize)) -> bool {
        self.0 < other.0 || (self.0 == other.0 && self.1 < other.1)
    }

    proof fn lemma_total_order(a: (usize, usize), b: (usize, usize), c: (usize, usize)) {
    }

    fn copied(&self) -> (r: (usize, usize)) {
        *self
    }

    fn is_before(&self, other: &(usize, usize)) -> (r: bool) {
        self.0 < other.0 || (self.0 == other.0 && self.1 < other.1)
    }
}

/// The list `a` comes before the list `b` in the order of words.
pub open spec fn word_precedes<T: Ranked>(a: Seq<T>, b: Seq<T>) -> bool
    decreases a.len(),
{
    if b.len() == 0 {
        false
    } else if a.len() == 0 {
        true
    } else if a[0] == b[0] {
        word_precedes(a.drop_first(), b.drop_first())
    } else {
        a[0].precedes(b[0])
    }
}

/// The order of words is total.
pub proof fn lemma_words_total<T: Ranked>(a: Seq<T>, b: Seq<T>, c: Seq<T>)
    ensures
        !word_precedes(a, a),
        word_precedes(a, b) && word_precedes(b, c) ==> word_precedes(a, c),
        word_precedes(a, b) || word_precedes(b, a) || a == b,
    decreases a.len() + b.len() + c.len(),
{
    if a.len() > 0 {
        let rest = a.drop_first();
        lemma_words_total(
            rest,
            if b.len() > 0 {
                b.drop_first()
            } else {
                b
            },
            if c.len() > 0 {
                c.drop_first()
            } else {
                c
            },
        );
        lemma_irreflexive(a);
        if b.len() > 0 {
            T::lemma_total_order(a[0], b[0], a[0]);
            T::lemma_total_order(b[0], a[0], b[0]);
            if a[0] == b[0] && rest == b.drop_first() {
                assert(a =~= seq![a[0]] + rest);
                assert(b =~= seq![b[0]] + rest);
            }
            if c.len() > 0 {
                T::lemma_total_order(a[0], b[0], c[0]);
            }
        }
    } else {
        if b.len() == 0 {
            assert(a =~= b);
        }
    }
}

proof fn lemma_irreflexive<T: Ranked>(a: Seq<T>)
    ensures
        !word_precedes(a, a),
    decreases a.len(),
{
    if a.len() > 0 {
        lemma_irreflexive(a.drop_first());
    }
}

/// Whether the one list comes before the other in the order of words.
pub fn is_word_before<T: Ranked>(a: &Vec<T>, b: &Vec<T>) -> (r: bool)
    ensures
        r == word_precedes(a@, b@),
{
    let mut i: usize = 0;
    assert(a@.skip(0) =~= a@);
    assert(b@.skip(0) =~= b@);
    while i < a.len() && i < b.len()
        invariant
            i <= a@.len(),
            i <= b@.len(),
            word_precedes(a@, b@) == word_precedes(a@.skip(i as int), b@.skip(i as int)),
        decreases a@.len() - i,
    {
        proof {
            T::lemma_total_order(a@[i as int], b@[i as int], a@[i as int]);
            T::lemma_total_order(b@[i as int], a@[i as int], b@[i as int]);
            assert(a@.skip(i as int)[0] == a@[i as int]);
            assert(b@.skip(i as int)[0] == b@[i as int]);
            assert(a@.skip(i as int).drop_first() =~= a@.skip(i + 1));
            assert(b@.skip(i as int).drop_first() =~= b@.skip(i + 1));
        }
        if a[i].is_before(&b[i]) {
            return true;
        }
        if b[i].is_before(&a[i]) {
            return false;
        }
        i += 1;
    }
    i < b.len()
}

/// Every entry comes before all later ones.
pub open spec fn ascends<T: Ranked>(s: Seq<T>) -> bool {
    forall|i: int, j: int| 0 <= i < j < s.len() ==> (#[trigger] s[i]).precedes(#[trigger] s[j])
}

/// Two ascending lists of the same elements are equal.
pub proof fn lemma_ascending_unique<T: Ranked>(a: Seq<T>, b: Seq<T>)
    requires
        ascends(a),
        ascends(b),
        forall|x: T| #[trigger] a.contains(x) <==> b.contains(x),
    ensures
        a == b,
    decreases a.len(),
{
    if a.len() == 0 {
        if b.len() > 0 {
            assert(b.contains(b[0]));
            assert(a.contains(b[0]));
        }
        assert(a =~= b);
    } else {
        let x = a.last();
        assert(a.contains(a[a.len() - 1]));
        assert(b.contains(x));
        let y = b.last();
        assert(b.contains(b[b.len() - 1]));
        assert(a.contains(y));
        let i = choose|i: int| 0 <= i < a.len() && a[i] == y;
        let j = choose|j: int| 0 <= j < b.len() && b[j] == x;
        T::lemma_total_order(x, y, x);
        T::lemma_total_order(y, x, y);
        if x != y {
            assert(a[i].precedes(a[a.len() - 1]));
            assert(b[j].precedes(b[b.len() - 1]));
        }
        let a1 = a.drop_last();
        let b1 = b.drop_last();
        assert forall|z: T| #[trigger] a1.contains(z) <==> b1.contains(z) by {
            T::lemma_total_order(x, x, x);
            if a1.contains(z) {
                let k = choose|k: int| 0 <= k < a1.len() && a1[k] == z;
                assert(a[k] == z);
                assert(a[k].precedes(a[a.len() - 1]));
                assert(a.contains(z));
                assert(b.contains(z));
                let l = choose|l: int| 0 <= l < b.len() && b[l] == z;
                assert(l != b.len() - 1);
                assert(b1[l] == z);
            }
            if b1.contains(z) {
                let k = choose|k: int| 0 <= k < b1.len() && b1[k] == z;
                assert(b[k] == z);
                assert(b[k].precedes(b[b.len() - 1]));
                assert(b.contains(z));
                assert(a.contains(z));
                let l = choose|l: int| 0 <= l < a.len() && a[l] == z;
                assert(l != a.len() - 1);
                assert(a1[l] == z);
            }
        }
        lemma_ascending_unique(a1, b1);
        assert(a =~= a1.push(x));
        assert(b =~= b1.push(y));
    }
}

/// Puts `x` into its place, unless it is there already.
pub fn insert_ranked<T: Ranked>(v: &mut Vec<T>, x: T)
    requires
        ascends(old(v)@),
    ensures
        ascends(final(v)@),
        forall|y: T| #[trigger] final(v)@.contains(y) <==> old(v)@.contains(y) || y == x,
{
    let ghost start = v@;
    let mut i: usize = 0;
    while i < v.len() && v[i].is_before(&x)
        invariant
            v@ == start,
            i <= v@.len(),
            forall|k: int| 0 <= k < i ==> (#[trigger] v@[k]).precedes(x),
        decreases v@.len() - i,
    {
        i += 1;
    }
    if i < v.len() && !x.is_before(&v[i]) {
        proof {
            T::lemma_total_order(x, v@[i as int], x);
            assert(v@.contains(v@[i as int]));
        }
        return;
    }
    v.insert(i, x);
    proof {
        assert(v@ =~= start.insert(i as int, x));
        assert forall|k: int, l: int| 0 <= k < l < v@.len() implies (#[trigger] v@[k]).precedes(
            #[trigger] v@[l],
        ) by {
            if k < i && l < i {
                assert(start[k].precedes(start[l]));
            } else if k < i && l > i {
                assert(start[k].precedes(start[l - 1]));
            } else if k > i {
                assert(start[k - 1].precedes(start[l - 1]));
            } else if k == i {
                if l - 1 > i {
                    assert(start[i as int].precedes(start[l - 1]));
                    T::lemma_total_order(x, start[i as int], start[l - 1]);
                }
            }
        }
        assert forall|y: T| #[trigger] v@.contains(y) <==> start.contains(y) || y == x by {
            if start.contains(y) {
                let k = choose|k: int| 0 <= k < start.len() && start[k] == y;
                if k < i {
                    assert(v@[k] == y);
                } else {
                    assert(v@[k + 1] == y);
                }
            }
            assert(v@[i as int] == x);
            if v@.contains(y) && y != x {
                let k = choose|k: int| 0 <= k < v@.len() && v@[k] == y;
                if k < i {
                    assert(start[k] == y);
                } else {
                    assert(start[k - 1] == y);
                }
            }
        }
    }
}

/// The elements of the list, ascending and each once.
pub fn ascending<T: Ranked>(list: &Vec<T>) -> (v: Vec<T>)
    ensures
        ascends(v@),
        forall|x: T| #[trigger] v@.contains(x) <==> list@.contains(x),
{
    let mut v: Vec<T> = Vec::new();
    let mut i: usize = 0;
    while i < list.len()
        invariant
            i <= list@.len(),
            ascends(v@),
            forall|x: T| #[trigger] v@.contains(x) <==> list@.take(i as int).contains(x),
        decreases list@.len() - i,
    {
        let ghost done = list@.take(i as int);
        let y: T = list[i].copied();
        assert(list@.take(i + 1) =~= done.push(y));
        insert_ranked(&mut v, y);
        proof {
            assert forall|x: T| #[trigger] v@.contains(x) <==> done.push(y).contains(x) by {
                if done.contains(x) {
                    let k = choose|k: int| 0 <= k < done.len() && done[k] == x;
                    assert(done.push(y)[k] == x);
                }
                assert(done.push(y)[done.len() as int] == y);
                if done.push(y).contains(x) && x != y {
                    let k = choose|k: int| 0 <= k < done.push(y).len() && done.push(y)[k] == x;
                    assert(done[k] == x);
                }
            }
        }
        i += 1;
    }
    assert(list@.take(i as int) =~= list@);
    v
}

/// The facts of the set, ascending.
pub fn ascending_facts(s: &HashSet<u32>) -> (v: Vec<u32>)
    ensures
        ascends(v@),
        forall|f: u32| #[trigger] v@.contains(f) <==> s@.contains(f),
{
    let list: Vec<u32> = elements(s);
    ascending(&list)
}

} // verus!

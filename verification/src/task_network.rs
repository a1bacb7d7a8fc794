//! Tasks, methods and partially ordered task networks.

use std::collections::{BTreeSet, HashMap};
use std::rc::Rc;
use vstd::prelude::*;

use crate::domain::PrimitiveAction;
use crate::order::ascending;

verus! {

broadcast use {
    vstd::std_specs::hash::group_hash_axioms,
    vstd::std_specs::btree::group_btree_axioms,
};

/// One way to carry out a compound task.
pub struct Method {
    pub name: String,
    pub decomposition: HTN,
}

impl Method {
    pub fn new(name: String, decomposition: HTN) -> (method: Method)
        ensures
            method.name == name,
            method.decomposition == decomposition,
    {
        Method { name, decomposition }
    }
}

/// A task that its methods carry out.
pub struct CompoundTask {
    pub name: String,
    pub methods: Vec<Rc<Method>>,
}

pub enum Task {
    Primitive(PrimitiveAction),
    Compound(CompoundTask),
}

/// The tasks of a domain. A task is known by its position in the list.
pub struct DomainTasks {
    pub tasks: Vec<Rc<Task>>,
}

/// A network of tasks, some of which come before others.
pub struct HTN {
    pub domain: Rc<DomainTasks>,
    /// The identifiers of the nodes, ascending.
    pub nodes: Vec<usize>,
    /// The task of each node.
    pub tasks: Vec<usize>,
    /// The positions of two nodes of which the first comes before the second.
    pub order: Vec<(usize, usize)>,
}

/// What a network says once its nodes are known by their positions alone.
#[verifier::ext_equal]
pub struct Network {
    /// The task of each node.
    pub tasks: Seq<usize>,
    /// The positions of two nodes of which the first comes before the second.
    pub before: Set<(int, int)>,
}

impl Network {
    /// The number of nodes.
    pub open spec fn len(&self) -> nat {
        self.tasks.len()
    }

    /// No node comes before the node at `i`.
    pub open spec fn is_free(&self, i: int) -> bool {
        0 <= i < self.len() && forall|j: int| !#[trigger] self.before.contains((j, i))
    }

    /// The network without the node at `i`.
    pub open spec fn without(&self, i: int) -> Network {
        Network {
            tasks: self.tasks.remove(i),
            before: Set::new(
                |p: (int, int)|
                    0 <= p.0 < self.len() - 1 && 0 <= p.1 < self.len() - 1
                        && self.before.contains((up(p.0, i), up(p.1, i))),
            ),
        }
    }

    /// The network with the node at `i` replaced by the nodes of `sub`, which
    /// stand last. They come before and after what the node came before and
    /// after. Where `sub` has no nodes, what came before the node still comes
    /// before what came after it.
    pub open spec fn decomposed(&self, i: int, sub: Network) -> Network {
        let kept = self.len() - 1;
        Network {
            tasks: self.tasks.remove(i) + sub.tasks,
            before: Set::new(
                |p: (int, int)|
                    0 <= p.0 < kept + sub.len() && 0 <= p.1 < kept + sub.len()
                        && self.decomposed_before(i, sub, p.0, p.1),
            ),
        }
    }

    /// In the network with the node at `i` replaced by those of `sub`, the node
    /// at `x` comes before the one at `y`.
    pub open spec fn decomposed_before(&self, i: int, sub: Network, x: int, y: int) -> bool {
        let kept = self.len() - 1;
        if x < kept && y < kept {
            self.before.contains((up(x, i), up(y, i))) || (sub.len() == 0 && self.before.contains(
                (up(x, i), i),
            ) && self.before.contains((i, up(y, i))))
        } else if x < kept {
            self.before.contains((up(x, i), i))
        } else if y < kept {
            self.before.contains((i, up(y, i)))
        } else {
            sub.before.contains((x - kept, y - kept))
        }
    }
}

/// The position that the node at `x` had before the node at `i` went.
pub open spec fn up(x: int, i: int) -> int {
    if x < i {
        x
    } else {
        x + 1
    }
}

/// The view leaves out the identifiers and the domain; what speaks of those
/// names the fields.
impl View for HTN {
    type V = Network;

    open spec fn view(&self) -> Network {
        Network { tasks: self.tasks@, before: pairs(self.order@) }
    }
}

/// The pairs of the list, as a set.
pub open spec fn pairs(order: Seq<(usize, usize)>) -> Set<(int, int)> {
    Set::new(
        |p: (int, int)|
            exists|k: int|
                0 <= k < order.len() && (#[trigger] order[k]).0 == p.0 && order[k].1 == p.1,
    )
}

/// One more pair in the list is one more in the set.
pub proof fn lemma_pairs_push(order: Seq<(usize, usize)>, x: usize, y: usize)
    ensures
        pairs(order.push((x, y))) == pairs(order).insert((x as int, y as int)),
{
    let next = order.push((x, y));
    assert forall|p: (int, int)| pairs(next).contains(p) <==> pairs(order).insert(
        (x as int, y as int),
    ).contains(p) by {
        if pairs(order).contains(p) {
            let k = choose|k: int|
                0 <= k < order.len() && (#[trigger] order[k]).0 == p.0 && order[k].1 == p.1;
            assert(next[k].0 == p.0 && next[k].1 == p.1);
        }
        if p == (x as int, y as int) {
            assert(next[order.len() as int].0 == p.0 && next[order.len() as int].1 == p.1);
        }
        if pairs(next).contains(p) {
            let k = choose|k: int|
                0 <= k < next.len() && (#[trigger] next[k]).0 == p.0 && next[k].1 == p.1;
            if k < order.len() {
                assert(order[k].0 == p.0 && order[k].1 == p.1);
            }
        }
    }
    assert(pairs(next) =~= pairs(order).insert((x as int, y as int)));
}

impl HTN {
    /// The identifiers ascend, every node has a task, and the order is one of
    /// nodes of the network.
    pub open spec fn wf(&self) -> bool {
        &&& self.nodes@.len() == self.tasks@.len()
        &&& forall|i: int, j: int|
            0 <= i < j < self.nodes@.len() ==> #[trigger] self.nodes@[i] < #[trigger] self.nodes@[j]
        &&& forall|k: int|
            0 <= k < self.order@.len() ==> (#[trigger] self.order@[k]).0 < self.nodes@.len()
                && self.order@[k].1 < self.nodes@.len()
    }

    /// The tasks that the network draws on.
    pub open spec fn dom(&self) -> DomainTasks {
        *self.domain
    }

    /// The tasks of the nodes are among the first `n_tasks`.
    pub open spec fn uses(&self, n_tasks: nat) -> bool {
        forall|i: int| 0 <= i < self.tasks@.len() ==> #[trigger] self.tasks@[i] < n_tasks
    }

    pub fn is_empty(&self) -> (r: bool)
        ensures
            r == (self@.len() == 0),
            r <==> self.tasks@.len() == 0,
    {
        self.tasks.len() == 0
    }

    /// Whether no node comes before the node at `i`.
    pub fn is_unconstrained(&self, i: usize) -> (r: bool)
        requires
            i < self.tasks@.len(),
        ensures
            r == self@.is_free(i as int),
            r <==> forall|k: int|
                0 <= k < self.order@.len() ==> (#[trigger] self.order@[k]).1 != i,
    {
        let mut k: usize = 0;
        while k < self.order.len()
            invariant
                k <= self.order@.len(),
                forall|x: int| 0 <= x < k ==> (#[trigger] self.order@[x]).1 != i,
            decreases self.order@.len() - k,
        {
            if self.order[k].1 == i {
                proof {
                    let j = self.order@[k as int].0 as int;
                    assert(self@.before.contains((j, i as int)));
                }
                return false;
            }
            k += 1;
        }
        proof {
            assert forall|j: int| !#[trigger] self@.before.contains((j, i as int)) by {}
        }
        true
    }
}

/// The list without its entry at `i`.
fn without_entry(v: &Vec<usize>, i: usize) -> (r: Vec<usize>)
    requires
        i < v@.len(),
    ensures
        r@ == v@.remove(i as int),
{
    let mut r: Vec<usize> = Vec::new();
    let mut k: usize = 0;
    while k < v.len()
        invariant
            i < v@.len(),
            k <= v@.len(),
            r@ == (if k <= i {
                v@.take(k as int)
            } else {
                v@.take(k as int).remove(i as int)
            }),
        decreases v@.len() - k,
    {
        if k != i {
            r.push(v[k]);
        }
        proof {
            assert(v@.take(k + 1) =~= v@.take(k as int).push(v@[k as int]));
            if k > i {
                assert(v@.take(k + 1).remove(i as int) =~= v@.take(k as int).remove(
                    i as int,
                ).push(v@[k as int]));
            } else if k == i {
                assert(v@.take(k + 1).remove(i as int) =~= v@.take(k as int));
            }
        }
        k += 1;
    }
    assert(v@.take(k as int) =~= v@);
    r
}

/// The position of the node at `x` once the node at `i` is gone.
fn down(x: usize, i: usize) -> (r: usize)
    requires
        x != i,
    ensures
        up(r as int, i as int) == x,
        r <= x,
        x > i ==> r == x - 1,
        x < i ==> r == x,
{
    if x < i {
        x
    } else {
        x - 1
    }
}

impl HTN {
    /// The network without the node at `i`. The other nodes keep their identifiers.
    pub fn without_node(&self, i: usize) -> (r: HTN)
        requires
            self.wf(),
            i < self.tasks@.len(),
        ensures
            r.wf(),
            r@ == self@.without(i as int),
            r.domain == self.domain,
            r.nodes@ == self.nodes@.remove(i as int),
    {
        let nodes: Vec<usize> = without_entry(&self.nodes, i);
        let tasks: Vec<usize> = without_entry(&self.tasks, i);
        let mut order: Vec<(usize, usize)> = Vec::new();
        let ghost n = self.tasks@.len();
        let mut k: usize = 0;
        while k < self.order.len()
            invariant
                self.wf(),
                n == self.tasks@.len(),
                i < n,
                k <= self.order@.len(),
                forall|x: int|
                    0 <= x < order@.len() ==> (#[trigger] order@[x]).0 < n - 1 && order@[x].1 < n
                        - 1,
                forall|x: int, y: int|
                    0 <= x < n - 1 && 0 <= y < n - 1 ==> (#[trigger] pairs(order@).contains((x, y))
                        <==> pairs(self.order@.take(k as int)).contains(
                        (up(x, i as int), up(y, i as int)),
                    )),
            decreases self.order@.len() - k,
        {
            let (x, y): (usize, usize) = self.order[k];
            let ghost done = self.order@.take(k as int);
            let ghost before = order@;
            proof {
                assert(self.order@.take(k + 1) =~= done.push((x, y)));
                lemma_pairs_push(done, x, y);
            }
            if x != i && y != i {
                let x1: usize = down(x, i);
                let y1: usize = down(y, i);
                proof {
                    lemma_pairs_push(before, x1, y1);
                }
                order.push((x1, y1));
            }
            k += 1;
        }
        assert(self.order@.take(k as int) =~= self.order@);
        let r: HTN = HTN { domain: Rc::clone(&self.domain), nodes, tasks, order };
        proof {
            assert forall|p: (int, int)| r@.before.contains(p) <==> self@.without(
                i as int,
            ).before.contains(p) by {
                if pairs(r.order@).contains(p) {
                    let k = choose|k: int|
                        0 <= k < r.order@.len() && (#[trigger] r.order@[k]).0 == p.0
                            && r.order@[k].1 == p.1;
                    assert(p.0 < n - 1 && p.1 < n - 1);
                }
                if 0 <= p.0 < n - 1 && 0 <= p.1 < n - 1 {
                    assert(pairs(r.order@).contains((p.0, p.1)) <==> pairs(self.order@).contains(
                        (up(p.0, i as int), up(p.1, i as int)),
                    ));
                }
            }
            assert(r@.before =~= self@.without(i as int).before);
        }
        r
    }
}

/// All entries of the list are below `n`.
spec fn all_below(order: Seq<(usize, usize)>, n: int) -> bool {
    forall|k: int| 0 <= k < order.len() ==> (#[trigger] order[k]).0 < n && order[k].1 < n
}

/// Adds the pairs of `x` with every number from `lo` up to `hi`, `x` first or last.
fn push_all(order: &mut Vec<(usize, usize)>, x: usize, lo: usize, hi: usize, first: bool)
    requires
        lo <= hi,
        x < hi || lo == hi,
        all_below(old(order)@, hi as int),
    ensures
        all_below(final(order)@, hi as int),
        forall|p: (int, int)| #[trigger]
            pairs(final(order)@).contains(p) <==> pairs(old(order)@).contains(p) || (if first {
                p.0 == x && lo <= p.1 < hi
            } else {
                p.1 == x && lo <= p.0 < hi
            }),
{
    let ghost start = order@;
    let mut c: usize = lo;
    while c < hi
        invariant
            lo <= c <= hi,
            x < hi || lo == hi,
            all_below(order@, hi as int),
            forall|p: (int, int)| #[trigger]
                pairs(order@).contains(p) <==> pairs(start).contains(p) || (if first {
                    p.0 == x && lo <= p.1 < c
                } else {
                    p.1 == x && lo <= p.0 < c
                }),
        decreases hi - c,
    {
        if first {
            proof {
                lemma_pairs_push(order@, x, c);
            }
            order.push((x, c));
        } else {
            proof {
                lemma_pairs_push(order@, c, x);
            }
            order.push((c, x));
        }
        c += 1;
    }
}

/// The order that the pairs `given` leave when the node at `i` is replaced by
/// nodes that stand behind the first `kept`.
spec fn replaced(given: Set<(int, int)>, i: int, kept: int, x: int, y: int) -> bool {
    if x < kept && y < kept {
        given.contains((up(x, i), up(y, i)))
    } else if x < kept {
        given.contains((up(x, i), i))
    } else if y < kept {
        given.contains((i, up(y, i)))
    } else {
        false
    }
}

impl HTN {
    /// The order of the nodes that stay, and of the nodes up to `total` that
    /// take the place of the node at `i`, towards each other.
    fn replaced_order(&self, i: usize, total: usize) -> (order: Vec<(usize, usize)>)
        requires
            self.wf(),
            i < self.tasks@.len(),
            self.tasks@.len() - 1 <= total,
        ensures
            all_below(order@, total as int),
            forall|x: int, y: int|
                0 <= x < total && 0 <= y < total ==> (#[trigger] pairs(order@).contains((x, y))
                    <==> replaced(self@.before, i as int, self.tasks@.len() - 1, x, y)),
    {
        let kept: usize = self.tasks.len() - 1;
        let mut order: Vec<(usize, usize)> = Vec::new();
        let mut k: usize = 0;
        while k < self.order.len()
            invariant
                self.wf(),
                i < self.tasks@.len(),
                kept == self.tasks@.len() - 1,
                kept <= total,
                k <= self.order@.len(),
                all_below(order@, total as int),
                forall|x: int, y: int|
                    0 <= x < total && 0 <= y < total ==> (#[trigger] pairs(order@).contains((x, y))
                        <==> replaced(
                        pairs(self.order@.take(k as int)),
                        i as int,
                        kept as int,
                        x,
                        y,
                    )),
            decreases self.order@.len() - k,
        {
            let (x, y): (usize, usize) = self.order[k];
            let ghost done = self.order@.take(k as int);
            let ghost before = order@;
            proof {
                assert(self.order@.take(k + 1) =~= done.push((x, y)));
                lemma_pairs_push(done, x, y);
            }
            if x != i && y != i {
                let x1: usize = down(x, i);
                let y1: usize = down(y, i);
                proof {
                    lemma_pairs_push(before, x1, y1);
                }
                order.push((x1, y1));
            } else if x != i {
                let x1: usize = down(x, i);
                push_all(&mut order, x1, kept, total, true);
            } else if y != i {
                let y1: usize = down(y, i);
                push_all(&mut order, y1, kept, total, false);
            }
            k += 1;
        }
        assert(self.order@.take(k as int) =~= self.order@);
        order
    }
}

/// Adds the pairs of `sub` with both numbers raised by `kept`.
fn push_shifted(order: &mut Vec<(usize, usize)>, sub: &Vec<(usize, usize)>, kept: usize, total: usize)
    requires
        kept <= total,
        all_below(sub@, total - kept),
        all_below(old(order)@, total as int),
    ensures
        all_below(final(order)@, total as int),
        forall|x: int, y: int| #[trigger]
            pairs(final(order)@).contains((x, y)) <==> pairs(old(order)@).contains((x, y))
                || pairs(sub@).contains((x - kept, y - kept)),
{
    let ghost start = order@;
    let mut k: usize = 0;
    while k < sub.len()
        invariant
            k <= sub@.len(),
            kept <= total,
            all_below(sub@, total - kept),
            all_below(order@, total as int),
            forall|x: int, y: int| #[trigger]
                pairs(order@).contains((x, y)) <==> pairs(start).contains((x, y)) || pairs(
                    sub@.take(k as int),
                ).contains((x - kept, y - kept)),
        decreases sub@.len() - k,
    {
        let (x, y): (usize, usize) = sub[k];
        proof {
            assert(sub@.take(k + 1) =~= sub@.take(k as int).push((x, y)));
            lemma_pairs_push(sub@.take(k as int), x, y);
            lemma_pairs_push(order@, (kept + x) as usize, (kept + y) as usize);
        }
        order.push((kept + x, kept + y));
        k += 1;
    }
    assert(sub@.take(k as int) =~= sub@);
}

/// Adds the pairs of what comes before `i` with what comes after it, both at
/// the positions that they have once the node at `i` is gone.
fn push_bridges(order: &mut Vec<(usize, usize)>, given: &Vec<(usize, usize)>, i: usize, n: usize)
    requires
        i < n,
        all_below(given@, n as int),
        all_below(old(order)@, n - 1),
    ensures
        all_below(final(order)@, n - 1),
        forall|x: int, y: int|
            0 <= x < n - 1 && 0 <= y < n - 1 ==> (#[trigger] pairs(final(order)@).contains((x, y))
                <==> pairs(old(order)@).contains((x, y)) || (pairs(given@).contains(
                (up(x, i as int), i as int),
            ) && pairs(given@).contains((i as int, up(y, i as int))))),
{
    let ghost start = order@;
    let mut k: usize = 0;
    while k < given.len()
        invariant
            i < n,
            k <= given@.len(),
            all_below(given@, n as int),
            all_below(order@, n - 1),
            forall|x: int, y: int|
                0 <= x < n - 1 && 0 <= y < n - 1 ==> (#[trigger] pairs(order@).contains((x, y))
                    <==> pairs(start).contains((x, y)) || (pairs(given@.take(k as int)).contains(
                    (up(x, i as int), i as int),
                ) && pairs(given@).contains((i as int, up(y, i as int))))),
        decreases given@.len() - k,
    {
        let (x, y): (usize, usize) = given[k];
        let ghost done = given@.take(k as int);
        proof {
            assert(given@.take(k + 1) =~= done.push((x, y)));
            lemma_pairs_push(done, x, y);
        }
        if y == i && x != i {
            let x1: usize = down(x, i);
            let ghost outer = order@;
            let mut l: usize = 0;
            while l < given.len()
                invariant
                    i < n,
                    x1 < n - 1,
                    l <= given@.len(),
                    all_below(given@, n as int),
                    all_below(order@, n - 1),
                    forall|u: int, v: int|
                        0 <= u < n - 1 && 0 <= v < n - 1 ==> (#[trigger] pairs(order@).contains(
                            (u, v),
                        ) <==> pairs(outer).contains((u, v)) || (u == x1 && pairs(
                            given@.take(l as int),
                        ).contains((i as int, up(v, i as int))))),
                decreases given@.len() - l,
            {
                let (z, w): (usize, usize) = given[l];
                proof {
                    assert(given@.take(l + 1) =~= given@.take(l as int).push((z, w)));
                    lemma_pairs_push(given@.take(l as int), z, w);
                }
                if z == i && w != i {
                    let w1: usize = down(w, i);
                    proof {
                        lemma_pairs_push(order@, x1, w1);
                    }
                    order.push((x1, w1));
                }
                l += 1;
            }
            assert(given@.take(l as int) =~= given@);
        }
        k += 1;
    }
    assert(given@.take(k as int) =~= given@);
}

/// The identifiers once the node at `i` is replaced by `m` new ones: the others
/// keep theirs, and the new ones go on from the greatest. Where there are not as
/// many left, the nodes are numbered anew.
pub open spec fn replaced_ids(nodes: Seq<usize>, i: int, m: nat) -> Seq<usize> {
    if nodes.last() + m <= usize::MAX {
        nodes.remove(i) + Seq::new(m, |k: int| (nodes.last() + 1 + k) as usize)
    } else {
        Seq::new((nodes.len() - 1 + m) as nat, |k: int| k as usize)
    }
}

/// The identifiers once the node at `i` is replaced by `m` new ones.
fn replace_ids(nodes: &Vec<usize>, i: usize, m: usize) -> (r: Vec<usize>)
    requires
        i < nodes@.len(),
        nodes@.len() - 1 + m <= usize::MAX,
        forall|x: int, y: int| 0 <= x < y < nodes@.len() ==> #[trigger] nodes@[x] < #[trigger] nodes@[y],
    ensures
        r@ == replaced_ids(nodes@, i as int, m as nat),
        r@.len() == nodes@.len() - 1 + m,
        forall|x: int, y: int| 0 <= x < y < r@.len() ==> #[trigger] r@[x] < #[trigger] r@[y],
{
    let last: usize = nodes[nodes.len() - 1];
    if m <= usize::MAX - last {
        let mut r: Vec<usize> = without_entry(nodes, i);
        let ghost kept = r@;
        let mut k: usize = 0;
        while k < m
            invariant
                k <= m,
                m <= usize::MAX - last,
                last == nodes@.last(),
                r@ == kept + Seq::new(k as nat, |x: int| (nodes@.last() + 1 + x) as usize),
            decreases m - k,
        {
            let ghost before = r@;
            r.push(last + 1 + k);
            assert(r@ =~= kept + Seq::new(
                (k + 1) as nat,
                |x: int| (nodes@.last() + 1 + x) as usize,
            ));
            k += 1;
        }
        proof {
            assert forall|x: int, y: int| 0 <= x < y < r@.len() implies #[trigger] r@[x]
                < #[trigger] r@[y] by {
                if x < kept.len() {
                    let ox = if x < i {
                        x
                    } else {
                        x + 1
                    };
                    assert(r@[x] == nodes@[ox]);
                    assert(nodes@[ox] <= nodes@[nodes@.len() - 1]);
                }
                if y < kept.len() {
                    let oy = if y < i {
                        y
                    } else {
                        y + 1
                    };
                    assert(r@[y] == nodes@[oy]);
                }
            }
        }
        r
    } else {
        let total: usize = nodes.len() - 1 + m;
        let mut r: Vec<usize> = Vec::new();
        let mut k: usize = 0;
        while k < total
            invariant
                k <= total,
                r@.len() == k,
                forall|x: int| 0 <= x < k ==> #[trigger] r@[x] == x,
            decreases total - k,
        {
            r.push(k);
            k += 1;
        }
        assert(r@ =~= replaced_ids(nodes@, i as int, m as nat));
        r
    }
}

impl HTN {
    /// The network with the node at `i` replaced by the nodes of `sub`, which
    /// stand last and have new identifiers.
    pub fn decompose(&self, i: usize, sub: &HTN) -> (r: HTN)
        requires
            self.wf(),
            sub.wf(),
            i < self.tasks@.len(),
        ensures
            r.wf(),
            r@ == self@.decomposed(i as int, sub@),
            r.domain == self.domain,
            r.nodes@ == replaced_ids(self.nodes@, i as int, sub.nodes@.len()),
    {
        let n: usize = self.tasks.len();
        let kept: usize = n - 1;
        let mut tasks: Vec<usize> = without_entry(&self.tasks, i);
        let mut k: usize = 0;
        while k < sub.tasks.len()
            invariant
                k <= sub.tasks@.len(),
                tasks@ == self.tasks@.remove(i as int) + sub.tasks@.take(k as int),
            decreases sub.tasks@.len() - k,
        {
            tasks.push(sub.tasks[k]);
            assert(sub.tasks@.take(k + 1) =~= sub.tasks@.take(k as int).push(sub.tasks@[k as int]));
            k += 1;
        }
        assert(sub.tasks@.take(k as int) =~= sub.tasks@);
        let total: usize = tasks.len();
        let nodes: Vec<usize> = replace_ids(&self.nodes, i, sub.tasks.len());
        let mut order: Vec<(usize, usize)> = self.replaced_order(i, total);
        let ghost order1 = order@;
        if sub.tasks.len() == 0 {
            push_bridges(&mut order, &self.order, i, n);
        } else {
            push_shifted(&mut order, &sub.order, kept, total);
        }
        let r: HTN = HTN { domain: Rc::clone(&self.domain), nodes, tasks, order };
        proof {
            let goal = self@.decomposed(i as int, sub@).before;
            assert forall|p: (int, int)| r@.before.contains(p) <==> goal.contains(p) by {
                if pairs(r.order@).contains(p) {
                    let k = choose|k: int|
                        0 <= k < r.order@.len() && (#[trigger] r.order@[k]).0 == p.0
                            && r.order@[k].1 == p.1;
                    assert(p.0 < total && p.1 < total);
                }
                if 0 <= p.0 < total && 0 <= p.1 < total {
                    let (x, y) = p;
                    assert(pairs(order1).contains((x, y)) <==> replaced(
                        self@.before,
                        i as int,
                        kept as int,
                        x,
                        y,
                    ));
                    assert(pairs(r.order@).contains((x, y)) == r@.before.contains(p));
                    if sub.tasks@.len() > 0 {
                        if pairs(sub.order@).contains((x - kept, y - kept)) {
                            let k = choose|k: int|
                                0 <= k < sub.order@.len() && (#[trigger] sub.order@[k]).0 == x
                                    - kept && sub.order@[k].1 == y - kept;
                            assert(x >= kept && y >= kept);
                        }
                    }
                }
            }
            assert(r@.before =~= goal);
        }
        r
    }
}

/// The elements of the set.
fn members(s: &BTreeSet<usize>) -> (v: Vec<usize>)
    ensures
        forall|x: usize| s@.contains(x) <==> #[trigger] v@.contains(x),
{
    let mut v: Vec<usize> = Vec::new();
    for x in it: s.iter()
        invariant
            it.seq() == vstd::std_specs::iter::IteratorSpec::remaining(&s.iter()),
            v@ == it.seq().unref().take(it.index()),
    {
        v.push(*x);
    }
    proof {
        let r = vstd::std_specs::iter::IteratorSpec::remaining(&s.iter());
        assert(v@ =~= r.unref());
        assert forall|x: usize| s@.contains(x) <==> #[trigger] v@.contains(x) by {
            assert(v@.to_set().contains(x) <==> v@.contains(x));
        }
    }
    v
}

/// The position of `x` in the list.
fn position_of(v: &Vec<usize>, x: usize) -> (i: usize)
    requires
        v@.contains(x),
    ensures
        i < v@.len(),
        v@[i as int] == x,
{
    let mut i: usize = 0;
    while v[i] != x
        invariant
            v@.contains(x),
            i < v@.len(),
            forall|k: int| 0 <= k < i ==> #[trigger] v@[k] != x,
        decreases v@.len() - i,
    {
        proof {
            let k = choose|k: int| 0 <= k < v@.len() && v@[k] == x;
            assert(i < k < v.len());
        }
        i += 1;
    }
    i
}

impl HTN {
    /// The network of the given nodes, orderings between them and their tasks.
    pub fn new(
        nodes: BTreeSet<usize>,
        orderings: Vec<(usize, usize)>,
        domain: Rc<DomainTasks>,
        mappings: HashMap<usize, usize>,
    ) -> (r: HTN)
        requires
            nodes@.subset_of(mappings@.dom()),
            forall|k: int|
                0 <= k < orderings@.len() ==> nodes@.contains((#[trigger] orderings@[k]).0)
                    && nodes@.contains(orderings@[k].1),
        ensures
            r.wf(),
            r.domain == domain,
            forall|x: usize| #[trigger] r.nodes@.contains(x) <==> nodes@.contains(x),
            forall|i: int|
                0 <= i < r.nodes@.len() ==> #[trigger] r.tasks@[i] == mappings@[r.nodes@[i]],
            r.order@.len() == orderings@.len(),
            forall|k: int|
                0 <= k < r.order@.len() ==> r.nodes@[(#[trigger] r.order@[k]).0 as int]
                    == orderings@[k].0 && r.nodes@[r.order@[k].1 as int] == orderings@[k].1,
    {
        let ids: Vec<usize> = ascending(&members(&nodes));
        let mut tasks: Vec<usize> = Vec::new();
        let mut i: usize = 0;
        while i < ids.len()
            invariant
                i <= ids@.len(),
                tasks@.len() == i,
                nodes@.subset_of(mappings@.dom()),
                forall|x: usize| #[trigger] ids@.contains(x) <==> nodes@.contains(x),
                forall|k: int| 0 <= k < i ==> #[trigger] tasks@[k] == mappings@[ids@[k]],
            decreases ids@.len() - i,
        {
            assert(ids@.contains(ids@[i as int]));
            let task: usize = match mappings.get(&ids[i]) {
                Some(task) => *task,
                None => 0,
            };
            tasks.push(task);
            i += 1;
        }
        let mut order: Vec<(usize, usize)> = Vec::new();
        let mut k: usize = 0;
        while k < orderings.len()
            invariant
                k <= orderings@.len(),
                order@.len() == k,
                forall|x: usize| #[trigger] ids@.contains(x) <==> nodes@.contains(x),
                forall|x: int|
                    0 <= x < orderings@.len() ==> nodes@.contains((#[trigger] orderings@[x]).0)
                        && nodes@.contains(orderings@[x].1),
                forall|x: int|
                    0 <= x < k ==> {
                        &&& (#[trigger] order@[x]).0 < ids@.len()
                        &&& order@[x].1 < ids@.len()
                        &&& ids@[order@[x].0 as int] == orderings@[x].0
                        &&& ids@[order@[x].1 as int] == orderings@[x].1
                    },
            decreases orderings@.len() - k,
        {
            let (x, y): (usize, usize) = orderings[k];
            assert(ids@.contains(x) && ids@.contains(y)) by {
                assert(orderings@[k as int] == (x, y));
            }
            order.push((position_of(&ids, x), position_of(&ids, y)));
            k += 1;
        }
        HTN { domain, nodes: ids, tasks, order }
    }
}

impl DomainTasks {
    /// The number of tasks.
    pub open spec fn n_tasks(&self) -> nat {
        self.tasks@.len()
    }

    /// The methods lead to networks of tasks of this domain.
    pub open spec fn wf(&self) -> bool {
        forall|t: int| 0 <= t < self.n_tasks() ==> self.task_wf(#[trigger] self.tasks@[t])
    }

    pub open spec fn task_wf(&self, task: Rc<Task>) -> bool {
        match *task {
            Task::Primitive(action) => true,
            Task::Compound(compound) => forall|m: int|
                0 <= m < compound.methods@.len() ==> {
                    let sub = (#[trigger] compound.methods@[m]).decomposition;
                    sub.wf() && sub.uses(self.n_tasks())
                },
        }
    }

    pub fn new(tasks: Vec<Task>) -> (r: DomainTasks)
        ensures
            r.n_tasks() == tasks@.len(),
            r.tasks@.len() == tasks@.len(),
            forall|t: int| 0 <= t < tasks@.len() ==> *(#[trigger] r.tasks@[t]) == tasks@[t],
    {
        let mut rest: Vec<Task> = tasks;
        let mut shared: Vec<Rc<Task>> = Vec::new();
        while rest.len() > 0
            invariant
                rest@.len() + shared@.len() == tasks@.len(),
                rest@ == tasks@.take(rest@.len() as int),
                forall|k: int|
                    0 <= k < shared@.len() ==> *(#[trigger] shared@[k]) == tasks@[rest@.len() + k],
            decreases rest@.len(),
        {
            let ghost before = shared@;
            let task: Task = match rest.pop() {
                Some(task) => task,
                None => {
                    return DomainTasks { tasks: shared };
                },
            };
            shared.insert(0, Rc::new(task));
            proof {
                assert(shared@ =~= before.insert(0, Rc::new(task)));
                assert forall|k: int| 0 <= k < shared@.len() implies *(#[trigger] shared@[k])
                    == tasks@[rest@.len() + k] by {
                    if k > 0 {
                        assert(shared@[k] == before[k - 1]);
                    }
                }
            }
        }
        DomainTasks { tasks: shared }
    }
}

/// The methods, followed by those of `added` that are for the task `t`.
pub open spec fn with_added(
    methods: Seq<Rc<Method>>,
    added: Seq<(usize, Method)>,
    t: int,
) -> Seq<Rc<Method>>
    decreases added.len(),
{
    if added.len() == 0 {
        methods
    } else {
        let rest = with_added(methods, added.drop_last(), t);
        if added.last().0 == t {
            rest.push(Rc::new(added.last().1))
        } else {
            rest
        }
    }
}

/// `after` is the task `before`, at the position `t`, with the methods that are
/// added for it.
pub open spec fn is_extended(
    before: Task,
    after: Task,
    added: Seq<(usize, Method)>,
    t: int,
) -> bool {
    match (before, after) {
        (Task::Compound(b), Task::Compound(a)) => a.name@ == b.name@ && a.methods@ == with_added(
            b.methods@,
            added,
            t,
        ),
        (Task::Primitive(b), Task::Primitive(a)) => a == b,
        _ => false,
    }
}

impl Task {
    /// The task with one more method, where it is compound.
    fn with_method(task: &Rc<Task>, method: Rc<Method>) -> (r: Rc<Task>)
        ensures
            match (**task, *r) {
                (Task::Compound(before), Task::Compound(after)) => {
                    after.name@ == before.name@ && after.methods@ == before.methods@.push(method)
                },
                (Task::Primitive(before), Task::Primitive(after)) => before == after,
                _ => false,
            },
    {
        match &**task {
            Task::Primitive(action) => Rc::clone(task),
            Task::Compound(compound) => {
                let mut methods: Vec<Rc<Method>> = Vec::new();
                let mut m: usize = 0;
                while m < compound.methods.len()
                    invariant
                        m <= compound.methods@.len(),
                        methods@ == compound.methods@.take(m as int),
                    decreases compound.methods@.len() - m,
                {
                    methods.push(Rc::clone(&compound.methods[m]));
                    assert(compound.methods@.take(m + 1) =~= compound.methods@.take(m as int).push(
                        compound.methods@[m as int],
                    ));
                    m += 1;
                }
                assert(compound.methods@.take(m as int) =~= compound.methods@);
                methods.push(method);
                Rc::new(Task::Compound(CompoundTask { name: compound.name.clone(), methods }))
            },
        }
    }
}

/// Methods that are all well-formed stay so when well-formed ones are added.
proof fn lemma_with_added_wf(
    methods: Seq<Rc<Method>>,
    added: Seq<(usize, Method)>,
    t: int,
    n_tasks: nat,
)
    requires
        forall|m: int|
            0 <= m < methods.len() ==> (#[trigger] methods[m]).decomposition.wf()
                && methods[m].decomposition.uses(n_tasks),
        forall|k: int|
            0 <= k < added.len() ==> (#[trigger] added[k]).1.decomposition.wf()
                && added[k].1.decomposition.uses(n_tasks),
    ensures
        forall|m: int|
            0 <= m < with_added(methods, added, t).len() ==> (#[trigger] with_added(
                methods,
                added,
                t,
            )[m]).decomposition.wf() && with_added(methods, added, t)[m].decomposition.uses(
                n_tasks,
            ),
    decreases added.len(),
{
    if added.len() > 0 {
        assert forall|k: int| 0 <= k < added.drop_last().len() implies (
        #[trigger] added.drop_last()[k]).1.decomposition.wf()
            && added.drop_last()[k].1.decomposition.uses(n_tasks) by {
            assert(added[k] == added.drop_last()[k]);
        }
        lemma_with_added_wf(methods, added.drop_last(), t, n_tasks);
        let rest = with_added(methods, added.drop_last(), t);
        let all = with_added(methods, added, t);
        assert forall|m: int| 0 <= m < all.len() implies (
        #[trigger] all[m]).decomposition.wf() && all[m].decomposition.uses(n_tasks) by {
            if m < rest.len() {
                assert(all[m] == rest[m]);
            } else {
                assert(added[added.len() - 1] == added.last());
                assert(*all[m] == added.last().1);
            }
        }
    }
}

impl DomainTasks {
    /// The domain in which the compound tasks have more methods.
    pub fn add_methods(&self, methods: Vec<(usize, Method)>) -> (r: Rc<DomainTasks>)
        requires
            forall|k: int|
                0 <= k < methods@.len() ==> (#[trigger] methods@[k]).0 < self.n_tasks()
                    && *self.tasks@[methods@[k].0 as int] is Compound,
        ensures
            r.n_tasks() == self.n_tasks(),
            forall|t: int|
                0 <= t < self.n_tasks() ==> is_extended(
                    *self.tasks@[t],
                    *(#[trigger] r.tasks@[t]),
                    methods@,
                    t,
                ),
            self.wf() && (forall|k: int|
                0 <= k < methods@.len() ==> (#[trigger] methods@[k]).1.decomposition.wf()
                    && methods@[k].1.decomposition.uses(self.n_tasks())) ==> r.wf(),
    {
        let mut tasks: Vec<Rc<Task>> = Vec::new();
        let mut t: usize = 0;
        while t < self.tasks.len()
            invariant
                t <= self.tasks@.len(),
                tasks@ == self.tasks@.take(t as int),
            decreases self.tasks@.len() - t,
        {
            tasks.push(Rc::clone(&self.tasks[t]));
            assert(self.tasks@.take(t + 1) =~= self.tasks@.take(t as int).push(
                self.tasks@[t as int],
            ));
            t += 1;
        }
        assert(self.tasks@.take(t as int) =~= self.tasks@);
        let mut rest: Vec<(usize, Method)> = methods;
        let ghost mut done: int = 0;
        assert(methods@.take(0) =~= Seq::empty());
        while rest.len() > 0
            invariant
                0 <= done <= methods@.len(),
                rest@ == methods@.skip(done),
                tasks@.len() == self.n_tasks(),
                forall|k: int|
                    0 <= k < methods@.len() ==> (#[trigger] methods@[k]).0 < self.n_tasks()
                        && *self.tasks@[methods@[k].0 as int] is Compound,
                forall|t: int|
                    0 <= t < self.n_tasks() ==> is_extended(
                        *self.tasks@[t],
                        *(#[trigger] tasks@[t]),
                        methods@.take(done),
                        t,
                    ),
            decreases rest@.len(),
        {
            let ghost before = tasks@;
            let (at, method): (usize, Method) = rest.remove(0);
            proof {
                assert(methods@[done] == (at, method));
                assert(methods@.take(done + 1) =~= methods@.take(done).push((at, method)));
                assert(methods@.take(done + 1).drop_last() =~= methods@.take(done));
            }
            let extended: Rc<Task> = Task::with_method(&tasks[at], Rc::new(method));
            tasks.set(at, extended);
            proof {
                assert forall|t: int| 0 <= t < self.n_tasks() implies is_extended(
                    *self.tasks@[t],
                    *(#[trigger] tasks@[t]),
                    methods@.take(done + 1),
                    t,
                ) by {
                    assert(is_extended(*self.tasks@[t], *before[t], methods@.take(done), t));
                }
                done = done + 1;
            }
        }
        assert(methods@.take(done) =~= methods@);
        let r: Rc<DomainTasks> = Rc::new(DomainTasks { tasks });
        proof {
            if self.wf() && (forall|k: int|
                0 <= k < methods@.len() ==> (#[trigger] methods@[k]).1.decomposition.wf()
                    && methods@[k].1.decomposition.uses(self.n_tasks())) {
                assert forall|t: int| 0 <= t < r.n_tasks() implies r.task_wf(
                    #[trigger] r.tasks@[t],
                ) by {
                    assert(is_extended(*self.tasks@[t], *r.tasks@[t], methods@, t));
                    assert(self.task_wf(self.tasks@[t]));
                    if let Task::Compound(b) = *self.tasks@[t] {
                        lemma_with_added_wf(b.methods@, methods@, t, self.n_tasks());
                    }
                }
            }
        }
        r
    }
}

impl HTN {
    /// The same network.
    pub fn duplicate(&self) -> (r: HTN)
        ensures
            r@ == self@,
            r.domain == self.domain,
            r.nodes@ == self.nodes@,
            r.tasks@ == self.tasks@,
            r.order@ == self.order@,
    {
        let nodes: Vec<usize> = self.nodes.clone();
        let tasks: Vec<usize> = self.tasks.clone();
        assert(nodes@ =~= self.nodes@);
        assert(tasks@ =~= self.tasks@);
        let mut order: Vec<(usize, usize)> = Vec::new();
        let mut k: usize = 0;
        while k < self.order.len()
            invariant
                k <= self.order@.len(),
                order@ == self.order@.take(k as int),
            decreases self.order@.len() - k,
        {
            order.push(self.order[k]);
            assert(self.order@.take(k + 1) =~= self.order@.take(k as int).push(
                self.order@[k as int],
            ));
            k += 1;
        }
        assert(self.order@.take(k as int) =~= self.order@);
        HTN { domain: Rc::clone(&self.domain), nodes, tasks, order }
    }
}

} // verus!

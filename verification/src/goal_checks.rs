//! What a path of the search through task networks is worth: the task network
//! of its actions without the order that only the path gives them.

use std::collections::{BTreeSet, HashMap};
use std::rc::Rc;
use vstd::prelude::*;

use crate::andstar::{SearchResult, StrongPolicy};
use crate::domain::Facts;
use crate::problem::FONDProblem;
use crate::sets::copy_set;
use crate::task_network::{DomainTasks, Task, HTN};

verus! {

broadcast use {
    vstd::std_specs::hash::group_hash_axioms,
    vstd::std_specs::btree::group_btree_axioms,
};

/// A task of a method: an action of the network under construction, or a
/// compound task, known by the number of the step that decomposes it.
pub enum TaggedTask {
    Primitive(usize),
    Compound(usize),
}

/// One step of a path: the execution of a node, or its decomposition by a method.
pub struct Edge {
    pub task_id: usize,
    pub method_name: Option<String>,
}

/// A path through task networks, from its end to its start. The edge at `k`
/// leads from the network at `k + 1` to the one at `k`.
pub struct SearchPath {
    pub tns: Vec<HTN>,
    pub edges: Vec<Edge>,
    /// Whether the end of the path was tested for being a goal.
    pub goal_tested: bool,
}

impl SearchPath {
    /// The network that the step `k` starts from.
    pub open spec fn parent(&self, k: int) -> HTN {
        self.tns@[k + 1]
    }

    /// The network that the step `k` leads to.
    pub open spec fn child(&self, k: int) -> HTN {
        self.tns@[k]
    }

    /// The node that the step `k` is about.
    pub open spec fn id(&self, k: int) -> usize {
        self.edges@[k].task_id
    }

    /// The step `k` executes an action.
    pub open spec fn is_action(&self, k: int) -> bool {
        self.edges@[k].method_name is None
    }

    /// The method of the step `k` brings in the node `x`.
    pub open spec fn brings(&self, k: int, x: usize) -> bool {
        self.child(k).nodes@.contains(x) && !self.parent(k).nodes@.contains(x)
    }

    /// The node of the step `k` comes before the node `x` where it is executed.
    pub open spec fn leads(&self, k: int, x: usize) -> bool {
        self.parent(k).comes_before(self.id(k), x)
    }

    /// The step `j` is the nearest one after the step `k` that is about its node.
    /// Steps are counted from the end.
    pub open spec fn is_nearest(&self, k: int, j: int) -> bool {
        0 <= j < k && forall|i: int| j < i < k ==> #[trigger] self.id(i) != self.id(j)
    }

    /// The nearest later step about the node `x` of the network executes it
    /// exactly where it is an action.
    pub open spec fn is_handled(&self, k: int, tn: HTN, x: usize) -> bool {
        exists|j: int| #[trigger]
            self.is_nearest(k, j) && self.id(j) == x && (self.is_action(j) <==> tn.is_action_node(
                x,
            ))
    }

    /// The path can be followed: every step is about a node of the network that
    /// it starts from, and whatever a method brings in or an action comes before
    /// is the matter of a later step.
    #[verifier::opaque]
    pub open spec fn wf(&self) -> bool {
        &&& self.tns@.len() == self.edges@.len() + 1
        &&& forall|k: int|
            0 <= k < self.tns@.len() ==> (#[trigger] self.tns@[k]).wf() && self.tns@[k].uses(
                self.tns@[k].dom().n_tasks(),
            ) && self.tns@[k].domain == self.tns@[0].domain
        &&& forall|k: int|
            0 <= k < self.edges@.len() ==> self.parent(k).nodes@.contains(#[trigger] self.id(k))
        &&& forall|k: int, x: usize|
            0 <= k < self.edges@.len() && !self.is_action(k) && #[trigger] self.brings(k, x)
                ==> self.is_handled(k, self.child(k), x)
        &&& forall|k: int, x: usize|
            0 <= k < self.edges@.len() && self.is_action(k) && #[trigger] self.leads(k, x)
                ==> self.is_handled(k, self.parent(k), x)
    }

    /// The number of actions among the first `k` steps.
    pub open spec fn actions_before(&self, k: int) -> nat
        decreases k,
    {
        if k <= 0 {
            0
        } else {
            self.actions_before(k - 1) + if self.is_action(k - 1) {
                1nat
            } else {
                0nat
            }
        }
    }

    /// The action numbered `b` is what the step `k` executes, or what comes of
    /// its method.
    pub open spec fn yields(&self, k: int, b: int) -> bool
        decreases k,
    {
        if k < 0 {
            false
        } else if self.is_action(k) {
            b == self.actions_before(k)
        } else {
            exists|j: int|
                0 <= j < k && #[trigger] self.is_nearest(k, j) && self.brings(k, self.id(j))
                    && self.yields(j, b)
        }
    }

    /// Where the action of the step `k` is executed, it comes before a node of
    /// which the action numbered `b` comes.
    pub open spec fn orders(&self, k: int, b: int) -> bool {
        exists|j: int| #[trigger]
            self.is_nearest(k, j) && self.leads(k, self.id(j)) && self.yields(j, b)
    }

    /// The action numbered `a` comes before the one numbered `b`.
    pub open spec fn is_ordered(&self, a: int, b: int) -> bool {
        exists|k: int|
            0 <= k < self.edges@.len() && #[trigger] self.is_action(k) && self.actions_before(k)
                == a && self.orders(k, b)
    }
}

impl HTN {
    /// The node `x` has the position `i`.
    pub open spec fn is_at(&self, x: usize, i: int) -> bool {
        0 <= i < self.nodes@.len() && self.nodes@[i] == x
    }

    /// The node `x` comes right before the node `y`.
    pub open spec fn comes_before(&self, x: usize, y: usize) -> bool {
        exists|k: int|
            0 <= k < self.order@.len() && self.is_at(x, (#[trigger] self.order@[k]).0 as int)
                && self.is_at(y, self.order@[k].1 as int)
    }

    /// The task of the node `x`.
    pub open spec fn task_of(&self, x: usize) -> usize {
        self.tasks@[choose|i: int| self.is_at(x, i)]
    }

    /// The task of the node `x` is an action.
    pub open spec fn is_action_node(&self, x: usize) -> bool {
        exists|i: int| #[trigger]
            self.is_at(x, i) && *self.domain.tasks@[self.tasks@[i] as int] is Primitive
    }
}

impl SearchPath {
    /// How the step `i` is noted as a task of a method.
    spec fn tag(&self, i: int) -> TaggedTask {
        if self.is_action(i) {
            TaggedTask::Primitive(self.actions_before(i) as usize)
        } else {
            TaggedTask::Compound(i as usize)
        }
    }

    /// The note is one of a step that the method of the step `j` brings in.
    spec fn is_note(&self, j: int, e: TaggedTask) -> bool {
        exists|i: int| #[trigger]
            self.is_nearest(j, i) && self.brings(j, self.id(i)) && e == self.tag(i)
    }

    /// The list notes the steps that the method of the step `j` brings in.
    spec fn are_notes(&self, j: int, list: Seq<TaggedTask>) -> bool {
        &&& forall|m: int| 0 <= m < list.len() ==> self.is_note(j, #[trigger] list[m])
        &&& forall|i: int| #[trigger]
            self.is_nearest(j, i) && self.brings(j, self.id(i)) ==> list.contains(self.tag(i))
    }

    /// The numbers of the actions that are nearest after the step `k`.
    spec fn ids_ok(&self, k: int, ids: Map<usize, usize>) -> bool {
        forall|j: int| #[trigger]
            self.is_nearest(k, j) && self.is_action(j) ==> ids.contains_key(self.id(j))
                && ids[self.id(j)] == self.actions_before(j)
    }

    /// The steps that are nearest after the step `k`, by their nodes.
    spec fn steps_ok(&self, k: int, steps: Map<usize, usize>) -> bool {
        forall|j: int| #[trigger]
            self.is_nearest(k, j) ==> steps.contains_key(self.id(j)) && steps[self.id(j)] == j
    }

    /// The methods among the first `k` steps.
    spec fn methods_ok(&self, k: int, methods: Map<usize, Vec<TaggedTask>>) -> bool {
        forall|j: int|
            0 <= j < k && !#[trigger] self.is_action(j) ==> methods.contains_key(j as usize)
                && self.are_notes(j, methods[j as usize]@)
    }

    /// What is nearest after a step and not the next one is nearest after that.
    proof fn lemma_nearest_before(&self, k: int, j: int)
        requires
            self.is_nearest(k + 1, j),
            j < k,
        ensures
            self.is_nearest(k, j),
            self.id(j) != self.id(k),
    {
        assert(self.id(k) != self.id(j));
    }

    /// There is one nearest later step about a node.
    proof fn lemma_one_nearest(&self, k: int, i: int, j: int)
        requires
            self.is_nearest(k, i),
            self.is_nearest(k, j),
            self.id(i) == self.id(j),
        ensures
            i == j,
    {
        if i < j {
            assert(self.id(j) != self.id(i));
        } else if j < i {
            assert(self.id(i) != self.id(j));
        }
    }

    /// What holds of the networks.
    proof fn lemma_networks(&self)
        requires
            self.wf(),
        ensures
            self.tns@.len() == self.edges@.len() + 1,
            forall|k: int|
                0 <= k < self.tns@.len() ==> (#[trigger] self.tns@[k]).wf() && self.tns@[k].uses(
                    self.tns@[k].dom().n_tasks(),
                ) && self.tns@[k].domain == self.tns@[0].domain,
    {
        reveal(SearchPath::wf);
    }

    /// What holds of the step `k`.
    proof fn lemma_step(&self, k: int)
        requires
            self.wf(),
            0 <= k < self.edges@.len(),
        ensures
            self.parent(k).nodes@.contains(self.id(k)),
            !self.is_action(k) ==> forall|x: usize| #[trigger]
                self.brings(k, x) ==> self.is_handled(k, self.child(k), x),
            self.is_action(k) ==> forall|x: usize| #[trigger]
                self.leads(k, x) ==> self.is_handled(k, self.parent(k), x),
    {
        reveal(SearchPath::wf);
    }

    proof fn lemma_actions_bound(&self, j: int, k: int)
        requires
            0 <= j <= k,
        ensures
            self.actions_before(j) <= self.actions_before(k) <= k,
        decreases k,
    {
        if j < k {
            self.lemma_actions_bound(j, k - 1);
        } else if k > 0 {
            self.lemma_actions_bound(j - 1, k - 1);
        }
    }
}

/// The action numbered `b` is the noted one, or comes of the noted task.
spec fn note_yields(path: SearchPath, j: int, e: TaggedTask, b: int) -> bool {
    exists|i: int| #[trigger]
        path.is_nearest(j, i) && path.brings(j, path.id(i)) && e == path.tag(i) && path.yields(i, b)
}

/// The action numbered `b` comes of one of the first `m` notes.
spec fn notes_yield(path: SearchPath, j: int, list: Seq<TaggedTask>, m: int, b: int) -> bool {
    exists|x: int| 0 <= x < m && note_yields(path, j, #[trigger] list[x], b)
}

proof fn lemma_notes_yield_next(
    path: SearchPath,
    j: int,
    list: Seq<TaggedTask>,
    m: int,
)
    requires
        0 <= m < list.len(),
    ensures
        forall|b: int| #[trigger]
            notes_yield(path, j, list, m + 1, b) <==> notes_yield(path, j, list, m, b)
                || note_yields(path, j, list[m], b),
{
    assert forall|b: int| #[trigger] notes_yield(path, j, list, m + 1, b) <==> notes_yield(
        path,
        j,
        list,
        m,
        b,
    ) || note_yields(path, j, list[m], b) by {
        if notes_yield(path, j, list, m, b) {
            let x = choose|x: int| 0 <= x < m && note_yields(path, j, #[trigger] list[x], b);
            assert(note_yields(path, j, list[x], b));
        }
        if notes_yield(path, j, list, m + 1, b) {
            let x = choose|x: int| 0 <= x < m + 1 && note_yields(path, j, #[trigger] list[x], b);
            if x < m {
                assert(notes_yield(path, j, list, m, b));
            }
        }
    }
}

/// What the notes of a step yield is what the step yields.
proof fn lemma_notes_yield_all(path: SearchPath, j: int, list: Seq<TaggedTask>)
    requires
        0 <= j,
        !path.is_action(j),
        path.are_notes(j, list),
    ensures
        forall|b: int| #[trigger]
            notes_yield(path, j, list, list.len() as int, b) <==> path.yields(j, b),
{
    assert forall|b: int| #[trigger]
        notes_yield(path, j, list, list.len() as int, b) <==> path.yields(j, b) by {
        if notes_yield(path, j, list, list.len() as int, b) {
            let x = choose|x: int|
                0 <= x < list.len() && note_yields(path, j, #[trigger] list[x], b);
            let i = choose|i: int| #[trigger]
                path.is_nearest(j, i) && path.brings(j, path.id(i)) && list[x] == path.tag(i)
                    && path.yields(i, b);
            assert(path.is_nearest(j, i));
        }
        if path.yields(j, b) {
            let i = choose|i: int|
                0 <= i < j && #[trigger] path.is_nearest(j, i) && path.brings(j, path.id(i))
                    && path.yields(i, b);
            assert(list.contains(path.tag(i)));
            let x = choose|x: int| 0 <= x < list.len() && list[x] == path.tag(i);
            assert(note_yields(path, j, list[x], b));
        }
    }
}

/// What a note yields is what its step yields: no two steps have the same note.
proof fn lemma_note_yields(path: SearchPath, j: int, i: int)
    requires
        path.is_nearest(j, i),
        0 <= i < j < path.edges@.len() <= usize::MAX,
        path.brings(j, path.id(i)),
    ensures
        forall|b: int| #[trigger] note_yields(path, j, path.tag(i), b) <==> path.yields(i, b),
{
    assert forall|b: int| #[trigger] note_yields(path, j, path.tag(i), b) <==> path.yields(i, b) by {
        if note_yields(path, j, path.tag(i), b) {
            let y = choose|y: int| #[trigger]
                path.is_nearest(j, y) && path.brings(j, path.id(y)) && path.tag(i) == path.tag(y)
                    && path.yields(y, b);
            path.lemma_actions_bound(i, j);
            path.lemma_actions_bound(y, j);
            if path.is_action(i) {
                assert(path.is_action(y));
                assert(path.actions_before(i) == path.actions_before(y));
            } else {
                assert(i as usize == y as usize);
            }
        }
        if path.yields(i, b) {
            assert(path.is_nearest(j, i));
        }
    }
}

/// The pairs of the action `first` with the actions that the first `m` notes name,
/// in the order of the notes. A note of a compound task stands for its own notes;
/// of `depth` such notes within each other all are followed.
pub open spec fn pairs_of_notes(
    mapping: Map<usize, Vec<TaggedTask>>,
    first: usize,
    list: Seq<TaggedTask>,
    m: nat,
    depth: nat,
) -> Seq<(usize, usize)>
    decreases depth, m,
{
    if m == 0 {
        Seq::empty()
    } else {
        pairs_of_notes(mapping, first, list, (m - 1) as nat, depth) + match list[m - 1] {
            TaggedTask::Primitive(id) => seq![(first, id)],
            TaggedTask::Compound(id) => if depth > 0 && mapping.contains_key(id) {
                pairs_of_notes(
                    mapping,
                    first,
                    mapping[id]@,
                    mapping[id]@.len(),
                    (depth - 1) as nat,
                )
            } else {
                Seq::empty()
            },
        }
    }
}

/// The pairs of the action `first` with the actions that come of the compound task.
pub open spec fn pairs_of_task(
    mapping: Map<usize, Vec<TaggedTask>>,
    first: usize,
    task: usize,
    depth: nat,
) -> Seq<(usize, usize)> {
    if mapping.contains_key(task) {
        pairs_of_notes(mapping, first, mapping[task]@, mapping[task]@.len(), depth)
    } else {
        Seq::empty()
    }
}

/// Lets the action `predecessor_id` come before all actions that come of the
/// compound task, which is the matter of the step `j`.
fn rec_hlpr(
    orderings: &mut Vec<(usize, usize)>,
    compound_mapping: &HashMap<usize, Vec<TaggedTask>>,
    predecessor_id: usize,
    compound_task: usize,
    Ghost(path): Ghost<SearchPath>,
    Ghost(j): Ghost<int>,
)
    requires
        0 <= j < path.edges@.len() <= usize::MAX,
        path.methods_ok(j + 1, compound_mapping@),
        compound_task == j,
        !path.is_action(j),
    ensures
        forall|p: (int, int)| #[trigger]
            crate::task_network::pairs(final(orderings)@).contains(p)
                <==> crate::task_network::pairs(old(orderings)@).contains(p) || (p.0
                == predecessor_id && path.yields(j, p.1)),
        forall|depth: nat|
            depth >= j ==> final(orderings)@ == old(orderings)@ + #[trigger] pairs_of_task(
                compound_mapping@,
                predecessor_id,
                compound_task,
                depth,
            ),
    decreases j,
{
    let ghost start = orderings@;
    if let Some(list) = compound_mapping.get(&compound_task) {
        let mut m: usize = 0;
        assert(compound_task == j as usize);
        assert(path.are_notes(j, list@));
        while m < list.len()
            invariant
                0 <= j < path.edges@.len() <= usize::MAX,
                path.methods_ok(j + 1, compound_mapping@),
                path.are_notes(j, list@),
                m <= list@.len(),
                forall|p: (int, int)| #[trigger]
                    crate::task_network::pairs(orderings@).contains(p)
                        <==> crate::task_network::pairs(start).contains(p) || (p.0
                        == predecessor_id && notes_yield(path, j, list@, m as int, p.1)),
                forall|depth: nat|
                    depth >= j ==> orderings@ == start + #[trigger] pairs_of_notes(
                        compound_mapping@,
                        predecessor_id,
                        list@,
                        m as nat,
                        depth,
                    ),
            decreases list@.len() - m,
        {
            let ghost before = orderings@;
            let ghost e = list@[m as int];
            assert(path.is_note(j, e));
            let ghost i = choose|i: int| #[trigger]
                path.is_nearest(j, i) && path.brings(j, path.id(i)) && e == path.tag(i);
            proof {
                path.lemma_actions_bound(i, j);
                lemma_note_yields(path, j, i);
                lemma_notes_yield_next(path, j, list@, m as int);
            }
            match &list[m] {
                TaggedTask::Primitive(id) => {
                    proof {
                        crate::task_network::lemma_pairs_push(before, predecessor_id, *id);
                        assert(path.is_action(i));
                        assert(forall|b: int| #[trigger] path.yields(i, b) <==> b == *id);
                    }
                    orderings.push((predecessor_id, *id));
                },
                TaggedTask::Compound(id) => {
                    assert(!path.is_action(i));
                    rec_hlpr(
                        orderings,
                        compound_mapping,
                        predecessor_id,
                        *id,
                        Ghost(path),
                        Ghost(i),
                    );
                },
            }
            m += 1;
            proof {
                assert forall|depth: nat| depth >= j implies orderings@ == start
                    + #[trigger] pairs_of_notes(
                    compound_mapping@,
                    predecessor_id,
                    list@,
                    m as nat,
                    depth,
                ) by {
                    let so_far = pairs_of_notes(
                        compound_mapping@,
                        predecessor_id,
                        list@,
                        (m - 1) as nat,
                        depth,
                    );
                    assert(before == start + so_far);
                    match e {
                        TaggedTask::Primitive(id) => {
                            assert(orderings@ =~= start + (so_far + seq![(predecessor_id, id)]));
                        },
                        TaggedTask::Compound(id) => {
                            let more = pairs_of_task(
                                compound_mapping@,
                                predecessor_id,
                                id,
                                (depth - 1) as nat,
                            );
                            assert(orderings@ == before + more);
                            assert(orderings@ =~= start + (so_far + more));
                        },
                    }
                }
            }
        }
        proof {
            lemma_notes_yield_all(path, j, list@);
        }
    }
}

/// The position of `x` in the list.
fn position_in(v: &Vec<usize>, x: usize) -> (r: Option<usize>)
    ensures
        match r {
            Some(i) => i < v@.len() && v@[i as int] == x,
            None => !v@.contains(x),
        },
{
    let mut i: usize = 0;
    while i < v.len()
        invariant
            i <= v@.len(),
            forall|k: int| 0 <= k < i ==> #[trigger] v@[k] != x,
        decreases v@.len() - i,
    {
        if v[i] == x {
            return Some(i);
        }
        i += 1;
    }
    None
}

/// Whether the task of the node at the position `i` is an action.
fn is_primitive_at(tn: &HTN, i: usize) -> (r: bool)
    requires
        tn.wf(),
        tn.uses(tn.dom().n_tasks()),
        i < tn.nodes@.len(),
    ensures
        r == tn.is_action_node(tn.nodes@[i as int]),
{
    let task: usize = tn.tasks[i];
    assert(tn.tasks@[i as int] < tn.dom().n_tasks());
    proof {
        assert forall|y: int| #[trigger] tn.is_at(tn.nodes@[i as int], y) implies y == i by {
            if y < i {
                assert(tn.nodes@[y] < tn.nodes@[i as int]);
            } else if i < y {
                assert(tn.nodes@[i as int] < tn.nodes@[y]);
            }
        }
        assert(tn.is_at(tn.nodes@[i as int], i as int));
    }
    match &*tn.domain.tasks[task] {
        Task::Primitive(_) => true,
        Task::Compound(_) => false,
    }
}

/// The notes of the steps that the method of the step `k` brings in.
fn collect_notes(
    path: &SearchPath,
    k: usize,
    ids: &HashMap<usize, usize>,
    steps: &HashMap<usize, usize>,
) -> (list: Vec<TaggedTask>)
    requires
        path.wf(),
        k < path.edges@.len(),
        !path.is_action(k as int),
        path.ids_ok(k as int, ids@),
        path.steps_ok(k as int, steps@),
    ensures
        path.are_notes(k as int, list@),
{
    proof {
        path.lemma_networks();
        path.lemma_step(k as int);
    }
    assert(path.tns.len() == path.edges@.len() + 1);
    let child: &HTN = &path.tns[k];
    let parent: &HTN = &path.tns[k + 1];
    let mut list: Vec<TaggedTask> = Vec::new();
    let ghost kk = k as int;
    assert(path.tns@[kk].wf() && path.tns@[kk + 1].wf());
    let mut i: usize = 0;
    while i < child.nodes.len()
        invariant
            forall|x: usize| #[trigger]
                path.brings(kk, x) ==> path.is_handled(kk, path.child(kk), x),
            kk == k,
            k < path.edges@.len() <= usize::MAX,
            !path.is_action(kk),
            path.ids_ok(kk, ids@),
            path.steps_ok(kk, steps@),
            *child == path.child(kk),
            *parent == path.parent(kk),
            child.wf(),
            child.uses(child.dom().n_tasks()),
            i <= child.nodes@.len(),
            forall|m: int| 0 <= m < list@.len() ==> path.is_note(kk, #[trigger] list@[m]),
            forall|y: int, j: int|
                0 <= y < i && #[trigger] path.is_nearest(kk, j) && child.nodes@[y] == path.id(j)
                    && #[trigger] path.brings(kk, child.nodes@[y]) ==> list@.contains(path.tag(j)),
        decreases child.nodes@.len() - i,
    {
        let x: usize = child.nodes[i];
        let ghost before = list@;
        assert(child.nodes@.contains(x)) by {
            assert(child.nodes@[i as int] == x);
        }
        let known: bool = position_in(&parent.nodes, x).is_some();
        if !known {
            assert(path.brings(kk, x));
            assert(path.is_handled(kk, path.child(kk), x));
            let ghost j = choose|j: int| #[trigger]
                path.is_nearest(kk, j) && path.id(j) == x && (path.is_action(j)
                    <==> child.is_action_node(x));
            assert(path.is_nearest(kk, j));
            let note: TaggedTask = if is_primitive_at(child, i) {
                let id: usize = match ids.get(&x) {
                    Some(id) => *id,
                    None => 0,
                };
                assert(ids@.contains_key(path.id(j)));
                TaggedTask::Primitive(id)
            } else {
                let step: usize = match steps.get(&x) {
                    Some(step) => *step,
                    None => 0,
                };
                assert(steps@.contains_key(path.id(j)));
                TaggedTask::Compound(step)
            };
            proof {
                path.lemma_actions_bound(j, kk);
                assert(note == path.tag(j));
            }
            list.push(note);
            proof {
                assert(list@[before.len() as int] == path.tag(j));
                assert(list@.contains(path.tag(j)));
                assert(path.is_note(kk, path.tag(j)));
                assert forall|z: int| #[trigger] path.is_nearest(kk, z) && x == path.id(
                    z,
                ) implies z == j by {
                    path.lemma_one_nearest(kk, z, j);
                }
            }
        }
        proof {
            assert forall|y: int, j: int|
                0 <= y < i + 1 && #[trigger] path.is_nearest(kk, j) && child.nodes@[y] == path.id(j)
                    && #[trigger] path.brings(kk, child.nodes@[y]) implies list@.contains(
                path.tag(j),
            ) by {
                if y < i {
                    assert(before.contains(path.tag(j)));
                    let z = choose|z: int| 0 <= z < before.len() && before[z] == path.tag(j);
                    assert(list@[z] == path.tag(j));
                }
            }
        }
        i += 1;
    }
    proof {
        assert forall|j: int| #[trigger] path.is_nearest(kk, j) && path.brings(
            kk,
            path.id(j),
        ) implies list@.contains(path.tag(j)) by {
            let y = choose|y: int| 0 <= y < child.nodes@.len() && child.nodes@[y] == path.id(j);
            assert(path.brings(kk, child.nodes@[y]));
        }
    }
    list
}

/// The ordering at `m`, in the network in which the action of the step `k` is
/// executed, is from that action to a node of which the action numbered `b` comes.
spec fn entry_orders(path: SearchPath, k: int, m: int, b: int) -> bool {
    let tn = path.parent(k);
    &&& tn.is_at(path.id(k), tn.order@[m].0 as int)
    &&& exists|j: int| #[trigger]
        path.is_nearest(k, j) && tn.is_at(path.id(j), tn.order@[m].1 as int) && path.yields(j, b)
}

/// One of the first `n` orderings is from the action of the step `k` to a node
/// of which the action numbered `b` comes.
spec fn entries_order(path: SearchPath, k: int, n: int, b: int) -> bool {
    exists|m: int| 0 <= m < n && #[trigger] entry_orders(path, k, m, b)
}

proof fn lemma_entries_order_next(path: SearchPath, k: int, n: int)
    requires
        0 <= n,
    ensures
        forall|b: int| #[trigger]
            entries_order(path, k, n + 1, b) <==> entries_order(path, k, n, b) || entry_orders(
                path,
                k,
                n,
                b,
            ),
{
    assert forall|b: int| #[trigger]
        entries_order(path, k, n + 1, b) <==> entries_order(path, k, n, b) || entry_orders(
            path,
            k,
            n,
            b,
        ) by {
        if entries_order(path, k, n, b) {
            let m = choose|m: int| 0 <= m < n && #[trigger] entry_orders(path, k, m, b);
            assert(entry_orders(path, k, m, b));
        }
        if entries_order(path, k, n + 1, b) {
            let m = choose|m: int| 0 <= m < n + 1 && #[trigger] entry_orders(path, k, m, b);
            if m < n {
                assert(entries_order(path, k, n, b));
            }
        }
    }
}

/// What the orderings give is what the step orders.
proof fn lemma_entries_order_all(path: SearchPath, k: int)
    requires
        0 <= k,
    ensures
        forall|b: int| #[trigger]
            entries_order(path, k, path.parent(k).order@.len() as int, b) <==> path.orders(k, b),
{
    let tn = path.parent(k);
    assert forall|b: int| #[trigger]
        entries_order(path, k, tn.order@.len() as int, b) <==> path.orders(k, b) by {
        if entries_order(path, k, tn.order@.len() as int, b) {
            let m = choose|m: int|
                0 <= m < tn.order@.len() && #[trigger] entry_orders(path, k, m, b);
            let j = choose|j: int| #[trigger]
                path.is_nearest(k, j) && tn.is_at(path.id(j), tn.order@[m].1 as int)
                    && path.yields(j, b);
            assert(tn.is_at(path.id(k), tn.order@[m].0 as int));
            assert(path.leads(k, path.id(j)));
            assert(path.is_nearest(k, j));
        }
        if path.orders(k, b) {
            let j = choose|j: int| #[trigger]
                path.is_nearest(k, j) && path.leads(k, path.id(j)) && path.yields(j, b);
            let m = choose|m: int|
                0 <= m < tn.order@.len() && tn.is_at(
                    path.id(k),
                    (#[trigger] tn.order@[m]).0 as int,
                ) && tn.is_at(path.id(j), tn.order@[m].1 as int);
            assert(entry_orders(path, k, m, b));
        }
    }
}

/// Lets the action `new_id` come before all actions that come of the node at
/// the position `b` of the network, which is the matter of the step `j`.
fn order_before(
    orderings: &mut Vec<(usize, usize)>,
    tn: &HTN,
    b: usize,
    ids: &HashMap<usize, usize>,
    steps: &HashMap<usize, usize>,
    compound_mapping: &HashMap<usize, Vec<TaggedTask>>,
    new_id: usize,
    Ghost(path): Ghost<SearchPath>,
    Ghost(k): Ghost<int>,
    Ghost(j): Ghost<int>,
)
    requires
        tn.wf(),
        tn.uses(tn.dom().n_tasks()),
        b < tn.nodes@.len(),
        path.is_nearest(k, j),
        0 <= j < k < path.edges@.len() <= usize::MAX,
        path.ids_ok(k, ids@),
        path.steps_ok(k, steps@),
        path.methods_ok(k, compound_mapping@),
        path.id(j) == tn.nodes@[b as int],
        path.is_action(j) <==> tn.is_action_node(tn.nodes@[b as int]),
    ensures
        forall|p: (int, int)| #[trigger]
            crate::task_network::pairs(final(orderings)@).contains(p)
                <==> crate::task_network::pairs(old(orderings)@).contains(p) || (p.0 == new_id
                && path.yields(j, p.1)),
{
    let greater: usize = tn.nodes[b];
    proof {
        path.lemma_actions_bound(j, k);
    }
    if is_primitive_at(tn, b) {
        let id: usize = match ids.get(&greater) {
            Some(id) => *id,
            None => 0,
        };
        proof {
            assert(ids@.contains_key(path.id(j)));
            assert(forall|c: int| #[trigger] path.yields(j, c) <==> c == id);
            crate::task_network::lemma_pairs_push(orderings@, new_id, id);
        }
        orderings.push((new_id, id));
    } else {
        let step: usize = match steps.get(&greater) {
            Some(step) => *step,
            None => 0,
        };
        assert(steps@.contains_key(path.id(j)));
        rec_hlpr(orderings, compound_mapping, new_id, step, Ghost(path), Ghost(j));
    }
}

/// Lets the action of the step `k` come before all actions that come of the
/// nodes that it comes before.
fn order_action(
    orderings: &mut Vec<(usize, usize)>,
    path: &SearchPath,
    k: usize,
    ids: &HashMap<usize, usize>,
    steps: &HashMap<usize, usize>,
    compound_mapping: &HashMap<usize, Vec<TaggedTask>>,
    new_id: usize,
)
    requires
        path.wf(),
        k < path.edges@.len(),
        path.is_action(k as int),
        path.ids_ok(k as int, ids@),
        path.steps_ok(k as int, steps@),
        path.methods_ok(k as int, compound_mapping@),
    ensures
        forall|p: (int, int)| #[trigger]
            crate::task_network::pairs(final(orderings)@).contains(p)
                <==> crate::task_network::pairs(old(orderings)@).contains(p) || (p.0 == new_id
                && path.orders(k as int, p.1)),
{
    proof {
        path.lemma_networks();
        path.lemma_step(k as int);
    }
    assert(path.tns.len() == path.edges@.len() + 1);
    let ghost kk = k as int;
    let ghost start = orderings@;
    let parent: &HTN = &path.tns[k + 1];
    let old_id: usize = path.edges[k].task_id;
    assert(path.tns@[kk + 1].wf());
    let mut m: usize = 0;
    while m < parent.order.len()
        invariant
            forall|x: usize| #[trigger]
                path.leads(kk, x) ==> path.is_handled(kk, path.parent(kk), x),
            kk == k,
            k < path.edges@.len() <= usize::MAX,
            path.ids_ok(kk, ids@),
            path.steps_ok(kk, steps@),
            path.methods_ok(kk, compound_mapping@),
            *parent == path.parent(kk),
            parent.wf(),
            parent.uses(parent.dom().n_tasks()),
            old_id == path.id(kk),
            m <= parent.order@.len(),
            forall|p: (int, int)| #[trigger]
                crate::task_network::pairs(orderings@).contains(p)
                    <==> crate::task_network::pairs(start).contains(p) || (p.0 == new_id
                    && entries_order(*path, kk, m as int, p.1)),
        decreases parent.order@.len() - m,
    {
        let (a, b): (usize, usize) = parent.order[m];
        assert(parent.order@[m as int] == (a, b));
        proof {
            lemma_entries_order_next(*path, kk, m as int);
        }
        if parent.nodes[a] == old_id {
            let ghost greater = parent.nodes@[b as int];
            proof {
                assert(parent.is_at(old_id, parent.order@[m as int].0 as int));
                assert(parent.is_at(greater, parent.order@[m as int].1 as int));
                assert(path.leads(kk, greater));
                assert(path.is_handled(kk, path.parent(kk), greater));
            }
            let ghost j = choose|j: int| #[trigger]
                path.is_nearest(kk, j) && path.id(j) == greater && (path.is_action(j)
                    <==> parent.is_action_node(greater));
            proof {
                lemma_entry_orders(*path, kk, m as int, j);
            }
            order_before(
                orderings,
                parent,
                b,
                ids,
                steps,
                compound_mapping,
                new_id,
                Ghost(*path),
                Ghost(kk),
                Ghost(j),
            );
        } else {
            proof {
                assert(forall|c: int| !#[trigger] entry_orders(*path, kk, m as int, c));
            }
        }
        m += 1;
    }
    proof {
        lemma_entries_order_all(*path, kk);
    }
}

/// What an ordering gives is what the step of its second node yields.
proof fn lemma_entry_orders(path: SearchPath, k: int, m: int, j: int)
    requires
        path.is_nearest(k, j),
        0 <= j < k < path.edges@.len(),
        path.parent(k).is_at(path.id(k), path.parent(k).order@[m].0 as int),
        path.parent(k).is_at(path.id(j), path.parent(k).order@[m].1 as int),
    ensures
        forall|b: int| #[trigger] entry_orders(path, k, m, b) <==> path.yields(j, b),
{
    let tn = path.parent(k);
    assert forall|b: int| #[trigger] entry_orders(path, k, m, b) <==> path.yields(j, b) by {
        if entry_orders(path, k, m, b) {
            let y = choose|y: int| #[trigger]
                path.is_nearest(k, y) && tn.is_at(path.id(y), tn.order@[m].1 as int)
                    && path.yields(y, b);
            assert(path.id(y) == path.id(j));
            path.lemma_one_nearest(k, y, j);
        }
        if path.yields(j, b) {
            assert(tn.is_at(path.id(j), tn.order@[m].1 as int));
        }
    }
}

/// By one of the first `k` steps, the action numbered `a` comes before the one
/// numbered `b`.
spec fn ordered_until(path: SearchPath, k: int, a: int, b: int) -> bool {
    exists|j: int|
        0 <= j < k && #[trigger] path.is_action(j) && path.actions_before(j) == a && path.orders(
            j,
            b,
        )
}

proof fn lemma_ordered_next(path: SearchPath, k: int)
    requires
        0 <= k,
    ensures
        forall|a: int, b: int| #[trigger]
            ordered_until(path, k + 1, a, b) <==> ordered_until(path, k, a, b) || (path.is_action(k)
                && a == path.actions_before(k) && path.orders(k, b)),
{
    assert forall|a: int, b: int| #[trigger]
        ordered_until(path, k + 1, a, b) <==> ordered_until(path, k, a, b) || (path.is_action(k)
            && a == path.actions_before(k) && path.orders(k, b)) by {
        if ordered_until(path, k, a, b) {
            let j = choose|j: int|
                0 <= j < k && #[trigger] path.is_action(j) && path.actions_before(j) == a
                    && path.orders(j, b);
            assert(path.is_action(j));
        }
        if ordered_until(path, k + 1, a, b) {
            let j = choose|j: int|
                0 <= j < k + 1 && #[trigger] path.is_action(j) && path.actions_before(j) == a
                    && path.orders(j, b);
            if j < k {
                assert(path.is_action(j));
            }
        }
    }
}

/// What a step yields is an action of it or of a later step.
proof fn lemma_yields_bound(path: SearchPath, k: int, b: int)
    requires
        0 <= k,
        path.yields(k, b),
    ensures
        0 <= b < path.actions_before(k + 1),
    decreases k,
{
    if !path.is_action(k) {
        let j = choose|j: int|
            0 <= j < k && #[trigger] path.is_nearest(k, j) && path.brings(k, path.id(j))
                && path.yields(j, b);
        lemma_yields_bound(path, j, b);
        path.lemma_actions_bound(j + 1, k);
    }
}

/// The actions of a path, with the order that the networks on it ask for and
/// no other: the task network that remains when the order of the steps is
/// forgotten.
pub open spec fn is_deordered(path: SearchPath, r: HTN) -> bool {
    &&& r.wf()
    &&& r.domain == path.tns@[0].domain
    &&& r.nodes@.len() == path.actions_before(path.edges@.len() as int)
    &&& forall|i: int| 0 <= i < r.nodes@.len() ==> #[trigger] r.nodes@[i] == i
    &&& forall|k: int|
        0 <= k < path.edges@.len() && #[trigger] path.is_action(k)
            ==> r.tasks@[path.actions_before(k) as int] == path.parent(k).task_of(path.id(k))
    &&& forall|a: int, b: int| #[trigger] r@.before.contains((a, b)) <==> path.is_ordered(a, b)
}

/// The task of the node in the network.
fn task_of_node(tn: &HTN, x: usize) -> (t: usize)
    requires
        tn.wf(),
        tn.uses(tn.dom().n_tasks()),
        tn.nodes@.contains(x),
    ensures
        t == tn.task_of(x),
        t < tn.dom().n_tasks(),
{
    let i: usize = match position_in(&tn.nodes, x) {
        Some(i) => i,
        None => 0,
    };
    proof {
        assert(tn.is_at(x, i as int));
        let y = choose|y: int| tn.is_at(x, y);
        if y < i {
            assert(tn.nodes@[y] < tn.nodes@[i as int]);
        } else if i < y {
            assert(tn.nodes@[i as int] < tn.nodes@[y]);
        }
        assert(tn.tasks@[i as int] < tn.dom().n_tasks());
    }
    tn.tasks[i]
}

/// What the steps up to `k` have given.
spec fn progress_ok(
    path: SearchPath,
    k: int,
    next: int,
    tasks: Set<usize>,
    alpha: Map<usize, usize>,
    orderings: Seq<(usize, usize)>,
    ids: Map<usize, usize>,
    steps: Map<usize, usize>,
    methods: Map<usize, Vec<TaggedTask>>,
) -> bool {
    &&& next == path.actions_before(k)
    &&& forall|x: usize| #[trigger] tasks.contains(x) <==> x < next
    &&& forall|x: usize| #[trigger] alpha.contains_key(x) <==> x < next
    &&& forall|j: int|
        0 <= j < k && #[trigger] path.is_action(j) ==> alpha[path.actions_before(j) as usize]
            == path.parent(j).task_of(path.id(j))
    &&& path.ids_ok(k, ids)
    &&& path.steps_ok(k, steps)
    &&& path.methods_ok(k, methods)
    &&& forall|p: (int, int)| #[trigger]
        crate::task_network::pairs(orderings).contains(p) <==> ordered_until(path, k, p.0, p.1)
}

/// Both sides of an ordering are actions of the path, the first of an earlier step.
proof fn lemma_ordered_bound(path: SearchPath, k: int, a: int, b: int)
    requires
        0 <= k <= path.edges@.len(),
        ordered_until(path, k, a, b),
    ensures
        0 <= b < a < path.actions_before(k),
{
    let j = choose|j: int|
        0 <= j < k && #[trigger] path.is_action(j) && path.actions_before(j) == a && path.orders(
            j,
            b,
        );
    let i = choose|i: int| #[trigger]
        path.is_nearest(j, i) && path.leads(j, path.id(i)) && path.yields(i, b);
    lemma_yields_bound(path, i, b);
    path.lemma_actions_bound(i + 1, j);
    path.lemma_actions_bound(j + 1, k);
}

/// An ascending list of the numbers below `n` holds each at its own position.
proof fn lemma_counting(v: Seq<usize>, n: int, i: int)
    requires
        forall|a: int, b: int| 0 <= a < b < v.len() ==> #[trigger] v[a] < #[trigger] v[b],
        forall|x: usize| #[trigger] v.contains(x) <==> x < n,
        0 <= n <= usize::MAX,
        0 <= i < v.len(),
    ensures
        v[i] == i,
    decreases i,
{
    if i > 0 {
        lemma_counting(v, n, i - 1);
        assert(v[i - 1] < v[i]);
    }
    if v[i] > i {
        assert(v.contains(v[i]));
        assert(v.contains(i as usize));
        let k = choose|k: int| 0 <= k < v.len() && v[k] == i as usize;
        if k < i {
            if k < i - 1 {
                assert(v[k] < v[i - 1]);
            }
        } else if k > i {
            assert(v[i] < v[k]);
        }
    }
}

/// The list is as long as there are numbers in it.
proof fn lemma_counting_len(v: Seq<usize>, n: int)
    requires
        forall|a: int, b: int| 0 <= a < b < v.len() ==> #[trigger] v[a] < #[trigger] v[b],
        forall|x: usize| #[trigger] v.contains(x) <==> x < n,
        0 <= n <= usize::MAX,
    ensures
        v.len() == n,
{
    if v.len() > 0 {
        lemma_counting(v, n, v.len() - 1);
        assert(v.contains(v[v.len() - 1]));
    }
    if v.len() < n {
        assert(v.contains(v.len() as usize));
        let k = choose|k: int| 0 <= k < v.len() && v[k] == v.len() as usize;
        lemma_counting(v, n, k);
    }
}

/// The task network of the actions of the path, with the order that the
/// networks on it ask for and no other.
pub fn deorder(path: &SearchPath) -> (r: HTN)
    requires
        path.wf(),
    ensures
        is_deordered(*path, r),
        r.uses(r.dom().n_tasks()),
{
    proof {
        path.lemma_networks();
    }
    let domain: Rc<DomainTasks> = Rc::clone(&path.tns[0].domain);
    let mut tasks: BTreeSet<usize> = BTreeSet::new();
    let mut alpha: HashMap<usize, usize> = HashMap::new();
    let mut orderings: Vec<(usize, usize)> = Vec::new();
    let mut equivalent_ids: HashMap<usize, usize> = HashMap::new();
    let mut nearest_steps: HashMap<usize, usize> = HashMap::new();
    let mut compound_mapping: HashMap<usize, Vec<TaggedTask>> = HashMap::new();
    let mut next_new_id: usize = 0;
    let mut k: usize = 0;
    assert(path.edges.len() == path.edges@.len());
    while k < path.edges.len()
        invariant
            path.wf(),
            path.tns@.len() == path.edges@.len() + 1,
            forall|i: int|
                0 <= i < path.tns@.len() ==> (#[trigger] path.tns@[i]).wf() && path.tns@[i].uses(
                    path.tns@[i].dom().n_tasks(),
                ) && path.tns@[i].domain == path.tns@[0].domain,
            domain == path.tns@[0].domain,
            k <= path.edges@.len() <= usize::MAX,
            progress_ok(
                *path,
                k as int,
                next_new_id as int,
                tasks@,
                alpha@,
                orderings@,
                equivalent_ids@,
                nearest_steps@,
                compound_mapping@,
            ),
            forall|x: usize| x < next_new_id ==> #[trigger] alpha@[x] < domain.n_tasks(),
        decreases path.edges@.len() - k,
    {
        let ghost kk = k as int;
        let ghost ids0 = equivalent_ids@;
        let ghost steps0 = nearest_steps@;
        let ghost methods0 = compound_mapping@;
        let ghost alpha0 = alpha@;
        let old_id: usize = path.edges[k].task_id;
        assert(path.edges.len() < path.tns.len());
        proof {
            path.lemma_step(kk);
            path.lemma_actions_bound(kk, kk);
            lemma_ordered_next(*path, kk);
            assert(old_id == path.id(kk));
        }
        if path.edges[k].method_name.is_some() {
            assert(!path.is_action(kk));
            let notes: Vec<TaggedTask> = collect_notes(
                path,
                k,
                &equivalent_ids,
                &nearest_steps,
            );
            compound_mapping.insert(k, notes);
            proof {
                assert forall|j: int|
                    0 <= j < kk + 1 && !#[trigger] path.is_action(j) implies
                    compound_mapping@.contains_key(j as usize) && path.are_notes(
                    j,
                    compound_mapping@[j as usize]@,
                ) by {
                    if j < kk {
                        assert(methods0.contains_key(j as usize));
                    }
                }
                assert forall|j: int| #[trigger] path.is_nearest(kk + 1, j) && path.is_action(
                    j,
                ) implies equivalent_ids@.contains_key(path.id(j)) && equivalent_ids@[path.id(j)]
                    == path.actions_before(j) by {
                    assert(j < kk);
                    path.lemma_nearest_before(kk, j);
                }
            }
        } else {
            assert(path.is_action(kk));
            let new_id: usize = next_new_id;
            next_new_id = next_new_id + 1;
            tasks.insert(new_id);
            let task: usize = task_of_node(&path.tns[k + 1], old_id);
            alpha.insert(new_id, task);
            order_action(
                &mut orderings,
                path,
                k,
                &equivalent_ids,
                &nearest_steps,
                &compound_mapping,
                new_id,
            );
            equivalent_ids.insert(old_id, new_id);
            proof {
                assert forall|j: int| #[trigger] path.is_nearest(kk + 1, j) && path.is_action(
                    j,
                ) implies equivalent_ids@.contains_key(path.id(j)) && equivalent_ids@[path.id(j)]
                    == path.actions_before(j) by {
                    if j < kk {
                        path.lemma_nearest_before(kk, j);
                        assert(ids0.contains_key(path.id(j)));
                    }
                }
                assert forall|j: int| 0 <= j < kk + 1 && #[trigger] path.is_action(j) implies alpha@[
                path.actions_before(j) as usize] == path.parent(j).task_of(path.id(j)) by {
                    path.lemma_actions_bound(j, kk);
                    if j < kk {
                        path.lemma_actions_bound(j + 1, kk);
                        assert(alpha0[path.actions_before(j) as usize] == path.parent(j).task_of(
                            path.id(j),
                        ));
                    }
                }
            }
        }
        nearest_steps.insert(old_id, k);
        proof {
            assert forall|j: int| #[trigger] path.is_nearest(kk + 1, j) implies
                nearest_steps@.contains_key(path.id(j)) && nearest_steps@[path.id(j)] == j by {
                if j < kk {
                    path.lemma_nearest_before(kk, j);
                    assert(steps0.contains_key(path.id(j)));
                }
            }
        }
        k += 1;
    }
    let ghost n = next_new_id as int;
    proof {
        assert forall|x: int| 0 <= x < orderings@.len() implies tasks@.contains(
            (#[trigger] orderings@[x]).0,
        ) && tasks@.contains(orderings@[x].1) by {
            let p = (orderings@[x].0 as int, orderings@[x].1 as int);
            assert(crate::task_network::pairs(orderings@).contains(p));
            lemma_ordered_bound(*path, k as int, p.0, p.1);
        }
    }
    let ghost orderings0 = orderings@;
    let r: HTN = HTN::new(tasks, orderings, domain, alpha);
    proof {
        lemma_counting_len(r.nodes@, n);
        assert forall|i: int| 0 <= i < r.nodes@.len() implies #[trigger] r.nodes@[i] == i by {
            lemma_counting(r.nodes@, n, i);
        }
        assert forall|j: int| 0 <= j < path.edges@.len() && #[trigger] path.is_action(j) implies
            r.tasks@[path.actions_before(j) as int] == path.parent(j).task_of(path.id(j)) by {
            path.lemma_actions_bound(j + 1, k as int);
            let a = path.actions_before(j) as int;
            assert(r.nodes@[a] == a);
            assert(r.tasks@[a] == alpha@[r.nodes@[a]]);
        }
        assert(r.order@ =~= orderings0) by {
            assert forall|x: int| 0 <= x < r.order@.len() implies r.order@[x] == orderings0[x] by {
                assert(r.nodes@[r.order@[x].0 as int] == orderings0[x].0);
                assert(r.nodes@[r.order@[x].1 as int] == orderings0[x].1);
            }
        }
        assert forall|a: int, b: int| #[trigger]
            r@.before.contains((a, b)) <==> path.is_ordered(a, b) by {
            assert(crate::task_network::pairs(orderings0).contains((a, b)) <==> ordered_until(
                *path,
                k as int,
                a,
                b,
            ));
        }
        assert forall|i: int| 0 <= i < r.tasks@.len() implies #[trigger] r.tasks@[i]
            < r.dom().n_tasks() by {
            assert(r.nodes@[i] == i);
            assert(alpha@[i as usize] < domain.n_tasks());
        }
    }
    r
}

/// Whether a path is a solution.
pub enum AStarResult {
    /// The path itself is one: its steps from the start to the end.
    Linear(Vec<Edge>),
    /// The policy is one.
    Strong(StrongPolicy),
    NoSolution,
}

/// The edge is the step of the same node by the same method.
pub open spec fn same_edge(a: Edge, b: Edge) -> bool {
    &&& a.task_id == b.task_id
    &&& match (a.method_name, b.method_name) {
        (Some(x), Some(y)) => x@ == y@,
        (None, None) => true,
        _ => false,
    }
}

/// A path is a weak solution exactly where nothing is left to do at its end.
pub fn is_goal_weak_ld(path: &SearchPath) -> (r: AStarResult)
    requires
        path.tns@.len() > 0,
    ensures
        path.tns@[0]@.len() == 0 ==> (r matches AStarResult::Linear(steps) && steps@.len()
            == path.edges@.len() && forall|k: int|
            0 <= k < steps@.len() ==> same_edge(
                #[trigger] steps@[k],
                path.edges@[path.edges@.len() - 1 - k],
            )),
        path.tns@[0]@.len() > 0 ==> r is NoSolution,
        path.tns@[0].nodes@.len() == path.tns@[0].tasks@.len() ==> (r is Linear
            <==> path.tns@[0].nodes@.len() == 0),
        r matches AStarResult::Linear(steps) ==> steps@.len() == path.edges@.len() && forall|k: int|
            0 <= k < steps@.len() ==> {
                let edge = path.edges@[path.edges@.len() - 1 - k];
                &&& (#[trigger] steps@[k]).task_id == edge.task_id
                &&& steps@[k].method_name is Some <==> edge.method_name is Some
                &&& edge.method_name is Some ==> steps@[k].method_name->0@ == edge.method_name->0@
            },
        !(r is Strong),
{
    if !path.tns[0].is_empty() {
        return AStarResult::NoSolution;
    }
    let mut steps: Vec<Edge> = Vec::new();
    let mut k: usize = path.edges.len();
    while k > 0
        invariant
            k <= path.edges@.len(),
            steps@.len() + k == path.edges@.len(),
            forall|x: int|
                0 <= x < steps@.len() ==> same_edge(
                    #[trigger] steps@[x],
                    path.edges@[path.edges@.len() - 1 - x],
                ),
        decreases k,
    {
        k = k - 1;
        let edge: &Edge = &path.edges[k];
        let method_name: Option<String> = match &edge.method_name {
            Some(name) => Some(name.clone()),
            None => None,
        };
        steps.push(Edge { task_id: edge.task_id, method_name });
    }
    AStarResult::Linear(steps)
}

/// What goal checks have counted. An entry is there once something was counted.
pub struct GoalStatistics {
    /// The number of paths that were weak solutions.
    pub attempted: Option<u32>,
    /// The number of search nodes of all searches for a policy.
    pub search_nodes: Option<u32>,
    /// The makespan of the policy found last.
    pub makespan: Option<u32>,
}

/// The entry with `more` added, as far as it can be held.
pub open spec fn accumulated(entry: Option<u32>, more: u32) -> Option<u32> {
    let sum = match entry {
        Some(x) => x + more,
        None => more as int,
    };
    Some(
        if sum <= u32::MAX {
            sum as u32
        } else {
            u32::MAX
        },
    )
}

fn accumulate(entry: Option<u32>, more: u32) -> (r: Option<u32>)
    ensures
        r == accumulated(entry, more),
{
    match entry {
        Some(x) => Some(x.saturating_add(more)),
        None => Some(more),
    }
}

/// The same facts.
fn copy_facts(facts: &Facts) -> (r: Facts)
    ensures
        r.spec_count() == facts.spec_count(),
        forall|i: int| 0 <= i < r.names@.len() ==> (#[trigger] r.names@[i])@ == facts.names@[i]@,
{
    let mut names: Vec<String> = Vec::new();
    let mut i: usize = 0;
    while i < facts.names.len()
        invariant
            i <= facts.names@.len(),
            names@.len() == i,
            forall|k: int| 0 <= k < i ==> (#[trigger] names@[k])@ == facts.names@[k]@,
        decreases facts.names@.len() - i,
    {
        names.push(facts.names[i].clone());
        i += 1;
    }
    Facts::new(names)
}

/// The problem of carrying out the actions of the path in any order that the
/// networks on it allow, as one compound task.
pub open spec fn is_subproblem(problem: FONDProblem, path: SearchPath, sub: FONDProblem) -> bool {
    let n = problem.tasks.n_tasks();
    &&& sub.wf()
    &&& sub.facts.spec_count() == problem.facts.spec_count()
    &&& forall|i: int|
        0 <= i < sub.facts.names@.len() ==> (#[trigger] sub.facts.names@[i])@
            == problem.facts.names@[i]@
    &&& sub.initial_state@ == problem.initial_state@
    &&& sub.rho == problem.rho
    &&& sub.tasks.n_tasks() == n + 1
    &&& forall|t: int|
        0 <= t < n ==> #[trigger] sub.tasks.tasks@[t] == problem.tasks.tasks@[t]
    &&& match *sub.tasks.tasks@[n as int] {
        Task::Compound(compound) => compound.methods@.len() == 1 && is_deordered(
            path,
            compound.methods@[0].decomposition,
        ),
        Task::Primitive(action) => false,
    }
    &&& sub.init_tn@.tasks == seq![n as usize]
    &&& sub.init_tn@.before == Set::<(int, int)>::empty()
}

/// Whether the path is worth a search for a policy: exactly where nothing is
/// left to do at its end. Gives the problem whose policies are strong solutions
/// of the given one by the methods of the path, and counts the attempt.
pub fn is_goal_strong_od(
    problem: &FONDProblem,
    path: &SearchPath,
    custom_statistics: &mut GoalStatistics,
) -> (sub: Option<FONDProblem>)
    requires
        problem.wf(),
        path.wf(),
        path.tns@[0].domain == problem.tasks,
        2 * (problem.facts.spec_count() + problem.tasks.n_tasks() + 3) < u32::MAX,
    ensures
        sub is Some <==> path.tns@[0]@.len() == 0,
        sub matches Some(p) ==> is_subproblem(*problem, *path, p),
        sub is None ==> *final(custom_statistics) == *old(custom_statistics),
        sub is Some ==> *final(custom_statistics) == (GoalStatistics {
            attempted: accumulated(old(custom_statistics).attempted, 1),
            ..*old(custom_statistics)
        }),
        sub is Some <==> path.tns@[0].nodes@.len() == 0,
        sub matches Some(p) ==> {
            let n = problem.tasks.tasks@.len();
            &&& forall|f: u32| #[trigger]
                p.initial_state@.contains(f) <==> problem.initial_state@.contains(f)
            &&& p.rho == problem.rho
            &&& p.facts.names@.len() == problem.facts.names@.len()
            &&& forall|f: int|
                0 <= f < p.facts.names@.len() ==> (#[trigger] p.facts.names@[f])@
                    == problem.facts.names@[f]@
            &&& p.tasks.tasks@.len() == n + 1
            &&& forall|t: int| 0 <= t < n ==> #[trigger] p.tasks.tasks@[t] == problem.tasks.tasks@[t]
            &&& (*p.tasks.tasks@[n as int] matches Task::Compound(compound)
                && compound.methods@.len() == 1 && is_deordered(
                *path,
                compound.methods@[0].decomposition,
            ))
            &&& p.init_tn.domain == p.tasks
            &&& p.init_tn.tasks@ == seq![n as usize]
            &&& p.init_tn.order@.len() == 0
        },
        sub is Some ==> match old(custom_statistics).attempted {
            None => final(custom_statistics).attempted == Some(1u32),
            Some(x) => if x < u32::MAX {
                final(custom_statistics).attempted == Some((x + 1) as u32)
            } else {
                final(custom_statistics).attempted == Some(x)
            },
        },
{
    proof {
        path.lemma_networks();
    }
    if !path.tns[0].is_empty() {
        return None;
    }
    custom_statistics.attempted = accumulate(custom_statistics.attempted, 1);
    let mut sub: FONDProblem = FONDProblem {
        facts: copy_facts(&problem.facts),
        tasks: Rc::clone(&problem.tasks),
        initial_state: copy_set(&problem.initial_state),
        init_tn: deorder(path),
        rho: problem.rho,
    };
    sub.collapse_tn();
    assert(sub.tasks.tasks@.last() == sub.tasks.tasks@[problem.tasks.n_tasks() as int]);
    Some(sub)
}

/// What a search for a policy says of the path that it was made for. Counts the
/// nodes of the search and notes the makespan of the policy.
pub fn conclude_strong_od(
    path: &mut SearchPath,
    solution: SearchResult,
    search_nodes: u32,
    custom_statistics: &mut GoalStatistics,
) -> (r: AStarResult)
    ensures
        final(path).goal_tested,
        final(path).tns == old(path).tns,
        final(path).edges == old(path).edges,
        match solution {
            SearchResult::Success(policy) => r == AStarResult::Strong(policy),
            SearchResult::NoSolution => r is NoSolution,
        },
        *final(custom_statistics) == (GoalStatistics {
            attempted: old(custom_statistics).attempted,
            search_nodes: accumulated(old(custom_statistics).search_nodes, search_nodes),
            makespan: match solution {
                SearchResult::Success(policy) => Some(policy.makespan as u32),
                SearchResult::NoSolution => old(custom_statistics).makespan,
            },
        }),
        final(custom_statistics).search_nodes == Some(
            match old(custom_statistics).search_nodes {
                None => search_nodes,
                Some(x) => if x + search_nodes <= u32::MAX {
                    (x + search_nodes) as u32
                } else {
                    u32::MAX
                },
            },
        ),
{
    custom_statistics.search_nodes = accumulate(custom_statistics.search_nodes, search_nodes);
    path.goal_tested = true;
    match solution {
        SearchResult::Success(policy) => {
            custom_statistics.makespan = Some(policy.makespan as u32);
            AStarResult::Strong(policy)
        },
        SearchResult::NoSolution => AStarResult::NoSolution,
    }
}

/// The order of the steps on the path is one that the deordered network allows:
/// an action comes before another only where its step is the earlier one. The
/// steps are counted from the end, so it has the greater number.
pub proof fn law_path_is_a_linearization(path: SearchPath, r: HTN, a: int, b: int)
    requires
        is_deordered(path, r),
        r@.before.contains((a, b)),
    ensures
        0 <= b < a < r.nodes@.len(),
{
    assert(path.is_ordered(a, b));
    assert(ordered_until(path, path.edges@.len() as int, a, b));
    lemma_ordered_bound(path, path.edges@.len() as int, a, b);
}

} // verus!

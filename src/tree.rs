use vstd::prelude::*;

use crate::id::{Id, NodeId};
use crate::score::{valid_alpha, Score};

verus! {

/// A node reached by one hypothetical step: the action taken, the state it led
/// to, the discounted reward stored as the basis for expanding it later, and its
/// distance from the root.
pub struct StateActionNode<S, A> {
    pub state: S,
    pub action: A,
    pub acc_reward: Score,
    pub depth: usize,
}

/// An arena of search nodes over one root state. The node with id `n` is the
/// `n`-th node added, so every node is added after its parent and ids are never
/// reused. Nodes are only ever added.
pub struct SaTensorTree<S, A> {
    nodes: Vec<StateActionNode<S, A>>,
    parents: Vec<Id>,
    children: Vec<Vec<Id>>,
    root_children: Vec<Id>,
    root: S,
    alpha: u64,
}

/// `post` is `pre` with one new child of `parent` for each `(action, basis,
/// state)` of the three sequences, in order, numbered from the first free id;
/// `ids` are the new children's ids. Nothing else changes.
pub open spec fn children_added<S, A>(
    pre: SaTensorTree<S, A>,
    post: SaTensorTree<S, A>,
    parent: Id,
    actions: Seq<A>,
    bases: Seq<Score>,
    states: Seq<S>,
    ids: Seq<Id>,
) -> bool {
    let n0 = pre.node_count();
    &&& post.wf()
    &&& post.root_state() == pre.root_state()
    &&& post.spec_alpha() == pre.spec_alpha()
    &&& post.node_count() == n0 + actions.len()
    &&& ids == Seq::new(actions.len(), |j: int| Id::Node((n0 + j) as NodeId))
    &&& forall|k: int|
        0 <= k < n0 ==> #[trigger] post.nodes()[k] == pre.nodes()[k] && post.parents()[k]
            == pre.parents()[k]
    &&& forall|j: int|
        0 <= j < actions.len() ==> #[trigger] post.nodes()[n0 + j] == (StateActionNode {
            state: states[j],
            action: actions[j],
            acc_reward: bases[j],
            depth: (pre.depth_of(parent) + 1) as usize,
        }) && post.parents()[n0 + j] == parent
    &&& post.children_of(parent) == pre.children_of(parent) + ids
    &&& forall|id: Id| id != parent ==> #[trigger] post.children_of(id) == pre.children_of(id)
}

impl<S, A> SaTensorTree<S, A> {
    /// The state the search starts from.
    pub closed spec fn root_state(&self) -> S {
        self.root
    }

    /// The discount factor the tree was made with.
    pub closed spec fn spec_alpha(&self) -> u64 {
        self.alpha
    }

    /// The stored nodes; the node with id `n` is at position `n`.
    pub closed spec fn nodes(&self) -> Seq<StateActionNode<S, A>> {
        self.nodes@
    }

    /// The parent of each stored node, by position.
    pub closed spec fn parents(&self) -> Seq<Id> {
        self.parents@
    }

    /// The children of `id`, in the order they were added.
    pub closed spec fn children_of(&self, id: Id) -> Seq<Id> {
        match id {
            Id::Root => self.root_children@,
            Id::Node(n) => if (n as int) < self.children@.len() {
                self.children@[n as int]@
            } else {
                Seq::empty()
            },
        }
    }

    /// The arena's internal tables have one entry per node.
    pub closed spec fn shape_ok(&self) -> bool {
        &&& self.parents@.len() == self.nodes@.len()
        &&& self.children@.len() == self.nodes@.len()
    }

    pub open spec fn node_count(&self) -> nat {
        self.nodes().len()
    }

    /// `id` addresses the root or a stored node of this tree.
    pub open spec fn contains(&self, id: Id) -> bool {
        match id {
            Id::Root => true,
            Id::Node(n) => n < self.node_count(),
        }
    }

    pub open spec fn depth_of(&self, id: Id) -> int {
        match id {
            Id::Root => 0,
            Id::Node(n) => self.nodes()[n as int].depth as int,
        }
    }

    /// The basis a node contributes when it is expanded; zero at the root.
    pub open spec fn basis_of(&self, id: Id) -> int {
        match id {
            Id::Root => 0,
            Id::Node(n) => self.nodes()[n as int].acc_reward as int,
        }
    }

    pub open spec fn state_of(&self, id: Id) -> S {
        match id {
            Id::Root => self.root_state(),
            Id::Node(n) => self.nodes()[n as int].state,
        }
    }

    /// The parent of the node at position `k` was added before it.
    pub open spec fn parent_precedes(&self, k: int) -> bool {
        match self.parents()[k] {
            Id::Root => true,
            Id::Node(j) => j < k,
        }
    }

    /// The children recorded for `id` are distinct stored nodes whose parent is `id`.
    pub open spec fn children_recorded(&self, id: Id) -> bool {
        &&& self.children_of(id).no_duplicates()
        &&& forall|i: int|
            0 <= i < self.children_of(id).len() ==> match #[trigger] self.children_of(id)[i] {
                Id::Root => false,
                Id::Node(c) => c < self.node_count() && self.parents()[c as int] == id,
            }
    }

    /// The tree's invariant: parents come first, depth grows by one along each
    /// edge, and the children lists agree with the parent links.
    pub open spec fn wf(&self) -> bool {
        &&& self.shape_ok()
        &&& valid_alpha(self.spec_alpha() as int)
        &&& self.parents().len() == self.node_count()
        &&& self.node_count() <= usize::MAX
        &&& forall|k: int| 0 <= k < self.node_count() ==> #[trigger] self.parent_precedes(k)
        &&& forall|k: int|
            0 <= k < self.node_count() ==> #[trigger] self.nodes()[k].depth == self.depth_of(
                self.parents()[k],
            ) + 1
        &&& forall|id: Id| self.contains(id) ==> #[trigger] self.children_recorded(id)
        &&& forall|id: Id| !self.contains(id) ==> #[trigger] self.children_of(id).len() == 0
        &&& forall|k: int|
            0 <= k < self.node_count() ==> self.children_of(#[trigger] self.parents()[k]).contains(
                Id::Node(k as NodeId),
            )
    }

    /// A tree that holds only its root.
    pub fn new(root: S, alpha: u64) -> (r: Self)
        requires
            valid_alpha(alpha as int),
        ensures
            r.wf(),
            r.root_state() == root,
            r.spec_alpha() == alpha,
            r.node_count() == 0,
            r.children_of(Id::Root) == Seq::<Id>::empty(),
    {
        SaTensorTree {
            nodes: Vec::new(),
            parents: Vec::new(),
            children: Vec::new(),
            root_children: Vec::new(),
            root,
            alpha,
        }
    }

    /// Position in the arena of a stored node.
    fn slot(&self, n: NodeId) -> (k: usize)
        requires
            self.wf(),
            n < self.node_count(),
        ensures
            k == n,
    {
        proof {
            assert(self.nodes@.len() == self.nodes.len());
        }
        n as usize
    }

    pub fn alpha(&self) -> (r: u64)
        ensures
            r == self.spec_alpha(),
    {
        self.alpha
    }

    pub fn node_len(&self) -> (r: usize)
        requires
            self.wf(),
        ensures
            r == self.node_count(),
    {
        self.nodes.len()
    }

    pub fn get_state(&self, id: Id) -> (r: &S)
        requires
            self.wf(),
            self.contains(id),
        ensures
            *r == self.state_of(id),
    {
        match id {
            Id::Root => &self.root,
            Id::Node(n) => &self.nodes[self.slot(n)].state,
        }
    }

    pub fn get_node(&self, node_id: NodeId) -> (r: &StateActionNode<S, A>)
        requires
            self.wf(),
            node_id < self.node_count(),
        ensures
            *r == self.nodes()[node_id as int],
    {
        &self.nodes[self.slot(node_id)]
    }

    /// Consumes the tree and hands out one of its stored nodes.
    pub fn into_node(self, node_id: NodeId) -> (r: StateActionNode<S, A>)
        requires
            self.wf(),
            node_id < self.node_count(),
        ensures
            r == self.nodes()[node_id as int],
    {
        let k = self.slot(node_id);
        let mut nodes = self.nodes;
        nodes.remove(k)
    }

    pub fn get_children(&self, id: Id) -> (r: &Vec<Id>)
        requires
            self.wf(),
            self.contains(id),
        ensures
            r@ == self.children_of(id),
    {
        match id {
            Id::Root => &self.root_children,
            Id::Node(n) => &self.children[self.slot(n)],
        }
    }

    pub fn get_parent(&self, node_id: NodeId) -> (r: Id)
        requires
            self.wf(),
            node_id < self.node_count(),
        ensures
            r == self.parents()[node_id as int],
    {
        self.parents[self.slot(node_id)]
    }

    /// Depth of `id`: zero at the root.
    pub fn depth(&self, id: Id) -> (r: usize)
        requires
            self.wf(),
            self.contains(id),
        ensures
            r == self.depth_of(id),
    {
        match id {
            Id::Root => 0,
            Id::Node(n) => self.nodes[self.slot(n)].depth,
        }
    }

    /// Stored basis of `id`: zero at the root.
    pub fn acc_reward(&self, id: Id) -> (r: Score)
        requires
            self.wf(),
            self.contains(id),
        ensures
            r == self.basis_of(id),
    {
        match id {
            Id::Root => 0,
            Id::Node(n) => self.nodes[self.slot(n)].acc_reward,
        }
    }

    /// Adds one child of `parent_id` for each `(action, basis, state)` of the
    /// batch, in order, at depth one below the parent, and returns their ids.
    pub fn add_children(&mut self, parent_id: Id, batch: (Vec<A>, Vec<Score>, Vec<S>)) -> (ids: Vec<Id>)
        requires
            old(self).wf(),
            old(self).contains(parent_id),
            batch.0.len() == batch.1.len(),
            batch.1.len() == batch.2.len(),
            old(self).depth_of(parent_id) < usize::MAX,
            old(self).node_count() + batch.0.len() <= usize::MAX,
        ensures
            children_added(*old(self), *final(self), parent_id, batch.0@, batch.1@, batch.2@, ids@),
    {
        let ghost pre = *self;
        let ghost n0 = self.nodes@.len();
        let (mut actions, rewards, mut states) = batch;
        let ghost actions0 = actions@;
        let ghost states0 = states@;
        let parent_depth = self.depth(parent_id);
        let len = rewards.len();
        let mut ids: Vec<Id> = Vec::new();
        let mut j: usize = 0;
        while j < len
            invariant
                pre.wf(),
                pre.contains(parent_id),
                parent_depth == pre.depth_of(parent_id),
                parent_depth < usize::MAX,
                len == rewards.len(),
                len == actions0.len(),
                len == states0.len(),
                n0 == pre.node_count(),
                n0 + len <= usize::MAX,
                j <= len,
                actions@ == actions0.subrange(j as int, len as int),
                states@ == states0.subrange(j as int, len as int),
                self.wf(),
                self.root == pre.root,
                self.alpha == pre.alpha,
                self.nodes@.len() == n0 + j,
                ids@ == Seq::new(j as nat, |i: int| Id::Node((n0 + i) as NodeId)),
                forall|k: int|
                    0 <= k < n0 ==> #[trigger] self.nodes()[k] == pre.nodes()[k] && self.parents()[k]
                        == pre.parents()[k],
                forall|i: int|
                    0 <= i < j ==> #[trigger] self.nodes()[n0 + i] == (StateActionNode {
                        state: states0[i],
                        action: actions0[i],
                        acc_reward: rewards@[i],
                        depth: (parent_depth + 1) as usize,
                    }) && self.parents()[n0 + i] == parent_id,
                self.children_of(parent_id) == pre.children_of(parent_id) + ids@,
                forall|id: Id|
                    id != parent_id ==> #[trigger] self.children_of(id) == pre.children_of(id),
            decreases len - j,
        {
            let action = actions.remove(0);
            let state = states.remove(0);
            let k = self.nodes.len();
            let child = Id::Node(k as NodeId);
            let ghost before = *self;
            self.nodes.push(
                StateActionNode {
                    state,
                    action,
                    acc_reward: rewards[j],
                    depth: parent_depth + 1,
                },
            );
            self.parents.push(parent_id);
            self.children.push(Vec::new());
            match parent_id {
                Id::Root => self.root_children.push(child),
                Id::Node(p) => {
                    let slot = p as usize;
                    self.children[slot].push(child);
                },
            }
            ids.push(child);
            proof {
                assert(actions0.subrange(j as int, len as int)[0] == actions0[j as int]);
                assert(actions@ =~= actions0.subrange(j + 1, len as int));
                assert(states@ =~= states0.subrange(j + 1, len as int));
                assert(ids@ =~= Seq::new((j + 1) as nat, |i: int| Id::Node((n0 + i) as NodeId)));
                assert(self.children_of(parent_id) =~= pre.children_of(parent_id) + ids@);
                assert forall|id: Id| id != parent_id implies #[trigger] self.children_of(id)
                    == pre.children_of(id) by {
                    assert(self.children_of(id) == before.children_of(id));
                }
                assert(k < usize::MAX);
                lemma_add_keeps_wf(before, *self, parent_id, k as int);
            }
            j = j + 1;
        }
        proof {
            assert(ids@ =~= Seq::new(
                batch.0.len() as nat,
                |j: int| Id::Node((n0 + j) as NodeId),
            ));
        }
        ids
    }
}

/// Appending one node `k` under `parent` keeps the invariant.
proof fn lemma_add_keeps_wf<S, A>(before: SaTensorTree<S, A>, after: SaTensorTree<S, A>, parent: Id, k: int)
    requires
        before.wf(),
        before.contains(parent),
        k == before.node_count(),
        k < usize::MAX,
        after.shape_ok(),
        after.alpha == before.alpha,
        after.nodes@ == before.nodes@.push(after.nodes@[k]),
        after.parents@ == before.parents@.push(parent),
        after.nodes@[k].depth == before.depth_of(parent) + 1,
        after.children_of(parent) == before.children_of(parent).push(Id::Node(k as NodeId)),
        forall|id: Id| id != parent ==> #[trigger] after.children_of(id) == before.children_of(id),
    ensures
        after.wf(),
{
    assert forall|i: int| 0 <= i < after.node_count() implies #[trigger] after.parent_precedes(i) by {
        if i < k {
            assert(before.parent_precedes(i));
        }
    }
    assert forall|i: int| 0 <= i < after.node_count() implies #[trigger] after.nodes()[i].depth
        == after.depth_of(after.parents()[i]) + 1 by {
        if i < k {
            assert(before.nodes()[i].depth == before.depth_of(before.parents()[i]) + 1);
            assert(before.parent_precedes(i));
        }
    }
    assert forall|id: Id| after.contains(id) implies #[trigger] after.children_recorded(id) by {
        if id == Id::Node(k as NodeId) {
            assert(id != parent);
            assert(after.children_of(id) == before.children_of(id));
        } else {
            assert(before.children_recorded(id));
            let cs = after.children_of(id);
            if id == parent {
                assert(cs[cs.len() - 1] == Id::Node(k as NodeId));
                assert forall|a: int, b: int| 0 <= a < cs.len() && 0 <= b < cs.len() && a != b
                    implies cs[a] != cs[b] by {
                    if b == cs.len() - 1 {
                        assert(before.children_of(id)[a] == cs[a]);
                    } else if a == cs.len() - 1 {
                        assert(before.children_of(id)[b] == cs[b]);
                    } else {
                        assert(before.children_of(id)[a] == cs[a]);
                        assert(before.children_of(id)[b] == cs[b]);
                    }
                }
                assert forall|i: int| 0 <= i < cs.len() implies match #[trigger] cs[i] {
                    Id::Root => false,
                    Id::Node(c) => c < after.node_count() && after.parents()[c as int] == id,
                } by {
                    if i < cs.len() - 1 {
                        assert(before.children_of(id)[i] == cs[i]);
                    }
                }
            } else {
                assert forall|i: int| 0 <= i < cs.len() implies match #[trigger] cs[i] {
                    Id::Root => false,
                    Id::Node(c) => c < after.node_count() && after.parents()[c as int] == id,
                } by {
                    assert(before.children_of(id)[i] == cs[i]);
                }
            }
        }
    }
    assert forall|id: Id| !after.contains(id) implies #[trigger] after.children_of(id).len() == 0 by {
        assert(id != parent);
        assert(!before.contains(id));
        assert(after.children_of(id) == before.children_of(id));
    }
    assert forall|i: int| 0 <= i < after.node_count() implies after.children_of(
        #[trigger] after.parents()[i],
    ).contains(Id::Node(i as NodeId)) by {
        if i < k {
            let p = before.parents()[i];
            assert(before.children_of(p).contains(Id::Node(i as NodeId)));
            if p == parent {
                let w = choose|w: int| 0 <= w < before.children_of(p).len() && before.children_of(p)[w] == Id::Node(i as NodeId);
                assert(after.children_of(p)[w] == Id::Node(i as NodeId));
            }
        } else {
            assert(after.children_of(parent)[after.children_of(parent).len() - 1] == Id::Node(k as NodeId));
        }
    }
}

/// Following parent links up from the stored node `k` ends at the root after
/// exactly as many steps as `k`'s depth, and every step goes to a node added
/// earlier and one less deep.
pub open spec fn reaches_root<S, A>(tree: SaTensorTree<S, A>, k: nat) -> bool
    decreases k,
{
    &&& k < tree.node_count()
    &&& match tree.parents()[k as int] {
        Id::Root => tree.nodes()[k as int].depth == 1,
        Id::Node(j) => (j as nat) < k && tree.nodes()[k as int].depth == tree.nodes()[j as int].depth
            + 1 && reaches_root(tree, j as nat),
    }
}

/// A well-formed arena is a tree rooted at the root: each stored node is one
/// deeper than its parent, and its chain of parents reaches the root without
/// a cycle.
pub proof fn lemma_wf_is_rooted_tree<S, A>(tree: SaTensorTree<S, A>)
    requires
        tree.wf(),
    ensures
        forall|k: int|
            0 <= k < tree.node_count() ==> #[trigger] tree.nodes()[k].depth == tree.depth_of(
                tree.parents()[k],
            ) + 1,
        forall|k: nat| k < tree.node_count() ==> #[trigger] reaches_root(tree, k),
{
    assert forall|k: nat| k < tree.node_count() implies #[trigger] reaches_root(tree, k) by {
        lemma_reaches_root(tree, k);
    }
}

proof fn lemma_reaches_root<S, A>(tree: SaTensorTree<S, A>, k: nat)
    requires
        tree.wf(),
        k < tree.node_count(),
    ensures
        reaches_root(tree, k),
    decreases k,
{
    assert(tree.parent_precedes(k as int));
    assert(tree.nodes()[k as int].depth == tree.depth_of(tree.parents()[k as int]) + 1);
    if let Id::Node(j) = tree.parents()[k as int] {
        lemma_reaches_root(tree, j as nat);
    }
}

} // verus!

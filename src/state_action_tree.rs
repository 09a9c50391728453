use vstd::prelude::*;

use either::Either;

use crate::id::{Id, NodeId};
use crate::score::Score;

verus! {

/// Expands a state into its possible steps: for each, the action taken, the
/// reward it earned and the state it led to.
pub trait StateExpander<S, A> {
    fn expand(&mut self, game_state: &S) -> Vec<(A, Score, S)>;
}

/// A node reached by one step: the state it led to, the action taken and the
/// reward it earned.
pub struct StateActionNode<S, A> {
    pub state: S,
    pub action: A,
    pub reward: Score,
}

/// An arena of steps over one root state, with the set of locations not yet
/// expanded. The node with id `n` is the `n`-th node added.
pub struct StateActionTree<S, A> {
    frontier: Vec<Id>,
    nodes: Vec<StateActionNode<S, A>>,
    parents: Vec<Id>,
    children: Vec<Vec<Id>>,
    root_children: Vec<Id>,
    root: S,
}

impl<S, A> StateActionTree<S, A> {
    pub closed spec fn root_state(&self) -> S {
        self.root
    }

    /// The locations not yet expanded, in the order they became known.
    pub closed spec fn frontier(&self) -> Seq<Id> {
        self.frontier@
    }

    pub closed spec fn nodes(&self) -> Seq<StateActionNode<S, A>> {
        self.nodes@
    }

    pub closed spec fn parents(&self) -> Seq<Id> {
        self.parents@
    }

    pub closed spec fn children_of(&self, id: Id) -> Seq<Id> {
        match id {
            Id::Root => self.root_children@,
            Id::Node(n) => if (n as int) < self.children@.len() {
                self.children@[n as int]@
            } else {
                Seq::empty()
            },
        }
    }

    /// The arena's internal tables have one entry per node.
    pub closed spec fn shape_ok(&self) -> bool {
        &&& self.parents@.len() == self.nodes@.len()
        &&& self.children@.len() == self.nodes@.len()
    }

    pub open spec fn node_count(&self) -> nat {
        self.nodes().len()
    }

    pub open spec fn contains(&self, id: Id) -> bool {
        match id {
            Id::Root => true,
            Id::Node(n) => n < self.node_count(),
        }
    }

    pub open spec fn state_of(&self, id: Id) -> S {
        match id {
            Id::Root => self.root_state(),
            Id::Node(n) => self.nodes()[n as int].state,
        }
    }

    pub open spec fn parent_precedes(&self, k: int) -> bool {
        match self.parents()[k] {
            Id::Root => true,
            Id::Node(j) => j < k,
        }
    }

    pub open spec fn children_recorded(&self, id: Id) -> bool {
        &&& self.children_of(id).no_duplicates()
        &&& forall|i: int|
            0 <= i < self.children_of(id).len() ==> match #[trigger] self.children_of(id)[i] {
                Id::Root => false,
                Id::Node(c) => c < self.node_count() && self.parents()[c as int] == id,
            }
    }

    /// Parents come first, the children lists agree with the parent links, and
    /// the frontier lists distinct locations that have no children.
    pub open spec fn wf(&self) -> bool {
        &&& self.shape_ok()
        &&& self.parents().len() == self.node_count()
        &&& forall|k: int| 0 <= k < self.node_count() ==> #[trigger] self.parent_precedes(k)
        &&& forall|id: Id| self.contains(id) ==> #[trigger] self.children_recorded(id)
        &&& forall|id: Id| !self.contains(id) ==> #[trigger] self.children_of(id).len() == 0
        &&& forall|k: int|
            0 <= k < self.node_count() ==> self.children_of(#[trigger] self.parents()[k]).contains(
                Id::Node(k as NodeId),
            )
        &&& self.frontier().no_duplicates()
        &&& forall|i: int|
            0 <= i < self.frontier().len() ==> self.contains(#[trigger] self.frontier()[i])
                && self.children_of(self.frontier()[i]).len() == 0
    }

    /// A tree holding only its root, which is the whole frontier.
    pub fn new(root: S) -> (r: Self)
        ensures
            r.wf(),
            r.root_state() == root,
            r.node_count() == 0,
            r.frontier() == seq![Id::Root],
    {
        let mut frontier: Vec<Id> = Vec::new();
        frontier.push(Id::Root);
        let r = StateActionTree {
            frontier,
            nodes: Vec::new(),
            parents: Vec::new(),
            children: Vec::new(),
            root_children: Vec::new(),
            root,
        };
        proof {
            assert(r.frontier() =~= seq![Id::Root]);
        }
        r
    }

    fn slot(&self, n: NodeId) -> (k: usize)
        requires
            self.wf(),
            n < self.node_count(),
        ensures
            k == n,
    {
        proof {
            assert(self.nodes@.len() == self.nodes.len());
        }
        n as usize
    }

    /// A walker standing on `id`.
    pub fn start_walking<'t>(&'t self, id: Id) -> (r: StateActionNodeWalker<'t, S, A>)
        requires
            self.wf(),
            self.contains(id),
        ensures
            r.at() == id,
            r.walked() == *self,
    {
        StateActionNodeWalker { id, tree: self }
    }

    pub fn get_state(&self, id: Id) -> (r: &S)
        requires
            self.wf(),
            self.contains(id),
        ensures
            *r == self.state_of(id),
    {
        match id {
            Id::Root => &self.root,
            Id::Node(n) => &self.nodes[self.slot(n)].state,
        }
    }

    /// The root state on the left, or the stored node on the right.
    pub fn get(&self, id: Id) -> (r: Either<&S, &StateActionNode<S, A>>)
        requires
            self.wf(),
            self.contains(id),
        ensures
            r == match id {
                Id::Root => Either::<&S, &StateActionNode<S, A>>::Left(&self.root_state()),
                Id::Node(n) => Either::<&S, &StateActionNode<S, A>>::Right(
                    &self.nodes()[n as int],
                ),
            },
    {
        match id {
            Id::Root => Either::Left(&self.root),
            Id::Node(node_id) => Either::Right(self.get_node(node_id)),
        }
    }

    pub fn get_node(&self, node_id: NodeId) -> (r: &StateActionNode<S, A>)
        requires
            self.wf(),
            node_id < self.node_count(),
        ensures
            *r == self.nodes()[node_id as int],
    {
        &self.nodes[self.slot(node_id)]
    }

    pub fn get_children(&self, id: Id) -> (r: &Vec<Id>)
        requires
            self.wf(),
            self.contains(id),
        ensures
            r@ == self.children_of(id),
    {
        match id {
            Id::Root => &self.root_children,
            Id::Node(n) => &self.children[self.slot(n)],
        }
    }

    pub fn get_parent(&self, node_id: NodeId) -> (r: Id)
        requires
            self.wf(),
            node_id < self.node_count(),
        ensures
            r == self.parents()[node_id as int],
    {
        self.parents[self.slot(node_id)]
    }

    pub fn get_frontier(&self) -> (r: &Vec<Id>)
        ensures
            r@ == self.frontier(),
    {
        &self.frontier
    }
}

/// The ids of the nodes `post` holds beyond those of `pre`.
pub open spec fn added_ids<S, A>(pre: StateActionTree<S, A>, post: StateActionTree<S, A>) -> Seq<Id> {
    Seq::new(
        (post.node_count() - pre.node_count()) as nat,
        |j: int| Id::Node((pre.node_count() + j) as NodeId),
    )
}

/// `post` is `pre` after the frontier location `id`, at position `p` of the
/// frontier, was replaced by one new child per step `(action, reward, state)`,
/// in order: each child holds its step, has `id` as parent, and is put on the
/// frontier. Nothing else changes.
pub open spec fn steps_added<S, A>(
    pre: StateActionTree<S, A>,
    post: StateActionTree<S, A>,
    id: Id,
    p: int,
    steps: Seq<(A, Score, S)>,
) -> bool {
    let n0 = pre.node_count();
    &&& 0 <= p < pre.frontier().len()
    &&& pre.frontier()[p] == id
    &&& post.wf()
    &&& post.root_state() == pre.root_state()
    &&& post.node_count() == n0 + steps.len()
    &&& forall|k: int|
        0 <= k < n0 ==> #[trigger] post.nodes()[k] == pre.nodes()[k] && post.parents()[k]
            == pre.parents()[k]
    &&& forall|j: int|
        0 <= j < steps.len() ==> #[trigger] post.nodes()[n0 + j] == (StateActionNode {
            state: steps[j].2,
            action: steps[j].0,
            reward: steps[j].1,
        }) && post.parents()[n0 + j] == id
    &&& post.children_of(id) == added_ids(pre, post)
    &&& forall|x: Id| x != id ==> #[trigger] post.children_of(x) == pre.children_of(x)
    &&& post.frontier() == pre.frontier().remove(p) + added_ids(pre, post)
}

impl<S, A> StateActionTree<S, A> {
    /// Expands the frontier location `id`: asks the expander for the steps
    /// from its state, once, and adds them with `add_steps`.
    pub fn expand_once<E: StateExpander<S, A>>(&mut self, id: Id, expander: &mut E)
        requires
            old(self).wf(),
            old(self).frontier().contains(id),
        ensures
            exists|p: int, steps: Seq<(A, Score, S)>|
                #[trigger] steps_added(*old(self), *final(self), id, p, steps),
    {
        let steps = expander.expand(self.get_state(id));
        let ghost taken = steps@;
        self.add_steps(id, steps);
        proof {
            let p = choose|p: int| steps_added(*old(self), *self, id, p, taken);
            assert(steps_added(*old(self), *self, id, p, taken));
        }
    }

    /// Takes the frontier location `id` off the frontier and adds one child of
    /// `id` per step `(action, reward, state)`, in order, each put on the
    /// frontier.
    pub fn add_steps(&mut self, id: Id, steps: Vec<(A, Score, S)>)
        requires
            old(self).wf(),
            old(self).frontier().contains(id),
        ensures
            exists|p: int| #[trigger] steps_added(*old(self), *final(self), id, p, steps@),
    {
        let ghost pre = *self;
        let mut p: usize = 0;
        while p < self.frontier.len() && self.frontier[p] != id
            invariant
                *self == pre,
                pre.frontier().contains(id),
                p <= self.frontier@.len(),
                forall|q: int| 0 <= q < p ==> #[trigger] self.frontier@[q] != id,
            decreases self.frontier@.len() - p,
        {
            p = p + 1;
        }
        proof {
            if p == self.frontier@.len() {
                let w = choose|w: int| 0 <= w < pre.frontier().len() && pre.frontier()[w] == id;
                assert(self.frontier@[w] != id);
            }
        }
        self.frontier.remove(p);
        proof {
            let f0 = pre.frontier();
            let f1 = self.frontier();
            assert(f1 =~= f0.remove(p as int));
            assert forall|a: int, b: int| 0 <= a < f1.len() && 0 <= b < f1.len() && a != b implies f1[a]
                != f1[b] by {
                let a0 = if a < p { a } else { a + 1 };
                let b0 = if b < p { b } else { b + 1 };
                assert(f1[a] == f0[a0]);
                assert(f1[b] == f0[b0]);
            }
            assert forall|i: int| 0 <= i < f1.len() implies self.contains(#[trigger] f1[i])
                && self.children_of(f1[i]).len() == 0 && f1[i] != id by {
                let i0 = if i < p { i } else { i + 1 };
                assert(f1[i] == f0[i0]);
                assert(f0[p as int] == id);
            }
            assert(self.children_of(id) == pre.children_of(id));
            assert forall|x: Id| self.contains(x) implies #[trigger] self.children_recorded(x) by {
                assert(pre.children_recorded(x));
            }
            assert forall|x: Id| !self.contains(x) implies #[trigger] self.children_of(x).len() == 0 by {
                assert(pre.children_of(x) == self.children_of(x));
            }
            assert forall|k: int| 0 <= k < self.node_count() implies #[trigger] self.parent_precedes(k) by {
                assert(pre.parent_precedes(k));
            }
            assert forall|k: int| 0 <= k < self.node_count() implies self.children_of(
                #[trigger] self.parents()[k],
            ).contains(Id::Node(k as NodeId)) by {
                assert(pre.children_of(pre.parents()[k]).contains(Id::Node(k as NodeId)));
            }
        }
        let ghost mid = *self;
        let mut steps = steps;
        let ghost steps0 = steps@;
        let ghost n0 = self.nodes@.len();
        let m = steps.len();
        let mut j: usize = 0;
        while j < m
            invariant
                mid.wf(),
                mid.contains(id),
                mid.children_of(id).len() == 0,
                mid.root == pre.root,
                mid.frontier() =~= pre.frontier().remove(p as int),
                0 <= p < pre.frontier().len(),
                pre.frontier()[p as int] == id,
                n0 == mid.node_count(),
                mid.node_count() == pre.node_count(),
                forall|k: int| 0 <= k < n0 ==> #[trigger] mid.nodes()[k] == pre.nodes()[k] && mid.parents()[k] == pre.parents()[k],
                forall|x: Id| #[trigger] mid.children_of(x) == pre.children_of(x),
                j <= m,
                m == steps0.len(),
                steps@ == steps0.subrange(j as int, m as int),
                forall|k: int|
                    n0 <= k < n0 + j ==> #[trigger] self.nodes()[k] == (StateActionNode {
                        state: steps0[k - n0].2,
                        action: steps0[k - n0].0,
                        reward: steps0[k - n0].1,
                    }),
                self.wf(),
                !self.frontier().contains(id),
                self.root == pre.root,
                self.nodes@.len() == n0 + j,
                forall|k: int| 0 <= k < n0 ==> #[trigger] self.nodes()[k] == pre.nodes()[k] && self.parents()[k] == pre.parents()[k],
                forall|k: int| n0 <= k < n0 + j ==> #[trigger] self.parents()[k] == id,
                self.children_of(id) == added_ids(mid, *self),
                forall|x: Id| x != id ==> #[trigger] self.children_of(x) == mid.children_of(x),
                self.frontier() == mid.frontier() + added_ids(mid, *self),
            decreases m - j,
        {
            proof {
                assert(steps0.subrange(j as int, m as int)[0] == steps0[j as int]);
            }
            let (action, reward, state) = steps.remove(0);
            proof {
                assert(steps@ =~= steps0.subrange(j + 1, m as int));
            }
            let k = self.nodes.len();
            let child = Id::Node(k as NodeId);
            let ghost before = *self;
            self.nodes.push(StateActionNode { state, action, reward });
            self.parents.push(id);
            self.children.push(Vec::new());
            match id {
                Id::Root => self.root_children.push(child),
                Id::Node(q) => {
                    let slot = q as usize;
                    self.children[slot].push(child);
                },
            }
            self.frontier.push(child);
            proof {
                assert(added_ids(mid, *self) =~= added_ids(mid, before).push(child));
                assert(self.children_of(id) =~= before.children_of(id).push(child));
                assert forall|x: Id| x != id implies #[trigger] self.children_of(x) == before.children_of(x) by {}
                assert(self.frontier() =~= mid.frontier() + added_ids(mid, *self));
                lemma_push_node_keeps_wf(before, *self, id, k as int);
                assert forall|k2: int| 0 <= k2 < n0 implies #[trigger] self.nodes()[k2] == pre.nodes()[k2] && self.parents()[k2] == pre.parents()[k2] by {
                    assert(self.nodes()[k2] == before.nodes()[k2]);
                    assert(self.parents()[k2] == before.parents()[k2]);
                    assert(before.nodes()[k2] == pre.nodes()[k2]);
                    assert(before.parents()[k2] == pre.parents()[k2]);
                }
                assert forall|k2: int| n0 <= k2 < n0 + j + 1 implies #[trigger] self.parents()[k2] == id by {
                    if k2 < n0 + j {
                        assert(self.parents()[k2] == before.parents()[k2]);
                    }
                }
                assert forall|k2: int| n0 <= k2 < n0 + j + 1 implies #[trigger] self.nodes()[k2] == (StateActionNode {
                    state: steps0[k2 - n0].2,
                    action: steps0[k2 - n0].0,
                    reward: steps0[k2 - n0].1,
                }) by {
                    if k2 < n0 + j {
                        assert(self.nodes()[k2] == before.nodes()[k2]);
                    }
                }
                assert(!self.frontier().contains(id)) by {
                    if self.frontier().contains(id) {
                        let w = choose|w: int| 0 <= w < self.frontier().len() && self.frontier()[w] == id;
                        if w < before.frontier().len() {
                            assert(before.frontier()[w] == id);
                        }
                    }
                }
            }
            j = j + 1;
        }
        proof {
            assert(added_ids(pre, *self) == added_ids(mid, *self));
            assert forall|x: Id| x != id implies #[trigger] self.children_of(x) == pre.children_of(x) by {
                assert(mid.children_of(x) == pre.children_of(x));
            }
            assert(self.frontier() == pre.frontier().remove(p as int) + added_ids(pre, *self));
            assert(steps_added(pre, *self, id, p as int, steps0));
        }
    }
}

/// Appending one node `k` under `parent`, which is not on the frontier, and
/// putting the node on the frontier keeps the invariant.
proof fn lemma_push_node_keeps_wf<S, A>(
    before: StateActionTree<S, A>,
    after: StateActionTree<S, A>,
    parent: Id,
    k: int,
)
    requires
        before.wf(),
        before.contains(parent),
        !before.frontier().contains(parent),
        k == before.node_count(),
        k <= usize::MAX,
        after.shape_ok(),
        after.nodes@ == before.nodes@.push(after.nodes@[k]),
        after.parents@ == before.parents@.push(parent),
        after.children_of(parent) == before.children_of(parent).push(Id::Node(k as NodeId)),
        forall|id: Id| id != parent ==> #[trigger] after.children_of(id) == before.children_of(id),
        after.frontier() == before.frontier().push(Id::Node(k as NodeId)),
    ensures
        after.wf(),
{
    assert forall|i: int| 0 <= i < after.node_count() implies #[trigger] after.parent_precedes(i) by {
        if i < k {
            assert(before.parent_precedes(i));
        }
    }
    assert forall|id: Id| after.contains(id) implies #[trigger] after.children_recorded(id) by {
        if id == Id::Node(k as NodeId) {
            assert(id != parent);
            assert(after.children_of(id) == before.children_of(id));
        } else {
            assert(before.children_recorded(id));
            let cs = after.children_of(id);
            if id == parent {
                assert(cs[cs.len() - 1] == Id::Node(k as NodeId));
                assert forall|a: int, b: int| 0 <= a < cs.len() && 0 <= b < cs.len() && a != b
                    implies cs[a] != cs[b] by {
                    if b == cs.len() - 1 {
                        assert(before.children_of(id)[a] == cs[a]);
                    } else if a == cs.len() - 1 {
                        assert(before.children_of(id)[b] == cs[b]);
                    } else {
                        assert(before.children_of(id)[a] == cs[a]);
                        assert(before.children_of(id)[b] == cs[b]);
                    }
                }
                assert forall|i: int| 0 <= i < cs.len() implies match #[trigger] cs[i] {
                    Id::Root => false,
                    Id::Node(c) => c < after.node_count() && after.parents()[c as int] == id,
                } by {
                    if i < cs.len() - 1 {
                        assert(before.children_of(id)[i] == cs[i]);
                    }
                }
            } else {
                assert forall|i: int| 0 <= i < cs.len() implies match #[trigger] cs[i] {
                    Id::Root => false,
                    Id::Node(c) => c < after.node_count() && after.parents()[c as int] == id,
                } by {
                    assert(before.children_of(id)[i] == cs[i]);
                }
            }
        }
    }
    assert forall|id: Id| !after.contains(id) implies #[trigger] after.children_of(id).len() == 0 by {
        assert(id != parent);
        assert(!before.contains(id));
        assert(after.children_of(id) == before.children_of(id));
    }
    assert forall|i: int| 0 <= i < after.node_count() implies after.children_of(
        #[trigger] after.parents()[i],
    ).contains(Id::Node(i as NodeId)) by {
        if i < k {
            let p = before.parents()[i];
            assert(before.children_of(p).contains(Id::Node(i as NodeId)));
            if p == parent {
                let w = choose|w: int|
                    0 <= w < before.children_of(p).len() && before.children_of(p)[w] == Id::Node(
                        i as NodeId,
                    );
                assert(after.children_of(p)[w] == Id::Node(i as NodeId));
            }
        } else {
            assert(after.children_of(parent)[after.children_of(parent).len() - 1] == Id::Node(
                k as NodeId,
            ));
        }
    }
    let f0 = before.frontier();
    let f1 = after.frontier();
    assert forall|a: int, b: int| 0 <= a < f1.len() && 0 <= b < f1.len() && a != b implies f1[a]
        != f1[b] by {
        if a < f0.len() && b < f0.len() {
            assert(f1[a] == f0[a] && f1[b] == f0[b]);
        } else if a < f0.len() {
            assert(before.contains(f0[a]));
        } else if b < f0.len() {
            assert(before.contains(f0[b]));
        }
    }
    assert forall|i: int| 0 <= i < f1.len() implies after.contains(#[trigger] f1[i])
        && after.children_of(f1[i]).len() == 0 by {
        if i < f0.len() {
            assert(f1[i] == f0[i]);
            assert(before.contains(f0[i]) && before.children_of(f0[i]).len() == 0);
            if f0[i] == parent {
                assert(f0.contains(parent));
            }
            assert(after.children_of(f1[i]) == before.children_of(f1[i]));
        } else {
            assert(f1[i] == Id::Node(k as NodeId));
            assert(Id::Node(k as NodeId) != parent);
            assert(!before.contains(Id::Node(k as NodeId)));
            assert(after.children_of(f1[i]) == before.children_of(f1[i]));
        }
    }
}

/// A read-only walker on one location of a `StateActionTree`.
#[verifier::reject_recursive_types(S)]
#[verifier::reject_recursive_types(A)]
pub struct StateActionNodeWalker<'t, S, A> {
    id: Id,
    tree: &'t StateActionTree<S, A>,
}

impl<'t, S, A> StateActionNodeWalker<'t, S, A> {
    pub closed spec fn at(&self) -> Id {
        self.id
    }

    pub closed spec fn walked(&self) -> StateActionTree<S, A> {
        *self.tree
    }

    pub open spec fn valid(&self) -> bool {
        self.walked().wf() && self.walked().contains(self.at())
    }

    pub fn is_root(&self) -> (r: bool)
        ensures
            r == (self.at() == Id::Root),
    {
        self.id.is_root()
    }

    pub fn id(&self) -> (r: Id)
        ensures
            r == self.at(),
    {
        self.id
    }

    pub fn state(&self) -> (r: &'t S)
        requires
            self.valid(),
        ensures
            *r == self.walked().state_of(self.at()),
    {
        self.tree.get_state(self.id)
    }

    pub fn node(&self) -> (r: Option<&'t StateActionNode<S, A>>)
        requires
            self.valid(),
        ensures
            r == match self.at() {
                Id::Root => None::<&StateActionNode<S, A>>,
                Id::Node(n) => Some(&self.walked().nodes()[n as int]),
            },
    {
        match self.id {
            Id::Root => None,
            Id::Node(n) => Some(self.tree.get_node(n)),
        }
    }

    /// Walkers on the children, in the order they were added.
    pub fn children(&self) -> (r: Vec<StateActionNodeWalker<'t, S, A>>)
        requires
            self.valid(),
        ensures
            r@.len() == self.walked().children_of(self.at()).len(),
            forall|i: int|
                0 <= i < r@.len() ==> #[trigger] r@[i].at() == self.walked().children_of(
                    self.at(),
                )[i] && r@[i].walked() == self.walked() && r@[i].valid(),
    {
        let tree = self.tree;
        let ids = tree.get_children(self.id);
        let mut res: Vec<StateActionNodeWalker<'t, S, A>> = Vec::new();
        let mut i: usize = 0;
        while i < ids.len()
            invariant
                tree.wf(),
                tree.contains(self.id),
                tree.children_recorded(self.id),
                ids@ == tree.children_of(self.id),
                tree == self.tree,
                i <= ids@.len(),
                res@.len() == i,
                forall|j: int|
                    0 <= j < i ==> #[trigger] res@[j].at() == ids@[j] && res@[j].walked() == *tree
                        && res@[j].valid(),
            decreases ids@.len() - i,
        {
            let c = ids[i];
            proof {
                assert(tree.children_of(self.id)[i as int] == c);
            }
            res.push(tree.start_walking(c));
            i = i + 1;
        }
        res
    }

    /// A walker on the parent, or `None` at the root.
    pub fn parent(&self) -> (r: Option<StateActionNodeWalker<'t, S, A>>)
        requires
            self.valid(),
        ensures
            match self.at() {
                Id::Root => r.is_none(),
                Id::Node(n) => r.is_some() && r.unwrap().at() == self.walked().parents()[n as int]
                    && r.unwrap().walked() == self.walked() && r.unwrap().valid(),
            },
    {
        match self.id {
            Id::Root => None,
            Id::Node(node_id) => {
                let parent_id = self.tree.get_parent(node_id);
                proof {
                    assert(self.tree.parent_precedes(node_id as int));
                }
                Some(StateActionNodeWalker { id: parent_id, tree: self.tree })
            },
        }
    }
}

} // verus!

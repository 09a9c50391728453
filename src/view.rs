use vstd::prelude::*;

use either::Either;

use crate::id::Id;
use crate::score::Score;
use crate::tree::{SaTensorTree, StateActionNode};

verus! {

/// Relies on either::Either: an enum with the two public variants `Left(L)` and
/// `Right(R)` and nothing else.
#[verifier::external_type_specification]
#[verifier::reject_recursive_types(L)]
#[verifier::reject_recursive_types(R)]
pub struct ExEither<L, R>(Either<L, R>);

/// A read-only cursor on one location of a tree: the root state on the left, a
/// stored node on the right.
#[verifier::reject_recursive_types(S)]
#[verifier::reject_recursive_types(A)]
pub struct StateActionNodeView<'t, S, A> {
    id: Id,
    value: Either<&'t S, &'t StateActionNode<S, A>>,
    tree: &'t SaTensorTree<S, A>,
}

impl<'t, S, A> StateActionNodeView<'t, S, A> {
    /// The location the cursor stands on.
    pub closed spec fn at(&self) -> Id {
        self.id
    }

    /// The tree the cursor walks.
    pub closed spec fn walked(&self) -> SaTensorTree<S, A> {
        *self.tree
    }

    /// The cursor stands on a location of a well-formed tree, and holds what
    /// is stored there.
    pub closed spec fn valid(&self) -> bool {
        &&& self.tree.wf()
        &&& self.tree.contains(self.id)
        &&& match self.id {
            Id::Root => self.value == Either::<&S, &StateActionNode<S, A>>::Left(
                &self.tree.root_state(),
            ),
            Id::Node(n) => self.value == Either::<&S, &StateActionNode<S, A>>::Right(
                &self.tree.nodes()[n as int],
            ),
        }
    }

    /// A valid cursor walks a well-formed tree and stands on one of its
    /// locations.
    pub proof fn lemma_valid_walk(&self)
        requires
            self.valid(),
        ensures
            self.walked().wf(),
            self.walked().contains(self.at()),
    {
    }

    /// A cursor on `id` of `tree`.
    pub fn new(tree: &'t SaTensorTree<S, A>, id: Id) -> (r: Self)
        requires
            tree.wf(),
            tree.contains(id),
        ensures
            r.valid(),
            r.at() == id,
            r.walked() == *tree,
    {
        let value = match id {
            Id::Root => Either::Left(tree.get_state(Id::Root)),
            Id::Node(node_id) => Either::Right(tree.get_node(node_id)),
        };
        StateActionNodeView { id, value, tree }
    }

    pub fn is_root(&self) -> (r: bool)
        ensures
            r == (self.at() == Id::Root),
    {
        self.id.is_root()
    }

    pub fn id(&self) -> (r: Id)
        ensures
            r == self.at(),
    {
        self.id
    }

    pub fn state(&self) -> (r: &'t S)
        requires
            self.valid(),
        ensures
            *r == self.walked().state_of(self.at()),
    {
        self.tree.get_state(self.id)
    }

    /// The stored node, or `None` at the root.
    pub fn node(&self) -> (r: Option<&'t StateActionNode<S, A>>)
        requires
            self.valid(),
        ensures
            r == match self.at() {
                Id::Root => None::<&StateActionNode<S, A>>,
                Id::Node(n) => Some(&self.walked().nodes()[n as int]),
            },
    {
        match self.value {
            Either::Left(_) => None,
            Either::Right(node) => Some(node),
        }
    }

    /// Cursors on the children, in the order they were added.
    pub fn children(&self) -> (r: Vec<StateActionNodeView<'t, S, A>>)
        requires
            self.valid(),
        ensures
            r@.len() == self.walked().children_of(self.at()).len(),
            forall|i: int|
                0 <= i < r@.len() ==> #[trigger] r@[i].at() == self.walked().children_of(
                    self.at(),
                )[i] && r@[i].walked() == self.walked() && r@[i].valid(),
    {
        let tree = self.tree;
        let ids = tree.get_children(self.id);
        let mut res: Vec<StateActionNodeView<'t, S, A>> = Vec::new();
        let mut i: usize = 0;
        while i < ids.len()
            invariant
                tree.wf(),
                tree.contains(self.id),
                tree.children_recorded(self.id),
                ids@ == tree.children_of(self.id),
                tree == self.tree,
                i <= ids@.len(),
                res@.len() == i,
                forall|j: int|
                    0 <= j < i ==> #[trigger] res@[j].at() == ids@[j] && res@[j].walked() == *tree
                        && res@[j].valid(),
            decreases ids@.len() - i,
        {
            let c = ids[i];
            proof {
                assert(tree.children_of(self.id)[i as int] == c);
            }
            res.push(StateActionNodeView::new(tree, c));
            i = i + 1;
        }
        res
    }

    /// A cursor on the parent, or `None` at the root.
    pub fn parent(&self) -> (r: Option<StateActionNodeView<'t, S, A>>)
        requires
            self.valid(),
        ensures
            match self.at() {
                Id::Root => r.is_none(),
                Id::Node(n) => r.is_some() && r.unwrap().at() == self.walked().parents()[n as int]
                    && r.unwrap().walked() == self.walked() && r.unwrap().valid(),
            },
    {
        match self.id {
            Id::Root => None,
            Id::Node(node_id) => {
                let parent_id = self.tree.get_parent(node_id);
                proof {
                    assert(self.tree.parent_precedes(node_id as int));
                }
                Some(StateActionNodeView::new(self.tree, parent_id))
            },
        }
    }

    /// The stored basis; zero at the root.
    pub fn acc_reward(&self) -> (r: Score)
        requires
            self.valid(),
        ensures
            r == self.walked().basis_of(self.at()),
    {
        match self.value {
            Either::Left(_) => 0,
            Either::Right(node) => node.acc_reward,
        }
    }

    /// The distance from the root.
    pub fn depth(&self) -> (r: usize)
        requires
            self.valid(),
        ensures
            r == self.walked().depth_of(self.at()),
    {
        match self.value {
            Either::Left(_) => 0,
            Either::Right(node) => node.depth,
        }
    }
}

impl<S, A> SaTensorTree<S, A> {
    /// A cursor on `id`.
    pub fn get<'t>(&'t self, id: Id) -> (r: StateActionNodeView<'t, S, A>)
        requires
            self.wf(),
            self.contains(id),
        ensures
            r.valid(),
            r.at() == id,
            r.walked() == *self,
    {
        StateActionNodeView::new(self, id)
    }
}

} // verus!

use vstd::prelude::*;

use crate::expansion::{
    expanded, search_result, DynamicsOracle, MultiActionTensorPolicy, TreeExpander, ValueOracle,
    ValuesHaveWrongSize,
};
use crate::extract::{
    best_first_actions, extractable, first_step_of_best, lemma_best_first_action_depth_one,
    lemma_searched_extractable,
};
use crate::frontier::NotOpened;
use crate::score::valid_alpha;
use crate::tree::SaTensorTree;

verus! {

/// Chooses actions by looking ahead: grows a tree of `depth` rounds of
/// `breadth` candidates from each state, then commits to the first action of
/// the most promising trajectory.
pub struct TreeExpPolicy<P, D, V> {
    tree_expander: TreeExpander<P, D, V>,
    depth: usize,
    breadth: usize,
}

impl<P, D, V> TreeExpPolicy<P, D, V> {
    pub closed spec fn spec_depth(&self) -> usize {
        self.depth
    }

    pub closed spec fn spec_breadth(&self) -> usize {
        self.breadth
    }

    pub closed spec fn spec_alpha(&self) -> u64 {
        self.tree_expander.spec_alpha()
    }

    /// At least one round of at least one candidate, within the size of the
    /// arena, and a discount factor in `(0, 1]`.
    pub open spec fn inv(&self) -> bool {
        &&& self.spec_depth() >= 1
        &&& self.spec_breadth() >= 1
        &&& self.spec_depth() * self.spec_breadth() <= usize::MAX
        &&& valid_alpha(self.spec_alpha() as int)
    }

    pub fn new(tree_expander: TreeExpander<P, D, V>, depth: usize, breadth: usize) -> (r: Self)
        requires
            depth >= 1,
            breadth >= 1,
            depth * breadth <= usize::MAX,
            valid_alpha(tree_expander.spec_alpha() as int),
        ensures
            r.inv(),
            r.spec_depth() == depth,
            r.spec_breadth() == breadth,
            r.spec_alpha() == tree_expander.spec_alpha(),
    {
        TreeExpPolicy { tree_expander, depth, breadth }
    }

    /// One action per state: the first action of the most promising trajectory
    /// of the tree searched from that state. The searched trees, with their
    /// frontiers, come back as a ghost value that the actions are stated over.
    pub fn select_action_tensor<S: Clone, A>(&mut self, states: Vec<S>) -> (r: Result<
        (Vec<A>, Ghost<Seq<(NotOpened, SaTensorTree<S, A>)>>),
        ValuesHaveWrongSize,
    >) where
        P: MultiActionTensorPolicy<S, A>,
        D: DynamicsOracle<S, A>,
        V: ValueOracle<S>,

        requires
            old(self).inv(),
        ensures
            final(self).inv(),
            final(self).spec_depth() == old(self).spec_depth(),
            final(self).spec_breadth() == old(self).spec_breadth(),
            final(self).spec_alpha() == old(self).spec_alpha(),
            states.len() == 0 ==> (r matches Ok((actions, _)) && actions@.len() == 0),
            r matches Ok((actions, searched)) ==> {
                &&& expanded(
                    searched@,
                    states@,
                    old(self).spec_alpha(),
                    old(self).spec_depth() as nat,
                    old(self).spec_breadth() as nat,
                )
                &&& actions@.len() == states@.len()
                &&& forall|i: int|
                    0 <= i < actions@.len() ==> {
                        let (f, t) = searched@[i];
                        &&& #[trigger] actions@[i] == t.nodes()[first_step_of_best(f@, t) as int].action
                        &&& first_step_of_best(f@, t) < t.node_count()
                        &&& t.nodes()[first_step_of_best(f@, t) as int].depth == 1
                    }
            },
    {
        let depth = self.depth;
        let breadth = self.breadth;
        let ghost alpha = self.spec_alpha();
        let trees = match self.tree_expander.expand_states_tensor(states, depth, breadth) {
            Ok(trees) => trees,
            Err(e) => {
                return Err(e);
            },
        };
        proof {
            assert forall|i: int| 0 <= i < trees@.len() implies extractable(
                (#[trigger] trees@[i]).0@,
                trees@[i].1,
            ) by {
                assert(search_result(trees@[i].0@, trees@[i].1, states@[i], alpha, depth as nat, breadth as nat));
                lemma_searched_extractable(
                    trees@[i].0@,
                    trees@[i].1,
                    states@[i],
                    alpha,
                    depth as nat,
                    breadth as nat,
                );
            }
        }
        let ghost batch = trees@;
        let actions = best_first_actions(trees);
        proof {
            assert forall|i: int| 0 <= i < actions@.len() implies {
                let (f, t) = batch[i];
                &&& #[trigger] actions@[i] == t.nodes()[first_step_of_best(f@, t) as int].action
                &&& first_step_of_best(f@, t) < t.node_count()
                &&& t.nodes()[first_step_of_best(f@, t) as int].depth == 1
            } by {
                lemma_best_first_action_depth_one(batch[i].0@, batch[i].1);
            }
        }
        Ok((actions, Ghost(batch)))
    }
}

} // verus!

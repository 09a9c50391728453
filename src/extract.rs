use vstd::prelude::*;

use crate::frontier::{best_index, lemma_best_index, NotOpened};
use crate::id::{Id, NodeId};
use crate::score::Score;
use crate::expansion::{frontier_ids, searched};
use crate::tree::SaTensorTree;

verus! {

/// The entry that `take_best` removes from a non-empty frontier.
pub open spec fn best_entry(f: Seq<(Score, Id)>) -> (Score, Id) {
    f[best_index(f)]
}

/// The ancestor at depth one of the stored node `k` (or `k` itself when it is
/// at depth one): the first step of the path from the root to `k`.
pub open spec fn first_step<S, A>(tree: SaTensorTree<S, A>, k: nat) -> nat
    decreases k,
{
    if tree.nodes()[k as int].depth <= 1 {
        k
    } else {
        match tree.parents()[k as int] {
            Id::Root => k,
            Id::Node(j) => if (j as nat) < k {
                first_step(tree, j as nat)
            } else {
                k
            },
        }
    }
}

/// The first step of every stored node is a stored node at depth one.
pub proof fn lemma_first_step<S, A>(tree: SaTensorTree<S, A>, k: nat)
    requires
        tree.wf(),
        k < tree.node_count(),
    ensures
        first_step(tree, k) < tree.node_count(),
        tree.nodes()[first_step(tree, k) as int].depth == 1,
    decreases k,
{
    assert(tree.parent_precedes(k as int));
    assert(tree.nodes()[k as int].depth == tree.depth_of(tree.parents()[k as int]) + 1);
    if let Id::Node(j) = tree.parents()[k as int] {
        if tree.nodes()[k as int].depth > 1 {
            lemma_first_step(tree, j as nat);
        }
    }
}

/// The stored node whose action `best_first_action` returns for a frontier `f`
/// whose best entry is a stored node.
pub open spec fn first_step_of_best<S, A>(f: Seq<(Score, Id)>, tree: SaTensorTree<S, A>) -> nat {
    match best_entry(f).1 {
        Id::Root => 0,
        Id::Node(n) => first_step(tree, n as nat),
    }
}

/// A frontier that can be read out against `tree`: it is not empty, its entries
/// are locations of the tree, and its best entry is a stored node.
pub open spec fn extractable<S, A>(f: Seq<(Score, Id)>, tree: SaTensorTree<S, A>) -> bool {
    &&& tree.wf()
    &&& f.len() > 0
    &&& forall|i: int| 0 <= i < f.len() ==> tree.contains(#[trigger] f[i].1)
    &&& best_entry(f).1 != Id::Root
}

/// Walks up from the stored node `node_id` to its ancestor at depth one.
fn climb_to_first_step<S, A>(tree: &SaTensorTree<S, A>, node_id: NodeId) -> (r: NodeId)
    requires
        tree.wf(),
        node_id < tree.node_count(),
    ensures
        r == first_step(*tree, node_id as nat),
{
    let mut best = tree.get(Id::Node(node_id));
    let mut cur: NodeId = node_id;
    while best.depth() > 1
        invariant
            tree.wf(),
            best.valid(),
            best.walked() == *tree,
            best.at() == Id::Node(cur),
            cur < tree.node_count(),
            first_step(*tree, cur as nat) == first_step(*tree, node_id as nat),
        decreases cur,
    {
        proof {
            assert(tree.parent_precedes(cur as int));
            assert(tree.nodes()[cur as int].depth == tree.depth_of(tree.parents()[cur as int]) + 1);
        }
        let parent = best.parent();
        match parent {
            Some(p) => {
                match p.id() {
                    Id::Node(j) => {
                        cur = j;
                    },
                    Id::Root => {
                        proof {
                            assert(false);
                        }
                    },
                }
                best = p;
            },
            None => {},
        }
    }
    cur
}

/// Takes the best frontier entry and returns the action of its ancestor at
/// depth one: the first action of the most promising trajectory found.
pub fn best_first_action<'t, S, A>(frontier: &mut NotOpened, tree: &'t SaTensorTree<S, A>) -> (r:
    &'t A)
    requires
        extractable(old(frontier)@, *tree),
    ensures
        final(frontier)@ == old(frontier)@.remove(best_index(old(frontier)@)),
        *r == tree.nodes()[first_step_of_best(old(frontier)@, *tree) as int].action,
        first_step_of_best(old(frontier)@, *tree) < tree.node_count(),
        tree.nodes()[first_step_of_best(old(frontier)@, *tree) as int].depth == 1,
{
    proof {
        lemma_best_index(frontier@);
        lemma_best_first_action_depth_one(frontier@, *tree);
    }
    let (best_id, _value) = frontier.take_best();
    let node_id = match best_id {
        Id::Node(n) => n,
        Id::Root => {
            proof {
                assert(false);
            }
            0
        },
    };
    let first = climb_to_first_step(tree, node_id);
    proof {
        lemma_first_step(*tree, node_id as nat);
    }
    &tree.get_node(first).action
}

/// Reads the first action of the most promising trajectory out of each searched
/// tree of a batch, in order.
pub fn best_first_actions<S, A>(batch: Vec<(NotOpened, SaTensorTree<S, A>)>) -> (r: Vec<A>)
    requires
        forall|i: int| 0 <= i < batch@.len() ==> extractable((#[trigger] batch@[i]).0@, batch@[i].1),
    ensures
        r@.len() == batch@.len(),
        forall|i: int|
            0 <= i < batch@.len() ==> #[trigger] r@[i] == batch@[i].1.nodes()[first_step_of_best(
                batch@[i].0@,
                batch@[i].1,
            ) as int].action,
{
    let ghost b0 = batch@;
    let n = batch.len();
    let mut rest = batch;
    let mut out: Vec<A> = Vec::new();
    let mut i: usize = 0;
    while i < n
        invariant
            n == b0.len(),
            i <= n,
            rest@ == b0.subrange(i as int, n as int),
            out@.len() == i,
            forall|j: int| 0 <= j < n ==> extractable((#[trigger] b0[j]).0@, b0[j].1),
            forall|j: int|
                0 <= j < i ==> #[trigger] out@[j] == b0[j].1.nodes()[first_step_of_best(
                    b0[j].0@,
                    b0[j].1,
                ) as int].action,
        decreases n - i,
    {
        let (mut frontier, tree) = rest.remove(0);
        proof {
            assert(rest@ =~= b0.subrange(i + 1, n as int));
            assert(b0[i as int] == (frontier, tree));
            lemma_best_index(frontier@);
        }
        let (best_id, _value) = frontier.take_best();
        let node_id = match best_id {
            Id::Node(n) => n,
            Id::Root => {
                proof {
                    assert(false);
                }
                0
            },
        };
        let first = climb_to_first_step(&tree, node_id);
        proof {
            lemma_first_step(tree, node_id as nat);
        }
        let node = tree.into_node(first);
        out.push(node.action);
        i = i + 1;
    }
    out
}

/// The action `best_first_action` returns is stored on a node at depth one.
pub proof fn lemma_best_first_action_depth_one<S, A>(f: Seq<(Score, Id)>, tree: SaTensorTree<S, A>)
    requires
        extractable(f, tree),
    ensures
        first_step_of_best(f, tree) < tree.node_count(),
        tree.nodes()[first_step_of_best(f, tree) as int].depth == 1,
{
    lemma_best_index(f);
    let k = best_index(f);
    assert(tree.contains(f[k].1));
    if let Id::Node(n) = f[k].1 {
        lemma_first_step(tree, n as nat);
    }
}

/// After at least one round of at least one candidate, a searched frontier can
/// be read out against its tree.
pub proof fn lemma_searched_extractable<S, A>(
    f: Seq<(Score, Id)>,
    tree: SaTensorTree<S, A>,
    root: S,
    alpha: u64,
    rounds: nat,
    breadth: nat,
)
    requires
        searched(f, tree, root, alpha, rounds, breadth),
        rounds >= 1,
        breadth >= 1,
    ensures
        extractable(f, tree),
{
    assert(f.len() >= 1) by (nonlinear_arith)
        requires
            f.len() + rounds == 1 + rounds * breadth,
            breadth >= 1,
    ;
    lemma_best_index(f);
    let k = best_index(f);
    assert(frontier_ids(f)[k] == f[k].1);
    if f[k].1 == Id::Root {
        assert(frontier_ids(f).contains(Id::Root));
    }
}

} // verus!

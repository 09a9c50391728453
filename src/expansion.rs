use vstd::pervasive::cloned;
use vstd::prelude::*;

use crate::frontier::{best_index, lemma_best_index, NotOpened};
use crate::id::{Id, NodeId};
use crate::score::{backed_up, backed_up_score, child_score_basis, increment, valid_alpha, Score};
use crate::tree::{children_added, lemma_wf_is_rooted_tree, reaches_root, SaTensorTree};

verus! {

/// Proposes candidate actions for a batch of states: `count` candidates for each
/// state, all those of the first state first.
pub trait MultiActionTensorPolicy<S, A> {
    fn select_actions_tensor(&mut self, states: Vec<S>, count: usize) -> Vec<A>;
}

/// Predicts, for each `(state, action)` pair of two equally long batches, the
/// immediate reward and the next state, in the same order.
pub trait DynamicsOracle<S, A> {
    fn predict(&self, states: &Vec<S>, actions: &Vec<A>) -> (Vec<Score>, Vec<S>);
}

/// Estimates the expected discounted future return of each state of a batch, in
/// the same order.
pub trait ValueOracle<S> {
    fn estimate_many(&self, states: &Vec<S>) -> Vec<Score>;
}

/// An oracle answered with a batch of the wrong size.
#[derive(Debug, Clone, Copy, Default, PartialEq, Eq, Structural)]
pub struct ValuesHaveWrongSize;

/// The bases stored on children reached with `rewards` from a node at `depth`.
pub open spec fn child_bases(rewards: Seq<Score>, alpha: u64, depth: int) -> Seq<Score> {
    Seq::new(
        rewards.len(),
        |j: int| increment(rewards[j] as int, alpha as int, depth as nat) as Score,
    )
}

/// The frontier entries of new children numbered from `first`, reached with
/// `rewards` and valued at `values` from a node at `depth` with basis `basis`.
pub open spec fn child_entries(
    basis: int,
    rewards: Seq<Score>,
    values: Seq<Score>,
    alpha: u64,
    depth: int,
    first: nat,
) -> Seq<(Score, Id)> {
    Seq::new(
        rewards.len(),
        |j: int|
            (
                backed_up(basis, rewards[j] as int, values[j] as int, alpha as int, depth as nat) as Score,
                Id::Node((first + j) as NodeId),
            ),
    )
}

/// The ids that the next `len` nodes added to `tree` receive.
pub open spec fn next_ids<S, A>(tree: SaTensorTree<S, A>, len: nat) -> Seq<Id> {
    Seq::new(len, |j: int| Id::Node((tree.node_count() + j) as NodeId))
}

/// `post`/`post_f` are `pre`/`pre_f` after `parent` was opened with the given
/// candidates: one child per candidate, carrying its action, next state and
/// discounted reward, and one frontier entry per child with its backed-up score.
pub open spec fn opened<S, A>(
    pre_f: Seq<(Score, Id)>,
    post_f: Seq<(Score, Id)>,
    pre: SaTensorTree<S, A>,
    post: SaTensorTree<S, A>,
    parent: Id,
    actions: Seq<A>,
    rewards: Seq<Score>,
    states: Seq<S>,
    values: Seq<Score>,
) -> bool {
    &&& children_added(
        pre,
        post,
        parent,
        actions,
        child_bases(rewards, pre.spec_alpha(), pre.depth_of(parent)),
        states,
        next_ids(pre, actions.len()),
    )
    &&& post_f == pre_f + child_entries(
        pre.basis_of(parent),
        rewards,
        values,
        pre.spec_alpha(),
        pre.depth_of(parent),
        pre.node_count(),
    )
}

/// Opens `parent`: adds one child per candidate `(action, reward, next state,
/// value)` and puts each child on the frontier with its backed-up score.
pub fn open_node<S, A>(
    frontier: &mut NotOpened,
    tree: &mut SaTensorTree<S, A>,
    parent: Id,
    actions: Vec<A>,
    rewards: &Vec<Score>,
    next_states: Vec<S>,
    values: &Vec<Score>,
) -> (ids: Vec<Id>)
    requires
        old(tree).wf(),
        old(tree).contains(parent),
        actions.len() == rewards.len(),
        rewards.len() == next_states.len(),
        rewards.len() == values.len(),
        old(tree).depth_of(parent) < usize::MAX,
        old(tree).node_count() + actions.len() <= usize::MAX,
    ensures
        opened(
            old(frontier)@,
            final(frontier)@,
            *old(tree),
            *final(tree),
            parent,
            actions@,
            rewards@,
            next_states@,
            values@,
        ),
        ids@ == next_ids(*old(tree), actions.len() as nat),
{
    let ghost pre_f = frontier@;
    let ghost pre = *tree;
    let alpha = tree.alpha();
    let depth = tree.depth(parent);
    let basis = tree.acc_reward(parent);
    let len = rewards.len();
    let mut bases: Vec<Score> = Vec::new();
    let mut scores: Vec<Score> = Vec::new();
    let mut j: usize = 0;
    while j < len
        invariant
            len == rewards.len(),
            len == values.len(),
            valid_alpha(alpha as int),
            j <= len,
            bases@.len() == j,
            scores@.len() == j,
            forall|i: int|
                0 <= i < j ==> #[trigger] bases@[i] == increment(
                    rewards@[i] as int,
                    alpha as int,
                    depth as nat,
                ),
            forall|i: int|
                0 <= i < j ==> #[trigger] scores@[i] == backed_up(
                    basis as int,
                    rewards@[i] as int,
                    values@[i] as int,
                    alpha as int,
                    depth as nat,
                ),
        decreases len - j,
    {
        bases.push(child_score_basis(rewards[j], alpha, depth));
        scores.push(backed_up_score(basis, rewards[j], values[j], alpha, depth));
        j = j + 1;
    }
    proof {
        assert(bases@ =~= child_bases(rewards@, alpha, depth as int));
    }
    let ids = tree.add_children(parent, (actions, bases, next_states));
    let ghost entries = child_entries(
        basis as int,
        rewards@,
        values@,
        alpha,
        depth as int,
        pre.node_count(),
    );
    let mut i: usize = 0;
    while i < len
        invariant
            len == rewards.len(),
            len == scores@.len(),
            ids@.len() == len,
            ids@ == next_ids(pre, len as nat),
            entries.len() == len,
            forall|k: int|
                0 <= k < len ==> #[trigger] entries[k] == (scores@[k], ids@[k]),
            i <= len,
            frontier@ == pre_f + entries.subrange(0, i as int),
        decreases len - i,
    {
        frontier.insert(ids[i], scores[i]);
        proof {
            assert(entries.subrange(0, i + 1) =~= entries.subrange(0, i as int).push(entries[i as int]));
            assert(frontier@ =~= pre_f + entries.subrange(0, i + 1));
        }
        i = i + 1;
    }
    proof {
        assert(entries.subrange(0, len as int) =~= entries);
    }
    ids
}

/// The ids on a frontier, in order.
pub open spec fn frontier_ids(f: Seq<(Score, Id)>) -> Seq<Id> {
    f.map_values(|e: (Score, Id)| e.1)
}

/// What holds of a frontier `f` and its tree after `rounds` rounds of `breadth`
/// candidates from `root`: the tree is well formed with `rounds * breadth`
/// nodes, no node deeper than `rounds`, and the frontier holds each location
/// not opened yet, once, and nothing else.
pub open spec fn searched<S, A>(
    f: Seq<(Score, Id)>,
    tree: SaTensorTree<S, A>,
    root: S,
    alpha: u64,
    rounds: nat,
    breadth: nat,
) -> bool {
    &&& tree.wf()
    &&& tree.root_state() == root
    &&& tree.spec_alpha() == alpha
    &&& tree.node_count() == rounds * breadth
    &&& f.len() + rounds == 1 + rounds * breadth
    &&& forall|k: int| 0 <= k < tree.node_count() ==> #[trigger] tree.nodes()[k].depth <= rounds
    &&& forall|i: int| 0 <= i < f.len() ==> tree.contains(#[trigger] f[i].1)
    &&& frontier_ids(f).no_duplicates()
    &&& forall|id: Id|
        tree.contains(id) ==> (frontier_ids(f).contains(id) <==> #[trigger] tree.children_of(
            id,
        ).len() == 0)
    &&& rounds > 0 ==> tree.children_of(Id::Root).len() > 0
}

/// A fresh tree with its root on the frontier is searched for zero rounds.
proof fn lemma_searched_start<S, A>(f: Seq<(Score, Id)>, tree: SaTensorTree<S, A>, v: Score, breadth: nat)
    requires
        tree.wf(),
        tree.node_count() == 0,
        f == seq![(v, Id::Root)],
    ensures
        searched(f, tree, tree.root_state(), tree.spec_alpha(), 0, breadth),
{
    assert(frontier_ids(f) =~= seq![Id::Root]);
    assert forall|id: Id| tree.contains(id) implies (frontier_ids(f).contains(id) <==> #[trigger] tree.children_of(
            id,
        ).len() == 0) by {
        assert(id == Id::Root);
        assert(frontier_ids(f)[0] == Id::Root);
        if tree.children_of(id).len() > 0 {
            assert(tree.children_recorded(id));
            let c = tree.children_of(id)[0];
        }
    }
}

/// One round (take the best entry, open it with `breadth` candidates) keeps the
/// search invariant, one round further.
proof fn lemma_round_keeps_searched<S, A>(
    f: Seq<(Score, Id)>,
    t: SaTensorTree<S, A>,
    f2: Seq<(Score, Id)>,
    t2: SaTensorTree<S, A>,
    root: S,
    alpha: u64,
    rounds: nat,
    breadth: nat,
    actions: Seq<A>,
    rewards: Seq<Score>,
    states: Seq<S>,
    values: Seq<Score>,
)
    requires
        searched(f, t, root, alpha, rounds, breadth),
        breadth >= 1,
        f.len() > 0,
        actions.len() == breadth,
        rewards.len() == breadth,
        states.len() == breadth,
        values.len() == breadth,
        opened(f.remove(best_index(f)), f2, t, t2, f[best_index(f)].1, actions, rewards, states, values),
    ensures
        searched(f2, t2, root, alpha, rounds + 1, breadth),
{
    lemma_best_index(f);
    let k = best_index(f);
    let id = f[k].1;
    let f1 = f.remove(k);
    let n0 = t.node_count();
    let ids = next_ids(t, breadth);
    let entries = child_entries(t.basis_of(id), rewards, values, alpha, t.depth_of(id), n0);
    assert(f2 == f1 + entries);
    assert(t2.node_count() == (rounds + 1) * breadth) by (nonlinear_arith)
        requires
            t2.node_count() == n0 + breadth,
            n0 == rounds * breadth,
    ;
    assert(f2.len() + rounds + 1 == 1 + (rounds + 1) * breadth) by (nonlinear_arith)
        requires
            f2.len() == f.len() - 1 + breadth,
            f.len() + rounds == 1 + rounds * breadth,
    ;
    // the popped id is a contained node of depth at most `rounds`
    assert(t.contains(id));
    assert(t.depth_of(id) <= rounds) by {
        if let Id::Node(m) = id {
            assert(t.nodes()[m as int].depth <= rounds);
        }
    }
    assert forall|j: int| 0 <= j < t2.node_count() implies #[trigger] t2.nodes()[j].depth <= rounds + 1 by {
        if j < n0 {
            assert(t2.nodes()[j] == t.nodes()[j]);
        } else {
            assert(t2.nodes()[n0 + (j - n0)].depth == t.depth_of(id) + 1);
        }
    }
    // frontier ids: the old ones but the popped one, then the new children
    let fi = frontier_ids(f);
    let fi1 = frontier_ids(f1);
    let fi2 = frontier_ids(f2);
    assert(fi1 =~= fi.remove(k));
    assert(fi2 =~= fi1 + ids);
    assert forall|i: int| 0 <= i < f2.len() implies t2.contains(#[trigger] f2[i].1) by {
        if i < f1.len() {
            if i < k {
                assert(f1[i] == f[i]);
            } else {
                assert(f1[i] == f[i + 1]);
            }
        } else {
            assert(f2[i] == entries[i - f1.len()]);
        }
    }
    // elements of fi1 are old ids other than the popped one
    assert forall|i: int| 0 <= i < fi1.len() implies t.contains(#[trigger] fi1[i]) && fi1[i] != id by {
        if i < k {
            assert(fi1[i] == fi[i]);
            assert(fi[i] == f[i].1);
            assert(fi[k] == f[k].1);
        } else {
            assert(fi1[i] == fi[i + 1]);
            assert(fi[i + 1] == f[i + 1].1);
            assert(fi[k] == f[k].1);
        }
    }
    assert(fi2.no_duplicates()) by {
        assert forall|a: int, b: int| 0 <= a < fi2.len() && 0 <= b < fi2.len() && a != b implies fi2[a]
            != fi2[b] by {
            if a < fi1.len() && b < fi1.len() {
                let a0 = if a < k { a } else { a + 1 };
                let b0 = if b < k { b } else { b + 1 };
                assert(fi1[a] == fi[a0]);
                assert(fi1[b] == fi[b0]);
            } else if a < fi1.len() {
                assert(t.contains(fi1[a]));
                assert(fi2[b] == ids[b - fi1.len()]);
            } else if b < fi1.len() {
                assert(t.contains(fi1[b]));
                assert(fi2[a] == ids[a - fi1.len()]);
            } else {
                assert(fi2[a] == ids[a - fi1.len()]);
                assert(fi2[b] == ids[b - fi1.len()]);
            }
        }
    }
    assert forall|x: Id| t2.contains(x) implies (fi2.contains(x) <==> #[trigger] t2.children_of(x).len()
        == 0) by {
        if x == id {
            assert(t2.children_of(x).len() == t.children_of(x).len() + breadth);
            if fi2.contains(x) {
                let w = choose|w: int| 0 <= w < fi2.len() && fi2[w] == x;
                if w < fi1.len() {
                    assert(fi1[w] != id);
                } else {
                    assert(fi2[w] == ids[w - fi1.len()]);
                }
            }
        } else if t.contains(x) {
            assert(t2.children_of(x) == t.children_of(x));
            assert(fi.contains(x) <==> t.children_of(x).len() == 0);
            if fi.contains(x) {
                let w = choose|w: int| 0 <= w < fi.len() && fi[w] == x;
                assert(w != k);
                let w1 = if w < k { w } else { w - 1 };
                assert(fi1[w1] == x);
                assert(fi2[w1] == x);
            }
            if fi2.contains(x) {
                let w = choose|w: int| 0 <= w < fi2.len() && fi2[w] == x;
                if w < fi1.len() {
                    let w0 = if w < k { w } else { w + 1 };
                    assert(fi1[w] == fi[w0]);
                } else {
                    assert(fi2[w] == ids[w - fi1.len()]);
                }
            }
        } else {
            assert(t2.children_of(x) == t.children_of(x));
            if let Id::Node(m) = x {
                let j = m - n0;
                assert(ids[j] == x);
                assert(fi2[fi1.len() + j] == x);
            }
        }
    }
    assert(t2.children_of(Id::Root).len() > 0) by {
        if id != Id::Root {
            assert(t2.children_of(Id::Root) == t.children_of(Id::Root));
            if rounds == 0 {
                assert(t.node_count() == 0) by (nonlinear_arith)
                    requires
                        t.node_count() == rounds * breadth,
                        rounds == 0,
                ;
            }
        }
    }
}

/// The `i`-th row of width `width` of a batch laid out row after row.
pub open spec fn row<T>(s: Seq<T>, i: int, width: int) -> Seq<T> {
    s.subrange(i * width, (i + 1) * width)
}

/// Every oracle answer of a round over `n` active nodes holds `breadth`
/// entries per node.
pub open spec fn round_shapes_ok(
    n: int,
    breadth: int,
    actions: int,
    rewards: int,
    states: int,
    values: int,
) -> bool {
    &&& actions == n * breadth
    &&& rewards == n * breadth
    &&& states == n * breadth
    &&& values == n * breadth
}

/// Finishes a round over a batch of trees once the oracles have answered:
/// checks the batch sizes, then opens the `i`-th active node of the `i`-th tree
/// with the `i`-th row of candidates. On a size error nothing changes.
pub fn apply_round<S, A>(
    frontiers: &mut Vec<NotOpened>,
    trees: &mut Vec<SaTensorTree<S, A>>,
    active: &Vec<Id>,
    actions: Vec<A>,
    rewards: &Vec<Score>,
    next_states: Vec<S>,
    values: &Vec<Score>,
    breadth: usize,
) -> (r: Result<(), ValuesHaveWrongSize>)
    requires
        old(frontiers).len() == active.len(),
        old(trees).len() == active.len(),
        forall|i: int|
            0 <= i < active.len() ==> {
                let t = #[trigger] old(trees)@[i];
                &&& t.wf()
                &&& t.contains(active@[i])
                &&& t.depth_of(active@[i]) < usize::MAX
                &&& t.node_count() + breadth <= usize::MAX
            },
    ensures
        r.is_ok() <==> round_shapes_ok(
            active.len() as int,
            breadth as int,
            actions.len() as int,
            rewards.len() as int,
            next_states.len() as int,
            values.len() as int,
        ),
        final(frontiers).len() == active.len(),
        final(trees).len() == active.len(),
        r.is_err() ==> final(frontiers)@ == old(frontiers)@ && final(trees)@ == old(trees)@,
        r.is_ok() ==> forall|i: int|
            0 <= i < active.len() ==> opened(
                old(frontiers)@[i]@,
                #[trigger] final(frontiers)@[i]@,
                old(trees)@[i],
                final(trees)@[i],
                active@[i],
                row(actions@, i, breadth as int),
                row(rewards@, i, breadth as int),
                row(next_states@, i, breadth as int),
                row(values@, i, breadth as int),
            ),
{
    let n = active.len();
    let total = match n.checked_mul(breadth) {
        Some(t) => t,
        None => {
            return Err(ValuesHaveWrongSize);
        },
    };
    if actions.len() != total || rewards.len() != total || next_states.len() != total
        || values.len() != total {
        return Err(ValuesHaveWrongSize);
    }
    let ghost pre_f = frontiers@;
    let ghost pre_t = trees@;
    let ghost actions0 = actions@;
    let ghost states0 = next_states@;
    let mut actions = actions;
    let mut next_states = next_states;
    let mut i: usize = n;
    while i > 0
        invariant
            n == active.len(),
            total == n * breadth,
            rewards.len() == total,
            values.len() == total,
            actions0.len() == total,
            states0.len() == total,
            i <= n,
            actions@ == actions0.subrange(0, i * breadth),
            next_states@ == states0.subrange(0, i * breadth),
            frontiers.len() == n,
            trees.len() == n,
            pre_f.len() == n,
            pre_t.len() == n,
            forall|j: int|
                0 <= j < n ==> {
                    let t = #[trigger] pre_t[j];
                    &&& t.wf()
                    &&& t.contains(active@[j])
                    &&& t.depth_of(active@[j]) < usize::MAX
                    &&& t.node_count() + breadth <= usize::MAX
                },
            forall|j: int| 0 <= j < i ==> #[trigger] frontiers@[j] == pre_f[j] && trees@[j] == pre_t[j],
            forall|j: int|
                i <= j < n ==> opened(
                    pre_f[j]@,
                    #[trigger] frontiers@[j]@,
                    pre_t[j],
                    trees@[j],
                    active@[j],
                    row(actions0, j, breadth as int),
                    row(rewards@, j, breadth as int),
                    row(states0, j, breadth as int),
                    row(values@, j, breadth as int),
                ),
        decreases i,
    {
        let k = i - 1;
        assert(k * breadth + breadth == i * breadth && i * breadth <= n * breadth) by (nonlinear_arith)
            requires
                k + 1 == i,
                i <= n,
        ;
        let lo = k * breadth;
        let acts = actions.split_off(lo);
        let sts = next_states.split_off(lo);
        let mut rw: Vec<Score> = Vec::new();
        let mut vs: Vec<Score> = Vec::new();
        let mut j: usize = 0;
        while j < breadth
            invariant
                lo + breadth <= total,
                rewards.len() == total,
                values.len() == total,
                j <= breadth,
                rw@ == rewards@.subrange(lo as int, lo + j),
                vs@ == values@.subrange(lo as int, lo + j),
            decreases breadth - j,
        {
            rw.push(rewards[lo + j]);
            vs.push(values[lo + j]);
            proof {
                assert(rw@ =~= rewards@.subrange(lo as int, lo + j + 1));
                assert(vs@ =~= values@.subrange(lo as int, lo + j + 1));
            }
            j = j + 1;
        }
        proof {
            assert(acts@ =~= row(actions0, k as int, breadth as int));
            assert(sts@ =~= row(states0, k as int, breadth as int));
            assert(rw@ =~= row(rewards@, k as int, breadth as int));
            assert(vs@ =~= row(values@, k as int, breadth as int));
            assert(actions@ =~= actions0.subrange(0, k * breadth));
            assert(next_states@ =~= states0.subrange(0, k * breadth));
            assert(frontiers@[k as int] == pre_f[k as int]);
            assert(trees@[k as int] == pre_t[k as int]);
        }
        let ghost before_f = frontiers@;
        let ghost before_t = trees@;
        open_node(&mut frontiers[k], &mut trees[k], active[k], acts, &rw, sts, &vs);
        proof {
            assert forall|j: int| 0 <= j < k implies #[trigger] frontiers@[j] == pre_f[j] && trees@[j] == pre_t[j] by {
                assert(frontiers@[j] == before_f[j]);
                assert(trees@[j] == before_t[j]);
            }
            assert forall|j: int| k < j < n implies frontiers@[j] == before_f[j] && trees@[j] == before_t[j] by {}
        }
        i = k;
    }
    Ok(())
}

/// Every entry of the frontier `f` is a location of `tree`.
pub open spec fn entries_in<S, A>(f: Seq<(Score, Id)>, tree: SaTensorTree<S, A>) -> bool {
    forall|e: int| 0 <= e < f.len() ==> tree.contains(#[trigger] f[e].1)
}

/// Starts a search per root state: a tree holding only the root, and a
/// frontier holding only the root's entry, scored with the value estimate at
/// the same position. Fails, with nothing built, when there is not exactly one
/// estimate per root.
pub fn start_search<S, A>(states: Vec<S>, root_values: &Vec<Score>, alpha: u64) -> (r: Result<
    (Vec<NotOpened>, Vec<SaTensorTree<S, A>>),
    ValuesHaveWrongSize,
>)
    requires
        valid_alpha(alpha as int),
    ensures
        r.is_ok() <==> root_values.len() == states.len(),
        r matches Ok((frontiers, trees)) ==> {
            &&& frontiers@.len() == states@.len()
            &&& trees@.len() == states@.len()
            &&& forall|i: int|
                0 <= i < states@.len() ==> {
                    let t = #[trigger] trees@[i];
                    &&& t.wf()
                    &&& t.node_count() == 0
                    &&& t.root_state() == states@[i]
                    &&& t.spec_alpha() == alpha
                    &&& frontiers@[i]@ == seq![(root_values@[i], Id::Root)]
                }
        },
{
    let n = states.len();
    if root_values.len() != n {
        return Err(ValuesHaveWrongSize);
    }
    let ghost roots = states@;
    let mut pending = states;
    let mut frontiers: Vec<NotOpened> = Vec::new();
    let mut trees: Vec<SaTensorTree<S, A>> = Vec::new();
    let mut i: usize = 0;
    while i < n
        invariant
            n == roots.len(),
            n == root_values.len(),
            valid_alpha(alpha as int),
            i <= n,
            pending@ == roots.subrange(i as int, n as int),
            frontiers.len() == i,
            trees.len() == i,
            forall|j: int|
                0 <= j < i ==> {
                    let t = #[trigger] trees@[j];
                    &&& t.wf()
                    &&& t.node_count() == 0
                    &&& t.root_state() == roots[j]
                    &&& t.spec_alpha() == alpha
                    &&& frontiers@[j]@ == seq![(root_values@[j], Id::Root)]
                },
        decreases n - i,
    {
        let root = pending.remove(0);
        proof {
            assert(pending@ =~= roots.subrange(i + 1, n as int));
        }
        trees.push(SaTensorTree::new(root, alpha));
        frontiers.push(NotOpened::new(root_values[i]));
        i = i + 1;
    }
    Ok((frontiers, trees))
}

/// The inputs of one round over a batch: takes the best entry off each
/// frontier and returns the ids taken, a copy of the state at each of them
/// (what the proposer is asked about), and each of those states repeated
/// `breadth` times in a row (what the dynamics oracle pairs with the proposed
/// actions).
pub fn gather_round<S: Clone, A>(
    frontiers: &mut Vec<NotOpened>,
    trees: &Vec<SaTensorTree<S, A>>,
    breadth: usize,
) -> (r: (Vec<Id>, Vec<S>, Vec<S>))
    requires
        old(frontiers).len() == trees.len(),
        forall|i: int|
            0 <= i < trees.len() ==> {
                &&& (#[trigger] trees@[i]).wf()
                &&& old(frontiers)@[i]@.len() > 0
                &&& entries_in(old(frontiers)@[i]@, trees@[i])
            },
    ensures
        final(frontiers).len() == trees.len(),
        r.0@.len() == trees.len(),
        r.1@.len() == trees.len(),
        r.2@.len() == trees.len() * breadth,
        forall|i: int|
            0 <= i < trees.len() ==> {
                &&& #[trigger] final(frontiers)@[i]@ == old(frontiers)@[i]@.remove(
                    best_index(old(frontiers)@[i]@),
                )
                &&& r.0@[i] == old(frontiers)@[i]@[best_index(old(frontiers)@[i]@)].1
                &&& trees@[i].contains(r.0@[i])
                &&& cloned(trees@[i].state_of(r.0@[i]), r.1@[i])
            },
        forall|k: int|
            0 <= k < trees.len() * breadth ==> cloned(
                trees@[k / (breadth as int)].state_of(r.0@[k / (breadth as int)]),
                #[trigger] r.2@[k],
            ),
{
    let n = trees.len();
    let ghost pre_f = frontiers@;
    let mut active: Vec<Id> = Vec::new();
    let mut active_states: Vec<S> = Vec::new();
    let mut repeated: Vec<S> = Vec::new();
    let mut i: usize = 0;
    while i < n
        invariant
            n == trees.len(),
            n == pre_f.len(),
            pre_f == old(frontiers)@,
            frontiers.len() == n,
            forall|j: int|
                0 <= j < n ==> {
                    &&& (#[trigger] trees@[j]).wf()
                    &&& pre_f[j]@.len() > 0
                    &&& entries_in(pre_f[j]@, trees@[j])
                },
            i <= n,
            active@.len() == i,
            active_states@.len() == i,
            repeated@.len() == i * breadth,
            forall|j: int|
                0 <= j < i ==> {
                    &&& #[trigger] frontiers@[j]@ == pre_f[j]@.remove(best_index(pre_f[j]@))
                    &&& active@[j] == pre_f[j]@[best_index(pre_f[j]@)].1
                    &&& trees@[j].contains(active@[j])
                    &&& cloned(trees@[j].state_of(active@[j]), active_states@[j])
                },
            forall|j: int| i <= j < n ==> #[trigger] frontiers@[j] == pre_f[j],
            forall|k: int|
                0 <= k < i * breadth ==> cloned(
                    trees@[k / (breadth as int)].state_of(active@[k / (breadth as int)]),
                    #[trigger] repeated@[k],
                ),
        decreases n - i,
    {
        proof {
            assert(frontiers@[i as int] == pre_f[i as int]);
            assert(trees@[i as int].wf());
            lemma_best_index(pre_f[i as int]@);
        }
        let ghost before = frontiers@;
        let ghost before_active = active@;
        let ghost before_states = active_states@;
        let ghost before_repeated = repeated@;
        let (id, _score) = frontiers[i].take_best();
        proof {
            let f = pre_f[i as int]@;
            assert(trees@[i as int].contains(f[best_index(f)].1));
        }
        let state = trees[i].get_state(id);
        active_states.push(state.clone());
        let mut j: usize = 0;
        while j < breadth
            invariant
                j <= breadth,
                *state == trees@[i as int].state_of(id),
                repeated@.len() == i * breadth + j,
                forall|k: int| 0 <= k < i * breadth ==> #[trigger] repeated@[k] == before_repeated[k],
                forall|k: int| i * breadth <= k < i * breadth + j ==> cloned(*state, #[trigger] repeated@[k]),
            decreases breadth - j,
        {
            repeated.push(state.clone());
            j = j + 1;
        }
        active.push(id);
        proof {
            assert forall|j2: int| 0 <= j2 < i implies {
                &&& #[trigger] frontiers@[j2]@ == pre_f[j2]@.remove(best_index(pre_f[j2]@))
                &&& active@[j2] == pre_f[j2]@[best_index(pre_f[j2]@)].1
                &&& trees@[j2].contains(active@[j2])
                &&& cloned(trees@[j2].state_of(active@[j2]), active_states@[j2])
            } by {
                assert(frontiers@[j2] == before[j2]);
                assert(before[j2]@ == pre_f[j2]@.remove(best_index(pre_f[j2]@)));
                assert(active@[j2] == before_active[j2]);
                assert(active_states@[j2] == before_states[j2]);
            }
            assert(frontiers@[i as int]@ == pre_f[i as int]@.remove(best_index(pre_f[i as int]@)));
            assert forall|j2: int| i < j2 < n implies #[trigger] frontiers@[j2] == pre_f[j2] by {
                assert(frontiers@[j2] == before[j2]);
            }
            assert(repeated@.len() == (i + 1) * breadth) by (nonlinear_arith)
                requires
                    repeated@.len() == i * breadth + breadth,
            ;
            assert forall|k: int| 0 <= k < (i + 1) * breadth implies cloned(
                trees@[k / (breadth as int)].state_of(active@[k / (breadth as int)]),
                #[trigger] repeated@[k],
            ) by {
                let q = k / (breadth as int);
                if k < i * breadth {
                    assert(repeated@[k] == before_repeated[k]);
                    assert(0 <= q < i) by (nonlinear_arith)
                        requires
                            0 <= k < i * breadth,
                            q == k / (breadth as int),
                            breadth > 0,
                    ;
                    assert(active@[q] == before_active[q]);
                } else {
                    assert(q == i) by (nonlinear_arith)
                        requires
                            i * breadth <= k < (i + 1) * breadth,
                            q == k / (breadth as int),
                            breadth > 0,
                    ;
                    assert(active@[i as int] == id);
                }
            }
        }
        i = i + 1;
    }
    proof {
        assert forall|j: int| 0 <= j < n implies {
            &&& #[trigger] frontiers@[j]@ == pre_f[j]@.remove(best_index(pre_f[j]@))
            &&& active@[j] == pre_f[j]@[best_index(pre_f[j]@)].1
            &&& trees@[j].contains(active@[j])
            &&& cloned(trees@[j].state_of(active@[j]), active_states@[j])
        } by {
            assert(i == n);
            assert(0 <= j < i);
            assert(frontiers@[j]@ == pre_f[j]@.remove(best_index(pre_f[j]@)));
            assert(active@[j] == pre_f[j]@[best_index(pre_f[j]@)].1);
            assert(trees@[j].contains(active@[j]));
        }
    }
    (active, active_states, repeated)
}

/// `(t2, f2)` follows from `(t, f)` by one best-first round: the best entry of
/// `f` is taken off and opened with `breadth` candidates, whatever the oracles
/// answered for them.
pub open spec fn best_first_round<S, A>(
    f: Seq<(Score, Id)>,
    t: SaTensorTree<S, A>,
    f2: Seq<(Score, Id)>,
    t2: SaTensorTree<S, A>,
    breadth: nat,
) -> bool {
    &&& f.len() > 0
    &&& exists|actions: Seq<A>, rewards: Seq<Score>, states: Seq<S>, values: Seq<Score>|
        {
            &&& actions.len() == breadth
            &&& rewards.len() == breadth
            &&& states.len() == breadth
            &&& values.len() == breadth
            &&& #[trigger] opened(
                f.remove(best_index(f)),
                f2,
                t,
                t2,
                f[best_index(f)].1,
                actions,
                rewards,
                states,
                values,
            )
        }
}

/// `(t, f)` is reached from a tree holding only `root`, whose frontier holds
/// only the root's entry, by `rounds` best-first rounds of `breadth` candidates.
pub open spec fn grown_from<S, A>(
    f: Seq<(Score, Id)>,
    t: SaTensorTree<S, A>,
    root: S,
    alpha: u64,
    rounds: nat,
    breadth: nat,
) -> bool
    decreases rounds,
{
    if rounds == 0 {
        &&& t.wf()
        &&& t.node_count() == 0
        &&& t.root_state() == root
        &&& t.spec_alpha() == alpha
        &&& f.len() == 1
        &&& f[0].1 == Id::Root
    } else {
        exists|pf: Seq<(Score, Id)>, pt: SaTensorTree<S, A>|
            grown_from(pf, pt, root, alpha, (rounds - 1) as nat, breadth)
                && #[trigger] best_first_round(pf, pt, f, t, breadth)
    }
}

proof fn lemma_grown_step<S, A>(
    pf: Seq<(Score, Id)>,
    pt: SaTensorTree<S, A>,
    f: Seq<(Score, Id)>,
    t: SaTensorTree<S, A>,
    root: S,
    alpha: u64,
    rounds: nat,
    breadth: nat,
)
    requires
        grown_from(pf, pt, root, alpha, rounds, breadth),
        best_first_round(pf, pt, f, t, breadth),
    ensures
        grown_from(f, t, root, alpha, rounds + 1, breadth),
{
    let r1 = (rounds + 1) as nat;
    assert((r1 - 1) as nat == rounds);
    assert(grown_from(pf, pt, root, alpha, (r1 - 1) as nat, breadth) && best_first_round(
        pf,
        pt,
        f,
        t,
        breadth,
    ));
    assert(grown_from(f, t, root, alpha, r1, breadth));
}

/// What a search returns for one root: the invariant of `searched`, reached
/// by best-first rounds.
pub open spec fn search_result<S, A>(
    f: Seq<(Score, Id)>,
    t: SaTensorTree<S, A>,
    root: S,
    alpha: u64,
    rounds: nat,
    breadth: nat,
) -> bool {
    searched(f, t, root, alpha, rounds, breadth) && grown_from(f, t, root, alpha, rounds, breadth)
}

/// Each tree of a batch, with its frontier, is searched for `rounds` rounds of
/// `breadth` candidates from the root state at the same position.
pub open spec fn expanded<S, A>(
    batch: Seq<(NotOpened, SaTensorTree<S, A>)>,
    roots: Seq<S>,
    alpha: u64,
    rounds: nat,
    breadth: nat,
) -> bool {
    &&& batch.len() == roots.len()
    &&& forall|i: int|
        0 <= i < batch.len() ==> search_result(
            (#[trigger] batch[i]).0@,
            batch[i].1,
            roots[i],
            alpha,
            rounds,
            breadth,
        )
}

/// The number of rounds a search of `depth` rounds of `breadth` candidates
/// performs: none when there is nothing to propose.
pub open spec fn rounds_run(depth: nat, breadth: nat) -> nat {
    if breadth == 0 {
        0
    } else {
        depth
    }
}

proof fn lemma_row_len<T>(s: Seq<T>, i: int, n: int, width: int)
    requires
        0 <= i < n,
        0 <= width,
        s.len() == n * width,
    ensures
        row(s, i, width).len() == width,
{
    assert(0 <= i * width && i * width + width == (i + 1) * width && (i + 1) * width <= n * width)
        by (nonlinear_arith)
        requires
            0 <= i < n,
            0 <= width,
    ;
}

/// The batched expansion engine: a dynamics oracle, a value oracle, an action
/// proposer, and the discount factor of the trees it grows.
pub struct TreeExpander<P, D, V> {
    rs_estimator: D,
    v_estimator: V,
    policy: P,
    alpha: u64,
}

impl<P, D, V> TreeExpander<P, D, V> {
    pub closed spec fn spec_alpha(&self) -> u64 {
        self.alpha
    }

    pub fn new(rs_estimator: D, v_estimator: V, policy: P, alpha: u64) -> (r: Self)
        requires
            valid_alpha(alpha as int),
        ensures
            r.spec_alpha() == alpha,
    {
        TreeExpander { rs_estimator, v_estimator, policy, alpha }
    }

    /// Grows one tree per root state, in lockstep: the roots are valued and
    /// the searches started (`start_search`), then each of `depth` rounds takes
    /// every tree's best frontier entry (`gather_round`), hands the proposer
    /// the states taken and `breadth`, the dynamics oracle each state repeated
    /// `breadth` times with the proposed actions, and the value oracle the
    /// predicted next states, and opens the entries with the answers
    /// (`apply_round`). With `breadth == 0` no round runs. An oracle answer of
    /// the wrong size ends the search with an error.
    pub fn expand_states_tensor<S: Clone, A>(&mut self, states: Vec<S>, depth: usize, breadth: usize) -> (r:
        Result<Vec<(NotOpened, SaTensorTree<S, A>)>, ValuesHaveWrongSize>) where
        P: MultiActionTensorPolicy<S, A>,
        D: DynamicsOracle<S, A>,
        V: ValueOracle<S>,

        requires
            valid_alpha(old(self).spec_alpha() as int),
            depth * breadth <= usize::MAX,
        ensures
            final(self).spec_alpha() == old(self).spec_alpha(),
            states.len() == 0 ==> (r matches Ok(batch) && batch@.len() == 0),
            r matches Ok(batch) ==> expanded(
                batch@,
                states@,
                old(self).spec_alpha(),
                rounds_run(depth as nat, breadth as nat),
                breadth as nat,
            ),
    {
        let n = states.len();
        let alpha = self.alpha;
        if n == 0 {
            return Ok(Vec::new());
        }
        let ghost roots = states@;
        let root_values = self.v_estimator.estimate_many(&states);
        let (mut frontiers, mut trees) = match start_search(states, &root_values, alpha) {
            Ok(started) => started,
            Err(e) => {
                return Err(e);
            },
        };
        proof {
            assert forall|j: int| 0 <= j < n implies search_result(
                #[trigger] frontiers@[j]@,
                trees@[j],
                roots[j],
                alpha,
                0,
                breadth as nat,
            ) by {
                assert(trees@[j].wf());
                lemma_searched_start(frontiers@[j]@, trees@[j], root_values@[j], breadth as nat);
                assert(frontiers@[j]@[0].1 == Id::Root);
            }
        }
        let rounds: usize = if breadth == 0 {
            0
        } else {
            depth
        };
        let mut done: usize = 0;
        while done < rounds
            invariant
                n == roots.len(),
                valid_alpha(alpha as int),
                alpha == self.alpha,
                alpha == old(self).alpha,
                n > 0,
                roots == states@,
                rounds == rounds_run(depth as nat, breadth as nat),
                rounds * breadth <= usize::MAX,
                done <= rounds,
                rounds > 0 ==> breadth >= 1,
                frontiers.len() == n,
                trees.len() == n,
                forall|j: int|
                    0 <= j < n ==> search_result(
                        #[trigger] frontiers@[j]@,
                        trees@[j],
                        roots[j],
                        alpha,
                        done as nat,
                        breadth as nat,
                    ),
            decreases rounds - done,
        {
            let ghost pre_f = frontiers@;
            let ghost pre_t = trees@;
            proof {
                assert forall|j: int| 0 <= j < n implies searched(
                    #[trigger] pre_f[j]@,
                    pre_t[j],
                    roots[j],
                    alpha,
                    done as nat,
                    breadth as nat,
                ) by {
                    assert(search_result(frontiers@[j]@, trees@[j], roots[j], alpha, done as nat, breadth as nat));
                }
            }
            proof {
                assert forall|j: int| 0 <= j < n implies {
                    &&& (#[trigger] trees@[j]).wf()
                    &&& frontiers@[j]@.len() > 0
                    &&& entries_in(frontiers@[j]@, trees@[j])
                } by {
                    let f = pre_f[j]@;
                    assert(searched(f, pre_t[j], roots[j], alpha, done as nat, breadth as nat));
                    assert(f.len() >= 1) by (nonlinear_arith)
                        requires
                            f.len() + done == 1 + done * breadth,
                            breadth >= 1,
                    ;
                }
            }
            let (active, active_states, repeated) = gather_round(&mut frontiers, &trees, breadth);
            let actions = self.policy.select_actions_tensor(active_states, breadth);
            let (rewards, next_states) = self.rs_estimator.predict(&repeated, &actions);
            let values = self.v_estimator.estimate_many(&next_states);
            let ghost mid_f = frontiers@;
            let ghost acts = actions@;
            let ghost rws = rewards@;
            let ghost sts = next_states@;
            let ghost vls = values@;
            proof {
                assert forall|j: int| 0 <= j < n implies {
                    let t = #[trigger] trees@[j];
                    &&& t.wf()
                    &&& t.contains(active@[j])
                    &&& t.depth_of(active@[j]) < usize::MAX
                    &&& t.node_count() + breadth <= usize::MAX
                } by {
                    let f = pre_f[j]@;
                    let t = pre_t[j];
                    assert(trees@[j] == t);
                    assert(frontiers@[j]@ == f.remove(best_index(f)));
                    assert(searched(f, t, roots[j], alpha, done as nat, breadth as nat));
                    assert(f.len() >= 1) by (nonlinear_arith)
                        requires
                            f.len() + done == 1 + done * breadth,
                            breadth >= 1,
                    ;
                    lemma_best_index(f);
                    let k = best_index(f);
                    assert(t.contains(f[k].1));
                    if let Id::Node(m) = f[k].1 {
                        assert(t.nodes()[m as int].depth <= done);
                    }
                    assert(done * breadth + breadth <= rounds * breadth) by (nonlinear_arith)
                        requires
                            done < rounds,
                            breadth >= 1,
                    ;
                }
            }
            match apply_round(
                &mut frontiers,
                &mut trees,
                &active,
                actions,
                &rewards,
                next_states,
                &values,
                breadth,
            ) {
                Err(e) => {
                    return Err(e);
                },
                Ok(()) => {},
            }
            proof {
                assert forall|j: int| 0 <= j < n implies search_result(
                    #[trigger] frontiers@[j]@,
                    trees@[j],
                    roots[j],
                    alpha,
                    (done + 1) as nat,
                    breadth as nat,
                ) by {
                    let f = pre_f[j]@;
                    assert(search_result(f, pre_t[j], roots[j], alpha, done as nat, breadth as nat));
                    assert(f.len() >= 1) by (nonlinear_arith)
                        requires
                            f.len() + done == 1 + done * breadth,
                            breadth >= 1,
                    ;
                    assert(mid_f[j]@ == f.remove(best_index(f)));
                    lemma_row_len(acts, j, n as int, breadth as int);
                    lemma_row_len(rws, j, n as int, breadth as int);
                    lemma_row_len(sts, j, n as int, breadth as int);
                    lemma_row_len(vls, j, n as int, breadth as int);
                    lemma_round_keeps_searched(
                        f,
                        pre_t[j],
                        frontiers@[j]@,
                        trees@[j],
                        roots[j],
                        alpha,
                        done as nat,
                        breadth as nat,
                        row(acts, j, breadth as int),
                        row(rws, j, breadth as int),
                        row(sts, j, breadth as int),
                        row(vls, j, breadth as int),
                    );
                    assert(best_first_round(f, pre_t[j], frontiers@[j]@, trees@[j], breadth as nat));
                    lemma_grown_step(
                        f,
                        pre_t[j],
                        frontiers@[j]@,
                        trees@[j],
                        roots[j],
                        alpha,
                        done as nat,
                        breadth as nat,
                    );
                }
            }
            done = done + 1;
        }
        let ghost fin_f = frontiers@;
        let ghost fin_t = trees@;
        let mut out: Vec<(NotOpened, SaTensorTree<S, A>)> = Vec::new();
        let mut i: usize = 0;
        while i < n
            invariant
                n == fin_f.len(),
                n == fin_t.len(),
                i <= n,
                frontiers@ == fin_f.subrange(i as int, n as int),
                trees@ == fin_t.subrange(i as int, n as int),
                out@.len() == i,
                forall|j: int| 0 <= j < i ==> #[trigger] out@[j] == (fin_f[j], fin_t[j]),
            decreases n - i,
        {
            let f = frontiers.remove(0);
            let t = trees.remove(0);
            out.push((f, t));
            proof {
                assert(frontiers@ =~= fin_f.subrange(i + 1, n as int));
                assert(trees@ =~= fin_t.subrange(i + 1, n as int));
            }
            i = i + 1;
        }
        proof {
            assert forall|j: int| 0 <= j < n implies search_result(
                (#[trigger] out@[j]).0@,
                out@[j].1,
                roots[j],
                alpha,
                rounds_run(depth as nat, breadth as nat),
                breadth as nat,
            ) by {
                assert(out@[j] == (fin_f[j], fin_t[j]));
                assert(search_result(fin_f[j]@, fin_t[j], roots[j], alpha, rounds as nat, breadth as nat));
            }
        }
        Ok(out)
    }
}

/// Every tree that a search returns is a tree rooted at its root state, each
/// stored node one deeper than its parent.
pub proof fn lemma_expanded_trees_are_rooted<S, A>(
    batch: Seq<(NotOpened, SaTensorTree<S, A>)>,
    roots: Seq<S>,
    alpha: u64,
    rounds: nat,
    breadth: nat,
)
    requires
        expanded(batch, roots, alpha, rounds, breadth),
    ensures
        forall|i: int, k: int|
            0 <= i < batch.len() && 0 <= k < batch[i].1.node_count() ==> #[trigger] batch[i].1.nodes()[k].depth
                == batch[i].1.depth_of(batch[i].1.parents()[k]) + 1,
        forall|i: int, k: nat|
            0 <= i < batch.len() && k < batch[i].1.node_count() ==> #[trigger] reaches_root(
                batch[i].1,
                k,
            ),
{
    assert forall|i: int| 0 <= i < batch.len() implies #[trigger] batch[i].1.wf() by {
        assert(search_result(batch[i].0@, batch[i].1, roots[i], alpha, rounds, breadth));
    }
    assert forall|i: int, k: int|
        0 <= i < batch.len() && 0 <= k < batch[i].1.node_count() implies #[trigger] batch[i].1.nodes()[k].depth
            == batch[i].1.depth_of(batch[i].1.parents()[k]) + 1 by {
        lemma_wf_is_rooted_tree(batch[i].1);
    }
    assert forall|i: int, k: nat|
        0 <= i < batch.len() && k < batch[i].1.node_count() implies #[trigger] reaches_root(
            batch[i].1,
            k,
        ) by {
        lemma_wf_is_rooted_tree(batch[i].1);
    }
}

/// A search of zero rounds, or of zero candidates per round, leaves each tree
/// with its root alone and each frontier with the root's entry alone.
pub proof fn lemma_no_rounds_leaves_root<S, A>(
    batch: Seq<(NotOpened, SaTensorTree<S, A>)>,
    roots: Seq<S>,
    alpha: u64,
    depth: nat,
    breadth: nat,
)
    requires
        expanded(batch, roots, alpha, rounds_run(depth, breadth), breadth),
        depth == 0 || breadth == 0,
    ensures
        forall|i: int|
            0 <= i < batch.len() ==> (#[trigger] batch[i]).1.node_count() == 0 && batch[i].0@.len()
                == 1 && batch[i].0@[0].1 == Id::Root,
{
    assert forall|i: int| 0 <= i < batch.len() implies (#[trigger] batch[i]).1.node_count() == 0
        && batch[i].0@.len() == 1 && batch[i].0@[0].1 == Id::Root by {
        let f = batch[i].0@;
        let t = batch[i].1;
        assert(search_result(f, t, roots[i], alpha, 0, breadth));
        assert(t.contains(f[0].1));
        assert(frontier_ids(f)[0] == f[0].1);
    }
}

/// A search of `depth` rounds of `breadth` candidates adds exactly
/// `depth * breadth` nodes to each tree (none when `breadth` is zero).
pub proof fn lemma_expanded_node_count<S, A>(
    batch: Seq<(NotOpened, SaTensorTree<S, A>)>,
    roots: Seq<S>,
    alpha: u64,
    depth: nat,
    breadth: nat,
)
    requires
        expanded(batch, roots, alpha, rounds_run(depth, breadth), breadth),
    ensures
        forall|i: int| 0 <= i < batch.len() ==> (#[trigger] batch[i]).1.node_count() == depth * breadth,
{
    assert forall|i: int| 0 <= i < batch.len() implies (#[trigger] batch[i]).1.node_count() == depth
        * breadth by {
        assert(search_result(batch[i].0@, batch[i].1, roots[i], alpha, rounds_run(depth, breadth), breadth));
        if breadth == 0 {
            assert(depth * breadth == 0) by (nonlinear_arith)
                requires
                    breadth == 0,
            ;
        }
    }
}

} // verus!

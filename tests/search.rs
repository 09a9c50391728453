use walking_robot_brain::comm::SimulationConnector;
use walking_robot_brain::expansion::{
    apply_round, gather_round, open_node, start_search, DynamicsOracle, MultiActionTensorPolicy, TreeExpander, ValueOracle,
    ValuesHaveWrongSize,
};
use walking_robot_brain::extract::{best_first_action, best_first_actions};
use walking_robot_brain::frontier::NotOpened;
use walking_robot_brain::id::Id;
use walking_robot_brain::score::{
    backed_up_score, child_score_basis, discount_factor, discounted, Score, SCORE_UNIT,
};
use walking_robot_brain::tools::UsedInTrait;
use walking_robot_brain::tree::SaTensorTree;
use walking_robot_brain::tree_policy::TreeExpPolicy;

const ONE: Score = SCORE_UNIT as Score;
const ALPHA_09: u64 = 900_000;

/// Proposes the same fixed list of candidate actions for every state.
struct FixedProposer {
    candidates: Vec<i64>,
    calls: usize,
}

impl MultiActionTensorPolicy<i64, i64> for FixedProposer {
    fn select_actions_tensor(&mut self, states: Vec<i64>, count: usize) -> Vec<i64> {
        self.calls += 1;
        let mut out = Vec::new();
        for _ in 0..states.len() {
            for j in 0..count {
                out.push(self.candidates[j % self.candidates.len()]);
            }
        }
        out
    }
}

/// Reward looked up by action; the next state records the path taken.
struct TableDynamics {
    rewards: Vec<(i64, Score)>,
}

impl DynamicsOracle<i64, i64> for TableDynamics {
    fn predict(&self, states: &Vec<i64>, actions: &Vec<i64>) -> (Vec<Score>, Vec<i64>) {
        let mut rewards = Vec::new();
        let mut next = Vec::new();
        for (s, a) in states.iter().zip(actions.iter()) {
            let r = self
                .rewards
                .iter()
                .find(|(k, _)| k == a)
                .map(|(_, r)| *r)
                .unwrap_or(0);
            rewards.push(r);
            next.push(s * 100 + a);
        }
        (rewards, next)
    }
}

/// The same value for every state.
struct ConstValue(Score);

impl ValueOracle<i64> for ConstValue {
    fn estimate_many(&self, states: &Vec<i64>) -> Vec<Score> {
        vec![self.0; states.len()]
    }
}

/// Answers one entry short.
struct ShortValue;

impl ValueOracle<i64> for ShortValue {
    fn estimate_many(&self, states: &Vec<i64>) -> Vec<Score> {
        vec![0; states.len().saturating_sub(1)]
    }
}

fn expander(
    candidates: Vec<i64>,
    rewards: Vec<(i64, Score)>,
    value: Score,
    alpha: u64,
) -> TreeExpander<FixedProposer, TableDynamics, ConstValue> {
    TreeExpander::new(
        TableDynamics { rewards },
        ConstValue(value),
        FixedProposer { candidates, calls: 0 },
        alpha,
    )
}

fn check_rooted(tree: &SaTensorTree<i64, i64>) {
    for k in 0..tree.node_len() as u64 {
        let node = tree.get(Id::Node(k));
        let parent = node.parent().expect("a stored node has a parent");
        assert_eq!(node.depth(), parent.depth() + 1);
        let mut cur = Id::Node(k);
        let mut steps = 0;
        while let Some(n) = cur.get_node_id() {
            cur = tree.get_parent(n);
            steps += 1;
            assert!(steps <= tree.node_len());
        }
        assert_eq!(cur, Id::Root);
    }
}

#[test]
fn id_root_and_node() {
    assert!(Id::Root.is_root());
    assert!(!Id::Node(3).is_root());
    assert_eq!(Id::Root.get_node_id(), None);
    assert_eq!(Id::Node(7).get_node_id(), Some(7));
}

#[test]
fn discount_powers() {
    assert_eq!(discount_factor(ALPHA_09, 0), 1_000_000);
    assert_eq!(discount_factor(ALPHA_09, 1), 900_000);
    assert_eq!(discount_factor(ALPHA_09, 2), 810_000);
    assert_eq!(discount_factor(ALPHA_09, 3), 729_000);
    assert_eq!(discount_factor(SCORE_UNIT, 50), 1_000_000);
}

#[test]
fn discounted_rounds_toward_zero() {
    assert_eq!(discounted(2 * ONE, 900_000), 1_800_000);
    assert_eq!(discounted(3, 500_000), 1);
    assert_eq!(discounted(-3, 500_000), -1);
    assert_eq!(discounted(i64::MIN, SCORE_UNIT), i64::MIN);
    assert_eq!(discounted(i64::MAX, 0), 0);
}

#[test]
fn child_basis_is_discounted_reward() {
    assert_eq!(child_score_basis(ONE, ALPHA_09, 0), ONE);
    assert_eq!(child_score_basis(ONE, ALPHA_09, 1), 900_000);
    assert_eq!(child_score_basis(-2 * ONE, ALPHA_09, 2), -1_620_000);
}

#[test]
fn backed_up_score_formula() {
    // 2.0 * 0.9^0 + 0.0 * 0.9^1
    assert_eq!(backed_up_score(0, 2 * ONE, 0, ALPHA_09, 0), 2 * ONE);
    // 0.5 + 1.0 * 0.9^1 + 2.0 * 0.9^2
    assert_eq!(backed_up_score(ONE / 2, ONE, 2 * ONE, ALPHA_09, 1), 500_000 + 900_000 + 1_620_000);
}

#[test]
fn backed_up_score_saturates() {
    assert_eq!(backed_up_score(i64::MAX, i64::MAX, i64::MAX, SCORE_UNIT, 0), i64::MAX);
    assert_eq!(backed_up_score(i64::MIN, i64::MIN, i64::MIN, SCORE_UNIT, 0), i64::MIN);
}

#[test]
fn frontier_starts_with_root() {
    let mut f = NotOpened::new(42);
    assert_eq!(f.len(), 1);
    assert_eq!(f.take_best(), (Id::Root, 42));
    assert!(f.is_empty());
}

#[test]
fn frontier_takes_highest_score() {
    let mut f = NotOpened::new(5);
    f.insert(Id::Node(0), 9);
    f.insert(Id::Node(1), -4);
    f.insert(Id::Node(2), 7);
    assert_eq!(f.take_best(), (Id::Node(0), 9));
    assert_eq!(f.take_best(), (Id::Node(2), 7));
    assert_eq!(f.take_best(), (Id::Root, 5));
    assert_eq!(f.take_best(), (Id::Node(1), -4));
    assert!(f.is_empty());
}

#[test]
fn frontier_keeps_equal_scores() {
    let mut f = NotOpened::new(3);
    f.insert(Id::Node(0), 3);
    f.insert(Id::Node(1), 3);
    assert_eq!(f.len(), 3);
    assert_eq!(f.take_best(), (Id::Node(1), 3));
    assert_eq!(f.take_best(), (Id::Node(0), 3));
    assert_eq!(f.take_best(), (Id::Root, 3));
}

#[test]
fn frontier_take_and_reinsert_round_trip() {
    let mut f = NotOpened::new(1);
    f.insert(Id::Node(0), 8);
    f.insert(Id::Node(1), 8);
    f.insert(Id::Node(2), 2);
    let (id, score) = f.take_best();
    f.insert(id, score);
    assert_eq!(f.take_best(), (id, score));
    // with no entry strictly above it, a re-inserted entry comes out next
    f.insert(Id::Node(0), 8);
    assert_eq!(f.take_best(), (Id::Node(0), 8));
}

#[test]
fn tree_add_children_numbers_and_links() {
    let mut tree: SaTensorTree<i64, i64> = SaTensorTree::new(7, ALPHA_09);
    assert_eq!(tree.node_len(), 0);
    assert_eq!(*tree.get_state(Id::Root), 7);
    let ids = tree.add_children(Id::Root, (vec![1, 2], vec![10, 20], vec![71, 72]));
    assert_eq!(ids, vec![Id::Node(0), Id::Node(1)]);
    let more = tree.add_children(Id::Node(1), (vec![3], vec![30], vec![723]));
    assert_eq!(more, vec![Id::Node(2)]);
    assert_eq!(tree.node_len(), 3);
    assert_eq!(*tree.get_children(Id::Root), vec![Id::Node(0), Id::Node(1)]);
    assert_eq!(*tree.get_children(Id::Node(1)), vec![Id::Node(2)]);
    assert!(tree.get_children(Id::Node(0)).is_empty());
    assert_eq!(tree.get_parent(2), Id::Node(1));
    let n = tree.get_node(2);
    assert_eq!((n.state, n.action, n.acc_reward, n.depth), (723, 3, 30, 2));
    assert_eq!(tree.depth(Id::Node(0)), 1);
    assert_eq!(tree.acc_reward(Id::Node(1)), 20);
    assert_eq!(tree.acc_reward(Id::Root), 0);
    check_rooted(&tree);
}

#[test]
fn cursor_walks_tree() {
    let mut tree: SaTensorTree<i64, i64> = SaTensorTree::new(7, ALPHA_09);
    tree.add_children(Id::Root, (vec![1, 2], vec![10, 20], vec![71, 72]));
    tree.add_children(Id::Node(0), (vec![5], vec![50], vec![715]));
    let root = tree.get(Id::Root);
    assert!(root.is_root());
    assert!(root.node().is_none());
    assert!(root.parent().is_none());
    assert_eq!(*root.state(), 7);
    assert_eq!(root.depth(), 0);
    assert_eq!(root.acc_reward(), 0);
    let kids: Vec<Id> = root.children().iter().map(|c| c.id()).collect();
    assert_eq!(kids, vec![Id::Node(0), Id::Node(1)]);
    let leaf = tree.get(Id::Node(2));
    assert_eq!(leaf.depth(), 2);
    assert_eq!(leaf.acc_reward(), 50);
    assert_eq!(leaf.node().unwrap().action, 5);
    let up = leaf.parent().unwrap();
    assert_eq!(up.id(), Id::Node(0));
    assert_eq!(*up.state(), 71);
}

#[test]
fn open_node_scores_children() {
    let mut tree: SaTensorTree<i64, i64> = SaTensorTree::new(0, ALPHA_09);
    let mut f = NotOpened::new(0);
    let (root, _) = f.take_best();
    let ids = open_node(&mut f, &mut tree, root, vec![1, 2], &vec![ONE, 2 * ONE], vec![1, 2], &vec![ONE, 0]);
    assert_eq!(ids, vec![Id::Node(0), Id::Node(1)]);
    // 1.0 + 1.0 * 0.9 and 2.0 + 0.0
    assert_eq!(f.take_best(), (Id::Node(1), 2 * ONE));
    assert_eq!(f.take_best(), (Id::Node(0), 1_900_000));
    assert_eq!(tree.get_node(1).acc_reward, 2 * ONE);
    // children of a depth-1 node: basis 2.0 carried, reward discounted once
    let mut g = NotOpened::new(0);
    g.take_best();
    open_node(&mut g, &mut tree, Id::Node(1), vec![3], &vec![ONE], vec![3], &vec![ONE]);
    // 2.0 + 1.0 * 0.9 + 1.0 * 0.81
    assert_eq!(g.take_best(), (Id::Node(2), 2 * ONE + 900_000 + 810_000));
    assert_eq!(tree.get_node(2).acc_reward, 900_000);
    assert_eq!(tree.get_node(2).depth, 2);
}

#[test]
fn apply_round_rejects_wrong_sizes() {
    let mut frontiers = vec![NotOpened::new(0)];
    let mut trees: Vec<SaTensorTree<i64, i64>> = vec![SaTensorTree::new(0, ALPHA_09)];
    let active = vec![Id::Root];
    let r = apply_round(&mut frontiers, &mut trees, &active, vec![1, 2], &vec![0, 0], vec![1], &vec![0, 0], 2);
    assert_eq!(r, Err(ValuesHaveWrongSize));
    assert_eq!(trees[0].node_len(), 0);
    assert_eq!(frontiers[0].len(), 1);
    let r = apply_round(&mut frontiers, &mut trees, &active, vec![1, 2], &vec![0, 0], vec![1, 2], &vec![0, 0], 2);
    assert_eq!(r, Ok(()));
    assert_eq!(trees[0].node_len(), 2);
    assert_eq!(frontiers[0].len(), 3);
}

#[test]
fn expand_with_zero_depth_keeps_only_root() {
    let mut e = expander(vec![1, 2], vec![], 5 * ONE, ALPHA_09);
    let mut batch = e.expand_states_tensor(vec![1, 2], 0, 2).unwrap();
    assert_eq!(batch.len(), 2);
    for (f, t) in batch.iter_mut() {
        assert_eq!(t.node_len(), 0);
        assert_eq!(f.len(), 1);
        assert_eq!(f.take_best(), (Id::Root, 5 * ONE));
    }
}

#[test]
fn expand_with_zero_breadth_keeps_only_root() {
    let mut e = expander(vec![1, 2], vec![], 5 * ONE, ALPHA_09);
    let mut batch = e.expand_states_tensor(vec![9], 4, 0).unwrap();
    assert_eq!(batch.len(), 1);
    let (f, t) = &mut batch[0];
    assert_eq!(t.node_len(), 0);
    assert_eq!(f.len(), 1);
    assert_eq!(f.take_best(), (Id::Root, 5 * ONE));
}

#[test]
fn expand_of_no_states_is_empty() {
    let mut e = expander(vec![1], vec![], 0, ALPHA_09);
    let batch = e.expand_states_tensor(Vec::<i64>::new(), 3, 3).unwrap();
    assert!(batch.is_empty());
}

#[test]
fn expand_depth_two_breadth_three_node_count() {
    // one frontier node is opened per round: 3 children in each of 2 rounds
    let mut e = expander(vec![1, 2, 3], vec![(1, ONE), (2, 2 * ONE), (3, 3 * ONE)], 0, ALPHA_09);
    let batch = e.expand_states_tensor(vec![0], 2, 3).unwrap();
    let (f, t) = &batch[0];
    assert_eq!(t.node_len(), 6);
    assert_eq!(f.len(), 1 + 2 * 2);
    check_rooted(t);
}

#[test]
fn expand_trees_are_rooted() {
    let mut e = expander(vec![1, 2, 3], vec![(1, ONE), (2, -ONE), (3, ONE / 2)], ONE, ALPHA_09);
    let batch = e.expand_states_tensor(vec![0, 5, 9], 5, 3).unwrap();
    assert_eq!(batch.len(), 3);
    for (i, (f, t)) in batch.iter().enumerate() {
        assert_eq!(*t.get_state(Id::Root), [0, 5, 9][i]);
        assert_eq!(t.node_len(), 15);
        assert_eq!(f.len(), 11);
        check_rooted(t);
    }
    assert_eq!(e.expand_states_tensor(vec![1], 1, 1).unwrap()[0].1.node_len(), 1);
}

#[test]
fn expand_scenario_prefers_higher_reward() {
    // alpha 0.9, breadth 2, depth 1; A = 1 earns 1.0, B = 2 earns 2.0; values 0.0
    let mut e = expander(vec![1, 2], vec![(1, ONE), (2, 2 * ONE)], 0, ALPHA_09);
    let mut batch = e.expand_states_tensor(vec![0], 1, 2).unwrap();
    let (f, t) = &mut batch[0];
    assert_eq!(t.node_len(), 2);
    let (best, score) = f.take_best();
    assert_eq!(score, 2 * ONE);
    assert_eq!(t.get_node(best.get_node_id().unwrap()).action, 2);
    f.insert(best, score);
    assert_eq!(*best_first_action(f, t), 2);
}

#[test]
fn best_first_action_climbs_to_depth_one() {
    // B = 2 always pays most, so the best leaf lies under B's first step
    let mut e = expander(vec![1, 2], vec![(1, ONE), (2, 2 * ONE)], 0, ALPHA_09);
    let mut batch = e.expand_states_tensor(vec![0], 4, 2).unwrap();
    let (f, t) = &mut batch[0];
    let (best, score) = f.take_best();
    assert!(t.depth(best) > 1);
    f.insert(best, score);
    let action = *best_first_action(f, t);
    assert_eq!(action, 2);
    let depth_one: Vec<i64> = t
        .get(Id::Root)
        .children()
        .iter()
        .map(|c| c.node().unwrap().action)
        .collect();
    assert!(depth_one.contains(&action));
}

#[test]
fn best_first_actions_reads_each_tree() {
    let mut e = expander(vec![1, 2], vec![(1, 3 * ONE), (2, ONE)], 0, ALPHA_09);
    let batch = e.expand_states_tensor(vec![0, 1], 3, 2).unwrap();
    assert_eq!(best_first_actions(batch), vec![1, 1]);
}

#[test]
fn expand_reports_wrong_sized_oracle() {
    let mut e = TreeExpander::new(
        TableDynamics { rewards: vec![] },
        ShortValue,
        FixedProposer { candidates: vec![1], calls: 0 },
        ALPHA_09,
    );
    assert_eq!(e.expand_states_tensor(vec![1, 2], 2, 1).err(), Some(ValuesHaveWrongSize));
}

#[test]
fn tree_policy_commits_to_first_action() {
    let e = expander(vec![1, 2], vec![(1, ONE), (2, 2 * ONE)], 0, ALPHA_09);
    let mut policy = TreeExpPolicy::new(e, 3, 2);
    assert_eq!(policy.select_action_tensor(vec![0, 4]).unwrap().0, vec![2, 2]);
    let none: Vec<i64> = policy.select_action_tensor(Vec::<i64>::new()).unwrap().0;
    assert!(none.is_empty());
}

#[test]
fn simulation_connector_new() {
    assert_eq!(SimulationConnector::new(), SimulationConnector);
}

#[test]
fn used_in_passes_value() {
    assert_eq!(3.used_in(|x: i32| x * 2), 6);
    assert_eq!(vec![1, 2, 3].used_in(|v: Vec<i32>| v.len()), 3);
}

#[test]
fn start_search_builds_one_root_per_state() {
    let (mut frontiers, trees) = start_search::<i64, i64>(vec![4, 5], &vec![7, 8], ALPHA_09).unwrap();
    assert_eq!(trees.len(), 2);
    assert_eq!(*trees[1].get_state(Id::Root), 5);
    assert_eq!(trees[0].node_len(), 0);
    assert_eq!(frontiers[0].take_best(), (Id::Root, 7));
    assert_eq!(frontiers[1].take_best(), (Id::Root, 8));
    assert!(frontiers[1].is_empty());
}

#[test]
fn start_search_rejects_wrong_number_of_values() {
    let r = start_search::<i64, i64>(vec![4, 5], &vec![7], ALPHA_09);
    assert_eq!(r.err(), Some(ValuesHaveWrongSize));
}

#[test]
fn gather_round_takes_best_and_repeats_states() {
    let mut t0: SaTensorTree<i64, i64> = SaTensorTree::new(10, ALPHA_09);
    t0.add_children(Id::Root, (vec![1, 2], vec![0, 0], vec![11, 12]));
    let t1: SaTensorTree<i64, i64> = SaTensorTree::new(20, ALPHA_09);
    let mut f0 = NotOpened::new(0);
    f0.take_best();
    f0.insert(Id::Node(0), 3);
    f0.insert(Id::Node(1), 9);
    let f1 = NotOpened::new(1);
    let mut frontiers = vec![f0, f1];
    let trees = vec![t0, t1];
    let (ids, states, repeated) = gather_round(&mut frontiers, &trees, 3);
    assert_eq!(ids, vec![Id::Node(1), Id::Root]);
    assert_eq!(states, vec![12, 20]);
    assert_eq!(repeated, vec![12, 12, 12, 20, 20, 20]);
    assert_eq!(frontiers[0].len(), 1);
    assert!(frontiers[1].is_empty());
}

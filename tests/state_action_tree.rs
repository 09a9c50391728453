use either::Either;
use walking_robot_brain::id::Id;
use walking_robot_brain::score::Score;
use walking_robot_brain::state_action_tree::{StateActionTree, StateExpander};

/// Two steps from every state: action 1 earns 10, action 2 earns 20.
struct TwoSteps;

impl StateExpander<i64, i64> for TwoSteps {
    fn expand(&mut self, game_state: &i64) -> Vec<(i64, Score, i64)> {
        vec![(1, 10, game_state * 10 + 1), (2, 20, game_state * 10 + 2)]
    }
}

/// No step from any state.
struct Stuck;

impl StateExpander<i64, i64> for Stuck {
    fn expand(&mut self, _game_state: &i64) -> Vec<(i64, Score, i64)> {
        Vec::new()
    }
}

#[test]
fn new_tree_has_root_on_frontier() {
    let tree: StateActionTree<i64, i64> = StateActionTree::new(3);
    assert_eq!(*tree.get_frontier(), vec![Id::Root]);
    assert_eq!(*tree.get_state(Id::Root), 3);
    assert!(matches!(tree.get(Id::Root), Either::Left(&3)));
    assert!(tree.get_children(Id::Root).is_empty());
}

#[test]
fn expand_once_adds_children_and_frontier() {
    let mut tree = StateActionTree::new(3);
    tree.expand_once(Id::Root, &mut TwoSteps);
    assert_eq!(*tree.get_frontier(), vec![Id::Node(0), Id::Node(1)]);
    assert_eq!(*tree.get_children(Id::Root), vec![Id::Node(0), Id::Node(1)]);
    tree.expand_once(Id::Node(1), &mut TwoSteps);
    assert_eq!(*tree.get_frontier(), vec![Id::Node(0), Id::Node(2), Id::Node(3)]);
    assert_eq!(*tree.get_children(Id::Node(1)), vec![Id::Node(2), Id::Node(3)]);
    let n = tree.get_node(3);
    assert_eq!((n.state, n.action, n.reward), (322, 2, 20));
    match tree.get(Id::Node(2)) {
        Either::Right(node) => assert_eq!(node.state, 321),
        Either::Left(_) => panic!("a stored node is on the right"),
    }
    assert_eq!(tree.get_parent(2), Id::Node(1));
    assert_eq!(tree.get_parent(0), Id::Root);
}

#[test]
fn expand_once_with_no_steps_empties_frontier_entry() {
    let mut tree: StateActionTree<i64, i64> = StateActionTree::new(3);
    tree.expand_once(Id::Root, &mut Stuck);
    assert!(tree.get_frontier().is_empty());
    assert!(tree.get_children(Id::Root).is_empty());
}

#[test]
fn walker_moves_up_and_down() {
    let mut tree = StateActionTree::new(3);
    tree.expand_once(Id::Root, &mut TwoSteps);
    tree.expand_once(Id::Node(0), &mut TwoSteps);
    let root = tree.start_walking(Id::Root);
    assert!(root.is_root());
    assert!(root.node().is_none());
    assert!(root.parent().is_none());
    let kids: Vec<Id> = root.children().iter().map(|w| w.id()).collect();
    assert_eq!(kids, vec![Id::Node(0), Id::Node(1)]);
    let leaf = tree.start_walking(Id::Node(3));
    assert_eq!(*leaf.state(), 312);
    assert_eq!(leaf.node().unwrap().action, 2);
    let up = leaf.parent().unwrap();
    assert_eq!(up.id(), Id::Node(0));
    assert_eq!(up.parent().unwrap().id(), Id::Root);
}

#[test]
fn add_steps_adds_given_steps_in_order() {
    let mut tree: StateActionTree<i64, i64> = StateActionTree::new(3);
    tree.add_steps(Id::Root, vec![(7, 70, 37), (8, -5, 38), (9, 0, 39)]);
    assert_eq!(*tree.get_frontier(), vec![Id::Node(0), Id::Node(1), Id::Node(2)]);
    assert_eq!(*tree.get_children(Id::Root), vec![Id::Node(0), Id::Node(1), Id::Node(2)]);
    let n = tree.get_node(1);
    assert_eq!((n.action, n.reward, n.state), (8, -5, 38));
    tree.add_steps(Id::Node(0), vec![(1, 1, 371)]);
    assert_eq!(*tree.get_frontier(), vec![Id::Node(1), Id::Node(2), Id::Node(3)]);
    assert_eq!(tree.get_parent(3), Id::Node(0));
}

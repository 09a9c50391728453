//! Model-based lookahead search: an arena of hypothetical states and actions
//! grown best first from a root state, scored by discounted predicted reward
//! plus a learned value estimate, and read out as the first action of the most
//! promising trajectory.
pub mod comm;
pub mod expansion;
pub mod extract;
pub mod frontier;
pub mod id;
pub mod score;
pub mod state_action_tree;
pub mod tools;
pub mod tree;
pub mod tree_policy;
pub mod view;

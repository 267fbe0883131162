//! Branching history engine for an interactive graph editor.
//!
//! Every user-applied mutation is recorded as a node in a rooted tree; the
//! "current" pointer may jump to any recorded node, and the engine computes
//! the net patch that transforms the materialized state at the current node
//! into the state at the target node: inverse patches up to the lowest common
//! ancestor, forward patches down to the target, squashed into one.

pub mod elements;
pub mod graph_state;
pub mod history;
pub mod lca;
pub mod matrix;
pub mod planner;
pub mod step_difference;
pub mod step_tree;

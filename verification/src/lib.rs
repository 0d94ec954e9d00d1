//! The decision-making core of a sequential-decision agent: a context-tree
//! model of a binary percept stream and the building blocks of a Monte Carlo
//! planner that searches possible futures under that model.

pub mod bitstring;
pub mod context_tree;
pub mod environment;
pub mod explorer;
pub mod percept_code;
pub mod random;
pub mod types;

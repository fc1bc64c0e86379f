//! LR items, item sets and the automaton over them.

pub mod automaton;
pub mod graph;
pub mod lr;
pub mod lr0;
pub mod model;
pub mod set;
pub mod shape;
pub mod store;

//! Parsers: the item automaton, the action tables, the engine and what is
//! proved of them, and the LL(1) prediction table.

pub mod accepts;
pub mod complete;
pub mod items;
pub mod lalr1;
pub mod lalr_sentences;
pub mod leaves;
pub mod ll1;
pub mod lr;
pub mod lr0;
pub mod order;
pub mod render;
pub mod sentences;
pub mod slr1;
pub mod sorted;
pub mod table;

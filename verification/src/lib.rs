//! A parser-generator core: grammar analysis, the LR(0) item automaton,
//! LR(0) / SLR(1) / LALR(1) action tables, an LL(1) prediction table, a
//! longest-match tokenizer and a table-driven shift-reduce engine that
//! builds derivation trees.

pub mod fixpoint;
pub mod grammar;
pub mod parsers;
pub mod reach;
pub mod text;
pub mod tokenizer;

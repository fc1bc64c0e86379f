//! Tokens, source locations and the longest-match tokenizer.

pub mod error;
pub mod location;
pub mod patterns;
pub mod span;
pub mod token;
pub mod tokenizer;
pub mod tokens;

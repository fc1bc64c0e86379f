//! The error of the tokenizer and of the parsing engine.

use vstd::prelude::*;
use crate::tokenizer::location::SourceLocation;

verus! {

/// A failure to read the source: text that no pattern matches, or a token
/// that the grammar does not allow where it stands.
#[derive(Debug, Clone)]
pub struct SyntaxError {
    pub location: SourceLocation,
    pub message: String,
}

/// What an error says: where it is and its message.
pub struct ErrorView {
    pub location: SourceLocation,
    pub message: Seq<char>,
}

impl View for SyntaxError {
    type V = ErrorView;

    open spec fn view(&self) -> ErrorView {
        ErrorView { location: self.location, message: self.message@ }
    }
}

} // verus!

//! Token types and tokens.

use vstd::prelude::*;
use vstd::string::{StringExecFns, StrSliceExecFns};
use crate::grammar::model::EOF;
use crate::text::owned;
use crate::tokenizer::location::{FileLocation, SourceLocation, SourceRange, INLINE};

verus! {

/// A kind of token: its name, which is the terminal it stands for, and the
/// regular expression that matches it. A type without a name matches text
/// that the tokenizer skips.
pub struct TokenType {
    pub name: String,
    pub pattern: String,
}

/// What a token type says: its name and its pattern.
pub struct TokenTypeView {
    pub name: Seq<char>,
    pub pattern: Seq<char>,
}

impl View for TokenType {
    type V = TokenTypeView;

    open spec fn view(&self) -> TokenTypeView {
        TokenTypeView { name: self.name@, pattern: self.pattern@ }
    }
}

/// The token types that a vector holds.
pub open spec fn type_views(types: Seq<TokenType>) -> Seq<TokenTypeView> {
    types.map_values(|t: TokenType| t@)
}

/// A token type in text.
pub open spec fn type_text(t: TokenTypeView) -> Seq<char> {
    "["@ + t.name + "] -> /"@ + t.pattern + "/"@
}

impl TokenType {
    /// The token type in text.
    pub fn to_string(&self) -> (s: String)
        ensures
            s@ == type_text(self@),
    {
        let mut s = owned("[");
        s.append(self.name.as_str());
        s.append("] -> /");
        s.append(self.pattern.as_str());
        s.append("/");
        s
    }

    /// The token type `name` with the regular expression `pattern`.
    pub fn new(name: &str, pattern: &str) -> (t: Self)
        ensures
            t@.name == name@,
            t@.pattern == pattern@,
    {
        TokenType { name: owned(name), pattern: owned(pattern) }
    }
}

/// A token: its kind, its text and where it starts.
#[derive(Debug, Clone)]
pub struct TokenInstance {
    pub token: String,
    pub value: String,
    pub loc: SourceLocation,
}

/// What a token says.
pub struct TokenView {
    pub token: Seq<char>,
    pub value: Seq<char>,
    pub loc: SourceLocation,
}

impl View for TokenInstance {
    type V = TokenView;

    open spec fn view(&self) -> TokenView {
        TokenView { token: self.token@, value: self.value@, loc: self.loc }
    }
}

/// The token without kind and text, at the start of an inline source.
pub open spec fn blank_token() -> TokenView {
    TokenView {
        token: Seq::empty(),
        value: Seq::empty(),
        loc: SourceLocation { file: INLINE, loc: FileLocation { line: 1, col: 1 } },
    }
}

/// The token that stands for the end of the input at `loc`.
pub open spec fn end_token(loc: SourceLocation) -> TokenView {
    TokenView { token: EOF@, value: EOF@, loc }
}

impl Default for TokenInstance {
    /// A token without kind and text, at the start of an inline source.
    fn default() -> (t: Self)
        ensures
            t@ == blank_token(),
    {
        TokenInstance::new()
    }
}

impl TokenInstance {
    /// The stretch of the source that the token covers, if it stands on one
    /// line.
    pub fn range(&self) -> (r: SourceRange)
        requires
            self@.loc.loc.col + self@.value.len() <= usize::MAX,
        ensures
            r.file == self@.loc.file,
            r.start == self@.loc.loc,
            r.end == (FileLocation {
                line: self@.loc.loc.line,
                col: (self@.loc.loc.col + self@.value.len()) as usize,
            }),
    {
        SourceRange::from_loc_len(self.loc, self.value.as_str().unicode_len())
    }

    /// A token without kind and text, at the start of an inline source.
    pub fn new() -> (t: Self)
        ensures
            t@ == blank_token(),
    {
        TokenInstance {
            token: String::new(),
            value: String::new(),
            loc: SourceLocation { file: INLINE, loc: FileLocation { line: 1, col: 1 } },
        }
    }

    /// The token of kind `token` with text `value` at `loc`.
    pub fn from(token: &str, value: &str, loc: &SourceLocation) -> (t: Self)
        ensures
            t@ == (TokenView { token: token@, value: value@, loc: *loc }),
    {
        TokenInstance { token: owned(token), value: owned(value), loc: *loc }
    }

    /// A copy of the token.
    pub fn copy(&self) -> (t: Self)
        ensures
            t@ == self@,
    {
        TokenInstance { token: self.token.clone(), value: self.value.clone(), loc: self.loc }
    }
}

} // verus!

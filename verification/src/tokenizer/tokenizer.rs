//! The tokenizer: at each position the longest match of all patterns wins,
//! the earliest pattern among equals.

use vstd::prelude::*;
use vstd::string::{StringExecFns, StrSliceExecFns};
use crate::grammar::model::EOF;
use crate::text::owned;
use crate::tokenizer::error::{ErrorView, SyntaxError};
use crate::tokenizer::location::{FileLocation, SourceLocation, INLINE};
use crate::tokenizer::patterns::{find_match, regex_find};
use crate::tokenizer::token::{
    end_token, type_views, TokenInstance, TokenType, TokenTypeView, TokenView,
};
use crate::tokenizer::tokens::UNEXPECTED;

verus! {

/// The line of position `cursor` in `source`: one more than the number of
/// line breaks before it.
pub open spec fn line_at(source: Seq<char>, cursor: int) -> int
    decreases cursor,
{
    if cursor <= 0 {
        1
    } else if source[cursor - 1] == '\n' {
        line_at(source, cursor - 1) + 1
    } else {
        line_at(source, cursor - 1)
    }
}

/// The column of position `cursor` in `source`: one more than the number
/// of characters since the last line break.
pub open spec fn col_at(source: Seq<char>, cursor: int) -> int
    decreases cursor,
{
    if cursor <= 0 {
        1
    } else if source[cursor - 1] == '\n' {
        1
    } else {
        col_at(source, cursor - 1) + 1
    }
}

/// Line and column lie between 1 and one more than the position.
pub proof fn lemma_location_bounds(source: Seq<char>, cursor: int)
    requires
        0 <= cursor,
    ensures
        1 <= line_at(source, cursor) <= cursor + 1,
        1 <= col_at(source, cursor) <= cursor + 1,
    decreases cursor,
{
    if cursor > 0 {
        lemma_location_bounds(source, cursor - 1);
    }
}

/// The place of position `cursor` of `source` in `file`.
pub open spec fn location_at(file: &'static str, source: Seq<char>, cursor: int) -> SourceLocation {
    SourceLocation {
        file,
        loc: FileLocation {
            line: line_at(source, cursor) as usize,
            col: col_at(source, cursor) as usize,
        },
    }
}

/// What `pattern` matches at the start of `rest`: the text of its first
/// match, if that match starts at the start, is not empty and is a prefix
/// of `rest`.
pub open spec fn matched(pattern: Seq<char>, rest: Seq<char>) -> Option<Seq<char>> {
    match regex_find(pattern, rest) {
        Some((start, text)) => if start == 0 && text.len() > 0 && text.is_prefix_of(rest) {
            Some(text)
        } else {
            None
        },
        None => None,
    }
}

/// The length of a match, and 0 where there is none.
pub open spec fn best_len(m: Option<(int, Seq<char>)>) -> nat {
    match m {
        Some((i, text)) => text.len(),
        None => 0,
    }
}

/// The best match among the first `upto` token types at the start of
/// `rest`: the longest, and of several longest the first; as the number of
/// the type and the matched text.
pub open spec fn best_match(types: Seq<TokenTypeView>, rest: Seq<char>, upto: int) -> Option<
    (int, Seq<char>),
>
    decreases upto,
{
    if upto <= 0 {
        None
    } else {
        let prev = best_match(types, rest, upto - 1);
        match matched(types[upto - 1].pattern, rest) {
            Some(text) => if text.len() > best_len(prev) {
                Some((upto - 1, text))
            } else {
                prev
            },
            None => prev,
        }
    }
}

/// The message for text that no pattern matches: it shows the stretch up
/// to the next white space.
pub open spec fn unexpected_message(rest: Seq<char>) -> Seq<char> {
    "unexpected token '"@ + (match regex_find(UNEXPECTED@, rest) {
        Some((start, text)) => text,
        None => Seq::empty(),
    }) + "'"@
}

/// What the tokenizer finds: a token or an error, and the position at
/// which it stands afterwards.
pub enum Scan {
    Token(TokenView, int),
    Error(ErrorView, int),
}

/// What the tokenizer finds from position `cursor`: the end token at the
/// end of the source; an error where no pattern matches; else the best
/// match, as a token of its type if the type has a name, and if it has
/// none, what is found behind the match.
pub open spec fn scan(
    file: &'static str,
    types: Seq<TokenTypeView>,
    source: Seq<char>,
    cursor: int,
) -> Scan
    decreases source.len() - cursor,
{
    if cursor < 0 || cursor >= source.len() {
        Scan::Token(end_token(location_at(file, source, cursor)), cursor)
    } else {
        let rest = source.subrange(cursor, source.len() as int);
        match best_match(types, rest, types.len() as int) {
            None => Scan::Error(
                ErrorView {
                    location: location_at(file, source, cursor),
                    message: unexpected_message(rest),
                },
                cursor,
            ),
            Some((i, text)) => if text.len() == 0 || cursor + text.len() > source.len() {
                Scan::Token(end_token(location_at(file, source, cursor)), cursor)
            } else if types[i].name.len() == 0 {
                scan(file, types, source, cursor + text.len())
            } else {
                Scan::Token(
                    TokenView {
                        token: types[i].name,
                        value: text,
                        loc: location_at(file, source, cursor),
                    },
                    cursor + text.len(),
                )
            },
        }
    }
}

/// What the patterns found, in the order of the patterns, as plain values:
/// for each the offset and the text of its first match, if it has one.
pub open spec fn found_views(found: Seq<Option<(usize, String)>>) -> Seq<Option<(int, Seq<char>)>> {
    Seq::new(
        found.len(),
        |i: int|
            match found[i] {
                Some((start, text)) => Some((start as int, text@)),
                None => None,
            },
    )
}

/// A match counts if it starts at offset 0 and is not empty.
pub open spec fn counts(m: Option<(int, Seq<char>)>) -> bool {
    m matches Some(at) && at.0 == 0 && at.1.len() > 0
}

/// The length of a match that counts, and 0 for the others.
pub open spec fn weight(m: Option<(int, Seq<char>)>) -> nat {
    if counts(m) {
        best_len(m)
    } else {
        0
    }
}

/// The best of the first `upto` matches in `found`: of those that count
/// the longest, and of several longest the first; as its number and its
/// text. Nothing if none counts.
pub open spec fn best_of(found: Seq<Option<(int, Seq<char>)>>, upto: int) -> Option<
    (int, Seq<char>),
>
    decreases upto,
{
    if upto <= 0 {
        None
    } else {
        let prev = best_of(found, upto - 1);
        match found[upto - 1] {
            Some((start, text)) => if start == 0 && text.len() > best_len(prev) {
                Some((upto - 1, text))
            } else {
                prev
            },
            None => prev,
        }
    }
}

/// The best match is one that counts, no match is longer, and every match
/// before it is shorter; there is none exactly when no match counts.
pub proof fn lemma_best_of(found: Seq<Option<(int, Seq<char>)>>, upto: int)
    requires
        0 <= upto <= found.len(),
    ensures
        match best_of(found, upto) {
            Some((i, text)) => {
                &&& 0 <= i < upto
                &&& counts(found[i])
                &&& found[i] == Some((0int, text))
                &&& forall|j: int| 0 <= j < upto ==> weight(#[trigger] found[j]) <= text.len()
                &&& forall|j: int| 0 <= j < i ==> weight(#[trigger] found[j]) < text.len()
            },
            None => forall|j: int| 0 <= j < upto ==> !counts(#[trigger] found[j]),
        },
    decreases upto,
{
    if upto > 0 {
        lemma_best_of(found, upto - 1);
    }
}

/// Where `found` holds what each pattern finds in `rest`, and the matches
/// at offset 0 are prefixes of `rest`, the best of `found` is the best
/// match of the token types.
pub proof fn lemma_best_of_found(
    types: Seq<TokenTypeView>,
    rest: Seq<char>,
    found: Seq<Option<(int, Seq<char>)>>,
    upto: int,
)
    requires
        0 <= upto <= types.len(),
        found.len() == types.len(),
        forall|i: int|
            0 <= i < types.len() ==> #[trigger] found[i] == regex_find(types[i].pattern, rest),
        forall|i: int|
            0 <= i < types.len() ==> ((#[trigger] found[i]) matches Some(m) ==> (m.0 == 0
                ==> m.1.is_prefix_of(rest))),
    ensures
        best_of(found, upto) == best_match(types, rest, upto),
    decreases upto,
{
    if upto > 0 {
        lemma_best_of_found(types, rest, found, upto - 1);
        assert(found[upto - 1] == regex_find(types[upto - 1].pattern, rest));
    }
}

/// The best of the matches in `found`, which holds for each pattern, in
/// order, the offset and the text of its first match: the longest match
/// that starts at offset 0 and is not empty, and of several longest the
/// first; as its text and its number.
pub fn pick_best(found: &Vec<Option<(usize, String)>>) -> (r: Option<(String, usize)>)
    ensures
        match best_of(found_views(found@), found@.len() as int) {
            Some((i, text)) => r matches Some(m) && m.1 == i && m.0@ == text,
            None => r is None,
        },
{
    let ghost views = found_views(found@);
    let mut best: Option<usize> = None;
    let mut longest: usize = 0;
    let mut i: usize = 0;
    while i < found.len()
        invariant
            views == found_views(found@),
            i <= found@.len(),
            match best_of(views, i as int) {
                Some((k, text)) => best == Some(k as usize) && 0 <= k < i && longest == text.len()
                    && views[k] == Some((0int, text)),
                None => best is None && longest == 0,
            },
        decreases found@.len() - i,
    {
        match &found[i] {
            Some(at) => {
                let len = at.1.as_str().unicode_len();
                if at.0 == 0 && len > longest {
                    best = Some(i);
                    longest = len;
                }
            },
            None => {},
        }
        i += 1;
    }
    match best {
        Some(k) => match &found[k] {
            Some(at) => Some((at.1.clone(), k)),
            None => None,
        },
        None => None,
    }
}

/// Every best match is not empty, is a prefix of the text and belongs to
/// one of the types.
pub proof fn lemma_best_match(types: Seq<TokenTypeView>, rest: Seq<char>, upto: int)
    requires
        0 <= upto <= types.len(),
    ensures
        best_match(types, rest, upto) matches Some(m) ==> 0 <= m.0 < upto && m.1.len() > 0
            && m.1.is_prefix_of(rest),
    decreases upto,
{
    if upto > 0 {
        lemma_best_match(types, rest, upto - 1);
    }
}

/// A tokenizer over a source text.
pub struct Tokenizer {
    pub(crate) file: &'static str,
    pub(crate) string: String,
    pub(crate) total: usize,
    pub(crate) cursor: usize,
    pub(crate) line: usize,
    pub(crate) col: usize,
    pub(crate) token_types: Vec<TokenType>,
}

impl Tokenizer {
    /// The source text.
    pub open(crate) spec fn text(&self) -> Seq<char> {
        self.string@
    }

    /// The name of the source.
    pub open(crate) spec fn file(&self) -> &'static str {
        self.file
    }

    /// The position, in characters from the start of the source.
    pub open(crate) spec fn position(&self) -> int {
        self.cursor as int
    }

    /// The token types, in the order in which they are tried.
    pub open(crate) spec fn types(&self) -> Seq<TokenTypeView> {
        type_views(self.token_types@)
    }

    /// The position lies in the text, whose length the tokenizer knows, and
    /// the line and the column are those of the position.
    pub open(crate) spec fn wf(&self) -> bool {
        &&& self.total == self.string@.len()
        &&& self.total < usize::MAX
        &&& self.cursor <= self.total
        &&& self.line == line_at(self.string@, self.cursor as int)
        &&& self.col == col_at(self.string@, self.cursor as int)
    }

    /// A tokenizer at the start of `input`, which it names `inline`.
    pub fn from_string(input: &str, token_types: Vec<TokenType>) -> (t: Tokenizer)
        requires
            input@.len() < usize::MAX,
        ensures
            t.wf(),
            t.text() == input@,
            t.file() == INLINE,
            t.position() == 0,
            t.types() == type_views(token_types@),
    {
        Tokenizer::from_source(INLINE, input, token_types)
    }

    /// A tokenizer at the start of `input`, the text of `file`.
    pub fn from_source(file: &'static str, input: &str, token_types: Vec<TokenType>) -> (t: Tokenizer)
        requires
            input@.len() < usize::MAX,
        ensures
            t.wf(),
            t.text() == input@,
            t.file() == file,
            t.position() == 0,
            t.types() == type_views(token_types@),
    {
        let total = input.unicode_len();
        Tokenizer { file, string: owned(input), total, cursor: 0, line: 1, col: 1, token_types }
    }

    /// Whether the position is before the end of the source.
    pub fn has_next(&self) -> (r: bool)
        requires
            self.wf(),
        ensures
            r == (self.position() < self.text().len()),
    {
        self.cursor < self.total
    }

    /// The position, in characters from the start of the source.
    pub fn cursor_offset(&self) -> (r: usize)
        ensures
            r == self.position(),
    {
        self.cursor
    }

    /// The place of the position in the source.
    pub fn get_cursor_loc(&self) -> (loc: SourceLocation)
        requires
            self.wf(),
        ensures
            loc == location_at(self.file(), self.text(), self.position()),
    {
        SourceLocation { file: self.file, loc: FileLocation { line: self.line, col: self.col } }
    }

    /// The source text.
    pub fn source(&self) -> (s: &String)
        ensures
            s@ == self.text(),
    {
        &self.string
    }

    /// The best match at the position: its text and the number of its
    /// token type; an error if no pattern matches there.
    pub fn match_next(&self) -> (r: Result<(String, usize), SyntaxError>)
        requires
            self.wf(),
        ensures
            match best_match(
                self.types(),
                self.text().subrange(self.position(), self.text().len() as int),
                self.types().len() as int,
            ) {
                Some((i, text)) => r matches Ok(m) && m.1 == i && m.0@ == text,
                None => r matches Err(e) && e@ == (ErrorView {
                    location: location_at(self.file(), self.text(), self.position()),
                    message: unexpected_message(
                        self.text().subrange(self.position(), self.text().len() as int),
                    ),
                }),
            },
    {
        let rest = self.string.as_str().substring_char(self.cursor, self.total);
        let ghost types = self.types();
        let mut found: Vec<Option<(usize, String)>> = Vec::new();
        let mut i: usize = 0;
        while i < self.token_types.len()
            invariant
                types == type_views(self.token_types@),
                i <= self.token_types@.len(),
                found@.len() == i,
                forall|k: int|
                    0 <= k < i ==> #[trigger] found_views(found@)[k] == regex_find(
                        types[k].pattern,
                        rest@,
                    ),
                forall|k: int|
                    0 <= k < i ==> ((#[trigger] found_views(found@)[k]) matches Some(m) ==> (m.0
                        == 0 ==> m.1.is_prefix_of(rest@))),
            decreases self.token_types@.len() - i,
        {
            assert(types[i as int] == self.token_types@[i as int]@);
            let ghost before = found_views(found@);
            let m = find_match(self.token_types[i].pattern.as_str(), rest);
            found.push(m);
            proof {
                let after = found_views(found@);
                assert forall|k: int| 0 <= k < i implies #[trigger] after[k] == before[k] by {}
            }
            i += 1;
        }
        proof {
            lemma_best_of_found(types, rest@, found_views(found@), types.len() as int);
        }
        let best = pick_best(&found);
        match best {
            Some(m) => Ok(m),
            None => {
                let shown = match find_match(UNEXPECTED, rest) {
                    Some((start, text)) => text,
                    None => String::new(),
                };
                let mut message = owned("unexpected token '");
                message.append(shown.as_str());
                message.append("'");
                Err(SyntaxError { location: self.get_cursor_loc(), message })
            },
        }
    }

    /// Moves the position over `text`, which stands at the position.
    fn advance(&mut self, text: &str)
        requires
            old(self).wf(),
            text@.len() > 0,
            text@.is_prefix_of(
                old(self).text().subrange(old(self).position(), old(self).text().len() as int),
            ),
        ensures
            final(self).wf(),
            final(self).position() == old(self).position() + text@.len(),
            final(self).text() == old(self).text(),
            final(self).file() == old(self).file(),
            final(self).types() == old(self).types(),
    {
        let len = text.unicode_len();
        let ghost source = self.string@;
        let ghost start = self.cursor as int;
        let mut k: usize = 0;
        while k < len
            invariant
                self.wf(),
                self.string@ == source,
                self.file == old(self).file,
                self.token_types == old(self).token_types,
                len == text@.len(),
                k <= len,
                self.cursor == start + k,
                start + len <= source.len(),
                forall|j: int| 0 <= j < len ==> text@[j] == source[start + j],
            decreases len - k,
        {
            let c = text.get_char(k);
            proof {
                lemma_location_bounds(source, self.cursor as int + 1);
            }
            if c == '\n' {
                self.line = self.line + 1;
                self.col = 1;
            } else {
                self.col = self.col + 1;
            }
            self.cursor = self.cursor + 1;
            k += 1;
        }
    }

    /// The next token: the end token at the end of the source, else the
    /// best match at the position, where matches of types without a name
    /// are skipped. The position moves behind the token.
    pub fn next(&mut self) -> (r: Result<TokenInstance, SyntaxError>)
        requires
            old(self).wf(),
        ensures
            final(self).wf(),
            final(self).text() == old(self).text(),
            final(self).file() == old(self).file(),
            final(self).types() == old(self).types(),
            match scan(old(self).file(), old(self).types(), old(self).text(), old(self).position()) {
                Scan::Token(token, cursor) => r matches Ok(t) && t@ == token
                    && final(self).position() == cursor,
                Scan::Error(error, cursor) => r matches Err(e) && e@ == error
                    && final(self).position() == cursor,
            },
    {
        let ghost goal = scan(self.file(), self.types(), self.text(), self.position());
        loop
            invariant
                self.wf(),
                self.text() == old(self).text(),
                self.file() == old(self).file(),
                self.types() == old(self).types(),
                goal == scan(self.file(), self.types(), self.text(), self.position()),
                goal == scan(
                    old(self).file(),
                    old(self).types(),
                    old(self).text(),
                    old(self).position(),
                ),
            decreases self.text().len() - self.position(),
        {
            if !self.has_next() {
                let loc = self.get_cursor_loc();
                return Ok(TokenInstance { token: owned(EOF), value: owned(EOF), loc });
            }
            let ghost rest = self.text().subrange(self.position(), self.text().len() as int);
            proof {
                lemma_best_match(self.types(), rest, self.types().len() as int);
            }
            match self.match_next() {
                Err(e) => {
                    return Err(e);
                },
                Ok((text, i)) => {
                    let loc = self.get_cursor_loc();
                    assert(self.types()[i as int] == self.token_types@[i as int]@);
                    self.advance(text.as_str());
                    if self.token_types[i].name.as_str().unicode_len() > 0 {
                        return Ok(
                            TokenInstance { token: self.token_types[i].name.clone(), value: text, loc },
                        );
                    }
                },
            }
        }
    }
}

} // verus!

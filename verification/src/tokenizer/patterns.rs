//! Regular expressions, as the `regex` crate understands them.

use vstd::prelude::*;

verus! {

/// The first match of the regular expression `pattern` in `text`: the byte
/// offset at which it starts and the text it covers; nothing if there is no
/// match or `pattern` is no regular expression.
pub uninterp spec fn regex_find(pattern: Seq<char>, text: Seq<char>) -> Option<(int, Seq<char>)>;

/// `Regex::new` and `Regex::find` of the `regex` crate: compiles `pattern`
/// and searches `text` for its first match. The result is the named
/// `regex_find`; a match that starts at offset 0 covers a prefix of `text`.
#[verifier::external_body]
pub(crate) fn find_match(pattern: &str, text: &str) -> (found: Option<(usize, String)>)
    ensures
        found matches Some(m) ==> regex_find(pattern@, text@) == Some((m.0 as int, m.1@)),
        found is None ==> regex_find(pattern@, text@) is None,
        found matches Some(m) ==> (m.0 == 0 ==> m.1@.is_prefix_of(text@)),
{
    match regex::Regex::new(pattern) {
        Ok(re) => re.find(text).map(|m| (m.start(), m.as_str().to_owned())),
        Err(_) => None,
    }
}

/// The characters that have a meaning in a regular expression.
pub open spec fn is_meta(c: char) -> bool {
    c == '\\' || c == '.' || c == '+' || c == '*' || c == '?' || c == '(' || c == ')' || c == '|'
        || c == '[' || c == ']' || c == '{' || c == '}' || c == '^' || c == '$' || c == '#' || c
        == '&' || c == '-' || c == '~'
}

/// `text` with a backslash before each character that has a meaning in a
/// regular expression.
pub open spec fn escaped(text: Seq<char>) -> Seq<char>
    decreases text.len(),
{
    if text.len() == 0 {
        Seq::empty()
    } else if is_meta(text.last()) {
        escaped(text.drop_last()).push('\\').push(text.last())
    } else {
        escaped(text.drop_last()).push(text.last())
    }
}

/// `regex::escape`: puts a backslash before each meta character of `text`
/// and leaves the other characters as they are.
#[verifier::external_body]
pub(crate) fn escape(text: &str) -> (r: String)
    ensures
        r@ == escaped(text@),
{
    regex::escape(text)
}

} // verus!

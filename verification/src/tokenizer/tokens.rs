//! The fixed symbols and the stock token patterns.

use vstd::prelude::*;

verus! {

/// The longest stretch without white space: what an error message shows of
/// text that no pattern matches.
pub const UNEXPECTED: &'static str = r"^\S+";

/// White space; skipped.
pub const WHITESPACE: &'static str = r"^\s+";

/// A comment up to the end of the line; skipped.
pub const SINGLE_LINE_COMMENT: &'static str = r"^\/\/.*";

/// A comment between `/*` and the next `*/`; skipped.
pub const MULTI_LINE_COMMENT: &'static str = r"^\/\*[\s\S]*?\*\/";

pub const INTEGER: &'static str = r"^(?:[1-9][0-9]*|0)";

pub const FLOAT: &'static str =
    r"^[+\-]?(?:[1-9][0-9]*|0)?(?:\.[0-9]*[1-9]|\.0)(?:[eE][+\-]?(?:[1-9][0-9]*|0))?";

pub const BOOLEAN: &'static str = r"^(?:true|false)";

pub const SINGLE_QUOTED_STRING: &'static str = r"^'[^']*'";

pub const DOUBLE_QUOTED_STRING: &'static str = "^\"[^\"]*\"";

} // verus!

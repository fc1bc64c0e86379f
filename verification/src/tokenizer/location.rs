//! Places in a source text: line and column, with the file they belong to,
//! and ranges between two places.

use vstd::prelude::*;
use vstd::string::StringExecFns;
use crate::text::{decimal, digits, owned};

verus! {

/// A line and a column, both counted from 1.
#[derive(Debug, Clone, Copy, PartialEq, Eq, Structural, PartialOrd, Ord)]
pub struct FileLocation {
    pub line: usize,
    pub col: usize,
}

/// `a` comes before `b`: on an earlier line, or earlier on the same line.
pub open spec fn before(a: FileLocation, b: FileLocation) -> bool {
    a.line < b.line || (a.line == b.line && a.col < b.col)
}

/// The earlier of two places.
pub open spec fn earlier(a: FileLocation, b: FileLocation) -> FileLocation {
    if before(b, a) {
        b
    } else {
        a
    }
}

/// The later of two places.
pub open spec fn later(a: FileLocation, b: FileLocation) -> FileLocation {
    if before(a, b) {
        b
    } else {
        a
    }
}

/// A line and a column in text, with a colon between them.
pub open spec fn location_text(loc: FileLocation) -> Seq<char> {
    digits(loc.line as nat) + ":"@ + digits(loc.col as nat)
}

/// A place in text: the file and the location, as a link.
pub open spec fn place_text(place: SourceLocation) -> Seq<char> {
    "(file:///"@ + place.file@ + ":"@ + location_text(place.loc) + ")"@
}

/// A range in text: the file and the two ends, as a link.
pub open spec fn range_text(range: SourceRange) -> Seq<char> {
    "(file:///"@ + range.file@ + ":["@ + location_text(range.start) + "-"@ + location_text(
        range.end,
    ) + "])"@
}

impl FileLocation {
    /// The location in text.
    pub fn to_string(&self) -> (s: String)
        ensures
            s@ == location_text(*self),
    {
        let mut s = decimal(self.line);
        s.append(":");
        s.append(decimal(self.col).as_str());
        s
    }

    /// Whether this place comes before `other`.
    pub fn is_before(&self, other: &FileLocation) -> (r: bool)
        ensures
            r == before(*self, *other),
    {
        self.line < other.line || (self.line == other.line && self.col < other.col)
    }

    /// The earlier of this place and `other`.
    pub fn min_of(self, other: FileLocation) -> (r: FileLocation)
        ensures
            r == earlier(self, other),
    {
        if other.is_before(&self) {
            other
        } else {
            self
        }
    }

    /// The later of this place and `other`.
    pub fn max_of(self, other: FileLocation) -> (r: FileLocation)
        ensures
            r == later(self, other),
    {
        if self.is_before(&other) {
            other
        } else {
            self
        }
    }
}

impl Default for FileLocation {
    /// The first column of the first line.
    fn default() -> (r: Self)
        ensures
            r == (FileLocation { line: 1, col: 1 }),
    {
        FileLocation { line: 1, col: 1 }
    }
}

/// The name given to a source that is no file.
pub const INLINE: &'static str = "inline";

/// A place in a named source.
#[derive(Debug, Clone, Copy)]
pub struct SourceLocation {
    pub file: &'static str,
    pub loc: FileLocation,
}

impl Default for SourceLocation {
    /// The start of an inline source.
    fn default() -> (r: Self)
        ensures
            r.file@ == INLINE@,
            r.loc == (FileLocation { line: 1, col: 1 }),
    {
        SourceLocation { file: INLINE, loc: FileLocation { line: 1, col: 1 } }
    }
}

impl SourceLocation {
    /// The place in text.
    pub fn to_string(&self) -> (s: String)
        ensures
            s@ == place_text(*self),
    {
        let mut s = owned("(file:///");
        s.append(self.file);
        s.append(":");
        s.append(self.loc.to_string().as_str());
        s.append(")");
        s
    }
}

/// A stretch of a named source, from `start` to `end`.
#[derive(Debug, Clone, Copy)]
pub struct SourceRange {
    pub file: &'static str,
    pub start: FileLocation,
    pub end: FileLocation,
}

impl SourceRange {
    /// The range of `len` columns that starts at `loc`.
    pub fn from_loc_len(loc: SourceLocation, len: usize) -> (r: Self)
        requires
            loc.loc.col + len <= usize::MAX,
        ensures
            r.file == loc.file,
            r.start == loc.loc,
            r.end == (FileLocation { line: loc.loc.line, col: (loc.loc.col + len) as usize }),
    {
        SourceRange {
            file: loc.file,
            start: loc.loc,
            end: FileLocation { line: loc.loc.line, col: loc.loc.col + len },
        }
    }

    /// The range between two places, whichever comes first; the file is
    /// that of the earlier one.
    pub fn from_start_end(start: SourceLocation, end: SourceLocation) -> (r: Self)
        ensures
            r.start == earlier(start.loc, end.loc),
            r.file == if before(end.loc, start.loc) {
                end.file
            } else {
                start.file
            },
            r.end == if before(end.loc, start.loc) {
                start.loc
            } else {
                end.loc
            },
    {
        if end.loc.is_before(&start.loc) {
            SourceRange { file: end.file, start: end.loc, end: start.loc }
        } else {
            SourceRange { file: start.file, start: start.loc, end: end.loc }
        }
    }

    /// The empty range at `loc`.
    pub fn from_location(loc: SourceLocation) -> (r: Self)
        ensures
            r.file == loc.file,
            r.start == loc.loc,
            r.end == loc.loc,
    {
        SourceRange { file: loc.file, start: loc.loc, end: loc.loc }
    }

    /// The range widened so that it reaches `loc`.
    pub fn extend(self, loc: SourceLocation) -> (r: Self)
        ensures
            r.file == self.file,
            r.start == earlier(self.start, loc.loc),
            r.end == later(self.end, loc.loc),
    {
        SourceRange {
            file: self.file,
            start: self.start.min_of(loc.loc),
            end: self.end.max_of(loc.loc),
        }
    }

    /// The least range that covers both ranges, in the file of this one.
    pub fn merge(self, other: SourceRange) -> (r: Self)
        ensures
            r.file == self.file,
            r.start == earlier(earlier(earlier(self.start, self.end), other.start), other.end),
            r.end == later(later(later(self.start, self.end), other.start), other.end),
    {
        SourceRange {
            file: self.file,
            start: self.start.min_of(self.end).min_of(other.start).min_of(other.end),
            end: self.start.max_of(self.end).max_of(other.start).max_of(other.end),
        }
    }

    /// The range in text.
    pub fn to_string(&self) -> (s: String)
        ensures
            s@ == range_text(*self),
    {
        let mut s = owned("(file:///");
        s.append(self.file);
        s.append(":[");
        s.append(self.start.to_string().as_str());
        s.append("-");
        s.append(self.end.to_string().as_str());
        s.append("])");
        s
    }

    /// Where the range starts.
    pub fn start(&self) -> (r: SourceLocation)
        ensures
            r.file == self.file,
            r.loc == self.start,
    {
        SourceLocation { file: self.file, loc: self.start }
    }

    /// Where the range ends.
    pub fn end(&self) -> (r: SourceLocation)
        ensures
            r.file == self.file,
            r.loc == self.end,
    {
        SourceLocation { file: self.file, loc: self.end }
    }
}

} // verus!

//! What the scanners of a document report of its lines.
//!
//! Which regions are ignored, verbatim or tables, which lines hold sectioning
//! commands and where a comment begins is found out by the scanners of the
//! formatter. The layout passes work on their reports.

use vstd::prelude::*;

verus! {

/// The kinds of command that a line may hold.
#[derive(Clone, Copy, Debug, PartialEq, Eq)]
pub struct Pattern {
    /// The line may begin an environment.
    pub contains_env_begin: bool,
    /// The line may end an environment.
    pub contains_env_end: bool,
    /// The line may hold inline verbatim text.
    pub contains_verb: bool,
}

/// The report on one line.
#[derive(Clone, Copy, Debug, PartialEq, Eq)]
pub struct LineScan {
    /// The kinds of command that the line may hold.
    pub pattern: Pattern,
    /// The line is in a region that the author excluded from formatting.
    pub ignore: bool,
    /// The line is in a verbatim environment.
    pub verbatim: bool,
    /// The line is in a table.
    pub table: bool,
    /// The line holds a command that stands on a line of its own.
    pub splitting: bool,
    /// The line ends in a forced line break.
    pub forced_break: bool,
    /// The position in the line, in characters, at which a comment begins.
    pub comment: Option<usize>,
}

/// The report on a document.
#[derive(Debug)]
pub struct Scan {
    /// The reports on the lines, in order.
    pub lines: Vec<LineScan>,
    /// The prefixes that open inline verbatim text.
    pub verbs: Vec<String>,
    /// For each paragraph, in order, the position in its joined text, in
    /// characters, at which a comment begins. A paragraph for which the list
    /// has no entry holds no comment.
    pub joined_comments: Vec<Option<usize>>,
}

impl LineScan {
    /// Whether the line lies in a region whose layout is fixed.
    pub open spec fn fixed(self) -> bool {
        self.ignore || self.verbatim || self.table
    }

    /// Whether the line lies in a region whose layout is fixed.
    pub fn is_fixed(&self) -> (res: bool)
        ensures
            res == self.fixed(),
    {
        self.ignore || self.verbatim || self.table
    }
}

} // verus!

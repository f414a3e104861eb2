//! Settings of the layout passes.

use vstd::prelude::*;

verus! {

/// How the line breaks within a paragraph are redistributed.
#[derive(Clone, Copy, Debug, PartialEq, Eq, Structural)]
pub enum ReflowMode {
    /// Paragraphs are not reflowed.
    Off,
    /// Authored breaks are kept unless the width limits force a change.
    Minimal,
    /// Authored breaks are discarded.
    Canonical,
    /// Authored breaks are kept and sentences are put on lines of their own.
    Semantic,
}

/// The character that indents a line.
#[derive(Clone, Copy, Debug, PartialEq, Eq, Structural)]
pub enum TabChar {
    Tab,
    Space,
}

/// The settings that the layout passes read.
#[derive(Debug)]
pub struct Args {
    /// The hard maximum line length, indentation included.
    pub wraplen: usize,
    /// The line length to aim for, indentation included.
    pub wrapmin: usize,
    /// The characters after which a line may be broken.
    pub wrap_chars: Vec<char>,
    /// The width of one step of indentation.
    pub tabsize: u8,
    /// The character that indents a line.
    pub tabchar: TabChar,
    /// How paragraphs are reflowed.
    pub reflow: ReflowMode,
}

} // verus!

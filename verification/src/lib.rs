//! Whitespace layout of LaTeX prose.

pub mod apart;
pub mod arguments;
pub mod authored;
pub mod breaking;
pub mod changes;
pub mod chars;
pub mod config;
pub mod cost;
pub mod documents;
pub mod gathering;
pub mod join;
pub mod laws;
pub mod minimal;
pub mod optimal;
pub mod options;
pub mod paragraphs;
pub mod passes;
pub mod pieces;
pub mod plain;
pub mod prose;
pub mod reading;
pub mod reflow;
pub mod rejoin;
pub mod respread;
pub mod scan;
pub mod semantic;
pub mod sentences;
pub mod stable;
pub mod standing;
pub mod text;
pub mod words;

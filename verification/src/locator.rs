//! Locator information for the JSON parser.

use vstd::prelude::*;

verus! {

/// Locator information for the JSON parser.
///
/// Line and column numbers are 1-based and are only valid during the
/// corresponding handler callback or error.
pub trait Locator {
    /// Current line number (first line is 1).
    fn line_number(&self) -> usize;

    /// Current column number (first column is 1).
    fn column_number(&self) -> usize;
}

/// A position in the document: the locator handed to content handlers.
#[derive(Debug, Clone, Copy, PartialEq, Eq)]
pub struct TextPosition {
    pub line: usize,
    pub column: usize,
}

impl Locator for TextPosition {
    fn line_number(&self) -> (r: usize)
        ensures
            r == self.line,
    {
        self.line
    }

    fn column_number(&self) -> (r: usize)
        ensures
            r == self.column,
    {
        self.column
    }
}

} // verus!

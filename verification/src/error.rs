//! What can go wrong while a page is read.

use vstd::prelude::*;

verus! {

/// A fragment of markup does not have any of the shapes the grammar accepts.
#[derive(Clone, Copy, Debug, PartialEq, Eq, Structural)]
pub struct GrammarError;

/// The rows of a table could not be written out.
#[derive(Clone, Copy, Debug, PartialEq, Eq, Structural)]
pub struct SerializationError;

/// Why the extraction of a page stopped.
#[derive(Clone, Copy, Debug, PartialEq, Eq, Structural)]
pub enum ScrapeError {
    /// A header or a row does not match the grammar.
    Grammar,
    /// The selector engine refused one of the selectors.
    Selector,
    /// The page is longer than the selector engine takes.
    Size,
}

} // verus!

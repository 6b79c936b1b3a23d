//! What can go wrong while a graph is built or measured.

use vstd::prelude::*;

verus! {

/// The failures the library reports.
#[derive(Debug, Clone, Copy, PartialEq, Eq)]
pub enum GraphError {
    /// The subject at position `subject` of the node at position `node` names
    /// a node that was never declared.
    UnknownIdentifier { node: usize, subject: usize },
    /// The cell at `column` of line `line` of a dense matrix text holds a
    /// number but lies outside the square that the number of lines spans.
    MalformedInput { line: usize, column: usize },
    /// The graph has neither closed nor open triplets, so the coefficient
    /// would be zero divided by zero.
    UndefinedCoefficient,
}

} // verus!

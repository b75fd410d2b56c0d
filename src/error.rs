//! Failures at the construction boundaries of the library.
use vstd::prelude::*;

verus! {

#[derive(Debug, Clone, Copy, PartialEq, Eq, Structural)]
pub enum ScrabbleError {
    /// A textual board holds a character that is neither a letter nor a space, or has
    /// the wrong number of squares.
    InvalidBoardContent,
    /// A rack holds a character outside `a..z` and the blank marker.
    InvalidRack,
    /// A dictionary image whose size is not a multiple of eight bytes, or with an edge
    /// target out of range.
    MalformedDictionary,
}

} // verus!

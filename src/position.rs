use vstd::prelude::*;

verus! {

/// A token's place in a file: byte offset, and 1-based line and column.
#[derive(Debug, Clone, Copy, PartialEq, Eq, Hash, Structural)]
pub struct Pos {
    pub offset: usize,
    pub line: usize,
    pub column: usize,
}

} // verus!

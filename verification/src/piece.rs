//! Pieces: byte ranges into one of the two stores of a buffer.

use vstd::prelude::*;

verus! {

/// The store that a piece takes its bytes from.
#[derive(Clone, Copy, Debug, PartialEq, Eq, Structural)]
pub enum PieceSource {
    /// The text the buffer was created from.
    Original,
    /// The log of inserted text.
    Append,
}

/// A byte range `[start, start + length)` of one store. A piece owns no bytes.
#[derive(Clone, Copy, Debug, PartialEq, Eq, Structural)]
pub struct Piece {
    pub start: usize,
    pub length: usize,
    pub source: PieceSource,
}

impl Piece {
    /// The end of the range, as a mathematical integer.
    pub open spec fn end(&self) -> int {
        self.start + self.length
    }

    /// The range lies within a store of `store_len` bytes.
    pub open spec fn within(&self, store_len: int) -> bool {
        self.end() <= store_len
    }

    /// The bytes that the piece stands for, given the store it points into.
    pub open spec fn bytes(&self, store: Seq<u8>) -> Seq<u8> {
        store.subrange(self.start as int, self.end())
    }
}

} // verus!

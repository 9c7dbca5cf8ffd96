//! Lines and columns: where in the text a byte of the buffer stands.

use vstd::prelude::*;
use crate::token::{Loc, Place};

verus! {

/// The byte that ends a line.
pub const NEWLINE: u8 = 10;

/// The number of line ends among the first `i` bytes of `buf`.
pub open spec fn lines_before(buf: Seq<u8>, i: int) -> nat
    decreases i,
{
    if i <= 0 {
        0
    } else if buf[i - 1] == NEWLINE {
        lines_before(buf, i - 1) + 1
    } else {
        lines_before(buf, i - 1)
    }
}

/// The number of bytes between the last line end before index `i` and
/// index `i` itself.
pub open spec fn columns_before(buf: Seq<u8>, i: int) -> nat
    decreases i,
{
    if i <= 0 {
        0
    } else if buf[i - 1] == NEWLINE {
        0
    } else {
        columns_before(buf, i - 1) + 1
    }
}

/// The place of the byte at index `i`: lines and columns count from one,
/// every byte is one column wide, and a line end puts the next byte in
/// column one of the next line.
pub open spec fn place_at(buf: Seq<u8>, i: int) -> Place {
    Place { line: lines_before(buf, i) + 1, column: columns_before(buf, i) + 1 }
}

/// Neither count exceeds the number of bytes counted over.
pub proof fn lemma_place_bounds(buf: Seq<u8>, i: int)
    requires
        0 <= i,
    ensures
        lines_before(buf, i) <= i,
        columns_before(buf, i) <= i,
    decreases i,
{
    if i > 0 {
        lemma_place_bounds(buf, i - 1);
    }
}

/// A position in the buffer together with its line and column counts.
pub(crate) struct Cursor {
    pub(crate) index: usize,
    pub(crate) lines: usize,
    pub(crate) columns: usize,
}

impl Cursor {
    /// The cursor stands at its index of `buf` with the right counts.
    pub(crate) open spec fn tracks(&self, buf: Seq<u8>) -> bool {
        &&& self.index <= buf.len()
        &&& self.lines == lines_before(buf, self.index as int)
        &&& self.columns == columns_before(buf, self.index as int)
    }

    /// The cursor at the beginning of a buffer.
    pub(crate) fn origin() -> (c: Cursor)
        ensures
            c.index == 0,
            forall|buf: Seq<u8>| c.tracks(buf),
    {
        Cursor { index: 0, lines: 0, columns: 0 }
    }

    /// A copy of the cursor.
    pub(crate) fn same(&self) -> (c: Cursor)
        ensures
            c == *self,
    {
        Cursor { index: self.index, lines: self.lines, columns: self.columns }
    }

    /// Moves the cursor forward to index `to`.
    pub(crate) fn advance(&mut self, buf: &Vec<u8>, to: usize)
        requires
            old(self).tracks(buf@),
            old(self).index <= to <= buf.len(),
        ensures
            final(self).tracks(buf@),
            final(self).index == to,
    {
        while self.index < to
            invariant
                self.tracks(buf@),
                self.index <= to <= buf.len(),
            decreases to - self.index,
        {
            proof {
                lemma_place_bounds(buf@, self.index as int);
            }
            if buf[self.index] == NEWLINE {
                self.lines += 1;
                self.columns = 0;
            } else {
                self.columns += 1;
            }
            self.index += 1;
        }
    }

    /// The location of the byte under the cursor.
    pub(crate) fn loc(&self, buf: &Vec<u8>) -> (at: Loc)
        requires
            self.tracks(buf@),
            self.index < buf.len(),
        ensures
            crate::token::place_of(at) == place_at(buf@, self.index as int),
    {
        proof {
            lemma_place_bounds(buf@, self.index as int);
        }
        (self.lines + 1, self.columns + 1)
    }
}

} // verus!

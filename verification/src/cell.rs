//! The cells of a grid, and how many of them the content of a row takes.

use crate::text::{content_width, is_padding, trimmed_end_keeps};
use vstd::prelude::*;

verus! {

/// The flag of the second half of a fullwidth character.
pub const WIDE_CHAR_SPACER: u16 = 0x0040;

/// The flag of a last cell left blank because a fullwidth character did not fit in it.
pub const LEADING_WIDE_CHAR_SPACER: u16 = 0x0400;

/// What a cell holds: a character, a number of characters without a width that stand in the
/// same place, and the bits of its flags.
#[derive(Clone, Copy, Debug, PartialEq, Eq, Structural)]
pub struct Cell {
    pub ch: char,
    pub zero_width: usize,
    pub flags: u16,
}

impl Cell {
    /// A cell that nothing was written to.
    pub open spec fn blank() -> Cell {
        Cell { ch: ' ', zero_width: 0, flags: 0 }
    }

    /// Whether a cell has content: more than padding, or half of a fullwidth character.
    pub open spec fn is_filled(self) -> bool {
        !is_padding(self.ch) || self.zero_width > 0 || self.flags & WIDE_CHAR_SPACER != 0
    }

    /// Whether a cell shows a character: one that is not padding, in a cell that is no spacer.
    pub open spec fn shows_character(self) -> bool {
        &&& !is_padding(self.ch)
        &&& self.flags & WIDE_CHAR_SPACER == 0
        &&& self.flags & LEADING_WIDE_CHAR_SPACER == 0
    }

    /// Tells whether a cell has content.
    pub fn filled(&self) -> (filled: bool)
        ensures
            filled == self.is_filled(),
    {
        (self.ch != ' ' && self.ch != '\t' && self.ch != '\0') || self.zero_width > 0
            || self.flags & WIDE_CHAR_SPACER != 0
    }
}

/// The number of cells of a row up to the last one with content.
pub open spec fn cells_width(cells: Seq<Cell>) -> nat
    decreases cells.len(),
{
    if cells.len() > 0 && !cells.last().is_filled() {
        cells_width(cells.drop_last())
    } else {
        cells.len()
    }
}

/// The number of cells of a row up to the last one with content.
pub fn row_width(cells: &Vec<Cell>) -> (width: usize)
    ensures
        width == cells_width(cells@),
{
    let mut width: usize = cells.len();
    assert(cells@.take(width as int) =~= cells@);
    while width > 0
        invariant
            width <= cells.len(),
            cells_width(cells@) == cells_width(cells@.take(width as int)),
        decreases width,
    {
        if cells[width - 1].filled() {
            return width;
        }
        assert(cells@.take(width as int).drop_last() =~= cells@.take(width - 1));
        width = width - 1;
    }
    width
}

/// A row is as wide as its last cell with content is far.
pub proof fn cells_width_is_last_filled(cells: Seq<Cell>)
    ensures
        cells_width(cells) <= cells.len(),
        cells_width(cells) > 0 ==> cells[cells_width(cells) - 1].is_filled(),
        forall|i: int|
            cells_width(cells) <= i < cells.len() ==> !(#[trigger] cells[i]).is_filled(),
    decreases cells.len(),
{
    if cells.len() > 0 && !cells.last().is_filled() {
        let before = cells.drop_last();
        cells_width_is_last_filled(before);
        assert forall|i: int| cells_width(cells) <= i < cells.len() implies !(
        #[trigger] cells[i]).is_filled() by {
            if i < before.len() {
                assert(cells[i] == before[i]);
            }
        }
    }
}

/// Whether some cells hold the characters of a row, one to a cell, and are blank behind it.
pub open spec fn hold_row(cells: Seq<Cell>, row: Seq<char>) -> bool {
    &&& row.len() <= cells.len()
    &&& forall|i: int| 0 <= i < cells.len() ==> holds_char(#[trigger] cells[i], row, i)
}

/// Whether a cell holds the character of a row at its place.
pub open spec fn holds_char(cell: Cell, row: Seq<char>, i: int) -> bool {
    &&& cell.ch == if i < row.len() {
        row[i]
    } else {
        ' '
    }
    &&& cell.zero_width == 0
    &&& cell.flags & WIDE_CHAR_SPACER == 0
}

/// A row with one character to a cell takes as many cells as it has characters, without the
/// padding at its end.
pub proof fn one_cell_for_each_character(cells: Seq<Cell>, row: Seq<char>)
    requires
        hold_row(cells, row),
    ensures
        cells_width(cells) == content_width(row),
{
    let cut = |ch: char| is_padding(ch);
    let width = cells_width(cells) as int;
    let len = content_width(row) as int;
    cells_width_is_last_filled(cells);
    trimmed_end_keeps(row, cut);
    if width < len {
        assert(holds_char(cells[len - 1], row, len - 1));
        assert(!cut(row[len - 1]));
    }
    if len < width {
        assert(holds_char(cells[width - 1], row, width - 1));
        if width - 1 < row.len() {
            assert(cut(row[width - 1]));
        }
    }
}

} // verus!

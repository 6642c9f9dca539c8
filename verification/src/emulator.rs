//! The terminal emulator behind an output: `alacritty_terminal`, one trusted item for each
//! of its functions that is called.
//!
//! The state of a terminal is written as a sequence of integers. What such a sequence looks
//! like is left open: it holds everything on which the cells, the text and the size of the
//! terminal depend, now and after further input. It leaves out the numbers that the emulator
//! invents for hyperlinks without an id, which come from a counter of the process: none of
//! these depends on them. Nor does any depend on the deadline of a synchronized update, which
//! comes from the clock.

use crate::cell::{cells_width, hold_row, Cell, LEADING_WIDE_CHAR_SPACER, WIDE_CHAR_SPACER};
use crate::command::colors_fit;
use crate::text::{content_width, is_padding, pieces, trimmed_end, wrapped};
use alacritty_terminal::event::VoidListener;
use alacritty_terminal::grid::Dimensions;
use alacritty_terminal::index::{Column, Line, Point};
use alacritty_terminal::term::test::TermSize;
use alacritty_terminal::term::Config;
use alacritty_terminal::vte::ansi::Processor;
use alacritty_terminal::Term;
use vstd::prelude::*;
use vstd::utf8::encode_utf8;

verus! {

/// The emulator's grid of cells with its scrollback, `alacritty_terminal::Term`.
#[verifier::external_type_specification]
#[verifier::external_body]
#[verifier::reject_recursive_types(T)]
pub struct ExTerm<T>(Term<T>);

/// The listener that drops every event, `alacritty_terminal::event::VoidListener`.
#[verifier::external_type_specification]
#[verifier::external_body]
pub struct ExVoidListener(VoidListener);

/// The parser of ANSI escape sequences, `alacritty_terminal::vte::ansi::Processor`.
///
/// It stands in a struct because the outside type has a parameter bounded by an outside
/// trait, which no declaration can name.
#[verifier::external_body]
pub struct AnsiParser {
    processor: Processor,
}

/// The number of rows that the emulator keeps above the screen.
pub const SCROLLBACK: usize = 10000;

/// The fewest columns on which the emulator can show every character, those of two cells too.
pub const MIN_COLUMNS: usize = 2;

/// The most bytes that a cell, or the header of a row, takes in memory.
pub const CELL_BYTES: usize = 32;

/// The greatest number of lines on a screen of which the emulator can count the lines: it adds
/// up to three such numbers, and lengths that escape sequences give, in 32 bits with a sign.
pub const MAX_SCREEN_LINES: usize = 0x2000_0000;

/// The number of bytes at which the emulator stops holding a synchronized update back.
pub const SYNC_BUFFER_SIZE: usize = 0x20_0000;

/// The bytes that a parser has been fed. What it does with the next one depends on them.
pub uninterp spec fn bytes_read(parser: AnsiParser) -> Seq<u8>;

/// The state of a terminal.
pub uninterp spec fn term_state(term: Term<VoidListener>) -> Seq<int>;

/// The number of columns of a terminal.
pub uninterp spec fn grid_columns(term: Term<VoidListener>) -> nat;

/// The number of lines on the screen of a terminal.
pub uninterp spec fn grid_screen_lines(term: Term<VoidListener>) -> nat;

/// The number of rows that a terminal keeps above its screen at most.
pub uninterp spec fn grid_scroll_limit(term: Term<VoidListener>) -> nat;

/// The state of a terminal made with the given number of columns and screen lines.
pub uninterp spec fn initial_term(columns: int, screen_lines: int) -> Seq<int>;

/// The state of a terminal after a parser, which has been fed some bytes, was fed one more.
pub uninterp spec fn advanced(read: Seq<u8>, term: Seq<int>, byte: u8) -> Seq<int>;

/// The state of a terminal after a resize to the given number of columns and screen lines.
pub uninterp spec fn resized(term: Seq<int>, columns: int, screen_lines: int) -> Seq<int>;

/// The number of rows of a terminal, scrollback included.
pub uninterp spec fn total_lines(term: Seq<int>) -> nat;

/// The cells of a terminal, by line and column. Line 0 is the first line of the screen, the
/// lines of the scrollback have negative numbers.
pub uninterp spec fn grid_cells(term: Seq<int>) -> Map<(int, int), Cell>;

/// The text of a line from its first to the given last column.
pub uninterp spec fn row_text(term: Seq<int>, line: int, last_column: int) -> Seq<char>;

/// Characters that take one cell: those of ASCII that can be printed, letters and signs of the
/// Latin, Greek and Cyrillic scripts, punctuation, arrows and mathematical operators, and the
/// characters of which boxes and blocks are drawn.
pub open spec fn is_printable(ch: char) -> bool {
    ||| ' ' <= ch <= '~'
    ||| '\u{a1}' <= ch <= '\u{ac}'
    ||| '\u{ae}' <= ch <= '\u{2ff}'
    ||| '\u{391}' <= ch <= '\u{3a1}'
    ||| '\u{3a3}' <= ch <= '\u{482}'
    ||| '\u{48a}' <= ch <= '\u{52f}'
    ||| '\u{2010}' <= ch <= '\u{2027}'
    ||| '\u{2190}' <= ch <= '\u{22ff}'
    ||| '\u{2500}' <= ch <= '\u{259f}'
}

/// Whether some text is all printable characters, carriage returns and line feeds.
pub open spec fn is_input(text: Seq<char>) -> bool {
    forall|i: int|
        0 <= i < text.len() ==> is_printable(#[trigger] text[i]) || text[i] == '\r' || text[i]
            == '\n'
}

/// Some bytes with one carriage return in place of several one after the other.
pub open spec fn returned_once(bytes: Seq<u8>) -> Seq<u8>
    decreases bytes.len(),
{
    if bytes.len() == 0 {
        Seq::empty()
    } else {
        let before = returned_once(bytes.drop_last());
        if bytes.last() == 13 && before.len() > 0 && before.last() == 13 {
            before
        } else {
            before.push(bytes.last())
        }
    }
}

/// Whether a parser that has been fed some bytes does not count them: they hold no escape
/// sequence that could start a synchronized update, or are too few to fill the buffer in which
/// such an update is held back.
pub open spec fn never_counts(read: Seq<u8>) -> bool {
    !read.contains(0x1b) || read.len() + 2 < SYNC_BUFFER_SIZE
}

/// Characters that take no more than one cell: those before the first fullwidth ones, and the
/// printable ones.
pub open spec fn is_narrow(ch: char) -> bool {
    ch < '\u{1100}' || is_printable(ch)
}

/// Whether some text is all narrow characters.
pub open spec fn are_narrow(text: Seq<char>) -> bool {
    forall|i: int| 0 <= i < text.len() ==> is_narrow(#[trigger] text[i])
}

/// Whether a byte is the next one of a character, of which a number of bytes have been read,
/// behind some text.
pub open spec fn next_of(read: Seq<u8>, byte: u8, text: Seq<char>, ch: char, seen: int) -> bool {
    let code = encode_utf8(seq![ch]);
    &&& 0 <= seen < code.len()
    &&& read == encode_utf8(text) + code.take(seen)
    &&& byte == code[seen]
}

/// Whether a byte goes on with printable characters, carriage returns and line feeds.
pub open spec fn goes_on(read: Seq<u8>, byte: u8, text: Seq<char>, ch: char, seen: int) -> bool {
    next_of(read, byte, text, ch, seen) && is_input(text.push(ch))
}

/// Whether a byte goes on with narrow characters.
pub open spec fn stays_narrow(
    read: Seq<u8>,
    byte: u8,
    text: Seq<char>,
    ch: char,
    seen: int,
) -> bool {
    next_of(read, byte, text, ch, seen) && are_narrow(text.push(ch))
}

/// The lines that have been typed on a terminal, if nothing else has happened to it, and
/// whether the cursor has returned to the start of a row from behind the last of them.
///
/// Such a terminal is in its initial modes. Its rows from the topmost one down hold these
/// lines, one character to a cell. A line that is too long for a row is wrapped: it goes on in
/// the next one, and a flag of its last cell in the row says so. The other cells are blank.
pub uninterp spec fn typed(term: Seq<int>) -> Option<(Seq<Seq<char>>, bool)>;

/// What has been typed on a terminal after one more character, where that is simple: a
/// printable character behind the last line, a carriage return, and a line feed at the start
/// of a row, as long as there is room for all rows.
pub open spec fn typed_after(
    before: (Seq<Seq<char>>, bool),
    ch: char,
    columns: int,
    capacity: int,
) -> Option<(Seq<Seq<char>>, bool)> {
    let lines = before.0;
    let returned = before.1;
    let longer = lines.update(lines.len() - 1, lines.last().push(ch));
    let more = lines.push(Seq::empty());
    if ch == '\r' {
        Some((lines, lines.last().len() > 0))
    } else if ch == '\n' && (returned || lines.last().len() == 0) && wrapped(more, columns).len()
        <= capacity {
        Some((more, false))
    } else if is_printable(ch) && !returned && wrapped(longer, columns).len() <= capacity {
        Some((longer, false))
    } else {
        None
    }
}

/// What has been typed on a terminal before and after a byte of a character, of which a number
/// of bytes have been read: nothing changes before the last byte.
pub open spec fn types(
    before: Option<(Seq<Seq<char>>, bool)>,
    after: Option<(Seq<Seq<char>>, bool)>,
    ch: char,
    seen: int,
    columns: int,
    capacity: int,
) -> bool {
    before is Some ==> if seen + 1 < encode_utf8(seq![ch]).len() {
        after == before
    } else {
        let expected = typed_after(before->0, ch, columns, capacity);
        expected is Some ==> after == expected
    }
}

/// The text of the rows of a typed line: spaces at the end of the last one do not show.
pub open spec fn shown_line(line: Seq<char>, columns: int) -> Seq<Seq<char>> {
    let rows = pieces(line, columns);
    rows.update(rows.len() - 1, trimmed_end(rows.last(), |ch: char| ch == ' '))
}

/// The text of the rows of some typed lines.
pub open spec fn shown(lines: Seq<Seq<char>>, columns: int) -> Seq<Seq<char>>
    decreases lines.len(),
{
    if lines.len() == 0 {
        Seq::empty()
    } else {
        shown(lines.drop_last(), columns) + shown_line(lines.last(), columns)
    }
}

/// The text of the rows of a terminal on which some lines have been typed: the rows of the
/// lines, and empty rows below them on the rest of the screen.
pub open spec fn typed_rows(
    lines: Seq<Seq<char>>,
    columns: int,
    screen_lines: int,
) -> Seq<Seq<char>> {
    shown(lines, columns) + empty_rows(screen_lines - shown(lines, columns).len())
}

/// A terminal on which nothing but lines has been typed shows these lines.
pub open spec fn shows_typed(term: Term<VoidListener>) -> bool {
    typed(term_state(term)) is Some ==> {
        let lines = (typed(term_state(term))->0).0;
        let columns = grid_columns(term) as int;
        let screen_lines = grid_screen_lines(term) as int;
        let rows = typed_rows(lines, columns, screen_lines);
        let cells = cell_rows(term_state(term), columns, screen_lines);
        &&& lines.len() > 0
        &&& rows_readable(term_state(term), columns, screen_lines)
        &&& grid_rows(term_state(term), columns, screen_lines) == rows
        &&& forall|i: int| 0 <= i < rows.len() ==> hold_row(#[trigger] cells[i], rows[i])
    }
}

/// The number of the topmost line of a terminal.
pub open spec fn top_line(term: Seq<int>, screen_lines: int) -> int {
    screen_lines - total_lines(term)
}

/// The text of every row of a terminal of the given size, scrollback included, oldest first.
pub open spec fn grid_rows(term: Seq<int>, columns: int, screen_lines: int) -> Seq<Seq<char>> {
    Seq::new(
        total_lines(term),
        |i: int| row_text(term, top_line(term, screen_lines) + i, columns - 1),
    )
}

/// The cells of every row of a terminal of the given size, scrollback included, oldest first.
pub open spec fn cell_rows(term: Seq<int>, columns: int, screen_lines: int) -> Seq<Seq<Cell>> {
    Seq::new(
        total_lines(term),
        |i: int| line_cells(term, columns, top_line(term, screen_lines) + i),
    )
}

/// The cells of a line.
pub open spec fn line_cells(term: Seq<int>, columns: int, line: int) -> Seq<Cell> {
    Seq::new(columns as nat, |column: int| grid_cells(term)[(line, column)])
}

/// Some rows without text.
pub open spec fn empty_rows(count: int) -> Seq<Seq<char>> {
    Seq::new(if count < 0 { 0 } else { count as nat }, |i: int| Seq::<char>::empty())
}

/// Some rows of cells that nothing was written to.
pub open spec fn blank_rows(count: int, columns: int) -> Seq<Seq<Cell>> {
    Seq::new(
        if count < 0 {
            0
        } else {
            count as nat
        },
        |i: int| Seq::new(columns as nat, |column: int| Cell::blank()),
    )
}

/// Whether the text of a line can be read.
///
/// A line must not start in the second half of a fullwidth character. The topmost line must
/// not end in the spacer for a fullwidth character for which it had no room: for such a
/// line the emulator looks at the line above it.
pub open spec fn line_readable(term: Seq<int>, columns: int, screen_lines: int, line: int) -> bool {
    &&& grid_cells(term)[(line, 0)].flags & WIDE_CHAR_SPACER == 0
    &&& line > top_line(term, screen_lines) || grid_cells(term)[(line, columns - 1)].flags
        & LEADING_WIDE_CHAR_SPACER == 0
}

/// Whether the text of every line of a terminal can be read.
pub open spec fn rows_readable(term: Seq<int>, columns: int, screen_lines: int) -> bool {
    forall|line: int|
        top_line(term, screen_lines) <= line < screen_lines ==> #[trigger] line_readable(
            term,
            columns,
            screen_lines,
            line,
        )
}

/// Whether a cell is one of a terminal.
pub open spec fn has_cell(term: Term<VoidListener>, line: int, column: int) -> bool {
    &&& top_line(term_state(term), grid_screen_lines(term) as int) <= line < grid_screen_lines(
        term,
    )
    &&& 0 <= column < grid_columns(term)
}

/// The grids that fit in an address space, with no more lines than can be numbered.
pub open spec fn grid_fits(columns: int, screen_lines: int) -> bool {
    &&& columns * CELL_BYTES <= isize::MAX
    &&& screen_lines * CELL_BYTES <= isize::MAX
    &&& screen_lines <= MAX_SCREEN_LINES
}

/// Makes a parser with `Processor::new`. It has been fed nothing.
#[verifier::external_body]
pub(crate) fn new_parser() -> (parser: AnsiParser)
    ensures
        bytes_read(parser) == Seq::<u8>::empty(),
{
    AnsiParser { processor: Processor::new() }
}

/// Makes a terminal with `Term::new`, from the default configuration and the given size.
///
/// The terminal has that size, keeps up to [`SCROLLBACK`] rows above its screen, has none
/// there yet, and all of its rows are empty: if it has a line, an empty line has been typed on
/// it. A row without a cell cannot be made.
#[verifier::external_body]
pub(crate) fn new_term(columns: usize, screen_lines: usize) -> (term: Term<VoidListener>)
    requires
        columns >= 1,
        grid_fits(columns as int, screen_lines as int),
    ensures
        term_state(term) == initial_term(columns as int, screen_lines as int),
        grid_columns(term) == columns,
        grid_screen_lines(term) == screen_lines,
        grid_scroll_limit(term) == SCROLLBACK,
        grid_rows(term_state(term), columns as int, screen_lines as int) == empty_rows(
            screen_lines as int,
        ),
        rows_readable(term_state(term), columns as int, screen_lines as int),
        screen_lines >= 1 ==> typed(term_state(term)) == Some((seq![Seq::<char>::empty()], false)),
        shows_typed(term),
{
    Term::new(Config::default(), &TermSize::new(columns, screen_lines), VoidListener)
}

/// Feeds one byte to the parser, which acts on the terminal: `Processor::advance` on a slice
/// of that byte.
///
/// The state of the terminal after it is a function of the one before it, of the bytes that
/// the parser has been fed, and of the byte. No escape sequence changes the size of the
/// terminal or the limit of its scrollback. A parser that has been fed nothing but printable
/// characters, carriage returns and line feeds, and then the beginning of another such
/// character, waits for the last byte of it. It then types a printable character behind the
/// last line, which is wrapped at the end of a row, and obeys a carriage return and a line
/// feed, as [`typed_after`] says.
///
/// A carriage return that follows another one changes nothing, nor does it change what the
/// parser does later, unless so many bytes of a synchronized update are held back that their
/// number matters. Of other bytes no more is said than that the state is a function.
///
/// A terminal with no line has no room for a character, and one with less than [`MIN_COLUMNS`]
/// columns has none for a fullwidth one. On some colors the emulator shifts a number by more
/// than its size, which is an overflow.
#[verifier::external_body]
pub(crate) fn advance(parser: &mut AnsiParser, term: &mut Term<VoidListener>, byte: u8)
    requires
        grid_columns(*old(term)) >= MIN_COLUMNS || (grid_columns(*old(term)) >= 1 && exists|
            text: Seq<char>,
            ch: char,
            seen: int,
        | #[trigger] stays_narrow(bytes_read(*old(parser)), byte, text, ch, seen)),
        1 <= grid_screen_lines(*old(term)) <= MAX_SCREEN_LINES,
        colors_fit(bytes_read(*old(parser)).push(byte)),
    ensures
        bytes_read(*final(parser)) == bytes_read(*old(parser)).push(byte),
        term_state(*final(term)) == advanced(
            bytes_read(*old(parser)),
            term_state(*old(term)),
            byte,
        ),
        grid_columns(*final(term)) == grid_columns(*old(term)),
        grid_screen_lines(*final(term)) == grid_screen_lines(*old(term)),
        grid_scroll_limit(*final(term)) == grid_scroll_limit(*old(term)),
        never_counts(bytes_read(*old(parser))) ==> term_state(*final(term)) == advanced(
            returned_once(bytes_read(*old(parser))),
            term_state(*old(term)),
            byte,
        ),
        byte == 13 && never_counts(bytes_read(*final(parser))) ==> advanced(
            bytes_read(*final(parser)),
            term_state(*final(term)),
            13,
        ) == term_state(*final(term)),
        shows_typed(*final(term)),
        forall|text: Seq<char>, ch: char, seen: int| #[trigger]
            goes_on(bytes_read(*old(parser)), byte, text, ch, seen) ==> types(
                typed(term_state(*old(term))),
                typed(term_state(*final(term))),
                ch,
                seen,
                grid_columns(*old(term)) as int,
                (grid_screen_lines(*old(term)) + grid_scroll_limit(*old(term))) as int,
            ),
{
    parser.processor.advance(term, &[byte]);
}

/// The number of columns: `Dimensions::columns` of the terminal.
#[verifier::external_body]
pub(crate) fn columns(term: &Term<VoidListener>) -> (columns: usize)
    ensures
        columns == grid_columns(*term),
{
    term.columns()
}

/// The number of lines on the screen: `Dimensions::screen_lines` of the terminal.
#[verifier::external_body]
pub(crate) fn screen_lines(term: &Term<VoidListener>) -> (lines: usize)
    ensures
        lines == grid_screen_lines(*term),
{
    term.screen_lines()
}

/// The number of rows, scrollback included: `Dimensions::total_lines` of the terminal's
/// grid. The screen is part of it, and the scrollback stays within its limit.
#[verifier::external_body]
pub(crate) fn all_lines(term: &Term<VoidListener>) -> (lines: usize)
    ensures
        lines == total_lines(term_state(*term)),
        grid_screen_lines(*term) <= lines <= grid_screen_lines(*term) + grid_scroll_limit(*term),
{
    term.grid().total_lines()
}

/// What a cell holds, through the `Index` of the terminal's grid: its character, the number of
/// its characters without a width, and the bits of its flags. A cell that was left blank for a
/// fullwidth character holds padding.
#[verifier::external_body]
pub(crate) fn cell_at(term: &Term<VoidListener>, line: i32, column: usize) -> (cell: Cell)
    requires
        has_cell(*term, line as int, column as int),
    ensures
        cell == grid_cells(term_state(*term))[(line as int, column as int)],
        cell.flags & LEADING_WIDE_CHAR_SPACER != 0 ==> is_padding(cell.ch),
{
    let cell = &term.grid()[Line(line)][Column(column)];
    let zero_width: usize = cell.zerowidth().map_or(0, |chars| chars.len());
    Cell { ch: cell.c, zero_width, flags: cell.flags.bits() }
}

/// The text of a line: `Term::bounds_to_string` from its first to its given last column.
///
/// The text is a function of the terminal's state, the line and the last column, and holds no
/// line feed: no cell holds one, and the one that the emulator puts behind a line is cut off.
/// A text of printable characters has one for a cell at most.
///
/// The text holds what the cells show: more than padding if one of them shows a character, and
/// only if one of them has content. The exception is a line that ends in the spacer for a
/// fullwidth character for which it had no room: for the spacer the text holds the first
/// character of the line above. The line must be one of the terminal's that can be read.
#[verifier::external_body]
pub(crate) fn read_row(term: &Term<VoidListener>, line: i32, last_column: usize) -> (text: String)
    requires
        has_cell(*term, line as int, last_column as int),
        line_readable(
            term_state(*term),
            grid_columns(*term) as int,
            grid_screen_lines(*term) as int,
            line as int,
        ),
    ensures
        text@ == row_text(term_state(*term), line as int, last_column as int),
        !text@.contains('\n'),
        (forall|i: int| 0 <= i < text@.len() ==> is_printable(#[trigger] text@[i]))
            ==> text@.len() <= last_column + 1,
        content_width(text@) > 0 ==> cells_width(
            line_cells(term_state(*term), last_column + 1, line as int),
        ) > 0 || (line > top_line(term_state(*term), grid_screen_lines(*term) as int)
            && !is_padding(grid_cells(term_state(*term))[(line - 1, 0)].ch)),
        forall|column: int|
            0 <= column <= last_column && (#[trigger] grid_cells(term_state(*term))[(
                line as int,
                column,
            )]).shows_character() ==> content_width(text@) > 0,
{
    term.bounds_to_string(
        Point::new(Line(line), Column(0)),
        Point::new(Line(line), Column(last_column)),
    )
}

/// Gives the terminal more screen lines: `Term::resize` with the old number of columns.
///
/// The state after it is a function of the one before it and of the size. The scrollback
/// keeps its limit. The screen takes in rows of the scrollback first and then gets blank rows
/// below: the rows that were there stay, with their cells and their text, in their order. What
/// was typed on the terminal stays typed.
#[verifier::external_body]
pub(crate) fn resize(term: &mut Term<VoidListener>, columns: usize, screen_lines: usize)
    requires
        columns == grid_columns(*old(term)),
        columns >= 1,
        1 <= grid_screen_lines(*old(term)) <= screen_lines,
        grid_fits(columns as int, screen_lines as int),
    ensures
        term_state(*final(term)) == resized(
            term_state(*old(term)),
            columns as int,
            screen_lines as int,
        ),
        grid_columns(*final(term)) == columns,
        grid_screen_lines(*final(term)) == screen_lines,
        grid_scroll_limit(*final(term)) == grid_scroll_limit(*old(term)),
        ({
            let before = cell_rows(
                term_state(*old(term)),
                columns as int,
                grid_screen_lines(*old(term)) as int,
            );
            cell_rows(term_state(*final(term)), columns as int, screen_lines as int) == before
                + blank_rows(screen_lines - before.len(), columns as int)
        }),
        rows_readable(
            term_state(*old(term)),
            columns as int,
            grid_screen_lines(*old(term)) as int,
        ) ==> {
            let before = grid_rows(
                term_state(*old(term)),
                columns as int,
                grid_screen_lines(*old(term)) as int,
            );
            grid_rows(term_state(*final(term)), columns as int, screen_lines as int) == before
                + empty_rows(screen_lines - before.len())
        },
        shows_typed(*final(term)),
        typed(term_state(*old(term))) is Some ==> typed(term_state(*final(term))) == typed(
            term_state(*old(term)),
        ),
{
    term.resize(TermSize::new(columns, screen_lines));
}

} // verus!

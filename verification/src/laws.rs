//! What the operations do, said of their inputs and results: sizes by the settings, rows by their
//! characters and cells, and text by its bytes. Numbers and characters are written out here.

use crate::cell::{cells_width, cells_width_is_last_filled, Cell};
use crate::command::{
    color_overflows, colors_fit, command_overflows, digit_of, is_color, is_number, is_part,
    place_after, place_after_all, place_after_pieces, shorter_colors_fit, value_of, Place,
};
use crate::emulator::{
    advanced, grid_cells, initial_term, is_narrow, is_printable, resized, row_text, total_lines,
};
use crate::geometry::{end_column, last_line, Pixels, ReplSettings, TerminalBounds, TextRun};
use crate::output::{fed, terminal_bytes, OutputState};
use crate::plain::{
    ascii_encoding, encode_utf8_concat, is_plain, lines_of, lines_with, with_returns,
};
use crate::text::{
    content_rows, content_width, is_blank, is_clean, is_noise, is_padding, is_white,
    is_white_space, longest_content, longest_content_is_least, longest_line, numbers, pieces,
    rows_as_text, sanitized, terminated, text_lines, trimmed_end_keeps, views, without_noise,
    wrapped,
};
use vstd::prelude::*;
use vstd::utf8::encode_utf8;

verus! {

/// The grid is as wide as the user's limit, or as the configured columns if there are more, and
/// as wide as it may be without a limit: 1024 columns. It has the configured lines, up to 4096.
pub proof fn grid_has_the_configured_size(settings: ReplSettings)
    ensures
        ({
            let limit = settings.output_max_width_columns;
            let wanted = settings.max_columns;
            let columns = settings.grid_columns();
            &&& limit == 0 ==> columns == 1024
            &&& 0 < limit <= 1024 && wanted <= limit ==> columns == limit
            &&& 0 < limit && limit < wanted <= 1024 ==> columns == wanted
            &&& limit > 1024 || wanted > 1024 ==> columns == 1024
        }),
        settings.max_lines <= 4096 ==> settings.grid_lines() == settings.max_lines,
        settings.max_lines > 4096 ==> settings.grid_lines() == 4096,
{
}

/// A fitted grid shows all rows and the configured lines, within 4096 lines, and is no taller
/// than that needs.
pub proof fn fitted_grid_is_no_taller_than_needed(settings: ReplSettings, rows: int)
    requires
        rows >= 0,
    ensures
        ({
            let lines = settings.fitting_lines(rows);
            &&& lines <= rows || lines <= settings.max_lines || lines == 1
            &&& 1 <= lines <= 4096
            &&& rows <= 4096 ==> lines >= rows
            &&& settings.max_lines <= 4096 ==> lines >= settings.max_lines
            &&& rows > 4096 || settings.max_lines > 4096 ==> lines == 4096
        }),
{
}

/// The bounds of a grid are its numbers of cells times the size of one.
pub proof fn bounds_are_products(
    bounds: TerminalBounds,
    columns: int,
    lines: int,
    cell_width: Pixels,
    line_height: Pixels,
)
    requires
        bounds.of_grid(columns, lines, cell_width, line_height),
    ensures
        bounds.cell_width == cell_width,
        bounds.line_height == line_height,
        bounds.width.units == columns * cell_width.units,
        bounds.height.units == lines * line_height.units,
{
}

/// As many cells are counted as fit in the bounds, and no one more does.
pub proof fn whole_cells_are_counted(bounds: TerminalBounds)
    requires
        bounds.cell_width.units > 0,
        bounds.line_height.units > 0,
    ensures
        counts_cells(bounds.columns(), bounds.width.units as int, bounds.cell_width.units as int),
        counts_cells(bounds.lines(), bounds.height.units as int, bounds.line_height.units as int),
{
    counted(bounds.width.units as int, bounds.cell_width.units as int);
    counted(bounds.height.units as int, bounds.line_height.units as int);
}

/// Whether a number of cells fit in a length, and no one more does that can be counted.
pub open spec fn counts_cells(count: int, length: int, cell: int) -> bool {
    &&& 0 <= count <= usize::MAX
    &&& length < 0 ==> count == 0
    &&& length >= 0 ==> count * cell <= length
    &&& length >= 0 && count < usize::MAX ==> length < (count + 1) * cell
}

proof fn counted(length: int, cell: int)
    requires
        cell > 0,
    ensures
        counts_cells(crate::geometry::whole_cells(length, cell), length, cell),
{
    if length >= 0 {
        let count = length / cell;
        assert(count >= 0 && count * cell <= length < (count + 1) * cell) by (nonlinear_arith)
            requires
                count == length / cell,
                length >= 0,
                cell > 0,
        ;
        if count > usize::MAX {
            assert(usize::MAX * cell <= count * cell) by (nonlinear_arith)
                requires
                    count > usize::MAX,
                    cell > 0,
            ;
        }
    }
}

/// Without runs a canvas has no columns, and a line as if one stood on the first. With runs its
/// last line and its last column are the greatest among them.
pub proof fn canvas_is_that_of_its_runs(runs: Seq<TextRun>, more: TextRun)
    ensures
        last_line(Seq::<TextRun>::empty()) == 0,
        end_column(Seq::<TextRun>::empty()) == 0,
        last_line(seq![more]) == more.line,
        end_column(seq![more]) == more.column + more.cell_count,
        runs.len() > 0 && last_line(runs) >= more.line ==> last_line(runs.push(more)) == last_line(
            runs,
        ),
        runs.len() > 0 && last_line(runs) < more.line ==> last_line(runs.push(more)) == more.line,
        end_column(runs) >= more.column + more.cell_count ==> end_column(runs.push(more))
            == end_column(runs),
        end_column(runs) < more.column + more.cell_count ==> end_column(runs.push(more))
            == more.column + more.cell_count,
{
    assert(runs.push(more).drop_last() =~= runs);
    assert(seq![more].drop_last() =~= Seq::empty());
    reveal_with_fuel(end_column, 2);
}

/// The content of a row reaches to its last character other than space, tab and NUL.
pub proof fn content_reaches_last_character(row: Seq<char>)
    ensures
        content_width(row) <= row.len(),
        content_width(row) > 0 ==> row[content_width(row) - 1] != ' ' && row[content_width(row) - 1]
            != '\t' && row[content_width(row) - 1] != '\0',
        forall|i: int|
            content_width(row) <= i < row.len() ==> (#[trigger] row[i]) == ' ' || row[i] == '\t'
                || row[i] == '\0',
        content_width(row) == 0 <==> forall|i: int|
            0 <= i < row.len() ==> (#[trigger] row[i]) == ' ' || row[i] == '\t' || row[i] == '\0',
{
    let cut = |ch: char| is_padding(ch);
    trimmed_end_keeps(row, cut);
    let width = content_width(row) as int;
    if width > 0 {
        assert(!cut(row[width - 1]));
    }
    assert forall|i: int| width <= i < row.len() implies (#[trigger] row[i]) == ' ' || row[i]
        == '\t' || row[i] == '\0' by {
        assert(cut(row[i]));
    }
}

/// The rows with content are those that hold a character other than space, tab and NUL.
pub proof fn rows_with_content_are_counted(rows: Seq<Seq<char>>)
    ensures
        content_rows(rows) == rows.filter(
            |row: Seq<char>|
                exists|i: int|
                    0 <= i < row.len() && (#[trigger] row[i]) != ' ' && row[i] != '\t' && row[i]
                        != '\0',
        ).len(),
    decreases rows.len(),
{
    reveal(Seq::filter);
    if rows.len() > 0 {
        rows_with_content_are_counted(rows.drop_last());
        let row = rows.last();
        content_reaches_last_character(row);
        if content_width(row) > 0 {
            assert(row[content_width(row) - 1] != ' ');
        }
    }
}

/// The longest of some lines is as long as the content of one of them and of no more: that of
/// one line is its own, and of more the greater.
pub proof fn longest_line_is_the_greatest(rows: Seq<Seq<char>>, row: Seq<char>)
    ensures
        longest_line(Seq::<Seq<char>>::empty()) == 0,
        longest_line(rows) >= content_width(row) ==> longest_line(rows.push(row)) == longest_line(
            rows,
        ),
        longest_line(rows) < content_width(row) ==> longest_line(rows.push(row)) == content_width(
            row,
        ),
{
    assert(rows.push(row).drop_last() =~= rows);
}

/// A row takes the cells up to the last one that holds a character other than space, tab and
/// NUL, a character without a width, or the second half of a fullwidth one.
pub proof fn width_reaches_last_cell(cells: Seq<Cell>)
    ensures
        cells_width(cells) <= cells.len(),
        cells_width(cells) > 0 ==> ({
            let last = cells[cells_width(cells) - 1];
            (last.ch != ' ' && last.ch != '\t' && last.ch != '\0') || last.zero_width > 0
                || last.flags & 0x40 != 0
        }),
        forall|i: int|
            cells_width(cells) <= i < cells.len() ==> ((#[trigger] cells[i]).ch == ' '
                || cells[i].ch == '\t' || cells[i].ch == '\0') && cells[i].zero_width == 0
                && cells[i].flags & 0x40 == 0,
{
    cells_width_is_last_filled(cells);
    assert forall|i: int| cells_width(cells) <= i < cells.len() implies ((
    #[trigger] cells[i]).ch == ' ' || cells[i].ch == '\t' || cells[i].ch == '\0')
        && cells[i].zero_width == 0 && cells[i].flags & 0x40 == 0 by {
        assert(!cells[i].is_filled());
    }
}

/// The rows and the cells of an output are all those of its terminal, from the topmost line of
/// the scrollback down to the last line of the screen.
pub proof fn rows_are_those_of_the_terminal(output: OutputState, i: int)
    requires
        output.columns >= 0,
        0 <= i < total_lines(output.term),
    ensures
        output.rows().len() == total_lines(output.term),
        output.cells().len() == total_lines(output.term),
        output.widths().len() == total_lines(output.term),
        ({
            let line = output.screen_lines - total_lines(output.term) + i;
            &&& output.rows()[i] == row_text(output.term, line, output.columns - 1)
            &&& output.cells()[i].len() == output.columns
            &&& forall|column: int|
                0 <= column < output.columns ==> (#[trigger] output.cells()[i][column])
                    == grid_cells(output.term)[(line, column)]
            &&& output.widths()[i] == cells_width(output.cells()[i])
        }),
        output.text() == rows_as_text(output.rows()),
{
}

/// The measured width reaches to the last cell with content of every row that holds a character
/// other than space, tab and NUL, and is that of one of these rows.
pub proof fn measure_reaches_every_row(output: OutputState)
    requires
        output.columns >= 0,
    ensures
        forall|i: int|
            0 <= i < output.rows().len() && (exists|j: int|
                0 <= j < output.rows()[i].len() && (#[trigger] output.rows()[i][j]) != ' '
                    && output.rows()[i][j] != '\t' && output.rows()[i][j] != '\0') ==> cells_width(
                #[trigger] output.cells()[i],
            ) <= output.longest(),
        output.longest() > 0 ==> exists|i: int|
            0 <= i < output.rows().len() && content_width(#[trigger] output.rows()[i]) > 0
                && cells_width(output.cells()[i]) == output.longest(),
{
    let rows = output.rows();
    let widths = output.widths();
    longest_content_is_least(rows, widths);
    assert forall|i: int|
        0 <= i < rows.len() && (exists|j: int|
            0 <= j < rows[i].len() && (#[trigger] rows[i][j]) != ' ' && rows[i][j] != '\t'
                && rows[i][j] != '\0') implies cells_width(#[trigger] output.cells()[i])
        <= output.longest() by {
        content_reaches_last_character(rows[i]);
        assert(content_width(rows[i]) > 0);
        assert(widths[i] == cells_width(output.cells()[i]));
    }
    if output.longest() > 0 {
        let i = choose|i: int|
            0 <= i < rows.len() && content_width(#[trigger] rows[i]) > 0 && widths[i]
                == output.longest();
        assert(cells_width(output.cells()[i]) == widths[i]);
    }
}

/// One row with its width: it counts if it has content, beside others if it is wider.
pub proof fn width_of_one_more_row(
    rows: Seq<Seq<char>>,
    widths: Seq<nat>,
    row: Seq<char>,
    width: nat,
)
    ensures
        longest_content(Seq::<Seq<char>>::empty(), Seq::<nat>::empty()) == 0,
        longest_content(rows.push(row), widths.push(width)) == if content_width(row) > 0 && width
            > longest_content(rows, widths) {
            width
        } else {
            longest_content(rows, widths)
        },
{
    assert(rows.push(row).drop_last() =~= rows);
    assert(widths.push(width).drop_last() =~= widths);
}

/// Each string is taken for its characters, and each number for its value.
pub proof fn views_are_one_for_one(strings: Seq<String>, widths: Seq<usize>)
    ensures
        views(strings).len() == strings.len(),
        forall|i: int| 0 <= i < strings.len() ==> (#[trigger] views(strings)[i]) == strings[i]@,
        numbers(widths).len() == widths.len(),
        forall|i: int| 0 <= i < widths.len() ==> (#[trigger] numbers(widths)[i]) == widths[i],
{
}

/// A row loses no character but NUL and carriage return from inside, and spaces and tabs from
/// its end. It stands for no line if nothing but white space is left.
pub proof fn line_is_the_row_without_nul_and_return(row: Seq<char>)
    ensures
        ({
            let kept = row.filter(|ch: char| ch != '\0' && ch != '\r');
            &&& sanitized(row) is None <==> forall|i: int|
                0 <= i < kept.len() ==> {
                    let code = (#[trigger] kept[i]) as u32;
                    9 <= code <= 13 || code == 0x20 || code == 0x85 || code == 0xa0 || code
                        == 0x1680 || 0x2000 <= code <= 0x200a || code == 0x2028 || code == 0x2029
                        || code == 0x202f || code == 0x205f || code == 0x3000
                }
            &&& sanitized(row) is Some ==> {
                let line = sanitized(row)->0;
                &&& line.len() <= kept.len()
                &&& line == kept.take(line.len() as int)
                &&& line.len() > 0 && line.last() != ' ' && line.last() != '\t'
                &&& forall|i: int|
                    line.len() <= i < kept.len() ==> (#[trigger] kept[i]) == ' ' || kept[i] == '\t'
            }
        }),
{
    let keep = |ch: char| ch != '\0' && ch != '\r';
    let kept = row.filter(keep);
    same_filter(row, keep, |ch: char| !is_noise(ch));
    assert(kept == without_noise(row));
    if sanitized(row) is Some {
        let cut = |ch: char| is_blank(ch);
        trimmed_end_keeps(kept, cut);
        let line = sanitized(row)->0;
        if line.len() == 0 {
            assert forall|i: int| 0 <= i < kept.len() implies is_white_space(
                #[trigger] kept[i],
            ) by {
                assert(cut(kept[i]));
            }
        }
        assert(!cut(line.last()));
        assert forall|i: int| line.len() <= i < kept.len() implies (#[trigger] kept[i]) == ' '
            || kept[i] == '\t' by {
            assert(cut(kept[i]));
        }
    } else {
        assert forall|i: int| 0 <= i < kept.len() implies is_white_space(#[trigger] kept[i]) by {}
    }
}

proof fn same_filter(row: Seq<char>, first: spec_fn(char) -> bool, second: spec_fn(char) -> bool)
    requires
        forall|ch: char| #[trigger] first(ch) == second(ch),
    ensures
        row.filter(first) == row.filter(second),
    decreases row.len(),
{
    reveal(Seq::filter);
    if row.len() > 0 {
        same_filter(row.drop_last(), first, second);
        assert(first(row.last()) == second(row.last()));
    }
}

/// A row that holds more than white space, no NUL and no carriage return, and ends in no space
/// and no tab is read as it is, and is a clean line.
pub proof fn row_is_read_as_it_is(row: Seq<char>, k: int)
    requires
        forall|i: int| 0 <= i < row.len() ==> (#[trigger] row[i]) != '\0' && row[i] != '\r',
        row.len() > 0,
        row.last() != ' ',
        row.last() != '\t',
        0 <= k < row.len(),
        row[k] as u32 > 0x20,
        row[k] as u32 != 0x85,
        row[k] as u32 != 0xa0,
        row[k] as u32 != 0x1680,
        !(0x2000 <= row[k] as u32 <= 0x200a),
        row[k] as u32 != 0x2028,
        row[k] as u32 != 0x2029,
        row[k] as u32 != 0x202f,
        row[k] as u32 != 0x205f,
        row[k] as u32 != 0x3000,
    ensures
        sanitized(row) == Some(row),
        rows_as_text(seq![row]) == row.push('\n'),
        is_clean(row),
{
    crate::text::nothing_is_noise(row);
    assert(!is_white_space(row[k]));
    assert(!is_white(row));
    assert(!is_blank(row.last()));
    crate::text::clean_line_stays(row);
    text_of_one_row(row);
}

/// The text of no rows is empty, that of one is its line with a line feed behind it, and one row
/// more adds the text of that row.
pub proof fn text_of_one_row(row: Seq<char>)
    ensures
        rows_as_text(Seq::<Seq<char>>::empty()) == Seq::<char>::empty(),
        sanitized(row) is None ==> rows_as_text(seq![row]) == Seq::<char>::empty(),
        sanitized(row) is Some ==> rows_as_text(seq![row]) == (sanitized(row)->0).push('\n'),
        sanitized(row) is Some ==> text_lines(seq![row]) == seq![sanitized(row)->0],
        sanitized(row) is None ==> text_lines(seq![row]) == Seq::<Seq<char>>::empty(),
{
    let rows = seq![row];
    assert(rows.drop_last() =~= Seq::empty());
    reveal_with_fuel(text_lines, 2);
    reveal_with_fuel(terminated, 2);
    if let Some(line) = sanitized(row) {
        let lines = Seq::empty().push(line);
        assert(text_lines(rows) =~= lines);
        assert(lines =~= seq![line]);
        assert(lines.drop_last() =~= Seq::empty());
        assert(terminated(lines) =~= line.push('\n'));
    }
}

/// Lines are wrapped one after the other.
pub proof fn lines_are_wrapped_in_turn(lines: Seq<Seq<char>>, line: Seq<char>, columns: int)
    ensures
        wrapped(Seq::<Seq<char>>::empty(), columns) == Seq::<Seq<char>>::empty(),
        wrapped(lines.push(line), columns) == wrapped(lines, columns) + pieces(line, columns),
{
    assert(lines.push(line).drop_last() =~= lines);
}

/// Lines one after the other, each with a line feed behind it.
pub proof fn lines_are_terminated_in_turn(lines: Seq<Seq<char>>, line: Seq<char>)
    ensures
        terminated(Seq::<Seq<char>>::empty()) == Seq::<char>::empty(),
        terminated(lines.push(line)) == terminated(lines) + line + seq!['\n'],
{
    assert(lines.push(line).drop_last() =~= lines);
    assert(terminated(lines) + line.push('\n') =~= terminated(lines) + line + seq!['\n']);
}

/// Text without carriage returns and its lines are the same, but for the line feeds between
/// them.
pub proof fn lines_join_to_the_text(text: Seq<char>)
    requires
        !text.contains('\r'),
    ensures
        terminated(lines_of(text)) == text.push('\n'),
        forall|i: int|
            0 <= i < lines_of(text).len() ==> !(#[trigger] lines_of(text)[i]).contains('\n'),
        lines_of(text).len() > 0,
    decreases text.len(),
{
    let none = Seq::<char>::empty();
    if text.len() == 0 {
        assert(lines_of(text) =~= seq![none]);
        reveal_with_fuel(terminated, 2);
        assert(seq![none].drop_last() =~= Seq::empty());
        assert(terminated(lines_of(text)) =~= text.push('\n'));
    } else {
        let before = text.drop_last();
        let ch = text.last();
        assert forall|i: int| 0 <= i < before.len() implies (#[trigger] before[i]) != '\r' by {
            assert(text.contains(text[i]));
        }
        assert(ch != '\r') by {
            assert(text.contains(text[text.len() - 1]));
        }
        lines_join_to_the_text(before);
        let lines = lines_of(before);
        let after = lines_of(text);
        assert(before.push(ch) =~= text);
        if ch == '\n' {
            assert(after == lines.push(none));
            assert(after.drop_last() =~= lines);
            assert(terminated(after) =~= text.push('\n'));
        } else {
            let first = lines.drop_last();
            assert(after.drop_last() =~= first);
            assert(terminated(lines) == terminated(first) + lines.last().push('\n'));
            let start = terminated(first) + lines.last();
            assert(terminated(lines) =~= start.push('\n'));
            assert(before.push('\n').drop_last() =~= before);
            assert(start.push('\n').drop_last() =~= start);
            assert(start == before);
            assert(terminated(after) =~= text.push('\n'));
            assert forall|i: int| 0 <= i < after.len() implies !(#[trigger] after[i]).contains(
                '\n',
            ) by {
                if i == after.len() - 1 {
                    if after[i].contains('\n') {
                        let j = choose|j: int| 0 <= j < after[i].len() && after[i][j] == '\n';
                        assert(lines[i][j] == '\n');
                        assert(lines[i].contains('\n'));
                    }
                } else {
                    assert(after[i] == lines[i]);
                }
            }
        }
    }
}

/// Printable characters of ASCII and line feeds are plain text.
pub proof fn ascii_is_plain(text: Seq<char>)
    requires
        forall|i: int|
            0 <= i < text.len() ==> ' ' <= (#[trigger] text[i]) <= '~' || text[i] == '\n',
    ensures
        is_plain(text),
{
    assert forall|i: int| 0 <= i < text.len() implies is_printable(#[trigger] text[i]) || text[i]
        == '\n' by {}
}

/// Text with carriage returns is the text, but for a carriage return before each line feed.
pub proof fn returns_are_put_before_line_feeds(text: Seq<char>, ch: char)
    ensures
        with_returns(Seq::<char>::empty()) == Seq::<char>::empty(),
        ch == '\n' ==> with_returns(text.push(ch)) == with_returns(text) + seq!['\r', '\n'],
        ch != '\n' ==> with_returns(text.push(ch)) == with_returns(text) + seq![ch],
{
    assert(text.push(ch).drop_last() =~= text);
}

/// A new output has read nothing, is not open, and has a terminal of its size.
pub proof fn new_output_is_empty(columns: int, screen_lines: int)
    ensures
        ({
            let output = OutputState::initial(columns, screen_lines);
            &&& output.bytes == Seq::<u8>::empty()
            &&& output.term == initial_term(columns, screen_lines)
            &&& output.columns == columns
            &&& output.screen_lines == screen_lines
            &&& output.narrow
            &&& output.buffer is None
        }),
{
}

/// Every byte acts on the terminal of the output. A character of ASCII is one byte, and a line
/// feed is a carriage return and a line feed.
pub proof fn character_acts_on_the_terminal(output: OutputState, ch: char)
    requires
        '\u{80}' > ch,
    ensures
        ({
            let after = output.appended(seq![ch]);
            let byte = ch as u8;
            let returned = advanced(output.bytes, output.term, 13);
            &&& ch != '\n' ==> after.bytes == output.bytes.push(byte)
            &&& ch != '\n' ==> after.term == advanced(output.bytes, output.term, byte)
            &&& ch == '\n' ==> after.bytes == output.bytes.push(13).push(10)
            &&& ch == '\n' ==> after.term == advanced(output.bytes.push(13), returned, 10)
        }),
{
    let byte = ch as u8;
    ascii_encoding(ch, byte);
    byte_is_fed(output.bytes, output.term, byte);
    assert(output.bytes + seq![byte] =~= output.bytes.push(byte));
    assert(output.bytes + seq![13u8, 10u8] =~= output.bytes.push(13).push(10));
}

proof fn byte_is_fed(read: Seq<u8>, term: Seq<int>, byte: u8)
    ensures
        byte != 10 ==> terminal_bytes(seq![byte]) == seq![byte],
        byte == 10 ==> terminal_bytes(seq![byte]) == seq![13u8, 10u8],
        fed(read, term, seq![byte]) == advanced(read, term, byte),
        fed(read, term, seq![13u8, 10u8]) == advanced(
            read.push(13),
            advanced(read, term, 13),
            10,
        ),
{
    let none = Seq::<u8>::empty();
    reveal_with_fuel(terminal_bytes, 2);
    reveal_with_fuel(fed, 3);
    assert(seq![byte].drop_last() =~= none);
    assert(none.push(byte) =~= seq![byte]);
    assert(none.push(13).push(10) =~= seq![13u8, 10u8]);
    assert(seq![13u8, 10u8].drop_last() =~= seq![13u8]);
    assert(seq![13u8].drop_last() =~= none);
    assert(read + none =~= read);
    assert(read + seq![13u8] =~= read.push(13));
}

/// Text in two pieces acts on the terminal like the whole, and no text does not act on it.
pub proof fn pieces_act_in_turn(output: OutputState, first: Seq<char>, second: Seq<char>)
    ensures
        output.appended(Seq::empty()).bytes == output.bytes,
        output.appended(Seq::empty()).term == output.term,
        output.appended(first + second).bytes == output.appended(first).appended(second).bytes,
        output.appended(first + second).term == output.appended(first).appended(second).term,
{
    crate::output::pieces_make_one_output(output, first, second);
    assert(output.bytes + Seq::<u8>::empty() =~= output.bytes);
}

/// Every byte of a text acts on the terminal of the output, one after the other, and none is
/// left out: there is a terminal before and after each. Text without line feeds is its own
/// bytes.
pub proof fn every_byte_acts_on_the_terminal(output: OutputState, text: Seq<char>) -> (states: Seq<
    Seq<int>,
>)
    ensures
        ({
            let after = output.appended(text);
            let count = after.bytes.len() - output.bytes.len();
            &&& count >= 0
            &&& after.bytes.take(output.bytes.len() as int) == output.bytes
            &&& states.len() == count + 1
            &&& states[0] == output.term
            &&& states[count] == after.term
            &&& forall|i: int|
                0 <= i < count ==> advanced(
                    after.bytes.take(output.bytes.len() + i),
                    #[trigger] states[i],
                    after.bytes[output.bytes.len() + i],
                ) == states[i + 1]
            &&& !text.contains('\n') ==> after.bytes == output.bytes + encode_utf8(text)
        }),
{
    let bytes = terminal_bytes(encode_utf8(text));
    let all = output.bytes + bytes;
    let states = Seq::new(
        bytes.len() + 1,
        |i: int| fed(output.bytes, output.term, bytes.take(i)),
    );
    assert(all.take(output.bytes.len() as int) =~= output.bytes);
    assert(bytes.take(0) =~= Seq::empty());
    assert(bytes.take(bytes.len() as int) =~= bytes);
    assert forall|i: int| 0 <= i < bytes.len() implies advanced(
        all.take(output.bytes.len() + i),
        #[trigger] states[i],
        all[output.bytes.len() + i],
    ) == states[i + 1] by {
        assert(bytes.take(i + 1).drop_last() =~= bytes.take(i));
        assert(all.take(output.bytes.len() + i) =~= output.bytes + bytes.take(i));
    }
    if !text.contains('\n') {
        not_encoded(text, 10);
        crate::output::one_line_is_fed_as_it_is(encode_utf8(text));
    }
    states
}

/// A byte of ASCII that is no character of a text is no byte of its code.
proof fn not_encoded(text: Seq<char>, byte: u8)
    requires
        byte < 0x80,
        !text.contains(byte as char),
    ensures
        !encode_utf8(text).contains(byte),
    decreases text.len(),
{
    if text.len() > 0 {
        let before = text.drop_last();
        assert forall|i: int| 0 <= i < before.len() implies (#[trigger] before[i])
            != byte as char by {
            assert(text.contains(text[i]));
        }
        not_encoded(before, byte);
        assert(text.contains(text[text.len() - 1]));
        assert(before + seq![text.last()] =~= text);
        encode_utf8_concat(before, seq![text.last()]);
        ascii_encoding(text.last(), byte);
        let first = encode_utf8(before);
        let all = encode_utf8(text);
        if all.contains(byte) {
            let i = choose|i: int| 0 <= i < all.len() && all[i] == byte;
            if i < first.len() {
                assert(first[i] == byte);
            } else {
                assert(encode_utf8(seq![text.last()])[i - first.len()] == byte);
            }
        }
    }
}

/// Appending changes the terminal and the buffer only: an open buffer holds the text of the
/// output afterwards if that can be read, and else what it held and the new text.
pub proof fn appending_keeps_the_rest(output: OutputState, text: Seq<char>)
    ensures
        ({
            let after = output.appended(text);
            &&& after.columns == output.columns
            &&& after.screen_lines == output.screen_lines
            &&& after.narrow == (output.narrow && forall|i: int|
                0 <= i < text.len() ==> is_narrow(#[trigger] text[i]))
            &&& output.buffer is None ==> after.buffer is None
            &&& output.buffer is Some && after.readable() ==> after.buffer == Some(
                rows_as_text(after.rows()),
            )
            &&& output.buffer is Some && !after.readable() ==> after.buffer == Some(
                output.buffer->0 + text,
            )
        }),
{
}

/// Opening an output puts its text in a buffer, once, and changes nothing else.
pub proof fn opening_keeps_the_rest(output: OutputState)
    ensures
        output.buffer is Some ==> output.opened() == output,
        output.buffer is None ==> output.opened().buffer == Some(rows_as_text(output.rows())),
        output.opened().bytes == output.bytes,
        output.opened().term == output.term,
        output.opened().columns == output.columns,
        output.opened().screen_lines == output.screen_lines,
        output.opened().narrow == output.narrow,
{
}

/// Fitting changes the number of lines only, to one that shows all rows and the configured
/// lines within 4096 lines, and is no greater than that needs. The terminal is resized to it,
/// if it has another. Where a cell has no size nothing changes.
pub proof fn fitting_keeps_the_rest(
    output: OutputState,
    settings: ReplSettings,
    cell_width: Pixels,
    line_height: Pixels,
)
    ensures
        ({
            let after = output.fitted(settings, cell_width, line_height);
            let rows = total_lines(output.term);
            let lines = after.screen_lines;
            &&& after.bytes == output.bytes
            &&& after.columns == output.columns
            &&& after.narrow == output.narrow
            &&& after.buffer == output.buffer
            &&& cell_width.units <= 0 || line_height.units <= 0 ==> after == output
            &&& lines == output.screen_lines ==> after.term == output.term
            &&& lines != output.screen_lines ==> after.term == resized(
                output.term,
                output.columns,
                lines,
            )
            &&& cell_width.units > 0 && line_height.units > 0 ==> {
                &&& 1 <= lines <= 4096
                &&& rows <= 4096 ==> lines >= rows
                &&& settings.max_lines <= 4096 ==> lines >= settings.max_lines
                &&& rows > 4096 || settings.max_lines > 4096 ==> lines == 4096
                &&& lines <= rows || lines <= settings.max_lines || lines == 1
            }
        }),
{
}

/// An output can be read if no row starts in the second half of a fullwidth character, and the
/// topmost one does not end in a cell that was left blank for one.
pub proof fn readable_by_its_cells(output: OutputState)
    ensures
        output.readable() <==> forall|line: int|
            output.screen_lines - total_lines(output.term) <= line < output.screen_lines ==> (
            #[trigger] grid_cells(output.term)[(line, 0)]).flags & 0x40 == 0 && (line
                == output.screen_lines - total_lines(output.term) ==> grid_cells(output.term)[(
                line,
                output.columns - 1,
            )].flags & 0x400 == 0),
{
    let top = output.screen_lines - total_lines(output.term);
    if output.readable() {
        assert forall|line: int| top <= line < output.screen_lines implies (
        #[trigger] grid_cells(output.term)[(line, 0)]).flags & 0x40 == 0 && (line == top
            ==> grid_cells(output.term)[(line, output.columns - 1)].flags & 0x400 == 0) by {
            assert(crate::emulator::line_readable(
                output.term,
                output.columns,
                output.screen_lines,
                line,
            ));
        }
    } else {
        let line = choose|line: int|
            top <= line < output.screen_lines && !#[trigger] crate::emulator::line_readable(
                output.term,
                output.columns,
                output.screen_lines,
                line,
            );
        assert(grid_cells(output.term)[(line, 0)].flags & 0x40 == grid_cells(output.term)[(
            line,
            0,
        )].flags & 0x40);
    }
}

/// A clean line holds no NUL and no carriage return, and ends in no space and no tab.
pub proof fn clean_lines_end_well(line: Seq<char>)
    requires
        is_clean(line),
    ensures
        !line.contains('\0'),
        !line.contains('\r'),
        line.len() > 0,
        line.last() != ' ',
        line.last() != '\t',
{
    if line.contains('\0') {
        let i = choose|i: int| 0 <= i < line.len() && line[i] == '\0';
        assert(is_noise(line[i]));
    }
    if line.contains('\r') {
        let i = choose|i: int| 0 <= i < line.len() && line[i] == '\r';
        assert(is_noise(line[i]));
    }
    assert(line.len() > 0);
    assert(!is_blank(line.last()));
}

/// Characters before U+1100 are narrow.
pub proof fn characters_before_hangul_are_narrow(ch: char)
    requires
        (ch as u32) < 0x1100,
    ensures
        is_narrow(ch),
{
}

/// The characters that can be printed in one cell, by their codes.
pub proof fn printable_by_code(ch: char)
    ensures
        ({
            let code = ch as u32;
            &&& is_printable(ch) <==> 0x20 <= code <= 0x7e || 0xa1 <= code <= 0xac || 0xae <= code
                <= 0x2ff || 0x391 <= code <= 0x3a1 || 0x3a3 <= code <= 0x482 || 0x48a <= code
                <= 0x52f || 0x2010 <= code <= 0x2027 || 0x2190 <= code <= 0x22ff || 0x2500 <= code
                <= 0x259f
            &&& is_narrow(ch) <==> code < 0x1100 || 0x2010 <= code <= 0x2027 || 0x2190 <= code
                <= 0x22ff || 0x2500 <= code <= 0x259f
        }),
{
}

/// There is room for plain text as long as its rows fit on the screen and in the scrollback of
/// ten thousand rows, and what is read back is what was wrapped.
pub proof fn room_is_that_of_the_rows(output: OutputState, text: Seq<char>, lines: Seq<Seq<char>>)
    ensures
        output.has_room_for(text) <==> is_plain(text) && wrapped(
            lines_with(output.typed_lines(), text),
            output.columns,
        ).len() <= output.screen_lines + 10000,
        output.reads_back(lines) ==> output.readable() && output.text() == rows_as_text(
            wrapped(lines, output.columns),
        ) && output.longest() == longest_line(wrapped(lines, output.columns)) && content_rows(
            output.rows(),
        ) == content_rows(wrapped(lines, output.columns)),
{
}

/// A terminal with a line and two columns takes every text without a color that overflows. One
/// without a line takes no text at all, and one with a single column takes narrow characters.
pub proof fn text_is_accepted_where_there_is_room(output: OutputState, text: Seq<char>)
    ensures
        output.screen_lines >= 1 && output.columns >= 2 ==> output.accepts(text) == colors_fit(
            output.appended(text).bytes,
        ),
        output.screen_lines >= 1 && output.narrow && (forall|i: int|
            0 <= i < text.len() ==> '\u{1100}' > #[trigger] text[i]) ==> output.accepts(text)
            == colors_fit(output.appended(text).bytes),
        text.len() > 0 && output.screen_lines < 1 ==> !output.accepts(text),
{
    let all = forall|i: int| 0 <= i < text.len() ==> '\u{1100}' > #[trigger] text[i];
    if all {
        assert forall|i: int| 0 <= i < text.len() implies is_narrow(#[trigger] text[i]) by {
            assert('\u{1100}' > text[i]);
        }
    }
}

/// Text without a number sign is accepted where there is room, whatever else it holds.
pub proof fn text_without_number_sign_is_accepted(output: OutputState, text: Seq<char>)
    requires
        output.screen_lines >= 1,
        output.columns >= 2,
        !output.bytes.contains(0x23),
        !text.contains('#'),
    ensures
        output.accepts(text),
{
    let bytes = terminal_bytes(encode_utf8(text));
    not_encoded(text, 0x23);
    not_fed(encode_utf8(text), 0x23);
    let all = output.bytes + bytes;
    if all.contains(0x23) {
        let i = choose|i: int| 0 <= i < all.len() && all[i] == 0x23;
        if i < output.bytes.len() {
            assert(output.bytes[i] == 0x23);
        } else {
            assert(bytes[i - output.bytes.len()] == 0x23);
        }
    }
    no_color_without_number_sign(all);
}

proof fn not_fed(bytes: Seq<u8>, byte: u8)
    requires
        byte != 13,
        byte != 10,
        !bytes.contains(byte),
    ensures
        !terminal_bytes(bytes).contains(byte),
    decreases bytes.len(),
{
    if bytes.len() > 0 {
        let before = bytes.drop_last();
        assert forall|i: int| 0 <= i < before.len() implies (#[trigger] before[i]) != byte by {
            assert(bytes.contains(bytes[i]));
        }
        not_fed(before, byte);
        assert(bytes.contains(bytes[bytes.len() - 1]));
        let all = terminal_bytes(bytes);
        if all.contains(byte) {
            let i = choose|i: int| 0 <= i < all.len() && all[i] == byte;
            assert(terminal_bytes(before)[i] == byte);
        }
    }
}

/// Bytes without a number sign hold no color that overflows.
pub proof fn no_color_without_number_sign(bytes: Seq<u8>)
    requires
        !bytes.contains(0x23),
    ensures
        colors_fit(bytes),
    decreases bytes.len(),
{
    place_holds_its_bytes(bytes);
}

/// Bytes that are fewer than the digits of three numbers of machine size hold no color that
/// overflows.
pub proof fn no_overflow_in_few_bytes(bytes: Seq<u8>)
    requires
        bytes.len() < 3 * (usize::BITS / 4),
    ensures
        colors_fit(bytes),
{
    place_holds_its_bytes(bytes);
}

/// What is known of the number and the parameters of a command comes from its bytes.
proof fn place_holds_its_bytes(bytes: Seq<u8>)
    requires
        !bytes.contains(0x23) || bytes.len() < 3 * (usize::BITS / 4),
    ensures
        ({
            let place = place_after_all(Place::Outside, bytes);
            &&& place != Place::Overflow
            &&& place is Text ==> within(place->current, bytes) && forall|i: int|
                0 <= i < place->ended.len() ==> within(#[trigger] place->ended[i], bytes)
        }),
    decreases bytes.len(),
{
    if bytes.len() > 0 {
        let before = bytes.drop_last();
        let byte = bytes.last();
        assert(bytes.contains(bytes[bytes.len() - 1]));
        if before.contains(0x23) {
            let i = choose|i: int| 0 <= i < before.len() && before[i] == 0x23;
            assert(bytes[i] == 0x23);
        }
        place_holds_its_bytes(before);
        let place = place_after_all(Place::Outside, before);
        let after = place_after_all(Place::Outside, bytes);
        if place is Text {
            let ended = place->ended;
            let current = place->current;
            let all = ended.push(current);
            assert forall|i: int| 0 <= i < all.len() implies within(#[trigger] all[i], bytes)
                && !color_overflows(all[i]) by {
                if i < ended.len() {
                    assert(all[i] == ended[i]);
                    assert(within(ended[i], before));
                }
                shorter_colors_fit(all[i]);
                if color_overflows(all[i]) {
                    assert(all[i][0] == 0x23);
                    assert(bytes.contains(0x23));
                }
            }
            assert(!command_overflows(all));
            if after is Text {
                assert(forall|i: int|
                    0 <= i < after->ended.len() ==> (#[trigger] after->ended[i]) == all[i]);
            }
        }
    }
}

/// Whether a parameter is no longer than some bytes, and holds a number sign only if they do.
spec fn within(parameter: Seq<u8>, bytes: Seq<u8>) -> bool {
    &&& parameter.len() <= bytes.len()
    &&& parameter.contains(0x23) ==> bytes.contains(0x23)
}

/// The number and the parameters of a command, with a `;` between them.
pub open spec fn joined(parameters: Seq<Seq<u8>>) -> Seq<u8>
    decreases parameters.len(),
{
    if parameters.len() == 0 {
        Seq::empty()
    } else if parameters.len() == 1 {
        parameters[0]
    } else {
        joined(parameters.drop_last()).push(0x3b) + parameters.last()
    }
}

/// A command is judged by its number and its parameters when it ends.
pub proof fn command_is_judged_when_it_ends(parameters: Seq<Seq<u8>>, end: u8)
    requires
        parameters.len() > 0,
        forall|i: int, j: int|
            0 <= i < parameters.len() && 0 <= j < parameters[i].len() ==> (
            #[trigger] parameters[i][j]) >= 0x20 && parameters[i][j] != 0x3b,
        end == 0x07 || end == 0x18 || end == 0x1a || end == 0x1b,
    ensures
        colors_fit(seq![0x1bu8, 0x5du8] + joined(parameters)),
        colors_fit((seq![0x1bu8, 0x5du8] + joined(parameters)).push(end)) == !command_overflows(
            parameters,
        ),
{
    let start = seq![0x1bu8, 0x5du8];
    let bytes = start + joined(parameters);
    reveal_with_fuel(place_after_all, 3);
    assert(start.drop_last() =~= seq![0x1bu8]);
    assert(seq![0x1bu8].drop_last() =~= Seq::empty());
    let inside = Place::Text { ended: Seq::empty(), current: Seq::empty() };
    assert(place_after_all(Place::Outside, start) == inside);
    place_after_pieces(Place::Outside, start, joined(parameters));
    parameters_are_collected(parameters);
    assert(bytes.push(end).drop_last() =~= bytes);
    assert(parameters.drop_last().push(parameters.last()) =~= parameters);
}

proof fn parameters_are_collected(parameters: Seq<Seq<u8>>)
    requires
        parameters.len() > 0,
        forall|i: int, j: int|
            0 <= i < parameters.len() && 0 <= j < parameters[i].len() ==> (
            #[trigger] parameters[i][j]) >= 0x20 && parameters[i][j] != 0x3b,
    ensures
        place_after_all(
            Place::Text { ended: Seq::empty(), current: Seq::empty() },
            joined(parameters),
        ) == (Place::Text { ended: parameters.drop_last(), current: parameters.last() }),
    decreases parameters.len(),
{
    let inside = Place::Text { ended: Seq::empty(), current: Seq::empty() };
    let last = parameters.last();
    assert forall|j: int| 0 <= j < last.len() implies (#[trigger] last[j]) >= 0x20 && last[j]
        != 0x3b by {
        assert(parameters[parameters.len() - 1][j] == last[j]);
    }
    if parameters.len() == 1 {
        parameter_is_collected(Seq::empty(), Seq::empty(), last);
        assert(Seq::<u8>::empty() + last =~= last);
        assert(parameters.drop_last() =~= Seq::empty());
    } else {
        let before = parameters.drop_last();
        assert forall|i: int, j: int|
            0 <= i < before.len() && 0 <= j < before[i].len() implies (#[trigger] before[i][j])
            >= 0x20 && before[i][j] != 0x3b by {
            assert(before[i][j] == parameters[i][j]);
        }
        parameters_are_collected(before);
        let first = joined(before).push(0x3b);
        assert(first.drop_last() =~= joined(before));
        assert(before.drop_last().push(before.last()) =~= before);
        place_after_pieces(inside, first, last);
        parameter_is_collected(before, Seq::empty(), last);
        assert(Seq::<u8>::empty() + last =~= last);
    }
}

proof fn parameter_is_collected(ended: Seq<Seq<u8>>, current: Seq<u8>, bytes: Seq<u8>)
    requires
        forall|j: int| 0 <= j < bytes.len() ==> (#[trigger] bytes[j]) >= 0x20 && bytes[j] != 0x3b,
    ensures
        place_after_all(Place::Text { ended, current }, bytes) == (Place::Text {
            ended,
            current: current + bytes,
        }),
    decreases bytes.len(),
{
    if bytes.len() == 0 {
        assert(current + bytes =~= current);
    } else {
        let before = bytes.drop_last();
        assert forall|j: int| 0 <= j < before.len() implies (#[trigger] before[j]) >= 0x20
            && before[j] != 0x3b by {
            assert(before[j] == bytes[j]);
        }
        parameter_is_collected(ended, current, before);
        assert(bytes[bytes.len() - 1] >= 0x20);
        assert((current + before).push(bytes.last()) =~= current + bytes);
    }
}

/// Behind the numbers 10, 11 and 12 up to three, two and one parameters are colors. Behind 4 it
/// is every second one, if each has an index of up to 255 before it and none is left over, and
/// there are fewer than sixteen. Behind other numbers none is.
pub proof fn colors_by_the_number(parameters: Seq<Seq<u8>>, i: int)
    requires
        parameters.len() > 0,
    ensures
        parameters[0] == seq![0x31u8, 0x30u8] ==> (is_color(parameters, i) <==> 1 <= i <= 3 && i
            < parameters.len()),
        parameters[0] == seq![0x31u8, 0x31u8] ==> (is_color(parameters, i) <==> 1 <= i <= 2 && i
            < parameters.len()),
        parameters[0] == seq![0x31u8, 0x32u8] ==> (is_color(parameters, i) <==> i == 1 && i
            < parameters.len()),
        parameters[0] == seq![0x34u8] ==> (is_color(parameters, i) <==> 1 <= i < parameters.len()
            && parameters.len() < 16 && parameters.len() % 2 == 1 && i % 2 == 0 && is_number(
            parameters[i - 1],
            10,
            255,
        )),
        parameters[0] != seq![0x31u8, 0x30u8] && parameters[0] != seq![0x31u8, 0x31u8]
            && parameters[0] != seq![0x31u8, 0x32u8] && parameters[0] != seq![0x34u8]
            ==> !is_color(parameters, i),
{
    let number = parameters[0];
    if number.len() == 1 && number[0] == 0x34 {
        assert(number =~= seq![0x34u8]);
    }
    if number.len() == 2 && number[0] == 0x31 {
        if number[1] == 0x30 {
            assert(number =~= seq![0x31u8, 0x30u8]);
        }
        if number[1] == 0x31 {
            assert(number =~= seq![0x31u8, 0x31u8]);
        }
        if number[1] == 0x32 {
            assert(number =~= seq![0x31u8, 0x32u8]);
        }
    }
}

/// A command overflows by one of its colors.
pub proof fn command_overflows_by_a_color(parameters: Seq<Seq<u8>>)
    ensures
        command_overflows(parameters) ==> exists|i: int|
            1 <= i < parameters.len() && is_color(parameters, i) && color_overflows(
                #[trigger] parameters[i],
            ),
        forall|i: int|
            is_color(parameters, i) && color_overflows(#[trigger] parameters[i])
                ==> command_overflows(parameters),
{
    if command_overflows(parameters) {
        let i = choose|i: int| is_color(parameters, i) && color_overflows(#[trigger] parameters[i]);
        assert(1 <= i < parameters.len());
    }
}

/// A number of digits has the value that it is written for: each digit counts, from 0 to 9 and
/// on from A or a to F or f, and a digit more makes the others worth their base.
pub proof fn numbers_are_written_in_digits(digits: Seq<u8>, byte: u8, base: int, limit: int)
    ensures
        value_of(Seq::empty(), base) == 0,
        0x30 <= byte <= 0x39 ==> value_of(digits.push(byte), base) == value_of(digits, base) * base
            + (byte - 0x30),
        0x41 <= byte <= 0x46 ==> value_of(digits.push(byte), base) == value_of(digits, base) * base
            + (byte - 0x37),
        0x61 <= byte <= 0x66 ==> value_of(digits.push(byte), base) == value_of(digits, base) * base
            + (byte - 0x57),
        is_number(digits.push(byte), 10, limit) ==> 0x30 <= byte <= 0x39,
        is_number(digits.push(byte), 16, limit) ==> 0x30 <= byte <= 0x39 || 0x41 <= byte <= 0x46
            || 0x61 <= byte <= 0x66,
        !is_number(Seq::empty(), base, limit),
        is_number(digits, base, limit) ==> value_of(digits, base) <= limit,
{
    let all = digits.push(byte);
    assert(all.drop_last() =~= digits);
    if is_number(all, 10, limit) {
        assert(digit_of(all[digits.len() as int]) < 10);
    }
    if is_number(all, 16, limit) {
        assert(digit_of(all[digits.len() as int]) < 16);
    }
}

/// A color of zeros overflows exactly if its last part, which takes what does not divide in
/// three, has more digits than a number of machine size.
pub proof fn colors_of_zeros_overflow_by_their_length(count: nat)
    ensures
        color_overflows(seq![0x23u8] + Seq::new(count, |i: int| 0x30u8)) == (count - 2 * (count / 3)
            > usize::BITS / 4),
{
    let zeros = Seq::new(count, |i: int| 0x30u8);
    let color = seq![0x23u8] + zeros;
    let third = (count / 3) as int;
    let red = color.subrange(1, 1 + third);
    let green = color.subrange(1 + third, 1 + 2 * third);
    let blue = color.subrange(1 + 2 * third, color.len() as int);
    assert(color.len() - 1 == count);
    zeros_are_a_part(red);
    zeros_are_a_part(green);
    zeros_are_a_part(blue);
}

proof fn zeros_are_a_part(part: Seq<u8>)
    requires
        forall|i: int| 0 <= i < part.len() ==> #[trigger] part[i] == 0x30,
    ensures
        is_part(part) == (part.len() > 0),
{
    zeros_are_worth_nothing(part);
}

proof fn zeros_are_worth_nothing(digits: Seq<u8>)
    requires
        forall|i: int| 0 <= i < digits.len() ==> #[trigger] digits[i] == 0x30,
    ensures
        value_of(digits, 16) == 0,
    decreases digits.len(),
{
    if digits.len() > 0 {
        let before = digits.drop_last();
        assert forall|i: int| 0 <= i < before.len() implies #[trigger] before[i] == 0x30 by {
            assert(before[i] == digits[i]);
        }
        zeros_are_worth_nothing(before);
        assert(digits[digits.len() - 1] == 0x30);
    }
}

/// Only what starts with a number sign is a color, and it overflows by a part of hexadecimal
/// digits, behind parts that can be read too.
pub proof fn colors_are_hexadecimal(color: Seq<u8>, i: int)
    requires
        color_overflows(color),
        1 <= i <= (color.len() - 1) / 3,
    ensures
        color[0] == 0x23,
        0x30 <= color[i] <= 0x39 || 0x41 <= color[i] <= 0x46 || 0x61 <= color[i] <= 0x66 || (i == 1
            && color[i] == 0x2b),
{
    let third = (color.len() - 1) / 3;
    let red = color.subrange(1, 1 + third);
    assert(is_part(red));
    assert(red[i - 1] == color[i]);
    if red[0] == 0x2b {
        let digits = red.skip(1);
        if i > 1 {
            assert(digits[i - 2] == color[i]);
        }
    }
}

/// Digits make a number if their value is within the limit.
pub proof fn digits_make_a_number(digits: Seq<u8>, limit: int)
    requires
        digits.len() > 0,
    ensures
        (forall|i: int| 0 <= i < digits.len() ==> 0x30 <= (#[trigger] digits[i]) <= 0x39) ==> (
        is_number(digits, 10, limit) <==> value_of(digits, 10) <= limit),
        (forall|i: int|
            0 <= i < digits.len() ==> 0x30 <= (#[trigger] digits[i]) <= 0x39 || 0x41 <= digits[i]
                <= 0x46 || 0x61 <= digits[i] <= 0x66) ==> (is_number(digits, 16, limit)
            <==> value_of(digits, 16) <= limit),
{
}

/// A part of a color is a hexadecimal number of machine size, with or without a `+`.
pub proof fn parts_are_numbers(part: Seq<u8>)
    ensures
        is_part(seq![0x2bu8] + part) == is_number(part, 16, usize::MAX as int),
        part.len() > 0 && part[0] != 0x2b ==> is_part(part) == is_number(
            part,
            16,
            usize::MAX as int,
        ),
        !is_part(Seq::empty()),
{
    assert((seq![0x2bu8] + part).skip(1) =~= part);
}

/// A color is read in three parts, of which the last takes what does not divide, up to the
/// first that cannot be read. It overflows by a part that can be read and has more digits than
/// a number of machine size.
pub proof fn colors_are_read_in_three_parts(red: Seq<u8>, green: Seq<u8>, blue: Seq<u8>)
    requires
        red.len() == green.len(),
        red.len() <= blue.len() <= red.len() + 2,
    ensures
        color_overflows(seq![0x23u8] + red + green + blue) == {
            let most = usize::BITS / 4;
            ||| is_part(red) && red.len() > most
            ||| is_part(red) && is_part(green) && green.len() > most
            ||| is_part(red) && is_part(green) && is_part(blue) && blue.len() > most
        },
{
    let color = seq![0x23u8] + red + green + blue;
    let third = red.len() as int;
    assert((color.len() - 1) / 3 == third);
    assert(color.subrange(1, 1 + third) =~= red);
    assert(color.subrange(1 + third, 1 + 2 * third) =~= green);
    assert(color.subrange(1 + 2 * third, color.len() as int) =~= blue);
}

/// Where each byte leads to: a command starts with an escape character and `]` and ends with
/// BEL, CAN, SUB or the next escape character. Its parameters have a `;` between them, and other
/// control bytes are read past.
pub proof fn bytes_lead_through_commands(byte: u8, ended: Seq<Seq<u8>>, current: Seq<u8>)
    ensures
        place_after(Place::Overflow, byte) == Place::Overflow,
        byte == 0x1b ==> place_after(Place::Outside, byte) == Place::Escape,
        byte != 0x1b ==> place_after(Place::Outside, byte) == Place::Outside,
        byte == 0x5d ==> place_after(Place::Escape, byte) == (Place::Text {
            ended: Seq::empty(),
            current: Seq::empty(),
        }),
        (0x20 <= byte <= 0x7e && byte != 0x5d) || byte == 0x18 || byte == 0x1a ==> place_after(
            Place::Escape,
            byte,
        ) == Place::Outside,
        (byte < 0x20 && byte != 0x18 && byte != 0x1a) || byte > 0x7e ==> place_after(
            Place::Escape,
            byte,
        ) == Place::Escape,
        ({
            let before = Place::Text { ended, current };
            let after = place_after(before, byte);
            let ends = byte == 0x07 || byte == 0x18 || byte == 0x1a;
            &&& ends && !command_overflows(ended.push(current)) ==> after == Place::Outside
            &&& byte == 0x1b && !command_overflows(ended.push(current)) ==> after == Place::Escape
            &&& (ends || byte == 0x1b) && command_overflows(ended.push(current)) ==> after
                == Place::Overflow
            &&& byte < 0x20 && !ends && byte != 0x1b ==> after == before
            &&& byte == 0x3b ==> after == (Place::Text {
                ended: ended.push(current),
                current: Seq::empty(),
            })
            &&& byte >= 0x20 && byte != 0x3b ==> after == (Place::Text {
                ended,
                current: current.push(byte),
            })
        }),
{
}

/// Text is refused by a terminal without lines, and if it has a character, or came behind one,
/// that may be wider than the only column.
pub proof fn text_is_refused_without_room(output: OutputState, text: Seq<char>)
    requires
        text.len() > 0,
    ensures
        output.screen_lines < 1 ==> !output.accepts(text),
        output.columns < 2 && !output.narrow ==> !output.accepts(text),
        output.columns < 2 && (exists|i: int|
            0 <= i < text.len() && !is_narrow(#[trigger] text[i])) ==> !output.accepts(text),
{
}

} // verus!

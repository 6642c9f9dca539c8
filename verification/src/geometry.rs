//! Sizes: of the grid that an output is simulated on, and of what is painted of it.
//!
//! Lengths are whole numbers of a unit of 2^-24 pixels. A length in single precision floating
//! point pixels of at least half a pixel is a whole number of such units, and a product of
//! such a length and a number of cells, computed in these units and rounded once, is the
//! product of single precision floating point.

use vstd::prelude::*;

verus! {

/// Hard upper bound on the column count of the simulated grid. Wider output is wrapped by the
/// emulator. Protects against pathological output (such as one line of many megabytes)
/// consuming unbounded memory.
pub const MAX_GRID_COLUMNS: usize = 1024;

/// Hard upper bound on the line count of the simulated grid. Same rationale as
/// [`MAX_GRID_COLUMNS`], for vertical growth.
pub const MAX_GRID_LINES: usize = 4096;

/// The settings of the REPL that output depends on.
#[derive(Clone, Copy, Debug, PartialEq, Eq, Structural)]
pub struct ReplSettings {
    /// The number of lines of an output that are shown at least, up to [`MAX_GRID_LINES`].
    pub max_lines: usize,
    /// The number of columns that an output has at least, up to [`MAX_GRID_COLUMNS`].
    pub max_columns: usize,
    /// The width of an output in columns, 0 for no limit but [`MAX_GRID_COLUMNS`].
    pub output_max_width_columns: usize,
}

/// The length of one side of a cell.
#[derive(Clone, Copy, Debug, PartialEq, Eq, Structural)]
pub struct Pixels {
    pub units: i64,
}

/// The length of many cells.
#[derive(Clone, Copy, Debug, PartialEq, Eq, Structural)]
pub struct Extent {
    pub units: i128,
}

/// The size of a terminal, in pixels, with the size of its cells.
#[derive(Clone, Copy, Debug, PartialEq, Eq, Structural)]
pub struct TerminalBounds {
    pub cell_width: Pixels,
    pub line_height: Pixels,
    pub width: Extent,
    pub height: Extent,
}

/// A run of cells that is painted as one piece of text.
#[derive(Clone, Copy, Debug, PartialEq, Eq, Structural)]
pub struct TextRun {
    /// The line on which the run stands.
    pub line: i32,
    /// The column in which the run starts.
    pub column: usize,
    /// The number of cells of the run.
    pub cell_count: usize,
}

/// The size of the canvas that the runs of an output are painted on.
#[derive(Clone, Copy, Debug, PartialEq, Eq, Structural)]
pub struct CanvasSize {
    pub width: Extent,
    pub height: Extent,
}

pub open spec fn max(a: int, b: int) -> int {
    if a >= b {
        a
    } else {
        b
    }
}

pub open spec fn min(a: int, b: int) -> int {
    if a <= b {
        a
    } else {
        b
    }
}

impl ReplSettings {
    /// The widest that the user wants output to be, within the hard bound.
    pub open spec fn user_cap(self) -> int {
        if self.output_max_width_columns == 0 {
            MAX_GRID_COLUMNS as int
        } else {
            min(self.output_max_width_columns as int, MAX_GRID_COLUMNS as int)
        }
    }

    /// The number of columns of the simulated grid.
    pub open spec fn grid_columns(self) -> int {
        min(max(self.max_columns as int, self.user_cap()), MAX_GRID_COLUMNS as int)
    }

    /// The number of lines of the simulated grid before it grows.
    pub open spec fn grid_lines(self) -> int {
        min(self.max_lines as int, MAX_GRID_LINES as int)
    }

    /// The number of lines of the simulated grid that shows a number of rows.
    pub open spec fn fitting_lines(self, rows: int) -> int {
        min(max(max(rows, self.max_lines as int), 1), MAX_GRID_LINES as int)
    }
}

impl TerminalBounds {
    /// The bounds of a grid of cells.
    pub open spec fn of_grid(
        self,
        columns: int,
        lines: int,
        cell_width: Pixels,
        line_height: Pixels,
    ) -> bool {
        &&& self.cell_width == cell_width
        &&& self.line_height == line_height
        &&& self.width.units == columns * cell_width.units
        &&& self.height.units == lines * line_height.units
    }

    /// The number of whole cells in the width.
    pub open spec fn columns(self) -> int {
        whole_cells(self.width.units as int, self.cell_width.units as int)
    }

    /// The number of whole cells in the height.
    pub open spec fn lines(self) -> int {
        whole_cells(self.height.units as int, self.line_height.units as int)
    }

    /// The number of columns of a grid that fills the width.
    pub fn num_columns(&self) -> (columns: usize)
        requires
            self.cell_width.units > 0,
        ensures
            columns == self.columns(),
    {
        count_cells(self.width, self.cell_width)
    }

    /// The number of lines of a grid that fills the height.
    pub fn num_lines(&self) -> (lines: usize)
        requires
            self.line_height.units > 0,
        ensures
            lines == self.lines(),
    {
        count_cells(self.height, self.line_height)
    }
}

/// The number of cells of a positive length that fit in an extent, as far as it can be
/// counted.
pub open spec fn whole_cells(extent: int, cell: int) -> int {
    if extent < 0 {
        0
    } else {
        min(extent / cell, usize::MAX as int)
    }
}

fn count_cells(extent: Extent, cell: Pixels) -> (cells: usize)
    requires
        cell.units > 0,
    ensures
        cells == whole_cells(extent.units as int, cell.units as int),
{
    if extent.units < 0 {
        return 0;
    }
    let cells: u128 = extent.units as u128 / cell.units as u128;
    if cells > usize::MAX as u128 {
        usize::MAX
    } else {
        cells as usize
    }
}

/// The product of a number of cells and the length of one.
fn scale(cell: Pixels, count: usize) -> (extent: Extent)
    ensures
        extent.units == count * cell.units,
{
    proof {
        scale_fits(cell.units as int, count as int);
    }
    Extent { units: count as i128 * cell.units as i128 }
}

proof fn scale_fits(cell: int, count: int)
    by (nonlinear_arith)
    requires
        i64::MIN <= cell <= i64::MAX,
        i32::MIN <= count <= u64::MAX,
    ensures
        i128::MIN <= count * cell <= i128::MAX,
{
}

/// The bounds of a grid of cells.
pub fn grid_bounds(
    columns: usize,
    lines: usize,
    cell_width: Pixels,
    line_height: Pixels,
) -> (bounds: TerminalBounds)
    ensures
        bounds.of_grid(columns as int, lines as int, cell_width, line_height),
{
    TerminalBounds {
        cell_width,
        line_height,
        width: scale(cell_width, columns),
        height: scale(line_height, lines),
    }
}

/// The size of the terminal that an output starts with.
///
/// It is wide enough that wide output is not wrapped by the emulator before it can be shown.
/// A change of the width while output arrives would corrupt tables drawn with box-drawing
/// characters, so the columns are allocated up to the user's or the hard bound beforehand.
pub fn terminal_size(
    settings: &ReplSettings,
    cell_width: Pixels,
    line_height: Pixels,
) -> (bounds: TerminalBounds)
    ensures
        bounds.of_grid(settings.grid_columns(), settings.grid_lines(), cell_width, line_height),
{
    let user_cap: usize = if settings.output_max_width_columns == 0 {
        MAX_GRID_COLUMNS
    } else if settings.output_max_width_columns < MAX_GRID_COLUMNS {
        settings.output_max_width_columns
    } else {
        MAX_GRID_COLUMNS
    };
    let wanted: usize = if settings.max_columns > user_cap {
        settings.max_columns
    } else {
        user_cap
    };
    let columns: usize = if wanted < MAX_GRID_COLUMNS {
        wanted
    } else {
        MAX_GRID_COLUMNS
    };
    let lines: usize = if settings.max_lines < MAX_GRID_LINES {
        settings.max_lines
    } else {
        MAX_GRID_LINES
    };
    grid_bounds(columns, lines, cell_width, line_height)
}

/// The width of a number of columns, `None` if there is none.
pub fn max_width_for_columns(columns: usize, cell_width: Pixels) -> (width: Option<Extent>)
    ensures
        width is None <==> columns == 0,
        width is Some ==> width->0.units == columns * cell_width.units,
{
    if columns == 0 {
        None
    } else {
        Some(scale(cell_width, columns))
    }
}

/// The number of lines that a grid is given to show a number of rows.
pub fn lines_to_fit(rows: usize, settings: &ReplSettings) -> (lines: usize)
    ensures
        lines == settings.fitting_lines(rows as int),
        1 <= lines <= MAX_GRID_LINES,
{
    let wanted: usize = if rows > settings.max_lines {
        rows
    } else {
        settings.max_lines
    };
    if wanted < 1 {
        1
    } else if wanted > MAX_GRID_LINES {
        MAX_GRID_LINES
    } else {
        wanted
    }
}

/// The number of the last line with a run, 0 if there is no run.
pub open spec fn last_line(runs: Seq<TextRun>) -> int
    decreases runs.len(),
{
    if runs.len() == 0 {
        0
    } else if runs.len() == 1 {
        runs[0].line as int
    } else {
        max(last_line(runs.drop_last()), runs.last().line as int)
    }
}

/// The number of the column behind the last one of all runs, 0 if there is no run.
pub open spec fn end_column(runs: Seq<TextRun>) -> int
    decreases runs.len(),
{
    if runs.len() == 0 {
        0
    } else {
        max(end_column(runs.drop_last()), runs.last().column + runs.last().cell_count)
    }
}

/// The size of a canvas for some runs: down to the last line with a run, and across to the
/// end of the run that reaches farthest.
pub fn canvas_size(
    runs: &Vec<TextRun>,
    cell_width: Pixels,
    line_height: Pixels,
) -> (canvas: CanvasSize)
    requires
        forall|i: int|
            0 <= i < runs.len() ==> (#[trigger] runs[i]).line < i32::MAX && runs[i].column
                + runs[i].cell_count <= usize::MAX,
    ensures
        canvas.height.units == (last_line(runs@) + 1) * line_height.units,
        canvas.width.units == end_column(runs@) * cell_width.units,
{
    let mut line: i32 = 0;
    let mut columns: usize = 0;
    let mut i: usize = 0;
    while i < runs.len()
        invariant
            i <= runs.len(),
            forall|i: int|
                0 <= i < runs.len() ==> (#[trigger] runs[i]).line < i32::MAX && runs[i].column
                    + runs[i].cell_count <= usize::MAX,
            line < i32::MAX,
            line == last_line(runs@.take(i as int)),
            columns == end_column(runs@.take(i as int)),
        decreases runs.len() - i,
    {
        assert(runs@.take(i + 1).drop_last() =~= runs@.take(i as int));
        let run: TextRun = runs[i];
        if i == 0 || run.line > line {
            line = run.line;
        }
        if run.column + run.cell_count > columns {
            columns = run.column + run.cell_count;
        }
        i = i + 1;
    }
    assert(runs@.take(i as int) =~= runs@);
    proof {
        scale_fits(line_height.units as int, line + 1);
    }
    CanvasSize {
        width: scale(cell_width, columns),
        height: Extent { units: (line + 1) as i128 * line_height.units as i128 },
    }
}

/// The grid that fills the bounds of a grid of cells has its size again.
pub proof fn bounds_give_back_grid(
    bounds: TerminalBounds,
    columns: int,
    lines: int,
    cell_width: Pixels,
    line_height: Pixels,
)
    requires
        0 <= columns <= usize::MAX,
        0 <= lines <= usize::MAX,
        cell_width.units > 0,
        line_height.units > 0,
        bounds.of_grid(columns, lines, cell_width, line_height),
    ensures
        bounds.columns() == columns,
        bounds.lines() == lines,
{
    cells_of_product(columns, cell_width.units as int);
    cells_of_product(lines, line_height.units as int);
}

proof fn cells_of_product(count: int, cell: int)
    by (nonlinear_arith)
    requires
        count >= 0,
        cell > 0,
    ensures
        count * cell >= 0,
        (count * cell) / cell == count,
{
}

/// The grid is never without columns, has no more than the hard bound, and within it a column
/// for each that is configured. Without a limit of the user it is as wide as the bound allows.
pub proof fn grid_columns_bounded(settings: ReplSettings)
    ensures
        1 <= settings.grid_columns() <= MAX_GRID_COLUMNS,
        settings.max_columns <= MAX_GRID_COLUMNS ==> settings.grid_columns()
            >= settings.max_columns,
        settings.output_max_width_columns == 0 ==> settings.grid_columns() == MAX_GRID_COLUMNS,
        settings.grid_lines() <= MAX_GRID_LINES,
{
}

/// The fitting number of lines shows the configured lines and all rows, up to the hard bound,
/// and does not get smaller when there are more rows.
pub proof fn fitting_lines_bounded(settings: ReplSettings, rows: int, more: int)
    requires
        0 <= rows <= more,
    ensures
        1 <= settings.fitting_lines(rows) <= MAX_GRID_LINES,
        rows <= MAX_GRID_LINES ==> settings.fitting_lines(rows) >= rows,
        settings.max_lines <= MAX_GRID_LINES ==> settings.fitting_lines(rows)
            >= settings.max_lines,
        settings.fitting_lines(rows) <= settings.fitting_lines(more),
{
}

/// No run lies outside of the canvas: its line is among those that the height counts, and its
/// cells among those that the width counts.
pub proof fn canvas_holds_runs(runs: Seq<TextRun>, i: int)
    requires
        0 <= i < runs.len(),
    ensures
        runs[i].line <= last_line(runs),
        runs[i].column + runs[i].cell_count <= end_column(runs),
    decreases runs.len(),
{
    if i < runs.len() - 1 {
        assert(runs.drop_last()[i] == runs[i]);
        canvas_holds_runs(runs.drop_last(), i);
    }
}

/// The canvas is no larger than its runs: some run stands on its last line, and some run
/// reaches its last column.
pub proof fn canvas_is_tight(runs: Seq<TextRun>)
    requires
        runs.len() > 0,
    ensures
        exists|i: int| 0 <= i < runs.len() && (#[trigger] runs[i]).line == last_line(runs),
        exists|i: int|
            0 <= i < runs.len() && (#[trigger] runs[i]).column + runs[i].cell_count == end_column(
                runs,
            ),
    decreases runs.len(),
{
    let last = runs.len() - 1;
    let before = runs.drop_last();
    if before.len() == 0 {
        assert(end_column(before) == 0);
        assert(runs[0].line == last_line(runs));
        assert(runs[0].column + runs[0].cell_count == end_column(runs));
    } else {
        canvas_is_tight(before);
        let i = choose|i: int|
            0 <= i < before.len() && (#[trigger] before[i]).line == last_line(before);
        let j = choose|j: int|
            0 <= j < before.len() && (#[trigger] before[j]).column + before[j].cell_count
                == end_column(before);
        assert(runs[i] == before[i] && runs[j] == before[j]);
        assert(runs[last] == runs.last());
    }
}

} // verus!

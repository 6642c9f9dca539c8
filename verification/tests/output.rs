use alacritty_terminal::event::VoidListener;
use alacritty_terminal::grid::Dimensions;
use alacritty_terminal::index::{Column, Line, Point};
use alacritty_terminal::term::cell::Flags;
use alacritty_terminal::Term;
use repl::cell::{LEADING_WIDE_CHAR_SPACER, WIDE_CHAR_SPACER};
use repl::geometry::{Pixels, ReplSettings, MAX_GRID_COLUMNS, MAX_GRID_LINES};
use repl::output::{Capability, TerminalOutput};

const CELL_WIDTH: Pixels = Pixels { units: 140928614 };
const LINE_HEIGHT: Pixels = Pixels { units: 285212672 };
const NO_LENGTH: Pixels = Pixels { units: 0 };

fn default_settings() -> ReplSettings {
    ReplSettings { max_lines: 32, max_columns: 128, output_max_width_columns: 0 }
}

fn small_settings(max_lines: usize, columns: usize) -> ReplSettings {
    ReplSettings { max_lines, max_columns: columns, output_max_width_columns: columns }
}

fn new_output() -> TerminalOutput {
    TerminalOutput::new(&default_settings(), CELL_WIDTH, LINE_HEIGHT)
}

fn output_of(text: &str) -> TerminalOutput {
    TerminalOutput::from(text, &default_settings(), CELL_WIDTH, LINE_HEIGHT)
}

fn small_output(text: &str, max_lines: usize, columns: usize) -> TerminalOutput {
    TerminalOutput::from(text, &small_settings(max_lines, columns), CELL_WIDTH, LINE_HEIGHT)
}

fn rows_of(terminal: &Term<VoidListener>) -> Vec<String> {
    let mut rows = Vec::new();
    let mut line = terminal.topmost_line().0;
    while line <= terminal.bottommost_line().0 {
        let start = Point::new(Line(line), Column(0));
        let end = Point::new(Line(line), terminal.last_column());
        rows.push(terminal.bounds_to_string(start, end));
        line += 1;
    }
    rows
}

/// The character, the number of characters without a width and the flags of each cell.
fn cells_of(terminal: &Term<VoidListener>) -> Vec<Vec<(char, usize, u16)>> {
    let mut rows = Vec::new();
    let mut line = terminal.topmost_line().0;
    while line <= terminal.bottommost_line().0 {
        let mut row = Vec::new();
        for column in 0..terminal.columns() {
            let cell = &terminal.grid()[Line(line)][Column(column)];
            let zero_width = cell.zerowidth().map_or(0, |chars| chars.len());
            row.push((cell.c, zero_width, cell.flags.bits()));
        }
        rows.push(row);
        line += 1;
    }
    rows
}

#[test]
fn test_measure_content_empty_output_reports_zero() {
    let output = new_output();
    let (max_cols, line_count) = output.measure_content();
    assert_eq!(max_cols, 0);
    assert_eq!(line_count, 0);
}

#[test]
fn test_measure_content_single_line_reports_visible_length() {
    let mut output = new_output();
    output.append_text("hello");
    let (max_cols, line_count) = output.measure_content();
    assert_eq!(max_cols, "hello".len());
    assert_eq!(line_count, 1);
}

#[test]
fn test_measure_content_multi_line_takes_max_width() {
    let mut output = new_output();
    // Three lines of lengths 3, 5, 2.
    output.append_text("aaa\nbbbbb\ncc");
    let (max_cols, line_count) = output.measure_content();
    assert_eq!(max_cols, 5);
    assert_eq!(line_count, 3);
}

#[test]
fn test_ensure_grid_fits_grows_for_taller_content() {
    let starting_lines = new_output().screen_lines();
    let mut output = new_output();
    // Append more lines than the default `max_lines` (32) so the grid has to grow vertically
    // to avoid scrollback truncation.
    let many_lines = "x\n".repeat(60);
    output.append_text(&many_lines);
    output.ensure_grid_fits(CELL_WIDTH, LINE_HEIGHT, &default_settings());
    let after_lines = output.screen_lines();
    assert!(
        after_lines > starting_lines,
        "expected grid to grow vertically (was {starting_lines}, now {after_lines})"
    );
}

#[test]
fn test_ensure_grid_fits_respects_safety_cap() {
    let mut output = new_output();
    // Try to push the grid well past the safety cap; the resize must refuse to allocate more
    // than MAX_GRID_COLUMNS columns.
    for _ in 0..5 {
        output.append_text(&"a".repeat(MAX_GRID_COLUMNS * 4));
        output.ensure_grid_fits(CELL_WIDTH, LINE_HEIGHT, &default_settings());
    }
    let columns_after = output.columns();
    assert!(
        columns_after <= MAX_GRID_COLUMNS,
        "grid grew past safety cap: {columns_after} > {MAX_GRID_COLUMNS}"
    );
}

#[test]
fn flags_are_those_of_the_emulator() {
    assert_eq!(WIDE_CHAR_SPACER, Flags::WIDE_CHAR_SPACER.bits());
    assert_eq!(LEADING_WIDE_CHAR_SPACER, Flags::LEADING_WIDE_CHAR_SPACER.bits());
}

#[test]
fn new_output_has_no_text() {
    let output = new_output();
    assert!(output.is_readable());
    assert_eq!(output.columns(), MAX_GRID_COLUMNS);
    assert_eq!(output.screen_lines(), 32);
    assert_eq!(output.full_text(), "");
    assert_eq!(rows_of(output.terminal()), vec![String::new(); 32]);
}

#[test]
fn output_without_lines_has_no_text() {
    let output = TerminalOutput::new(&small_settings(0, 4), CELL_WIDTH, LINE_HEIGHT);
    assert!(output.is_readable());
    assert_eq!(output.screen_lines(), 0);
    assert_eq!(output.measure_content(), (0, 0));
    assert_eq!(output.full_text(), "");
    let mut output = output;
    output.append_text("");
    output.ensure_grid_fits(NO_LENGTH, LINE_HEIGHT, &default_settings());
    assert_eq!(output.screen_lines(), 0);
}

#[test]
fn text_in_two_pieces_makes_a_single_output() {
    let mut output = new_output();
    output.append_text("Hello,");
    output.append_text(" world!");
    assert_eq!(output.full_text(), "Hello, world!\n");
    assert_eq!(output.measure_content(), (13, 1));
}

#[test]
fn text_in_pieces_of_any_size_makes_the_same_output() {
    let text = "a\u{e9}\u{3042}\n\x1b[31mred\x1b[0m\tb\r\nlast\x1b]0;title\x07 line";
    let whole = output_of(text);
    for at in 0..=text.len() {
        if text.is_char_boundary(at) {
            let mut output = output_of(&text[..at]);
            output.append_text(&text[at..]);
            assert_eq!(rows_of(output.terminal()), rows_of(whole.terminal()));
        }
    }
    assert_eq!(whole.full_text(), "a\u{e9}\u{3042}\nred\tb\nlast line\n");
}

#[test]
fn line_feed_goes_to_the_start_of_the_next_line() {
    let output = output_of("ab\ncd\n\nef");
    assert_eq!(&rows_of(output.terminal())[..5], ["ab", "cd", "", "ef", ""]);
    assert_eq!(output.full_text(), "ab\ncd\nef\n");
}

#[test]
fn escape_sequences_are_obeyed() {
    assert_eq!(output_of("abc\rX").full_text(), "Xbc\n");
    assert_eq!(output_of("abc\x1b[2DY").full_text(), "aYc\n");
    assert_eq!(output_of("abc\x1b[2K").full_text(), "");
    assert_eq!(output_of("50%\r100%\n").full_text(), "100%\n");
}

#[test]
fn text_is_read_with_the_scrollback() {
    let mut text = String::new();
    for i in 0..100 {
        text.push_str(&format!("line {i}  \n"));
    }
    let output = output_of(&text);
    assert_eq!(output.screen_lines(), 32);
    assert_eq!(output.measure_content(), (7, 100));
    let lines: Vec<String> = output.full_text().lines().map(|line| line.to_string()).collect();
    let expected: Vec<String> = (0..100).map(|i| format!("line {i}")).collect();
    assert_eq!(lines, expected);
}

#[test]
fn scrollback_is_limited() {
    let mut output = small_output("", 4, 10);
    for _ in 0..100 {
        output.append_text(&"x\n".repeat(200));
    }
    assert_eq!(output.measure_content(), (1, 10003));
}

#[test]
fn scrollback_holds_as_many_rows_as_it_may() {
    let line = |i: usize| format!("{i}\n");
    let text: String = (0..10003).map(line).collect();
    let mut output = small_output(&text, 4, 10);
    assert_eq!(output.full_text(), text);
    output.append_text("end\n");
    let rest: String = (1..10003).map(line).collect();
    assert_eq!(output.full_text(), rest + "end\n");
}

#[test]
fn long_lines_are_wrapped() {
    let output = small_output("abcdefghij", 5, 4);
    assert_eq!(output.full_text(), "abcd\nefgh\nij\n");
    assert_eq!(output.measure_content(), (4, 3));
    let output = small_output("ab  cd \nefgh\n", 6, 4);
    assert_eq!(rows_of(output.terminal()), ["ab  ", "cd", "efgh", "", "", ""]);
    let output = output_of(&"a".repeat(MAX_GRID_COLUMNS * 4));
    assert_eq!(output.measure_content(), (MAX_GRID_COLUMNS, 4));
}

#[test]
fn new_output_is_within_the_hard_bounds() {
    let settings =
        ReplSettings { max_lines: 5000, max_columns: 2000, output_max_width_columns: 0 };
    let output = TerminalOutput::new(&settings, CELL_WIDTH, LINE_HEIGHT);
    assert_eq!(output.screen_lines(), MAX_GRID_LINES);
    assert_eq!(output.columns(), MAX_GRID_COLUMNS);
}

#[test]
fn fitting_shows_every_row() {
    let mut output = output_of(&"x\n".repeat(60));
    assert_eq!(output.terminal().total_lines(), 61);
    output.ensure_grid_fits(CELL_WIDTH, LINE_HEIGHT, &default_settings());
    assert_eq!(output.screen_lines(), 61);
    assert_eq!(output.terminal().total_lines(), 61);
    assert_eq!(output.columns(), MAX_GRID_COLUMNS);
    assert_eq!(output.measure_content(), (1, 60));
}

#[test]
fn fitting_shows_blank_rows_too() {
    let mut output = output_of(&"x\n\n".repeat(60));
    output.ensure_grid_fits(CELL_WIDTH, LINE_HEIGHT, &default_settings());
    assert_eq!(output.screen_lines(), 121);
    assert_eq!(output.terminal().total_lines(), 121);
    assert_eq!(output.full_text(), "x\n".repeat(60));
}

#[test]
fn fitting_stops_at_the_hard_bound() {
    let mut output = small_output(&"x\n".repeat(5000), 4, 4);
    output.ensure_grid_fits(CELL_WIDTH, LINE_HEIGHT, &default_settings());
    assert_eq!(output.screen_lines(), MAX_GRID_LINES);
    assert_eq!(output.columns(), 4);
    assert_eq!(output.measure_content(), (1, 5000));
}

#[test]
fn fitting_waits_for_cells_with_a_size() {
    let mut output = output_of(&"x\n".repeat(60));
    output.ensure_grid_fits(NO_LENGTH, LINE_HEIGHT, &default_settings());
    assert_eq!(output.screen_lines(), 32);
    output.ensure_grid_fits(CELL_WIDTH, Pixels { units: -1 }, &default_settings());
    assert_eq!(output.screen_lines(), 32);
}

#[test]
fn fitting_never_takes_lines_away() {
    for max_lines in [0usize, 1, 5, 32] {
        let mut output = output_of("a\nb\n");
        output.ensure_grid_fits(CELL_WIDTH, LINE_HEIGHT, &small_settings(max_lines, 4));
        assert_eq!(output.screen_lines(), 32);
        assert_eq!(output.full_text(), "a\nb\n");
    }
}

#[test]
fn growing_keeps_every_row() {
    let mut texts: Vec<String> = vec![
        String::new(),
        "a\n\nb\n".to_string(),
        "row\n".repeat(3),
        "row\n\n".repeat(40),
        "x".repeat(500),
        // Rows left over from a scrollback that was cleared.
        "stale\n".repeat(1500) + "\x1b[3J" + "kept\n\nkept",
        // The whole terminal was cleared, or reset.
        "stale\n".repeat(300) + "\x1b[2Jnew",
        "stale\n".repeat(300) + "\x1bcnew",
        // The alternate screen has no scrollback.
        "main\n".repeat(50) + "\x1b[?1049h" + &"other\n".repeat(50),
        // A colored background, which cleared rows take over.
        "\x1b[41mred\n".repeat(60) + "\x1b[2Kend",
        "\x1b[2;3r".to_string() + &"region\n".repeat(50),
        "\x1b[1;4mbold\n".repeat(60) + "\x1b[0m\x1b[1@\x1b[2L",
        "e\u{301}\u{302}\n \u{301}\n".repeat(30),
        "tab\tstop\n\u{3042}\u{3044}\u{3046}\u{3048}\u{304a}\n".repeat(20),
    ];
    let mut long = String::new();
    for i in 0..200 {
        long.push_str(&format!("{i}\n"));
    }
    texts.push(long.clone() + "\x1b[5A\x1b[3Mcut");
    texts.push(long);
    for text in texts {
        for wanted in [4usize, 5, 7, 20, 63, 64, 500, 2000, 4096] {
            let mut output = small_output(&text, 4, 9);
            assert!(output.is_readable());
            let before = rows_of(output.terminal());
            let cells = cells_of(output.terminal());
            let measure = output.measure_content();
            let full_text = output.full_text();
            let settings = small_settings(wanted, 9);
            output.ensure_grid_fits(CELL_WIDTH, LINE_HEIGHT, &settings);

            let lines = output.screen_lines();
            assert_eq!(lines, wanted.max(before.len()).min(MAX_GRID_LINES));
            let mut expected = before.clone();
            while expected.len() < lines {
                expected.push(String::new());
            }
            assert_eq!(rows_of(output.terminal()), expected);
            let mut expected_cells = cells;
            while expected_cells.len() < lines {
                expected_cells.push(vec![(' ', 0, 0); 9]);
            }
            assert!(cells_of(output.terminal()) == expected_cells);
            assert!(output.is_readable());
            assert_eq!(output.full_text(), full_text);
            assert_eq!(output.measure_content(), measure);

            output.ensure_grid_fits(CELL_WIDTH, LINE_HEIGHT, &settings);
            assert_eq!(output.screen_lines(), lines);
            assert_eq!(rows_of(output.terminal()), expected);
        }
    }
}

#[test]
fn size_survives_every_escape_sequence() {
    let sequences = [
        "\x1b[?3h", "\x1b[?3l", "\x1b[?1049h", "\x1b[?1049l", "\x1bc", "\x1b[8;10;20t",
        "\x1b[2;3r", "\x1b[100S", "\x1b[100T", "\x1b[?2026habc\x1b[?2026l", "\x1b#8", "\x1b[99L",
        "\x1b[99M", "\x1b[99P", "\x1b[99@", "\x1b[3J",
    ];
    let mut output = small_output("start\n", 4, 9);
    for first in sequences {
        for second in sequences {
            output.append_text(first);
            output.append_text("text\n");
            output.append_text(second);
            assert_eq!(output.columns(), 9);
            assert_eq!(output.screen_lines(), 4);
        }
    }
}

#[test]
fn half_a_character_at_the_start_of_a_row_cannot_be_read() {
    let output = output_of("\u{3042}b\r\x1b[P");
    assert!(!output.is_readable());
    assert_eq!(output.checked_full_text(), None);
}

#[test]
fn topmost_row_without_room_for_its_character_cannot_be_read() {
    let output = small_output("abc\u{3042}", 5, 4);
    assert!(!output.is_readable());
    assert_eq!(output.checked_full_text(), None);
}

#[test]
fn other_row_without_room_for_its_character_can_be_read() {
    let output = small_output("x\nabc\u{3042}", 5, 4);
    assert!(output.is_readable());
    assert_eq!(output.measure_content(), (3, 3));
    // The emulator shows the first character of the row above in place of the spacer.
    assert_eq!(output.full_text(), "x\nabcx\n\u{3042}\n");
}

#[test]
fn fullwidth_characters_can_be_read() {
    let output = small_output("ab\u{3042}\u{3044}", 5, 4);
    assert!(output.is_readable());
    assert_eq!(output.checked_full_text(), Some("ab\u{3042}\n\u{3044}\n".to_string()));
}

#[test]
fn rows_are_measured_in_cells() {
    assert_eq!(output_of("\u{65e5}\u{672c}").measure_content(), (4, 1));
    assert_eq!(output_of("\u{65e5}\u{672c}  \nabc").measure_content(), (4, 2));
    assert_eq!(output_of("e\u{301}e\u{301}").measure_content(), (2, 1));
    assert_eq!(output_of("a \u{301} ").measure_content(), (2, 1));
    assert_eq!(output_of("a\tb").measure_content(), (9, 1));
}

#[test]
fn clipboard_gets_the_full_text() {
    let output = output_of("a  \n\n b\n");
    assert!(output.has_clipboard_content());
    assert_eq!(output.clipboard_content(), Some("a\n b\n".to_string()));
    assert_eq!(new_output().clipboard_content(), Some(String::new()));
}

#[test]
fn buffer_starts_with_the_full_text() {
    let mut output = output_of("a  \n\n b\n");
    assert!(output.has_buffer_content());
    let buffer = output.buffer_content().unwrap();
    assert_eq!(buffer.text, "a\n b\n");
    assert_eq!(buffer.capability, Capability::ReadOnly);
}

#[test]
fn buffer_is_kept_up_to_date() {
    let mut output = output_of("Hello,");
    assert_eq!(output.buffer_content().unwrap().text, "Hello,\n");
    output.append_text(" world!");
    assert_eq!(output.buffer_content().unwrap().text, "Hello, world!\n");
    output.append_text("\n\nc  \n");
    output.append_text("");
    output.append_text("\x1b[1md\n");
    let buffer = output.buffer_content().unwrap();
    assert_eq!(buffer.text, "Hello, world!\nc\nd\n");
    assert_eq!(buffer.capability, Capability::ReadOnly);
    output.ensure_grid_fits(CELL_WIDTH, LINE_HEIGHT, &small_settings(60, 4));
    let full_text = output.full_text();
    assert_eq!(output.buffer_content().unwrap().text, full_text);
}

#[test]
fn buffer_gets_text_as_it_is_while_the_output_cannot_be_read() {
    let mut output = output_of("x\n");
    output.buffer_content();
    output.append_text("\u{3042}b\r\x1b[P");
    assert!(!output.is_readable());
    assert_eq!(output.buffer_content().unwrap().text, "x\n\u{3042}b\r\x1b[P");
    output.append_text("\x1b[2K\ry");
    assert!(output.is_readable());
    assert_eq!(output.buffer_content().unwrap().text, "x\ny\n");
}

#[test]
fn buffer_makes_no_difference_to_the_terminal() {
    let mut open = output_of("a\n");
    open.buffer_content();
    let mut closed = output_of("a\n");
    for output in [&mut open, &mut closed] {
        output.append_text(&"b\nc".repeat(40));
        output.ensure_grid_fits(CELL_WIDTH, LINE_HEIGHT, &default_settings());
    }
    assert_eq!(rows_of(open.terminal()), rows_of(closed.terminal()));
    assert_eq!(open.screen_lines(), closed.screen_lines());
}

#[test]
fn plain_lines_are_read_back() {
    let lines = ["first", "  indented", "a  b", "#!", "~"];
    for count in 0..=lines.len() {
        let mut text = String::new();
        for line in &lines[..count] {
            text.push_str(line);
            text.push('\n');
        }
        let output = output_of(&text);
        assert!(output.is_readable());
        assert_eq!(output.full_text(), text);
        assert_eq!(output.measure_content().1, count);
    }
    assert_eq!(output_of("Hello, world!").full_text(), "Hello, world!\n");
    assert_eq!(output_of("Hello, world!").measure_content(), (13, 1));
    let table = "\u{250c}\u{2500}\u{2510}\n\u{2502}\u{e9}\u{2502}\n\u{2514}\u{2500}\u{2518}\n";
    assert_eq!(output_of(table).full_text(), table);
    assert_eq!(output_of(table).measure_content(), (3, 3));
}

#[test]
fn typed_rows_are_the_lines_without_spaces_at_their_end() {
    let output = small_output("abcd\n  \nx y \n", 6, 4);
    assert_eq!(rows_of(output.terminal()), ["abcd", "", "x y", "", "", ""]);
}

#[test]
fn printable_characters_take_one_cell() {
    let ranges = [
        (' ', '~'),
        ('\u{a1}', '\u{ac}'),
        ('\u{ae}', '\u{2ff}'),
        ('\u{391}', '\u{3a1}'),
        ('\u{3a3}', '\u{482}'),
        ('\u{48a}', '\u{52f}'),
        ('\u{2010}', '\u{2027}'),
        ('\u{2190}', '\u{22ff}'),
        ('\u{2500}', '\u{259f}'),
    ];
    for (first, last) in ranges {
        for ch in first..=last {
            let mut output = small_output(&format!("<{ch}>{ch}{ch}>"), 4, 4);
            assert_eq!(output.full_text(), format!("<{ch}>{ch}\n{ch}>\n").replace(" \n", "\n"));
            output.append_text(&format!("{ch}|"));
            assert_eq!(rows_of(output.terminal())[1], format!("{ch}>{ch}|"));
        }
    }
}

/// The rows of a terminal on which a text has been typed.
fn rows_typed(text: &str, columns: usize, screen_lines: usize) -> Vec<String> {
    let mut rows = Vec::new();
    for line in text.replace('\r', "").split('\n') {
        let line: Vec<char> = line.chars().collect();
        let mut rest = &line[..];
        while rest.len() > columns {
            rows.push(rest[..columns].iter().collect());
            rest = &rest[columns..];
        }
        let last: String = rest.iter().collect();
        rows.push(last.trim_end_matches(' ').to_string());
    }
    while rows.len() < screen_lines {
        rows.push(String::new());
    }
    rows
}

#[test]
fn plain_text_is_typed_in_rows() {
    let characters =
        ["a", " ", "\n", "Z", "\u{e9}", " ", "\u{2502}", "\u{416}", "~", "\r\n"];
    let mut seed: u64 = 1;
    let mut random = move |bound: usize| -> usize {
        seed = seed.wrapping_mul(6364136223846793005).wrapping_add(1442695040888963407);
        (seed >> 33) as usize % bound
    };
    for _ in 0..400 {
        let columns = 1 + random(6);
        let mut settings = small_settings(1 + random(6), columns);
        let mut output = TerminalOutput::new(&settings, CELL_WIDTH, LINE_HEIGHT);
        let mut text = String::new();
        for _ in 0..1 + random(6) {
            let mut piece = String::new();
            for _ in 0..random(40) {
                piece.push_str(characters[random(characters.len())]);
            }
            output.append_text(&piece);
            text.push_str(&piece);
            if random(2) == 0 {
                settings.max_lines = random(30);
                output.ensure_grid_fits(CELL_WIDTH, LINE_HEIGHT, &settings);
            }
            assert!(output.is_readable());
            let rows = rows_typed(&text, columns, output.screen_lines());
            assert_eq!(rows_of(output.terminal()), rows);
            let lines: Vec<&str> =
                rows.iter().map(|row| row.trim_end()).filter(|row| !row.is_empty()).collect();
            let full: String = lines.iter().map(|line| format!("{line}\n")).collect();
            assert_eq!(output.full_text(), full);
            let width = lines.iter().map(|line| line.chars().count()).max().unwrap_or(0);
            assert_eq!(output.measure_content(), (width, lines.len()));
        }
    }
}

#[test]
fn typed_lines_survive_every_size() {
    for count in [1usize, 2, 3, 4, 5, 9, 40] {
        let lines: Vec<String> = (0..count).map(|i| format!("{i}")).collect();
        let text = lines.join("\n") + "\n";
        for sizes in [[1usize, 2, 3], [3, 1, 50], [60, 4, 41], [5, 5, 1], [2, 100, 1]] {
            let mut output = small_output(&text, 4, 5);
            let mut output_lines = 4;
            for size in sizes {
                output.ensure_grid_fits(CELL_WIDTH, LINE_HEIGHT, &small_settings(size, 5));
                let screen_lines = size.max(count + 1).max(output_lines);
                output_lines = screen_lines;
                assert_eq!(output.screen_lines(), screen_lines);
                let mut rows = lines.clone();
                rows.push(String::new());
                while rows.len() < screen_lines {
                    rows.push(String::new());
                }
                assert_eq!(rows_of(output.terminal()), rows);
                assert_eq!(output.full_text(), text);
            }
            output.append_text("more\n");
            assert_eq!(output.full_text(), format!("{text}more\n"));
        }
    }
}

#[test]
fn grid_grows_whatever_is_done_no_further_than_the_hard_bound() {
    let mut output = small_output("", 2, 4);
    for step in 0..30 {
        output.append_text(&"y\n".repeat(step * 20));
        output.ensure_grid_fits(CELL_WIDTH, LINE_HEIGHT, &small_settings(step, 9));
        output.buffer_content();
        assert_eq!(output.columns(), 4);
        assert!(output.screen_lines() <= MAX_GRID_LINES);
    }
    assert_eq!(output.screen_lines(), MAX_GRID_LINES);
}

#[test]
fn colors_that_fit_are_accepted() {
    let mut output = new_output();
    let zeros = "0".repeat(48);
    let more = "0".repeat(51);
    let hash = "0123456789abcdef".repeat(4);
    for text in [
        "\x1b]4;1;#ff0000\x07".to_string(),
        "\x1b]10;#ffffff;#000000\x1b\\".to_string(),
        format!("\x1b]11;#{}\x07", &zeros[..46]),
        format!("\x1b]11;#{zeros}\x07"),
        format!("\x1b]4;1;#{zeros};2;#{zeros}\x07"),
        format!("\x1b]8;;#{hash}\x07"),
        format!("\x1b]0;#{hash}\x07"),
        format!("\x1b]104;#{hash}\x07"),
        format!("\x1b]10;rgb:#{hash}\x07"),
        // What is no number is no color.
        format!("\x1b]10;#{}\x07", "z".repeat(100)),
        format!("\x1b]10;#{hash}{hash}\x07"),
        // Parameters that are not read as colors.
        format!("\x1b]4;#{more};1\x07"),
        format!("\x1b]4;1;#{more};2\x07"),
        format!("\x1b]4;256;#{more}\x07"),
        format!("\x1b]12;?;#{more}\x07"),
        format!("#{hash} plain\n"),
        // A color that never ends.
        format!("\x1b]10;#{more}"),
    ] {
        assert!(output.accepts_text(&text), "{text:?}");
        output.append_text(&text);
    }
    assert_eq!(output.full_text(), format!("#{hash} plain\n"));
}

#[test]
fn colors_that_overflow_are_not_accepted() {
    let output = new_output();
    for digits in [47usize, 49, 50, 51, 100] {
        let zeros = "0".repeat(digits);
        for text in [
            format!("\x1b]4;1;#{zeros}\x07"),
            format!("\x1b]10;#{zeros}\x07"),
            format!("\x1b]11;?;#{zeros}\x18"),
            format!("\x1b\n]12;\x01#{zeros}\x1b\\"),
            format!("\x1b]10;#{zeros};x\x1a"),
            format!("\x1b[?2026h\x1b]10;#{zeros}\x07\x1b[?2026l"),
        ] {
            assert!(!output.accepts_text(&text), "{text:?}");
        }
    }
}

#[test]
fn accepted_commands_do_not_overflow() {
    let pieces = [
        "4;", "10;", "11;", "12;", "1;", "255;", "256;", "?;", "#", "#", "0", "f", "F", "+", "z",
        "rgb:", ";", "0000000000000000", "000000000000000", "00000000000000000", "ffffffffffffffff",
    ];
    let mut seed: u64 = 7;
    let mut random = move |bound: usize| -> usize {
        seed = seed.wrapping_mul(6364136223846793005).wrapping_add(1442695040888963407);
        (seed >> 33) as usize % bound
    };
    let mut output = small_output("", 4, 9);
    let mut refused = 0;
    for _ in 0..30000 {
        let mut text = "\x1b]".to_string();
        text.push_str(pieces[random(4)]);
        for _ in 0..random(9) {
            text.push_str(pieces[random(pieces.len())]);
        }
        text.push_str(["\x07", "\x18", "\x1a", "\x1b\\"][random(4)]);
        if output.accepts_text(&text) {
            output.append_text(&text);
        } else {
            refused += 1;
        }
    }
    assert!(refused > 0);
}

#[test]
fn color_in_two_pieces_is_as_long_as_the_whole() {
    let mut output = new_output();
    output.append_text("\x1b]10;#000000000000000000000000");
    assert!(output.accepts_text("000000000000000000000000\x07"));
    assert!(!output.accepts_text("00000000000000000000000\x07"));
    assert!(!output.accepts_text("0000000000000000000000000\x07"));
    assert!(output.accepts_text("0000000000000000000000000"));
    output.append_text("\x07");
    assert!(output.accepts_text("0000000000000000000000000\x07"));
}

#[test]
fn text_without_escape_is_accepted() {
    let output = output_of("a\nb");
    assert!(output.accepts_text("\u{e9}\u{1f600}\u{9b}\u{9d}10;#\n\t\r\x07"));
    assert!(output.accepts_text(&("]10;#".to_string() + &"0".repeat(100))));
}

#[test]
fn narrow_characters_fit_in_one_column() {
    for code in 1..0x1100u32 {
        let ch = char::from_u32(code).unwrap();
        let text = format!("a{ch}b{ch}{ch}");
        let mut output = small_output("", 3, 1);
        assert!(output.accepts_text(&text));
        output.append_text(&text);
        assert!(output.is_readable());
    }
}

#[test]
fn one_column_has_room_for_narrow_characters() {
    let mut output = small_output("a\n", 3, 1);
    assert_eq!(output.columns(), 1);
    assert!(output.accepts_text("bc\u{e9}\r\n\n \u{2502}"));
    output.append_text("bc\u{e9}\r\n\n \u{2502}");
    assert_eq!(output.full_text(), "a\nb\nc\n\u{e9}\n\u{2502}\n");
    assert_eq!(output.measure_content(), (1, 5));
    assert!(output.accepts_text("\x1b[mx\t\u{5d0}"));
    assert!(!output.accepts_text("\u{3042}"));
    assert!(output.accepts_text(""));
    output.append_text("\x1b[2J\x1b[Hx\t\u{301}\u{5d0}\x1b[5@\x1b[3P\x1b[2Sy");
    let rows = rows_of(output.terminal());
    output.ensure_grid_fits(CELL_WIDTH, LINE_HEIGHT, &default_settings());
    assert_eq!(rows_of(output.terminal())[..rows.len()], rows[..]);
    let empty = TerminalOutput::new(&small_settings(0, 4), CELL_WIDTH, LINE_HEIGHT);
    assert!(empty.accepts_text(""));
    assert!(!empty.accepts_text("a"));
}

#[test]
fn carriage_returns_before_line_feeds_make_no_difference() {
    for text in ["a\nb\n", "\n\nx y\n\n", "abcd\nabcdefgh\ni"] {
        let without = small_output(text, 3, 4);
        let with = small_output(&text.replace('\n', "\r\n"), 3, 4);
        assert_eq!(rows_of(with.terminal()), rows_of(without.terminal()));
        assert_eq!(with.full_text(), without.full_text());
        assert_eq!(with.measure_content(), without.measure_content());
    }
}

/// Some text with escape sequences of all kinds.
fn wild_text(random: &mut dyn FnMut(usize) -> usize) -> String {
    let finals = b"@ABCDEFGHIJKLMPSTXZ`abcdefghijklmnpqrstu";
    match random(14) {
        0 => "ab c".to_string(),
        1 => "\n".to_string(),
        2 => "\u{301}".to_string(),
        3 => "\t".to_string(),
        4 => "\x08".to_string(),
        5 => "\u{3042}".to_string(),
        6 => "\r\n\n".to_string(),
        7 => [
            "\x1bM", "\x1bD", "\x1bE", "\x1b7", "\x1b8", "\x1bc", "\x1b#8", "\x1bH", "\x0e",
            "\x0f", "\x1b(0", "\x1b)0", "\x0b", "\x1b", "\x1b[", "\x1b]0;", "\x1bP1", "\x1b_",
        ][random(18)]
        .to_string(),
        8 => {
            let mode = [1, 3, 5, 6, 7, 12, 25, 47, 1047, 1048, 1049, 2004, 2026, 2026][random(14)];
            format!("\x1b[?{}{}", mode, ["h", "l"][random(2)])
        }
        9 => format!("\x1b[{};{}{}", random(6), random(6), finals[random(finals.len())] as char),
        10 => {
            let count = [0, 1, 2, 3, 5, 99][random(6)];
            format!("\x1b[{count}{}", finals[random(finals.len())] as char)
        }
        11 => format!("\x1b[{}h\x1b[{}l", [4, 20][random(2)], [4, 20][random(2)]),
        12 => "\u{e9}   \u{3044}".to_string(),
        _ => "\x1b]8;;x\x07".to_string(),
    }
}

#[test]
fn line_feeds_act_alike_in_wild_text() {
    let mut seed: u64 = 3;
    let mut random = move |bound: usize| -> usize {
        seed = seed.wrapping_mul(6364136223846793005).wrapping_add(1442695040888963407);
        (seed >> 33) as usize % bound
    };
    for _ in 0..1500 {
        let columns = 2 + random(7);
        let lines = 1 + random(5);
        let mut without = small_output("", lines, columns);
        let mut with = small_output("", lines, columns);
        for _ in 0..40 {
            let text = wild_text(&mut random);
            without.append_text(&text);
            with.append_text(&text.replace('\n', "\r\n"));
            assert!(cells_of(with.terminal()) == cells_of(without.terminal()));
            assert_eq!(with.terminal().grid().cursor.point, without.terminal().grid().cursor.point);
            assert_eq!(with.checked_full_text(), without.checked_full_text());
        }
    }
}

#[test]
fn measure_and_text_agree_in_wild_text() {
    let mut seed: u64 = 11;
    let mut random = move |bound: usize| -> usize {
        seed = seed.wrapping_mul(6364136223846793005).wrapping_add(1442695040888963407);
        (seed >> 33) as usize % bound
    };
    for _ in 0..1500 {
        let columns = 2 + random(7);
        let lines = 1 + random(5);
        let mut output = small_output("", lines, columns);
        for _ in 0..40 {
            let text = wild_text(&mut random);
            output.append_text(&text);
            if !output.is_readable() {
                continue;
            }
            let (width, count) = output.measure_content();
            assert_eq!(width == 0, count == 0);
            let rows = rows_of(output.terminal());
            let mut all_printable = true;
            for row in &rows {
                assert!(!row.contains('\n'));
                let printable = row.chars().all(|ch| (' '..='~').contains(&ch));
                assert!(!printable || row.chars().count() <= columns);
                all_printable = all_printable && printable;
            }
            if all_printable {
                let full_text = output.full_text();
                assert_eq!(small_output(&full_text, lines, columns).full_text(), full_text);
            }
        }
    }
}

#[test]
fn row_may_show_the_row_above_in_place_of_a_spacer() {
    // The cells of the second row are blank, but the emulator shows the x of the first.
    let output = small_output("x\n   \u{3042}\x1b[H", 5, 4);
    assert!(output.is_readable());
    assert_eq!(rows_of(output.terminal())[1], "   x");
    assert_eq!(output.measure_content(), (2, 3));
}

#[test]
fn text_placed_by_escape_sequences_is_read_back() {
    let first = small_output("\x1b[3;3Hlow\x1b[1;2Hhigh\x1b[2;6Hx\x1b[2;1Hwrap it", 4, 6);
    let text = first.full_text();
    assert_eq!(text, " high\nwrap i\nt low\n");
    assert_eq!(small_output(&text, 4, 6).full_text(), text);
}

#[test]
fn full_text_makes_an_output_of_the_same_text() {
    for text in ["", "a", "a\n\n  b \nlonger than a row\n \n", "\u{2500}\u{e9}"] {
        let first = small_output(text, 3, 5).full_text();
        assert_eq!(small_output(&first, 3, 5).full_text(), first);
    }
}

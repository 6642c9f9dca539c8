//! The output of a REPL: text in a simulated terminal, which can also be opened in a buffer.

use crate::cell::{
    cells_width, cells_width_is_last_filled, one_cell_for_each_character, row_width, Cell,
    LEADING_WIDE_CHAR_SPACER, WIDE_CHAR_SPACER,
};
use crate::command::{
    colors_fit, colors_fit_before, no_command_without_escape, place_after_all, place_after_pieces,
    Command, Place,
};
use crate::emulator::{
    advance, advanced, all_lines, are_narrow, blank_rows, bytes_read, cell_at, cell_rows, columns,
    empty_rows, goes_on, grid_cells, grid_columns, grid_rows, grid_screen_lines,
    grid_scroll_limit, initial_term, is_input, is_narrow, is_printable, line_cells, line_readable,
    never_counts, new_parser, new_term, next_of, read_row, resize, resized, returned_once,
    rows_readable, screen_lines, shows_typed, stays_narrow, term_state, top_line, total_lines,
    typed, typed_rows, types, AnsiParser, MIN_COLUMNS, SCROLLBACK,
};
use crate::geometry::{
    bounds_give_back_grid, grid_bounds, lines_to_fit, terminal_size, Pixels, ReplSettings,
    TerminalBounds, MAX_GRID_COLUMNS, MAX_GRID_LINES,
};
use crate::plain::{
    are_clean_lines, are_printable, ascii_encoding, at_byte, code_goes_on, encode_utf8_concat,
    encode_utf8_push, encodes_input, encodes_narrow, input_has_no_escape, input_is_narrow,
    is_plain, lines_of, lines_with, narrow_in_pieces, next_byte, only_narrow, plain_is_input,
    printable_text_is_read_back, seen_bytes, shorter_text_fits, text_has_clean_lines,
    typed_lines_read_back, with_returns,
};
use crate::text::{
    content_rows, content_width, is_padding, join_rows, longest_content, longest_content_is_least,
    longest_line, measure_of_more_rows, measure_rows, no_text_in_empty_rows, numbers, rows_as_text,
    some_row_has_content, text_lines, text_of_more_rows, views, widths_of_lines, wrapped,
};
use alacritty_terminal::event::VoidListener;
use alacritty_terminal::Term;
use vstd::prelude::*;
use vstd::utf8::encode_utf8;

verus! {

/// What may be done to the text of a buffer.
#[derive(Clone, Copy, Debug, PartialEq, Eq, Structural)]
pub enum Capability {
    ReadWrite,
    ReadOnly,
}

/// The buffer in which an output is opened.
#[derive(Debug)]
pub struct TextBuffer {
    pub text: String,
    pub capability: Capability,
}

/// The parsing and keeping of text input, simulating a basic terminal.
///
/// It takes the standard output and standard error of a REPL, plain text content and error
/// tracebacks, with ANSI escape sequences for formatting and colors.
pub struct TerminalOutput {
    full_buffer: Option<TextBuffer>,
    /// Parser of the ANSI escape sequences in the input.
    parser: AnsiParser,
    /// Where in a command what the parser has been fed ends.
    command: Command,
    /// Whether all of the input is narrow characters.
    narrow: bool,
    /// The terminal that the parser acts on.
    handler: Term<VoidListener>,
}

/// What an output is: the bytes that its parser has been fed, the state and the size of its
/// terminal, whether all of its text is narrow characters, and the text of the buffer in which
/// it is opened.
#[verifier::ext_equal]
pub struct OutputState {
    pub bytes: Seq<u8>,
    pub term: Seq<int>,
    pub columns: int,
    pub screen_lines: int,
    pub narrow: bool,
    pub buffer: Option<Seq<char>>,
}

/// The byte that ends a line.
pub const LINE_FEED: u8 = 10;

/// The byte that takes the cursor to the start of a line.
pub const CARRIAGE_RETURN: u8 = 13;

/// The bytes that a terminal is fed for some bytes of text: a carriage return goes before
/// each line feed.
pub open spec fn terminal_bytes(bytes: Seq<u8>) -> Seq<u8>
    decreases bytes.len(),
{
    if bytes.len() == 0 {
        Seq::empty()
    } else if bytes.last() == LINE_FEED {
        terminal_bytes(bytes.drop_last()).push(CARRIAGE_RETURN).push(LINE_FEED)
    } else {
        terminal_bytes(bytes.drop_last()).push(bytes.last())
    }
}

/// The state of a terminal after its parser, which had been fed some bytes, was fed others one
/// by one.
pub open spec fn fed(read: Seq<u8>, term: Seq<int>, bytes: Seq<u8>) -> Seq<int>
    decreases bytes.len(),
{
    if bytes.len() == 0 {
        term
    } else {
        let before = fed(read, term, bytes.drop_last());
        advanced(read + bytes.drop_last(), before, bytes.last())
    }
}

/// The state of a terminal after its parser, which had been fed some bytes, was fed others one
/// by one, if it makes no difference to the parser how often a carriage return was repeated.
pub open spec fn fed_once(read: Seq<u8>, term: Seq<int>, bytes: Seq<u8>) -> Seq<int>
    decreases bytes.len(),
{
    if bytes.len() == 0 {
        term
    } else {
        let before = fed_once(read, term, bytes.drop_last());
        advanced(returned_once(read + bytes.drop_last()), before, bytes.last())
    }
}

impl OutputState {
    /// An output without text, on a grid of the given size.
    pub open spec fn initial(columns: int, screen_lines: int) -> OutputState {
        OutputState {
            bytes: Seq::empty(),
            term: initial_term(columns, screen_lines),
            columns,
            screen_lines,
            narrow: true,
            buffer: None,
        }
    }

    /// The text of the rows of the terminal, scrollback included, oldest first.
    pub open spec fn rows(self) -> Seq<Seq<char>> {
        grid_rows(self.term, self.columns, self.screen_lines)
    }

    /// The cells of the rows of the terminal, scrollback included, oldest first.
    pub open spec fn cells(self) -> Seq<Seq<Cell>> {
        cell_rows(self.term, self.columns, self.screen_lines)
    }

    /// The number of cells of each row up to the last one with content.
    pub open spec fn widths(self) -> Seq<nat> {
        self.cells().map_values(|cells: Seq<Cell>| cells_width(cells))
    }

    /// The width in cells of the longest row with content.
    pub open spec fn longest(self) -> nat {
        longest_content(self.rows(), self.widths())
    }

    /// Whether the text of every row of the terminal can be read.
    pub open spec fn readable(self) -> bool {
        rows_readable(self.term, self.columns, self.screen_lines)
    }

    /// The text of the output.
    pub open spec fn text(self) -> Seq<char> {
        rows_as_text(self.rows())
    }

    /// Whether nothing but printable characters is shown.
    pub open spec fn shows_printable(self) -> bool {
        forall|i: int| 0 <= i < self.rows().len() ==> are_printable(#[trigger] self.rows()[i])
    }

    /// Whether an open buffer holds the text of the output, if that can be read.
    pub open spec fn in_step(self) -> bool {
        self.buffer is Some && self.readable() ==> self.buffer == Some(self.text())
    }

    /// The terminal with more text.
    pub open spec fn typed_on(self, text: Seq<char>) -> OutputState {
        let bytes = terminal_bytes(encode_utf8(text));
        OutputState {
            bytes: self.bytes + bytes,
            term: fed(self.bytes, self.term, bytes),
            narrow: self.narrow && are_narrow(text),
            ..self
        }
    }

    /// The terminal with more text, without repeated carriage returns.
    pub open spec fn settled(self, text: Seq<char>) -> OutputState {
        let bytes = terminal_bytes(encode_utf8(text));
        OutputState {
            bytes: returned_once(self.bytes + bytes),
            term: fed_once(self.bytes, self.term, returned_once(bytes)),
            narrow: self.narrow && are_narrow(text),
            ..self
        }
    }

    /// The output with more text. An open buffer is kept up to date: it holds the text of the
    /// output. Where terminal codes make that impossible to read, it gets the new text as it is.
    pub open spec fn appended(self, text: Seq<char>) -> OutputState {
        let after = self.typed_on(text);
        OutputState {
            buffer: match self.buffer {
                Some(buffer) => Some(
                    if after.readable() {
                        after.text()
                    } else {
                        buffer + text
                    },
                ),
                None => None,
            },
            ..after
        }
    }

    /// Whether the output can take some text: the terminal has a line for it, and two columns
    /// if it may hold fullwidth characters, and no color in it, with what came before, makes the
    /// emulator overflow.
    pub open spec fn accepts(self, text: Seq<char>) -> bool {
        &&& text.len() > 0 ==> self.screen_lines >= 1
        &&& text.len() > 0 && self.columns < MIN_COLUMNS ==> self.narrow && are_narrow(text)
        &&& colors_fit(self.bytes + terminal_bytes(encode_utf8(text)))
    }

    /// Whether nothing but lines has been typed on the terminal.
    pub open spec fn is_typed(self) -> bool {
        &&& self.narrow
        &&& self.screen_lines >= 1
        &&& exists|text: Seq<char>| #[trigger] encodes_input(self.bytes, text)
        &&& typed(self.term) is Some
        &&& !(typed(self.term)->0).1
    }

    /// The lines that have been typed on the terminal.
    pub open spec fn typed_lines(self) -> Seq<Seq<char>> {
        (typed(self.term)->0).0
    }

    /// Whether plain text can be typed behind the lines on the terminal: there are rows for all
    /// of it.
    pub open spec fn has_room_for(self, text: Seq<char>) -> bool {
        &&& is_plain(text)
        &&& wrapped(lines_with(self.typed_lines(), text), self.columns).len() <= self.screen_lines
            + SCROLLBACK
    }

    /// Whether what can be read from the output are the given lines, in the rows in which they
    /// are wrapped: their text, the width of the longest row and the number of rows, as far as
    /// they have content.
    pub open spec fn reads_back(self, lines: Seq<Seq<char>>) -> bool {
        let rows = wrapped(lines, self.columns);
        &&& self.readable()
        &&& self.rows() == typed_rows(lines, self.columns, self.screen_lines)
        &&& self.text() == rows_as_text(rows)
        &&& self.longest() == longest_line(rows)
        &&& content_rows(self.rows()) == content_rows(rows)
    }

    /// The output on a grid with the number of lines that shows all of its rows, as far as the
    /// hard bound allows. It keeps its grid if that has this number of lines already, and if a
    /// cell has no size.
    pub open spec fn fitted(
        self,
        settings: ReplSettings,
        cell_width: Pixels,
        line_height: Pixels,
    ) -> OutputState {
        let lines = settings.fitting_lines(self.rows().len() as int);
        if lines == self.screen_lines || cell_width.units <= 0 || line_height.units <= 0 {
            self
        } else {
            OutputState {
                term: resized(self.term, self.columns, lines),
                screen_lines: lines,
                ..self
            }
        }
    }

    /// The output opened in a buffer, which starts with the text of the output.
    pub open spec fn opened(self) -> OutputState {
        match self.buffer {
            Some(_) => self,
            None => OutputState { buffer: Some(self.text()), ..self },
        }
    }
}

impl View for TerminalOutput {
    type V = OutputState;

    closed spec fn view(&self) -> OutputState {
        OutputState {
            bytes: bytes_read(self.parser),
            term: term_state(self.handler),
            columns: grid_columns(self.handler) as int,
            screen_lines: grid_screen_lines(self.handler) as int,
            narrow: self.narrow,
            buffer: match self.full_buffer {
                Some(buffer) => Some(buffer.text@),
                None => None,
            },
        }
    }
}

impl TerminalOutput {
    /// The validity of an output: its grid is within the hard bounds, it shows what has been
    /// typed on it, it knows where in a command it is and whether its input is narrow, and its
    /// buffer is up to date and not to be edited by the user.
    pub closed spec fn wf(self) -> bool {
        &&& self.keeps_track()
        &&& self.narrow ==> exists|text: Seq<char>| #[trigger] encodes_narrow(self@.bytes, text)
        &&& self@.in_step()
    }

    /// What of the validity of an output holds while text is appended.
    spec fn keeps_track(self) -> bool {
        &&& 1 <= grid_columns(self.handler) <= MAX_GRID_COLUMNS
        &&& grid_screen_lines(self.handler) <= MAX_GRID_LINES
        &&& grid_scroll_limit(self.handler) == SCROLLBACK
        &&& shows_typed(self.handler)
        &&& self.command@ == place_after_all(Place::Outside, bytes_read(self.parser))
        &&& self.full_buffer is Some ==> self.full_buffer->0.capability == Capability::ReadOnly
    }

    /// The size of a valid output is within the hard bounds, and its buffer is up to date.
    pub proof fn valid_output(self)
        requires
            self.wf(),
        ensures
            1 <= self@.columns <= MAX_GRID_COLUMNS,
            0 <= self@.screen_lines <= MAX_GRID_LINES,
            self@.in_step(),
    {
    }

    /// Creates an output without text.
    ///
    /// The terminal has the size that [`terminal_size`] gives. A cell must have a size.
    pub fn new(settings: &ReplSettings, cell_width: Pixels, line_height: Pixels) -> (output: Self)
        requires
            cell_width.units > 0,
            line_height.units > 0,
        ensures
            output.wf(),
            output@ == OutputState::initial(settings.grid_columns(), settings.grid_lines()),
            output@.readable(),
            output@.rows() == empty_rows(settings.grid_lines()),
            output@.text() == Seq::<char>::empty(),
            output@.longest() == 0,
            content_rows(output@.rows()) == 0,
            settings.grid_lines() >= 1 ==> output@.is_typed() && output@.typed_lines() == lines_of(
                Seq::empty(),
            ),
    {
        let bounds: TerminalBounds = terminal_size(settings, cell_width, line_height);
        proof {
            bounds_give_back_grid(
                bounds,
                settings.grid_columns(),
                settings.grid_lines(),
                cell_width,
                line_height,
            );
        }
        let handler: Term<VoidListener> = new_term(bounds.num_columns(), bounds.num_lines());
        let output: TerminalOutput = TerminalOutput {
            full_buffer: None,
            parser: new_parser(),
            command: Command::Outside,
            narrow: true,
            handler,
        };
        proof {
            assert(encodes_input(output@.bytes, Seq::empty()));
            assert(encodes_narrow(output@.bytes, Seq::empty()));
            no_text_in_empty_rows(empty_rows(settings.grid_lines()), output@.widths());
        }
        output
    }

    /// Creates an output with initial text.
    ///
    /// Plain text for which there is room is read back from it.
    pub fn from(
        text: &str,
        settings: &ReplSettings,
        cell_width: Pixels,
        line_height: Pixels,
    ) -> (output: Self)
        requires
            cell_width.units > 0,
            line_height.units > 0,
            OutputState::initial(settings.grid_columns(), settings.grid_lines()).accepts(text@),
        ensures
            output.wf(),
            output@ == OutputState::initial(
                settings.grid_columns(),
                settings.grid_lines(),
            ).appended(text@),
            settings.grid_lines() >= 1 && is_plain(text@) && wrapped(
                lines_of(text@),
                settings.grid_columns(),
            ).len() <= settings.grid_lines() + SCROLLBACK ==> {
                &&& output@.is_typed()
                &&& output@.typed_lines() == lines_of(text@)
                &&& output@.reads_back(lines_of(text@))
            },
    {
        let mut output: TerminalOutput = Self::new(settings, cell_width, line_height);
        output.append_text(text);
        output
    }

    /// The lines that have been typed on an output are read back from it.
    pub proof fn typed_lines_are_read_back(self)
        requires
            self.wf(),
        ensures
            self@.is_typed() ==> self@.reads_back(self@.typed_lines()),
            self@.is_typed() ==> self@.typed_lines().len() > 0,
    {
        self.typed_lines_are_shown();
    }

    proof fn typed_lines_are_shown(self)
        requires
            self.keeps_track(),
        ensures
            self@.is_typed() ==> self@.reads_back(self@.typed_lines()),
            self@.is_typed() ==> self@.typed_lines().len() > 0,
    {
        if self@.is_typed() {
            let rows = self@.rows();
            typed_lines_read_back(self@.typed_lines(), self@.columns, self@.screen_lines);
            assert forall|i: int| 0 <= i < rows.len() implies #[trigger] self@.widths()[i]
                == content_width(rows[i]) by {
                one_cell_for_each_character(self@.cells()[i], rows[i]);
            }
            widths_of_lines(rows, self@.widths());
        }
    }

    /// Tells whether text can be appended to the output.
    ///
    /// It cannot if there is no room for its characters on the terminal, or if it holds a
    /// command that sets a color on which the emulator would overflow.
    pub fn accepts_text(&self, text: &str) -> (accepts: bool)
        requires
            self.wf(),
        ensures
            accepts == self@.accepts(text@),
    {
        let bytes: &[u8] = text.as_bytes();
        let mut command: Command = self.command.duplicate();
        let mut i: usize = 0;
        assert(bytes@.take(0) =~= Seq::empty());
        while i < bytes.len()
            invariant
                i <= bytes.len(),
                command@ == place_after_all(
                    self.command@,
                    terminal_bytes(bytes@.take(i as int)),
                ),
            decreases bytes.len() - i,
        {
            let byte: u8 = bytes[i];
            let ghost before = terminal_bytes(bytes@.take(i as int));
            proof {
                assert(bytes@.take(i + 1).drop_last() =~= bytes@.take(i as int));
                assert(before.push(CARRIAGE_RETURN).drop_last() =~= before);
                assert(before.push(CARRIAGE_RETURN).push(LINE_FEED).drop_last() =~= before.push(
                    CARRIAGE_RETURN,
                ));
                assert(before.push(byte).drop_last() =~= before);
            }
            if byte == LINE_FEED {
                command.advance(CARRIAGE_RETURN);
                assert(command@ == place_after_all(self.command@, before.push(CARRIAGE_RETURN)));
            }
            command.advance(byte);
            i = i + 1;
        }
        proof {
            assert(bytes@.take(i as int) =~= bytes@);
            place_after_pieces(Place::Outside, self@.bytes, terminal_bytes(bytes@));
            if text@.len() > 0 {
                encoding_is_not_empty(text@);
            }
        }
        if let Command::Overflow = command {
            return false;
        }
        if bytes.len() == 0 {
            return true;
        }
        self.screen_lines() >= 1 && (self.columns() >= MIN_COLUMNS || (self.narrow && only_narrow(
            text,
        )))
    }

    /// Feeds one byte to the parser.
    fn feed(&mut self, byte: u8)
        requires
            old(self).keeps_track(),
            old(self)@.screen_lines >= 1,
            old(self)@.columns >= MIN_COLUMNS || exists|text: Seq<char>, ch: char, seen: int|
                #[trigger]
                stays_narrow(old(self)@.bytes, byte, text, ch, seen),
            colors_fit(old(self)@.bytes.push(byte)),
        ensures
            final(self).keeps_track(),
            final(self)@ == (OutputState {
                bytes: old(self)@.bytes.push(byte),
                term: advanced(old(self)@.bytes, old(self)@.term, byte),
                ..old(self)@
            }),
            final(self).full_buffer == old(self).full_buffer,
            step_types(old(self)@, final(self)@, byte),
            never_counts(old(self)@.bytes) ==> final(self)@.term == advanced(
                returned_once(old(self)@.bytes),
                old(self)@.term,
                byte,
            ),
            byte == CARRIAGE_RETURN && never_counts(final(self)@.bytes) ==> has_returned(
                final(self)@,
            ),
    {
        assert(self@.bytes.push(byte).drop_last() =~= self@.bytes);
        advance(&mut self.parser, &mut self.handler, byte);
        self.command.advance(byte);
    }

    /// Appends text to the output.
    ///
    /// Each byte of the text is parsed, with a carriage return before each line feed so that
    /// the cursor moves to the start of the next line. An open buffer is kept up to date,
    /// though with some terminal codes it will not be perfect.
    ///
    /// Plain text for which there is room is typed behind the lines that are there. It makes no
    /// difference to the terminal how often a carriage return is repeated.
    pub fn append_text(&mut self, text: &str)
        requires
            old(self).wf(),
            old(self)@.accepts(text@),
        ensures
            final(self).wf(),
            final(self)@ == old(self)@.appended(text@),
            never_counts(final(self)@.bytes) ==> final(self)@.term == old(self)@.settled(
                text@,
            ).term,
            old(self)@.is_typed() && old(self)@.has_room_for(text@) ==> {
                let lines = lines_with(old(self)@.typed_lines(), text@);
                &&& final(self)@.is_typed()
                &&& final(self)@.typed_lines() == lines
                &&& final(self)@.reads_back(lines)
                &&& final(self)@.buffer is Some ==> final(self)@.buffer == Some(
                    rows_as_text(wrapped(lines, final(self)@.columns)),
                )
            },
    {
        let ghost start = self@;
        let ghost narrow_text = start.narrow && are_narrow(text@);
        let ghost is_typed = start.is_typed() && start.has_room_for(text@);
        let ghost all_bytes = start.bytes + terminal_bytes(encode_utf8(text@));
        // The characters that have been read, those of the text among them, and the bytes of
        // the next character.
        let ghost mut input = if is_typed {
            choose|input: Seq<char>| #[trigger] encodes_input(start.bytes, input)
        } else {
            choose|input: Seq<char>| #[trigger] encodes_narrow(start.bytes, input)
        };
        let ghost mut done: int = 0;
        let ghost mut seen: int = 0;
        let narrow: bool = self.narrow && only_narrow(text);
        let bytes: &[u8] = text.as_bytes();
        proof {
            assert(bytes@.take(0) =~= Seq::empty());
            assert(text@.take(0) =~= Seq::empty());
            assert(start.bytes + Seq::<u8>::empty() =~= start.bytes);
            assert(settles(start, start, Seq::empty()));
            if text@.len() > 0 {
                ascii_encoding(text@[0], 0);
                encoding_is_not_empty(text@);
            }
            assert(start.bytes + seen_bytes(text@, 0, 0) =~= start.bytes);
            if is_typed {
                plain_is_input(text@);
                input_is_narrow(input);
            }
            self.typed_lines_are_read_back();
        }
        let mut i: usize = 0;
        while i < bytes.len()
            invariant
                i <= bytes.len(),
                start == old(self)@,
                bytes@ == encode_utf8(text@),
                start.accepts(text@),
                bytes.len() > 0 ==> text@.len() > 0,
                is_typed ==> narrow_text && start.typed_lines().len() > 0 && start.has_room_for(
                    text@,
                ),
                is_typed ==> is_input(text@),
                narrow_text == (start.narrow && are_narrow(text@)),
                self.keeps_track(),
                self.full_buffer == old(self).full_buffer,
                self@ == (OutputState {
                    bytes: start.bytes + terminal_bytes(bytes@.take(i as int)),
                    term: fed(start.bytes, start.term, terminal_bytes(bytes@.take(i as int))),
                    ..start
                }),
                narrow_text ==> at_byte(text@, i as int, done, seen) && has_read(
                    self@,
                    text@,
                    input,
                    done,
                    seen,
                ),
                narrow_text ==> are_narrow(input),
                is_typed ==> is_input(input),
                is_typed ==> has_typed(self@, start, text@, done),
                all_bytes == start.bytes + terminal_bytes(bytes@),
                never_counts(all_bytes) ==> settles(
                    self@,
                    start,
                    terminal_bytes(bytes@.take(i as int)),
                ),
            decreases bytes.len() - i,
        {
            let byte: u8 = bytes[i];
            let ghost before = terminal_bytes(bytes@.take(i as int));
            let ghost at_start = self@;
            proof {
                let next = terminal_bytes(bytes@.take(i + 1));
                let rest = terminal_bytes(bytes@.skip(i + 1));
                assert(bytes@.take(i + 1).drop_last() =~= bytes@.take(i as int));
                assert(bytes@ =~= bytes@.take(i + 1) + bytes@.skip(i + 1));
                terminal_bytes_concat(bytes@.take(i + 1), bytes@.skip(i + 1));
                assert(start.bytes + (next + rest) =~= (start.bytes + next) + rest);
                colors_fit_before(start.bytes + next, rest);
                assert(all_bytes == (start.bytes + next) + rest);
                if never_counts(all_bytes) {
                    never_counts_before(start.bytes + next, rest);
                }
                assert(before.push(byte).drop_last() =~= before);
                assert(start.bytes + before.push(byte) =~= (start.bytes + before).push(byte));
                if byte == LINE_FEED {
                    let returned = before.push(CARRIAGE_RETURN);
                    assert(returned.drop_last() =~= before);
                    assert(returned.push(LINE_FEED).drop_last() =~= returned);
                    assert(start.bytes + returned =~= (start.bytes + before).push(
                        CARRIAGE_RETURN,
                    ));
                    assert(start.bytes + returned.push(LINE_FEED) =~= (start.bytes
                        + returned).push(LINE_FEED));
                    assert(start.bytes + next =~= (start.bytes + returned) + seq![LINE_FEED]);
                    colors_fit_before(start.bytes + returned, seq![LINE_FEED]);
                    if never_counts(all_bytes) {
                        never_counts_before(start.bytes + returned, seq![LINE_FEED]);
                        never_counts_before(start.bytes + before, seq![CARRIAGE_RETURN]);
                        assert(start.bytes + returned =~= (start.bytes + before) + seq![
                            CARRIAGE_RETURN,
                        ]);
                    }
                } else if never_counts(all_bytes) {
                    never_counts_before(start.bytes + before, seq![byte]);
                    assert(start.bytes + next =~= (start.bytes + before) + seq![byte]);
                }
                if narrow_text {
                    next_byte(text@, i as int, done, seen);
                    ascii_encoding(text@[done], LINE_FEED);
                    assert(is_narrow(text@[done]));
                    if byte == LINE_FEED {
                        assert(text@[done] == '\n' && seen == 0);
                        line_goes_on(at_start, text@, input, done);
                        assert(stays_narrow(at_start.bytes, CARRIAGE_RETURN, input, '\r', 0));
                        assert(stays_narrow(
                            at_start.bytes.push(CARRIAGE_RETURN),
                            LINE_FEED,
                            input.push('\r'),
                            '\n',
                            0,
                        ));
                    } else {
                        code_goes_on(input, text@[done], seen);
                        assert(stays_narrow(at_start.bytes, byte, input, text@[done], seen));
                    }
                }
            }
            if byte == LINE_FEED {
                let ghost returned = before.push(CARRIAGE_RETURN);
                self.feed(CARRIAGE_RETURN);
                let ghost between = self@;
                assert(self@.bytes == start.bytes + returned);
                assert(self@.term == fed(start.bytes, start.term, returned));
                self.feed(LINE_FEED);
                assert(self@.term == fed(start.bytes, start.term, returned.push(LINE_FEED)));
                proof {
                    if never_counts(all_bytes) {
                        byte_settles(at_start, between, start, before, CARRIAGE_RETURN);
                        byte_settles(between, self@, start, returned, LINE_FEED);
                    }
                    if narrow_text {
                        line_read(at_start, self@, text@, input, done);
                        if is_typed {
                            line_typed(at_start, between, self@, start, text@, input, done);
                        }
                        input = input.push('\r').push('\n');
                        done = done + 1;
                        seen = 0;
                    }
                }
            } else {
                self.feed(byte);
                assert(self@.term == fed(start.bytes, start.term, before.push(byte)));
                proof {
                    if never_counts(all_bytes) {
                        byte_settles(at_start, self@, start, before, byte);
                    }
                    if narrow_text {
                        let ch = text@[done];
                        byte_read(at_start, self@, text@, input, done, seen);
                        if is_typed {
                            byte_typed(at_start, self@, start, text@, input, done, seen);
                        }
                        if seen + 1 < encode_utf8(seq![ch]).len() {
                            seen = seen + 1;
                        } else {
                            input = input.push(ch);
                            done = done + 1;
                            seen = 0;
                        }
                    }
                }
            }
            i = i + 1;
        }
        self.narrow = narrow;
        proof {
            assert(bytes@.take(i as int) =~= bytes@);
            if narrow_text {
                next_byte(text@, i as int, done, seen);
                assert(text@.take(done) =~= text@);
                assert(self@.bytes =~= encode_utf8(input));
            }
            if is_typed && text@.len() > 0 {
                let last = text@[text@.len() - 1];
                assert(is_printable(last) || last == '\n');
            }
        }
        if self.full_buffer.is_some() {
            if self.rows_can_be_read() {
                let fresh: String = self.read_text();
                if let Some(buffer) = &mut self.full_buffer {
                    buffer.text = fresh;
                }
            } else {
                if let Some(buffer) = &mut self.full_buffer {
                    buffer.text.append(text);
                }
            }
        }
        proof {
            if narrow_text {
                assert(encodes_narrow(self@.bytes, input));
            }
            if is_typed {
                assert(encodes_input(self@.bytes, input));
            }
            self.typed_lines_are_read_back();
        }
    }

    /// The number of columns of the terminal.
    pub fn columns(&self) -> (count: usize)
        ensures
            count == self@.columns,
    {
        columns(&self.handler)
    }

    /// The number of lines on the screen of the terminal.
    pub fn screen_lines(&self) -> (count: usize)
        ensures
            count == self@.screen_lines,
    {
        screen_lines(&self.handler)
    }

    /// The terminal, for those who paint it.
    pub fn terminal(&self) -> (terminal: &Term<VoidListener>)
        ensures
            term_state(*terminal) == self@.term,
            grid_columns(*terminal) == self@.columns,
            grid_screen_lines(*terminal) == self@.screen_lines,
    {
        &self.handler
    }

    /// Tells whether the text of every row of the output can be read.
    ///
    /// It cannot if escape sequences have moved the second half of a fullwidth character to
    /// the start of a row, or if the topmost row had no room for one at its end.
    pub fn is_readable(&self) -> (readable: bool)
        requires
            self.wf(),
        ensures
            readable == self@.readable(),
    {
        self.rows_can_be_read()
    }

    fn rows_can_be_read(&self) -> (readable: bool)
        requires
            self.keeps_track(),
        ensures
            readable == self@.readable(),
    {
        let cols: usize = columns(&self.handler);
        let lines: usize = screen_lines(&self.handler);
        let total: usize = all_lines(&self.handler);
        let top: i32 = -((total - lines) as i32);
        let bottom: i32 = lines as i32;
        let mut line: i32 = top;
        while line < bottom
            invariant
                self.keeps_track(),
                top <= line <= bottom,
                cols == self@.columns,
                bottom == self@.screen_lines,
                top == top_line(self@.term, self@.screen_lines),
                forall|above: int|
                    top <= above < line ==> #[trigger] line_readable(
                        self@.term,
                        self@.columns,
                        self@.screen_lines,
                        above,
                    ),
            decreases bottom - line,
        {
            assert(line_readable(self@.term, self@.columns, self@.screen_lines, line as int) == (
            grid_cells(self@.term)[(line as int, 0)].flags & WIDE_CHAR_SPACER == 0 && (line > top
                || grid_cells(self@.term)[(line as int, cols - 1)].flags & LEADING_WIDE_CHAR_SPACER
                == 0)));
            if cell_at(&self.handler, line, 0).flags & WIDE_CHAR_SPACER != 0 {
                return false;
            }
            if line == top && cell_at(&self.handler, line, cols - 1).flags
                & LEADING_WIDE_CHAR_SPACER != 0 {
                return false;
            }
            line = line + 1;
        }
        true
    }

    /// The text of the rows of the output, scrollback included, oldest first.
    fn row_texts(&self) -> (rows: Vec<String>)
        requires
            self.keeps_track(),
            self@.readable(),
        ensures
            views(rows@) == self@.rows(),
            rows.len() >= self@.screen_lines,
            forall|i: int| 0 <= i < rows.len() ==> !(#[trigger] self@.rows()[i]).contains('\n'),
            forall|i: int| 0 <= i < rows.len() ==> #[trigger] text_shows_cells(self@, i),
    {
        let cols: usize = columns(&self.handler);
        let lines: usize = screen_lines(&self.handler);
        let total: usize = all_lines(&self.handler);
        let top: i32 = -((total - lines) as i32);
        let bottom: i32 = lines as i32;
        let mut rows: Vec<String> = Vec::new();
        let mut line: i32 = top;
        while line < bottom
            invariant
                self.keeps_track(),
                self@.readable(),
                top <= line <= bottom,
                cols == self@.columns,
                bottom == self@.screen_lines,
                total == total_lines(self@.term),
                top == top_line(self@.term, self@.screen_lines),
                rows.len() == line - top,
                forall|i: int|
                    0 <= i < rows.len() ==> (#[trigger] rows[i])@ == self@.rows()[i],
                forall|i: int|
                    0 <= i < rows.len() ==> !(#[trigger] self@.rows()[i]).contains('\n'),
                forall|i: int| 0 <= i < rows.len() ==> #[trigger] text_shows_cells(self@, i),
            decreases bottom - line,
        {
            assert(line_readable(self@.term, self@.columns, self@.screen_lines, line as int));
            rows.push(read_row(&self.handler, line, cols - 1));
            proof {
                let i = line - top;
                assert(self@.cells()[i] == line_cells(self@.term, self@.columns, line as int));
                assert(self@.cells()[i][0] == grid_cells(self@.term)[(line as int, 0)]);
                if i > 0 {
                    assert(self@.cells()[i - 1][0] == grid_cells(self@.term)[(line - 1, 0)]);
                }
                assert(text_shows_cells(self@, i));
            }
            line = line + 1;
        }
        assert(views(rows@) =~= self@.rows());
        rows
    }

    /// The number of cells of each row of the output up to the last one with content.
    fn row_widths(&self) -> (widths: Vec<usize>)
        requires
            self.keeps_track(),
        ensures
            numbers(widths@) == self@.widths(),
            forall|i: int| 0 <= i < widths.len() ==> #[trigger] starts_well(self@, i),
    {
        let cols: usize = columns(&self.handler);
        let lines: usize = screen_lines(&self.handler);
        let total: usize = all_lines(&self.handler);
        let top: i32 = -((total - lines) as i32);
        let bottom: i32 = lines as i32;
        let mut widths: Vec<usize> = Vec::new();
        let mut line: i32 = top;
        while line < bottom
            invariant
                self.keeps_track(),
                top <= line <= bottom,
                cols == self@.columns,
                bottom == self@.screen_lines,
                total == total_lines(self@.term),
                top == top_line(self@.term, self@.screen_lines),
                widths.len() == line - top,
                forall|i: int| 0 <= i < widths.len() ==> #[trigger] widths[i] == self@.widths()[i],
                forall|i: int| 0 <= i < widths.len() ==> #[trigger] starts_well(self@, i),
            decreases bottom - line,
        {
            let ghost expected = line_cells(self@.term, self@.columns, line as int);
            let mut cells: Vec<Cell> = Vec::new();
            let mut column: usize = 0;
            while column < cols
                invariant
                    self.keeps_track(),
                    top <= line < bottom,
                    column <= cols,
                    cols == self@.columns,
                    bottom == self@.screen_lines,
                    top == top_line(self@.term, self@.screen_lines),
                    expected == line_cells(self@.term, self@.columns, line as int),
                    cells@ == expected.take(column as int),
                    column > 0 && expected[0].flags & LEADING_WIDE_CHAR_SPACER != 0 ==> is_padding(
                        expected[0].ch,
                    ),
                decreases cols - column,
            {
                cells.push(cell_at(&self.handler, line, column));
                assert(expected.take(column + 1) =~= expected.take(column as int).push(
                    expected[column as int],
                ));
                column = column + 1;
            }
            assert(expected.take(column as int) =~= expected);
            assert(self@.cells()[line - top] == expected);
            assert(starts_well(self@, line - top));
            widths.push(row_width(&cells));
            line = line + 1;
        }
        assert(numbers(widths@) =~= self@.widths());
        widths
    }

    /// Scans the grid, on the screen and in the scrollback, and returns the width in cells of
    /// the longest row with content and the number of rows with content.
    pub fn measure_content(&self) -> (measure: (usize, usize))
        requires
            self.wf(),
            self@.readable(),
        ensures
            measure.0 == self@.longest(),
            measure.1 == content_rows(self@.rows()),
            measure.0 == 0 <==> measure.1 == 0,
            measure.1 <= self@.rows().len(),
            self@.rows().len() >= self@.screen_lines,
    {
        let rows: Vec<String> = self.row_texts();
        let widths: Vec<usize> = self.row_widths();
        proof {
            assert(numbers(widths@).len() == widths.len());
            assert(views(rows@).len() == rows.len());
            longest_content_is_least(self@.rows(), self@.widths());
            content_has_width(self@);
        }
        measure_rows(&rows, &widths)
    }

    /// Grows the simulated grid vertically so that rows of the scrollback become part of the
    /// screen, and thus get painted.
    ///
    /// Only the number of lines is changed, and never to less: another number of columns, while
    /// output arrives, would make the emulator reflow what was wrapped at the old width. The
    /// number of lines stays within [`MAX_GRID_LINES`], so that runaway output does not consume
    /// unbounded memory. If it can show all rows, nothing is left in the scrollback.
    ///
    /// The output keeps its cells and its text, and it fits afterwards: to fit it again changes
    /// nothing.
    pub fn ensure_grid_fits(
        &mut self,
        cell_width: Pixels,
        line_height: Pixels,
        settings: &ReplSettings,
    )
        requires
            old(self).wf(),
            cell_width.units > 0 && line_height.units > 0 ==> old(self)@.screen_lines >= 1,
        ensures
            final(self).wf(),
            final(self)@ == old(self)@.fitted(*settings, cell_width, line_height),
            final(self)@.screen_lines >= old(self)@.screen_lines,
            final(self)@.screen_lines <= old(self)@.rows().len() || final(self)@.screen_lines
                <= settings.max_lines,
            final(self)@.screen_lines <= MAX_GRID_LINES,
            old(self)@.rows().len() <= MAX_GRID_LINES && cell_width.units > 0 && line_height.units
                > 0 ==> final(self)@.rows().len() == final(self)@.screen_lines,
            final(self)@.fitted(*settings, cell_width, line_height) == final(self)@,
            final(self)@.cells() == old(self)@.cells() + blank_rows(
                final(self)@.screen_lines - old(self)@.rows().len(),
                final(self)@.columns,
            ),
            final(self)@.readable() == old(self)@.readable(),
            old(self)@.readable() ==> {
                &&& final(self)@.rows() == old(self)@.rows() + empty_rows(
                    final(self)@.screen_lines - old(self)@.rows().len(),
                )
                &&& final(self)@.text() == old(self)@.text()
                &&& final(self)@.longest() == old(self)@.longest()
                &&& content_rows(final(self)@.rows()) == content_rows(old(self)@.rows())
            },
            old(self)@.is_typed() ==> {
                &&& final(self)@.is_typed()
                &&& final(self)@.typed_lines() == old(self)@.typed_lines()
                &&& final(self)@.reads_back(old(self)@.typed_lines())
            },
    {
        proof {
            self.typed_lines_are_read_back();
        }
        let target_lines: usize = lines_to_fit(all_lines(&self.handler), settings);
        let current_cols: usize = columns(&self.handler);
        let current_lines: usize = screen_lines(&self.handler);
        let ghost start = self@;
        proof {
            let missing = current_lines - start.rows().len();
            assert(start.rows() + empty_rows(missing) =~= start.rows());
            assert(start.cells() + blank_rows(missing, start.columns) =~= start.cells());
        }
        if target_lines == current_lines {
            return;
        }
        if cell_width.units <= 0 || line_height.units <= 0 {
            return;
        }
        let new_bounds: TerminalBounds = grid_bounds(
            current_cols,
            target_lines,
            cell_width,
            line_height,
        );
        proof {
            bounds_give_back_grid(
                new_bounds,
                current_cols as int,
                target_lines as int,
                cell_width,
                line_height,
            );
        }
        resize(&mut self.handler, new_bounds.num_columns(), new_bounds.num_lines());
        proof {
            grown(start, self@);
            self.typed_lines_are_shown();
        }
    }

    /// The text of the output: each row without the padding of the grid, and without the rows
    /// that hold only white space.
    ///
    /// Its lines are clean, each with a line feed behind it. If nothing but printable characters
    /// is shown, however it got there, an output that is made from the text has the same text
    /// again, if there is room for it.
    pub fn full_text(&self) -> (text: String)
        requires
            self.wf(),
            self@.readable(),
        ensures
            text@ == self@.text(),
            lines_of(text@) == text_lines(self@.rows()).push(Seq::empty()),
            are_clean_lines(text_lines(self@.rows())),
            self@.shows_printable() ==> {
                &&& is_plain(text@)
                &&& rows_as_text(wrapped(lines_of(text@), self@.columns)) == text@
                &&& wrapped(lines_of(text@), self@.columns).len() <= self@.rows().len() + 1
            },
    {
        self.read_text()
    }

    fn read_text(&self) -> (text: String)
        requires
            self.keeps_track(),
            self@.readable(),
        ensures
            text@ == self@.text(),
            lines_of(text@) == text_lines(self@.rows()).push(Seq::empty()),
            are_clean_lines(text_lines(self@.rows())),
            self@.shows_printable() ==> {
                &&& is_plain(text@)
                &&& rows_as_text(wrapped(lines_of(text@), self@.columns)) == text@
                &&& wrapped(lines_of(text@), self@.columns).len() <= self@.rows().len() + 1
            },
    {
        let rows: Vec<String> = self.row_texts();
        proof {
            assert(views(rows@).len() == rows.len());
            text_has_clean_lines(self@.rows());
            if self@.shows_printable() {
                assert forall|i: int| 0 <= i < rows.len() implies (
                #[trigger] self@.rows()[i]).len() <= self@.columns by {
                    assert(are_printable(self@.rows()[i]));
                    assert(text_shows_cells(self@, i));
                }
                printable_text_is_read_back(self@.rows(), self@.columns);
            }
        }
        join_rows(&rows)
    }

    /// The text of the output, `None` if it cannot be read.
    pub fn checked_full_text(&self) -> (text: Option<String>)
        requires
            self.wf(),
        ensures
            text is Some <==> self@.readable(),
            text is Some ==> text->0@ == self@.text(),
    {
        if self.is_readable() {
            Some(self.full_text())
        } else {
            None
        }
    }

    /// What copying the output puts on the clipboard.
    pub fn clipboard_content(&self) -> (content: Option<String>)
        requires
            self.wf(),
            self@.readable(),
        ensures
            content is Some,
            content->0@ == self@.text(),
    {
        Some(self.full_text())
    }

    /// Tells whether the output can be copied.
    pub fn has_clipboard_content(&self) -> (has: bool)
        ensures
            has,
    {
        true
    }

    /// Tells whether the output can be opened in a buffer.
    pub fn has_buffer_content(&self) -> (has: bool)
        ensures
            has,
    {
        true
    }

    /// Opens the output in a buffer, which is not to be edited by the user, or returns the
    /// buffer in which it was opened before.
    pub fn buffer_content(&mut self) -> (content: Option<&TextBuffer>)
        requires
            old(self).wf(),
            old(self)@.buffer is None ==> old(self)@.readable(),
        ensures
            final(self).wf(),
            final(self)@ == old(self)@.opened(),
            content is Some,
            Some(content->0.text@) == final(self)@.buffer,
            content->0.capability == Capability::ReadOnly,
    {
        if self.full_buffer.is_none() {
            let ghost start = self@;
            let text: String = self.full_text();
            self.full_buffer = Some(TextBuffer { text, capability: Capability::ReadOnly });
            assert(self@ == start.opened());
        }
        self.full_buffer.as_ref()
    }
}

/// Whether the text of a row shows what its cells show, and has no more characters than it has
/// cells if they are printable.
spec fn text_shows_cells(output: OutputState, i: int) -> bool {
    let row = output.rows()[i];
    let cells = output.cells();
    &&& are_printable(row) ==> row.len() <= output.columns
    &&& content_width(row) > 0 ==> cells_width(cells[i]) > 0 || (i > 0 && !is_padding(
        cells[i - 1][0].ch,
    ))
    &&& cells[i][0].shows_character() ==> content_width(row) > 0
}

/// Whether the first cell of a row holds padding if it was left blank for a fullwidth character.
spec fn starts_well(output: OutputState, i: int) -> bool {
    let cell = output.cells()[i][0];
    cell.flags & LEADING_WIDE_CHAR_SPACER != 0 ==> is_padding(cell.ch)
}

/// If there is a row with content, then one has cells with content.
proof fn content_has_width(output: OutputState)
    requires
        output.readable(),
        output.columns >= 1,
        output.screen_lines <= output.rows().len(),
        forall|i: int| 0 <= i < output.rows().len() ==> #[trigger] text_shows_cells(output, i),
        forall|i: int| 0 <= i < output.rows().len() ==> #[trigger] starts_well(output, i),
    ensures
        content_rows(output.rows()) > 0 ==> output.longest() > 0,
{
    if content_rows(output.rows()) > 0 {
        let rows = output.rows();
        let widths = output.widths();
        longest_content_is_least(rows, widths);
        let i = some_row_has_content(rows);
        assert(text_shows_cells(output, i));
        assert(widths[i] <= output.longest());
        if widths[i] == 0 {
            let above = i - 1;
            let cells = output.cells()[above];
            let line = top_line(output.term, output.screen_lines) + above;
            assert(text_shows_cells(output, above) && starts_well(output, above));
            assert(line_readable(output.term, output.columns, output.screen_lines, line));
            assert(cells[0] == grid_cells(output.term)[(line, 0)]);
            assert(cells[0].shows_character());
            cells_width_is_last_filled(cells);
            assert(cells[0].is_filled());
            assert(widths[above] > 0);
            assert(content_width(rows[above]) > 0);
        }
    }
}

/// Whether another carriage return changes nothing.
spec fn has_returned(output: OutputState) -> bool {
    advanced(output.bytes, output.term, CARRIAGE_RETURN) == output.term
}

/// Whether an output is what it would be without repeated carriage returns.
spec fn settles(output: OutputState, start: OutputState, bytes: Seq<u8>) -> bool {
    &&& output.bytes == start.bytes + bytes
    &&& output.term == fed_once(start.bytes, start.term, returned_once(bytes))
    &&& bytes.len() > 0 && bytes.last() == CARRIAGE_RETURN ==> has_returned(output)
}

/// One more byte changes nothing about that.
proof fn byte_settles(
    before: OutputState,
    after: OutputState,
    start: OutputState,
    bytes: Seq<u8>,
    byte: u8,
)
    requires
        settles(before, start, bytes),
        after.bytes == before.bytes.push(byte),
        after.term == advanced(before.bytes, before.term, byte),
        after.term == advanced(returned_once(before.bytes), before.term, byte),
        byte == CARRIAGE_RETURN ==> has_returned(after),
    ensures
        settles(after, start, bytes.push(byte)),
{
    let once = returned_once(bytes);
    assert(bytes.push(byte).drop_last() =~= bytes);
    assert(after.bytes =~= start.bytes + bytes.push(byte));
    returned_once_ends(bytes);
    if !(byte == CARRIAGE_RETURN && once.len() > 0 && once.last() == CARRIAGE_RETURN) {
        assert(once.push(byte).drop_last() =~= once);
        returned_once_behind(start.bytes, bytes);
    }
}

/// What is left of some bytes without repeated carriage returns ends as they do.
proof fn returned_once_ends(bytes: Seq<u8>)
    ensures
        returned_once(bytes).len() == 0 <==> bytes.len() == 0,
        bytes.len() > 0 ==> returned_once(bytes).last() == bytes.last(),
{
}

/// Repeated carriage returns may be left out first in what comes later.
proof fn returned_once_behind(first: Seq<u8>, second: Seq<u8>)
    ensures
        returned_once(first + returned_once(second)) == returned_once(first + second),
    decreases second.len(),
{
    if second.len() > 0 {
        let before = second.drop_last();
        let once = returned_once(before);
        returned_once_behind(first, before);
        returned_once_ends(before);
        assert((first + second).drop_last() =~= first + before);
        if second.last() == CARRIAGE_RETURN && once.len() > 0 && once.last() == CARRIAGE_RETURN {
            returned_once_ends(first + before);
            assert((first + before).last() == CARRIAGE_RETURN);
        } else {
            assert((first + once.push(second.last())).drop_last() =~= first + once);
        }
    }
}

/// Repeated carriage returns may be left out first in what came before.
proof fn returned_once_before(first: Seq<u8>, second: Seq<u8>)
    ensures
        returned_once(returned_once(first) + second) == returned_once(first + second),
    decreases second.len(),
{
    if second.len() == 0 {
        assert(first + second =~= first);
        assert(returned_once(first) + second =~= returned_once(first));
        returned_once_twice(first);
    } else {
        returned_once_before(first, second.drop_last());
        assert((first + second).drop_last() =~= first + second.drop_last());
        assert((returned_once(first) + second).drop_last() =~= returned_once(first)
            + second.drop_last());
    }
}

proof fn returned_once_twice(bytes: Seq<u8>)
    ensures
        returned_once(returned_once(bytes)) == returned_once(bytes),
{
    returned_once_behind(Seq::empty(), bytes);
    assert(Seq::<u8>::empty() + bytes =~= bytes);
    assert(Seq::<u8>::empty() + returned_once(bytes) =~= returned_once(bytes));
}

/// A parser that does not count some bytes does not count the first of them.
proof fn never_counts_before(first: Seq<u8>, second: Seq<u8>)
    ensures
        never_counts(first + second) ==> never_counts(first),
{
    if first.contains(0x1b) {
        let i = choose|i: int| 0 <= i < first.len() && first[i] == 0x1b;
        assert((first + second)[i] == 0x1b);
    }
}

/// What a terminal is fed for a text is the same with a carriage return before each line feed,
/// but for repeated carriage returns.
proof fn returns_are_repeated(text: Seq<char>)
    ensures
        returned_once(terminal_bytes(encode_utf8(with_returns(text)))) == returned_once(
            terminal_bytes(encode_utf8(text)),
        ),
        are_narrow(with_returns(text)) == are_narrow(text),
    decreases text.len(),
{
    if text.len() > 0 {
        let before = text.drop_last();
        let ch = text.last();
        let more = with_returns(before);
        let bytes = terminal_bytes(encode_utf8(before));
        let more_bytes = terminal_bytes(encode_utf8(more));
        returns_are_repeated(before);
        assert(before.push(ch) =~= text);
        bytes_of_next(before, ch);
        assert(before + seq![ch] =~= text);
        narrow_in_pieces(before, seq![ch]);
        if ch == '\n' {
            bytes_of_next(more, '\r');
            bytes_of_next(more.push('\r'), '\n');
            ascii_encoding('\r', CARRIAGE_RETURN);
            ascii_encoding('\n', LINE_FEED);
            bytes_of_return_and_feed();
            let both = seq![CARRIAGE_RETURN, LINE_FEED];
            let all = more_bytes + seq![CARRIAGE_RETURN] + both;
            assert(all =~= more_bytes + seq![CARRIAGE_RETURN, CARRIAGE_RETURN, LINE_FEED]);
            repeated_return(more_bytes);
            returned_once_before(more_bytes, both);
            returned_once_before(bytes, both);
            assert(more.push('\r').push('\n') =~= more + seq!['\r', '\n']);
            narrow_in_pieces(more, seq!['\r', '\n']);
            assert(are_narrow(seq!['\r', '\n']));
            assert(are_narrow(seq!['\n']));
        } else {
            bytes_of_next(more, ch);
            let next = terminal_bytes(encode_utf8(seq![ch]));
            returned_once_before(more_bytes, next);
            returned_once_before(bytes, next);
            assert(more.push(ch) =~= more + seq![ch]);
            narrow_in_pieces(more, seq![ch]);
        }
    }
}

/// What a terminal is fed for one more character comes behind what it is fed for the others.
proof fn bytes_of_next(text: Seq<char>, ch: char)
    ensures
        terminal_bytes(encode_utf8(text.push(ch))) == terminal_bytes(encode_utf8(text))
            + terminal_bytes(encode_utf8(seq![ch])),
{
    encode_utf8_push(text, ch);
    terminal_bytes_concat(encode_utf8(text), encode_utf8(seq![ch]));
}

proof fn bytes_of_return_and_feed()
    ensures
        terminal_bytes(seq![CARRIAGE_RETURN]) == seq![CARRIAGE_RETURN],
        terminal_bytes(seq![LINE_FEED]) == seq![CARRIAGE_RETURN, LINE_FEED],
{
    reveal_with_fuel(terminal_bytes, 2);
    assert(seq![CARRIAGE_RETURN].drop_last() =~= Seq::empty());
    assert(seq![LINE_FEED].drop_last() =~= Seq::empty());
    assert(terminal_bytes(seq![CARRIAGE_RETURN]) =~= seq![CARRIAGE_RETURN]);
    assert(terminal_bytes(seq![LINE_FEED]) =~= seq![CARRIAGE_RETURN, LINE_FEED]);
}

/// A carriage return before a carriage return and a line feed is a repeated one.
proof fn repeated_return(bytes: Seq<u8>)
    ensures
        returned_once(
            bytes + seq![CARRIAGE_RETURN] + seq![CARRIAGE_RETURN, LINE_FEED],
        ) == returned_once(bytes + seq![CARRIAGE_RETURN, LINE_FEED]),
{
    let one = bytes + seq![CARRIAGE_RETURN];
    let two = one + seq![CARRIAGE_RETURN];
    assert(two.drop_last() =~= one);
    returned_once_ends(one);
    assert(one.last() == CARRIAGE_RETURN);
    assert(returned_once(two) == returned_once(one));
    let first = one + seq![CARRIAGE_RETURN, LINE_FEED];
    let second = bytes + seq![CARRIAGE_RETURN, LINE_FEED];
    assert(first.drop_last() =~= two);
    assert(second.drop_last() =~= one);
}

/// Text that is not empty has a code that is not.
proof fn encoding_is_not_empty(text: Seq<char>)
    requires
        text.len() > 0,
    ensures
        encode_utf8(text).len() > 0,
{
    let before = text.drop_last();
    assert(before.push(text.last()) =~= text);
    encode_utf8_push(before, text.last());
    ascii_encoding(text.last(), 0);
}

/// Whether an output has read some input, a number of characters of a text among it, and some
/// bytes of the next one.
spec fn has_read(
    output: OutputState,
    text: Seq<char>,
    input: Seq<char>,
    done: int,
    seen: int,
) -> bool {
    output.bytes == encode_utf8(input) + seen_bytes(text, done, seen)
}

/// Whether a number of characters of a text have been typed on an output behind the lines at
/// the start.
spec fn has_typed(output: OutputState, start: OutputState, text: Seq<char>, done: int) -> bool {
    let lines = lines_with(start.typed_lines(), text.take(done));
    let returned = done > 0 && text[done - 1] == '\r' && lines.last().len() > 0;
    &&& typed(output.term) == Some((lines, returned))
    &&& output.columns == start.columns
    &&& output.screen_lines == start.screen_lines
}

/// What one byte types.
spec fn step_types(before: OutputState, after: OutputState, byte: u8) -> bool {
    forall|text: Seq<char>, ch: char, seen: int| #[trigger]
        goes_on(before.bytes, byte, text, ch, seen) ==> types(
            typed(before.term),
            typed(after.term),
            ch,
            seen,
            before.columns,
            before.screen_lines + SCROLLBACK,
        )
}

/// A byte of a character is read.
proof fn byte_read(
    before: OutputState,
    after: OutputState,
    text: Seq<char>,
    input: Seq<char>,
    done: int,
    seen: int,
)
    requires
        0 <= done < text.len(),
        0 <= seen < encode_utf8(seq![text[done]]).len(),
        has_read(before, text, input, done, seen),
        after.bytes == before.bytes.push(encode_utf8(seq![text[done]])[seen]),
    ensures
        if seen + 1 < encode_utf8(seq![text[done]]).len() {
            has_read(after, text, input, done, seen + 1)
        } else {
            has_read(after, text, input.push(text[done]), done + 1, 0)
        },
{
    let ch = text[done];
    let code = encode_utf8(seq![ch]);
    code_goes_on(input, ch, seen);
    if seen + 1 == code.len() {
        assert(after.bytes =~= encode_utf8(input.push(ch)) + seen_bytes(text, done + 1, 0));
    }
}

/// With the last byte of a printable character it is typed, and so is a carriage return.
proof fn byte_typed(
    before: OutputState,
    after: OutputState,
    start: OutputState,
    text: Seq<char>,
    input: Seq<char>,
    done: int,
    seen: int,
)
    requires
        start.typed_lines().len() > 0,
        start.has_room_for(text),
        is_input(text),
        is_input(input),
        0 <= done < text.len(),
        0 <= seen < encode_utf8(seq![text[done]]).len(),
        text[done] != '\n',
        has_read(before, text, input, done, seen),
        has_typed(before, start, text, done),
        after.columns == before.columns,
        after.screen_lines == before.screen_lines,
        step_types(before, after, encode_utf8(seq![text[done]])[seen]),
    ensures
        if seen + 1 < encode_utf8(seq![text[done]]).len() {
            has_typed(after, start, text, done)
        } else {
            has_typed(after, start, text, done + 1)
        },
{
    let ch = text[done];
    code_goes_on(input, ch, seen);
    assert(is_printable(ch) || ch == '\r');
    assert(goes_on(before.bytes, encode_utf8(seq![ch])[seen], input, ch, seen));
    assert(types(
        typed(before.term),
        typed(after.term),
        ch,
        seen,
        before.columns,
        before.screen_lines + SCROLLBACK,
    ));
    if seen + 1 == encode_utf8(seq![ch]).len() {
        room_for_next(start, text, done);
        if done > 0 {
            assert(is_printable(text[done - 1]) || text[done - 1] == '\n' || text[done] == '\n');
        }
    }
}

/// A carriage return and a line feed go on behind the input.
proof fn line_goes_on(output: OutputState, text: Seq<char>, input: Seq<char>, done: int)
    requires
        0 <= done < text.len(),
        text[done] == '\n',
        has_read(output, text, input, done, 0),
    ensures
        next_of(output.bytes, CARRIAGE_RETURN, input, '\r', 0),
        next_of(output.bytes.push(CARRIAGE_RETURN), LINE_FEED, input.push('\r'), '\n', 0),
        output.bytes.push(CARRIAGE_RETURN).push(LINE_FEED) == encode_utf8(
            input.push('\r').push('\n'),
        ),
        encode_utf8(seq!['\r']).len() == 1,
        encode_utf8(seq!['\n']).len() == 1,
{
    ascii_encoding('\r', CARRIAGE_RETURN);
    ascii_encoding('\n', LINE_FEED);
    code_goes_on(input, '\r', 0);
    assert(output.bytes =~= encode_utf8(input) + encode_utf8(seq!['\r']).take(0));
    code_goes_on(input.push('\r'), '\n', 0);
    assert(output.bytes.push(CARRIAGE_RETURN) =~= encode_utf8(input.push('\r')) + encode_utf8(
        seq!['\n'],
    ).take(0));
}

/// A line feed is read, with a carriage return before it.
proof fn line_read(
    before: OutputState,
    after: OutputState,
    text: Seq<char>,
    input: Seq<char>,
    done: int,
)
    requires
        0 <= done < text.len(),
        text[done] == '\n',
        has_read(before, text, input, done, 0),
        after.bytes == before.bytes.push(CARRIAGE_RETURN).push(LINE_FEED),
    ensures
        has_read(after, text, input.push('\r').push('\n'), done + 1, 0),
{
    line_goes_on(before, text, input, done);
    let all = input.push('\r').push('\n');
    assert(after.bytes =~= encode_utf8(all) + seen_bytes(text, done + 1, 0));
}

/// A carriage return and a line feed begin a line.
proof fn line_typed(
    before: OutputState,
    between: OutputState,
    after: OutputState,
    start: OutputState,
    text: Seq<char>,
    input: Seq<char>,
    done: int,
)
    requires
        start.typed_lines().len() > 0,
        start.has_room_for(text),
        is_input(input),
        0 <= done < text.len(),
        text[done] == '\n',
        has_read(before, text, input, done, 0),
        has_typed(before, start, text, done),
        between.bytes == before.bytes.push(CARRIAGE_RETURN),
        between.columns == before.columns,
        between.screen_lines == before.screen_lines,
        after.columns == before.columns,
        after.screen_lines == before.screen_lines,
        step_types(before, between, CARRIAGE_RETURN),
        step_types(between, after, LINE_FEED),
    ensures
        has_typed(after, start, text, done + 1),
{
    line_goes_on(before, text, input, done);
    assert(goes_on(before.bytes, CARRIAGE_RETURN, input, '\r', 0));
    assert(goes_on(between.bytes, LINE_FEED, input.push('\r'), '\n', 0));
    assert(types(
        typed(before.term),
        typed(between.term),
        '\r',
        0,
        before.columns,
        before.screen_lines + SCROLLBACK,
    ));
    assert(types(
        typed(between.term),
        typed(after.term),
        '\n',
        0,
        between.columns,
        between.screen_lines + SCROLLBACK,
    ));
    room_for_next(start, text, done);
}

/// There is room for the next character of a text for which there is room.
proof fn room_for_next(start: OutputState, text: Seq<char>, done: int)
    requires
        start.typed_lines().len() > 0,
        start.has_room_for(text),
        0 <= done < text.len(),
    ensures
        wrapped(lines_with(start.typed_lines(), text.take(done + 1)), start.columns).len()
            <= start.screen_lines + SCROLLBACK,
        lines_with(start.typed_lines(), text.take(done)).len() > 0,
        text.take(done + 1).len() > 0,
        text.take(done + 1).drop_last() == text.take(done),
        text.take(done + 1).last() == text[done],
        is_printable(text[done]) || text[done] == '\n' || text[done] == '\r',
{
    shorter_text_fits(start.typed_lines(), text, done + 1, start.columns);
    shorter_text_fits(start.typed_lines(), text, done, start.columns);
    assert(text.take(done + 1).drop_last() =~= text.take(done));
}

/// A row with the same cells at the same place from the top can be read alike.
proof fn same_line_reads_alike(before: OutputState, after: OutputState, i: int)
    requires
        before.columns == after.columns >= 1,
        0 <= i < before.cells().len(),
        i < after.cells().len(),
        after.cells()[i] == before.cells()[i],
    ensures
        line_readable(
            after.term,
            after.columns,
            after.screen_lines,
            top_line(after.term, after.screen_lines) + i,
        ) == line_readable(
            before.term,
            before.columns,
            before.screen_lines,
            top_line(before.term, before.screen_lines) + i,
        ),
{
    let columns = after.columns;
    let top = top_line(before.term, before.screen_lines);
    let new_top = top_line(after.term, after.screen_lines);
    let cells = before.cells()[i];
    assert(cells[0] == grid_cells(before.term)[(top + i, 0)]);
    assert(cells[columns - 1] == grid_cells(before.term)[(top + i, columns - 1)]);
    assert(after.cells()[i][0] == grid_cells(after.term)[(new_top + i, 0)]);
    assert(after.cells()[i][columns - 1] == grid_cells(after.term)[(new_top + i, columns - 1)]);
}

/// An output with more blank rows below has the same text and the same measure, and can be read
/// if it could be read before.
proof fn grown(before: OutputState, after: OutputState)
    requires
        before.columns == after.columns >= 1,
        before.screen_lines <= before.rows().len(),
        after.cells() == before.cells() + blank_rows(
            after.screen_lines - before.rows().len(),
            after.columns,
        ),
        before.screen_lines <= after.screen_lines,
        before.readable() ==> after.rows() == before.rows() + empty_rows(
            after.screen_lines - before.rows().len(),
        ),
    ensures
        after.readable() == before.readable(),
        after.rows().len() == if before.rows().len() >= after.screen_lines {
            before.rows().len() as int
        } else {
            after.screen_lines
        },
        before.readable() ==> {
            &&& after.text() == before.text()
            &&& after.longest() == before.longest()
            &&& content_rows(after.rows()) == content_rows(before.rows())
        },
{
    let columns = after.columns;
    let total = before.rows().len() as int;
    let top = top_line(before.term, before.screen_lines);
    let new_top = top_line(after.term, after.screen_lines);
    let below = empty_rows(after.screen_lines - total);
    assert(before.cells().len() == total);
    assert(after.cells().len() == after.rows().len());
    if after.readable() {
        assert forall|line: int| top <= line < before.screen_lines implies #[trigger] line_readable(
            before.term,
            columns,
            before.screen_lines,
            line,
        ) by {
            assert(line_readable(after.term, columns, after.screen_lines, new_top + (line - top)));
            same_line_reads_alike(before, after, line - top);
        }
    }
    if before.readable() {
        assert forall|line: int|
            new_top <= line < after.screen_lines implies #[trigger] line_readable(
            after.term,
            columns,
            after.screen_lines,
            line,
        ) by {
            let i = line - new_top;
            if i < total {
                assert(line_readable(before.term, columns, before.screen_lines, top + i));
                same_line_reads_alike(before, after, i);
            } else {
                let blank = after.cells()[i];
                assert(blank == blank_rows(after.screen_lines - total, columns)[i - total]);
                assert(blank[0] == grid_cells(after.term)[(line, 0)]);
                assert(blank[columns - 1] == grid_cells(after.term)[(line, columns - 1)]);
                assert(0u16 & WIDE_CHAR_SPACER == 0) by (bit_vector);
                assert(0u16 & LEADING_WIDE_CHAR_SPACER == 0) by (bit_vector);
            }
        }
        let widths_below = after.widths().skip(total);
        assert(after.widths() =~= before.widths() + widths_below);
        no_text_in_empty_rows(below, widths_below);
        text_of_more_rows(before.rows(), below);
        measure_of_more_rows(before.rows(), before.widths(), below, widths_below);
        assert(rows_as_text(before.rows()) + Seq::<char>::empty() =~= rows_as_text(
            before.rows(),
        ));
    }
}

proof fn fed_concat(read: Seq<u8>, term: Seq<int>, first: Seq<u8>, second: Seq<u8>)
    ensures
        fed(read, term, first + second) == fed(read + first, fed(read, term, first), second),
    decreases second.len(),
{
    if second.len() == 0 {
        assert(first + second =~= first);
    } else {
        fed_concat(read, term, first, second.drop_last());
        assert((first + second).drop_last() =~= first + second.drop_last());
        assert(read + (first + second.drop_last()) =~= (read + first) + second.drop_last());
    }
}

/// What a terminal is fed for two pieces of text is what it is fed for the whole.
pub proof fn terminal_bytes_concat(first: Seq<u8>, second: Seq<u8>)
    ensures
        terminal_bytes(first + second) == terminal_bytes(first) + terminal_bytes(second),
    decreases second.len(),
{
    if second.len() == 0 {
        assert(first + second =~= first);
        assert(terminal_bytes(first) + terminal_bytes(second) =~= terminal_bytes(first));
    } else {
        terminal_bytes_concat(first, second.drop_last());
        assert((first + second).drop_last() =~= first + second.drop_last());
        assert(terminal_bytes(first + second) =~= terminal_bytes(first) + terminal_bytes(second));
    }
}

/// A terminal is fed no line feed without a carriage return before it.
pub proof fn line_feeds_return(bytes: Seq<u8>, i: int)
    requires
        0 <= i < terminal_bytes(bytes).len(),
        terminal_bytes(bytes)[i] == LINE_FEED,
    ensures
        i > 0,
        terminal_bytes(bytes)[i - 1] == CARRIAGE_RETURN,
    decreases bytes.len(),
{
    let before = terminal_bytes(bytes.drop_last());
    if i < before.len() {
        line_feeds_return(bytes.drop_last(), i);
    }
}

/// Text without a line feed is fed to a terminal as it is.
pub proof fn one_line_is_fed_as_it_is(bytes: Seq<u8>)
    requires
        !bytes.contains(LINE_FEED),
    ensures
        terminal_bytes(bytes) == bytes,
    decreases bytes.len(),
{
    if bytes.len() > 0 {
        let before = bytes.drop_last();
        assert(!before.contains(LINE_FEED)) by {
            if before.contains(LINE_FEED) {
                let i = choose|i: int| 0 <= i < before.len() && before[i] == LINE_FEED;
                assert(bytes[i] == LINE_FEED);
            }
        }
        one_line_is_fed_as_it_is(before);
        assert(bytes[bytes.len() - 1] != LINE_FEED);
        assert(before.push(bytes.last()) =~= bytes);
    }
}

/// Text that arrives in two pieces results in a single output: in the terminal it is the output
/// of the whole text, and in a buffer too, if it can be read.
pub proof fn pieces_make_one_output(output: OutputState, first: Seq<char>, second: Seq<char>)
    ensures
        output.typed_on(first).typed_on(second) == output.typed_on(first + second),
        ({
            let pieces = output.appended(first).appended(second);
            let whole = output.appended(first + second);
            &&& (OutputState { buffer: None, ..pieces }) == (OutputState { buffer: None, ..whole })
            &&& pieces.rows() == whole.rows()
            &&& pieces.text() == whole.text()
            &&& pieces.longest() == whole.longest()
            &&& output.buffer is None || whole.readable() ==> pieces == whole
        }),
{
    encode_utf8_concat(first, second);
    terminal_bytes_concat(encode_utf8(first), encode_utf8(second));
    narrow_in_pieces(first, second);
    let first_bytes = terminal_bytes(encode_utf8(first));
    let second_bytes = terminal_bytes(encode_utf8(second));
    fed_concat(output.bytes, output.term, first_bytes, second_bytes);
    assert(output.bytes + (first_bytes + second_bytes) =~= (output.bytes + first_bytes)
        + second_bytes);
}

/// An output that can take some text can take it in two pieces.
pub proof fn pieces_are_accepted(output: OutputState, first: Seq<char>, second: Seq<char>)
    requires
        output.accepts(first + second),
    ensures
        output.accepts(first),
        output.appended(first).accepts(second),
{
    encode_utf8_concat(first, second);
    terminal_bytes_concat(encode_utf8(first), encode_utf8(second));
    narrow_in_pieces(first, second);
    let first_bytes = terminal_bytes(encode_utf8(first));
    let second_bytes = terminal_bytes(encode_utf8(second));
    assert(output.bytes + (first_bytes + second_bytes) =~= (output.bytes + first_bytes)
        + second_bytes);
    colors_fit_before(output.bytes + first_bytes, second_bytes);
}

/// Text without an escape character can be appended to every output with a line and two columns
/// that has got none.
pub proof fn text_without_escape_is_accepted(output: OutputState, text: Seq<char>)
    requires
        !output.bytes.contains(0x1b),
        !text.contains('\u{1b}'),
        output.screen_lines >= 1,
        output.columns >= MIN_COLUMNS,
    ensures
        output.accepts(text),
        !output.appended(text).bytes.contains(0x1b),
{
    no_escape_together(output, text);
}

proof fn no_escape_together(output: OutputState, text: Seq<char>)
    requires
        !output.bytes.contains(0x1b),
        !text.contains('\u{1b}'),
    ensures
        colors_fit(output.appended(text).bytes),
        !output.appended(text).bytes.contains(0x1b),
{
    let bytes = terminal_bytes(encode_utf8(text));
    no_escape_encoded(text);
    no_escape_fed(encode_utf8(text));
    assert(!(output.bytes + bytes).contains(0x1b)) by {
        if (output.bytes + bytes).contains(0x1b) {
            let i = choose|i: int|
                0 <= i < (output.bytes + bytes).len() && (output.bytes + bytes)[i] == 0x1b;
            if i < output.bytes.len() {
                assert(output.bytes[i] == 0x1b);
            } else {
                assert(bytes[i - output.bytes.len()] == 0x1b);
            }
        }
    }
    no_command_without_escape(output.bytes + bytes);
}

/// Plain text can be appended to every output on which nothing but lines has been typed.
pub proof fn plain_text_is_accepted(output: OutputState, text: Seq<char>)
    requires
        output.is_typed(),
        is_plain(text),
    ensures
        output.accepts(text),
{
    let input = choose|input: Seq<char>| #[trigger] encodes_input(output.bytes, input);
    input_has_no_escape(input);
    plain_is_input(text);
    no_escape_encoded(input);
    no_escape_together(output, text);
}

proof fn no_escape_fed(bytes: Seq<u8>)
    requires
        !bytes.contains(0x1b),
    ensures
        !terminal_bytes(bytes).contains(0x1b),
    decreases bytes.len(),
{
    if bytes.len() > 0 {
        let before = bytes.drop_last();
        assert(!before.contains(0x1b)) by {
            if before.contains(0x1b) {
                let i = choose|i: int| 0 <= i < before.len() && before[i] == 0x1b;
                assert(bytes[i] == 0x1b);
            }
        }
        no_escape_fed(before);
        assert(bytes[bytes.len() - 1] != 0x1b);
        let all = terminal_bytes(bytes);
        if all.contains(0x1b) {
            let i = choose|i: int| 0 <= i < all.len() && all[i] == 0x1b;
            assert(terminal_bytes(before)[i] == 0x1b);
        }
    }
}

proof fn no_escape_encoded(text: Seq<char>)
    requires
        !text.contains('\u{1b}'),
    ensures
        !encode_utf8(text).contains(0x1b),
    decreases text.len(),
{
    if text.len() > 0 {
        let before = text.drop_last();
        assert(!before.contains('\u{1b}')) by {
            if before.contains('\u{1b}') {
                let i = choose|i: int| 0 <= i < before.len() && before[i] == '\u{1b}';
                assert(text[i] == '\u{1b}');
            }
        }
        no_escape_encoded(before);
        assert(text[text.len() - 1] != '\u{1b}');
        assert(before.push(text.last()) =~= text);
        encode_utf8_push(before, text.last());
        ascii_encoding(text.last(), 0x1b);
        let first = encode_utf8(before);
        let all = encode_utf8(text);
        if all.contains(0x1b) {
            let i = choose|i: int| 0 <= i < all.len() && all[i] == 0x1b;
            if i < first.len() {
                assert(first[i] == 0x1b);
            } else {
                assert(encode_utf8(seq![text.last()])[i - first.len()] == 0x1b);
            }
        }
    }
}

/// A line feed acts like a carriage return and a line feed, in every text: what is left of the
/// terminal without repeated carriage returns is the same, and so is whether it can take the
/// text.
pub proof fn line_feeds_act_alike(output: OutputState, text: Seq<char>)
    ensures
        output.settled(with_returns(text)) == output.settled(text),
        output.accepts(with_returns(text)) == output.accepts(text),
{
    let bytes = terminal_bytes(encode_utf8(text));
    let more = terminal_bytes(encode_utf8(with_returns(text)));
    returns_are_repeated(text);
    returned_once_behind(output.bytes, bytes);
    returned_once_behind(output.bytes, more);
    returns_lead_nowhere(output.bytes + bytes);
    returns_lead_nowhere(output.bytes + more);
}

/// A repeated carriage return leads to no other place in a command.
proof fn returns_lead_nowhere(bytes: Seq<u8>)
    ensures
        place_after_all(Place::Outside, returned_once(bytes)) == place_after_all(
            Place::Outside,
            bytes,
        ),
    decreases bytes.len(),
{
    if bytes.len() > 0 {
        let before = bytes.drop_last();
        returns_lead_nowhere(before);
        let once = returned_once(before);
        assert(once.push(bytes.last()).drop_last() =~= once);
    }
}

/// No text changes nothing.
pub proof fn no_text_changes_nothing(output: OutputState)
    requires
        output.in_step(),
    ensures
        output.appended(Seq::empty()) == output,
{
    assert(output.bytes + Seq::<u8>::empty() =~= output.bytes);
    if let Some(buffer) = output.buffer {
        assert(buffer + Seq::<char>::empty() =~= buffer);
    }
}

/// A buffer holds the text of its output, whenever it was opened and whatever was appended
/// since, as long as that text can be read.
pub proof fn buffer_follows_output(output: OutputState, text: Seq<char>)
    requires
        output.in_step(),
    ensures
        output.opened().in_step(),
        output.opened().appended(text).in_step(),
        output.buffer is None ==> output.opened().buffer == Some(output.text()),
        output.appended(text).readable() ==> output.opened().appended(text)
            == output.appended(text).opened(),
{
}

/// An output is opened once: it stays in its buffer, whatever happens to it. No text opens it.
pub proof fn buffer_stays_open(
    output: OutputState,
    text: Seq<char>,
    settings: ReplSettings,
    cell_width: Pixels,
    line_height: Pixels,
)
    ensures
        output.opened().opened() == output.opened(),
        output.appended(text).buffer is Some <==> output.buffer is Some,
        output.opened().fitted(settings, cell_width, line_height).buffer == output.opened().buffer,
{
}

/// An open buffer makes no difference to the terminal.
pub proof fn buffer_leaves_terminal_alone(
    output: OutputState,
    text: Seq<char>,
    settings: ReplSettings,
    cell_width: Pixels,
    line_height: Pixels,
)
    ensures
        (OutputState { buffer: None, ..output.opened() }) == (OutputState {
            buffer: None,
            ..output
        }),
        (OutputState { buffer: None, ..output.opened().appended(text) }) == (OutputState {
            buffer: None,
            ..output.appended(text)
        }),
        (OutputState {
            buffer: None,
            ..output.opened().fitted(settings, cell_width, line_height)
        }) == (OutputState { buffer: None, ..output.fitted(settings, cell_width, line_height) }),
{
}

/// Appending never changes the size of the grid.
pub proof fn appending_keeps_size(output: OutputState, text: Seq<char>)
    ensures
        output.appended(text).columns == output.columns,
        output.appended(text).screen_lines == output.screen_lines,
{
}

/// A grid that is fitted has the fitting number of lines, which is within the hard bound, if
/// cells have a size. It has no other number of columns.
pub proof fn fitted_grid_is_bounded(
    output: OutputState,
    settings: ReplSettings,
    cell_width: Pixels,
    line_height: Pixels,
)
    ensures
        output.fitted(settings, cell_width, line_height).columns == output.columns,
        cell_width.units > 0 && line_height.units > 0 ==> {
            let lines = output.fitted(settings, cell_width, line_height).screen_lines;
            &&& lines == settings.fitting_lines(output.rows().len() as int)
            &&& 1 <= lines <= MAX_GRID_LINES
        },
{
}

/// A grid gets taller when it holds more rows than lines, up to the hard bound.
pub proof fn grid_grows_for_taller_content(
    output: OutputState,
    settings: ReplSettings,
    cell_width: Pixels,
    line_height: Pixels,
)
    requires
        cell_width.units > 0,
        line_height.units > 0,
        output.screen_lines < output.rows().len(),
        output.screen_lines < MAX_GRID_LINES,
    ensures
        output.fitted(settings, cell_width, line_height).screen_lines > output.screen_lines,
        output.rows().len() <= MAX_GRID_LINES ==> output.fitted(
            settings,
            cell_width,
            line_height,
        ).screen_lines >= output.rows().len(),
{
}

/// Something that is done to an output.
pub enum Step {
    Append { text: Seq<char> },
    Fit { settings: ReplSettings, cell_width: Pixels, line_height: Pixels },
    Open,
}

impl OutputState {
    /// The output after one step.
    pub open spec fn after(self, step: Step) -> OutputState {
        match step {
            Step::Append { text } => self.appended(text),
            Step::Fit { settings, cell_width, line_height } => self.fitted(
                settings,
                cell_width,
                line_height,
            ),
            Step::Open => self.opened(),
        }
    }

    /// The output after some steps.
    pub open spec fn after_all(self, steps: Seq<Step>) -> OutputState
        decreases steps.len(),
    {
        if steps.len() == 0 {
            self
        } else {
            self.after_all(steps.drop_last()).after(steps.last())
        }
    }
}

/// Whatever is done to an output, the number of columns stays, and the number of lines never
/// gets past the hard bound.
pub proof fn grid_never_runs_away(output: OutputState, steps: Seq<Step>)
    requires
        output.screen_lines <= MAX_GRID_LINES,
    ensures
        output.after_all(steps).columns == output.columns,
        output.after_all(steps).screen_lines <= MAX_GRID_LINES,
    decreases steps.len(),
{
    if steps.len() > 0 {
        grid_never_runs_away(output, steps.drop_last());
    }
}

/// Whatever is done to a new output, its grid stays within the hard bounds.
pub proof fn grid_respects_hard_bounds(settings: ReplSettings, steps: Seq<Step>)
    ensures
        ({
            let output = OutputState::initial(settings.grid_columns(), settings.grid_lines());
            &&& 1 <= output.after_all(steps).columns <= MAX_GRID_COLUMNS
            &&& output.after_all(steps).screen_lines <= MAX_GRID_LINES
        }),
{
    grid_never_runs_away(
        OutputState::initial(settings.grid_columns(), settings.grid_lines()),
        steps,
    );
}

} // verus!

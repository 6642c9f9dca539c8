//! Plain text: printable characters and line feeds. What is typed of it on a terminal can be
//! read back from there.

use crate::emulator::{
    are_narrow, empty_rows, is_input, is_narrow, is_printable, next_of, shown, shown_line,
    typed_rows,
};
use crate::text::{
    clean_line_stays, content_rows, content_width, is_clean, is_noise, is_padding, is_white,
    is_white_space, longest_content_is_least, longest_line, longest_of_more_lines,
    no_text_in_empty_rows, nothing_is_noise, pieces, rows_as_text, sanitized, terminated,
    text_line_comes_from, text_lines, text_lines_are_clean, text_lines_have_content,
    text_of_more_rows, trimmed_end, trimmed_end_keeps, without_noise, wrapped,
};
use vstd::prelude::*;
use vstd::utf8::{
    char_is_scalar, char_u32_cast, encode_scalar, encode_utf8, is_scalar, last_continuation_byte,
    leading_byte_width_1, leading_byte_width_2, leading_byte_width_3, leading_byte_width_4,
    second_last_continuation_byte, third_last_continuation_byte,
};

verus! {

/// Text without anything but printable characters and line feeds, which may have a carriage
/// return before them.
pub open spec fn is_plain(text: Seq<char>) -> bool {
    forall|i: int|
        0 <= i < text.len() ==> is_printable(#[trigger] text[i]) || text[i] == '\n' || (text[i]
            == '\r' && i + 1 < text.len() && text[i + 1] == '\n')
}

/// Tells whether a character is printable.
pub fn printable(ch: char) -> (printable: bool)
    ensures
        printable == is_printable(ch),
{
    let code: u32 = ch as u32;
    (0x20 <= code && code <= 0x7e) || (0xa1 <= code && code <= 0xac) || (0xae <= code && code
        <= 0x2ff) || (0x391 <= code && code <= 0x3a1) || (0x3a3 <= code && code <= 0x482) || (0x48a
        <= code && code <= 0x52f) || (0x2010 <= code && code <= 0x2027) || (0x2190 <= code && code
        <= 0x22ff) || (0x2500 <= code && code <= 0x259f)
}

/// Tells whether a character is narrow.
pub fn narrow(ch: char) -> (narrow: bool)
    ensures
        narrow == is_narrow(ch),
{
    let code: u32 = ch as u32;
    code < 0x1100 || printable(ch)
}

/// Tells whether some text is all narrow characters.
pub fn only_narrow(text: &str) -> (only: bool)
    ensures
        only == are_narrow(text@),
{
    let mut only: bool = true;
    for ch in it: text.chars()
        invariant
            it.seq() == text@,
            only == are_narrow(text@.take(it.index())),
    {
        let ghost at = it.index();
        let narrow_ch: bool = narrow(ch);
        proof {
            let last = seq![ch];
            assert(text@.take(at + 1) =~= text@.take(at) + last);
            narrow_in_pieces(text@.take(at), last);
            assert(are_narrow(last) ==> is_narrow(last[0]));
        }
        only = only && narrow_ch;
    }
    assert(text@.take(text@.len() as int) =~= text@);
    only
}

/// Two pieces of text are all narrow characters if and only if the whole is.
pub proof fn narrow_in_pieces(first: Seq<char>, second: Seq<char>)
    ensures
        are_narrow(first + second) == (are_narrow(first) && are_narrow(second)),
{
    let all = first + second;
    if are_narrow(all) {
        assert forall|i: int| 0 <= i < first.len() implies is_narrow(#[trigger] first[i]) by {
            assert(first[i] == all[i]);
        }
        assert forall|i: int| 0 <= i < second.len() implies is_narrow(#[trigger] second[i]) by {
            assert(second[i] == all[i + first.len()]);
        }
    }
}

/// Plain text is printable characters, carriage returns and line feeds.
pub proof fn plain_is_input(text: Seq<char>)
    requires
        is_plain(text),
    ensures
        is_input(text),
        are_narrow(text),
        !text.contains('\u{1b}'),
{
    assert(is_input(text));
    input_is_narrow(text);
    input_has_no_escape(text);
}

/// Printable characters, carriage returns and line feeds are narrow.
pub proof fn input_is_narrow(text: Seq<char>)
    requires
        is_input(text),
    ensures
        are_narrow(text),
{
    assert forall|i: int| 0 <= i < text.len() implies is_narrow(#[trigger] text[i]) by {
        assert(is_printable(text[i]) || text[i] == '\r' || text[i] == '\n');
    }
}

/// There is no escape character among printable characters, carriage returns and line feeds.
pub proof fn input_has_no_escape(text: Seq<char>)
    requires
        is_input(text),
    ensures
        !text.contains('\u{1b}'),
{
    if text.contains('\u{1b}') {
        let i = choose|i: int| 0 <= i < text.len() && text[i] == '\u{1b}';
        assert(is_printable(text[i]) || text[i] == '\r' || text[i] == '\n');
    }
}

/// Two pieces of text are encoded one after the other.
pub proof fn encode_utf8_concat(first: Seq<char>, second: Seq<char>)
    ensures
        encode_utf8(first + second) == encode_utf8(first) + encode_utf8(second),
    decreases first.len(),
{
    if first.len() == 0 {
        assert(first + second =~= second);
        assert(encode_utf8(first) + encode_utf8(second) =~= encode_utf8(second));
    } else {
        encode_utf8_concat(first.drop_first(), second);
        assert((first + second).drop_first() =~= first.drop_first() + second);
        assert(encode_utf8(first + second) =~= encode_utf8(first) + encode_utf8(second));
    }
}

/// A character behind some text is encoded behind the text.
pub proof fn encode_utf8_push(text: Seq<char>, ch: char)
    ensures
        encode_utf8(text.push(ch)) == encode_utf8(text) + encode_utf8(seq![ch]),
{
    assert(text.push(ch) =~= text + seq![ch]);
    encode_utf8_concat(text, seq![ch]);
}

/// A byte of ASCII encodes the character that it is, and occurs in the code of no other.
pub proof fn ascii_encoding(ch: char, byte: u8)
    requires
        byte < 0x80,
    ensures
        encode_utf8(seq![ch]).len() > 0,
        ch == byte as char ==> encode_utf8(seq![ch]) == seq![byte],
        ch != byte as char ==> !encode_utf8(seq![ch]).contains(byte),
{
    let scalar = ch as u32;
    char_is_scalar(ch);
    char_u32_cast(ch, scalar);
    reveal_with_fuel(encode_utf8, 2);
    assert(seq![ch].drop_first() =~= Seq::empty());
    assert(encode_utf8(seq![ch]) =~= encode_scalar(scalar));
    assert(byte < 0x80 ==> (scalar == byte as u32 ==> (scalar & 0x7f) as u8 == byte)) by (
    bit_vector);
    if scalar != byte {
        ascii_in_scalar(scalar, byte);
    }
}

proof fn ascii_in_scalar(scalar: u32, byte: u8)
    requires
        is_scalar(scalar),
        byte < 0x80,
        scalar != byte,
    ensures
        !encode_scalar(scalar).contains(byte),
{
    assert(leading_byte_width_1(scalar) != byte || scalar > 0x7f) by (bit_vector)
        requires
            scalar != byte,
    ;
    assert(leading_byte_width_2(scalar) >= 0x80) by (bit_vector);
    assert(leading_byte_width_3(scalar) >= 0x80) by (bit_vector);
    assert(leading_byte_width_4(scalar) >= 0x80) by (bit_vector);
    assert(last_continuation_byte(scalar) >= 0x80) by (bit_vector);
    assert(second_last_continuation_byte(scalar) >= 0x80) by (bit_vector);
    assert(third_last_continuation_byte(scalar) >= 0x80) by (bit_vector);
}

/// Whether a number of bytes of the code of a text are those of a number of its characters,
/// and a number of bytes of the next one.
pub open spec fn at_byte(text: Seq<char>, bytes: int, done: int, seen: int) -> bool {
    &&& 0 <= done <= text.len()
    &&& 0 <= seen
    &&& done < text.len() ==> seen < encode_utf8(seq![text[done]]).len()
    &&& done == text.len() ==> seen == 0
    &&& bytes == encode_utf8(text.take(done)).len() + seen
}

/// The bytes that have been seen of the next character of a text.
pub open spec fn seen_bytes(text: Seq<char>, done: int, seen: int) -> Seq<u8> {
    if 0 <= done < text.len() {
        encode_utf8(seq![text[done]]).take(seen)
    } else {
        Seq::empty()
    }
}

/// The next byte of the code of a text is the next one of the next character.
pub proof fn next_byte(text: Seq<char>, bytes: int, done: int, seen: int)
    requires
        at_byte(text, bytes, done, seen),
    ensures
        bytes <= encode_utf8(text).len(),
        bytes == encode_utf8(text).len() <==> done == text.len(),
        done < text.len() ==> {
            let code = encode_utf8(seq![text[done]]);
            &&& encode_utf8(text)[bytes] == code[seen]
            &&& if seen + 1 < code.len() {
                at_byte(text, bytes + 1, done, seen + 1)
            } else {
                at_byte(text, bytes + 1, done + 1, 0)
            }
        },
{
    if done == text.len() {
        assert(text.take(done) =~= text);
    } else {
        let before = text.take(done);
        let ch = text[done];
        let rest = text.skip(done + 1);
        assert(text =~= before.push(ch) + rest);
        assert(text.take(done + 1) =~= before.push(ch));
        encode_utf8_push(before, ch);
        encode_utf8_concat(before.push(ch), rest);
        if done + 1 < text.len() {
            ascii_encoding(text[done + 1], 0);
        }
    }
}

/// Whether some bytes are the code of printable characters, carriage returns and line feeds.
pub open spec fn encodes_input(bytes: Seq<u8>, text: Seq<char>) -> bool {
    &&& is_input(text)
    &&& bytes == encode_utf8(text)
}

/// Whether some bytes are the code of narrow characters.
pub open spec fn encodes_narrow(bytes: Seq<u8>, text: Seq<char>) -> bool {
    &&& are_narrow(text)
    &&& bytes == encode_utf8(text)
}

/// A character behind some text goes on with its next byte, until it is part of the text.
pub proof fn code_goes_on(text: Seq<char>, ch: char, seen: int)
    requires
        0 <= seen < encode_utf8(seq![ch]).len(),
    ensures
        ({
            let code = encode_utf8(seq![ch]);
            let read = encode_utf8(text) + code.take(seen);
            &&& next_of(read, code[seen], text, ch, seen)
            &&& read.push(code[seen]) == if seen + 1 < code.len() {
                encode_utf8(text) + code.take(seen + 1)
            } else {
                encode_utf8(text.push(ch))
            }
        }),
{
    let code = encode_utf8(seq![ch]);
    let read = encode_utf8(text) + code.take(seen);
    assert(read.push(code[seen]) =~= encode_utf8(text) + code.take(seen + 1));
    if seen + 1 == code.len() {
        assert(code.take(seen + 1) =~= code);
        encode_utf8_push(text, ch);
    }
}

/// Some lines, at least one, with text typed behind the last of them. Carriage returns before
/// line feeds make no difference.
pub open spec fn lines_with(lines: Seq<Seq<char>>, text: Seq<char>) -> Seq<Seq<char>>
    decreases text.len(),
{
    if text.len() == 0 {
        lines
    } else {
        let before = lines_with(lines, text.drop_last());
        if text.last() == '\n' {
            before.push(Seq::empty())
        } else if text.last() == '\r' {
            before
        } else {
            before.update(before.len() - 1, before.last().push(text.last()))
        }
    }
}

/// The lines of a text.
pub open spec fn lines_of(text: Seq<char>) -> Seq<Seq<char>> {
    lines_with(seq![Seq::empty()], text)
}

/// Lines with more text take no less rows than without it.
pub proof fn shorter_text_fits(lines: Seq<Seq<char>>, text: Seq<char>, len: int, columns: int)
    requires
        lines.len() > 0,
        0 <= len <= text.len(),
    ensures
        wrapped(lines_with(lines, text.take(len)), columns).len() <= wrapped(
            lines_with(lines, text),
            columns,
        ).len(),
        lines_with(lines, text.take(len)).len() > 0,
    decreases text.len(),
{
    never_without_lines(lines, text.take(len));
    if len == text.len() {
        assert(text.take(len) =~= text);
    } else {
        let before = lines_with(lines, text.drop_last());
        let all = lines_with(lines, text);
        never_without_lines(lines, text.drop_last());
        if text.last() == '\n' {
            assert(all.drop_last() =~= before);
        } else if text.last() != '\r' {
            assert(all.drop_last() =~= before.drop_last());
            longer_line_takes_more(before.last(), text.last(), columns);
        }
        shorter_text_fits(lines, text.drop_last(), len, columns);
        assert(text.drop_last().take(len) =~= text.take(len));
    }
}

proof fn longer_line_takes_more(line: Seq<char>, ch: char, columns: int)
    ensures
        0 < pieces(line, columns).len() <= pieces(line.push(ch), columns).len(),
    decreases line.len(),
{
    if columns > 0 && line.len() > columns {
        longer_line_takes_more(line.skip(columns), ch, columns);
        assert(line.push(ch).skip(columns) =~= line.skip(columns).push(ch));
    }
}

/// A line is not lost in its pieces. Each is as long as it may be, but the last, which holds
/// what is left.
pub proof fn pieces_make_line(line: Seq<char>, columns: int)
    requires
        columns > 0,
    ensures
        pieces(line, columns).flatten() == line,
        pieces(line, columns).len() > 0,
        pieces(line, columns).last().len() <= columns,
        line.len() > 0 ==> pieces(line, columns).last().len() > 0,
        forall|i: int|
            0 <= i < pieces(line, columns).len() - 1 ==> (#[trigger] pieces(line, columns)[i]).len()
                == columns,
    decreases line.len(),
{
    let all = pieces(line, columns);
    if line.len() <= columns {
        assert(all.drop_first() =~= Seq::empty());
        assert(all.flatten() =~= line) by {
            reveal_with_fuel(Seq::flatten, 2);
        }
    } else {
        let rest = line.skip(columns);
        pieces_make_line(rest, columns);
        assert(all.drop_first() =~= pieces(rest, columns));
        assert(all.flatten() =~= line.take(columns) + rest);
        assert forall|i: int| 0 <= i < all.len() - 1 implies (#[trigger] all[i]).len()
            == columns by {
            if i > 0 {
                assert(all[i] == pieces(rest, columns)[i - 1]);
            }
        }
    }
}

/// Lines that fit in a row each are not wrapped.
pub proof fn fitting_lines_stay(lines: Seq<Seq<char>>, columns: int)
    requires
        forall|i: int| 0 <= i < lines.len() ==> (#[trigger] lines[i]).len() <= columns,
    ensures
        wrapped(lines, columns) == lines,
    decreases lines.len(),
{
    if lines.len() > 0 {
        let before = lines.drop_last();
        assert forall|i: int| 0 <= i < before.len() implies (#[trigger] before[i]).len()
            <= columns by {
            assert(before[i] == lines[i]);
        }
        fitting_lines_stay(before, columns);
        assert(lines[lines.len() - 1].len() <= columns);
        assert(before + seq![lines.last()] =~= lines);
    }
}

/// No row of wrapped lines is wider than the number of columns.
pub proof fn wrapped_lines_fit(lines: Seq<Seq<char>>, columns: int)
    requires
        columns > 0,
    ensures
        longest_line(wrapped(lines, columns)) <= columns,
        wrapped(lines, columns).len() >= lines.len(),
    decreases lines.len(),
{
    if lines.len() > 0 {
        wrapped_lines_fit(lines.drop_last(), columns);
        let rows = pieces(lines.last(), columns);
        pieces_make_line(lines.last(), columns);
        assert forall|i: int| 0 <= i < rows.len() implies (#[trigger] rows[i]).len() <= columns by {
            if i == rows.len() - 1 {
                assert(rows[i] == rows.last());
            }
        }
        short_rows_have_short_content(rows, columns);
        longest_of_more_lines(wrapped(lines.drop_last(), columns), rows);
    }
}

proof fn short_rows_have_short_content(rows: Seq<Seq<char>>, columns: int)
    requires
        columns >= 0,
        forall|i: int| 0 <= i < rows.len() ==> (#[trigger] rows[i]).len() <= columns,
    ensures
        longest_line(rows) <= columns,
    decreases rows.len(),
{
    if rows.len() > 0 {
        let before = rows.drop_last();
        assert forall|i: int| 0 <= i < before.len() implies (#[trigger] before[i]).len()
            <= columns by {
            assert(before[i] == rows[i]);
        }
        short_rows_have_short_content(before, columns);
        assert(rows[rows.len() - 1].len() <= columns);
        trimmed_end_keeps(rows.last(), |ch: char| is_padding(ch));
    }
}

/// Typing never leaves a terminal without lines.
proof fn never_without_lines(lines: Seq<Seq<char>>, text: Seq<char>)
    requires
        lines.len() > 0,
    ensures
        lines_with(lines, text).len() > 0,
    decreases text.len(),
{
    if text.len() > 0 {
        never_without_lines(lines, text.drop_last());
    }
}

/// Text in two pieces makes the lines of the whole.
pub proof fn lines_with_more(lines: Seq<Seq<char>>, first: Seq<char>, second: Seq<char>)
    ensures
        lines_with(lines, first + second) == lines_with(lines_with(lines, first), second),
    decreases second.len(),
{
    if second.len() == 0 {
        assert(first + second =~= first);
    } else {
        lines_with_more(lines, first, second.drop_last());
        assert((first + second).drop_last() =~= first + second.drop_last());
    }
}

/// Typing a line, of which each character stays on it, and a line feed.
proof fn lines_with_line(lines: Seq<Seq<char>>, line: Seq<char>)
    requires
        lines.len() > 0,
        lines.last() == Seq::<char>::empty(),
        forall|i: int| 0 <= i < line.len() ==> #[trigger] line[i] != '\n' && line[i] != '\r',
    ensures
        lines_with(lines, line) == lines.drop_last().push(line),
        lines_with(lines, line.push('\n')) == lines.drop_last().push(line).push(Seq::empty()),
    decreases line.len(),
{
    if line.len() == 0 {
        assert(line =~= lines.last());
        assert(lines.drop_last().push(line) =~= lines);
    } else {
        let before = line.drop_last();
        assert forall|i: int| 0 <= i < before.len() implies #[trigger] before[i] != '\n'
            && before[i] != '\r' by {
            assert(before[i] == line[i]);
        }
        lines_with_line(lines, before);
        assert(line[line.len() - 1] != '\n' && line[line.len() - 1] != '\r');
        assert(before.push(line.last()) =~= line);
        assert(lines_with(lines, line) =~= lines.drop_last().push(line));
    }
    assert(line.push('\n').drop_last() =~= line);
}

/// Some text with a carriage return before each line feed.
pub open spec fn with_returns(text: Seq<char>) -> Seq<char>
    decreases text.len(),
{
    if text.len() == 0 {
        Seq::empty()
    } else if text.last() == '\n' {
        with_returns(text.drop_last()).push('\r').push('\n')
    } else {
        with_returns(text.drop_last()).push(text.last())
    }
}

/// Whether a line holds no line feed and no carriage return.
pub open spec fn is_one_line(line: Seq<char>) -> bool {
    forall|i: int| 0 <= i < line.len() ==> #[trigger] line[i] != '\n' && line[i] != '\r'
}

/// The lines of some terminated lines are these, and an empty one behind them.
pub proof fn lines_of_terminated(lines: Seq<Seq<char>>)
    requires
        forall|i: int| 0 <= i < lines.len() ==> is_one_line(#[trigger] lines[i]),
    ensures
        lines_of(terminated(lines)) == lines.push(Seq::empty()),
    decreases lines.len(),
{
    if lines.len() == 0 {
        assert(lines.push(Seq::empty()) =~= seq![Seq::<char>::empty()]);
    } else {
        let before = lines.drop_last();
        let last = lines.last();
        assert forall|i: int| 0 <= i < before.len() implies is_one_line(#[trigger] before[i]) by {
            assert(before[i] == lines[i]);
        }
        assert(is_one_line(lines[lines.len() - 1]));
        lines_of_terminated(before);
        lines_with_more(seq![Seq::empty()], terminated(before), last.push('\n'));
        lines_with_line(before.push(Seq::empty()), last);
        assert(before.push(Seq::empty()).drop_last() =~= before);
        assert(before.push(last) =~= lines);
    }
}

/// A line feed with a carriage return before it is typed like one without it.
pub proof fn returns_make_no_difference(lines: Seq<Seq<char>>, text: Seq<char>)
    ensures
        lines_with(lines, text) == lines_with(lines, text.filter(|ch: char| ch != '\r')),
    decreases text.len(),
{
    reveal(Seq::filter);
    let keep = |ch: char| ch != '\r';
    if text.len() > 0 {
        let before = text.drop_last();
        returns_make_no_difference(lines, before);
        if text.last() != '\r' {
            let kept = before.filter(keep);
            assert(text.filter(keep) == kept.push(text.last()));
            assert(kept.push(text.last()).drop_last() =~= kept);
        }
    }
}

/// Spaces at the end of a row make no difference to its text and its measure.
proof fn spaces_at_end(row: Seq<char>)
    ensures
        ({
            let shown = trimmed_end(row, |ch: char| ch == ' ');
            &&& sanitized(shown) == sanitized(row)
            &&& content_width(shown) == content_width(row)
        }),
    decreases row.len(),
{
    if row.len() > 0 && row.last() == ' ' {
        let before = row.drop_last();
        spaces_at_end(before);
        reveal(Seq::filter);
        let kept = without_noise(before);
        assert(without_noise(row) == kept.push(' '));
        assert(kept.push(' ').drop_last() =~= kept);
        assert(is_white(kept.push(' ')) == is_white(kept)) by {
            if is_white(kept.push(' ')) {
                assert forall|i: int| 0 <= i < kept.len() implies is_white_space(
                    #[trigger] kept[i],
                ) by {
                    assert(kept.push(' ')[i] == kept[i]);
                }
            }
        }
    }
}

/// What is read from the rows on which lines have been typed is what is read from the lines,
/// where they are wrapped.
pub proof fn typed_lines_read_back(lines: Seq<Seq<char>>, columns: int, screen_lines: int)
    ensures
        rows_as_text(typed_rows(lines, columns, screen_lines)) == rows_as_text(
            wrapped(lines, columns),
        ),
        longest_line(typed_rows(lines, columns, screen_lines)) == longest_line(
            wrapped(lines, columns),
        ),
        content_rows(typed_rows(lines, columns, screen_lines)) == content_rows(
            wrapped(lines, columns),
        ),
{
    let above = shown(lines, columns);
    let below = empty_rows(screen_lines - above.len());
    shown_lines(lines, columns);
    no_text_in_empty_rows(below, Seq::empty());
    text_of_more_rows(above, below);
    longest_of_more_lines(above, below);
    assert(rows_as_text(above) + Seq::<char>::empty() =~= rows_as_text(above));
}

proof fn shown_lines(lines: Seq<Seq<char>>, columns: int)
    ensures
        ({
            let rows = shown(lines, columns);
            &&& text_lines(rows) == text_lines(wrapped(lines, columns))
            &&& longest_line(rows) == longest_line(wrapped(lines, columns))
            &&& content_rows(rows) == content_rows(wrapped(lines, columns))
        }),
    decreases lines.len(),
{
    if lines.len() > 0 {
        let before = lines.drop_last();
        let rows = pieces(lines.last(), columns);
        let last = shown_line(lines.last(), columns);
        shown_lines(before, columns);
        longer_line_takes_more(lines.last(), ' ', columns);
        spaces_at_end(rows.last());
        assert(last.drop_last() =~= rows.drop_last());
        text_of_more_rows(shown(before, columns), last);
        text_of_more_rows(wrapped(before, columns), rows);
        longest_of_more_lines(shown(before, columns), last);
        longest_of_more_lines(wrapped(before, columns), rows);
    }
}

/// Clean lines without line feeds in them.
pub open spec fn are_clean_lines(lines: Seq<Seq<char>>) -> bool {
    forall|i: int|
        0 <= i < lines.len() ==> is_clean(#[trigger] lines[i]) && !lines[i].contains('\n')
}

/// A clean line without a line feed has no carriage return either.
proof fn clean_is_one_line(line: Seq<char>)
    requires
        is_clean(line),
        !line.contains('\n'),
    ensures
        is_one_line(line),
{
    assert forall|i: int| 0 <= i < line.len() implies #[trigger] line[i] != '\n' && line[i]
        != '\r' by {
        assert(line.contains(line[i]));
        assert(!is_noise(line[i]));
    }
}

/// Clean lines, with a line feed behind each, are the lines of what they make.
pub proof fn lines_of_clean_lines(lines: Seq<Seq<char>>)
    requires
        are_clean_lines(lines),
    ensures
        lines_of(terminated(lines)) == lines.push(Seq::empty()),
{
    assert forall|i: int| 0 <= i < lines.len() implies is_one_line(#[trigger] lines[i]) by {
        clean_is_one_line(lines[i]);
    }
    lines_of_terminated(lines);
}

/// Clean lines that fit in a row each, with a line feed behind each, are read back as they were
/// written.
pub proof fn clean_lines_are_read_back(lines: Seq<Seq<char>>, columns: int)
    requires
        are_clean_lines(lines),
        forall|i: int| 0 <= i < lines.len() ==> (#[trigger] lines[i]).len() <= columns,
        columns > 0,
    ensures
        rows_as_text(wrapped(lines_of(terminated(lines)), columns)) == terminated(lines),
        content_rows(wrapped(lines_of(terminated(lines)), columns)) == lines.len(),
        wrapped(lines_of(terminated(lines)), columns).len() == lines.len() + 1,
{
    lines_of_clean_lines(lines);
    clean_rows(lines);
    let below = seq![Seq::<char>::empty()];
    let all = lines + below;
    assert(lines.push(Seq::empty()) =~= all);
    assert forall|i: int| 0 <= i < all.len() implies (#[trigger] all[i]).len() <= columns by {
        if i < lines.len() {
            assert(all[i] == lines[i]);
        }
    }
    fitting_lines_stay(all, columns);
    no_text_in_empty_rows(below, Seq::empty());
    text_of_more_rows(lines, below);
    longest_of_more_lines(lines, below);
    assert(rows_as_text(lines) + Seq::<char>::empty() =~= rows_as_text(lines));
}

/// A clean line that fits in a row is read back with a line feed behind it, whether or not it
/// was written with one, and is as wide as it has characters.
pub proof fn clean_line_is_read_back(line: Seq<char>, columns: int)
    requires
        is_clean(line),
        !line.contains('\n'),
        line.len() <= columns,
    ensures
        rows_as_text(wrapped(lines_of(line), columns)) == line.push('\n'),
        rows_as_text(wrapped(lines_of(line.push('\n')), columns)) == line.push('\n'),
        longest_line(wrapped(lines_of(line), columns)) == line.len(),
        content_rows(wrapped(lines_of(line), columns)) == 1,
{
    let lines = seq![line];
    clean_is_one_line(line);
    lines_with_line(seq![Seq::empty()], line);
    assert(seq![Seq::<char>::empty()].drop_last().push(line) =~= lines);
    assert(lines.drop_last() =~= Seq::empty());
    reveal_with_fuel(terminated, 2);
    reveal_with_fuel(longest_line, 2);
    assert(terminated(lines) =~= line.push('\n'));
    clean_row_width(line);
    fitting_lines_stay(lines, columns);
    clean_lines_are_read_back(lines, columns);
    clean_rows(lines);
}

/// The lines of the text of rows without line feeds are clean, and an empty one stands behind
/// them.
pub proof fn text_has_clean_lines(rows: Seq<Seq<char>>)
    requires
        forall|i: int| 0 <= i < rows.len() ==> !(#[trigger] rows[i]).contains('\n'),
    ensures
        lines_of(rows_as_text(rows)) == text_lines(rows).push(Seq::empty()),
        are_clean_lines(text_lines(rows)),
{
    let lines = text_lines(rows);
    assert forall|i: int| 0 <= i < lines.len() implies is_clean(#[trigger] lines[i])
        && !lines[i].contains('\n') by {
        text_lines_are_clean(rows, i);
        let j = text_line_comes_from(rows, i);
        if lines[i].contains('\n') {
            let k = choose|k: int| 0 <= k < lines[i].len() && lines[i][k] == '\n';
            assert(rows[j].contains(lines[i][k]));
        }
    }
    lines_of_clean_lines(lines);
}

/// The full text of an output of plain text makes an output with the same full text, if there
/// is room for it.
pub proof fn full_text_is_read_back(text: Seq<char>, columns: int)
    requires
        columns > 0,
        is_plain(text),
    ensures
        ({
            let full_text = rows_as_text(wrapped(lines_of(text), columns));
            &&& is_plain(full_text)
            &&& rows_as_text(wrapped(lines_of(full_text), columns)) == full_text
            &&& wrapped(lines_of(full_text), columns).len() <= wrapped(
                lines_of(text),
                columns,
            ).len() + 1
        }),
{
    plain_lines_are_printable(text, text.len() as int);
    assert(text.take(text.len() as int) =~= text);
    text_of_lines_is_read_back(lines_of(text), columns);
}

proof fn plain_lines_are_printable(text: Seq<char>, len: int)
    requires
        is_plain(text),
        0 <= len <= text.len(),
    ensures
        lines_of(text.take(len)).len() > 0,
        forall|i: int|
            0 <= i < lines_of(text.take(len)).len() ==> are_printable(
                #[trigger] lines_of(text.take(len))[i],
            ),
    decreases len,
{
    if len == 0 {
        assert(lines_of(text.take(0)) =~= seq![Seq::<char>::empty()]);
    } else {
        plain_lines_are_printable(text, len - 1);
        let before = lines_of(text.take(len - 1));
        let lines = lines_of(text.take(len));
        let ch = text[len - 1];
        assert(text.take(len).drop_last() =~= text.take(len - 1));
        assert(is_printable(ch) || ch == '\n' || ch == '\r');
        assert forall|i: int| 0 <= i < lines.len() implies are_printable(#[trigger] lines[i]) by {
            if i < before.len() {
                assert(are_printable(before[i]));
            }
        }
    }
}

/// The text of rows of printable characters that fit, wherever they were put, makes an output
/// with the same text, if there is room for it.
pub proof fn printable_text_is_read_back(rows: Seq<Seq<char>>, columns: int)
    requires
        columns > 0,
        forall|i: int| 0 <= i < rows.len() ==> are_printable(#[trigger] rows[i]),
        forall|i: int| 0 <= i < rows.len() ==> (#[trigger] rows[i]).len() <= columns,
    ensures
        ({
            let text = rows_as_text(rows);
            &&& is_plain(text)
            &&& rows_as_text(wrapped(lines_of(text), columns)) == text
            &&& wrapped(lines_of(text), columns).len() <= rows.len() + 1
        }),
{
    fitting_lines_stay(rows, columns);
    text_of_lines_is_read_back(rows, columns);
}

/// The text of printable lines is read back, if there is room for it.
proof fn text_of_lines_is_read_back(lines: Seq<Seq<char>>, columns: int)
    requires
        columns > 0,
        forall|i: int| 0 <= i < lines.len() ==> are_printable(#[trigger] lines[i]),
    ensures
        ({
            let text = rows_as_text(wrapped(lines, columns));
            &&& is_plain(text)
            &&& rows_as_text(wrapped(lines_of(text), columns)) == text
            &&& wrapped(lines_of(text), columns).len() <= wrapped(lines, columns).len() + 1
        }),
{
    let rows = wrapped(lines, columns);
    let clean = text_lines(rows);
    let text = rows_as_text(rows);
    wrapped_lines_are_printable(lines, columns);
    assert forall|i: int| 0 <= i < rows.len() implies !(#[trigger] rows[i]).contains('\n') by {
        assert(are_printable(rows[i]));
    }
    text_has_clean_lines(rows);
    assert forall|i: int| 0 <= i < clean.len() implies (#[trigger] clean[i]).len() <= columns
        && are_printable(clean[i]) by {
        let j = text_line_comes_from(rows, i);
        assert(are_printable(rows[j]) && rows[j].len() <= columns);
        assert forall|k: int| 0 <= k < clean[i].len() implies is_printable(
            #[trigger] clean[i][k],
        ) by {
            assert(rows[j].contains(clean[i][k]));
        }
    }
    clean_lines_are_read_back(clean, columns);
    terminated_is_plain(clean);
    text_lines_have_content(rows);
    longest_content_is_least(rows, Seq::new(rows.len(), |i: int| 0nat));
}

/// Whether a line holds nothing but printable characters.
pub open spec fn are_printable(line: Seq<char>) -> bool {
    forall|i: int| 0 <= i < line.len() ==> is_printable(#[trigger] line[i])
}

proof fn terminated_is_plain(lines: Seq<Seq<char>>)
    requires
        forall|i: int| 0 <= i < lines.len() ==> are_printable(#[trigger] lines[i]),
    ensures
        is_plain(terminated(lines)),
        !terminated(lines).contains('\r'),
    decreases lines.len(),
{
    if lines.len() > 0 {
        let before = lines.drop_last();
        assert forall|i: int| 0 <= i < before.len() implies are_printable(#[trigger] before[i]) by {
            assert(before[i] == lines[i]);
        }
        terminated_is_plain(before);
        assert(are_printable(lines[lines.len() - 1]));
        let first = terminated(before);
        let text = terminated(lines);
        assert forall|i: int| 0 <= i < text.len() implies (is_printable(#[trigger] text[i])
            || text[i] == '\n') && text[i] != '\r' by {
            if i < first.len() {
                assert(text[i] == first[i]);
                assert(first.contains(first[i]));
            } else if i < text.len() - 1 {
                assert(text[i] == lines.last()[i - first.len()]);
            }
        }
    }
}

/// The rows of wrapped printable lines are printable and fit.
proof fn wrapped_lines_are_printable(lines: Seq<Seq<char>>, columns: int)
    requires
        columns > 0,
        forall|i: int| 0 <= i < lines.len() ==> are_printable(#[trigger] lines[i]),
    ensures
        forall|i: int|
            0 <= i < wrapped(lines, columns).len() ==> are_printable(
                #[trigger] wrapped(lines, columns)[i],
            ) && wrapped(lines, columns)[i].len() <= columns,
    decreases lines.len(),
{
    if lines.len() > 0 {
        let before = lines.drop_last();
        assert forall|i: int| 0 <= i < before.len() implies are_printable(#[trigger] before[i]) by {
            assert(before[i] == lines[i]);
        }
        wrapped_lines_are_printable(before, columns);
        assert(are_printable(lines[lines.len() - 1]));
        pieces_are_printable(lines.last(), columns);
        let above = wrapped(before, columns);
        let all = wrapped(lines, columns);
        assert forall|i: int| 0 <= i < all.len() implies are_printable(#[trigger] all[i])
            && all[i].len() <= columns by {
            if i < above.len() {
                assert(all[i] == above[i]);
            } else {
                assert(all[i] == pieces(lines.last(), columns)[i - above.len()]);
            }
        }
    }
}

proof fn pieces_are_printable(line: Seq<char>, columns: int)
    requires
        columns > 0,
        are_printable(line),
    ensures
        forall|i: int|
            0 <= i < pieces(line, columns).len() ==> are_printable(
                #[trigger] pieces(line, columns)[i],
            ) && pieces(line, columns)[i].len() <= columns,
    decreases line.len(),
{
    if line.len() > columns {
        let rest = line.skip(columns);
        let all = pieces(line, columns);
        assert forall|i: int| 0 <= i < rest.len() implies is_printable(#[trigger] rest[i]) by {
            assert(rest[i] == line[i + columns]);
        }
        pieces_are_printable(rest, columns);
        assert forall|i: int| 0 <= i < all.len() implies are_printable(#[trigger] all[i])
            && all[i].len() <= columns by {
            if i > 0 {
                assert(all[i] == pieces(rest, columns)[i - 1]);
            } else {
                assert(all[0] =~= line.take(columns));
            }
        }
    }
}

/// Rows of printable characters stand for exactly as many lines of text as have content.
pub proof fn printable_rows_with_content_are_lines(rows: Seq<Seq<char>>)
    requires
        forall|i: int| 0 <= i < rows.len() ==> are_printable(#[trigger] rows[i]),
    ensures
        text_lines(rows).len() == content_rows(rows),
    decreases rows.len(),
{
    if rows.len() > 0 {
        let before = rows.drop_last();
        assert forall|i: int| 0 <= i < before.len() implies are_printable(#[trigger] before[i]) by {
            assert(before[i] == rows[i]);
        }
        printable_rows_with_content_are_lines(before);
        let row = rows.last();
        let cut = |ch: char| is_padding(ch);
        assert(are_printable(rows[rows.len() - 1]));
        trimmed_end_keeps(row, cut);
        assert(without_noise(row) == row) by {
            assert forall|i: int| 0 <= i < row.len() implies !is_noise(#[trigger] row[i]) by {
                assert(is_printable(row[i]));
            }
            nothing_is_noise(row);
        }
        if content_width(row) > 0 {
            let last = content_width(row) - 1;
            assert(!cut(row[last]));
            assert(is_printable(row[last]) && row[last] != ' ');
            printable_is_not_white(row[last]);
        } else {
            assert forall|i: int| 0 <= i < row.len() implies is_white_space(#[trigger] row[i]) by {
                assert(cut(row[i]));
            }
        }
    }
}

proof fn printable_is_not_white(ch: char)
    requires
        is_printable(ch),
        ch != ' ',
    ensures
        !is_white_space(ch),
{
    char_u32_cast(ch, ch as u32);
}

proof fn clean_rows(lines: Seq<Seq<char>>)
    requires
        forall|i: int| 0 <= i < lines.len() ==> is_clean(#[trigger] lines[i]),
    ensures
        text_lines(lines) == lines,
        content_rows(lines) == lines.len(),
    decreases lines.len(),
{
    if lines.len() > 0 {
        let before = lines.drop_last();
        assert forall|i: int| 0 <= i < before.len() implies is_clean(#[trigger] before[i]) by {
            assert(before[i] == lines[i]);
        }
        clean_rows(before);
        assert(is_clean(lines[lines.len() - 1]));
        clean_line_stays(lines.last());
        clean_row_width(lines.last());
        assert(before.push(lines.last()) =~= lines);
    }
}

/// A clean line ends in no padding, so all of it counts.
proof fn clean_row_width(line: Seq<char>)
    requires
        is_clean(line),
    ensures
        content_width(line) == line.len(),
        line.len() > 0,
{
    assert(line.len() > 0);
    assert(!is_noise(line[line.len() - 1]));
    assert(!(|ch: char| is_padding(ch))(line.last()));
}

} // verus!

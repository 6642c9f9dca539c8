//! What is read out of the rows of a grid: which of them have content, and the text as a whole,
//! cleaned of what only the grid put there.

use vstd::prelude::*;

verus! {

/// `String::push` appends a character.
pub assume_specification[ String::push ](string: &mut String, ch: char)
    ensures
        final(string)@ == old(string)@.push(ch),
;

/// The characters that pad a row to the width of the grid.
pub open spec fn is_padding(ch: char) -> bool {
    ch == ' ' || ch == '\t' || ch == '\0'
}

/// The characters that are cut off at the end of a line of text.
pub open spec fn is_blank(ch: char) -> bool {
    ch == ' ' || ch == '\t'
}

/// The characters that have no place in a line of text.
pub open spec fn is_noise(ch: char) -> bool {
    ch == '\0' || ch == '\r'
}

/// The characters with the Unicode property `White_Space`.
pub open spec fn is_white_space(ch: char) -> bool {
    let code = ch as u32;
    ||| 0x9 <= code <= 0xd
    ||| code == 0x20
    ||| code == 0x85
    ||| code == 0xa0
    ||| code == 0x1680
    ||| 0x2000 <= code <= 0x200a
    ||| code == 0x2028
    ||| code == 0x2029
    ||| code == 0x202f
    ||| code == 0x205f
    ||| code == 0x3000
}

/// Whether a row holds nothing but white space.
pub open spec fn is_white(row: Seq<char>) -> bool {
    forall|i: int| 0 <= i < row.len() ==> is_white_space(#[trigger] row[i])
}

/// A row without the longest run of cut characters at its end.
pub open spec fn trimmed_end(row: Seq<char>, cut: spec_fn(char) -> bool) -> Seq<char>
    decreases row.len(),
{
    if row.len() > 0 && cut(row.last()) {
        trimmed_end(row.drop_last(), cut)
    } else {
        row
    }
}

/// The number of characters of a row up to the last one that is not padding.
pub open spec fn content_width(row: Seq<char>) -> nat {
    trimmed_end(row, |ch: char| is_padding(ch)).len()
}

/// The greatest content width among some rows, 0 if there are none.
pub open spec fn longest_line(rows: Seq<Seq<char>>) -> nat
    decreases rows.len(),
{
    if rows.len() == 0 {
        0
    } else {
        let before = longest_line(rows.drop_last());
        let last = content_width(rows.last());
        if last > before {
            last
        } else {
            before
        }
    }
}

/// The greatest width in cells among the rows with content, 0 if there are none. The widths of
/// the rows are given beside their text.
pub open spec fn longest_content(rows: Seq<Seq<char>>, widths: Seq<nat>) -> nat
    decreases rows.len(),
{
    if rows.len() == 0 {
        0
    } else {
        let before = longest_content(rows.drop_last(), widths.drop_last());
        let last = widths.last();
        if content_width(rows.last()) > 0 && last > before {
            last
        } else {
            before
        }
    }
}

/// The values of some numbers.
pub open spec fn numbers(widths: Seq<usize>) -> Seq<nat> {
    widths.map_values(|width: usize| width as nat)
}

/// The number of rows that hold more than padding.
pub open spec fn content_rows(rows: Seq<Seq<char>>) -> nat
    decreases rows.len(),
{
    if rows.len() == 0 {
        0
    } else {
        content_rows(rows.drop_last()) + if content_width(rows.last()) > 0 {
            1nat
        } else {
            0
        }
    }
}

/// A row without the characters that have no place in a line of text.
pub open spec fn without_noise(row: Seq<char>) -> Seq<char> {
    row.filter(|ch: char| !is_noise(ch))
}

/// The line of text that a row stands for, if it stands for any.
pub open spec fn sanitized(row: Seq<char>) -> Option<Seq<char>> {
    if is_white(without_noise(row)) {
        None
    } else {
        Some(trimmed_end(without_noise(row), |ch: char| is_blank(ch)))
    }
}

/// The lines of text that some rows stand for.
pub open spec fn text_lines(rows: Seq<Seq<char>>) -> Seq<Seq<char>>
    decreases rows.len(),
{
    if rows.len() == 0 {
        Seq::empty()
    } else {
        match sanitized(rows.last()) {
            Some(line) => text_lines(rows.drop_last()).push(line),
            None => text_lines(rows.drop_last()),
        }
    }
}

/// Lines one after the other, each with a line feed behind it.
pub open spec fn terminated(lines: Seq<Seq<char>>) -> Seq<char>
    decreases lines.len(),
{
    if lines.len() == 0 {
        Seq::empty()
    } else {
        terminated(lines.drop_last()) + lines.last().push('\n')
    }
}

/// The text that some rows stand for.
pub open spec fn rows_as_text(rows: Seq<Seq<char>>) -> Seq<char> {
    terminated(text_lines(rows))
}

/// A line in pieces of the given length, the last of which holds the rest of the line.
pub open spec fn pieces(line: Seq<char>, columns: int) -> Seq<Seq<char>>
    decreases line.len(),
{
    if columns <= 0 || line.len() <= columns {
        seq![line]
    } else {
        seq![line.take(columns)] + pieces(line.skip(columns), columns)
    }
}

/// The pieces of some lines.
pub open spec fn wrapped(lines: Seq<Seq<char>>, columns: int) -> Seq<Seq<char>>
    decreases lines.len(),
{
    if lines.len() == 0 {
        Seq::empty()
    } else {
        wrapped(lines.drop_last(), columns) + pieces(lines.last(), columns)
    }
}

/// The views of some strings.
pub open spec fn views(strings: Seq<String>) -> Seq<Seq<char>> {
    strings.map_values(|string: String| string@)
}

/// Whether a character has the Unicode property `White_Space`.
pub fn white_space(ch: char) -> (white: bool)
    ensures
        white == is_white_space(ch),
{
    let code: u32 = ch as u32;
    (0x9 <= code && code <= 0xd) || code == 0x20 || code == 0x85 || code == 0xa0 || code == 0x1680
        || (0x2000 <= code && code <= 0x200a) || code == 0x2028 || code == 0x2029 || code == 0x202f
        || code == 0x205f || code == 0x3000
}

/// Every trim is a prefix, ends in no cut character, and loses only cut characters.
pub proof fn trimmed_end_keeps(row: Seq<char>, cut: spec_fn(char) -> bool)
    ensures
        trimmed_end(row, cut).len() <= row.len(),
        trimmed_end(row, cut) == row.take(trimmed_end(row, cut).len() as int),
        trimmed_end(row, cut).len() > 0 ==> !cut(trimmed_end(row, cut).last()),
        forall|i: int| trimmed_end(row, cut).len() <= i < row.len() ==> cut(#[trigger] row[i]),
    decreases row.len(),
{
    if row.len() > 0 && cut(row.last()) {
        trimmed_end_keeps(row.drop_last(), cut);
        let kept = trimmed_end(row, cut).len() as int;
        assert(row.drop_last().take(kept) =~= row.take(kept));
        assert forall|i: int| kept <= i < row.len() implies cut(#[trigger] row[i]) by {
            if i < row.len() - 1 {
                assert(row[i] == row.drop_last()[i]);
            }
        }
    } else {
        assert(row.take(row.len() as int) =~= row);
    }
}

/// A prefix that ends in no cut character, with only cut characters behind it, is the trim.
proof fn trimmed_end_is(row: Seq<char>, cut: spec_fn(char) -> bool, kept: int)
    requires
        0 <= kept <= row.len(),
        kept > 0 ==> !cut(row[kept - 1]),
        forall|i: int| kept <= i < row.len() ==> cut(#[trigger] row[i]),
    ensures
        trimmed_end(row, cut) == row.take(kept),
{
    trimmed_end_keeps(row, cut);
    let len = trimmed_end(row, cut).len() as int;
    if len < kept {
        assert(cut(row[kept - 1]));
    }
    if kept < len {
        assert(trimmed_end(row, cut).last() == row[len - 1]);
    }
}

/// The number of characters of a row of text, without the padding at its end.
pub fn line_width(row: &str) -> (width: usize)
    ensures
        width == content_width(row@),
{
    let ghost cut = |ch: char| is_padding(ch);
    let count: usize = row.unicode_len();
    let mut seen: usize = 0;
    let mut width: usize = 0;
    for ch in it: row.chars()
        invariant
            it.seq() == row@,
            row@.len() == count,
            seen == it.index(),
            width <= seen,
            width > 0 ==> !is_padding(row@[width - 1]),
            forall|i: int| width <= i < seen ==> is_padding(#[trigger] row@[i]),
    {
        seen = seen + 1;
        if ch != ' ' && ch != '\t' && ch != '\0' {
            width = seen;
        }
    }
    proof {
        trimmed_end_is(row@, cut, width as int);
    }
    width
}

/// The greatest width in cells among the rows with content, and the number of these rows. The
/// widths of the rows are given beside their text.
pub fn measure_rows(rows: &Vec<String>, widths: &Vec<usize>) -> (measure: (usize, usize))
    requires
        rows.len() == widths.len(),
    ensures
        measure.0 == longest_content(views(rows@), numbers(widths@)),
        measure.1 == content_rows(views(rows@)),
{
    let ghost all = views(rows@);
    let ghost wide = numbers(widths@);
    let mut max_cols: usize = 0;
    let mut line_count: usize = 0;
    let mut i: usize = 0;
    assert(all.take(0) =~= Seq::empty());
    while i < rows.len()
        invariant
            i <= rows.len(),
            rows.len() == widths.len(),
            all == views(rows@),
            wide == numbers(widths@),
            line_count <= i,
            max_cols == longest_content(all.take(i as int), wide.take(i as int)),
            line_count == content_rows(all.take(i as int)),
        decreases rows.len() - i,
    {
        assert(all.take(i + 1).drop_last() =~= all.take(i as int));
        assert(wide.take(i + 1).drop_last() =~= wide.take(i as int));
        if line_width(rows[i].as_str()) > 0 {
            if widths[i] > max_cols {
                max_cols = widths[i];
            }
            line_count = line_count + 1;
        }
        i = i + 1;
    }
    assert(all.take(i as int) =~= all);
    assert(wide.take(i as int) =~= wide);
    (max_cols, line_count)
}

/// The line of text that a row stands for: `None` if that would be white space only, else the
/// row without NUL and carriage return, and without spaces and tabs at its end.
pub fn sanitize(row: &str) -> (line: Option<String>)
    ensures
        line is Some <==> sanitized(row@) is Some,
        line is Some ==> line->0@ == sanitized(row@)->0,
{
    let ghost keep = |ch: char| !is_noise(ch);
    let ghost cut = |ch: char| is_blank(ch);
    // What is kept so far ends in `line`, then in `pending`, which is blank.
    let mut line: String = String::new();
    let mut pending: String = String::new();
    let mut white: bool = true;
    assert(row@.take(0).filter(keep) =~= Seq::empty()) by {
        reveal(Seq::filter);
    }
    for ch in it: row.chars()
        invariant
            it.seq() == row@,
            keep == |ch: char| !is_noise(ch),
            line@ + pending@ == row@.take(it.index()).filter(keep),
            line@.len() > 0 ==> !is_blank(line@.last()),
            forall|i: int| 0 <= i < pending@.len() ==> is_blank(#[trigger] pending@[i]),
            white == is_white(line@),
    {
        let ghost at = it.index();
        let ghost kept = line@ + pending@;
        proof {
            reveal(Seq::filter);
            assert(row@.take(at + 1).drop_last() =~= row@.take(at));
        }
        if ch != '\0' && ch != '\r' {
            if ch == ' ' || ch == '\t' {
                pending.push(ch);
            } else {
                let ghost head = line@;
                let ghost blanks = pending@;
                let is_white_ch: bool = white_space(ch);
                line.append(pending.as_str());
                line.push(ch);
                pending = String::new();
                proof {
                    white_after(head, blanks, ch);
                }
                white = white && is_white_ch;
            }
            assert(line@ + pending@ =~= kept.push(ch));
        }
    }
    let ghost kept = without_noise(row@);
    proof {
        assert(row@.take(row@.len() as int) =~= row@);
        assert(kept == line@ + pending@);
        assert(kept.take(line@.len() as int) =~= line@);
        assert forall|i: int| line@.len() <= i < kept.len() implies cut(#[trigger] kept[i]) by {
            assert(kept[i] == pending@[i - line@.len()]);
        }
        trimmed_end_is(kept, cut, line@.len() as int);
        white_prefix(kept, line@.len() as int);
    }
    if white {
        None
    } else {
        Some(line)
    }
}

/// Blanks and a character behind a row: all of it is white space if the row and the
/// character are.
proof fn white_after(head: Seq<char>, blanks: Seq<char>, ch: char)
    requires
        forall|i: int| 0 <= i < blanks.len() ==> is_blank(#[trigger] blanks[i]),
    ensures
        is_white((head + blanks).push(ch)) == (is_white(head) && is_white_space(ch)),
{
    let all = (head + blanks).push(ch);
    if is_white(all) {
        assert forall|i: int| 0 <= i < head.len() implies is_white_space(#[trigger] head[i]) by {
            assert(all[i] == head[i]);
        }
        assert(all[all.len() - 1] == ch);
    }
    if is_white(head) && is_white_space(ch) {
        assert forall|i: int| 0 <= i < all.len() implies is_white_space(#[trigger] all[i]) by {
            if i < head.len() {
                assert(all[i] == head[i]);
            } else if i < head.len() + blanks.len() {
                assert(all[i] == blanks[i - head.len()]);
            }
        }
    }
}

/// A row with only blanks behind a prefix is white space if the prefix is.
proof fn white_prefix(row: Seq<char>, kept: int)
    requires
        0 <= kept <= row.len(),
        forall|i: int| kept <= i < row.len() ==> is_blank(#[trigger] row[i]),
    ensures
        is_white(row) == is_white(row.take(kept)),
{
    if is_white(row) {
        assert forall|i: int| 0 <= i < kept implies is_white_space(#[trigger] row.take(kept)[i]) by {
            assert(row.take(kept)[i] == row[i]);
        }
    }
    if is_white(row.take(kept)) {
        assert forall|i: int| 0 <= i < row.len() implies is_white_space(#[trigger] row[i]) by {
            if i < kept {
                assert(row.take(kept)[i] == row[i]);
            }
        }
    }
}

/// The text that some rows stand for: the lines of the rows that stand for one, each with a
/// line feed behind it.
pub fn join_rows(rows: &Vec<String>) -> (text: String)
    ensures
        text@ == rows_as_text(views(rows@)),
{
    let ghost all = views(rows@);
    let mut text: String = String::new();
    let mut i: usize = 0;
    assert(all.take(0) =~= Seq::empty());
    while i < rows.len()
        invariant
            i <= rows.len(),
            all == views(rows@),
            text@ == rows_as_text(all.take(i as int)),
        decreases rows.len() - i,
    {
        let ghost before = text_lines(all.take(i as int));
        assert(all.take(i + 1).drop_last() =~= all.take(i as int));
        let line: Option<String> = sanitize(rows[i].as_str());
        if let Some(line) = line {
            text.append(line.as_str());
            text.push('\n');
            proof {
                let after = before.push(line@);
                assert(after.drop_last() =~= before);
                assert(text@ =~= terminated(before) + line@.push('\n'));
            }
        }
        i = i + 1;
    }
    assert(all.take(i as int) =~= all);
    text
}

/// A line of text holds no NUL and no carriage return, is not white space only, and does not
/// end in a space or a tab.
pub open spec fn is_clean(line: Seq<char>) -> bool {
    &&& forall|i: int| 0 <= i < line.len() ==> !is_noise(#[trigger] line[i])
    &&& !is_white(line)
    &&& !is_blank(line.last())
}

/// Without noise a row holds only some of its characters, none of which is noise.
proof fn filtered_are_kept(row: Seq<char>)
    ensures
        without_noise(row).len() <= row.len(),
        forall|i: int|
            0 <= i < without_noise(row).len() ==> !is_noise(#[trigger] without_noise(row)[i])
                && row.contains(without_noise(row)[i]),
    decreases row.len(),
{
    reveal(Seq::filter);
    if row.len() > 0 {
        let before = row.drop_last();
        filtered_are_kept(before);
        let kept = without_noise(row);
        assert forall|i: int| 0 <= i < kept.len() implies !is_noise(#[trigger] kept[i])
            && row.contains(kept[i]) by {
            if i < without_noise(before).len() {
                assert(kept[i] == without_noise(before)[i]);
                let j = choose|j: int| 0 <= j < before.len() && before[j] == kept[i];
                assert(row[j] == kept[i]);
            } else {
                assert(row[row.len() - 1] == kept[i]);
            }
        }
    }
}

/// What a row is sanitized to is clean.
pub proof fn sanitized_is_clean(row: Seq<char>)
    ensures
        sanitized(row) is Some ==> is_clean(sanitized(row)->0),
{
    if sanitized(row) is Some {
        let kept = without_noise(row);
        let cut = |ch: char| is_blank(ch);
        let line = sanitized(row)->0;
        filtered_are_kept(row);
        trimmed_end_keeps(kept, cut);
        let len = line.len() as int;
        assert(line == kept.take(len));
        assert forall|i: int| 0 <= i < line.len() implies !is_noise(#[trigger] line[i]) by {
            assert(line[i] == kept[i]);
        }
        assert forall|i: int| len <= i < kept.len() implies is_blank(#[trigger] kept[i]) by {
            assert(cut(kept[i]));
        }
        white_prefix(kept, len);
        assert(line.len() > 0);
        assert(!cut(line.last()));
    }
}

/// A clean line is sanitized to itself.
pub proof fn clean_line_stays(line: Seq<char>)
    requires
        is_clean(line),
    ensures
        sanitized(line) == Some(line),
{
    nothing_filtered(line, |ch: char| !is_noise(ch));
    assert(line.len() > 0);
    assert(!(|ch: char| is_blank(ch))(line.last()));
}

/// Sanitizing a sanitized line changes nothing.
pub proof fn sanitized_twice(row: Seq<char>)
    ensures
        sanitized(row) is Some ==> sanitized(sanitized(row)->0) == sanitized(row),
{
    sanitized_is_clean(row);
    if sanitized(row) is Some {
        clean_line_stays(sanitized(row)->0);
    }
}

proof fn nothing_filtered(row: Seq<char>, keep: spec_fn(char) -> bool)
    requires
        forall|i: int| 0 <= i < row.len() ==> keep(#[trigger] row[i]),
    ensures
        row.filter(keep) == row,
    decreases row.len(),
{
    reveal(Seq::filter);
    if row.len() > 0 {
        assert forall|i: int| 0 <= i < row.drop_last().len() implies keep(
            #[trigger] row.drop_last()[i],
        ) by {
            assert(row.drop_last()[i] == row[i]);
        }
        nothing_filtered(row.drop_last(), keep);
        assert(keep(row[row.len() - 1]));
        assert(row.drop_last().push(row.last()) =~= row);
    }
}

/// Every line of the text of some rows is clean.
pub proof fn text_lines_are_clean(rows: Seq<Seq<char>>, i: int)
    requires
        0 <= i < text_lines(rows).len(),
    ensures
        is_clean(text_lines(rows)[i]),
    decreases rows.len(),
{
    let before = text_lines(rows.drop_last());
    sanitized_is_clean(rows.last());
    if i < before.len() {
        text_lines_are_clean(rows.drop_last(), i);
    }
}

/// A row without noise stays as it is without noise.
pub proof fn nothing_is_noise(row: Seq<char>)
    requires
        forall|i: int| 0 <= i < row.len() ==> !is_noise(#[trigger] row[i]),
    ensures
        without_noise(row) == row,
{
    nothing_filtered(row, |ch: char| !is_noise(ch));
}

/// A line of text comes from a row, which holds all of its characters.
pub proof fn text_line_comes_from(rows: Seq<Seq<char>>, i: int) -> (j: int)
    requires
        0 <= i < text_lines(rows).len(),
    ensures
        0 <= j < rows.len(),
        text_lines(rows)[i].len() <= rows[j].len(),
        forall|k: int|
            0 <= k < text_lines(rows)[i].len() ==> rows[j].contains(
                #[trigger] text_lines(rows)[i][k],
            ),
    decreases rows.len(),
{
    let before = rows.drop_last();
    if i < text_lines(before).len() {
        let j = text_line_comes_from(before, i);
        assert(rows[j] == before[j]);
        j
    } else {
        let row = rows.last();
        let line = text_lines(rows)[i];
        filtered_are_kept(row);
        trimmed_end_keeps(without_noise(row), |ch: char| is_blank(ch));
        assert forall|k: int| 0 <= k < line.len() implies row.contains(#[trigger] line[k]) by {
            assert(line[k] == without_noise(row)[k]);
        }
        rows.len() - 1
    }
}

/// The lines of a text, taken as rows, stand for the same text.
pub proof fn text_lines_twice(rows: Seq<Seq<char>>)
    ensures
        text_lines(text_lines(rows)) == text_lines(rows),
        rows_as_text(text_lines(rows)) == rows_as_text(rows),
    decreases rows.len(),
{
    if rows.len() > 0 {
        text_lines_twice(rows.drop_last());
        if let Some(line) = sanitized(rows.last()) {
            sanitized_twice(rows.last());
            let before = text_lines(rows.drop_last());
            assert(before.push(line).drop_last() =~= before);
        }
    }
}

/// The text of some rows is empty if they stand for no line, and else ends in a line feed.
pub proof fn text_ends_in_line_feed(rows: Seq<Seq<char>>)
    ensures
        rows_as_text(rows).len() == 0 <==> text_lines(rows).len() == 0,
        rows_as_text(rows).len() > 0 ==> rows_as_text(rows).last() == '\n',
{
    let lines = text_lines(rows);
    if lines.len() > 0 {
        let last = lines.last().push('\n');
        assert(rows_as_text(rows) == terminated(lines.drop_last()) + last);
        assert(rows_as_text(rows).last() == last.last());
    }
}

/// Rows below other rows add their lines of text behind those of the others.
pub proof fn text_of_more_rows(above: Seq<Seq<char>>, below: Seq<Seq<char>>)
    ensures
        text_lines(above + below) == text_lines(above) + text_lines(below),
        rows_as_text(above + below) == rows_as_text(above) + rows_as_text(below),
    decreases below.len(),
{
    if below.len() == 0 {
        assert(above + below =~= above);
        assert(text_lines(above) + text_lines(below) =~= text_lines(above));
    } else {
        text_of_more_rows(above, below.drop_last());
        assert((above + below).drop_last() =~= above + below.drop_last());
        if let Some(line) = sanitized(below.last()) {
            assert(text_lines(above) + text_lines(below.drop_last()).push(line) =~= (text_lines(
                above,
            ) + text_lines(below.drop_last())).push(line));
        }
    }
    terminated_concat(text_lines(above), text_lines(below));
}

proof fn terminated_concat(above: Seq<Seq<char>>, below: Seq<Seq<char>>)
    ensures
        terminated(above + below) == terminated(above) + terminated(below),
    decreases below.len(),
{
    if below.len() == 0 {
        assert(above + below =~= above);
        assert(terminated(above) + terminated(below) =~= terminated(above));
    } else {
        terminated_concat(above, below.drop_last());
        assert((above + below).drop_last() =~= above + below.drop_last());
        assert(terminated(above + below) =~= terminated(above) + terminated(below));
    }
}

/// The measure of rows below other rows: the widest of both counts, and their numbers of rows
/// with content add up.
pub proof fn measure_of_more_rows(
    above: Seq<Seq<char>>,
    widths_above: Seq<nat>,
    below: Seq<Seq<char>>,
    widths_below: Seq<nat>,
)
    requires
        above.len() == widths_above.len(),
        below.len() == widths_below.len(),
    ensures
        content_rows(above + below) == content_rows(above) + content_rows(below),
        longest_content(above + below, widths_above + widths_below) == if longest_content(
            above,
            widths_above,
        ) >= longest_content(below, widths_below) {
            longest_content(above, widths_above)
        } else {
            longest_content(below, widths_below)
        },
    decreases below.len(),
{
    if below.len() == 0 {
        assert(above + below =~= above);
        assert(widths_above + widths_below =~= widths_above);
    } else {
        measure_of_more_rows(above, widths_above, below.drop_last(), widths_below.drop_last());
        assert((above + below).drop_last() =~= above + below.drop_last());
        assert((widths_above + widths_below).drop_last() =~= widths_above
            + widths_below.drop_last());
    }
}

/// The longest of lines below other lines is that of both.
pub proof fn longest_of_more_lines(above: Seq<Seq<char>>, below: Seq<Seq<char>>)
    ensures
        longest_line(above + below) == if longest_line(above) >= longest_line(below) {
            longest_line(above)
        } else {
            longest_line(below)
        },
        content_rows(above + below) == content_rows(above) + content_rows(below),
    decreases below.len(),
{
    if below.len() == 0 {
        assert(above + below =~= above);
    } else {
        longest_of_more_lines(above, below.drop_last());
        assert((above + below).drop_last() =~= above + below.drop_last());
    }
}

/// Where each row takes as many cells as it has characters, the widest row is the longest line.
pub proof fn widths_of_lines(rows: Seq<Seq<char>>, widths: Seq<nat>)
    requires
        rows.len() == widths.len(),
        forall|i: int| 0 <= i < rows.len() ==> #[trigger] widths[i] == content_width(rows[i]),
    ensures
        longest_content(rows, widths) == longest_line(rows),
    decreases rows.len(),
{
    if rows.len() > 0 {
        let before = rows.drop_last();
        assert forall|i: int| 0 <= i < before.len() implies #[trigger] widths.drop_last()[i]
            == content_width(before[i]) by {
            assert(widths.drop_last()[i] == widths[i]);
        }
        widths_of_lines(before, widths.drop_last());
        assert(widths[rows.len() - 1] == content_width(rows[rows.len() - 1]));
    }
}

/// No row with content is wider than the measure says, some such row is as wide, and the
/// number of such rows is no greater than that of all rows.
pub proof fn longest_content_is_least(rows: Seq<Seq<char>>, widths: Seq<nat>)
    requires
        rows.len() == widths.len(),
    ensures
        forall|i: int|
            0 <= i < rows.len() && content_width(#[trigger] rows[i]) > 0 ==> widths[i]
                <= longest_content(rows, widths),
        longest_content(rows, widths) > 0 ==> exists|i: int|
            0 <= i < rows.len() && content_width(#[trigger] rows[i]) > 0 && widths[i]
                == longest_content(rows, widths),
        longest_content(rows, widths) > 0 ==> content_rows(rows) > 0,
        content_rows(rows) <= rows.len(),
    decreases rows.len(),
{
    if rows.len() > 0 {
        let before = rows.drop_last();
        let longest = longest_content(rows, widths);
        let longest_before = longest_content(before, widths.drop_last());
        longest_content_is_least(before, widths.drop_last());
        assert forall|i: int|
            0 <= i < rows.len() && content_width(#[trigger] rows[i]) > 0 implies widths[i]
            <= longest by {
            if i < before.len() {
                assert(rows[i] == before[i]);
                assert(widths[i] == widths.drop_last()[i]);
            }
        }
        if longest > longest_before {
            assert(content_width(rows[rows.len() - 1]) > 0 && widths[rows.len() - 1] == longest);
        } else if longest > 0 {
            let i = choose|i: int|
                0 <= i < before.len() && content_width(#[trigger] before[i]) > 0
                    && widths.drop_last()[i] == longest_before;
            assert(rows[i] == before[i]);
            assert(widths[i] == widths.drop_last()[i]);
        }
    }
}

/// If there are rows with content, one of them can be named.
pub proof fn some_row_has_content(rows: Seq<Seq<char>>) -> (i: int)
    requires
        content_rows(rows) > 0,
    ensures
        0 <= i < rows.len(),
        content_width(rows[i]) > 0,
    decreases rows.len(),
{
    if content_width(rows.last()) > 0 {
        rows.len() - 1
    } else {
        let i = some_row_has_content(rows.drop_last());
        assert(rows.drop_last()[i] == rows[i]);
        i
    }
}

/// No line is longer than the longest one, some line is as long, and there is no line with
/// content only if the longest has no length.
pub proof fn longest_line_is_least(rows: Seq<Seq<char>>)
    ensures
        forall|i: int|
            0 <= i < rows.len() ==> content_width(#[trigger] rows[i]) <= longest_line(rows),
        longest_line(rows) > 0 ==> exists|i: int|
            0 <= i < rows.len() && content_width(#[trigger] rows[i]) == longest_line(rows),
        longest_line(rows) == 0 <==> content_rows(rows) == 0,
    decreases rows.len(),
{
    if rows.len() > 0 {
        let before = rows.drop_last();
        longest_line_is_least(before);
        assert forall|i: int| 0 <= i < rows.len() implies content_width(#[trigger] rows[i])
            <= longest_line(rows) by {
            if i < before.len() {
                assert(rows[i] == before[i]);
            }
        }
        if longest_line(rows) > longest_line(before) {
            assert(content_width(rows[rows.len() - 1]) == longest_line(rows));
        } else if longest_line(before) > 0 {
            let i = choose|i: int|
                0 <= i < before.len() && content_width(#[trigger] before[i]) == longest_line(
                    before,
                );
            assert(rows[i] == before[i]);
        }
    }
}

/// A row that stands for a line of text has content, so the text of some rows never has more
/// lines than there are rows with content.
pub proof fn text_lines_have_content(rows: Seq<Seq<char>>)
    ensures
        text_lines(rows).len() <= content_rows(rows),
    decreases rows.len(),
{
    if rows.len() > 0 {
        text_lines_have_content(rows.drop_last());
        let row = rows.last();
        if sanitized(row) is Some && content_width(row) == 0 {
            let cut = |ch: char| is_padding(ch);
            trimmed_end_keeps(row, cut);
            let kept = without_noise(row);
            filtered_are_kept(row);
            assert forall|i: int| 0 <= i < kept.len() implies is_white_space(#[trigger] kept[i]) by {
                let j = choose|j: int| 0 <= j < row.len() && row[j] == kept[i];
                assert(cut(row[j]));
            }
        }
    }
}

/// Empty rows stand for no text and have no content, whatever their width.
pub proof fn no_text_in_empty_rows(rows: Seq<Seq<char>>, widths: Seq<nat>)
    requires
        forall|i: int| 0 <= i < rows.len() ==> (#[trigger] rows[i]).len() == 0,
    ensures
        rows_as_text(rows) == Seq::<char>::empty(),
        longest_line(rows) == 0,
        longest_content(rows, widths) == 0,
        content_rows(rows) == 0,
    decreases rows.len(),
{
    if rows.len() > 0 {
        assert forall|i: int| 0 <= i < rows.drop_last().len() implies (
        #[trigger] rows.drop_last()[i]).len() == 0 by {
            assert(rows.drop_last()[i] == rows[i]);
        }
        no_text_in_empty_rows(rows.drop_last(), widths.drop_last());
        let row = rows[rows.len() - 1];
        filtered_are_kept(row);
        assert(is_white(without_noise(row)));
    }
}

} // verus!

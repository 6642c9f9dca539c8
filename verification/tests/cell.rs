use repl::cell::{row_width, Cell, LEADING_WIDE_CHAR_SPACER, WIDE_CHAR_SPACER};

fn cell(ch: char) -> Cell {
    Cell { ch, zero_width: 0, flags: 0 }
}

fn spacer() -> Cell {
    Cell { ch: ' ', zero_width: 0, flags: WIDE_CHAR_SPACER | 1 }
}

#[test]
fn width_leaves_out_blank_cells_at_the_end() {
    assert_eq!(row_width(&vec![]), 0);
    assert_eq!(row_width(&vec![cell(' '), cell('\t'), cell('\0')]), 0);
    assert_eq!(row_width(&vec![cell(' '), cell('a'), cell(' '), cell('\t')]), 2);
    assert_eq!(row_width(&vec![cell('a'), cell('\u{a0}')]), 2);
}

#[test]
fn fullwidth_characters_take_two_cells() {
    let row = vec![cell('\u{65e5}'), spacer(), cell('\u{672c}'), spacer(), cell(' ')];
    assert_eq!(row_width(&row), 4);
}

#[test]
fn cell_left_blank_before_a_fullwidth_character_is_not_content() {
    let blank = Cell { ch: ' ', zero_width: 0, flags: LEADING_WIDE_CHAR_SPACER };
    assert_eq!(row_width(&vec![cell('a'), blank]), 1);
}

#[test]
fn characters_without_a_width_are_content_of_their_cell() {
    let accent = Cell { ch: ' ', zero_width: 2, flags: 0 };
    assert!(accent.filled());
    assert_eq!(row_width(&vec![cell('a'), accent, cell(' ')]), 2);
}

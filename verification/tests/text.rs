use repl::text::{join_rows, line_width, measure_rows, sanitize, white_space};

fn rows(texts: &[&str]) -> Vec<String> {
    texts.iter().map(|text| text.to_string()).collect()
}

#[test]
fn white_space_is_that_of_unicode() {
    for code in 0..=0x10ffffu32 {
        if let Some(ch) = char::from_u32(code) {
            assert_eq!(white_space(ch), ch.is_whitespace(), "{code:x}");
        }
    }
}

#[test]
fn line_width_leaves_out_padding_at_the_end() {
    assert_eq!(line_width(""), 0);
    assert_eq!(line_width(" \t\0 "), 0);
    assert_eq!(line_width("abc"), 3);
    assert_eq!(line_width("  abc \t\0"), 5);
    assert_eq!(line_width("a b\0c\0"), 5);
    assert_eq!(line_width("\u{a0} "), 1);
    assert_eq!(line_width("a\r "), 2);
}

#[test]
fn line_width_counts_characters() {
    assert_eq!(line_width("\u{e9}\u{3042}\u{1f600} "), 3);
}

/// The measure of rows that take a cell for each character.
fn measure(texts: &[&str]) -> (usize, usize) {
    let widths = texts.iter().map(|text| line_width(text)).collect();
    measure_rows(&rows(texts), &widths)
}

#[test]
fn measure_takes_the_widest_row_and_counts_those_with_content() {
    assert_eq!(measure(&[]), (0, 0));
    assert_eq!(measure(&["", "  ", "\t"]), (0, 0));
    assert_eq!(measure(&["aaa", "", "bbbbb  ", "cc"]), (5, 3));
    assert_eq!(measure_rows(&rows(&["\u{65e5}\u{672c}", "abc"]), &vec![4, 3]), (4, 2));
    assert_eq!(measure_rows(&rows(&["\t", "abc"]), &vec![8, 3]), (3, 1));
}

#[test]
fn measures_of_rows_below_each_other_add_up() {
    let above = ["aaa", "", "b"];
    let below = ["cccc", " "];
    let all = [&above[..], &below[..]].concat();
    let (wide_above, count_above) = measure(&above);
    let (wide_below, count_below) = measure(&below);
    assert_eq!(measure(&all), (wide_above.max(wide_below), count_above + count_below));
}

#[test]
fn sanitize_drops_rows_of_white_space() {
    for row in ["", "   ", "\t \0\r", "\u{a0}\u{3000}", "\u{2028}"] {
        assert_eq!(sanitize(row), None);
    }
}

#[test]
fn sanitize_cleans_a_row() {
    assert_eq!(sanitize("abc"), Some("abc".to_string()));
    assert_eq!(sanitize("  a\0b\rc \t \0"), Some("  abc".to_string()));
    assert_eq!(sanitize("a b  c"), Some("a b  c".to_string()));
    assert_eq!(sanitize("a\u{a0}"), Some("a\u{a0}".to_string()));
    assert_eq!(sanitize("\u{3042} "), Some("\u{3042}".to_string()));
}

#[test]
fn sanitize_does_what_the_string_functions_do() {
    let alphabet = ['a', ' ', '\t', '\0', '\r', '\u{a0}', '\n'];
    let mut texts = vec![String::new()];
    for _ in 0..4 {
        let mut longer = texts.clone();
        for text in &texts {
            for ch in alphabet {
                let mut text = text.clone();
                text.push(ch);
                longer.push(text);
            }
        }
        texts = longer;
    }
    for text in texts {
        let mut line = text.clone();
        line.retain(|ch| ch != '\u{0}' && ch != '\r');
        let expected = if line.trim().is_empty() {
            None
        } else {
            Some(line.trim_end_matches([' ', '\t']).to_owned())
        };
        assert_eq!(sanitize(&text), expected, "{text:?}");

        let trimmed = text.trim_end_matches(|ch: char| ch == ' ' || ch == '\t' || ch == '\0');
        assert_eq!(line_width(&text), trimmed.chars().count(), "{text:?}");
    }
}

#[test]
fn sanitize_twice_is_sanitize() {
    for row in ["  a\0b\rc \t \0", "abc", "a\u{a0} \t", "\u{3000}x\r "] {
        let once = sanitize(row).unwrap();
        assert_eq!(sanitize(&once), Some(once.clone()));
    }
}

#[test]
fn text_has_a_line_feed_behind_each_line() {
    assert_eq!(join_rows(&rows(&[])), "");
    assert_eq!(join_rows(&rows(&["", " "])), "");
    assert_eq!(join_rows(&rows(&["a"])), "a\n");
    assert_eq!(join_rows(&rows(&["a ", "", "  b\0", "\u{a0}"])), "a\n  b\n");
}

#[test]
fn text_of_its_own_lines_is_the_same() {
    let text = join_rows(&rows(&["a ", "", "  b\0", "c\r"]));
    let lines: Vec<&str> = text.lines().collect();
    assert_eq!(join_rows(&rows(&lines)), text);
}

#[test]
fn text_of_rows_below_each_other_is_in_order() {
    let above = ["a", "", "b  "];
    let below = ["\t", "c"];
    let all = [&above[..], &below[..]].concat();
    assert_eq!(join_rows(&rows(&all)), join_rows(&rows(&above)) + &join_rows(&rows(&below)));
}

#[test]
fn text_has_no_more_lines_than_rows_have_content() {
    let some = ["a", "\u{a0}", "", "b"];
    assert_eq!(join_rows(&rows(&some)).lines().count(), 2);
    assert_eq!(measure(&some), (1, 3));
    let printable = ["a", " ", "", "b c", "~ "];
    assert_eq!(join_rows(&rows(&printable)).lines().count(), measure(&printable).1);
}

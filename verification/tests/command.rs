use repl::command::{overflows_as_color, overflows_as_command, Command};

const DIGITS: usize = usize::BITS as usize / 4;

fn after(bytes: &str) -> Command {
    let mut command = Command::Outside;
    for byte in bytes.bytes() {
        command.advance(byte);
    }
    command
}

fn parameters(command: &str) -> Vec<Vec<u8>> {
    command.split(';').map(|parameter| parameter.as_bytes().to_vec()).collect()
}

fn assert_text(bytes: &str, expected: &[&str]) {
    match after(bytes) {
        Command::Text { mut ended, current } => {
            ended.push(current);
            let expected: Vec<Vec<u8>> =
                expected.iter().map(|parameter| parameter.as_bytes().to_vec()).collect();
            assert_eq!(ended, expected, "{bytes:?}");
        }
        command => panic!("{bytes:?} leads to {command:?}"),
    }
}

#[test]
fn commands_are_found() {
    assert!(matches!(after("abc]4;#"), Command::Outside));
    assert!(matches!(after("\x1b"), Command::Escape));
    assert!(matches!(after("\x1b\n\u{e9}"), Command::Escape));
    assert!(matches!(after("\x1b["), Command::Outside));
    assert_text("\x1b]", &[""]);
    assert_text("\x1b]1\n2", &["12"]);
    assert_text("\x1b]4;", &["4", ""]);
    assert_text("\x1b]11;x;\x01#ab;", &["11", "x", "#ab", ""]);
    assert_text("x\x1b]0;\u{e9}", &["0", "\u{e9}"]);
}

#[test]
fn commands_end() {
    for end in ["\x07", "\x18", "\x1a", "\x1b\\"] {
        assert!(matches!(after(&format!("\x1b]4;1;#000{end}")), Command::Outside));
        assert!(matches!(after(&format!("\x1b]8;;x{end}")), Command::Outside));
    }
    assert!(matches!(after("\x1b]4;1;#000\x1b"), Command::Escape));
}

#[test]
fn command_is_duplicated_where_it_is() {
    let command = after("\x1b]4;1;#00");
    let mut copy = command.duplicate();
    copy.advance(b'7');
    match (command, copy) {
        (Command::Text { ended, current }, Command::Text { ended: same, current: longer }) => {
            assert_eq!(ended, same);
            assert_eq!((current, longer), (b"#00".to_vec(), b"#007".to_vec()));
        }
        _ => panic!("not in a command"),
    }
}

#[test]
fn colors_overflow_by_their_longest_part() {
    let color = |digits: usize| overflows_as_color(&format!("#{}", "0".repeat(digits)).into_bytes());
    for digits in 0..200 {
        let last = digits - 2 * (digits / 3);
        assert_eq!(color(digits), last > DIGITS, "{digits}");
    }
    let most = 3 * DIGITS;
    assert!(!color(most - 2));
    assert!(color(most - 1));
    assert!(!color(most));
    assert!(color(most + 1));
}

#[test]
fn colors_that_cannot_be_read_do_not_overflow() {
    let overflows = |color: String| overflows_as_color(&color.into_bytes());
    let digits = DIGITS + 1;
    let (zeros, ones, bad) = ("0".repeat(digits), "1".repeat(digits), "z".repeat(digits));
    assert!(overflows(format!("#{zeros}{zeros}{zeros}")));
    // The first part is read and overflows before the others are looked at.
    assert!(overflows(format!("#{zeros}{bad}{bad}")));
    // A value of more than machine size cannot be read.
    assert!(!overflows(format!("#{ones}{zeros}{zeros}")));
    assert!(!overflows(format!("#{bad}{zeros}{zeros}")));
    assert!(!overflows(format!("{zeros}{zeros}{zeros}")));
    // A sign counts as a digit of the shift, but a sign alone is no number.
    assert!(overflows(format!("#+{}{zeros}{zeros}", &ones[1..])));
    assert!(!overflows(format!("#-{}{zeros}{zeros}", &ones[1..])));
    assert!(!overflows(format!("#++{}{zeros}{zeros}", &ones[2..])));
    // Only the last part is too long, and the others decide whether it is reached.
    let fits = "F".repeat(DIGITS - 1);
    assert!(overflows(format!("#{fits}{fits}{zeros}")));
    assert!(!overflows(format!("#{fits}{}z{zeros}", &fits[1..])));
    assert!(!overflows(format!("#g{}{fits}{zeros}", &fits[1..])));
    assert!(!overflows(format!("#{fits}{fits}{ones}")));
    assert!(!overflows(String::new()));
    assert!(!overflows("#".to_string()));
    assert!(!overflows("#+".to_string()));
}

#[test]
fn only_parameters_that_are_colors_overflow() {
    let color = format!("#{}", "0".repeat(3 * DIGITS + 3));
    let overflows = |command: String| overflows_as_command(&parameters(&command));
    // Pairs of an index and a color.
    assert!(overflows(format!("4;1;{color}")));
    assert!(overflows(format!("4;255;#000;007;{color}")));
    assert!(overflows(format!("4;x;#000;7;{color}")));
    assert!(!overflows(format!("4;256;{color}")));
    assert!(!overflows(format!("4;;{color}")));
    assert!(!overflows(format!("4;x;{color}")));
    assert!(!overflows(format!("4;{color};1")));
    assert!(!overflows(format!("4;1;{color};2")));
    assert!(!overflows(format!("4;{color}")));
    // As many colors as there are numbers up to 12.
    for (number, colors) in [(10, 3), (11, 2), (12, 1), (13, 0), (9, 0)] {
        for before in 0..5 {
            let command = format!("{number};{}{color}", "?;".repeat(before));
            assert_eq!(overflows(command), before < colors, "{number} {before}");
        }
    }
    for number in ["", "0", "8", "04", "010", "104", "44"] {
        assert!(!overflows(format!("{number};1;{color}")), "{number}");
    }
    // No more than sixteen parameters are read, which is no whole number of pairs.
    assert!(overflows(format!("4;{}7;{color}", "1;#000;".repeat(6))));
    assert!(!overflows(format!("4;1;{color};{}7;#000", "1;#000;".repeat(6))));
}

#[test]
fn overflows_stay() {
    let digits = 3 * DIGITS + 1;
    let longest = format!("\x1b]10;#{}", "0".repeat(digits));
    assert!(matches!(after(&longest), Command::Text { .. }));
    assert!(matches!(after(&(longest.clone() + "\x07")), Command::Overflow));
    assert!(matches!(after(&(longest + "\x07\x1b]x")), Command::Overflow));
}

//! The commands in the bytes of a terminal that set a color.
//!
//! Such a command starts with the two bytes `ESC ]`, then come its number (4, 10, 11 or 12)
//! and its parameters, each behind a `;`. A parameter that starts with `#` is a color: what
//! follows is cut in three, the last part of which takes what does not divide, and each part
//! is read as a hexadecimal number of machine size. It is then shifted by as many digits as
//! it has behind the first one, which is an overflow where it has more digits than a number of
//! machine size. Leading zeros make such a part possible.

use vstd::prelude::*;

verus! {

/// The greatest number of parameters of a command, its number included, that are read.
pub const MAX_PARAMETERS: usize = 16;

/// Where in a command some bytes end.
#[derive(Debug)]
pub enum Command {
    /// In no command.
    Outside,
    /// Behind an escape character.
    Escape,
    /// In a command: its number and parameters that have ended, and the one that has not.
    Text { ended: Vec<Vec<u8>>, current: Vec<u8> },
    /// Behind a color that makes the emulator overflow.
    Overflow,
}

/// Where in a command some bytes end.
#[verifier::ext_equal]
pub enum Place {
    Outside,
    Escape,
    Text { ended: Seq<Seq<u8>>, current: Seq<u8> },
    Overflow,
}

/// The views of some byte strings.
pub open spec fn byte_views(strings: Seq<Vec<u8>>) -> Seq<Seq<u8>> {
    strings.map_values(|string: Vec<u8>| string@)
}

impl View for Command {
    type V = Place;

    open spec fn view(&self) -> Place {
        match self {
            Command::Outside => Place::Outside,
            Command::Escape => Place::Escape,
            Command::Text { ended, current } => Place::Text {
                ended: byte_views(ended@),
                current: current@,
            },
            Command::Overflow => Place::Overflow,
        }
    }
}

/// The value of a digit, 16 if the byte is none.
pub open spec fn digit_of(byte: u8) -> int {
    if 0x30 <= byte <= 0x39 {
        byte - 0x30
    } else if 0x41 <= byte <= 0x46 {
        byte - 0x41 + 10
    } else if 0x61 <= byte <= 0x66 {
        byte - 0x61 + 10
    } else {
        16
    }
}

/// The value of some digits.
pub open spec fn value_of(digits: Seq<u8>, base: int) -> int
    decreases digits.len(),
{
    if digits.len() == 0 {
        0
    } else {
        value_of(digits.drop_last(), base) * base + digit_of(digits.last())
    }
}

/// Whether some bytes are digits, at least one, with a value up to the limit.
pub open spec fn is_number(digits: Seq<u8>, base: int, limit: int) -> bool {
    &&& digits.len() > 0
    &&& forall|i: int| 0 <= i < digits.len() ==> digit_of(#[trigger] digits[i]) < base
    &&& value_of(digits, base) <= limit
}

/// Whether a parameter can be read as the index of a color.
pub open spec fn is_index(parameter: Seq<u8>) -> bool {
    is_number(parameter, 10, 255)
}

/// Whether a part of a color can be read: a hexadecimal number of machine size, which may have
/// a `+` before it.
pub open spec fn is_part(part: Seq<u8>) -> bool {
    let digits = if part.len() > 0 && part[0] == 0x2b {
        part.skip(1)
    } else {
        part
    };
    is_number(digits, 16, usize::MAX as int)
}

/// Whether a part of a color can be read, but has too many digits to be shifted by them.
pub open spec fn part_overflows(part: Seq<u8>) -> bool {
    is_part(part) && part.len() > usize::BITS / 4
}

/// Whether a parameter is a color of which a part overflows. The parts are read in turn, up to
/// the first one that cannot be read.
pub open spec fn color_overflows(parameter: Seq<u8>) -> bool {
    let len = parameter.len() as int;
    let third = (len - 1) / 3;
    let red = parameter.subrange(1, 1 + third);
    let green = parameter.subrange(1 + third, 1 + 2 * third);
    let blue = parameter.subrange(1 + 2 * third, len);
    &&& len > 0
    &&& parameter[0] == 0x23
    &&& part_overflows(red) || (is_part(red) && (part_overflows(green) || (is_part(green)
        && part_overflows(blue))))
}

/// The number of colors behind the number 10, 11 or 12 of a command, 0 behind others: one for
/// each of these numbers from there on.
pub open spec fn dynamic_colors(number: Seq<u8>) -> int {
    if number.len() == 2 && number[0] == 0x31 && 0x30 <= number[1] <= 0x32 {
        3 - (number[1] - 0x30)
    } else {
        0
    }
}

/// Whether a parameter of a command is read as a color.
///
/// Behind the number 4 come pairs of an index and a color, and nothing is read if one of a
/// pair is missing. Behind the others come colors.
pub open spec fn is_color(parameters: Seq<Seq<u8>>, i: int) -> bool {
    let count = if parameters.len() < MAX_PARAMETERS {
        parameters.len() as int
    } else {
        MAX_PARAMETERS as int
    };
    let number = parameters[0];
    &&& 1 <= i < count
    &&& if number.len() == 1 && number[0] == 0x34 {
        count % 2 == 1 && i % 2 == 0 && is_index(parameters[i - 1])
    } else {
        i <= dynamic_colors(number)
    }
}

/// Whether a command, given as its number and its parameters, makes the emulator overflow.
pub open spec fn command_overflows(parameters: Seq<Seq<u8>>) -> bool {
    exists|i: int| is_color(parameters, i) && color_overflows(#[trigger] parameters[i])
}

/// The bytes that end a command, but for the escape character, which starts the next one.
pub open spec fn ends_command(byte: u8) -> bool {
    byte == 0x07 || byte == 0x18 || byte == 0x1a
}

/// Where in a command a byte leads to.
pub open spec fn place_after(place: Place, byte: u8) -> Place {
    match place {
        Place::Overflow => Place::Overflow,
        Place::Text { ended, current } => {
            if byte == 0x1b || ends_command(byte) {
                if command_overflows(ended.push(current)) {
                    Place::Overflow
                } else if byte == 0x1b {
                    Place::Escape
                } else {
                    Place::Outside
                }
            } else if byte < 0x20 {
                // Other control bytes are read past.
                place
            } else if byte == 0x3b {
                Place::Text { ended: ended.push(current), current: Seq::empty() }
            } else {
                Place::Text { ended, current: current.push(byte) }
            }
        },
        _ if byte == 0x1b => Place::Escape,
        Place::Outside => Place::Outside,
        Place::Escape => {
            if byte == 0x5d {
                Place::Text { ended: Seq::empty(), current: Seq::empty() }
            } else if 0x20 <= byte <= 0x7e || byte == 0x18 || byte == 0x1a {
                Place::Outside
            } else {
                Place::Escape
            }
        },
    }
}

/// Where in a command some bytes lead to.
pub open spec fn place_after_all(place: Place, bytes: Seq<u8>) -> Place
    decreases bytes.len(),
{
    if bytes.len() == 0 {
        place
    } else {
        place_after(place_after_all(place, bytes.drop_last()), bytes.last())
    }
}

/// Whether none of the colors in some bytes makes the emulator overflow.
pub open spec fn colors_fit(bytes: Seq<u8>) -> bool {
    place_after_all(Place::Outside, bytes) != Place::Overflow
}

/// The value of a digit, 16 if the byte is none.
fn digit(byte: u8) -> (value: u8)
    ensures
        value == digit_of(byte),
        value <= 16,
{
    if 0x30 <= byte && byte <= 0x39 {
        byte - 0x30
    } else if 0x41 <= byte && byte <= 0x46 {
        byte - 0x41 + 10
    } else if 0x61 <= byte && byte <= 0x66 {
        byte - 0x61 + 10
    } else {
        16
    }
}

/// More digits have no smaller value.
proof fn value_grows(digits: Seq<u8>, len: int, base: int)
    requires
        0 <= len <= digits.len(),
        base >= 1,
    ensures
        0 <= value_of(digits.take(len), base) <= value_of(digits, base),
    decreases digits.len(),
{
    if digits.len() == 0 {
        assert(digits.take(len) =~= digits);
    } else {
        let before = digits.drop_last();
        let value = value_of(before, base);
        value_grows(before, before.len() as int, base);
        assert(before.take(before.len() as int) =~= before);
        assert(value * base >= value) by (nonlinear_arith)
            requires
                value >= 0,
                base >= 1,
        ;
        if len < digits.len() {
            value_grows(before, len, base);
            assert(before.take(len) =~= digits.take(len));
        } else {
            assert(digits.take(len) =~= digits);
        }
    }
}

/// Tells whether the bytes from one index to another are digits, at least one, with a value up
/// to the limit.
fn number_within(bytes: &Vec<u8>, from: usize, to: usize, base: u8, limit: u64) -> (within: bool)
    requires
        from <= to <= bytes.len(),
        1 <= base <= 16,
    ensures
        within == is_number(bytes@.subrange(from as int, to as int), base as int, limit as int),
{
    let ghost digits = bytes@.subrange(from as int, to as int);
    if from == to {
        return false;
    }
    let mut value: u128 = 0;
    let mut i: usize = from;
    assert(digits.take(0) =~= Seq::empty());
    while i < to
        invariant
            from <= i <= to <= bytes.len(),
            1 <= base <= 16,
            digits == bytes@.subrange(from as int, to as int),
            forall|j: int| 0 <= j < i - from ==> digit_of(#[trigger] digits[j]) < base,
            value == value_of(digits.take(i - from), base as int),
            value <= limit,
        decreases to - i,
    {
        let next: u8 = digit(bytes[i]);
        assert(digits[i - from] == bytes[i as int]);
        if next >= base {
            return false;
        }
        assert(0 <= value * base <= 0xffff_ffff_ffff_ffff * 16) by (nonlinear_arith)
            requires
                0 <= value <= 0xffff_ffff_ffff_ffff,
                1 <= base <= 16,
        ;
        value = value * base as u128 + next as u128;
        proof {
            assert(digits.take(i - from + 1).drop_last() =~= digits.take(i - from));
            value_grows(digits, i - from + 1, base as int);
        }
        if value > limit as u128 {
            return false;
        }
        i = i + 1;
    }
    assert(digits.take(to - from) =~= digits);
    true
}

/// Tells whether the bytes from one index to another can be read as a part of a color.
fn reads_part(bytes: &Vec<u8>, from: usize, to: usize) -> (reads: bool)
    requires
        from <= to <= bytes.len(),
    ensures
        reads == is_part(bytes@.subrange(from as int, to as int)),
{
    if from < to && bytes[from] == 0x2b {
        assert(bytes@.subrange(from as int, to as int).skip(1) =~= bytes@.subrange(
            from + 1,
            to as int,
        ));
        number_within(bytes, from + 1, to, 16, usize::MAX as u64)
    } else {
        number_within(bytes, from, to, 16, usize::MAX as u64)
    }
}

/// Tells whether a parameter is a color that makes the emulator overflow.
pub fn overflows_as_color(parameter: &Vec<u8>) -> (overflows: bool)
    ensures
        overflows == color_overflows(parameter@),
{
    let len: usize = parameter.len();
    if len == 0 || parameter[0] != 0x23 {
        return false;
    }
    let digits: usize = usize::BITS as usize / 4;
    let third: usize = (len - 1) / 3;
    let green: usize = 1 + third;
    let blue: usize = 1 + 2 * third;
    if !reads_part(parameter, 1, green) {
        return false;
    }
    if third > digits {
        return true;
    }
    reads_part(parameter, green, blue) && len - blue > digits && reads_part(parameter, blue, len)
}

/// Tells whether a command, given as its number and its parameters, makes the emulator
/// overflow.
pub fn overflows_as_command(parameters: &Vec<Vec<u8>>) -> (overflows: bool)
    requires
        parameters.len() > 0,
    ensures
        overflows == command_overflows(byte_views(parameters@)),
{
    let ghost all = byte_views(parameters@);
    let number: &Vec<u8> = &parameters[0];
    let count: usize = if parameters.len() < MAX_PARAMETERS {
        parameters.len()
    } else {
        MAX_PARAMETERS
    };
    let pairs: bool = number.len() == 1 && number[0] == 0x34;
    let dynamic: usize = if number.len() == 2 && number[0] == 0x31 && 0x30 <= number[1]
        && number[1] <= 0x32 {
        3 - (number[1] - 0x30) as usize
    } else {
        0
    };
    assert(all[0] == number@);
    let mut i: usize = 1;
    while i < count
        invariant
            all == byte_views(parameters@),
            1 <= i,
            count <= parameters.len(),
            count == if parameters.len() < MAX_PARAMETERS {
                parameters.len()
            } else {
                MAX_PARAMETERS
            },
            pairs == (all[0].len() == 1 && all[0][0] == 0x34),
            dynamic == dynamic_colors(all[0]),
            forall|j: int|
                1 <= j < i ==> !(is_color(all, j) && color_overflows(#[trigger] all[j])),
        decreases count - i,
    {
        let read: bool = if pairs {
            count % 2 == 1 && i % 2 == 0 && number_within(
                &parameters[i - 1],
                0,
                parameters[i - 1].len(),
                10,
                255,
            )
        } else {
            i <= dynamic
        };
        proof {
            let before = all[i - 1];
            assert(before == parameters[i - 1]@);
            assert(before.subrange(0, before.len() as int) =~= before);
            assert(all[i as int] == parameters[i as int]@);
        }
        if read && overflows_as_color(&parameters[i]) {
            assert(is_color(all, i as int) && color_overflows(all[i as int]));
            return true;
        }
        i = i + 1;
    }
    false
}

impl Command {
    /// Goes on with a byte.
    pub fn advance(&mut self, byte: u8)
        ensures
            final(self)@ == place_after(old(self)@, byte),
    {
        let ends: bool = byte == 0x07 || byte == 0x18 || byte == 0x1a;
        let mut command: Command = Command::Outside;
        std::mem::swap(&mut command, self);
        *self = match command {
            Command::Overflow => Command::Overflow,
            Command::Text { ended, current } => {
                let ghost before = byte_views(ended@);
                let ghost last = current@;
                let mut ended: Vec<Vec<u8>> = ended;
                let mut current: Vec<u8> = current;
                if byte == 0x1b || ends {
                    ended.push(current);
                    assert(byte_views(ended@) =~= before.push(last));
                    if overflows_as_command(&ended) {
                        Command::Overflow
                    } else if byte == 0x1b {
                        Command::Escape
                    } else {
                        Command::Outside
                    }
                } else if byte < 0x20 {
                    Command::Text { ended, current }
                } else if byte == 0x3b {
                    ended.push(current);
                    assert(byte_views(ended@) =~= before.push(last));
                    Command::Text { ended, current: Vec::new() }
                } else {
                    current.push(byte);
                    Command::Text { ended, current }
                }
            },
            Command::Outside => {
                if byte == 0x1b {
                    Command::Escape
                } else {
                    Command::Outside
                }
            },
            Command::Escape => {
                if byte == 0x5d {
                    let ended: Vec<Vec<u8>> = Vec::new();
                    assert(byte_views(ended@) =~= Seq::empty());
                    Command::Text { ended, current: Vec::new() }
                } else if (0x20 <= byte && byte <= 0x7e) || byte == 0x18 || byte == 0x1a {
                    Command::Outside
                } else {
                    Command::Escape
                }
            },
        };
    }

    /// The same place in the same command.
    pub fn duplicate(&self) -> (copy: Command)
        ensures
            copy@ == self@,
    {
        match self {
            Command::Outside => Command::Outside,
            Command::Escape => Command::Escape,
            Command::Overflow => Command::Overflow,
            Command::Text { ended, current } => {
                let mut copies: Vec<Vec<u8>> = Vec::new();
                let mut i: usize = 0;
                while i < ended.len()
                    invariant
                        i <= ended.len(),
                        copies.len() == i,
                        forall|j: int| 0 <= j < i ==> (#[trigger] copies[j])@ == ended[j]@,
                    decreases ended.len() - i,
                {
                    copies.push(duplicate_bytes(&ended[i]));
                    i = i + 1;
                }
                assert(byte_views(copies@) =~= byte_views(ended@));
                Command::Text { ended: copies, current: duplicate_bytes(current) }
            },
        }
    }
}

fn duplicate_bytes(bytes: &Vec<u8>) -> (copy: Vec<u8>)
    ensures
        copy@ == bytes@,
{
    let mut copy: Vec<u8> = Vec::new();
    let mut i: usize = 0;
    while i < bytes.len()
        invariant
            i <= bytes.len(),
            copy@ == bytes@.take(i as int),
        decreases bytes.len() - i,
    {
        copy.push(bytes[i]);
        assert(bytes@.take(i + 1) =~= bytes@.take(i as int).push(bytes[i as int]));
        i = i + 1;
    }
    assert(bytes@.take(i as int) =~= bytes@);
    copy
}

/// Bytes lead to the same place in two pieces.
pub proof fn place_after_pieces(place: Place, first: Seq<u8>, second: Seq<u8>)
    ensures
        place_after_all(place, first + second) == place_after_all(
            place_after_all(place, first),
            second,
        ),
    decreases second.len(),
{
    if second.len() == 0 {
        assert(first + second =~= first);
    } else {
        place_after_pieces(place, first, second.drop_last());
        assert((first + second).drop_last() =~= first + second.drop_last());
    }
}

/// The colors of bytes that fit do so in each beginning of these bytes.
pub proof fn colors_fit_before(first: Seq<u8>, second: Seq<u8>)
    requires
        colors_fit(first + second),
    ensures
        colors_fit(first),
    decreases second.len(),
{
    if second.len() == 0 {
        assert(first + second =~= first);
    } else {
        assert((first + second).drop_last() =~= first + second.drop_last());
        colors_fit_before(first, second.drop_last());
    }
}

/// A color overflows only if it is longer than all digits of three numbers of machine size, or
/// by one shorter: then its last part has one digit more than such a number.
pub proof fn shorter_colors_fit(parameter: Seq<u8>)
    ensures
        color_overflows(parameter) ==> parameter.len() - 1 > 3 * (usize::BITS / 4)
            || parameter.len() - 1 == 3 * (usize::BITS / 4) - 1,
{
}

/// Bytes without an escape character hold no command.
pub proof fn no_command_without_escape(bytes: Seq<u8>)
    requires
        !bytes.contains(0x1b),
    ensures
        place_after_all(Place::Outside, bytes) == Place::Outside,
        colors_fit(bytes),
    decreases bytes.len(),
{
    if bytes.len() > 0 {
        let before = bytes.drop_last();
        assert(!before.contains(0x1b)) by {
            if before.contains(0x1b) {
                let i = choose|i: int| 0 <= i < before.len() && before[i] == 0x1b;
                assert(bytes[i] == 0x1b);
            }
        }
        no_command_without_escape(before);
        assert(bytes[bytes.len() - 1] != 0x1b);
    }
}

} // verus!

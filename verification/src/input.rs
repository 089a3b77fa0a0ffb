//! Keyboard input: which keys there are, and the text a key press types.
use vstd::prelude::*;

verus! {

/// The keys the editor tells apart.
#[derive(Clone, Copy, Debug, PartialEq, Eq, Structural)]
pub enum Key {
    A,
    B,
    C,
    D,
    E,
    F,
    G,
    H,
    I,
    J,
    K,
    L,
    M,
    N,
    O,
    P,
    Q,
    R,
    S,
    T,
    U,
    V,
    W,
    X,
    Y,
    Z,
    Key1,
    Key2,
    Key3,
    Key4,
    Key5,
    Key6,
    Key7,
    Key8,
    Key9,
    Key0,
    Return,
    Space,
    Back,
    Up,
    Down,
    Left,
    Right,
    /// Any other key.
    Other,
}

/// Which modifier keys are held.
#[derive(Clone, Copy, Debug, PartialEq, Eq, Structural)]
pub struct Modifiers {
    pub shift: bool,
    pub ctrl: bool,
    pub alt: bool,
    pub logo: bool,
}

/// The place of a letter key in the alphabet.
pub open spec fn letter_index(key: Key) -> Option<u8> {
    match key {
        Key::A => Some(0u8),
        Key::B => Some(1u8),
        Key::C => Some(2u8),
        Key::D => Some(3u8),
        Key::E => Some(4u8),
        Key::F => Some(5u8),
        Key::G => Some(6u8),
        Key::H => Some(7u8),
        Key::I => Some(8u8),
        Key::J => Some(9u8),
        Key::K => Some(10u8),
        Key::L => Some(11u8),
        Key::M => Some(12u8),
        Key::N => Some(13u8),
        Key::O => Some(14u8),
        Key::P => Some(15u8),
        Key::Q => Some(16u8),
        Key::R => Some(17u8),
        Key::S => Some(18u8),
        Key::T => Some(19u8),
        Key::U => Some(20u8),
        Key::V => Some(21u8),
        Key::W => Some(22u8),
        Key::X => Some(23u8),
        Key::Y => Some(24u8),
        Key::Z => Some(25u8),
        _ => None,
    }
}

/// The digit of a digit key.
pub open spec fn digit_of(key: Key) -> Option<u8> {
    match key {
        Key::Key1 => Some(1u8),
        Key::Key2 => Some(2u8),
        Key::Key3 => Some(3u8),
        Key::Key4 => Some(4u8),
        Key::Key5 => Some(5u8),
        Key::Key6 => Some(6u8),
        Key::Key7 => Some(7u8),
        Key::Key8 => Some(8u8),
        Key::Key9 => Some(9u8),
        Key::Key0 => Some(0u8),
        _ => None,
    }
}

/// What the digit keys type with shift held, for the digits 1 to 9 then 0.
pub open spec fn shifted_digits() -> Seq<char> {
    seq!['!', '@', '#', '$', '%', '^', '&', '*', '(', ')']
}

/// The character a key types: a letter, upper case with shift; a digit, or
/// with shift the symbol above it; a line feed for return; a space for the
/// space bar; nothing for any other key.
pub open spec fn key_char(shift: bool, key: Key) -> Option<char> {
    if letter_index(key) is Some {
        let base = if shift {
            'A' as u8
        } else {
            'a' as u8
        };
        Some((base + letter_index(key)->0) as char)
    } else if digit_of(key) is Some {
        let d = digit_of(key)->0;
        if shift {
            Some(shifted_digits()[if d == 0 {
                9int
            } else {
                d - 1
            }])
        } else {
            Some(('0' as u8 + d) as char)
        }
    } else if key == Key::Return {
        Some('\n')
    } else if key == Key::Space {
        Some(' ')
    } else {
        None
    }
}

/// The character that pressing `key` types with the modifiers held.
pub fn keycode_char(modifiers: Modifiers, key: Key) -> (r: Option<char>)
    ensures
        r == key_char(modifiers.shift, key),
{
    let shift = modifiers.shift;
    let c = match key {
        Key::A => if shift { 'A' } else { 'a' },
        Key::B => if shift { 'B' } else { 'b' },
        Key::C => if shift { 'C' } else { 'c' },
        Key::D => if shift { 'D' } else { 'd' },
        Key::E => if shift { 'E' } else { 'e' },
        Key::F => if shift { 'F' } else { 'f' },
        Key::G => if shift { 'G' } else { 'g' },
        Key::H => if shift { 'H' } else { 'h' },
        Key::I => if shift { 'I' } else { 'i' },
        Key::J => if shift { 'J' } else { 'j' },
        Key::K => if shift { 'K' } else { 'k' },
        Key::L => if shift { 'L' } else { 'l' },
        Key::M => if shift { 'M' } else { 'm' },
        Key::N => if shift { 'N' } else { 'n' },
        Key::O => if shift { 'O' } else { 'o' },
        Key::P => if shift { 'P' } else { 'p' },
        Key::Q => if shift { 'Q' } else { 'q' },
        Key::R => if shift { 'R' } else { 'r' },
        Key::S => if shift { 'S' } else { 's' },
        Key::T => if shift { 'T' } else { 't' },
        Key::U => if shift { 'U' } else { 'u' },
        Key::V => if shift { 'V' } else { 'v' },
        Key::W => if shift { 'W' } else { 'w' },
        Key::X => if shift { 'X' } else { 'x' },
        Key::Y => if shift { 'Y' } else { 'y' },
        Key::Z => if shift { 'Z' } else { 'z' },
        Key::Key1 => if shift { '!' } else { '1' },
        Key::Key2 => if shift { '@' } else { '2' },
        Key::Key3 => if shift { '#' } else { '3' },
        Key::Key4 => if shift { '$' } else { '4' },
        Key::Key5 => if shift { '%' } else { '5' },
        Key::Key6 => if shift { '^' } else { '6' },
        Key::Key7 => if shift { '&' } else { '7' },
        Key::Key8 => if shift { '*' } else { '8' },
        Key::Key9 => if shift { '(' } else { '9' },
        Key::Key0 => if shift { ')' } else { '0' },
        Key::Return => '\n',
        Key::Space => ' ',
        _ => {
            return None;
        },
    };
    Some(c)
}

/// The text that pressing `key` types with the modifiers held: the one
/// character that `keycode_char` gives.
pub fn keycode_str(modifiers: Modifiers, key: Key) -> (r: Option<&'static str>)
    ensures
        match key_char(modifiers.shift, key) {
            Some(c) => (r matches Some(s) && s@ == seq![c]),
            None => r is None,
        },
{
    let shift = modifiers.shift;
    let s = match key {
        Key::A => if shift { proof { reveal_strlit("A"); } "A" } else { proof { reveal_strlit("a"); } "a" },
        Key::B => if shift { proof { reveal_strlit("B"); } "B" } else { proof { reveal_strlit("b"); } "b" },
        Key::C => if shift { proof { reveal_strlit("C"); } "C" } else { proof { reveal_strlit("c"); } "c" },
        Key::D => if shift { proof { reveal_strlit("D"); } "D" } else { proof { reveal_strlit("d"); } "d" },
        Key::E => if shift { proof { reveal_strlit("E"); } "E" } else { proof { reveal_strlit("e"); } "e" },
        Key::F => if shift { proof { reveal_strlit("F"); } "F" } else { proof { reveal_strlit("f"); } "f" },
        Key::G => if shift { proof { reveal_strlit("G"); } "G" } else { proof { reveal_strlit("g"); } "g" },
        Key::H => if shift { proof { reveal_strlit("H"); } "H" } else { proof { reveal_strlit("h"); } "h" },
        Key::I => if shift { proof { reveal_strlit("I"); } "I" } else { proof { reveal_strlit("i"); } "i" },
        Key::J => if shift { proof { reveal_strlit("J"); } "J" } else { proof { reveal_strlit("j"); } "j" },
        Key::K => if shift { proof { reveal_strlit("K"); } "K" } else { proof { reveal_strlit("k"); } "k" },
        Key::L => if shift { proof { reveal_strlit("L"); } "L" } else { proof { reveal_strlit("l"); } "l" },
        Key::M => if shift { proof { reveal_strlit("M"); } "M" } else { proof { reveal_strlit("m"); } "m" },
        Key::N => if shift { proof { reveal_strlit("N"); } "N" } else { proof { reveal_strlit("n"); } "n" },
        Key::O => if shift { proof { reveal_strlit("O"); } "O" } else { proof { reveal_strlit("o"); } "o" },
        Key::P => if shift { proof { reveal_strlit("P"); } "P" } else { proof { reveal_strlit("p"); } "p" },
        Key::Q => if shift { proof { reveal_strlit("Q"); } "Q" } else { proof { reveal_strlit("q"); } "q" },
        Key::R => if shift { proof { reveal_strlit("R"); } "R" } else { proof { reveal_strlit("r"); } "r" },
        Key::S => if shift { proof { reveal_strlit("S"); } "S" } else { proof { reveal_strlit("s"); } "s" },
        Key::T => if shift { proof { reveal_strlit("T"); } "T" } else { proof { reveal_strlit("t"); } "t" },
        Key::U => if shift { proof { reveal_strlit("U"); } "U" } else { proof { reveal_strlit("u"); } "u" },
        Key::V => if shift { proof { reveal_strlit("V"); } "V" } else { proof { reveal_strlit("v"); } "v" },
        Key::W => if shift { proof { reveal_strlit("W"); } "W" } else { proof { reveal_strlit("w"); } "w" },
        Key::X => if shift { proof { reveal_strlit("X"); } "X" } else { proof { reveal_strlit("x"); } "x" },
        Key::Y => if shift { proof { reveal_strlit("Y"); } "Y" } else { proof { reveal_strlit("y"); } "y" },
        Key::Z => if shift { proof { reveal_strlit("Z"); } "Z" } else { proof { reveal_strlit("z"); } "z" },
        Key::Key1 => if shift { proof { reveal_strlit("!"); } "!" } else { proof { reveal_strlit("1"); } "1" },
        Key::Key2 => if shift { proof { reveal_strlit("@"); } "@" } else { proof { reveal_strlit("2"); } "2" },
        Key::Key3 => if shift { proof { reveal_strlit("#"); } "#" } else { proof { reveal_strlit("3"); } "3" },
        Key::Key4 => if shift { proof { reveal_strlit("$"); } "$" } else { proof { reveal_strlit("4"); } "4" },
        Key::Key5 => if shift { proof { reveal_strlit("%"); } "%" } else { proof { reveal_strlit("5"); } "5" },
        Key::Key6 => if shift { proof { reveal_strlit("^"); } "^" } else { proof { reveal_strlit("6"); } "6" },
        Key::Key7 => if shift { proof { reveal_strlit("&"); } "&" } else { proof { reveal_strlit("7"); } "7" },
        Key::Key8 => if shift { proof { reveal_strlit("*"); } "*" } else { proof { reveal_strlit("8"); } "8" },
        Key::Key9 => if shift { proof { reveal_strlit("("); } "(" } else { proof { reveal_strlit("9"); } "9" },
        Key::Key0 => if shift { proof { reveal_strlit(")"); } ")" } else { proof { reveal_strlit("0"); } "0" },
        Key::Return => {
            proof {
                reveal_strlit("\n");
            }
            "\n"
        },
        Key::Space => {
            proof {
                reveal_strlit(" ");
            }
            " "
        },
        _ => {
            return None;
        },
    };
    Some(s)
}

} // verus!

//! Colours and their textual form.

use vstd::prelude::*;
use vstd::string::*;

verus! {

/// A colour as an escape sequence names it. Two colours are equal when they
/// are written the same way, not when they look the same.
#[derive(Debug, PartialEq, Eq, Clone, Copy, Structural)]
pub enum Color {
    /// No colour set.
    Unset,
    /// An entry of the 256-colour palette.
    Byte(u8),
    /// Red, green and blue, each 0 to 255.
    Full(u8, u8, u8),
    Black,
    Red,
    Green,
    Yellow,
    Blue,
    Magenta,
    Cyan,
    White,
}

/// The red, green and blue of a palette entry: what
/// `ansi_colours::rgb_from_ansi256` returns for that index.
pub uninterp spec fn palette_rgb(index: u8) -> (u8, u8, u8);

/// `ansi_colours::rgb_from_ansi256` looks the index up in a fixed table of 256
/// entries, so its result depends on the index alone. Nothing more is claimed
/// of it here.
pub assume_specification[ ansi_colours::rgb_from_ansi256 ](idx: u8) -> (rgb: (u8, u8, u8))
    ensures
        rgb == palette_rgb(idx),
;

/// `String::push` appends one character.
pub assume_specification[ String::push ](s: &mut String, ch: char)
    ensures
        final(s)@ == old(s)@.push(ch),
;

/// The upper-case hexadecimal digit for a value below 16.
pub open spec fn hex_digit(d: int) -> char
    recommends
        0 <= d < 16,
{
    "0123456789ABCDEF"@[d]
}

/// Two hexadecimal digits for one byte, the high one first.
pub open spec fn hex_byte(b: u8) -> Seq<char> {
    seq![hex_digit(b as int / 16), hex_digit(b as int % 16)]
}

/// `#RRGGBB`.
pub open spec fn hex_triplet(r: u8, g: u8, b: u8) -> Seq<char> {
    seq!['#'] + hex_byte(r) + hex_byte(g) + hex_byte(b)
}

fn hex_digit_char(d: u8) -> (c: char)
    requires
        d < 16,
    ensures
        c == hex_digit(d as int),
{
    proof {
        reveal_strlit("0123456789ABCDEF");
    }
    if d < 10 {
        (d + 48) as char
    } else {
        (d + 55) as char
    }
}

fn push_hex_byte(s: &mut String, b: u8)
    ensures
        final(s)@ == old(s)@ + hex_byte(b),
{
    s.push(hex_digit_char(b / 16));
    s.push(hex_digit_char(b % 16));
    assert(s@ =~= old(s)@ + hex_byte(b));
}

fn hex_string(r: u8, g: u8, b: u8) -> (s: String)
    ensures
        s@ == hex_triplet(r, g, b),
{
    let mut s = String::new();
    s.push('#');
    push_hex_byte(&mut s, r);
    push_hex_byte(&mut s, g);
    push_hex_byte(&mut s, b);
    assert(s@ =~= hex_triplet(r, g, b));
    s
}

/// The eight named colours in the order of their codes.
pub open spec fn named_color(ordinal: u8) -> Color
    recommends
        ordinal < 8,
{
    if ordinal == 0 {
        Color::Black
    } else if ordinal == 1 {
        Color::Red
    } else if ordinal == 2 {
        Color::Green
    } else if ordinal == 3 {
        Color::Yellow
    } else if ordinal == 4 {
        Color::Blue
    } else if ordinal == 5 {
        Color::Magenta
    } else if ordinal == 6 {
        Color::Cyan
    } else {
        Color::White
    }
}

/// The colour that a palette index selects: a named colour for the first
/// eight, the palette entry itself for the others.
pub open spec fn palette_color(index: u8) -> Color {
    if index < 8 {
        named_color(index)
    } else {
        Color::Byte(index)
    }
}

impl Color {
    /// The named colour with this ordinal, 0 to 7.
    pub(crate) fn named(ordinal: u8) -> (c: Color)
        requires
            ordinal < 8,
        ensures
            c == named_color(ordinal),
    {
        match ordinal {
            0 => Color::Black,
            1 => Color::Red,
            2 => Color::Green,
            3 => Color::Yellow,
            4 => Color::Blue,
            5 => Color::Magenta,
            6 => Color::Cyan,
            _ => Color::White,
        }
    }

    /// The colour that a palette index selects.
    pub fn from_palette(index: u8) -> (c: Color)
        ensures
            c == palette_color(index),
    {
        if index < 8 {
            Color::named(index)
        } else {
            Color::Byte(index)
        }
    }

    /// The text of the colour in a style declaration: nothing for no colour,
    /// the keyword of a named colour, `#RRGGBB` for the two others.
    pub open spec fn text(self) -> Seq<char> {
        match self {
            Color::Unset => Seq::empty(),
            Color::Byte(n) => {
                let rgb = palette_rgb(n);
                hex_triplet(rgb.0, rgb.1, rgb.2)
            },
            Color::Full(r, g, b) => hex_triplet(r, g, b),
            Color::Black => "black"@,
            Color::Red => "red"@,
            Color::Green => "green"@,
            Color::Yellow => "yellow"@,
            Color::Blue => "blue"@,
            Color::Magenta => "magenta"@,
            Color::Cyan => "cyan"@,
            Color::White => "white"@,
        }
    }

    pub fn to_string(&self) -> (s: String)
        ensures
            s@ == self.text(),
    {
        match self {
            Color::Unset => String::new(),
            Color::Byte(n) => {
                let rgb = ansi_colours::rgb_from_ansi256(*n);
                hex_string(rgb.0, rgb.1, rgb.2)
            },
            Color::Full(r, g, b) => hex_string(*r, *g, *b),
            Color::Black => String::from_str("black"),
            Color::Red => String::from_str("red"),
            Color::Green => String::from_str("green"),
            Color::Yellow => String::from_str("yellow"),
            Color::Blue => String::from_str("blue"),
            Color::Magenta => String::from_str("magenta"),
            Color::Cyan => String::from_str("cyan"),
            Color::White => String::from_str("white"),
        }
    }
}

} // verus!

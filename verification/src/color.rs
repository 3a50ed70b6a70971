//! The colour model: 8-bit RGB triples and their `#rrggbb` notation.

use vstd::prelude::*;

verus! {

/// An opaque sRGB colour with 8 bits per channel.
#[derive(Clone, Copy, Debug, PartialEq, Eq, Structural)]
pub struct Color {
    pub red: u8,
    pub green: u8,
    pub blue: u8,
}

/// The value of one hexadecimal digit, in either case.
pub open spec fn hex_value(b: u8) -> Option<int> {
    if 0x30 <= b <= 0x39 {
        Some(b - 0x30)
    } else if 0x61 <= b <= 0x66 {
        Some(b - 0x61 + 10)
    } else if 0x41 <= b <= 0x46 {
        Some(b - 0x41 + 10)
    } else {
        None
    }
}

/// The lower-case hexadecimal digit for a value below 16.
pub open spec fn hex_digit(v: int) -> u8 {
    if v < 10 {
        (0x30 + v) as u8
    } else {
        (0x61 + v - 10) as u8
    }
}

/// The channel written by the two hexadecimal digits at `at` and `at + 1`.
pub open spec fn hex_pair(raw: Seq<u8>, at: int) -> Option<u8> {
    match (hex_value(raw[at]), hex_value(raw[at + 1])) {
        (Some(high), Some(low)) => Some((16 * high + low) as u8),
        _ => None,
    }
}

/// The colour that an inline literal denotes: `#` and six hexadecimal digits,
/// two per channel, red first.
pub open spec fn literal_color(raw: Seq<u8>) -> Option<Color> {
    if raw.len() == 7 && raw[0] == 0x23 {
        match (hex_pair(raw, 1), hex_pair(raw, 3), hex_pair(raw, 5)) {
            (Some(red), Some(green), Some(blue)) => Some(Color { red, green, blue }),
            _ => None,
        }
    } else {
        None
    }
}

/// The literal that `to_hex` writes for a colour.
pub open spec fn color_literal(color: Color) -> Seq<u8> {
    seq![
        0x23u8,
        hex_digit(color.red as int / 16),
        hex_digit(color.red as int % 16),
        hex_digit(color.green as int / 16),
        hex_digit(color.green as int % 16),
        hex_digit(color.blue as int / 16),
        hex_digit(color.blue as int % 16),
    ]
}

fn hex_digit_value(b: u8) -> (r: Option<u8>)
    ensures
        match r {
            Some(v) => hex_value(b) == Some(v as int) && v < 16,
            None => hex_value(b) is None,
        },
{
    if 0x30 <= b && b <= 0x39 {
        Some(b - 0x30)
    } else if 0x61 <= b && b <= 0x66 {
        Some(b - 0x61 + 10)
    } else if 0x41 <= b && b <= 0x46 {
        Some(b - 0x41 + 10)
    } else {
        None
    }
}

fn hex_channel(raw: &[u8], at: usize) -> (r: Option<u8>)
    requires
        at + 1 < raw.len(),
    ensures
        r == hex_pair(raw@, at as int),
{
    match (hex_digit_value(raw[at]), hex_digit_value(raw[at + 1])) {
        (Some(high), Some(low)) => Some(16 * high + low),
        _ => None,
    }
}

fn digit_of(v: u8) -> (r: u8)
    requires
        v < 16,
    ensures
        r == hex_digit(v as int),
{
    if v < 10 {
        0x30 + v
    } else {
        0x61 + v - 10
    }
}

impl Color {
    pub fn new(red: u8, green: u8, blue: u8) -> (r: Color)
        ensures
            r == (Color { red, green, blue }),
    {
        Color { red, green, blue }
    }

    /// A gray with all three channels at `level`.
    pub fn gray(level: u8) -> (r: Color)
        ensures
            r == (Color { red: level, green: level, blue: level }),
    {
        Color { red: level, green: level, blue: level }
    }

    /// Reads an inline literal `#rrggbb`.
    pub fn from_hex(raw: &[u8]) -> (r: Option<Color>)
        ensures
            r == literal_color(raw@),
    {
        if raw.len() != 7 || raw[0] != 0x23 {
            return None;
        }
        match (hex_channel(raw, 1), hex_channel(raw, 3), hex_channel(raw, 5)) {
            (Some(red), Some(green), Some(blue)) => Some(Color { red, green, blue }),
            _ => None,
        }
    }

    /// Writes the colour as an inline literal, in lower case.
    pub fn to_hex(&self) -> (r: Vec<u8>)
        ensures
            r@ == color_literal(*self),
    {
        let mut out: Vec<u8> = Vec::new();
        out.push(0x23);
        out.push(digit_of(self.red / 16));
        out.push(digit_of(self.red % 16));
        out.push(digit_of(self.green / 16));
        out.push(digit_of(self.green % 16));
        out.push(digit_of(self.blue / 16));
        out.push(digit_of(self.blue % 16));
        assert(out@ =~= color_literal(*self));
        out
    }
}

/// Reading back what `to_hex` wrote gives the colour again.
pub proof fn lemma_hex_round_trip(color: Color)
    ensures
        literal_color(color_literal(color)) == Some(color),
{
    let raw = color_literal(color);
    lemma_pair_round_trip(raw, 1, color.red);
    lemma_pair_round_trip(raw, 3, color.green);
    lemma_pair_round_trip(raw, 5, color.blue);
}

proof fn lemma_pair_round_trip(raw: Seq<u8>, at: int, channel: u8)
    requires
        0 <= at,
        at + 1 < raw.len(),
        raw[at] == hex_digit(channel as int / 16),
        raw[at + 1] == hex_digit(channel as int % 16),
    ensures
        hex_pair(raw, at) == Some(channel),
{
    let high = channel as int / 16;
    let low = channel as int % 16;
    assert(0 <= high < 16 && 0 <= low < 16);
    assert(hex_value(hex_digit(high)) == Some(high));
    assert(hex_value(hex_digit(low)) == Some(low));
    assert(16 * high + low == channel);
}

} // verus!

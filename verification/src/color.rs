//! Parsing of `#RRGGBB` hex color strings into RGB triples.

use vstd::prelude::*;

verus! {

/// An RGB color; each channel is an integer in 0..=255.
#[derive(Clone, Copy, Debug, PartialEq, Eq, Structural)]
pub struct RgbColor {
    pub red: u8,
    pub green: u8,
    pub blue: u8,
}

/// Errors that abort a whole layout call.
#[derive(Clone, Copy, Debug, PartialEq, Eq, Structural)]
pub enum LayoutError {
    /// The region's fill color is not of the form `#RRGGBB`.
    MalformedColor,
    /// A region dimension (width, height or line advance) is not positive.
    InvalidRegion,
}

/// Whether `c` is an ASCII hexadecimal digit.
pub open spec fn is_hex_digit(c: char) -> bool {
    (48 <= c as u32 && c as u32 <= 57)  // '0'..='9'
    || (97 <= c as u32 && c as u32 <= 102)  // 'a'..='f'
    || (65 <= c as u32 && c as u32 <= 70)  // 'A'..='F'
}

/// Numeric value of a hexadecimal digit (0 for non-digits).
pub open spec fn hex_digit_value(c: char) -> int {
    if 48 <= c as u32 && c as u32 <= 57 {
        c as u32 - 48
    } else if 97 <= c as u32 && c as u32 <= 102 {
        c as u32 - 87
    } else if 65 <= c as u32 && c as u32 <= 70 {
        c as u32 - 55
    } else {
        0
    }
}

/// Whether `s` is exactly a `#` followed by six hexadecimal digits.
pub open spec fn is_valid_color_text(s: Seq<char>) -> bool {
    s.len() == 7 && s[0] as u32 == 35  // '#'
    && (forall|i: int| 1 <= i < 7 ==> is_hex_digit(#[trigger] s[i]))
}

/// Value in 0..=255 of the two hex digits at `s[i]`, `s[i + 1]`.
pub open spec fn channel_value(s: Seq<char>, i: int) -> int {
    16 * hex_digit_value(s[i]) + hex_digit_value(s[i + 1])
}

/// The color denoted by a valid `#RRGGBB` text.
pub open spec fn color_of_text(s: Seq<char>) -> RgbColor {
    RgbColor {
        red: channel_value(s, 1) as u8,
        green: channel_value(s, 3) as u8,
        blue: channel_value(s, 5) as u8,
    }
}

/// The lowercase hex digit denoting a value in 0..=15.
pub open spec fn hex_digit_char(v: int) -> char {
    if v == 0 {
        '0'
    } else if v == 1 {
        '1'
    } else if v == 2 {
        '2'
    } else if v == 3 {
        '3'
    } else if v == 4 {
        '4'
    } else if v == 5 {
        '5'
    } else if v == 6 {
        '6'
    } else if v == 7 {
        '7'
    } else if v == 8 {
        '8'
    } else if v == 9 {
        '9'
    } else if v == 10 {
        'a'
    } else if v == 11 {
        'b'
    } else if v == 12 {
        'c'
    } else if v == 13 {
        'd'
    } else if v == 14 {
        'e'
    } else {
        'f'
    }
}

/// The two lowercase hex digits denoting a value in 0..=255.
pub open spec fn hex_pair(v: int) -> Seq<char> {
    seq![hex_digit_char(v / 16), hex_digit_char(v % 16)]
}

/// The canonical `#rrggbb` text of a color.
pub open spec fn color_hex_text(c: RgbColor) -> Seq<char> {
    seq!['#'] + hex_pair(c.red as int) + hex_pair(c.green as int) + hex_pair(c.blue as int)
}

proof fn lemma_hex_digit_char_value(v: int)
    requires
        0 <= v < 16,
    ensures
        is_hex_digit(hex_digit_char(v)),
        hex_digit_value(hex_digit_char(v)) == v,
{
}

/// Parsing the canonical hex text of any color yields that color back:
/// the round trip is exact for every channel triple.
pub proof fn law_color_round_trip(c: RgbColor)
    ensures
        is_valid_color_text(color_hex_text(c)),
        color_of_text(color_hex_text(c)) == c,
{
    let s = color_hex_text(c);
    lemma_hex_digit_char_value(c.red as int / 16);
    lemma_hex_digit_char_value(c.red as int % 16);
    lemma_hex_digit_char_value(c.green as int / 16);
    lemma_hex_digit_char_value(c.green as int % 16);
    lemma_hex_digit_char_value(c.blue as int / 16);
    lemma_hex_digit_char_value(c.blue as int % 16);
    assert(s.len() == 7);
    assert(s[0] == '#');
    assert(s[1] == hex_digit_char(c.red as int / 16));
    assert(s[2] == hex_digit_char(c.red as int % 16));
    assert(s[3] == hex_digit_char(c.green as int / 16));
    assert(s[4] == hex_digit_char(c.green as int % 16));
    assert(s[5] == hex_digit_char(c.blue as int / 16));
    assert(s[6] == hex_digit_char(c.blue as int % 16));
    assert('#' as u32 == 35);
    assert(channel_value(s, 1) == c.red as int);
    assert(channel_value(s, 3) == c.green as int);
    assert(channel_value(s, 5) == c.blue as int);
}

/// One lowercase hex digit for a value in 0..=15.
fn hex_char(v: u8) -> (r: char)
    requires
        v < 16,
    ensures
        r == hex_digit_char(v as int),
{
    if v < 10 {
        (48 + v) as char
    } else {
        (87 + v) as char
    }
}

/// The canonical `#rrggbb` text of a color.
pub fn rgb_to_hex(c: &RgbColor) -> (r: Vec<char>)
    ensures
        r@ == color_hex_text(*c),
{
    let mut r: Vec<char> = Vec::new();
    r.push('#');
    r.push(hex_char(c.red / 16));
    r.push(hex_char(c.red % 16));
    r.push(hex_char(c.green / 16));
    r.push(hex_char(c.green % 16));
    r.push(hex_char(c.blue / 16));
    r.push(hex_char(c.blue % 16));
    proof {
        assert(r@ =~= color_hex_text(*c));
    }
    r
}

/// Numeric value of one hex digit, or `None` if `c` is not a hex digit.
fn hex_digit(c: char) -> (r: Option<u8>)
    ensures
        r matches Some(v) ==> is_hex_digit(c) && v == hex_digit_value(c) && v < 16,
        r is None ==> !is_hex_digit(c),
{
    let u = c as u32;
    if 48 <= u && u <= 57 {
        Some((u - 48) as u8)
    } else if 97 <= u && u <= 102 {
        Some((u - 87) as u8)
    } else if 65 <= u && u <= 70 {
        Some((u - 55) as u8)
    } else {
        None
    }
}

/// Value of the two hex digits `s[i]`, `s[i + 1]`, or `None` if either
/// is not a hex digit.
fn channel(s: &Vec<char>, i: usize) -> (r: Option<u8>)
    requires
        i + 2 <= s@.len(),
    ensures
        r matches Some(v) ==> is_hex_digit(s@[i as int]) && is_hex_digit(s@[i + 1])
            && v == channel_value(s@, i as int),
        r is None ==> !(is_hex_digit(s@[i as int]) && is_hex_digit(s@[i + 1])),
{
    let n = s.len();
    let hi = hex_digit(s[i]);
    let lo = hex_digit(s[i + 1]);
    match (hi, lo) {
        (Some(h), Some(l)) => Some(16 * h + l),
        _ => None,
    }
}

/// Parses a fill color of the form `#RRGGBB` (six hex digits, either case).
/// Any other text is rejected with `MalformedColor`.
pub fn parse_color(s: &Vec<char>) -> (r: Result<RgbColor, LayoutError>)
    ensures
        is_valid_color_text(s@) ==> r == Ok::<RgbColor, LayoutError>(color_of_text(s@)),
        !is_valid_color_text(s@) ==> r == Err::<RgbColor, LayoutError>(LayoutError::MalformedColor),
{
    if s.len() != 7 {
        return Err(LayoutError::MalformedColor);
    }
    if s[0] as u32 != 35 {
        return Err(LayoutError::MalformedColor);
    }
    let red = channel(s, 1);
    let green = channel(s, 3);
    let blue = channel(s, 5);
    match (red, green, blue) {
        (Some(red), Some(green), Some(blue)) => Ok(RgbColor { red, green, blue }),
        _ => Err(LayoutError::MalformedColor),
    }
}

} // verus!

//! Validated configuration values: dimensions, RGB colours and line-colour modes.

use vstd::prelude::*;

use crate::text::{chars_of, string_from_chars};

verus! {

/// Why an authored configuration was rejected.
///
/// Positions count characters (not bytes) from the start of the named field.
#[derive(Debug, Clone, PartialEq, Eq)]
pub enum ConfigError {
    /// A rule key that is not a single ASCII letter.
    InvalidRuleKey { key: String },
    /// A symbol outside the alphabet of the configured dimensions.
    InvalidSymbol { ch: char, field: String, position: usize },
    /// A `]` with no open `[` before it.
    UnmatchedClose { field: String, position: usize },
    /// A `[` that is never closed.
    UnmatchedOpen { field: String, position: usize },
    /// A colour that is not `#rrggbb`.
    InvalidRgb { field: String, value: String },
}

/// Spatial dimensions of an L-system: 2D or 3D.
#[derive(Debug, Clone, Copy, PartialEq, Eq, Hash, Structural)]
pub enum Dimensions {
    TwoD,
    ThreeD,
}

/// A 24-bit RGB colour.
///
/// The textual form is `#rrggbb`: a leading `#` followed by exactly six ASCII
/// hex digits. Shorthand (`#rgb`) and alpha (`#rrggbbaa`) forms are not accepted.
#[derive(Debug, Clone, Copy, PartialEq, Eq, Hash, Structural)]
pub struct Rgb {
    red: u8,
    green: u8,
    blue: u8,
}

/// Error returned when a string cannot be parsed as an `Rgb` value.
#[derive(Debug, Clone, Copy, PartialEq, Eq, Structural)]
pub struct RgbError;

/// `c` is an ASCII hexadecimal digit (either case).
pub open spec fn is_hex_digit(c: char) -> bool {
    ('0' <= c && c <= '9') || ('a' <= c && c <= 'f') || ('A' <= c && c <= 'F')
}

/// The numeric value of a hex digit.
pub open spec fn hex_value(c: char) -> int {
    if '0' <= c && c <= '9' {
        c as int - '0' as int
    } else if 'a' <= c && c <= 'f' {
        c as int - 'a' as int + 10
    } else {
        c as int - 'A' as int + 10
    }
}

/// The lowercase hex digit for `v` in `0..16`.
pub open spec fn hex_digit(v: int) -> char {
    if v < 10 {
        ('0' as int + v) as char
    } else {
        ('a' as int + v - 10) as char
    }
}

/// `s` is exactly `#` followed by six ASCII hex digits.
pub open spec fn is_hex_color(s: Seq<char>) -> bool {
    &&& s.len() == 7
    &&& s[0] == '#'
    &&& forall|i: int| 1 <= i < 7 ==> is_hex_digit(#[trigger] s[i])
}

/// The byte written by the two hex digits `s[i]`, `s[i + 1]`.
pub open spec fn hex_byte(s: Seq<char>, i: int) -> int {
    16 * hex_value(s[i]) + hex_value(s[i + 1])
}

/// The canonical lowercase `#rrggbb` text of a colour.
pub open spec fn hex_text(c: Rgb) -> Seq<char> {
    seq![
        '#',
        hex_digit(c.spec_r() as int / 16),
        hex_digit(c.spec_r() as int % 16),
        hex_digit(c.spec_g() as int / 16),
        hex_digit(c.spec_g() as int % 16),
        hex_digit(c.spec_b() as int / 16),
        hex_digit(c.spec_b() as int % 16),
    ]
}

fn hex_digit_value(c: char) -> (r: Option<u8>)
    ensures
        r matches Some(v) ==> is_hex_digit(c) && v as int == hex_value(c) && v < 16,
        r is None ==> !is_hex_digit(c),
{
    if '0' <= c && c <= '9' {
        Some(((c as u32) - ('0' as u32)) as u8)
    } else if 'a' <= c && c <= 'f' {
        Some(((c as u32) - ('a' as u32) + 10) as u8)
    } else if 'A' <= c && c <= 'F' {
        Some(((c as u32) - ('A' as u32) + 10) as u8)
    } else {
        None
    }
}

fn lower_hex_digit(v: u8) -> (c: char)
    requires
        v < 16,
    ensures
        c == hex_digit(v as int),
{
    if v < 10 {
        ((48 + v) as char)
    } else {
        ((87 + v) as char)
    }
}

impl Rgb {
    pub closed spec fn spec_r(self) -> u8 {
        self.red
    }

    pub closed spec fn spec_g(self) -> u8 {
        self.green
    }

    pub closed spec fn spec_b(self) -> u8 {
        self.blue
    }

    /// The colour written by the `#rrggbb` text `s`.
    pub closed spec fn from_hex_spec(s: Seq<char>) -> Rgb {
        Rgb { red: hex_byte(s, 1) as u8, green: hex_byte(s, 3) as u8, blue: hex_byte(s, 5) as u8 }
    }

    pub fn new(r: u8, g: u8, b: u8) -> (c: Self)
        ensures
            c.spec_r() == r,
            c.spec_g() == g,
            c.spec_b() == b,
    {
        Rgb { red: r, green: g, blue: b }
    }

    pub fn r(self) -> (v: u8)
        ensures
            v == self.spec_r(),
    {
        self.red
    }

    pub fn g(self) -> (v: u8)
        ensures
            v == self.spec_g(),
    {
        self.green
    }

    pub fn b(self) -> (v: u8)
        ensures
            v == self.spec_b(),
    {
        self.blue
    }

    /// Parses `#rrggbb`; succeeds exactly on a `#` followed by six ASCII hex digits.
    pub fn from_hex(s: &str) -> (res: Result<Rgb, RgbError>)
        ensures
            res is Ok <==> is_hex_color(s@),
            res matches Ok(c) ==> c == Rgb::from_hex_spec(s@),
            res matches Ok(c) ==> c.spec_r() == hex_byte(s@, 1) && c.spec_g() == hex_byte(s@, 3)
                && c.spec_b() == hex_byte(s@, 5),
    {
        let chars = chars_of(s);
        if chars.len() != 7 || chars[0] != '#' {
            return Err(RgbError);
        }
        let mut digits: Vec<u8> = Vec::new();
        let mut i: usize = 1;
        while i < 7
            invariant
                1 <= i <= 7,
                chars@ == s@,
                chars@.len() == 7,
                digits@.len() == i - 1,
                forall|j: int| 1 <= j < i ==> is_hex_digit(#[trigger] chars@[j]),
                forall|j: int|
                    1 <= j < i ==> digits@[j - 1] as int == hex_value(#[trigger] chars@[j])
                        && digits@[j - 1] < 16,
            decreases 7 - i,
        {
            match hex_digit_value(chars[i]) {
                Some(v) => digits.push(v),
                None => {
                    return Err(RgbError);
                },
            }
            i = i + 1;
        }
        assert(is_hex_digit(chars@[1]) && is_hex_digit(chars@[2]) && is_hex_digit(chars@[3]));
        assert(is_hex_digit(chars@[4]) && is_hex_digit(chars@[5]) && is_hex_digit(chars@[6]));
        assert(digits@[0] < 16 && digits@[1] < 16 && digits@[2] < 16);
        assert(digits@[3] < 16 && digits@[4] < 16 && digits@[5] < 16);
        assert(is_hex_color(s@));
        let r = digits[0] * 16 + digits[1];
        let g = digits[2] * 16 + digits[3];
        let b = digits[4] * 16 + digits[5];
        Ok(Rgb { red: r, green: g, blue: b })
    }

    /// Parses an owned string the same way as [`Rgb::from_hex`].
    pub fn from_hex_string(s: String) -> (res: Result<Rgb, RgbError>)
        ensures
            res is Ok <==> is_hex_color(s@),
            res matches Ok(c) ==> c == Rgb::from_hex_spec(s@),
            res matches Ok(c) ==> c.spec_r() == hex_byte(s@, 1) && c.spec_g() == hex_byte(s@, 3)
                && c.spec_b() == hex_byte(s@, 5),
    {
        Rgb::from_hex(s.as_str())
    }

    /// The canonical lowercase `#rrggbb` form.
    pub fn to_hex_string(&self) -> (s: String)
        ensures
            s@ == hex_text(*self),
    {
        let mut v: Vec<char> = Vec::new();
        v.push('#');
        v.push(lower_hex_digit(self.red / 16));
        v.push(lower_hex_digit(self.red % 16));
        v.push(lower_hex_digit(self.green / 16));
        v.push(lower_hex_digit(self.green % 16));
        v.push(lower_hex_digit(self.blue / 16));
        v.push(lower_hex_digit(self.blue % 16));
        let ghost expected = hex_text(*self);
        assert(v@ =~= expected);
        string_from_chars(v)
    }
}

/// Printing a colour and parsing the text back gives the same colour.
pub proof fn lemma_hex_round_trip(c: Rgb)
    ensures
        is_hex_color(hex_text(c)),
        hex_byte(hex_text(c), 1) == c.spec_r(),
        hex_byte(hex_text(c), 3) == c.spec_g(),
        hex_byte(hex_text(c), 5) == c.spec_b(),
        Rgb::from_hex_spec(hex_text(c)) == c,
{
    let t = hex_text(c);
    assert forall|i: int| 1 <= i < 7 implies is_hex_digit(#[trigger] t[i]) by {}
}

/// Colour mode for the fractal lines.
///
/// `Solid` renders every segment with one RGB colour. `Gradient` interpolates
/// from `start` to `end` either by traversal order or, when `topological_depth`
/// is enabled, by turtle stack depth. `HueCycle` cycles hue starting from `initial`.
#[derive(Debug, Clone, Copy, PartialEq, Eq, Structural)]
pub enum LineColorConfig {
    Solid(Rgb),
    Gradient { start: Rgb, end: Rgb, topological_depth: bool },
    HueCycle { initial: Rgb },
}

impl LineColorConfig {
    pub fn needs_topological_depth(&self) -> (b: bool)
        ensures
            b <==> (*self matches LineColorConfig::Gradient { topological_depth: true, .. }),
    {
        match self {
            LineColorConfig::Gradient { topological_depth, .. } => *topological_depth,
            _ => false,
        }
    }
}

/// Visual colour settings for background and fractal lines.
#[derive(Debug, Clone, Copy, PartialEq, Eq, Structural)]
pub struct ColorConfig {
    pub background: Rgb,
    pub line: LineColorConfig,
}

/// The hex digits of a colour text: `0`..=`9` are worth 0 to 9, and `a`..=`f`
/// and `A`..=`F` alike are worth 10 to 15; no other character is a hex
/// digit. So a colour written in upper case reads as the same colour.
pub proof fn lemma_hex_digit_values(c: char)
    ensures
        '0' <= c && c <= '9' ==> is_hex_digit(c) && hex_value(c) == c as int - 48,
        'a' <= c && c <= 'f' ==> is_hex_digit(c) && hex_value(c) == c as int - 87,
        'A' <= c && c <= 'F' ==> is_hex_digit(c) && hex_value(c) == c as int - 55,
        !(('0' <= c && c <= '9') || ('a' <= c && c <= 'f') || ('A' <= c && c <= 'F')) ==> !is_hex_digit(c),
{
    assert('0' as int == 48 && 'a' as int == 97 && 'A' as int == 65);
}

} // verus!

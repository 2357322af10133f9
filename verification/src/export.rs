//! Image exports: file kinds, suggested file names and the typed PNG size.

use vstd::prelude::*;

use crate::names::{decimal, decimal_value};
use crate::text::{trim_spec, trimmed_chars};
use crate::util::{sanitize_filename, sanitized};

verus! {

/// The image formats a fractal can be exported to.
#[derive(Debug, Clone, Copy, PartialEq, Eq, Structural)]
pub enum ExportKind {
    Svg,
    Png,
}

/// The file extension of an export kind.
pub open spec fn kind_extension(kind: ExportKind) -> Seq<char> {
    match kind {
        ExportKind::Svg => "svg"@,
        ExportKind::Png => "png"@,
    }
}

impl ExportKind {
    /// File extension, without the dot.
    pub fn extension(self) -> (s: &'static str)
        ensures
            s@ == kind_extension(self),
    {
        match self {
            ExportKind::Svg => "svg",
            ExportKind::Png => "png",
        }
    }

    /// Short name shown in status messages.
    pub fn label(self) -> (s: &'static str)
        ensures
            s@ == (match self {
                ExportKind::Svg => "SVG"@,
                ExportKind::Png => "PNG"@,
            }),
    {
        match self {
            ExportKind::Svg => "SVG",
            ExportKind::Png => "PNG",
        }
    }

    /// Name of the file-dialog filter.
    pub fn filter_name(self) -> (s: &'static str)
        ensures
            s@ == (match self {
                ExportKind::Svg => "SVG Image"@,
                ExportKind::Png => "PNG Image"@,
            }),
    {
        match self {
            ExportKind::Svg => "SVG Image",
            ExportKind::Png => "PNG Image",
        }
    }
}

/// The file name offered for exporting the configuration `name` as `kind`.
pub fn suggested_filename(name: &str, kind: ExportKind) -> (r: String)
    ensures
        r@ == sanitized(name@) + seq!['.'] + kind_extension(kind),
{
    sanitize_filename(name, kind.extension())
}

/// `c` is an ASCII digit.
pub open spec fn is_digit(c: char) -> bool {
    '0' <= c && c <= '9'
}

/// The digits of `s` after an optional leading `+`.
pub open spec fn unsigned_digits(s: Seq<char>) -> Seq<char> {
    if s.len() > 0 && s[0] == '+' {
        s.drop_first()
    } else {
        s
    }
}

/// What `u32::from_str` gives for `s`: an optional `+`, then one or more
/// ASCII digits whose value fits in a `u32`.
pub open spec fn parsed_u32(s: Seq<char>) -> Option<u32> {
    let d = unsigned_digits(s);
    if d.len() > 0 && (forall|i: int| 0 <= i < d.len() ==> is_digit(#[trigger] d[i]))
        && decimal_value(d) <= u32::MAX {
        Some(decimal_value(d) as u32)
    } else {
        None
    }
}

fn digit_value(c: char) -> (v: Option<u64>)
    ensures
        v matches Some(d) ==> is_digit(c) && d as int == c as int - 48,
        v is None ==> !is_digit(c),
{
    if c == '0' {
        Some(0)
    } else if c == '1' {
        Some(1)
    } else if c == '2' {
        Some(2)
    } else if c == '3' {
        Some(3)
    } else if c == '4' {
        Some(4)
    } else if c == '5' {
        Some(5)
    } else if c == '6' {
        Some(6)
    } else if c == '7' {
        Some(7)
    } else if c == '8' {
        Some(8)
    } else if c == '9' {
        Some(9)
    } else {
        proof {
            assert(!is_digit(c)) by {
                if is_digit(c) {
                    assert('0' as int == 48 && '9' as int == 57);
                }
            }
        }
        None
    }
}

/// A digit string is worth at least each of its prefixes.
proof fn lemma_decimal_value_prefix(d: Seq<char>, k: int)
    requires
        0 <= k <= d.len(),
        forall|i: int| 0 <= i < d.len() ==> is_digit(#[trigger] d[i]),
    ensures
        0 <= decimal_value(d.take(k)) <= decimal_value(d),
    decreases d.len(),
{
    if d.len() > 0 {
        let front = d.drop_last();
        assert forall|i: int| 0 <= i < front.len() implies is_digit(#[trigger] front[i]) by {
            assert(front[i] == d[i]);
        }
        assert(is_digit(d[d.len() - 1]));
        assert('0' as int == 48);
        if k == d.len() {
            assert(d.take(k) =~= d);
            lemma_decimal_value_prefix(front, front.len() as int);
            assert(front.take(front.len() as int) =~= front);
        } else {
            lemma_decimal_value_prefix(front, k);
            assert(front.take(k) =~= d.take(k));
            lemma_decimal_value_prefix(front, front.len() as int);
            assert(front.take(front.len() as int) =~= front);
        }
    } else {
        assert(d.take(k) =~= d);
    }
}

/// Reads `s` as `u32::from_str` does.
pub fn parse_u32(s: &Vec<char>) -> (r: Option<u32>)
    ensures
        r == parsed_u32(s@),
{
    let start: usize = if s.len() > 0 && s[0] == '+' {
        1
    } else {
        0
    };
    let ghost d = unsigned_digits(s@);
    proof {
        assert(d =~= s@.skip(start as int));
    }
    if start == s.len() {
        return None;
    }
    let mut acc: u64 = 0;
    let mut i: usize = start;
    proof {
        assert(d.take(0) =~= Seq::<char>::empty());
    }
    while i < s.len()
        invariant
            start <= i <= s@.len(),
            d == s@.skip(start as int),
            d == unsigned_digits(s@),
            acc as int == decimal_value(d.take(i - start)),
            acc <= u32::MAX,
            forall|j: int| 0 <= j < i - start ==> is_digit(#[trigger] d[j]),
        decreases s@.len() - i,
    {
        let c = s[i];
        let v = match digit_value(c) {
            Some(v) => v,
            None => {
                proof {
                    assert(d[i - start] == c);
                    assert(!is_digit(d[i - start]));
                }
                return None;
            },
        };
        proof {
            let k = (i - start) as int;
            assert(d.take(k + 1).drop_last() =~= d.take(k));
            assert(d.take(k + 1).last() == c);
        }
        acc = acc * 10 + v;
        i = i + 1;
        if acc > 4294967295 {
            proof {
                let k = (i - start) as int;
                assert(acc as int == decimal_value(d.take(k)));
                if forall|j: int| 0 <= j < d.len() ==> is_digit(#[trigger] d[j]) {
                    lemma_decimal_value_prefix(d, k);
                    assert(decimal_value(d) > u32::MAX);
                }
            }
            return None;
        }
    }
    proof {
        assert(d.take(d.len() as int) =~= d);
    }
    Some(acc as u32)
}

/// The PNG width or height typed as `text`: surrounding white space is
/// ignored, the rest must read as a `u32`, and the value is clamped to
/// `min..=max`. `None` when the text is not a number.
pub fn normalized_png_dimension(text: &str, min: u32, max: u32) -> (r: Option<u32>)
    requires
        min <= max,
    ensures
        r == (match parsed_u32(trim_spec(text@)) {
            Some(v) => Some(if v < min {
                min
            } else if v > max {
                max
            } else {
                v
            }),
            None => None,
        }),
{
    let chars = trimmed_chars(text);
    match parse_u32(&chars) {
        Some(v) => Some(if v < min {
            min
        } else if v > max {
            max
        } else {
            v
        }),
        None => None,
    }
}

/// Every character of a decimal representation is a digit.
proof fn lemma_decimal_digits(n: nat)
    ensures
        forall|i: int| 0 <= i < decimal(n).len() ==> is_digit(#[trigger] decimal(n)[i]),
    decreases n,
{
    if n >= 10 {
        lemma_decimal_digits(n / 10);
        let d = decimal(n);
        assert forall|i: int| 0 <= i < d.len() implies is_digit(#[trigger] d[i]) by {
            if i < d.len() - 1 {
                assert(d[i] == decimal(n / 10)[i]);
            }
        }
    }
}

/// Reading a number back: the decimal text of any `u32` value, with or
/// without a leading `+`, reads as that value, as `u32::from_str` reads it;
/// and a text with any character other than `0`..=`9` after the optional
/// `+` reads as nothing.
pub proof fn lemma_parse_decimal(n: nat, s: Seq<char>)
    requires
        n <= u32::MAX,
    ensures
        parsed_u32(decimal(n)) == Some(n as u32),
        parsed_u32(seq!['+'] + decimal(n)) == Some(n as u32),
        (exists|i: int|
            0 <= i < unsigned_digits(s).len() && !('0' <= #[trigger] unsigned_digits(s)[i]
                && unsigned_digits(s)[i] <= '9')) ==> parsed_u32(s) is None,
{
    crate::names::lemma_decimal_value(n);
    lemma_decimal_digits(n);
    let d = decimal(n);
    assert(d.len() > 0);
    assert(d[0] != '+') by {
        assert(is_digit(d[0]));
    }
    assert(unsigned_digits(d) == d);
    assert((seq!['+'] + d).drop_first() =~= d);
    assert(unsigned_digits(seq!['+'] + d) == d);
}

} // verus!

//! Calendar colours: the `#rrggbb` text a vdir `color` file holds.

use vstd::prelude::*;
use crate::text::{chars_of, is_white_space, string_of, sub_chars, trim, trim_bounds, trim_end, trim_start, char_from_ascii};

verus! {

/// A plain RGB triple.
#[derive(Clone, Copy, Debug, PartialEq, Eq, Structural)]
pub struct Rgb(pub u8, pub u8, pub u8);

/// Fallback colour for a collection with no `color` file.
pub fn default_calendar_color() -> (c: Rgb)
    ensures
        c == Rgb(0x2d, 0x7d, 0xd2),
{
    Rgb(0x2d, 0x7d, 0xd2)
}

/// The value of one hexadecimal digit, either case.
pub open spec fn hex_value(c: char) -> Option<u8> {
    if '0' <= c <= '9' {
        Some(((c as u32) - 48) as u8)
    } else if 'a' <= c <= 'f' {
        Some(((c as u32) - 87) as u8)
    } else if 'A' <= c <= 'F' {
        Some(((c as u32) - 55) as u8)
    } else {
        None
    }
}

/// A two-digit channel of the `rrggbb` form.
pub open spec fn pair_value(a: char, b: char) -> Option<u8> {
    match (hex_value(a), hex_value(b)) {
        (Some(x), Some(y)) => Some((16 * x + y) as u8),
        _ => None,
    }
}

/// A single-digit channel of the `#rgb` form, scaled so `f` is 255.
pub open spec fn short_value(c: char) -> Option<u8> {
    match hex_value(c) {
        Some(x) => Some((17 * x) as u8),
        None => None,
    }
}

/// The part of the input that holds digits: trimmed, then without one
/// leading `#`.
pub open spec fn hex_body(s: Seq<char>) -> Seq<char> {
    let t = trim(s);
    if t.len() > 0 && t[0] == '#' {
        t.drop_first()
    } else {
        t
    }
}

/// The colour the text names when, trimmed, it is one optional `#` and then
/// six or three hexadecimal digits (`#rrggbb`, `rrggbb`, `#rgb`); `None` for
/// any other text.
pub open spec fn parse_rgb(s: Seq<char>) -> Option<Rgb> {
    let b = hex_body(s);
    if b.len() == 6 {
        match (pair_value(b[0], b[1]), pair_value(b[2], b[3]), pair_value(b[4], b[5])) {
            (Some(r), Some(g), Some(bl)) => Some(Rgb(r, g, bl)),
            _ => None,
        }
    } else if b.len() == 3 {
        match (short_value(b[0]), short_value(b[1]), short_value(b[2])) {
            (Some(r), Some(g), Some(bl)) => Some(Rgb(r, g, bl)),
            _ => None,
        }
    } else {
        None
    }
}

/// The lowercase hexadecimal digit for a value below 16.
pub open spec fn hex_char(n: u8) -> char {
    if n < 10 {
        ((n as u32) + 48) as char
    } else {
        ((n as u32) + 87) as char
    }
}

/// `#rrggbb` in lowercase.
pub open spec fn rgb_hex(c: Rgb) -> Seq<char> {
    seq![
        '#',
        hex_char(c.0 / 16),
        hex_char(c.0 % 16),
        hex_char(c.1 / 16),
        hex_char(c.1 % 16),
        hex_char(c.2 / 16),
        hex_char(c.2 % 16),
    ]
}

fn hex_digit(c: char) -> (r: Option<u8>)
    ensures
        r == hex_value(c),
{
    if '0' <= c && c <= '9' {
        Some(((c as u32) - 48) as u8)
    } else if 'a' <= c && c <= 'f' {
        Some(((c as u32) - 87) as u8)
    } else if 'A' <= c && c <= 'F' {
        Some(((c as u32) - 55) as u8)
    } else {
        None
    }
}

fn pair_digits(a: char, b: char) -> (r: Option<u8>)
    ensures
        r == pair_value(a, b),
{
    match (hex_digit(a), hex_digit(b)) {
        (Some(x), Some(y)) => Some(16 * x + y),
        _ => None,
    }
}

fn short_digit(c: char) -> (r: Option<u8>)
    ensures
        r == short_value(c),
{
    match hex_digit(c) {
        Some(x) => Some(17 * x),
        None => None,
    }
}

fn digit_char(n: u8) -> (c: char)
    requires
        n < 16,
    ensures
        c == hex_char(n),
{
    if n < 10 {
        char_from_ascii(n + 48)
    } else {
        char_from_ascii(n + 87)
    }
}

impl Rgb {
    /// Parses `#rrggbb`, `rrggbb`, or `#rgb`, around which white space is
    /// ignored; any other text gives `None`.
    pub fn parse(s: &str) -> (r: Option<Rgb>)
        ensures
            r == parse_rgb(s@),
    {
        let v = chars_of(s);
        let (lo, hi) = trim_bounds(v.as_slice());
        let start = if lo < hi && v[lo] == '#' {
            lo + 1
        } else {
            lo
        };
        let b = sub_chars(v.as_slice(), start, hi);
        proof {
            let t = v@.subrange(lo as int, hi as int);
            if lo < hi && v@[lo as int] == '#' {
                assert(b@ =~= t.drop_first());
            } else {
                assert(b@ =~= t);
            }
        }
        assert(b@ == hex_body(s@));
        if b.len() == 6 {
            match (pair_digits(b[0], b[1]), pair_digits(b[2], b[3]), pair_digits(b[4], b[5])) {
                (Some(r), Some(g), Some(bl)) => Some(Rgb(r, g, bl)),
                _ => None,
            }
        } else if b.len() == 3 {
            match (short_digit(b[0]), short_digit(b[1]), short_digit(b[2])) {
                (Some(r), Some(g), Some(bl)) => Some(Rgb(r, g, bl)),
                _ => None,
            }
        } else {
            None
        }
    }

    /// `#rrggbb`, lowercase.
    pub fn to_hex(self) -> (s: String)
        ensures
            s@ == rgb_hex(self),
    {
        let v: Vec<char> = vec![
            '#',
            digit_char(self.0 / 16),
            digit_char(self.0 % 16),
            digit_char(self.1 / 16),
            digit_char(self.1 % 16),
            digit_char(self.2 / 16),
            digit_char(self.2 % 16),
        ];
        let s = string_of(v.as_slice());
        assert(s@ =~= rgb_hex(self));
        s
    }
}

proof fn lemma_hex_char_value(n: u8)
    requires
        n < 16,
    ensures
        hex_value(hex_char(n)) == Some(n),
        (hex_char(n) as u32) < 128,
        hex_char(n) != '#',
        hex_char(n) != '+',
        !is_white_space(hex_char(n)),
{
}

/// Reading back what `to_hex` wrote gives the same colour.
pub proof fn lemma_hex_roundtrip(c: Rgb)
    ensures
        parse_rgb(rgb_hex(c)) == Some(c),
{
    let s = rgb_hex(c);
    lemma_hex_char_value(c.0 / 16);
    lemma_hex_char_value(c.0 % 16);
    lemma_hex_char_value(c.1 / 16);
    lemma_hex_char_value(c.1 % 16);
    lemma_hex_char_value(c.2 / 16);
    lemma_hex_char_value(c.2 % 16);
    assert(s.drop_first().last() == hex_char(c.2 % 16));
    assert(trim_end(s) == s);
    assert(trim_start(s) == s);
    let d = s.drop_first();
    assert(hex_body(s) == d);
    assert(d.len() == 6);
}

} // verus!

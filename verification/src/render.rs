//! Rendering one palette entry: the `#rrggbb` hex form and, in
//! true-color mode, a terminal swatch behind it.

use vstd::prelude::*;
use vstd::string::StringExecFns;

use crate::pixel::{px_from_triple, px_of, Px};

verus! {

/// The character for one hex digit (also used for the decimal digits
/// of the escape sequence, which stay below ten).
pub open spec fn hex_char(d: int) -> char {
    if d == 0 {
        '0'
    } else if d == 1 {
        '1'
    } else if d == 2 {
        '2'
    } else if d == 3 {
        '3'
    } else if d == 4 {
        '4'
    } else if d == 5 {
        '5'
    } else if d == 6 {
        '6'
    } else if d == 7 {
        '7'
    } else if d == 8 {
        '8'
    } else if d == 9 {
        '9'
    } else if d == 10 {
        'a'
    } else if d == 11 {
        'b'
    } else if d == 12 {
        'c'
    } else if d == 13 {
        'd'
    } else if d == 14 {
        'e'
    } else {
        'f'
    }
}

/// A channel value as two lower-case hex digits.
pub open spec fn hex_byte(v: int) -> Seq<char> {
    seq![hex_char(v / 16), hex_char(v % 16)]
}

/// The `#rrggbb` rendering of one color.
pub open spec fn hex_color(p: Px) -> Seq<char> {
    seq!['#'] + hex_byte(p.r as int) + hex_byte(p.g as int) + hex_byte(p.b as int)
}

/// A channel value in decimal, without leading zeros.
pub open spec fn dec_u8(n: int) -> Seq<char> {
    if n < 10 {
        seq![hex_char(n)]
    } else if n < 100 {
        seq![hex_char(n / 10), hex_char(n % 10)]
    } else {
        seq![hex_char(n / 100), hex_char((n / 10) % 10), hex_char(n % 10)]
    }
}

/// The whole rendering of one palette entry: the hex form, followed
/// in true-color mode by a seven-cell background swatch drawn with a
/// truecolor escape sequence.
pub open spec fn rgb_string_spec(p: Px, true_color: bool) -> Seq<char> {
    if true_color {
        hex_color(p) + seq![' ', '\x1b', '[', '4', '8', ';', '2', ';'] + dec_u8(p.r as int)
            + seq![';'] + dec_u8(p.g as int) + seq![';'] + dec_u8(p.b as int) + seq![
            'm',
            ' ',
            ' ',
            ' ',
            ' ',
            ' ',
            ' ',
            ' ',
            '\x1b',
            '[',
            '0',
            'm',
        ]
    } else {
        hex_color(p)
    }
}

fn hex_digit_str(d: u8) -> (s: &'static str)
    requires
        d < 16,
    ensures
        s@ =~= seq![hex_char(d as int)],
{
    proof {
        reveal_strlit("0");
        reveal_strlit("1");
        reveal_strlit("2");
        reveal_strlit("3");
        reveal_strlit("4");
        reveal_strlit("5");
        reveal_strlit("6");
        reveal_strlit("7");
        reveal_strlit("8");
        reveal_strlit("9");
        reveal_strlit("a");
        reveal_strlit("b");
        reveal_strlit("c");
        reveal_strlit("d");
        reveal_strlit("e");
        reveal_strlit("f");
    }
    if d == 0 {
        "0"
    } else if d == 1 {
        "1"
    } else if d == 2 {
        "2"
    } else if d == 3 {
        "3"
    } else if d == 4 {
        "4"
    } else if d == 5 {
        "5"
    } else if d == 6 {
        "6"
    } else if d == 7 {
        "7"
    } else if d == 8 {
        "8"
    } else if d == 9 {
        "9"
    } else if d == 10 {
        "a"
    } else if d == 11 {
        "b"
    } else if d == 12 {
        "c"
    } else if d == 13 {
        "d"
    } else if d == 14 {
        "e"
    } else {
        "f"
    }
}

fn append_hex_byte(s: &mut String, v: u8)
    ensures
        final(s)@ == old(s)@ + hex_byte(v as int),
{
    s.append(hex_digit_str(v / 16));
    s.append(hex_digit_str(v % 16));
    proof {
        assert(final(s)@ =~= old(s)@ + hex_byte(v as int));
    }
}

fn append_dec(s: &mut String, v: u8)
    ensures
        final(s)@ == old(s)@ + dec_u8(v as int),
{
    if v >= 100 {
        s.append(hex_digit_str(v / 100));
        s.append(hex_digit_str((v / 10) % 10));
        s.append(hex_digit_str(v % 10));
    } else if v >= 10 {
        s.append(hex_digit_str(v / 10));
        s.append(hex_digit_str(v % 10));
    } else {
        s.append(hex_digit_str(v));
    }
    proof {
        assert(final(s)@ =~= old(s)@ + dec_u8(v as int));
    }
}

/// Renders one palette entry as `#rrggbb`, with a truecolor terminal
/// swatch appended when asked for.
pub fn rgb_string(p: &[u8; 3], true_color: bool) -> (s: String)
    ensures
        s@ == rgb_string_spec(px_of(*p), true_color),
{
    let px: Px = px_from_triple(p);
    let mut s = String::new();
    proof {
        reveal_strlit("#");
        reveal_strlit(" \x1b[48;2;");
        reveal_strlit(";");
        reveal_strlit("m       \x1b[0m");
    }
    s.append("#");
    append_hex_byte(&mut s, px.r);
    append_hex_byte(&mut s, px.g);
    append_hex_byte(&mut s, px.b);
    if true_color {
        s.append(" \x1b[48;2;");
        append_dec(&mut s, px.r);
        s.append(";");
        append_dec(&mut s, px.g);
        s.append(";");
        append_dec(&mut s, px.b);
        s.append("m       \x1b[0m");
    }
    proof {
        assert(s@ =~= rgb_string_spec(px, true_color));
    }
    s
}

} // verus!

//! Colors written as `#rrggbb`.

use vstd::prelude::*;
use vstd::utf8::encode_utf8;

verus! {

/// The value of the hexadecimal digit `b` (either case), if it is one.
pub open spec fn hex_digit(b: u8) -> Option<u8> {
    if 48 <= b <= 57 {
        Some((b - 48) as u8)
    } else if 97 <= b <= 102 {
        Some((b - 87) as u8)
    } else if 65 <= b <= 70 {
        Some((b - 55) as u8)
    } else {
        None
    }
}

/// What `u8::from_str_radix(s, 16)` gives for the two bytes `s = [a, b]`: a
/// leading `+` is allowed before a single digit.
pub open spec fn hex_pair(a: u8, b: u8) -> Option<u8> {
    if a == 43 {
        hex_digit(b)
    } else {
        match (hex_digit(a), hex_digit(b)) {
            (Some(x), Some(y)) => Some((16 * x + y) as u8),
            _ => None,
        }
    }
}

/// The number of leading `#` of `s`.
pub open spec fn leading_hashes(s: Seq<u8>) -> int
    decreases s.len(),
{
    if s.len() > 0 && s[0] == 35 {
        1 + leading_hashes(s.drop_first())
    } else {
        0
    }
}

/// The bytes of `hex` after its leading `#`s.
pub open spec fn color_digits(hex: Seq<char>) -> Seq<u8> {
    encode_utf8(hex).skip(leading_hashes(encode_utf8(hex)))
}

/// Position `k` of `s` starts a character (or is the end).
pub open spec fn starts_char(s: Seq<u8>, k: int) -> bool {
    k == s.len() || !(0x80 <= s[k] < 0xc0)
}

/// `hex` can be cut into its three two-byte channels: after the leading
/// `#`s it has at least six bytes, and bytes 2, 4 and 6 start characters.
pub open spec fn hex_color_cuttable(hex: Seq<char>) -> bool {
    let d = color_digits(hex);
    &&& d.len() >= 6
    &&& starts_char(d, 2)
    &&& starts_char(d, 4)
    &&& starts_char(d, 6)
}

/// The channels of `hex`, each from its two bytes, or its default if those
/// are not a number in base 16; alpha is always 255.
pub open spec fn hex_color_value(hex: Seq<char>, defaults: (u8, u8, u8)) -> Seq<u8> {
    let d = color_digits(hex);
    seq![
        match hex_pair(d[0], d[1]) {
            Some(v) => v,
            None => defaults.0,
        },
        match hex_pair(d[2], d[3]) {
            Some(v) => v,
            None => defaults.1,
        },
        match hex_pair(d[4], d[5]) {
            Some(v) => v,
            None => defaults.2,
        },
        255u8,
    ]
}

fn hex_digit_exec(b: u8) -> (r: Option<u8>)
    ensures
        r == hex_digit(b),
{
    if 48 <= b && b <= 57 {
        Some(b - 48)
    } else if 97 <= b && b <= 102 {
        Some(b - 87)
    } else if 65 <= b && b <= 70 {
        Some(b - 55)
    } else {
        None
    }
}

fn hex_pair_exec(a: u8, b: u8, default: u8) -> (r: u8)
    ensures
        r == match hex_pair(a, b) {
            Some(v) => v,
            None => default,
        },
{
    if a == 43 {
        match hex_digit_exec(b) {
            Some(v) => v,
            None => default,
        }
    } else {
        match (hex_digit_exec(a), hex_digit_exec(b)) {
            (Some(x), Some(y)) => 16 * x + y,
            _ => default,
        }
    }
}

fn hex_channels(hex: &str, defaults: (u8, u8, u8)) -> (r: [u8; 4])
    requires
        hex_color_cuttable(hex@),
    ensures
        r@ == hex_color_value(hex@, defaults),
{
    let bytes = hex.as_bytes();
    let mut start: usize = 0;
    assert(bytes@.skip(0) =~= bytes@);
    while start < bytes.len() && bytes[start] == 35
        invariant
            bytes@ == encode_utf8(hex@),
            start <= bytes@.len(),
            start + leading_hashes(bytes@.skip(start as int)) == leading_hashes(bytes@),
        decreases bytes@.len() - start,
    {
        assert(bytes@.skip(start as int).drop_first() =~= bytes@.skip(start + 1));
        start = start + 1;
    }
    let ghost d = bytes@.skip(start as int);
    assert(d == color_digits(hex@));
    let r = hex_pair_exec(bytes[start], bytes[start + 1], defaults.0);
    let g = hex_pair_exec(bytes[start + 2], bytes[start + 3], defaults.1);
    let b = hex_pair_exec(bytes[start + 4], bytes[start + 5], defaults.2);
    assert(d[0] == bytes@[start as int] && d[1] == bytes@[start + 1]);
    assert(d[2] == bytes@[start + 2] && d[3] == bytes@[start + 3]);
    assert(d[4] == bytes@[start + 4] && d[5] == bytes@[start + 5]);
    let out = [r, g, b, 255u8];
    assert(out@ =~= hex_color_value(hex@, defaults));
    out
}

/// The color of a palette entry like `#2a9d8f`; a channel that is not a
/// number in base 16 is 0.
pub fn parse_hex_color(hex: &str) -> (r: [u8; 4])
    requires
        hex_color_cuttable(hex@),
    ensures
        r@ == hex_color_value(hex@, (0u8, 0u8, 0u8)),
{
    hex_channels(hex, (0, 0, 0))
}

/// The background color given like `#FAF9F6`; a channel that is not a
/// number in base 16 takes the value of the default background `#FAF9F6`.
pub fn parse_background_color(hex: &str) -> (r: [u8; 4])
    requires
        hex_color_cuttable(hex@),
    ensures
        r@ == hex_color_value(hex@, (250u8, 249u8, 246u8)),
{
    hex_channels(hex, (250, 249, 246))
}

} // verus!

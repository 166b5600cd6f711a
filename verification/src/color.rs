use vstd::prelude::*;
use crate::single::{
    fix_one, fl_add, fl_sub, fl_mul, fl_div, fl_int, fl_to_u8, fl_add_exec, fl_sub_exec, fl_mul_exec,
    fl_div_exec, fl_to_u8_exec, round_sig, lemma_round_sig_bounds,
};

use vstd::arithmetic::div_mod::lemma_fundamental_div_mod_converse;

verus! {

/// An RGBA colour with 8 bits per channel (straight, not premultiplied, alpha).
#[derive(Debug, Clone, Copy, PartialEq, Eq, Structural)]
pub struct Color {
    pub r: u8,
    pub g: u8,
    pub b: u8,
    pub a: u8,
}

// ---------------------------------------------------------------------------
// Packing
// ---------------------------------------------------------------------------

/// The colour stored in a packed `0xRRGGBBAA` word.
pub open spec fn unpacked(v: u32) -> Color {
    Color {
        r: (v / 0x100_0000) as u8,
        g: (v / 0x1_0000 % 0x100) as u8,
        b: (v / 0x100 % 0x100) as u8,
        a: (v % 0x100) as u8,
    }
}

/// The `0xRRGGBBAA` word of a colour.
pub open spec fn packed(c: Color) -> u32 {
    (c.r as int * 0x100_0000 + c.g as int * 0x1_0000 + c.b as int * 0x100 + c.a as int) as u32
}

/// Unpacking a packed colour gives the colour back.
pub proof fn lemma_unpack_pack(c: Color)
    ensures
        unpacked(packed(c)) == c,
{
    let (r, g, b, a) = (c.r as int, c.g as int, c.b as int, c.a as int);
    let v = r * 0x100_0000 + g * 0x1_0000 + b * 0x100 + a;
    assert(packed(c) as int == v);
    lemma_fundamental_div_mod_converse(v, 0x100_0000, r, g * 0x1_0000 + b * 0x100 + a);
    lemma_fundamental_div_mod_converse(v, 0x1_0000, r * 0x100 + g, b * 0x100 + a);
    lemma_fundamental_div_mod_converse(r * 0x100 + g, 0x100, r, g);
    lemma_fundamental_div_mod_converse(v, 0x100, r * 0x1_0000 + g * 0x100 + b, a);
    lemma_fundamental_div_mod_converse(r * 0x1_0000 + g * 0x100 + b, 0x100, r * 0x100 + g, b);
}

/// Packing an unpacked word gives the word back: the packing is a bijection.
pub proof fn lemma_pack_unpack(v: u32)
    ensures
        packed(unpacked(v)) == v,
{
}

// ---------------------------------------------------------------------------
// Hexadecimal notation
// ---------------------------------------------------------------------------

/// The value of a hexadecimal digit (either case), or `None` for any other character.
pub open spec fn hex_digit_value(c: char) -> Option<u8> {
    let n = c as u32;
    if 0x30 <= n <= 0x39 {
        Some((n - 0x30) as u8)
    } else if 0x61 <= n <= 0x66 {
        Some((n - 0x61 + 10) as u8)
    } else if 0x41 <= n <= 0x46 {
        Some((n - 0x41 + 10) as u8)
    } else {
        None
    }
}

/// The text with one leading `#` removed, if it has one.
pub open spec fn after_hash(s: Seq<char>) -> Seq<char> {
    if s.len() > 0 && s[0] == '#' {
        s.drop_first()
    } else {
        s
    }
}

/// The digit at position `i` of a hex number; a leading `+` sign reads as a zero digit,
/// since the number parser accepts a `+` before the digits.
pub open spec fn digit_at(t: Seq<char>, i: int) -> Option<u8> {
    if i == 0 && t[0] == '+' {
        Some(0u8)
    } else {
        hex_digit_value(t[i])
    }
}

/// Every position of `t` holds a digit.
pub open spec fn all_digits(t: Seq<char>) -> bool {
    forall|i: int| 0 <= i < t.len() ==> (#[trigger] digit_at(t, i)) is Some
}

/// The byte written by the two digits at positions `i` and `i + 1`.
pub open spec fn byte_at(t: Seq<char>, i: int) -> u8 {
    (digit_at(t, i).unwrap() * 16 + digit_at(t, i + 1).unwrap()) as u8
}

/// The colour that `#RRGGBB` or `#RRGGBBAA` text (the `#` optional) denotes.
pub open spec fn hex_color(s: Seq<char>) -> Option<Color> {
    let t = after_hash(s);
    if (t.len() == 6 || t.len() == 8) && all_digits(t) {
        if t.len() == 6 {
            Some(Color { r: byte_at(t, 0), g: byte_at(t, 2), b: byte_at(t, 4), a: 255 })
        } else {
            Some(Color { r: byte_at(t, 0), g: byte_at(t, 2), b: byte_at(t, 4), a: byte_at(t, 6) })
        }
    } else {
        None
    }
}

/// The lower-case hex digit of a value below 16.
pub open spec fn hex_char(n: int) -> char {
    if n < 10 {
        (n + 0x30) as char
    } else {
        (n - 10 + 0x61) as char
    }
}

/// Two lower-case hex digits for a byte.
pub open spec fn byte_hex(b: u8) -> Seq<char> {
    seq![hex_char(b as int / 16), hex_char(b as int % 16)]
}

/// `#rrggbb` for an opaque colour, `#rrggbbaa` for any other.
pub open spec fn hex_string(c: Color) -> Seq<char> {
    seq!['#'] + byte_hex(c.r) + byte_hex(c.g) + byte_hex(c.b) + if c.a == 255 {
        Seq::<char>::empty()
    } else {
        byte_hex(c.a)
    }
}

proof fn lemma_hex_char_value(n: int)
    requires
        0 <= n < 16,
    ensures
        hex_digit_value(hex_char(n)) == Some(n as u8),
        hex_char(n) != '+',
{
}

/// Reading back the hex text of a colour gives the colour.
pub proof fn lemma_hex_roundtrip(c: Color)
    ensures
        hex_color(hex_string(c)) == Some(c),
{
    let s = hex_string(c);
    let t = after_hash(s);
    assert(t =~= byte_hex(c.r) + byte_hex(c.g) + byte_hex(c.b) + if c.a == 255 {
        Seq::<char>::empty()
    } else {
        byte_hex(c.a)
    });
    lemma_hex_char_value(c.r as int / 16);
    lemma_hex_char_value(c.r as int % 16);
    lemma_hex_char_value(c.g as int / 16);
    lemma_hex_char_value(c.g as int % 16);
    lemma_hex_char_value(c.b as int / 16);
    lemma_hex_char_value(c.b as int % 16);
    lemma_hex_char_value(c.a as int / 16);
    lemma_hex_char_value(c.a as int % 16);
    assert(t[0] != '+');
    assert forall|i: int| 0 <= i < t.len() implies (#[trigger] digit_at(t, i)) is Some by {
        if i == 0 {
        }
    }
    assert(byte_at(t, 0) == c.r);
    assert(byte_at(t, 2) == c.g);
    assert(byte_at(t, 4) == c.b);
    if c.a != 255 {
        assert(byte_at(t, 6) == c.a);
    }
}

/// The value of a hex digit character, or 16 for any other character.
pub open spec fn digit_value_or_16(ch: char) -> int {
    match hex_digit_value(ch) {
        Some(v) => v as int,
        None => 16,
    }
}

/// A lower-case hexadecimal digit.
pub open spec fn is_lower_hex_digit(ch: char) -> bool {
    ('0' <= ch <= '9') || ('a' <= ch <= 'f')
}

/// The hex text of a colour is `#` and then two lower-case hex digits per channel, most
/// significant digit first, in the order red, green, blue and, unless the colour is opaque,
/// alpha.
pub proof fn law_hex_string_form(c: Color)
    ensures
        hex_string(c).len() == if c.a == 255 {
            7int
        } else {
            9int
        },
        hex_string(c)[0] == '#',
        forall|i: int| 1 <= i < hex_string(c).len() ==> is_lower_hex_digit(#[trigger] hex_string(c)[i]),
        digit_value_or_16(hex_string(c)[1]) * 16 + digit_value_or_16(hex_string(c)[2]) == c.r,
        digit_value_or_16(hex_string(c)[3]) * 16 + digit_value_or_16(hex_string(c)[4]) == c.g,
        digit_value_or_16(hex_string(c)[5]) * 16 + digit_value_or_16(hex_string(c)[6]) == c.b,
        c.a != 255 ==> digit_value_or_16(hex_string(c)[7]) * 16 + digit_value_or_16(
            hex_string(c)[8],
        ) == c.a,
{
    let s = hex_string(c);
    lemma_hex_char_value(c.r as int / 16);
    lemma_hex_char_value(c.r as int % 16);
    lemma_hex_char_value(c.g as int / 16);
    lemma_hex_char_value(c.g as int % 16);
    lemma_hex_char_value(c.b as int / 16);
    lemma_hex_char_value(c.b as int % 16);
    lemma_hex_char_value(c.a as int / 16);
    lemma_hex_char_value(c.a as int % 16);
    assert forall|i: int| 1 <= i < s.len() implies is_lower_hex_digit(#[trigger] s[i]) by {
        let n = if i == 1 {
            c.r as int / 16
        } else if i == 2 {
            c.r as int % 16
        } else if i == 3 {
            c.g as int / 16
        } else if i == 4 {
            c.g as int % 16
        } else if i == 5 {
            c.b as int / 16
        } else if i == 6 {
            c.b as int % 16
        } else if i == 7 {
            c.a as int / 16
        } else {
            c.a as int % 16
        };
        assert(s[i] == hex_char(n));
    }
}

/// ASCII upper-case letters in lower case; every other character as it is.
pub open spec fn ascii_lower(ch: char) -> char {
    if 'A' <= ch <= 'Z' {
        ((ch as u32) + 32) as char
    } else {
        ch
    }
}

/// Reading hex text does not depend on the case of its letters.
pub proof fn law_hex_ignores_case(s: Seq<char>)
    ensures
        hex_color(s) == hex_color(s.map_values(|ch: char| ascii_lower(ch))),
{
    let l = s.map_values(|ch: char| ascii_lower(ch));
    let t = after_hash(s);
    let tl = after_hash(l);
    assert(tl =~= t.map_values(|ch: char| ascii_lower(ch)));
    assert forall|i: int| 0 <= i < t.len() implies #[trigger] digit_at(t, i) == digit_at(tl, i) by {
        assert(tl[i] == ascii_lower(t[i]));
    }
    if t.len() == 6 || t.len() == 8 {
        assert(all_digits(t) == all_digits(tl));
    }
}

// ---------------------------------------------------------------------------
// Premultiplication and blending
// ---------------------------------------------------------------------------

/// `x * a / 255` rounded to the nearest integer (the exact quotient is never a half).
pub open spec fn scale255(x: u8, a: u8) -> u8 {
    ((2 * x * a + 255) / 510) as u8
}

/// Premultiplying rounds `x * a / 255` to the nearest integer: 255 times the result is within
/// less than half of 255 of `x * a`.
pub proof fn law_premultiply_nearest(x: u8, a: u8)
    ensures
        -255 < 2 * (255 * scale255(x, a) - x * a) < 255,
{
    let t = x * a;
    assert(0 <= t <= 255 * 255 && 2 * x * a == 2 * t) by (nonlinear_arith)
        requires
            0 <= x <= 255,
            0 <= a <= 255,
            t == x * a,
    ;
    let p = 2 * t + 255;
    vstd::arithmetic::div_mod::lemma_fundamental_div_mod(p, 510);
    let n = p / 510;
    let rm = p % 510;
    assert(0 <= rm < 510);
    assert(p == 510 * n + rm);
    assert(0 <= n <= 255);
    assert(scale255(x, a) == n);
}

/// The weights of `src` composited over `dst`, computed in single precision: the source
/// alpha `sa`, the destination alpha `da`, `1 - sa`, and the resulting alpha
/// `sa + da * (1 - sa)` (alphas as fractions of 255).
pub open spec fn blend_weights(dst_a: u8, src_a: u8) -> (int, int, int, int) {
    let sa = fl_div(fl_int(src_a as int), fl_int(255));
    let da = fl_div(fl_int(dst_a as int), fl_int(255));
    let oms = fl_sub(fix_one(), sa);
    let out_a = fl_add(sa, fl_mul(da, oms));
    (sa, da, oms, out_a)
}

/// One colour channel of a blend: `(s * sa + d * da * (1 - sa)) / out_a` in single
/// precision, rounded to the nearest integer.
pub open spec fn blend_channel(d: u8, s: u8, sa: int, da: int, oms: int, out_a: int) -> u8 {
    fl_to_u8(
        fl_div(fl_add(fl_mul(fl_int(s as int), sa), fl_mul(fl_mul(fl_int(d as int), da), oms)), out_a),
    )
}

/// `src` composited over `dst` ("source over", straight alpha) in single precision; fully
/// transparent when the resulting alpha is zero.
pub open spec fn blended(dst: Color, src: Color) -> Color {
    let (sa, da, oms, out_a) = blend_weights(dst.a, src.a);
    if out_a == 0 {
        Color { r: 0, g: 0, b: 0, a: 0 }
    } else {
        Color {
            r: blend_channel(dst.r, src.r, sa, da, oms, out_a),
            g: blend_channel(dst.g, src.g, sa, da, oms, out_a),
            b: blend_channel(dst.b, src.b, sa, da, oms, out_a),
            a: fl_to_u8(fl_mul(out_a, fl_int(255))),
        }
    }
}

/// Blending any colour over an opaque one gives an opaque colour.
pub proof fn law_blend_over_opaque_is_opaque(dst: Color, src: Color)
    requires
        dst.a == 255,
    ensures
        blended(dst, src).a == 255,
{
    let (sa, da, oms, out_a) = blend_weights(dst.a, src.a);
    let s = src.a as int;
    assert(fix_one() == 0x8000_0000_0000);
    // Source alpha as a fraction: within a hair of s / 255, so at most 1 and a bit.
    let ps: int = s * 0x8000_0000_0000 * 0x8000_0000_0000;
    lemma_round_sig_bounds(ps, 255int * 0x8000_0000_0000);
    assert(sa == round_sig(ps, 255int * 0x8000_0000_0000));
    assert(0 <= sa <= 0x8000_0000_0000 + 0x200_0000) by (nonlinear_arith)
        requires
            ps == s * 0x8000_0000_0000 * 0x8000_0000_0000,
            0 <= s <= 255,
            sa >= 0,
            0x80_0000 * (sa * (255 * 0x8000_0000_0000)) <= 0x80_0000 * (ps + 255
                * 0x8000_0000_0000) + ps,
    ;
    // Destination alpha: within a hair of 1.
    let pd: int = 255int * 0x8000_0000_0000 * 0x8000_0000_0000;
    lemma_round_sig_bounds(pd, 255int * 0x8000_0000_0000);
    assert(da == round_sig(pd, 255int * 0x8000_0000_0000));
    assert(0x8000_0000_0000 - 0x200_0000 <= da <= 0x8000_0000_0000 + 0x200_0000) by (
    nonlinear_arith)
        requires
            pd == 255 * 0x8000_0000_0000 * 0x8000_0000_0000,
            0x80_0000 * (da * (255 * 0x8000_0000_0000)) <= 0x80_0000 * (pd + 255
                * 0x8000_0000_0000) + pd,
            0x80_0000 * (da * (255 * 0x8000_0000_0000)) >= 0x80_0000 * (pd - 255
                * 0x8000_0000_0000) - pd,
    ;
    // One minus the source alpha.
    if 0x8000_0000_0000 >= sa {
        lemma_round_sig_bounds(0x8000_0000_0000 - sa, 1int);
    }
    assert(0 <= oms <= 0x8000_0000_0000 + 0x200_0000);
    assert(oms >= 0x8000_0000_0000 - sa - 0x200_0000);
    // Destination alpha times one minus source alpha.
    let pr = da * oms;
    let y: int = 0x8000_0000_0000 - sa - 0x200_0000;
    assert(0 <= pr <= 0x8000_0000_0000_0000_0000_0000) by (nonlinear_arith)
        requires
            pr == da * oms,
            0 <= da <= 0x8000_0000_0000 + 0x200_0000,
            0 <= oms <= 0x8000_0000_0000 + 0x200_0000,
    ;
    if y > 0 {
        assert(pr >= (0x8000_0000_0000 - 0x200_0000) * y) by (nonlinear_arith)
            requires
                pr == da * oms,
                da >= 0x8000_0000_0000 - 0x200_0000,
                oms >= y,
                y > 0,
        ;
    }
    let t1 = fl_mul(da, oms);
    lemma_round_sig_bounds(pr, 0x8000_0000_0000int);
    assert(t1 == round_sig(pr, 0x8000_0000_0000int));
    assert(0 <= t1 <= 3 * 0x8000_0000_0000) by (nonlinear_arith)
        requires
            t1 >= 0,
            0 <= pr <= 0x8000_0000_0000_0000_0000_0000,
            0x80_0000 * (t1 * 0x8000_0000_0000) <= 0x80_0000 * (pr + 0x8000_0000_0000) + pr,
    ;
    assert(t1 >= y - 0x400_0000 - 1) by (nonlinear_arith)
        requires
            y > 0 ==> pr >= (0x8000_0000_0000 - 0x200_0000) * y,
            y <= 0x8000_0000_0000,
            t1 >= 0,
            0 <= pr <= 0x8000_0000_0000_0000_0000_0000,
            0x80_0000 * (t1 * 0x8000_0000_0000) >= 0x80_0000 * (pr - 0x8000_0000_0000) - pr,
    ;
    // Their sum, the resulting alpha as a fraction.
    let sum = sa + t1;
    lemma_round_sig_bounds(sum, 1int);
    assert(out_a == round_sig(sum, 1int));
    assert(0x8000_0000_0000 - 0x1000_0000 <= out_a <= 6 * 0x8000_0000_0000);
    // Scaled to 0..255.
    let g = fl_mul(out_a, fl_int(255));
    let pg: int = out_a * (255 * 0x8000_0000_0000);
    lemma_round_sig_bounds(pg, 0x8000_0000_0000int);
    assert(g == round_sig(pg, 0x8000_0000_0000int));
    assert(g >= 255 * 0x8000_0000_0000 - 0x20_0000_0000) by (nonlinear_arith)
        requires
            pg == out_a * (255 * 0x8000_0000_0000),
            0x8000_0000_0000 - 0x1000_0000 <= out_a <= 6 * 0x8000_0000_0000,
            0x80_0000 * (g * 0x8000_0000_0000) >= 0x80_0000 * (pg - 0x8000_0000_0000) - pg,
    ;
    assert((g + 0x4000_0000_0000) / 0x8000_0000_0000 >= 255);
}

impl Color {
    /// An opaque colour.
    pub fn rgb(r: u8, g: u8, b: u8) -> (c: Color)
        ensures
            c == (Color { r, g, b, a: 255 }),
    {
        Color { r, g, b, a: 255 }
    }

    /// A colour with the given alpha.
    pub fn rgba(r: u8, g: u8, b: u8, a: u8) -> (c: Color)
        ensures
            c == (Color { r, g, b, a }),
    {
        Color { r, g, b, a }
    }

    /// Opaque white.
    pub fn white() -> (c: Color)
        ensures
            c == (Color { r: 255, g: 255, b: 255, a: 255 }),
    {
        Color { r: 255, g: 255, b: 255, a: 255 }
    }

    /// Opaque black.
    pub fn black() -> (c: Color)
        ensures
            c == (Color { r: 0, g: 0, b: 0, a: 255 }),
    {
        Color { r: 0, g: 0, b: 0, a: 255 }
    }

    /// Opaque red.
    pub fn red() -> (c: Color)
        ensures
            c == (Color { r: 255, g: 0, b: 0, a: 255 }),
    {
        Color { r: 255, g: 0, b: 0, a: 255 }
    }

    /// Opaque green.
    pub fn green() -> (c: Color)
        ensures
            c == (Color { r: 0, g: 255, b: 0, a: 255 }),
    {
        Color { r: 0, g: 255, b: 0, a: 255 }
    }

    /// Opaque blue.
    pub fn blue() -> (c: Color)
        ensures
            c == (Color { r: 0, g: 0, b: 255, a: 255 }),
    {
        Color { r: 0, g: 0, b: 255, a: 255 }
    }

    /// Fully transparent black.
    pub fn transparent() -> (c: Color)
        ensures
            c == (Color { r: 0, g: 0, b: 0, a: 0 }),
    {
        Color { r: 0, g: 0, b: 0, a: 0 }
    }

    /// Parses `#RRGGBB` or `#RRGGBBAA` (the `#` is optional, digits in either case);
    /// `None` for any other text.
    pub fn from_hex(s: &str) -> (res: Option<Color>)
        ensures
            res == hex_color(s@),
    {
        let n = s.unicode_len();
        let start: usize = if n > 0 && s.get_char(0) == '#' {
            1
        } else {
            0
        };
        let ghost t = after_hash(s@);
        assert(t =~= s@.subrange(start as int, s@.len() as int));
        let len: usize = n - start;
        if len != 6 && len != 8 {
            return None;
        }
        let mut digits: Vec<u8> = Vec::new();
        let mut i: usize = 0;
        while i < len
            invariant
                n == s@.len(),
                start <= n,
                len == n - start,
                len == t.len(),
                len == 6 || len == 8,
                t =~= s@.subrange(start as int, s@.len() as int),
                i <= len,
                digits@.len() == i,
                forall|j: int| 0 <= j < i ==> digit_at(t, j) == Some(#[trigger] digits@[j]),
            decreases len - i,
        {
            let c = s.get_char(start + i);
            assert(c == t[i as int]);
            let d: u8 = if i == 0 && c == '+' {
                0
            } else {
                let code = c as u32;
                if 0x30 <= code && code <= 0x39 {
                    (code - 0x30) as u8
                } else if 0x61 <= code && code <= 0x66 {
                    (code - 0x61 + 10) as u8
                } else if 0x41 <= code && code <= 0x46 {
                    (code - 0x41 + 10) as u8
                } else {
                    assert(digit_at(t, i as int) is None);
                    assert(!all_digits(t));
                    return None;
                }
            };
            digits.push(d);
            i = i + 1;
        }
        assert forall|j: int| 0 <= j < t.len() implies (#[trigger] digit_at(t, j)) is Some by {
            assert(digit_at(t, j) == Some(digits@[j]));
        }
        assert(all_digits(t));
        let r = digits[0] * 16 + digits[1];
        let g = digits[2] * 16 + digits[3];
        let b = digits[4] * 16 + digits[5];
        if len == 6 {
            Some(Color { r, g, b, a: 255 })
        } else {
            let a = digits[6] * 16 + digits[7];
            Some(Color { r, g, b, a })
        }
    }

    /// `#rrggbb` for an opaque colour, `#rrggbbaa` otherwise (lower-case digits).
    pub fn to_hex(&self) -> (s: String)
        ensures
            s@ == hex_string(*self),
    {
        let mut s = String::new();
        proof {
            reveal_strlit("#");
        }
        s.append("#");
        push_byte_hex(&mut s, self.r);
        push_byte_hex(&mut s, self.g);
        push_byte_hex(&mut s, self.b);
        if self.a != 255 {
            push_byte_hex(&mut s, self.a);
        }
        assert(s@ =~= hex_string(*self));
        s
    }

    /// The colour channels scaled by alpha (`c * a / 255`, rounded to nearest).
    pub fn premultiply(&self) -> (res: (u8, u8, u8))
        ensures
            res == (scale255(self.r, self.a), scale255(self.g, self.a), scale255(self.b, self.a)),
    {
        (scale_by_alpha(self.r, self.a), scale_by_alpha(self.g, self.a), scale_by_alpha(self.b, self.a))
    }

    /// Packs the colour into `0xRRGGBBAA`.
    pub fn pack_rgba(&self) -> (v: u32)
        ensures
            v == packed(*self),
    {
        let (r, g, b, a) = (self.r, self.g, self.b, self.a);
        let v = ((r as u32) << 24) | ((g as u32) << 16) | ((b as u32) << 8) | (a as u32);
        assert(v == (r as int * 0x100_0000 + g as int * 0x1_0000 + b as int * 0x100 + a as int))
            by (bit_vector)
            requires
                v == ((r as u32) << 24) | ((g as u32) << 16) | ((b as u32) << 8) | (a as u32),
        ;
        v
    }

    /// The colour stored in `0xRRGGBBAA`.
    pub fn unpack_rgba(v: u32) -> (c: Color)
        ensures
            c == unpacked(v),
    {
        let r = ((v >> 24) & 0xFF) as u8;
        let g = ((v >> 16) & 0xFF) as u8;
        let b = ((v >> 8) & 0xFF) as u8;
        let a = (v & 0xFF) as u8;
        assert(((v >> 24) & 0xFF) == v / 0x100_0000 && ((v >> 16) & 0xFF) == v / 0x1_0000 % 0x100
            && ((v >> 8) & 0xFF) == v / 0x100 % 0x100 && (v & 0xFF) == v % 0x100) by (bit_vector);
        Color { r, g, b, a }
    }
}

/// `x * a / 255` rounded to nearest.
fn scale_by_alpha(x: u8, a: u8) -> (res: u8)
    ensures
        res == scale255(x, a),
{
    assert(2 * x * a <= 2 * 255 * 255) by (nonlinear_arith)
        requires
            0 <= x <= 255,
            0 <= a <= 255,
    ;
    let n: u32 = 2 * (x as u32) * (a as u32) + 255;
    assert(n / 510 <= 255);
    (n / 510) as u8
}

/// Composites `src` over `dst` ("source over", straight alpha) in single precision.
pub fn alpha_blend(dst: Color, src: Color) -> (out: Color)
    ensures
        out == blended(dst, src),
{
    let sa = fl_div_exec(src.a as u128 * 0x8000_0000_0000, 255 * 0x8000_0000_0000);
    let da = fl_div_exec(dst.a as u128 * 0x8000_0000_0000, 255 * 0x8000_0000_0000);
    let oms = fl_sub_exec(0x8000_0000_0000, sa);
    assert(da * oms <= 0x4_0000_0000_0000_0000_0000_0000) by (nonlinear_arith)
        requires
            da <= 0x1_0000_0000_0001,
            oms <= 0x1_0000_0000_0001,
    ;
    let t1 = fl_mul_exec(da, oms);
    assert(t1 <= 0x10_0000_0000_0001);
    let out_a = fl_add_exec(sa, t1);
    assert(out_a <= 0x40_0000_0000_0000);
    if out_a == 0 {
        return Color { r: 0, g: 0, b: 0, a: 0 };
    }
    let r = blend_channel_exec(dst.r, src.r, sa, da, oms, out_a);
    let g = blend_channel_exec(dst.g, src.g, sa, da, oms, out_a);
    let b = blend_channel_exec(dst.b, src.b, sa, da, oms, out_a);
    assert(out_a * (255 * 0x8000_0000_0000) <= 0x4000_0000_0000_0000_0000_0000_0000) by (nonlinear_arith)
        requires
            out_a <= 0x40_0000_0000_0000,
    ;
    let a = fl_to_u8_exec(fl_mul_exec(out_a, 255 * 0x8000_0000_0000));
    Color { r, g, b, a }
}

/// One colour channel of a blend.
fn blend_channel_exec(d: u8, s: u8, sa: u128, da: u128, oms: u128, out_a: u128) -> (res: u8)
    requires
        sa <= 0x1_0000_0000_0001,
        da <= 0x1_0000_0000_0001,
        oms <= 0x1_0000_0000_0001,
        1 <= out_a,
    ensures
        res == blend_channel(d, s, sa as int, da as int, oms as int, out_a as int),
{
    let sf: u128 = s as u128 * 0x8000_0000_0000;
    let df: u128 = d as u128 * 0x8000_0000_0000;
    assert(sf * sa <= 0x100_0000_0000_0000_0000_0000_0000) by (nonlinear_arith)
        requires
            sf <= 255 * 0x8000_0000_0000,
            sa <= 0x1_0000_0000_0001,
    ;
    let u = fl_mul_exec(sf, sa);
    assert(u <= 0x400_0000_0000_0001);
    assert(df * da <= 0x100_0000_0000_0000_0000_0000_0000) by (nonlinear_arith)
        requires
            df <= 255 * 0x8000_0000_0000,
            da <= 0x1_0000_0000_0001,
    ;
    let v1 = fl_mul_exec(df, da);
    assert(v1 <= 0x400_0000_0000_0001);
    assert(v1 * oms <= 0x1000_0000_0000_0000_0000_0000_0000) by (nonlinear_arith)
        requires
            v1 <= 0x800_0000_0000_0000,
            oms <= 0x1_0000_0000_0001,
    ;
    let v = fl_mul_exec(v1, oms);
    assert(v <= 0x4000_0000_0000_0001);
    let n = fl_add_exec(u, v);
    assert(n <= 0x4_0000_0000_0000_0000);
    let c = fl_div_exec(n, out_a);
    assert(c <= 0x4_0000_0000_0000_0000_0000_0000_0001) by (nonlinear_arith)
        requires
            c * out_a <= 2 * n * 0x8000_0000_0000 + out_a,
            out_a >= 1,
            n <= 0x4_0000_0000_0000_0000,
    ;
    fl_to_u8_exec(c)
}

/// Appends the two lower-case hex digits of `b`.
fn push_byte_hex(s: &mut String, b: u8)
    ensures
        final(s)@ == old(s)@ + byte_hex(b),
{
    s.append(hex_digit_str(b / 16));
    s.append(hex_digit_str(b % 16));
}

/// The one-character text of a hex digit.
fn hex_digit_str(n: u8) -> (s: &'static str)
    requires
        n < 16,
    ensures
        s@ == seq![hex_char(n as int)],
{
    match n {
        0 => { proof { reveal_strlit("0"); } "0" },
        1 => { proof { reveal_strlit("1"); } "1" },
        2 => { proof { reveal_strlit("2"); } "2" },
        3 => { proof { reveal_strlit("3"); } "3" },
        4 => { proof { reveal_strlit("4"); } "4" },
        5 => { proof { reveal_strlit("5"); } "5" },
        6 => { proof { reveal_strlit("6"); } "6" },
        7 => { proof { reveal_strlit("7"); } "7" },
        8 => { proof { reveal_strlit("8"); } "8" },
        9 => { proof { reveal_strlit("9"); } "9" },
        10 => { proof { reveal_strlit("a"); } "a" },
        11 => { proof { reveal_strlit("b"); } "b" },
        12 => { proof { reveal_strlit("c"); } "c" },
        13 => { proof { reveal_strlit("d"); } "d" },
        14 => { proof { reveal_strlit("e"); } "e" },
        _ => { proof { reveal_strlit("f"); } "f" },
    }
}

} // verus!

use canvas2d::color::alpha_blend;
use canvas2d::Color;

#[test]
fn color_rgb() {
    let c = Color::rgb(10, 20, 30);
    assert_eq!(c, Color { r: 10, g: 20, b: 30, a: 255 });
}

#[test]
fn color_rgba() {
    let c = Color::rgba(1, 2, 3, 128);
    assert_eq!(c.a, 128);
}

#[test]
fn color_from_hex_6() {
    assert_eq!(Color::from_hex("#ff8040"), Some(Color::rgb(255, 128, 64)));
}

#[test]
fn color_from_hex_8() {
    assert_eq!(Color::from_hex("#ff804080"), Some(Color::rgba(255, 128, 64, 128)));
}

#[test]
fn color_to_hex_roundtrip() {
    let c = Color::rgb(255, 128, 64);
    assert_eq!(Color::from_hex(&c.to_hex()), Some(c));
}

#[test]
fn color_premultiply() {
    let c = Color::rgba(200, 100, 50, 128);
    let (r, g, b) = c.premultiply();
    assert_eq!(r, 100);
    assert_eq!(g, 50);
    assert_eq!(b, 25);
}

#[test]
fn color_pack_unpack_roundtrip() {
    let c = Color::rgba(12, 34, 56, 78);
    assert_eq!(Color::unpack_rgba(c.pack_rgba()), c);
}

#[test]
fn color_constants() {
    assert_eq!(Color::white().a, 255);
    assert_eq!(Color::transparent().a, 0);
}

// -- further cases --

#[test]
fn color_named_values() {
    assert_eq!(Color::white(), Color::rgba(255, 255, 255, 255));
    assert_eq!(Color::black(), Color::rgba(0, 0, 0, 255));
    assert_eq!(Color::red(), Color::rgba(255, 0, 0, 255));
    assert_eq!(Color::green(), Color::rgba(0, 255, 0, 255));
    assert_eq!(Color::blue(), Color::rgba(0, 0, 255, 255));
    assert_eq!(Color::transparent(), Color::rgba(0, 0, 0, 0));
}

#[test]
fn color_pack_exact_word() {
    assert_eq!(Color::rgba(0x12, 0x34, 0x56, 0x78).pack_rgba(), 0x1234_5678);
    assert_eq!(Color::unpack_rgba(0xdead_beef), Color::rgba(0xde, 0xad, 0xbe, 0xef));
    assert_eq!(Color::unpack_rgba(0xdead_beef).pack_rgba(), 0xdead_beef);
}

#[test]
fn color_from_hex_without_hash_and_upper_case() {
    assert_eq!(Color::from_hex("FF8040"), Some(Color::rgb(255, 128, 64)));
    assert_eq!(Color::from_hex("#Ab12Cd"), Some(Color::rgb(0xab, 0x12, 0xcd)));
}

#[test]
fn color_from_hex_rejects() {
    assert_eq!(Color::from_hex(""), None);
    assert_eq!(Color::from_hex("#"), None);
    assert_eq!(Color::from_hex("#fff"), None);
    assert_eq!(Color::from_hex("#ff80400"), None);
    assert_eq!(Color::from_hex("#ff80zz"), None);
    assert_eq!(Color::from_hex("##ff8040"), None);
    assert_eq!(Color::from_hex("#-f8040"), None);
    assert_eq!(Color::from_hex("#ff804é"), None);
    assert_eq!(Color::from_hex("#ff80é"), None);
}

#[test]
fn color_from_hex_plus_sign_is_a_zero_digit() {
    // the number parser accepts a leading '+'
    assert_eq!(Color::from_hex("+ff804"), Some(Color::rgb(0x0f, 0xf8, 0x04)));
    assert_eq!(Color::from_hex("#+ff80408"), Some(Color::rgba(0x0f, 0xf8, 0x04, 0x08)));
    assert_eq!(Color::from_hex("#++f804"), None);
}

#[test]
fn color_to_hex_values() {
    assert_eq!(Color::rgb(255, 128, 64).to_hex(), "#ff8040");
    assert_eq!(Color::rgba(1, 2, 3, 4).to_hex(), "#01020304");
    assert_eq!(Color::rgba(0, 0, 0, 0).to_hex(), "#00000000");
}

#[test]
fn color_hex_roundtrip_many() {
    for v in [0u32, 0xffff_ffff, 0x0102_03ff, 0x8040_2010, 0xabcd_ef01] {
        let c = Color::unpack_rgba(v);
        assert_eq!(Color::from_hex(&c.to_hex()), Some(c));
    }
}

#[test]
fn color_premultiply_opaque_and_transparent() {
    assert_eq!(Color::rgba(12, 200, 255, 255).premultiply(), (12, 200, 255));
    assert_eq!(Color::rgba(12, 200, 255, 0).premultiply(), (0, 0, 0));
}

/// The integer premultiplication agrees with the single-precision formula on every input.
#[test]
fn color_premultiply_matches_float_formula() {
    for a in 0..=255u8 {
        let af = a as f32 / 255.0;
        for x in 0..=255u8 {
            let expected = (x as f32 * af).round() as u8;
            let (r, _, _) = Color::rgba(x, 0, 0, a).premultiply();
            assert_eq!(r, expected, "x = {}, a = {}", x, a);
        }
    }
}

fn float_blend(dst: Color, src: Color) -> Color {
    let sa = src.a as f32 / 255.0;
    let da = dst.a as f32 / 255.0;
    let one_minus_sa = 1.0 - sa;
    let out_a = sa + da * one_minus_sa;
    if out_a == 0.0 {
        return Color::rgba(0, 0, 0, 0);
    }
    Color {
        r: ((src.r as f32 * sa + dst.r as f32 * da * one_minus_sa) / out_a).round() as u8,
        g: ((src.g as f32 * sa + dst.g as f32 * da * one_minus_sa) / out_a).round() as u8,
        b: ((src.b as f32 * sa + dst.b as f32 * da * one_minus_sa) / out_a).round() as u8,
        a: (out_a * 255.0).round() as u8,
    }
}

#[test]
fn color_blend_values() {
    // semi-transparent black over white
    let out = alpha_blend(Color::white(), Color::rgba(0, 0, 0, 128));
    assert_eq!(out, Color::rgba(127, 127, 127, 255));
    // opaque source replaces
    assert_eq!(alpha_blend(Color::red(), Color::blue()), Color::blue());
    // transparent over transparent
    assert_eq!(alpha_blend(Color::transparent(), Color::transparent()), Color::transparent());
    // transparent source keeps the destination
    assert_eq!(alpha_blend(Color::rgba(10, 20, 30, 40), Color::rgba(1, 2, 3, 0)), Color::rgba(10, 20, 30, 40));
}

/// The blend agrees exactly with the single-precision formula: every pair of alphas, with
/// varying channel values.
#[test]
fn color_blend_matches_float_formula_all_alphas() {
    for sa in 0..=255u32 {
        for da in 0..=255u32 {
            let src = Color::rgba(
                ((sa * 7 + da * 13) % 256) as u8,
                255,
                ((sa * 29 + da * 5 + 17) % 256) as u8,
                sa as u8,
            );
            let dst = Color::rgba(
                ((sa * 11 + da * 3) % 256) as u8,
                0,
                ((sa * 3 + da * 31 + 101) % 256) as u8,
                da as u8,
            );
            assert_eq!(alpha_blend(dst, src), float_blend(dst, src), "src {:?} dst {:?}", src, dst);
        }
    }
}

/// The blend agrees exactly with the single-precision formula: every pair of channel values,
/// for a spread of alphas.
#[test]
fn color_blend_matches_float_formula_all_channels() {
    for (sa, da) in [(128u8, 255u8), (1, 0), (1, 1), (254, 3), (77, 200), (200, 77), (3, 254)] {
        for s in 0..=255u32 {
            for d in (0..=255u32).step_by(3) {
                let src = Color::rgba(s as u8, (255 - s) as u8, ((s * 37) % 256) as u8, sa);
                let dst = Color::rgba(d as u8, ((d + 1) % 256) as u8, ((d * 91) % 256) as u8, da);
                assert_eq!(alpha_blend(dst, src), float_blend(dst, src), "src {:?} dst {:?}", src, dst);
            }
        }
    }
}

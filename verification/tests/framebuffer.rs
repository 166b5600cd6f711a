use canvas2d::{Color, Framebuffer, Rect};

#[test]
fn fb_new_transparent() {
    let fb = Framebuffer::new(10, 10);
    assert_eq!(fb.get_pixel(0, 0), Color::transparent());
}

#[test]
fn fb_set_get_pixel() {
    let mut fb = Framebuffer::new(10, 10);
    fb.set_pixel(3, 4, Color::red());
    assert_eq!(fb.get_pixel(3, 4), Color::red());
}

#[test]
fn fb_set_pixel_out_of_bounds() {
    let mut fb = Framebuffer::new(5, 5);
    fb.set_pixel(10, 10, Color::red()); // should not panic
}

#[test]
fn fb_clear() {
    let mut fb = Framebuffer::new(10, 10);
    fb.clear(Color::green());
    assert_eq!(fb.get_pixel(9, 9), Color::green());
}

#[test]
fn fb_fill_rect() {
    let mut fb = Framebuffer::new(20, 20);
    fb.fill_rect(Rect::new(5, 5, 5, 5), Color::blue());
    assert_eq!(fb.get_pixel(7, 7), Color::blue());
    assert_eq!(fb.get_pixel(4, 7), Color::transparent());
    assert_eq!(fb.get_pixel(10, 7), Color::transparent());
}

#[test]
fn fb_draw_rect_outline() {
    let mut fb = Framebuffer::new(10, 10);
    fb.draw_rect(Rect::new(2, 2, 4, 4), Color::white());
    // corners
    assert_eq!(fb.get_pixel(2, 2), Color::white());
    assert_eq!(fb.get_pixel(5, 2), Color::white());
    // inside should be transparent
    assert_eq!(fb.get_pixel(3, 3), Color::transparent());
}

#[test]
fn fb_draw_line_horizontal() {
    let mut fb = Framebuffer::new(20, 20);
    fb.draw_line(0, 5, 9, 5, Color::red());
    for x in 0..=9 {
        assert_eq!(fb.get_pixel(x, 5), Color::red());
    }
}

#[test]
fn fb_draw_line_diagonal() {
    let mut fb = Framebuffer::new(10, 10);
    fb.draw_line(0, 0, 4, 4, Color::white());
    for i in 0..=4 {
        assert_eq!(fb.get_pixel(i, i), Color::white());
    }
}

#[test]
fn fb_draw_circle() {
    let mut fb = Framebuffer::new(20, 20);
    fb.draw_circle(10, 10, 5, Color::white());
    // cardinal points at radius 5
    assert_eq!(fb.get_pixel(15, 10), Color::white());
    assert_eq!(fb.get_pixel(5, 10), Color::white());
    assert_eq!(fb.get_pixel(10, 15), Color::white());
    assert_eq!(fb.get_pixel(10, 5), Color::white());
    // center should be untouched
    assert_eq!(fb.get_pixel(10, 10), Color::transparent());
}

#[test]
fn fb_fill_circle() {
    let mut fb = Framebuffer::new(20, 20);
    fb.fill_circle(10, 10, 3, Color::green());
    assert_eq!(fb.get_pixel(10, 10), Color::green());
    // outside
    assert_eq!(fb.get_pixel(0, 0), Color::transparent());
}

#[test]
fn fb_blit_full_opaque() {
    let mut dst = Framebuffer::new(10, 10);
    let mut src = Framebuffer::new(4, 4);
    src.clear(Color::red());
    dst.blit(&src, 3, 3);
    assert_eq!(dst.get_pixel(3, 3), Color::red());
    assert_eq!(dst.get_pixel(6, 6), Color::red());
    assert_eq!(dst.get_pixel(2, 3), Color::transparent());
}

#[test]
fn fb_blit_alpha_blend() {
    let mut dst = Framebuffer::new(10, 10);
    dst.clear(Color::white());
    let mut src = Framebuffer::new(5, 5);
    src.clear(Color::rgba(0, 0, 0, 128));
    dst.blit(&src, 0, 0);
    let p = dst.get_pixel(2, 2);
    // semi-transparent black over white → mid gray
    assert!(p.r > 100 && p.r < 200, "expected mid gray, got {}", p.r);
}

#[test]
fn fb_blit_clipped() {
    let mut dst = Framebuffer::new(5, 5);
    let mut src = Framebuffer::new(10, 10);
    src.clear(Color::red());
    dst.blit(&src, -3, -3);
    // src at (-3,-3), visible region is entire 5x5 dst, all red
    assert_eq!(dst.get_pixel(0, 0), Color::red());
    assert_eq!(dst.get_pixel(4, 4), Color::red());
}

#[test]
fn fb_raw_data_len() {
    let fb = Framebuffer::new(16, 9);
    assert_eq!(fb.raw_data().len(), 16 * 9);
}

#[test]
fn fb_dimensions() {
    let fb = Framebuffer::new(32, 24);
    assert_eq!(fb.width(), 32);
    assert_eq!(fb.height(), 24);
}

// -- further cases --

fn lit(fb: &Framebuffer) -> Vec<(u32, u32)> {
    let mut out = Vec::new();
    for y in 0..fb.height() {
        for x in 0..fb.width() {
            if fb.get_pixel(x, y).a != 0 {
                out.push((x, y));
            }
        }
    }
    out
}

#[test]
fn fb_get_after_set_leaves_others() {
    let mut fb = Framebuffer::new(4, 3);
    fb.set_pixel(1, 2, Color::rgba(9, 8, 7, 6));
    assert_eq!(fb.get_pixel(1, 2), Color::rgba(9, 8, 7, 6));
    assert_eq!(lit(&fb), vec![(1, 2)]);
    assert_eq!(fb.raw_data()[2 * 4 + 1], 0x0908_0706);
    assert_eq!(fb.get_pixel(4, 0), Color::transparent());
    assert_eq!(fb.get_pixel(0, 3), Color::transparent());
}

#[test]
fn fb_zero_sized() {
    let mut fb = Framebuffer::new(0, 7);
    fb.set_pixel(0, 0, Color::red());
    fb.fill_rect(Rect::new(-5, -5, 10, 10), Color::red());
    fb.clear(Color::blue());
    assert_eq!(fb.raw_data().len(), 0);
    assert_eq!(fb.get_pixel(0, 0), Color::transparent());
}

#[test]
fn fb_fill_rect_clipped_exact() {
    let mut fb = Framebuffer::new(6, 4);
    fb.fill_rect(Rect::new(-2, 2, 4, 9), Color::red());
    assert_eq!(lit(&fb), vec![(0, 2), (1, 2), (0, 3), (1, 3)]);
    let mut fb2 = Framebuffer::new(6, 4);
    fb2.fill_rect(Rect::new(6, 0, 3, 3), Color::red());
    assert!(lit(&fb2).is_empty());
    // extents above i32::MAX read as negative: this rectangle covers nothing
    let mut fb3 = Framebuffer::new(6, 4);
    fb3.fill_rect(Rect::new(0, 0, u32::MAX, u32::MAX), Color::red());
    assert!(lit(&fb3).is_empty());
    // a zero-high rectangle fills nothing
    let mut fb4 = Framebuffer::new(6, 4);
    fb4.fill_rect(Rect::new(1, 1, 3, 0), Color::red());
    assert!(lit(&fb4).is_empty());
}

#[test]
fn fb_draw_line_pixels() {
    let mut fb = Framebuffer::new(8, 8);
    fb.draw_line(0, 0, 5, 2, Color::red());
    assert_eq!(lit(&fb), vec![(0, 0), (1, 0), (2, 1), (3, 1), (4, 2), (5, 2)]);
    let mut back = Framebuffer::new(8, 8);
    back.draw_line(5, 2, 0, 0, Color::red());
    assert_eq!(lit(&back), vec![(0, 0), (1, 0), (2, 1), (3, 1), (4, 2), (5, 2)]);
}

#[test]
fn fb_draw_line_single_point_and_offscreen() {
    let mut fb = Framebuffer::new(4, 4);
    fb.draw_line(2, 3, 2, 3, Color::red());
    assert_eq!(lit(&fb), vec![(2, 3)]);
    let mut fb2 = Framebuffer::new(4, 4);
    fb2.draw_line(-2, 1, 5, 1, Color::red());
    assert_eq!(lit(&fb2), vec![(0, 1), (1, 1), (2, 1), (3, 1)]);
}

#[test]
fn fb_draw_rect_outline_exact() {
    let mut fb = Framebuffer::new(5, 5);
    fb.draw_rect(Rect::new(1, 1, 3, 2), Color::red());
    assert_eq!(lit(&fb), vec![(1, 1), (2, 1), (3, 1), (1, 2), (2, 2), (3, 2)]);
    let mut empty = Framebuffer::new(5, 5);
    empty.draw_rect(Rect::new(1, 1, 0, 2), Color::red());
    assert!(lit(&empty).is_empty());
}

#[test]
fn fb_draw_circle_radius_one_and_negative() {
    let mut fb = Framebuffer::new(5, 5);
    fb.draw_circle(2, 2, 1, Color::red());
    assert_eq!(lit(&fb), vec![(2, 1), (1, 2), (3, 2), (2, 3)]);
    let mut none = Framebuffer::new(5, 5);
    none.draw_circle(2, 2, -1, Color::red());
    none.fill_circle(2, 2, -1, Color::red());
    assert!(lit(&none).is_empty());
    let mut dot = Framebuffer::new(5, 5);
    dot.draw_circle(2, 2, 0, Color::red());
    assert_eq!(lit(&dot), vec![(2, 2)]);
}

#[test]
fn fb_fill_circle_exact() {
    let mut fb = Framebuffer::new(5, 5);
    fb.fill_circle(2, 2, 1, Color::red());
    assert_eq!(lit(&fb), vec![(2, 1), (1, 2), (2, 2), (3, 2), (2, 3)]);
    let mut big = Framebuffer::new(7, 7);
    big.fill_circle(3, 3, 2, Color::red());
    assert_eq!(
        lit(&big),
        vec![
            (2, 1), (3, 1), (4, 1),
            (1, 2), (2, 2), (3, 2), (4, 2), (5, 2),
            (1, 3), (2, 3), (3, 3), (4, 3), (5, 3),
            (1, 4), (2, 4), (3, 4), (4, 4), (5, 4),
            (2, 5), (3, 5), (4, 5),
        ]
    );
}

#[test]
fn fb_blit_transparent_source_keeps_destination() {
    let mut dst = Framebuffer::new(3, 3);
    dst.clear(Color::blue());
    let src = Framebuffer::new(3, 3);
    dst.blit(&src, 0, 0);
    assert_eq!(dst.get_pixel(1, 1), Color::blue());
}

#[test]
fn fb_blit_blend_exact_and_outside() {
    let mut dst = Framebuffer::new(4, 4);
    dst.clear(Color::white());
    let mut src = Framebuffer::new(2, 2);
    src.clear(Color::rgba(0, 0, 0, 128));
    dst.blit(&src, 3, 3);
    assert_eq!(dst.get_pixel(3, 3), Color::rgba(127, 127, 127, 255));
    assert_eq!(dst.get_pixel(2, 3), Color::white());
    let mut far = Framebuffer::new(4, 4);
    far.blit(&src, 10, -10);
    assert_eq!(lit(&far), Vec::<(u32, u32)>::new());
}

#[test]
fn fb_clone_is_equal() {
    let mut fb = Framebuffer::new(3, 2);
    fb.set_pixel(2, 1, Color::red());
    let copy = fb.clone();
    assert_eq!(copy.raw_data(), fb.raw_data());
    assert_eq!(copy.width(), 3);
    assert_eq!(copy.height(), 2);
}

#[test]
fn fb_draw_line_vertical_and_steep() {
    let mut fb = Framebuffer::new(4, 6);
    fb.draw_line(2, 5, 2, 1, Color::red());
    assert_eq!(lit(&fb), vec![(2, 1), (2, 2), (2, 3), (2, 4), (2, 5)]);
    let mut steep = Framebuffer::new(4, 6);
    steep.draw_line(0, 0, 2, 5, Color::red());
    assert_eq!(lit(&steep), vec![(0, 0), (0, 1), (1, 2), (1, 3), (2, 4), (2, 5)]);
}

fn sq(v: i64) -> i64 {
    v * v
}

#[test]
fn fb_circle_outline_in_ring_and_symmetric() {
    for r in 0..=9i32 {
        let mut fb = Framebuffer::new(21, 21);
        fb.draw_circle(10, 10, r, Color::white());
        let on = |x: i64, y: i64| fb.get_pixel(x as u32, y as u32) == Color::white();
        for y in 0..21i64 {
            for x in 0..21i64 {
                let (a, b) = (x - 10, y - 10);
                if on(x, y) {
                    let d2 = sq(a) + sq(b);
                    let r = r as i64;
                    assert!(r * r - r <= d2 && d2 <= r * r + r, "r={} ({}, {})", r, x, y);
                }
                assert_eq!(on(x, y), on(10 - a, y));
                assert_eq!(on(x, y), on(x, 10 - b));
                assert_eq!(on(x, y), on(10 + b, 10 + a));
            }
        }
    }
}

#[test]
fn fb_fill_circle_covers_outline_rows_and_cross() {
    for r in 0..=9i32 {
        let mut outline = Framebuffer::new(21, 21);
        outline.draw_circle(10, 10, r, Color::white());
        let mut disc = Framebuffer::new(21, 21);
        disc.fill_circle(10, 10, r, Color::white());
        let on = |x: i64, y: i64| disc.get_pixel(x as u32, y as u32) == Color::white();
        for y in 0..21i64 {
            for x in 0..21i64 {
                if outline.get_pixel(x as u32, y as u32) == Color::white() {
                    assert!(on(x, y), "r={} ({}, {})", r, x, y);
                }
                if on(x, y) {
                    let r = r as i64;
                    assert!(sq(x - 10) + sq(y - 10) <= r * r + r);
                    for q in 0..21i64 {
                        if (q - 10).abs() <= (x - 10).abs() {
                            assert!(on(q, y));
                        }
                    }
                }
            }
        }
        for k in -(r as i64)..=(r as i64) {
            assert!(on(10 + k, 10));
            assert!(on(10, 10 + k));
        }
    }
}

#[test]
fn fb_line_one_pixel_per_major_step_within_box() {
    let cases: [(i32, i32, i32, i32); 6] =
        [(0, 0, 11, 4), (11, 9, 1, 2), (3, 0, 3, 11), (2, 1, 5, 11), (10, 10, 0, 0), (4, 6, 4, 6)];
    for &(x0, y0, x1, y1) in cases.iter() {
        let mut fb = Framebuffer::new(12, 12);
        fb.draw_line(x0, y0, x1, y1, Color::white());
        let pts = lit(&fb);
        let (lx, hx) = (x0.min(x1) as u32, x0.max(x1) as u32);
        let (ly, hy) = (y0.min(y1) as u32, y0.max(y1) as u32);
        for &(x, y) in pts.iter() {
            assert!(lx <= x && x <= hx && ly <= y && y <= hy);
        }
        if (x1 - x0).abs() >= (y1 - y0).abs() {
            for c in lx..=hx {
                assert_eq!(pts.iter().filter(|p| p.0 == c).count(), 1);
            }
            assert_eq!(pts.len() as u32, hx - lx + 1);
        } else {
            for r in ly..=hy {
                assert_eq!(pts.iter().filter(|p| p.1 == r).count(), 1);
            }
            assert_eq!(pts.len() as u32, hy - ly + 1);
        }
    }
}

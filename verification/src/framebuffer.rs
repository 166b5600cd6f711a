use vstd::prelude::*;
use vstd::arithmetic::div_mod::{lemma_fundamental_div_mod, lemma_fundamental_div_mod_converse};
use crate::color::{Color, packed, unpacked, blended, alpha_blend};
use crate::rect::{Rect, fits_i32, span_of};
use crate::raster::{
    line_fits, on_line, circle_run_fits, disc_run_fits, abs_int, dir, line_fuel, line_run_fits,
    line_visits, lemma_line_step, mirrored, mirrored_fit, circle_visits, on_circle, on_disc,
    disc_visits,
};

verus! {

// ---------------------------------------------------------------------------
// The pixel model
// ---------------------------------------------------------------------------

/// The pixels of a `w`-wide image in row-major order, with `v` written at every pixel
/// `(x, y)` for which `hit(x, y)` holds and the others left as they were.
pub open spec fn paint(cells: Seq<u32>, w: int, hit: spec_fn(int, int) -> bool, v: u32) -> Seq<
    u32,
> {
    Seq::new(cells.len(), |i: int| if hit(i % w, i / w) { v } else { cells[i] })
}

/// The index of pixel `(x, y)` in a `w`-wide image.
pub open spec fn pixel_index(w: int, x: int, y: int) -> int {
    y * w + x
}

/// The colour at `(x, y)` of a `w` by `h` image; fully transparent outside it.
pub open spec fn pixel_at(cells: Seq<u32>, w: u32, h: u32, x: int, y: int) -> Color {
    if 0 <= x < w && 0 <= y < h {
        unpacked(cells[pixel_index(w as int, x, y)])
    } else {
        Color { r: 0, g: 0, b: 0, a: 0 }
    }
}

/// The pixels of a `w` by `h` image with `c` written at `(x, y)`; unchanged when the
/// point lies outside.
pub open spec fn with_pixel(cells: Seq<u32>, w: u32, h: u32, x: int, y: int, c: Color) -> Seq<u32> {
    if 0 <= x < w && 0 <= y < h {
        cells.update(pixel_index(w as int, x, y), packed(c))
    } else {
        cells
    }
}

/// Every index of a `w` by `h` image is that of a pixel inside it.
pub proof fn lemma_coords(i: int, w: int, h: int)
    requires
        0 <= w,
        0 <= h,
        0 <= i < w * h,
    ensures
        w > 0,
        0 <= i % w < w,
        0 <= i / w < h,
        i == pixel_index(w, i % w, i / w),
{
    assert(w > 0) by (nonlinear_arith)
        requires
            0 <= i < w * h,
            0 <= w,
            0 <= h,
    ;
    lemma_fundamental_div_mod(i, w);
    assert((i / w) * w == w * (i / w)) by (nonlinear_arith);
    assert(0 <= i % w < w);
    assert(0 <= i / w < h) by (nonlinear_arith)
        requires
            0 <= i < w * h,
            w > 0,
            i == w * (i / w) + (i % w),
            0 <= i % w < w,
    ;
}

/// The pixel at index `pixel_index(w, x, y)` is `(x, y)`.
pub proof fn lemma_index_coords(w: int, h: int, x: int, y: int)
    requires
        0 <= x < w,
        0 <= y < h,
    ensures
        0 <= pixel_index(w, x, y) < w * h,
        pixel_index(w, x, y) % w == x,
        pixel_index(w, x, y) / w == y,
{
    assert(0 <= y * w + x < w * h) by (nonlinear_arith)
        requires
            0 <= x < w,
            0 <= y < h,
    ;
    lemma_fundamental_div_mod_converse(y * w + x, w, y, x);
}

/// Painting twice with one value paints the union.
pub proof fn lemma_paint_union(
    cells: Seq<u32>,
    w: int,
    a: spec_fn(int, int) -> bool,
    b: spec_fn(int, int) -> bool,
    v: u32,
)
    ensures
        paint(paint(cells, w, a, v), w, b, v) == paint(cells, w, |x: int, y: int| a(x, y) || b(x, y), v),
{
    assert(paint(paint(cells, w, a, v), w, b, v) =~= paint(
        cells,
        w,
        |x: int, y: int| a(x, y) || b(x, y),
        v,
    ));
}

/// Painting depends on the painted pixels only.
pub proof fn lemma_paint_same(
    cells: Seq<u32>,
    w: int,
    a: spec_fn(int, int) -> bool,
    b: spec_fn(int, int) -> bool,
    v: u32,
)
    requires
        forall|x: int, y: int| #[trigger] a(x, y) == b(x, y),
    ensures
        paint(cells, w, a, v) == paint(cells, w, b, v),
{
    assert(paint(cells, w, a, v) =~= paint(cells, w, b, v));
}

/// The stored word after compositing the stored word `src` over the stored word `dst`:
/// a transparent source leaves the destination, an opaque one replaces it, and any other
/// is blended.
pub open spec fn composite(dst: u32, src: u32) -> u32 {
    let s = unpacked(src);
    if s.a == 0 {
        dst
    } else if s.a == 255 {
        packed(s)
    } else {
        packed(blended(unpacked(dst), s))
    }
}

/// The framebuffer's bounds as a rectangle at the origin.
pub open spec fn bounds(w: u32, h: u32) -> Rect {
    Rect { x: 0, y: 0, w, h }
}

/// The part of a rectangle that the clipping against a `w` by `h` framebuffer keeps
/// covers `(px, py)`.
pub open spec fn clipped_covers(r: Rect, w: u32, h: u32, px: int, py: int) -> bool {
    match r.spec_clip(bounds(w, h)) {
        Some(c) => c.x <= px < c.x + c.w && c.y <= py < c.y + c.h,
        None => false,
    }
}

/// The clipped part of `r` is empty, or runs forward in both directions (one of the two
/// holds exactly when drawing into it stays inside the framebuffer).
pub open spec fn clip_in_order(r: Rect, w: u32, h: u32) -> bool {
    match r.spec_clip(bounds(w, h)) {
        Some(c) => c.h == 0 || (r.clip_x0(bounds(w, h)) <= r.clip_x1(bounds(w, h)) && r.clip_y0(
            bounds(w, h),
        ) <= r.clip_y1(bounds(w, h))),
        None => true,
    }
}

/// The index of the first stored pixel of row `r` of the rectangle `c` in a `w`-wide image.
pub open spec fn span_start(c: Rect, w: int, r: int) -> int {
    (c.y + r) * w + c.x
}

/// Filling the clipped rectangle `c` writes stored pixel `i`: it lies in the run of `c.w`
/// stored pixels that starts at the first pixel of one of the `c.h` rows. (Inside the
/// framebuffer a run is that row of `c`; a clipped width that reaches past the framebuffer's
/// width runs on into the rows below.)
pub open spec fn fill_covers(c: Rect, w: int, i: int) -> bool {
    exists|r: int| 0 <= r < c.h && #[trigger] span_start(c, w, r) <= i < span_start(c, w, r) + c.w
}

/// Filling `rect` on a `w` by `h` framebuffer computes its clipping within `i32` and every
/// run that it writes lies inside the pixels.
pub open spec fn fill_rect_fits(rect: Rect, w: u32, h: u32) -> bool {
    let b = bounds(w, h);
    &&& rect.intersects_fits(b)
    &&& rect.clip_fits(b)
    &&& match rect.spec_clip(b) {
        Some(c) => c.h == 0 || (w == 0 && c.y == 0) || (rect.clip_y0(b) < rect.clip_y1(b)
            && span_start(c, w as int, c.h - 1) + c.w <= w * h),
        None => true,
    }
}

/// The pixels after filling `rect`: the runs of its clipped rectangle (see `fill_covers`).
pub open spec fn filled_rect(cells: Seq<u32>, w: u32, h: u32, rect: Rect, c: Color) -> Seq<u32> {
    match rect.spec_clip(bounds(w, h)) {
        Some(r) => Seq::new(
            cells.len(),
            |i: int|
                if fill_covers(r, w as int, i) {
                    packed(c)
                } else {
                    cells[i]
                },
        ),
        None => cells,
    }
}

/// Blitting a `sw` by `sh` source at `(x, y)` on a `w` by `h` framebuffer computes its
/// clipping within `i32` and stays inside both images.
pub open spec fn blit_fits(w: u32, h: u32, sw: u32, sh: u32, x: i32, y: i32) -> bool {
    let r = Rect { x, y, w: sw, h: sh };
    &&& r.intersects_fits(bounds(w, h))
    &&& r.clip_fits(bounds(w, h))
    &&& clip_in_order(r, w, h)
}

/// The pixels of a `w`-wide framebuffer after compositing, at every pixel `(px, py)` for
/// which `hit(px, py)` holds, the pixel `(px - x, py - y)` of the `sw`-wide source `src`.
pub open spec fn blit_cells(
    cells: Seq<u32>,
    w: int,
    src: Seq<u32>,
    sw: int,
    x: int,
    y: int,
    hit: spec_fn(int, int) -> bool,
) -> Seq<u32> {
    Seq::new(
        cells.len(),
        |i: int|
            if hit(i % w, i / w) {
                composite(cells[i], src[pixel_index(sw, i % w - x, i / w - y)])
            } else {
                cells[i]
            },
    )
}

/// The pixels of a `w` by `h` framebuffer after compositing the `sw` by `sh` source `src`
/// with its top-left corner at `(x, y)`.
pub open spec fn blitted(
    cells: Seq<u32>,
    w: u32,
    h: u32,
    src: Seq<u32>,
    sw: u32,
    sh: u32,
    x: i32,
    y: i32,
) -> Seq<u32> {
    blit_cells(
        cells,
        w as int,
        src,
        sw as int,
        x as int,
        y as int,
        |px: int, py: int| clipped_covers(Rect { x, y, w: sw, h: sh }, w, h, px, py),
    )
}

/// Drawing the outline of `rect` stays within `i32` arithmetic.
pub open spec fn rect_outline_fits(rect: Rect) -> bool {
    rect.w == 0 || rect.h == 0 || {
        let x1 = rect.right() - 1;
        let y1 = rect.bottom() - 1;
        &&& fits_i32(rect.right()) && fits_i32(x1)
        &&& fits_i32(rect.bottom()) && fits_i32(y1)
        &&& line_fits(rect.x as int, rect.y as int, x1, rect.y as int)
        &&& line_fits(rect.x as int, y1, x1, y1)
        &&& line_fits(rect.x as int, rect.y as int, rect.x as int, y1)
        &&& line_fits(x1, rect.y as int, x1, y1)
    }
}

/// `(px, py)` lies on the outline of `rect`: one of the four edge lines from corner to
/// corner (none when the rectangle is empty).
pub open spec fn on_rect_outline(rect: Rect, px: int, py: int) -> bool {
    rect.w != 0 && rect.h != 0 && {
        let x0 = rect.x as int;
        let y0 = rect.y as int;
        let x1 = rect.right() - 1;
        let y1 = rect.bottom() - 1;
        ||| on_line(x0, y0, x1, y0, px, py)
        ||| on_line(x0, y1, x1, y1, px, py)
        ||| on_line(x0, y0, x0, y1, px, py)
        ||| on_line(x1, y0, x1, y1, px, py)
    }
}

/// Drawing the circle outline of radius `r` stays within `i32` arithmetic.
pub open spec fn circle_fits(cx: int, cy: int, r: int) -> bool {
    r < 0 || circle_run_fits(cx, cy, 0, r, 1 - r)
}

/// Filling the circle of radius `r` stays within `i32` arithmetic.
pub open spec fn disc_fits(cx: int, cy: int, r: int) -> bool {
    r < 0 || disc_run_fits(cx, cy, 0, r, 1 - r)
}

// ---------------------------------------------------------------------------
// Framebuffer
// ---------------------------------------------------------------------------

/// A `width` by `height` image of packed `0xRRGGBBAA` pixels, stored row by row.
#[derive(Debug)]
pub struct Framebuffer {
    width: u32,
    height: u32,
    pixels: Vec<u32>,
}

impl View for Framebuffer {
    type V = Seq<u32>;

    /// The packed pixels, row by row.
    closed spec fn view(&self) -> Seq<u32> {
        self.pixels@
    }
}

impl Clone for Framebuffer {
    /// A copy with the same size and pixels.
    fn clone(&self) -> (res: Self)
        ensures
            res.spec_width() == self.spec_width(),
            res.spec_height() == self.spec_height(),
            res@ == self@,
    {
        proof {
            use_type_invariant(self);
        }
        let pixels = self.pixels.clone();
        assert(pixels@ =~= self.pixels@);
        Framebuffer { width: self.width, height: self.height, pixels }
    }
}

impl Framebuffer {
    #[verifier::type_invariant]
    spec fn well_formed(&self) -> bool {
        self.pixels@.len() == self.width as int * self.height as int
    }

    pub closed spec fn spec_width(&self) -> u32 {
        self.width
    }

    pub closed spec fn spec_height(&self) -> u32 {
        self.height
    }

    /// A framebuffer of the given size, every pixel fully transparent.
    pub fn new(width: u32, height: u32) -> (fb: Framebuffer)
        requires
            width as int * height as int * 4 <= isize::MAX,
        ensures
            fb.spec_width() == width,
            fb.spec_height() == height,
            fb@ == Seq::new(width as nat * height as nat, |i: int| 0u32),
    {
        assert(width as int * height as int <= usize::MAX);
        let n: usize = (width as usize) * (height as usize);
        let mut pixels: Vec<u32> = Vec::new();
        let mut i: usize = 0;
        while i < n
            invariant
                i <= n,
                pixels@ == Seq::new(i as nat, |j: int| 0u32),
            decreases n - i,
        {
            pixels.push(0);
            i = i + 1;
            assert(pixels@ =~= Seq::new(i as nat, |j: int| 0u32));
        }
        Framebuffer { width, height, pixels }
    }

    #[verifier::when_used_as_spec(spec_width)]
    pub fn width(&self) -> (w: u32)
        ensures
            w == self.spec_width(),
    {
        self.width
    }

    #[verifier::when_used_as_spec(spec_height)]
    pub fn height(&self) -> (h: u32)
        ensures
            h == self.spec_height(),
    {
        self.height
    }

    /// The packed pixels, row by row.
    pub fn raw_data(&self) -> (data: &[u32])
        ensures
            data@ == self@,
            data@.len() == self.spec_width() as int * self.spec_height() as int,
    {
        proof {
            use_type_invariant(self);
        }
        self.pixels.as_slice()
    }

    /// Writes `color` at `(x, y)`; does nothing outside the framebuffer.
    pub fn set_pixel(&mut self, x: u32, y: u32, color: Color)
        ensures
            final(self).spec_width() == old(self).spec_width(),
            final(self).spec_height() == old(self).spec_height(),
            final(self)@ == with_pixel(
                old(self)@,
                old(self).spec_width(),
                old(self).spec_height(),
                x as int,
                y as int,
                color,
            ),
    {
        proof {
            use_type_invariant(&*self);
        }
        if x < self.width && y < self.height {
            proof {
                lemma_index_coords(self.width as int, self.height as int, x as int, y as int);
            }
            let n = self.pixels.len();
            assert(y as int * self.width as int + (x as int) < n);
            assert(y as int * self.width as int <= y as int * self.width as int + x as int);
            let idx = (y as usize) * (self.width as usize) + (x as usize);
            let v = color.pack_rgba();
            self.pixels[idx] = v;
        }
    }

    /// The colour at `(x, y)`; fully transparent outside the framebuffer.
    pub fn get_pixel(&self, x: u32, y: u32) -> (c: Color)
        ensures
            c == pixel_at(self@, self.spec_width(), self.spec_height(), x as int, y as int),
    {
        proof {
            use_type_invariant(self);
        }
        if x < self.width && y < self.height {
            proof {
                lemma_index_coords(self.width as int, self.height as int, x as int, y as int);
            }
            let n = self.pixels.len();
            assert(y as int * self.width as int + (x as int) < n);
            assert(y as int * self.width as int <= y as int * self.width as int + x as int);
            let idx = (y as usize) * (self.width as usize) + (x as usize);
            Color::unpack_rgba(self.pixels[idx])
        } else {
            Color::transparent()
        }
    }

    /// Sets every pixel to `color`.
    pub fn clear(&mut self, color: Color)
        ensures
            final(self).spec_width() == old(self).spec_width(),
            final(self).spec_height() == old(self).spec_height(),
            final(self)@ == Seq::new(old(self)@.len(), |i: int| packed(color)),
    {
        proof {
            use_type_invariant(&*self);
        }
        let packed_color = color.pack_rgba();
        let n = self.pixels.len();
        let mut i: usize = 0;
        while i < n
            invariant
                i <= n,
                n == self.pixels@.len(),
                n == old(self)@.len(),
                n == self.width as int * self.height as int,
                self.width == old(self).spec_width(),
                self.height == old(self).spec_height(),
                forall|j: int| 0 <= j < i ==> self.pixels@[j] == packed_color,
            decreases n - i,
        {
            self.pixels[i] = packed_color;
            i = i + 1;
        }
        assert(self.pixels@ =~= Seq::new(old(self)@.len(), |i: int| packed(color)));
    }

    /// Paints the single pixel `(x, y)` (nothing when it lies outside).
    fn plot(&mut self, x: i32, y: i32, v: u32)
        ensures
            final(self).spec_width() == old(self).spec_width(),
            final(self).spec_height() == old(self).spec_height(),
            final(self)@ == paint(
                old(self)@,
                old(self).spec_width() as int,
                |px: int, py: int| px == x && py == y,
                v,
            ),
    {
        proof {
            use_type_invariant(&*self);
        }
        let ghost w = self.width as int;
        let ghost h = self.height as int;
        let ghost hit = |px: int, py: int| px == x && py == y;
        if x >= 0 && y >= 0 && (x as u32) < self.width && (y as u32) < self.height {
            proof {
                lemma_index_coords(w, h, x as int, y as int);
            }
            let n = self.pixels.len();
            assert(y as int * self.width as int + (x as int) < n);
            assert(y as int * self.width as int <= y as int * self.width as int + x as int);
            let idx = (y as usize) * (self.width as usize) + (x as usize);
            self.pixels[idx] = v;
            proof {
                assert forall|i: int| 0 <= i < self.pixels@.len() implies self.pixels@[i] == paint(
                    old(self)@,
                    w,
                    hit,
                    v,
                )[i] by {
                    lemma_coords(i, w, h);
                }
                assert(self.pixels@ =~= paint(old(self)@, w, hit, v));
            }
        } else {
            proof {
                assert forall|i: int| 0 <= i < self.pixels@.len() implies self.pixels@[i] == paint(
                    old(self)@,
                    w,
                    hit,
                    v,
                )[i] by {
                    lemma_coords(i, w, h);
                }
                assert(self.pixels@ =~= paint(old(self)@, w, hit, v));
            }
        }
    }
}


impl Framebuffer {
    /// Draws the Bresenham line from `(x0, y0)` to `(x1, y1)`, both ends included; points
    /// outside the framebuffer are skipped.
    pub fn draw_line(&mut self, x0: i32, y0: i32, x1: i32, y1: i32, color: Color)
        requires
            line_fits(x0 as int, y0 as int, x1 as int, y1 as int),
        ensures
            final(self).spec_width() == old(self).spec_width(),
            final(self).spec_height() == old(self).spec_height(),
            final(self)@ == paint(
                old(self)@,
                old(self).spec_width() as int,
                |px: int, py: int| on_line(x0 as int, y0 as int, x1 as int, y1 as int, px, py),
                packed(color),
            ),
    {
        let v = color.pack_rgba();
        let ghost gx0 = x0 as int;
        let ghost gy0 = y0 as int;
        let ghost gx1 = x1 as int;
        let ghost gy1 = y1 as int;
        let ghost w = self.spec_width() as int;
        let ghost full = |px: int, py: int| on_line(gx0, gy0, gx1, gy1, px, py);
        let dx: i32 = if x1 >= x0 {
            x1 - x0
        } else {
            x0 - x1
        };
        let dy: i32 = if y1 >= y0 {
            y0 - y1
        } else {
            y1 - y0
        };
        let sx: i32 = if x0 < x1 {
            1
        } else {
            -1
        };
        let sy: i32 = if y0 < y1 {
            1
        } else {
            -1
        };
        let mut err: i32 = dx + dy;
        let mut cx: i32 = x0;
        let mut cy: i32 = y0;
        let ghost bdx = dx as int;
        let ghost bdy = -(dy as int);
        let ghost mut xs: int = 0;
        let ghost mut ys: int = 0;
        let ghost mut fuel: nat = line_fuel(gx0, gy0, gx1, gy1);
        let ghost mut done: spec_fn(int, int) -> bool = |px: int, py: int| false;
        assert(self@ =~= paint(old(self)@, w, done, v));
        assert(err == (1 + ys) * bdx - (1 + xs) * bdy) by (nonlinear_arith)
            requires
                xs == 0,
                ys == 0,
                err == bdx - bdy,
        ;
        loop
            invariant
                self.spec_width() == old(self).spec_width(),
                self.spec_height() == old(self).spec_height(),
                w == self.spec_width() as int,
                v == packed(color),
                full == (|px: int, py: int| on_line(gx0, gy0, gx1, gy1, px, py)),
                gx0 == x0 as int && gy0 == y0 as int && gx1 == x1 as int && gy1 == y1 as int,
                dx == bdx,
                dy == -bdy,
                bdx == abs_int(gx1 - gx0),
                bdy == abs_int(gy1 - gy0),
                sx == dir(gx0, gx1),
                sy == dir(gy0, gy1),
                0 <= xs <= bdx,
                0 <= ys <= bdy,
                gx0 < gx1 ==> cx == gx0 + xs,
                gx0 >= gx1 ==> cx == gx0 - xs,
                gy0 < gy1 ==> cy == gy0 + ys,
                gy0 >= gy1 ==> cy == gy0 - ys,
                err == (1 + ys) * bdx - (1 + xs) * bdy,
                fuel >= (bdx - xs) + (bdy - ys),
                line_run_fits(gx0, gy0, gx1, gy1, cx as int, cy as int, err as int, fuel),
                forall|px: int, py: int|
                    #[trigger] full(px, py) == (done(px, py) || line_visits(
                        gx0,
                        gy0,
                        gx1,
                        gy1,
                        cx as int,
                        cy as int,
                        err as int,
                        fuel,
                        px,
                        py,
                    )),
                self@ == paint(old(self)@, w, done, v),
            ensures
                self.spec_width() == old(self).spec_width(),
                self.spec_height() == old(self).spec_height(),
                self@ == paint(old(self)@, w, full, v),
            decreases (bdx - xs) + (bdy - ys),
        {
            let ghost before = self@;
            self.plot(cx, cy, v);
            let ghost pcx = cx as int;
            let ghost pcy = cy as int;
            let ghost old_done = done;
            proof {
                lemma_paint_union(old(self)@, w, old_done, |px: int, py: int| px == pcx && py == pcy, v);
                done = |px: int, py: int| old_done(px, py) || (px == pcx && py == pcy);
                assert(self@ == paint(old(self)@, w, done, v));
            }
            if cx == x1 && cy == y1 {
                proof {
                    assert forall|px: int, py: int| #[trigger] full(px, py) == done(px, py) by {
                        assert(full(px, py) == (old_done(px, py) || line_visits(
                            gx0,
                            gy0,
                            gx1,
                            gy1,
                            pcx,
                            pcy,
                            err as int,
                            fuel,
                            px,
                            py,
                        )));
                    }
                    lemma_paint_same(old(self)@, w, done, full, v);
                }
                break;
            }
            proof {
                assert(!(xs == bdx && ys == bdy));
                lemma_line_step(bdx, bdy, xs, ys, err as int);
            }
            let ghost perr = err as int;
            let ghost pfuel = fuel;
            let e2 = 2 * err;
            if e2 >= dy {
                err = err + dy;
                cx = cx + sx;
                proof {
                    xs = xs + 1;
                }
            }
            if e2 <= dx {
                err = err + dx;
                cy = cy + sy;
                proof {
                    ys = ys + 1;
                }
            }
            proof {
                fuel = (fuel - 1) as nat;
                assert(err == (1 + ys) * bdx - (1 + xs) * bdy) by (nonlinear_arith)
                    requires
                        perr == (1 + (if e2 <= dx { ys - 1 } else { ys })) * bdx - (1 + (if e2
                            >= dy {
                            xs - 1
                        } else {
                            xs
                        })) * bdy,
                        err == perr + (if e2 >= dy { -bdy } else { 0 }) + (if e2 <= dx {
                            bdx
                        } else {
                            0
                        }),
                ;
                assert forall|px: int, py: int| #[trigger] full(px, py) == (done(px, py) || line_visits(
                    gx0,
                    gy0,
                    gx1,
                    gy1,
                    cx as int,
                    cy as int,
                    err as int,
                    fuel,
                    px,
                    py,
                )) by {
                    assert(line_visits(gx0, gy0, gx1, gy1, pcx, pcy, perr, pfuel, px, py) == ((pcx
                        == px && pcy == py) || line_visits(
                        gx0,
                        gy0,
                        gx1,
                        gy1,
                        cx as int,
                        cy as int,
                        err as int,
                        fuel,
                        px,
                        py,
                    )));
                }
            }
        }
    }
}


impl Framebuffer {
    /// Fills the part of `rect` inside the framebuffer with `color`: row by row, the run of
    /// stored pixels of the clipped rectangle.
    pub fn fill_rect(&mut self, rect: Rect, color: Color)
        requires
            fill_rect_fits(rect, old(self).spec_width(), old(self).spec_height()),
        ensures
            final(self).spec_width() == old(self).spec_width(),
            final(self).spec_height() == old(self).spec_height(),
            final(self)@ == filled_rect(
                old(self)@,
                old(self).spec_width(),
                old(self).spec_height(),
                rect,
                color,
            ),
    {
        proof {
            use_type_invariant(&*self);
        }
        let ghost w = self.width as int;
        let ghost h = self.height as int;
        let ghost old_cells = old(self)@;
        let fb_rect = Rect::new(0, 0, self.width, self.height);
        let clipped = match rect.clip(&fb_rect) {
            Some(c) => c,
            None => {
                assert(self@ =~= filled_rect(old(self)@, self.width, self.height, rect, color));
                return ;
            },
        };
        let ghost c = clipped;
        let v = color.pack_rgba();
        if self.width == 0 || clipped.h == 0 {
            assert(self@ =~= filled_rect(old(self)@, self.width, self.height, rect, color));
            return ;
        }
        let n = self.pixels.len();
        let width = self.width as usize;
        let mut row: u32 = 0;
        assert(self@ =~= Seq::new(
            old_cells.len(),
            |i: int|
                if exists|r: int| 0 <= r < row && #[trigger] span_start(c, w, r) <= i < span_start(c, w, r) + c.w {
                    v
                } else {
                    old_cells[i]
                },
        ));
        while row < clipped.h
            invariant
                self.spec_width() == old(self).spec_width(),
                self.spec_height() == old(self).spec_height(),
                w == self.width as int,
                h == self.height as int,
                width == self.width,
                w > 0,
                n == self.pixels@.len(),
                n == w * h,
                old_cells == old(self)@,
                old_cells.len() == n,
                v == packed(color),
                c == clipped,
                rect.spec_clip(bounds(self.width, self.height)) == Some(clipped),
                clipped.x >= 0 && clipped.y >= 0,
                clipped.h > 0,
                span_start(c, w, c.h - 1) + c.w <= n,
                row <= clipped.h,
                self@ == Seq::new(
                    old_cells.len(),
                    |i: int|
                        if exists|r: int| 0 <= r < row && #[trigger] span_start(c, w, r) <= i < span_start(c, w, r) + c.w {
                            v
                        } else {
                            old_cells[i]
                        },
                ),
            decreases clipped.h - row,
        {
            assert(span_start(c, w, row as int) + c.w <= span_start(c, w, c.h - 1) + c.w) by (nonlinear_arith)
                requires
                    0 <= row < c.h,
                    w > 0,
            ;
            assert(c.y as int + row as int <= n) by (nonlinear_arith)
                requires
                    span_start(c, w, row as int) + c.w <= n,
                    span_start(c, w, row as int) == (c.y + row) * w + c.x,
                    w >= 1,
                    c.x >= 0,
                    c.y + row >= 0,
            ;
            let yrow: usize = clipped.y as usize + row as usize;
            assert(yrow as int * w <= span_start(c, w, row as int));
            assert(yrow * width <= n);
            let start: usize = yrow * width + clipped.x as usize;
            let end: usize = start + clipped.w as usize;
            let ghost prev = self@;
            let mut i: usize = start;
            while i < end
                invariant
                    self.spec_width() == old(self).spec_width(),
                    self.spec_height() == old(self).spec_height(),
                    n == self.pixels@.len(),
                    n == w * h,
                    w == self.width as int,
                    h == self.height as int,
                    old_cells.len() == n,
                    start == span_start(c, w, row as int),
                    end == start + c.w,
                    end <= n,
                    start <= i <= end,
                    prev.len() == n,
                    self@ == Seq::new(
                        old_cells.len(),
                        |j: int| if start <= j < i { v } else { prev[j] },
                    ),
                decreases end - i,
            {
                self.pixels[i] = v;
                i = i + 1;
                assert(self@ =~= Seq::new(
                    old_cells.len(),
                    |j: int| if start <= j < i { v } else { prev[j] },
                ));
            }
            proof {
                let next = Seq::new(
                    old_cells.len(),
                    |j: int|
                        if exists|r: int| 0 <= r < row + 1 && #[trigger] span_start(c, w, r) <= j < span_start(c, w, r) + c.w {
                            v
                        } else {
                            old_cells[j]
                        },
                );
                assert forall|j: int| 0 <= j < n implies self@[j] == next[j] by {
                    if start <= j < end {
                        assert(span_start(c, w, row as int) <= j < span_start(c, w, row as int) + c.w);
                    }
                }
                assert(self@ =~= next);
            }
            row = row + 1;
        }
        assert(self@ =~= filled_rect(old(self)@, self.width, self.height, rect, color));
    }

    /// Composites `src` over the framebuffer with its top-left corner at `(x, y)`: fully
    /// transparent source pixels are skipped, opaque ones copied, the others blended.
    pub fn blit(&mut self, src: &Framebuffer, x: i32, y: i32)
        requires
            blit_fits(
                old(self).spec_width(),
                old(self).spec_height(),
                src.spec_width(),
                src.spec_height(),
                x,
                y,
            ),
        ensures
            final(self).spec_width() == old(self).spec_width(),
            final(self).spec_height() == old(self).spec_height(),
            final(self)@ == blitted(
                old(self)@,
                old(self).spec_width(),
                old(self).spec_height(),
                src@,
                src.spec_width(),
                src.spec_height(),
                x,
                y,
            ),
    {
        proof {
            use_type_invariant(&*self);
            use_type_invariant(src);
        }
        let ghost w = self.width as int;
        let ghost h = self.height as int;
        let ghost sw = src.width as int;
        let ghost sh = src.height as int;
        let ghost src_rect_g = Rect { x, y, w: src.width, h: src.height };
        let ghost region = |px: int, py: int|
            clipped_covers(src_rect_g, old(self).spec_width(), old(self).spec_height(), px, py);
        let fb_rect = Rect::new(0, 0, self.width, self.height);
        let src_rect = Rect::new(x, y, src.width, src.height);
        let clipped = match src_rect.clip(&fb_rect) {
            Some(c) => c,
            None => {
                assert(self@ =~= blitted(old(self)@, self.width, self.height, src@, src.width, src.height, x, y));
                return ;
            },
        };
        proof {
            lemma_clip_inside(src_rect, self.width, self.height);
            lemma_clip_source(src_rect, self.width, self.height);
        }
        let mut row: u32 = 0;
        let ghost mut done: spec_fn(int, int) -> bool = |px: int, py: int| false;
        assert(self@ =~= blit_cells(old(self)@, w, src@, sw, x as int, y as int, done));
        while row < clipped.h
            invariant
                self.spec_width() == old(self).spec_width(),
                self.spec_height() == old(self).spec_height(),
                self@.len() == old(self)@.len(),
                self@.len() == w * h,
                src@.len() == sw * sh,
                w == self.spec_width() as int,
                h == self.spec_height() as int,
                sw == src.spec_width() as int,
                sh == src.spec_height() as int,
                src_rect == src_rect_g,
                src_rect_g == (Rect { x, y, w: src.width, h: src.height }),
                src_rect.spec_clip(bounds(self.width, self.height)) == Some(clipped),
                clipped.h > 0 ==> clipped.x + clipped.w <= w && clipped.y + clipped.h <= h
                    && clipped.x >= 0 && clipped.y >= 0 && clipped.x + clipped.w <= i32::MAX
                    && clipped.y + clipped.h <= i32::MAX && x <= clipped.x && y <= clipped.y
                    && clipped.x + clipped.w <= x + sw && clipped.y + clipped.h <= y + sh
                    && sw <= i32::MAX && sh <= i32::MAX,
                region == (|px: int, py: int|
                    clipped_covers(src_rect_g, old(self).spec_width(), old(self).spec_height(), px, py)),
                row <= clipped.h,
                forall|px: int, py: int|
                    #[trigger] done(px, py) == (clipped.x <= px < clipped.x + clipped.w
                        && clipped.y <= py < clipped.y + row),
                self@ == blit_cells(old(self)@, w, src@, sw, x as int, y as int, done),
            decreases clipped.h - row,
        {
            let dst_y: i32 = clipped.y + row as i32;
            let src_row: i32 = (clipped.y - y) + row as i32;
            let mut col: u32 = 0;
            let ghost row_done = done;
            while col < clipped.w
                invariant
                    self.spec_width() == old(self).spec_width(),
                    self.spec_height() == old(self).spec_height(),
                    self@.len() == old(self)@.len(),
                    self@.len() == w * h,
                    src@.len() == sw * sh,
                    w == self.spec_width() as int,
                    h == self.spec_height() as int,
                    sw == src.spec_width() as int,
                    sh == src.spec_height() as int,
                    clipped.x + clipped.w <= w && clipped.y + clipped.h <= h && clipped.x >= 0
                        && clipped.y >= 0 && clipped.x + clipped.w <= i32::MAX
                        && clipped.y + clipped.h <= i32::MAX && x <= clipped.x && y <= clipped.y
                        && clipped.x + clipped.w <= x + sw && clipped.y + clipped.h <= y + sh
                        && sw <= i32::MAX && sh <= i32::MAX,
                    row < clipped.h,
                    dst_y == clipped.y + row,
                    src_row == dst_y - y,
                    col <= clipped.w,
                    forall|px: int, py: int|
                        #[trigger] done(px, py) == (row_done(px, py) || (py == dst_y
                            && clipped.x <= px < clipped.x + col)),
                    forall|px: int, py: int| #[trigger] row_done(px, py) ==> py < dst_y,
                    self@ == blit_cells(old(self)@, w, src@, sw, x as int, y as int, done),
                decreases clipped.w - col,
            {
                let dst_x: i32 = clipped.x + col as i32;
                let src_col: i32 = (clipped.x - x) + col as i32;
                proof {
                    lemma_index_coords(sw, sh, src_col as int, src_row as int);
                    lemma_index_coords(w, h, dst_x as int, dst_y as int);
                }
                let slen = src.pixels.len();
                let dlen = self.pixels.len();
                assert(src_row as int * sw + (src_col as int) < slen);
                assert(src_row as int * sw <= src_row as int * sw + (src_col as int));
                assert(dst_y as int * w + (dst_x as int) < dlen);
                assert(dst_y as int * w <= dst_y as int * w + (dst_x as int));
                let sidx = (src_row as usize) * (src.width as usize) + (src_col as usize);
                let didx = (dst_y as usize) * (self.width as usize) + (dst_x as usize);
                let ghost before = self@;
                let src_word = src.pixels[sidx];
                let src_color = Color::unpack_rgba(src_word);
                if src_color.a != 0 {
                    if src_color.a == 255 {
                        self.pixels[didx] = src_color.pack_rgba();
                    } else {
                        let dst_color = Color::unpack_rgba(self.pixels[didx]);
                        let out = alpha_blend(dst_color, src_color);
                        self.pixels[didx] = out.pack_rgba();
                    }
                }
                proof {
                    let d0 = done;
                    done = |qx: int, qy: int| d0(qx, qy) || (qx == dst_x && qy == dst_y);
                    assert(!d0(dst_x as int, dst_y as int));
                    assert(before[didx as int] == old(self)@[didx as int]);
                    assert forall|i: int| 0 <= i < self@.len() implies self@[i] == blit_cells(
                        old(self)@,
                        w,
                        src@,
                        sw,
                        x as int,
                        y as int,
                        done,
                    )[i] by {
                        lemma_coords(i, w, h);
                    }
                    assert(self@ =~= blit_cells(old(self)@, w, src@, sw, x as int, y as int, done));
                }
                col = col + 1;
            }
            row = row + 1;
        }
        proof {
            assert forall|px: int, py: int| #[trigger] done(px, py) == region(px, py) by {}
            assert(self@ =~= blit_cells(old(self)@, w, src@, sw, x as int, y as int, region));
        }
    }
}

impl Framebuffer {
    /// Draws the outline of `rect`: its four edges as lines from corner to corner (the last
    /// row and column are `x + w - 1` and `y + h - 1`); nothing for an empty rectangle.
    pub fn draw_rect(&mut self, rect: Rect, color: Color)
        requires
            rect_outline_fits(rect),
        ensures
            final(self).spec_width() == old(self).spec_width(),
            final(self).spec_height() == old(self).spec_height(),
            final(self)@ == paint(
                old(self)@,
                old(self).spec_width() as int,
                |px: int, py: int| on_rect_outline(rect, px, py),
                packed(color),
            ),
    {
        let ghost w = self.spec_width() as int;
        let ghost v = packed(color);
        if rect.w == 0 || rect.h == 0 {
            assert(self@ =~= paint(old(self)@, w, |px: int, py: int| on_rect_outline(rect, px, py), v));
            return ;
        }
        let x0 = rect.x;
        let y0 = rect.y;
        let x1: i32 = (rect.x as i64 + span_of(rect.w) - 1) as i32;
        let y1: i32 = (rect.y as i64 + span_of(rect.h) - 1) as i32;
        let ghost l1 = |px: int, py: int| on_line(x0 as int, y0 as int, x1 as int, y0 as int, px, py);
        let ghost l2 = |px: int, py: int| on_line(x0 as int, y1 as int, x1 as int, y1 as int, px, py);
        let ghost l3 = |px: int, py: int| on_line(x0 as int, y0 as int, x0 as int, y1 as int, px, py);
        let ghost l4 = |px: int, py: int| on_line(x1 as int, y0 as int, x1 as int, y1 as int, px, py);
        self.draw_line(x0, y0, x1, y0, color);
        self.draw_line(x0, y1, x1, y1, color);
        self.draw_line(x0, y0, x0, y1, color);
        self.draw_line(x1, y0, x1, y1, color);
        proof {
            let s0 = old(self)@;
            lemma_paint_union(s0, w, l1, l2, v);
            let a = |px: int, py: int| l1(px, py) || l2(px, py);
            lemma_paint_union(s0, w, a, l3, v);
            let b = |px: int, py: int| a(px, py) || l3(px, py);
            lemma_paint_union(s0, w, b, l4, v);
            let c = |px: int, py: int| b(px, py) || l4(px, py);
            lemma_paint_same(s0, w, c, |px: int, py: int| on_rect_outline(rect, px, py), v);
        }
    }

    /// Plots the eight mirror images of the octant offset `(x, y)` around `(cx, cy)`.
    fn plot_circle_points(&mut self, cx: i32, cy: i32, x: i32, y: i32, v: u32)
        requires
            mirrored_fit(cx as int, cy as int, x as int, y as int),
        ensures
            final(self).spec_width() == old(self).spec_width(),
            final(self).spec_height() == old(self).spec_height(),
            final(self)@ == paint(
                old(self)@,
                old(self).spec_width() as int,
                |px: int, py: int| mirrored(cx as int, cy as int, x as int, y as int, px, py),
                v,
            ),
    {
        let ghost w = self.spec_width() as int;
        let ghost s0 = old(self)@;
        let pts: [(i32, i32); 8] = [
            (cx + x, cy + y),
            (cx - x, cy + y),
            (cx + x, cy - y),
            (cx - x, cy - y),
            (cx + y, cy + x),
            (cx - y, cy + x),
            (cx + y, cy - x),
            (cx - y, cy - x),
        ];
        let mut k: usize = 0;
        let ghost mut done: spec_fn(int, int) -> bool = |px: int, py: int| false;
        assert(self@ =~= paint(s0, w, done, v));
        while k < 8
            invariant
                self.spec_width() == old(self).spec_width(),
                self.spec_height() == old(self).spec_height(),
                w == self.spec_width() as int,
                s0 == old(self)@,
                k <= 8,
                pts@ == seq![
                    ((cx + x) as i32, (cy + y) as i32),
                    ((cx - x) as i32, (cy + y) as i32),
                    ((cx + x) as i32, (cy - y) as i32),
                    ((cx - x) as i32, (cy - y) as i32),
                    ((cx + y) as i32, (cy + x) as i32),
                    ((cx - y) as i32, (cy + x) as i32),
                    ((cx + y) as i32, (cy - x) as i32),
                    ((cx - y) as i32, (cy - x) as i32),
                ],
                forall|px: int, py: int|
                    #[trigger] done(px, py) == exists|j: int|
                        0 <= j < k && px == pts@[j].0 && py == pts@[j].1,
                self@ == paint(s0, w, done, v),
            decreases 8 - k,
        {
            let (px, py) = pts[k];
            self.plot(px, py, v);
            proof {
                let d0 = done;
                lemma_paint_union(s0, w, d0, |qx: int, qy: int| qx == px && qy == py, v);
                done = |qx: int, qy: int| d0(qx, qy) || (qx == px && qy == py);
                assert forall|qx: int, qy: int| #[trigger] done(qx, qy) == exists|j: int|
                    0 <= j < k + 1 && qx == pts@[j].0 && qy == pts@[j].1 by {
                    if done(qx, qy) && !d0(qx, qy) {
                        assert(qx == pts@[k as int].0 && qy == pts@[k as int].1);
                    }
                }
            }
            k = k + 1;
        }
        proof {
            let m = |px: int, py: int| mirrored(cx as int, cy as int, x as int, y as int, px, py);
            assert forall|px: int, py: int| #[trigger] done(px, py) == m(px, py) by {
                if m(px, py) {
                    if px == cx + x && py == cy + y {
                        assert(px == pts@[0].0 && py == pts@[0].1);
                    } else if px == cx - x && py == cy + y {
                        assert(px == pts@[1].0 && py == pts@[1].1);
                    } else if px == cx + x && py == cy - y {
                        assert(px == pts@[2].0 && py == pts@[2].1);
                    } else if px == cx - x && py == cy - y {
                        assert(px == pts@[3].0 && py == pts@[3].1);
                    } else if px == cx + y && py == cy + x {
                        assert(px == pts@[4].0 && py == pts@[4].1);
                    } else if px == cx - y && py == cy + x {
                        assert(px == pts@[5].0 && py == pts@[5].1);
                    } else if px == cx + y && py == cy - x {
                        assert(px == pts@[6].0 && py == pts@[6].1);
                    } else {
                        assert(px == pts@[7].0 && py == pts@[7].1);
                    }
                }
            }
            lemma_paint_same(s0, w, done, m, v);
        }
    }

    /// Draws the outline of the circle of radius `r` around `(cx, cy)` with the midpoint
    /// algorithm; nothing for a negative radius.
    pub fn draw_circle(&mut self, cx: i32, cy: i32, r: i32, color: Color)
        requires
            circle_fits(cx as int, cy as int, r as int),
        ensures
            final(self).spec_width() == old(self).spec_width(),
            final(self).spec_height() == old(self).spec_height(),
            final(self)@ == paint(
                old(self)@,
                old(self).spec_width() as int,
                |px: int, py: int| on_circle(cx as int, cy as int, r as int, px, py),
                packed(color),
            ),
    {
        let ghost w = self.spec_width() as int;
        let ghost s0 = old(self)@;
        let ghost full = |px: int, py: int| on_circle(cx as int, cy as int, r as int, px, py);
        if r < 0 {
            assert(self@ =~= paint(s0, w, full, packed(color)));
            return ;
        }
        let v = color.pack_rgba();
        let mut x: i32 = 0;
        let mut y: i32 = r;
        let mut d: i32 = 1 - r;
        let ghost mut done: spec_fn(int, int) -> bool = |px: int, py: int| false;
        assert(self@ =~= paint(s0, w, done, v));
        while x <= y
            invariant
                self.spec_width() == old(self).spec_width(),
                self.spec_height() == old(self).spec_height(),
                w == self.spec_width() as int,
                s0 == old(self)@,
                v == packed(color),
                full == (|px: int, py: int| on_circle(cx as int, cy as int, r as int, px, py)),
                r >= 0,
                x <= y + 2,
                circle_run_fits(cx as int, cy as int, x as int, y as int, d as int),
                forall|px: int, py: int|
                    #[trigger] full(px, py) == (done(px, py) || circle_visits(
                        cx as int,
                        cy as int,
                        x as int,
                        y as int,
                        d as int,
                        px,
                        py,
                    )),
                self@ == paint(s0, w, done, v),
            decreases y - x + 2,
        {
            self.plot_circle_points(cx, cy, x, y, v);
            let ghost (px0, py0, pd) = (x as int, y as int, d as int);
            proof {
                let d0 = done;
                let m = |px: int, py: int| mirrored(cx as int, cy as int, px0, py0, px, py);
                lemma_paint_union(s0, w, d0, m, v);
                done = |px: int, py: int| d0(px, py) || m(px, py);
            }
            x = x + 1;
            if d < 0 {
                d = d + (2 * x + 1);
            } else {
                y = y - 1;
                d = d + (2 * (x - y) + 1);
            }
            proof {
                assert forall|px: int, py: int| #[trigger] full(px, py) == (done(px, py) || circle_visits(
                    cx as int,
                    cy as int,
                    x as int,
                    y as int,
                    d as int,
                    px,
                    py,
                )) by {
                    assert(circle_visits(cx as int, cy as int, px0, py0, pd, px, py) == (mirrored(
                        cx as int,
                        cy as int,
                        px0,
                        py0,
                        px,
                        py,
                    ) || circle_visits(cx as int, cy as int, x as int, y as int, d as int, px, py)));
                }
            }
        }
        proof {
            assert forall|px: int, py: int| #[trigger] full(px, py) == done(px, py) by {
                assert(!circle_visits(cx as int, cy as int, x as int, y as int, d as int, px, py));
            }
            lemma_paint_same(s0, w, done, full, v);
        }
    }

    /// Fills the circle of radius `r` around `(cx, cy)`: at each step of the midpoint
    /// algorithm four horizontal spans; nothing for a negative radius.
    pub fn fill_circle(&mut self, cx: i32, cy: i32, r: i32, color: Color)
        requires
            disc_fits(cx as int, cy as int, r as int),
        ensures
            final(self).spec_width() == old(self).spec_width(),
            final(self).spec_height() == old(self).spec_height(),
            final(self)@ == paint(
                old(self)@,
                old(self).spec_width() as int,
                |px: int, py: int| on_disc(cx as int, cy as int, r as int, px, py),
                packed(color),
            ),
    {
        let ghost w = self.spec_width() as int;
        let ghost s0 = old(self)@;
        let ghost v = packed(color);
        let ghost full = |px: int, py: int| on_disc(cx as int, cy as int, r as int, px, py);
        if r < 0 {
            assert(self@ =~= paint(s0, w, full, v));
            return ;
        }
        let mut x: i32 = 0;
        let mut y: i32 = r;
        let mut d: i32 = 1 - r;
        let ghost mut done: spec_fn(int, int) -> bool = |px: int, py: int| false;
        assert(self@ =~= paint(s0, w, done, v));
        while x <= y
            invariant
                self.spec_width() == old(self).spec_width(),
                self.spec_height() == old(self).spec_height(),
                w == self.spec_width() as int,
                s0 == old(self)@,
                v == packed(color),
                full == (|px: int, py: int| on_disc(cx as int, cy as int, r as int, px, py)),
                r >= 0,
                x <= y + 2,
                disc_run_fits(cx as int, cy as int, x as int, y as int, d as int),
                forall|px: int, py: int|
                    #[trigger] full(px, py) == (done(px, py) || disc_visits(
                        cx as int,
                        cy as int,
                        x as int,
                        y as int,
                        d as int,
                        px,
                        py,
                    )),
                self@ == paint(s0, w, done, v),
            decreases y - x + 2,
        {
            let ghost (gx, gy, gd) = (x as int, y as int, d as int);
            let ghost (gcx, gcy) = (cx as int, cy as int);
            let ghost l1 = |px: int, py: int| on_line(gcx - gx, gcy + gy, gcx + gx, gcy + gy, px, py);
            let ghost l2 = |px: int, py: int| on_line(gcx - gx, gcy - gy, gcx + gx, gcy - gy, px, py);
            let ghost l3 = |px: int, py: int| on_line(gcx - gy, gcy + gx, gcx + gy, gcy + gx, px, py);
            let ghost l4 = |px: int, py: int| on_line(gcx - gy, gcy - gx, gcx + gy, gcy - gx, px, py);
            self.draw_line(cx - x, cy + y, cx + x, cy + y, color);
            self.draw_line(cx - x, cy - y, cx + x, cy - y, color);
            self.draw_line(cx - y, cy + x, cx + y, cy + x, color);
            self.draw_line(cx - y, cy - x, cx + y, cy - x, color);
            proof {
                let d0 = done;
                lemma_paint_union(s0, w, d0, l1, v);
                let a = |px: int, py: int| d0(px, py) || l1(px, py);
                lemma_paint_union(s0, w, a, l2, v);
                let b = |px: int, py: int| a(px, py) || l2(px, py);
                lemma_paint_union(s0, w, b, l3, v);
                let c = |px: int, py: int| b(px, py) || l3(px, py);
                lemma_paint_union(s0, w, c, l4, v);
                done = |px: int, py: int| c(px, py) || l4(px, py);
            }
            x = x + 1;
            if d < 0 {
                d = d + (2 * x + 1);
            } else {
                y = y - 1;
                d = d + (2 * (x - y) + 1);
            }
            proof {
                assert forall|px: int, py: int| #[trigger] full(px, py) == (done(px, py) || disc_visits(
                    cx as int,
                    cy as int,
                    x as int,
                    y as int,
                    d as int,
                    px,
                    py,
                )) by {
                    assert(disc_visits(gcx, gcy, gx, gy, gd, px, py) == (l1(px, py) || l2(px, py) || l3(
                        px,
                        py,
                    ) || l4(px, py) || disc_visits(
                        gcx,
                        gcy,
                        x as int,
                        y as int,
                        d as int,
                        px,
                        py,
                    )));
                }
            }
        }
        proof {
            assert forall|px: int, py: int| #[trigger] full(px, py) == done(px, py) by {
                assert(!disc_visits(cx as int, cy as int, x as int, y as int, d as int, px, py));
            }
            lemma_paint_same(s0, w, done, full, v);
        }
    }
}

/// When the clipped part of `r` is drawn into (it has rows), it lies inside the
/// framebuffer and runs forward.
proof fn lemma_clip_inside(r: Rect, w: u32, h: u32)
    requires
        r.spec_clip(bounds(w, h)) is Some,
        clip_in_order(r, w, h),
    ensures
        ({
            let c = r.spec_clip(bounds(w, h))->0;
            c.h > 0 ==> c.x >= 0 && c.y >= 0 && c.x + c.w <= w && c.y + c.h <= h
                && c.x + c.w <= i32::MAX && c.y + c.h <= i32::MAX
        }),
{
}

/// When the clipped part of a source rectangle has rows, it lies inside the source.
proof fn lemma_clip_source(r: Rect, w: u32, h: u32)
    requires
        r.spec_clip(bounds(w, h)) is Some,
        clip_in_order(r, w, h),
    ensures
        ({
            let c = r.spec_clip(bounds(w, h))->0;
            c.h > 0 ==> r.x <= c.x && r.y <= c.y && c.x + c.w <= r.x + r.w && c.y + c.h <= r.y
                + r.h && r.w <= i32::MAX && r.h <= i32::MAX
        }),
{
}

} // verus!

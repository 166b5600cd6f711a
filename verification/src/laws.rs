//! Properties that relate several operations of the library.
use vstd::prelude::*;
use crate::color::{Color, packed, unpacked, scale255, lemma_unpack_pack};
use crate::rect::{Rect, max_int};
use crate::raster::{
    on_line, abs_int, line_err0, line_fuel, line_step, line_visits, lemma_line_step, on_circle,
    circle_visits, circle_step, on_disc, disc_visits, mirrored,
};
use crate::framebuffer::{
    pixel_at, with_pixel, pixel_index, lemma_index_coords, lemma_coords, paint, filled_rect, composite,
    on_rect_outline, fill_covers, span_start,
};
use vstd::arithmetic::div_mod::lemma_fundamental_div_mod_converse;
use crate::drawlist::{run_commands, command_fits, DrawList};
use crate::framebuffer::Framebuffer;
use crate::tilemap::{cell_value, with_cell, in_grid, row_holds};

verus! {

// ---------------------------------------------------------------------------
// Framebuffer reads and writes
// ---------------------------------------------------------------------------

/// Reading a pixel after writing one gives the written colour at the written point (when it
/// lies inside the image) and what was there before everywhere else.
pub proof fn law_pixel_read_after_write(
    cells: Seq<u32>,
    w: u32,
    h: u32,
    x: int,
    y: int,
    c: Color,
    qx: int,
    qy: int,
)
    requires
        cells.len() == w as int * h as int,
    ensures
        pixel_at(with_pixel(cells, w, h, x, y, c), w, h, qx, qy) == if qx == x && qy == y && 0 <= x
            < w && 0 <= y < h {
            c
        } else {
            pixel_at(cells, w, h, qx, qy)
        },
{
    let i = pixel_index(w as int, x, y);
    let j = pixel_index(w as int, qx, qy);
    let inside = 0 <= x < w && 0 <= y < h;
    let q_inside = 0 <= qx < w && 0 <= qy < h;
    lemma_unpack_pack(c);
    if inside && q_inside {
        assert(0 <= i < cells.len() && 0 <= j < cells.len() && (i == j <==> (x == qx && y == qy)))
            by {
            lemma_distinct_indices(w as int, h as int, x, y, qx, qy);
        }
        let after = cells.update(i, packed(c));
        assert(with_pixel(cells, w, h, x, y, c) == after);
        if i == j {
            assert(after[j] == packed(c));
        } else {
            assert(after[j] == cells[j]);
        }
    }
}

/// Distinct pixels of an image have distinct indices.
proof fn lemma_distinct_indices(w: int, h: int, x: int, y: int, qx: int, qy: int)
    requires
        0 <= x < w,
        0 <= y < h,
        0 <= qx < w,
        0 <= qy < h,
    ensures
        0 <= pixel_index(w, x, y) < w * h,
        0 <= pixel_index(w, qx, qy) < w * h,
        pixel_index(w, x, y) == pixel_index(w, qx, qy) <==> (x == qx && y == qy),
{
    lemma_index_coords(w, h, x, y);
    lemma_index_coords(w, h, qx, qy);
}

/// After clearing, every pixel inside the image reads as the clearing colour.
pub proof fn law_clear_reads_back(cells: Seq<u32>, w: u32, h: u32, c: Color, x: int, y: int)
    requires
        cells.len() == w as int * h as int,
        0 <= x < w,
        0 <= y < h,
    ensures
        pixel_at(Seq::new(cells.len(), |i: int| packed(c)), w, h, x, y) == c,
{
    lemma_index_coords(w as int, h as int, x, y);
    lemma_unpack_pack(c);
}

/// Every pixel of a new framebuffer, inside or outside it, reads as fully transparent.
pub proof fn law_new_is_transparent(w: u32, h: u32, x: int, y: int)
    ensures
        pixel_at(Seq::new(w as nat * h as nat, |i: int| 0u32), w, h, x, y) == (Color {
            r: 0,
            g: 0,
            b: 0,
            a: 0,
        }),
{
    if 0 <= x < w && 0 <= y < h {
        lemma_index_coords(w as int, h as int, x, y);
    }
}

// ---------------------------------------------------------------------------
// Rectangles
// ---------------------------------------------------------------------------

/// Clipping does not depend on the order of the two rectangles, nor does the overlap test.
pub proof fn law_clip_symmetric(a: Rect, b: Rect)
    ensures
        a.spec_intersects(b) == b.spec_intersects(a),
        a.spec_clip(b) == b.spec_clip(a),
{
}

/// For rectangles whose extents are below 2^31 (so that they read as themselves), the
/// clipped rectangle covers exactly the points that both cover, and there is no such point
/// when clipping gives `None`.
pub proof fn law_clip_is_intersection(a: Rect, b: Rect, px: int, py: int)
    requires
        a.w <= i32::MAX && a.h <= i32::MAX && a.edges_fit(),
        b.w <= i32::MAX && b.h <= i32::MAX && b.edges_fit(),
    ensures
        match a.spec_clip(b) {
            Some(c) => c.spec_contains(px, py) == (a.spec_contains(px, py) && b.spec_contains(
                px,
                py,
            )),
            None => !(a.spec_contains(px, py) && b.spec_contains(px, py)),
        },
{
}

/// Filling a rectangle whose extents are below 2^31 paints exactly its points that lie in
/// the framebuffer.
pub proof fn law_fill_rect_paints_rect(cells: Seq<u32>, w: u32, h: u32, rect: Rect, c: Color)
    requires
        cells.len() == w as int * h as int,
        w <= i32::MAX && h <= i32::MAX,
        rect.w <= i32::MAX && rect.h <= i32::MAX && rect.edges_fit(),
    ensures
        filled_rect(cells, w, h, rect, c) == paint(
            cells,
            w as int,
            |px: int, py: int| rect.spec_contains(px, py),
            packed(c),
        ),
{
    let fb = Rect { x: 0, y: 0, w, h };
    let wi = w as int;
    let inside = |px: int, py: int| rect.spec_contains(px, py);
    assert forall|i: int| 0 <= i < cells.len() implies filled_rect(cells, w, h, rect, c)[i] == paint(
        cells,
        wi,
        inside,
        packed(c),
    )[i] by {
        lemma_coords(i, wi, h as int);
        let x = i % wi;
        let y = i / wi;
        law_clip_is_intersection(rect, fb, x, y);
        match rect.spec_clip(fb) {
            Some(k) => {
                if fill_covers(k, wi, i) {
                    let r = choose|r: int|
                        0 <= r < k.h && #[trigger] span_start(k, wi, r) <= i < span_start(k, wi, r) + k.w;
                    lemma_run_row(k, wi, r, i);
                } else {
                    if k.x <= x < k.x + k.w && k.y <= y < k.y + k.h {
                        assert(span_start(k, wi, y - k.y) <= i < span_start(k, wi, y - k.y) + k.w);
                    }
                }
            },
            None => {},
        }
    }
    assert(filled_rect(cells, w, h, rect, c) =~= paint(cells, wi, inside, packed(c)));
}

/// A stored pixel of a run that stays within its row lies in that row.
proof fn lemma_run_row(k: Rect, w: int, r: int, i: int)
    requires
        w > 0,
        k.x >= 0,
        k.x + k.w <= w,
        k.y + r >= 0,
        span_start(k, w, r) <= i < span_start(k, w, r) + k.w,
    ensures
        i / w == k.y + r,
        k.x <= i % w < k.x + k.w,
{
    lemma_fundamental_div_mod_converse(i, w, k.y + r, i - (k.y + r) * w);
}

// ---------------------------------------------------------------------------
// Compositing
// ---------------------------------------------------------------------------

/// An opaque source pixel replaces the destination pixel and a fully transparent one leaves
/// it as it was.
pub proof fn law_composite_extremes(dst: u32, src: u32)
    ensures
        unpacked(src).a == 255 ==> composite(dst, src) == src,
        unpacked(src).a == 0 ==> composite(dst, src) == dst,
{
}

/// Premultiplying by full alpha keeps a channel, by zero alpha clears it.
pub proof fn law_premultiply_extremes(x: u8)
    ensures
        scale255(x, 255) == x,
        scale255(x, 0) == 0,
{
}

// ---------------------------------------------------------------------------
// Lines
// ---------------------------------------------------------------------------

/// The position after `xs` steps along x and `ys` steps along y from `(x0, y0)` towards
/// `(x1, y1)`, and the error term there.
spec fn run_state(x0: int, y0: int, x1: int, y1: int, xs: int, ys: int) -> (int, int, int) {
    let cx = if x0 < x1 {
        x0 + xs
    } else {
        x0 - xs
    };
    let cy = if y0 < y1 {
        y0 + ys
    } else {
        y0 - ys
    };
    (cx, cy, (1 + ys) * abs_int(x1 - x0) - (1 + xs) * abs_int(y1 - y0))
}

/// A run that has not overshot the end point reaches it within its fuel.
proof fn lemma_run_reaches_end(x0: int, y0: int, x1: int, y1: int, xs: int, ys: int, fuel: nat)
    requires
        0 <= xs <= abs_int(x1 - x0),
        0 <= ys <= abs_int(y1 - y0),
        fuel >= (abs_int(x1 - x0) - xs) + (abs_int(y1 - y0) - ys),
    ensures
        ({
            let (cx, cy, err) = run_state(x0, y0, x1, y1, xs, ys);
            line_visits(x0, y0, x1, y1, cx, cy, err, fuel, x1, y1)
        }),
    decreases (abs_int(x1 - x0) - xs) + (abs_int(y1 - y0) - ys),
{
    let (cx, cy, err) = run_state(x0, y0, x1, y1, xs, ys);
    if !(cx == x1 && cy == y1) {
        let next = lemma_run_next(x0, y0, x1, y1, xs, ys);
        lemma_run_reaches_end(x0, y0, x1, y1, next.0, next.1, (fuel - 1) as nat);
    }
}

/// A line covers both of its end points.
pub proof fn law_line_covers_ends(x0: int, y0: int, x1: int, y1: int)
    ensures
        on_line(x0, y0, x1, y1, x0, y0),
        on_line(x0, y0, x1, y1, x1, y1),
{
    assert(run_state(x0, y0, x1, y1, 0, 0) == (x0, y0, line_err0(x0, y0, x1, y1))) by (
    nonlinear_arith);
    lemma_run_reaches_end(x0, y0, x1, y1, 0, 0, line_fuel(x0, y0, x1, y1));
}

/// `v` lies between `a` and `b`, both included, in either order.
pub open spec fn between(a: int, b: int, v: int) -> bool {
    (a <= v <= b) || (b <= v <= a)
}

/// The coordinate `k` steps from `a` towards `b`.
spec fn toward(a: int, b: int, k: int) -> int {
    if a < b {
        a + k
    } else {
        a - k
    }
}

proof fn lemma_horizontal_run(x0: int, x1: int, y: int, xs: int, fuel: nat, px: int, py: int)
    requires
        0 <= xs <= abs_int(x1 - x0),
        fuel >= abs_int(x1 - x0) - xs,
    ensures
        line_visits(x0, y, x1, y, toward(x0, x1, xs), y, abs_int(x1 - x0), fuel, px, py) == (py
            == y && between(toward(x0, x1, xs), x1, px)),
    decreases abs_int(x1 - x0) - xs,
{
    let cx = toward(x0, x1, xs);
    if cx == px && y == py {
    } else if cx == x1 {
    } else {
        assert(line_step(x0, y, x1, y, cx, y, abs_int(x1 - x0)) == (
            toward(x0, x1, xs + 1),
            y,
            abs_int(x1 - x0),
        ));
        lemma_horizontal_run(x0, x1, y, xs + 1, (fuel - 1) as nat, px, py);
    }
}

proof fn lemma_vertical_run(x: int, y0: int, y1: int, ys: int, fuel: nat, px: int, py: int)
    requires
        0 <= ys <= abs_int(y1 - y0),
        fuel >= abs_int(y1 - y0) - ys,
    ensures
        line_visits(x, y0, x, y1, x, toward(y0, y1, ys), -abs_int(y1 - y0), fuel, px, py) == (px
            == x && between(toward(y0, y1, ys), y1, py)),
    decreases abs_int(y1 - y0) - ys,
{
    let cy = toward(y0, y1, ys);
    if x == px && cy == py {
    } else if cy == y1 {
    } else {
        assert(line_step(x, y0, x, y1, x, cy, -abs_int(y1 - y0)) == (
            x,
            toward(y0, y1, ys + 1),
            -abs_int(y1 - y0),
        ));
        lemma_vertical_run(x, y0, y1, ys + 1, (fuel - 1) as nat, px, py);
    }
}

/// The state that follows `run_state(.., xs, ys)` in a run that has not reached its end,
/// given by the steps taken along each axis.
proof fn lemma_run_next(x0: int, y0: int, x1: int, y1: int, xs: int, ys: int) -> (next: (
    int,
    int,
))
    requires
        0 <= xs <= abs_int(x1 - x0),
        0 <= ys <= abs_int(y1 - y0),
        !(xs == abs_int(x1 - x0) && ys == abs_int(y1 - y0)),
    ensures
        xs <= next.0 <= abs_int(x1 - x0),
        ys <= next.1 <= abs_int(y1 - y0),
        next.0 + next.1 > xs + ys,
        ({
            let (cx, cy, err) = run_state(x0, y0, x1, y1, xs, ys);
            line_step(x0, y0, x1, y1, cx, cy, err) == run_state(x0, y0, x1, y1, next.0, next.1)
        }),
{
    let dx = abs_int(x1 - x0);
    let dy = abs_int(y1 - y0);
    let (cx, cy, err) = run_state(x0, y0, x1, y1, xs, ys);
    lemma_line_step(dx, dy, xs, ys, err);
    let xs2 = if 2 * err >= -dy {
        xs + 1
    } else {
        xs
    };
    let ys2 = if 2 * err <= dx {
        ys + 1
    } else {
        ys
    };
    let (ncx, ncy, nerr) = line_step(x0, y0, x1, y1, cx, cy, err);
    assert(nerr == (1 + ys2) * dx - (1 + xs2) * dy) by (nonlinear_arith)
        requires
            err == (1 + ys) * dx - (1 + xs) * dy,
            nerr == err + (if 2 * err >= -dy { -dy } else { 0 }) + (if 2 * err <= dx {
                dx
            } else {
                0
            }),
            xs2 == xs + (if 2 * err >= -dy { 1int } else { 0 }),
            ys2 == ys + (if 2 * err <= dx { 1int } else { 0 }),
    ;
    (xs2, ys2)
}

proof fn lemma_run_in_box(
    x0: int,
    y0: int,
    x1: int,
    y1: int,
    xs: int,
    ys: int,
    fuel: nat,
    px: int,
    py: int,
)
    requires
        0 <= xs <= abs_int(x1 - x0),
        0 <= ys <= abs_int(y1 - y0),
        ({
            let (cx, cy, err) = run_state(x0, y0, x1, y1, xs, ys);
            line_visits(x0, y0, x1, y1, cx, cy, err, fuel, px, py)
        }),
    ensures
        between(x0, x1, px),
        between(y0, y1, py),
    decreases fuel,
{
    let (cx, cy, err) = run_state(x0, y0, x1, y1, xs, ys);
    if cx == px && cy == py {
    } else {
        let next = lemma_run_next(x0, y0, x1, y1, xs, ys);
        lemma_run_in_box(x0, y0, x1, y1, next.0, next.1, (fuel - 1) as nat, px, py);
    }
}

/// Every point of a line lies in the box spanned by its two end points.
pub proof fn law_line_in_box(x0: int, y0: int, x1: int, y1: int, px: int, py: int)
    requires
        on_line(x0, y0, x1, y1, px, py),
    ensures
        between(x0, x1, px),
        between(y0, y1, py),
{
    assert(run_state(x0, y0, x1, y1, 0, 0) == (x0, y0, line_err0(x0, y0, x1, y1))) by (
    nonlinear_arith);
    lemma_run_in_box(x0, y0, x1, y1, 0, 0, line_fuel(x0, y0, x1, y1), px, py);
}

/// In a run whose major axis is x, the deviation `ys * dx - xs * dy` of step state
/// `(xs, ys)` from the exact line stays within half of `dx` either way.
spec fn x_major_inv(dx: int, dy: int, xs: int, ys: int) -> bool {
    &&& 0 <= dy <= dx
    &&& 0 <= xs <= dx
    &&& 0 <= ys <= dy
    &&& -dx <= 2 * (ys * dx - xs * dy) <= dx
    &&& 0 < dx ==> -dx < 2 * (ys * dx - xs * dy)
}

/// A step of a run whose major axis is x always moves one column along x.
proof fn lemma_x_major_step(x0: int, y0: int, x1: int, y1: int, xs: int, ys: int) -> (next: (
    int,
    int,
))
    requires
        x_major_inv(abs_int(x1 - x0), abs_int(y1 - y0), xs, ys),
        !(xs == abs_int(x1 - x0) && ys == abs_int(y1 - y0)),
    ensures
        next.0 == xs + 1,
        x_major_inv(abs_int(x1 - x0), abs_int(y1 - y0), next.0, next.1),
        ({
            let (cx, cy, err) = run_state(x0, y0, x1, y1, xs, ys);
            line_step(x0, y0, x1, y1, cx, cy, err) == run_state(x0, y0, x1, y1, next.0, next.1)
        }),
{
    let dx = abs_int(x1 - x0);
    let dy = abs_int(y1 - y0);
    let f = ys * dx - xs * dy;
    let err = (1 + ys) * dx - (1 + xs) * dy;
    assert(err == f + dx - dy) by (nonlinear_arith)
        requires
            f == ys * dx - xs * dy,
            err == (1 + ys) * dx - (1 + xs) * dy,
    ;
    let next = lemma_run_next(x0, y0, x1, y1, xs, ys);
    let nf = next.1 * dx - next.0 * dy;
    assert(nf == f + (next.1 - ys) * dx - (next.0 - xs) * dy) by (nonlinear_arith)
        requires
            f == ys * dx - xs * dy,
            nf == next.1 * dx - next.0 * dy,
    ;
    if next.1 == ys + 1 {
        assert((next.1 - ys) * dx == dx) by (nonlinear_arith)
            requires
                next.1 == ys + 1,
        ;
    } else {
        assert((next.1 - ys) * dx == 0) by (nonlinear_arith)
            requires
                next.1 == ys,
        ;
    }
    if next.0 == xs + 1 {
        assert((next.0 - xs) * dy == dy) by (nonlinear_arith)
            requires
                next.0 == xs + 1,
        ;
    } else {
        assert((next.0 - xs) * dy == 0) by (nonlinear_arith)
            requires
                next.0 == xs,
        ;
    }
    next
}

/// From step state `(xs, ys)` of a run whose major axis is x, a visited point lies in a
/// column not before the current one, and in the current column only at the current point.
proof fn lemma_x_major_visits(
    x0: int,
    y0: int,
    x1: int,
    y1: int,
    xs: int,
    ys: int,
    fuel: nat,
    px: int,
    py: int,
)
    requires
        x_major_inv(abs_int(x1 - x0), abs_int(y1 - y0), xs, ys),
        ({
            let (cx, cy, err) = run_state(x0, y0, x1, y1, xs, ys);
            line_visits(x0, y0, x1, y1, cx, cy, err, fuel, px, py)
        }),
    ensures
        ({
            let (cx, cy, err) = run_state(x0, y0, x1, y1, xs, ys);
            between(cx, x1, px) && (px == cx ==> py == cy)
        }),
        x_major_inv(abs_int(x1 - x0), abs_int(y1 - y0), abs_int(px - x0), abs_int(py - y0)),
    decreases fuel,
{
    let (cx, cy, err) = run_state(x0, y0, x1, y1, xs, ys);
    if !(cx == px && cy == py) {
        let next = lemma_x_major_step(x0, y0, x1, y1, xs, ys);
        lemma_x_major_visits(x0, y0, x1, y1, next.0, next.1, (fuel - 1) as nat, px, py);
    }
}

proof fn lemma_x_major_unique(
    x0: int,
    y0: int,
    x1: int,
    y1: int,
    xs: int,
    ys: int,
    fuel: nat,
    px: int,
    py: int,
    qy: int,
)
    requires
        x_major_inv(abs_int(x1 - x0), abs_int(y1 - y0), xs, ys),
        ({
            let (cx, cy, err) = run_state(x0, y0, x1, y1, xs, ys);
            line_visits(x0, y0, x1, y1, cx, cy, err, fuel, px, py) && line_visits(
                x0,
                y0,
                x1,
                y1,
                cx,
                cy,
                err,
                fuel,
                px,
                qy,
            )
        }),
    ensures
        py == qy,
    decreases fuel,
{
    let (cx, cy, err) = run_state(x0, y0, x1, y1, xs, ys);
    lemma_x_major_visits(x0, y0, x1, y1, xs, ys, fuel, px, py);
    lemma_x_major_visits(x0, y0, x1, y1, xs, ys, fuel, px, qy);
    if px != cx {
        let next = lemma_x_major_step(x0, y0, x1, y1, xs, ys);
        lemma_x_major_unique(x0, y0, x1, y1, next.0, next.1, (fuel - 1) as nat, px, py, qy);
    }
}

proof fn lemma_x_major_covers(
    x0: int,
    y0: int,
    x1: int,
    y1: int,
    xs: int,
    ys: int,
    fuel: nat,
    k: int,
) -> (y: int)
    requires
        x_major_inv(abs_int(x1 - x0), abs_int(y1 - y0), xs, ys),
        xs <= k <= abs_int(x1 - x0),
        fuel >= abs_int(x1 - x0) - xs,
    ensures
        ({
            let (cx, cy, err) = run_state(x0, y0, x1, y1, xs, ys);
            line_visits(x0, y0, x1, y1, cx, cy, err, fuel, toward(x0, x1, k), y)
        }),
    decreases k - xs,
{
    let (cx, cy, err) = run_state(x0, y0, x1, y1, xs, ys);
    if k == xs {
        cy
    } else {
        let next = lemma_x_major_step(x0, y0, x1, y1, xs, ys);
        lemma_x_major_covers(x0, y0, x1, y1, next.0, next.1, (fuel - 1) as nat, k)
    }
}

/// A line that runs at least as far along x as along y has exactly one point in each column
/// between its ends (and none outside them): `|x1 - x0| + 1` points in all.
pub proof fn law_line_one_per_column(x0: int, y0: int, x1: int, y1: int, c: int, py: int, qy: int)
    requires
        abs_int(y1 - y0) <= abs_int(x1 - x0),
    ensures
        between(x0, x1, c) ==> exists|y: int| #[trigger] on_line(x0, y0, x1, y1, c, y),
        on_line(x0, y0, x1, y1, c, py) && on_line(x0, y0, x1, y1, c, qy) ==> py == qy,
{
    let dx = abs_int(x1 - x0);
    let dy = abs_int(y1 - y0);
    let fuel = line_fuel(x0, y0, x1, y1);
    assert(run_state(x0, y0, x1, y1, 0, 0) == (x0, y0, line_err0(x0, y0, x1, y1))) by (
    nonlinear_arith);
    assert(x_major_inv(dx, dy, 0, 0)) by (nonlinear_arith)
        requires
            0 <= dy <= dx,
    ;
    if between(x0, x1, c) {
        let k = abs_int(c - x0);
        assert(toward(x0, x1, k) == c);
        let y = lemma_x_major_covers(x0, y0, x1, y1, 0, 0, fuel, k);
        assert(on_line(x0, y0, x1, y1, c, y));
    }
    if on_line(x0, y0, x1, y1, c, py) && on_line(x0, y0, x1, y1, c, qy) {
        lemma_x_major_unique(x0, y0, x1, y1, 0, 0, fuel, c, py, qy);
    }
}

/// In a run whose major axis is y, the deviation `ys * dx - xs * dy` of step state
/// `(xs, ys)` from the exact line stays within half of `dy` either way.
spec fn y_major_inv(dx: int, dy: int, xs: int, ys: int) -> bool {
    &&& 0 <= dx <= dy
    &&& 0 <= xs <= dx
    &&& 0 <= ys <= dy
    &&& -dy <= 2 * (ys * dx - xs * dy) <= dy
    &&& dx < dy ==> 2 * (ys * dx - xs * dy) < dy
}

/// A step of a run whose major axis is y always moves one row along y.
proof fn lemma_y_major_step(x0: int, y0: int, x1: int, y1: int, xs: int, ys: int) -> (next: (
    int,
    int,
))
    requires
        y_major_inv(abs_int(x1 - x0), abs_int(y1 - y0), xs, ys),
        !(xs == abs_int(x1 - x0) && ys == abs_int(y1 - y0)),
    ensures
        next.1 == ys + 1,
        y_major_inv(abs_int(x1 - x0), abs_int(y1 - y0), next.0, next.1),
        ({
            let (cx, cy, err) = run_state(x0, y0, x1, y1, xs, ys);
            line_step(x0, y0, x1, y1, cx, cy, err) == run_state(x0, y0, x1, y1, next.0, next.1)
        }),
{
    let dx = abs_int(x1 - x0);
    let dy = abs_int(y1 - y0);
    let f = ys * dx - xs * dy;
    let err = (1 + ys) * dx - (1 + xs) * dy;
    assert(err == f + dx - dy) by (nonlinear_arith)
        requires
            f == ys * dx - xs * dy,
            err == (1 + ys) * dx - (1 + xs) * dy,
    ;
    let next = lemma_run_next(x0, y0, x1, y1, xs, ys);
    let nf = next.1 * dx - next.0 * dy;
    assert(nf == f + (next.1 - ys) * dx - (next.0 - xs) * dy) by (nonlinear_arith)
        requires
            f == ys * dx - xs * dy,
            nf == next.1 * dx - next.0 * dy,
    ;
    if next.1 == ys + 1 {
        assert((next.1 - ys) * dx == dx) by (nonlinear_arith)
            requires
                next.1 == ys + 1,
        ;
    } else {
        assert((next.1 - ys) * dx == 0) by (nonlinear_arith)
            requires
                next.1 == ys,
        ;
    }
    if next.0 == xs + 1 {
        assert((next.0 - xs) * dy == dy) by (nonlinear_arith)
            requires
                next.0 == xs + 1,
        ;
    } else {
        assert((next.0 - xs) * dy == 0) by (nonlinear_arith)
            requires
                next.0 == xs,
        ;
    }
    next
}

/// From step state `(xs, ys)` of a run whose major axis is y, a visited point lies in a row
/// not before the current one, and in the current row only at the current point.
proof fn lemma_y_major_visits(
    x0: int,
    y0: int,
    x1: int,
    y1: int,
    xs: int,
    ys: int,
    fuel: nat,
    px: int,
    py: int,
)
    requires
        y_major_inv(abs_int(x1 - x0), abs_int(y1 - y0), xs, ys),
        ({
            let (cx, cy, err) = run_state(x0, y0, x1, y1, xs, ys);
            line_visits(x0, y0, x1, y1, cx, cy, err, fuel, px, py)
        }),
    ensures
        ({
            let (cx, cy, err) = run_state(x0, y0, x1, y1, xs, ys);
            between(cy, y1, py) && (py == cy ==> px == cx)
        }),
        y_major_inv(abs_int(x1 - x0), abs_int(y1 - y0), abs_int(px - x0), abs_int(py - y0)),
    decreases fuel,
{
    let (cx, cy, err) = run_state(x0, y0, x1, y1, xs, ys);
    if !(cx == px && cy == py) {
        let next = lemma_y_major_step(x0, y0, x1, y1, xs, ys);
        lemma_y_major_visits(x0, y0, x1, y1, next.0, next.1, (fuel - 1) as nat, px, py);
    }
}

proof fn lemma_y_major_unique(
    x0: int,
    y0: int,
    x1: int,
    y1: int,
    xs: int,
    ys: int,
    fuel: nat,
    px: int,
    qx: int,
    py: int,
)
    requires
        y_major_inv(abs_int(x1 - x0), abs_int(y1 - y0), xs, ys),
        ({
            let (cx, cy, err) = run_state(x0, y0, x1, y1, xs, ys);
            line_visits(x0, y0, x1, y1, cx, cy, err, fuel, px, py) && line_visits(
                x0,
                y0,
                x1,
                y1,
                cx,
                cy,
                err,
                fuel,
                qx,
                py,
            )
        }),
    ensures
        px == qx,
    decreases fuel,
{
    let (cx, cy, err) = run_state(x0, y0, x1, y1, xs, ys);
    lemma_y_major_visits(x0, y0, x1, y1, xs, ys, fuel, px, py);
    lemma_y_major_visits(x0, y0, x1, y1, xs, ys, fuel, qx, py);
    if py != cy {
        let next = lemma_y_major_step(x0, y0, x1, y1, xs, ys);
        lemma_y_major_unique(x0, y0, x1, y1, next.0, next.1, (fuel - 1) as nat, px, qx, py);
    }
}

proof fn lemma_y_major_covers(
    x0: int,
    y0: int,
    x1: int,
    y1: int,
    xs: int,
    ys: int,
    fuel: nat,
    k: int,
) -> (x: int)
    requires
        y_major_inv(abs_int(x1 - x0), abs_int(y1 - y0), xs, ys),
        ys <= k <= abs_int(y1 - y0),
        fuel >= abs_int(y1 - y0) - ys,
    ensures
        ({
            let (cx, cy, err) = run_state(x0, y0, x1, y1, xs, ys);
            line_visits(x0, y0, x1, y1, cx, cy, err, fuel, x, toward(y0, y1, k))
        }),
    decreases k - ys,
{
    let (cx, cy, err) = run_state(x0, y0, x1, y1, xs, ys);
    if k == ys {
        cx
    } else {
        let next = lemma_y_major_step(x0, y0, x1, y1, xs, ys);
        lemma_y_major_covers(x0, y0, x1, y1, next.0, next.1, (fuel - 1) as nat, k)
    }
}

/// A line that runs at least as far along y as along x has exactly one point in each row
/// between its ends (and none outside them): `|y1 - y0| + 1` points in all.
pub proof fn law_line_one_per_row(x0: int, y0: int, x1: int, y1: int, r: int, px: int, qx: int)
    requires
        abs_int(x1 - x0) <= abs_int(y1 - y0),
    ensures
        between(y0, y1, r) ==> exists|x: int| #[trigger] on_line(x0, y0, x1, y1, x, r),
        on_line(x0, y0, x1, y1, px, r) && on_line(x0, y0, x1, y1, qx, r) ==> px == qx,
{
    let dx = abs_int(x1 - x0);
    let dy = abs_int(y1 - y0);
    let fuel = line_fuel(x0, y0, x1, y1);
    assert(run_state(x0, y0, x1, y1, 0, 0) == (x0, y0, line_err0(x0, y0, x1, y1))) by (
    nonlinear_arith);
    assert(y_major_inv(dx, dy, 0, 0)) by (nonlinear_arith)
        requires
            0 <= dx <= dy,
    ;
    if between(y0, y1, r) {
        let k = abs_int(r - y0);
        assert(toward(y0, y1, k) == r);
        let x = lemma_y_major_covers(x0, y0, x1, y1, 0, 0, fuel, k);
        assert(on_line(x0, y0, x1, y1, x, r));
    }
    if on_line(x0, y0, x1, y1, px, r) && on_line(x0, y0, x1, y1, qx, r) {
        lemma_y_major_unique(x0, y0, x1, y1, 0, 0, fuel, px, qx, r);
    }
}

/// Every point of a line lies within half a pixel of the exact segment between its ends,
/// measured across the line's major axis: with `dx = |x1 - x0|`, `dy = |y1 - y0|` and the
/// point `xs` columns and `ys` rows from `(x0, y0)`, `|ys * dx - xs * dy|` is at most
/// `dx / 2` when the line runs at least as far along x, and at most `dy / 2` otherwise.
/// Of two equally near pixels, an x-major line takes the one farther along y and a y-major
/// line the one farther along x, so with one point per column (row) the line is determined.
pub proof fn law_line_near_exact(x0: int, y0: int, x1: int, y1: int, px: int, py: int)
    requires
        on_line(x0, y0, x1, y1, px, py),
    ensures
        ({
            let dx = abs_int(x1 - x0);
            let dy = abs_int(y1 - y0);
            let f = abs_int(py - y0) * dx - abs_int(px - x0) * dy;
            &&& dy <= dx ==> -dx <= 2 * f <= dx
            &&& dx <= dy ==> -dy <= 2 * f <= dy
            &&& dy <= dx && 0 < dx ==> -dx < 2 * f
            &&& dx < dy ==> 2 * f < dy
        }),
{
    let dx = abs_int(x1 - x0);
    let dy = abs_int(y1 - y0);
    let fuel = line_fuel(x0, y0, x1, y1);
    assert(run_state(x0, y0, x1, y1, 0, 0) == (x0, y0, line_err0(x0, y0, x1, y1))) by (
    nonlinear_arith);
    if dy <= dx {
        assert(x_major_inv(dx, dy, 0, 0)) by (nonlinear_arith)
            requires
                0 <= dy <= dx,
        ;
        lemma_x_major_visits(x0, y0, x1, y1, 0, 0, fuel, px, py);
    }
    if dx <= dy {
        assert(y_major_inv(dx, dy, 0, 0)) by (nonlinear_arith)
            requires
                0 <= dx <= dy,
        ;
        lemma_y_major_visits(x0, y0, x1, y1, 0, 0, fuel, px, py);
    }
}

/// A horizontal line covers exactly the points of its row between its ends.
pub proof fn law_horizontal_line(x0: int, x1: int, y: int, px: int, py: int)
    ensures
        on_line(x0, y, x1, y, px, py) == (py == y && between(x0, x1, px)),
{
    lemma_horizontal_run(x0, x1, y, 0, line_fuel(x0, y, x1, y), px, py);
}

/// A vertical line covers exactly the points of its column between its ends.
pub proof fn law_vertical_line(x: int, y0: int, y1: int, px: int, py: int)
    ensures
        on_line(x, y0, x, y1, px, py) == (px == x && between(y0, y1, py)),
{
    lemma_vertical_run(x, y0, y1, 0, line_fuel(x, y0, x, y1), px, py);
}

/// The outline of a non-empty rectangle is exactly the border of the box from its corner
/// `(x, y)` to its far corner `(x + w - 1, y + h - 1)`: the points of the first and last row
/// and of the first and last column.
pub proof fn law_rect_outline_is_border(rect: Rect, px: int, py: int)
    requires
        rect.w != 0,
        rect.h != 0,
    ensures
        on_rect_outline(rect, px, py) == {
            let x0 = rect.x as int;
            let y0 = rect.y as int;
            let x1 = rect.right() - 1;
            let y1 = rect.bottom() - 1;
            ||| (py == y0 || py == y1) && between(x0, x1, px)
            ||| (px == x0 || px == x1) && between(y0, y1, py)
        },
{
    let x0 = rect.x as int;
    let y0 = rect.y as int;
    let x1 = rect.right() - 1;
    let y1 = rect.bottom() - 1;
    law_horizontal_line(x0, x1, y0, px, py);
    law_horizontal_line(x0, x1, y1, px, py);
    law_vertical_line(x0, y0, y1, px, py);
    law_vertical_line(x1, y0, y1, px, py);
}

// ---------------------------------------------------------------------------
// Circles
// ---------------------------------------------------------------------------

/// The outline of a circle passes through the four points at distance `r` straight left,
/// right, above and below the centre.
pub proof fn law_circle_cardinal_points(cx: int, cy: int, r: int)
    requires
        r >= 0,
    ensures
        on_circle(cx, cy, r, cx + r, cy),
        on_circle(cx, cy, r, cx - r, cy),
        on_circle(cx, cy, r, cx, cy + r),
        on_circle(cx, cy, r, cx, cy - r),
{
}

proof fn lemma_circle_run_misses_center(cx: int, cy: int, x: int, y: int, d: int)
    requires
        x >= 1 || (x == 0 && y >= 1),
    ensures
        !circle_visits(cx, cy, x, y, d, cx, cy),
    decreases y - x + 2,
{
    if x <= y {
        let (nx, ny, nd) = circle_step(x, y, d);
        lemma_circle_run_misses_center(cx, cy, nx, ny, nd);
    }
}

/// The outline of a circle of positive radius leaves its centre alone.
pub proof fn law_circle_misses_center(cx: int, cy: int, r: int)
    requires
        r >= 1,
    ensures
        !on_circle(cx, cy, r, cx, cy),
{
    lemma_circle_run_misses_center(cx, cy, 0, r, 1 - r);
}

/// A filled circle covers its centre.
pub proof fn law_disc_covers_center(cx: int, cy: int, r: int)
    requires
        r >= 0,
    ensures
        on_disc(cx, cy, r, cx, cy),
{
    law_horizontal_line(cx - r, cx + r, cy, cx, cy);
}

proof fn lemma_disc_run_bounded(cx: int, cy: int, r: int, x: int, y: int, d: int, px: int, py: int)
    requires
        0 <= x,
        y <= r,
        disc_visits(cx, cy, x, y, d, px, py),
    ensures
        abs_int(px - cx) <= r && abs_int(py - cy) <= r,
    decreases y - x + 2,
{
    if x <= y {
        let (nx, ny, nd) = circle_step(x, y, d);
        law_horizontal_line(cx - x, cx + x, cy + y, px, py);
        law_horizontal_line(cx - x, cx + x, cy - y, px, py);
        law_horizontal_line(cx - y, cx + y, cy + x, px, py);
        law_horizontal_line(cx - y, cx + y, cy - x, px, py);
        if disc_visits(cx, cy, nx, ny, nd, px, py) {
            lemma_disc_run_bounded(cx, cy, r, nx, ny, nd, px, py);
        }
    }
}

/// A filled circle stays within the square of half-width `r` around its centre.
pub proof fn law_disc_within_square(cx: int, cy: int, r: int, px: int, py: int)
    requires
        on_disc(cx, cy, r, px, py),
    ensures
        abs_int(px - cx) <= r && abs_int(py - cy) <= r,
{
    lemma_disc_run_bounded(cx, cy, r, 0, r, 1 - r, px, py);
}

/// The state `(x, y, d)` of a midpoint run for radius `r`: `d` is the decision variable of
/// the octant offset `(x, y)`, and an offset that is still to be plotted lies within `y` of
/// the exact circle (measured in squared distance).
spec fn circle_inv(r: int, x: int, y: int, d: int) -> bool {
    let f = x * x + y * y - r * r;
    &&& 0 <= x
    &&& y <= r
    &&& d == f + 2 * x - y + 1
    &&& x <= y ==> -y <= f <= y
    &&& x <= y && 0 < y ==> f < y
}

proof fn lemma_circle_inv_start(r: int)
    requires
        r >= 0,
    ensures
        circle_inv(r, 0, r, 1 - r),
{
    assert(0int * 0 + r * r - r * r == 0) by (nonlinear_arith);
}

proof fn lemma_circle_inv_step(r: int, x: int, y: int, d: int)
    requires
        circle_inv(r, x, y, d),
        x <= y,
    ensures
        ({
            let (nx, ny, nd) = circle_step(x, y, d);
            circle_inv(r, nx, ny, nd) && nx == x + 1 && (ny == y || ny == y - 1)
        }),
{
    let f = x * x + y * y - r * r;
    let (nx, ny, nd) = circle_step(x, y, d);
    let nf = nx * nx + ny * ny - r * r;
    if d < 0 {
        assert(nf == f + 2 * x + 1) by (nonlinear_arith)
            requires
                nx == x + 1,
                ny == y,
                f == x * x + y * y - r * r,
                nf == nx * nx + ny * ny - r * r,
        ;
    } else {
        assert(nf == f + 2 * x - 2 * y + 2) by (nonlinear_arith)
            requires
                nx == x + 1,
                ny == y - 1,
                f == x * x + y * y - r * r,
                nf == nx * nx + ny * ny - r * r,
        ;
    }
}

/// `a * a + b * b` for an offset `(a, b)` that is one of the eight mirror images of `(x, y)`.
proof fn lemma_mirror_distance(x: int, y: int, a: int, b: int)
    requires
        mirrored(0, 0, x, y, a, b),
    ensures
        a * a + b * b == x * x + y * y,
{
    assert(a * a + b * b == x * x + y * y) by (nonlinear_arith)
        requires
            ((a == x || a == -x) && (b == y || b == -y)) || ((a == y || a == -y) && (b == x || b
                == -x)),
    ;
}

proof fn lemma_circle_run_ring(
    cx: int,
    cy: int,
    r: int,
    x: int,
    y: int,
    d: int,
    px: int,
    py: int,
)
    requires
        circle_inv(r, x, y, d),
        circle_visits(cx, cy, x, y, d, px, py),
    ensures
        r * r - r <= (px - cx) * (px - cx) + (py - cy) * (py - cy) <= r * r + r,
        ({
            let m = max_int(abs_int(px - cx), abs_int(py - cy));
            &&& -m <= (px - cx) * (px - cx) + (py - cy) * (py - cy) - r * r <= m
            &&& 0 < m ==> (px - cx) * (px - cx) + (py - cy) * (py - cy) - r * r < m
        }),
    decreases y - x + 2,
{
    let (nx, ny, nd) = circle_step(x, y, d);
    if mirrored(cx, cy, x, y, px, py) {
        lemma_mirror_distance(x, y, px - cx, py - cy);
        assert(max_int(abs_int(px - cx), abs_int(py - cy)) == y);
    } else {
        lemma_circle_inv_step(r, x, y, d);
        lemma_circle_run_ring(cx, cy, r, nx, ny, nd, px, py);
    }
}

/// Every point of a circle's outline lies in the ring around the exact circle: its squared
/// distance from the centre is within `r` of `r * r`, so it is below `(r + 1)^2` and, for a
/// positive radius, at least `(r - 1)^2`. More closely, with `m` the larger of the point's
/// horizontal and vertical distances from the centre, `d2 - r * r` lies in `-m..m`: from `-m`
/// included up to `m` excluded (for `m > 0`).
pub proof fn law_circle_ring(cx: int, cy: int, r: int, px: int, py: int)
    requires
        on_circle(cx, cy, r, px, py),
    ensures
        ({
            let d2 = (px - cx) * (px - cx) + (py - cy) * (py - cy);
            &&& r * r - r <= d2 <= r * r + r
            &&& d2 < (r + 1) * (r + 1)
            &&& r >= 1 ==> (r - 1) * (r - 1) <= d2
            &&& -max_int(abs_int(px - cx), abs_int(py - cy)) <= d2 - r * r <= max_int(
                abs_int(px - cx),
                abs_int(py - cy),
            )
            &&& 0 < max_int(abs_int(px - cx), abs_int(py - cy)) ==> d2 - r * r < max_int(
                abs_int(px - cx),
                abs_int(py - cy),
            )
        }),
{
    lemma_circle_inv_start(r);
    lemma_circle_run_ring(cx, cy, r, 0, r, 1 - r, px, py);
    assert((r + 1) * (r + 1) == r * r + 2 * r + 1 && (r - 1) * (r - 1) == r * r - 2 * r + 1)
        by (nonlinear_arith);
}

proof fn lemma_circle_run_symmetric(cx: int, cy: int, x: int, y: int, d: int, a: int, b: int)
    ensures
        circle_visits(cx, cy, x, y, d, cx + a, cy + b) == circle_visits(
            cx,
            cy,
            x,
            y,
            d,
            cx - a,
            cy + b,
        ),
        circle_visits(cx, cy, x, y, d, cx + a, cy + b) == circle_visits(
            cx,
            cy,
            x,
            y,
            d,
            cx + a,
            cy - b,
        ),
        circle_visits(cx, cy, x, y, d, cx + a, cy + b) == circle_visits(
            cx,
            cy,
            x,
            y,
            d,
            cx + b,
            cy + a,
        ),
    decreases y - x + 2,
{
    if x <= y {
        let (nx, ny, nd) = circle_step(x, y, d);
        lemma_circle_run_symmetric(cx, cy, nx, ny, nd, a, b);
    }
}

/// A circle's outline is symmetric about the vertical and horizontal lines through its
/// centre and about the diagonal through it: together these give all eight mirror images.
pub proof fn law_circle_symmetric(cx: int, cy: int, r: int, a: int, b: int)
    ensures
        on_circle(cx, cy, r, cx + a, cy + b) == on_circle(cx, cy, r, cx - a, cy + b),
        on_circle(cx, cy, r, cx + a, cy + b) == on_circle(cx, cy, r, cx + a, cy - b),
        on_circle(cx, cy, r, cx + a, cy + b) == on_circle(cx, cy, r, cx + b, cy + a),
{
    lemma_circle_run_symmetric(cx, cy, 0, r, 1 - r, a, b);
}

proof fn lemma_disc_run_covers_outline(
    cx: int,
    cy: int,
    x: int,
    y: int,
    d: int,
    px: int,
    py: int,
)
    requires
        circle_visits(cx, cy, x, y, d, px, py),
    ensures
        disc_visits(cx, cy, x, y, d, px, py),
    decreases y - x + 2,
{
    let (nx, ny, nd) = circle_step(x, y, d);
    if mirrored(cx, cy, x, y, px, py) {
        law_horizontal_line(cx - x, cx + x, cy + y, px, py);
        law_horizontal_line(cx - x, cx + x, cy - y, px, py);
        law_horizontal_line(cx - y, cx + y, cy + x, px, py);
        law_horizontal_line(cx - y, cx + y, cy - x, px, py);
    } else {
        lemma_disc_run_covers_outline(cx, cy, nx, ny, nd, px, py);
    }
}

/// The filled circle covers the outline of the circle of the same centre and radius.
pub proof fn law_disc_covers_outline(cx: int, cy: int, r: int, px: int, py: int)
    requires
        on_circle(cx, cy, r, px, py),
    ensures
        on_disc(cx, cy, r, px, py),
{
    lemma_disc_run_covers_outline(cx, cy, 0, r, 1 - r, px, py);
}

/// Filling a circle over an image gives the same pixels whether or not its outline was drawn
/// first in the same colour.
pub proof fn law_fill_over_outline(cells: Seq<u32>, w: int, cx: int, cy: int, r: int, v: u32)
    ensures
        paint(
            paint(cells, w, |px: int, py: int| on_circle(cx, cy, r, px, py), v),
            w,
            |px: int, py: int| on_disc(cx, cy, r, px, py),
            v,
        ) == paint(cells, w, |px: int, py: int| on_disc(cx, cy, r, px, py), v),
{
    let outline = |px: int, py: int| on_circle(cx, cy, r, px, py);
    let disc = |px: int, py: int| on_disc(cx, cy, r, px, py);
    assert forall|i: int| 0 <= i < cells.len() implies paint(
        paint(cells, w, outline, v),
        w,
        disc,
        v,
    )[i] == paint(cells, w, disc, v)[i] by {
        if outline(i % w, i / w) {
            law_disc_covers_outline(cx, cy, r, i % w, i / w);
        }
    }
    assert(paint(paint(cells, w, outline, v), w, disc, v) =~= paint(cells, w, disc, v));
}

/// Every pixel that drawing a circle's outline over an image leaves in colour `v`, filling
/// the same circle in `v` over that image leaves in `v` too.
pub proof fn law_fill_keeps_outline_pixels(
    cells: Seq<u32>,
    w: int,
    cx: int,
    cy: int,
    r: int,
    v: u32,
    i: int,
)
    requires
        0 <= i < cells.len(),
        paint(cells, w, |px: int, py: int| on_circle(cx, cy, r, px, py), v)[i] == v,
    ensures
        paint(cells, w, |px: int, py: int| on_disc(cx, cy, r, px, py), v)[i] == v,
{
    if on_circle(cx, cy, r, i % w, i / w) {
        law_disc_covers_outline(cx, cy, r, i % w, i / w);
    }
}

/// `a * a <= b * b` when `|a| <= b`.
proof fn lemma_square_le(a: int, b: int)
    requires
        abs_int(a) <= b,
    ensures
        a * a <= b * b,
{
    assert(a * a <= b * b) by (nonlinear_arith)
        requires
            -b <= a <= b,
    ;
}

proof fn lemma_disc_run_ring(cx: int, cy: int, r: int, x: int, y: int, d: int, px: int, py: int)
    requires
        circle_inv(r, x, y, d),
        disc_visits(cx, cy, x, y, d, px, py),
    ensures
        (px - cx) * (px - cx) + (py - cy) * (py - cy) <= r * r + r,
    decreases y - x + 2,
{
    let (nx, ny, nd) = circle_step(x, y, d);
    let a = px - cx;
    let b = py - cy;
    law_horizontal_line(cx - x, cx + x, cy + y, px, py);
    law_horizontal_line(cx - x, cx + x, cy - y, px, py);
    law_horizontal_line(cx - y, cx + y, cy + x, px, py);
    law_horizontal_line(cx - y, cx + y, cy - x, px, py);
    if on_line(cx - x, cy + y, cx + x, cy + y, px, py) || on_line(
        cx - x,
        cy - y,
        cx + x,
        cy - y,
        px,
        py,
    ) {
        lemma_square_le(a, x);
        lemma_square_le(b, y);
        lemma_square_le(-b, y);
        assert(b * b == y * y) by (nonlinear_arith)
            requires
                b == y || b == -y,
        ;
    } else if on_line(cx - y, cy + x, cx + y, cy + x, px, py) || on_line(
        cx - y,
        cy - x,
        cx + y,
        cy - x,
        px,
        py,
    ) {
        lemma_square_le(a, y);
        assert(b * b == x * x) by (nonlinear_arith)
            requires
                b == x || b == -x,
        ;
    } else {
        lemma_circle_inv_step(r, x, y, d);
        lemma_disc_run_ring(cx, cy, r, nx, ny, nd, px, py);
    }
}

/// Every point of a filled circle lies within the ring's outer edge: its squared distance
/// from the centre is at most `r * r + r`, below `(r + 1)^2`.
pub proof fn law_disc_ring(cx: int, cy: int, r: int, px: int, py: int)
    requires
        on_disc(cx, cy, r, px, py),
    ensures
        ({
            let d2 = (px - cx) * (px - cx) + (py - cy) * (py - cy);
            d2 <= r * r + r && d2 < (r + 1) * (r + 1)
        }),
{
    lemma_circle_inv_start(r);
    lemma_disc_run_ring(cx, cy, r, 0, r, 1 - r, px, py);
    assert((r + 1) * (r + 1) == r * r + 2 * r + 1) by (nonlinear_arith);
}

proof fn lemma_disc_run_rows(
    cx: int,
    cy: int,
    x: int,
    y: int,
    d: int,
    px: int,
    qx: int,
    py: int,
)
    requires
        disc_visits(cx, cy, x, y, d, px, py),
        abs_int(qx - cx) <= abs_int(px - cx),
    ensures
        disc_visits(cx, cy, x, y, d, qx, py),
    decreases y - x + 2,
{
    let (nx, ny, nd) = circle_step(x, y, d);
    law_horizontal_line(cx - x, cx + x, cy + y, px, py);
    law_horizontal_line(cx - x, cx + x, cy - y, px, py);
    law_horizontal_line(cx - y, cx + y, cy + x, px, py);
    law_horizontal_line(cx - y, cx + y, cy - x, px, py);
    law_horizontal_line(cx - x, cx + x, cy + y, qx, py);
    law_horizontal_line(cx - x, cx + x, cy - y, qx, py);
    law_horizontal_line(cx - y, cx + y, cy + x, qx, py);
    law_horizontal_line(cx - y, cx + y, cy - x, qx, py);
    if disc_visits(cx, cy, nx, ny, nd, px, py) {
        lemma_disc_run_rows(cx, cy, nx, ny, nd, px, qx, py);
    }
}

/// Each row of a filled circle is one run of pixels centred on the centre's column: with a
/// point of the row, the filled circle covers every point of the row that is no farther from
/// that column.
pub proof fn law_disc_rows(cx: int, cy: int, r: int, px: int, qx: int, py: int)
    requires
        on_disc(cx, cy, r, px, py),
        abs_int(qx - cx) <= abs_int(px - cx),
    ensures
        on_disc(cx, cy, r, qx, py),
{
    lemma_disc_run_rows(cx, cy, 0, r, 1 - r, px, qx, py);
}

proof fn lemma_disc_run_column(cx: int, cy: int, x: int, y: int, d: int, j: int)
    requires
        0 <= x <= j <= y,
    ensures
        disc_visits(cx, cy, x, y, d, cx, cy + j),
        disc_visits(cx, cy, x, y, d, cx, cy - j),
    decreases y - x + 2,
{
    let (nx, ny, nd) = circle_step(x, y, d);
    law_horizontal_line(cx - x, cx + x, cy + y, cx, cy + j);
    law_horizontal_line(cx - x, cx + x, cy - y, cx, cy - j);
    law_horizontal_line(cx - y, cx + y, cy + x, cx, cy + j);
    law_horizontal_line(cx - y, cx + y, cy - x, cx, cy - j);
    if x < j < y {
        lemma_disc_run_column(cx, cy, nx, ny, nd, j);
    }
}

/// A filled circle covers the whole horizontal and vertical diameter: every point at most `r`
/// straight left, right, above or below its centre.
pub proof fn law_disc_cross(cx: int, cy: int, r: int, k: int)
    requires
        r >= 0,
        abs_int(k) <= r,
    ensures
        on_disc(cx, cy, r, cx + k, cy),
        on_disc(cx, cy, r, cx, cy + k),
{
    law_horizontal_line(cx - r, cx + r, cy, cx + k, cy);
    lemma_disc_run_column(cx, cy, 0, r, 1 - r, abs_int(k));
}

proof fn lemma_circle_run_column(cx: int, cy: int, x: int, y: int, d: int, j: int) -> (b: int)
    requires
        0 <= x <= j <= y,
    ensures
        circle_visits(cx, cy, x, y, d, cx + j, cy + b),
    decreases y - x + 2,
{
    let (nx, ny, nd) = circle_step(x, y, d);
    if j == x {
        y
    } else if j == y {
        x
    } else {
        lemma_circle_run_column(cx, cy, nx, ny, nd, j)
    }
}

/// A circle's outline has a point in every column and in every row at most `r` from its
/// centre: it has no gaps.
pub proof fn law_circle_no_gaps(cx: int, cy: int, r: int, k: int)
    requires
        r >= 0,
        abs_int(k) <= r,
    ensures
        exists|b: int| #[trigger] on_circle(cx, cy, r, cx + k, cy + b),
        exists|a: int| #[trigger] on_circle(cx, cy, r, cx + a, cy + k),
{
    let j = abs_int(k);
    let b = lemma_circle_run_column(cx, cy, 0, r, 1 - r, j);
    law_circle_symmetric(cx, cy, r, j, b);
    law_circle_symmetric(cx, cy, r, k, b);
    assert(on_circle(cx, cy, r, cx + k, cy + b));
    assert(on_circle(cx, cy, r, cx + b, cy + k));
}

proof fn lemma_disc_run_in_filled_outline(
    cx: int,
    cy: int,
    x: int,
    y: int,
    d: int,
    px: int,
    py: int,
) -> (qx: int)
    requires
        disc_visits(cx, cy, x, y, d, px, py),
    ensures
        abs_int(px - cx) <= abs_int(qx - cx),
        circle_visits(cx, cy, x, y, d, qx, py),
    decreases y - x + 2,
{
    let (nx, ny, nd) = circle_step(x, y, d);
    law_horizontal_line(cx - x, cx + x, cy + y, px, py);
    law_horizontal_line(cx - x, cx + x, cy - y, px, py);
    law_horizontal_line(cx - y, cx + y, cy + x, px, py);
    law_horizontal_line(cx - y, cx + y, cy - x, px, py);
    if on_line(cx - x, cy + y, cx + x, cy + y, px, py) || on_line(
        cx - x,
        cy - y,
        cx + x,
        cy - y,
        px,
        py,
    ) {
        cx + x
    } else if on_line(cx - y, cy + x, cx + y, cy + x, px, py) || on_line(
        cx - y,
        cy - x,
        cx + y,
        cy - x,
        px,
        py,
    ) {
        cx + y
    } else {
        lemma_disc_run_in_filled_outline(cx, cy, nx, ny, nd, px, py)
    }
}

/// A filled circle is its outline filled in row by row: it covers a point exactly when the
/// outline has a point in the same row at least as far from the centre's column.
pub proof fn law_disc_is_filled_outline(cx: int, cy: int, r: int, px: int, py: int)
    ensures
        on_disc(cx, cy, r, px, py) == exists|qx: int|
            abs_int(px - cx) <= abs_int(qx - cx) && #[trigger] on_circle(cx, cy, r, qx, py),
{
    if on_disc(cx, cy, r, px, py) {
        let qx = lemma_disc_run_in_filled_outline(cx, cy, 0, r, 1 - r, px, py);
        assert(on_circle(cx, cy, r, qx, py));
    }
    if exists|qx: int| abs_int(px - cx) <= abs_int(qx - cx) && #[trigger] on_circle(cx, cy, r, qx, py) {
        let qx = choose|qx: int|
            abs_int(px - cx) <= abs_int(qx - cx) && #[trigger] on_circle(cx, cy, r, qx, py);
        law_disc_covers_outline(cx, cy, r, qx, py);
        law_disc_rows(cx, cy, r, qx, px, py);
    }
}

// ---------------------------------------------------------------------------
// Draw lists
// ---------------------------------------------------------------------------

/// Two framebuffers of the same size with the same pixels are alike to a draw list: running
/// it is allowed on both or on neither, and gives both the same pixels.
pub proof fn law_execute_deterministic(list: DrawList, a: Framebuffer, b: Framebuffer)
    requires
        a.spec_width() == b.spec_width(),
        a.spec_height() == b.spec_height(),
        a@ == b@,
    ensures
        (forall|i: int|
            0 <= i < list.commands@.len() ==> command_fits(
                #[trigger] list.commands@[i],
                a.spec_width(),
                a.spec_height(),
                list.textures@,
            )) == (forall|i: int|
            0 <= i < list.commands@.len() ==> command_fits(
                #[trigger] list.commands@[i],
                b.spec_width(),
                b.spec_height(),
                list.textures@,
            )),
        run_commands(a@, a.spec_width(), a.spec_height(), list.commands@, list.textures@)
            == run_commands(b@, b.spec_width(), b.spec_height(), list.commands@, list.textures@),
{
}

// ---------------------------------------------------------------------------
// Tile maps
// ---------------------------------------------------------------------------

/// Reading a cell after writing one gives the written id at the written cell (when it lies
/// in the grid) and what was there before everywhere else.
pub proof fn law_tile_read_after_write(
    g: Seq<Seq<u32>>,
    x: int,
    y: int,
    id: u32,
    qx: int,
    qy: int,
)
    requires
        row_holds(g, x, y),
        row_holds(g, qx, qy),
    ensures
        row_holds(with_cell(g, x, y, id), qx, qy),
        cell_value(with_cell(g, x, y, id), qx, qy) == if qx == x && qy == y && in_grid(g, x, y) {
            id
        } else {
            cell_value(g, qx, qy)
        },
{
}

} // verus!

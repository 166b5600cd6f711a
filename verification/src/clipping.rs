//! Properties of clipping and placement: rectangle overlap, where a blit takes its source
//! pixels from and how it composites them, which tiles a camera sees, and what a recorded
//! command does when it runs.
use vstd::prelude::*;
use crate::rect::{Rect, fits_i32};
use crate::color::{blended, lemma_unpack_pack, law_blend_over_opaque_is_opaque};
use crate::framebuffer::{blitted, pixel_at, pixel_index, lemma_index_coords, bounds, clipped_covers};
use crate::laws::law_clip_is_intersection;
use crate::color::packed;
use crate::framebuffer::{Framebuffer, paint, filled_rect, on_rect_outline};
use crate::raster::{on_line, on_circle, on_disc};
use crate::drawlist::{DrawCommand, run_commands};
use crate::tilemap::{TileMap, trunc_div};
use vstd::arithmetic::div_mod::lemma_fundamental_div_mod;

verus! {

/// A rectangle whose extents are below 2^31 covers exactly the points from its corner up to,
/// not including, its corner plus its extents.
pub proof fn law_contains_is_box(r: Rect, px: int, py: int)
    requires
        r.w <= i32::MAX,
        r.h <= i32::MAX,
    ensures
        r.spec_contains(px, py) == (r.x <= px < r.x + r.w && r.y <= py < r.y + r.h),
{
}

/// Two non-empty rectangles whose extents are below 2^31 intersect exactly when some point
/// lies in both; clipping one by the other gives `None` exactly when none does. So
/// rectangles that only share an edge (vertical or horizontal) neither intersect nor clip.
/// (An empty rectangle covers no point, yet it intersects a rectangle that it lies within.)
pub proof fn law_intersects_iff_common_point(a: Rect, b: Rect)
    requires
        0 < a.w <= i32::MAX,
        0 < a.h <= i32::MAX,
        0 < b.w <= i32::MAX,
        0 < b.h <= i32::MAX,
    ensures
        a.spec_intersects(b) == (exists|px: int, py: int|
            #[trigger] a.spec_contains(px, py) && #[trigger] b.spec_contains(px, py)),
        a.spec_clip(b).is_none() == !(exists|px: int, py: int|
            #[trigger] a.spec_contains(px, py) && #[trigger] b.spec_contains(px, py)),
{
    if a.spec_intersects(b) {
        let px = a.clip_x0(b);
        let py = a.clip_y0(b);
        assert(a.spec_contains(px, py) && b.spec_contains(px, py));
    }
}

/// Blitting a `sw` by `sh` source with its top-left corner at `(x, y)`, for any position
/// (negative ones and ones partly off the target included): a target pixel `(px, py)` that
/// the placed source covers is composited from source pixel `(px - x, py - y)`. A fully
/// transparent source pixel leaves the target pixel, an opaque one replaces it, and any other
/// is blended over it with `alpha_blend`, which keeps an opaque target pixel opaque. Every
/// other pixel stays as it was.
pub proof fn law_blit_pixel(
    cells: Seq<u32>,
    w: u32,
    h: u32,
    src: Seq<u32>,
    sw: u32,
    sh: u32,
    x: i32,
    y: i32,
    px: int,
    py: int,
)
    requires
        cells.len() == w as int * h as int,
        src.len() == sw as int * sh as int,
        w <= i32::MAX,
        h <= i32::MAX,
        sw <= i32::MAX,
        sh <= i32::MAX,
        fits_i32(x + sw),
        fits_i32(y + sh),
    ensures
        ({
            let after = pixel_at(blitted(cells, w, h, src, sw, sh, x, y), w, h, px, py);
            let d = pixel_at(cells, w, h, px, py);
            let s = pixel_at(src, sw, sh, px - x, py - y);
            let covered = 0 <= px < w && 0 <= py < h && 0 <= px - x < sw && 0 <= py - y < sh;
            &&& !covered ==> after == d
            &&& covered && s.a == 0 ==> after == d
            &&& covered && s.a == 255 ==> after == s
            &&& covered && 0 < s.a < 255 ==> after == blended(d, s)
            &&& covered && s.a != 0 && d.a == 255 ==> after.a == 255
        }),
{
    let r = Rect { x, y, w: sw, h: sh };
    if 0 <= px < w && 0 <= py < h {
        lemma_index_coords(w as int, h as int, px, py);
        law_clip_is_intersection(r, bounds(w, h), px, py);
        let i = pixel_index(w as int, px, py);
        let covered = 0 <= px - x < sw && 0 <= py - y < sh;
        assert(clipped_covers(r, w, h, px, py) == covered);
        if covered {
            lemma_index_coords(sw as int, sh as int, px - x, py - y);
            let s = pixel_at(src, sw, sh, px - x, py - y);
            let d = pixel_at(cells, w, h, px, py);
            lemma_unpack_pack(s);
            lemma_unpack_pack(blended(d, s));
            if d.a == 255 {
                law_blend_over_opaque_is_opaque(d, s);
            }
        }
    }
}

/// Running no command leaves the target as it was.
pub proof fn law_run_no_commands(
    cells: Seq<u32>,
    w: u32,
    h: u32,
    textures: Map<u32, Framebuffer>,
)
    ensures
        run_commands(cells, w, h, Seq::<DrawCommand>::empty(), textures) == cells,
{
}

/// Running a command after others has the effect of the framebuffer method that it records
/// on what the others left, whatever its arguments: `Clear` clears, `FillRect` fills,
/// `DrawRect`, `DrawLine`, `DrawCircle` and `FillCircle` draw, and `Blit(id, x, y)` blits the
/// texture `id` at `(x, y)` (positions partly or wholly off the target included) when one is
/// registered, and does nothing otherwise.
pub proof fn law_run_appended_command(
    cells: Seq<u32>,
    w: u32,
    h: u32,
    cmds: Seq<DrawCommand>,
    cmd: DrawCommand,
    textures: Map<u32, Framebuffer>,
)
    ensures
        ({
            let before = run_commands(cells, w, h, cmds, textures);
            let after = run_commands(cells, w, h, cmds.push(cmd), textures);
            match cmd {
                DrawCommand::Clear(c) => after == Seq::new(before.len(), |i: int| packed(c)),
                DrawCommand::FillRect(r, c) => after == filled_rect(before, w, h, r, c),
                DrawCommand::DrawRect(r, c) => after == paint(
                    before,
                    w as int,
                    |px: int, py: int| on_rect_outline(r, px, py),
                    packed(c),
                ),
                DrawCommand::DrawLine(x0, y0, x1, y1, c) => after == paint(
                    before,
                    w as int,
                    |px: int, py: int| on_line(x0 as int, y0 as int, x1 as int, y1 as int, px, py),
                    packed(c),
                ),
                DrawCommand::DrawCircle(cx, cy, r, c) => after == paint(
                    before,
                    w as int,
                    |px: int, py: int| on_circle(cx as int, cy as int, r as int, px, py),
                    packed(c),
                ),
                DrawCommand::FillCircle(cx, cy, r, c) => after == paint(
                    before,
                    w as int,
                    |px: int, py: int| on_disc(cx as int, cy as int, r as int, px, py),
                    packed(c),
                ),
                DrawCommand::Blit(id, x, y) => after == if textures.contains_key(id) {
                    blitted(
                        before,
                        w,
                        h,
                        textures[id]@,
                        textures[id].spec_width(),
                        textures[id].spec_height(),
                        x,
                        y,
                    )
                } else {
                    before
                },
            }
        }),
{
    assert(cmds.push(cmd).drop_last() =~= cmds);
}

/// For `b > 0`: `trunc_div(a, b)` is at most `k >= 0` exactly when `a < (k + 1) * b`, and
/// below `k >= 0` exactly when `(k + 1) * b <= a`.
proof fn lemma_trunc_div_bounds(a: int, b: int, k: int)
    requires
        b > 0,
        k >= 0,
    ensures
        (trunc_div(a, b) <= k) == (a < (k + 1) * b),
        (k < trunc_div(a, b)) == ((k + 1) * b <= a),
{
    if a >= 0 {
        lemma_fundamental_div_mod(a, b);
        let q = a / b;
        let rm = a % b;
        assert(trunc_div(a, b) == q);
        assert((q <= k) == (a < (k + 1) * b) && (k < q) == ((k + 1) * b <= a)) by (nonlinear_arith)
            requires
                a == b * q + rm,
                0 <= rm < b,
                b > 0,
        ;
    } else {
        lemma_fundamental_div_mod(-a, b);
        let q = (-a) / b;
        assert(q >= 0) by (nonlinear_arith)
            requires
                -a > 0,
                b > 0,
                q == (-a) / b,
        ;
        assert(trunc_div(a, b) == -q);
        assert(0 < (k + 1) * b) by (nonlinear_arith)
            requires
                k >= 0,
                b > 0,
        ;
    }
}

/// With a positive tile spacing `ts` and a target at most `i32::MAX` wide and high, the
/// columns (rows) of the grid that rendering visits are exactly those whose `ts`-wide strip,
/// placed at `col * ts - camera_x` (`row * ts - camera_y`), overlaps the target: a column or
/// row only partly in view is visited.
pub proof fn law_render_visits_overlapping(
    tm: TileMap,
    w: u32,
    h: u32,
    cam_x: int,
    cam_y: int,
    col: int,
    row: int,
)
    requires
        tm.spacing() > 0,
        w <= i32::MAX,
        h <= i32::MAX,
        0 <= col < tm.grid_width(),
        0 <= row < tm.grid_height(),
    ensures
        (tm.first_col(cam_x) <= col < tm.end_col(cam_x, w)) == (col * tm.spacing() - cam_x < w
            && col * tm.spacing() - cam_x + tm.spacing() > 0),
        (tm.first_row(cam_y) <= row < tm.end_row(cam_y, h)) == (row * tm.spacing() - cam_y < h
            && row * tm.spacing() - cam_y + tm.spacing() > 0),
{
    let ts = tm.spacing();
    lemma_trunc_div_bounds(cam_x, ts, col);
    lemma_trunc_div_bounds(cam_x + w + ts - 1, ts, col);
    lemma_trunc_div_bounds(cam_y, ts, row);
    lemma_trunc_div_bounds(cam_y + h + ts - 1, ts, row);
    assert((col + 1) * ts == col * ts + ts && (row + 1) * ts == row * ts + ts) by (nonlinear_arith);
}

/// The tiles of a map other than that of cell `(c, r)` are all undrawn in columns
/// `0..gw` and rows `0..gh`.
pub open spec fn only_cell_drawn(tm: TileMap, c: int, r: int, gw: int, gh: int) -> bool {
    forall|col: int, row: int|
        0 <= col < gw && 0 <= row < gh && !(col == c && row == r) ==> !#[trigger] tm.drawn(
            col,
            row,
        )
}

/// No cell of row `row` in columns `col..end` is drawn, but for `(c, r)`.
spec fn span_undrawn_except(tm: TileMap, row: int, col: int, end: int, c: int, r: int) -> bool {
    forall|k: int| col <= k < end && !(k == c && row == r) ==> !#[trigger] tm.drawn(k, row)
}

/// No cell of rows `row..end` in the visible columns is drawn, but for `(c, r)`.
spec fn rows_undrawn_except(
    tm: TileMap,
    cam_x: int,
    w: u32,
    row: int,
    end: int,
    c: int,
    r: int,
) -> bool {
    forall|j: int|
        row <= j < end ==> #[trigger] span_undrawn_except(
            tm,
            j,
            tm.first_col(cam_x),
            tm.end_col(cam_x, w),
            c,
            r,
        )
}

proof fn lemma_span_single(
    tm: TileMap,
    cells: Seq<u32>,
    w: u32,
    h: u32,
    cam_x: int,
    cam_y: int,
    row: int,
    col: int,
    end: int,
    c: int,
    r: int,
)
    requires
        span_undrawn_except(tm, row, col, end, c, r),
    ensures
        tm.render_span(cells, w, h, cam_x, cam_y, row, col, end) == if row == r && col <= c < end {
            tm.render_cell(cells, w, h, cam_x, cam_y, c, r)
        } else {
            cells
        },
    decreases end - col,
{
    if col < end {
        let next = tm.render_cell(cells, w, h, cam_x, cam_y, col, row);
        if !(col == c && row == r) {
            assert(!tm.drawn(col, row));
            lemma_span_single(tm, cells, w, h, cam_x, cam_y, row, col + 1, end, c, r);
        } else {
            lemma_span_single(tm, next, w, h, cam_x, cam_y, row, col + 1, end, c, r);
        }
    }
}

proof fn lemma_rows_single(
    tm: TileMap,
    cells: Seq<u32>,
    w: u32,
    h: u32,
    cam_x: int,
    cam_y: int,
    row: int,
    end: int,
    c: int,
    r: int,
)
    requires
        rows_undrawn_except(tm, cam_x, w, row, end, c, r),
    ensures
        tm.render_rows(cells, w, h, cam_x, cam_y, row, end) == if row <= r < end && tm.first_col(
            cam_x,
        ) <= c < tm.end_col(cam_x, w) {
            tm.render_cell(cells, w, h, cam_x, cam_y, c, r)
        } else {
            cells
        },
    decreases end - row,
{
    if row < end {
        let fc = tm.first_col(cam_x);
        let ec = tm.end_col(cam_x, w);
        assert(span_undrawn_except(tm, row, fc, ec, c, r));
        lemma_span_single(tm, cells, w, h, cam_x, cam_y, row, fc, ec, c, r);
        let next = tm.render_span(cells, w, h, cam_x, cam_y, row, fc, ec);
        lemma_rows_single(tm, next, w, h, cam_x, cam_y, row + 1, end, c, r);
    }
}

proof fn lemma_span_split(
    tm: TileMap,
    cells: Seq<u32>,
    w: u32,
    h: u32,
    cam_x: int,
    cam_y: int,
    row: int,
    col: int,
    mid: int,
    end: int,
)
    requires
        col <= mid <= end,
    ensures
        tm.render_span(cells, w, h, cam_x, cam_y, row, col, end) == tm.render_span(
            tm.render_span(cells, w, h, cam_x, cam_y, row, col, mid),
            w,
            h,
            cam_x,
            cam_y,
            row,
            mid,
            end,
        ),
    decreases mid - col,
{
    if col < mid {
        let next = tm.render_cell(cells, w, h, cam_x, cam_y, col, row);
        lemma_span_split(tm, next, w, h, cam_x, cam_y, row, col + 1, mid, end);
    }
}

proof fn lemma_rows_split(
    tm: TileMap,
    cells: Seq<u32>,
    w: u32,
    h: u32,
    cam_x: int,
    cam_y: int,
    row: int,
    mid: int,
    end: int,
)
    requires
        row <= mid <= end,
    ensures
        tm.render_rows(cells, w, h, cam_x, cam_y, row, end) == tm.render_rows(
            tm.render_rows(cells, w, h, cam_x, cam_y, row, mid),
            w,
            h,
            cam_x,
            cam_y,
            mid,
            end,
        ),
    decreases mid - row,
{
    if row < mid {
        let next = tm.render_span(
            cells,
            w,
            h,
            cam_x,
            cam_y,
            row,
            tm.first_col(cam_x),
            tm.end_col(cam_x, w),
        );
        lemma_rows_split(tm, next, w, h, cam_x, cam_y, row + 1, mid, end);
    }
}

/// The visible rows and columns lie in the grid, and `only_cell_drawn` leaves in them no
/// drawn cell but `(c, r)`.
proof fn lemma_only_cell_rows(tm: TileMap, w: u32, h: u32, cam_x: int, cam_y: int, c: int, r: int)
    requires
        tm.spacing() > 0,
        0 < tm.grid_width(),
        0 < tm.grid_height(),
        only_cell_drawn(tm, c, r, tm.grid_width(), tm.grid_height()),
    ensures
        0 <= tm.first_row(cam_y),
        tm.end_row(cam_y, h) <= tm.grid_height(),
        rows_undrawn_except(tm, cam_x, w, tm.first_row(cam_y), tm.end_row(cam_y, h), c, r),
{
    let ts = tm.spacing();
    lemma_trunc_div_bounds(cam_x, ts, 0);
    lemma_trunc_div_bounds(cam_y, ts, 0);
    assert forall|j: int|
        tm.first_row(cam_y) <= j < tm.end_row(cam_y, h) implies #[trigger] span_undrawn_except(
        tm,
        j,
        tm.first_col(cam_x),
        tm.end_col(cam_x, w),
        c,
        r,
    ) by {
        assert forall|k: int|
            tm.first_col(cam_x) <= k < tm.end_col(cam_x, w) && !(k == c && j == r) implies !#[trigger] tm.drawn(
            k,
            j,
        ) by {
            assert(0 <= k < tm.grid_width() && 0 <= j < tm.grid_height());
        }
    }
}

/// Rendering a map in which only cell `(c, r)` may be drawn (every other cell is empty or
/// holds an id the tileset lacks) is exactly one blit of that cell's tile at
/// `(c * ts - camera_x, r * ts - camera_y)` when the cell is drawn and its `ts`-square
/// overlaps the target, even partly, and leaves the target alone otherwise (`ts` is the tile
/// spacing, positive here).
pub proof fn law_render_single_cell(
    tm: TileMap,
    cells: Seq<u32>,
    w: u32,
    h: u32,
    cam_x: int,
    cam_y: int,
    c: int,
    r: int,
)
    requires
        tm.spacing() > 0,
        w <= i32::MAX,
        h <= i32::MAX,
        0 <= c < tm.grid_width(),
        0 <= r < tm.grid_height(),
        only_cell_drawn(tm, c, r, tm.grid_width(), tm.grid_height()),
    ensures
        tm.rendered(cells, w, h, cam_x, cam_y) == if tm.drawn(c, r) && c * tm.spacing() - cam_x
            < w && c * tm.spacing() - cam_x + tm.spacing() > 0 && r * tm.spacing() - cam_y < h && r
            * tm.spacing() - cam_y + tm.spacing() > 0 {
            blitted(
                cells,
                w,
                h,
                tm.tileset@[tm.tile(c, r)]@,
                tm.tileset@[tm.tile(c, r)].spec_width(),
                tm.tileset@[tm.tile(c, r)].spec_height(),
                (c * tm.spacing() - cam_x) as i32,
                (r * tm.spacing() - cam_y) as i32,
            )
        } else {
            cells
        },
{
    law_render_visits_overlapping(tm, w, h, cam_x, cam_y, c, r);
    lemma_only_cell_rows(tm, w, h, cam_x, cam_y, c, r);
    lemma_rows_single(
        tm,
        cells,
        w,
        h,
        cam_x,
        cam_y,
        tm.first_row(cam_y),
        tm.end_row(cam_y, h),
        c,
        r,
    );
}

/// The cells of a map other than `(c1, r1)` and `(c2, r2)` are all undrawn in columns `0..gw`
/// and rows `0..gh`.
pub open spec fn only_two_drawn(
    tm: TileMap,
    c1: int,
    r1: int,
    c2: int,
    r2: int,
    gw: int,
    gh: int,
) -> bool {
    forall|col: int, row: int|
        0 <= col < gw && 0 <= row < gh && !(col == c1 && row == r1) && !(col == c2 && row == r2)
            ==> !#[trigger] tm.drawn(col, row)
}

/// In rows `row..end` of the visible columns, which lie in the grid, no cell but `(c, r)` is
/// drawn when the other drawn cell `(oc, or)` lies outside that block.
proof fn lemma_two_rows_block(
    tm: TileMap,
    w: u32,
    cam_x: int,
    row: int,
    end: int,
    c: int,
    r: int,
    oc: int,
    or: int,
)
    requires
        0 <= row,
        end <= tm.grid_height(),
        0 <= tm.first_col(cam_x),
        tm.end_col(cam_x, w) <= tm.grid_width(),
        only_two_drawn(tm, c, r, oc, or, tm.grid_width(), tm.grid_height()),
        !(row <= or < end),
    ensures
        rows_undrawn_except(tm, cam_x, w, row, end, c, r),
{
    assert forall|j: int| row <= j < end implies #[trigger] span_undrawn_except(
        tm,
        j,
        tm.first_col(cam_x),
        tm.end_col(cam_x, w),
        c,
        r,
    ) by {
        assert forall|k: int|
            tm.first_col(cam_x) <= k < tm.end_col(cam_x, w) && !(k == c && j == r) implies !#[trigger] tm.drawn(
            k,
            j,
        ) by {
            assert(0 <= k < tm.grid_width() && 0 <= j < tm.grid_height());
        }
    }
}

/// The tile of a drawn cell placed where rendering puts it.
pub open spec fn placed_tile(
    tm: TileMap,
    cells: Seq<u32>,
    w: u32,
    h: u32,
    cam_x: int,
    cam_y: int,
    c: int,
    r: int,
) -> Seq<u32> {
    blitted(
        cells,
        w,
        h,
        tm.tileset@[tm.tile(c, r)]@,
        tm.tileset@[tm.tile(c, r)].spec_width(),
        tm.tileset@[tm.tile(c, r)].spec_height(),
        (c * tm.spacing() - cam_x) as i32,
        (r * tm.spacing() - cam_y) as i32,
    )
}

/// Rendering a map with two drawn cells in view blits their tiles in row-major order: the
/// tile of the cell in the later row, or further right in the same row, is composited over
/// the other where they overlap.
pub proof fn law_render_row_major(
    tm: TileMap,
    cells: Seq<u32>,
    w: u32,
    h: u32,
    cam_x: int,
    cam_y: int,
    c1: int,
    r1: int,
    c2: int,
    r2: int,
)
    requires
        tm.spacing() > 0,
        w <= i32::MAX,
        h <= i32::MAX,
        0 <= c1 < tm.grid_width(),
        0 <= r1 < tm.grid_height(),
        0 <= c2 < tm.grid_width(),
        0 <= r2 < tm.grid_height(),
        r1 < r2 || (r1 == r2 && c1 < c2),
        only_two_drawn(tm, c1, r1, c2, r2, tm.grid_width(), tm.grid_height()),
        tm.drawn(c1, r1),
        tm.drawn(c2, r2),
        c1 * tm.spacing() - cam_x < w && c1 * tm.spacing() - cam_x + tm.spacing() > 0,
        r1 * tm.spacing() - cam_y < h && r1 * tm.spacing() - cam_y + tm.spacing() > 0,
        c2 * tm.spacing() - cam_x < w && c2 * tm.spacing() - cam_x + tm.spacing() > 0,
        r2 * tm.spacing() - cam_y < h && r2 * tm.spacing() - cam_y + tm.spacing() > 0,
    ensures
        tm.rendered(cells, w, h, cam_x, cam_y) == placed_tile(
            tm,
            placed_tile(tm, cells, w, h, cam_x, cam_y, c1, r1),
            w,
            h,
            cam_x,
            cam_y,
            c2,
            r2,
        ),
{
    law_render_visits_overlapping(tm, w, h, cam_x, cam_y, c1, r1);
    law_render_visits_overlapping(tm, w, h, cam_x, cam_y, c2, r2);
    let ts = tm.spacing();
    lemma_trunc_div_bounds(cam_x, ts, 0);
    lemma_trunc_div_bounds(cam_y, ts, 0);
    let fr = tm.first_row(cam_y);
    let er = tm.end_row(cam_y, h);
    let fc = tm.first_col(cam_x);
    let ec = tm.end_col(cam_x, w);
    let one = placed_tile(tm, cells, w, h, cam_x, cam_y, c1, r1);
    let two = placed_tile(tm, one, w, h, cam_x, cam_y, c2, r2);
    assert(tm.render_cell(cells, w, h, cam_x, cam_y, c1, r1) == one);
    assert(tm.render_cell(one, w, h, cam_x, cam_y, c2, r2) == two);
    if r1 < r2 {
        lemma_rows_split(tm, cells, w, h, cam_x, cam_y, fr, r1 + 1, er);
        lemma_two_rows_block(tm, w, cam_x, fr, r1 + 1, c1, r1, c2, r2);
        lemma_rows_single(tm, cells, w, h, cam_x, cam_y, fr, r1 + 1, c1, r1);
        lemma_two_rows_block(tm, w, cam_x, r1 + 1, er, c2, r2, c1, r1);
        lemma_rows_single(tm, one, w, h, cam_x, cam_y, r1 + 1, er, c2, r2);
    } else {
        lemma_rows_split(tm, cells, w, h, cam_x, cam_y, fr, r1, er);
        lemma_two_rows_block(tm, w, cam_x, fr, r1, c1, r1, c2, r2);
        lemma_rows_single(tm, cells, w, h, cam_x, cam_y, fr, r1, c1, r1);
        lemma_rows_split(tm, cells, w, h, cam_x, cam_y, r1, r1 + 1, er);
        let row_done = tm.render_span(cells, w, h, cam_x, cam_y, r1, fc, ec);
        assert(tm.render_rows(row_done, w, h, cam_x, cam_y, r1 + 1, r1 + 1) == row_done);
        assert(tm.render_rows(cells, w, h, cam_x, cam_y, r1, r1 + 1) == row_done);
        lemma_span_split(tm, cells, w, h, cam_x, cam_y, r1, fc, c1 + 1, ec);
        assert(span_undrawn_except(tm, r1, fc, c1 + 1, c1, r1)) by {
            assert forall|k: int| fc <= k < c1 + 1 && k != c1 implies !#[trigger] tm.drawn(
                k,
                r1,
            ) by {
                assert(0 <= k < tm.grid_width());
            }
        }
        lemma_span_single(tm, cells, w, h, cam_x, cam_y, r1, fc, c1 + 1, c1, r1);
        assert(span_undrawn_except(tm, r1, c1 + 1, ec, c2, r2)) by {
            assert forall|k: int| c1 + 1 <= k < ec && !(k == c2 && r1 == r2) implies !#[trigger] tm.drawn(
                k,
                r1,
            ) by {
                assert(0 <= k < tm.grid_width());
            }
        }
        lemma_span_single(tm, one, w, h, cam_x, cam_y, r1, c1 + 1, ec, c2, r2);
        lemma_two_rows_block(tm, w, cam_x, r1 + 1, er, c2, r2, c1, r1);
        lemma_rows_single(tm, two, w, h, cam_x, cam_y, r1 + 1, er, c2, r2);
    }
}

} // verus!

use vstd::prelude::*;
use std::collections::HashMap;
use crate::rect::{span, fits_i32, max_int, min_int};
use crate::raster::abs_int;
use crate::framebuffer::{Framebuffer, blit_fits, blitted};

verus! {

broadcast use vstd::std_specs::hash::group_hash_axioms;

/// `a / b` rounded towards zero (integer division as the machine does it).
pub open spec fn trunc_div(a: int, b: int) -> int {
    let q = abs_int(a) / abs_int(b);
    if (a >= 0) == (b > 0) {
        q
    } else {
        -q
    }
}

/// A length as the `i32` that its low 32 bits spell (two's complement).
pub open spec fn len_as_i32(n: int) -> int {
    span((n % 0x1_0000_0000) as u32)
}

/// `(x, y)` addresses a cell of grid `g`: `y` is a row and `x` is within the first row's
/// length.
pub open spec fn in_grid(g: Seq<Seq<u32>>, x: int, y: int) -> bool {
    0 <= y < g.len() && 0 <= x < g[0].len()
}

/// The row of an addressed cell is long enough to hold it (rows may differ in length).
pub open spec fn row_holds(g: Seq<Seq<u32>>, x: int, y: int) -> bool {
    in_grid(g, x, y) ==> x < g[y].len()
}

/// The id in cell `(x, y)`; 0 outside the grid.
pub open spec fn cell_value(g: Seq<Seq<u32>>, x: int, y: int) -> u32 {
    if in_grid(g, x, y) {
        g[y][x]
    } else {
        0
    }
}

/// The grid with `id` in cell `(x, y)`; unchanged outside the grid.
pub open spec fn with_cell(g: Seq<Seq<u32>>, x: int, y: int, id: u32) -> Seq<Seq<u32>> {
    if in_grid(g, x, y) {
        g.update(y, g[y].update(x, id))
    } else {
        g
    }
}

/// A grid of tile ids (row by row; id 0 is an empty cell) drawn with the framebuffers of
/// a tileset, each tile `tile_size` pixels apart.
#[derive(Debug, Clone)]
pub struct TileMap {
    pub tiles: Vec<Vec<u32>>,
    pub tile_size: u32,
    pub tileset: HashMap<u32, Framebuffer>,
}

impl TileMap {
    /// The tile ids, row by row.
    pub open spec fn grid(&self) -> Seq<Seq<u32>> {
        self.tiles@.map_values(|r: Vec<u32>| r@)
    }

    /// The tile id at column `col` of row `row`.
    pub open spec fn tile(&self, col: int, row: int) -> u32 {
        self.tiles@[row]@[col]
    }

    /// The number of rows as the `i32` that rendering reads it as.
    pub open spec fn grid_height(&self) -> int {
        len_as_i32(self.tiles@.len() as int)
    }

    /// The length of the first row as the `i32` that rendering reads it as (0 when there is
    /// no row).
    pub open spec fn grid_width(&self) -> int {
        if self.grid_height() > 0 {
            len_as_i32(self.tiles@[0]@.len() as int)
        } else {
            0
        }
    }

    /// The tile spacing as the signed value it is drawn with.
    pub open spec fn spacing(&self) -> int {
        span(self.tile_size)
    }

    /// First column in view of a camera at `cam_x`.
    pub open spec fn first_col(&self, cam_x: int) -> int {
        min_int(max_int(trunc_div(cam_x, self.spacing()), 0), self.grid_width())
    }

    /// First row in view of a camera at `cam_y`.
    pub open spec fn first_row(&self, cam_y: int) -> int {
        min_int(max_int(trunc_div(cam_y, self.spacing()), 0), self.grid_height())
    }

    /// One past the last column in view of a camera at `cam_x` on a `w`-wide target.
    pub open spec fn end_col(&self, cam_x: int, w: u32) -> int {
        min_int(trunc_div(cam_x + span(w) + self.spacing() - 1, self.spacing()), self.grid_width())
    }

    /// One past the last row in view of a camera at `cam_y` on an `h`-high target.
    pub open spec fn end_row(&self, cam_y: int, h: u32) -> int {
        min_int(trunc_div(cam_y + span(h) + self.spacing() - 1, self.spacing()), self.grid_height())
    }

    /// The cell `(col, row)` is drawn: it holds a tile id that the tileset has.
    pub open spec fn drawn(&self, col: int, row: int) -> bool {
        self.tile(col, row) != 0 && self.tileset@.contains_key(self.tile(col, row))
    }

    /// Blitting the tile of cell `(col, row)` stays within `i32` arithmetic and inside the
    /// target.
    pub open spec fn cell_fits(&self, w: u32, h: u32, cam_x: int, cam_y: int, col: int, row: int) -> bool {
        let ts = self.spacing();
        let t = self.tileset@[self.tile(col, row)];
        &&& col < self.tiles@[row]@.len()
        &&& self.drawn(col, row) ==> {
            &&& fits_i32(col * ts) && fits_i32(col * ts - cam_x)
            &&& fits_i32(row * ts) && fits_i32(row * ts - cam_y)
            &&& blit_fits(
                w,
                h,
                t.spec_width(),
                t.spec_height(),
                (col * ts - cam_x) as i32,
                (row * ts - cam_y) as i32,
            )
        }
    }

    /// Rendering onto a `w` by `h` target from a camera at `(cam_x, cam_y)` computes the
    /// visible range within `i32` (no division by zero or overflow) and every blit of a
    /// visible tile stays inside the target.
    pub open spec fn render_fits(&self, w: u32, h: u32, cam_x: int, cam_y: int) -> bool {
        let ts = self.spacing();
        &&& ts != 0
        &&& !(cam_x == i32::MIN && ts == -1)
        &&& !(cam_y == i32::MIN && ts == -1)
        &&& fits_i32(cam_x + span(w)) && fits_i32(cam_x + span(w) + ts) && fits_i32(
            cam_x + span(w) + ts - 1,
        )
        &&& fits_i32(cam_y + span(h)) && fits_i32(cam_y + span(h) + ts) && fits_i32(
            cam_y + span(h) + ts - 1,
        )
        &&& !(cam_x + span(w) + ts - 1 == i32::MIN && ts == -1)
        &&& !(cam_y + span(h) + ts - 1 == i32::MIN && ts == -1)
        &&& forall|col: int, row: int|
            self.first_col(cam_x) <= col < self.end_col(cam_x, w) && self.first_row(cam_y) <= row
                < self.end_row(cam_y, h) ==> #[trigger] self.cell_fits(w, h, cam_x, cam_y, col, row)
    }

    /// The target pixels after blitting the tile of cell `(col, row)`, if it is drawn.
    pub open spec fn render_cell(
        &self,
        cells: Seq<u32>,
        w: u32,
        h: u32,
        cam_x: int,
        cam_y: int,
        col: int,
        row: int,
    ) -> Seq<u32> {
        if self.drawn(col, row) {
            let t = self.tileset@[self.tile(col, row)];
            blitted(
                cells,
                w,
                h,
                t@,
                t.spec_width(),
                t.spec_height(),
                (col * self.spacing() - cam_x) as i32,
                (row * self.spacing() - cam_y) as i32,
            )
        } else {
            cells
        }
    }

    /// The target pixels after blitting the cells `col..end` of `row`, left to right.
    pub open spec fn render_span(
        &self,
        cells: Seq<u32>,
        w: u32,
        h: u32,
        cam_x: int,
        cam_y: int,
        row: int,
        col: int,
        end: int,
    ) -> Seq<u32>
        decreases end - col,
    {
        if col >= end {
            cells
        } else {
            self.render_span(
                self.render_cell(cells, w, h, cam_x, cam_y, col, row),
                w,
                h,
                cam_x,
                cam_y,
                row,
                col + 1,
                end,
            )
        }
    }

    /// The target pixels after blitting the visible cells of rows `row..end`, top to bottom.
    pub open spec fn render_rows(
        &self,
        cells: Seq<u32>,
        w: u32,
        h: u32,
        cam_x: int,
        cam_y: int,
        row: int,
        end: int,
    ) -> Seq<u32>
        decreases end - row,
    {
        if row >= end {
            cells
        } else {
            self.render_rows(
                self.render_span(
                    cells,
                    w,
                    h,
                    cam_x,
                    cam_y,
                    row,
                    self.first_col(cam_x),
                    self.end_col(cam_x, w),
                ),
                w,
                h,
                cam_x,
                cam_y,
                row + 1,
                end,
            )
        }
    }

    /// The pixels of a `w` by `h` target after rendering the visible part of the map from a
    /// camera at `(cam_x, cam_y)`.
    pub open spec fn rendered(&self, cells: Seq<u32>, w: u32, h: u32, cam_x: int, cam_y: int) -> Seq<
        u32,
    > {
        self.render_rows(cells, w, h, cam_x, cam_y, self.first_row(cam_y), self.end_row(cam_y, h))
    }

    /// A `width` by `height` grid of empty cells.
    pub fn new(width: u32, height: u32, tile_size: u32) -> (tm: TileMap)
        ensures
            tm.grid() == Seq::new(height as nat, |y: int| Seq::new(width as nat, |x: int| 0u32)),
            tm.tile_size == tile_size,
            tm.tileset@ == Map::<u32, Framebuffer>::empty(),
    {
        let mut tiles: Vec<Vec<u32>> = Vec::new();
        let mut y: u32 = 0;
        while y < height
            invariant
                y <= height,
                tiles@.len() == y,
                forall|j: int| 0 <= j < y ==> (#[trigger] tiles@[j])@ == Seq::new(width as nat, |x: int| 0u32),
            decreases height - y,
        {
            let mut row: Vec<u32> = Vec::new();
            let mut x: u32 = 0;
            while x < width
                invariant
                    x <= width,
                    row@ == Seq::new(x as nat, |i: int| 0u32),
                decreases width - x,
            {
                row.push(0);
                x = x + 1;
                assert(row@ =~= Seq::new(x as nat, |i: int| 0u32));
            }
            tiles.push(row);
            y = y + 1;
        }
        TileMap { tiles, tile_size, tileset: HashMap::new() }
    }

    /// Sets the cell `(x, y)` to `tile_id`; does nothing outside the grid.
    pub fn set_tile(&mut self, x: u32, y: u32, tile_id: u32)
        requires
            row_holds(old(self).grid(), x as int, y as int),
        ensures
            final(self).tile_size == old(self).tile_size,
            final(self).tileset@ == old(self).tileset@,
            final(self).grid() == with_cell(old(self).grid(), x as int, y as int, tile_id),
    {
        if (y as usize) < self.tiles.len() && (x as usize) < self.tiles[0].len() {
            let yi = y as usize;
            self.tiles[yi][x as usize] = tile_id;
        }
    }

    /// The tile id at `(x, y)`; 0 outside the grid.
    pub fn get_tile(&self, x: u32, y: u32) -> (id: u32)
        requires
            row_holds(self.grid(), x as int, y as int),
        ensures
            id == cell_value(self.grid(), x as int, y as int),
    {
        if (y as usize) < self.tiles.len() && (x as usize) < self.tiles[0].len() {
            self.tiles[y as usize][x as usize]
        } else {
            0
        }
    }

    /// Blits, row by row and left to right, the tile of every visible non-empty cell whose id
    /// the tileset has, cell `(col, row)` at `(col * tile_size - camera_x, row * tile_size -
    /// camera_y)`.
    pub fn render(&self, target: &mut Framebuffer, camera_x: i32, camera_y: i32)
        requires
            self.render_fits(
                old(target).spec_width(),
                old(target).spec_height(),
                camera_x as int,
                camera_y as int,
            ),
        ensures
            final(target).spec_width() == old(target).spec_width(),
            final(target).spec_height() == old(target).spec_height(),
            final(target)@ == self.rendered(
                old(target)@,
                old(target).spec_width(),
                old(target).spec_height(),
                camera_x as int,
                camera_y as int,
            ),
    {
        let ghost w = target.spec_width();
        let ghost h = target.spec_height();
        let ghost cx = camera_x as int;
        let ghost cy = camera_y as int;
        let ts: i32 = span_i32(self.tile_size);
        let map_h: i32 = len_to_i32(self.tiles.len());
        let map_w: i32 = if map_h > 0 {
            len_to_i32(self.tiles[0].len())
        } else {
            0
        };
        let tw: i32 = span_i32(target.width());
        let th: i32 = span_i32(target.height());
        let start_col = clamp_to(div_toward_zero(camera_x, ts), map_w);
        let start_row = clamp_to(div_toward_zero(camera_y, ts), map_h);
        let end_col = min_i32(div_toward_zero(camera_x + tw + ts - 1, ts), map_w);
        let end_row = min_i32(div_toward_zero(camera_y + th + ts - 1, ts), map_h);
        assert(start_col == self.first_col(cx));
        assert(start_row == self.first_row(cy));
        assert(end_col == self.end_col(cx, w));
        assert(end_row == self.end_row(cy, h));
        let mut row = start_row;
        while row < end_row
            invariant
                target.spec_width() == w,
                target.spec_height() == h,
                w == old(target).spec_width(),
                h == old(target).spec_height(),
                cx == camera_x as int,
                cy == camera_y as int,
                self.render_fits(w, h, cx, cy),
                ts == self.spacing(),
                start_col == self.first_col(cx),
                end_col == self.end_col(cx, w),
                start_row == self.first_row(cy),
                end_row == self.end_row(cy, h),
                start_row <= row,
                start_row < end_row ==> row <= end_row,
                start_col < end_col ==> 0 <= start_col,
                start_row < end_row ==> 0 <= start_row,
                self.rendered(old(target)@, w, h, cx, cy) == self.render_rows(
                    target@,
                    w,
                    h,
                    cx,
                    cy,
                    row as int,
                    end_row as int,
                ),
            decreases end_row - row,
        {
            let mut col = start_col;
            while col < end_col
                invariant
                    target.spec_width() == w,
                    target.spec_height() == h,
                    cx == camera_x as int,
                    cy == camera_y as int,
                    self.render_fits(w, h, cx, cy),
                    ts == self.spacing(),
                    start_col == self.first_col(cx),
                    end_col == self.end_col(cx, w),
                    start_row == self.first_row(cy),
                    end_row == self.end_row(cy, h),
                    start_row <= row < end_row,
                    start_col <= col,
                    start_col < end_col ==> col <= end_col,
                    start_col < end_col ==> 0 <= start_col,
                    0 <= start_row,
                    self.rendered(old(target)@, w, h, cx, cy) == self.render_rows(
                        self.render_span(
                            target@,
                            w,
                            h,
                            cx,
                            cy,
                            row as int,
                            col as int,
                            end_col as int,
                        ),
                        w,
                        h,
                        cx,
                        cy,
                        row as int + 1,
                        end_row as int,
                    ),
                decreases end_col - col,
            {
                assert(self.cell_fits(w, h, cx, cy, col as int, row as int));
                let ghost before = target@;
                let tile_id = self.tiles[row as usize][col as usize];
                if tile_id != 0 {
                    if let Some(tile) = self.tileset.get(&tile_id) {
                        let px = col * ts - camera_x;
                        let py = row * ts - camera_y;
                        target.blit(tile, px, py);
                    }
                }
                assert(target@ == self.render_cell(before, w, h, cx, cy, col as int, row as int));
                col = col + 1;
            }
            row = row + 1;
        }
    }
}

/// The signed value of a `u32` as `i32`.
fn span_i32(n: u32) -> (v: i32)
    ensures
        v == span(n),
{
    if n <= 0x7fff_ffff {
        n as i32
    } else {
        (n as i64 - 0x1_0000_0000) as i32
    }
}

/// A length as the `i32` that its low 32 bits spell.
fn len_to_i32(n: usize) -> (v: i32)
    ensures
        v == len_as_i32(n as int),
        v <= n,
{
    span_i32((n as u64 % 0x1_0000_0000) as u32)
}

/// `a / b` rounded towards zero.
fn div_toward_zero(a: i32, b: i32) -> (q: i32)
    requires
        b != 0,
        !(a == i32::MIN && b == -1),
    ensures
        q == trunc_div(a as int, b as int),
{
    let ua: u64 = if a < 0 {
        (-(a as i64)) as u64
    } else {
        a as u64
    };
    let ub: u64 = if b < 0 {
        (-(b as i64)) as u64
    } else {
        b as u64
    };
    let q: u64 = ua / ub;
    assert(q <= ua) by (nonlinear_arith)
        requires
            ub >= 1,
            q == ua / ub,
    ;
    if ub >= 2 {
        assert(q <= ua / 2) by (nonlinear_arith)
            requires
                ub >= 2,
                q == ua / ub,
        ;
    }
    if (a >= 0) == (b > 0) {
        assert(q <= i32::MAX);
        q as i32
    } else {
        -(q as i64) as i32
    }
}

/// `v` clamped below by 0 and above by `hi`.
fn clamp_to(v: i32, hi: i32) -> (r: i32)
    ensures
        r == min_int(max_int(v as int, 0), hi as int),
{
    let lo = if v >= 0 {
        v
    } else {
        0
    };
    min_i32(lo, hi)
}

fn min_i32(a: i32, b: i32) -> (r: i32)
    ensures
        r == min_int(a as int, b as int),
{
    if a <= b {
        a
    } else {
        b
    }
}

} // verus!

//! The point sets that the drawing primitives cover: Bresenham lines and midpoint
//! circles, each defined by the run of its integer algorithm, together with the
//! conditions under which that run stays within `i32` arithmetic.
use vstd::prelude::*;
use crate::rect::fits_i32;

verus! {

pub open spec fn abs_int(v: int) -> int {
    if v < 0 {
        -v
    } else {
        v
    }
}

/// The step direction from `a` towards `b` (`-1` when they are equal).
pub open spec fn dir(a: int, b: int) -> int {
    if a < b {
        1
    } else {
        -1
    }
}

/// The error term of a Bresenham run when it starts.
pub open spec fn line_err0(x0: int, y0: int, x1: int, y1: int) -> int {
    abs_int(x1 - x0) - abs_int(y1 - y0)
}

/// The number of steps that bound a Bresenham run from `(x0, y0)` to `(x1, y1)`.
pub open spec fn line_fuel(x0: int, y0: int, x1: int, y1: int) -> nat {
    (abs_int(x1 - x0) + abs_int(y1 - y0)) as nat
}

/// One step of Bresenham's algorithm at `(cx, cy)` with error term `err`: it moves along x
/// when `2 * err >= dy`, along y when `2 * err <= dx` (possibly both), and returns the new
/// position and error term.
pub open spec fn line_step(x0: int, y0: int, x1: int, y1: int, cx: int, cy: int, err: int) -> (
    int,
    int,
    int,
) {
    let dx = abs_int(x1 - x0);
    let dy = -abs_int(y1 - y0);
    let e2 = 2 * err;
    let err1 = if e2 >= dy {
        err + dy
    } else {
        err
    };
    let nx = if e2 >= dy {
        cx + dir(x0, x1)
    } else {
        cx
    };
    let err2 = if e2 <= dx {
        err1 + dx
    } else {
        err1
    };
    let ny = if e2 <= dx {
        cy + dir(y0, y1)
    } else {
        cy
    };
    (nx, ny, err2)
}

/// Whether the run that continues from state `(cx, cy, err)`, for at most `fuel` more
/// steps, visits `(px, py)`. The run stops on reaching `(x1, y1)`.
pub open spec fn line_visits(
    x0: int,
    y0: int,
    x1: int,
    y1: int,
    cx: int,
    cy: int,
    err: int,
    fuel: nat,
    px: int,
    py: int,
) -> bool
    decreases fuel,
{
    if cx == px && cy == py {
        true
    } else if (cx == x1 && cy == y1) || fuel == 0 {
        false
    } else {
        let (nx, ny, ne) = line_step(x0, y0, x1, y1, cx, cy, err);
        line_visits(x0, y0, x1, y1, nx, ny, ne, (fuel - 1) as nat, px, py)
    }
}

/// `(px, py)` is a point of the Bresenham line from `(x0, y0)` to `(x1, y1)` (both ends
/// included).
pub open spec fn on_line(x0: int, y0: int, x1: int, y1: int, px: int, py: int) -> bool {
    line_visits(
        x0,
        y0,
        x1,
        y1,
        x0,
        y0,
        line_err0(x0, y0, x1, y1),
        line_fuel(x0, y0, x1, y1),
        px,
        py,
    )
}

/// Every step of the run from state `(cx, cy, err)` computes its doubled error term, its
/// new error terms and its new coordinates within `i32`.
pub open spec fn line_run_fits(
    x0: int,
    y0: int,
    x1: int,
    y1: int,
    cx: int,
    cy: int,
    err: int,
    fuel: nat,
) -> bool
    decreases fuel,
{
    if (cx == x1 && cy == y1) || fuel == 0 {
        true
    } else {
        let dx = abs_int(x1 - x0);
        let dy = -abs_int(y1 - y0);
        let e2 = 2 * err;
        let err1 = if e2 >= dy {
            err + dy
        } else {
            err
        };
        let (nx, ny, ne) = line_step(x0, y0, x1, y1, cx, cy, err);
        &&& fits_i32(e2)
        &&& e2 >= dy ==> fits_i32(err + dy) && fits_i32(cx + dir(x0, x1))
        &&& e2 <= dx ==> fits_i32(err1 + dx) && fits_i32(cy + dir(y0, y1))
        &&& line_run_fits(x0, y0, x1, y1, nx, ny, ne, (fuel - 1) as nat)
    }
}

/// Drawing the line from `(x0, y0)` to `(x1, y1)` stays within `i32` arithmetic: the
/// coordinate differences and their magnitudes, and every step of the run.
pub open spec fn line_fits(x0: int, y0: int, x1: int, y1: int) -> bool {
    &&& fits_i32(x1 - x0) && x1 - x0 != i32::MIN
    &&& fits_i32(y1 - y0) && y1 - y0 != i32::MIN
    &&& line_run_fits(
        x0,
        y0,
        x1,
        y1,
        x0,
        y0,
        line_err0(x0, y0, x1, y1),
        line_fuel(x0, y0, x1, y1),
    )
}

/// A Bresenham step from a state `(X, Y)` steps into the run (`X` steps taken along x, `Y`
/// along y) never overshoots the end point and always moves.
pub proof fn lemma_line_step(dx: int, dy: int, xs: int, ys: int, err: int)
    requires
        0 <= xs <= dx,
        0 <= ys <= dy,
        !(xs == dx && ys == dy),
        err == (1 + ys) * dx - (1 + xs) * dy,
    ensures
        2 * err >= -dy ==> xs < dx,
        2 * err <= dx ==> ys < dy,
        2 * err >= -dy || 2 * err <= dx,
{
    if 2 * err >= -dy && xs == dx {
        assert(ys < dy);
        assert(false) by (nonlinear_arith)
            requires
                2 * err >= -dy,
                err == (1 + ys) * dx - (1 + dx) * dy,
                0 <= ys < dy,
                0 <= dx,
        ;
    }
    if 2 * err <= dx && ys == dy {
        assert(xs < dx);
        assert(false) by (nonlinear_arith)
            requires
                2 * err <= dx,
                err == (1 + dy) * dx - (1 + xs) * dy,
                0 <= xs < dx,
                0 <= dy,
        ;
    }
}

// ---------------------------------------------------------------------------
// Midpoint circles
// ---------------------------------------------------------------------------

/// One step of the midpoint circle algorithm at octant offset `(x, y)` with decision
/// variable `d`.
pub open spec fn circle_step(x: int, y: int, d: int) -> (int, int, int) {
    let x1 = x + 1;
    if d < 0 {
        (x1, y, d + 2 * x1 + 1)
    } else {
        (x1, y - 1, d + 2 * (x1 - (y - 1)) + 1)
    }
}

/// `(px, py)` is one of the eight mirror images of the octant offset `(x, y)` around
/// `(cx, cy)`.
pub open spec fn mirrored(cx: int, cy: int, x: int, y: int, px: int, py: int) -> bool {
    ||| px == cx + x && py == cy + y
    ||| px == cx - x && py == cy + y
    ||| px == cx + x && py == cy - y
    ||| px == cx - x && py == cy - y
    ||| px == cx + y && py == cy + x
    ||| px == cx - y && py == cy + x
    ||| px == cx + y && py == cy - x
    ||| px == cx - y && py == cy - x
}

/// Whether the run of the midpoint algorithm from state `(x, y, d)` (it lasts while
/// `x <= y`) plots `(px, py)`.
pub open spec fn circle_visits(cx: int, cy: int, x: int, y: int, d: int, px: int, py: int) -> bool
    decreases y - x + 2,
{
    if x > y {
        false
    } else {
        let (nx, ny, nd) = circle_step(x, y, d);
        mirrored(cx, cy, x, y, px, py) || circle_visits(cx, cy, nx, ny, nd, px, py)
    }
}

/// `(px, py)` is a point of the outline of the circle of radius `r` around `(cx, cy)`.
pub open spec fn on_circle(cx: int, cy: int, r: int, px: int, py: int) -> bool {
    r >= 0 && circle_visits(cx, cy, 0, r, 1 - r, px, py)
}

/// The arithmetic of one step of the midpoint algorithm fits in `i32`.
pub open spec fn circle_step_fits(x: int, y: int, d: int) -> bool {
    let x1 = x + 1;
    &&& fits_i32(x1)
    &&& d < 0 ==> fits_i32(2 * x1) && fits_i32(2 * x1 + 1) && fits_i32(d + 2 * x1 + 1)
    &&& d >= 0 ==> fits_i32(y - 1) && fits_i32(x1 - (y - 1)) && fits_i32(2 * (x1 - (y - 1)))
        && fits_i32(2 * (x1 - (y - 1)) + 1) && fits_i32(d + 2 * (x1 - (y - 1)) + 1)
}

/// The eight mirror points of `(x, y)` around `(cx, cy)` fit in `i32`.
pub open spec fn mirrored_fit(cx: int, cy: int, x: int, y: int) -> bool {
    &&& fits_i32(cx + x) && fits_i32(cx - x) && fits_i32(cy + y) && fits_i32(cy - y)
    &&& fits_i32(cx + y) && fits_i32(cx - y) && fits_i32(cy + x) && fits_i32(cy - x)
}

/// Drawing the outline from state `(x, y, d)` on stays within `i32` arithmetic.
pub open spec fn circle_run_fits(cx: int, cy: int, x: int, y: int, d: int) -> bool
    decreases y - x + 2,
{
    if x > y {
        true
    } else {
        let (nx, ny, nd) = circle_step(x, y, d);
        &&& mirrored_fit(cx, cy, x, y)
        &&& circle_step_fits(x, y, d)
        &&& circle_run_fits(cx, cy, nx, ny, nd)
    }
}

/// Whether the run of the filled-circle algorithm from state `(x, y, d)` covers `(px, py)`:
/// at each state it draws four horizontal spans.
pub open spec fn disc_visits(cx: int, cy: int, x: int, y: int, d: int, px: int, py: int) -> bool
    decreases y - x + 2,
{
    if x > y {
        false
    } else {
        let (nx, ny, nd) = circle_step(x, y, d);
        ||| on_line(cx - x, cy + y, cx + x, cy + y, px, py)
        ||| on_line(cx - x, cy - y, cx + x, cy - y, px, py)
        ||| on_line(cx - y, cy + x, cx + y, cy + x, px, py)
        ||| on_line(cx - y, cy - x, cx + y, cy - x, px, py)
        ||| disc_visits(cx, cy, nx, ny, nd, px, py)
    }
}

/// `(px, py)` is covered by the filled circle of radius `r` around `(cx, cy)`.
pub open spec fn on_disc(cx: int, cy: int, r: int, px: int, py: int) -> bool {
    r >= 0 && disc_visits(cx, cy, 0, r, 1 - r, px, py)
}

/// Drawing the filled circle from state `(x, y, d)` on stays within `i32` arithmetic,
/// its spans included.
pub open spec fn disc_run_fits(cx: int, cy: int, x: int, y: int, d: int) -> bool
    decreases y - x + 2,
{
    if x > y {
        true
    } else {
        let (nx, ny, nd) = circle_step(x, y, d);
        &&& mirrored_fit(cx, cy, x, y)
        &&& line_fits(cx - x, cy + y, cx + x, cy + y)
        &&& line_fits(cx - x, cy - y, cx + x, cy - y)
        &&& line_fits(cx - y, cy + x, cx + y, cy + x)
        &&& line_fits(cx - y, cy - x, cx + y, cy - x)
        &&& circle_step_fits(x, y, d)
        &&& disc_run_fits(cx, cy, nx, ny, nd)
    }
}

} // verus!

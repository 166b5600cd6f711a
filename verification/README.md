# canvas2d

A small software rasterizer with machine-checked contracts: RGBA colours (packing, hex notation,
premultiplication, source-over blending), rectangles (containment, overlap, clipping),
a framebuffer of packed pixels with Bresenham lines, rectangle outlines, midpoint circles
(outline and filled), rectangle fills and alpha-blended blits, recorded draw lists, and
tile maps rendered through a camera.

Layout:

- `src/single.rs`: single-precision rounding of the values that colour blending computes
  with, carried out exactly in integers.
- `src/color.rs`, `src/rect.rs`: the value types and their specifications.
- `src/raster.rs`: the point sets of lines and circles, defined by the runs of their
  integer algorithms, and the conditions under which those runs stay within `i32`.
- `src/framebuffer.rs`: the pixel model (`paint`, `blitted`, ...) and the framebuffer.
- `src/drawlist.rs`, `src/tilemap.rs`: command lists and tile maps.
- `src/laws.rs`: properties that relate several operations (reading back a write,
  clipping as intersection, the shape of lines, outlines and discs, determinism).
- `tests/`: executable tests.
- `app/`: serde-serializable copies of `Color`, `Rect` and `DrawCommand`, and colour
  interpolation, which is floating-point arithmetic.

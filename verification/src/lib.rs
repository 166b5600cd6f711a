//! A small software rasterizer: colours, rectangles, a pixel framebuffer with line,
//! rectangle and circle drawing, alpha-blended blits, recorded draw lists and tile maps.

pub mod single;
pub mod color;
pub mod rect;
pub mod raster;
pub mod framebuffer;
pub mod drawlist;
pub mod tilemap;
pub mod laws;
pub mod clipping;

pub use color::Color;
pub use rect::Rect;
pub use framebuffer::Framebuffer;
pub use drawlist::{DrawCommand, DrawList};
pub use tilemap::TileMap;

use canvas2d::{Color, Framebuffer, TileMap};

#[test]
fn tilemap_set_get() {
    let mut tm = TileMap::new(5, 5, 16);
    tm.set_tile(2, 3, 42);
    assert_eq!(tm.get_tile(2, 3), 42);
    assert_eq!(tm.get_tile(0, 0), 0);
}

#[test]
fn tilemap_render() {
    let mut tm = TileMap::new(3, 3, 4);
    let mut tile = Framebuffer::new(4, 4);
    tile.clear(Color::blue());
    tm.tileset.insert(1, tile);
    tm.set_tile(0, 0, 1);
    tm.set_tile(1, 0, 1);
    let mut fb = Framebuffer::new(8, 4);
    tm.render(&mut fb, 0, 0);
    // tile (0,0) fills 0..4, tile (1,0) fills 4..8
    assert_eq!(fb.get_pixel(0, 0), Color::blue());
    assert_eq!(fb.get_pixel(4, 0), Color::blue());
}

#[test]
fn tilemap_render_with_camera() {
    let mut tm = TileMap::new(3, 3, 8);
    let mut tile = Framebuffer::new(8, 8);
    tile.clear(Color::red());
    tm.tileset.insert(1, tile);
    tm.set_tile(0, 0, 1);
    let mut fb = Framebuffer::new(8, 8);
    tm.render(&mut fb, 4, 4); // camera offset
    // tile (0,0) starts at pixel (-4,-4), so only bottom-right quadrant visible
    assert_eq!(fb.get_pixel(0, 0), Color::red());
    assert_eq!(fb.get_pixel(3, 3), Color::red());
}

// -- further cases --

#[test]
fn tilemap_new_shape() {
    let tm = TileMap::new(4, 2, 8);
    assert_eq!(tm.tiles.len(), 2);
    assert_eq!(tm.tiles[0], vec![0; 4]);
    assert_eq!(tm.tiles[1], vec![0; 4]);
    assert_eq!(tm.tile_size, 8);
    assert!(tm.tileset.is_empty());
}

#[test]
fn tilemap_out_of_grid() {
    let mut tm = TileMap::new(2, 2, 8);
    tm.set_tile(2, 0, 5);
    tm.set_tile(0, 2, 5);
    assert_eq!(tm.get_tile(2, 0), 0);
    assert_eq!(tm.get_tile(0, 2), 0);
    assert_eq!(tm.tiles, vec![vec![0, 0], vec![0, 0]]);
    let mut empty = TileMap::new(3, 0, 8);
    empty.set_tile(0, 0, 1);
    assert_eq!(empty.get_tile(0, 0), 0);
}

#[test]
fn tilemap_render_skips_empty_and_unknown_tiles() {
    let mut tm = TileMap::new(2, 1, 2);
    let mut tile = Framebuffer::new(2, 2);
    tile.clear(Color::green());
    tm.tileset.insert(1, tile);
    tm.set_tile(1, 0, 9);
    let mut fb = Framebuffer::new(4, 2);
    tm.render(&mut fb, 0, 0);
    assert!(fb.raw_data().iter().all(|&p| p == 0));
    tm.set_tile(0, 0, 1);
    tm.render(&mut fb, 0, 0);
    assert_eq!(fb.get_pixel(1, 1), Color::green());
    assert_eq!(fb.get_pixel(2, 0), Color::transparent());
}

#[test]
fn tilemap_render_negative_camera() {
    let mut tm = TileMap::new(2, 2, 2);
    let mut tile = Framebuffer::new(2, 2);
    tile.clear(Color::red());
    tm.tileset.insert(1, tile);
    tm.set_tile(0, 0, 1);
    let mut fb = Framebuffer::new(4, 4);
    tm.render(&mut fb, -1, -1);
    assert_eq!(fb.get_pixel(0, 0), Color::transparent());
    assert_eq!(fb.get_pixel(1, 1), Color::red());
    assert_eq!(fb.get_pixel(2, 2), Color::red());
    assert_eq!(fb.get_pixel(3, 3), Color::transparent());
}

use canvas2d::{Color, DrawCommand, DrawList, Framebuffer, Rect};

#[test]
fn drawlist_execute_clear() {
    let mut dl = DrawList::new();
    dl.push(DrawCommand::Clear(Color::red()));
    let mut fb = Framebuffer::new(10, 10);
    dl.execute(&mut fb);
    assert_eq!(fb.get_pixel(5, 5), Color::red());
}

#[test]
fn drawlist_execute_multiple() {
    let mut dl = DrawList::new();
    dl.push(DrawCommand::Clear(Color::black()));
    dl.push(DrawCommand::FillRect(Rect::new(0, 0, 5, 5), Color::red()));
    assert_eq!(dl.len(), 2);
    let mut fb = Framebuffer::new(10, 10);
    dl.execute(&mut fb);
    assert_eq!(fb.get_pixel(0, 0), Color::red());
    assert_eq!(fb.get_pixel(5, 5), Color::black());
}

#[test]
fn drawlist_blit_texture() {
    let mut dl = DrawList::new();
    let mut tex = Framebuffer::new(3, 3);
    tex.clear(Color::green());
    dl.add_texture(1, tex);
    dl.push(DrawCommand::Clear(Color::black()));
    dl.push(DrawCommand::Blit(1, 2, 2));
    let mut fb = Framebuffer::new(10, 10);
    dl.execute(&mut fb);
    assert_eq!(fb.get_pixel(3, 3), Color::green());
}

#[test]
fn drawlist_clear_commands() {
    let mut dl = DrawList::new();
    dl.push(DrawCommand::Clear(Color::white()));
    dl.clear();
    assert_eq!(dl.len(), 0);
}

#[test]
fn determinism_same_commands_same_pixels() {
    let mut dl = DrawList::new();
    dl.push(DrawCommand::Clear(Color::black()));
    dl.push(DrawCommand::FillRect(Rect::new(10, 10, 30, 30), Color::red()));
    dl.push(DrawCommand::DrawCircle(25, 25, 10, Color::white()));
    dl.push(DrawCommand::DrawLine(0, 0, 49, 49, Color::green()));

    let mut fb1 = Framebuffer::new(50, 50);
    dl.execute(&mut fb1);

    let mut fb2 = Framebuffer::new(50, 50);
    dl.execute(&mut fb2);

    assert_eq!(fb1.raw_data(), fb2.raw_data());
}

// -- further cases --

#[test]
fn drawlist_default_and_is_empty() {
    let mut dl = DrawList::default();
    assert!(dl.is_empty());
    dl.push(DrawCommand::Clear(Color::white()));
    assert!(!dl.is_empty());
    assert_eq!(dl.len(), 1);
}

#[test]
fn drawlist_missing_texture_is_skipped() {
    let mut dl = DrawList::new();
    dl.push(DrawCommand::Clear(Color::blue()));
    dl.push(DrawCommand::Blit(7, 0, 0));
    let mut fb = Framebuffer::new(4, 4);
    dl.execute(&mut fb);
    assert_eq!(fb.get_pixel(0, 0), Color::blue());
}

#[test]
fn drawlist_clear_keeps_textures() {
    let mut dl = DrawList::new();
    dl.add_texture(3, Framebuffer::new(1, 1));
    dl.push(DrawCommand::Clear(Color::white()));
    dl.clear();
    assert!(dl.textures.contains_key(&3));
}

#[test]
fn drawlist_runs_in_order_like_direct_calls() {
    let mut dl = DrawList::new();
    dl.push(DrawCommand::Clear(Color::black()));
    dl.push(DrawCommand::DrawRect(Rect::new(1, 1, 6, 5), Color::red()));
    dl.push(DrawCommand::FillCircle(4, 4, 2, Color::green()));
    dl.push(DrawCommand::DrawLine(0, 7, 7, 0, Color::blue()));
    dl.push(DrawCommand::DrawCircle(4, 4, 3, Color::white()));
    let mut a = Framebuffer::new(8, 8);
    dl.execute(&mut a);

    let mut b = Framebuffer::new(8, 8);
    b.clear(Color::black());
    b.draw_rect(Rect::new(1, 1, 6, 5), Color::red());
    b.fill_circle(4, 4, 2, Color::green());
    b.draw_line(0, 7, 7, 0, Color::blue());
    b.draw_circle(4, 4, 3, Color::white());
    assert_eq!(a.raw_data(), b.raw_data());
}

#[test]
fn drawlist_add_texture_replaces() {
    let mut dl = DrawList::new();
    let mut red = Framebuffer::new(1, 1);
    red.clear(Color::red());
    let mut green = Framebuffer::new(1, 1);
    green.clear(Color::green());
    dl.add_texture(1, red);
    dl.add_texture(1, green);
    dl.push(DrawCommand::Blit(1, 0, 0));
    let mut fb = Framebuffer::new(2, 2);
    dl.execute(&mut fb);
    assert_eq!(fb.get_pixel(0, 0), Color::green());
    assert_eq!(fb.get_pixel(1, 0), Color::transparent());
}

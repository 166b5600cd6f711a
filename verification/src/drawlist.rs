use vstd::prelude::*;
use std::collections::HashMap;
use crate::color::{Color, packed};
use crate::rect::Rect;
use crate::raster::{line_fits, on_line, on_circle, on_disc};
use crate::framebuffer::{
    Framebuffer, paint, fill_rect_fits, filled_rect, rect_outline_fits, on_rect_outline,
    circle_fits, disc_fits, blit_fits, blitted,
};

verus! {

broadcast use vstd::std_specs::hash::group_hash_axioms;

/// One recorded drawing operation.
#[derive(Debug, Clone)]
pub enum DrawCommand {
    Clear(Color),
    FillRect(Rect, Color),
    DrawRect(Rect, Color),
    DrawLine(i32, i32, i32, i32, Color),
    DrawCircle(i32, i32, i32, Color),
    FillCircle(i32, i32, i32, Color),
    /// Composite the texture with this id at the given position.
    Blit(u32, i32, i32),
}

/// Running `cmd` on a `w` by `h` target stays within `i32` arithmetic and inside the
/// pixels (a blit of a missing texture does nothing).
pub open spec fn command_fits(
    cmd: DrawCommand,
    w: u32,
    h: u32,
    textures: Map<u32, Framebuffer>,
) -> bool {
    match cmd {
        DrawCommand::Clear(_) => true,
        DrawCommand::FillRect(r, _) => fill_rect_fits(r, w, h),
        DrawCommand::DrawRect(r, _) => rect_outline_fits(r),
        DrawCommand::DrawLine(x0, y0, x1, y1, _) => line_fits(
            x0 as int,
            y0 as int,
            x1 as int,
            y1 as int,
        ),
        DrawCommand::DrawCircle(cx, cy, r, _) => circle_fits(cx as int, cy as int, r as int),
        DrawCommand::FillCircle(cx, cy, r, _) => disc_fits(cx as int, cy as int, r as int),
        DrawCommand::Blit(id, x, y) => textures.contains_key(id) ==> blit_fits(
            w,
            h,
            textures[id].spec_width(),
            textures[id].spec_height(),
            x,
            y,
        ),
    }
}

/// The pixels of a `w` by `h` target after running `cmd` on them.
pub open spec fn command_effect(
    cells: Seq<u32>,
    w: u32,
    h: u32,
    cmd: DrawCommand,
    textures: Map<u32, Framebuffer>,
) -> Seq<u32> {
    match cmd {
        DrawCommand::Clear(c) => Seq::new(cells.len(), |i: int| packed(c)),
        DrawCommand::FillRect(r, c) => filled_rect(cells, w, h, r, c),
        DrawCommand::DrawRect(r, c) => paint(
            cells,
            w as int,
            |px: int, py: int| on_rect_outline(r, px, py),
            packed(c),
        ),
        DrawCommand::DrawLine(x0, y0, x1, y1, c) => paint(
            cells,
            w as int,
            |px: int, py: int| on_line(x0 as int, y0 as int, x1 as int, y1 as int, px, py),
            packed(c),
        ),
        DrawCommand::DrawCircle(cx, cy, r, c) => paint(
            cells,
            w as int,
            |px: int, py: int| on_circle(cx as int, cy as int, r as int, px, py),
            packed(c),
        ),
        DrawCommand::FillCircle(cx, cy, r, c) => paint(
            cells,
            w as int,
            |px: int, py: int| on_disc(cx as int, cy as int, r as int, px, py),
            packed(c),
        ),
        DrawCommand::Blit(id, x, y) => if textures.contains_key(id) {
            let t = textures[id];
            blitted(cells, w, h, t@, t.spec_width(), t.spec_height(), x, y)
        } else {
            cells
        },
    }
}

/// The pixels of a `w` by `h` target after running `cmds` on them in order.
pub open spec fn run_commands(
    cells: Seq<u32>,
    w: u32,
    h: u32,
    cmds: Seq<DrawCommand>,
    textures: Map<u32, Framebuffer>,
) -> Seq<u32>
    decreases cmds.len(),
{
    if cmds.len() == 0 {
        cells
    } else {
        command_effect(
            run_commands(cells, w, h, cmds.drop_last(), textures),
            w,
            h,
            cmds.last(),
            textures,
        )
    }
}

/// A recorded list of drawing commands and the textures that its blits refer to.
#[derive(Debug, Clone)]
pub struct DrawList {
    pub commands: Vec<DrawCommand>,
    pub textures: HashMap<u32, Framebuffer>,
}

impl Default for DrawList {
    fn default() -> (dl: Self)
        ensures
            dl.commands@.len() == 0,
            dl.textures@ == Map::<u32, Framebuffer>::empty(),
    {
        Self::new()
    }
}

impl DrawList {
    /// An empty list with no textures.
    pub fn new() -> (dl: Self)
        ensures
            dl.commands@.len() == 0,
            dl.textures@ == Map::<u32, Framebuffer>::empty(),
    {
        DrawList { commands: Vec::new(), textures: HashMap::new() }
    }

    /// Appends a command.
    pub fn push(&mut self, cmd: DrawCommand)
        ensures
            final(self).commands@ == old(self).commands@.push(cmd),
            final(self).textures@ == old(self).textures@,
    {
        self.commands.push(cmd);
    }

    /// Removes every command; the textures stay.
    pub fn clear(&mut self)
        ensures
            final(self).commands@.len() == 0,
            final(self).textures@ == old(self).textures@,
    {
        self.commands.clear();
    }

    /// Registers `fb` as texture `id`, replacing any texture with that id.
    pub fn add_texture(&mut self, id: u32, fb: Framebuffer)
        ensures
            final(self).commands@ == old(self).commands@,
            final(self).textures@ == old(self).textures@.insert(id, fb),
    {
        self.textures.insert(id, fb);
    }

    /// Runs the commands on `target` in order; a blit of an unregistered texture does
    /// nothing.
    pub fn execute(&self, target: &mut Framebuffer)
        requires
            forall|i: int|
                0 <= i < self.commands@.len() ==> command_fits(
                    #[trigger] self.commands@[i],
                    old(target).spec_width(),
                    old(target).spec_height(),
                    self.textures@,
                ),
        ensures
            final(target).spec_width() == old(target).spec_width(),
            final(target).spec_height() == old(target).spec_height(),
            final(target)@ == run_commands(
                old(target)@,
                old(target).spec_width(),
                old(target).spec_height(),
                self.commands@,
                self.textures@,
            ),
    {
        let n = self.commands.len();
        let mut i: usize = 0;
        while i < n
            invariant
                n == self.commands@.len(),
                i <= n,
                target.spec_width() == old(target).spec_width(),
                target.spec_height() == old(target).spec_height(),
                forall|j: int|
                    0 <= j < self.commands@.len() ==> command_fits(
                        #[trigger] self.commands@[j],
                        old(target).spec_width(),
                        old(target).spec_height(),
                        self.textures@,
                    ),
                target@ == run_commands(
                    old(target)@,
                    old(target).spec_width(),
                    old(target).spec_height(),
                    self.commands@.subrange(0, i as int),
                    self.textures@,
                ),
            decreases n - i,
        {
            let ghost before = target@;
            let cmd = &self.commands[i];
            assert(command_fits(*cmd, target.spec_width(), target.spec_height(), self.textures@));
            match cmd {
                DrawCommand::Clear(c) => target.clear(*c),
                DrawCommand::FillRect(r, c) => target.fill_rect(*r, *c),
                DrawCommand::DrawRect(r, c) => target.draw_rect(*r, *c),
                DrawCommand::DrawLine(x0, y0, x1, y1, c) => target.draw_line(*x0, *y0, *x1, *y1, *c),
                DrawCommand::DrawCircle(cx, cy, r, c) => target.draw_circle(*cx, *cy, *r, *c),
                DrawCommand::FillCircle(cx, cy, r, c) => target.fill_circle(*cx, *cy, *r, *c),
                DrawCommand::Blit(id, x, y) => {
                    if let Some(src) = self.textures.get(id) {
                        target.blit(src, *x, *y);
                    }
                },
            }
            proof {
                let done = self.commands@.subrange(0, i as int + 1);
                assert(done.drop_last() =~= self.commands@.subrange(0, i as int));
                assert(done.last() == self.commands@[i as int]);
                assert(target@ == command_effect(
                    before,
                    old(target).spec_width(),
                    old(target).spec_height(),
                    self.commands@[i as int],
                    self.textures@,
                ));
            }
            i = i + 1;
        }
        assert(self.commands@.subrange(0, n as int) =~= self.commands@);
    }

    /// The number of commands.
    pub fn len(&self) -> (n: usize)
        ensures
            n == self.commands@.len(),
    {
        self.commands.len()
    }

    /// Whether there are no commands.
    pub fn is_empty(&self) -> (b: bool)
        ensures
            b == (self.commands@.len() == 0),
    {
        self.commands.len() == 0
    }
}

} // verus!

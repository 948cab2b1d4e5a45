//! A cuboid in the game's skewed 3D coordinate system, with its isometric
//! screen-space projection: the x axis runs diagonally down-right and the z
//! axis diagonally up-right, both at half slope.

use vstd::prelude::*;

use crate::color::Color;
use crate::num::tdiv;
use crate::renderer::Renderer;

verus! {

/// A game block: a position in skewed 3D space, its extents, and the hue
/// (in degrees) it is shaded with once committed.
#[derive(Clone, Copy, PartialEq, Eq, Structural, Debug)]
pub struct Block {
    pub x: i32,
    pub y: i32,
    pub z: i32,
    pub width: i32,
    pub height: i32,
    pub depth: i32,
    pub hue: i32,
}

impl Block {
    /// Screen x of the projected near-top-left corner.
    pub open spec fn proj_x(&self, base_x: int) -> int {
        base_x + self.x + self.z
    }

    /// Screen y of the projected near-top-left corner.
    pub open spec fn proj_y(&self, base_y: int) -> int {
        base_y + self.y + tdiv(self.x as int, 2) - tdiv(self.z as int, 2)
    }

    /// All coordinates small enough for the projection arithmetic.
    pub open spec fn in_range(&self) -> bool {
        &&& -30000 <= self.x <= 30000
        &&& -30000 <= self.y <= 30000
        &&& -30000 <= self.z <= 30000
        &&& 0 <= self.width <= 300
        &&& 0 <= self.height <= 300
        &&& 0 <= self.depth <= 300
    }

    pub fn new(pos_x: i32, pos_y: i32, pos_z: i32, w: i32, h: i32, d: i32, hue: i32) -> (b: Block)
        ensures
            b == (Block { x: pos_x, y: pos_y, z: pos_z, width: w, height: h, depth: d, hue }),
    {
        Block { x: pos_x, y: pos_y, z: pos_z, width: w, height: h, depth: d, hue }
    }

    /// Left edge of the block's projected bounding box.
    pub fn min_x(&self, base_x: i32, _base_y: i32) -> (r: i32)
        requires
            self.in_range(),
            -100000 <= base_x <= 100000,
        ensures
            r == self.proj_x(base_x as int),
    {
        base_x + self.x + self.z
    }

    /// Top edge of the block's projected bounding box.
    pub fn min_y(&self, _base_x: i32, base_y: i32) -> (r: i32)
        requires
            self.in_range(),
            -100000 <= base_y <= 100000,
        ensures
            r == self.proj_y(base_y as int) - tdiv(self.depth as int, 2),
    {
        base_y + self.y + half(self.x) - half(self.z) - half(self.depth)
    }

    /// Right edge of the block's projected bounding box.
    pub fn max_x(&self, base_x: i32, _base_y: i32) -> (r: i32)
        requires
            self.in_range(),
            -100000 <= base_x <= 100000,
        ensures
            r == self.proj_x(base_x as int) + self.width + self.depth,
    {
        base_x + self.x + self.z + self.width + self.depth
    }

    /// Bottom edge of the block's projected bounding box.
    pub fn max_y(&self, _base_x: i32, base_y: i32) -> (r: i32)
        requires
            self.in_range(),
            -100000 <= base_y <= 100000,
        ensures
            r == self.proj_y(base_y as int) + tdiv(self.width as int, 2) + self.height,
    {
        base_y + self.y + half(self.x) - half(self.z) + half(self.width) + self.height
    }

    /// Draws the block's wireframe outline at its projected position.
    pub fn draw(&self, renderer: &mut Renderer, base_x: i32, base_y: i32, color: Color)
        requires
            old(renderer).inv(),
            self.in_range(),
            -46000 <= self.proj_x(base_x as int) <= 46000,
            -46000 <= self.proj_y(base_y as int) <= 46000,
            -100000 <= base_x <= 100000,
            -100000 <= base_y <= 100000,
            !old(renderer).is_direct() ==> old(renderer).log_len(old(renderer).cur_buffer())
                + crate::renderer::wire_budget(
                self.proj_x(base_x as int),
                self.proj_y(base_y as int),
                self.width as int,
                self.height as int,
                self.depth as int,
            ) <= crate::renderer::PIXEL_BUFFER_SIZE,
        ensures
            final(renderer).inv(),
            Renderer::touches(
                *old(renderer),
                *final(renderer),
                crate::renderer::wire_box_shape(
                    self.proj_x(base_x as int),
                    self.proj_y(base_y as int),
                    self.width as int,
                    self.height as int,
                    self.depth as int,
                ),
                color,
            ),
            Renderer::painted(
                *old(renderer),
                *final(renderer),
                crate::renderer::wire_trace_shape(
                    self.proj_x(base_x as int),
                    self.proj_y(base_y as int),
                    self.width as int,
                    self.height as int,
                    self.depth as int,
                ),
                color,
            ),
            final(renderer).log_len(old(renderer).cur_buffer()) <= old(renderer).log_len(
                old(renderer).cur_buffer(),
            ) + crate::renderer::wire_budget(
                self.proj_x(base_x as int),
                self.proj_y(base_y as int),
                self.width as int,
                self.height as int,
                self.depth as int,
            ),
            final(renderer).log_len(old(renderer).cur_buffer()) >= old(renderer).log_len(
                old(renderer).cur_buffer(),
            ),
    {
        renderer.draw_block_3d(
            base_x + self.x + self.z,
            base_y + self.y + half(self.x) - half(self.z),
            self.width,
            self.height,
            self.depth,
            color,
        );
    }

    /// Draws the block solid, with independently shaded left, right and top
    /// faces, at its projected position.
    pub fn draw_solid(
        &self,
        renderer: &mut Renderer,
        base_x: i32,
        base_y: i32,
        left_color: Color,
        right_color: Color,
        top_color: Color,
    )
        requires
            old(renderer).inv(),
            self.in_range(),
            1 <= self.width,
            1 <= self.depth,
            -46000 <= self.proj_x(base_x as int) <= 46000,
            -46000 <= self.proj_y(base_y as int) <= 46000,
            -100000 <= base_x <= 100000,
            -100000 <= base_y <= 100000,
            !old(renderer).is_direct() ==> old(renderer).log_len(old(renderer).cur_buffer())
                + crate::renderer::solid_budget(
                self.proj_x(base_x as int),
                self.proj_y(base_y as int),
                self.width as int,
                self.height as int,
                self.depth as int,
            ) <= crate::renderer::PIXEL_BUFFER_SIZE,
        ensures
            final(renderer).inv(),
            crate::renderer::covers_paint(
                *old(renderer),
                *final(renderer),
                crate::renderer::block_face_paint(
                    self.proj_x(base_x as int),
                    self.proj_y(base_y as int),
                    self.width as int,
                    self.height as int,
                    self.depth as int,
                    left_color,
                    right_color,
                    top_color,
                ),
            ),
            final(renderer).log_len(old(renderer).cur_buffer()) <= old(renderer).log_len(
                old(renderer).cur_buffer(),
            ) + crate::renderer::solid_budget(
                self.proj_x(base_x as int),
                self.proj_y(base_y as int),
                self.width as int,
                self.height as int,
                self.depth as int,
            ),
            final(renderer).log_len(old(renderer).cur_buffer()) >= old(renderer).log_len(
                old(renderer).cur_buffer(),
            ),
    {
        renderer.draw_block_3d_solid(
            base_x + self.x + self.z,
            base_y + self.y + half(self.x) - half(self.z),
            self.width,
            self.height,
            self.depth,
            left_color,
            right_color,
            top_color,
        );
    }
}

/// Half of `v`, rounded toward zero (the projection's half-slope).
pub fn half(v: i32) -> (r: i32)
    requires
        v > i32::MIN,
    ensures
        r == tdiv(v as int, 2),
{
    crate::num::div_trunc(v as i64, 2) as i32
}

} // verus!

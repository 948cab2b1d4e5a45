//! The display surface: a fixed-resolution grid of colored pixels addressed
//! by `y * width + x`. The renderer owns one and writes to it through
//! `write_pixel`; it never reads a pixel back to make a drawing decision.

use vstd::prelude::*;

use crate::color::Color;

verus! {

/// A fixed-resolution color surface. The resolution is chosen at
/// construction and never changes.
pub struct Display {
    width: usize,
    height: usize,
    pixels: Vec<Color>,
}

/// Largest accepted value for each dimension of a surface.
pub const MAX_DIM: usize = 4096;

impl Display {
    /// The surface holds exactly one color per pixel of its resolution.
    pub closed spec fn wf(&self) -> bool {
        &&& self.pixels.len() == self.width * self.height
        &&& self.width <= MAX_DIM
        &&& self.height <= MAX_DIM
    }

    pub closed spec fn spec_width(&self) -> int {
        self.width as int
    }

    pub closed spec fn spec_height(&self) -> int {
        self.height as int
    }

    /// Whether `(x, y)` addresses a pixel of the surface.
    pub open spec fn in_bounds(&self, x: int, y: int) -> bool {
        0 <= x < self.spec_width() && 0 <= y < self.spec_height()
    }

    /// The color currently shown at `(x, y)`.
    pub closed spec fn color_at(&self, x: int, y: int) -> Color {
        self.pixels[y * self.spec_width() + x]
    }

    /// Both dimensions of a well-formed surface are small.
    pub proof fn lemma_dims(&self)
        requires
            self.wf(),
        ensures
            0 <= self.spec_width() <= MAX_DIM,
            0 <= self.spec_height() <= MAX_DIM,
            self.spec_width() * self.spec_height() >= 0,
    {
        assert(self.spec_width() * self.spec_height() >= 0) by (nonlinear_arith)
            requires
                self.spec_width() >= 0,
                self.spec_height() >= 0,
        ;
    }

    /// A fresh surface of the given resolution, uniformly `fill`-colored.
    pub fn new(width: usize, height: usize, fill: Color) -> (d: Display)
        requires
            width <= MAX_DIM,
            height <= MAX_DIM,
        ensures
            d.wf(),
            d.spec_width() == width,
            d.spec_height() == height,
            forall|x: int, y: int| d.in_bounds(x, y) ==> d.color_at(x, y) == fill,
    {
        proof {
            assert(width * height <= MAX_DIM * MAX_DIM) by (nonlinear_arith)
                requires
                    width <= MAX_DIM,
                    height <= MAX_DIM,
            ;
        }
        let total = width * height;
        let mut pixels: Vec<Color> = Vec::new();
        let mut i: usize = 0;
        while i < total
            invariant
                i <= total,
                pixels.len() == i,
                forall|j: int| 0 <= j < i ==> pixels[j] == fill,
            decreases total - i,
        {
            pixels.push(fill);
            i = i + 1;
        }
        let d = Display { width, height, pixels };
        proof {
            assert forall|x: int, y: int| d.in_bounds(x, y) implies d.color_at(x, y) == fill by {
                lemma_pixel_index_in_range(x, y, width as int, height as int);
            }
        }
        d
    }

    pub fn get_width(&self) -> (w: usize)
        ensures
            w == self.spec_width(),
    {
        self.width
    }

    pub fn get_height(&self) -> (h: usize)
        ensures
            h == self.spec_height(),
    {
        self.height
    }

    /// Sets the color of pixel `(x, y)`; no other pixel changes.
    pub fn write_pixel(&mut self, x: usize, y: usize, color: Color)
        requires
            old(self).wf(),
            old(self).in_bounds(x as int, y as int),
        ensures
            final(self).wf(),
            final(self).spec_width() == old(self).spec_width(),
            final(self).spec_height() == old(self).spec_height(),
            final(self).color_at(x as int, y as int) == color,
            forall|x2: int, y2: int|
                old(self).in_bounds(x2, y2) && !(x2 == x as int && y2 == y as int)
                    ==> final(self).color_at(x2, y2) == old(self).color_at(x2, y2),
    {
        proof {
            lemma_pixel_index_in_range(x as int, y as int, self.width as int, self.height as int);
        }
        let index = y * self.width + x;
        self.pixels[index] = color;
        proof {
            assert forall|x2: int, y2: int|
                old(self).in_bounds(x2, y2) && !(x2 == x as int && y2 == y as int)
                implies final(self).color_at(x2, y2) == old(self).color_at(x2, y2) by {
                lemma_pixel_index_in_range(x2, y2, self.width as int, self.height as int);
                lemma_pixel_index_injective(
                    x as int,
                    y as int,
                    x2,
                    y2,
                    self.width as int,
                );
            }
        }
    }

    /// Reads the color of pixel `(x, y)` back, for tests and for adapters
    /// that copy the surface out to a physical device.
    pub fn pixel(&self, x: usize, y: usize) -> (c: Color)
        requires
            self.wf(),
            self.in_bounds(x as int, y as int),
        ensures
            c == self.color_at(x as int, y as int),
    {
        proof {
            lemma_pixel_index_in_range(x as int, y as int, self.width as int, self.height as int);
        }
        let index = y * self.width + x;
        self.pixels[index]
    }
}

/// A pixel's flat index lies inside the pixel vector.
proof fn lemma_pixel_index_in_range(x: int, y: int, width: int, height: int)
    requires
        0 <= x < width,
        0 <= y < height,
    ensures
        0 <= y * width + x < width * height,
{
    assert(y * width + x < width * height) by (nonlinear_arith)
        requires
            0 <= x < width,
            0 <= y < height,
    ;
    assert(y * width >= 0) by (nonlinear_arith)
        requires
            y >= 0,
            width > 0,
    ;
}

/// Distinct in-bounds coordinates have distinct flat indices.
proof fn lemma_pixel_index_injective(x1: int, y1: int, x2: int, y2: int, width: int)
    requires
        0 <= x1 < width,
        0 <= x2 < width,
        0 <= y1,
        0 <= y2,
        !(x1 == x2 && y1 == y2),
    ensures
        y1 * width + x1 != y2 * width + x2,
{
    if y1 == y2 {
    } else {
        assert(y1 * width + x1 != y2 * width + x2) by (nonlinear_arith)
            requires
                0 <= x1 < width,
                0 <= x2 < width,
                y1 != y2,
        ;
    }
}

} // verus!

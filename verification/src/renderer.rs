//! The incremental renderer. It owns the display surface, a bit-per-pixel
//! occupancy mask, and two pixel logs (position and color of every pixel
//! written while composing a frame). The begin/end-frame protocol repaints,
//! at the end of each frame, exactly those pixels that the previous frame
//! drew and the current frame did not — an O(pixels drawn) diff instead of a
//! full-screen redraw.

use vstd::prelude::*;

use crate::color::Color;
use crate::display::Display;

verus! {

/// Physical horizontal resolution of the target display.
pub const WIDTH: i32 = 480;

/// Physical vertical resolution of the target display.
pub const HEIGHT: i32 = 272;

/// Capacity of each per-frame pixel log. A frame that draws more pixels than
/// this cannot be composed; callers must keep their per-frame geometry under
/// this bound.
pub const PIXEL_BUFFER_SIZE: usize = 3000;

/// The background: a pure function from rotation-corrected (logical) screen
/// coordinates to a color. Either a single flat color or a precomputed
/// image with one color per logical pixel, addressed by `y * width + x`.
pub enum Background {
    Solid(Color),
    Image(Vec<Color>),
}

/// The color a background yields at logical coordinates `(lx, ly)` on a
/// logical `w` by `h` screen. Coordinates outside the logical screen yield
/// opaque black.
pub open spec fn bg_color_at(bg: Background, w: int, h: int, lx: int, ly: int) -> Color {
    match bg {
        Background::Solid(c) => c,
        Background::Image(v) => {
            if 0 <= lx < w && 0 <= ly < h && ly * w + lx < v.len() {
                v[ly * w + lx]
            } else {
                Color { red: 0, green: 0, blue: 0, alpha: 255 }
            }
        },
    }
}

impl Background {
    /// An image background holds exactly one color per pixel.
    pub open spec fn compatible(&self, area: int) -> bool {
        match *self {
            Background::Solid(_) => true,
            Background::Image(v) => v.len() == area,
        }
    }
}

/// One composed pixel: its physical coordinates and the color written.
pub ghost struct LogEntry {
    pub x: int,
    pub y: int,
    pub color: Color,
}

/// Whether `s` logs pixel `(x, y)`.
pub open spec fn log_has(s: Seq<LogEntry>, x: int, y: int) -> bool {
    exists|i: int| 0 <= i < s.len() && (#[trigger] s[i]).x == x && s[i].y == y
}

/// The color of the last entry of `s` that wrote pixel `(x, y)`.
pub open spec fn log_last_color(s: Seq<LogEntry>, x: int, y: int) -> Color
    decreases s.len(),
{
    if s.len() == 0 {
        arbitrary()
    } else if s.last().x == x && s.last().y == y {
        s.last().color
    } else {
        log_last_color(s.drop_last(), x, y)
    }
}

/// Smaller of two integers.
pub open spec fn min_i(a: int, b: int) -> int {
    if a < b {
        a
    } else {
        b
    }
}

/// The part of the composed log already shown on the display after `i` steps
/// of `end_frame`'s loop: everything in immediate mode (the pixels were
/// written eagerly), otherwise the first `i` entries.
spec fn done_new(r: Renderer, new_log: Seq<LogEntry>, i: int) -> Seq<LogEntry> {
    if r.is_immediate() {
        new_log
    } else {
        new_log.take(min_i(i, new_log.len() as int))
    }
}

/// The logical pixels of the solid rectangle `w` by `h` at `(x, y)`.
pub open spec fn rect_shape(x: int, y: int, w: int, h: int) -> spec_fn(int, int) -> bool {
    |px: int, py: int| x <= px < x + w && y <= py < y + h
}

/// Number of pixels of the solid `w` by `h` rectangle, zero when either
/// side is not positive.
pub open spec fn rect_area(w: int, h: int) -> int {
    if w > 0 && h > 0 {
        w * h
    } else {
        0
    }
}

/// The logical pixels of the one-pixel outline that `draw_rect` puts around
/// the `w` by `h` rectangle at `(x, y)`: top and bottom rows, and the two
/// columns between them.
pub open spec fn rect_outline_shape(x: int, y: int, w: int, h: int) -> spec_fn(int, int) -> bool {
    |px: int, py: int|
        (x <= px < x + w && py == y) || (px == x && y + 1 <= py < y + h - 1) || (px == x + w - 1
            && y + 1 <= py < y + h - 1) || (x <= px < x + w && py == y + h - 1)
}

/// Vertical offset of column `i` of an oblique band: the band's total y
/// movement interpolated linearly across its width.
pub open spec fn oblique_base(y: int, y_movement: int, width: int, i: int) -> int {
    y + crate::num::tdiv(y_movement * (2 * i + 1), 2 * width - 2)
}

/// Height of column `i` of an oblique band, interpolated from `height0` at
/// the left edge to `height1` at the right.
pub open spec fn oblique_height(height0: int, height1: int, width: int, i: int) -> int {
    crate::num::tdiv((height1 - height0) * (2 * i + 1), 2 * width - 2) + height0
}

/// The logical pixels of the first `n` columns of an oblique band at `x`:
/// column `i` runs `oblique_height` pixels down from `oblique_base`.
pub open spec fn oblique_shape_upto(
    x: int,
    y: int,
    width: int,
    height0: int,
    height1: int,
    y_movement: int,
    n: int,
) -> spec_fn(int, int) -> bool {
    |px: int, py: int|
        0 <= px - x < n && oblique_base(y, y_movement, width, px - x) <= py < oblique_base(
            y,
            y_movement,
            width,
            px - x,
        ) + oblique_height(height0, height1, width, px - x)
}

/// The logical pixels of the whole oblique band.
pub open spec fn oblique_shape(
    x: int,
    y: int,
    width: int,
    height0: int,
    height1: int,
    y_movement: int,
) -> spec_fn(int, int) -> bool {
    oblique_shape_upto(x, y, width, height0, height1, y_movement, width)
}

/// Largest height any column of the band can have.
pub open spec fn oblique_col_max(height0: int, height1: int) -> int {
    span(0, height0) + 2 * crate::color::abs_of(height1 - height0)
}

/// Upper bound on the pixels an oblique band fill can log.
pub open spec fn oblique_budget(width: int, height0: int, height1: int) -> int {
    if width <= 0 {
        0
    } else {
        width * oblique_col_max(height0, height1)
    }
}

/// The y coordinate where the vertical through the triangle's middle vertex
/// meets the long edge from `(x0, y0)` to `(x2, y2)`.
pub open spec fn triangle_mid_y(x0: int, y0: int, x1: int, x2: int, y2: int) -> int {
    y0 + crate::num::tdiv((y2 - y0) * (2 * (x1 - x0) + 1), 2 * (x2 - x0))
}

/// The logical pixels filled for the triangle `(x0, y0)`, `(x1, y1)`,
/// `(x2, y2)` (vertices ordered left to right): two oblique bands meeting
/// under the middle vertex.
pub open spec fn triangle_shape(x0: int, y0: int, x1: int, y1: int, x2: int, y2: int) -> spec_fn(
    int,
    int,
) -> bool {
    let q = triangle_mid_y(x0, y0, x1, x2, y2);
    if q < y1 {
        union_shape(
            oblique_shape(x0, y0, x1 - x0 + 1, 2, y1 - q + 2, q - y0),
            oblique_shape(x1, q, x2 - x1 + 1, y1 - q + 2, 2, y2 - q),
        )
    } else {
        union_shape(
            oblique_shape(x0, y0, x1 - x0 + 1, 2, q - y1 + 2, y1 - y0),
            oblique_shape(x1, y1, x2 - x1 + 1, q - y1 + 2, 2, y2 - y1),
        )
    }
}

/// Upper bound on the pixels a triangle fill can log: the budgets of its two
/// oblique bands.
pub open spec fn triangle_budget(x0: int, y0: int, x1: int, y1: int, x2: int, y2: int) -> int {
    let q = triangle_mid_y(x0, y0, x1, x2, y2);
    if q < y1 {
        oblique_budget(x1 - x0 + 1, 2, y1 - q + 2) + oblique_budget(x2 - x1 + 1, y1 - q + 2, 2)
    } else {
        oblique_budget(x1 - x0 + 1, 2, q - y1 + 2) + oblique_budget(x2 - x1 + 1, q - y1 + 2, 2)
    }
}

/// Upper bound on the pixels a line can log: one per column plus one per
/// accumulated error step.
pub open spec fn line_budget(x0: int, y0: int, x1: int, y1: int) -> int {
    if y0 == y1 {
        span(x0, x1 + 1)
    } else if x0 == x1 {
        span(y0, y1 + 1)
    } else {
        crate::color::abs_of(x1 - x0) + 2 * crate::color::abs_of(y1 - y0) + 2
    }
}

/// A box that contains every pixel a sloped line from `(x0, y0)` to
/// `(x1, y1)` can draw: its columns span the endpoints, and its rows start
/// at `y0` and extend only toward `y1` (the accumulator steps y in that
/// direction alone, though it can overrun `y1` on the last column).
pub open spec fn line_box_shape(x0: int, y0: int, x1: int, y1: int) -> spec_fn(int, int) -> bool {
    rect_shape(
        min_i(x0, x1),
        if y1 >= y0 {
            y0
        } else {
            y0 - 2 * crate::color::abs_of(y1 - y0) - 1
        },
        crate::color::abs_of(x1 - x0) + 1,
        2 * crate::color::abs_of(y1 - y0) + 2,
    )
}

/// Whether column `px` lies between the endpoints of a line run.
pub open spec fn line_col(x0: int, x1: int, px: int) -> bool {
    (x1 >= x0 && x0 <= px <= x1) || (x1 < x0 && x1 <= px <= x0)
}

/// The pixel a sloped line is sure to put in each of its columns: the
/// nearest-integer interpolation of y between the endpoints — the error
/// accumulator's first write in that column (it may add more pixels above
/// or below). At the last column this is exactly `(x1, y1)`.
pub open spec fn line_core_shape(x0: int, y0: int, x1: int, y1: int) -> spec_fn(int, int) -> bool {
    |px: int, py: int|
        {
            let adx = crate::color::abs_of(x1 - x0);
            let ady = crate::color::abs_of(y1 - y0);
            let sy: int = if y1 >= y0 {
                1
            } else {
                -1
            };
            line_col(x0, x1, px) && py == y0 + sy * ((2 * ady * crate::color::abs_of(px - x0)
                + adx) / (2 * adx))
        }
}

/// The first `n` columns of the line core, counted from `x0`.
pub open spec fn line_core_upto(x0: int, y0: int, x1: int, y1: int, n: int) -> spec_fn(
    int,
    int,
) -> bool {
    |px: int, py: int|
        (line_core_shape(x0, y0, x1, y1))(px, py) && crate::color::abs_of(px - x0) < n
}

/// Sum of the line budgets of the nine edges of the wireframe cuboid that
/// `draw_block_3d` draws.
pub open spec fn wire_budget(x: int, y: int, w: int, h: int, d: int) -> int {
    let hw = w / 2;
    let hd = d / 2;
    line_budget(x, y, x + w, y + hw) + line_budget(x + w, y + hw, x + w + d, y + hw - hd)
        + line_budget(x, y, x + d, y - hd) + line_budget(x + d, y - hd, x + w + d, y + hw - hd)
        + line_budget(x, y + h, x + w, y + hw + h) + line_budget(
        x + w,
        y + hw + h,
        x + w + d,
        y + hw - hd + h,
    ) + line_budget(x, y, x, y + h) + line_budget(x + w - 1, y + hw, x + w - 1, y + hw + h)
        + line_budget(x + w + d, y + hw - hd, x + w + d, y + hw - hd + h)
}

/// What one drawn line is sure to paint, whatever its slope: the whole run
/// for a horizontal or vertical line, and the interpolated core pixel of
/// every column for a sloped one.
pub open spec fn line_sure_shape(x0: int, y0: int, x1: int, y1: int) -> spec_fn(int, int) -> bool {
    if y0 == y1 {
        rect_shape(x0, y0, x1 - x0 + 1, 1)
    } else if x0 == x1 {
        rect_shape(x0, y0, 1, y1 - y0 + 1)
    } else {
        line_core_shape(x0, y0, x1, y1)
    }
}

/// Pixels the wireframe cuboid draw is sure to trace: the core of each of
/// its nine edges — the four top-rhombus edges, the two lower front edges
/// and the three vertical edges.
pub open spec fn wire_trace_shape(x: int, y: int, w: int, h: int, d: int) -> spec_fn(
    int,
    int,
) -> bool {
    |px: int, py: int|
        {
            let hw = crate::num::tdiv(w, 2);
            let hd = crate::num::tdiv(d, 2);
            (line_sure_shape(x, y, x + w, y + hw))(px, py) || (line_sure_shape(
                x + w,
                y + hw,
                x + w + d,
                y + hw - hd,
            ))(px, py) || (line_sure_shape(x, y, x + d, y - hd))(px, py) || (line_sure_shape(
                x + d,
                y - hd,
                x + w + d,
                y + hw - hd,
            ))(px, py) || (line_sure_shape(x, y + h, x + w, y + hw + h))(px, py) || (
            line_sure_shape(x + w, y + hw + h, x + w + d, y + hw - hd + h))(px, py) || (
            line_sure_shape(x, y, x, y + h))(px, py) || (line_sure_shape(
                x + w - 1,
                y + hw,
                x + w - 1,
                y + hw + h,
            ))(px, py) || (line_sure_shape(x + w + d, y + hw - hd, x + w + d, y + hw - hd + h))(
                px,
                py,
            )
        }
}

/// A box around everything the wireframe cuboid at `(x, y)` can draw.
pub open spec fn wire_box_shape(x: int, y: int, w: int, h: int, d: int) -> spec_fn(int, int) -> bool {
    rect_shape(x - 1, y - d - 2 * (w + h + d) - 2, w + d + 2, 2 * h + 2 * w + 2 * d + 8 * (w + h
        + d) + 8)
}

/// The color, if any, a solid cuboid paints at a logical pixel: its right
/// face is drawn last and wins, then its left face, then its top face (two
/// triangles).
pub open spec fn block_face_paint(
    x: int,
    y: int,
    w: int,
    h: int,
    d: int,
    left_color: Color,
    right_color: Color,
    top_color: Color,
) -> spec_fn(int, int) -> Option<Color> {
    |lx: int, ly: int|
        if (oblique_shape(x + w + 1, y + w / 2, d + 1, h, h, -(d / 2)))(lx, ly) {
            Some(right_color)
        } else if (oblique_shape(x, y + 1, w + 1, h, h, w / 2))(lx, ly) {
            Some(left_color)
        } else if (triangle_shape(x, y, x + w, y + w / 2, x + d + w, y - d / 2 + w / 2))(lx, ly) {
            Some(top_color)
        } else if (triangle_shape(x, y, x + d, y - d / 2, x + d + w, y - d / 2 + w / 2))(lx, ly) {
            Some(top_color)
        } else {
            Option::None
        }
}

/// What a drawing call did, described by an exact paint function from
/// logical pixels to an optional color: pixels mapped to a color now show
/// it, the rest are untouched.
pub open spec fn covers_paint(
    pre: Renderer,
    post: Renderer,
    paint: spec_fn(int, int) -> Option<Color>,
) -> bool {
    &&& Renderer::same_config(pre, post)
    &&& post.log_seq(1 - pre.cur_buffer()) == pre.log_seq(1 - pre.cur_buffer())
    &&& (pre.is_direct() ==> Renderer::same_logs(pre, post) && Renderer::same_marks(pre, post)
        && (forall|qx: int, qy: int|
            pre.in_screen(qx, qy) ==> #[trigger] post.screen(qx, qy) == (match paint(
                pre.logical_x(qx, qy),
                pre.logical_y(qx, qy),
            ) {
                Some(c) => c,
                Option::None => pre.screen(qx, qy),
            })))
    &&& (!pre.is_direct() ==> (forall|qx: int, qy: int|
        pre.in_screen(qx, qy) ==> (#[trigger] post.in_log(pre.cur_buffer(), qx, qy) <==> (
        pre.in_log(pre.cur_buffer(), qx, qy) || paint(
            pre.logical_x(qx, qy),
            pre.logical_y(qx, qy),
        ).is_some()))))
    &&& (!pre.is_direct() ==> (forall|qx: int, qy: int|
        pre.in_screen(qx, qy) && paint(pre.logical_x(qx, qy), pre.logical_y(qx, qy)).is_some()
            ==> #[trigger] post.last_color(pre.cur_buffer(), qx, qy) == paint(
            pre.logical_x(qx, qy),
            pre.logical_y(qx, qy),
        ).unwrap()))
    &&& (!pre.is_direct() ==> (forall|qx: int, qy: int|
        pre.in_screen(qx, qy) && paint(pre.logical_x(qx, qy), pre.logical_y(qx, qy)).is_none()
            ==> #[trigger] post.last_color(pre.cur_buffer(), qx, qy) == pre.last_color(
            pre.cur_buffer(),
            qx,
            qy,
        )))
    &&& (!pre.is_direct() ==> (forall|qx: int, qy: int|
        pre.in_screen(qx, qy) ==> (#[trigger] post.marked_at(qx, qy) <==> (pre.marked_at(qx, qy)
            || paint(pre.logical_x(qx, qy), pre.logical_y(qx, qy)).is_some()))))
    &&& (!pre.is_direct() && pre.is_immediate() ==> (forall|qx: int, qy: int|
        pre.in_screen(qx, qy) ==> #[trigger] post.screen(qx, qy) == (match paint(
            pre.logical_x(qx, qy),
            pre.logical_y(qx, qy),
        ) {
            Some(c) => c,
            Option::None => pre.screen(qx, qy),
        })))
    &&& (!pre.is_direct() && !pre.is_immediate() ==> Renderer::same_screen(pre, post))
}

/// Upper bound on the pixels a solid cuboid fill can log.
pub open spec fn solid_budget(x: int, y: int, w: int, h: int, d: int) -> int {
    triangle_budget(x, y, x + d, y - d / 2, x + d + w, y - d / 2 + w / 2) + triangle_budget(
        x,
        y,
        x + w,
        y + w / 2,
        x + d + w,
        y - d / 2 + w / 2,
    ) + oblique_budget(w + 1, h, h) + oblique_budget(d + 1, h, h)
}

/// One glyph coverage sample from a text rasterizer: an offset within the
/// rendered text and the alpha computed for that pixel.
#[derive(Clone, Copy, PartialEq, Eq, Structural, Debug)]
pub struct TextSample {
    pub x: i32,
    pub y: i32,
    pub alpha: u8,
}

/// The color text drawing leaves at logical `(lx, ly)`: the tinted alpha of
/// the last sample that lands there, if any. The text's anchor is `(x, y)`.
pub open spec fn text_paint_at(
    samples: Seq<TextSample>,
    x: int,
    y: int,
    color: Color,
    lx: int,
    ly: int,
) -> Option<Color>
    decreases samples.len(),
{
    if samples.len() == 0 {
        Option::None
    } else if samples.last().x + x == lx && samples.last().y + y == ly {
        Some(
            Color {
                red: color.red,
                green: color.green,
                blue: color.blue,
                alpha: samples.last().alpha,
            },
        )
    } else {
        text_paint_at(samples.drop_last(), x, y, color, lx, ly)
    }
}

/// Length of the half-open run `[a, b)`, zero when it is empty.
pub open spec fn span(a: int, b: int) -> int {
    if b > a {
        b - a
    } else {
        0
    }
}

/// The union of two logical pixel sets.
pub open spec fn union_shape(
    s1: spec_fn(int, int) -> bool,
    s2: spec_fn(int, int) -> bool,
) -> spec_fn(int, int) -> bool {
    |px: int, py: int| s1(px, py) || s2(px, py)
}

/// Appending an entry to a log adds exactly that pixel, and makes the entry's
/// color the latest one for it.
pub proof fn lemma_log_push(s: Seq<LogEntry>, e: LogEntry)
    ensures
        forall|x: int, y: int|
            #[trigger] log_has(s.push(e), x, y) <==> (log_has(s, x, y) || (e.x == x && e.y == y)),
        log_last_color(s.push(e), e.x, e.y) == e.color,
        forall|x: int, y: int|
            !(e.x == x && e.y == y) ==> #[trigger] log_last_color(s.push(e), x, y)
                == log_last_color(s, x, y),
{
    assert(s.push(e).drop_last() =~= s);
    assert(s.push(e).last() == e);
    assert forall|x: int, y: int| #[trigger] log_has(s.push(e), x, y) implies (log_has(s, x, y) || (
    e.x == x && e.y == y)) by {
        let i = choose|i: int|
            0 <= i < s.push(e).len() && (#[trigger] s.push(e)[i]).x == x && s.push(e)[i].y == y;
        if i < s.len() {
            assert(s[i].x == x && s[i].y == y);
        }
    }
    assert forall|x: int, y: int| log_has(s, x, y) implies log_has(s.push(e), x, y) by {
        let i = choose|i: int| 0 <= i < s.len() && (#[trigger] s[i]).x == x && s[i].y == y;
        assert(s.push(e)[i].x == x && s.push(e)[i].y == y);
    }
    assert forall|x: int, y: int| e.x == x && e.y == y implies log_has(s.push(e), x, y) by {
        assert(s.push(e)[s.len() as int].x == x && s.push(e)[s.len() as int].y == y);
    }
}

/// A pixel logged in a prefix is logged in the whole sequence.
pub proof fn lemma_log_has_take(s: Seq<LogEntry>, n: int, x: int, y: int)
    requires
        0 <= n <= s.len(),
        log_has(s.take(n), x, y),
    ensures
        log_has(s, x, y),
{
    let i = choose|i: int|
        0 <= i < s.take(n).len() && (#[trigger] s.take(n)[i]).x == x && s.take(n)[i].y == y;
    assert(s[i].x == x && s[i].y == y);
}

pub struct Renderer {
    pixel_markers: Vec<u32>,
    drawn_pixels_x: Vec<i16>,
    drawn_pixels_y: Vec<i16>,
    drawn_pixels_color: Vec<Color>,
    drawn_pixel_count: Vec<usize>,
    current_buffer: usize,
    display: Display,
    direct: bool,
    frame_counter: u64,
    portrait: bool,
    width: i32,
    height: i32,
    bg: Background,
    immediate: bool,
}

impl Renderer {
    // ------------------------------------------------------------------
    // Specification observers
    // ------------------------------------------------------------------

    /// Physical width of the owned display.
    pub closed spec fn phys_w(&self) -> int {
        self.display.spec_width()
    }

    /// Physical height of the owned display.
    pub closed spec fn phys_h(&self) -> int {
        self.display.spec_height()
    }

    /// Whether `(x, y)` is a physical pixel of the display.
    pub open spec fn in_screen(&self, x: int, y: int) -> bool {
        0 <= x < self.phys_w() && 0 <= y < self.phys_h()
    }

    /// True outside the begin/end-frame protocol: pixels go straight to the
    /// display.
    pub closed spec fn is_direct(&self) -> bool {
        self.direct
    }

    /// Whether logical coordinates are rotated a quarter turn before use.
    pub closed spec fn is_portrait(&self) -> bool {
        self.portrait
    }

    /// Whether composed pixels are also written eagerly to the display.
    pub closed spec fn is_immediate(&self) -> bool {
        self.immediate
    }

    /// Index (0 or 1) of the pixel log being composed into.
    pub closed spec fn cur_buffer(&self) -> int {
        self.current_buffer as int
    }

    /// Number of frames completed so far.
    pub closed spec fn frames(&self) -> u64 {
        self.frame_counter
    }

    /// The current background.
    pub closed spec fn bg_of(&self) -> Background {
        self.bg
    }

    /// Logical screen width (the physical one, with both axes exchanged in
    /// portrait mode).
    pub open spec fn spec_width(&self) -> int {
        if self.is_portrait() {
            self.phys_h()
        } else {
            self.phys_w()
        }
    }

    /// Logical screen height.
    pub open spec fn spec_height(&self) -> int {
        if self.is_portrait() {
            self.phys_w()
        } else {
            self.phys_h()
        }
    }

    /// Physical x coordinate that logical `(px, py)` lands on.
    pub open spec fn target_x(&self, px: int, py: int) -> int {
        if self.is_portrait() {
            self.phys_w() - py
        } else {
            px
        }
    }

    /// Physical y coordinate that logical `(px, py)` lands on.
    pub open spec fn target_y(&self, px: int, py: int) -> int {
        if self.is_portrait() {
            px
        } else {
            py
        }
    }

    /// Whether logical `(px, py)` lands on the display at all.
    pub open spec fn visible(&self, px: int, py: int) -> bool {
        self.in_screen(self.target_x(px, py), self.target_y(px, py))
    }

    /// Logical x coordinate of the pixel that lands on physical `(x, y)`;
    /// inverse of the `target` transform.
    pub open spec fn logical_x(&self, x: int, y: int) -> int {
        if self.is_portrait() {
            y
        } else {
            x
        }
    }

    /// Logical y coordinate of the pixel that lands on physical `(x, y)`.
    pub open spec fn logical_y(&self, x: int, y: int) -> int {
        if self.is_portrait() {
            self.phys_w() - x
        } else {
            y
        }
    }

    /// The background color at physical coordinates `(x, y)`: the background
    /// function applied to the rotation-corrected coordinates.
    pub open spec fn background_color(&self, x: int, y: int) -> Color {
        bg_color_at(
            self.bg_of(),
            self.spec_width(),
            self.spec_height(),
            self.logical_x(x, y),
            self.logical_y(x, y),
        )
    }

    /// The color the display currently shows at physical `(x, y)`.
    pub closed spec fn screen(&self, x: int, y: int) -> Color {
        self.display.color_at(x, y)
    }

    /// The pixel log of buffer `b`, oldest entry first: physical
    /// coordinates and color of every pixel written while composing.
    pub closed spec fn log_seq(&self, b: int) -> Seq<LogEntry> {
        Seq::new(
            self.drawn_pixel_count[b] as nat,
            |i: int|
                LogEntry {
                    x: self.drawn_pixels_x[b * PIXEL_BUFFER_SIZE + i] as int,
                    y: self.drawn_pixels_y[b * PIXEL_BUFFER_SIZE + i] as int,
                    color: self.drawn_pixels_color[b * PIXEL_BUFFER_SIZE + i],
                },
        )
    }

    /// Number of pixels logged so far in buffer `b`.
    pub open spec fn log_len(&self, b: int) -> int {
        self.log_seq(b).len() as int
    }

    /// Whether log `b` contains the physical pixel `(x, y)`.
    pub open spec fn in_log(&self, b: int, x: int, y: int) -> bool {
        log_has(self.log_seq(b), x, y)
    }

    /// The color most recently logged for pixel `(x, y)` in buffer `b`.
    pub open spec fn last_color(&self, b: int, x: int, y: int) -> Color {
        log_last_color(self.log_seq(b), x, y)
    }

    /// Whether the occupancy mask holds physical pixel `(x, y)`.
    pub closed spec fn marked_at(&self, x: int, y: int) -> bool {
        crate::color::bit_of(
            self.pixel_markers[(x + y * self.phys_w()) / 32],
            ((x + y * self.phys_w()) % 32) as u32,
        ) == 1
    }

    /// The log that the occupancy mask mirrors: the one being composed, or,
    /// between frames, the one composed last.
    pub open spec fn mask_buffer(&self) -> int {
        if self.is_direct() {
            1 - self.cur_buffer()
        } else {
            self.cur_buffer()
        }
    }

    // ------------------------------------------------------------------
    // Invariant
    // ------------------------------------------------------------------

    /// Display, background and the logical dimension fields are mutually
    /// consistent: what the background lookup needs.
    pub closed spec fn config_ok(&self) -> bool {
        &&& self.display.wf()
        &&& self.bg.compatible(self.phys_w() * self.phys_h())
        &&& self.width == self.spec_width()
        &&& self.height == self.spec_height()
    }

    /// Structural part: field sizes and ranges.
    spec fn structure_ok(&self) -> bool {
        &&& self.config_ok()
        &&& self.drawn_pixel_count.len() == 2
        &&& self.drawn_pixels_x.len() == 2 * PIXEL_BUFFER_SIZE
        &&& self.drawn_pixels_y.len() == 2 * PIXEL_BUFFER_SIZE
        &&& self.drawn_pixels_color.len() == 2 * PIXEL_BUFFER_SIZE
        &&& self.current_buffer < 2
        &&& self.log_len(0) <= PIXEL_BUFFER_SIZE
        &&& self.log_len(1) <= PIXEL_BUFFER_SIZE
        &&& self.pixel_markers.len() * 32 >= self.phys_w() * self.phys_h()
    }

    /// Every logged entry addresses a physical pixel.
    spec fn entries_ok(&self) -> bool {
        forall|b: int, i: int|
            0 <= b < 2 && 0 <= i < self.log_len(b) ==> self.in_screen(
                (#[trigger] self.log_seq(b)[i]).x,
                self.log_seq(b)[i].y,
            )
    }

    /// The occupancy mask holds exactly the pixels of `mask_buffer()`'s log.
    spec fn mask_ok(&self) -> bool {
        forall|x: int, y: int|
            self.in_screen(x, y) ==> (#[trigger] self.marked_at(x, y) <==> self.in_log(
                self.mask_buffer(),
                x,
                y,
            ))
    }

    /// In immediate mode the display already shows every composed pixel.
    spec fn immediate_ok(&self) -> bool {
        !self.is_direct() && self.is_immediate() ==> forall|x: int, y: int|
            self.in_screen(x, y) && #[trigger] self.in_log(self.cur_buffer(), x, y)
                ==> self.screen(x, y) == self.last_color(self.cur_buffer(), x, y)
    }

    /// The renderer's invariant: established by `new` and preserved by every
    /// method.
    pub closed spec fn inv(&self) -> bool {
        &&& self.structure_ok()
        &&& self.entries_ok()
        &&& self.mask_ok()
        &&& self.immediate_ok()
    }

    /// Facts about an invariant-satisfying renderer that callers may need
    /// for their own arithmetic.
    pub proof fn lemma_inv_facts(&self)
        requires
            self.inv(),
        ensures
            0 <= self.log_len(0) <= PIXEL_BUFFER_SIZE,
            0 <= self.log_len(1) <= PIXEL_BUFFER_SIZE,
            0 <= self.cur_buffer() < 2,
            0 <= self.phys_w() <= 4096,
            0 <= self.phys_h() <= 4096,
            self.config_ok(),
    {
        self.display.lemma_dims();
    }

    // ------------------------------------------------------------------
    // Relation shorthands used by the method contracts
    // ------------------------------------------------------------------

    /// Mode, orientation, background, buffer choice, display resolution and
    /// frame count all unchanged.
    pub open spec fn same_config(pre: Renderer, post: Renderer) -> bool {
        &&& post.is_direct() == pre.is_direct()
        &&& post.is_portrait() == pre.is_portrait()
        &&& post.is_immediate() == pre.is_immediate()
        &&& post.cur_buffer() == pre.cur_buffer()
        &&& post.bg_of() == pre.bg_of()
        &&& post.phys_w() == pre.phys_w()
        &&& post.phys_h() == pre.phys_h()
        &&& post.frames() == pre.frames()
    }

    /// Both pixel logs unchanged.
    pub open spec fn same_logs(pre: Renderer, post: Renderer) -> bool {
        &&& post.log_seq(0) == pre.log_seq(0)
        &&& post.log_seq(1) == pre.log_seq(1)
    }

    /// The occupancy mask unchanged, observably.
    pub open spec fn same_marks(pre: Renderer, post: Renderer) -> bool {
        forall|x: int, y: int|
            pre.in_screen(x, y) ==> #[trigger] post.marked_at(x, y) == pre.marked_at(x, y)
    }

    /// Every display pixel unchanged.
    pub open spec fn same_screen(pre: Renderer, post: Renderer) -> bool {
        forall|x: int, y: int|
            pre.in_screen(x, y) ==> #[trigger] post.screen(x, y) == pre.screen(x, y)
    }

    /// What a drawing call did, described by the exact logical pixel set
    /// `shape` it filled with `color`: each physical pixel some pixel of
    /// `shape` lands on now shows `color` (through the log while composing,
    /// directly otherwise), and everything else is untouched.
    pub open spec fn covers(
        pre: Renderer,
        post: Renderer,
        shape: spec_fn(int, int) -> bool,
        color: Color,
    ) -> bool {
        &&& Renderer::same_config(pre, post)
        &&& post.log_seq(1 - pre.cur_buffer()) == pre.log_seq(1 - pre.cur_buffer())
        &&& (pre.is_direct() ==> Renderer::same_logs(pre, post) && Renderer::same_marks(pre, post)
            && (forall|qx: int, qy: int|
                pre.in_screen(qx, qy) ==> #[trigger] post.screen(qx, qy) == (
                if shape(pre.logical_x(qx, qy), pre.logical_y(qx, qy)) {
                    color
                } else {
                    pre.screen(qx, qy)
                })))
        &&& (!pre.is_direct() ==> (forall|qx: int, qy: int|
            pre.in_screen(qx, qy) ==> (#[trigger] post.in_log(pre.cur_buffer(), qx, qy) <==> (
            pre.in_log(pre.cur_buffer(), qx, qy) || shape(
                pre.logical_x(qx, qy),
                pre.logical_y(qx, qy),
            )))))
        &&& (!pre.is_direct() ==> (forall|qx: int, qy: int|
            pre.in_screen(qx, qy) && shape(pre.logical_x(qx, qy), pre.logical_y(qx, qy))
                ==> #[trigger] post.last_color(pre.cur_buffer(), qx, qy) == color))
        &&& (!pre.is_direct() ==> (forall|qx: int, qy: int|
            pre.in_screen(qx, qy) && !shape(pre.logical_x(qx, qy), pre.logical_y(qx, qy))
                ==> #[trigger] post.last_color(pre.cur_buffer(), qx, qy) == pre.last_color(
                pre.cur_buffer(),
                qx,
                qy,
            )))
        &&& (!pre.is_direct() ==> (forall|qx: int, qy: int|
            pre.in_screen(qx, qy) ==> (#[trigger] post.marked_at(qx, qy) <==> (pre.marked_at(
                qx,
                qy,
            ) || shape(pre.logical_x(qx, qy), pre.logical_y(qx, qy))))))
        &&& (!pre.is_direct() && pre.is_immediate() ==> (forall|qx: int, qy: int|
            pre.in_screen(qx, qy) ==> #[trigger] post.screen(qx, qy) == (
            if shape(pre.logical_x(qx, qy), pre.logical_y(qx, qy)) {
                color
            } else {
                pre.screen(qx, qy)
            })))
        &&& (!pre.is_direct() && !pre.is_immediate() ==> Renderer::same_screen(pre, post))
    }

    /// What a drawing call did, bounded by a logical pixel set `shape`: the
    /// call drew some subset of `shape` in `color` and touched nothing
    /// outside it.
    pub open spec fn touches(
        pre: Renderer,
        post: Renderer,
        shape: spec_fn(int, int) -> bool,
        color: Color,
    ) -> bool {
        &&& Renderer::same_config(pre, post)
        &&& post.log_seq(1 - pre.cur_buffer()) == pre.log_seq(1 - pre.cur_buffer())
        &&& (pre.is_direct() ==> Renderer::same_logs(pre, post) && Renderer::same_marks(pre, post)
            && (forall|qx: int, qy: int|
                pre.in_screen(qx, qy) ==> (#[trigger] post.screen(qx, qy) == pre.screen(qx, qy) || (
                shape(pre.logical_x(qx, qy), pre.logical_y(qx, qy)) && post.screen(qx, qy)
                    == color))))
        &&& (!pre.is_direct() ==> (forall|qx: int, qy: int|
            pre.in_screen(qx, qy) ==> ((#[trigger] post.in_log(pre.cur_buffer(), qx, qy)
                <==> pre.in_log(pre.cur_buffer(), qx, qy)) || (shape(
                pre.logical_x(qx, qy),
                pre.logical_y(qx, qy),
            ) && post.in_log(pre.cur_buffer(), qx, qy)))))
        &&& (!pre.is_direct() ==> (forall|qx: int, qy: int|
            pre.in_screen(qx, qy) ==> (#[trigger] post.last_color(pre.cur_buffer(), qx, qy)
                == pre.last_color(pre.cur_buffer(), qx, qy) || (shape(
                pre.logical_x(qx, qy),
                pre.logical_y(qx, qy),
            ) && post.last_color(pre.cur_buffer(), qx, qy) == color))))
        &&& (!pre.is_direct() ==> (forall|qx: int, qy: int|
            pre.in_screen(qx, qy) ==> (#[trigger] post.marked_at(qx, qy) == pre.marked_at(qx, qy)
                || (shape(pre.logical_x(qx, qy), pre.logical_y(qx, qy)) && post.marked_at(
                qx,
                qy,
            )))))
        &&& (!pre.is_direct() && pre.is_immediate() ==> (forall|qx: int, qy: int|
            pre.in_screen(qx, qy) ==> (#[trigger] post.screen(qx, qy) == pre.screen(qx, qy) || (
            shape(pre.logical_x(qx, qy), pre.logical_y(qx, qy)) && post.screen(qx, qy)
                == color))))
        &&& (!pre.is_direct() && !pre.is_immediate() ==> Renderer::same_screen(pre, post))
    }

    /// The floor under a drawing call: every pixel of `shape` that lands
    /// on the screen now shows `color` — on the display itself in direct
    /// mode, and as a logged, occupancy-marked pixel with `color` as its
    /// latest log entry while composing (so `end_frame` will show it).
    pub open spec fn painted(
        pre: Renderer,
        post: Renderer,
        shape: spec_fn(int, int) -> bool,
        color: Color,
    ) -> bool {
        &&& (pre.is_direct() ==> (forall|qx: int, qy: int|
            pre.in_screen(qx, qy) && shape(pre.logical_x(qx, qy), pre.logical_y(qx, qy))
                ==> #[trigger] post.screen(qx, qy) == color))
        &&& (!pre.is_direct() ==> (forall|qx: int, qy: int|
            pre.in_screen(qx, qy) && shape(pre.logical_x(qx, qy), pre.logical_y(qx, qy))
                ==> #[trigger] post.in_log(pre.cur_buffer(), qx, qy) && post.last_color(
                pre.cur_buffer(),
                qx,
                qy,
            ) == color))
    }

    /// An exact cover paints its whole shape.
    pub proof fn lemma_covers_painted(
        pre: Renderer,
        post: Renderer,
        shape: spec_fn(int, int) -> bool,
        color: Color,
    )
        requires
            Renderer::covers(pre, post, shape, color),
        ensures
            Renderer::painted(pre, post, shape, color),
    {
    }

    /// What paints a shape paints every subset of it.
    pub proof fn lemma_painted_subset(
        pre: Renderer,
        post: Renderer,
        part: spec_fn(int, int) -> bool,
        shape: spec_fn(int, int) -> bool,
        color: Color,
    )
        requires
            Renderer::painted(pre, post, shape, color),
            forall|px: int, py: int| #[trigger] part(px, py) ==> shape(px, py),
        ensures
            Renderer::painted(pre, post, part, color),
    {
    }

    /// Two painted shapes make a painted union.
    pub proof fn lemma_painted_union(
        pre: Renderer,
        post: Renderer,
        s1: spec_fn(int, int) -> bool,
        s2: spec_fn(int, int) -> bool,
        color: Color,
    )
        requires
            Renderer::painted(pre, post, s1, color),
            Renderer::painted(pre, post, s2, color),
        ensures
            Renderer::painted(pre, post, union_shape(s1, s2), color),
    {
        assert forall|px: int, py: int| #[trigger] union_shape(s1, s2)(px, py) implies (s1(px, py)
            || s2(px, py)) by {}
    }

    /// A painted claim can be restated from an earlier state with the same
    /// configuration.
    pub proof fn lemma_painted_retime(
        olds: Renderer,
        mid: Renderer,
        post: Renderer,
        shape: spec_fn(int, int) -> bool,
        color: Color,
    )
        requires
            Renderer::painted(mid, post, shape, color),
            Renderer::same_config(olds, mid),
        ensures
            Renderer::painted(olds, post, shape, color),
    {
    }

    /// A later bounded draw of the same color cannot unpaint a shape: it
    /// leaves each of its pixels alone or rewrites it with `color`.
    pub proof fn lemma_painted_carry(
        olds: Renderer,
        pre: Renderer,
        post: Renderer,
        shape: spec_fn(int, int) -> bool,
        s2: spec_fn(int, int) -> bool,
        color: Color,
    )
        requires
            Renderer::painted(olds, pre, shape, color),
            Renderer::same_config(olds, pre),
            Renderer::touches(pre, post, s2, color),
        ensures
            Renderer::painted(olds, post, shape, color),
    {
    }

    /// One `set_pixel(px, py, color)` call extends a painted shape by that
    /// pixel; pixels already painted can only be rewritten with the same
    /// color.
    proof fn lemma_painted_write(
        olds: Renderer,
        pre: Renderer,
        post: Renderer,
        sp: spec_fn(int, int) -> bool,
        px: int,
        py: int,
        color: Color,
    )
        requires
            Renderer::painted(olds, pre, sp, color),
            Renderer::same_config(olds, pre),
            0 <= olds.cur_buffer() < 2,
            Renderer::same_config(pre, post),
            !pre.visible(px, py) ==> post == pre,
            pre.visible(px, py) && pre.is_direct() ==> ({
                let tx = pre.target_x(px, py);
                let ty = pre.target_y(px, py);
                &&& post.screen(tx, ty) == color
                &&& (forall|x2: int, y2: int|
                    pre.in_screen(x2, y2) && !(x2 == tx && y2 == ty)
                        ==> #[trigger] post.screen(x2, y2) == pre.screen(x2, y2))
            }),
            pre.visible(px, py) && !pre.is_direct() ==> ({
                let tx = pre.target_x(px, py);
                let ty = pre.target_y(px, py);
                let cb = pre.cur_buffer();
                &&& post.log_seq(cb) == pre.log_seq(cb).push(LogEntry { x: tx, y: ty, color })
                &&& post.log_seq(1 - cb) == pre.log_seq(1 - cb)
            }),
        ensures
            Renderer::painted(olds, post, union_shape(sp, rect_shape(px, py, 1, 1)), color),
    {
        let tx = pre.target_x(px, py);
        let ty = pre.target_y(px, py);
        let cb = olds.cur_buffer();
        let grown = union_shape(sp, rect_shape(px, py, 1, 1));
        if pre.visible(px, py) && !pre.is_direct() {
            lemma_log_push(pre.log_seq(cb), LogEntry { x: tx, y: ty, color });
        }
        assert forall|qx: int, qy: int| olds.in_screen(qx, qy) implies {
            let lx = olds.logical_x(qx, qy);
            let ly = olds.logical_y(qx, qy);
            &&& (olds.target_x(lx, ly) == qx && olds.target_y(lx, ly) == qy)
            &&& ((lx == px && ly == py) <==> (pre.visible(px, py) && qx == tx && qy == ty))
        } by {
            if olds.logical_x(qx, qy) == px && olds.logical_y(qx, qy) == py {
                assert(olds.target_x(px, py) == qx && olds.target_y(px, py) == qy);
            }
        }
        if olds.is_direct() {
            assert forall|qx: int, qy: int|
                olds.in_screen(qx, qy) && grown(
                    olds.logical_x(qx, qy),
                    olds.logical_y(qx, qy),
                ) implies #[trigger] post.screen(qx, qy) == color by {
                if pre.visible(px, py) && qx == tx && qy == ty {
                } else {
                    assert(sp(olds.logical_x(qx, qy), olds.logical_y(qx, qy)));
                    assert(post.screen(qx, qy) == pre.screen(qx, qy));
                }
            }
        } else {
            assert forall|qx: int, qy: int|
                olds.in_screen(qx, qy) && grown(
                    olds.logical_x(qx, qy),
                    olds.logical_y(qx, qy),
                ) implies #[trigger] post.in_log(cb, qx, qy) && post.last_color(cb, qx, qy)
                == color by {
                if pre.visible(px, py) && qx == tx && qy == ty {
                    assert(post.in_log(cb, qx, qy));
                    assert(post.last_color(cb, qx, qy) == color);
                } else {
                    assert(sp(olds.logical_x(qx, qy), olds.logical_y(qx, qy)));
                    assert(post.in_log(cb, qx, qy) == pre.in_log(cb, qx, qy));
                    assert(post.last_color(cb, qx, qy) == pre.last_color(cb, qx, qy));
                }
            }
        }
        assert(Renderer::painted(olds, post, grown, color));
    }

    /// An exact cover is in particular a bound.
    pub proof fn lemma_covers_touches(
        pre: Renderer,
        post: Renderer,
        shape: spec_fn(int, int) -> bool,
        color: Color,
    )
        requires
            Renderer::covers(pre, post, shape, color),
        ensures
            Renderer::touches(pre, post, shape, color),
    {
    }

    /// Two successive bounded draws of the same color, each within `shape`,
    /// are together a bounded draw within `shape`.
    pub proof fn lemma_touches_trans(
        pre: Renderer,
        mid: Renderer,
        post: Renderer,
        s1: spec_fn(int, int) -> bool,
        s2: spec_fn(int, int) -> bool,
        shape: spec_fn(int, int) -> bool,
        color: Color,
    )
        requires
            Renderer::touches(pre, mid, s1, color),
            Renderer::touches(mid, post, s2, color),
            forall|px: int, py: int| #[trigger] s1(px, py) ==> shape(px, py),
            forall|px: int, py: int| #[trigger] s2(px, py) ==> shape(px, py),
        ensures
            Renderer::touches(pre, post, shape, color),
    {
    }

    /// Two successive exact covers of the same color add up to an exact
    /// cover of the union.
    pub proof fn lemma_covers_union(
        pre: Renderer,
        mid: Renderer,
        post: Renderer,
        s1: spec_fn(int, int) -> bool,
        s2: spec_fn(int, int) -> bool,
        color: Color,
    )
        requires
            Renderer::covers(pre, mid, s1, color),
            Renderer::covers(mid, post, s2, color),
        ensures
            Renderer::covers(pre, post, union_shape(s1, s2), color),
    {
        assert forall|px: int, py: int| #[trigger] union_shape(s1, s2)(px, py) implies (s1(px, py)
            || s2(px, py)) by {}
    }

    /// Changing only configuration fields (background, orientation plus the
    /// matching logical dimensions, or — between frames — the immediate
    /// flag) preserves the invariant and every observable of logs, mask and
    /// display.
    proof fn lemma_config_change(pre: Renderer, post: Renderer)
        requires
            pre.inv(),
            post.pixel_markers@ == pre.pixel_markers@,
            post.drawn_pixels_x@ == pre.drawn_pixels_x@,
            post.drawn_pixels_y@ == pre.drawn_pixels_y@,
            post.drawn_pixels_color@ == pre.drawn_pixels_color@,
            post.drawn_pixel_count@ == pre.drawn_pixel_count@,
            post.display == pre.display,
            post.current_buffer == pre.current_buffer,
            post.direct == pre.direct,
            !post.direct && post.immediate ==> pre.immediate,
            post.width as int == post.spec_width(),
            post.height as int == post.spec_height(),
            post.bg.compatible(post.phys_w() * post.phys_h()),
        ensures
            post.inv(),
            Renderer::same_logs(pre, post),
            Renderer::same_marks(pre, post),
            Renderer::same_screen(pre, post),
    {
        assert(post.log_seq(0) =~= pre.log_seq(0));
        assert(post.log_seq(1) =~= pre.log_seq(1));
        assert forall|x: int, y: int| pre.in_screen(x, y) implies #[trigger] post.marked_at(x, y)
            == pre.marked_at(x, y) by {}
        assert(post.mask_ok()) by {
            assert forall|x: int, y: int| post.in_screen(x, y) implies (#[trigger] post.marked_at(
                x,
                y,
            ) <==> post.in_log(post.mask_buffer(), x, y)) by {
                assert(pre.marked_at(x, y) <==> pre.in_log(pre.mask_buffer(), x, y));
            }
        }
        assert(post.entries_ok()) by {
            assert forall|b: int, i: int| 0 <= b < 2 && 0 <= i < post.log_len(b) implies post
                .in_screen((#[trigger] post.log_seq(b)[i]).x, post.log_seq(b)[i].y) by {
                assert(pre.in_screen(pre.log_seq(b)[i].x, pre.log_seq(b)[i].y));
            }
        }
        assert(post.immediate_ok()) by {
            if !post.direct && post.immediate {
                assert forall|x: int, y: int|
                    post.in_screen(x, y) && #[trigger] post.in_log(post.cur_buffer(), x, y)
                    implies post.screen(x, y) == post.last_color(post.cur_buffer(), x, y) by {
                    assert(pre.in_log(pre.cur_buffer(), x, y));
                }
            }
        }
    }

    // ------------------------------------------------------------------
    // Construction and configuration
    // ------------------------------------------------------------------

    /// A renderer over `display`, in direct mode, landscape orientation,
    /// with empty logs and an empty mask.
    pub fn new(display: Display, background: Background) -> (r: Renderer)
        requires
            display.wf(),
            background.compatible(display.spec_width() * display.spec_height()),
        ensures
            r.inv(),
            r.is_direct(),
            !r.is_portrait(),
            !r.is_immediate(),
            r.cur_buffer() == 0,
            r.bg_of() == background,
            r.phys_w() == display.spec_width(),
            r.phys_h() == display.spec_height(),
            r.frames() == 0,
            r.log_len(0) == 0,
            r.log_len(1) == 0,
            forall|x: int, y: int| r.in_screen(x, y) ==> !#[trigger] r.marked_at(x, y),
            forall|x: int, y: int|
                r.in_screen(x, y) ==> #[trigger] r.screen(x, y) == display.color_at(x, y),
    {
        let w = display.get_width();
        let h = display.get_height();
        proof {
            display.lemma_dims();
            assert(w * h <= 4096 * 4096) by (nonlinear_arith)
                requires
                    w <= 4096,
                    h <= 4096,
            ;
        }
        let marker_len = (w * h + 31) / 32;
        let mut pixel_markers: Vec<u32> = Vec::new();
        let mut i: usize = 0;
        while i < marker_len
            invariant
                i <= marker_len,
                pixel_markers.len() == i,
                forall|j: int| 0 <= j < i ==> pixel_markers[j] == 0u32,
            decreases marker_len - i,
        {
            pixel_markers.push(0);
            i = i + 1;
        }
        let mut drawn_pixels_x: Vec<i16> = Vec::new();
        let mut drawn_pixels_y: Vec<i16> = Vec::new();
        let mut drawn_pixels_color: Vec<Color> = Vec::new();
        let mut j: usize = 0;
        while j < 2 * PIXEL_BUFFER_SIZE
            invariant
                j <= 2 * PIXEL_BUFFER_SIZE,
                drawn_pixels_x.len() == j,
                drawn_pixels_y.len() == j,
                drawn_pixels_color.len() == j,
            decreases 2 * PIXEL_BUFFER_SIZE - j,
        {
            drawn_pixels_x.push(0);
            drawn_pixels_y.push(0);
            drawn_pixels_color.push(Color { red: 0, green: 0, blue: 0, alpha: 255 });
            j = j + 1;
        }
        let mut drawn_pixel_count: Vec<usize> = Vec::new();
        drawn_pixel_count.push(0);
        drawn_pixel_count.push(0);
        let r = Renderer {
            pixel_markers,
            drawn_pixels_x,
            drawn_pixels_y,
            drawn_pixels_color,
            drawn_pixel_count,
            current_buffer: 0,
            display,
            direct: true,
            frame_counter: 0,
            portrait: false,
            width: w as i32,
            height: h as i32,
            bg: background,
            immediate: false,
        };
        proof {
            assert(marker_len * 32 >= w * h) by (nonlinear_arith)
                requires
                    marker_len == (w * h + 31) / 32,
                    w * h >= 0,
            ;
            assert forall|x: int, y: int| r.in_screen(x, y) implies !#[trigger] r.marked_at(
                x,
                y,
            ) by {
                lemma_flat_index_range(x, y, r.phys_w(), r.phys_h());
                lemma_word_index_range(x + y * r.phys_w(), r.pixel_markers.len() as int);
                lemma_zero_word_bit((((x + y * r.phys_w()) % 32)) as u32);
            }
        }
        r
    }

    /// Replaces the background function.
    pub fn set_bg(&mut self, func: Background)
        requires
            old(self).inv(),
            func.compatible(old(self).phys_w() * old(self).phys_h()),
        ensures
            final(self).inv(),
            final(self).bg_of() == func,
            final(self).is_direct() == old(self).is_direct(),
            final(self).is_portrait() == old(self).is_portrait(),
            final(self).is_immediate() == old(self).is_immediate(),
            final(self).cur_buffer() == old(self).cur_buffer(),
            final(self).phys_w() == old(self).phys_w(),
            final(self).phys_h() == old(self).phys_h(),
            final(self).frames() == old(self).frames(),
            Renderer::same_logs(*old(self), *final(self)),
            Renderer::same_marks(*old(self), *final(self)),
            Renderer::same_screen(*old(self), *final(self)),
    {
        self.bg = func;
        proof {
            Renderer::lemma_config_change(*old(self), *self);
        }
    }

    /// Switches immediate mode (composed pixels also written eagerly) on or
    /// off; only allowed between frames.
    pub fn set_immediate(&mut self, state: bool)
        requires
            old(self).inv(),
            old(self).is_direct(),
        ensures
            final(self).inv(),
            final(self).is_immediate() == state,
            final(self).is_direct() == old(self).is_direct(),
            final(self).is_portrait() == old(self).is_portrait(),
            final(self).cur_buffer() == old(self).cur_buffer(),
            final(self).bg_of() == old(self).bg_of(),
            final(self).phys_w() == old(self).phys_w(),
            final(self).phys_h() == old(self).phys_h(),
            final(self).frames() == old(self).frames(),
            Renderer::same_logs(*old(self), *final(self)),
            Renderer::same_marks(*old(self), *final(self)),
            Renderer::same_screen(*old(self), *final(self)),
    {
        self.immediate = state;
        proof {
            Renderer::lemma_config_change(*old(self), *self);
        }
    }

    /// Rotates the logical coordinate system a quarter turn (or back).
    pub fn set_portrait(&mut self, state: bool)
        requires
            old(self).inv(),
        ensures
            final(self).inv(),
            final(self).is_portrait() == state,
            final(self).is_direct() == old(self).is_direct(),
            final(self).is_immediate() == old(self).is_immediate(),
            final(self).cur_buffer() == old(self).cur_buffer(),
            final(self).bg_of() == old(self).bg_of(),
            final(self).phys_w() == old(self).phys_w(),
            final(self).phys_h() == old(self).phys_h(),
            final(self).frames() == old(self).frames(),
            Renderer::same_logs(*old(self), *final(self)),
            Renderer::same_marks(*old(self), *final(self)),
            Renderer::same_screen(*old(self), *final(self)),
    {
        self.portrait = state;
        let w = self.display.get_width();
        let h = self.display.get_height();
        proof {
            self.display.lemma_dims();
        }
        if state {
            self.width = h as i32;
            self.height = w as i32;
        } else {
            self.width = w as i32;
            self.height = h as i32;
        }
        proof {
            Renderer::lemma_config_change(*old(self), *self);
        }
    }

    /// Logical screen width.
    pub fn get_width(&self) -> (w: i32)
        requires
            self.inv(),
        ensures
            w == self.spec_width(),
    {
        self.width
    }

    /// Logical screen height.
    pub fn get_height(&self) -> (h: i32)
        requires
            self.inv(),
        ensures
            h == self.spec_height(),
    {
        self.height
    }

    /// The background color for physical coordinates `(px, py)`: a pure
    /// function of the renderer's configuration and the coordinates, so
    /// repeated calls with unchanged state return the same color.
    pub fn get_background(&self, px: i32, py: i32) -> (c: Color)
        requires
            self.config_ok(),
        ensures
            c == self.background_color(px as int, py as int),
    {
        proof {
            self.display.lemma_dims();
        }
        let lx: i64;
        let ly: i64;
        if self.portrait {
            lx = py as i64;
            ly = self.display.get_width() as i64 - px as i64;
        } else {
            lx = px as i64;
            ly = py as i64;
        }
        match &self.bg {
            Background::Solid(c) => *c,
            Background::Image(v) => {
                if 0 <= lx && lx < self.width as i64 && 0 <= ly && ly < self.height as i64 {
                    proof {
                        lemma_flat_index_range(
                            lx as int,
                            ly as int,
                            self.width as int,
                            self.height as int,
                        );
                        assert((self.width as int) * (self.height as int) <= 4096 * 4096)
                            by (nonlinear_arith)
                            requires
                                0 <= self.width as int <= 4096,
                                0 <= self.height as int <= 4096,
                        ;
                    }
                    let index = (ly as usize) * (self.width as usize) + (lx as usize);
                    proof {
                        assert(index as int == (ly as int) * (self.width as int) + (lx as int));
                        assert(v.len() == self.phys_w() * self.phys_h());
                        assert(self.phys_h() * self.phys_w() == self.phys_w() * self.phys_h())
                            by (nonlinear_arith);
                        assert(index < v.len());
                    }
                    v[index]
                } else {
                    Color::rgb(0, 0, 0)
                }
            },
        }
    }

    // ------------------------------------------------------------------
    // Occupancy mask primitives
    // ------------------------------------------------------------------

    /// Sets or clears the occupancy bit of physical pixel `(x, y)`; no other
    /// bit and no other field changes.
    fn mark_pixel(&mut self, x: usize, y: usize, state: bool)
        requires
            old(self).display.wf(),
            old(self).pixel_markers.len() * 32 >= old(self).phys_w() * old(self).phys_h(),
            old(self).in_screen(x as int, y as int),
        ensures
            final(self).marked_at(x as int, y as int) == state,
            forall|x2: int, y2: int|
                old(self).in_screen(x2, y2) && !(x2 == x as int && y2 == y as int)
                    ==> #[trigger] final(self).marked_at(x2, y2) == old(self).marked_at(x2, y2),
            final(self).pixel_markers.len() == old(self).pixel_markers.len(),
            final(self).drawn_pixels_x == old(self).drawn_pixels_x,
            final(self).drawn_pixels_y == old(self).drawn_pixels_y,
            final(self).drawn_pixels_color == old(self).drawn_pixels_color,
            final(self).drawn_pixel_count == old(self).drawn_pixel_count,
            final(self).current_buffer == old(self).current_buffer,
            final(self).display == old(self).display,
            final(self).direct == old(self).direct,
            final(self).frame_counter == old(self).frame_counter,
            final(self).portrait == old(self).portrait,
            final(self).width == old(self).width,
            final(self).height == old(self).height,
            final(self).bg == old(self).bg,
            final(self).immediate == old(self).immediate,
    {
        let pw = self.display.get_width();
        proof {
            self.display.lemma_dims();
            lemma_flat_index_range(x as int, y as int, self.phys_w(), self.phys_h());
            assert(self.phys_w() * self.phys_h() <= 4096 * 4096) by (nonlinear_arith)
                requires
                    0 <= self.phys_w() <= 4096,
                    0 <= self.phys_h() <= 4096,
            ;
        }
        let index = x + y * pw;
        proof {
            lemma_word_index_range(index as int, self.pixel_markers.len() as int);
        }
        let word_index = index / 32;
        let bit_index = (index % 32) as u32;
        let word = self.pixel_markers[word_index];
        if state {
            self.pixel_markers[word_index] = word | (1u32 << bit_index);
        } else {
            self.pixel_markers[word_index] = word & !(1u32 << bit_index);
        }
        proof {
            lemma_bit_update(word, bit_index);
            assert forall|x2: int, y2: int|
                old(self).in_screen(x2, y2) && !(x2 == x as int && y2 == y as int)
                implies #[trigger] final(self).marked_at(x2, y2) == old(self).marked_at(x2, y2) by {
                let index2 = x2 + y2 * self.phys_w();
                lemma_flat_index_range(x2, y2, self.phys_w(), self.phys_h());
                lemma_word_index_range(index2, self.pixel_markers.len() as int);
                lemma_index_injective(x as int, y as int, x2, y2, self.phys_w());
                if index2 / 32 == word_index as int {
                    assert(index2 % 32 != index as int % 32);
                    lemma_bit_other(word, bit_index, (index2 % 32) as u32);
                }
            }
        }
    }

    /// Whether the occupancy bit of physical pixel `(x, y)` is set.
    fn is_pixel_marked(&self, x: usize, y: usize) -> (r: bool)
        requires
            self.display.wf(),
            self.pixel_markers.len() * 32 >= self.phys_w() * self.phys_h(),
            self.in_screen(x as int, y as int),
        ensures
            r == self.marked_at(x as int, y as int),
    {
        let pw = self.display.get_width();
        proof {
            self.display.lemma_dims();
            lemma_flat_index_range(x as int, y as int, self.phys_w(), self.phys_h());
            assert(self.phys_w() * self.phys_h() <= 4096 * 4096) by (nonlinear_arith)
                requires
                    0 <= self.phys_w() <= 4096,
                    0 <= self.phys_h() <= 4096,
            ;
        }
        let index = x + y * pw;
        proof {
            lemma_word_index_range(index as int, self.pixel_markers.len() as int);
        }
        let word = self.pixel_markers[index / 32];
        let bit_index = (index % 32) as u32;
        proof {
            lemma_bit_test(word, bit_index);
        }
        (word & (1u32 << bit_index)) != 0
    }

    // ------------------------------------------------------------------
    // The pixel write path
    // ------------------------------------------------------------------

    /// Writes one logical pixel. Off-screen coordinates are silently
    /// dropped. In direct mode the pixel goes straight to the display;
    /// while composing it is appended to the current pixel log and its
    /// occupancy bit is set (and, in immediate mode, it is also shown at
    /// once).
    pub fn set_pixel(&mut self, px: i32, py: i32, color: Color)
        requires
            old(self).inv(),
            !old(self).is_direct() ==> old(self).log_len(old(self).cur_buffer())
                < PIXEL_BUFFER_SIZE,
        ensures
            final(self).inv(),
            Renderer::same_config(*old(self), *final(self)),
            (!old(self).visible(px as int, py as int) ==> *final(self) == *old(self)),
            (old(self).visible(px as int, py as int) && old(self).is_direct() ==> ({
                let tx = old(self).target_x(px as int, py as int);
                let ty = old(self).target_y(px as int, py as int);
                &&& Renderer::same_logs(*old(self), *final(self))
                &&& Renderer::same_marks(*old(self), *final(self))
                &&& final(self).screen(tx, ty) == color
                &&& (forall|x2: int, y2: int|
                    old(self).in_screen(x2, y2) && !(x2 == tx && y2 == ty)
                        ==> #[trigger] final(self).screen(x2, y2) == old(self).screen(x2, y2))
            })),
            (old(self).visible(px as int, py as int) && !old(self).is_direct() ==> ({
                let tx = old(self).target_x(px as int, py as int);
                let ty = old(self).target_y(px as int, py as int);
                let cb = old(self).cur_buffer();
                &&& final(self).log_seq(cb) == old(self).log_seq(cb).push(
                    LogEntry { x: tx, y: ty, color },
                )
                &&& final(self).log_seq(1 - cb) == old(self).log_seq(1 - cb)
                &&& final(self).marked_at(tx, ty)
                &&& (forall|x2: int, y2: int|
                    old(self).in_screen(x2, y2) && !(x2 == tx && y2 == ty)
                        ==> #[trigger] final(self).marked_at(x2, y2) == old(self).marked_at(
                        x2,
                        y2,
                    ))
                &&& (old(self).is_immediate() ==> final(self).screen(tx, ty) == color)
                &&& (old(self).is_immediate() ==> (forall|x2: int, y2: int|
                    old(self).in_screen(x2, y2) && !(x2 == tx && y2 == ty)
                        ==> #[trigger] final(self).screen(x2, y2) == old(self).screen(x2, y2)))
                &&& (!old(self).is_immediate() ==> Renderer::same_screen(
                    *old(self),
                    *final(self),
                ))
            })),
    {
        proof {
            self.display.lemma_dims();
        }
        let tx: i64;
        let ty: i64;
        if self.portrait {
            tx = self.display.get_width() as i64 - py as i64;
            ty = px as i64;
        } else {
            tx = px as i64;
            ty = py as i64;
        }
        let pw = self.display.get_width() as i64;
        let ph = self.display.get_height() as i64;
        if tx < 0 || tx >= pw || ty < 0 || ty >= ph {
            return ;
        }
        let x = tx as usize;
        let y = ty as usize;
        if self.direct {
            self.display.write_pixel(x, y, color);
            proof {
                assert(self.log_seq(0) =~= old(self).log_seq(0));
                assert(self.log_seq(1) =~= old(self).log_seq(1));
                assert(self.structure_ok());
                assert(self.entries_ok());
                assert(self.mask_ok()) by {
                    assert forall|x2: int, y2: int| self.in_screen(x2, y2) implies (
                    #[trigger] self.marked_at(x2, y2) <==> self.in_log(
                        self.mask_buffer(),
                        x2,
                        y2,
                    )) by {
                        assert(old(self).marked_at(x2, y2) <==> old(self).in_log(
                            old(self).mask_buffer(),
                            x2,
                            y2,
                        ));
                        assert(self.marked_at(x2, y2) == old(self).marked_at(x2, y2));
                    }
                }
                assert(self.immediate_ok());
            }
        } else {
            self.mark_pixel(x, y, true);
            let ghost after_mark = *self;
            let offset = self.current_buffer * PIXEL_BUFFER_SIZE;
            let cnt = self.drawn_pixel_count[self.current_buffer];
            let index = cnt + offset;
            self.drawn_pixels_x[index] = x as i16;
            self.drawn_pixels_y[index] = y as i16;
            self.drawn_pixels_color[index] = color;
            let new_cnt = cnt + 1;
            self.drawn_pixel_count[self.current_buffer] = new_cnt;
            if self.immediate {
                self.display.write_pixel(x, y, color);
            }
            proof {
                assert(self.structure_ok());
                let cb = old(self).cur_buffer();
                let entry = LogEntry { x: tx as int, y: ty as int, color };
                assert(self.log_seq(cb) =~= old(self).log_seq(cb).push(entry));
                assert(self.log_seq(1 - cb) =~= old(self).log_seq(1 - cb));
                lemma_log_push(old(self).log_seq(cb), entry);
                assert(self.mask_ok()) by {
                    assert forall|x2: int, y2: int| self.in_screen(x2, y2) implies (
                    #[trigger] self.marked_at(x2, y2) <==> self.in_log(
                        self.mask_buffer(),
                        x2,
                        y2,
                    )) by {
                        assert(self.mask_buffer() == cb);
                        assert(self.in_log(cb, x2, y2) == log_has(
                            old(self).log_seq(cb).push(entry),
                            x2,
                            y2,
                        ));
                        if x2 == tx as int && y2 == ty as int {
                            assert(after_mark.marked_at(x2, y2));
                            assert(self.marked_at(x2, y2) == after_mark.marked_at(x2, y2));
                            assert(log_has(old(self).log_seq(cb).push(entry), x2, y2));
                        } else {
                            assert(after_mark.marked_at(x2, y2) == old(self).marked_at(x2, y2));
                            assert(self.marked_at(x2, y2) == after_mark.marked_at(x2, y2));
                            assert(old(self).marked_at(x2, y2) <==> old(self).in_log(
                                cb,
                                x2,
                                y2,
                            ));
                            assert(log_has(old(self).log_seq(cb).push(entry), x2, y2) <==> (
                            log_has(old(self).log_seq(cb), x2, y2) || (entry.x == x2 && entry.y
                                == y2)));
                        }
                    }
                }
                assert(self.entries_ok()) by {
                    assert forall|b: int, i: int|
                        0 <= b < 2 && 0 <= i < self.log_len(b) implies self.in_screen(
                        (#[trigger] self.log_seq(b)[i]).x,
                        self.log_seq(b)[i].y,
                    ) by {
                        if b == cb && i == old(self).log_len(b) {
                        } else {
                            assert(self.log_seq(b)[i] == old(self).log_seq(b)[i]);
                            assert(old(self).in_screen(
                                old(self).log_seq(b)[i].x,
                                old(self).log_seq(b)[i].y,
                            ));
                        }
                    }
                }
                assert(self.immediate_ok()) by {
                    if !self.direct && self.immediate {
                        assert forall|x2: int, y2: int|
                            self.in_screen(x2, y2) && #[trigger] self.in_log(
                                self.cur_buffer(),
                                x2,
                                y2,
                            ) implies self.screen(x2, y2) == self.last_color(
                            self.cur_buffer(),
                            x2,
                            y2,
                        ) by {
                            if !(x2 == tx as int && y2 == ty as int) {
                                assert(old(self).in_log(cb, x2, y2));
                            }
                        }
                    }
                }
            }
        }
    }

    // ------------------------------------------------------------------
    // The frame protocol
    // ------------------------------------------------------------------

    /// Starts composing a new frame: clears every occupancy bit left by the
    /// last completed frame, resets the pixel log about to be reused, and
    /// leaves direct mode. Must run before any drawing call of the frame.
    pub fn begin_frame(&mut self)
        requires
            old(self).inv(),
            old(self).is_direct(),
        ensures
            final(self).inv(),
            !final(self).is_direct(),
            final(self).is_portrait() == old(self).is_portrait(),
            final(self).is_immediate() == old(self).is_immediate(),
            final(self).cur_buffer() == old(self).cur_buffer(),
            final(self).bg_of() == old(self).bg_of(),
            final(self).phys_w() == old(self).phys_w(),
            final(self).phys_h() == old(self).phys_h(),
            final(self).frames() == old(self).frames(),
            final(self).log_len(final(self).cur_buffer()) == 0,
            final(self).log_seq(1 - final(self).cur_buffer()) == old(self).log_seq(
                1 - old(self).cur_buffer(),
            ),
            forall|x: int, y: int|
                final(self).in_screen(x, y) ==> !#[trigger] final(self).marked_at(x, y),
            Renderer::same_screen(*old(self), *final(self)),
    {
        let ghost olds = *old(self);
        let ghost last_log = olds.log_seq(1 - olds.cur_buffer());
        let last_buffer = 1 - self.current_buffer;
        let offset = last_buffer * PIXEL_BUFFER_SIZE;
        let size = self.drawn_pixel_count[last_buffer];
        let mut i: usize = 0;
        while i < size
            invariant
                olds.inv(),
                olds.is_direct(),
                i <= size,
                size == last_log.len(),
                last_log == olds.log_seq(1 - olds.cur_buffer()),
                last_buffer == 1 - olds.current_buffer,
                offset == last_buffer * PIXEL_BUFFER_SIZE,
                self.drawn_pixels_x == olds.drawn_pixels_x,
                self.drawn_pixels_y == olds.drawn_pixels_y,
                self.drawn_pixels_color == olds.drawn_pixels_color,
                self.drawn_pixel_count == olds.drawn_pixel_count,
                self.current_buffer == olds.current_buffer,
                self.display == olds.display,
                self.direct == olds.direct,
                self.frame_counter == olds.frame_counter,
                self.portrait == olds.portrait,
                self.width == olds.width,
                self.height == olds.height,
                self.bg == olds.bg,
                self.immediate == olds.immediate,
                self.pixel_markers.len() == olds.pixel_markers.len(),
                forall|x: int, y: int|
                    olds.in_screen(x, y) ==> (#[trigger] self.marked_at(x, y) == (olds.marked_at(
                        x,
                        y,
                    ) && !log_has(last_log.take(i as int), x, y))),
            decreases size - i,
        {
            proof {
                assert(self.log_seq(1 - olds.cur_buffer()) =~= last_log);
                assert(olds.in_screen(last_log[i as int].x, last_log[i as int].y));
            }
            let x = self.drawn_pixels_x[i + offset];
            let y = self.drawn_pixels_y[i + offset];
            let ghost before = *self;
            self.mark_pixel(x as usize, y as usize, false);
            proof {
                let e = last_log[i as int];
                assert(last_log.take(i as int + 1) =~= last_log.take(i as int).push(e));
                lemma_log_push(last_log.take(i as int), e);
                assert forall|x2: int, y2: int| olds.in_screen(x2, y2) implies (
                #[trigger] self.marked_at(x2, y2) == (olds.marked_at(x2, y2) && !log_has(
                    last_log.take(i as int + 1),
                    x2,
                    y2,
                ))) by {
                    if x2 == e.x && y2 == e.y {
                        assert(!self.marked_at(x2, y2));
                        assert(log_has(last_log.take(i as int + 1), x2, y2));
                    } else {
                        assert(self.marked_at(x2, y2) == before.marked_at(x2, y2));
                    }
                }
            }
            i = i + 1;
        }
        let ghost after_loop = *self;
        self.drawn_pixel_count[self.current_buffer] = 0;
        self.direct = false;
        proof {
            assert(last_log.take(size as int) =~= last_log);
            assert(self.log_seq(1 - olds.cur_buffer()) =~= last_log);
            assert(self.log_seq(olds.cur_buffer()) =~= Seq::<LogEntry>::empty());
            assert forall|x: int, y: int| self.in_screen(x, y) implies !#[trigger] self.marked_at(
                x,
                y,
            ) by {
                assert(self.marked_at(x, y) == after_loop.marked_at(x, y));
                assert(after_loop.marked_at(x, y) == (olds.marked_at(x, y) && !log_has(
                    last_log.take(size as int),
                    x,
                    y,
                )));
                assert(olds.marked_at(x, y) <==> olds.in_log(olds.mask_buffer(), x, y));
                assert(olds.mask_buffer() == 1 - olds.cur_buffer());
            }
            assert(self.inv()) by {
                assert(self.structure_ok());
                assert(self.entries_ok()) by {
                    assert forall|b: int, j: int|
                        0 <= b < 2 && 0 <= j < self.log_len(b) implies self.in_screen(
                        (#[trigger] self.log_seq(b)[j]).x,
                        self.log_seq(b)[j].y,
                    ) by {
                        assert(b == 1 - olds.cur_buffer());
                        assert(olds.in_screen(olds.log_seq(b)[j].x, olds.log_seq(b)[j].y));
                    }
                }
                assert(self.mask_ok());
                assert(self.immediate_ok());
            }
        }
    }

    /// Completes the frame being composed: writes every composed pixel to
    /// the display (unless immediate mode already did), repaints with the
    /// background every pixel the previous frame drew that this frame did
    /// not, then swaps buffers and returns to direct mode. The work is
    /// proportional to the pixels drawn, not to the screen area.
    pub fn end_frame(&mut self)
        requires
            old(self).inv(),
            !old(self).is_direct(),
        ensures
            final(self).inv(),
            final(self).is_direct(),
            final(self).cur_buffer() == 1 - old(self).cur_buffer(),
            final(self).is_portrait() == old(self).is_portrait(),
            final(self).is_immediate() == old(self).is_immediate(),
            final(self).bg_of() == old(self).bg_of(),
            final(self).phys_w() == old(self).phys_w(),
            final(self).phys_h() == old(self).phys_h(),
            final(self).log_seq(0) == old(self).log_seq(0),
            final(self).log_seq(1) == old(self).log_seq(1),
            Renderer::same_marks(*old(self), *final(self)),
            final(self).frames() == (if old(self).frames() < u64::MAX {
                (old(self).frames() + 1) as u64
            } else {
                u64::MAX
            }),
            forall|x: int, y: int|
                old(self).in_screen(x, y) && #[trigger] old(self).in_log(
                    old(self).cur_buffer(),
                    x,
                    y,
                ) ==> final(self).screen(x, y) == old(self).last_color(
                    old(self).cur_buffer(),
                    x,
                    y,
                ),
            forall|x: int, y: int|
                old(self).in_screen(x, y) && !old(self).in_log(old(self).cur_buffer(), x, y)
                    && #[trigger] old(self).in_log(1 - old(self).cur_buffer(), x, y)
                    ==> final(self).screen(x, y) == old(self).background_color(x, y),
            forall|x: int, y: int|
                old(self).in_screen(x, y) && !old(self).in_log(old(self).cur_buffer(), x, y)
                    && !old(self).in_log(1 - old(self).cur_buffer(), x, y)
                    ==> #[trigger] final(self).screen(x, y) == old(self).screen(x, y),
    {
        let ghost olds = *old(self);
        let ghost new_log = olds.log_seq(olds.cur_buffer());
        let ghost old_log = olds.log_seq(1 - olds.cur_buffer());
        let last_buffer = 1 - self.current_buffer;
        let last_offset = last_buffer * PIXEL_BUFFER_SIZE;
        let last_size = self.drawn_pixel_count[last_buffer];
        let offset = self.current_buffer * PIXEL_BUFFER_SIZE;
        let size = self.drawn_pixel_count[self.current_buffer];
        let mut max_size = last_size;
        if size > max_size && !self.immediate {
            max_size = size;
        }
        proof {
            if olds.is_immediate() {
                assert forall|x: int, y: int|
                    olds.in_screen(x, y) && #[trigger] log_has(done_new(olds, new_log, 0), x, y)
                    implies self.screen(x, y) == log_last_color(
                    done_new(olds, new_log, 0),
                    x,
                    y,
                ) by {
                    assert(olds.in_log(olds.cur_buffer(), x, y));
                }
            }
        }
        let mut i: usize = 0;
        while i < max_size
            invariant
                olds.inv(),
                !olds.is_direct(),
                i <= max_size,
                size == new_log.len(),
                last_size == old_log.len(),
                new_log == olds.log_seq(olds.cur_buffer()),
                old_log == olds.log_seq(1 - olds.cur_buffer()),
                max_size == (if size > last_size && !olds.is_immediate() {
                    size
                } else {
                    last_size
                }),
                last_buffer == 1 - olds.current_buffer,
                last_offset == last_buffer * PIXEL_BUFFER_SIZE,
                offset == olds.current_buffer * PIXEL_BUFFER_SIZE,
                self.pixel_markers == olds.pixel_markers,
                self.drawn_pixels_x == olds.drawn_pixels_x,
                self.drawn_pixels_y == olds.drawn_pixels_y,
                self.drawn_pixels_color == olds.drawn_pixels_color,
                self.drawn_pixel_count == olds.drawn_pixel_count,
                self.current_buffer == olds.current_buffer,
                self.direct == olds.direct,
                self.frame_counter == olds.frame_counter,
                self.portrait == olds.portrait,
                self.width == olds.width,
                self.height == olds.height,
                self.bg == olds.bg,
                self.immediate == olds.immediate,
                self.display.wf(),
                self.phys_w() == olds.phys_w(),
                self.phys_h() == olds.phys_h(),
                self.config_ok(),
                forall|x: int, y: int|
                    olds.in_screen(x, y) && #[trigger] log_has(
                        done_new(olds, new_log, i as int),
                        x,
                        y,
                    ) ==> self.screen(x, y) == log_last_color(
                        done_new(olds, new_log, i as int),
                        x,
                        y,
                    ),
                forall|x: int, y: int|
                    olds.in_screen(x, y) && !olds.marked_at(x, y) && #[trigger] log_has(
                        old_log.take(min_i(i as int, last_size as int)),
                        x,
                        y,
                    ) ==> self.screen(x, y) == olds.background_color(x, y),
                forall|x: int, y: int|
                    olds.in_screen(x, y) && !log_has(done_new(olds, new_log, i as int), x, y) && !(
                    log_has(old_log.take(min_i(i as int, last_size as int)), x, y)
                        && !olds.marked_at(x, y)) ==> #[trigger] self.screen(x, y) == olds.screen(
                        x,
                        y,
                    ),
            decreases max_size - i,
        {
            let ghost prev = *self;
            proof {
                assert(self.log_seq(olds.cur_buffer()) =~= new_log);
                assert(self.log_seq(1 - olds.cur_buffer()) =~= old_log);
                assert(olds.mask_buffer() == olds.cur_buffer());
            }
            if i < size && !self.immediate {
                proof {
                    assert(olds.in_screen(new_log[i as int].x, new_log[i as int].y));
                }
                let x = self.drawn_pixels_x[i + offset];
                let y = self.drawn_pixels_y[i + offset];
                let color = self.drawn_pixels_color[i + offset];
                self.display.write_pixel(x as usize, y as usize, color);
            }
            let ghost mid = *self;
            if i < last_size {
                proof {
                    assert(olds.in_screen(old_log[i as int].x, old_log[i as int].y));
                }
                let x = self.drawn_pixels_x[i + last_offset];
                let y = self.drawn_pixels_y[i + last_offset];
                if !self.is_pixel_marked(x as usize, y as usize) {
                    let color = self.get_background(x as i32, y as i32);
                    proof {
                        assert(self.background_color(x as int, y as int) == olds.background_color(
                            x as int,
                            y as int,
                        ));
                    }
                    self.display.write_pixel(x as usize, y as usize, color);
                }
            }
            proof {
                let di = done_new(olds, new_log, i as int);
                let di1 = done_new(olds, new_log, i as int + 1);
                let oi = old_log.take(min_i(i as int, last_size as int));
                let oi1 = old_log.take(min_i(i as int + 1, last_size as int));
                let wrote_new = (i as int) < size && !olds.is_immediate();
                let e = new_log[i as int];
                let o = old_log[i as int];
                let erased = (i as int) < last_size && !olds.marked_at(o.x, o.y);
                if wrote_new {
                    assert(new_log.take(i as int + 1) =~= new_log.take(i as int).push(e));
                    lemma_log_push(new_log.take(i as int), e);
                    assert(di1 == new_log.take(i as int + 1));
                    assert(di == new_log.take(i as int));
                    assert(olds.marked_at(e.x, e.y)) by {
                        assert(log_has(new_log, e.x, e.y)) by {
                            assert(new_log[i as int].x == e.x && new_log[i as int].y == e.y);
                        }
                    }
                    assert(mid.screen(e.x, e.y) == e.color);
                } else {
                    assert(di1 == di);
                }
                if (i as int) < last_size {
                    assert(oi1 =~= oi.push(o));
                    lemma_log_push(oi, o);
                } else {
                    assert(oi1 == oi);
                }
                if erased {
                    assert(self.screen(o.x, o.y) == olds.background_color(o.x, o.y));
                }
                // every pixel of the composed log is marked, so the erase
                // pass never touches it
                assert forall|x: int, y: int|
                    olds.in_screen(x, y) && #[trigger] log_has(di1, x, y) implies self.screen(
                    x,
                    y,
                ) == log_last_color(di1, x, y) by {
                    assert(log_has(new_log, x, y)) by {
                        if olds.is_immediate() {
                        } else {
                            lemma_log_has_take(new_log, min_i(i as int + 1, size as int), x, y);
                        }
                    }
                    assert(olds.marked_at(x, y));
                    if wrote_new && x == e.x && y == e.y {
                        assert(log_last_color(di1, x, y) == e.color);
                        assert(self.screen(x, y) == mid.screen(x, y)) by {
                            if erased {
                                assert(!(o.x == x && o.y == y));
                            }
                        }
                    } else {
                        assert(log_has(di, x, y));
                        assert(log_last_color(di1, x, y) == log_last_color(di, x, y));
                        assert(prev.screen(x, y) == log_last_color(di, x, y));
                        assert(mid.screen(x, y) == prev.screen(x, y));
                        assert(self.screen(x, y) == mid.screen(x, y)) by {
                            if erased {
                                assert(!(o.x == x && o.y == y));
                            }
                        }
                    }
                }
                assert forall|x: int, y: int|
                    olds.in_screen(x, y) && !olds.marked_at(x, y) && #[trigger] log_has(
                        oi1,
                        x,
                        y,
                    ) implies self.screen(x, y) == olds.background_color(x, y) by {
                    if (i as int) < last_size && x == o.x && y == o.y {
                        assert(erased);
                    } else {
                        assert(log_has(oi, x, y));
                        assert(prev.screen(x, y) == olds.background_color(x, y));
                        assert(mid.screen(x, y) == prev.screen(x, y)) by {
                            if wrote_new {
                                assert(olds.marked_at(e.x, e.y));
                                assert(!(e.x == x && e.y == y));
                            }
                        }
                        assert(self.screen(x, y) == mid.screen(x, y)) by {
                            if erased {
                                assert(!(o.x == x && o.y == y));
                            }
                        }
                    }
                }
                assert forall|x: int, y: int|
                    olds.in_screen(x, y) && !log_has(di1, x, y) && !(log_has(oi1, x, y)
                        && !olds.marked_at(x, y)) implies #[trigger] self.screen(x, y)
                    == olds.screen(x, y) by {
                    assert(!log_has(di, x, y)) by {
                        if olds.is_immediate() {
                        } else {
                            if log_has(di, x, y) {
                                lemma_log_has_take(new_log.take(i as int + 1), min_i(
                                    i as int,
                                    size as int,
                                ), x, y);
                            }
                        }
                    }
                    assert(!(log_has(oi, x, y) && !olds.marked_at(x, y))) by {
                        if (i as int) < last_size && log_has(oi, x, y) {
                            assert(log_has(oi1, x, y));
                        }
                    }
                    assert(prev.screen(x, y) == olds.screen(x, y));
                    assert(mid.screen(x, y) == prev.screen(x, y)) by {
                        if wrote_new {
                            assert(log_has(di1, e.x, e.y));
                            assert(!(e.x == x && e.y == y));
                        }
                    }
                    assert(self.screen(x, y) == mid.screen(x, y)) by {
                        if erased {
                            assert(log_has(oi1, o.x, o.y)) by {
                                assert(oi1[min_i(i as int, last_size as int)] == o);
                            }
                            assert(!(o.x == x && o.y == y));
                        }
                    }
                }
            }
            i = i + 1;
        }
        let ghost after_loop = *self;
        self.current_buffer = last_buffer;
        if self.frame_counter < u64::MAX {
            self.frame_counter = self.frame_counter + 1;
        }
        self.direct = true;
        proof {
            assert(new_log.take(size as int) =~= new_log);
            assert(old_log.take(last_size as int) =~= old_log);
            assert(done_new(olds, new_log, max_size as int) == new_log);
            assert(old_log.take(min_i(max_size as int, last_size as int)) == old_log);
            assert(self.log_seq(0) =~= olds.log_seq(0));
            assert(self.log_seq(1) =~= olds.log_seq(1));
            assert forall|x: int, y: int| olds.in_screen(x, y) implies #[trigger] self.marked_at(
                x,
                y,
            ) == olds.marked_at(x, y) by {}
            assert forall|x: int, y: int|
                olds.in_screen(x, y) && #[trigger] olds.in_log(olds.cur_buffer(), x, y)
                implies self.screen(x, y) == olds.last_color(olds.cur_buffer(), x, y) by {
                assert(log_has(done_new(olds, new_log, max_size as int), x, y));
                assert(after_loop.screen(x, y) == log_last_color(new_log, x, y));
            }
            assert forall|x: int, y: int|
                olds.in_screen(x, y) && !olds.in_log(olds.cur_buffer(), x, y)
                    && #[trigger] olds.in_log(1 - olds.cur_buffer(), x, y) implies self.screen(
                x,
                y,
            ) == olds.background_color(x, y) by {
                assert(olds.marked_at(x, y) <==> olds.in_log(olds.mask_buffer(), x, y));
                assert(!olds.marked_at(x, y));
                assert(after_loop.screen(x, y) == olds.background_color(x, y));
            }
            assert forall|x: int, y: int|
                olds.in_screen(x, y) && !olds.in_log(olds.cur_buffer(), x, y) && !olds.in_log(
                    1 - olds.cur_buffer(),
                    x,
                    y,
                ) implies #[trigger] self.screen(x, y) == olds.screen(x, y) by {
                assert(!log_has(done_new(olds, new_log, max_size as int), x, y));
                assert(after_loop.screen(x, y) == olds.screen(x, y));
            }
            assert(self.inv()) by {
                assert(self.structure_ok());
                assert(self.entries_ok()) by {
                    assert forall|b: int, j: int|
                        0 <= b < 2 && 0 <= j < self.log_len(b) implies self.in_screen(
                        (#[trigger] self.log_seq(b)[j]).x,
                        self.log_seq(b)[j].y,
                    ) by {
                        assert(olds.in_screen(olds.log_seq(b)[j].x, olds.log_seq(b)[j].y));
                    }
                }
                assert(self.mask_ok()) by {
                    assert forall|x: int, y: int| self.in_screen(x, y) implies (
                    #[trigger] self.marked_at(x, y) <==> self.in_log(
                        self.mask_buffer(),
                        x,
                        y,
                    )) by {
                        assert(olds.marked_at(x, y) <==> olds.in_log(olds.mask_buffer(), x, y));
                        assert(self.mask_buffer() == olds.mask_buffer());
                    }
                }
                assert(self.immediate_ok());
            }
        }
    }

    /// Repaints every pixel logged in buffer `b` with the background, clears
    /// its occupancy bits, and empties the log. Touches nothing else.
    fn flush_buffer(&mut self, b: usize)
        requires
            b < 2,
            old(self).config_ok(),
            old(self).drawn_pixel_count.len() == 2,
            old(self).drawn_pixels_x.len() == 2 * PIXEL_BUFFER_SIZE,
            old(self).drawn_pixels_y.len() == 2 * PIXEL_BUFFER_SIZE,
            old(self).drawn_pixels_color.len() == 2 * PIXEL_BUFFER_SIZE,
            old(self).log_len(b as int) <= PIXEL_BUFFER_SIZE,
            old(self).pixel_markers.len() * 32 >= old(self).phys_w() * old(self).phys_h(),
            forall|i: int|
                0 <= i < old(self).log_len(b as int) ==> old(self).in_screen(
                    (#[trigger] old(self).log_seq(b as int)[i]).x,
                    old(self).log_seq(b as int)[i].y,
                ),
        ensures
            final(self).config_ok(),
            final(self).log_len(b as int) == 0,
            final(self).log_seq(1 - b as int) == old(self).log_seq(1 - b as int),
            final(self).pixel_markers.len() == old(self).pixel_markers.len(),
            final(self).drawn_pixels_x == old(self).drawn_pixels_x,
            final(self).drawn_pixels_y == old(self).drawn_pixels_y,
            final(self).drawn_pixels_color == old(self).drawn_pixels_color,
            final(self).drawn_pixel_count.len() == 2,
            final(self).drawn_pixel_count[1 - b as int] == old(self).drawn_pixel_count[1 - b
                as int],
            final(self).current_buffer == old(self).current_buffer,
            final(self).direct == old(self).direct,
            final(self).frame_counter == old(self).frame_counter,
            final(self).portrait == old(self).portrait,
            final(self).width == old(self).width,
            final(self).height == old(self).height,
            final(self).bg == old(self).bg,
            final(self).immediate == old(self).immediate,
            final(self).phys_w() == old(self).phys_w(),
            final(self).phys_h() == old(self).phys_h(),
            forall|x: int, y: int|
                old(self).in_screen(x, y) ==> (#[trigger] final(self).marked_at(x, y)
                    == (old(self).marked_at(x, y) && !old(self).in_log(b as int, x, y))),
            forall|x: int, y: int|
                old(self).in_screen(x, y) && #[trigger] old(self).in_log(b as int, x, y)
                    ==> final(self).screen(x, y) == old(self).background_color(x, y),
            forall|x: int, y: int|
                old(self).in_screen(x, y) && !old(self).in_log(b as int, x, y)
                    ==> #[trigger] final(self).screen(x, y) == old(self).screen(x, y),
    {
        let ghost olds = *old(self);
        let ghost buf_log = olds.log_seq(b as int);
        let offset = b * PIXEL_BUFFER_SIZE;
        let size = self.drawn_pixel_count[b];
        let mut i: usize = 0;
        while i < size
            invariant
                b < 2,
                i <= size,
                size <= PIXEL_BUFFER_SIZE,
                size == buf_log.len(),
                buf_log == olds.log_seq(b as int),
                offset == b * PIXEL_BUFFER_SIZE,
                olds.config_ok(),
                olds.drawn_pixel_count.len() == 2,
                olds.drawn_pixels_x.len() == 2 * PIXEL_BUFFER_SIZE,
                olds.drawn_pixels_y.len() == 2 * PIXEL_BUFFER_SIZE,
                olds.drawn_pixels_color.len() == 2 * PIXEL_BUFFER_SIZE,
                olds.pixel_markers.len() * 32 >= olds.phys_w() * olds.phys_h(),
                forall|j: int|
                    0 <= j < buf_log.len() ==> olds.in_screen(
                        (#[trigger] buf_log[j]).x,
                        buf_log[j].y,
                    ),
                self.drawn_pixels_x == olds.drawn_pixels_x,
                self.drawn_pixels_y == olds.drawn_pixels_y,
                self.drawn_pixels_color == olds.drawn_pixels_color,
                self.drawn_pixel_count == olds.drawn_pixel_count,
                self.current_buffer == olds.current_buffer,
                self.direct == olds.direct,
                self.frame_counter == olds.frame_counter,
                self.portrait == olds.portrait,
                self.width == olds.width,
                self.height == olds.height,
                self.bg == olds.bg,
                self.immediate == olds.immediate,
                self.pixel_markers.len() == olds.pixel_markers.len(),
                self.display.wf(),
                self.phys_w() == olds.phys_w(),
                self.phys_h() == olds.phys_h(),
                self.config_ok(),
                forall|x: int, y: int|
                    olds.in_screen(x, y) ==> (#[trigger] self.marked_at(x, y) == (olds.marked_at(
                        x,
                        y,
                    ) && !log_has(buf_log.take(i as int), x, y))),
                forall|x: int, y: int|
                    olds.in_screen(x, y) && #[trigger] log_has(buf_log.take(i as int), x, y)
                        ==> self.screen(x, y) == olds.background_color(x, y),
                forall|x: int, y: int|
                    olds.in_screen(x, y) && !log_has(buf_log.take(i as int), x, y)
                        ==> #[trigger] self.screen(x, y) == olds.screen(x, y),
            decreases size - i,
        {
            proof {
                assert(self.log_seq(b as int) =~= buf_log);
                assert(olds.in_screen(buf_log[i as int].x, buf_log[i as int].y));
            }
            let x = self.drawn_pixels_x[i + offset];
            let y = self.drawn_pixels_y[i + offset];
            let color = self.get_background(x as i32, y as i32);
            proof {
                assert(self.background_color(x as int, y as int) == olds.background_color(
                    x as int,
                    y as int,
                ));
            }
            let ghost before = *self;
            self.display.write_pixel(x as usize, y as usize, color);
            let ghost mid = *self;
            self.mark_pixel(x as usize, y as usize, false);
            proof {
                let e = buf_log[i as int];
                assert(buf_log.take(i as int + 1) =~= buf_log.take(i as int).push(e));
                lemma_log_push(buf_log.take(i as int), e);
                assert forall|x2: int, y2: int| olds.in_screen(x2, y2) implies (
                #[trigger] self.marked_at(x2, y2) == (olds.marked_at(x2, y2) && !log_has(
                    buf_log.take(i as int + 1),
                    x2,
                    y2,
                ))) by {
                    if x2 == e.x && y2 == e.y {
                        assert(!self.marked_at(x2, y2));
                        assert(log_has(buf_log.take(i as int + 1), x2, y2));
                    } else {
                        assert(self.marked_at(x2, y2) == mid.marked_at(x2, y2));
                        assert(mid.marked_at(x2, y2) == before.marked_at(x2, y2));
                    }
                }
                assert forall|x2: int, y2: int|
                    olds.in_screen(x2, y2) && #[trigger] log_has(
                        buf_log.take(i as int + 1),
                        x2,
                        y2,
                    ) implies self.screen(x2, y2) == olds.background_color(x2, y2) by {
                    if x2 == e.x && y2 == e.y {
                        assert(mid.screen(x2, y2) == olds.background_color(x2, y2));
                        assert(self.screen(x2, y2) == mid.screen(x2, y2));
                    } else {
                        assert(log_has(buf_log.take(i as int), x2, y2));
                        assert(before.screen(x2, y2) == olds.background_color(x2, y2));
                        assert(mid.screen(x2, y2) == before.screen(x2, y2));
                        assert(self.screen(x2, y2) == mid.screen(x2, y2));
                    }
                }
                assert forall|x2: int, y2: int|
                    olds.in_screen(x2, y2) && !log_has(buf_log.take(i as int + 1), x2, y2)
                    implies #[trigger] self.screen(x2, y2) == olds.screen(x2, y2) by {
                    assert(!(x2 == e.x && y2 == e.y));
                    assert(!log_has(buf_log.take(i as int), x2, y2));
                    assert(before.screen(x2, y2) == olds.screen(x2, y2));
                    assert(mid.screen(x2, y2) == before.screen(x2, y2));
                    assert(self.screen(x2, y2) == mid.screen(x2, y2));
                }
            }
            i = i + 1;
        }
        let ghost after_loop = *self;
        self.drawn_pixel_count[b] = 0;
        proof {
            assert(buf_log.take(size as int) =~= buf_log);
            assert(self.log_seq(b as int) =~= Seq::<LogEntry>::empty());
            assert(self.log_seq(1 - b as int) =~= olds.log_seq(1 - b as int));
            assert forall|x: int, y: int| olds.in_screen(x, y) implies (
            #[trigger] self.marked_at(x, y) == (olds.marked_at(x, y) && !olds.in_log(
                b as int,
                x,
                y,
            ))) by {
                assert(self.marked_at(x, y) == after_loop.marked_at(x, y));
            }
            assert forall|x: int, y: int|
                olds.in_screen(x, y) && #[trigger] olds.in_log(b as int, x, y) implies self.screen(
                x,
                y,
            ) == olds.background_color(x, y) by {
                assert(log_has(buf_log.take(size as int), x, y));
                assert(after_loop.screen(x, y) == olds.background_color(x, y));
            }
            assert forall|x: int, y: int|
                olds.in_screen(x, y) && !olds.in_log(b as int, x, y)
                implies #[trigger] self.screen(x, y) == olds.screen(x, y) by {
                assert(!log_has(buf_log.take(size as int), x, y));
                assert(after_loop.screen(x, y) == olds.screen(x, y));
            }
        }
    }

    /// Repaints every pixel logged in either buffer with the background and
    /// empties both logs and the occupancy mask, abandoning the current
    /// composition. Used when the drawn content is about to be replaced
    /// wholesale.
    pub fn flush(&mut self)
        requires
            old(self).inv(),
        ensures
            final(self).inv(),
            Renderer::same_config(*old(self), *final(self)),
            final(self).log_len(0) == 0,
            final(self).log_len(1) == 0,
            forall|x: int, y: int|
                final(self).in_screen(x, y) ==> !#[trigger] final(self).marked_at(x, y),
            forall|x: int, y: int|
                old(self).in_screen(x, y) && (old(self).in_log(0, x, y) || old(self).in_log(
                    1,
                    x,
                    y,
                )) ==> #[trigger] final(self).screen(x, y) == old(self).background_color(x, y),
            forall|x: int, y: int|
                old(self).in_screen(x, y) && !old(self).in_log(0, x, y) && !old(self).in_log(
                    1,
                    x,
                    y,
                ) ==> #[trigger] final(self).screen(x, y) == old(self).screen(x, y),
    {
        let ghost olds = *old(self);
        self.flush_buffer(0);
        let ghost mid = *self;
        self.flush_buffer(1);
        proof {
            assert(mid.log_seq(1) == olds.log_seq(1));
            assert(mid.background_color(0, 0) == olds.background_color(0, 0));
            assert forall|x: int, y: int| self.in_screen(x, y) implies !#[trigger] self.marked_at(
                x,
                y,
            ) by {
                assert(olds.marked_at(x, y) <==> olds.in_log(olds.mask_buffer(), x, y));
                assert(mid.marked_at(x, y) == (olds.marked_at(x, y) && !olds.in_log(0, x, y)));
                assert(self.marked_at(x, y) == (mid.marked_at(x, y) && !mid.in_log(1, x, y)));
            }
            assert forall|x: int, y: int|
                olds.in_screen(x, y) && (olds.in_log(0, x, y) || olds.in_log(1, x, y))
                implies #[trigger] self.screen(x, y) == olds.background_color(x, y) by {
                assert(mid.background_color(x, y) == olds.background_color(x, y));
                if olds.in_log(1, x, y) {
                    assert(mid.in_log(1, x, y));
                } else {
                    assert(!mid.in_log(1, x, y));
                    assert(mid.screen(x, y) == olds.background_color(x, y));
                }
            }
            assert forall|x: int, y: int|
                olds.in_screen(x, y) && !olds.in_log(0, x, y) && !olds.in_log(1, x, y)
                implies #[trigger] self.screen(x, y) == olds.screen(x, y) by {
                assert(!mid.in_log(1, x, y));
            }
            assert(self.inv()) by {
                assert(self.structure_ok());
                assert(self.entries_ok());
                assert(self.mask_ok());
                assert(self.immediate_ok());
            }
        }
    }

    /// Physical x coordinate of the left edge of the rectangle that
    /// `clear_area(x, y, w, h)` repaints.
    pub open spec fn area_x(&self, x: int, y: int, w: int, h: int) -> int {
        if self.is_portrait() {
            self.phys_w() - y - h
        } else {
            x
        }
    }

    /// Physical y coordinate of the top edge of that rectangle.
    pub open spec fn area_y(&self, x: int, y: int, w: int, h: int) -> int {
        if self.is_portrait() {
            x
        } else {
            y
        }
    }

    /// Physical width of that rectangle.
    pub open spec fn area_w(&self, w: int, h: int) -> int {
        if self.is_portrait() {
            h
        } else {
            w
        }
    }

    /// Physical height of that rectangle.
    pub open spec fn area_h(&self, w: int, h: int) -> int {
        if self.is_portrait() {
            w
        } else {
            h
        }
    }

    /// Repaints the given physical rectangle, clipped to the screen, with
    /// the background. Touches only the display.
    fn repaint_rect(&mut self, x: i64, y: i64, w: i64, h: i64)
        requires
            old(self).config_ok(),
            -0x2_0000_0000 <= x <= 0x2_0000_0000,
            -0x2_0000_0000 <= y <= 0x2_0000_0000,
            -0x2_0000_0000 <= w <= 0x2_0000_0000,
            -0x2_0000_0000 <= h <= 0x2_0000_0000,
        ensures
            final(self).config_ok(),
            final(self).pixel_markers == old(self).pixel_markers,
            final(self).drawn_pixels_x == old(self).drawn_pixels_x,
            final(self).drawn_pixels_y == old(self).drawn_pixels_y,
            final(self).drawn_pixels_color == old(self).drawn_pixels_color,
            final(self).drawn_pixel_count == old(self).drawn_pixel_count,
            final(self).current_buffer == old(self).current_buffer,
            final(self).direct == old(self).direct,
            final(self).frame_counter == old(self).frame_counter,
            final(self).portrait == old(self).portrait,
            final(self).width == old(self).width,
            final(self).height == old(self).height,
            final(self).bg == old(self).bg,
            final(self).immediate == old(self).immediate,
            final(self).phys_w() == old(self).phys_w(),
            final(self).phys_h() == old(self).phys_h(),
            forall|px: int, py: int|
                old(self).in_screen(px, py) && x <= px < x + w && y <= py < y + h
                    ==> #[trigger] final(self).screen(px, py) == old(self).background_color(
                    px,
                    py,
                ),
            forall|px: int, py: int|
                old(self).in_screen(px, py) && !(x <= px < x + w && y <= py < y + h)
                    ==> #[trigger] final(self).screen(px, py) == old(self).screen(px, py),
    {
        let ghost olds = *old(self);
        proof {
            self.display.lemma_dims();
        }
        let pw = self.display.get_width() as i64;
        let ph = self.display.get_height() as i64;
        let x0 = if x > 0 {
            x
        } else {
            0
        };
        let y0 = if y > 0 {
            y
        } else {
            0
        };
        let x1 = if x + w < pw {
            x + w
        } else {
            pw
        };
        let y1 = if y + h < ph {
            y + h
        } else {
            ph
        };
        if x0 >= x1 || y0 >= y1 {
            return ;
        }
        let mut py: usize = y0 as usize;
        while py < y1 as usize
            invariant
                olds.config_ok(),
                0 <= x0 <= x1 <= olds.phys_w(),
                0 <= y0 <= py <= y1 <= olds.phys_h(),
                x1 <= x + w,
                y1 <= y + h,
                x <= x0,
                y <= y0,
                x1 == (if x + w < olds.phys_w() { x + w } else { olds.phys_w() }),
                y1 == (if y + h < olds.phys_h() { y + h } else { olds.phys_h() }),
                x0 == (if x > 0 { x } else { 0 }),
                y0 == (if y > 0 { y } else { 0 }),
                self.pixel_markers == olds.pixel_markers,
                self.drawn_pixels_x == olds.drawn_pixels_x,
                self.drawn_pixels_y == olds.drawn_pixels_y,
                self.drawn_pixels_color == olds.drawn_pixels_color,
                self.drawn_pixel_count == olds.drawn_pixel_count,
                self.current_buffer == olds.current_buffer,
                self.direct == olds.direct,
                self.frame_counter == olds.frame_counter,
                self.portrait == olds.portrait,
                self.width == olds.width,
                self.height == olds.height,
                self.bg == olds.bg,
                self.immediate == olds.immediate,
                self.display.wf(),
                self.phys_w() == olds.phys_w(),
                self.phys_h() == olds.phys_h(),
                self.config_ok(),
                forall|qx: int, qy: int|
                    olds.in_screen(qx, qy) && x0 <= qx < x1 && y0 <= qy < py
                        ==> #[trigger] self.screen(qx, qy) == olds.background_color(qx, qy),
                forall|qx: int, qy: int|
                    olds.in_screen(qx, qy) && !(x0 <= qx < x1 && y0 <= qy < py)
                        ==> #[trigger] self.screen(qx, qy) == olds.screen(qx, qy),
            decreases y1 - py,
        {
            let mut px: usize = x0 as usize;
            while px < x1 as usize
                invariant
                    olds.config_ok(),
                    0 <= x0 <= px <= x1 <= olds.phys_w(),
                    0 <= y0 <= py < y1 <= olds.phys_h(),
                    self.pixel_markers == olds.pixel_markers,
                    self.drawn_pixels_x == olds.drawn_pixels_x,
                    self.drawn_pixels_y == olds.drawn_pixels_y,
                    self.drawn_pixels_color == olds.drawn_pixels_color,
                    self.drawn_pixel_count == olds.drawn_pixel_count,
                    self.current_buffer == olds.current_buffer,
                    self.direct == olds.direct,
                    self.frame_counter == olds.frame_counter,
                    self.portrait == olds.portrait,
                    self.width == olds.width,
                    self.height == olds.height,
                    self.bg == olds.bg,
                    self.immediate == olds.immediate,
                    self.display.wf(),
                    self.phys_w() == olds.phys_w(),
                    self.phys_h() == olds.phys_h(),
                    self.config_ok(),
                    forall|qx: int, qy: int|
                        olds.in_screen(qx, qy) && ((x0 <= qx < x1 && y0 <= qy < py) || (qy == py
                            && x0 <= qx < px)) ==> #[trigger] self.screen(qx, qy)
                            == olds.background_color(qx, qy),
                    forall|qx: int, qy: int|
                        olds.in_screen(qx, qy) && !((x0 <= qx < x1 && y0 <= qy < py) || (qy == py
                            && x0 <= qx < px)) ==> #[trigger] self.screen(qx, qy) == olds.screen(
                            qx,
                            qy,
                        ),
                decreases x1 - px,
            {
                let color = self.get_background(px as i32, py as i32);
                proof {
                    assert(self.background_color(px as int, py as int) == olds.background_color(
                        px as int,
                        py as int,
                    ));
                }
                let ghost prev = *self;
                self.display.write_pixel(px, py, color);
                proof {
                    assert(self.screen(px as int, py as int) == olds.background_color(
                        px as int,
                        py as int,
                    ));
                    assert forall|qx: int, qy: int|
                        olds.in_screen(qx, qy) && !(qx == px as int && qy == py as int)
                        implies #[trigger] self.screen(qx, qy) == prev.screen(qx, qy) by {}
                }
                px = px + 1;
            }
            py = py + 1;
        }
    }

    /// Repaints the whole screen with the background, after flushing both
    /// pixel logs and the occupancy mask.
    pub fn clear(&mut self)
        requires
            old(self).inv(),
        ensures
            final(self).inv(),
            Renderer::same_config(*old(self), *final(self)),
            final(self).log_len(0) == 0,
            final(self).log_len(1) == 0,
            forall|x: int, y: int|
                final(self).in_screen(x, y) ==> !#[trigger] final(self).marked_at(x, y),
            forall|x: int, y: int|
                old(self).in_screen(x, y) ==> #[trigger] final(self).screen(x, y) == old(
                    self,
                ).background_color(x, y),
    {
        let ghost olds = *old(self);
        self.flush();
        let ghost mid = *self;
        proof {
            self.lemma_inv_facts();
        }
        let pw = self.display.get_width() as i64;
        let ph = self.display.get_height() as i64;
        self.repaint_rect(0, 0, pw, ph);
        proof {
            assert forall|x: int, y: int| olds.in_screen(x, y) implies #[trigger] self.screen(
                x,
                y,
            ) == olds.background_color(x, y) by {
                assert(mid.background_color(x, y) == olds.background_color(x, y));
            }
            assert forall|x: int, y: int| self.in_screen(x, y) implies !#[trigger] self.marked_at(
                x,
                y,
            ) by {
                assert(!mid.marked_at(x, y));
            }
            assert(self.log_seq(0) =~= mid.log_seq(0));
            assert(self.log_seq(1) =~= mid.log_seq(1));
            assert(self.inv()) by {
                assert(self.structure_ok());
                assert(self.entries_ok());
                assert(self.mask_ok()) by {
                    assert forall|x: int, y: int| self.in_screen(x, y) implies (
                    #[trigger] self.marked_at(x, y) <==> self.in_log(
                        self.mask_buffer(),
                        x,
                        y,
                    )) by {
                        assert(!mid.marked_at(x, y));
                        assert(self.log_len(self.mask_buffer()) == 0);
                    }
                }
                assert(self.immediate_ok());
            }
        }
    }

    /// Repaints the `w` by `h` rectangle at logical `(x, y)` with the
    /// background, clipped to the screen; the rectangle is rotated the same
    /// way `set_pixel` rotates its coordinates. Not available while
    /// composing in immediate mode: there the display already shows every
    /// logged pixel and `end_frame` relies on that to skip rewriting them,
    /// so a background repaint over a logged pixel would leave it showing
    /// the background after the frame despite its log entry. Between
    /// frames, or while composing deferred, the repaint is safe.
    pub fn clear_area(&mut self, x: i32, y: i32, w: i32, h: i32)
        requires
            old(self).inv(),
            old(self).is_direct() || !old(self).is_immediate(),
        ensures
            final(self).inv(),
            Renderer::same_config(*old(self), *final(self)),
            Renderer::same_logs(*old(self), *final(self)),
            Renderer::same_marks(*old(self), *final(self)),
            forall|px: int, py: int|
                old(self).in_screen(px, py) && old(self).area_x(x as int, y as int, w as int, h as int)
                    <= px < old(self).area_x(x as int, y as int, w as int, h as int) + old(
                    self,
                ).area_w(w as int, h as int) && old(self).area_y(x as int, y as int, w as int, h as int)
                    <= py < old(self).area_y(x as int, y as int, w as int, h as int) + old(
                    self,
                ).area_h(w as int, h as int) ==> #[trigger] final(self).screen(px, py) == old(
                    self,
                ).background_color(px, py),
            forall|px: int, py: int|
                old(self).in_screen(px, py) && !(old(self).area_x(x as int, y as int, w as int, h as int)
                    <= px < old(self).area_x(x as int, y as int, w as int, h as int) + old(
                    self,
                ).area_w(w as int, h as int) && old(self).area_y(x as int, y as int, w as int, h as int)
                    <= py < old(self).area_y(x as int, y as int, w as int, h as int) + old(
                    self,
                ).area_h(w as int, h as int)) ==> #[trigger] final(self).screen(px, py) == old(
                    self,
                ).screen(px, py),
    {
        proof {
            self.lemma_inv_facts();
        }
        let rx: i64;
        let ry: i64;
        let rw: i64;
        let rh: i64;
        if self.portrait {
            rx = self.display.get_width() as i64 - y as i64 - h as i64;
            ry = x as i64;
            rw = h as i64;
            rh = w as i64;
        } else {
            rx = x as i64;
            ry = y as i64;
            rw = w as i64;
            rh = h as i64;
        }
        self.repaint_rect(rx, ry, rw, rh);
        proof {
            assert(self.log_seq(0) =~= old(self).log_seq(0));
            assert(self.log_seq(1) =~= old(self).log_seq(1));
            assert(self.inv()) by {
                assert(self.structure_ok());
                assert(self.entries_ok()) by {
                    assert forall|b: int, j: int|
                        0 <= b < 2 && 0 <= j < self.log_len(b) implies self.in_screen(
                        (#[trigger] self.log_seq(b)[j]).x,
                        self.log_seq(b)[j].y,
                    ) by {
                        assert(old(self).in_screen(
                            old(self).log_seq(b)[j].x,
                            old(self).log_seq(b)[j].y,
                        ));
                    }
                }
                assert(self.mask_ok()) by {
                    assert forall|x2: int, y2: int| self.in_screen(x2, y2) implies (
                    #[trigger] self.marked_at(x2, y2) <==> self.in_log(
                        self.mask_buffer(),
                        x2,
                        y2,
                    )) by {
                        assert(old(self).marked_at(x2, y2) <==> old(self).in_log(
                            old(self).mask_buffer(),
                            x2,
                            y2,
                        ));
                    }
                }
                assert(self.immediate_ok());
            }
        }
    }

    // ------------------------------------------------------------------
    // Drawing primitives
    // ------------------------------------------------------------------

    /// An exact cover by the empty shape: nothing happened.
    pub proof fn lemma_covers_nothing(r: Renderer, shape: spec_fn(int, int) -> bool, color: Color)
        requires
            forall|px: int, py: int| !#[trigger] shape(px, py),
        ensures
            Renderer::covers(r, r, shape, color),
    {
    }

    /// Two shapes with the same pixels cover alike.
    pub proof fn lemma_covers_equiv(
        pre: Renderer,
        post: Renderer,
        s1: spec_fn(int, int) -> bool,
        s2: spec_fn(int, int) -> bool,
        color: Color,
    )
        requires
            Renderer::covers(pre, post, s1, color),
            forall|px: int, py: int| #[trigger] s1(px, py) == #[trigger] s2(px, py),
        ensures
            Renderer::covers(pre, post, s2, color),
    {
    }

    /// Extends an exact cover by one more logical pixel `(px, py)`, given
    /// the state change that one `set_pixel(px, py, color)` call makes.
    proof fn lemma_covers_extend(
        olds: Renderer,
        pre: Renderer,
        post: Renderer,
        s1: spec_fn(int, int) -> bool,
        s2: spec_fn(int, int) -> bool,
        px: int,
        py: int,
        color: Color,
    )
        requires
            Renderer::covers(olds, pre, s1, color),
            0 <= olds.cur_buffer() < 2,
            forall|a: int, b: int| #[trigger] s2(a, b) <==> (s1(a, b) || (a == px && b == py)),
            Renderer::same_config(pre, post),
            !pre.visible(px, py) ==> post == pre,
            pre.visible(px, py) && pre.is_direct() ==> ({
                let tx = pre.target_x(px, py);
                let ty = pre.target_y(px, py);
                &&& Renderer::same_logs(pre, post)
                &&& Renderer::same_marks(pre, post)
                &&& post.screen(tx, ty) == color
                &&& (forall|x2: int, y2: int|
                    pre.in_screen(x2, y2) && !(x2 == tx && y2 == ty)
                        ==> #[trigger] post.screen(x2, y2) == pre.screen(x2, y2))
            }),
            pre.visible(px, py) && !pre.is_direct() ==> ({
                let tx = pre.target_x(px, py);
                let ty = pre.target_y(px, py);
                let cb = pre.cur_buffer();
                &&& post.log_seq(cb) == pre.log_seq(cb).push(LogEntry { x: tx, y: ty, color })
                &&& post.log_seq(1 - cb) == pre.log_seq(1 - cb)
                &&& post.marked_at(tx, ty)
                &&& (forall|x2: int, y2: int|
                    pre.in_screen(x2, y2) && !(x2 == tx && y2 == ty)
                        ==> #[trigger] post.marked_at(x2, y2) == pre.marked_at(x2, y2))
                &&& (pre.is_immediate() ==> post.screen(tx, ty) == color)
                &&& (pre.is_immediate() ==> (forall|x2: int, y2: int|
                    pre.in_screen(x2, y2) && !(x2 == tx && y2 == ty)
                        ==> #[trigger] post.screen(x2, y2) == pre.screen(x2, y2)))
                &&& (!pre.is_immediate() ==> Renderer::same_screen(pre, post))
            }),
        ensures
            Renderer::covers(olds, post, s2, color),
    {
        let tx = pre.target_x(px, py);
        let ty = pre.target_y(px, py);
        let cb = olds.cur_buffer();
        if pre.visible(px, py) && !pre.is_direct() {
            lemma_log_push(pre.log_seq(cb), LogEntry { x: tx, y: ty, color });
        }
        assert forall|qx: int, qy: int| olds.in_screen(qx, qy) implies {
            let lx = olds.logical_x(qx, qy);
            let ly = olds.logical_y(qx, qy);
            &&& (olds.target_x(lx, ly) == qx && olds.target_y(lx, ly) == qy)
            &&& ((lx == px && ly == py) <==> (pre.visible(px, py) && qx == tx && qy == ty))
        } by {
            if olds.logical_x(qx, qy) == px && olds.logical_y(qx, qy) == py {
                assert(olds.target_x(px, py) == qx && olds.target_y(px, py) == qy);
            }
        }
        if olds.is_direct() {
            assert forall|qx: int, qy: int| olds.in_screen(qx, qy) implies #[trigger] post.screen(
                qx,
                qy,
            ) == (if s2(olds.logical_x(qx, qy), olds.logical_y(qx, qy)) {
                color
            } else {
                olds.screen(qx, qy)
            }) by {
                let lx = olds.logical_x(qx, qy);
                let ly = olds.logical_y(qx, qy);
                if pre.visible(px, py) && qx == tx && qy == ty {
                } else {
                    assert(post.screen(qx, qy) == pre.screen(qx, qy));
                    assert(s2(lx, ly) == s1(lx, ly));
                }
            }
        } else {
            assert forall|qx: int, qy: int| olds.in_screen(qx, qy) implies (
            #[trigger] post.in_log(cb, qx, qy) <==> (olds.in_log(cb, qx, qy) || s2(
                olds.logical_x(qx, qy),
                olds.logical_y(qx, qy),
            ))) by {
                let lx = olds.logical_x(qx, qy);
                let ly = olds.logical_y(qx, qy);
                if pre.visible(px, py) && qx == tx && qy == ty {
                    assert(post.in_log(cb, qx, qy));
                    assert(s2(lx, ly));
                } else {
                    assert(post.in_log(cb, qx, qy) == pre.in_log(cb, qx, qy));
                    assert(s2(lx, ly) == s1(lx, ly));
                }
            }
            assert forall|qx: int, qy: int|
                olds.in_screen(qx, qy) && s2(olds.logical_x(qx, qy), olds.logical_y(qx, qy))
                implies #[trigger] post.last_color(cb, qx, qy) == color by {
                if pre.visible(px, py) && qx == tx && qy == ty {
                } else {
                    assert(post.last_color(cb, qx, qy) == pre.last_color(cb, qx, qy));
                    assert(s1(olds.logical_x(qx, qy), olds.logical_y(qx, qy)));
                }
            }
            assert forall|qx: int, qy: int|
                olds.in_screen(qx, qy) && !s2(olds.logical_x(qx, qy), olds.logical_y(qx, qy))
                implies #[trigger] post.last_color(cb, qx, qy) == olds.last_color(cb, qx, qy) by {
                assert(!(pre.visible(px, py) && qx == tx && qy == ty));
                assert(post.last_color(cb, qx, qy) == pre.last_color(cb, qx, qy));
            }
            assert forall|qx: int, qy: int| olds.in_screen(qx, qy) implies (
            #[trigger] post.marked_at(qx, qy) <==> (olds.marked_at(qx, qy) || s2(
                olds.logical_x(qx, qy),
                olds.logical_y(qx, qy),
            ))) by {
                let lx = olds.logical_x(qx, qy);
                let ly = olds.logical_y(qx, qy);
                if pre.visible(px, py) && qx == tx && qy == ty {
                } else {
                    assert(post.marked_at(qx, qy) == pre.marked_at(qx, qy));
                    assert(s2(lx, ly) == s1(lx, ly));
                }
            }
            if olds.is_immediate() {
                assert forall|qx: int, qy: int|
                    olds.in_screen(qx, qy) implies #[trigger] post.screen(qx, qy) == (if s2(
                    olds.logical_x(qx, qy),
                    olds.logical_y(qx, qy),
                ) {
                    color
                } else {
                    olds.screen(qx, qy)
                }) by {
                    let lx = olds.logical_x(qx, qy);
                    let ly = olds.logical_y(qx, qy);
                    if pre.visible(px, py) && qx == tx && qy == ty {
                    } else {
                        assert(post.screen(qx, qy) == pre.screen(qx, qy));
                        assert(s2(lx, ly) == s1(lx, ly));
                    }
                }
            }
        }
    }

    /// Doing nothing stays within any bound.
    pub proof fn lemma_touches_refl(r: Renderer, shape: spec_fn(int, int) -> bool, color: Color)
        ensures
            Renderer::touches(r, r, shape, color),
    {
    }

    /// One `set_pixel` call on a pixel of `shape` keeps a bounded draw
    /// within `shape`.
    proof fn lemma_touches_extend(
        olds: Renderer,
        pre: Renderer,
        post: Renderer,
        shape: spec_fn(int, int) -> bool,
        px: int,
        py: int,
        color: Color,
    )
        requires
            Renderer::touches(olds, pre, shape, color),
            0 <= olds.cur_buffer() < 2,
            shape(px, py),
            Renderer::same_config(pre, post),
            !pre.visible(px, py) ==> post == pre,
            pre.visible(px, py) && pre.is_direct() ==> ({
                let tx = pre.target_x(px, py);
                let ty = pre.target_y(px, py);
                &&& Renderer::same_logs(pre, post)
                &&& Renderer::same_marks(pre, post)
                &&& post.screen(tx, ty) == color
                &&& (forall|x2: int, y2: int|
                    pre.in_screen(x2, y2) && !(x2 == tx && y2 == ty)
                        ==> #[trigger] post.screen(x2, y2) == pre.screen(x2, y2))
            }),
            pre.visible(px, py) && !pre.is_direct() ==> ({
                let tx = pre.target_x(px, py);
                let ty = pre.target_y(px, py);
                let cb = pre.cur_buffer();
                &&& post.log_seq(cb) == pre.log_seq(cb).push(LogEntry { x: tx, y: ty, color })
                &&& post.log_seq(1 - cb) == pre.log_seq(1 - cb)
                &&& post.marked_at(tx, ty)
                &&& (forall|x2: int, y2: int|
                    pre.in_screen(x2, y2) && !(x2 == tx && y2 == ty)
                        ==> #[trigger] post.marked_at(x2, y2) == pre.marked_at(x2, y2))
                &&& (pre.is_immediate() ==> post.screen(tx, ty) == color)
                &&& (pre.is_immediate() ==> (forall|x2: int, y2: int|
                    pre.in_screen(x2, y2) && !(x2 == tx && y2 == ty)
                        ==> #[trigger] post.screen(x2, y2) == pre.screen(x2, y2)))
                &&& (!pre.is_immediate() ==> Renderer::same_screen(pre, post))
            }),
        ensures
            Renderer::touches(olds, post, shape, color),
    {
        let tx = pre.target_x(px, py);
        let ty = pre.target_y(px, py);
        let cb = olds.cur_buffer();
        if pre.visible(px, py) && !pre.is_direct() {
            lemma_log_push(pre.log_seq(cb), LogEntry { x: tx, y: ty, color });
        }
        assert forall|qx: int, qy: int| olds.in_screen(qx, qy) implies {
            let lx = olds.logical_x(qx, qy);
            let ly = olds.logical_y(qx, qy);
            &&& (olds.target_x(lx, ly) == qx && olds.target_y(lx, ly) == qy)
            &&& ((lx == px && ly == py) <==> (pre.visible(px, py) && qx == tx && qy == ty))
        } by {
            if olds.logical_x(qx, qy) == px && olds.logical_y(qx, qy) == py {
                assert(olds.target_x(px, py) == qx && olds.target_y(px, py) == qy);
            }
        }
        if olds.is_direct() {
            assert forall|qx: int, qy: int| olds.in_screen(qx, qy) implies (
            #[trigger] post.screen(qx, qy) == olds.screen(qx, qy) || (shape(
                olds.logical_x(qx, qy),
                olds.logical_y(qx, qy),
            ) && post.screen(qx, qy) == color)) by {
                if pre.visible(px, py) && qx == tx && qy == ty {
                } else {
                    assert(post.screen(qx, qy) == pre.screen(qx, qy));
                }
            }
        } else {
            assert forall|qx: int, qy: int| olds.in_screen(qx, qy) implies ((
            #[trigger] post.in_log(cb, qx, qy) <==> olds.in_log(cb, qx, qy)) || (shape(
                olds.logical_x(qx, qy),
                olds.logical_y(qx, qy),
            ) && post.in_log(cb, qx, qy))) by {
                if pre.visible(px, py) && qx == tx && qy == ty {
                    assert(post.in_log(cb, qx, qy));
                } else {
                    assert(post.in_log(cb, qx, qy) == pre.in_log(cb, qx, qy));
                }
            }
            assert forall|qx: int, qy: int| olds.in_screen(qx, qy) implies (
            #[trigger] post.last_color(cb, qx, qy) == olds.last_color(cb, qx, qy) || (shape(
                olds.logical_x(qx, qy),
                olds.logical_y(qx, qy),
            ) && post.last_color(cb, qx, qy) == color)) by {
                if pre.visible(px, py) && qx == tx && qy == ty {
                    assert(post.last_color(cb, qx, qy) == color);
                } else {
                    assert(post.last_color(cb, qx, qy) == pre.last_color(cb, qx, qy));
                }
            }
            assert forall|qx: int, qy: int| olds.in_screen(qx, qy) implies (
            #[trigger] post.marked_at(qx, qy) == olds.marked_at(qx, qy) || (shape(
                olds.logical_x(qx, qy),
                olds.logical_y(qx, qy),
            ) && post.marked_at(qx, qy))) by {
                if pre.visible(px, py) && qx == tx && qy == ty {
                } else {
                    assert(post.marked_at(qx, qy) == pre.marked_at(qx, qy));
                }
            }
            if olds.is_immediate() {
                assert forall|qx: int, qy: int| olds.in_screen(qx, qy) implies (
                #[trigger] post.screen(qx, qy) == olds.screen(qx, qy) || (shape(
                    olds.logical_x(qx, qy),
                    olds.logical_y(qx, qy),
                ) && post.screen(qx, qy) == color)) by {
                    if pre.visible(px, py) && qx == tx && qy == ty {
                    } else {
                        assert(post.screen(qx, qy) == pre.screen(qx, qy));
                    }
                }
            }
        }
    }

    /// Fills the horizontal run of logical pixels `[x0, x1)` in row `ly`.
    fn fill_row(&mut self, x0: i32, x1: i32, ly: i32, color: Color)
        requires
            old(self).inv(),
            !old(self).is_direct() ==> old(self).log_len(old(self).cur_buffer()) + span(
                x0 as int,
                x1 as int,
            ) <= PIXEL_BUFFER_SIZE,
        ensures
            final(self).inv(),
            Renderer::covers(
                *old(self),
                *final(self),
                rect_shape(x0 as int, ly as int, x1 as int - x0 as int, 1),
                color,
            ),
            final(self).log_len(old(self).cur_buffer()) <= old(self).log_len(
                old(self).cur_buffer(),
            ) + span(x0 as int, x1 as int),
            final(self).log_len(old(self).cur_buffer()) >= old(self).log_len(
                old(self).cur_buffer(),
            ),
    {
        let ghost olds = *old(self);
        let mut px = x0;
        if x1 < x0 {
            proof {
                Renderer::lemma_covers_nothing(
                    *self,
                    rect_shape(x0 as int, ly as int, x1 as int - x0 as int, 1),
                    color,
                );
            }
            return ;
        }
        while px < x1
            invariant
                olds.inv(),
                x0 <= px <= x1,
                self.inv(),
                !olds.is_direct() ==> olds.log_len(olds.cur_buffer()) + span(x0 as int, x1 as int)
                    <= PIXEL_BUFFER_SIZE,
                Renderer::covers(
                    olds,
                    *self,
                    rect_shape(x0 as int, ly as int, px as int - x0 as int, 1),
                    color,
                ),
                self.log_len(olds.cur_buffer()) <= olds.log_len(olds.cur_buffer()) + (px as int
                    - x0 as int),
                self.log_len(olds.cur_buffer()) >= olds.log_len(olds.cur_buffer()),
            decreases x1 - px,
        {
            let ghost pre = *self;
            self.set_pixel(px, ly, color);
            proof {
                let s1 = rect_shape(x0 as int, ly as int, px as int - x0 as int, 1);
                let s2 = rect_shape(x0 as int, ly as int, px as int + 1 - x0 as int, 1);
                Renderer::lemma_covers_extend(olds, pre, *self, s1, s2, px as int, ly as int, color);
            }
            px = px + 1;
        }
    }

    /// Fills the vertical run of logical pixels `[y0, y1)` in column `lx`.
    fn fill_col(&mut self, lx: i32, y0: i32, y1: i32, color: Color)
        requires
            old(self).inv(),
            !old(self).is_direct() ==> old(self).log_len(old(self).cur_buffer()) + span(
                y0 as int,
                y1 as int,
            ) <= PIXEL_BUFFER_SIZE,
        ensures
            final(self).inv(),
            Renderer::covers(
                *old(self),
                *final(self),
                rect_shape(lx as int, y0 as int, 1, y1 as int - y0 as int),
                color,
            ),
            final(self).log_len(old(self).cur_buffer()) <= old(self).log_len(
                old(self).cur_buffer(),
            ) + span(y0 as int, y1 as int),
            final(self).log_len(old(self).cur_buffer()) >= old(self).log_len(
                old(self).cur_buffer(),
            ),
    {
        let ghost olds = *old(self);
        let mut py = y0;
        if y1 < y0 {
            proof {
                Renderer::lemma_covers_nothing(
                    *self,
                    rect_shape(lx as int, y0 as int, 1, y1 as int - y0 as int),
                    color,
                );
            }
            return ;
        }
        while py < y1
            invariant
                olds.inv(),
                y0 <= py <= y1,
                self.inv(),
                !olds.is_direct() ==> olds.log_len(olds.cur_buffer()) + span(y0 as int, y1 as int)
                    <= PIXEL_BUFFER_SIZE,
                Renderer::covers(
                    olds,
                    *self,
                    rect_shape(lx as int, y0 as int, 1, py as int - y0 as int),
                    color,
                ),
                self.log_len(olds.cur_buffer()) <= olds.log_len(olds.cur_buffer()) + (py as int
                    - y0 as int),
                self.log_len(olds.cur_buffer()) >= olds.log_len(olds.cur_buffer()),
            decreases y1 - py,
        {
            let ghost pre = *self;
            self.set_pixel(lx, py, color);
            proof {
                let s1 = rect_shape(lx as int, y0 as int, 1, py as int - y0 as int);
                let s2 = rect_shape(lx as int, y0 as int, 1, py as int + 1 - y0 as int);
                Renderer::lemma_covers_extend(olds, pre, *self, s1, s2, lx as int, py as int, color);
            }
            py = py + 1;
        }
    }

    /// Fills the solid `w` by `h` rectangle at logical `(x, y)`.
    pub fn draw_rect_solid(&mut self, x: i32, y: i32, w: i32, h: i32, color: Color)
        requires
            old(self).inv(),
            -0x3000_0000 <= x <= 0x3000_0000,
            -0x3000_0000 <= y <= 0x3000_0000,
            -0x3000_0000 <= w <= 0x3000_0000,
            -0x3000_0000 <= h <= 0x3000_0000,
            !old(self).is_direct() ==> old(self).log_len(old(self).cur_buffer()) + rect_area(
                w as int,
                h as int,
            ) <= PIXEL_BUFFER_SIZE,
        ensures
            final(self).inv(),
            Renderer::covers(
                *old(self),
                *final(self),
                rect_shape(x as int, y as int, w as int, h as int),
                color,
            ),
            final(self).log_len(old(self).cur_buffer()) <= old(self).log_len(
                old(self).cur_buffer(),
            ) + rect_area(w as int, h as int),
            final(self).log_len(old(self).cur_buffer()) >= old(self).log_len(
                old(self).cur_buffer(),
            ),
    {
        let ghost olds = *old(self);
        proof {
            Renderer::lemma_covers_nothing(*self, rect_shape(x as int, y as int, w as int, 0), color);
        }
        let mut py = y;
        while py < y + h
            invariant
                olds.inv(),
                self.inv(),
                y <= py,
                py <= y + h || py == y,
                -0x3000_0000 <= x <= 0x3000_0000,
                -0x3000_0000 <= y <= 0x3000_0000,
                -0x3000_0000 <= w <= 0x3000_0000,
                -0x3000_0000 <= h <= 0x3000_0000,
                !olds.is_direct() ==> olds.log_len(olds.cur_buffer()) + rect_area(
                    w as int,
                    h as int,
                ) <= PIXEL_BUFFER_SIZE,
                Renderer::covers(
                    olds,
                    *self,
                    rect_shape(x as int, y as int, w as int, py as int - y as int),
                    color,
                ),
                self.log_len(olds.cur_buffer()) <= olds.log_len(olds.cur_buffer()) + (py as int
                    - y as int) * span(x as int, x as int + w as int),
                self.log_len(olds.cur_buffer()) >= olds.log_len(olds.cur_buffer()),
            decreases y + h - py,
        {
            let ghost rows = rect_shape(x as int, y as int, w as int, py as int - y as int);
            let ghost pre = *self;
            proof {
                assert((py as int - y as int) * span(x as int, x as int + w as int) + span(
                    x as int,
                    x as int + w as int,
                ) <= rect_area(w as int, h as int)) by (nonlinear_arith)
                    requires
                        0 <= py as int - y as int <= h as int - 1,
                        span(x as int, x as int + w as int) == (if w > 0 {
                            w as int
                        } else {
                            0
                        }),
                        rect_area(w as int, h as int) == (if w > 0 && h > 0 {
                            w as int * h as int
                        } else {
                            0
                        }),
                ;
            }
            self.fill_row(x, x + w, py, color);
            proof {
                let row = rect_shape(x as int, py as int, x as int + w as int - x as int, 1);
                Renderer::lemma_covers_union(olds, pre, *self, rows, row, color);
                Renderer::lemma_covers_equiv(
                    olds,
                    *self,
                    union_shape(rows, row),
                    rect_shape(x as int, y as int, w as int, py as int + 1 - y as int),
                    color,
                );
                assert((py as int + 1 - y as int) * span(x as int, x as int + w as int) == (py
                    as int - y as int) * span(x as int, x as int + w as int) + span(
                    x as int,
                    x as int + w as int,
                )) by (nonlinear_arith);
            }
            py = py + 1;
        }
        proof {
            if h > 0 {
                assert(py == y + h);
            } else {
                Renderer::lemma_covers_equiv(
                    olds,
                    *self,
                    rect_shape(x as int, y as int, w as int, 0),
                    rect_shape(x as int, y as int, w as int, h as int),
                    color,
                );
            }
            assert(rect_area(w as int, h as int) >= (if h > 0 {
                h as int
            } else {
                0
            }) * span(x as int, x as int + w as int)) by (nonlinear_arith);
        }
    }

    /// Draws the one-pixel outline of the `w` by `h` rectangle at logical
    /// `(x, y)`: its top and bottom rows and its left and right columns.
    pub fn draw_rect(&mut self, x: i32, y: i32, w: i32, h: i32, color: Color)
        requires
            old(self).inv(),
            -0x3000_0000 <= x <= 0x3000_0000,
            -0x3000_0000 <= y <= 0x3000_0000,
            -0x3000_0000 <= w <= 0x3000_0000,
            -0x3000_0000 <= h <= 0x3000_0000,
            !old(self).is_direct() ==> old(self).log_len(old(self).cur_buffer()) + 2 * span(
                x as int,
                x as int + w as int,
            ) + 2 * span(y as int + 1, y as int + h as int - 1) <= PIXEL_BUFFER_SIZE,
        ensures
            final(self).inv(),
            Renderer::covers(
                *old(self),
                *final(self),
                rect_outline_shape(x as int, y as int, w as int, h as int),
                color,
            ),
            final(self).log_len(old(self).cur_buffer()) <= old(self).log_len(
                old(self).cur_buffer(),
            ) + 2 * span(x as int, x as int + w as int) + 2 * span(
                y as int + 1,
                y as int + h as int - 1,
            ),
            final(self).log_len(old(self).cur_buffer()) >= old(self).log_len(
                old(self).cur_buffer(),
            ),
    {
        let ghost olds = *old(self);
        let ghost s_top = rect_shape(x as int, y as int, w as int, 1);
        let ghost s_left = rect_shape(x as int, y as int + 1, 1, h as int - 2);
        let ghost s_right = rect_shape(x as int + w as int - 1, y as int + 1, 1, h as int - 2);
        let ghost s_bottom = rect_shape(x as int, y as int + h as int - 1, w as int, 1);
        let ghost pre1 = *self;
        self.fill_row(x, x + w, y, color);
        let ghost pre2 = *self;
        self.fill_col(x, y + 1, y + h - 1, color);
        let ghost pre3 = *self;
        self.fill_col(x + w - 1, y + 1, y + h - 1, color);
        let ghost pre4 = *self;
        self.fill_row(x, x + w, y + h - 1, color);
        proof {
            Renderer::lemma_covers_union(olds, pre2, pre3, s_top, s_left, color);
            Renderer::lemma_covers_union(olds, pre3, pre4, union_shape(s_top, s_left), s_right, color);
            Renderer::lemma_covers_union(
                olds,
                pre4,
                *self,
                union_shape(union_shape(s_top, s_left), s_right),
                s_bottom,
                color,
            );
            Renderer::lemma_covers_equiv(
                olds,
                *self,
                union_shape(union_shape(union_shape(s_top, s_left), s_right), s_bottom),
                rect_outline_shape(x as int, y as int, w as int, h as int),
                color,
            );
        }
    }

    /// Fills an oblique band: `width` columns starting at `(x, y)`, each
    /// shifted down by a linear share of `y_movement` and with its height
    /// interpolated from `height0` to `height1` — a sheared parallelogram
    /// approximated without leaving the pixel grid.
    pub fn draw_y_oblique(
        &mut self,
        x: i32,
        y: i32,
        width: i32,
        height0: i32,
        height1: i32,
        y_movement: i32,
        color: Color,
    )
        requires
            old(self).inv(),
            width != 1,
            -1000000 <= width <= 1000000,
            -1000000 <= height0 <= 1000000,
            -1000000 <= height1 <= 1000000,
            -1000000 <= y_movement <= 1000000,
            -0x3000_0000 <= x <= 0x3000_0000,
            -0x3000_0000 <= y <= 0x3000_0000,
            !old(self).is_direct() ==> old(self).log_len(old(self).cur_buffer()) + oblique_budget(
                width as int,
                height0 as int,
                height1 as int,
            ) <= PIXEL_BUFFER_SIZE,
        ensures
            final(self).inv(),
            Renderer::covers(
                *old(self),
                *final(self),
                oblique_shape(
                    x as int,
                    y as int,
                    width as int,
                    height0 as int,
                    height1 as int,
                    y_movement as int,
                ),
                color,
            ),
            final(self).log_len(old(self).cur_buffer()) <= old(self).log_len(
                old(self).cur_buffer(),
            ) + oblique_budget(width as int, height0 as int, height1 as int),
            final(self).log_len(old(self).cur_buffer()) >= old(self).log_len(
                old(self).cur_buffer(),
            ),
    {
        let ghost olds = *old(self);
        if width < 2 {
            // a band of no columns: nothing to draw
            proof {
                Renderer::lemma_covers_nothing(
                    *self,
                    oblique_shape(
                        x as int,
                        y as int,
                        width as int,
                        height0 as int,
                        height1 as int,
                        y_movement as int,
                    ),
                    color,
                );
            }
            return ;
        }
        proof {
            Renderer::lemma_covers_nothing(
                *self,
                oblique_shape_upto(
                    x as int,
                    y as int,
                    width as int,
                    height0 as int,
                    height1 as int,
                    y_movement as int,
                    0,
                ),
                color,
            );
        }
        let den: i64 = 2 * (width as i64) - 2;
        let mut i: i32 = 0;
        while i < width
            invariant
                olds.inv(),
                self.inv(),
                0 <= i <= width,
                2 <= width <= 1000000,
                -1000000 <= height0 <= 1000000,
                -1000000 <= height1 <= 1000000,
                -1000000 <= y_movement <= 1000000,
                -0x3000_0000 <= x <= 0x3000_0000,
                -0x3000_0000 <= y <= 0x3000_0000,
                den == 2 * (width as int) - 2,
                !olds.is_direct() ==> olds.log_len(olds.cur_buffer()) + oblique_budget(
                    width as int,
                    height0 as int,
                    height1 as int,
                ) <= PIXEL_BUFFER_SIZE,
                Renderer::covers(
                    olds,
                    *self,
                    oblique_shape_upto(
                        x as int,
                        y as int,
                        width as int,
                        height0 as int,
                        height1 as int,
                        y_movement as int,
                        i as int,
                    ),
                    color,
                ),
                self.log_len(olds.cur_buffer()) <= olds.log_len(olds.cur_buffer()) + i as int
                    * oblique_col_max(height0 as int, height1 as int),
                self.log_len(olds.cur_buffer()) >= olds.log_len(olds.cur_buffer()),
            decreases width - i,
        {
            proof {
                let aym = crate::color::abs_of(y_movement as int);
                let adh = crate::color::abs_of(height1 as int - height0 as int);
                assert(-((2 * aym) * den as int) <= y_movement as int * (2 * i as int + 1) <= (2
                    * aym) * den as int) by (nonlinear_arith)
                    requires
                        0 < 2 * i as int + 1 <= 2 * den as int,
                        0 <= aym,
                        -aym <= y_movement as int <= aym,
                ;
                crate::num::lemma_tdiv_bound(
                    y_movement as int * (2 * i as int + 1),
                    den as int,
                    2 * aym,
                );
                assert(-((2 * adh) * den as int) <= (height1 as int - height0 as int) * (2 * i
                    as int + 1) <= (2 * adh) * den as int) by (nonlinear_arith)
                    requires
                        0 < 2 * i as int + 1 <= 2 * den as int,
                        0 <= adh,
                        -adh <= height1 as int - height0 as int <= adh,
                ;
                crate::num::lemma_tdiv_bound(
                    (height1 as int - height0 as int) * (2 * i as int + 1),
                    den as int,
                    2 * adh,
                );
                assert(-6000000000000 <= (y_movement as int) * (2 * i as int + 1)
                    <= 6000000000000) by (nonlinear_arith)
                    requires
                        -1000000 <= y_movement as int <= 1000000,
                        0 < 2 * i as int + 1 <= 3000000,
                ;
                assert(-6000000000000 <= (height1 as int - height0 as int) * (2 * i as int + 1)
                    <= 6000000000000) by (nonlinear_arith)
                    requires
                        -2000000 <= height1 as int - height0 as int <= 2000000,
                        0 < 2 * i as int + 1 <= 3000000,
                ;
            }
            let step: i64 = 2 * (i as i64) + 1;
            let base = (y as i64) + crate::num::div_trunc((y_movement as i64) * step, den);
            let h = crate::num::div_trunc(((height1 as i64) - (height0 as i64)) * step, den) + (
            height0 as i64);
            let ghost pre = *self;
            proof {
                assert(span(base as int, base as int + h as int) <= oblique_col_max(
                    height0 as int,
                    height1 as int,
                ));
                assert((i as int + 1) * oblique_col_max(height0 as int, height1 as int) == i as int
                    * oblique_col_max(height0 as int, height1 as int) + oblique_col_max(
                    height0 as int,
                    height1 as int,
                )) by (nonlinear_arith);
                assert((i as int + 1) * oblique_col_max(height0 as int, height1 as int)
                    <= oblique_budget(width as int, height0 as int, height1 as int))
                    by (nonlinear_arith)
                    requires
                        i as int + 1 <= width as int,
                        oblique_col_max(height0 as int, height1 as int) >= 0,
                        oblique_budget(width as int, height0 as int, height1 as int) == width
                            as int * oblique_col_max(height0 as int, height1 as int),
                ;
            }
            self.fill_col((x as i64 + i as i64) as i32, base as i32, (base + h) as i32, color);
            proof {
                let s1 = oblique_shape_upto(
                    x as int,
                    y as int,
                    width as int,
                    height0 as int,
                    height1 as int,
                    y_movement as int,
                    i as int,
                );
                let s2 = oblique_shape_upto(
                    x as int,
                    y as int,
                    width as int,
                    height0 as int,
                    height1 as int,
                    y_movement as int,
                    i as int + 1,
                );
                let col = rect_shape(x as int + i as int, base as int, 1, h as int);
                Renderer::lemma_covers_union(olds, pre, *self, s1, col, color);
                Renderer::lemma_covers_equiv(olds, *self, union_shape(s1, col), s2, color);
            }
            i = i + 1;
        }
    }

    /// Fills the triangle with vertices `(x0, y0)`, `(x1, y1)`, `(x2, y2)`,
    /// ordered left to right, as two oblique bands that meet under the
    /// middle vertex.
    pub fn draw_triangle_solid_left_to_right(
        &mut self,
        x0: i32,
        y0: i32,
        x1: i32,
        y1: i32,
        x2: i32,
        y2: i32,
        color: Color,
    )
        requires
            old(self).inv(),
            x0 < x1 < x2,
            -100000 <= x0 <= 100000,
            -100000 <= x1 <= 100000,
            -100000 <= x2 <= 100000,
            -100000 <= y0 <= 100000,
            -100000 <= y1 <= 100000,
            -100000 <= y2 <= 100000,
            !old(self).is_direct() ==> old(self).log_len(old(self).cur_buffer())
                + triangle_budget(
                x0 as int,
                y0 as int,
                x1 as int,
                y1 as int,
                x2 as int,
                y2 as int,
            ) <= PIXEL_BUFFER_SIZE,
        ensures
            final(self).inv(),
            Renderer::covers(
                *old(self),
                *final(self),
                triangle_shape(x0 as int, y0 as int, x1 as int, y1 as int, x2 as int, y2 as int),
                color,
            ),
            final(self).log_len(old(self).cur_buffer()) <= old(self).log_len(
                old(self).cur_buffer(),
            ) + triangle_budget(
                x0 as int,
                y0 as int,
                x1 as int,
                y1 as int,
                x2 as int,
                y2 as int,
            ),
            final(self).log_len(old(self).cur_buffer()) >= old(self).log_len(
                old(self).cur_buffer(),
            ),
    {
        let ghost olds = *old(self);
        proof {
            let ady = crate::color::abs_of(y2 as int - y0 as int);
            assert(-((2 * ady) * (2 * (x2 as int - x0 as int))) <= (y2 as int - y0 as int) * (2 * (
            x1 as int - x0 as int) + 1) <= (2 * ady) * (2 * (x2 as int - x0 as int)))
                by (nonlinear_arith)
                requires
                    0 < 2 * (x1 as int - x0 as int) + 1 <= 2 * (2 * (x2 as int - x0 as int)),
                    0 <= ady,
                    -ady <= y2 as int - y0 as int <= ady,
            ;
            crate::num::lemma_tdiv_bound(
                (y2 as int - y0 as int) * (2 * (x1 as int - x0 as int) + 1),
                2 * (x2 as int - x0 as int),
                2 * ady,
            );
            assert(-200000000000 <= (y2 as int - y0 as int) * (2 * (x1 as int - x0 as int) + 1)
                <= 200000000000) by (nonlinear_arith)
                requires
                    -200000 <= y2 as int - y0 as int <= 200000,
                    0 < 2 * (x1 as int - x0 as int) + 1 <= 500000,
            ;
        }
        let num: i64 = (y2 as i64 - y0 as i64) * (2 * (x1 as i64 - x0 as i64) + 1);
        let den: i64 = 2 * (x2 as i64 - x0 as i64);
        let q32 = (y0 as i64 + crate::num::div_trunc(num, den)) as i32;
        let ghost pre = *self;
        if q32 < y1 {
            self.draw_y_oblique(x0, y0, x1 - x0 + 1, 2, y1 - q32 + 2, q32 - y0, color);
            let ghost mid = *self;
            self.draw_y_oblique(x1, q32, x2 - x1 + 1, y1 - q32 + 2, 2, y2 - q32, color);
            proof {
                let s1 = oblique_shape(
                    x0 as int,
                    y0 as int,
                    x1 as int - x0 as int + 1,
                    2,
                    y1 as int - q32 as int + 2,
                    q32 as int - y0 as int,
                );
                let s2 = oblique_shape(
                    x1 as int,
                    q32 as int,
                    x2 as int - x1 as int + 1,
                    y1 as int - q32 as int + 2,
                    2,
                    y2 as int - q32 as int,
                );
                Renderer::lemma_covers_union(olds, mid, *self, s1, s2, color);
                Renderer::lemma_covers_equiv(
                    olds,
                    *self,
                    union_shape(s1, s2),
                    triangle_shape(
                        x0 as int,
                        y0 as int,
                        x1 as int,
                        y1 as int,
                        x2 as int,
                        y2 as int,
                    ),
                    color,
                );
            }
        } else {
            self.draw_y_oblique(x0, y0, x1 - x0 + 1, 2, q32 - y1 + 2, y1 - y0, color);
            let ghost mid = *self;
            self.draw_y_oblique(x1, y1, x2 - x1 + 1, q32 - y1 + 2, 2, y2 - y1, color);
            proof {
                let s1 = oblique_shape(
                    x0 as int,
                    y0 as int,
                    x1 as int - x0 as int + 1,
                    2,
                    q32 as int - y1 as int + 2,
                    y1 as int - y0 as int,
                );
                let s2 = oblique_shape(
                    x1 as int,
                    y1 as int,
                    x2 as int - x1 as int + 1,
                    q32 as int - y1 as int + 2,
                    2,
                    y2 as int - y1 as int,
                );
                Renderer::lemma_covers_union(olds, mid, *self, s1, s2, color);
                Renderer::lemma_covers_equiv(
                    olds,
                    *self,
                    union_shape(s1, s2),
                    triangle_shape(
                        x0 as int,
                        y0 as int,
                        x1 as int,
                        y1 as int,
                        x2 as int,
                        y2 as int,
                    ),
                    color,
                );
            }
        }
    }

    /// Draws the line from `(x0, y0)` to `(x1, y1)`. A horizontal line runs
    /// right from `x0` to `x1` inclusive, a vertical one down from `y0` to
    /// `y1` inclusive (nothing is drawn when the end lies before the start);
    /// any other slope is rasterized with a ratio-based integer error
    /// accumulator, staying inside `line_box_shape`.
    #[verifier::rlimit(100)]
    pub fn draw_line(&mut self, x0: i32, y0: i32, x1: i32, y1: i32, color: Color)
        requires
            old(self).inv(),
            -100000 <= x0 <= 100000,
            -100000 <= y0 <= 100000,
            -100000 <= x1 <= 100000,
            -100000 <= y1 <= 100000,
            !old(self).is_direct() ==> old(self).log_len(old(self).cur_buffer()) + line_budget(
                x0 as int,
                y0 as int,
                x1 as int,
                y1 as int,
            ) <= PIXEL_BUFFER_SIZE,
        ensures
            final(self).inv(),
            y0 == y1 ==> Renderer::covers(
                *old(self),
                *final(self),
                rect_shape(x0 as int, y0 as int, x1 as int - x0 as int + 1, 1),
                color,
            ),
            y0 != y1 && x0 == x1 ==> Renderer::covers(
                *old(self),
                *final(self),
                rect_shape(x0 as int, y0 as int, 1, y1 as int - y0 as int + 1),
                color,
            ),
            y0 != y1 && x0 != x1 ==> Renderer::touches(
                *old(self),
                *final(self),
                line_box_shape(x0 as int, y0 as int, x1 as int, y1 as int),
                color,
            ),
            y0 != y1 && x0 != x1 && old(self).visible(x0 as int, y0 as int) && old(
                self,
            ).is_direct() ==> final(self).screen(
                old(self).target_x(x0 as int, y0 as int),
                old(self).target_y(x0 as int, y0 as int),
            ) == color,
            y0 != y1 && x0 != x1 ==> Renderer::painted(
                *old(self),
                *final(self),
                line_core_shape(x0 as int, y0 as int, x1 as int, y1 as int),
                color,
            ),
            y0 != y1 && x0 != x1 && old(self).visible(x0 as int, y0 as int) && !old(
                self,
            ).is_direct() ==> final(self).in_log(
                old(self).cur_buffer(),
                old(self).target_x(x0 as int, y0 as int),
                old(self).target_y(x0 as int, y0 as int),
            ) && final(self).last_color(
                old(self).cur_buffer(),
                old(self).target_x(x0 as int, y0 as int),
                old(self).target_y(x0 as int, y0 as int),
            ) == color,
            final(self).log_len(old(self).cur_buffer()) <= old(self).log_len(
                old(self).cur_buffer(),
            ) + line_budget(x0 as int, y0 as int, x1 as int, y1 as int),
            final(self).log_len(old(self).cur_buffer()) >= old(self).log_len(
                old(self).cur_buffer(),
            ),
    {
        let ghost olds = *old(self);
        if y0 == y1 {
            self.fill_row(x0, x1 + 1, y0, color);
            return ;
        }
        if x0 == x1 {
            self.fill_col(x0, y0, y1 + 1, color);
            return ;
        }
        let ghost shape = line_box_shape(x0 as int, y0 as int, x1 as int, y1 as int);
        let ghost core = line_core_shape(x0 as int, y0 as int, x1 as int, y1 as int);
        proof {
            Renderer::lemma_touches_refl(*self, shape, color);
            assert forall|a: int, b: int|
                !(#[trigger] line_core_upto(x0 as int, y0 as int, x1 as int, y1 as int, 0)(
                    a,
                    b,
                )) by {}
        }
        let dx: i64 = x1 as i64 - x0 as i64;
        let dy: i64 = y1 as i64 - y0 as i64;
        let adx: i64 = if dx < 0 {
            -dx
        } else {
            dx
        };
        let ady: i64 = if dy < 0 {
            -dy
        } else {
            dy
        };
        let mut error: i64 = 0;
        let mut yy: i64 = y0 as i64;
        let mut i: i64 = 0;
        let ghost mut dcount: int = 0;
        while i <= adx
            invariant
                olds.inv(),
                self.inv(),
                -100000 <= x0 <= 100000,
                -100000 <= y0 <= 100000,
                -100000 <= x1 <= 100000,
                -100000 <= y1 <= 100000,
                x0 != x1,
                y0 != y1,
                dx == x1 - x0,
                dy == y1 - y0,
                adx == crate::color::abs_of(dx as int),
                ady == crate::color::abs_of(dy as int),
                shape == line_box_shape(x0 as int, y0 as int, x1 as int, y1 as int),
                0 <= i <= adx + 1,
                0 <= dcount <= 2 * ady + 1,
                (dy > 0 ==> yy == y0 + dcount) && (dy < 0 ==> yy == y0 - dcount),
                -adx <= error < adx,
                2 * (adx as int) * dcount + error == 2 * (ady as int) * (i as int),
                Renderer::painted(
                    olds,
                    *self,
                    line_core_upto(x0 as int, y0 as int, x1 as int, y1 as int, i as int),
                    color,
                ),
                i >= 1 && olds.visible(x0 as int, y0 as int) && olds.is_direct() ==> self.screen(
                    olds.target_x(x0 as int, y0 as int),
                    olds.target_y(x0 as int, y0 as int),
                ) == color,
                i >= 1 && olds.visible(x0 as int, y0 as int) && !olds.is_direct()
                    ==> self.in_log(
                    olds.cur_buffer(),
                    olds.target_x(x0 as int, y0 as int),
                    olds.target_y(x0 as int, y0 as int),
                ) && self.last_color(
                    olds.cur_buffer(),
                    olds.target_x(x0 as int, y0 as int),
                    olds.target_y(x0 as int, y0 as int),
                ) == color,
                Renderer::touches(olds, *self, shape, color),
                self.log_len(olds.cur_buffer()) <= olds.log_len(olds.cur_buffer()) + i + dcount,
                self.log_len(olds.cur_buffer()) >= olds.log_len(olds.cur_buffer()),
                !olds.is_direct() ==> olds.log_len(olds.cur_buffer()) + line_budget(
                    x0 as int,
                    y0 as int,
                    x1 as int,
                    y1 as int,
                ) <= PIXEL_BUFFER_SIZE,
            decreases adx + 1 - i,
        {
            let px: i64 = if dx < 0 {
                x0 as i64 - i
            } else {
                x0 as i64 + i
            };
            let ghost pre = *self;
            self.set_pixel(px as i32, yy as i32, color);
            proof {
                assert(shape(px as int, yy as int));
                Renderer::lemma_touches_extend(
                    olds,
                    pre,
                    *self,
                    shape,
                    px as int,
                    yy as int,
                    color,
                );
                if !olds.is_direct() && pre.visible(px as int, yy as int) {
                    lemma_log_push(
                        pre.log_seq(olds.cur_buffer()),
                        LogEntry {
                            x: pre.target_x(px as int, yy as int),
                            y: pre.target_y(px as int, yy as int),
                            color,
                        },
                    );
                }
                if i == 0 {
                    assert(dcount == 0) by (nonlinear_arith)
                        requires
                            2 * (adx as int) * dcount + error == 0,
                            -adx <= error < adx,
                            dcount >= 0,
                            adx >= 1,
                    ;
                    assert(px == x0 && yy == y0);
                }
                vstd::arithmetic::div_mod::lemma_fundamental_div_mod_converse(
                    2 * (ady as int) * (i as int) + adx as int,
                    2 * (adx as int),
                    dcount,
                    error + adx,
                );
                let c_i = line_core_upto(x0 as int, y0 as int, x1 as int, y1 as int, i as int);
                let c_i1 = line_core_upto(
                    x0 as int,
                    y0 as int,
                    x1 as int,
                    y1 as int,
                    i as int + 1,
                );
                Renderer::lemma_painted_write(
                    olds,
                    pre,
                    *self,
                    c_i,
                    px as int,
                    yy as int,
                    color,
                );
                assert forall|a: int, b: int| #[trigger] c_i1(a, b) implies union_shape(
                    c_i,
                    rect_shape(px as int, yy as int, 1, 1),
                )(a, b) by {
                    if crate::color::abs_of(a - x0 as int) == i as int {
                        assert(a == px as int);
                        assert(b == yy as int);
                    }
                }
                Renderer::lemma_painted_subset(
                    olds,
                    *self,
                    c_i1,
                    union_shape(c_i, rect_shape(px as int, yy as int, 1, 1)),
                    color,
                );
            }
            proof {
                assert(2 * (adx as int) * dcount + (error + 2 * ady) == 2 * (ady as int) * (i
                    as int + 1)) by (nonlinear_arith)
                    requires
                        2 * (adx as int) * dcount + error == 2 * (ady as int) * (i as int),
                ;
            }
            error = error + 2 * ady;
            while error >= adx
                invariant
                    olds.inv(),
                    self.inv(),
                    -100000 <= x0 <= 100000,
                    -100000 <= y0 <= 100000,
                    -100000 <= x1 <= 100000,
                    -100000 <= y1 <= 100000,
                    x0 != x1,
                    y0 != y1,
                    dx == x1 - x0,
                    dy == y1 - y0,
                    adx == crate::color::abs_of(dx as int),
                    ady == crate::color::abs_of(dy as int),
                    shape == line_box_shape(x0 as int, y0 as int, x1 as int, y1 as int),
                    0 <= i <= adx,
                    px == (if dx < 0 {
                        x0 - i
                    } else {
                        x0 + i
                    }),
                    0 <= dcount,
                    (dy > 0 ==> yy == y0 + dcount) && (dy < 0 ==> yy == y0 - dcount),
                    -adx <= error,
                    error <= adx + 2 * ady,
                    2 * (adx as int) * dcount + error == 2 * (ady as int) * (i as int + 1),
                    Renderer::painted(
                        olds,
                        *self,
                        line_core_upto(x0 as int, y0 as int, x1 as int, y1 as int, i as int + 1),
                        color,
                    ),
                    olds.visible(x0 as int, y0 as int) && olds.is_direct() ==> self.screen(
                        olds.target_x(x0 as int, y0 as int),
                        olds.target_y(x0 as int, y0 as int),
                    ) == color,
                    olds.visible(x0 as int, y0 as int) && !olds.is_direct()
                        ==> self.in_log(
                        olds.cur_buffer(),
                        olds.target_x(x0 as int, y0 as int),
                        olds.target_y(x0 as int, y0 as int),
                    ) && self.last_color(
                        olds.cur_buffer(),
                        olds.target_x(x0 as int, y0 as int),
                        olds.target_y(x0 as int, y0 as int),
                    ) == color,
                    Renderer::touches(olds, *self, shape, color),
                    self.log_len(olds.cur_buffer()) <= olds.log_len(olds.cur_buffer()) + i + 1
                        + dcount,
                    self.log_len(olds.cur_buffer()) >= olds.log_len(olds.cur_buffer()),
                    !olds.is_direct() ==> olds.log_len(olds.cur_buffer()) + line_budget(
                        x0 as int,
                        y0 as int,
                        x1 as int,
                        y1 as int,
                    ) <= PIXEL_BUFFER_SIZE,
                decreases error + adx,
            {
                proof {
                    assert(dcount + 1 <= 2 * ady + 1) by (nonlinear_arith)
                        requires
                            2 * (adx as int) * dcount + error == 2 * (ady as int) * (i as int
                                + 1),
                            error >= adx,
                            1 <= adx,
                            1 <= ady,
                            0 <= i <= adx,
                            0 <= dcount,
                    ;
                }
                if dy > 0 {
                    yy = yy + 1;
                } else {
                    yy = yy - 1;
                }
                proof {
                    dcount = dcount + 1;
                }
                if error >= 3 * adx {
                    let ghost pre2 = *self;
                    self.set_pixel(px as i32, yy as i32, color);
                    proof {
                        assert(shape(px as int, yy as int));
                        Renderer::lemma_touches_extend(
                            olds,
                            pre2,
                            *self,
                            shape,
                            px as int,
                            yy as int,
                            color,
                        );
                        if !olds.is_direct() && pre2.visible(px as int, yy as int) {
                            lemma_log_push(
                                pre2.log_seq(olds.cur_buffer()),
                                LogEntry {
                                    x: pre2.target_x(px as int, yy as int),
                                    y: pre2.target_y(px as int, yy as int),
                                    color,
                                },
                            );
                        }
                        let c_i1 = line_core_upto(
                            x0 as int,
                            y0 as int,
                            x1 as int,
                            y1 as int,
                            i as int + 1,
                        );
                        Renderer::lemma_painted_write(
                            olds,
                            pre2,
                            *self,
                            c_i1,
                            px as int,
                            yy as int,
                            color,
                        );
                        Renderer::lemma_painted_subset(
                            olds,
                            *self,
                            c_i1,
                            union_shape(c_i1, rect_shape(px as int, yy as int, 1, 1)),
                            color,
                        );
                    }
                }
                proof {
                    assert(2 * (adx as int) * dcount + (error - 2 * adx) == 2 * (ady as int) * (i
                        as int + 1)) by (nonlinear_arith)
                        requires
                            2 * (adx as int) * (dcount - 1) + error == 2 * (ady as int) * (i
                                as int + 1),
                    ;
                }
                error = error - 2 * adx;
            }
            proof {
                assert(dcount <= 2 * ady + 1) by (nonlinear_arith)
                    requires
                        2 * (adx as int) * dcount + error == 2 * (ady as int) * (i as int + 1),
                        error >= -adx,
                        1 <= adx,
                        1 <= ady,
                        0 <= i <= adx,
                        0 <= dcount,
                ;
            }
            i = i + 1;
        }
        proof {
            Renderer::lemma_painted_subset(
                olds,
                *self,
                core,
                line_core_upto(x0 as int, y0 as int, x1 as int, y1 as int, adx as int + 1),
                color,
            );
        }
    }

    /// One drawn line, whatever its slope, keeps a bounded draw within a
    /// box that contains the line's own shape.
    proof fn lemma_line_step(
        olds: Renderer,
        pre: Renderer,
        post: Renderer,
        sp: spec_fn(int, int) -> bool,
        x0: int,
        y0: int,
        x1: int,
        y1: int,
        bx: int,
        by: int,
        bw: int,
        bh: int,
        color: Color,
    )
        requires
            Renderer::touches(olds, pre, rect_shape(bx, by, bw, bh), color),
            Renderer::painted(olds, pre, sp, color),
            0 <= olds.cur_buffer() < 2,
            y0 == y1 ==> Renderer::covers(pre, post, rect_shape(x0, y0, x1 - x0 + 1, 1), color),
            y0 != y1 && x0 == x1 ==> Renderer::covers(
                pre,
                post,
                rect_shape(x0, y0, 1, y1 - y0 + 1),
                color,
            ),
            y0 != y1 && x0 != x1 ==> Renderer::touches(
                pre,
                post,
                line_box_shape(x0, y0, x1, y1),
                color,
            ),
            bx <= x0 < bx + bw,
            bx <= x1 < bx + bw,
            by <= y0 - 2 * crate::color::abs_of(y1 - y0) - 1,
            y0 + 2 * crate::color::abs_of(y1 - y0) + 2 <= by + bh,
        ensures
            Renderer::touches(olds, post, rect_shape(bx, by, bw, bh), color),
            Renderer::painted(olds, post, sp, color),
    {
        let bbox = rect_shape(bx, by, bw, bh);
        if y0 == y1 {
            let s = rect_shape(x0, y0, x1 - x0 + 1, 1);
            Renderer::lemma_covers_touches(pre, post, s, color);
            assert forall|px: int, py: int| #[trigger] s(px, py) implies bbox(px, py) by {}
            Renderer::lemma_touches_trans(olds, pre, post, bbox, s, bbox, color);
            Renderer::lemma_painted_carry(olds, pre, post, sp, s, color);
        } else if x0 == x1 {
            let s = rect_shape(x0, y0, 1, y1 - y0 + 1);
            Renderer::lemma_covers_touches(pre, post, s, color);
            assert forall|px: int, py: int| #[trigger] s(px, py) implies bbox(px, py) by {}
            Renderer::lemma_touches_trans(olds, pre, post, bbox, s, bbox, color);
            Renderer::lemma_painted_carry(olds, pre, post, sp, s, color);
        } else {
            let s = line_box_shape(x0, y0, x1, y1);
            assert forall|px: int, py: int| #[trigger] s(px, py) implies bbox(px, py) by {}
            Renderer::lemma_touches_trans(olds, pre, post, bbox, s, bbox, color);
            Renderer::lemma_painted_carry(olds, pre, post, sp, s, color);
        }
    }

    /// Packages what one drawn line is sure to paint, whatever its slope,
    /// as a single shape.
    proof fn lemma_line_painted(
        pre: Renderer,
        post: Renderer,
        x0: int,
        y0: int,
        x1: int,
        y1: int,
        color: Color,
    )
        requires
            0 <= pre.cur_buffer() < 2,
            y0 == y1 ==> Renderer::covers(pre, post, rect_shape(x0, y0, x1 - x0 + 1, 1), color),
            y0 != y1 && x0 == x1 ==> Renderer::covers(
                pre,
                post,
                rect_shape(x0, y0, 1, y1 - y0 + 1),
                color,
            ),
            y0 != y1 && x0 != x1 ==> Renderer::painted(
                pre,
                post,
                line_core_shape(x0, y0, x1, y1),
                color,
            ),
        ensures
            Renderer::painted(pre, post, line_sure_shape(x0, y0, x1, y1), color),
    {
        if y0 == y1 {
            Renderer::lemma_covers_painted(pre, post, rect_shape(x0, y0, x1 - x0 + 1, 1), color);
        } else if x0 == x1 {
            Renderer::lemma_covers_painted(pre, post, rect_shape(x0, y0, 1, y1 - y0 + 1), color);
        }
    }

    /// Draws the isometric wireframe of a cuboid whose near-top-left corner
    /// projects to `(x, y)`: the outline of its top face and its two
    /// visible side faces.
    #[verifier::rlimit(100)]
    pub fn draw_block_3d(&mut self, x: i32, y: i32, width: i32, height: i32, depth: i32, color: Color)
        requires
            old(self).inv(),
            -50000 <= x <= 50000,
            -50000 <= y <= 50000,
            0 <= width <= 10000,
            0 <= height <= 10000,
            0 <= depth <= 10000,
            !old(self).is_direct() ==> old(self).log_len(old(self).cur_buffer()) + wire_budget(
                x as int,
                y as int,
                width as int,
                height as int,
                depth as int,
            ) <= PIXEL_BUFFER_SIZE,
        ensures
            final(self).inv(),
            Renderer::touches(
                *old(self),
                *final(self),
                wire_box_shape(x as int, y as int, width as int, height as int, depth as int),
                color,
            ),
            Renderer::painted(
                *old(self),
                *final(self),
                wire_trace_shape(x as int, y as int, width as int, height as int, depth as int),
                color,
            ),
            final(self).log_len(old(self).cur_buffer()) <= old(self).log_len(
                old(self).cur_buffer(),
            ) + wire_budget(x as int, y as int, width as int, height as int, depth as int),
            final(self).log_len(old(self).cur_buffer()) >= old(self).log_len(
                old(self).cur_buffer(),
            ),
    {
        let ghost olds = *old(self);
        let ghost bbox = wire_box_shape(
            x as int,
            y as int,
            width as int,
            height as int,
            depth as int,
        );
        let hw = width / 2;
        let hd = depth / 2;
        let ghost acc0 = (|px: int, py: int| false);
        proof {
            Renderer::lemma_touches_refl(*self, bbox, color);
        }
        let ghost g0 = *self;
        self.draw_line(x, y, x + width, y + hw, color);
        proof {
            Renderer::lemma_line_step(
                olds,
                g0,
                *self,
                acc0,
                x as int,
                y as int,
                x as int + width as int,
                y as int + hw as int,
                x as int - 1,
                y as int - depth as int - 2 * (width as int + height as int + depth as int) - 2,
                width as int + depth as int + 2,
                2 * height as int + 2 * width as int + 2 * depth as int + 8 * (width as int
                    + height as int + depth as int) + 8,
                color,
            );
            Renderer::lemma_line_painted(g0, *self, x as int, y as int, x as int + width as int, y as int + hw as int, color);
            Renderer::lemma_painted_retime(
                olds,
                g0,
                *self,
                line_sure_shape(x as int, y as int, x as int + width as int, y as int + hw as int),
                color,
            );
            Renderer::lemma_painted_union(
                olds,
                *self,
                acc0,
                line_sure_shape(x as int, y as int, x as int + width as int, y as int + hw as int),
                color,
            );
        }
        let ghost acc1 = union_shape(acc0, line_sure_shape(x as int, y as int, x as int + width as int, y as int + hw as int));
        let ghost g1 = *self;
        self.draw_line(x + width, y + hw, x + width + depth, y + hw - hd, color);
        proof {
            Renderer::lemma_line_step(
                olds,
                g1,
                *self,
                acc1,
                x as int + width as int,
                y as int + hw as int,
                x as int + width as int + depth as int,
                y as int + hw as int - hd as int,
                x as int - 1,
                y as int - depth as int - 2 * (width as int + height as int + depth as int) - 2,
                width as int + depth as int + 2,
                2 * height as int + 2 * width as int + 2 * depth as int + 8 * (width as int
                    + height as int + depth as int) + 8,
                color,
            );
            Renderer::lemma_line_painted(g1, *self, x as int + width as int, y as int + hw as int, x as int + width as int + depth as int, y as int + hw as int - hd as int, color);
            Renderer::lemma_painted_retime(
                olds,
                g1,
                *self,
                line_sure_shape(x as int + width as int, y as int + hw as int, x as int + width as int + depth as int, y as int + hw as int - hd as int),
                color,
            );
            Renderer::lemma_painted_union(
                olds,
                *self,
                acc1,
                line_sure_shape(x as int + width as int, y as int + hw as int, x as int + width as int + depth as int, y as int + hw as int - hd as int),
                color,
            );
        }
        let ghost acc2 = union_shape(acc1, line_sure_shape(x as int + width as int, y as int + hw as int, x as int + width as int + depth as int, y as int + hw as int - hd as int));
        let ghost g2 = *self;
        self.draw_line(x, y, x + depth, y - hd, color);
        proof {
            Renderer::lemma_line_step(
                olds,
                g2,
                *self,
                acc2,
                x as int,
                y as int,
                x as int + depth as int,
                y as int - hd as int,
                x as int - 1,
                y as int - depth as int - 2 * (width as int + height as int + depth as int) - 2,
                width as int + depth as int + 2,
                2 * height as int + 2 * width as int + 2 * depth as int + 8 * (width as int
                    + height as int + depth as int) + 8,
                color,
            );
            Renderer::lemma_line_painted(g2, *self, x as int, y as int, x as int + depth as int, y as int - hd as int, color);
            Renderer::lemma_painted_retime(
                olds,
                g2,
                *self,
                line_sure_shape(x as int, y as int, x as int + depth as int, y as int - hd as int),
                color,
            );
            Renderer::lemma_painted_union(
                olds,
                *self,
                acc2,
                line_sure_shape(x as int, y as int, x as int + depth as int, y as int - hd as int),
                color,
            );
        }
        let ghost acc3 = union_shape(acc2, line_sure_shape(x as int, y as int, x as int + depth as int, y as int - hd as int));
        let ghost g3 = *self;
        self.draw_line(x + depth, y - hd, x + width + depth, y + hw - hd, color);
        proof {
            Renderer::lemma_line_step(
                olds,
                g3,
                *self,
                acc3,
                x as int + depth as int,
                y as int - hd as int,
                x as int + width as int + depth as int,
                y as int + hw as int - hd as int,
                x as int - 1,
                y as int - depth as int - 2 * (width as int + height as int + depth as int) - 2,
                width as int + depth as int + 2,
                2 * height as int + 2 * width as int + 2 * depth as int + 8 * (width as int
                    + height as int + depth as int) + 8,
                color,
            );
            Renderer::lemma_line_painted(g3, *self, x as int + depth as int, y as int - hd as int, x as int + width as int + depth as int, y as int + hw as int - hd as int, color);
            Renderer::lemma_painted_retime(
                olds,
                g3,
                *self,
                line_sure_shape(x as int + depth as int, y as int - hd as int, x as int + width as int + depth as int, y as int + hw as int - hd as int),
                color,
            );
            Renderer::lemma_painted_union(
                olds,
                *self,
                acc3,
                line_sure_shape(x as int + depth as int, y as int - hd as int, x as int + width as int + depth as int, y as int + hw as int - hd as int),
                color,
            );
        }
        let ghost acc4 = union_shape(acc3, line_sure_shape(x as int + depth as int, y as int - hd as int, x as int + width as int + depth as int, y as int + hw as int - hd as int));
        let ghost g4 = *self;
        self.draw_line(x, y + height, x + width, y + hw + height, color);
        proof {
            Renderer::lemma_line_step(
                olds,
                g4,
                *self,
                acc4,
                x as int,
                y as int + height as int,
                x as int + width as int,
                y as int + hw as int + height as int,
                x as int - 1,
                y as int - depth as int - 2 * (width as int + height as int + depth as int) - 2,
                width as int + depth as int + 2,
                2 * height as int + 2 * width as int + 2 * depth as int + 8 * (width as int
                    + height as int + depth as int) + 8,
                color,
            );
            Renderer::lemma_line_painted(g4, *self, x as int, y as int + height as int, x as int + width as int, y as int + hw as int + height as int, color);
            Renderer::lemma_painted_retime(
                olds,
                g4,
                *self,
                line_sure_shape(x as int, y as int + height as int, x as int + width as int, y as int + hw as int + height as int),
                color,
            );
            Renderer::lemma_painted_union(
                olds,
                *self,
                acc4,
                line_sure_shape(x as int, y as int + height as int, x as int + width as int, y as int + hw as int + height as int),
                color,
            );
        }
        let ghost acc5 = union_shape(acc4, line_sure_shape(x as int, y as int + height as int, x as int + width as int, y as int + hw as int + height as int));
        let ghost g5 = *self;
        self.draw_line(x + width, y + hw + height, x + width + depth, y + hw - hd + height, color);
        proof {
            Renderer::lemma_line_step(
                olds,
                g5,
                *self,
                acc5,
                x as int + width as int,
                y as int + hw as int + height as int,
                x as int + width as int + depth as int,
                y as int + hw as int - hd as int + height as int,
                x as int - 1,
                y as int - depth as int - 2 * (width as int + height as int + depth as int) - 2,
                width as int + depth as int + 2,
                2 * height as int + 2 * width as int + 2 * depth as int + 8 * (width as int
                    + height as int + depth as int) + 8,
                color,
            );
            Renderer::lemma_line_painted(g5, *self, x as int + width as int, y as int + hw as int + height as int, x as int + width as int + depth as int, y as int + hw as int - hd as int + height as int, color);
            Renderer::lemma_painted_retime(
                olds,
                g5,
                *self,
                line_sure_shape(x as int + width as int, y as int + hw as int + height as int, x as int + width as int + depth as int, y as int + hw as int - hd as int + height as int),
                color,
            );
            Renderer::lemma_painted_union(
                olds,
                *self,
                acc5,
                line_sure_shape(x as int + width as int, y as int + hw as int + height as int, x as int + width as int + depth as int, y as int + hw as int - hd as int + height as int),
                color,
            );
        }
        let ghost acc6 = union_shape(acc5, line_sure_shape(x as int + width as int, y as int + hw as int + height as int, x as int + width as int + depth as int, y as int + hw as int - hd as int + height as int));
        let ghost g6 = *self;
        self.draw_line(x, y, x, y + height, color);
        proof {
            Renderer::lemma_line_step(
                olds,
                g6,
                *self,
                acc6,
                x as int,
                y as int,
                x as int,
                y as int + height as int,
                x as int - 1,
                y as int - depth as int - 2 * (width as int + height as int + depth as int) - 2,
                width as int + depth as int + 2,
                2 * height as int + 2 * width as int + 2 * depth as int + 8 * (width as int
                    + height as int + depth as int) + 8,
                color,
            );
            Renderer::lemma_line_painted(g6, *self, x as int, y as int, x as int, y as int + height as int, color);
            Renderer::lemma_painted_retime(
                olds,
                g6,
                *self,
                line_sure_shape(x as int, y as int, x as int, y as int + height as int),
                color,
            );
            Renderer::lemma_painted_union(
                olds,
                *self,
                acc6,
                line_sure_shape(x as int, y as int, x as int, y as int + height as int),
                color,
            );
        }
        let ghost acc7 = union_shape(acc6, line_sure_shape(x as int, y as int, x as int, y as int + height as int));
        let ghost g7 = *self;
        self.draw_line(x + width - 1, y + hw, x + width - 1, y + hw + height, color);
        proof {
            Renderer::lemma_line_step(
                olds,
                g7,
                *self,
                acc7,
                x as int + width as int - 1,
                y as int + hw as int,
                x as int + width as int - 1,
                y as int + hw as int + height as int,
                x as int - 1,
                y as int - depth as int - 2 * (width as int + height as int + depth as int) - 2,
                width as int + depth as int + 2,
                2 * height as int + 2 * width as int + 2 * depth as int + 8 * (width as int
                    + height as int + depth as int) + 8,
                color,
            );
            Renderer::lemma_line_painted(g7, *self, x as int + width as int - 1, y as int + hw as int, x as int + width as int - 1, y as int + hw as int + height as int, color);
            Renderer::lemma_painted_retime(
                olds,
                g7,
                *self,
                line_sure_shape(x as int + width as int - 1, y as int + hw as int, x as int + width as int - 1, y as int + hw as int + height as int),
                color,
            );
            Renderer::lemma_painted_union(
                olds,
                *self,
                acc7,
                line_sure_shape(x as int + width as int - 1, y as int + hw as int, x as int + width as int - 1, y as int + hw as int + height as int),
                color,
            );
        }
        let ghost acc8 = union_shape(acc7, line_sure_shape(x as int + width as int - 1, y as int + hw as int, x as int + width as int - 1, y as int + hw as int + height as int));
        let ghost g8 = *self;
        self.draw_line(x + width + depth, y + hw - hd, x + width + depth, y + hw - hd + height, color);
        proof {
            Renderer::lemma_line_step(
                olds,
                g8,
                *self,
                acc8,
                x as int + width as int + depth as int,
                y as int + hw as int - hd as int,
                x as int + width as int + depth as int,
                y as int + hw as int - hd as int + height as int,
                x as int - 1,
                y as int - depth as int - 2 * (width as int + height as int + depth as int) - 2,
                width as int + depth as int + 2,
                2 * height as int + 2 * width as int + 2 * depth as int + 8 * (width as int
                    + height as int + depth as int) + 8,
                color,
            );
            Renderer::lemma_line_painted(g8, *self, x as int + width as int + depth as int, y as int + hw as int - hd as int, x as int + width as int + depth as int, y as int + hw as int - hd as int + height as int, color);
            Renderer::lemma_painted_retime(
                olds,
                g8,
                *self,
                line_sure_shape(x as int + width as int + depth as int, y as int + hw as int - hd as int, x as int + width as int + depth as int, y as int + hw as int - hd as int + height as int),
                color,
            );
            Renderer::lemma_painted_union(
                olds,
                *self,
                acc8,
                line_sure_shape(x as int + width as int + depth as int, y as int + hw as int - hd as int, x as int + width as int + depth as int, y as int + hw as int - hd as int + height as int),
                color,
            );
        }
        let ghost acc9 = union_shape(acc8, line_sure_shape(x as int + width as int + depth as int, y as int + hw as int - hd as int, x as int + width as int + depth as int, y as int + hw as int - hd as int + height as int));
        proof {
            let trace = wire_trace_shape(
                x as int,
                y as int,
                width as int,
                height as int,
                depth as int,
            );
            assert(hw as int == crate::num::tdiv(width as int, 2));
            assert(hd as int == crate::num::tdiv(depth as int, 2));
            assert forall|px: int, py: int| #[trigger] trace(px, py) implies acc9(px, py) by {}
            Renderer::lemma_painted_subset(olds, *self, trace, acc9, color);
        }
    }

    /// An oblique band's budget is never negative.
    proof fn lemma_oblique_budget_nonneg(w: int, h0: int, h1: int)
        requires
            w >= 0,
        ensures
            oblique_budget(w, h0, h1) >= 0,
    {
        assert(w * oblique_col_max(h0, h1) >= 0) by (nonlinear_arith)
            requires
                w >= 0,
                oblique_col_max(h0, h1) >= 0,
        ;
    }

    /// A triangle's budget is never negative.
    proof fn lemma_triangle_budget_nonneg(x0: int, y0: int, x1: int, y1: int, x2: int, y2: int)
        requires
            x0 < x1 < x2,
        ensures
            triangle_budget(x0, y0, x1, y1, x2, y2) >= 0,
    {
        let q = triangle_mid_y(x0, y0, x1, x2, y2);
        if q < y1 {
            Renderer::lemma_oblique_budget_nonneg(x1 - x0 + 1, 2, y1 - q + 2);
            Renderer::lemma_oblique_budget_nonneg(x2 - x1 + 1, y1 - q + 2, 2);
        } else {
            Renderer::lemma_oblique_budget_nonneg(x1 - x0 + 1, 2, q - y1 + 2);
            Renderer::lemma_oblique_budget_nonneg(x2 - x1 + 1, q - y1 + 2, 2);
        }
    }

    /// Draws a solid-shaded cuboid: its top face as two triangles in
    /// `top_color`, then its left and right faces as oblique bands in
    /// `left_color` and `right_color`.
    #[verifier::rlimit(60)]
    pub fn draw_block_3d_solid(
        &mut self,
        x: i32,
        y: i32,
        width: i32,
        height: i32,
        depth: i32,
        left_color: Color,
        right_color: Color,
        top_color: Color,
    )
        requires
            old(self).inv(),
            -50000 <= x <= 50000,
            -50000 <= y <= 50000,
            1 <= width <= 10000,
            0 <= height <= 10000,
            1 <= depth <= 10000,
            !old(self).is_direct() ==> old(self).log_len(old(self).cur_buffer()) + solid_budget(
                x as int,
                y as int,
                width as int,
                height as int,
                depth as int,
            ) <= PIXEL_BUFFER_SIZE,
        ensures
            final(self).inv(),
            covers_paint(
                *old(self),
                *final(self),
                block_face_paint(
                    x as int,
                    y as int,
                    width as int,
                    height as int,
                    depth as int,
                    left_color,
                    right_color,
                    top_color,
                ),
            ),
            final(self).log_len(old(self).cur_buffer()) <= old(self).log_len(
                old(self).cur_buffer(),
            ) + solid_budget(x as int, y as int, width as int, height as int, depth as int),
            final(self).log_len(old(self).cur_buffer()) >= old(self).log_len(
                old(self).cur_buffer(),
            ),
    {
        let ghost olds = *old(self);
        let hw = width / 2;
        let hd = depth / 2;
        proof {
            Renderer::lemma_triangle_budget_nonneg(
                x as int,
                y as int,
                x as int + depth as int,
                y as int - hd as int,
                x as int + depth as int + width as int,
                y as int - hd as int + hw as int,
            );
            Renderer::lemma_triangle_budget_nonneg(
                x as int,
                y as int,
                x as int + width as int,
                y as int + hw as int,
                x as int + depth as int + width as int,
                y as int - hd as int + hw as int,
            );
            Renderer::lemma_oblique_budget_nonneg(
                width as int + 1,
                height as int,
                height as int,
            );
            Renderer::lemma_oblique_budget_nonneg(
                depth as int + 1,
                height as int,
                height as int,
            );
        }
        let ghost g0 = *self;
        self.draw_triangle_solid_left_to_right(
            x,
            y,
            x + depth,
            y - hd,
            x + depth + width,
            y - hd + hw,
            top_color,
        );
        let ghost g1 = *self;
        self.draw_triangle_solid_left_to_right(
            x,
            y,
            x + width,
            y + hw,
            x + depth + width,
            y - hd + hw,
            top_color,
        );
        let ghost g2 = *self;
        self.draw_y_oblique(x, y + 1, width + 1, height, height, hw, left_color);
        let ghost g3 = *self;
        self.draw_y_oblique(x + width + 1, y + hw, depth + 1, height, height, -hd, right_color);
        proof {
            let s_t1 = triangle_shape(
                x as int,
                y as int,
                x as int + depth as int,
                y as int - hd as int,
                x as int + depth as int + width as int,
                y as int - hd as int + hw as int,
            );
            let s_t2 = triangle_shape(
                x as int,
                y as int,
                x as int + width as int,
                y as int + hw as int,
                x as int + depth as int + width as int,
                y as int - hd as int + hw as int,
            );
            let s_l = oblique_shape(
                x as int,
                y as int + 1,
                width as int + 1,
                height as int,
                height as int,
                hw as int,
            );
            let s_r = oblique_shape(
                x as int + width as int + 1,
                y as int + hw as int,
                depth as int + 1,
                height as int,
                height as int,
                -(hd as int),
            );
            let paint = block_face_paint(
                x as int,
                y as int,
                width as int,
                height as int,
                depth as int,
                left_color,
                right_color,
                top_color,
            );
            let cb = olds.cur_buffer();
            assert forall|lx: int, ly: int| true implies #[trigger] paint(lx, ly) == (if s_r(
                lx,
                ly,
            ) {
                Some(right_color)
            } else if s_l(lx, ly) {
                Some(left_color)
            } else if s_t2(lx, ly) {
                Some(top_color)
            } else if s_t1(lx, ly) {
                Some(top_color)
            } else {
                Option::<Color>::None
            }) by {}
            if olds.is_direct() {
                assert forall|qx: int, qy: int|
                    olds.in_screen(qx, qy) implies #[trigger] self.screen(qx, qy) == (match paint(
                    olds.logical_x(qx, qy),
                    olds.logical_y(qx, qy),
                ) {
                    Some(c) => c,
                    Option::None => olds.screen(qx, qy),
                }) by {
                    let lx = olds.logical_x(qx, qy);
                    let ly = olds.logical_y(qx, qy);
                    assert(g1.screen(qx, qy) == (if s_t1(lx, ly) {
                        top_color
                    } else {
                        olds.screen(qx, qy)
                    }));
                    assert(g2.screen(qx, qy) == (if s_t2(lx, ly) {
                        top_color
                    } else {
                        g1.screen(qx, qy)
                    }));
                    assert(g3.screen(qx, qy) == (if s_l(lx, ly) {
                        left_color
                    } else {
                        g2.screen(qx, qy)
                    }));
                    assert(self.screen(qx, qy) == (if s_r(lx, ly) {
                        right_color
                    } else {
                        g3.screen(qx, qy)
                    }));
                }
            } else {
                assert forall|qx: int, qy: int| olds.in_screen(qx, qy) implies (
                #[trigger] self.in_log(cb, qx, qy) <==> (olds.in_log(cb, qx, qy) || paint(
                    olds.logical_x(qx, qy),
                    olds.logical_y(qx, qy),
                ).is_some())) by {
                    let lx = olds.logical_x(qx, qy);
                    let ly = olds.logical_y(qx, qy);
                    assert(g1.in_log(cb, qx, qy) <==> (olds.in_log(cb, qx, qy) || s_t1(lx, ly)));
                    assert(g2.in_log(cb, qx, qy) <==> (g1.in_log(cb, qx, qy) || s_t2(lx, ly)));
                    assert(g3.in_log(cb, qx, qy) <==> (g2.in_log(cb, qx, qy) || s_l(lx, ly)));
                    assert(self.in_log(cb, qx, qy) <==> (g3.in_log(cb, qx, qy) || s_r(lx, ly)));
                }
                assert forall|qx: int, qy: int|
                    olds.in_screen(qx, qy) && paint(
                        olds.logical_x(qx, qy),
                        olds.logical_y(qx, qy),
                    ).is_some() implies #[trigger] self.last_color(cb, qx, qy) == paint(
                    olds.logical_x(qx, qy),
                    olds.logical_y(qx, qy),
                ).unwrap() by {
                    let lx = olds.logical_x(qx, qy);
                    let ly = olds.logical_y(qx, qy);
                    if s_r(lx, ly) {
                    } else if s_l(lx, ly) {
                        assert(g3.last_color(cb, qx, qy) == left_color);
                        assert(self.last_color(cb, qx, qy) == g3.last_color(cb, qx, qy));
                    } else if s_t2(lx, ly) {
                        assert(g2.last_color(cb, qx, qy) == top_color);
                        assert(g3.last_color(cb, qx, qy) == g2.last_color(cb, qx, qy));
                        assert(self.last_color(cb, qx, qy) == g3.last_color(cb, qx, qy));
                    } else {
                        assert(s_t1(lx, ly));
                        assert(g1.last_color(cb, qx, qy) == top_color);
                        assert(g2.last_color(cb, qx, qy) == g1.last_color(cb, qx, qy));
                        assert(g3.last_color(cb, qx, qy) == g2.last_color(cb, qx, qy));
                        assert(self.last_color(cb, qx, qy) == g3.last_color(cb, qx, qy));
                    }
                }
                assert forall|qx: int, qy: int|
                    olds.in_screen(qx, qy) && paint(
                        olds.logical_x(qx, qy),
                        olds.logical_y(qx, qy),
                    ).is_none() implies #[trigger] self.last_color(cb, qx, qy) == olds.last_color(
                    cb,
                    qx,
                    qy,
                ) by {
                    let lx = olds.logical_x(qx, qy);
                    let ly = olds.logical_y(qx, qy);
                    assert(g1.last_color(cb, qx, qy) == olds.last_color(cb, qx, qy));
                    assert(g2.last_color(cb, qx, qy) == g1.last_color(cb, qx, qy));
                    assert(g3.last_color(cb, qx, qy) == g2.last_color(cb, qx, qy));
                    assert(self.last_color(cb, qx, qy) == g3.last_color(cb, qx, qy));
                }
                assert forall|qx: int, qy: int| olds.in_screen(qx, qy) implies (
                #[trigger] self.marked_at(qx, qy) <==> (olds.marked_at(qx, qy) || paint(
                    olds.logical_x(qx, qy),
                    olds.logical_y(qx, qy),
                ).is_some())) by {
                    let lx = olds.logical_x(qx, qy);
                    let ly = olds.logical_y(qx, qy);
                    assert(g1.marked_at(qx, qy) <==> (olds.marked_at(qx, qy) || s_t1(lx, ly)));
                    assert(g2.marked_at(qx, qy) <==> (g1.marked_at(qx, qy) || s_t2(lx, ly)));
                    assert(g3.marked_at(qx, qy) <==> (g2.marked_at(qx, qy) || s_l(lx, ly)));
                    assert(self.marked_at(qx, qy) <==> (g3.marked_at(qx, qy) || s_r(lx, ly)));
                }
                if olds.is_immediate() {
                    assert forall|qx: int, qy: int|
                        olds.in_screen(qx, qy) implies #[trigger] self.screen(qx, qy) == (
                    match paint(olds.logical_x(qx, qy), olds.logical_y(qx, qy)) {
                        Some(c) => c,
                        Option::None => olds.screen(qx, qy),
                    }) by {
                        let lx = olds.logical_x(qx, qy);
                        let ly = olds.logical_y(qx, qy);
                        assert(g1.screen(qx, qy) == (if s_t1(lx, ly) {
                            top_color
                        } else {
                            olds.screen(qx, qy)
                        }));
                        assert(g2.screen(qx, qy) == (if s_t2(lx, ly) {
                            top_color
                        } else {
                            g1.screen(qx, qy)
                        }));
                        assert(g3.screen(qx, qy) == (if s_l(lx, ly) {
                            left_color
                        } else {
                            g2.screen(qx, qy)
                        }));
                        assert(self.screen(qx, qy) == (if s_r(lx, ly) {
                            right_color
                        } else {
                            g3.screen(qx, qy)
                        }));
                    }
                }
            }
        }
    }

    /// Doing nothing is an exact cover by an empty paint function.
    proof fn lemma_covers_paint_nothing(r: Renderer, paint: spec_fn(int, int) -> Option<Color>)
        requires
            forall|a: int, b: int| (#[trigger] paint(a, b)).is_none(),
        ensures
            covers_paint(r, r, paint),
    {
    }

    /// Paint functions equal at every pixel cover alike.
    proof fn lemma_covers_paint_equiv(
        pre: Renderer,
        post: Renderer,
        p1: spec_fn(int, int) -> Option<Color>,
        p2: spec_fn(int, int) -> Option<Color>,
    )
        requires
            covers_paint(pre, post, p1),
            forall|a: int, b: int| #[trigger] p1(a, b) == #[trigger] p2(a, b),
        ensures
            covers_paint(pre, post, p2),
    {
    }

    /// Extends an exact paint cover by one more logical pixel, given the
    /// state change one `set_pixel(px, py, c)` call makes.
    proof fn lemma_covers_paint_extend(
        olds: Renderer,
        pre: Renderer,
        post: Renderer,
        p1: spec_fn(int, int) -> Option<Color>,
        p2: spec_fn(int, int) -> Option<Color>,
        px: int,
        py: int,
        c: Color,
    )
        requires
            covers_paint(olds, pre, p1),
            0 <= olds.cur_buffer() < 2,
            forall|a: int, b: int|
                !(a == px && b == py) ==> #[trigger] p2(a, b) == #[trigger] p1(a, b),
            p2(px, py) == Some(c),
            Renderer::same_config(pre, post),
            !pre.visible(px, py) ==> post == pre,
            pre.visible(px, py) && pre.is_direct() ==> ({
                let tx = pre.target_x(px, py);
                let ty = pre.target_y(px, py);
                &&& Renderer::same_logs(pre, post)
                &&& Renderer::same_marks(pre, post)
                &&& post.screen(tx, ty) == c
                &&& (forall|x2: int, y2: int|
                    pre.in_screen(x2, y2) && !(x2 == tx && y2 == ty)
                        ==> #[trigger] post.screen(x2, y2) == pre.screen(x2, y2))
            }),
            pre.visible(px, py) && !pre.is_direct() ==> ({
                let tx = pre.target_x(px, py);
                let ty = pre.target_y(px, py);
                let cb = pre.cur_buffer();
                &&& post.log_seq(cb) == pre.log_seq(cb).push(LogEntry { x: tx, y: ty, color: c })
                &&& post.log_seq(1 - cb) == pre.log_seq(1 - cb)
                &&& post.marked_at(tx, ty)
                &&& (forall|x2: int, y2: int|
                    pre.in_screen(x2, y2) && !(x2 == tx && y2 == ty)
                        ==> #[trigger] post.marked_at(x2, y2) == pre.marked_at(x2, y2))
                &&& (pre.is_immediate() ==> post.screen(tx, ty) == c)
                &&& (pre.is_immediate() ==> (forall|x2: int, y2: int|
                    pre.in_screen(x2, y2) && !(x2 == tx && y2 == ty)
                        ==> #[trigger] post.screen(x2, y2) == pre.screen(x2, y2)))
                &&& (!pre.is_immediate() ==> Renderer::same_screen(pre, post))
            }),
        ensures
            covers_paint(olds, post, p2),
    {
        let tx = pre.target_x(px, py);
        let ty = pre.target_y(px, py);
        let cb = olds.cur_buffer();
        if pre.visible(px, py) && !pre.is_direct() {
            lemma_log_push(pre.log_seq(cb), LogEntry { x: tx, y: ty, color: c });
        }
        assert forall|qx: int, qy: int| olds.in_screen(qx, qy) implies {
            let lx = olds.logical_x(qx, qy);
            let ly = olds.logical_y(qx, qy);
            &&& (olds.target_x(lx, ly) == qx && olds.target_y(lx, ly) == qy)
            &&& ((lx == px && ly == py) <==> (pre.visible(px, py) && qx == tx && qy == ty))
        } by {
            if olds.logical_x(qx, qy) == px && olds.logical_y(qx, qy) == py {
                assert(olds.target_x(px, py) == qx && olds.target_y(px, py) == qy);
            }
        }
        if olds.is_direct() {
            assert forall|qx: int, qy: int|
                olds.in_screen(qx, qy) implies #[trigger] post.screen(qx, qy) == (match p2(
                olds.logical_x(qx, qy),
                olds.logical_y(qx, qy),
            ) {
                Some(cc) => cc,
                Option::None => olds.screen(qx, qy),
            }) by {
                if pre.visible(px, py) && qx == tx && qy == ty {
                } else {
                    assert(post.screen(qx, qy) == pre.screen(qx, qy));
                    assert(p2(olds.logical_x(qx, qy), olds.logical_y(qx, qy)) == p1(
                        olds.logical_x(qx, qy),
                        olds.logical_y(qx, qy),
                    ));
                }
            }
        } else {
            assert forall|qx: int, qy: int| olds.in_screen(qx, qy) implies (
            #[trigger] post.in_log(cb, qx, qy) <==> (olds.in_log(cb, qx, qy) || p2(
                olds.logical_x(qx, qy),
                olds.logical_y(qx, qy),
            ).is_some())) by {
                if pre.visible(px, py) && qx == tx && qy == ty {
                    assert(post.in_log(cb, qx, qy));
                } else {
                    assert(post.in_log(cb, qx, qy) == pre.in_log(cb, qx, qy));
                    assert(p2(olds.logical_x(qx, qy), olds.logical_y(qx, qy)) == p1(
                        olds.logical_x(qx, qy),
                        olds.logical_y(qx, qy),
                    ));
                }
            }
            assert forall|qx: int, qy: int|
                olds.in_screen(qx, qy) && p2(
                    olds.logical_x(qx, qy),
                    olds.logical_y(qx, qy),
                ).is_some() implies #[trigger] post.last_color(cb, qx, qy) == p2(
                olds.logical_x(qx, qy),
                olds.logical_y(qx, qy),
            ).unwrap() by {
                if pre.visible(px, py) && qx == tx && qy == ty {
                    assert(post.last_color(cb, qx, qy) == c);
                } else {
                    assert(post.last_color(cb, qx, qy) == pre.last_color(cb, qx, qy));
                    assert(p2(olds.logical_x(qx, qy), olds.logical_y(qx, qy)) == p1(
                        olds.logical_x(qx, qy),
                        olds.logical_y(qx, qy),
                    ));
                }
            }
            assert forall|qx: int, qy: int|
                olds.in_screen(qx, qy) && p2(
                    olds.logical_x(qx, qy),
                    olds.logical_y(qx, qy),
                ).is_none() implies #[trigger] post.last_color(cb, qx, qy) == olds.last_color(
                cb,
                qx,
                qy,
            ) by {
                assert(!(pre.visible(px, py) && qx == tx && qy == ty));
                assert(post.last_color(cb, qx, qy) == pre.last_color(cb, qx, qy));
                assert(p2(olds.logical_x(qx, qy), olds.logical_y(qx, qy)) == p1(
                    olds.logical_x(qx, qy),
                    olds.logical_y(qx, qy),
                ));
            }
            assert forall|qx: int, qy: int| olds.in_screen(qx, qy) implies (
            #[trigger] post.marked_at(qx, qy) <==> (olds.marked_at(qx, qy) || p2(
                olds.logical_x(qx, qy),
                olds.logical_y(qx, qy),
            ).is_some())) by {
                if pre.visible(px, py) && qx == tx && qy == ty {
                } else {
                    assert(post.marked_at(qx, qy) == pre.marked_at(qx, qy));
                    assert(p2(olds.logical_x(qx, qy), olds.logical_y(qx, qy)) == p1(
                        olds.logical_x(qx, qy),
                        olds.logical_y(qx, qy),
                    ));
                }
            }
            if olds.is_immediate() {
                assert forall|qx: int, qy: int|
                    olds.in_screen(qx, qy) implies #[trigger] post.screen(qx, qy) == (match p2(
                    olds.logical_x(qx, qy),
                    olds.logical_y(qx, qy),
                ) {
                    Some(cc) => cc,
                    Option::None => olds.screen(qx, qy),
                }) by {
                    if pre.visible(px, py) && qx == tx && qy == ty {
                    } else {
                        assert(post.screen(qx, qy) == pre.screen(qx, qy));
                        assert(p2(olds.logical_x(qx, qy), olds.logical_y(qx, qy)) == p1(
                            olds.logical_x(qx, qy),
                            olds.logical_y(qx, qy),
                        ));
                    }
                }
            }
        }
    }

    /// Renders pre-rasterized text: each coverage sample, offset by the
    /// anchor `(x, y)`, is drawn as `color` carrying the sample's alpha.
    pub fn draw_text(&mut self, samples: &Vec<TextSample>, x: i32, y: i32, color: Color)
        requires
            old(self).inv(),
            -100000 <= x <= 100000,
            -100000 <= y <= 100000,
            forall|i: int|
                0 <= i < samples.len() ==> -100000 <= (#[trigger] samples[i]).x <= 100000
                    && -100000 <= samples[i].y <= 100000,
            !old(self).is_direct() ==> old(self).log_len(old(self).cur_buffer()) + samples.len()
                <= PIXEL_BUFFER_SIZE,
        ensures
            final(self).inv(),
            covers_paint(
                *old(self),
                *final(self),
                (|lx: int, ly: int| text_paint_at(samples@, x as int, y as int, color, lx, ly)),
            ),
            final(self).log_len(old(self).cur_buffer()) <= old(self).log_len(
                old(self).cur_buffer(),
            ) + samples.len(),
            final(self).log_len(old(self).cur_buffer()) >= old(self).log_len(
                old(self).cur_buffer(),
            ),
    {
        let ghost olds = *old(self);
        proof {
            Renderer::lemma_covers_paint_nothing(
                *self,
                (|lx: int, ly: int| text_paint_at(
                    samples@.take(0),
                    x as int,
                    y as int,
                    color,
                    lx,
                    ly,
                )),
            );
        }
        let mut i: usize = 0;
        while i < samples.len()
            invariant
                olds.inv(),
                self.inv(),
                0 <= i <= samples.len(),
                -100000 <= x <= 100000,
                -100000 <= y <= 100000,
                forall|j: int|
                    0 <= j < samples.len() ==> -100000 <= (#[trigger] samples[j]).x <= 100000
                        && -100000 <= samples[j].y <= 100000,
                !olds.is_direct() ==> olds.log_len(olds.cur_buffer()) + samples.len()
                    <= PIXEL_BUFFER_SIZE,
                covers_paint(
                    olds,
                    *self,
                    (|lx: int, ly: int| text_paint_at(
                        samples@.take(i as int),
                        x as int,
                        y as int,
                        color,
                        lx,
                        ly,
                    )),
                ),
                self.log_len(olds.cur_buffer()) <= olds.log_len(olds.cur_buffer()) + i as int,
                self.log_len(olds.cur_buffer()) >= olds.log_len(olds.cur_buffer()),
            decreases samples.len() - i,
        {
            let s = samples[i];
            let tinted = Color { red: color.red, green: color.green, blue: color.blue, alpha: s.alpha };
            let ghost pre = *self;
            self.set_pixel(s.x + x, s.y + y, tinted);
            proof {
                let p1 = (|lx: int, ly: int| text_paint_at(
                    samples@.take(i as int),
                    x as int,
                    y as int,
                    color,
                    lx,
                    ly,
                ));
                let p2 = (|lx: int, ly: int| text_paint_at(
                    samples@.take(i as int + 1),
                    x as int,
                    y as int,
                    color,
                    lx,
                    ly,
                ));
                assert(samples@.take(i as int + 1).drop_last() =~= samples@.take(i as int));
                assert(samples@.take(i as int + 1).last() == samples@[i as int]);
                assert forall|a: int, b: int|
                    !(a == s.x as int + x as int && b == s.y as int + y as int)
                    implies #[trigger] p2(a, b) == #[trigger] p1(a, b) by {}
                assert(p2(s.x as int + x as int, s.y as int + y as int) == Some(tinted));
                Renderer::lemma_covers_paint_extend(
                    olds,
                    pre,
                    *self,
                    p1,
                    p2,
                    s.x as int + x as int,
                    s.y as int + y as int,
                    tinted,
                );
            }
            i = i + 1;
        }
        proof {
            assert(samples@.take(samples.len() as int) =~= samples@);
            Renderer::lemma_covers_paint_equiv(
                olds,
                *self,
                (|lx: int, ly: int| text_paint_at(
                    samples@.take(samples.len() as int),
                    x as int,
                    y as int,
                    color,
                    lx,
                    ly,
                )),
                (|lx: int, ly: int| text_paint_at(samples@, x as int, y as int, color, lx, ly)),
            );
        }
    }

    /// The background recompute is idempotent: two renderer states that
    /// agree on the background function, orientation and resolution — as
    /// any two moments within one frame do, since drawing changes none of
    /// them — yield the same background color at every coordinate. This is
    /// what lets `end_frame` erase by recomputing instead of keeping a
    /// second framebuffer.
    pub proof fn lemma_background_deterministic(r1: Renderer, r2: Renderer, x: int, y: int)
        requires
            r1.bg_of() == r2.bg_of(),
            r1.is_portrait() == r2.is_portrait(),
            r1.phys_w() == r2.phys_w(),
            r1.phys_h() == r2.phys_h(),
        ensures
            r1.background_color(x, y) == r2.background_color(x, y),
    {
    }

    /// Reads the color the display shows at physical `(x, y)`, for tests and
    /// for adapters that copy the surface out to a device.
    pub fn pixel_at(&self, x: i32, y: i32) -> (c: Color)
        requires
            self.inv(),
            self.in_screen(x as int, y as int),
        ensures
            c == self.screen(x as int, y as int),
    {
        self.display.pixel(x as usize, y as usize)
    }
}

// ----------------------------------------------------------------------
// Index arithmetic and bit lemmas for the occupancy mask
// ----------------------------------------------------------------------

/// The flat index of an in-bounds pixel lies in `[0, w * h)`.
proof fn lemma_flat_index_range(x: int, y: int, w: int, h: int)
    requires
        0 <= x < w,
        0 <= y < h,
    ensures
        0 <= x + y * w < w * h,
{
    assert(0 <= x + y * w < w * h) by (nonlinear_arith)
        requires
            0 <= x < w,
            0 <= y < h,
    ;
}

/// A flat index below `len * 32` has its word index below `len`.
proof fn lemma_word_index_range(index: int, len: int)
    requires
        0 <= index,
        index < len * 32,
    ensures
        0 <= index / 32 < len,
        0 <= index % 32 < 32,
{
    assert(index / 32 < len) by (nonlinear_arith)
        requires
            0 <= index,
            index < len * 32,
    ;
}

/// Distinct in-screen pixels have distinct flat indices.
proof fn lemma_index_injective(x1: int, y1: int, x2: int, y2: int, w: int)
    requires
        0 <= x1 < w,
        0 <= x2 < w,
        0 <= y1,
        0 <= y2,
        !(x1 == x2 && y1 == y2),
    ensures
        x1 + y1 * w != x2 + y2 * w,
{
    if y1 == y2 {
    } else {
        assert(x1 + y1 * w != x2 + y2 * w) by (nonlinear_arith)
            requires
                0 <= x1 < w,
                0 <= x2 < w,
                y1 != y2,
        ;
    }
}

/// Setting a bit makes it 1, clearing it makes it 0.
proof fn lemma_bit_update(w: u32, j: u32)
    requires
        j < 32,
    ensures
        crate::color::bit_of(w | (1u32 << j), j) == 1,
        crate::color::bit_of(w & !(1u32 << j), j) == 0,
{
    assert(j < 32 ==> (((w | (1u32 << j)) >> j) & 1) == 1) by (bit_vector);
    assert(j < 32 ==> (((w & !(1u32 << j)) >> j) & 1) == 0) by (bit_vector);
}

/// Setting or clearing one bit leaves every other bit as it was.
proof fn lemma_bit_other(w: u32, j: u32, k: u32)
    requires
        j < 32,
        k < 32,
        j != k,
    ensures
        crate::color::bit_of(w | (1u32 << j), k) == crate::color::bit_of(w, k),
        crate::color::bit_of(w & !(1u32 << j), k) == crate::color::bit_of(w, k),
{
    assert(j < 32 && k < 32 && j != k ==> (((w | (1u32 << j)) >> k) & 1) == ((w >> k) & 1))
        by (bit_vector);
    assert(j < 32 && k < 32 && j != k ==> (((w & !(1u32 << j)) >> k) & 1) == ((w >> k) & 1))
        by (bit_vector);
}

/// Testing a bit with a mask agrees with reading it by shifting.
proof fn lemma_bit_test(w: u32, j: u32)
    requires
        j < 32,
    ensures
        ((w & (1u32 << j)) != 0) <==> crate::color::bit_of(w, j) == 1,
{
    assert(j < 32 ==> (((w & (1u32 << j)) != 0) <==> (((w >> j) & 1) == 1))) by (bit_vector);
}

/// Every bit of the zero word is clear.
proof fn lemma_zero_word_bit(pos: u32)
    requires
        pos < 32,
    ensures
        crate::color::bit_of(0u32, pos) == 0,
{
    assert(pos < 32 ==> ((0u32 >> pos) & 1) == 0) by (bit_vector);
}

} // verus!

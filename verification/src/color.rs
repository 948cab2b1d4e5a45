//! Color utilities: HSV-to-RGB conversion, linear color weighting, and a
//! bit-swap correction that compensates a display's channel-order quirk.
//! All arithmetic is integer; saturation, value and weights are given in
//! permille (0..=1000).

use vstd::prelude::*;

verus! {

/// An RGBA color with 8-bit channels.
#[derive(Clone, Copy, PartialEq, Eq, Structural, Debug)]
pub struct Color {
    pub red: u8,
    pub green: u8,
    pub blue: u8,
    pub alpha: u8,
}

/// The color encoded by the low 24 bits of `value` (`0xRRGGBB`), fully opaque.
pub open spec fn color_of_hex(value: u32) -> Color {
    Color {
        red: ((value >> 16) & 0xff) as u8,
        green: ((value >> 8) & 0xff) as u8,
        blue: (value & 0xff) as u8,
        alpha: 255u8,
    }
}

/// The `0xRRGGBB` encoding of `c` (the alpha channel is not represented).
pub open spec fn hex_of_color(c: Color) -> u32 {
    ((c.red as u32) << 16) | ((c.green as u32) << 8) | (c.blue as u32)
}

impl Color {
    pub fn rgb(red: u8, green: u8, blue: u8) -> (c: Color)
        ensures
            c == (Color { red, green, blue, alpha: 255u8 }),
    {
        Color { red, green, blue, alpha: 255 }
    }

    pub fn rgba(red: u8, green: u8, blue: u8, alpha: u8) -> (c: Color)
        ensures
            c == (Color { red, green, blue, alpha }),
    {
        Color { red, green, blue, alpha }
    }

    pub fn from_hex(value: u32) -> (c: Color)
        ensures
            c == color_of_hex(value),
    {
        Color {
            red: ((value >> 16) & 0xff) as u8,
            green: ((value >> 8) & 0xff) as u8,
            blue: (value & 0xff) as u8,
            alpha: 255,
        }
    }

    pub fn to_rgb(&self) -> (v: u32)
        ensures
            v == hex_of_color(*self),
    {
        ((self.red as u32) << 16) | ((self.green as u32) << 8) | (self.blue as u32)
    }
}

/// The bit of `value` at position `pos` (0 or 1).
pub open spec fn bit_of(value: u32, pos: u32) -> u32 {
    (value >> pos) & 1
}

/// `value` with the bits at `pos0` and `pos1` exchanged.
pub open spec fn swapped_bits(value: u32, pos0: u32, pos1: u32) -> u32 {
    (value & !(1u32 << pos0) & !(1u32 << pos1)) | (bit_of(value, pos1) << pos0) | (bit_of(
        value,
        pos0,
    ) << pos1)
}

/// Exchanges the bits of `value` at positions `pos0` and `pos1`; every other
/// bit keeps its value.
pub fn swap_bits(value: u32, pos0: u8, pos1: u8) -> (r: u32)
    requires
        pos0 < 32,
        pos1 < 32,
    ensures
        r == swapped_bits(value, pos0 as u32, pos1 as u32),
        bit_of(r, pos0 as u32) == bit_of(value, pos1 as u32),
        bit_of(r, pos1 as u32) == bit_of(value, pos0 as u32),
        forall|i: u32|
            i < 32 && i != pos0 as u32 && i != pos1 as u32 ==> bit_of(r, i) == bit_of(value, i),
{
    let p0 = pos0 as u32;
    let p1 = pos1 as u32;
    let a = (value >> p0) & 1;
    let b = (value >> p1) & 1;
    let r = ((value & !(1u32 << p0) & !(1u32 << p1)) | (b << p0)) | (a << p1);
    proof {
        lemma_swapped_bits(value, p0, p1);
    }
    r
}

proof fn lemma_swapped_bits(value: u32, p0: u32, p1: u32)
    requires
        p0 < 32,
        p1 < 32,
    ensures
        bit_of(swapped_bits(value, p0, p1), p0) == bit_of(value, p1),
        bit_of(swapped_bits(value, p0, p1), p1) == bit_of(value, p0),
        forall|i: u32|
            i < 32 && i != p0 && i != p1 ==> bit_of(swapped_bits(value, p0, p1), i) == bit_of(
                value,
                i,
            ),
{
    assert(p0 < 32 && p1 < 32 ==> ((value & !(1u32 << p0) & !(1u32 << p1) | (((value >> p1) & 1)
        << p0) | (((value >> p0) & 1) << p1)) >> p0) & 1 == (value >> p1) & 1) by (bit_vector);
    assert(p0 < 32 && p1 < 32 ==> ((value & !(1u32 << p0) & !(1u32 << p1) | (((value >> p1) & 1)
        << p0) | (((value >> p0) & 1) << p1)) >> p1) & 1 == (value >> p0) & 1) by (bit_vector);
    assert forall|i: u32| i < 32 && i != p0 && i != p1 implies bit_of(
        swapped_bits(value, p0, p1),
        i,
    ) == bit_of(value, i) by {
        assert(p0 < 32 && p1 < 32 && i < 32 && i != p0 && i != p1 ==> ((value & !(1u32 << p0) & !(
        1u32 << p1) | (((value >> p1) & 1) << p0) | (((value >> p0) & 1) << p1)) >> i) & 1 == (value
            >> i) & 1) by (bit_vector);
    }
}

/// `value` if it is nonnegative, `-value` otherwise.
pub open spec fn abs_of(value: int) -> int {
    if value < 0 {
        -value
    } else {
        value
    }
}

/// Absolute value of `value`.
pub fn abs(value: i32) -> (r: i32)
    requires
        value != i32::MIN,
    ensures
        r == abs_of(value as int),
{
    if value < 0 {
        -value
    } else {
        value
    }
}

/// Each channel of `c` scaled by `weight` permille, rounded down; the result
/// is fully opaque.
pub open spec fn weighted_color(c: Color, weight: u32) -> Color {
    Color {
        red: ((c.red as u32 * weight) / 1000) as u8,
        green: ((c.green as u32 * weight) / 1000) as u8,
        blue: ((c.blue as u32 * weight) / 1000) as u8,
        alpha: 255u8,
    }
}

/// Darkens `c` by the factor `weight`, given in permille of the full
/// brightness.
pub fn weight_color(c: Color, weight: u32) -> (r: Color)
    requires
        weight <= 1000,
    ensures
        r == weighted_color(c, weight),
{
    proof {
        lemma_channel_scale_bounded(c.red as u32, weight);
        lemma_channel_scale_bounded(c.green as u32, weight);
        lemma_channel_scale_bounded(c.blue as u32, weight);
    }
    Color {
        red: ((c.red as u32 * weight) / 1000) as u8,
        green: ((c.green as u32 * weight) / 1000) as u8,
        blue: ((c.blue as u32 * weight) / 1000) as u8,
        alpha: 255,
    }
}

/// `c` with bits 1 and 4 of its `0xRRGGBB` encoding exchanged, as the
/// display's channel-order quirk requires.
pub open spec fn fixed_color(c: Color) -> Color {
    color_of_hex(swapped_bits(hex_of_color(c), 1, 4))
}

/// Compensates the display's channel-order quirk by exchanging bits 1 and 4
/// of the color's `0xRRGGBB` encoding.
pub fn fix_color(color: Color) -> (r: Color)
    ensures
        r == fixed_color(color),
{
    Color::from_hex(swap_bits(color.to_rgb(), 1, 4))
}

/// Chroma in permille: the product of value and saturation.
pub open spec fn hsv_chroma(s: u32, v: u32) -> int {
    v * s / 1000
}

/// The secondary channel in permille: chroma scaled by how far the hue sits
/// from the middle of its 120-degree band.
pub open spec fn hsv_second(h: int, s: u32, v: u32) -> int {
    hsv_chroma(s, v) * (60 - abs_of(h % 120 - 60)) / 60
}

/// The (red, green, blue) channels in permille before the value floor `m` is
/// added, chosen by the 60-degree sector of the hue.
pub open spec fn hsv_rgb_permille(h: int, s: u32, v: u32) -> (int, int, int) {
    let c = hsv_chroma(s, v);
    let x = hsv_second(h, s, v);
    if h < 60 {
        (c, x, 0int)
    } else if h < 120 {
        (x, c, 0int)
    } else if h < 180 {
        (0int, c, x)
    } else if h < 240 {
        (0int, x, c)
    } else if h < 300 {
        (x, 0int, c)
    } else {
        (c, 0int, x)
    }
}

/// A permille channel plus the value floor, mapped to an 8-bit channel.
pub open spec fn hsv_channel_byte(pm: int, m: int) -> int {
    255 * (pm + m) / 1000
}

/// The color of hue `hue` (degrees, taken modulo 360), saturation `s` and
/// value `v` (both permille), fully opaque.
pub open spec fn hsv_to_color(hue: u32, s: u32, v: u32) -> Color {
    let h = (hue % 360) as int;
    let m = v - hsv_chroma(s, v);
    let rgb = hsv_rgb_permille(h, s, v);
    Color {
        red: hsv_channel_byte(rgb.0, m) as u8,
        green: hsv_channel_byte(rgb.1, m) as u8,
        blue: hsv_channel_byte(rgb.2, m) as u8,
        alpha: 255u8,
    }
}

/// HSV-to-RGB conversion: hue in degrees (any value, taken modulo 360),
/// saturation and value in permille.
pub fn hsv_color(hue: u32, s: u32, v: u32) -> (r: Color)
    requires
        s <= 1000,
        v <= 1000,
    ensures
        r == hsv_to_color(hue, s, v),
{
    let h = hue % 360;
    proof {
        lemma_chroma_bounded(s, v);
        assert(v * s <= 1000000) by (nonlinear_arith)
            requires
                s <= 1000,
                v <= 1000,
        ;
    }
    let c = (v * s) / 1000;
    let hm = h % 120;
    let t = if hm >= 60 {
        hm - 60
    } else {
        60 - hm
    };
    proof {
        lemma_second_bounded(c as int, t as int);
        assert(c * (60 - t) <= 60000) by (nonlinear_arith)
            requires
                c <= 1000,
                t <= 60,
        ;
    }
    let x = (c * (60 - t)) / 60;
    let m = v - c;
    let rgb: (u32, u32, u32) = if h < 60 {
        (c, x, 0)
    } else if h < 120 {
        (x, c, 0)
    } else if h < 180 {
        (0, c, x)
    } else if h < 240 {
        (0, x, c)
    } else if h < 300 {
        (x, 0, c)
    } else {
        (c, 0, x)
    };
    Color {
        red: ((255 * (rgb.0 + m)) / 1000) as u8,
        green: ((255 * (rgb.1 + m)) / 1000) as u8,
        blue: ((255 * (rgb.2 + m)) / 1000) as u8,
        alpha: 255,
    }
}

proof fn lemma_chroma_bounded(s: u32, v: u32)
    requires
        s <= 1000,
        v <= 1000,
    ensures
        0 <= hsv_chroma(s, v) <= v,
{
    assert(v * s <= v * 1000) by (nonlinear_arith)
        requires
            s <= 1000,
    ;
    assert(v * s / 1000 <= v * 1000 / 1000) by (nonlinear_arith)
        requires
            v * s <= v * 1000,
    ;
}

proof fn lemma_second_bounded(c: int, t: int)
    requires
        0 <= c <= 1000,
        0 <= t <= 60,
    ensures
        0 <= c * (60 - t) / 60 <= c,
{
    assert(c * (60 - t) <= c * 60) by (nonlinear_arith)
        requires
            0 <= c,
            t >= 0,
    ;
    assert(c * (60 - t) >= 0) by (nonlinear_arith)
        requires
            0 <= c,
            t <= 60,
    ;
    assert(c * (60 - t) / 60 <= c * 60 / 60) by (nonlinear_arith)
        requires
            c * (60 - t) <= c * 60,
    ;
}

proof fn lemma_channel_scale_bounded(channel: u32, weight: u32)
    requires
        channel <= 255,
        weight <= 1000,
    ensures
        channel * weight <= 255000,
        channel * weight / 1000 <= 255,
{
    assert(channel * weight <= 255000) by (nonlinear_arith)
        requires
            channel <= 255,
            weight <= 1000,
    ;
}

} // verus!


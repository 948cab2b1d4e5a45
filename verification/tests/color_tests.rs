use isostack::color::Color;
use isostack::color::abs;
use isostack::color::fix_color;
use isostack::color::hsv_color;
use isostack::color::swap_bits;
use isostack::color::weight_color;

#[test]
fn rgb_constructors() {
    let c = Color::rgb(10, 20, 30);
    assert_eq!(c.red, 10);
    assert_eq!(c.green, 20);
    assert_eq!(c.blue, 30);
    assert_eq!(c.alpha, 255);
    let d = Color::rgba(1, 2, 3, 4);
    assert_eq!(d.alpha, 4);
}

#[test]
fn hex_round_trip() {
    let c = Color::from_hex(0x123456);
    assert_eq!(c.red, 0x12);
    assert_eq!(c.green, 0x34);
    assert_eq!(c.blue, 0x56);
    assert_eq!(c.to_rgb(), 0x123456);
}

#[test]
fn swap_bits_moves_exactly_two_bits() {
    assert_eq!(swap_bits(0b10, 1, 4), 0b10000);
    assert_eq!(swap_bits(0b10000, 1, 4), 0b10);
    assert_eq!(swap_bits(0x12345678, 3, 3), 0x12345678);
    // bits 1 and 4 both set: swapping changes nothing
    assert_eq!(swap_bits(0b10010, 1, 4), 0b10010);
    // untouched bits stay
    assert_eq!(swap_bits(0xff00, 0, 1), 0xff00);
}

#[test]
fn fix_color_swaps_encoding_bits() {
    // blue = 2 has only bit 1 of the encoding set; it moves to bit 4
    let fixed = fix_color(Color::rgb(0, 0, 2));
    assert_eq!(fixed.blue, 16);
    assert_eq!(fixed.red, 0);
    assert_eq!(fixed.green, 0);
}

#[test]
fn abs_of_both_signs() {
    assert_eq!(abs(-5), 5);
    assert_eq!(abs(7), 7);
    assert_eq!(abs(0), 0);
}

#[test]
fn weight_scales_each_channel() {
    let c = weight_color(Color::rgb(255, 255, 255), 600);
    assert_eq!(c.red, 153);
    assert_eq!(c.green, 153);
    assert_eq!(c.blue, 153);
    let full = weight_color(Color::rgb(10, 20, 30), 1000);
    assert_eq!(full.red, 10);
    assert_eq!(full.green, 20);
    assert_eq!(full.blue, 30);
    let none = weight_color(Color::rgb(200, 100, 50), 0);
    assert_eq!((none.red, none.green, none.blue), (0, 0, 0));
}

#[test]
fn hsv_primary_sectors() {
    let red = hsv_color(0, 1000, 1000);
    assert_eq!((red.red, red.green, red.blue), (255, 0, 0));
    let green = hsv_color(120, 1000, 1000);
    assert_eq!((green.red, green.green, green.blue), (0, 255, 0));
    let blue = hsv_color(240, 1000, 1000);
    assert_eq!((blue.red, blue.green, blue.blue), (0, 0, 255));
}

#[test]
fn hsv_mixes_and_desaturates() {
    let chartreuse = hsv_color(90, 1000, 1000);
    assert_eq!((chartreuse.red, chartreuse.green, chartreuse.blue), (127, 255, 0));
    let pale = hsv_color(0, 500, 1000);
    assert_eq!((pale.red, pale.green, pale.blue), (255, 127, 127));
    let wrapped = hsv_color(360, 1000, 1000);
    assert_eq!((wrapped.red, wrapped.green, wrapped.blue), (255, 0, 0));
    // zero saturation collapses every hue to gray
    let gray = hsv_color(123, 0, 500);
    assert_eq!((gray.red, gray.green, gray.blue), (127, 127, 127));
}

use isostack::color::Color;
use isostack::display::Display;
use isostack::renderer::Background;
use isostack::renderer::Renderer;
use isostack::renderer::TextSample;

fn black() -> Color {
    Color::rgb(0, 0, 0)
}

fn small_renderer() -> Renderer {
    let display = Display::new(64, 48, black());
    Renderer::new(display, Background::Solid(black()))
}

#[test]
fn display_starts_filled() {
    let d = Display::new(8, 4, Color::rgb(9, 9, 9));
    assert_eq!(d.get_width(), 8);
    assert_eq!(d.get_height(), 4);
    assert_eq!(d.pixel(7, 3).red, 9);
}

#[test]
fn display_write_is_local() {
    let mut d = Display::new(8, 4, black());
    d.write_pixel(2, 1, Color::rgb(1, 2, 3));
    assert_eq!(d.pixel(2, 1).green, 2);
    assert_eq!(d.pixel(3, 1).green, 0);
    assert_eq!(d.pixel(2, 2).green, 0);
}

#[test]
fn direct_pixel_lands_on_screen() {
    let mut r = small_renderer();
    r.set_pixel(5, 6, Color::rgb(10, 0, 0));
    assert_eq!(r.pixel_at(5, 6).red, 10);
    // off-screen writes are silently dropped
    r.set_pixel(-1, 0, Color::rgb(1, 1, 1));
    r.set_pixel(64, 0, Color::rgb(1, 1, 1));
    assert_eq!(r.pixel_at(0, 0), black());
}

#[test]
fn portrait_rotates_coordinates() {
    let mut r = small_renderer();
    r.set_portrait(true);
    assert_eq!(r.get_width(), 48);
    assert_eq!(r.get_height(), 64);
    // (px, py) lands on physical (width - py, px)
    r.set_pixel(3, 10, Color::rgb(7, 0, 0));
    assert_eq!(r.pixel_at(64 - 10, 3).red, 7);
}

#[test]
fn diff_erases_stale_pixels_and_keeps_fresh_ones() {
    let mut r = small_renderer();
    let red = Color::rgb(255, 0, 0);
    let green = Color::rgb(0, 255, 0);
    let blue = Color::rgb(0, 0, 255);
    r.begin_frame();
    r.set_pixel(1, 1, red);
    r.set_pixel(2, 2, green);
    r.end_frame();
    assert_eq!(r.pixel_at(1, 1), red);
    assert_eq!(r.pixel_at(2, 2), green);
    r.begin_frame();
    r.set_pixel(2, 2, blue);
    r.end_frame();
    // (1, 1) was drawn last frame but not this one: repainted background
    assert_eq!(r.pixel_at(1, 1), black());
    // (2, 2) shows its current-frame color
    assert_eq!(r.pixel_at(2, 2), blue);
}

#[test]
fn immediate_mode_shows_pixels_before_end_frame() {
    let mut r = small_renderer();
    let red = Color::rgb(255, 0, 0);
    r.set_immediate(true);
    r.begin_frame();
    r.set_pixel(4, 4, red);
    assert_eq!(r.pixel_at(4, 4), red);
    r.end_frame();
    assert_eq!(r.pixel_at(4, 4), red);
}

#[test]
fn last_write_wins_within_a_frame() {
    let mut r = small_renderer();
    r.begin_frame();
    r.set_pixel(3, 3, Color::rgb(1, 1, 1));
    r.set_pixel(3, 3, Color::rgb(2, 2, 2));
    r.end_frame();
    assert_eq!(r.pixel_at(3, 3), Color::rgb(2, 2, 2));
}

#[test]
fn flush_abandons_both_compositions() {
    let mut r = small_renderer();
    let red = Color::rgb(255, 0, 0);
    r.begin_frame();
    r.set_pixel(1, 1, red);
    r.end_frame();
    r.begin_frame();
    r.set_pixel(2, 1, red);
    r.end_frame();
    r.flush();
    assert_eq!(r.pixel_at(1, 1), black());
    assert_eq!(r.pixel_at(2, 1), black());
}

#[test]
fn background_lookup_is_deterministic() {
    let r = small_renderer();
    // repeated calls with unchanged state return the same color
    assert_eq!(r.get_background(10, 20), r.get_background(10, 20));
    assert_eq!(r.get_background(10, 20), black());
}

#[test]
fn image_background_maps_logical_pixels() {
    let mut image = Vec::new();
    for i in 0..(64 * 48) {
        let v = (i % 251) as u8;
        image.push(Color::rgb(v, 0, 0));
    }
    let display = Display::new(64, 48, black());
    let r = Renderer::new(display, Background::Image(image));
    // landscape: logical == physical, index y * width + x
    assert_eq!(r.get_background(5, 3).red, ((3 * 64 + 5) % 251) as u8);
}

#[test]
fn clear_repaints_everything() {
    let mut r = small_renderer();
    r.set_pixel(9, 9, Color::rgb(50, 0, 0));
    r.clear();
    assert_eq!(r.pixel_at(9, 9), black());
}

#[test]
fn clear_area_repaints_only_the_rectangle() {
    let mut r = small_renderer();
    let red = Color::rgb(255, 0, 0);
    r.set_pixel(5, 5, red);
    r.set_pixel(20, 20, red);
    r.clear_area(4, 4, 4, 4);
    assert_eq!(r.pixel_at(5, 5), black());
    assert_eq!(r.pixel_at(20, 20), red);
}

#[test]
fn solid_rect_covers_exactly_its_area() {
    let mut r = small_renderer();
    let red = Color::rgb(255, 0, 0);
    r.draw_rect_solid(10, 10, 3, 2, red);
    for x in 10..13 {
        for y in 10..12 {
            assert_eq!(r.pixel_at(x, y), red);
        }
    }
    assert_eq!(r.pixel_at(13, 10), black());
    assert_eq!(r.pixel_at(10, 12), black());
    assert_eq!(r.pixel_at(9, 10), black());
}

#[test]
fn rect_outline_leaves_the_interior() {
    let mut r = small_renderer();
    let red = Color::rgb(255, 0, 0);
    r.draw_rect(10, 10, 4, 4, red);
    assert_eq!(r.pixel_at(10, 10), red);
    assert_eq!(r.pixel_at(13, 10), red);
    assert_eq!(r.pixel_at(10, 13), red);
    assert_eq!(r.pixel_at(13, 13), red);
    assert_eq!(r.pixel_at(11, 11), black());
    assert_eq!(r.pixel_at(12, 12), black());
}

#[test]
fn lines_horizontal_and_vertical() {
    let mut r = small_renderer();
    let red = Color::rgb(255, 0, 0);
    r.draw_line(2, 7, 6, 7, red);
    for x in 2..7 {
        assert_eq!(r.pixel_at(x, 7), red);
    }
    assert_eq!(r.pixel_at(7, 7), black());
    r.draw_line(9, 2, 9, 5, red);
    for y in 2..6 {
        assert_eq!(r.pixel_at(9, y), red);
    }
    assert_eq!(r.pixel_at(9, 6), black());
}

#[test]
fn sloped_line_touches_endpoints_diagonal() {
    let mut r = small_renderer();
    let red = Color::rgb(255, 0, 0);
    r.draw_line(0, 0, 4, 4, red);
    assert_eq!(r.pixel_at(0, 0), red);
    // the 45-degree accumulator steps once per column
    assert_eq!(r.pixel_at(2, 2), red);
}

#[test]
fn sloped_line_hits_every_column_at_the_interpolated_row() {
    let mut r = small_renderer();
    let red = Color::rgb(255, 0, 0);
    // a 2-in-4 slope: the core pixel of column i sits at the nearest
    // interpolation (4 i + 4) / 8
    r.draw_line(10, 10, 14, 12, red);
    assert_eq!(r.pixel_at(10, 10), red);
    assert_eq!(r.pixel_at(11, 11), red);
    assert_eq!(r.pixel_at(12, 11), red);
    assert_eq!(r.pixel_at(13, 12), red);
    // the far endpoint is always hit exactly
    assert_eq!(r.pixel_at(14, 12), red);
}

#[test]
fn oblique_band_of_no_columns_draws_nothing() {
    let mut r = small_renderer();
    let red = Color::rgb(255, 0, 0);
    r.draw_y_oblique(5, 5, 0, 3, 3, 0, red);
    r.draw_y_oblique(5, 5, -4, 3, 3, 0, red);
    for x in 0..10 {
        for y in 0..10 {
            assert_eq!(r.pixel_at(x, y), black());
        }
    }
}

#[test]
fn oblique_band_fills_sheared_columns() {
    let mut r = small_renderer();
    let red = Color::rgb(255, 0, 0);
    // two columns, constant height 3, no shear
    r.draw_y_oblique(5, 5, 2, 3, 3, 0, red);
    for i in 0..2 {
        for j in 0..3 {
            assert_eq!(r.pixel_at(5 + i, 5 + j), red);
        }
    }
    assert_eq!(r.pixel_at(7, 5), black());
}

#[test]
fn text_samples_carry_their_alpha() {
    let mut r = small_renderer();
    let mut samples = Vec::new();
    samples.push(TextSample { x: 0, y: 0, alpha: 200 });
    samples.push(TextSample { x: 1, y: 0, alpha: 90 });
    r.draw_text(&samples, 10, 10, Color::rgb(255, 255, 255));
    let a = r.pixel_at(10, 10);
    assert_eq!((a.red, a.alpha), (255, 200));
    let b = r.pixel_at(11, 10);
    assert_eq!(b.alpha, 90);
    assert_eq!(r.pixel_at(12, 10), black());
}

#[test]
fn portrait_clear_area_rotates_the_rectangle() {
    let mut r = small_renderer();
    r.set_portrait(true);
    let red = Color::rgb(255, 0, 0);
    // logical (4, 12) lands on physical (52, 4), inside the rotated rect
    r.set_pixel(4, 12, red);
    // logical (4, 20) lands on physical (44, 4), outside it
    r.set_pixel(4, 20, red);
    r.clear_area(3, 10, 2, 4);
    assert_eq!(r.pixel_at(52, 4), black());
    assert_eq!(r.pixel_at(44, 4), red);
}

#[test]
fn triangle_fills_between_its_edges() {
    let mut r = small_renderer();
    let red = Color::rgb(255, 0, 0);
    r.draw_triangle_solid_left_to_right(10, 10, 14, 14, 18, 10, red);
    assert_eq!(r.pixel_at(10, 10), red);
    assert_eq!(r.pixel_at(10, 11), red);
    assert_eq!(r.pixel_at(10, 12), black());
    assert_eq!(r.pixel_at(14, 10), red);
    assert_eq!(r.pixel_at(14, 15), red);
    assert_eq!(r.pixel_at(14, 16), black());
    assert_eq!(r.pixel_at(18, 11), red);
    assert_eq!(r.pixel_at(18, 12), black());
}

#[test]
fn solid_block_shades_three_faces() {
    let mut r = small_renderer();
    let left = Color::rgb(1, 0, 0);
    let right = Color::rgb(2, 0, 0);
    let top = Color::rgb(3, 0, 0);
    r.draw_block_3d_solid(10, 20, 8, 6, 8, left, right, top);
    // a pixel inside the left face: first column below the top edge
    assert_eq!(r.pixel_at(10, 22), left);
    // a pixel inside the right face
    assert_eq!(r.pixel_at(20, 25), right);
    // a pixel of the top face between the two triangles
    assert_eq!(r.pixel_at(18, 20), top);
}

#[test]
fn wireframe_draws_the_vertical_edges() {
    let mut r = small_renderer();
    let red = Color::rgb(255, 0, 0);
    r.draw_block_3d(10, 20, 8, 6, 8, red);
    // the front-left vertical edge runs from (10, 20) down
    assert_eq!(r.pixel_at(10, 20), red);
    assert_eq!(r.pixel_at(10, 23), red);
}

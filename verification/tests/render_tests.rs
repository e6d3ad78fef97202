use engine_2d::color::Color;
use engine_2d::renderer::{circle_fits, glyph_for, glyph_pixel, line_fits, Canvas, Texture};
use engine_2d::systems::draw_order;

fn px(c: &Canvas, x: usize, y: usize) -> u32 {
    c.buffer()[y * c.width + x]
}

fn count(c: &Canvas, v: u32) -> usize {
    c.buffer().iter().filter(|p| **p == v).count()
}

#[test]
fn new_canvas_is_black() {
    let c = Canvas::new(4, 3);
    assert_eq!(c.buffer().len(), 12);
    assert!(c.buffer().iter().all(|p| *p == 0));
}

#[test]
fn put_pixel_raw_inside_and_outside() {
    let mut c = Canvas::new(4, 3);
    c.put_pixel_raw(1, 2, Color::rgb(1, 2, 3));
    assert_eq!(px(&c, 1, 2), 0x010203);
    c.put_pixel_raw(-1, 0, Color::white());
    c.put_pixel_raw(4, 0, Color::white());
    c.put_pixel_raw(0, 3, Color::white());
    assert_eq!(count(&c, 0x00ff_ffff), 0);
}

#[test]
fn put_pixel_raw_blends_and_ignores_transparent() {
    let mut c = Canvas::new(2, 1);
    c.put_pixel_raw(0, 0, Color::rgba(255, 255, 255, 128));
    assert_eq!(px(&c, 0, 0), 0x0080_8080);
    c.put_pixel_raw(1, 0, Color::rgba(255, 0, 0, 0));
    assert_eq!(px(&c, 1, 0), 0);
}

#[test]
fn clear_fills_everything() {
    let mut c = Canvas::new(3, 3);
    c.clear(Color::rgba(1, 2, 3, 0));
    assert!(c.buffer().iter().all(|p| *p == 0x010203));
}

#[test]
fn fill_rect_is_clipped() {
    let mut c = Canvas::new(4, 4);
    c.fill_rect(-1, 2, 3, 5, Color::white());
    // columns 0..2, rows 2..4
    assert_eq!(count(&c, 0x00ff_ffff), 4);
    assert_eq!(px(&c, 0, 2), 0x00ff_ffff);
    assert_eq!(px(&c, 1, 3), 0x00ff_ffff);
    assert_eq!(px(&c, 2, 2), 0);
    assert_eq!(px(&c, 0, 1), 0);
}

#[test]
fn fill_rect_empty_does_nothing() {
    let mut c = Canvas::new(4, 4);
    c.fill_rect(1, 1, 0, 3, Color::white());
    c.fill_rect(1, 1, 2, -2, Color::white());
    assert_eq!(count(&c, 0), 16);
}

#[test]
fn fill_circle_radius_one_is_a_plus() {
    let mut c = Canvas::new(5, 5);
    c.fill_circle(2, 2, 1, 1, Color::white());
    assert_eq!(count(&c, 0x00ff_ffff), 5);
    assert_eq!(px(&c, 2, 1), 0x00ff_ffff);
    assert_eq!(px(&c, 1, 1), 0);
}

#[test]
fn fill_circle_negative_radius_draws_nothing() {
    let mut c = Canvas::new(5, 5);
    c.fill_circle(2, 2, -1, 4, Color::white());
    assert_eq!(count(&c, 0), 25);
}

#[test]
fn draw_line_covers_both_ends() {
    let mut c = Canvas::new(10, 10);
    c.draw_line(1, 1, 7, 4, Color::white());
    assert_eq!(px(&c, 1, 1), 0x00ff_ffff);
    assert_eq!(px(&c, 7, 4), 0x00ff_ffff);
    // one pixel per column of a flat line
    assert_eq!(count(&c, 0x00ff_ffff), 7);
}

#[test]
fn draw_line_steep_and_reversed() {
    let mut c = Canvas::new(10, 10);
    c.draw_line(3, 9, 1, 0, Color::white());
    assert_eq!(count(&c, 0x00ff_ffff), 10);
    assert_eq!(px(&c, 3, 9), 0x00ff_ffff);
    assert_eq!(px(&c, 1, 0), 0x00ff_ffff);
}

#[test]
fn draw_line_single_point() {
    let mut c = Canvas::new(3, 3);
    c.draw_line(1, 1, 1, 1, Color::white());
    assert_eq!(count(&c, 0x00ff_ffff), 1);
}

#[test]
fn stroke_circle_outline() {
    let mut c = Canvas::new(9, 9);
    c.stroke_circle(4, 4, 0, Color::white());
    assert_eq!(count(&c, 0x00ff_ffff), 1);
    let mut c = Canvas::new(9, 9);
    c.stroke_circle(4, 4, 3, Color::white());
    assert_eq!(px(&c, 7, 4), 0x00ff_ffff);
    assert_eq!(px(&c, 4, 1), 0x00ff_ffff);
    assert_eq!(px(&c, 4, 4), 0);
}

#[test]
fn texture_new_get_set() {
    let mut t = Texture::new(3, 2);
    assert_eq!(t.get(2, 1), Color::transparent());
    t.set(2, 1, Color::red());
    assert_eq!(t.get(2, 1), Color::red());
    assert_eq!(t.get(1, 1), Color::transparent());
}

#[test]
fn texture_from_fn_is_row_major() {
    let t = Texture::from_fn(3, 2, |x, y| Color::rgb(x as u8, y as u8, 0));
    assert_eq!(t.width, 3);
    assert_eq!(t.height, 2);
    assert_eq!(t.get(2, 0), Color::rgb(2, 0, 0));
    assert_eq!(t.get(1, 1), Color::rgb(1, 1, 0));
}

#[test]
fn glyphs_share_case_and_default_blank() {
    assert_eq!(glyph_for('A'), glyph_for('a'));
    assert_eq!(glyph_for('A'), [0o34, 0o42, 0o42, 0o76, 0o42, 0o42, 0o42, 0]);
    assert_eq!(glyph_for('~'), [0; 8]);
    assert_eq!(glyph_for(' '), [0; 8]);
}

#[test]
fn glyph_pixels_read_msb_first() {
    // '1' row 0 is 0o10 = 0b001000: only column 2 is lit
    assert!(glyph_pixel('1', 0, 2));
    assert!(!glyph_pixel('1', 0, 1));
    assert!(!glyph_pixel('1', 0, 3));
    // '-' row 3 is 0o76 = 0b111110
    assert!(glyph_pixel('-', 3, 0));
    assert!(!glyph_pixel('-', 3, 5));
}

#[test]
fn draw_order_is_stable_by_layer() {
    assert_eq!(draw_order(&[2, -10, 1, 2, -10, 0]), vec![1, 4, 5, 2, 0, 3]);
    assert_eq!(draw_order(&[]), Vec::<usize>::new());
    assert_eq!(draw_order(&[5, 5, 5]), vec![0, 1, 2]);
}

#[test]
fn opaque_pixel_reads_back_packed() {
    let mut c = Canvas::new(2, 2);
    let col = Color::rgba(0xab, 0xcd, 0xef, 255);
    c.put_pixel_raw(1, 1, col);
    let p = px(&c, 1, 1);
    assert_eq!(p, col.to_u32());
    assert_eq!(((p >> 16) & 0xff, (p >> 8) & 0xff, p & 0xff), (0xab, 0xcd, 0xef));
    // the other pixels are untouched
    assert_eq!(count(&c, 0), 3);
}

#[test]
fn translucent_paint_blends_with_what_is_there() {
    let mut c = Canvas::new(1, 1);
    c.clear(Color::rgb(100, 0, 200));
    c.put_pixel_raw(0, 0, Color::rgba(0, 100, 50, 51));
    assert_eq!(px(&c, 0, 0), Color::rgb(80, 20, 170).to_u32());
}

#[test]
fn line_pixels_touch_and_step_towards_end() {
    // a 9x9 canvas with a shallow line: exactly one pixel per column
    let mut c = Canvas::new(9, 9);
    c.draw_line(0, 0, 8, 3, Color::white());
    for x in 0..9 {
        let lit: Vec<usize> = (0..9).filter(|y| px(&c, x, *y) == 0x00ff_ffff).collect();
        assert_eq!(lit.len(), 1, "column {}", x);
    }
}

#[test]
fn texture_set_then_get_round_trip() {
    let mut t = Texture::from_fn(2, 2, |_, _| Color::black());
    t.set(0, 1, Color::gold());
    assert_eq!(t.get(0, 1), Color::gold());
    assert_eq!(t.get(1, 0), Color::black());
}

#[test]
fn glyph_rows_fit_six_columns() {
    for b in 0u8..128 {
        let g = glyph_for(b as char);
        assert!(g.iter().all(|row| *row < 64), "char {}", b);
    }
    for (u, l) in ('A'..='Z').zip('a'..='z') {
        assert_eq!(glyph_for(u), glyph_for(l));
    }
}

#[test]
fn circle_outline_is_symmetric() {
    let mut c = Canvas::new(21, 21);
    c.stroke_circle(10, 10, 7, Color::white());
    for y in 0..21 {
        for x in 0..21 {
            let v = px(&c, x, y);
            assert_eq!(v, px(&c, 20 - x, y));
            assert_eq!(v, px(&c, x, 20 - y));
            assert_eq!(v, px(&c, y, x));
        }
    }
}

#[test]
fn long_lines_within_i32_fit() {
    assert!(line_fits(0, 0, 600_000_000, 0));
    assert!(line_fits(-(1 << 27), -(1 << 27), 1 << 27, 1 << 27));
    assert!(line_fits(-(1 << 30), -(1 << 30), (1 << 30) - 1, (1 << 30) - 1));
    assert!(line_fits(5, 5, 5, 5));
}

#[test]
fn lines_that_overflow_do_not_fit() {
    assert!(!line_fits(0, 0, 1 << 30, 0));
    assert!(!line_fits(i32::MIN, 0, i32::MAX, 0));
    assert!(!line_fits(0, i32::MIN, 0, 1));
}

#[test]
fn long_line_is_clipped_to_canvas() {
    let mut c = Canvas::new(4, 2);
    c.draw_line(-1_000_000, 0, 1_000_000, 0, Color::white());
    assert_eq!(count(&c, 0x00ff_ffff), 4);
    assert!((0..4).all(|x| px(&c, x, 0) == 0x00ff_ffff));
}

#[test]
fn circle_fits_checks_the_arithmetic() {
    assert!(circle_fits(0, 0, 100));
    assert!(circle_fits(0, 0, -5));
    assert!(circle_fits(1000, -1000, 100_000));
    assert!(!circle_fits(i32::MAX, 0, 1));
    assert!(!circle_fits(0, 0, 1 << 30));
}

#[test]
fn circle_points_stay_near_the_radius() {
    let mut c = Canvas::new(32, 32);
    c.stroke_circle(16, 16, 10, Color::white());
    let mut lit = 0;
    for y in 0..32i64 {
        for x in 0..32i64 {
            if px(&c, x as usize, y as usize) == 0x00ff_ffff {
                lit += 1;
                let (dx, dy) = (x - 16, y - 16);
                let d2 = dx * dx + dy * dy;
                assert!(100 - 20 <= d2 && d2 <= 100 + 60);
            }
        }
    }
    assert!(lit > 0);
}

#[test]
fn canvas_and_texture_dimensions() {
    let c = Canvas::new(7, 3);
    assert_eq!((c.width(), c.height()), (7, 3));
    assert_eq!((c.width, c.height), (7, 3));
    let t = Texture::new(2, 5);
    assert_eq!((t.width(), t.height()), (2, 5));
}

use snake_pixels::canvas::{clamp, Canvas};
use snake_pixels::color::{Color, BG_COLOR, FOOD_COLOR, HEAD_COLOR, TAIL_COLOR};

#[test]
fn rgb_packs_channels() {
    assert_eq!(Color::rgb(0x48, 0xB2, 0xE8).as_rgba_u32(), BG_COLOR);
    assert_eq!(Color::rgb(0x4E, 0x38, 0xE8).as_rgba_u32(), HEAD_COLOR);
    assert_eq!(Color::rgb(0x5E, 0x48, 0xE8).as_rgba_u32(), TAIL_COLOR);
    assert_eq!(Color::rgb(0x9E, 0x28, 0xE8).as_rgba_u32(), FOOD_COLOR);
    assert_eq!(Color::rgb(0, 0, 0), Color(0xFF00_0000));
    assert_eq!(Color::rgb(0xFF, 0xFF, 0xFF), Color(0xFFFF_FFFF));
}

#[test]
fn clamp_limits() {
    assert_eq!(clamp(-3, 0, 10), 0);
    assert_eq!(clamp(12, 0, 10), 10);
    assert_eq!(clamp(7, 0, 10), 7);
    assert_eq!(clamp(10, 0, 10), 10);
    assert_eq!(clamp(5, 8, 2), 8);
}

#[test]
fn new_canvas_is_blank() {
    let c = Canvas::new(4, 3);
    assert_eq!((c.width, c.height), (4, 3));
    assert_eq!(c.pixels, vec![0u32; 12]);
    assert_eq!(c.fps(), 0);
}

#[test]
fn set_pixel_flips_rows() {
    let mut c = Canvas::new(4, 3);
    c.set_pixel(0, 0, Color(7));
    assert_eq!(c.pixels[8], 7);
    c.set_pixel(3, 2, Color(9));
    assert_eq!(c.pixels[3], 9);
    c.set_pixel(1, 1, Color(5));
    assert_eq!(c.pixels[5], 5);
}

#[test]
fn set_pixel_off_surface_changes_nothing() {
    let mut c = Canvas::new(4, 3);
    c.clear(Color(1));
    let before = c.pixels.clone();
    for (x, y) in [(-1, 0), (0, -1), (4, 0), (0, 3), (i32::MIN, i32::MAX), (100, 100)] {
        c.set_pixel(x, y, Color(2));
        assert_eq!(c.pixels, before);
    }
}

#[test]
fn clear_sets_every_pixel() {
    let mut c = Canvas::new(5, 2);
    c.set_pixel(1, 1, Color(3));
    c.clear(Color(BG_COLOR));
    assert!(c.pixels.iter().all(|p| *p == BG_COLOR));
    assert_eq!(c.pixels.len(), 10);
}

#[test]
fn fill_rectangle_writes_rows_downward() {
    let mut c = Canvas::new(4, 4);
    c.fill_rectangle(1, 2, 2, 2, Color(6));
    // anchor row y = 2 is stored as row 1; the second run is stored row 2
    let expected = vec![0, 0, 0, 0, 0, 6, 6, 0, 0, 6, 6, 0, 0, 0, 0, 0];
    assert_eq!(c.pixels, expected);
}

#[test]
fn fill_rectangle_cuts_height_to_anchor_row() {
    let mut a = Canvas::new(4, 4);
    let mut b = Canvas::new(4, 4);
    a.fill_rectangle(0, 2, 3, 9, Color(4));
    b.fill_rectangle(0, 2, 3, 2, Color(4));
    assert_eq!(a.pixels, b.pixels);
    assert_eq!(a.pixels.iter().filter(|p| **p == 4).count(), 6);
}

#[test]
fn fill_rectangle_clamps_anchor() {
    let mut c = Canvas::new(3, 3);
    c.fill_rectangle(-5, -5, 2, 4, Color(8));
    assert_eq!(c.pixels, vec![0u32; 9]);
    c.fill_rectangle(-5, 1, 2, 4, Color(8));
    assert_eq!(c.pixels, vec![0, 0, 0, 8, 8, 0, 0, 0, 0]);
}

#[test]
fn fill_rectangle_wide_run_continues_on_next_row() {
    let mut c = Canvas::new(3, 3);
    c.fill_rectangle(2, 2, 2, 1, Color(1));
    assert_eq!(c.pixels, vec![0, 0, 1, 1, 0, 0, 0, 0, 0]);
}

#[test]
fn fps_counts_last_second() {
    let mut c = Canvas::new(1, 1);
    c.update_fps(0);
    c.update_fps(500);
    c.update_fps(1000);
    assert_eq!(c.frame_times, vec![0, 500, 1000]);
    assert_eq!(c.fps(), 3);
    c.update_fps(1200);
    assert_eq!(c.frame_times, vec![500, 1000, 1200]);
    c.update_fps(1600);
    assert_eq!(c.frame_times, vec![1000, 1200, 1600]);
    c.update_fps(5000);
    assert_eq!(c.frame_times, vec![5000]);
    assert_eq!(c.fps(), 1);
}

#[test]
fn frame_rgba_bytes_in_channel_order() {
    let mut c = Canvas::new(2, 1);
    c.set_pixel(0, 0, Color::rgb(0x48, 0xB2, 0xE8));
    c.set_pixel(1, 0, Color(0x0403_0201));
    assert_eq!(c.frame_rgba(), vec![0x48, 0xB2, 0xE8, 0xFF, 1, 2, 3, 4]);
}

use raycaster::canvas::PixelCanvas;
use raycaster::patterns::{
    draw_blue_pattern, draw_green_pattern, draw_random_pixels, draw_red_pattern, draw_start_picture,
    BACKDROP_COLOR, SCATTER_COUNT,
};

fn pattern_pixel(canvas: &PixelCanvas, x: u32, y: u32) -> [u8; 4] {
    let offset = ((y * canvas.width() + x) * 4) as usize;
    let bytes = canvas.pixels();
    [bytes[offset], bytes[offset + 1], bytes[offset + 2], bytes[offset + 3]]
}

fn count_pixels(canvas: &PixelCanvas, color: [u8; 4]) -> usize {
    canvas.pixels().chunks(4).filter(|p| *p == color).count()
}

#[test]
fn start_picture_has_backdrop_blocks_and_dot() {
    let mut canvas = PixelCanvas::new(400, 300);
    draw_start_picture(&mut canvas);
    assert_eq!(BACKDROP_COLOR, [0, 0, 40, 255]);
    assert_eq!(pattern_pixel(&canvas, 0, 0), [0, 0, 40, 255]);
    assert_eq!(pattern_pixel(&canvas, 399, 299), [0, 0, 40, 255]);
    assert_eq!(pattern_pixel(&canvas, 10, 10), [255, 255, 255, 255]);
    assert_eq!(pattern_pixel(&canvas, 11, 10), [0, 0, 40, 255]);
    assert_eq!(pattern_pixel(&canvas, 50, 50), [255, 0, 0, 255]);
    assert_eq!(pattern_pixel(&canvas, 149, 129), [255, 0, 0, 255]);
    assert_eq!(pattern_pixel(&canvas, 150, 129), [0, 0, 40, 255]);
    assert_eq!(pattern_pixel(&canvas, 149, 130), [0, 0, 40, 255]);
    assert_eq!(pattern_pixel(&canvas, 200, 100), [0, 255, 0, 255]);
    assert_eq!(pattern_pixel(&canvas, 259, 159), [0, 255, 0, 255]);
    assert_eq!(pattern_pixel(&canvas, 260, 160), [0, 0, 40, 255]);
    assert_eq!(count_pixels(&canvas, [255, 0, 0, 255]), 100 * 80);
    assert_eq!(count_pixels(&canvas, [0, 255, 0, 255]), 60 * 60);
    assert_eq!(count_pixels(&canvas, [255, 255, 255, 255]), 1);
}

#[test]
fn start_picture_on_a_small_canvas_is_clipped() {
    let mut canvas = PixelCanvas::new(60, 55);
    draw_start_picture(&mut canvas);
    assert_eq!(count_pixels(&canvas, [255, 0, 0, 255]), 10 * 5);
    assert_eq!(count_pixels(&canvas, [0, 255, 0, 255]), 0);
    assert_eq!(pattern_pixel(&canvas, 10, 10), [255, 255, 255, 255]);
}

#[test]
fn colored_blocks_sit_at_their_fractions() {
    let mut canvas = PixelCanvas::new(400, 300);
    draw_red_pattern(&mut canvas);
    draw_green_pattern(&mut canvas);
    draw_blue_pattern(&mut canvas);
    assert_eq!(pattern_pixel(&canvas, 100, 75), [255, 100, 100, 255]);
    assert_eq!(pattern_pixel(&canvas, 149, 124), [255, 100, 100, 255]);
    assert_eq!(pattern_pixel(&canvas, 99, 75), [0, 0, 0, 0]);
    assert_eq!(pattern_pixel(&canvas, 150, 124), [0, 0, 0, 0]);
    assert_eq!(pattern_pixel(&canvas, 200, 75), [100, 255, 100, 255]);
    assert_eq!(pattern_pixel(&canvas, 239, 134), [100, 255, 100, 255]);
    assert_eq!(pattern_pixel(&canvas, 240, 134), [0, 0, 0, 0]);
    assert_eq!(pattern_pixel(&canvas, 300, 75), [100, 100, 255, 255]);
    assert_eq!(pattern_pixel(&canvas, 329, 144), [100, 100, 255, 255]);
    assert_eq!(pattern_pixel(&canvas, 330, 144), [0, 0, 0, 0]);
    assert_eq!(count_pixels(&canvas, [255, 100, 100, 255]), 50 * 50);
    assert_eq!(count_pixels(&canvas, [100, 255, 100, 255]), 40 * 60);
    assert_eq!(count_pixels(&canvas, [100, 100, 255, 255]), 30 * 70);
}

#[test]
fn blue_block_on_a_very_wide_canvas() {
    let mut canvas = PixelCanvas::new(2_000_000_000, 0);
    draw_blue_pattern(&mut canvas);
    assert_eq!(canvas.pixels().len(), 0);
}

#[test]
fn scatter_follows_the_seed() {
    assert_eq!(SCATTER_COUNT, 10);
    let mut canvas = PixelCanvas::new(400, 300);
    draw_random_pixels(&mut canvas, 1000);
    assert_eq!(pattern_pixel(&canvas, 200, 100), [232, 232, 232, 255]);
    assert_eq!(pattern_pixel(&canvas, 237, 173), [249, 7, 19, 255]);
    assert_eq!(pattern_pixel(&canvas, 274, 246), [10, 38, 62, 255]);
    assert_eq!(pattern_pixel(&canvas, 133, 157), [129, 255, 107, 255]);
    let drawn = canvas.pixels().chunks(4).filter(|p| p[3] == 255).count();
    assert_eq!(drawn, 10);
}

#[test]
fn scatter_wraps_around() {
    let mut canvas = PixelCanvas::new(400, 300);
    draw_random_pixels(&mut canvas, u32::MAX);
    assert_eq!(pattern_pixel(&canvas, 95, 195), [255, 255, 255, 255]);
    assert_eq!(pattern_pixel(&canvas, 36, 72), [16, 30, 42, 255]);
}

#[test]
fn scatter_is_the_same_for_the_same_seed() {
    let mut first = PixelCanvas::new(64, 48);
    let mut second = PixelCanvas::new(64, 48);
    draw_random_pixels(&mut first, 123_456_789);
    draw_random_pixels(&mut second, 123_456_789);
    assert_eq!(first.pixels(), second.pixels());
    let mut third = PixelCanvas::new(64, 48);
    draw_random_pixels(&mut third, 123_456_790);
    assert_ne!(first.pixels(), third.pixels());
}

#[test]
fn scatter_on_a_canvas_without_pixels() {
    let mut canvas = PixelCanvas::new(0, 10);
    draw_random_pixels(&mut canvas, 5);
    assert_eq!(canvas.pixels().len(), 0);
}

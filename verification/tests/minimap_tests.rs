use raycaster::canvas::PixelCanvas;
use raycaster::map::GameMap;
use raycaster::minimap::{
    get_tile_color, render_minimap, RenderSettings, BORDER_COLOR, MINIMAP_SCALE, MINIMAP_SIZE, MINIMAP_TOP,
    PLAYER_COLOR,
};

fn overlay_pixel(canvas: &PixelCanvas, x: u32, y: u32) -> [u8; 4] {
    let offset = ((y * canvas.width() + x) * 4) as usize;
    let bytes = canvas.pixels();
    [bytes[offset], bytes[offset + 1], bytes[offset + 2], bytes[offset + 3]]
}

fn walled_map() -> GameMap {
    let mut map = GameMap::new(24, 24);
    for i in 0..24 {
        map.set_tile(i, 0, 1);
        map.set_tile(i, 23, 1);
        map.set_tile(0, i, 1);
        map.set_tile(23, i, 1);
    }
    map.set_tile(11, 5, 3);
    map.set_tile(5, 17, 4);
    map
}

#[test]
fn minimap_constants() {
    assert_eq!(MINIMAP_SIZE, 100);
    assert_eq!(MINIMAP_SCALE, 4);
    assert_eq!(MINIMAP_TOP, 10);
    assert_eq!(BORDER_COLOR, [0, 0, 0, 255]);
    assert_eq!(PLAYER_COLOR, [255, 0, 0, 255]);
}

#[test]
fn settings_start_with_the_minimap_on() {
    assert!(RenderSettings::default().show_minimap);
}

#[test]
fn tile_colors() {
    assert_eq!(get_tile_color(0), [40, 40, 40, 255]);
    assert_eq!(get_tile_color(1), [255, 255, 255, 255]);
    assert_eq!(get_tile_color(2), [0, 255, 0, 255]);
    assert_eq!(get_tile_color(3), [0, 0, 255, 255]);
    assert_eq!(get_tile_color(4), [255, 255, 0, 255]);
    assert_eq!(get_tile_color(5), [255, 0, 255, 255]);
    assert_eq!(get_tile_color(6), [128, 128, 128, 255]);
    assert_eq!(get_tile_color(200), [128, 128, 128, 255]);
}

#[test]
fn minimap_switched_off_draws_nothing() {
    let mut canvas = PixelCanvas::new(400, 300);
    canvas.clear([5, 6, 7, 8]);
    let before = canvas.pixels().clone();
    render_minimap(&mut canvas, &walled_map(), &RenderSettings { show_minimap: false }, 2, 2);
    assert_eq!(canvas.pixels(), &before);
}

#[test]
fn minimap_backdrop_tiles_and_player() {
    let mut canvas = PixelCanvas::new(400, 300);
    canvas.clear([5, 6, 7, 8]);
    render_minimap(&mut canvas, &walled_map(), &RenderSettings::default(), 1, 2);
    for y in 0..300 {
        for x in 0..400 {
            let color = overlay_pixel(&canvas, x, y);
            let in_backdrop = x >= 299 && (9..111).contains(&y);
            if !in_backdrop {
                assert_eq!(color, [5, 6, 7, 8], "pixel ({}, {})", x, y);
            } else if x < 300 || x > 303 || y < 10 || y > 13 {
                assert_eq!(color, [0, 0, 0, 255], "pixel ({}, {})", x, y);
            }
        }
    }
    assert_eq!(overlay_pixel(&canvas, 300, 10), [40, 40, 40, 255]);
    assert_eq!(overlay_pixel(&canvas, 301, 10), [0, 0, 255, 255]);
    assert_eq!(overlay_pixel(&canvas, 302, 10), [40, 40, 40, 255]);
    assert_eq!(overlay_pixel(&canvas, 303, 10), [255, 255, 255, 255]);
    assert_eq!(overlay_pixel(&canvas, 300, 11), [40, 40, 40, 255]);
    assert_eq!(overlay_pixel(&canvas, 300, 12), [255, 255, 0, 255]);
    assert_eq!(overlay_pixel(&canvas, 301, 12), [255, 0, 0, 255]);
    assert_eq!(overlay_pixel(&canvas, 300, 13), [255, 255, 255, 255]);
    assert_eq!(overlay_pixel(&canvas, 303, 13), [255, 255, 255, 255]);
    assert_eq!(overlay_pixel(&canvas, 303, 12), [255, 255, 255, 255]);
}

#[test]
fn minimap_player_outside_the_canvas_is_left_out() {
    let mut with_player = PixelCanvas::new(400, 300);
    let mut without = PixelCanvas::new(400, 300);
    let map = walled_map();
    render_minimap(&mut with_player, &map, &RenderSettings::default(), 50, 50);
    render_minimap(&mut without, &map, &RenderSettings::default(), 100, 50);
    assert_eq!(overlay_pixel(&with_player, 350, 60), [255, 0, 0, 255]);
    assert_eq!(overlay_pixel(&without, 350, 60), [0, 0, 0, 255]);
    let mut far = PixelCanvas::new(400, 300);
    render_minimap(&mut far, &map, &RenderSettings::default(), i32::MAX, i32::MIN);
    assert_eq!(far.pixels(), without.pixels());
    let mut negative = PixelCanvas::new(400, 300);
    render_minimap(&mut negative, &map, &RenderSettings::default(), -301, 0);
    assert_eq!(negative.pixels(), without.pixels());
}

#[test]
fn minimap_on_a_narrow_canvas_is_clipped() {
    let mut canvas = PixelCanvas::new(50, 40);
    render_minimap(&mut canvas, &walled_map(), &RenderSettings::default(), 60, 5);
    for y in 0..40 {
        for x in 0..50 {
            let expected = if x == 10 && y == 15 {
                [255, 0, 0, 255]
            } else if y >= 9 {
                [0, 0, 0, 255]
            } else {
                [0, 0, 0, 0]
            };
            assert_eq!(overlay_pixel(&canvas, x, y), expected, "pixel ({}, {})", x, y);
        }
    }
}

#[test]
fn minimap_at_the_left_edge() {
    let mut canvas = PixelCanvas::new(100, 20);
    render_minimap(&mut canvas, &walled_map(), &RenderSettings::default(), 0, 0);
    assert_eq!(overlay_pixel(&canvas, 0, 8), [0, 0, 0, 0]);
    assert_eq!(overlay_pixel(&canvas, 0, 9), [0, 0, 0, 255]);
    assert_eq!(overlay_pixel(&canvas, 0, 10), [255, 0, 0, 255]);
    assert_eq!(overlay_pixel(&canvas, 3, 13), [255, 255, 255, 255]);
    assert_eq!(overlay_pixel(&canvas, 99, 19), [0, 0, 0, 255]);
}

#[test]
fn minimap_of_an_empty_map_is_a_black_square() {
    let mut canvas = PixelCanvas::new(200, 120);
    render_minimap(&mut canvas, &GameMap::new(0, 0), &RenderSettings::default(), -5, -5);
    assert_eq!(overlay_pixel(&canvas, 100, 10), [0, 0, 0, 255]);
    assert_eq!(overlay_pixel(&canvas, 99, 9), [0, 0, 0, 255]);
    assert_eq!(overlay_pixel(&canvas, 98, 9), [0, 0, 0, 0]);
    assert_eq!(overlay_pixel(&canvas, 95, 5), [255, 0, 0, 255]);
}

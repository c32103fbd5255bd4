//! The minimap: a small overview of the tile grid in the top right corner of
//! the canvas, drawn over whatever the frame holds there.

use vstd::prelude::*;
use vstd::arithmetic::div_mod::lemma_fundamental_div_mod_converse;
use vstd::arithmetic::mul::lemma_mul_inequality;
use crate::canvas::{CanvasView, PixelCanvas, PixelWrite};
use crate::map::{GameMap, MapView};

verus! {

/// Side of the square that the minimap keeps free, without its border.
pub const MINIMAP_SIZE: u32 = 100;

/// Number of pixels, along each axis, over which the tiles are spread.
pub const MINIMAP_SCALE: u32 = 4;

/// Row of the minimap's first pixel.
pub const MINIMAP_TOP: u32 = 10;

/// Color of the minimap's backdrop and border.
pub const BORDER_COLOR: [u8; 4] = [0, 0, 0, 255];

/// Color of the player's marker.
pub const PLAYER_COLOR: [u8; 4] = [255, 0, 0, 255];

/// What the overlay passes show.
#[derive(Clone, Copy, Debug, PartialEq, Eq, Structural)]
pub struct RenderSettings {
    pub show_minimap: bool,
}

impl Default for RenderSettings {
    /// The minimap is on until it is switched off.
    fn default() -> (settings: RenderSettings)
        ensures
            settings.show_minimap,
    {
        RenderSettings { show_minimap: true }
    }
}

/// Column of the minimap's first pixel: [`MINIMAP_SIZE`] from the right
/// edge, which is left of the canvas when the canvas is narrower than that.
pub open spec fn minimap_left(canvas: CanvasView) -> int {
    canvas.width - MINIMAP_SIZE
}

/// The color that stands for a tile on the minimap.
pub open spec fn tile_color(tile: u8) -> Seq<u8> {
    if tile == 0 {
        seq![40u8, 40u8, 40u8, 255u8]
    } else if tile == 1 {
        seq![255u8, 255u8, 255u8, 255u8]
    } else if tile == 2 {
        seq![0u8, 255u8, 0u8, 255u8]
    } else if tile == 3 {
        seq![0u8, 0u8, 255u8, 255u8]
    } else if tile == 4 {
        seq![255u8, 255u8, 0u8, 255u8]
    } else if tile == 5 {
        seq![255u8, 0u8, 255u8, 255u8]
    } else {
        seq![128u8, 128u8, 128u8, 255u8]
    }
}

/// The pixel write that plots tile `(x, y)` of the map: its distance from
/// the minimap's corner is the tile's position scaled from the map's size
/// down to [`MINIMAP_SCALE`].
pub open spec fn tile_write(canvas: CanvasView, map: MapView, x: int, y: int) -> PixelWrite {
    PixelWrite {
        x: minimap_left(canvas) + x * MINIMAP_SCALE / (map.width as int),
        y: MINIMAP_TOP + y * MINIMAP_SCALE / (map.height as int),
        color: tile_color(map.tile(x, y)),
    }
}

/// The pixel writes that plot the whole map: one for each tile, row by row
/// from the top and from left to right in each row. Where several tiles
/// fall on one pixel, the last of them shows.
pub open spec fn tile_writes(canvas: CanvasView, map: MapView) -> Seq<PixelWrite> {
    Seq::new(
        map.width * map.height,
        |n: int| tile_write(canvas, map, n % (map.width as int), n / (map.width as int)),
    )
}

/// The canvas after the minimap pass: untouched while the minimap is
/// switched off; else a black square with a border of one pixel, on it the
/// tiles of the map, and last the player's marker at the given distance from
/// the minimap's corner.
pub open spec fn minimap_drawn(
    canvas: CanvasView,
    map: MapView,
    settings: RenderSettings,
    player_dx: int,
    player_dy: int,
) -> CanvasView {
    if settings.show_minimap {
        minimap_overlaid(canvas, map, player_dx, player_dy)
    } else {
        canvas
    }
}

/// The canvas with the minimap on it.
pub open spec fn minimap_overlaid(canvas: CanvasView, map: MapView, player_dx: int, player_dy: int) -> CanvasView {
    let backdrop = canvas.with_rect(
        minimap_left(canvas) - 1,
        MINIMAP_TOP - 1,
        MINIMAP_SIZE + 2,
        MINIMAP_SIZE + 2,
        BORDER_COLOR@,
    );
    backdrop.plotted(tile_writes(canvas, map)).with_pixel(
        minimap_left(canvas) + player_dx,
        MINIMAP_TOP + player_dy,
        PLAYER_COLOR@,
    )
}

/// The color that stands for a tile on the minimap.
pub fn get_tile_color(tile: u8) -> (color: [u8; 4])
    ensures
        color@ == tile_color(tile),
{
    let color: [u8; 4] = match tile {
        0 => [40, 40, 40, 255],
        1 => [255, 255, 255, 255],
        2 => [0, 255, 0, 255],
        3 => [0, 0, 255, 255],
        4 => [255, 255, 0, 255],
        5 => [255, 0, 255, 255],
        _ => [128, 128, 128, 255],
    };
    assert(color@ =~= tile_color(tile));
    color
}

/// Draws the minimap over the canvas if the settings ask for it, with the
/// player's marker `player_dx` pixels right of and `player_dy` pixels below
/// the minimap's corner. Whatever of it would fall outside the canvas is
/// left out.
pub fn render_minimap(
    canvas: &mut PixelCanvas,
    map: &GameMap,
    settings: &RenderSettings,
    player_dx: i32,
    player_dy: i32,
)
    ensures
        final(canvas)@ == minimap_drawn(old(canvas)@, map@, *settings, player_dx as int, player_dy as int),
        final(canvas).inv(),
{
    proof {
        use_type_invariant(&*canvas);
        use_type_invariant(map);
    }
    if !settings.show_minimap {
        return;
    }
    let ghost before = canvas@;
    let left: i64 = canvas.width() as i64 - MINIMAP_SIZE as i64;
    let top: i64 = MINIMAP_TOP as i64;
    let side: i64 = MINIMAP_SIZE as i64 + 2;
    if left - 1 >= 0 {
        canvas.draw_rect((left - 1) as u32, MINIMAP_TOP - 1, MINIMAP_SIZE + 2, MINIMAP_SIZE + 2, BORDER_COLOR);
    } else {
        let visible: i64 = if side + (left - 1) > 0 {
            side + (left - 1)
        } else {
            0
        };
        canvas.draw_rect(0, MINIMAP_TOP - 1, visible as u32, MINIMAP_SIZE + 2, BORDER_COLOR);
        proof {
            before.lemma_with_rect_same_pixels(
                (0, top - 1, visible as int, side as int),
                (left - 1, top - 1, side as int, side as int),
                BORDER_COLOR@,
            );
        }
    }
    let ghost backdrop = canvas@;
    let ghost writes = tile_writes(before, map@);
    let map_width = map.width();
    let map_height = map.height();
    let mut map_y: usize = 0;
    proof {
        assert(map_y * map_width == 0) by (nonlinear_arith)
            requires
                map_y == 0,
        {
        }
        assert(writes.take(0) =~= Seq::empty());
    }
    while map_y < map_height
        invariant
            map_y <= map_height,
            map_width == map@.width,
            map_height == map@.height,
            left == minimap_left(before),
            top == MINIMAP_TOP,
            before.width <= u32::MAX,
            writes == tile_writes(before, map@),
            canvas@ == backdrop.plotted(writes.take(map_y * map_width)),
            canvas@.width == before.width,
            canvas@.height == before.height,
            canvas.inv(),
        decreases map_height - map_y,
    {
        let mut map_x: usize = 0;
        while map_x < map_width
            invariant
                map_x <= map_width,
                map_y < map_height,
                map_width == map@.width,
                map_height == map@.height,
                left == minimap_left(before),
                top == MINIMAP_TOP,
                before.width <= u32::MAX,
                writes == tile_writes(before, map@),
                canvas@ == backdrop.plotted(writes.take(map_y * map_width + map_x)),
                canvas@.width == before.width,
                canvas@.height == before.height,
                canvas.inv(),
            decreases map_width - map_x,
        {
            let ghost current = canvas@;
            let ghost n = map_y * map_width + map_x;
            let tile = map.get_tile(map_x, map_y);
            let color = get_tile_color(tile);
            let across: u128 = map_x as u128 * MINIMAP_SCALE as u128 / map_width as u128;
            let down: u128 = map_y as u128 * MINIMAP_SCALE as u128 / map_height as u128;
            proof {
                lemma_scaled_below(map_x as int, map_width as int);
                lemma_scaled_below(map_y as int, map_height as int);
                lemma_tile_number(map_x as int, map_y as int, map_width as int, map_height as int);
            }
            let pixel_x: i64 = left + across as i64;
            let pixel_y: i64 = top + down as i64;
            if pixel_x >= 0 {
                canvas.set_pixel(pixel_x as u32, pixel_y as u32, color);
            }
            proof {
                let done = writes.take(n + 1);
                assert(done.drop_last() =~= writes.take(n));
                assert(done.last() == tile_write(before, map@, map_x as int, map_y as int));
                assert(canvas@ == current.with_pixel(done.last().x, done.last().y, done.last().color));
            }
            map_x += 1;
        }
        proof {
            assert(map_y * map_width + map_width == (map_y + 1) * map_width) by (nonlinear_arith);
        }
        map_y += 1;
    }
    proof {
        assert(map_height * map_width == map_width * map_height) by (nonlinear_arith);
        assert(writes.take(map_height * map_width) =~= writes);
    }
    let player_x: i64 = left + player_dx as i64;
    let player_y: i64 = top + player_dy as i64;
    if 0 <= player_x && player_x <= u32::MAX as i64 && 0 <= player_y && player_y <= u32::MAX as i64 {
        canvas.set_pixel(player_x as u32, player_y as u32, PLAYER_COLOR);
    }
}

/// Tile `(x, y)` is tile number `y * width + x` in row-major order, and the
/// number leads back to the tile.
proof fn lemma_tile_number(x: int, y: int, width: int, height: int)
    requires
        0 <= x < width,
        0 <= y < height,
    ensures
        0 <= y * width + x < width * height,
        (y * width + x) % width == x,
        (y * width + x) / width == y,
{
    lemma_mul_inequality(y, height - 1, width);
    assert((height - 1) * width == width * height - width) by (nonlinear_arith);
    assert(y * width >= 0) by (nonlinear_arith)
        requires
            y >= 0,
            width >= 0,
    {
    }
    lemma_fundamental_div_mod_converse(y * width + x, width, y, x);
}

/// A position on the map, scaled down, stays below [`MINIMAP_SCALE`].
proof fn lemma_scaled_below(position: int, size: int)
    requires
        0 <= position < size,
    ensures
        0 <= position * MINIMAP_SCALE / size < MINIMAP_SCALE,
{
    assert(0 <= position * 4 / size < 4) by (nonlinear_arith)
        requires
            0 <= position < size,
    {
    }
}

} // verus!

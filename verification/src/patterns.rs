//! Test patterns: a start-up picture, three colored blocks, and a scatter of
//! pixels that depends on a number handed in by the caller.

use vstd::prelude::*;
use crate::canvas::{CanvasView, PixelCanvas, PixelWrite};

verus! {

/// Background of the start-up picture.
pub const BACKDROP_COLOR: [u8; 4] = [0, 0, 40, 255];

/// How many pixels one scatter draws.
pub const SCATTER_COUNT: u32 = 10;

/// `value + step` on 32 bits: the sum, less `2^32` where it would not fit.
pub open spec fn wrapped(value: int, step: int) -> int {
    if value + step > u32::MAX {
        value + step - 0x1_0000_0000
    } else {
        value + step
    }
}

/// Color of the `i`-th pixel of the scatter for `seed`.
pub open spec fn scatter_color(seed: int, i: int) -> Seq<u8> {
    seq![
        (wrapped(seed, i * 17) % 256) as u8,
        (wrapped(seed, i * 31) % 256) as u8,
        (wrapped(seed, i * 43) % 256) as u8,
        255u8,
    ]
}

/// The first `count` pixel writes of the scatter for `seed` on a canvas:
/// the `i`-th goes where the seed, moved on by a multiple of `i`, falls
/// within the canvas's width and height.
pub open spec fn scatter_writes(canvas: CanvasView, seed: int, count: nat) -> Seq<PixelWrite> {
    Seq::new(
        count,
        |i: int|
            PixelWrite {
                x: wrapped(seed, i * 37) % (canvas.width as int),
                y: wrapped(seed, i * 73) % (canvas.height as int),
                color: scatter_color(seed, i),
            },
    )
}

/// The start-up picture: a dark blue backdrop, a red and a green block, and
/// one white pixel.
pub open spec fn start_picture(canvas: CanvasView) -> CanvasView {
    canvas.cleared(BACKDROP_COLOR@).with_rect(50, 50, 100, 80, seq![255u8, 0u8, 0u8, 255u8]).with_rect(
        200,
        100,
        60,
        60,
        seq![0u8, 255u8, 0u8, 255u8],
    ).with_pixel(10, 10, seq![255u8, 255u8, 255u8, 255u8])
}

/// Draws the start-up picture.
pub fn draw_start_picture(canvas: &mut PixelCanvas)
    ensures
        final(canvas)@ == start_picture(old(canvas)@),
        final(canvas).inv(),
{
    canvas.clear(BACKDROP_COLOR);
    let red: [u8; 4] = [255, 0, 0, 255];
    let green: [u8; 4] = [0, 255, 0, 255];
    let white: [u8; 4] = [255, 255, 255, 255];
    assert(red@ =~= seq![255u8, 0u8, 0u8, 255u8]);
    assert(green@ =~= seq![0u8, 255u8, 0u8, 255u8]);
    assert(white@ =~= seq![255u8, 255u8, 255u8, 255u8]);
    canvas.draw_rect(50, 50, 100, 80, red);
    canvas.draw_rect(200, 100, 60, 60, green);
    canvas.set_pixel(10, 10, white);
}

/// Draws a light red block, 50 by 50, a quarter of the way across and down.
pub fn draw_red_pattern(canvas: &mut PixelCanvas)
    ensures
        final(canvas)@ == old(canvas)@.with_rect(
            old(canvas)@.width as int / 4,
            old(canvas)@.height as int / 4,
            50,
            50,
            seq![255u8, 100u8, 100u8, 255u8],
        ),
        final(canvas).inv(),
{
    let x = canvas.width() / 4;
    let y = canvas.height() / 4;
    let color: [u8; 4] = [255, 100, 100, 255];
    assert(color@ =~= seq![255u8, 100u8, 100u8, 255u8]);
    canvas.draw_rect(x, y, 50, 50, color);
}

/// Draws a light green block, 40 by 60, halfway across and a quarter down.
pub fn draw_green_pattern(canvas: &mut PixelCanvas)
    ensures
        final(canvas)@ == old(canvas)@.with_rect(
            old(canvas)@.width as int / 2,
            old(canvas)@.height as int / 4,
            40,
            60,
            seq![100u8, 255u8, 100u8, 255u8],
        ),
        final(canvas).inv(),
{
    let x = canvas.width() / 2;
    let y = canvas.height() / 4;
    let color: [u8; 4] = [100, 255, 100, 255];
    assert(color@ =~= seq![100u8, 255u8, 100u8, 255u8]);
    canvas.draw_rect(x, y, 40, 60, color);
}

/// Draws a light blue block, 30 by 70, three quarters across and a quarter down.
pub fn draw_blue_pattern(canvas: &mut PixelCanvas)
    ensures
        final(canvas)@ == old(canvas)@.with_rect(
            old(canvas)@.width as int * 3 / 4,
            old(canvas)@.height as int / 4,
            30,
            70,
            seq![100u8, 100u8, 255u8, 255u8],
        ),
        final(canvas).inv(),
{
    let x = (canvas.width() as u64 * 3 / 4) as u32;
    let y = canvas.height() / 4;
    let color: [u8; 4] = [100, 100, 255, 255];
    assert(color@ =~= seq![100u8, 100u8, 255u8, 255u8]);
    canvas.draw_rect(x, y, 30, 70, color);
}

/// Scatters [`SCATTER_COUNT`] pixels over the canvas. Where they fall and
/// what color they get follows from `seed` alone, so a seed taken from a
/// clock gives a picture that looks random. On a canvas without pixels
/// nothing is drawn.
pub fn draw_random_pixels(canvas: &mut PixelCanvas, seed: u32)
    ensures
        final(canvas)@ == old(canvas)@.plotted(scatter_writes(old(canvas)@, seed as int, SCATTER_COUNT as nat)),
        final(canvas).inv(),
{
    proof {
        use_type_invariant(&*canvas);
    }
    let ghost before = canvas@;
    let width = canvas.width();
    let height = canvas.height();
    let mut i: u32 = 0;
    assert(scatter_writes(before, seed as int, 0) =~= Seq::empty());
    while i < SCATTER_COUNT
        invariant
            i <= SCATTER_COUNT,
            width == before.width,
            height == before.height,
            canvas@.width == before.width,
            canvas@.height == before.height,
            canvas@ == before.plotted(scatter_writes(before, seed as int, i as nat)),
            canvas.inv(),
        decreases SCATTER_COUNT - i,
    {
        let ghost current = canvas@;
        if width > 0 && height > 0 {
            let x = seed.wrapping_add(i * 37) % width;
            let y = seed.wrapping_add(i * 73) % height;
            let red = (seed.wrapping_add(i * 17) % 256) as u8;
            let green = (seed.wrapping_add(i * 31) % 256) as u8;
            let blue = (seed.wrapping_add(i * 43) % 256) as u8;
            let color: [u8; 4] = [red, green, blue, 255];
            assert(color@ =~= scatter_color(seed as int, i as int));
            canvas.set_pixel(x, y, color);
        }
        proof {
            let writes = scatter_writes(before, seed as int, (i + 1) as nat);
            assert(writes.drop_last() =~= scatter_writes(before, seed as int, i as nat));
            assert(canvas@ == current.with_pixel(writes.last().x, writes.last().y, writes.last().color));
        }
        i += 1;
    }
}

} // verus!

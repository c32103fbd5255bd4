//! Projection of ray hits onto the canvas, one screen column at a time: sky
//! above, a wall band around the horizon whose height shrinks with distance,
//! floor below.

use vstd::prelude::*;
use crate::canvas::{CanvasView, PixelCanvas};
use crate::raycast::Side;

verus! {

/// Color of everything above the walls.
pub const SKY_COLOR: [u8; 4] = [135, 206, 235, 255];

/// Color of everything below the walls.
pub const FLOOR_COLOR: [u8; 4] = [34, 139, 34, 255];

/// The most rows by which looking up or down shifts the horizon.
pub const PITCH_LIMIT: i32 = 200;

/// What a screen column shows of the wall that its ray met.
#[derive(Clone, Copy, Debug, PartialEq, Eq, Structural)]
pub struct ColumnHit {
    /// Height of the viewport divided by the distance to the wall, in rows.
    pub projected_height: u32,
    /// Tile id of the wall.
    pub wall_type: u8,
    /// Side of the wall that faces the viewer.
    pub side: Side,
}

/// `v`, or the bound that it lies beyond; the lower bound wins where the two cross.
pub open spec fn clamp(v: int, low: int, high: int) -> int {
    if v < low {
        low
    } else if v > high {
        high
    } else {
        v
    }
}

/// The red, green and blue of a wall variant at full brightness.
pub open spec fn base_color(wall_type: u8) -> Seq<u8> {
    if wall_type == 1 {
        seq![255u8, 0u8, 0u8]
    } else if wall_type == 2 {
        seq![0u8, 255u8, 0u8]
    } else if wall_type == 3 {
        seq![0u8, 0u8, 255u8]
    } else if wall_type == 4 {
        seq![255u8, 255u8, 0u8]
    } else if wall_type == 5 {
        seq![255u8, 0u8, 255u8]
    } else {
        seq![128u8, 128u8, 128u8]
    }
}

/// A channel as it shows on the given side: in full on a north-south face,
/// at seven tenths, rounded down, on an east-west face.
pub open spec fn shaded(channel: u8, side: Side) -> u8 {
    match side {
        Side::NorthSouth => channel,
        Side::EastWest => (channel * 7 / 10) as u8,
    }
}

/// The opaque color of a wall variant seen on the given side.
pub open spec fn wall_color(wall_type: u8, side: Side) -> Seq<u8> {
    let base = base_color(wall_type);
    seq![shaded(base[0], side), shaded(base[1], side), shaded(base[2], side), 255u8]
}

/// The row of the horizon on a viewport of `height` rows: the middle row,
/// shifted by the pitch offset as far as [`PITCH_LIMIT`] allows, and kept
/// on the viewport.
pub open spec fn horizon(height: int, raw_pitch_offset: int) -> int {
    if height <= 0 {
        0
    } else {
        clamp(height / 2 + clamp(raw_pitch_offset, -PITCH_LIMIT, PITCH_LIMIT as int), 0, height - 1)
    }
}

/// Height of the wall band before it is cut to the viewport: the projected
/// height, but never more than twice the viewport.
pub open spec fn line_height(height: int, projected_height: int) -> int {
    if projected_height <= 2 * height {
        projected_height
    } else {
        2 * height
    }
}

/// First row of the wall band.
pub open spec fn draw_start(height: int, horizon: int, projected_height: int) -> int {
    clamp(horizon - line_height(height, projected_height) / 2, 0, height - 1)
}

/// Last row of the wall band.
pub open spec fn draw_end(height: int, horizon: int, projected_height: int) -> int {
    clamp(horizon + line_height(height, projected_height) / 2, 0, height - 1)
}

/// The color of row `y` in a column of a finished frame: sky in a column
/// whose ray met nothing; else sky above the wall band, the wall's color in
/// it, floor below.
pub open spec fn frame_color(height: int, horizon: int, column: Option<ColumnHit>, y: int) -> Seq<u8> {
    match column {
        None => SKY_COLOR@,
        Some(hit) => {
            if y < draw_start(height, horizon, hit.projected_height as int) {
                SKY_COLOR@
            } else if y <= draw_end(height, horizon, hit.projected_height as int) {
                wall_color(hit.wall_type, hit.side)
            } else {
                FLOOR_COLOR@
            }
        },
    }
}

/// What is known of screen column `x`: its entry in `columns`, nothing where
/// there is no entry.
pub open spec fn column_at(columns: Seq<Option<ColumnHit>>, x: int) -> Option<ColumnHit> {
    if 0 <= x < columns.len() {
        columns[x]
    } else {
        None
    }
}

/// The canvas after one column was drawn over it: floor from below the wall
/// band to the bottom, then the band itself. Rows above the band keep what
/// they held.
pub open spec fn with_column(canvas: CanvasView, x: int, horizon: int, hit: ColumnHit) -> CanvasView {
    let height = canvas.height as int;
    let start = draw_start(height, horizon, hit.projected_height as int);
    let end = draw_end(height, horizon, hit.projected_height as int);
    canvas.with_rect(x, end + 1, 1, height - 1 - end, FLOOR_COLOR@).with_rect(
        x,
        start,
        1,
        end - start + 1,
        wall_color(hit.wall_type, hit.side),
    )
}

/// The finished frame: every pixel has the color that its column's hit, the
/// horizon and its row give it. Nothing of what the canvas held before is left.
pub open spec fn rendered(
    canvas: CanvasView,
    raw_pitch_offset: int,
    columns: Seq<Option<ColumnHit>>,
) -> CanvasView {
    CanvasView {
        bytes: Seq::new(
            canvas.bytes.len(),
            |i: int|
                frame_color(
                    canvas.height as int,
                    horizon(canvas.height as int, raw_pitch_offset),
                    column_at(columns, canvas.column_of(i)),
                    canvas.row_of(i),
                )[i % 4],
        ),
        ..canvas
    }
}

/// The canvas after the columns named in `order` were drawn over it, one
/// after the other, each as `columns` describes it.
pub open spec fn columns_drawn(
    canvas: CanvasView,
    horizon: int,
    columns: Seq<Option<ColumnHit>>,
    order: Seq<int>,
) -> CanvasView
    decreases order.len(),
{
    if order.len() == 0 {
        canvas
    } else {
        let earlier = columns_drawn(canvas, horizon, columns, order.drop_last());
        match column_at(columns, order.last()) {
            Some(hit) => with_column(earlier, order.last(), horizon, hit),
            None => earlier,
        }
    }
}

/// A sequence holds a value when its last entry is the value or an earlier one is.
proof fn lemma_contains_last(order: Seq<int>, value: int)
    requires
        order.len() > 0,
    ensures
        order.contains(value) <==> (order.drop_last().contains(value) || order.last() == value),
{
    let earlier = order.drop_last();
    if order.contains(value) {
        let j = choose|j: int| 0 <= j < order.len() && order[j] == value;
        if j < order.len() - 1 {
            assert(earlier[j] == value);
        }
    }
    if earlier.contains(value) {
        let j = choose|j: int| 0 <= j < earlier.len() && earlier[j] == value;
        assert(order[j] == value);
    }
    if order.last() == value {
        assert(order[order.len() - 1] == value);
    }
}

/// On a canvas that was all sky, the columns drawn so far look as they do in
/// the finished frame, whatever the order, and the others are still sky.
proof fn lemma_columns_drawn_bytes(
    canvas: CanvasView,
    horizon: int,
    columns: Seq<Option<ColumnHit>>,
    order: Seq<int>,
)
    requires
        canvas.well_formed(),
        forall|i: int| 0 <= i < canvas.bytes.len() ==> #[trigger] canvas.bytes[i] == SKY_COLOR@[i % 4],
    ensures
        columns_drawn(canvas, horizon, columns, order).width == canvas.width,
        columns_drawn(canvas, horizon, columns, order).height == canvas.height,
        columns_drawn(canvas, horizon, columns, order).bytes.len() == canvas.bytes.len(),
        forall|i: int|
            0 <= i < canvas.bytes.len() ==> #[trigger] columns_drawn(canvas, horizon, columns, order).bytes[i]
                == if order.contains(canvas.column_of(i)) {
                frame_color(
                    canvas.height as int,
                    horizon,
                    column_at(columns, canvas.column_of(i)),
                    canvas.row_of(i),
                )[i % 4]
            } else {
                SKY_COLOR@[i % 4]
            },
    decreases order.len(),
{
    let drawn = columns_drawn(canvas, horizon, columns, order);
    if order.len() == 0 {
        assert forall|i: int| 0 <= i < canvas.bytes.len() implies !order.contains(canvas.column_of(i)) by {}
    } else {
        let earlier = columns_drawn(canvas, horizon, columns, order.drop_last());
        lemma_columns_drawn_bytes(canvas, horizon, columns, order.drop_last());
        assert forall|i: int| 0 <= i < canvas.bytes.len() implies #[trigger] drawn.bytes[i] == if order.contains(
            canvas.column_of(i),
        ) {
            frame_color(
                canvas.height as int,
                horizon,
                column_at(columns, canvas.column_of(i)),
                canvas.row_of(i),
            )[i % 4]
        } else {
            SKY_COLOR@[i % 4]
        } by {
            canvas.lemma_byte_position(i);
            lemma_contains_last(order, canvas.column_of(i));
            assert(earlier.column_of(i) == canvas.column_of(i));
            assert(earlier.row_of(i) == canvas.row_of(i));
        }
    }
}

/// Column independence: draw the columns of a frame over a sky-colored
/// canvas in any order, each at least once, and the finished frame is the
/// same. No column's pixels depend on what another column drew.
pub proof fn lemma_column_order(
    canvas: CanvasView,
    raw_pitch_offset: int,
    columns: Seq<Option<ColumnHit>>,
    order: Seq<int>,
)
    requires
        canvas.well_formed(),
        forall|x: int| 0 <= x < canvas.width ==> order.contains(x),
    ensures
        columns_drawn(
            canvas.cleared(SKY_COLOR@),
            horizon(canvas.height as int, raw_pitch_offset),
            columns,
            order,
        ) == rendered(canvas, raw_pitch_offset, columns),
{
    let sky = canvas.cleared(SKY_COLOR@);
    let level = horizon(canvas.height as int, raw_pitch_offset);
    let drawn = columns_drawn(sky, level, columns, order);
    let frame = rendered(canvas, raw_pitch_offset, columns);
    lemma_columns_drawn_bytes(sky, level, columns, order);
    assert forall|i: int| 0 <= i < canvas.bytes.len() implies drawn.bytes[i] == frame.bytes[i] by {
        canvas.lemma_byte_position(i);
        assert(sky.column_of(i) == canvas.column_of(i));
        assert(sky.row_of(i) == canvas.row_of(i));
    }
    assert(drawn.bytes =~= frame.bytes);
}

/// Idempotence: a second pass with the same pitch offset and the same
/// columns leaves the frame byte for byte as the first pass made it.
pub proof fn lemma_render_twice(canvas: CanvasView, raw_pitch_offset: int, columns: Seq<Option<ColumnHit>>)
    ensures
        rendered(rendered(canvas, raw_pitch_offset, columns), raw_pitch_offset, columns) == rendered(
            canvas,
            raw_pitch_offset,
            columns,
        ),
{
    let once = rendered(canvas, raw_pitch_offset, columns);
    let twice = rendered(once, raw_pitch_offset, columns);
    assert(twice.bytes =~= once.bytes);
}

/// A frame keeps nothing of the canvas it was drawn on: two canvases of one
/// size show the same frame.
pub proof fn lemma_render_forgets(
    first: CanvasView,
    second: CanvasView,
    raw_pitch_offset: int,
    columns: Seq<Option<ColumnHit>>,
)
    requires
        first.width == second.width,
        first.height == second.height,
        first.bytes.len() == second.bytes.len(),
    ensures
        rendered(first, raw_pitch_offset, columns) == rendered(second, raw_pitch_offset, columns),
{
    assert(rendered(first, raw_pitch_offset, columns).bytes =~= rendered(
        second,
        raw_pitch_offset,
        columns,
    ).bytes);
}

/// In a finished frame every pixel has the color that its column and row
/// call for.
pub proof fn lemma_rendered_reads(
    canvas: CanvasView,
    raw_pitch_offset: int,
    columns: Seq<Option<ColumnHit>>,
    x: int,
    y: int,
)
    requires
        canvas.well_formed(),
        canvas.contains(x, y),
    ensures
        rendered(canvas, raw_pitch_offset, columns).pixel(x, y) == frame_color(
            canvas.height as int,
            horizon(canvas.height as int, raw_pitch_offset),
            column_at(columns, x),
            y,
        ),
{
    let frame = rendered(canvas, raw_pitch_offset, columns);
    let color = frame_color(
        canvas.height as int,
        horizon(canvas.height as int, raw_pitch_offset),
        column_at(columns, x),
        y,
    );
    assert forall|k: int| 0 <= k < 4 implies frame.bytes[frame.offset(x, y) + k] == #[trigger] color[k] by {
        canvas.lemma_pixel_bytes(x, y, k);
    }
    frame.lemma_pixel_from_bytes(x, y, color);
}

/// A nearer wall never shows a smaller band: with a larger projected height
/// the band starts no lower and ends no higher up.
pub proof fn lemma_band_grows(height: int, horizon: int, smaller: int, larger: int)
    requires
        0 <= smaller <= larger,
    ensures
        draw_start(height, horizon, larger) <= draw_start(height, horizon, smaller),
        draw_end(height, horizon, smaller) <= draw_end(height, horizon, larger),
{
}

/// The color of a wall: a fixed color for each of the variants 1 to 5 and
/// gray for any other, darkened on east-west faces, always opaque.
pub fn get_wall_color(wall_type: u8, side: Side) -> (color: [u8; 4])
    ensures
        color@ == wall_color(wall_type, side),
{
    let base: [u8; 3] = match wall_type {
        1 => [255, 0, 0],
        2 => [0, 255, 0],
        3 => [0, 0, 255],
        4 => [255, 255, 0],
        5 => [255, 0, 255],
        _ => [128, 128, 128],
    };
    assert(base@ =~= base_color(wall_type));
    let color = match side {
        Side::NorthSouth => [base[0], base[1], base[2], 255],
        Side::EastWest => [
            (base[0] as u16 * 7 / 10) as u8,
            (base[1] as u16 * 7 / 10) as u8,
            (base[2] as u16 * 7 / 10) as u8,
            255,
        ],
    };
    assert(color@ =~= wall_color(wall_type, side));
    color
}

/// The horizon's row for a viewport of `height` rows and a pitch offset in
/// rows, which is limited to [`PITCH_LIMIT`] either way before it is applied.
pub fn horizon_row(height: u32, raw_pitch_offset: i32) -> (row: u32)
    ensures
        row == horizon(height as int, raw_pitch_offset as int),
{
    if height == 0 {
        return 0;
    }
    let offset: i64 = if raw_pitch_offset < -PITCH_LIMIT {
        -PITCH_LIMIT as i64
    } else if raw_pitch_offset > PITCH_LIMIT {
        PITCH_LIMIT as i64
    } else {
        raw_pitch_offset as i64
    };
    let middle: i64 = (height / 2) as i64 + offset;
    if middle < 0 {
        0
    } else if middle > height as i64 - 1 {
        height - 1
    } else {
        middle as u32
    }
}

/// First and last row of the wall band in a column whose wall has the given
/// projected height.
pub fn wall_span(height: u32, horizon: u32, projected_height: u32) -> (span: (u32, u32))
    requires
        height > 0,
    ensures
        span.0 == draw_start(height as int, horizon as int, projected_height as int),
        span.1 == draw_end(height as int, horizon as int, projected_height as int),
        span.0 <= span.1 < height,
{
    let line: i64 = if projected_height as i64 <= 2 * (height as i64) {
        projected_height as i64
    } else {
        2 * (height as i64)
    };
    let wall_half: i64 = line / 2;
    let last: i64 = height as i64 - 1;
    let top: i64 = horizon as i64 - wall_half;
    let bottom: i64 = horizon as i64 + wall_half;
    let start: i64 = if top < 0 {
        0
    } else if top > last {
        last
    } else {
        top
    };
    let end: i64 = if bottom < 0 {
        0
    } else if bottom > last {
        last
    } else {
        bottom
    };
    (start as u32, end as u32)
}

/// Draws screen column `x` for a ray that met a wall: floor below the wall
/// band, then the band in the wall's color.
pub fn draw_column(canvas: &mut PixelCanvas, x: u32, horizon: u32, hit: ColumnHit)
    ensures
        final(canvas)@ == with_column(old(canvas)@, x as int, horizon as int, hit),
        final(canvas).inv(),
{
    let height = canvas.height();
    if height == 0 {
        proof {
            use_type_invariant(&*canvas);
            assert(canvas@.bytes.len() == 0) by (nonlinear_arith)
                requires
                    canvas@.bytes.len() == canvas@.width * canvas@.height * 4,
                    canvas@.height == 0,
            {
            }
            assert(canvas@.bytes =~= with_column(canvas@, x as int, horizon as int, hit).bytes);
        }
        return;
    }
    let (start, end) = wall_span(height, horizon, hit.projected_height);
    let wall = get_wall_color(hit.wall_type, hit.side);
    canvas.draw_rect(x, end + 1, 1, height - 1 - end, FLOOR_COLOR);
    canvas.draw_rect(x, start, 1, end - start + 1, wall);
}

/// Draws a whole frame: clears the canvas to the sky, places the horizon,
/// and draws every column of the canvas for which `columns` holds a hit.
/// Column `x` of the canvas is entry `x` of `columns`; a column without an
/// entry, or whose ray met nothing, stays sky from top to bottom.
pub fn render_3d_view(canvas: &mut PixelCanvas, raw_pitch_offset: i32, columns: &Vec<Option<ColumnHit>>)
    ensures
        final(canvas)@ == rendered(old(canvas)@, raw_pitch_offset as int, columns@),
        forall|x: int, y: int|
            old(canvas)@.contains(x, y) ==> #[trigger] final(canvas)@.pixel(x, y) == frame_color(
                old(canvas)@.height as int,
                horizon(old(canvas)@.height as int, raw_pitch_offset as int),
                column_at(columns@, x),
                y,
            ),
        final(canvas).inv(),
{
    proof {
        use_type_invariant(&*canvas);
    }
    let ghost before = canvas@;
    canvas.clear(SKY_COLOR);
    let width = canvas.width();
    let height = canvas.height();
    let horizon = horizon_row(height, raw_pitch_offset);
    let mut x: u32 = 0;
    while x < width
        invariant
            before.well_formed(),
            x <= width,
            width == before.width,
            height == before.height,
            horizon == self::horizon(before.height as int, raw_pitch_offset as int),
            canvas@.width == before.width,
            canvas@.height == before.height,
            canvas@.bytes.len() == before.bytes.len(),
            canvas.inv(),
            forall|i: int|
                0 <= i < before.bytes.len() ==> #[trigger] canvas@.bytes[i] == if before.column_of(i) < x {
                    frame_color(
                        before.height as int,
                        horizon as int,
                        column_at(columns@, before.column_of(i)),
                        before.row_of(i),
                    )[i % 4]
                } else {
                    SKY_COLOR@[i % 4]
                },
        decreases width - x,
    {
        let ghost current = canvas@;
        if (x as usize) < columns.len() {
            match columns[x as usize] {
                Some(hit) => {
                    draw_column(canvas, x, horizon, hit);
                },
                None => {},
            }
        }
        proof {
            assert forall|i: int| 0 <= i < before.bytes.len() implies #[trigger] canvas@.bytes[i]
                == if before.column_of(i) < x + 1 {
                frame_color(
                    before.height as int,
                    horizon as int,
                    column_at(columns@, before.column_of(i)),
                    before.row_of(i),
                )[i % 4]
            } else {
                SKY_COLOR@[i % 4]
            } by {
                before.lemma_byte_position(i);
                assert(current.column_of(i) == before.column_of(i));
                assert(current.row_of(i) == before.row_of(i));
            }
        }
        x += 1;
    }
    proof {
        assert forall|i: int| 0 <= i < before.bytes.len() implies #[trigger] canvas@.bytes[i] == rendered(
            before,
            raw_pitch_offset as int,
            columns@,
        ).bytes[i] by {
            before.lemma_byte_position(i);
        }
        assert(canvas@.bytes =~= rendered(before, raw_pitch_offset as int, columns@).bytes);
        assert forall|x: int, y: int| before.contains(x, y) implies #[trigger] canvas@.pixel(x, y) == frame_color(
            before.height as int,
            self::horizon(before.height as int, raw_pitch_offset as int),
            column_at(columns@, x),
            y,
        ) by {
            lemma_rendered_reads(before, raw_pitch_offset as int, columns@, x, y);
        }
    }
}

} // verus!

//! The pixel canvas: a row-major RGBA byte buffer with its origin at the top
//! left, and drawing primitives that ignore whatever falls outside it.

use vstd::prelude::*;
use vstd::arithmetic::div_mod::{
    lemma_fundamental_div_mod,
    lemma_fundamental_div_mod_converse,
    lemma_mod_bound,
    lemma_multiply_divide_lt,
};
use vstd::arithmetic::mul::lemma_mul_inequality;

verus! {

/// Bytes per pixel: red, green, blue, alpha.
pub const CHANNELS: usize = 4;

/// Whether `(px, py)` lies in the rectangle with top left corner `(x, y)`,
/// width `w` and height `h`.
pub open spec fn in_rect(x: int, y: int, w: int, h: int, px: int, py: int) -> bool {
    x <= px < x + w && y <= py < y + h
}

/// One write of a color to a pixel, as `set_pixel` makes it.
pub struct PixelWrite {
    pub x: int,
    pub y: int,
    pub color: Seq<u8>,
}

/// Mathematical model of a [`PixelCanvas`]: its size and its bytes.
pub struct CanvasView {
    pub width: nat,
    pub height: nat,
    pub bytes: Seq<u8>,
}

impl CanvasView {
    /// The buffer holds four bytes for each pixel, no more and no less.
    pub open spec fn well_formed(self) -> bool {
        self.bytes.len() == self.width * self.height * 4
    }

    /// Whether `(x, y)` names a pixel of the canvas.
    pub open spec fn contains(self, x: int, y: int) -> bool {
        0 <= x < self.width && 0 <= y < self.height
    }

    /// Index of the first byte of pixel `(x, y)`.
    pub open spec fn offset(self, x: int, y: int) -> int {
        (y * self.width + x) * 4
    }

    /// The four bytes of pixel `(x, y)`.
    pub open spec fn pixel(self, x: int, y: int) -> Seq<u8> {
        self.bytes.subrange(self.offset(x, y), self.offset(x, y) + 4)
    }

    /// Column of the pixel that byte `i` belongs to.
    pub open spec fn column_of(self, i: int) -> int {
        (i / 4) % (self.width as int)
    }

    /// Row of the pixel that byte `i` belongs to.
    pub open spec fn row_of(self, i: int) -> int {
        (i / 4) / (self.width as int)
    }

    /// The canvas of the given size with every byte zero.
    pub open spec fn blank(width: nat, height: nat) -> CanvasView {
        CanvasView { width, height, bytes: Seq::new(width * height * 4, |i: int| 0u8) }
    }

    /// The canvas after pixel `(x, y)` was given `color`: four bytes change
    /// at the pixel's offset, and nothing changes when the pixel lies outside.
    pub open spec fn with_pixel(self, x: int, y: int, color: Seq<u8>) -> CanvasView {
        if self.contains(x, y) {
            let start = self.offset(x, y);
            CanvasView {
                bytes: Seq::new(
                    self.bytes.len(),
                    |i: int|
                        if start <= i < start + 4 {
                            color[i - start]
                        } else {
                            self.bytes[i]
                        },
                ),
                ..self
            }
        } else {
            self
        }
    }

    /// The canvas after the given pixels were written, first to last.
    pub open spec fn plotted(self, writes: Seq<PixelWrite>) -> CanvasView
        decreases writes.len(),
    {
        if writes.len() == 0 {
            self
        } else {
            self.plotted(writes.drop_last()).with_pixel(writes.last().x, writes.last().y, writes.last().color)
        }
    }

    /// The canvas with every pixel set to `color`.
    pub open spec fn cleared(self, color: Seq<u8>) -> CanvasView {
        CanvasView { bytes: Seq::new(self.bytes.len(), |i: int| color[i % 4]), ..self }
    }

    /// The canvas with `color` in every pixel of the rectangle whose top left
    /// corner is `(x, y)` and whose sides are `w` and `h`; pixels of the
    /// rectangle that would lie outside the canvas do not exist.
    pub open spec fn with_rect(self, x: int, y: int, w: int, h: int, color: Seq<u8>) -> CanvasView {
        CanvasView {
            bytes: Seq::new(
                self.bytes.len(),
                |i: int|
                    if in_rect(x, y, w, h, self.column_of(i), self.row_of(i)) {
                        color[i % 4]
                    } else {
                        self.bytes[i]
                    },
            ),
            ..self
        }
    }

    /// Every byte belongs to exactly one pixel of the canvas: the one in its
    /// column and row, at whose offset plus the channel number the byte sits.
    pub proof fn lemma_byte_position(self, i: int)
        requires
            self.well_formed(),
            0 <= i < self.bytes.len(),
        ensures
            self.contains(self.column_of(i), self.row_of(i)),
            self.offset(self.column_of(i), self.row_of(i)) + i % 4 == i,
    {
        let w = self.width as int;
        let h = self.height as int;
        let p = i / 4;
        assert(w > 0) by (nonlinear_arith)
            requires
                0 <= i < w * h * 4,
                w >= 0,
        {
        }
        assert(p < w * h);
        lemma_fundamental_div_mod(p, w);
        lemma_mod_bound(p, w);
        lemma_multiply_divide_lt(p, w, h);
        assert(p / w >= 0) by (nonlinear_arith)
            requires
                p >= 0,
                w > 0,
        {
        }
        assert(w * (p / w) == (p / w) * w) by (nonlinear_arith);
    }

    /// The bytes of a pixel of the canvas lie inside the buffer, and each of
    /// them leads back to the pixel.
    pub proof fn lemma_pixel_bytes(self, x: int, y: int, k: int)
        requires
            self.well_formed(),
            self.contains(x, y),
            0 <= k < 4,
        ensures
            0 <= self.offset(x, y) + k < self.bytes.len(),
            self.column_of(self.offset(x, y) + k) == x,
            self.row_of(self.offset(x, y) + k) == y,
            (self.offset(x, y) + k) % 4 == k,
    {
        let w = self.width as int;
        let h = self.height as int;
        let p = y * w + x;
        lemma_mul_inequality(y, h - 1, w);
        assert((h - 1) * w == w * h - w) by (nonlinear_arith);
        assert(y * w >= 0) by (nonlinear_arith)
            requires
                y >= 0,
                w >= 0,
        {
        }
        assert(0 <= p < w * h);
        lemma_fundamental_div_mod_converse(p, w, y, x);
    }

    /// Writing a pixel changes the bytes of that pixel, each to the channel
    /// of the color that it stands for, and no other byte.
    pub proof fn lemma_with_pixel_byte(self, x: int, y: int, color: Seq<u8>, i: int)
        requires
            self.well_formed(),
            self.contains(x, y),
            0 <= i < self.bytes.len(),
        ensures
            self.with_pixel(x, y, color).bytes[i] == if self.column_of(i) == x && self.row_of(i) == y {
                color[i % 4]
            } else {
                self.bytes[i]
            },
    {
        let start = self.offset(x, y);
        self.lemma_byte_position(i);
        if start <= i < start + 4 {
            self.lemma_pixel_bytes(x, y, i - start);
        }
    }

    /// Two rectangles that hold the same pixels of the canvas fill it alike.
    pub proof fn lemma_with_rect_same_pixels(
        self,
        first: (int, int, int, int),
        second: (int, int, int, int),
        color: Seq<u8>,
    )
        requires
            self.well_formed(),
            forall|px: int, py: int|
                self.contains(px, py) ==> (#[trigger] in_rect(first.0, first.1, first.2, first.3, px, py)
                    <==> in_rect(second.0, second.1, second.2, second.3, px, py)),
        ensures
            self.with_rect(first.0, first.1, first.2, first.3, color) == self.with_rect(
                second.0,
                second.1,
                second.2,
                second.3,
                color,
            ),
    {
        let one = self.with_rect(first.0, first.1, first.2, first.3, color);
        let other = self.with_rect(second.0, second.1, second.2, second.3, color);
        assert forall|i: int| 0 <= i < self.bytes.len() implies one.bytes[i] == other.bytes[i] by {
            self.lemma_byte_position(i);
            assert(in_rect(first.0, first.1, first.2, first.3, self.column_of(i), self.row_of(i)) <==> in_rect(
                second.0,
                second.1,
                second.2,
                second.3,
                self.column_of(i),
                self.row_of(i),
            ));
        }
        assert(one.bytes =~= other.bytes);
    }

    /// A pixel whose four bytes are the channels of `color` has that color.
    pub proof fn lemma_pixel_from_bytes(self, x: int, y: int, color: Seq<u8>)
        requires
            self.well_formed(),
            self.contains(x, y),
            color.len() == 4,
            forall|k: int| 0 <= k < 4 ==> self.bytes[self.offset(x, y) + k] == #[trigger] color[k],
        ensures
            self.pixel(x, y) == color,
    {
        self.lemma_pixel_bytes(x, y, 0);
        self.lemma_pixel_bytes(x, y, 3);
        assert(self.pixel(x, y) =~= color);
    }

    /// Writing a pixel gives that pixel the color and leaves every other
    /// pixel as it was.
    pub proof fn lemma_with_pixel_reads(self, x: int, y: int, color: Seq<u8>, px: int, py: int)
        requires
            self.well_formed(),
            self.contains(px, py),
            px == x && py == y ==> color.len() == 4,
        ensures
            self.with_pixel(x, y, color).pixel(px, py) == if px == x && py == y {
                color
            } else {
                self.pixel(px, py)
            },
    {
        let after = self.with_pixel(x, y, color);
        let expected = if px == x && py == y {
            color
        } else {
            self.pixel(px, py)
        };
        assert forall|k: int| 0 <= k < 4 implies after.bytes[after.offset(px, py) + k] == #[trigger] expected[k] by {
            self.lemma_pixel_bytes(px, py, k);
            if self.contains(x, y) {
                self.lemma_with_pixel_byte(x, y, color, self.offset(px, py) + k);
            }
        }
        self.lemma_pixel_bytes(px, py, 0);
        self.lemma_pixel_bytes(px, py, 3);
        after.lemma_pixel_from_bytes(px, py, expected);
    }

    /// The painter's rule: after a series of pixel writes, a pixel shows the
    /// color of the last write that went to it.
    pub proof fn lemma_last_write_wins(self, writes: Seq<PixelWrite>, px: int, py: int, last: int)
        requires
            self.well_formed(),
            self.contains(px, py),
            0 <= last < writes.len(),
            writes[last].x == px && writes[last].y == py,
            writes[last].color.len() == 4,
            forall|j: int| last < j < writes.len() ==> !(#[trigger] writes[j].x == px && writes[j].y == py),
        ensures
            self.plotted(writes).pixel(px, py) == writes[last].color,
        decreases writes.len(),
    {
        let earlier = writes.drop_last();
        let end = writes.last();
        self.lemma_plotted_shape(earlier);
        self.plotted(earlier).lemma_with_pixel_reads(end.x, end.y, end.color, px, py);
        if last < writes.len() - 1 {
            assert(!(writes[writes.len() - 1].x == px && writes[writes.len() - 1].y == py));
            assert(earlier[last] == writes[last]);
            assert forall|j: int| last < j < earlier.len() implies !(#[trigger] earlier[j].x == px && earlier[j].y
                == py) by {
                assert(earlier[j] == writes[j]);
            }
            self.lemma_last_write_wins(earlier, px, py, last);
        }
    }

    /// A pixel to which none of a series of writes went is as it was.
    pub proof fn lemma_unwritten_pixel_stays(self, writes: Seq<PixelWrite>, px: int, py: int)
        requires
            self.well_formed(),
            self.contains(px, py),
            forall|j: int| 0 <= j < writes.len() ==> !(#[trigger] writes[j].x == px && writes[j].y == py),
        ensures
            self.plotted(writes).pixel(px, py) == self.pixel(px, py),
        decreases writes.len(),
    {
        if writes.len() > 0 {
            let earlier = writes.drop_last();
            let end = writes.last();
            self.lemma_plotted_shape(earlier);
            assert(!(writes[writes.len() - 1].x == px && writes[writes.len() - 1].y == py));
            self.plotted(earlier).lemma_with_pixel_reads(end.x, end.y, end.color, px, py);
            assert forall|j: int| 0 <= j < earlier.len() implies !(#[trigger] earlier[j].x == px && earlier[j].y
                == py) by {
                assert(earlier[j] == writes[j]);
            }
            self.lemma_unwritten_pixel_stays(earlier, px, py);
        }
    }

    /// Pixel writes change neither the size of the canvas nor the length of
    /// its buffer.
    pub proof fn lemma_plotted_shape(self, writes: Seq<PixelWrite>)
        ensures
            self.plotted(writes).width == self.width,
            self.plotted(writes).height == self.height,
            self.plotted(writes).bytes.len() == self.bytes.len(),
            self.well_formed() ==> self.plotted(writes).well_formed(),
        decreases writes.len(),
    {
        if writes.len() > 0 {
            self.lemma_plotted_shape(writes.drop_last());
        }
    }

    /// After a clear every pixel has the color.
    pub proof fn lemma_cleared_reads(self, color: Seq<u8>, px: int, py: int)
        requires
            self.well_formed(),
            color.len() == 4,
            self.contains(px, py),
        ensures
            self.cleared(color).pixel(px, py) == color,
    {
        let after = self.cleared(color);
        assert forall|k: int| 0 <= k < 4 implies after.bytes[after.offset(px, py) + k] == #[trigger] color[k] by {
            self.lemma_pixel_bytes(px, py, k);
        }
        after.lemma_pixel_from_bytes(px, py, color);
    }

    /// After a rectangle was filled, the pixels inside it have the color and
    /// the pixels outside it are as they were.
    pub proof fn lemma_with_rect_reads(
        self,
        x: int,
        y: int,
        w: int,
        h: int,
        color: Seq<u8>,
        px: int,
        py: int,
    )
        requires
            self.well_formed(),
            color.len() == 4,
            self.contains(px, py),
        ensures
            self.with_rect(x, y, w, h, color).pixel(px, py) == if in_rect(x, y, w, h, px, py) {
                color
            } else {
                self.pixel(px, py)
            },
    {
        let after = self.with_rect(x, y, w, h, color);
        let expected = if in_rect(x, y, w, h, px, py) {
            color
        } else {
            self.pixel(px, py)
        };
        assert forall|k: int| 0 <= k < 4 implies after.bytes[after.offset(px, py) + k] == #[trigger] expected[k] by {
            self.lemma_pixel_bytes(px, py, k);
        }
        self.lemma_pixel_bytes(px, py, 0);
        self.lemma_pixel_bytes(px, py, 3);
        after.lemma_pixel_from_bytes(px, py, expected);
    }
}

/// A mutable RGBA pixel buffer of fixed size.
pub struct PixelCanvas {
    pixels: Vec<u8>,
    width: u32,
    height: u32,
}

impl View for PixelCanvas {
    type V = CanvasView;

    closed spec fn view(&self) -> CanvasView {
        CanvasView { width: self.width as nat, height: self.height as nat, bytes: self.pixels@ }
    }
}

impl PixelCanvas {
    /// Every canvas that exists has a buffer of the length its size asks for.
    #[verifier::type_invariant]
    pub open spec fn inv(self) -> bool {
        &&& self@.well_formed()
        &&& self@.width <= u32::MAX
        &&& self@.height <= u32::MAX
        &&& self@.bytes.len() <= usize::MAX
    }

    /// A canvas of the given size with every byte zero. The buffer has to be
    /// addressable: `width * height * 4` must not exceed `usize::MAX`.
    pub fn new(width: u32, height: u32) -> (canvas: PixelCanvas)
        requires
            width * height * 4 <= usize::MAX,
        ensures
            canvas@ == CanvasView::blank(width as nat, height as nat),
            canvas.inv(),
    {
        assert(width * height <= width * height * 4) by (nonlinear_arith);
        let pixel_count: usize = (width as usize) * (height as usize) * CHANNELS;
        let pixels: Vec<u8> = vec![0u8; pixel_count];
        let canvas = PixelCanvas { pixels, width, height };
        assert(canvas@.bytes =~= CanvasView::blank(width as nat, height as nat).bytes);
        canvas
    }

    /// Width in pixels.
    pub fn width(&self) -> (w: u32)
        ensures
            w == self@.width,
    {
        self.width
    }

    /// Height in pixels.
    pub fn height(&self) -> (h: u32)
        ensures
            h == self@.height,
    {
        self.height
    }

    /// The buffer: `width * height * 4` bytes, row by row from the top left,
    /// four bytes per pixel.
    pub fn pixels(&self) -> (bytes: &Vec<u8>)
        ensures
            bytes@ == self@.bytes,
    {
        &self.pixels
    }

    /// Writes `color` to pixel `(x, y)`; does nothing when the pixel lies
    /// outside the canvas.
    pub fn set_pixel(&mut self, x: u32, y: u32, color: [u8; 4])
        ensures
            final(self)@ == old(self)@.with_pixel(x as int, y as int, color@),
            !old(self)@.contains(x as int, y as int) ==> final(self)@ == old(self)@,
            old(self)@.contains(x as int, y as int) ==> final(self)@.pixel(x as int, y as int) == color@,
            final(self).inv(),
    {
        proof {
            use_type_invariant(&*self);
        }
        if x >= self.width || y >= self.height {
            return;
        }
        proof {
            self@.lemma_pixel_bytes(x as int, y as int, 0);
            self@.lemma_pixel_bytes(x as int, y as int, 3);
            self@.lemma_with_pixel_reads(x as int, y as int, color@, x as int, y as int);
        }
        let index: usize = ((y as usize) * (self.width as usize) + (x as usize)) * CHANNELS;
        self.pixels[index] = color[0];
        self.pixels[index + 1] = color[1];
        self.pixels[index + 2] = color[2];
        self.pixels[index + 3] = color[3];
        assert(self@.bytes =~= old(self)@.with_pixel(x as int, y as int, color@).bytes);
    }

    /// Overwrites every pixel with `color`.
    pub fn clear(&mut self, color: [u8; 4])
        ensures
            final(self)@ == old(self)@.cleared(color@),
            forall|x: int, y: int| final(self)@.contains(x, y) ==> #[trigger] final(self)@.pixel(x, y) == color@,
            final(self).inv(),
    {
        proof {
            use_type_invariant(&*self);
        }
        let len = self.pixels.len();
        let mut i: usize = 0;
        while i < len
            invariant
                i <= len,
                len == self.pixels.len(),
                self.width == old(self).width,
                self.height == old(self).height,
                len == old(self).pixels.len(),
                forall|j: int| 0 <= j < i ==> self.pixels[j] == color[j % 4],
            decreases len - i,
        {
            proof {
                use_type_invariant(&*self);
            }
            self.pixels[i] = color[i % CHANNELS];
            i += 1;
        }
        assert(self@.bytes =~= old(self)@.cleared(color@).bytes);
        assert forall|x: int, y: int| self@.contains(x, y) implies #[trigger] self@.pixel(x, y) == color@ by {
            old(self)@.lemma_cleared_reads(color@, x, y);
        }
    }

    /// Fills the rectangle with top left corner `(x, y)` and the given sides,
    /// pixel by pixel; the part of it that lies outside the canvas is ignored.
    pub fn draw_rect(&mut self, x: u32, y: u32, width: u32, height: u32, color: [u8; 4])
        ensures
            final(self)@ == old(self)@.with_rect(x as int, y as int, width as int, height as int, color@),
            forall|px: int, py: int|
                old(self)@.contains(px, py) ==> #[trigger] final(self)@.pixel(px, py) == if in_rect(
                    x as int,
                    y as int,
                    width as int,
                    height as int,
                    px,
                    py,
                ) {
                    color@
                } else {
                    old(self)@.pixel(px, py)
                },
            final(self).inv(),
    {
        proof {
            use_type_invariant(&*self);
        }
        let ghost before = self@;
        let x_end: u64 = if x as u64 + width as u64 <= self.width as u64 {
            x as u64 + width as u64
        } else {
            self.width as u64
        };
        let y_end: u64 = if y as u64 + height as u64 <= self.height as u64 {
            y as u64 + height as u64
        } else {
            self.height as u64
        };
        let mut row: u64 = y as u64;
        assert(self@.bytes =~= before.with_rect(x as int, y as int, width as int, 0, color@).bytes);
        while row < y_end
            invariant
                before.well_formed(),
                y <= row,
                row <= y_end || row == y,
                y_end <= before.height,
                y_end <= y + height,
                x_end <= before.width,
                x_end <= x + width,
                x_end == x + width || x_end == before.width,
                self@ == before.with_rect(x as int, y as int, width as int, row - y, color@),
            decreases y_end - row,
        {
            let mut col: u64 = x as u64;
            while col < x_end
                invariant
                    before.well_formed(),
                    y <= row < y_end <= before.height,
                    x <= col,
                    col <= x_end || col == x,
                    x_end <= before.width,
                    x_end <= x + width,
                    self@.width == before.width,
                    self@.height == before.height,
                    self@.bytes.len() == before.bytes.len(),
                    forall|i: int|
                        0 <= i < before.bytes.len() ==> #[trigger] self@.bytes[i] == if in_rect(
                            x as int,
                            y as int,
                            width as int,
                            row - y,
                            before.column_of(i),
                            before.row_of(i),
                        ) || (before.row_of(i) == row && x <= before.column_of(i) < col) {
                            color@[i % 4]
                        } else {
                            before.bytes[i]
                        },
                decreases x_end - col,
            {
                let ghost current = self@;
                self.set_pixel(col as u32, row as u32, color);
                proof {
                    assert forall|i: int| 0 <= i < before.bytes.len() implies #[trigger] self@.bytes[i]
                        == if in_rect(
                        x as int,
                        y as int,
                        width as int,
                        row - y,
                        before.column_of(i),
                        before.row_of(i),
                    ) || (before.row_of(i) == row && x <= before.column_of(i) < col + 1) {
                        color@[i % 4]
                    } else {
                        before.bytes[i]
                    } by {
                        current.lemma_with_pixel_byte(col as int, row as int, color@, i);
                    }
                }
                col += 1;
            }
            proof {
                assert forall|i: int| 0 <= i < before.bytes.len() implies #[trigger] self@.bytes[i]
                    == before.with_rect(x as int, y as int, width as int, row + 1 - y, color@).bytes[i] by {
                    before.lemma_byte_position(i);
                }
                assert(self@.bytes =~= before.with_rect(
                    x as int,
                    y as int,
                    width as int,
                    row + 1 - y,
                    color@,
                ).bytes);
            }
            row += 1;
        }
        proof {
            assert forall|i: int| 0 <= i < before.bytes.len() implies #[trigger] self@.bytes[i]
                == before.with_rect(x as int, y as int, width as int, height as int, color@).bytes[i] by {
                before.lemma_byte_position(i);
            }
            assert(self@.bytes =~= before.with_rect(
                x as int,
                y as int,
                width as int,
                height as int,
                color@,
            ).bytes);
            assert forall|px: int, py: int| before.contains(px, py) implies #[trigger] self@.pixel(px, py)
                == if in_rect(x as int, y as int, width as int, height as int, px, py) {
                color@
            } else {
                before.pixel(px, py)
            } by {
                before.lemma_with_rect_reads(x as int, y as int, width as int, height as int, color@, px, py);
            }
        }
    }
}

} // verus!

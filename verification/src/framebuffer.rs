//! The frame buffer: a text buffer with a depth for every cell.

use vstd::prelude::*;
use crate::dither::{dither, dither_with, dithered};
use crate::frame::{
    glyph, glyph_of, is_text_byte, lemma_glyphs_are_text, lemma_index_in_bounds, lemma_index_injective, lemma_poke_keeps_well_formed,
    scale_to_levels, Frame, BLANK, FAR, LEVELS, NEWLINE,
};

verus! {

/// A character buffer and a depth buffer of the same shape.
pub struct FrameBuffer {
    brightness: Vec<u8>,
    z_buffer: Vec<i64>,
    sx: usize,
    sy: usize,
}

impl View for FrameBuffer {
    type V = Frame;

    closed spec fn view(&self) -> Frame {
        Frame {
            width: self.sx as int,
            height: self.sy as int,
            glyphs: self.brightness@,
            depths: self.z_buffer@,
        }
    }
}

impl FrameBuffer {
    /// A buffer for a screen of `sx` columns and `sy` rows. It holds no cell
    /// yet: `clear` gives it its cells.
    pub fn new(sx: u16, sy: u16) -> (fb: FrameBuffer)
        ensures
            fb@.width == sx,
            fb@.height == sy,
            fb@.glyphs.len() == 0,
            fb@.depths.len() == 0,
    {
        let width: usize = sx as usize;
        let height: usize = sy as usize;
        assert((width + 1) * height <= 0xffff_0000) by (nonlinear_arith)
            requires
                width <= 0xffff,
                height <= 0xffff,
        ;
        let size: usize = (width + 1) * height;
        FrameBuffer {
            brightness: Vec::with_capacity(size),
            z_buffer: Vec::with_capacity(size),
            sx: width,
            sy: height,
        }
    }

    /// Resets the buffer to a screen of `sx` columns and `sy` rows: whatever
    /// it held and whatever its size was, it is afterwards a blank frame of
    /// the new size.
    pub fn clear(&mut self, sx: u16, sy: u16)
        ensures
            final(self)@.width == sx,
            final(self)@.height == sy,
            final(self)@.is_blank(),
    {
        self.sx = sx as usize;
        self.sy = sy as usize;
        let stride: usize = self.sx + 1;
        assert(self.sy * stride <= 0xffff_0000) by (nonlinear_arith)
            requires
                stride <= 0x1_0000,
                self.sy <= 0xffff,
        ;
        let size: usize = self.sy * stride;
        self.z_buffer.clear();
        self.z_buffer.resize(size, FAR);
        self.brightness.clear();
        self.brightness.resize(size, BLANK);
        proof {
            assert forall|c: int, r: int| self@.contains(c, r) implies #[trigger] self@.glyph_at(
                c,
                r,
            ) == BLANK by {
                lemma_index_in_bounds(stride as int, self.sy as int, c, r);
            }
        }
        let mut y: usize = 0;
        while y < self.sy
            invariant
                self.sx == sx,
                self.sy == sy,
                stride == self.sx + 1,
                size == self.sy * stride,
                0 <= y <= self.sy,
                self.brightness@.len() == size,
                self.z_buffer@.len() == size,
                forall|i: int| 0 <= i < size ==> #[trigger] self.z_buffer@[i] == FAR,
                forall|r: int| 0 <= r < y ==> #[trigger] self@.glyph_at(self@.width, r) == NEWLINE,
                forall|c: int, r: int|
                    self@.contains(c, r) ==> #[trigger] self@.glyph_at(c, r) == BLANK,
            decreases self.sy - y,
        {
            let ghost before = self@;
            proof {
                lemma_index_in_bounds(stride as int, self.sy as int, self.sx as int, y as int);
            }
            let at: usize = y * stride + self.sx;
            self.brightness[at] = NEWLINE;
            proof {
                assert forall|r: int| 0 <= r < y + 1 implies #[trigger] self@.glyph_at(
                    self@.width,
                    r,
                ) == NEWLINE by {
                    lemma_index_in_bounds(stride as int, self.sy as int, self.sx as int, r);
                    if r < y {
                        assert(before.glyph_at(before.width, r) == NEWLINE);
                        if self@.index_of(self@.width, r) == at {
                            lemma_index_injective(stride as int, self.sx as int, r, self.sx as int, y as int);
                        }
                    }
                }
                assert forall|c: int, r: int| self@.contains(c, r) implies #[trigger] self@.glyph_at(
                    c,
                    r,
                ) == BLANK by {
                    lemma_index_in_bounds(stride as int, self.sy as int, c, r);
                    assert(before.glyph_at(c, r) == BLANK);
                    if self@.index_of(c, r) == at {
                        lemma_index_injective(stride as int, c, r, self.sx as int, y as int);
                    }
                }
            }
            y += 1;
        }
    }

    /// The place of cell `(x, y)` in the two buffers.
    fn index(&self, x: usize, y: usize) -> (at: usize)
        requires
            self@.well_formed(),
            self@.contains(x as int, y as int),
        ensures
            at == self@.index_of(x as int, y as int),
            at < self@.glyphs.len(),
            at < self@.depths.len(),
    {
        let stride: usize = self.sx + 1;
        proof {
            lemma_index_in_bounds(stride as int, self.sy as int, x as int, y as int);
            assert(self.sy * stride <= 0xffff_0000) by (nonlinear_arith)
                requires
                    stride <= 0x1_0000,
                    self.sy <= 0xffff,
            ;
        }
        y * stride + x
    }

    /// Offers a sample of brightness `value` and depth `z` to cell `(x, y)`,
    /// dithering the brightness with the given draw: the cell takes the
    /// sample if it is strictly nearer than what the cell shows.
    pub fn poke_with(&mut self, x: usize, y: usize, value: i64, z: i64, bits: u32)
        requires
            old(self)@.well_formed(),
            old(self)@.contains(x as int, y as int),
        ensures
            final(self)@ == old(self)@.poke(x as int, y as int, glyph_of(value as int, bits), z),
            final(self)@.well_formed(),
    {
        let at = self.index(x, y);
        if self.z_buffer[at] < z {
            self.z_buffer[at] = z;
            let level = dither_with(scale_to_levels(value), bits, LEVELS);
            self.brightness[at] = glyph(level);
        }
        proof {
            lemma_poke_keeps_well_formed(
                old(self)@,
                x as int,
                y as int,
                glyph_of(value as int, bits),
                z,
            );
        }
    }

    /// Offers a sample of brightness `value` and depth `z` to cell `(x, y)`:
    /// the cell takes the sample if it is strictly nearer than what the cell
    /// shows, and its glyph is then the brightness dithered with a fresh
    /// draw. A sample that is not nearer changes nothing.
    pub fn poke_if(&mut self, x: usize, y: usize, value: i64, z: i64)
        requires
            old(self)@.well_formed(),
            old(self)@.contains(x as int, y as int),
        ensures
            exists|bits: u32|
                final(self)@ == #[trigger] old(self)@.poke(
                    x as int,
                    y as int,
                    glyph_of(value as int, bits),
                    z,
                ),
            old(self)@.depth_at(x as int, y as int) >= z ==> final(self)@ == old(self)@,
            final(self)@.well_formed(),
    {
        let at = self.index(x, y);
        if self.z_buffer[at] < z {
            self.z_buffer[at] = z;
            let scaled = scale_to_levels(value);
            let level = dither(scaled, LEVELS);
            self.brightness[at] = glyph(level);
            proof {
                let bits = choose|bits: u32| level == dithered(scaled as int, bits, LEVELS as int);
                assert(level == dithered(value * LEVELS, bits, LEVELS as int));
                let after = old(self)@.poke(x as int, y as int, glyph_of(value as int, bits), z);
                assert(self@ == after);
                lemma_poke_keeps_well_formed(
                    old(self)@,
                    x as int,
                    y as int,
                    glyph_of(value as int, bits),
                    z,
                );
            }
        } else {
            proof {
                assert(self@ == old(self)@.poke(x as int, y as int, glyph_of(value as int, 0), z));
            }
        }
    }

    /// The text to show: the whole character buffer, row after row, each
    /// row followed by its terminator. Every cell of every row is in it, and
    /// every byte of it is a terminator, a blank or a glyph of the palette.
    pub fn write(&self) -> (text: Vec<u8>)
        requires
            self@.well_formed(),
        ensures
            text@ == self@.glyphs,
            text@.len() == self@.height * (self@.width + 1),
            forall|x: int, y: int|
                self@.contains(x, y) ==> #[trigger] text@[self@.index_of(x, y)] == self@.glyph_at(
                    x,
                    y,
                ),
            forall|y: int|
                0 <= y < self@.height ==> #[trigger] text@[self@.index_of(self@.width, y)]
                    == NEWLINE,
            forall|i: int| 0 <= i < text@.len() ==> is_text_byte(#[trigger] text@[i]),
    {
        let count: usize = self.brightness.len();
        let mut text: Vec<u8> = Vec::with_capacity(count);
        let mut i: usize = 0;
        while i < count
            invariant
                count == self.brightness@.len(),
                0 <= i <= count,
                text@ == self.brightness@.subrange(0, i as int),
            decreases count - i,
        {
            text.push(self.brightness[i]);
            i += 1;
            assert(text@ == self.brightness@.subrange(0, i as int));
        }
        proof {
            assert(text@ == self.brightness@);
            assert forall|k: int| 0 <= k < text@.len() implies is_text_byte(#[trigger] text@[k]) by {
                lemma_glyphs_are_text(self@, k);
            }
            assert forall|y: int| 0 <= y < self@.height implies #[trigger] text@[self@.index_of(
                self@.width,
                y,
            )] == NEWLINE by {
                assert(self@.glyph_at(self@.width, y) == NEWLINE);
            }
        }
        text
    }

    /// The number of columns.
    pub fn width(&self) -> (w: usize)
        ensures
            w == self@.width,
    {
        self.sx
    }

    /// The number of rows.
    pub fn height(&self) -> (h: usize)
        ensures
            h == self@.height,
    {
        self.sy
    }

    /// The glyph shown at cell `(x, y)`.
    pub fn glyph_at(&self, x: usize, y: usize) -> (g: u8)
        requires
            self@.well_formed(),
            self@.contains(x as int, y as int),
        ensures
            g == self@.glyph_at(x as int, y as int),
    {
        let at = self.index(x, y);
        self.brightness[at]
    }

    /// The depth of what is shown at cell `(x, y)`.
    pub fn depth_at(&self, x: usize, y: usize) -> (z: i64)
        requires
            self@.well_formed(),
            self@.contains(x as int, y as int),
        ensures
            z == self@.depth_at(x as int, y as int),
    {
        let at = self.index(x, y);
        self.z_buffer[at]
    }
}

} // verus!

//! The mathematical model of a frame: a grid of glyphs with their depths.

use vstd::prelude::*;
use crate::dither::{dithered, lemma_dithered_bounds};
use crate::fixed::ONE;

verus! {

/// The glyph of a cell that nothing was drawn on.
pub const BLANK: u8 = 32;

/// The byte that ends each row of the text.
pub const NEWLINE: u8 = 10;

/// The depth of a cell that nothing was drawn on: the least depth there is,
/// so that a blank cell takes every sample that lies nearer than it.
pub const FAR: i64 = -9_223_372_036_854_775_808;

/// The number of brightness levels.
pub const LEVELS: usize = 10;

/// The glyphs from dim to bright: `-~+*=;%#$@`.
pub open spec fn palette() -> Seq<u8> {
    seq![45u8, 126u8, 43u8, 42u8, 61u8, 59u8, 37u8, 35u8, 36u8, 64u8]
}

/// The glyph for a brightness when `bits` are drawn: the brightness is
/// scaled by the number of levels and dithered to a level of the palette.
pub open spec fn glyph_of(value: int, bits: u32) -> u8 {
    palette()[dithered(value * LEVELS, bits, LEVELS as int)]
}

/// The glyph of a brightness level.
pub fn glyph(level: usize) -> (g: u8)
    requires
        level < LEVELS,
    ensures
        g == palette()[level as int],
        palette().contains(g),
{
    let g: u8 = if level == 0 {
        45
    } else if level == 1 {
        126
    } else if level == 2 {
        43
    } else if level == 3 {
        42
    } else if level == 4 {
        61
    } else if level == 5 {
        59
    } else if level == 6 {
        37
    } else if level == 7 {
        35
    } else if level == 8 {
        36
    } else {
        64
    };
    assert(palette()[level as int] == g);
    g
}

/// A brightness scaled by the number of levels. A brightness of one or more
/// is first brought to one, and one of minus one or less to minus one: these
/// dither to the last and to the first level whatever is drawn.
pub(crate) fn scale_to_levels(value: i64) -> (s: i64)
    ensures
        s == LEVELS * if value > ONE {
            ONE as int
        } else if value < -ONE {
            -ONE as int
        } else {
            value as int
        },
        forall|bits: u32| #[trigger]
            dithered(s as int, bits, LEVELS as int) == dithered(value * LEVELS, bits, LEVELS as int),
{
    let bounded: i64 = if value > ONE {
        ONE
    } else if value < -ONE {
        -ONE
    } else {
        value
    };
    let s: i64 = bounded * 10;
    proof {
        assert forall|bits: u32| #[trigger]
            dithered(s as int, bits, LEVELS as int) == dithered(
                value * LEVELS,
                bits,
                LEVELS as int,
            ) by {
            lemma_dithered_bounds(s as int, bits, LEVELS as int);
            lemma_dithered_bounds(value * LEVELS, bits, LEVELS as int);
        }
    }
    s
}

/// Whether `b` can stand in a frame's text: a terminator, a blank or a glyph
/// of the palette.
pub open spec fn is_text_byte(b: u8) -> bool {
    b == NEWLINE || b == BLANK || palette().contains(b)
}

/// A frame of `width` by `height` cells. Rows are stored one after another,
/// each followed by a terminator, so that a row takes `width + 1` places.
pub struct Frame {
    pub width: int,
    pub height: int,
    pub glyphs: Seq<u8>,
    pub depths: Seq<i64>,
}

impl Frame {
    /// The place of cell `(x, y)` in `glyphs` and `depths`.
    pub open spec fn index_of(self, x: int, y: int) -> int {
        y * (self.width + 1) + x
    }

    /// Whether `(x, y)` is a cell of the frame.
    pub open spec fn contains(self, x: int, y: int) -> bool {
        0 <= x < self.width && 0 <= y < self.height
    }

    /// The glyph shown at cell `(x, y)`.
    pub open spec fn glyph_at(self, x: int, y: int) -> u8 {
        self.glyphs[self.index_of(x, y)]
    }

    /// The depth of what is shown at cell `(x, y)`.
    pub open spec fn depth_at(self, x: int, y: int) -> i64 {
        self.depths[self.index_of(x, y)]
    }

    /// The frame's invariant: both arrays hold `height` rows of `width + 1`
    /// places, every row ends in a terminator, and every cell shows a blank
    /// or a glyph of the palette.
    pub open spec fn well_formed(self) -> bool {
        &&& 0 <= self.width <= u16::MAX
        &&& 0 <= self.height <= u16::MAX
        &&& self.glyphs.len() == self.height * (self.width + 1)
        &&& self.depths.len() == self.height * (self.width + 1)
        &&& forall|y: int|
            0 <= y < self.height ==> #[trigger] self.glyph_at(self.width, y) == NEWLINE
        &&& forall|x: int, y: int|
            self.contains(x, y) ==> {
                let g = #[trigger] self.glyph_at(x, y);
                g == BLANK || palette().contains(g)
            }
    }

    /// Whether the frame is a freshly cleared one: every cell is blank and
    /// every depth is `FAR`.
    pub open spec fn is_blank(self) -> bool {
        &&& self.well_formed()
        &&& forall|i: int| 0 <= i < self.depths.len() ==> #[trigger] self.depths[i] == FAR
        &&& forall|x: int, y: int| self.contains(x, y) ==> #[trigger] self.glyph_at(x, y) == BLANK
    }

    /// The frame after a sample of depth `z` and glyph `g` is offered to
    /// cell `(x, y)`: the cell takes both if the sample is strictly nearer
    /// than what the cell shows, and nothing changes otherwise.
    pub open spec fn poke(self, x: int, y: int, g: u8, z: i64) -> Frame {
        if self.depth_at(x, y) < z {
            Frame {
                glyphs: self.glyphs.update(self.index_of(x, y), g),
                depths: self.depths.update(self.index_of(x, y), z),
                ..self
            }
        } else {
            self
        }
    }
}

/// A glyph offered to a cell together with its depth.
pub struct Offer {
    pub depth: i64,
    pub glyph: u8,
}

impl Frame {
    /// The frame after the offers are made to cell `(x, y)` one after
    /// another, the first of the sequence first.
    pub open spec fn poke_all(self, x: int, y: int, offers: Seq<Offer>) -> Frame
        decreases offers.len(),
    {
        if offers.len() == 0 {
            self
        } else {
            self.poke_all(x, y, offers.drop_last()).poke(
                x,
                y,
                offers.last().glyph,
                offers.last().depth,
            )
        }
    }
}

/// An offer to one cell changes nothing at the frame's other cells.
pub proof fn lemma_poke_is_local(f: Frame, x: int, y: int, g: u8, z: i64, c: int, r: int)
    requires
        f.well_formed(),
        f.contains(x, y),
        f.contains(c, r),
        c != x || r != y,
    ensures
        f.poke(x, y, g, z).glyph_at(c, r) == f.glyph_at(c, r),
        f.poke(x, y, g, z).depth_at(c, r) == f.depth_at(c, r),
{
    lemma_index_in_bounds(f.width + 1, f.height, x, y);
    lemma_index_in_bounds(f.width + 1, f.height, c, r);
    if f.index_of(c, r) == f.index_of(x, y) {
        lemma_index_injective(f.width + 1, c, r, x, y);
    }
}

/// The order of two offers does not matter, unless they go to one cell with
/// equal depths: there the first of them stays.
pub proof fn lemma_offers_commute(
    f: Frame,
    x1: int,
    y1: int,
    a: Offer,
    x2: int,
    y2: int,
    b: Offer,
)
    requires
        f.well_formed(),
        f.contains(x1, y1),
        f.contains(x2, y2),
        x1 != x2 || y1 != y2 || a.depth != b.depth,
    ensures
        f.poke(x1, y1, a.glyph, a.depth).poke(x2, y2, b.glyph, b.depth) == f.poke(
            x2,
            y2,
            b.glyph,
            b.depth,
        ).poke(x1, y1, a.glyph, a.depth),
{
    let ab = f.poke(x1, y1, a.glyph, a.depth).poke(x2, y2, b.glyph, b.depth);
    let ba = f.poke(x2, y2, b.glyph, b.depth).poke(x1, y1, a.glyph, a.depth);
    lemma_index_in_bounds(f.width + 1, f.height, x1, y1);
    lemma_index_in_bounds(f.width + 1, f.height, x2, y2);
    if f.index_of(x1, y1) == f.index_of(x2, y2) {
        lemma_index_injective(f.width + 1, x1, y1, x2, y2);
    }
    assert(ab.glyphs =~= ba.glyphs);
    assert(ab.depths =~= ba.depths);
}

/// On a blank frame the first offers decide alone. After one or more offers
/// to a cell of a blank frame, the cell's depth is the largest of the depths
/// offered; unless every one of them was `FAR`, the cell shows the glyph of
/// the first offer that has the largest depth.
pub proof fn lemma_blank_cell_takes_largest(f: Frame, x: int, y: int, offers: Seq<Offer>)
    requires
        f.is_blank(),
        f.contains(x, y),
        offers.len() > 0,
    ensures
        forall|i: int|
            0 <= i < offers.len() ==> (#[trigger] offers[i]).depth <= f.poke_all(
                x,
                y,
                offers,
            ).depth_at(x, y),
        exists|k: int|
            0 <= k < offers.len() && (#[trigger] offers[k]).depth == f.poke_all(
                x,
                y,
                offers,
            ).depth_at(x, y),
        f.poke_all(x, y, offers).depth_at(x, y) > FAR ==> exists|k: int|
            {
                &&& 0 <= k < offers.len()
                &&& (#[trigger] offers[k]).depth == f.poke_all(x, y, offers).depth_at(x, y)
                &&& offers[k].glyph == f.poke_all(x, y, offers).glyph_at(x, y)
                &&& forall|j: int| 0 <= j < k ==> (#[trigger] offers[j]).depth < offers[k].depth
            },
        f.poke_all(x, y, offers).depth_at(x, y) == FAR ==> f.poke_all(x, y, offers) == f,
{
    lemma_index_in_bounds(f.width + 1, f.height, x, y);
    lemma_nearest_offer_wins(f, x, y, offers);
    let end = f.poke_all(x, y, offers);
    assert(f.depth_at(x, y) == FAR);
    if end.depth_at(x, y) == FAR {
        assert(offers[0].depth == FAR);
    }
}

/// The nearest offer wins. After any sequence of offers to one cell, the
/// cell's depth is the largest among the depth it had and the depths
/// offered. If no offer was nearer than what the cell showed, the frame is
/// unchanged; otherwise the cell shows the glyph of the first offer that
/// has the largest depth.
pub proof fn lemma_nearest_offer_wins(f: Frame, x: int, y: int, offers: Seq<Offer>)
    requires
        f.well_formed(),
        f.contains(x, y),
    ensures
        f.poke_all(x, y, offers).width == f.width,
        f.poke_all(x, y, offers).height == f.height,
        f.poke_all(x, y, offers).glyphs.len() == f.glyphs.len(),
        f.poke_all(x, y, offers).depths.len() == f.depths.len(),
        f.poke_all(x, y, offers).depth_at(x, y) >= f.depth_at(x, y),
        forall|i: int|
            0 <= i < offers.len() ==> (#[trigger] offers[i]).depth <= f.poke_all(
                x,
                y,
                offers,
            ).depth_at(x, y),
        f.poke_all(x, y, offers).depth_at(x, y) == f.depth_at(x, y) ==> f.poke_all(x, y, offers)
            == f,
        f.poke_all(x, y, offers).depth_at(x, y) > f.depth_at(x, y) ==> exists|k: int|
            {
                &&& 0 <= k < offers.len()
                &&& (#[trigger] offers[k]).depth == f.poke_all(x, y, offers).depth_at(x, y)
                &&& offers[k].glyph == f.poke_all(x, y, offers).glyph_at(x, y)
                &&& forall|j: int| 0 <= j < k ==> (#[trigger] offers[j]).depth < offers[k].depth
            },
    decreases offers.len(),
{
    lemma_index_in_bounds(f.width + 1, f.height, x, y);
    if offers.len() > 0 {
        let front = offers.drop_last();
        let last = offers.last();
        let mid = f.poke_all(x, y, front);
        let end = f.poke_all(x, y, offers);
        lemma_nearest_offer_wins(f, x, y, front);
        assert(mid.index_of(x, y) == f.index_of(x, y));
        assert(end == mid.poke(x, y, last.glyph, last.depth));
        assert forall|i: int| 0 <= i < offers.len() implies (#[trigger] offers[i]).depth
            <= end.depth_at(x, y) by {
            if i < front.len() {
                assert(front[i] == offers[i]);
            }
        }
        if end.depth_at(x, y) > f.depth_at(x, y) {
            if mid.depth_at(x, y) < last.depth {
                let k = offers.len() - 1;
                assert forall|j: int| 0 <= j < k implies (#[trigger] offers[j]).depth
                    < offers[k].depth by {
                    assert(front[j] == offers[j]);
                }
                assert(offers[k].depth == end.depth_at(x, y));
                assert(offers[k].glyph == end.glyph_at(x, y));
            } else {
                let k = choose|k: int|
                    {
                        &&& 0 <= k < front.len()
                        &&& (#[trigger] front[k]).depth == mid.depth_at(x, y)
                        &&& front[k].glyph == mid.glyph_at(x, y)
                        &&& forall|j: int| 0 <= j < k ==> (#[trigger] front[j]).depth < front[k].depth
                    };
                assert(offers[k] == front[k]);
                assert forall|j: int| 0 <= j < k implies (#[trigger] offers[j]).depth
                    < offers[k].depth by {
                    assert(front[j] == offers[j]);
                }
                assert(offers[k].depth == end.depth_at(x, y));
                assert(offers[k].glyph == end.glyph_at(x, y));
            }
        }
    }
}

/// Two places of one grid coincide only if their columns and rows do.
pub proof fn lemma_index_injective(stride: int, x1: int, y1: int, x2: int, y2: int)
    requires
        0 <= x1 < stride,
        0 <= x2 < stride,
        y1 * stride + x1 == y2 * stride + x2,
    ensures
        x1 == x2,
        y1 == y2,
{
    assert(y1 == y2) by (nonlinear_arith)
        requires
            0 <= x1 < stride,
            0 <= x2 < stride,
            y1 * stride + x1 == y2 * stride + x2,
    ;
}

/// Offering a sample with a glyph of the palette to a cell of a well-formed
/// frame leaves the frame well formed, with the size it had.
pub proof fn lemma_poke_keeps_well_formed(f: Frame, x: int, y: int, g: u8, z: i64)
    requires
        f.well_formed(),
        f.contains(x, y),
        palette().contains(g),
    ensures
        f.poke(x, y, g, z).well_formed(),
        f.poke(x, y, g, z).width == f.width,
        f.poke(x, y, g, z).height == f.height,
{
    let after = f.poke(x, y, g, z);
    let at = f.index_of(x, y);
    lemma_index_in_bounds(f.width + 1, f.height, x, y);
    assert forall|r: int| 0 <= r < after.height implies #[trigger] after.glyph_at(after.width, r)
        == NEWLINE by {
        lemma_index_in_bounds(f.width + 1, f.height, f.width, r);
        assert(f.glyph_at(f.width, r) == NEWLINE);
        if f.index_of(f.width, r) == at {
            lemma_index_injective(f.width + 1, f.width, r, x, y);
        }
    }
    assert forall|c: int, r: int| after.contains(c, r) implies ({
        let h = #[trigger] after.glyph_at(c, r);
        h == BLANK || palette().contains(h)
    }) by {
        lemma_index_in_bounds(f.width + 1, f.height, c, r);
        let h = f.glyph_at(c, r);
        assert(h == BLANK || palette().contains(h));
    }
}

/// Every byte of a well-formed frame is a terminator, a blank or a glyph of
/// the palette, and so a printable character of one byte.
pub proof fn lemma_glyphs_are_text(f: Frame, i: int)
    requires
        f.well_formed(),
        0 <= i < f.glyphs.len(),
    ensures
        is_text_byte(f.glyphs[i]),
        f.glyphs[i] < 128,
{
    let stride = f.width + 1;
    let x = i % stride;
    let y = i / stride;
    vstd::arithmetic::div_mod::lemma_fundamental_div_mod(i, stride);
    vstd::arithmetic::div_mod::lemma_mod_pos_bound(i, stride);
    assert(0 <= y < f.height && i == y * stride + x) by (nonlinear_arith)
        requires
            i == stride * y + x,
            0 <= x < stride,
            0 <= i < f.height * stride,
    ;
    assert(f.index_of(x, y) == i);
    if x == f.width {
        assert(f.glyph_at(f.width, y) == NEWLINE);
    } else {
        let g = f.glyph_at(x, y);
        assert(f.contains(x, y));
        assert(g == BLANK || palette().contains(g));
    }
    let b = f.glyphs[i];
    if palette().contains(b) {
        let k = choose|k: int| 0 <= k < palette().len() && palette()[k] == b;
        assert(palette()[k] < 128);
    }
}

/// Every place of a grid, the terminators' included, lies inside its arrays.
pub proof fn lemma_index_in_bounds(stride: int, height: int, x: int, y: int)
    requires
        0 <= x < stride,
        0 <= y < height,
    ensures
        0 <= y * stride + x < height * stride,
{
    assert(0 <= y * stride + x < height * stride) by (nonlinear_arith)
        requires
            0 <= x < stride,
            0 <= y < height,
    ;
}

} // verus!

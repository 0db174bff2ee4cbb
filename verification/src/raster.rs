//! Drawing a shaded sample into the frame buffer.

use vstd::prelude::*;
use crate::dither::{dither, dither_with, dithered, lemma_dithered_bounds};
use crate::fixed::ONE;
use crate::frame::{
    glyph_of, lemma_index_in_bounds, lemma_poke_is_local, lemma_poke_keeps_well_formed, palette,
    Frame, LEVELS,
};
use crate::framebuffer::FrameBuffer;
use crate::shade::{light, Sample};

verus! {

impl Frame {
    /// The frame after sample `s` is drawn with the three draws `bx`, `by`
    /// and `bv`: a sample that is culled or receives no light changes
    /// nothing; any other is offered, with its brightness dithered by `bv`,
    /// to the cell that `bx` and `by` dither its position to.
    pub open spec fn plot(self, s: Sample, bx: u32, by: u32, bv: u32) -> Frame {
        if s.drawn(self.width, self.height) {
            self.poke(
                dithered(s.x as int, bx, self.width),
                dithered(s.y as int, by, self.height),
                glyph_of(s.brightness(), bv),
                s.depth,
            )
        } else {
            self
        }
    }
}

/// The three draws that go with one sample: for its column, for its row and
/// for its brightness.
pub struct Draws {
    pub column: u32,
    pub row: u32,
    pub level: u32,
}

impl Frame {
    /// The frame after the samples are drawn one after another, the first
    /// of the sequence first, each with the draws at its place in `draws`.
    pub open spec fn plot_all(self, samples: Seq<Sample>, draws: Seq<Draws>) -> Frame
        decreases samples.len(),
    {
        if samples.len() == 0 {
            self
        } else {
            self.plot_all(samples.drop_last(), draws.drop_last()).plot(
                samples.last(),
                draws.last().column,
                draws.last().row,
                draws.last().level,
            )
        }
    }
}

/// A back face contributes nothing to a frame. Put a sample whose normal has
/// a positive cosine with the direction to the camera anywhere among the
/// samples of a frame, with any draws: the frame that results is the one
/// that results without it. No glyph and no depth comes from it.
pub proof fn lemma_back_face_contributes_nothing(
    f: Frame,
    samples: Seq<Sample>,
    draws: Seq<Draws>,
    i: int,
    s: Sample,
    d: Draws,
)
    requires
        samples.len() == draws.len(),
        0 <= i <= samples.len(),
        s.n_dot_cam > 0,
    ensures
        f.plot_all(samples.insert(i, s), draws.insert(i, d)) == f.plot_all(samples, draws),
    decreases samples.len(),
{
    let more = samples.insert(i, s);
    let more_draws = draws.insert(i, d);
    if i == samples.len() {
        assert(more.drop_last() =~= samples);
        assert(more_draws.drop_last() =~= draws);
        assert(more.last() == s);
    } else {
        assert(more.drop_last() =~= samples.drop_last().insert(i, s));
        assert(more_draws.drop_last() =~= draws.drop_last().insert(i, d));
        assert(more.last() == samples.last());
        assert(more_draws.last() == draws.last());
        lemma_back_face_contributes_nothing(f, samples.drop_last(), draws.drop_last(), i, s, d);
    }
}

/// Back faces are never drawn: a sample whose normal has a positive cosine
/// with the direction to the camera leaves every frame as it was, whatever
/// is drawn for it.
pub proof fn lemma_back_face_is_not_drawn(f: Frame, s: Sample, bx: u32, by: u32, bv: u32)
    requires
        s.n_dot_cam > 0,
    ensures
        f.plot(s, bx, by, bv) == f,
{
}

/// A sample changes at most the one cell that its position is dithered to,
/// and that cell only to a nearer depth and a glyph of the palette.
pub proof fn lemma_plot_changes_one_cell(f: Frame, s: Sample, bx: u32, by: u32, bv: u32)
    requires
        f.well_formed(),
    ensures
        f.plot(s, bx, by, bv).well_formed(),
        f.plot(s, bx, by, bv).width == f.width,
        f.plot(s, bx, by, bv).height == f.height,
        forall|c: int, r: int| #![trigger f.plot(s, bx, by, bv).depth_at(c, r)]
            f.contains(c, r) ==> f.plot(s, bx, by, bv).depth_at(c, r) >= f.depth_at(c, r),
        forall|c: int, r: int| #![trigger f.plot(s, bx, by, bv).glyph_at(c, r)]
            f.contains(c, r) && f.plot(s, bx, by, bv).glyph_at(c, r) != f.glyph_at(c, r) ==> {
                &&& c == dithered(s.x as int, bx, f.width)
                &&& r == dithered(s.y as int, by, f.height)
                &&& f.plot(s, bx, by, bv).glyph_at(c, r) == glyph_of(s.brightness(), bv)
                &&& f.plot(s, bx, by, bv).depth_at(c, r) == s.depth
                &&& f.depth_at(c, r) < s.depth
            },
{
    if s.drawn(f.width, f.height) {
        let x = dithered(s.x as int, bx, f.width);
        let y = dithered(s.y as int, by, f.height);
        let g = glyph_of(s.brightness(), bv);
        assert(f.width > 0 && f.height > 0) by (nonlinear_arith)
            requires
                0 <= s.x < f.width * ONE,
                0 <= s.y < f.height * ONE,
                ONE > 0,
        ;
        lemma_dithered_bounds(s.x as int, bx, f.width);
        lemma_dithered_bounds(s.y as int, by, f.height);
        lemma_dithered_bounds(s.brightness() * LEVELS, bv, LEVELS as int);
        assert(palette().contains(g));
        lemma_poke_keeps_well_formed(f, x, y, g, s.depth);
        lemma_index_in_bounds(f.width + 1, f.height, x, y);
        assert forall|c: int, r: int| #![trigger f.plot(s, bx, by, bv).depth_at(c, r)]
            f.contains(c, r) implies f.plot(s, bx, by, bv).depth_at(c, r) >= f.depth_at(c, r) by {
            if c != x || r != y {
                lemma_poke_is_local(f, x, y, g, s.depth, c, r);
            }
        }
        assert forall|c: int, r: int| #![trigger f.plot(s, bx, by, bv).glyph_at(c, r)]
            f.contains(c, r) && f.plot(s, bx, by, bv).glyph_at(c, r) != f.glyph_at(c, r) implies {
            &&& c == x
            &&& r == y
            &&& f.plot(s, bx, by, bv).glyph_at(c, r) == g
            &&& f.plot(s, bx, by, bv).depth_at(c, r) == s.depth
            &&& f.depth_at(c, r) < s.depth
        } by {
            if c != x || r != y {
                lemma_poke_is_local(f, x, y, g, s.depth, c, r);
            }
        }
    }
}

impl FrameBuffer {
    /// Draws sample `s` with the given draws for its column, its row and its
    /// brightness.
    pub fn plot_with(&mut self, s: &Sample, bx: u32, by: u32, bv: u32)
        requires
            old(self)@.well_formed(),
        ensures
            final(self)@ == old(self)@.plot(*s, bx, by, bv),
            final(self)@.well_formed(),
            s.n_dot_cam > 0 ==> final(self)@ == old(self)@,
    {
        let sx = self.width();
        let sy = self.height();
        if !s.is_culled(sx, sy) {
            if let Some(value) = light(s.n_dot_light, s.n_dot_cam, s.light_dot_cam) {
                let ix = dither_with(s.x, bx, sx);
                let iy = dither_with(s.y, by, sy);
                self.poke_with(ix, iy, value, s.depth, bv);
            }
        }
    }

    /// Draws sample `s`: unless it is culled or receives no light, its
    /// position is dithered to a cell, column and row each with a draw of
    /// its own, and the sample is offered to that cell. A sample whose
    /// normal has a positive cosine with the direction to the camera never
    /// changes the buffer.
    pub fn plot(&mut self, s: &Sample)
        requires
            old(self)@.well_formed(),
        ensures
            exists|bx: u32, by: u32, bv: u32| final(self)@ == #[trigger] old(self)@.plot(*s, bx, by, bv),
            final(self)@.well_formed(),
            !s.drawn(old(self)@.width, old(self)@.height) ==> final(self)@ == old(self)@,
            s.n_dot_cam > 0 ==> final(self)@ == old(self)@,
    {
        let sx = self.width();
        let sy = self.height();
        if !s.is_culled(sx, sy) {
            if let Some(value) = light(s.n_dot_light, s.n_dot_cam, s.light_dot_cam) {
                let ix = dither(s.x, sx);
                let iy = dither(s.y, sy);
                self.poke_if(ix, iy, value, s.depth);
                proof {
                    let bx = choose|bits: u32| ix == dithered(s.x as int, bits, sx as int);
                    let by = choose|bits: u32| iy == dithered(s.y as int, bits, sy as int);
                    let bv = choose|bits: u32|
                        self@ == #[trigger] old(self)@.poke(
                            ix as int,
                            iy as int,
                            glyph_of(value as int, bits),
                            s.depth,
                        );
                    assert(self@ == old(self)@.plot(*s, bx, by, bv));
                }
                return ;
            }
        }
        proof {
            assert(self@ == old(self)@.plot(*s, 0, 0, 0));
        }
    }
}

} // verus!

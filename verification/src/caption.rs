//! The caption that is laid over the frame, and where it goes.

use vstd::prelude::*;

verus! {

/// The number of characters of the caption.
pub const CAPTION_WIDTH: u16 = 27;

/// The caption.
pub fn caption() -> (text: &'static str)
    ensures
        text@ == "F O R B I D D E N D O N U T"@,
        text@.len() == CAPTION_WIDTH,
        text.is_ascii(),
{
    proof {
        reveal_strlit("F O R B I D D E N D O N U T");
    }
    "F O R B I D D E N D O N U T"
}

/// Where the caption is shown: the column of its first character, and the
/// two rows that it is written on.
#[derive(Clone, Copy, Debug)]
pub struct CaptionPlace {
    pub column: u16,
    pub top: u16,
    pub bottom: u16,
}

/// The column at which the caption starts on a screen of `sx` columns:
/// fourteen columns left of the middle, or the first column where the screen
/// is too narrow for that.
pub open spec fn caption_column(sx: int) -> int {
    if sx / 2 >= 14 {
        sx / 2 - 14
    } else {
        0
    }
}

/// Places the caption on a screen of `sx` columns and `sy` rows: on the top
/// row and on the bottom row, starting at `caption_column(sx)`. On a screen
/// without rows both rows are row zero.
///
/// Where the screen has rows, both rows lie on it. Where it is as wide as
/// the caption, the caption lies within it; where it is at least one column
/// wider, the margin to the caption's right is one or two columns wider than
/// the margin to its left.
pub fn caption_place(sx: u16, sy: u16) -> (place: CaptionPlace)
    ensures
        place.column == caption_column(sx as int),
        place.top == 0,
        place.bottom == if sy >= 1 {
            sy - 1
        } else {
            0
        },
        sy >= 1 ==> place.top < sy && place.bottom < sy,
        sx >= CAPTION_WIDTH ==> place.column + CAPTION_WIDTH <= sx,
        sx > CAPTION_WIDTH ==> 1 <= (sx - place.column - CAPTION_WIDTH) - place.column <= 2,
{
    let middle: u16 = sx / 2;
    let column: u16 = if middle >= 14 {
        middle - 14
    } else {
        0
    };
    let bottom: u16 = if sy >= 1 {
        sy - 1
    } else {
        0
    };
    CaptionPlace { column, top: 0, bottom }
}

} // verus!

//! Options for drawing lines and matches.

use vstd::prelude::*;

verus! {

/// Drawing options for lines and line matches, as a set of flag bits.
#[derive(Clone, Copy, Debug, PartialEq, Eq, Structural)]
pub struct DrawLinesMatchesFlags {
    pub bits: i32,
}

/// Output image is created and the inputs are drawn onto it.
pub const DRAW_DEFAULT: i32 = 0;

/// Draw onto the given output image instead of creating one.
pub const DRAW_OVER_OUTIMG: i32 = 1;

/// Leave out lines that take part in no match.
pub const NOT_DRAW_SINGLE_LINES: i32 = 2;

impl DrawLinesMatchesFlags {
    /// The default options: no flag set.
    pub fn new() -> (r: Self)
        ensures
            r.bits == DRAW_DEFAULT,
    {
        DrawLinesMatchesFlags { bits: DRAW_DEFAULT }
    }

    /// Whether drawing goes onto the given output image.
    pub fn draws_over_output(&self) -> (r: bool)
        ensures
            r == (self.bits & DRAW_OVER_OUTIMG != 0),
    {
        self.bits & DRAW_OVER_OUTIMG != 0
    }

    /// Whether unmatched lines are left out.
    pub fn skips_single_lines(&self) -> (r: bool)
        ensures
            r == (self.bits & NOT_DRAW_SINGLE_LINES != 0),
    {
        self.bits & NOT_DRAW_SINGLE_LINES != 0
    }
}

} // verus!

use vstd::prelude::*;
use crate::cell::Cell;

verus! {

/// The brackets drawn round a cell: square ones round the cursor, blanks elsewhere.
pub fn braces(selected: bool) -> (r: (char, char))
    ensures
        r == (if selected {
            ('[', ']')
        } else {
            (' ', ' ')
        }),
{
    if selected {
        return ('[', ']');
    }
    (' ', ' ')
}

/// What a cell shows on screen.
#[derive(Clone, Copy, Debug, PartialEq, Eq)]
pub enum Glyph {
    Flag,
    Covered,
    Mine,
    Blank,
    Count(u8),
}

impl Cell {
    /// A covered cell shows its flag or its cover; an uncovered one its mine,
    /// nothing when no mine is near, or the number of mines around it.
    pub fn glyph(&self) -> (g: Glyph)
        ensures
            g == (if self@.covered {
                if self@.flagged {
                    Glyph::Flag
                } else {
                    Glyph::Covered
                }
            } else if self@.mine {
                Glyph::Mine
            } else if self@.neighbours == 0 {
                Glyph::Blank
            } else {
                Glyph::Count(self@.neighbours as u8)
            }),
    {
        if self.covered() {
            if self.flagged() {
                Glyph::Flag
            } else {
                Glyph::Covered
            }
        } else if self.mine() {
            Glyph::Mine
        } else if self.neighbours() == 0 {
            Glyph::Blank
        } else {
            Glyph::Count(self.neighbours())
        }
    }
}

} // verus!

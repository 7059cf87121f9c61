use vstd::prelude::*;

verus! {

/// Display-only marker carried by each cell; solving logic never reads it.
#[derive(Clone, Copy, Debug, PartialEq, Eq, Structural)]
pub enum Highlight {
    Plain,
    Claimed,
    Conflict,
}

/// One grid position: either unsolved, or solved with a 0-indexed value.
#[derive(Clone, Copy, Debug, PartialEq, Eq, Structural)]
pub struct Cell {
    pub solved: bool,
    pub solution: u8,
    pub highlight: Highlight,
}

impl Cell {
    pub open spec fn blank() -> Cell {
        Cell { solved: false, solution: 0, highlight: Highlight::Plain }
    }

    /// An unsolved cell with no highlight.
    pub fn empty() -> (c: Cell)
        ensures
            c == Cell::blank(),
    {
        Cell { solved: false, solution: 0, highlight: Highlight::Plain }
    }
}

} // verus!

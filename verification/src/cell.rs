use vstd::prelude::*;

verus! {

/// One grid position's state: mine status, player flag, revealed flag, and
/// the count of adjacent mines (meaningful only for non-mine cells).
#[derive(Clone, Copy, Debug, PartialEq, Eq, Structural)]
pub struct Cell {
    pub is_bomb: bool,
    pub has_flag: bool,
    pub bomb_count: u32,
    pub is_revealed: bool,
}

impl Cell {
    /// A hidden, unflagged cell with the given mine status and no
    /// adjacent-mine count yet.
    pub fn new(is_bomb: bool) -> (c: Cell)
        ensures
            c == (Cell { is_bomb, has_flag: false, bomb_count: 0, is_revealed: false }),
    {
        Cell { is_bomb, has_flag: false, bomb_count: 0, is_revealed: false }
    }
}

} // verus!

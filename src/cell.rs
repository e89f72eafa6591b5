use vstd::prelude::*;

verus! {

/// What a cell holds: a mine, or the number of mines among its neighbours.
#[derive(Debug, Clone, Copy, PartialEq, Eq, Structural)]
pub enum CellContent {
    Mine,
    Empty(usize),
}

/// What the player sees of a cell.
#[derive(Debug, Clone, Copy, PartialEq, Eq, Structural)]
pub enum CellVisibility {
    Hidden,
    Revealed,
    Flagged,
}

/// One grid position: its content and its visibility.
#[derive(Debug, Clone, Copy, PartialEq, Eq, Structural)]
pub struct CellStatus {
    pub content: CellContent,
    pub status: CellVisibility,
}

impl CellStatus {
    /// A fresh cell: no mine, no neighbouring mine counted yet, hidden.
    pub fn new() -> (r: CellStatus)
        ensures
            r.content == CellContent::Empty(0),
            r.status == CellVisibility::Hidden,
    {
        CellStatus { content: CellContent::Empty(0), status: CellVisibility::Hidden }
    }

    pub open spec fn is_mine(self) -> bool {
        self.content is Mine
    }

    pub open spec fn is_hidden(self) -> bool {
        self.status is Hidden
    }
}

/// Overall status of a game. `Won` and `Lost` are terminal.
#[derive(Debug, Clone, Copy, PartialEq, Eq, Structural)]
pub enum GameState {
    Playing,
    Won,
    Lost,
}

impl GameState {
    pub fn is_playing(&self) -> (r: bool)
        ensures
            r == (*self is Playing),
    {
        *self == GameState::Playing
    }

    /// The status as a word for display.
    pub fn as_str(&self) -> (r: &'static str)
        ensures
            *self is Playing ==> r@ == "Playing"@,
            *self is Won ==> r@ == "Won"@,
            *self is Lost ==> r@ == "Lost"@,
    {
        match self {
            GameState::Playing => "Playing",
            GameState::Won => "Won",
            GameState::Lost => "Lost",
        }
    }
}

/// A zero-based grid position: column `x`, row `y`.
#[derive(Debug, Clone, Copy, PartialEq, Eq, Structural)]
pub struct Coordinate {
    pub x: usize,
    pub y: usize,
}

/// Two distinct positions whose columns and rows each differ by at most one.
pub open spec fn adjacent(a: Coordinate, b: Coordinate) -> bool {
    &&& a != b
    &&& -1 <= a.x - b.x <= 1
    &&& -1 <= a.y - b.y <= 1
}

} // verus!

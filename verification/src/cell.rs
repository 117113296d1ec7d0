//! The contents of one square of the board.

use vstd::prelude::*;

verus! {

/// The flags of a square that holds nothing.
pub const EMPTY: u8 = 0;

/// Flag of a square that a crate must reach.
pub const TARGET: u8 = 1;

/// Flag of a square that holds a crate.
pub const CRATE: u8 = 2;

/// Flag of a square that nothing can enter.
pub const WALL: u8 = 4;

/// What one square of the board holds. A wall never carries a crate or a
/// target, so the five variants are all the combinations of flags there are.
#[derive(Clone, Copy, PartialEq, Eq, Debug, Structural)]
pub enum Cell {
    Empty,
    Target,
    Crate,
    CrateOnTarget,
    Wall,
}

impl Cell {
    /// Whether the square is a wall.
    pub open spec fn wall(self) -> bool {
        self == Cell::Wall
    }

    /// Whether a crate stands on the square.
    pub open spec fn holds_crate(self) -> bool {
        self == Cell::Crate || self == Cell::CrateOnTarget
    }

    /// Whether the square is a target, covered or not.
    pub open spec fn target(self) -> bool {
        self == Cell::Target || self == Cell::CrateOnTarget
    }

    /// Whether the player may stand on the square: no wall and no crate.
    pub open spec fn free(self) -> bool {
        self == Cell::Empty || self == Cell::Target
    }

    /// The flags of the square, added up.
    pub open spec fn flags(self) -> int {
        (if self.target() {
            TARGET as int
        } else {
            0
        }) + (if self.holds_crate() {
            CRATE as int
        } else {
            0
        }) + (if self.wall() {
            WALL as int
        } else {
            0
        })
    }

    /// The square once its crate is taken away.
    pub open spec fn without_crate(self) -> Cell {
        match self {
            Cell::Crate => Cell::Empty,
            Cell::CrateOnTarget => Cell::Target,
            c => c,
        }
    }

    /// The square once a crate is put on it. Only a free square changes.
    pub open spec fn with_crate(self) -> Cell {
        match self {
            Cell::Empty => Cell::Crate,
            Cell::Target => Cell::CrateOnTarget,
            c => c,
        }
    }

    pub fn is_wall(self) -> (r: bool)
        ensures
            r == self.wall(),
    {
        self == Cell::Wall
    }

    pub fn is_crate(self) -> (r: bool)
        ensures
            r == self.holds_crate(),
    {
        self == Cell::Crate || self == Cell::CrateOnTarget
    }

    pub fn is_target(self) -> (r: bool)
        ensures
            r == self.target(),
    {
        self == Cell::Target || self == Cell::CrateOnTarget
    }

    pub fn is_free(self) -> (r: bool)
        ensures
            r == self.free(),
    {
        self == Cell::Empty || self == Cell::Target
    }

    /// The flags of the square, added up.
    pub fn bits(self) -> (r: u8)
        ensures
            r == self.flags(),
    {
        match self {
            Cell::Empty => EMPTY,
            Cell::Target => TARGET,
            Cell::Crate => CRATE,
            Cell::CrateOnTarget => CRATE + TARGET,
            Cell::Wall => WALL,
        }
    }

    pub fn remove_crate(self) -> (r: Cell)
        ensures
            r == self.without_crate(),
    {
        match self {
            Cell::Crate => Cell::Empty,
            Cell::CrateOnTarget => Cell::Target,
            c => c,
        }
    }

    pub fn add_crate(self) -> (r: Cell)
        ensures
            r == self.with_crate(),
    {
        match self {
            Cell::Empty => Cell::Crate,
            Cell::Target => Cell::CrateOnTarget,
            c => c,
        }
    }
}

} // verus!

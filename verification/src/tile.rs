//! The content of one grid cell.

use crate::chest::Chest;
use vstd::prelude::*;

verus! {

/// A permanent wall and the bullets lodged in it.
#[derive(Clone, Copy, Debug, PartialEq, Eq, Structural)]
pub struct Wall {
    pub bullets: i8,
}

/// A wall the player can push, and the bullets lodged in it.
#[derive(Clone, Copy, Debug, PartialEq, Eq, Structural)]
pub struct MovableWall {
    pub bullets: i8,
}

/// The content of one cell.
#[derive(Clone, Copy, Debug, PartialEq, Eq, Structural)]
pub enum Tile {
    Empty,
    Wall(Wall),
    MovableWall(MovableWall),
    Chest(Chest),
}

impl Tile {
    /// Whether the tile is a wall of either kind.
    pub open spec fn is_solid(&self) -> bool {
        self is Wall || self is MovableWall
    }

    /// The bullets lodged in the tile; zero where it is no wall.
    pub open spec fn lodged(&self) -> int {
        match self {
            Tile::Wall(w) => w.bullets as int,
            Tile::MovableWall(w) => w.bullets as int,
            _ => 0,
        }
    }

    /// The tile is in range: a wall's count is not negative, a chest's clock
    /// is in range.
    pub open spec fn wf(&self) -> bool {
        match self {
            Tile::Wall(w) => w.bullets >= 0,
            Tile::MovableWall(w) => w.bullets >= 0,
            Tile::Chest(c) => c.wf(),
            Tile::Empty => true,
        }
    }
}

} // verus!

use vstd::prelude::*;

verus! {

/// Whether a tile takes part in play or is the single empty cell.
#[derive(Clone, Copy, Debug, PartialEq, Eq, Structural)]
pub enum TileType {
    InPlay,
    Missing,
}

/// A tile: the cell it belongs to on the solved board, and its kind.
#[derive(Clone, Copy, Debug, PartialEq, Eq, Structural)]
pub struct Tile {
    pub(crate) index: usize,
    pub tile_type: TileType,
}

impl Tile {
    /// The cell this tile occupies when the puzzle is solved.
    pub open(crate) spec fn home(&self) -> nat {
        self.index as nat
    }

    /// Whether the tile is in play or Missing.
    pub open(crate) spec fn kind(&self) -> TileType {
        self.tile_type
    }

    pub fn new(index: usize, tile_type: TileType) -> (t: Tile)
        ensures
            t.home() == index,
            t.kind() == tile_type,
    {
        Tile { index, tile_type }
    }

    /// The cell this tile occupies when the puzzle is solved.
    pub fn home_index(&self) -> (r: usize)
        ensures
            r == self.home(),
    {
        self.index
    }

    pub fn is_missing(&self) -> (r: bool)
        ensures
            r == (self.kind() == TileType::Missing),
    {
        self.tile_type == TileType::Missing
    }
}

impl Default for Tile {
    fn default() -> (t: Tile)
        ensures
            t.home() == 0,
            t.kind() == TileType::InPlay,
    {
        Tile::new(0, TileType::InPlay)
    }
}

} // verus!

//! Cells of the integer plane, the chunk scheme used to display them, and
//! the frontier cells with their scores.

use vstd::prelude::*;

verus! {

/// Side length of a display chunk, in cells.
pub const CHUNK_SIZE: u32 = 64;

/// One cell of the integer plane.
#[derive(Clone, Copy, Debug, Hash, PartialEq, Eq, Structural)]
pub struct GlobalPos {
    pub x: i32,
    pub y: i32,
}

/// Whether an integer fits in an `i32`.
pub open spec fn fits_i32(v: int) -> bool {
    i32::MIN <= v <= i32::MAX
}

/// The cell at the given mathematical coordinates.
pub open spec fn pos_at(x: int, y: int) -> GlobalPos {
    GlobalPos { x: x as i32, y: y as i32 }
}

/// Coordinate-wise sum of two cells.
pub open spec fn pos_add(a: GlobalPos, b: GlobalPos) -> GlobalPos {
    pos_at(a.x + b.x, a.y + b.y)
}

/// Coordinate-wise difference of two cells.
pub open spec fn pos_sub(a: GlobalPos, b: GlobalPos) -> GlobalPos {
    pos_at(a.x - b.x, a.y - b.y)
}

impl GlobalPos {
    /// Coordinate-wise sum.
    pub fn add(self, rhs: GlobalPos) -> (r: GlobalPos)
        requires
            fits_i32(self.x + rhs.x),
            fits_i32(self.y + rhs.y),
        ensures
            r == pos_add(self, rhs),
            r.x == self.x + rhs.x,
            r.y == self.y + rhs.y,
    {
        GlobalPos { x: self.x + rhs.x, y: self.y + rhs.y }
    }

    /// Coordinate-wise difference.
    pub fn sub(self, rhs: GlobalPos) -> (r: GlobalPos)
        requires
            fits_i32(self.x - rhs.x),
            fits_i32(self.y - rhs.y),
        ensures
            r == pos_sub(self, rhs),
            r.x == self.x - rhs.x,
            r.y == self.y - rhs.y,
    {
        GlobalPos { x: self.x - rhs.x, y: self.y - rhs.y }
    }

    /// The cell at position `tile` inside the chunk at `chunk`.
    pub fn from_chunk_tile(chunk: (i32, i32), tile: (u32, u32)) -> (r: GlobalPos)
        requires
            fits_i32(chunk.0 * CHUNK_SIZE + tile.0),
            fits_i32(chunk.1 * CHUNK_SIZE + tile.1),
        ensures
            r.x == chunk.0 * CHUNK_SIZE + tile.0,
            r.y == chunk.1 * CHUNK_SIZE + tile.1,
    {
        let x = chunk.0 as i64 * CHUNK_SIZE as i64 + tile.0 as i64;
        let y = chunk.1 as i64 * CHUNK_SIZE as i64 + tile.1 as i64;
        GlobalPos { x: x as i32, y: y as i32 }
    }

    /// The chunk holding this cell and the cell's position inside it:
    /// Euclidean quotient and remainder of each coordinate by the chunk size.
    pub fn to_chunk_pos(&self) -> (r: ((i32, i32), (u32, u32)))
        ensures
            r.0.0 == self.x as int / CHUNK_SIZE as int,
            r.0.1 == self.y as int / CHUNK_SIZE as int,
            r.1.0 == self.x as int % CHUNK_SIZE as int,
            r.1.1 == self.y as int % CHUNK_SIZE as int,
            r.1.0 < CHUNK_SIZE,
            r.1.1 < CHUNK_SIZE,
            self.x == r.0.0 * CHUNK_SIZE + r.1.0,
            self.y == r.0.1 * CHUNK_SIZE + r.1.1,
    {
        let side = CHUNK_SIZE as i32;
        let chunk_x = match self.x.checked_div_euclid(side) {
            Some(v) => v,
            None => 0,
        };
        let chunk_y = match self.y.checked_div_euclid(side) {
            Some(v) => v,
            None => 0,
        };
        let tile_x = match self.x.checked_rem_euclid(side) {
            Some(v) => v,
            None => 0,
        };
        let tile_y = match self.y.checked_rem_euclid(side) {
            Some(v) => v,
            None => 0,
        };
        ((chunk_x, chunk_y), (tile_x as u32, tile_y as u32))
    }
}


/// A free cell next to the placed region, with its two scores: how many of
/// its neighbours are taken, and how close it lies to the seed cell.
#[derive(Clone, Copy, Debug, PartialEq, Eq, Structural)]
pub struct BorderTile {
    pub adjacency_score: i64,
    pub distance_score: i64,
    pub global_pos: GlobalPos,
}

impl BorderTile {
    /// The total score of the cell.
    pub open spec fn total(&self) -> int {
        self.adjacency_score + self.distance_score
    }

    /// The sum of both scores.
    pub fn score(&self) -> (r: i64)
        requires
            i64::MIN <= self.total() <= i64::MAX,
        ensures
            r == self.total(),
    {
        self.adjacency_score + self.distance_score
    }
}

} // verus!

use vstd::prelude::*;

verus! {

/// Largest number of columns or rows of a board.
pub const MAX_CELLS_PER_LINE: i32 = 1000;

/// Largest length, in pixels, of any geometry setting.
pub const MAX_LENGTH: u64 = 100_000;

/// Largest animation duration, in time units.
pub const MAX_DURATION: u64 = 1_000_000_000;

/// Bound on every pixel coordinate and size that the engine computes.
pub const MAX_PIXEL: u64 = 1_000_000_000;

/// The engine's configuration: board dimensions, the geometry that places a
/// tile on screen, and the animation durations.
#[derive(Clone, Copy, Debug, PartialEq, Eq, Structural)]
pub struct Settings {
    /// Number of columns.
    pub tile_width: i32,
    /// Number of rows.
    pub tile_height: i32,
    /// Side of one tile, in pixels.
    pub tile_size: u64,
    /// Gap between two tiles and between a tile and the board's border.
    pub tile_padding: u64,
    /// Gap between the window's border and the board.
    pub board_padding: u64,
    /// Vertical offset of the board below the header.
    pub board_offset_y: u64,
    /// Duration of a move animation.
    pub tile_move_time: u64,
    /// Duration of the animation of a spawned tile.
    pub tile_new_time: u64,
    /// Duration of the animation of a combined tile.
    pub tile_combine_time: u64,
}

impl Settings {
    /// Dimensions and lengths are in range and every duration is positive.
    pub open spec fn wf(&self) -> bool {
        &&& 1 <= self.tile_width <= MAX_CELLS_PER_LINE
        &&& 1 <= self.tile_height <= MAX_CELLS_PER_LINE
        &&& self.tile_size <= MAX_LENGTH
        &&& self.tile_padding <= MAX_LENGTH
        &&& self.board_padding <= MAX_LENGTH
        &&& self.board_offset_y <= MAX_LENGTH
        &&& 0 < self.tile_move_time <= MAX_DURATION
        &&& 0 < self.tile_new_time <= MAX_DURATION
        &&& 0 < self.tile_combine_time <= MAX_DURATION
    }

    /// Whether (x, y) is a cell of the board.
    pub open spec fn in_bounds(&self, x: int, y: int) -> bool {
        0 <= x < self.tile_width && 0 <= y < self.tile_height
    }

    /// Checks `wf`, for a host that reads settings from elsewhere.
    pub fn is_valid(&self) -> (r: bool)
        ensures
            r == self.wf(),
    {
        1 <= self.tile_width && self.tile_width <= MAX_CELLS_PER_LINE
            && 1 <= self.tile_height && self.tile_height <= MAX_CELLS_PER_LINE
            && self.tile_size <= MAX_LENGTH && self.tile_padding <= MAX_LENGTH
            && self.board_padding <= MAX_LENGTH && self.board_offset_y <= MAX_LENGTH
            && 0 < self.tile_move_time && self.tile_move_time <= MAX_DURATION
            && 0 < self.tile_new_time && self.tile_new_time <= MAX_DURATION
            && 0 < self.tile_combine_time && self.tile_combine_time <= MAX_DURATION
    }
}

} // verus!

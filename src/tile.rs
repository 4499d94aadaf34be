use vstd::prelude::*;

use crate::settings::{Settings, MAX_CELLS_PER_LINE, MAX_DURATION, MAX_PIXEL};

verus! {

/// Largest value a tile can hold.
pub const MAX_SCORE: u64 = 4_611_686_018_427_387_904;

/// Largest value of two tiles that still merge: their sum stays within `MAX_SCORE`.
pub const MERGE_LIMIT: u64 = 2_305_843_009_213_693_952;

/// Whether `v` is a power of two (one counts as two to the zeroth).
pub open spec fn is_pow2(v: nat) -> bool
    decreases v,
{
    if v <= 1 {
        v == 1
    } else {
        v % 2 == 0 && is_pow2(v / 2)
    }
}

/// Twice a power of two is a power of two.
pub proof fn lemma_double_pow2(v: nat)
    requires
        is_pow2(v),
    ensures
        is_pow2(2 * v),
{
    assert((2 * v) as nat / 2 == v);
}

/// Horizontal pixel position of column `x`.
pub open spec fn pos_x(s: Settings, x: int) -> int {
    s.board_padding + x * s.tile_size + (x + 1) * s.tile_padding
}

/// Vertical pixel position of row `y`.
pub open spec fn pos_y(s: Settings, y: int) -> int {
    s.board_padding + s.board_offset_y + y * s.tile_size + (y + 1) * s.tile_padding
}

/// Pixel positions of cells stay within `MAX_PIXEL`.
pub proof fn lemma_pos_bounded(s: Settings, x: int, y: int)
    requires
        s.wf(),
        0 <= x < MAX_CELLS_PER_LINE,
        0 <= y < MAX_CELLS_PER_LINE,
    ensures
        0 <= pos_x(s, x) <= MAX_PIXEL,
        0 <= pos_y(s, y) <= MAX_PIXEL,
{
    let ts = s.tile_size as int;
    let tp = s.tile_padding as int;
    assert(0 <= x * ts <= 1000 * 100_000) by (nonlinear_arith)
        requires 0 <= x < 1000, 0 <= ts <= 100_000;
    assert(0 <= (x + 1) * tp <= 1000 * 100_000) by (nonlinear_arith)
        requires 0 <= x < 1000, 0 <= tp <= 100_000;
    assert(0 <= y * ts <= 1000 * 100_000) by (nonlinear_arith)
        requires 0 <= y < 1000, 0 <= ts <= 100_000;
    assert(0 <= (y + 1) * tp <= 1000 * 100_000) by (nonlinear_arith)
        requires 0 <= y < 1000, 0 <= tp <= 100_000;
}

/// One step of the recurring first-order interpolation: moves `cur` toward
/// `target` by the fraction `dt / t` of the remaining distance, rounding
/// toward `cur`.
pub open spec fn interpolate(cur: int, target: int, dt: int, t: int) -> int {
    if target >= cur {
        cur + (dt * (target - cur)) / t
    } else {
        cur - (dt * (cur - target)) / t
    }
}

/// An interpolation step never leaves the interval between `cur` and `target`.
pub proof fn lemma_interpolate_between(cur: int, target: int, dt: int, t: int)
    requires
        0 <= dt < t,
    ensures
        target >= cur ==> cur <= interpolate(cur, target, dt, t) <= target,
        target < cur ==> target <= interpolate(cur, target, dt, t) <= cur,
{
    let d = if target >= cur { target - cur } else { cur - target };
    assert(0 <= dt * d <= t * d) by (nonlinear_arith)
        requires 0 <= dt < t, 0 <= d;
    assert(0 <= (dt * d) / t <= d) by (nonlinear_arith)
        requires 0 <= dt * d <= t * d, 0 < t;
}

/// Animation status of a tile.
#[derive(Clone, Copy, Debug, PartialEq, Eq, Structural)]
pub enum TileState {
    /// At rest.
    TileStatic,
    /// Sliding: (remaining time, x, y, origin column, origin row).
    TileMoving(u64, u64, u64, i32, i32),
    /// Just spawned and growing: (remaining time, size).
    TileNew(u64, u64),
    /// Just created by a merge and shrinking back: (remaining time, size).
    TileCombine(u64, u64),
}

/// A tile: its value, the cell it occupies (or is heading to) and its animation.
#[derive(Clone, Copy, Debug, PartialEq, Eq, Structural)]
pub struct Tile {
    pub score: u64,
    pub tile_x: i32,
    pub tile_y: i32,
    pub status: TileState,
}

impl Tile {
    /// The value is a power of two between two and `MAX_SCORE`, the cell lies on
    /// the board, and the animation's time and pixel values are in range.
    pub open spec fn wf(&self, s: Settings) -> bool {
        &&& s.in_bounds(self.tile_x as int, self.tile_y as int)
        &&& 2 <= self.score <= MAX_SCORE
        &&& is_pow2(self.score as nat)
        &&& match self.status {
            TileState::TileStatic => true,
            TileState::TileMoving(t, x, y, ox, oy) => 0 < t <= MAX_DURATION && x <= MAX_PIXEL
                && y <= MAX_PIXEL && s.in_bounds(ox as int, oy as int),
            TileState::TileNew(t, size) => 0 < t <= MAX_DURATION && size <= MAX_PIXEL,
            TileState::TileCombine(t, size) => 0 < t <= MAX_DURATION && size <= MAX_PIXEL,
        }
    }

    pub open spec fn is_static(&self) -> bool {
        self.status is TileStatic
    }

    pub open spec fn is_moving(&self) -> bool {
        self.status is TileMoving
    }

    /// Time left in the current animation; zero at rest.
    pub open spec fn remaining(&self) -> u64 {
        match self.status {
            TileState::TileStatic => 0,
            TileState::TileMoving(t, _, _, _, _) => t,
            TileState::TileNew(t, _) => t,
            TileState::TileCombine(t, _) => t,
        }
    }

    /// The tile after `start_moving(dx, dy)`: a resting tile starts sliding from
    /// its cell; a sliding tile starts over from the origin cell of its first move; a
    /// spawning or combining tile is left as it is.
    pub open spec fn moved_to(self, s: Settings, dx: i32, dy: i32) -> Tile {
        match self.status {
            TileState::TileMoving(_, _, _, ox, oy) => Tile {
                tile_x: dx,
                tile_y: dy,
                status: TileState::TileMoving(
                    s.tile_move_time,
                    pos_x(s, ox as int) as u64,
                    pos_y(s, oy as int) as u64,
                    ox,
                    oy,
                ),
                ..self
            },
            TileState::TileStatic => Tile {
                tile_x: dx,
                tile_y: dy,
                status: TileState::TileMoving(
                    s.tile_move_time,
                    pos_x(s, self.tile_x as int) as u64,
                    pos_y(s, self.tile_y as int) as u64,
                    self.tile_x,
                    self.tile_y,
                ),
                ..self
            },
            _ => self,
        }
    }

    /// The tile after `update(dt)`: an animation whose remaining time is at most
    /// `dt` ends; otherwise its time drops by `dt` and its position or size
    /// takes one interpolation step toward the target.
    pub open spec fn ticked(self, s: Settings, dt: u64) -> Tile {
        match self.status {
            TileState::TileStatic => self,
            TileState::TileMoving(t, x, y, ox, oy) => if t <= dt {
                Tile { status: TileState::TileStatic, ..self }
            } else {
                Tile {
                    status: TileState::TileMoving(
                        (t - dt) as u64,
                        interpolate(x as int, pos_x(s, self.tile_x as int), dt as int, t as int) as u64,
                        interpolate(y as int, pos_y(s, self.tile_y as int), dt as int, t as int) as u64,
                        ox,
                        oy,
                    ),
                    ..self
                }
            },
            TileState::TileNew(t, size) => if t <= dt {
                Tile { status: TileState::TileStatic, ..self }
            } else {
                Tile {
                    status: TileState::TileNew(
                        (t - dt) as u64,
                        interpolate(size as int, s.tile_size as int, dt as int, t as int) as u64,
                    ),
                    ..self
                }
            },
            TileState::TileCombine(t, size) => if t <= dt {
                Tile { status: TileState::TileStatic, ..self }
            } else {
                Tile {
                    status: TileState::TileCombine(
                        (t - dt) as u64,
                        interpolate(size as int, s.tile_size as int, dt as int, t as int) as u64,
                    ),
                    ..self
                }
            },
        }
    }

    /// A freshly spawned tile of value `score` at (tile_x, tile_y), growing from nothing.
    pub fn new(settings: &Settings, score: u64, tile_x: i32, tile_y: i32) -> (r: Tile)
        ensures
            r == (Tile {
                score,
                tile_x,
                tile_y,
                status: TileState::TileNew(settings.tile_new_time, 0),
            }),
    {
        Tile { score, tile_x, tile_y, status: TileState::TileNew(settings.tile_new_time, 0) }
    }

    /// A tile of value `score` made by a merge at (tile_x, tile_y); it starts
    /// at six fifths of the tile size and shrinks back.
    pub fn new_combined(settings: &Settings, score: u64, tile_x: i32, tile_y: i32) -> (r: Tile)
        requires
            settings.wf(),
        ensures
            r == (Tile {
                score,
                tile_x,
                tile_y,
                status: TileState::TileCombine(
                    settings.tile_combine_time,
                    (settings.tile_size * 6 / 5) as u64,
                ),
            }),
    {
        Tile {
            score,
            tile_x,
            tile_y,
            status: TileState::TileCombine(settings.tile_combine_time, settings.tile_size * 6 / 5),
        }
    }

    /// Pixel position of the top-left corner of cell (tile_x, tile_y).
    pub fn tile_to_pos(settings: &Settings, tile_x: i32, tile_y: i32) -> (r: (u64, u64))
        requires
            settings.wf(),
            settings.in_bounds(tile_x as int, tile_y as int),
        ensures
            r.0 == pos_x(*settings, tile_x as int),
            r.1 == pos_y(*settings, tile_y as int),
            r.0 <= MAX_PIXEL,
            r.1 <= MAX_PIXEL,
    {
        proof {
            lemma_pos_bounded(*settings, tile_x as int, tile_y as int);
        }
        let x = tile_x as u64;
        let y = tile_y as u64;
        let ts = settings.tile_size;
        let tp = settings.tile_padding;
        assert(x * ts <= 1000 * 100_000) by (nonlinear_arith)
            requires x < 1000, ts <= 100_000;
        assert((x + 1) * tp <= 1000 * 100_000) by (nonlinear_arith)
            requires x < 1000, tp <= 100_000;
        assert(y * ts <= 1000 * 100_000) by (nonlinear_arith)
            requires y < 1000, ts <= 100_000;
        assert((y + 1) * tp <= 1000 * 100_000) by (nonlinear_arith)
            requires y < 1000, tp <= 100_000;
        let px = settings.board_padding + x * ts + (x + 1) * tp;
        let py = settings.board_padding + settings.board_offset_y + y * ts + (y + 1) * tp;
        (px, py)
    }

    /// Starts a move animation toward cell (destination_tile_x, destination_tile_y).
    pub fn start_moving(&mut self, settings: &Settings, destination_tile_x: i32, destination_tile_y: i32)
        requires
            settings.wf(),
            old(self).wf(*settings),
            settings.in_bounds(destination_tile_x as int, destination_tile_y as int),
        ensures
            *final(self) == old(self).moved_to(*settings, destination_tile_x, destination_tile_y),
            final(self).wf(*settings),
    {
        match self.status {
            TileState::TileMoving(_, _, _, ox, oy) => {
                let (x, y) = Tile::tile_to_pos(settings, ox, oy);
                self.status = TileState::TileMoving(settings.tile_move_time, x, y, ox, oy);
                self.tile_x = destination_tile_x;
                self.tile_y = destination_tile_y;
            },
            TileState::TileStatic => {
                let (x, y) = Tile::tile_to_pos(settings, self.tile_x, self.tile_y);
                self.status = TileState::TileMoving(
                    settings.tile_move_time,
                    x,
                    y,
                    self.tile_x,
                    self.tile_y,
                );
                self.tile_x = destination_tile_x;
                self.tile_y = destination_tile_y;
            },
            _ => {},
        }
    }

    /// Advances the animation by `dt` time units.
    pub fn update(&mut self, settings: &Settings, dt: u64)
        requires
            settings.wf(),
            old(self).wf(*settings),
        ensures
            *final(self) == old(self).ticked(*settings, dt),
            final(self).wf(*settings),
    {
        match self.status {
            TileState::TileMoving(t, x, y, ox, oy) => {
                if dt >= t {
                    self.status = TileState::TileStatic;
                } else {
                    let (dx, dy) = Tile::tile_to_pos(settings, self.tile_x, self.tile_y);
                    let nx = step_toward(x, dx, dt, t);
                    let ny = step_toward(y, dy, dt, t);
                    self.status = TileState::TileMoving(t - dt, nx, ny, ox, oy);
                }
            },
            TileState::TileNew(t, size) => {
                if dt >= t {
                    self.status = TileState::TileStatic;
                } else {
                    let ns = step_toward(size, settings.tile_size, dt, t);
                    self.status = TileState::TileNew(t - dt, ns);
                }
            },
            TileState::TileCombine(t, size) => {
                if dt >= t {
                    self.status = TileState::TileStatic;
                } else {
                    let ns = step_toward(size, settings.tile_size, dt, t);
                    self.status = TileState::TileCombine(t - dt, ns);
                }
            },
            _ => {},
        }
    }
}

/// One interpolation step from `cur` toward `target` over `dt` of the remaining `t`.
fn step_toward(cur: u64, target: u64, dt: u64, t: u64) -> (r: u64)
    requires
        dt < t <= MAX_DURATION,
        cur <= MAX_PIXEL,
        target <= MAX_PIXEL,
    ensures
        r == interpolate(cur as int, target as int, dt as int, t as int),
        r <= MAX_PIXEL,
{
    proof {
        lemma_interpolate_between(cur as int, target as int, dt as int, t as int);
    }
    if target >= cur {
        let d = target - cur;
        assert(dt * d <= 1_000_000_000 * 1_000_000_000) by (nonlinear_arith)
            requires dt < 1_000_000_000, d <= 1_000_000_000;
        cur + (dt * d) / t
    } else {
        let d = cur - target;
        assert(dt * d <= 1_000_000_000 * 1_000_000_000) by (nonlinear_arith)
            requires dt < 1_000_000_000, d <= 1_000_000_000;
        cur - (dt * d) / t
    }
}

} // verus!

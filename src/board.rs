use vstd::prelude::*;

use crate::grid::{find_tile, index_at, lemma_first_at, shares};
use crate::merge::{any_moves, compute_targets, lemma_slid, moves, slid, Direction};
use crate::settle::{
    combined, kept, lemma_settle_keeps_total, lemma_settle_no_pairs, lemma_settle_wf, lemma_value_total_same_scores,
    settle, settle_tiles, value_total,
};
use crate::settings::Settings;
use crate::tile::{is_pow2, Tile, TileState, MAX_SCORE, MERGE_LIMIT};

verus! {

/// What a board holds: its tiles (in no meaningful order), its score and its settings.
pub struct BoardView {
    pub tiles: Seq<Tile>,
    pub score: u64,
    pub settings: Settings,
}

/// No two tiles stand on the same cell.
pub open spec fn no_pairs(tiles: Seq<Tile>) -> bool {
    forall|a: int, b: int|
        0 <= a < tiles.len() && 0 <= b < tiles.len() && a != b ==> !#[trigger] shares(tiles, a, b)
}

/// Two tiles on one cell hold equal values that may merge, and no cell holds three tiles.
pub open spec fn pairs_mergeable(tiles: Seq<Tile>) -> bool {
    &&& forall|a: int, b: int|
        0 <= a < tiles.len() && 0 <= b < tiles.len() && a != b && #[trigger] shares(tiles, a, b)
            ==> tiles[a].score == tiles[b].score && tiles[a].score <= MERGE_LIMIT
    &&& forall|a: int, b: int, c: int|
        0 <= a < tiles.len() && 0 <= b < tiles.len() && 0 <= c < tiles.len() && a != b && b != c
            && a != c ==> !(#[trigger] shares(tiles, a, b) && #[trigger] shares(tiles, b, c))
}

/// Every tile is at rest.
pub open spec fn all_static(tiles: Seq<Tile>) -> bool {
    forall|i: int| 0 <= i < tiles.len() ==> (#[trigger] tiles[i]).is_static()
}

/// Whether (x, y) is a cell where a tile may spawn: on the board and empty.
pub open spec fn is_empty_cell(tiles: Seq<Tile>, s: Settings, x: int, y: int) -> bool {
    s.in_bounds(x, y) && index_at(tiles, x, y) == -1
}

/// The tile that spawns at (x, y) with value `v`.
pub open spec fn spawn_tile_at(s: Settings, v: u64, x: int, y: int) -> Tile {
    Tile { score: v, tile_x: x as i32, tile_y: y as i32, status: TileState::TileNew(s.tile_new_time, 0) }
}

/// Empty cells of row `y` among its first `x` columns, left to right.
pub open spec fn empty_in_row(tiles: Seq<Tile>, y: int, x: int) -> Seq<(i32, i32)>
    decreases x,
{
    if x <= 0 {
        seq![]
    } else if index_at(tiles, x - 1, y) == -1 {
        empty_in_row(tiles, y, x - 1).push(((x - 1) as i32, y as i32))
    } else {
        empty_in_row(tiles, y, x - 1)
    }
}

/// Empty cells of the first `y` rows, in row-major order.
pub open spec fn empty_in_rows(tiles: Seq<Tile>, s: Settings, y: int) -> Seq<(i32, i32)>
    decreases y,
{
    if y <= 0 {
        seq![]
    } else {
        empty_in_rows(tiles, s, y - 1) + empty_in_row(tiles, y - 1, s.tile_width as int)
    }
}

/// Empty cells of the board, in row-major order.
pub open spec fn empty_cells(tiles: Seq<Tile>, s: Settings) -> Seq<(i32, i32)> {
    empty_in_rows(tiles, s, s.tile_height as int)
}

/// Value of a spawned tile for a draw: four for one draw in ten, else two.
pub open spec fn spawn_value(value_draw: u32) -> u64 {
    if value_draw % 10 == 0 {
        4
    } else {
        2
    }
}

/// The tiles after a spawn with the given draws: nothing when no cell is
/// empty, else a new tile on the empty cell that the first draw picks.
pub open spec fn spawned_with(tiles: Seq<Tile>, s: Settings, cell_draw: u32, value_draw: u32) -> Seq<Tile> {
    let e = empty_cells(tiles, s);
    if e.len() == 0 {
        tiles
    } else {
        let c = e[cell_draw as int % e.len() as int];
        tiles.push(spawn_tile_at(s, spawn_value(value_draw), c.0 as int, c.1 as int))
    }
}

/// `after` is `before` with one spawn, for some outcome of the draws.
pub open spec fn spawned(before: Seq<Tile>, after: Seq<Tile>, s: Settings) -> bool {
    exists|cell_draw: u32, value_draw: u32| after == #[trigger] spawned_with(before, s, cell_draw, value_draw)
}

/// The tiles after every animation advanced by `dt`.
pub open spec fn ticked_all(tiles: Seq<Tile>, s: Settings, dt: u64) -> Seq<Tile> {
    tiles.map_values(|t: Tile| t.ticked(s, dt))
}

/// `a + b`, saturated at the largest score.
pub open spec fn sat_add(a: int, b: int) -> int {
    if a + b > u64::MAX {
        u64::MAX as int
    } else {
        a + b
    }
}

/// Value of the tile that a spawn appended to `before`, or zero when none was.
pub open spec fn spawn_gain(before: Seq<Tile>, after: Seq<Tile>) -> int {
    if after.len() == before.len() + 1 {
        after.last().score as int
    } else {
        0
    }
}

/// `after` is what a move in direction `d` makes of `before`: on a board at
/// rest where some tile can slide or merge, the slid tiles plus one spawned tile
/// (the move always frees a cell);
/// otherwise nothing changes. The score is left to the settlement.
pub open spec fn move_result(before: BoardView, after: BoardView, d: Direction) -> bool {
    let s = before.settings;
    &&& after.settings == s
    &&& after.score == before.score
    &&& if before.settled() && any_moves(before.tiles, d, s) {
        &&& spawned(slid(before.tiles, d, s), after.tiles, s)
        &&& after.tiles.len() == before.tiles.len() + 1
    } else {
        after == before
    }
}

impl BoardView {
    pub open spec fn settled(self) -> bool {
        all_static(self.tiles)
    }

    /// The timing that keeps a merge from firing before both of its tiles
    /// arrive: two tiles share a cell only while one of them is still moving;
    /// all moving tiles finish together, no spawning tile outlasts them, and
    /// no combining tile runs beside them.
    pub open spec fn settling_order(self) -> bool {
        &&& forall|a: int, b: int|
            0 <= a < self.tiles.len() && 0 <= b < self.tiles.len() && a != b && #[trigger] shares(self.tiles, a, b)
                ==> self.tiles[a].is_moving() || self.tiles[b].is_moving()
        &&& forall|a: int, b: int|
            0 <= a < self.tiles.len() && 0 <= b < self.tiles.len() && (#[trigger] self.tiles[a]).is_moving()
                && (#[trigger] self.tiles[b]).is_moving() ==> self.tiles[a].remaining() == self.tiles[b].remaining()
        &&& forall|a: int, b: int|
            0 <= a < self.tiles.len() && 0 <= b < self.tiles.len() && (#[trigger] self.tiles[a]).is_moving()
                && (#[trigger] self.tiles[b]).status is TileNew ==> self.tiles[b].remaining() <= self.tiles[a].remaining()
        &&& forall|a: int, b: int|
            0 <= a < self.tiles.len() && 0 <= b < self.tiles.len() && (#[trigger] self.tiles[a]).is_moving()
                ==> !((#[trigger] self.tiles[b]).status is TileCombine)
    }

    /// The settings are valid, every tile is valid, tiles share a cell only as
    /// a pair awaiting its merge, and a board at rest has no such pair.
    pub open spec fn wf(self) -> bool {
        &&& self.settings.wf()
        &&& forall|i: int| 0 <= i < self.tiles.len() ==> (#[trigger] self.tiles[i]).wf(self.settings)
        &&& pairs_mergeable(self.tiles)
        &&& self.settled() ==> no_pairs(self.tiles)
    }
}

/// The game board: the tiles, the accumulated score and the settings.
pub struct Board {
    tiles: Vec<Tile>,
    score: u64,
    settings: Settings,
}

impl View for Board {
    type V = BoardView;

    closed spec fn view(&self) -> BoardView {
        BoardView { tiles: self.tiles@, score: self.score, settings: self.settings }
    }
}

proof fn lemma_empty_in_row(tiles: Seq<Tile>, y: int, x: int)
    requires
        0 <= x <= 1000,
        0 <= y < 1000,
    ensures
        empty_in_row(tiles, y, x).len() <= x,
        forall|j: int|
            0 <= j < empty_in_row(tiles, y, x).len() ==> {
                let c = #[trigger] empty_in_row(tiles, y, x)[j];
                0 <= c.0 < x && c.1 as int == y && index_at(tiles, c.0 as int, c.1 as int) == -1
            },
    decreases x,
{
    if x > 0 {
        lemma_empty_in_row(tiles, y, x - 1);
    }
}

proof fn lemma_empty_in_rows(tiles: Seq<Tile>, s: Settings, y: int)
    requires
        0 <= y <= s.tile_height,
        s.wf(),
    ensures
        forall|j: int|
            0 <= j < empty_in_rows(tiles, s, y).len() ==> {
                let c = #[trigger] empty_in_rows(tiles, s, y)[j];
                is_empty_cell(tiles, s, c.0 as int, c.1 as int) && c.1 < y
            },
    decreases y,
{
    if y > 0 {
        lemma_empty_in_rows(tiles, s, y - 1);
        lemma_empty_in_row(tiles, y - 1, s.tile_width as int);
        let a = empty_in_rows(tiles, s, y - 1);
        let b = empty_in_row(tiles, y - 1, s.tile_width as int);
        assert(empty_in_rows(tiles, s, y) == a + b);
        assert forall|j: int| 0 <= j < (a + b).len() implies {
            let c = #[trigger] (a + b)[j];
            is_empty_cell(tiles, s, c.0 as int, c.1 as int) && c.1 < y
        } by {
            if j >= a.len() {
                assert((a + b)[j] == b[j - a.len()]);
            } else {
                assert((a + b)[j] == a[j]);
            }
        }
    }
}

proof fn lemma_empty_in_row_found(tiles: Seq<Tile>, y: int, x: int, x0: int)
    requires
        0 <= x0 < x,
        index_at(tiles, x0, y) == -1,
    ensures
        empty_in_row(tiles, y, x).len() > 0,
    decreases x,
{
    if x - 1 > x0 {
        lemma_empty_in_row_found(tiles, y, x - 1, x0);
    }
}

proof fn lemma_empty_in_rows_found(tiles: Seq<Tile>, s: Settings, y: int, x0: int, y0: int)
    requires
        0 <= x0 < s.tile_width,
        0 <= y0 < y,
        index_at(tiles, x0, y0) == -1,
    ensures
        empty_in_rows(tiles, s, y).len() > 0,
    decreases y,
{
    if y - 1 > y0 {
        lemma_empty_in_rows_found(tiles, s, y - 1, x0, y0);
    } else {
        lemma_empty_in_row_found(tiles, y0, s.tile_width as int, x0);
    }
}

/// A board with an empty cell lists at least one empty cell.
pub proof fn lemma_empty_cells_found(tiles: Seq<Tile>, s: Settings, x: int, y: int)
    requires
        is_empty_cell(tiles, s, x, y),
    ensures
        empty_cells(tiles, s).len() > 0,
{
    lemma_empty_in_rows_found(tiles, s, s.tile_height as int, x, y);
}

/// Each cell listed by `empty_cells` is on the board and empty.
pub proof fn lemma_empty_cells(tiles: Seq<Tile>, s: Settings)
    requires
        s.wf(),
    ensures
        forall|j: int|
            0 <= j < empty_cells(tiles, s).len() ==> {
                let c = #[trigger] empty_cells(tiles, s)[j];
                is_empty_cell(tiles, s, c.0 as int, c.1 as int)
            },
{
    lemma_empty_in_rows(tiles, s, s.tile_height as int);
}

/// Adding a tile on an empty cell keeps a board well formed, and a board
/// that keeps an animating tile is not at rest.
proof fn lemma_push_on_empty(b: BoardView, t: Tile)
    requires
        b.wf(),
        t.wf(b.settings),
        !t.is_static(),
        index_at(b.tiles, t.tile_x as int, t.tile_y as int) == -1,
    ensures
        (BoardView { tiles: b.tiles.push(t), ..b }).wf(),
{
    let nt = b.tiles.push(t);
    let n = b.tiles.len() as int;
    lemma_first_at(b.tiles, t.tile_x as int, t.tile_y as int, 0);
    assert forall|a: int, c: int| 0 <= a < nt.len() && 0 <= c < nt.len() && a != c && (a == n || c == n)
        implies !shares(nt, a, c) by {
        if a == n {
            assert(nt[c] == b.tiles[c]);
        } else {
            assert(nt[a] == b.tiles[a]);
        }
    }
    assert forall|a: int, c: int| 0 <= a < nt.len() && 0 <= c < nt.len() && a != c && #[trigger] shares(nt, a, c)
        implies nt[a].score == nt[c].score && nt[a].score <= MERGE_LIMIT by {
        assert(shares(b.tiles, a, c));
    }
    assert forall|a: int, c: int, e: int|
        0 <= a < nt.len() && 0 <= c < nt.len() && 0 <= e < nt.len() && a != c && c != e && a != e
        implies !(#[trigger] shares(nt, a, c) && #[trigger] shares(nt, c, e)) by {
        if shares(nt, a, c) && shares(nt, c, e) {
            assert(shares(b.tiles, a, c) && shares(b.tiles, c, e));
        }
    }
    assert(!all_static(nt)) by {
        assert(!nt[n].is_static());
    }
}

/// Relies on `rand::random::<u32>`, which draws from the thread-local
/// generator; nothing is known of the value drawn.
#[verifier::external_body]
fn random_u32() -> (r: u32) {
    rand::random::<u32>()
}

/// Advancing the animations keeps the settling order; when a pair's moving tile
/// comes to rest, so does every other tile.
proof fn lemma_tick_order(b: BoardView, dt: u64)
    requires
        b.wf(),
        b.settling_order(),
    ensures
        ({
            let tk = ticked_all(b.tiles, b.settings, dt);
            &&& all_static(tk) ==> no_pairs(settle(tk, b.settings)) && forall|i: int|
                0 <= i < settle(tk, b.settings).len() ==> !(#[trigger] settle(tk, b.settings)[i]).is_moving()
            &&& !all_static(tk) ==> (BoardView { tiles: tk, ..b }).settling_order()
        }),
{
    let s = b.settings;
    let tk = ticked_all(b.tiles, s, dt);
    let n = b.tiles.len() as int;
    assert forall|j: int| 0 <= j < n implies {
        let t = #[trigger] tk[j];
        &&& t.tile_x == b.tiles[j].tile_x && t.tile_y == b.tiles[j].tile_y && t.score == b.tiles[j].score
        &&& t.wf(s)
        &&& t.is_moving() ==> b.tiles[j].is_moving() && b.tiles[j].remaining() > dt && t.remaining() == b.tiles[j].remaining() - dt
        &&& t.status is TileNew ==> b.tiles[j].status is TileNew && b.tiles[j].remaining() > dt && t.remaining() == b.tiles[j].remaining() - dt
        &&& t.status is TileCombine ==> b.tiles[j].status is TileCombine
        &&& b.tiles[j].remaining() <= dt ==> t.is_static()
    } by {
        assert(b.tiles[j].wf(s));
        let w = b.tiles[j];
        match w.status {
            TileState::TileMoving(t0, x, y, _, _) => {
                if t0 > dt {
                    crate::tile::lemma_interpolate_between(x as int, crate::tile::pos_x(s, w.tile_x as int), dt as int, t0 as int);
                    crate::tile::lemma_interpolate_between(y as int, crate::tile::pos_y(s, w.tile_y as int), dt as int, t0 as int);
                    crate::tile::lemma_pos_bounded(s, w.tile_x as int, w.tile_y as int);
                }
            },
            TileState::TileNew(t0, size) => {
                if t0 > dt {
                    crate::tile::lemma_interpolate_between(size as int, s.tile_size as int, dt as int, t0 as int);
                }
            },
            TileState::TileCombine(t0, size) => {
                if t0 > dt {
                    crate::tile::lemma_interpolate_between(size as int, s.tile_size as int, dt as int, t0 as int);
                }
            },
            TileState::TileStatic => {},
        }
    }
    if all_static(tk) {
        assert forall|a: int, c: int| 0 <= a < n && 0 <= c < n && a != c && #[trigger] shares(tk, a, c)
            implies tk[a].score == tk[c].score && tk[a].score <= MERGE_LIMIT by {
            assert(shares(b.tiles, a, c));
        }
        lemma_settle_wf(tk, s);
        crate::settle::lemma_settle_static(tk, s);
    } else {
        let nb = BoardView { tiles: tk, ..b };
        assert forall|a: int, c: int| 0 <= a < n && 0 <= c < n && a != c && #[trigger] shares(tk, a, c)
            implies tk[a].is_moving() || tk[c].is_moving() by {
            assert(shares(b.tiles, a, c));
            let m = if b.tiles[a].is_moving() { a } else { c };
            assert(b.tiles[m].is_moving());
            if b.tiles[m].remaining() <= dt {
                assert forall|e: int| 0 <= e < n implies (#[trigger] tk[e]).is_static() by {
                    assert(b.tiles[m].is_moving());
                    if b.tiles[e].is_moving() {
                        assert(b.tiles[e].remaining() == b.tiles[m].remaining());
                    } else if b.tiles[e].status is TileNew {
                        assert(b.tiles[e].remaining() <= b.tiles[m].remaining());
                    } else {
                        assert(!(b.tiles[e].status is TileCombine));
                    }
                }
                assert(false);
            }
        }
        assert forall|a: int, c: int| 0 <= a < n && 0 <= c < n && (#[trigger] tk[a]).is_moving()
            && (#[trigger] tk[c]).is_moving() implies tk[a].remaining() == tk[c].remaining() by {
            assert(b.tiles[a].is_moving() && b.tiles[c].is_moving());
        }
        assert forall|a: int, c: int| 0 <= a < n && 0 <= c < n && (#[trigger] tk[a]).is_moving()
            && (#[trigger] tk[c]).status is TileNew implies tk[c].remaining() <= tk[a].remaining() by {
            assert(b.tiles[a].is_moving() && b.tiles[c].status is TileNew);
        }
        assert forall|a: int, c: int| 0 <= a < n && 0 <= c < n && (#[trigger] tk[a]).is_moving()
            implies !((#[trigger] tk[c]).status is TileCombine) by {
            assert(b.tiles[a].is_moving());
            if tk[c].status is TileCombine {
                assert(b.tiles[c].status is TileCombine);
            }
        }
        assert(nb.settling_order());
    }
}

/// No two tiles at rest stand on the same cell, in any state that keeps the
/// settling order. `Board::new` establishes that order, `update` keeps it, and
/// `request_move` keeps it whenever a spawn animation lasts no longer than a
/// move animation.
pub proof fn lemma_static_tiles_apart(b: BoardView)
    requires
        b.settling_order(),
    ensures
        forall|i: int, j: int|
            0 <= i < b.tiles.len() && 0 <= j < b.tiles.len() && i != j && b.tiles[i].is_static()
                && b.tiles[j].is_static() ==> !#[trigger] shares(b.tiles, i, j),
{
}

impl Board {
    /// A board with no tiles.
    pub fn empty(settings: &Settings) -> (r: Board)
        requires
            settings.wf(),
        ensures
            r@.wf(),
            r@.tiles.len() == 0,
            r@.score == 0,
            r@.settings == *settings,
    {
        Board { tiles: Vec::new(), score: 0, settings: *settings }
    }

    /// The accumulated score.
    pub fn score(&self) -> (r: u64)
        ensures
            r == self@.score,
    {
        self.score
    }

    /// The settings the board was made with.
    pub fn settings(&self) -> (r: &Settings)
        ensures
            *r == self@.settings,
    {
        &self.settings
    }

    /// The tiles, for rendering.
    pub fn tiles(&self) -> (r: &Vec<Tile>)
        ensures
            r@ == self@.tiles,
    {
        &self.tiles
    }

    /// The tile on cell (x, y), if any.
    pub fn tile_at(&self, x: i32, y: i32) -> (r: Option<Tile>)
        requires
            self@.settings.in_bounds(x as int, y as int),
        ensures
            r == if index_at(self@.tiles, x as int, y as int) >= 0 {
                Some(self@.tiles[index_at(self@.tiles, x as int, y as int)])
            } else {
                None::<Tile>
            },
    {
        proof {
            lemma_first_at(self.tiles@, x as int, y as int, 0);
        }
        match find_tile(&self.tiles, x, y) {
            Some(i) => Some(self.tiles[i]),
            None => None,
        }
    }

    /// Whether every tile is at rest.
    pub fn is_settled(&self) -> (r: bool)
        ensures
            r == self@.settled(),
    {
        let mut i: usize = 0;
        while i < self.tiles.len()
            invariant
                i <= self.tiles.len(),
                forall|j: int| 0 <= j < i ==> (#[trigger] self.tiles@[j]).is_static(),
            decreases self.tiles.len() - i,
        {
            match self.tiles[i].status {
                TileState::TileStatic => {},
                _ => {
                    return false;
                },
            }
            i += 1;
        }
        true
    }

    /// Puts a tile of value `value` at rest on cell (x, y) if that cell is
    /// empty; returns whether it did.
    pub fn place_tile(&mut self, value: u64, x: i32, y: i32) -> (r: bool)
        requires
            old(self)@.wf(),
            old(self)@.settings.in_bounds(x as int, y as int),
            2 <= value <= MAX_SCORE,
            is_pow2(value as nat),
        ensures
            final(self)@.wf(),
            r == (index_at(old(self)@.tiles, x as int, y as int) == -1),
            r ==> final(self)@ == (BoardView {
                tiles: old(self)@.tiles.push(Tile { score: value, tile_x: x, tile_y: y, status: TileState::TileStatic }),
                ..old(self)@
            }),
            !r ==> final(self)@ == old(self)@,
    {
        match find_tile(&self.tiles, x, y) {
            Some(_) => false,
            None => {
                let ghost b = self@;
                let t = Tile { score: value, tile_x: x, tile_y: y, status: TileState::TileStatic };
                self.tiles.push(t);
                proof {
                    let nt = self.tiles@;
                    let n = b.tiles.len() as int;
                    lemma_first_at(b.tiles, x as int, y as int, 0);
                    assert forall|a: int, c: int| 0 <= a < nt.len() && 0 <= c < nt.len() && a != c && (a == n || c == n)
                        implies !shares(nt, a, c) by {
                        if a == n {
                            assert(nt[c] == b.tiles[c]);
                        } else {
                            assert(nt[a] == b.tiles[a]);
                        }
                    }
                    assert forall|a: int, c: int| 0 <= a < nt.len() && 0 <= c < nt.len() && a != c && #[trigger] shares(nt, a, c)
                        implies nt[a].score == nt[c].score && nt[a].score <= MERGE_LIMIT by {
                        assert(shares(b.tiles, a, c));
                    }
                    assert forall|a: int, c: int, e: int|
                        0 <= a < nt.len() && 0 <= c < nt.len() && 0 <= e < nt.len() && a != c && c != e && a != e
                        implies !(#[trigger] shares(nt, a, c) && #[trigger] shares(nt, c, e)) by {
                        if shares(nt, a, c) && shares(nt, c, e) {
                            assert(shares(b.tiles, a, c) && shares(b.tiles, c, e));
                        }
                    }
                    if all_static(nt) {
                        assert forall|a: int| 0 <= a < b.tiles.len() implies (#[trigger] b.tiles[a]).is_static() by {
                            assert(nt[a] == b.tiles[a]);
                        }
                        assert forall|a: int, c: int| 0 <= a < nt.len() && 0 <= c < nt.len() && a != c
                            implies !#[trigger] shares(nt, a, c) by {
                            if a != n && c != n {
                                assert(!shares(b.tiles, a, c));
                            }
                        }
                    }
                }
                true
            },
        }
    }

    /// A board seeded with two spawned tiles.
    pub fn new(settings: &Settings) -> (r: Board)
        requires
            settings.wf(),
        ensures
            r@.wf(),
            r@.score == 0,
            r@.settings == *settings,
            r@.settling_order(),
            exists|mid: Seq<Tile>| spawned(seq![], mid, *settings) && #[trigger] spawned(mid, r@.tiles, *settings),
    {
        let mut board = Board::empty(settings);
        assert(board@.tiles =~= seq![]);
        board.generate_tile();
        let ghost mid = board@.tiles;
        assert(spawned(seq![], mid, *settings));
        board.generate_tile();
        assert(spawned(mid, board@.tiles, *settings));
        board
    }

    /// Discards the game and starts a new one with the same settings.
    pub fn reset(&mut self)
        requires
            old(self)@.wf(),
        ensures
            final(self)@.wf(),
            final(self)@.score == 0,
            final(self)@.settings == old(self)@.settings,
            final(self)@.settling_order(),
            exists|mid: Seq<Tile>|
                spawned(seq![], mid, old(self)@.settings) && #[trigger] spawned(mid, final(self)@.tiles, old(self)@.settings),
    {
        *self = Board::new(&self.settings);
    }

    /// The empty cells, in row-major order.
    fn empty_cells(&self) -> (r: Vec<(i32, i32)>)
        requires
            self@.settings.wf(),
        ensures
            r@ == empty_cells(self@.tiles, self@.settings),
    {
        let mut cells: Vec<(i32, i32)> = Vec::new();
        let mut y: i32 = 0;
        while y < self.settings.tile_height
            invariant
                self@.settings.wf(),
                0 <= y <= self.settings.tile_height,
                cells@ == empty_in_rows(self@.tiles, self@.settings, y as int),
            decreases self.settings.tile_height - y,
        {
            let mut x: i32 = 0;
            while x < self.settings.tile_width
                invariant
                    self@.settings.wf(),
                    0 <= y < self.settings.tile_height,
                    0 <= x <= self.settings.tile_width,
                    cells@ == empty_in_rows(self@.tiles, self@.settings, y as int) + empty_in_row(
                        self@.tiles,
                        y as int,
                        x as int,
                    ),
                decreases self.settings.tile_width - x,
            {
                match find_tile(&self.tiles, x, y) {
                    Some(_) => {},
                    None => {
                        cells.push((x, y));
                        assert(cells@ =~= empty_in_rows(self@.tiles, self@.settings, y as int) + empty_in_row(
                            self@.tiles,
                            y as int,
                            x + 1,
                        ));
                    },
                }
                x += 1;
            }
            assert(cells@ =~= empty_in_rows(self@.tiles, self@.settings, y + 1));
            y += 1;
        }
        cells
    }

    /// Spawns a tile with the given draws: on the empty cell that `cell_draw`
    /// picks among the empty cells in row-major order, with value four when
    /// `value_draw` is a multiple of ten and two otherwise. Does nothing on a
    /// full board.
    pub fn spawn_tile(&mut self, cell_draw: u32, value_draw: u32)
        requires
            old(self)@.wf(),
        ensures
            final(self)@.wf(),
            final(self)@ == (BoardView {
                tiles: spawned_with(old(self)@.tiles, old(self)@.settings, cell_draw, value_draw),
                ..old(self)@
            }),
            old(self)@.settling_order() && (forall|i: int| 0 <= i < old(self)@.tiles.len() && (#[trigger] old(self)@.tiles[i]).is_moving()
                ==> old(self)@.settings.tile_new_time <= old(self)@.tiles[i].remaining()) ==> final(self)@.settling_order(),
    {
        let cells = self.empty_cells();
        if cells.len() == 0 {
            return;
        }
        let c = cells[(cell_draw as usize) % cells.len()];
        let value: u64 = if value_draw % 10 == 0 {
            4
        } else {
            2
        };
        let t = Tile::new(&self.settings, value, c.0, c.1);
        proof {
            lemma_empty_cells(self@.tiles, self@.settings);
            let j = (cell_draw as usize % cells.len()) as int;
            assert(cells@[j] == c);
            assert(is_pow2(1));
            assert(is_pow2(2));
            assert(is_pow2(4));
            lemma_push_on_empty(self@, t);
        }
        let ghost b = self@;
        self.tiles.push(t);
        proof {
            let nt = self@.tiles;
            let n = b.tiles.len() as int;
            lemma_first_at(b.tiles, t.tile_x as int, t.tile_y as int, 0);
            if b.settling_order() && (forall|i: int| 0 <= i < b.tiles.len() && (#[trigger] b.tiles[i]).is_moving()
                ==> b.settings.tile_new_time <= b.tiles[i].remaining()) {
                assert forall|a: int, c: int| 0 <= a < nt.len() && 0 <= c < nt.len() && a != c && #[trigger] shares(nt, a, c)
                    implies nt[a].is_moving() || nt[c].is_moving() by {
                    if a == n {
                        assert(nt[c] == b.tiles[c]);
                    } else if c == n {
                        assert(nt[a] == b.tiles[a]);
                    } else {
                        assert(shares(b.tiles, a, c));
                    }
                }
                assert forall|a: int, c: int| 0 <= a < nt.len() && 0 <= c < nt.len() && (#[trigger] nt[a]).is_moving()
                    && (#[trigger] nt[c]).is_moving() implies nt[a].remaining() == nt[c].remaining() by {
                    assert(nt[a] == b.tiles[a] && nt[c] == b.tiles[c]);
                }
                assert forall|a: int, c: int| 0 <= a < nt.len() && 0 <= c < nt.len() && (#[trigger] nt[a]).is_moving()
                    && (#[trigger] nt[c]).status is TileNew implies nt[c].remaining() <= nt[a].remaining() by {
                    assert(nt[a] == b.tiles[a]);
                    if c < n {
                        assert(nt[c] == b.tiles[c]);
                    }
                }
                assert forall|a: int, c: int| 0 <= a < nt.len() && 0 <= c < nt.len() && (#[trigger] nt[a]).is_moving()
                    implies !((#[trigger] nt[c]).status is TileCombine) by {
                    assert(nt[a] == b.tiles[a]);
                    if c < n {
                        assert(nt[c] == b.tiles[c]);
                    }
                }
            }
        }
    }

    /// Spawns a tile on a randomly drawn empty cell, with value two, or four
    /// with probability one in ten. Does nothing on a full board.
    pub fn generate_tile(&mut self)
        requires
            old(self)@.wf(),
        ensures
            final(self)@.wf(),
            final(self)@.score == old(self)@.score,
            final(self)@.settings == old(self)@.settings,
            spawned(old(self)@.tiles, final(self)@.tiles, old(self)@.settings),
            old(self)@.settling_order() && (forall|i: int| 0 <= i < old(self)@.tiles.len() && (#[trigger] old(self)@.tiles[i]).is_moving()
                ==> old(self)@.settings.tile_new_time <= old(self)@.tiles[i].remaining()) ==> final(self)@.settling_order(),
    {
        let cell_draw = random_u32();
        let value_draw = random_u32();
        self.spawn_tile(cell_draw, value_draw);
        assert(final(self)@.tiles == spawned_with(old(self)@.tiles, old(self)@.settings, cell_draw, value_draw));
    }

    /// Adds the value of one merge to the score, saturating at the largest score.
    fn add_score(&mut self, score: u64)
        ensures
            final(self)@ == (BoardView { score: sat_add(old(self)@.score as int, score as int) as u64, ..old(self)@ }),
    {
        if self.score > u64::MAX - score {
            self.score = u64::MAX;
        } else {
            self.score = self.score + score;
        }
    }

    /// Advances every animation by `dt`. When that leaves every tile at rest,
    /// runs the settlement: each pair of tiles on one cell is replaced by one
    /// combined tile of their summed value, and that value is added to the score.
    pub fn update(&mut self, dt: u64)
        requires
            old(self)@.wf(),
        ensures
            final(self)@.wf(),
            final(self)@.settings == old(self)@.settings,
            ({
                let s = old(self)@.settings;
                let tk = ticked_all(old(self)@.tiles, s, dt);
                if all_static(tk) {
                    &&& final(self)@.tiles == settle(tk, s)
                    &&& final(self)@.score == sat_add(old(self)@.score as int, value_total(combined(tk, s)))
                } else {
                    &&& final(self)@.tiles == tk
                    &&& final(self)@.score == old(self)@.score
                }
            }),
            dt == 0 ==> final(self)@ == old(self)@,
            old(self)@.settling_order() ==> final(self)@.settling_order(),
            value_total(final(self)@.tiles) == value_total(old(self)@.tiles),
    {
        let ghost b = self@;
        let n = self.tiles.len();
        let mut i: usize = 0;
        while i < n
            invariant
                b.wf(),
                n == self.tiles.len(),
                n == b.tiles.len(),
                i <= n,
                self.settings == b.settings,
                self.score == b.score,
                forall|j: int| 0 <= j < i ==> self.tiles@[j] == #[trigger] b.tiles[j].ticked(b.settings, dt),
                forall|j: int| i <= j < n ==> self.tiles@[j] == #[trigger] b.tiles[j],
                forall|j: int| 0 <= j < i ==> (#[trigger] self.tiles@[j]).wf(b.settings),
            decreases n - i,
        {
            let mut t = self.tiles[i];
            assert(b.tiles[i as int].wf(b.settings));
            t.update(&self.settings, dt);
            self.tiles.set(i, t);
            i += 1;
        }
        let ghost tk = ticked_all(b.tiles, b.settings, dt);
        assert(self.tiles@ =~= tk);
        assert forall|j: int| 0 <= j < n implies (#[trigger] tk[j]).wf(b.settings) && tk[j].tile_x == b.tiles[j].tile_x
            && tk[j].tile_y == b.tiles[j].tile_y && tk[j].score == b.tiles[j].score by {
            assert(self.tiles@[j] == tk[j]);
        }
        assert forall|a: int, c: int| 0 <= a < n && 0 <= c < n implies #[trigger] shares(tk, a, c) == shares(b.tiles, a, c) by {}
        proof {
            if dt == 0 {
                assert forall|j: int| 0 <= j < n implies #[trigger] tk[j] == b.tiles[j] by {
                    assert(b.tiles[j].wf(b.settings));
                }
                assert(tk =~= b.tiles);
            }
            if b.settling_order() {
                lemma_tick_order(b, dt);
            }
            lemma_value_total_same_scores(tk, b.tiles);
        }
        if !self.is_settled() {
            return;
        }
        let (mut stay, made) = settle_tiles(&self.tiles, &self.settings);
        let ghost made_all = made@;
        let mut j: usize = 0;
        while j < made.len()
            invariant
                made@ == made_all,
                made_all == combined(tk, b.settings),
                stay@ == kept(tk) + made_all.take(j as int),
                j <= made.len(),
                self.settings == b.settings,
                self.tiles@ == tk,
                self.score == sat_add(b.score as int, value_total(made_all.take(j as int))),
            decreases made.len() - j,
        {
            let c = made[j];
            self.add_score(c.score);
            stay.push(c);
            assert(made_all.take(j + 1).drop_last() =~= made_all.take(j as int));
            assert(stay@ =~= kept(tk) + made_all.take(j + 1));
            j += 1;
        }
        assert(made_all.take(made_all.len() as int) =~= made_all);
        self.tiles = stay;
        proof {
            lemma_settle_wf(tk, b.settings);
            lemma_settle_keeps_total(tk, b.settings);
            if dt == 0 {
                lemma_settle_no_pairs(tk, b.settings);
                assert(made_all.len() == 0);
                assert(value_total(made_all) == 0);
            }
            let r = settle(tk, b.settings);
            assert(self@.tiles == r);
            assert forall|a: int, c: int, e: int|
                0 <= a < r.len() && 0 <= c < r.len() && 0 <= e < r.len() && a != c && c != e && a != e
                implies !(#[trigger] shares(r, a, c) && #[trigger] shares(r, c, e)) by {}
        }
    }

    /// Pushes every tile toward the edge in direction `d`, merging equal
    /// neighbours once, and spawns a tile if anything moved. Ignored while
    /// any tile is animating.
    pub fn request_move(&mut self, d: Direction)
        requires
            old(self)@.wf(),
        ensures
            final(self)@.wf(),
            move_result(old(self)@, final(self)@, d),
            old(self)@.settling_order() && old(self)@.settings.tile_new_time <= old(self)@.settings.tile_move_time
                ==> final(self)@.settling_order(),
            value_total(final(self)@.tiles) == value_total(old(self)@.tiles) + spawn_gain(old(self)@.tiles, final(self)@.tiles),
    {
        if !self.is_settled() {
            return;
        }
        let ghost b = self@;
        let targets = compute_targets(&self.tiles, &self.settings, d);
        proof {
            lemma_slid(b.tiles, d, b.settings);
        }
        let ghost r = slid(b.tiles, d, b.settings);
        let n = self.tiles.len();
        let mut moved = false;
        let mut i: usize = 0;
        while i < n
            invariant
                b.wf(),
                b.settled(),
                n == b.tiles.len(),
                n == self.tiles.len(),
                n == targets.len(),
                i <= n,
                self.settings == b.settings,
                self.score == b.score,
                r == slid(b.tiles, d, b.settings),
                r.len() == n,
                forall|j: int| 0 <= j < n ==> targets@[j].0 as int == crate::merge::target(b.tiles, d, b.settings, j).0
                    && targets@[j].1 as int == crate::merge::target(b.tiles, d, b.settings, j).1,
                forall|j: int| 0 <= j < n ==> b.settings.in_bounds(targets@[j].0 as int, targets@[j].1 as int),
                forall|j: int| 0 <= j < i ==> self.tiles@[j] == #[trigger] r[j],
                forall|j: int| i <= j < n ==> self.tiles@[j] == #[trigger] b.tiles[j],
                moved == exists|j: int| 0 <= j < i && #[trigger] moves(b.tiles, d, b.settings, j),
            decreases n - i,
        {
            let (tx, ty) = targets[i];
            let mut t = self.tiles[i];
            assert(b.tiles[i as int].wf(b.settings));
            if tx != t.tile_x || ty != t.tile_y {
                assert(moves(b.tiles, d, b.settings, i as int));
                t.start_moving(&self.settings, tx, ty);
                self.tiles.set(i, t);
                moved = true;
            } else {
                assert(!moves(b.tiles, d, b.settings, i as int));
                assert(r[i as int] == b.tiles[i as int]);
            }
            i += 1;
        }
        assert(self.tiles@ =~= r);
        if moved {
            proof {
                let j = choose|j: int| 0 <= j < n && #[trigger] moves(b.tiles, d, b.settings, j);
                assert(!r[j].is_static());
                assert(!all_static(r));
                assert(self@.wf());
                let mb = self@;
                assert forall|a: int, c: int| 0 <= a < n && 0 <= c < n && a != c && #[trigger] shares(r, a, c)
                    implies r[a].is_moving() || r[c].is_moving() by {
                    assert(moves(b.tiles, d, b.settings, a) || moves(b.tiles, d, b.settings, c));
                }
                assert forall|a: int| 0 <= a < n && (#[trigger] r[a]).is_moving() implies moves(b.tiles, d, b.settings, a)
                    && r[a].remaining() == b.settings.tile_move_time by {
                    if !moves(b.tiles, d, b.settings, a) {
                        assert(b.tiles[a].is_static());
                    }
                }
                assert forall|a: int| 0 <= a < n implies !((#[trigger] r[a]).status is TileNew) && !(r[a].status is TileCombine) by {
                    if !moves(b.tiles, d, b.settings, a) {
                        assert(b.tiles[a].is_static());
                    }
                }
                assert(mb.settling_order());
                lemma_value_total_same_scores(r, b.tiles);
            }
            self.generate_tile();
            proof {
                let j = choose|j: int| 0 <= j < n && #[trigger] moves(b.tiles, d, b.settings, j);
                crate::merge::lemma_far_cell_freed(b.tiles, d, b.settings, j);
                let l = crate::merge::line_of(d, b.tiles[j].tile_x as int, b.tiles[j].tile_y as int);
                let last = crate::merge::line_len(d, b.settings) - 1;
                assert(b.tiles[j].wf(b.settings));
                crate::merge::lemma_coords_cell(d, b.settings, b.tiles[j].tile_x as int, b.tiles[j].tile_y as int);
                crate::merge::lemma_cell_coords(d, b.settings, l, last);
                lemma_empty_cells_found(r, b.settings, crate::merge::cell_x(d, b.settings, l, last), crate::merge::cell_y(d, b.settings, l, last));
                let (cd, vd) = choose|cd: u32, vd: u32| self@.tiles == #[trigger] spawned_with(r, b.settings, cd, vd);
                if self@.tiles.len() == r.len() + 1 {
                    assert(self@.tiles.drop_last() =~= r);
                } else {
                    assert(self@.tiles == r);
                }
            }
        } else {
            assert(!any_moves(b.tiles, d, b.settings));
            assert(self.tiles@ =~= b.tiles);
        }
    }

    /// Moves every tile up.
    pub fn merge_from_bottom_to_top(&mut self)
        requires
            old(self)@.wf(),
        ensures
            final(self)@.wf(),
            move_result(old(self)@, final(self)@, Direction::Up),
            old(self)@.settling_order() && old(self)@.settings.tile_new_time <= old(self)@.settings.tile_move_time
                ==> final(self)@.settling_order(),
    {
        self.request_move(Direction::Up);
    }

    /// Moves every tile down.
    pub fn merge_from_top_to_bottom(&mut self)
        requires
            old(self)@.wf(),
        ensures
            final(self)@.wf(),
            move_result(old(self)@, final(self)@, Direction::Down),
            old(self)@.settling_order() && old(self)@.settings.tile_new_time <= old(self)@.settings.tile_move_time
                ==> final(self)@.settling_order(),
    {
        self.request_move(Direction::Down);
    }

    /// Moves every tile right.
    pub fn merge_from_left_to_right(&mut self)
        requires
            old(self)@.wf(),
        ensures
            final(self)@.wf(),
            move_result(old(self)@, final(self)@, Direction::Right),
            old(self)@.settling_order() && old(self)@.settings.tile_new_time <= old(self)@.settings.tile_move_time
                ==> final(self)@.settling_order(),
    {
        self.request_move(Direction::Right);
    }

    /// Moves every tile left.
    pub fn merge_from_right_to_left(&mut self)
        requires
            old(self)@.wf(),
        ensures
            final(self)@.wf(),
            move_result(old(self)@, final(self)@, Direction::Left),
            old(self)@.settling_order() && old(self)@.settings.tile_new_time <= old(self)@.settings.tile_move_time
                ==> final(self)@.settling_order(),
    {
        self.request_move(Direction::Left);
    }
}

} // verus!

use vstd::prelude::*;

use crate::board::{all_static, no_pairs, pairs_mergeable};
use crate::grid::{find_tile, index_at, lemma_first_at, lemma_index_at_own, shares};
use crate::settings::Settings;
use crate::tile::{lemma_pos_bounded, Tile, MERGE_LIMIT};

verus! {

/// The four directions in which a move pushes the tiles.
#[derive(Clone, Copy, Debug, PartialEq, Eq, Structural)]
pub enum Direction {
    Left,
    Right,
    Up,
    Down,
}

/// Number of lines that a move in direction `d` processes: rows for a
/// horizontal move, columns for a vertical one.
pub open spec fn line_count(d: Direction, s: Settings) -> int {
    match d {
        Direction::Left | Direction::Right => s.tile_height as int,
        Direction::Up | Direction::Down => s.tile_width as int,
    }
}

/// Number of cells in each of those lines.
pub open spec fn line_len(d: Direction, s: Settings) -> int {
    match d {
        Direction::Left | Direction::Right => s.tile_width as int,
        Direction::Up | Direction::Down => s.tile_height as int,
    }
}

/// Column of the cell at scan position `k` of line `l`; position 0 lies on
/// the edge that the tiles are pushed toward.
pub open spec fn cell_x(d: Direction, s: Settings, l: int, k: int) -> int {
    match d {
        Direction::Left => k,
        Direction::Right => s.tile_width - 1 - k,
        Direction::Up | Direction::Down => l,
    }
}

/// Row of the cell at scan position `k` of line `l`.
pub open spec fn cell_y(d: Direction, s: Settings, l: int, k: int) -> int {
    match d {
        Direction::Left | Direction::Right => l,
        Direction::Up => k,
        Direction::Down => s.tile_height - 1 - k,
    }
}

/// The line that cell (x, y) belongs to.
pub open spec fn line_of(d: Direction, x: int, y: int) -> int {
    match d {
        Direction::Left | Direction::Right => y,
        Direction::Up | Direction::Down => x,
    }
}

/// The scan position of cell (x, y) within its line.
pub open spec fn scan_of(d: Direction, s: Settings, x: int, y: int) -> int {
    match d {
        Direction::Left => x,
        Direction::Right => s.tile_width - 1 - x,
        Direction::Up => y,
        Direction::Down => s.tile_height - 1 - y,
    }
}

/// Whether a tile of value `b` merges into a slot holding a tile of value `a`.
pub open spec fn can_merge(a: int, b: int) -> bool {
    a == b && a <= MERGE_LIMIT
}

/// The index of the tile in cell `k` of line `l`, or -1.
pub open spec fn tile_in_line(tiles: Seq<Tile>, d: Direction, s: Settings, l: int, k: int) -> int {
    index_at(tiles, cell_x(d, s, l, k), cell_y(d, s, l, k))
}

/// State of the scan of line `l` after its first `k` cells: the number of
/// slots filled from the push edge, whether the last slot still holds a single
/// tile that may take a merge, and that tile's value.
///
/// Each tile met in scan order either merges into the last slot (when that slot
/// is still open and holds an equal value) or takes the next slot. Merging
/// closes the slot, so a tile merges at most once per move and three equal
/// tiles never collapse into one. This is the fixed point that repeated
/// compaction and merge passes over the line reach.
pub open spec fn line_state(tiles: Seq<Tile>, d: Direction, s: Settings, l: int, k: int) -> (
    int,
    bool,
    int,
)
    decreases k,
{
    if k <= 0 {
        (0, false, 0)
    } else {
        let p = line_state(tiles, d, s, l, k - 1);
        let i = tile_in_line(tiles, d, s, l, k - 1);
        if i < 0 {
            p
        } else if p.1 && can_merge(p.2, tiles[i].score as int) {
            (p.0, false, p.2)
        } else {
            (p.0 + 1, true, tiles[i].score as int)
        }
    }
}

/// Whether the tile in cell `k` of line `l` merges into the slot before it.
pub open spec fn merges_at(tiles: Seq<Tile>, d: Direction, s: Settings, l: int, k: int) -> bool {
    let p = line_state(tiles, d, s, l, k);
    let i = tile_in_line(tiles, d, s, l, k);
    i >= 0 && p.1 && can_merge(p.2, tiles[i].score as int)
}

/// The slot, counted from the push edge, that the tile in cell `k` of line `l` ends in.
pub open spec fn slot_at(tiles: Seq<Tile>, d: Direction, s: Settings, l: int, k: int) -> int {
    if merges_at(tiles, d, s, l, k) {
        line_state(tiles, d, s, l, k).0 - 1
    } else {
        line_state(tiles, d, s, l, k).0
    }
}

/// Whether tile `i` is the one that the scan meets on its cell.
pub open spec fn scanned(tiles: Seq<Tile>, s: Settings, i: int) -> bool {
    &&& s.in_bounds(tiles[i].tile_x as int, tiles[i].tile_y as int)
    &&& index_at(tiles, tiles[i].tile_x as int, tiles[i].tile_y as int) == i
}

/// The cell that tile `i` is sent to by a move in direction `d`.
pub open spec fn target(tiles: Seq<Tile>, d: Direction, s: Settings, i: int) -> (int, int) {
    let x = tiles[i].tile_x as int;
    let y = tiles[i].tile_y as int;
    if scanned(tiles, s, i) {
        let l = line_of(d, x, y);
        let slot = slot_at(tiles, d, s, l, scan_of(d, s, x, y));
        (cell_x(d, s, l, slot), cell_y(d, s, l, slot))
    } else {
        (x, y)
    }
}

/// Whether a move in direction `d` sends tile `i` to another cell.
pub open spec fn moves(tiles: Seq<Tile>, d: Direction, s: Settings, i: int) -> bool {
    target(tiles, d, s, i) != (tiles[i].tile_x as int, tiles[i].tile_y as int)
}

/// Whether a move in direction `d` sends any tile to another cell.
pub open spec fn any_moves(tiles: Seq<Tile>, d: Direction, s: Settings) -> bool {
    exists|i: int| 0 <= i < tiles.len() && #[trigger] moves(tiles, d, s, i)
}

/// The tiles after a move in direction `d`, before any spawn: each tile sent
/// to another cell starts moving there; the others are left as they are.
pub open spec fn slid(tiles: Seq<Tile>, d: Direction, s: Settings) -> Seq<Tile> {
    Seq::new(
        tiles.len(),
        |i: int|
            if moves(tiles, d, s, i) {
                tiles[i].moved_to(
                    s,
                    target(tiles, d, s, i).0 as i32,
                    target(tiles, d, s, i).1 as i32,
                )
            } else {
                tiles[i]
            },
    )
}

/// Cells and scan coordinates correspond one to one.
pub proof fn lemma_cell_coords(d: Direction, s: Settings, l: int, k: int)
    requires
        s.wf(),
        0 <= l < line_count(d, s),
        0 <= k < line_len(d, s),
    ensures
        s.in_bounds(cell_x(d, s, l, k), cell_y(d, s, l, k)),
        line_of(d, cell_x(d, s, l, k), cell_y(d, s, l, k)) == l,
        scan_of(d, s, cell_x(d, s, l, k), cell_y(d, s, l, k)) == k,
{
}

/// Every cell of the board has its scan coordinates.
pub proof fn lemma_coords_cell(d: Direction, s: Settings, x: int, y: int)
    requires
        s.wf(),
        s.in_bounds(x, y),
    ensures
        0 <= line_of(d, x, y) < line_count(d, s),
        0 <= scan_of(d, s, x, y) < line_len(d, s),
        cell_x(d, s, line_of(d, x, y), scan_of(d, s, x, y)) == x,
        cell_y(d, s, line_of(d, x, y), scan_of(d, s, x, y)) == y,
{
}

/// Slots are filled one after another: at most one per scanned cell, and an
/// open slot exists only once a slot is filled.
pub proof fn lemma_line_state_bounds(tiles: Seq<Tile>, d: Direction, s: Settings, l: int, k: int)
    requires
        0 <= k,
    ensures
        0 <= line_state(tiles, d, s, l, k).0 <= k,
        line_state(tiles, d, s, l, k).1 ==> line_state(tiles, d, s, l, k).0 >= 1,
    decreases k,
{
    if k > 0 {
        lemma_line_state_bounds(tiles, d, s, l, k - 1);
    }
}

/// Every tile on the board is sent to a cell of the board.
pub proof fn lemma_target_in_bounds(tiles: Seq<Tile>, d: Direction, s: Settings, i: int)
    requires
        s.wf(),
        0 <= i < tiles.len(),
        s.in_bounds(tiles[i].tile_x as int, tiles[i].tile_y as int),
    ensures
        s.in_bounds(target(tiles, d, s, i).0, target(tiles, d, s, i).1),
{
    let x = tiles[i].tile_x as int;
    let y = tiles[i].tile_y as int;
    lemma_coords_cell(d, s, x, y);
    let l = line_of(d, x, y);
    let k = scan_of(d, s, x, y);
    lemma_line_state_bounds(tiles, d, s, l, k);
    lemma_cell_coords(d, s, l, slot_at(tiles, d, s, l, k));
}

/// The number of filled slots never decreases along the scan.
pub proof fn lemma_next_monotone(tiles: Seq<Tile>, d: Direction, s: Settings, l: int, k1: int, k2: int)
    requires
        0 <= k1 <= k2,
    ensures
        line_state(tiles, d, s, l, k1).0 <= line_state(tiles, d, s, l, k2).0,
    decreases k2,
{
    if k1 < k2 {
        lemma_next_monotone(tiles, d, s, l, k1, k2 - 1);
    }
}

/// Once a slot is filled after cell `k1`, a scan that still has it open and
/// no further slot still holds the tile of the first cell after `k1` that filled it.
proof fn lemma_open_slot_kept(tiles: Seq<Tile>, d: Direction, s: Settings, l: int, k1: int, k: int)
    requires
        0 <= k1,
        k1 + 1 <= k,
        line_state(tiles, d, s, l, k).0 == line_state(tiles, d, s, l, k1 + 1).0,
        line_state(tiles, d, s, l, k).1,
    ensures
        line_state(tiles, d, s, l, k1 + 1).1,
        line_state(tiles, d, s, l, k).2 == line_state(tiles, d, s, l, k1 + 1).2,
    decreases k,
{
    if k > k1 + 1 {
        lemma_next_monotone(tiles, d, s, l, k1 + 1, k - 1);
        lemma_open_slot_kept(tiles, d, s, l, k1, k - 1);
    }
}

/// Two tiles of one line end in the same slot only when the later one merges
/// into the earlier one, which does not itself merge; their values are then
/// equal and small enough to merge. The merging tile leaves its cell.
pub proof fn lemma_shared_slot(tiles: Seq<Tile>, d: Direction, s: Settings, l: int, k1: int, k2: int)
    requires
        0 <= k1 < k2,
        tile_in_line(tiles, d, s, l, k1) >= 0,
        tile_in_line(tiles, d, s, l, k2) >= 0,
        slot_at(tiles, d, s, l, k1) == slot_at(tiles, d, s, l, k2),
    ensures
        merges_at(tiles, d, s, l, k2),
        !merges_at(tiles, d, s, l, k1),
        tiles[tile_in_line(tiles, d, s, l, k1)].score == tiles[tile_in_line(tiles, d, s, l, k2)].score,
        tiles[tile_in_line(tiles, d, s, l, k1)].score <= MERGE_LIMIT,
        slot_at(tiles, d, s, l, k2) < k2,
{
    lemma_next_monotone(tiles, d, s, l, k1 + 1, k2);
    lemma_line_state_bounds(tiles, d, s, l, k2);
    assert(line_state(tiles, d, s, l, k1 + 1).0 == slot_at(tiles, d, s, l, k1) + 1);
    assert(line_state(tiles, d, s, l, k2 + 1).0 == slot_at(tiles, d, s, l, k2) + 1);
    lemma_open_slot_kept(tiles, d, s, l, k1, k2);
}

/// No three tiles of one line end in the same slot.
pub proof fn lemma_no_triple_slot(tiles: Seq<Tile>, d: Direction, s: Settings, l: int, k1: int, k2: int, k3: int)
    requires
        0 <= k1 < k2 < k3,
        tile_in_line(tiles, d, s, l, k1) >= 0,
        tile_in_line(tiles, d, s, l, k2) >= 0,
        tile_in_line(tiles, d, s, l, k3) >= 0,
    ensures
        !(slot_at(tiles, d, s, l, k1) == slot_at(tiles, d, s, l, k2) && slot_at(tiles, d, s, l, k2)
            == slot_at(tiles, d, s, l, k3)),
{
    if slot_at(tiles, d, s, l, k1) == slot_at(tiles, d, s, l, k2) && slot_at(tiles, d, s, l, k2)
        == slot_at(tiles, d, s, l, k3) {
        lemma_shared_slot(tiles, d, s, l, k1, k2);
        lemma_shared_slot(tiles, d, s, l, k2, k3);
    }
}

/// Scan coordinates of a tile that the scan meets, and where it is sent.
proof fn lemma_tile_coords(tiles: Seq<Tile>, d: Direction, s: Settings, i: int)
    requires
        s.wf(),
        0 <= i < tiles.len(),
        scanned(tiles, s, i),
    ensures
        ({
            let x = tiles[i].tile_x as int;
            let y = tiles[i].tile_y as int;
            let l = line_of(d, x, y);
            let k = scan_of(d, s, x, y);
            let slot = slot_at(tiles, d, s, l, k);
            &&& 0 <= l < line_count(d, s)
            &&& 0 <= k < line_len(d, s)
            &&& tile_in_line(tiles, d, s, l, k) == i
            &&& 0 <= slot <= k
            &&& target(tiles, d, s, i) == (cell_x(d, s, l, slot), cell_y(d, s, l, slot))
            &&& line_of(d, target(tiles, d, s, i).0, target(tiles, d, s, i).1) == l
            &&& scan_of(d, s, target(tiles, d, s, i).0, target(tiles, d, s, i).1) == slot
            &&& s.in_bounds(target(tiles, d, s, i).0, target(tiles, d, s, i).1)
            &&& (moves(tiles, d, s, i) <==> slot != k)
        }),
{
    let x = tiles[i].tile_x as int;
    let y = tiles[i].tile_y as int;
    lemma_coords_cell(d, s, x, y);
    let l = line_of(d, x, y);
    let k = scan_of(d, s, x, y);
    lemma_line_state_bounds(tiles, d, s, l, k);
    lemma_cell_coords(d, s, l, slot_at(tiles, d, s, l, k));
}

/// A move on a board at rest whose tiles stand on distinct cells keeps every
/// tile valid and its value; only the tiles sent elsewhere start moving, all
/// with the full move time; and tiles end on one cell only as a pair of
/// equal values that may merge, at most two per cell, one of which moved.
pub proof fn lemma_slid(tiles: Seq<Tile>, d: Direction, s: Settings)
    requires
        s.wf(),
        forall|i: int| 0 <= i < tiles.len() ==> (#[trigger] tiles[i]).wf(s),
        no_pairs(tiles),
        all_static(tiles),
    ensures
        slid(tiles, d, s).len() == tiles.len(),
        forall|i: int|
            0 <= i < tiles.len() ==> {
                let r = #[trigger] slid(tiles, d, s)[i];
                &&& r.wf(s)
                &&& r.score == tiles[i].score
                &&& r.tile_x == target(tiles, d, s, i).0
                &&& r.tile_y == target(tiles, d, s, i).1
                &&& moves(tiles, d, s, i) ==> r.is_moving() && r.remaining() == s.tile_move_time
                &&& !moves(tiles, d, s, i) ==> r == tiles[i]
            },
        pairs_mergeable(slid(tiles, d, s)),
        forall|a: int, b: int|
            0 <= a < tiles.len() && 0 <= b < tiles.len() && a != b && #[trigger] shares(slid(tiles, d, s), a, b)
                ==> moves(tiles, d, s, a) || moves(tiles, d, s, b),
{
    let r = slid(tiles, d, s);
    assert forall|i: int| 0 <= i < tiles.len() implies scanned(tiles, s, i) by {
        lemma_index_at_own(tiles, i);
    }
    assert forall|i: int| 0 <= i < tiles.len() implies {
        let t = #[trigger] r[i];
        &&& t.wf(s)
        &&& t.score == tiles[i].score
        &&& t.tile_x == target(tiles, d, s, i).0
        &&& t.tile_y == target(tiles, d, s, i).1
        &&& moves(tiles, d, s, i) ==> t.is_moving() && t.remaining() == s.tile_move_time
        &&& !moves(tiles, d, s, i) ==> t == tiles[i]
    } by {
        lemma_tile_coords(tiles, d, s, i);
        lemma_pos_bounded(s, tiles[i].tile_x as int, tiles[i].tile_y as int);
        assert(tiles[i].is_static());
    }
    // two distinct tiles sent to one cell
    assert forall|a: int, b: int|
        0 <= a < tiles.len() && 0 <= b < tiles.len() && a != b && #[trigger] shares(r, a, b) implies {
        let ka = scan_of(d, s, tiles[a].tile_x as int, tiles[a].tile_y as int);
        let kb = scan_of(d, s, tiles[b].tile_x as int, tiles[b].tile_y as int);
        &&& r[a].score == r[b].score
        &&& r[a].score <= MERGE_LIMIT
        &&& moves(tiles, d, s, a) || moves(tiles, d, s, b)
        &&& line_of(d, tiles[a].tile_x as int, tiles[a].tile_y as int) == line_of(d, tiles[b].tile_x as int, tiles[b].tile_y as int)
        &&& ka != kb
        &&& slot_at(tiles, d, s, line_of(d, tiles[a].tile_x as int, tiles[a].tile_y as int), ka)
            == slot_at(tiles, d, s, line_of(d, tiles[a].tile_x as int, tiles[a].tile_y as int), kb)
    } by {
        lemma_tile_coords(tiles, d, s, a);
        lemma_tile_coords(tiles, d, s, b);
        let l = line_of(d, tiles[a].tile_x as int, tiles[a].tile_y as int);
        let ka = scan_of(d, s, tiles[a].tile_x as int, tiles[a].tile_y as int);
        let kb = scan_of(d, s, tiles[b].tile_x as int, tiles[b].tile_y as int);
        if ka == kb {
            lemma_coords_cell(d, s, tiles[a].tile_x as int, tiles[a].tile_y as int);
            lemma_coords_cell(d, s, tiles[b].tile_x as int, tiles[b].tile_y as int);
            assert(shares(tiles, a, b));
        } else if ka < kb {
            lemma_shared_slot(tiles, d, s, l, ka, kb);
        } else {
            lemma_shared_slot(tiles, d, s, l, kb, ka);
        }
    }
    assert forall|a: int, b: int, c: int|
        0 <= a < r.len() && 0 <= b < r.len() && 0 <= c < r.len() && a != b && b != c && a != c
        implies !(#[trigger] shares(r, a, b) && #[trigger] shares(r, b, c)) by {
        if shares(r, a, b) && shares(r, b, c) {
            assert(shares(r, a, c));
            lemma_tile_coords(tiles, d, s, a);
            lemma_tile_coords(tiles, d, s, b);
            lemma_tile_coords(tiles, d, s, c);
            let l = line_of(d, tiles[a].tile_x as int, tiles[a].tile_y as int);
            let ka = scan_of(d, s, tiles[a].tile_x as int, tiles[a].tile_y as int);
            let kb = scan_of(d, s, tiles[b].tile_x as int, tiles[b].tile_y as int);
            let kc = scan_of(d, s, tiles[c].tile_x as int, tiles[c].tile_y as int);
            if ka < kb {
                if kb < kc {
                    lemma_no_triple_slot(tiles, d, s, l, ka, kb, kc);
                } else if ka < kc {
                    lemma_no_triple_slot(tiles, d, s, l, ka, kc, kb);
                } else {
                    lemma_no_triple_slot(tiles, d, s, l, kc, ka, kb);
                }
            } else {
                if ka < kc {
                    lemma_no_triple_slot(tiles, d, s, l, kb, ka, kc);
                } else if kb < kc {
                    lemma_no_triple_slot(tiles, d, s, l, kb, kc, ka);
                } else {
                    lemma_no_triple_slot(tiles, d, s, l, kc, kb, ka);
                }
            }
        }
    }
}

/// A scan that has filled as many slots as cells has met a tile on every cell,
/// and none of them merged or moved.
proof fn lemma_full_prefix(tiles: Seq<Tile>, d: Direction, s: Settings, l: int, k: int)
    requires
        0 <= k,
        line_state(tiles, d, s, l, k).0 == k,
    ensures
        forall|j: int| 0 <= j < k ==> #[trigger] tile_in_line(tiles, d, s, l, j) >= 0,
        forall|j: int| 0 <= j < k ==> #[trigger] slot_at(tiles, d, s, l, j) == j,
    decreases k,
{
    if k > 0 {
        lemma_line_state_bounds(tiles, d, s, l, k - 1);
        let p = line_state(tiles, d, s, l, k - 1);
        let i = tile_in_line(tiles, d, s, l, k - 1);
        assert(i >= 0 && !(p.1 && can_merge(p.2, tiles[i].score as int)) && p.0 == k - 1);
        assert(!merges_at(tiles, d, s, l, k - 1));
        assert(slot_at(tiles, d, s, l, k - 1) == k - 1);
        lemma_full_prefix(tiles, d, s, l, k - 1);
        assert forall|j: int| 0 <= j < k implies #[trigger] tile_in_line(tiles, d, s, l, j) >= 0 by {
            if j < k - 1 {
                assert(tile_in_line(tiles, d, s, l, j) >= 0);
            }
        }
    }
}

/// After a move in which some tile changes cell, the far cell of that tile's
/// line is empty.
pub proof fn lemma_far_cell_freed(tiles: Seq<Tile>, d: Direction, s: Settings, i: int)
    requires
        s.wf(),
        forall|j: int| 0 <= j < tiles.len() ==> (#[trigger] tiles[j]).wf(s),
        no_pairs(tiles),
        all_static(tiles),
        0 <= i < tiles.len(),
        moves(tiles, d, s, i),
    ensures
        ({
            let l = line_of(d, tiles[i].tile_x as int, tiles[i].tile_y as int);
            let k = line_len(d, s) - 1;
            index_at(slid(tiles, d, s), cell_x(d, s, l, k), cell_y(d, s, l, k)) == -1
        }),
{
    let r = slid(tiles, d, s);
    lemma_slid(tiles, d, s);
    lemma_index_at_own(tiles, i);
    lemma_tile_coords(tiles, d, s, i);
    let l = line_of(d, tiles[i].tile_x as int, tiles[i].tile_y as int);
    let last = line_len(d, s) - 1;
    let fx = cell_x(d, s, l, last);
    let fy = cell_y(d, s, l, last);
    lemma_first_at(r, fx, fy, 0);
    let j = index_at(r, fx, fy);
    if j >= 0 {
        lemma_index_at_own(tiles, j);
        lemma_tile_coords(tiles, d, s, j);
        lemma_cell_coords(d, s, l, last);
        let kj = scan_of(d, s, tiles[j].tile_x as int, tiles[j].tile_y as int);
        lemma_line_state_bounds(tiles, d, s, l, kj);
        assert(kj == last);
        lemma_full_prefix(tiles, d, s, l, last);
        let ki = scan_of(d, s, tiles[i].tile_x as int, tiles[i].tile_y as int);
        if ki < last {
            assert(slot_at(tiles, d, s, l, ki) == ki);
        }
    }
}

/// Executable form of `cell_x` and `cell_y`.
fn cell_of(d: Direction, s: &Settings, l: i32, k: i32) -> (r: (i32, i32))
    requires
        s.wf(),
        0 <= l < line_count(d, *s),
        0 <= k < line_len(d, *s),
    ensures
        r.0 == cell_x(d, *s, l as int, k as int),
        r.1 == cell_y(d, *s, l as int, k as int),
{
    match d {
        Direction::Left => (k, l),
        Direction::Right => (s.tile_width - 1 - k, l),
        Direction::Up => (l, k),
        Direction::Down => (l, s.tile_height - 1 - k),
    }
}

/// The cell that each tile is sent to by a move in direction `d`, by index.
///
/// Each line is scanned once from the push edge; the scan keeps the number of
/// filled slots and whether the last one may still take a merge.
pub fn compute_targets(tiles: &Vec<Tile>, s: &Settings, d: Direction) -> (r: Vec<(i32, i32)>)
    requires
        s.wf(),
        forall|i: int| 0 <= i < tiles.len() ==> (#[trigger] tiles@[i]).wf(*s),
    ensures
        r.len() == tiles.len(),
        forall|i: int|
            0 <= i < tiles.len() ==> r@[i].0 as int == target(tiles@, d, *s, i).0 && r@[i].1 as int
                == target(tiles@, d, *s, i).1,
        forall|i: int| 0 <= i < tiles.len() ==> s.in_bounds(r@[i].0 as int, r@[i].1 as int),
{
    let n = tiles.len();
    let mut targets: Vec<(i32, i32)> = Vec::new();
    let mut i: usize = 0;
    while i < n
        invariant
            n == tiles.len(),
            i <= n,
            targets.len() == i,
            forall|j: int|
                0 <= j < i ==> targets@[j] == (tiles@[j].tile_x, tiles@[j].tile_y),
        decreases n - i,
    {
        targets.push((tiles[i].tile_x, tiles[i].tile_y));
        i += 1;
    }
    let (lines, len) = match d {
        Direction::Left | Direction::Right => (s.tile_height, s.tile_width),
        Direction::Up | Direction::Down => (s.tile_width, s.tile_height),
    };
    let ghost ts = tiles@;
    let mut l: i32 = 0;
    while l < lines
        invariant
            s.wf(),
            ts == tiles@,
            n == tiles.len(),
            targets.len() == n,
            lines == line_count(d, *s),
            len == line_len(d, *s),
            0 <= l <= lines,
            forall|i: int| 0 <= i < n ==> (#[trigger] ts[i]).wf(*s),
            forall|j: int|
                0 <= j < n ==> (#[trigger] targets@[j]) == if scanned(ts, *s, j) && line_of(
                    d,
                    ts[j].tile_x as int,
                    ts[j].tile_y as int,
                ) < l {
                    (target(ts, d, *s, j).0 as i32, target(ts, d, *s, j).1 as i32)
                } else {
                    (ts[j].tile_x, ts[j].tile_y)
                },
            forall|j: int|
                0 <= j < n ==> s.in_bounds(targets@[j].0 as int, targets@[j].1 as int),
        decreases lines - l,
    {
        let mut k: i32 = 0;
        let mut next: i32 = 0;
        let mut open = false;
        let mut open_value: u64 = 0;
        while k < len
            invariant
                s.wf(),
                ts == tiles@,
                n == tiles.len(),
                targets.len() == n,
                lines == line_count(d, *s),
                len == line_len(d, *s),
                0 <= l < lines,
                0 <= k <= len,
                forall|i: int| 0 <= i < n ==> (#[trigger] ts[i]).wf(*s),
                line_state(ts, d, *s, l as int, k as int) == (next as int, open, open_value as int),
                forall|j: int|
                    0 <= j < n ==> (#[trigger] targets@[j]) == if scanned(ts, *s, j) && (line_of(
                        d,
                        ts[j].tile_x as int,
                        ts[j].tile_y as int,
                    ) < l || (line_of(d, ts[j].tile_x as int, ts[j].tile_y as int) == l && scan_of(
                        d,
                        *s,
                        ts[j].tile_x as int,
                        ts[j].tile_y as int,
                    ) < k)) {
                        (target(ts, d, *s, j).0 as i32, target(ts, d, *s, j).1 as i32)
                    } else {
                        (ts[j].tile_x, ts[j].tile_y)
                    },
                forall|j: int|
                    0 <= j < n ==> s.in_bounds(targets@[j].0 as int, targets@[j].1 as int),
            decreases len - k,
        {
            proof {
                lemma_line_state_bounds(ts, d, *s, l as int, k as int);
                lemma_cell_coords(d, *s, l as int, k as int);
            }
            let (x, y) = cell_of(d, s, l, k);
            match find_tile(tiles, x, y) {
                Some(i) => {
                    proof {
                        lemma_first_at(ts, x as int, y as int, 0);
                    }
                    let v = tiles[i].score;
                    let slot: i32;
                    if open && v == open_value && v <= MERGE_LIMIT {
                        slot = next - 1;
                        open = false;
                    } else {
                        slot = next;
                        next = next + 1;
                        open = true;
                        open_value = v;
                    }
                    proof {
                        lemma_cell_coords(d, *s, l as int, slot as int);
                    }
                    let (tx, ty) = cell_of(d, s, l, slot);
                    targets.set(i, (tx, ty));
                    assert forall|j: int| 0 <= j < n && j != i implies !(scanned(ts, *s, j)
                        && line_of(d, ts[j].tile_x as int, ts[j].tile_y as int) == l && scan_of(
                        d,
                        *s,
                        ts[j].tile_x as int,
                        ts[j].tile_y as int,
                    ) == k) by {
                        if scanned(ts, *s, j) && line_of(d, ts[j].tile_x as int, ts[j].tile_y as int)
                            == l && scan_of(d, *s, ts[j].tile_x as int, ts[j].tile_y as int) == k {
                            lemma_coords_cell(d, *s, ts[j].tile_x as int, ts[j].tile_y as int);
                        }
                    }
                },
                None => {
                    assert forall|j: int| 0 <= j < n implies !(scanned(ts, *s, j) && line_of(
                        d,
                        ts[j].tile_x as int,
                        ts[j].tile_y as int,
                    ) == l && scan_of(d, *s, ts[j].tile_x as int, ts[j].tile_y as int) == k) by {
                        if scanned(ts, *s, j) && line_of(d, ts[j].tile_x as int, ts[j].tile_y as int)
                            == l && scan_of(d, *s, ts[j].tile_x as int, ts[j].tile_y as int) == k {
                            lemma_coords_cell(d, *s, ts[j].tile_x as int, ts[j].tile_y as int);
                        }
                    }
                },
            }
            k += 1;
        }
        assert forall|j: int| 0 <= j < n && scanned(ts, *s, j) implies scan_of(
            d,
            *s,
            ts[j].tile_x as int,
            ts[j].tile_y as int,
        ) < len by {
            lemma_coords_cell(d, *s, ts[j].tile_x as int, ts[j].tile_y as int);
        }
        l += 1;
    }
    assert forall|j: int| 0 <= j < n implies s.in_bounds(
        target(ts, d, *s, j).0,
        target(ts, d, *s, j).1,
    ) by {
        lemma_target_in_bounds(ts, d, *s, j);
    }
    assert forall|j: int| 0 <= j < n && scanned(ts, *s, j) implies line_of(
        d,
        ts[j].tile_x as int,
        ts[j].tile_y as int,
    ) < lines by {
        lemma_coords_cell(d, *s, ts[j].tile_x as int, ts[j].tile_y as int);
    }
    targets
}

} // verus!

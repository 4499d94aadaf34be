use vstd::prelude::*;

use crate::tile::Tile;

verus! {

/// Whether tiles `a` and `b` stand on the same cell.
pub open spec fn shares(tiles: Seq<Tile>, a: int, b: int) -> bool {
    tiles[a].tile_x == tiles[b].tile_x && tiles[a].tile_y == tiles[b].tile_y
}

/// Index of the first tile at or after `i` that stands on (x, y), or -1.
pub open spec fn first_at(tiles: Seq<Tile>, x: int, y: int, i: int) -> int
    decreases tiles.len() - i,
{
    if i < 0 || i >= tiles.len() {
        -1
    } else if tiles[i].tile_x == x && tiles[i].tile_y == y {
        i
    } else {
        first_at(tiles, x, y, i + 1)
    }
}

/// Index of the first tile that stands on (x, y), or -1 when the cell is empty.
pub open spec fn index_at(tiles: Seq<Tile>, x: int, y: int) -> int {
    first_at(tiles, x, y, 0)
}

/// What `first_at` finds: the first match at or after `i`, and -1 only when none exists.
pub proof fn lemma_first_at(tiles: Seq<Tile>, x: int, y: int, i: int)
    requires
        0 <= i,
    ensures
        first_at(tiles, x, y, i) == -1 || (i <= first_at(tiles, x, y, i) < tiles.len()),
        first_at(tiles, x, y, i) >= 0 ==> tiles[first_at(tiles, x, y, i)].tile_x == x
            && tiles[first_at(tiles, x, y, i)].tile_y == y,
        forall|j: int|
            i <= j < tiles.len() && tiles[j].tile_x == x && tiles[j].tile_y == y ==> 0 <= first_at(
                tiles,
                x,
                y,
                i,
            ) <= j,
    decreases tiles.len() - i,
{
    if i < tiles.len() && !(tiles[i].tile_x == x && tiles[i].tile_y == y) {
        lemma_first_at(tiles, x, y, i + 1);
    }
}

/// Where no two tiles share a cell, each tile is the one found at its own cell.
pub proof fn lemma_index_at_own(tiles: Seq<Tile>, i: int)
    requires
        0 <= i < tiles.len(),
        forall|a: int, b: int|
            0 <= a < tiles.len() && 0 <= b < tiles.len() && a != b ==> !#[trigger] shares(
                tiles,
                a,
                b,
            ),
    ensures
        index_at(tiles, tiles[i].tile_x as int, tiles[i].tile_y as int) == i,
{
    lemma_first_at(tiles, tiles[i].tile_x as int, tiles[i].tile_y as int, 0);
    let f = index_at(tiles, tiles[i].tile_x as int, tiles[i].tile_y as int);
    if f != i {
        assert(shares(tiles, f, i));
    }
}

/// Index of the first tile at or after `from` that stands on (x, y).
pub fn find_tile_from(tiles: &Vec<Tile>, x: i32, y: i32, from: usize) -> (r: Option<usize>)
    ensures
        match r {
            Some(i) => i as int == first_at(tiles@, x as int, y as int, from as int),
            None => first_at(tiles@, x as int, y as int, from as int) == -1,
        },
{
    let mut i = from;
    if i >= tiles.len() {
        return None;
    }
    while i < tiles.len()
        invariant
            from <= i <= tiles.len(),
            first_at(tiles@, x as int, y as int, from as int) == first_at(
                tiles@,
                x as int,
                y as int,
                i as int,
            ),
        decreases tiles.len() - i,
    {
        if tiles[i].tile_x == x && tiles[i].tile_y == y {
            return Some(i);
        }
        i += 1;
    }
    None
}

/// Index of the first tile that stands on (x, y).
pub fn find_tile(tiles: &Vec<Tile>, x: i32, y: i32) -> (r: Option<usize>)
    ensures
        match r {
            Some(i) => i as int == index_at(tiles@, x as int, y as int),
            None => index_at(tiles@, x as int, y as int) == -1,
        },
{
    find_tile_from(tiles, x, y, 0)
}

} // verus!

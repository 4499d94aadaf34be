use vstd::prelude::*;

use crate::grid::{find_tile, find_tile_from, first_at, index_at, lemma_first_at, shares};
use crate::settings::{Settings, MAX_PIXEL};
use crate::tile::{lemma_double_pow2, Tile, TileState, MAX_SCORE, MERGE_LIMIT};

verus! {

/// The tile after `i` that stands on the same cell as tile `i`, or -1.
pub open spec fn partner(tiles: Seq<Tile>, i: int) -> int {
    first_at(tiles, tiles[i].tile_x as int, tiles[i].tile_y as int, i + 1)
}

/// Tile `i` is the only tile on its cell.
pub open spec fn alone(tiles: Seq<Tile>, i: int) -> bool {
    index_at(tiles, tiles[i].tile_x as int, tiles[i].tile_y as int) == i && partner(tiles, i) == -1
}

/// Tile `i` is the first of the tiles that share its cell.
pub open spec fn heads_pair(tiles: Seq<Tile>, i: int) -> bool {
    index_at(tiles, tiles[i].tile_x as int, tiles[i].tile_y as int) == i && partner(tiles, i) >= 0
}

/// The tile that replaces tile `i` and its partner: their summed value, on their cell.
pub open spec fn combined_tile(tiles: Seq<Tile>, s: Settings, i: int) -> Tile {
    Tile {
        score: (tiles[i].score + tiles[partner(tiles, i)].score) as u64,
        tile_x: tiles[i].tile_x,
        tile_y: tiles[i].tile_y,
        status: TileState::TileCombine(s.tile_combine_time, (s.tile_size * 6 / 5) as u64),
    }
}

/// Indices, among the first `n`, of the tiles that are alone on their cell.
pub open spec fn kept_indices(tiles: Seq<Tile>, n: int) -> Seq<int>
    decreases n,
{
    if n <= 0 {
        seq![]
    } else if alone(tiles, n - 1) {
        kept_indices(tiles, n - 1).push(n - 1)
    } else {
        kept_indices(tiles, n - 1)
    }
}

/// Indices, among the first `n`, of the tiles that head a pair.
pub open spec fn head_indices(tiles: Seq<Tile>, n: int) -> Seq<int>
    decreases n,
{
    if n <= 0 {
        seq![]
    } else if heads_pair(tiles, n - 1) {
        head_indices(tiles, n - 1).push(n - 1)
    } else {
        head_indices(tiles, n - 1)
    }
}

/// The tiles that survive a settlement, in their order.
pub open spec fn kept(tiles: Seq<Tile>) -> Seq<Tile> {
    kept_indices(tiles, tiles.len() as int).map_values(|i: int| tiles[i])
}

/// The tiles that a settlement creates, one per pair, in the order of the pairs' heads.
pub open spec fn combined(tiles: Seq<Tile>, s: Settings) -> Seq<Tile> {
    head_indices(tiles, tiles.len() as int).map_values(|i: int| combined_tile(tiles, s, i))
}

/// The tiles after a settlement: each pair on a cell gives way to one combined
/// tile, appended after the tiles that stay.
pub open spec fn settle(tiles: Seq<Tile>, s: Settings) -> Seq<Tile> {
    kept(tiles) + combined(tiles, s)
}

/// Sum of the values of `tiles`.
pub open spec fn value_total(tiles: Seq<Tile>) -> int
    decreases tiles.len(),
{
    if tiles.len() == 0 {
        0
    } else {
        value_total(tiles.drop_last()) + tiles.last().score
    }
}

proof fn lemma_kept_indices(tiles: Seq<Tile>, n: int)
    requires
        0 <= n <= tiles.len(),
    ensures
        forall|a: int|
            0 <= a < kept_indices(tiles, n).len() ==> 0 <= #[trigger] kept_indices(tiles, n)[a] < n
                && alone(tiles, kept_indices(tiles, n)[a]),
        forall|a: int, b: int|
            0 <= a < b < kept_indices(tiles, n).len() ==> #[trigger] kept_indices(tiles, n)[a]
                < #[trigger] kept_indices(tiles, n)[b],
    decreases n,
{
    if n > 0 {
        lemma_kept_indices(tiles, n - 1);
        let prev = kept_indices(tiles, n - 1);
        let cur = kept_indices(tiles, n);
        if alone(tiles, n - 1) {
            assert(cur == prev.push(n - 1));
            assert forall|a: int| 0 <= a < prev.len() implies cur[a] == prev[a] by {}
            assert forall|a: int, b: int| 0 <= a < b < cur.len() implies #[trigger] cur[a] < #[trigger] cur[b] by {
                if b < prev.len() {
                    assert(prev[a] < prev[b]);
                } else {
                    assert(0 <= prev[a] < n - 1);
                }
            }
        }
    }
}

proof fn lemma_head_indices(tiles: Seq<Tile>, n: int)
    requires
        0 <= n <= tiles.len(),
    ensures
        forall|a: int|
            0 <= a < head_indices(tiles, n).len() ==> 0 <= #[trigger] head_indices(tiles, n)[a] < n
                && heads_pair(tiles, head_indices(tiles, n)[a]),
        forall|a: int, b: int|
            0 <= a < b < head_indices(tiles, n).len() ==> #[trigger] head_indices(tiles, n)[a]
                < #[trigger] head_indices(tiles, n)[b],
    decreases n,
{
    if n > 0 {
        lemma_head_indices(tiles, n - 1);
        let prev = head_indices(tiles, n - 1);
        let cur = head_indices(tiles, n);
        if heads_pair(tiles, n - 1) {
            assert(cur == prev.push(n - 1));
            assert forall|a: int| 0 <= a < prev.len() implies cur[a] == prev[a] by {}
            assert forall|a: int, b: int| 0 <= a < b < cur.len() implies #[trigger] cur[a] < #[trigger] cur[b] by {
                if b < prev.len() {
                    assert(prev[a] < prev[b]);
                } else {
                    assert(0 <= prev[a] < n - 1);
                }
            }
        }
    }
}

/// Where no two tiles share a cell, a settlement keeps every tile and creates none.
pub proof fn lemma_settle_no_pairs(tiles: Seq<Tile>, s: Settings)
    requires
        forall|a: int, b: int|
            0 <= a < tiles.len() && 0 <= b < tiles.len() && a != b ==> !#[trigger] shares(tiles, a, b),
    ensures
        settle(tiles, s) == tiles,
        combined(tiles, s).len() == 0,
{
    assert forall|n: int| 0 <= n <= tiles.len() implies #[trigger] kept_indices(tiles, n) =~= Seq::new(
        n as nat,
        |i: int| i,
    ) && head_indices(tiles, n).len() == 0 by {
        lemma_settle_no_pairs_upto(tiles, n);
    }
    let n = tiles.len() as int;
    assert(kept_indices(tiles, n) =~= Seq::new(n as nat, |i: int| i));
    assert(kept(tiles) =~= tiles);
    assert(settle(tiles, s) =~= tiles);
}

proof fn lemma_settle_no_pairs_upto(tiles: Seq<Tile>, n: int)
    requires
        0 <= n <= tiles.len(),
        forall|a: int, b: int|
            0 <= a < tiles.len() && 0 <= b < tiles.len() && a != b ==> !#[trigger] shares(tiles, a, b),
    ensures
        kept_indices(tiles, n) =~= Seq::new(n as nat, |i: int| i),
        head_indices(tiles, n).len() == 0,
    decreases n,
{
    if n > 0 {
        lemma_settle_no_pairs_upto(tiles, n - 1);
        let i = n - 1;
        let x = tiles[i].tile_x as int;
        let y = tiles[i].tile_y as int;
        lemma_first_at(tiles, x, y, 0);
        lemma_first_at(tiles, x, y, i + 1);
        let f = index_at(tiles, x, y);
        if f != i {
            assert(shares(tiles, f, i));
        }
        let p = partner(tiles, i);
        if p >= 0 {
            assert(shares(tiles, i, p));
        }
        assert(alone(tiles, i));
    }
}

/// After a settlement of well-formed tiles whose pairs may merge, every tile is
/// well formed and no two share a cell.
pub proof fn lemma_settle_wf(tiles: Seq<Tile>, s: Settings)
    requires
        s.wf(),
        forall|i: int| 0 <= i < tiles.len() ==> (#[trigger] tiles[i]).wf(s),
        forall|a: int, b: int|
            0 <= a < tiles.len() && 0 <= b < tiles.len() && a != b && #[trigger] shares(tiles, a, b)
                ==> tiles[a].score == tiles[b].score && tiles[a].score <= MERGE_LIMIT,
    ensures
        forall|i: int| 0 <= i < settle(tiles, s).len() ==> (#[trigger] settle(tiles, s)[i]).wf(s),
        forall|a: int, b: int|
            0 <= a < settle(tiles, s).len() && 0 <= b < settle(tiles, s).len() && a != b
                ==> !#[trigger] shares(settle(tiles, s), a, b),
{
    let n = tiles.len() as int;
    let ki = kept_indices(tiles, n);
    let hi = head_indices(tiles, n);
    lemma_kept_indices(tiles, n);
    lemma_head_indices(tiles, n);
    let r = settle(tiles, s);
    let k = ki.len() as int;
    // the index of the input tile whose cell each result tile stands on
    let src = |a: int| if a < k { ki[a] } else { hi[a - k] };
    assert forall|a: int| 0 <= a < r.len() implies r[a].tile_x == tiles[src(a)].tile_x
        && r[a].tile_y == tiles[src(a)].tile_y && index_at(tiles, r[a].tile_x as int, r[a].tile_y as int)
        == src(a) && (a < k <==> alone(tiles, src(a))) && (#[trigger] r[a]).wf(s) by {
        if a < k {
            assert(r[a] == tiles[ki[a]]);
        } else {
            let i = hi[a - k];
            assert(r[a] == combined_tile(tiles, s, i));
            let p = partner(tiles, i);
            lemma_first_at(tiles, tiles[i].tile_x as int, tiles[i].tile_y as int, i + 1);
            assert(shares(tiles, i, p));
            lemma_double_pow2(tiles[i].score as nat);
            assert(s.tile_size * 6 / 5 <= MAX_PIXEL);
        }
    }
    assert forall|a: int, b: int| 0 <= a < r.len() && 0 <= b < r.len() && a != b implies !#[trigger] shares(
        r,
        a,
        b,
    ) by {
        if shares(r, a, b) {
            assert(src(a) == src(b));
            if a < k && b < k {
                if a < b {
                    assert(ki[a] < ki[b]);
                } else {
                    assert(ki[b] < ki[a]);
                }
            } else if a >= k && b >= k {
                if a < b {
                    assert(hi[a - k] < hi[b - k]);
                } else {
                    assert(hi[b - k] < hi[a - k]);
                }
            }
        }
    }
}

/// A settlement of tiles at rest leaves no tile moving.
pub proof fn lemma_settle_static(tiles: Seq<Tile>, s: Settings)
    requires
        forall|i: int| 0 <= i < tiles.len() ==> (#[trigger] tiles[i]).is_static(),
    ensures
        forall|i: int| 0 <= i < settle(tiles, s).len() ==> !(#[trigger] settle(tiles, s)[i]).is_moving(),
{
    let n = tiles.len() as int;
    lemma_kept_indices(tiles, n);
    let k = kept_indices(tiles, n).len() as int;
    assert forall|i: int| 0 <= i < settle(tiles, s).len() implies !(#[trigger] settle(tiles, s)[i]).is_moving() by {
        if i < k {
            assert(settle(tiles, s)[i] == tiles[kept_indices(tiles, n)[i]]);
        }
    }
}

/// Tile `i` shares its cell with an earlier tile.
pub open spec fn is_tail(tiles: Seq<Tile>, i: int) -> bool {
    index_at(tiles, tiles[i].tile_x as int, tiles[i].tile_y as int) != i
}

/// Sum of the values of the tiles among the first `n` that satisfy `f`.
pub open spec fn sum_where(tiles: Seq<Tile>, n: int, f: spec_fn(int) -> bool) -> int
    decreases n,
{
    if n <= 0 {
        0
    } else {
        sum_where(tiles, n - 1, f) + if f(n - 1) {
            tiles[n - 1].score as int
        } else {
            0
        }
    }
}

/// A sum over a filter that holds of exactly one index `h` below `n` is that tile's value.
proof fn lemma_sum_where_single(tiles: Seq<Tile>, n: int, f: spec_fn(int) -> bool, h: int)
    requires
        0 <= h < n,
        forall|i: int| 0 <= i < n ==> (#[trigger] f(i) <==> i == h),
    ensures
        sum_where(tiles, n, f) == tiles[h].score,
    decreases n,
{
    if n - 1 > h {
        lemma_sum_where_single(tiles, n - 1, f, h);
    } else {
        lemma_sum_where_none(tiles, n - 1, f);
    }
}

proof fn lemma_sum_where_none(tiles: Seq<Tile>, n: int, f: spec_fn(int) -> bool)
    requires
        forall|i: int| 0 <= i < n ==> !#[trigger] f(i),
    ensures
        sum_where(tiles, n, f) == 0,
    decreases n,
{
    if n > 0 {
        lemma_sum_where_none(tiles, n - 1, f);
    }
}

proof fn lemma_value_total_concat(a: Seq<Tile>, b: Seq<Tile>)
    ensures
        value_total(a + b) == value_total(a) + value_total(b),
    decreases b.len(),
{
    if b.len() > 0 {
        lemma_value_total_concat(a, b.drop_last());
        assert((a + b).drop_last() =~= a + b.drop_last());
        assert((a + b).last() == b.last());
    } else {
        assert(a + b =~= a);
    }
}

proof fn lemma_total_split(tiles: Seq<Tile>, n: int)
    requires
        0 <= n <= tiles.len(),
    ensures
        value_total(tiles.take(n)) == sum_where(tiles, n, |i: int| alone(tiles, i)) + sum_where(
            tiles,
            n,
            |i: int| heads_pair(tiles, i),
        ) + sum_where(tiles, n, |i: int| is_tail(tiles, i)),
    decreases n,
{
    if n > 0 {
        lemma_total_split(tiles, n - 1);
        assert(tiles.take(n).drop_last() =~= tiles.take(n - 1));
        assert(tiles.take(n).last() == tiles[n - 1]);
        lemma_first_at(tiles, tiles[n - 1].tile_x as int, tiles[n - 1].tile_y as int, n);
    } else {
        assert(tiles.take(0) =~= Seq::<Tile>::empty());
    }
}

proof fn lemma_kept_total(tiles: Seq<Tile>, n: int)
    requires
        0 <= n <= tiles.len(),
    ensures
        value_total(kept_indices(tiles, n).map_values(|i: int| tiles[i])) == sum_where(
            tiles,
            n,
            |i: int| alone(tiles, i),
        ),
    decreases n,
{
    if n > 0 {
        lemma_kept_total(tiles, n - 1);
        let prev = kept_indices(tiles, n - 1).map_values(|i: int| tiles[i]);
        if alone(tiles, n - 1) {
            let cur = kept_indices(tiles, n).map_values(|i: int| tiles[i]);
            assert(cur.drop_last() =~= prev);
        }
    } else {
        assert(kept_indices(tiles, 0).map_values(|i: int| tiles[i]) =~= Seq::<Tile>::empty());
    }
}

proof fn lemma_combined_total(tiles: Seq<Tile>, s: Settings, n: int)
    requires
        0 <= n <= tiles.len(),
        forall|i: int| 0 <= i < tiles.len() ==> (#[trigger] tiles[i]).score <= MAX_SCORE,
        forall|a: int, b: int|
            0 <= a < tiles.len() && 0 <= b < tiles.len() && a != b && #[trigger] shares(tiles, a, b)
                ==> tiles[a].score == tiles[b].score,
    ensures
        value_total(head_indices(tiles, n).map_values(|i: int| combined_tile(tiles, s, i))) == 2 * sum_where(
            tiles,
            n,
            |i: int| heads_pair(tiles, i),
        ),
    decreases n,
{
    if n > 0 {
        lemma_combined_total(tiles, s, n - 1);
        let prev = head_indices(tiles, n - 1).map_values(|i: int| combined_tile(tiles, s, i));
        if heads_pair(tiles, n - 1) {
            let cur = head_indices(tiles, n).map_values(|i: int| combined_tile(tiles, s, i));
            assert(cur.drop_last() =~= prev);
            let i = n - 1;
            let p = partner(tiles, i);
            lemma_first_at(tiles, tiles[i].tile_x as int, tiles[i].tile_y as int, i + 1);
            assert(shares(tiles, i, p));
        }
    } else {
        assert(head_indices(tiles, 0).map_values(|i: int| combined_tile(tiles, s, i)) =~= Seq::<Tile>::empty());
    }
}

/// Heads among the first `m` tiles whose partner lies at or after `n`.
pub open spec fn open_heads(tiles: Seq<Tile>, m: int, n: int) -> int {
    sum_where(tiles, m, |h: int| heads_pair(tiles, h) && partner(tiles, h) >= n)
}

proof fn lemma_open_threshold(tiles: Seq<Tile>, m: int, n: int)
    requires
        0 <= m,
    ensures
        open_heads(tiles, m, n) == open_heads(tiles, m, n + 1) + sum_where(
            tiles,
            m,
            |h: int| heads_pair(tiles, h) && partner(tiles, h) == n,
        ),
    decreases m,
{
    if m > 0 {
        lemma_open_threshold(tiles, m - 1, n);
    }
}

/// Heads and tails pair up: the tail values seen so far fall short of the
/// head values by the heads whose partner is still to come.
proof fn lemma_heads_tails(tiles: Seq<Tile>, n: int)
    requires
        0 <= n <= tiles.len(),
        forall|a: int, b: int|
            0 <= a < tiles.len() && 0 <= b < tiles.len() && a != b && #[trigger] shares(tiles, a, b)
                ==> tiles[a].score == tiles[b].score,
        forall|a: int, b: int, c: int|
            0 <= a < tiles.len() && 0 <= b < tiles.len() && 0 <= c < tiles.len() && a != b && b != c
                && a != c ==> !(#[trigger] shares(tiles, a, b) && #[trigger] shares(tiles, b, c)),
    ensures
        sum_where(tiles, n, |i: int| heads_pair(tiles, i)) - sum_where(tiles, n, |i: int| is_tail(tiles, i))
            == open_heads(tiles, n, n),
    decreases n,
{
    if n > 0 {
        let i = n - 1;
        lemma_heads_tails(tiles, i);
        lemma_open_threshold(tiles, i, i);
        let x = tiles[i].tile_x as int;
        let y = tiles[i].tile_y as int;
        lemma_first_at(tiles, x, y, 0);
        lemma_first_at(tiles, x, y, i + 1);
        let f = |h: int| heads_pair(tiles, h) && partner(tiles, h) == i;
        if is_tail(tiles, i) {
            let h = index_at(tiles, x, y);
            assert(h < i);
            lemma_first_at(tiles, x, y, h + 1);
            assert(shares(tiles, h, i));
            let p = partner(tiles, h);
            if p != i {
                assert(shares(tiles, h, p));
                assert(shares(tiles, p, i));
            }
            assert forall|g: int| 0 <= g < i implies (#[trigger] f(g) <==> g == h) by {
                if f(g) {
                    lemma_first_at(tiles, tiles[g].tile_x as int, tiles[g].tile_y as int, g + 1);
                }
            }
            lemma_sum_where_single(tiles, i, f, h);
            assert(tiles[h].score == tiles[i].score);
        } else {
            assert forall|g: int| 0 <= g < i implies !#[trigger] f(g) by {
                if f(g) {
                    lemma_first_at(tiles, tiles[g].tile_x as int, tiles[g].tile_y as int, g + 1);
                }
            }
            lemma_sum_where_none(tiles, i, f);
        }
    }
}

/// A settlement keeps the total value of the tiles: each pair's two values
/// reappear as one combined tile, and the combined tiles hold exactly the
/// value that the settlement adds to the score.
pub proof fn lemma_settle_keeps_total(tiles: Seq<Tile>, s: Settings)
    requires
        forall|i: int| 0 <= i < tiles.len() ==> (#[trigger] tiles[i]).score <= MAX_SCORE,
        forall|a: int, b: int|
            0 <= a < tiles.len() && 0 <= b < tiles.len() && a != b && #[trigger] shares(tiles, a, b)
                ==> tiles[a].score == tiles[b].score,
        forall|a: int, b: int, c: int|
            0 <= a < tiles.len() && 0 <= b < tiles.len() && 0 <= c < tiles.len() && a != b && b != c
                && a != c ==> !(#[trigger] shares(tiles, a, b) && #[trigger] shares(tiles, b, c)),
    ensures
        value_total(settle(tiles, s)) == value_total(tiles),
        value_total(kept(tiles)) + value_total(combined(tiles, s)) == value_total(tiles),
{
    let n = tiles.len() as int;
    lemma_total_split(tiles, n);
    assert(tiles.take(n) =~= tiles);
    lemma_kept_total(tiles, n);
    lemma_combined_total(tiles, s, n);
    lemma_heads_tails(tiles, n);
    assert forall|h: int| 0 <= h < n implies !(heads_pair(tiles, h) && partner(tiles, h) >= n) by {
        lemma_first_at(tiles, tiles[h].tile_x as int, tiles[h].tile_y as int, h + 1);
    }
    lemma_sum_where_none(tiles, n, |h: int| heads_pair(tiles, h) && partner(tiles, h) >= n);
    lemma_value_total_concat(kept(tiles), combined(tiles, s));
}

/// Tiles with the same values, one for one, have the same total.
pub proof fn lemma_value_total_same_scores(a: Seq<Tile>, b: Seq<Tile>)
    requires
        a.len() == b.len(),
        forall|i: int| 0 <= i < a.len() ==> (#[trigger] a[i]).score == b[i].score,
    ensures
        value_total(a) == value_total(b),
    decreases a.len(),
{
    if a.len() > 0 {
        lemma_value_total_same_scores(a.drop_last(), b.drop_last());
    }
}

/// The tiles that a settlement keeps and those it creates.
pub fn settle_tiles(tiles: &Vec<Tile>, s: &Settings) -> (r: (Vec<Tile>, Vec<Tile>))
    requires
        s.wf(),
        forall|i: int| 0 <= i < tiles.len() ==> (#[trigger] tiles@[i]).wf(*s),
    ensures
        r.0@ == kept(tiles@),
        r.1@ == combined(tiles@, *s),
{
    let n = tiles.len();
    let mut stay: Vec<Tile> = Vec::new();
    let mut made: Vec<Tile> = Vec::new();
    let mut i: usize = 0;
    while i < n
        invariant
            n == tiles.len(),
            s.wf(),
            i <= n,
            forall|j: int| 0 <= j < n ==> (#[trigger] tiles@[j]).wf(*s),
            stay@ == kept_indices(tiles@, i as int).map_values(|j: int| tiles@[j]),
            made@ == head_indices(tiles@, i as int).map_values(|j: int| combined_tile(tiles@, *s, j)),
        decreases n - i,
    {
        let t = tiles[i];
        let first = find_tile(tiles, t.tile_x, t.tile_y);
        let is_first = match first {
            Some(f) => f == i,
            None => false,
        };
        proof {
            lemma_first_at(tiles@, t.tile_x as int, t.tile_y as int, 0);
        }
        match find_tile_from(tiles, t.tile_x, t.tile_y, i + 1) {
            None => {
                if is_first {
                    stay.push(t);
                }
            },
            Some(p) => {
                if is_first {
                    proof {
                        lemma_first_at(tiles@, t.tile_x as int, t.tile_y as int, i + 1);
                    }
                    let c = Tile::new_combined(s, t.score + tiles[p].score, t.tile_x, t.tile_y);
                    made.push(c);
                }
            },
        }
        proof {
            assert(kept_indices(tiles@, i + 1).map_values(|j: int| tiles@[j]) =~= stay@);
            assert(head_indices(tiles@, i + 1).map_values(|j: int| combined_tile(tiles@, *s, j))
                =~= made@);
        }
        i += 1;
    }
    (stay, made)
}

} // verus!

use vstd::prelude::*;

use crate::counting::{
    count_in, count_up_to, lemma_count_agree, lemma_count_bounds, lemma_count_full,
    lemma_count_one_clear, lemma_count_one_set, lemma_count_update, lemma_count_zero,
};
use crate::grid::{
    cell_ok, coords_has, count_nbr_mines, flat_idx, grid_labelled, in_grid, is_nbr,
    lemma_coords_has_concat, lemma_coords_has_pop, lemma_empty_nbr_not_mine,
    lemma_flat_idx_bounds, lemma_flat_idx_injective, lemma_set_tile, nbr_mines, neighbours,
};
use crate::rng::random_below;
use crate::tile::{is_blank, is_flagged, is_mine, is_revealed, revealed, tile_step};
pub use crate::tile::{Tile, TileState, TileType};

verus! {

/// The outcome of a single click: the game goes on, is won, or is lost.
#[derive(Clone, Copy, Debug, PartialEq, Eq, Structural)]
pub enum ClickResult {
    Won,
    Lost,
    Continued,
}

/// The tile predicates the board's counters are stated over.
pub open spec fn mine_p() -> spec_fn(Tile) -> bool {
    |t: Tile| is_mine(t)
}

pub open spec fn flag_p() -> spec_fn(Tile) -> bool {
    |t: Tile| is_flagged(t)
}

pub open spec fn hidden_p() -> spec_fn(Tile) -> bool {
    |t: Tile| !is_revealed(t)
}

/// A tile of a board under construction: safe until told otherwise,
/// hidden, unflagged.
pub open spec fn blank_tile() -> Tile {
    Tile { tile_type: TileType::Empty, tile_state: TileState::Unclicked { flag: false } }
}

/// The grid of one game, with its aggregate counters. Tiles are stored
/// row-major: cell (x, y) lives at index x * szy + y.
pub struct Gameboard {
    pub tiles: Vec<Tile>,
    pub szx: usize,
    pub szy: usize,
    pub mines_total: usize,
    pub mines_found: usize,
}

impl Gameboard {
    pub open spec fn in_bounds(self, x: int, y: int) -> bool {
        in_grid(self.szx as int, self.szy as int, x, y)
    }

    /// The tile at (x, y).
    pub open spec fn tile_at(self, x: int, y: int) -> Tile {
        self.tiles@[flat_idx(self.szy as int, x, y)]
    }

    pub open spec fn mine_count(self) -> int {
        count_in(self.tiles@, mine_p())
    }

    pub open spec fn flag_count(self) -> int {
        count_in(self.tiles@, flag_p())
    }

    /// How many tiles are not yet revealed, flagged or not: the quantity
    /// the win condition compares against `mines_total`.
    pub open spec fn hidden_count(self) -> int {
        count_in(self.tiles@, hidden_p())
    }

    /// A well-formed board: the grid has exactly szx * szy tiles, the
    /// counters agree with the tiles, and every label is truthful.
    pub open spec fn wf(self) -> bool {
        &&& self.tiles@.len() == self.szx as int * self.szy as int
        &&& self.szx as int * self.szy as int <= usize::MAX as int
        &&& self.mines_total as int == self.mine_count()
        &&& self.mines_total <= self.szx * self.szy
        &&& self.mines_found as int == self.flag_count()
        &&& grid_labelled(self.tiles@, self.szx as int, self.szy as int)
    }
}

/// A fresh grid: `n` blank tiles.
fn blank_tiles(n: usize) -> (v: Vec<Tile>)
    ensures
        v@.len() == n,
        forall|k: int| 0 <= k < n ==> v@[k] == blank_tile(),
{
    let mut v: Vec<Tile> = Vec::new();
    let mut i: usize = 0;
    while i < n
        invariant
            v@.len() == i,
            i <= n,
            forall|k: int| 0 <= k < i ==> v@[k] == blank_tile(),
        decreases n - i,
    {
        v.push(Tile { tile_type: TileType::Empty, tile_state: TileState::Unclicked { flag: false } });
        i += 1;
    }
    v
}

/// First construction pass: turn the first `m` listed cells of a blank
/// grid into mines. The list must name distinct in-range cells.
fn place_mines(tiles: &mut Vec<Tile>, idxs: &Vec<usize>, m: usize)
    requires
        m <= idxs@.len(),
        forall|k: int| 0 <= k < idxs@.len() ==> (#[trigger] idxs@[k]) < old(tiles)@.len(),
        forall|k1: int, k2: int| 0 <= k1 < k2 < idxs@.len() ==> idxs@[k1] != idxs@[k2],
        forall|k: int| 0 <= k < old(tiles)@.len() ==> old(tiles)@[k] == blank_tile(),
    ensures
        final(tiles)@.len() == old(tiles)@.len(),
        forall|n: int|
            0 <= n < final(tiles)@.len() ==> (is_mine(#[trigger] final(tiles)@[n])
                <==> exists|q: int| 0 <= q < m && (#[trigger] idxs@[q]) as int == n),
        forall|n: int|
            0 <= n < final(tiles)@.len() ==> (#[trigger] final(tiles)@[n]).tile_state == (
            TileState::Unclicked { flag: false }) && (!is_mine(final(tiles)@[n])
                ==> final(tiles)@[n].tile_type is Empty),
        count_in(final(tiles)@, mine_p()) == m as int,
{
    proof {
        lemma_count_zero(tiles@, mine_p(), tiles@.len() as int);
    }
    let mut i: usize = 0;
    while i < m
        invariant
            i <= m,
            m <= idxs@.len(),
            tiles@.len() == old(tiles)@.len(),
            forall|k: int| 0 <= k < idxs@.len() ==> (#[trigger] idxs@[k]) < tiles@.len(),
            forall|k1: int, k2: int| 0 <= k1 < k2 < idxs@.len() ==> idxs@[k1] != idxs@[k2],
            forall|n: int|
                0 <= n < tiles@.len() ==> (is_mine(#[trigger] tiles@[n]) <==> exists|q: int|
                    0 <= q < i && (#[trigger] idxs@[q]) as int == n),
            forall|n: int|
                0 <= n < tiles@.len() ==> (#[trigger] tiles@[n]).tile_state == (
                TileState::Unclicked { flag: false }) && (!is_mine(tiles@[n])
                    ==> tiles@[n].tile_type is Empty),
            count_in(tiles@, mine_p()) == i as int,
        decreases m - i,
    {
        let c = idxs[i];
        proof {
            assert(!is_mine(tiles@[c as int])) by {
                if is_mine(tiles@[c as int]) {
                    let q = choose|q: int| 0 <= q < i && (#[trigger] idxs@[q]) as int == c as int;
                    assert(idxs@[q] != idxs@[i as int]);
                }
            }
        }
        let t = tiles[c];
        let nt = Tile { tile_type: TileType::Mine, tile_state: t.tile_state };
        let ghost s0 = tiles@;
        proof {
            lemma_count_update(tiles@, mine_p(), tiles@.len() as int, c as int, nt);
        }
        tiles[c] = nt;
        proof {
            assert forall|n: int| 0 <= n < tiles@.len() implies (is_mine(#[trigger] tiles@[n])
                <==> exists|q: int| 0 <= q < i + 1 && (#[trigger] idxs@[q]) as int == n) by {
                if n == c as int {
                    assert(0 <= i < i + 1 && (idxs@[i as int]) as int == n);
                } else {
                    assert(tiles@[n] == s0[n]);
                    if is_mine(s0[n]) {
                        let q = choose|q: int|
                            0 <= q < i && (#[trigger] idxs@[q]) as int == n;
                        assert(0 <= q < i + 1 && (idxs@[q]) as int == n);
                    }
                    if exists|q: int| 0 <= q < i + 1 && (#[trigger] idxs@[q]) as int == n {
                        let q = choose|q: int|
                            0 <= q < i + 1 && (#[trigger] idxs@[q]) as int == n;
                        assert(q < i);
                    }
                }
            }
        }
        i += 1;
    }
}

/// Second construction pass: give every non-mine tile its true label,
/// Empty for no neighbouring mine, Neighboured(n) for n of them. Mines
/// and all states are left untouched.
fn assign_labels(tiles: &mut Vec<Tile>, szx: usize, szy: usize)
    requires
        old(tiles)@.len() == szx as int * szy as int,
        szx as int * szy as int <= usize::MAX as int,
    ensures
        final(tiles)@.len() == old(tiles)@.len(),
        forall|n: int|
            0 <= n < final(tiles)@.len() ==> is_mine(#[trigger] final(tiles)@[n]) == is_mine(
                old(tiles)@[n],
            ) && final(tiles)@[n].tile_state == old(tiles)@[n].tile_state,
        grid_labelled(final(tiles)@, szx as int, szy as int),
{
    let ghost g0 = old(tiles)@;
    let mut x: usize = 0;
    while x < szx
        invariant
            x <= szx,
            tiles@.len() == g0.len(),
            g0.len() == szx as int * szy as int,
            szx as int * szy as int <= usize::MAX as int,
            forall|n: int|
                0 <= n < tiles@.len() ==> is_mine(#[trigger] tiles@[n]) == is_mine(g0[n])
                    && tiles@[n].tile_state == g0[n].tile_state,
            forall|a: int, b: int|
                in_grid(szx as int, szy as int, a, b) && a < x ==> #[trigger] cell_ok(
                    tiles@,
                    szx as int,
                    szy as int,
                    a,
                    b,
                ),
        decreases szx - x,
    {
        let mut y: usize = 0;
        while y < szy
            invariant
                x < szx,
                y <= szy,
                tiles@.len() == g0.len(),
                g0.len() == szx as int * szy as int,
                szx as int * szy as int <= usize::MAX as int,
                forall|n: int|
                    0 <= n < tiles@.len() ==> is_mine(#[trigger] tiles@[n]) == is_mine(g0[n])
                        && tiles@[n].tile_state == g0[n].tile_state,
                forall|a: int, b: int|
                    in_grid(szx as int, szy as int, a, b) && (a < x || (a == x as int && b < y))
                        ==> #[trigger] cell_ok(tiles@, szx as int, szy as int, a, b),
            decreases szy - y,
        {
            proof {
                lemma_flat_idx_bounds(szx as int, szy as int, x as int, y as int);
            }
            let k = x * szy + y;
            let t = tiles[k];
            let is_a_mine = if let TileType::Mine = t.tile_type {
                true
            } else {
                false
            };
            if !is_a_mine {
                let c = count_nbr_mines(tiles, szx, szy, x, y);
                let nt = Tile {
                    tile_type: if c == 0 {
                        TileType::Empty
                    } else {
                        TileType::Neighboured(c)
                    },
                    tile_state: t.tile_state,
                };
                let ghost s0 = tiles@;
                proof {
                    lemma_set_tile(tiles@, szx as int, szy as int, x as int, y as int, nt);
                }
                tiles[k] = nt;
                proof {
                    assert forall|a: int, b: int|
                        in_grid(szx as int, szy as int, a, b) && (a < x || (a == x as int && b < y
                            + 1)) implies #[trigger] cell_ok(
                        tiles@,
                        szx as int,
                        szy as int,
                        a,
                        b,
                    ) by {
                        if a == x as int && b == y as int {
                            assert(tiles@[flat_idx(szy as int, a, b)] == nt);
                            assert(nbr_mines(tiles@, szx as int, szy as int, a, b) == nbr_mines(
                                s0,
                                szx as int,
                                szy as int,
                                a,
                                b,
                            ));
                        }
                    }
                }
            } else {
                proof {
                    assert(cell_ok(tiles@, szx as int, szy as int, x as int, y as int));
                }
            }
            y += 1;
        }
        x += 1;
    }
}

/// A list of mine positions a board can be built from: every cell on the
/// grid, no cell twice.
pub open spec fn spec_locs_valid(szx: int, szy: int, s: Seq<(usize, usize)>) -> bool {
    &&& forall|k: int|
        0 <= k < s.len() ==> in_grid(szx, szy, (#[trigger] s[k]).0 as int, s[k].1 as int)
    &&& forall|k1: int, k2: int| 0 <= k1 < k2 < s.len() ==> s[k1] != s[k2]
}

/// Checks a mine-position list against the grid: in range and distinct.
fn locs_valid(szx: usize, szy: usize, locs: &Vec<(usize, usize)>) -> (r: bool)
    ensures
        r == spec_locs_valid(szx as int, szy as int, locs@),
{
    let mut k: usize = 0;
    while k < locs.len()
        invariant
            k <= locs@.len(),
            forall|m: int|
                0 <= m < k ==> in_grid(
                    szx as int,
                    szy as int,
                    (#[trigger] locs@[m]).0 as int,
                    locs@[m].1 as int,
                ),
            forall|m1: int, m2: int| 0 <= m1 < m2 < k ==> locs@[m1] != locs@[m2],
        decreases locs@.len() - k,
    {
        let (a, b) = locs[k];
        if !(a < szx && b < szy) {
            return false;
        }
        let mut j: usize = 0;
        while j < k
            invariant
                j <= k < locs@.len(),
                (a, b) == locs@[k as int],
                forall|m: int| 0 <= m < j ==> locs@[m] != locs@[k as int],
            decreases k - j,
        {
            let (c, d) = locs[j];
            if c == a && d == b {
                return false;
            }
            j += 1;
        }
        k += 1;
    }
    true
}

impl Gameboard {
    /// Builds a board with its mines exactly at the listed cells, every
    /// tile hidden and unflagged. Rejects a list that repeats a cell or
    /// leaves the grid. This is the deterministic twin of `new`: same
    /// board shape, the placement chosen by the caller instead of drawn.
    pub fn from_mines(szx: usize, szy: usize, locs: &Vec<(usize, usize)>) -> (r: Result<
        Gameboard,
        String,
    >)
        requires
            szx as int * szy as int <= usize::MAX as int,
        ensures
            r is Ok <==> spec_locs_valid(szx as int, szy as int, locs@),
            r matches Ok(g) ==> ({
                &&& g.wf()
                &&& g.szx == szx
                &&& g.szy == szy
                &&& g.mines_total == locs@.len()
                &&& g.mines_found == 0
                &&& forall|i: int, j: int|
                    g.in_bounds(i, j) ==> (is_mine(#[trigger] g.tile_at(i, j)) <==> coords_has(
                        locs@,
                        i,
                        j,
                    ))
                &&& forall|i: int, j: int|
                    g.in_bounds(i, j) ==> !is_revealed(#[trigger] g.tile_at(i, j)) && !is_flagged(
                        g.tile_at(i, j),
                    )
            }),
    {
        if !locs_valid(szx, szy, locs) {
            return Err("Invalid mine placement".to_owned());
        }
        let total = szx * szy;
        let mut idxs: Vec<usize> = Vec::new();
        let mut k: usize = 0;
        while k < locs.len()
            invariant
                k <= locs@.len(),
                idxs@.len() == k,
                spec_locs_valid(szx as int, szy as int, locs@),
                szx as int * szy as int <= usize::MAX as int,
                forall|m: int|
                    0 <= m < k ==> (#[trigger] idxs@[m]) as int == flat_idx(
                        szy as int,
                        locs@[m].0 as int,
                        locs@[m].1 as int,
                    ),
                forall|m: int|
                    0 <= m < k ==> ((#[trigger] idxs@[m]) as int) < (szx as int) * (szy as int),
            decreases locs@.len() - k,
        {
            let (a, b) = locs[k];
            proof {
                lemma_flat_idx_bounds(szx as int, szy as int, a as int, b as int);
            }
            idxs.push(a * szy + b);
            k += 1;
        }
        proof {
            assert forall|m1: int, m2: int| 0 <= m1 < m2 < idxs@.len() implies idxs@[m1]
                != idxs@[m2] by {
                if idxs@[m1] == idxs@[m2] {
                    lemma_flat_idx_injective(
                        szy as int,
                        locs@[m1].0 as int,
                        locs@[m1].1 as int,
                        locs@[m2].0 as int,
                        locs@[m2].1 as int,
                    );
                    assert(locs@[m1] == locs@[m2]);
                }
            }
        }
        let mut tiles = blank_tiles(total);
        let m = idxs.len();
        place_mines(&mut tiles, &idxs, m);
        let ghost placed = tiles@;
        assign_labels(&mut tiles, szx, szy);
        let g = Gameboard { tiles, szx, szy, mines_total: m, mines_found: 0 };
        proof {
            lemma_fresh_board_wf(g, placed, m as int);
            assert forall|i: int, j: int| g.in_bounds(i, j) implies (is_mine(
                #[trigger] g.tile_at(i, j),
            ) <==> coords_has(locs@, i, j)) by {
                lemma_flat_idx_bounds(szx as int, szy as int, i, j);
                let n = flat_idx(szy as int, i, j);
                if is_mine(g.tile_at(i, j)) {
                    let q = choose|q: int| 0 <= q < m && (#[trigger] idxs@[q]) as int == n;
                    lemma_flat_idx_injective(
                        szy as int,
                        locs@[q].0 as int,
                        locs@[q].1 as int,
                        i,
                        j,
                    );
                    assert((locs@[q]).0 as int == i && locs@[q].1 as int == j);
                }
                if coords_has(locs@, i, j) {
                    let q = choose|q: int|
                        0 <= q < locs@.len() && (#[trigger] locs@[q]).0 as int == i && locs@[q].1
                            as int == j;
                    assert((idxs@[q]) as int == n);
                    assert(is_mine(placed[n]));
                }
            }
        }
        Ok(g)
    }
}

impl Gameboard {
    /// Builds a fresh game: `mines_total` mines at distinct cells drawn
    /// uniformly at random, every other tile labelled with its true
    /// neighbour-mine count, every tile hidden and unflagged. Fails
    /// exactly when more mines are asked for than the grid has cells.
    pub fn new(szx: usize, szy: usize, mines_total: usize) -> (r: Result<Gameboard, String>)
        requires
            szx as int * szy as int <= usize::MAX as int,
        ensures
            r is Err <==> (mines_total as int) > (szx as int) * (szy as int),
            r matches Ok(g) ==> ({
                &&& g.wf()
                &&& g.szx == szx
                &&& g.szy == szy
                &&& g.mines_total == mines_total
                &&& g.mines_found == 0
                &&& forall|i: int, j: int|
                    g.in_bounds(i, j) ==> !is_revealed(#[trigger] g.tile_at(i, j)) && !is_flagged(
                        g.tile_at(i, j),
                    )
            }),
    {
        let total = szx * szy;
        if mines_total > total {
            return Err("Too many mines".to_owned());
        }
        // Every cell's flat index once, in order.
        let mut cells: Vec<usize> = Vec::new();
        let mut i: usize = 0;
        while i < total
            invariant
                cells@.len() == i,
                i <= total,
                forall|k: int| 0 <= k < i ==> (#[trigger] cells@[k]) as int == k,
            decreases total - i,
        {
            cells.push(i);
            i += 1;
        }
        // Partial shuffle: the k-th mine cell is drawn uniformly from the
        // cells not yet chosen, so the first `mines_total` entries end up
        // a uniformly drawn set of distinct cells.
        let mut k: usize = 0;
        while k < mines_total
            invariant
                k <= mines_total,
                mines_total <= total,
                cells@.len() == total,
                forall|m: int| 0 <= m < total ==> (#[trigger] cells@[m]) < total,
                forall|m1: int, m2: int| 0 <= m1 < m2 < total ==> cells@[m1] != cells@[m2],
            decreases mines_total - k,
        {
            let pick = k + random_below(total - k);
            let a = cells[k];
            let b = cells[pick];
            let ghost s0 = cells@;
            cells[k] = b;
            cells[pick] = a;
            proof {
                assert forall|m: int| 0 <= m < total implies (#[trigger] cells@[m]) == (if m
                    == pick as int {
                    a
                } else if m == k as int {
                    b
                } else {
                    s0[m]
                }) by {}
                assert forall|m1: int, m2: int| 0 <= m1 < m2 < total implies cells@[m1]
                    != cells@[m2] by {
                    let o1: int = if m1 == pick as int {
                        k as int
                    } else if m1 == k as int {
                        pick as int
                    } else {
                        m1
                    };
                    let o2: int = if m2 == pick as int {
                        k as int
                    } else if m2 == k as int {
                        pick as int
                    } else {
                        m2
                    };
                    assert(cells@[m1] == s0[o1]);
                    assert(cells@[m2] == s0[o2]);
                    if o1 < o2 {
                        assert(s0[o1] != s0[o2]);
                    } else {
                        assert(s0[o2] != s0[o1]);
                    }
                }
            }
            k += 1;
        }
        let mut tiles = blank_tiles(total);
        place_mines(&mut tiles, &cells, mines_total);
        let ghost placed = tiles@;
        assign_labels(&mut tiles, szx, szy);
        let g = Gameboard { tiles, szx, szy, mines_total, mines_found: 0 };
        proof {
            lemma_fresh_board_wf(g, placed, mines_total as int);
        }
        Ok(g)
    }
}

/// Whether this click left (i, j) freshly revealed.
pub open spec fn newly_revealed(b0: Gameboard, b1: Gameboard, i: int, j: int) -> bool {
    !is_revealed(b0.tile_at(i, j)) && is_revealed(b1.tile_at(i, j))
}

/// The frame of every click: the grid keeps its shape and counters, and
/// each tile either stays as it was or goes from hidden-unflagged to
/// revealed; kinds, flags and already revealed tiles never move.
pub open spec fn click_frame(b0: Gameboard, b1: Gameboard) -> bool {
    &&& b1.szx == b0.szx
    &&& b1.szy == b0.szy
    &&& b1.mines_total == b0.mines_total
    &&& b1.mines_found == b0.mines_found
    &&& b1.tiles@.len() == b0.tiles@.len()
    &&& forall|i: int, j: int|
        b0.in_bounds(i, j) ==> tile_step(b0.tile_at(i, j), #[trigger] b1.tile_at(i, j))
}

/// No tile moved at all.
pub open spec fn boards_alike(b0: Gameboard, b1: Gameboard) -> bool {
    forall|i: int, j: int|
        b0.in_bounds(i, j) ==> #[trigger] b1.tile_at(i, j) == b0.tile_at(i, j)
}

/// Only (x, y) may have moved.
pub open spec fn unchanged_but(b0: Gameboard, b1: Gameboard, x: int, y: int) -> bool {
    forall|i: int, j: int|
        b0.in_bounds(i, j) && !(i == x && j == y) ==> #[trigger] b1.tile_at(i, j) == b0.tile_at(
            i,
            j,
        )
}

/// The click revealed no mine.
pub open spec fn no_mine_uncovered(b0: Gameboard, b1: Gameboard) -> bool {
    forall|i: int, j: int|
        b0.in_bounds(i, j) && #[trigger] newly_revealed(b0, b1, i, j) ==> !is_mine(
            b1.tile_at(i, j),
        )
}

/// Around (i, j), every in-bounds neighbour ends revealed or flagged.
pub open spec fn nbrs_settled(b: Gameboard, i: int, j: int) -> bool {
    forall|a: int, c: int|
        b.in_bounds(a, c) && is_nbr(i, j, a, c) ==> is_revealed(#[trigger] b.tile_at(a, c))
            || is_flagged(b.tile_at(a, c))
}

/// Saturation, the cascade went as far as it could: around every Empty
/// tile this click revealed, every in-bounds neighbour ends revealed or
/// flagged — nothing reachable was left covered.
pub open spec fn region_saturated(b0: Gameboard, b1: Gameboard) -> bool {
    forall|i: int, j: int|
        b0.in_bounds(i, j) && #[trigger] newly_revealed(b0, b1, i, j) && b1.tile_at(
            i,
            j,
        ).tile_type is Empty ==> nbrs_settled(b1, i, j)
}

/// (i, j) borders an Empty tile this click revealed. Kept opaque so that
/// its existential does not feed the quantifiers that mention it.
#[verifier::opaque]
pub open spec fn has_empty_source(b0: Gameboard, b1: Gameboard, i: int, j: int) -> bool {
    exists|a: int, c: int|
        b0.in_bounds(a, c) && is_nbr(a, c, i, j) && #[trigger] newly_revealed(b0, b1, a, c)
            && b1.tile_at(a, c).tile_type is Empty
}

/// Soundness, the cascade went no farther than it should: every tile this
/// click revealed, other than the clicked one, borders an Empty tile this
/// click revealed.
pub open spec fn region_sound(b0: Gameboard, b1: Gameboard, x: int, y: int) -> bool {
    forall|i: int, j: int|
        b0.in_bounds(i, j) && #[trigger] newly_revealed(b0, b1, i, j) && !(i == x && j == y)
            ==> has_empty_source(b0, b1, i, j)
}

/// The connected cascade region of a click at (x, y) on board `b`, in at
/// most `n` spreading steps: a cell is reached when it is the clicked
/// cell, or when it is hidden and unflagged and one of its eight
/// neighbours spreads to it.
pub open spec fn reach(b: Gameboard, x: int, y: int, i: int, j: int, n: nat) -> bool
    decreases n, 0int,
{
    if i == x && j == y {
        true
    } else if n == 0 {
        false
    } else {
        is_blank(b.tile_at(i, j)) && b.in_bounds(i, j) && (spread(b, x, y, i - 1, j - 1, (n - 1) as nat)
            || spread(b, x, y, i - 1, j, (n - 1) as nat) || spread(
            b,
            x,
            y,
            i - 1,
            j + 1,
            (n - 1) as nat,
        ) || spread(b, x, y, i, j - 1, (n - 1) as nat) || spread(b, x, y, i, j + 1, (n - 1) as nat)
            || spread(b, x, y, i + 1, j - 1, (n - 1) as nat) || spread(
            b,
            x,
            y,
            i + 1,
            j,
            (n - 1) as nat,
        ) || spread(b, x, y, i + 1, j + 1, (n - 1) as nat))
    }
}

/// A cell spreads the cascade when it is on the grid, reached, a hidden
/// unflagged tile, and Empty.
pub open spec fn spread(b: Gameboard, x: int, y: int, a: int, c: int, m: nat) -> bool
    decreases m, 1int,
{
    b.in_bounds(a, c) && reach(b, x, y, a, c, m) && b.tile_at(a, c).tile_type is Empty && is_blank(
        b.tile_at(a, c),
    )
}

/// The cell lies in the cascade region of a click at (x, y): reached in
/// some number of steps. Kept opaque so that its existential does not
/// feed the quantifiers that mention it.
#[verifier::opaque]
pub open spec fn cascade_reached(b: Gameboard, x: int, y: int, i: int, j: int) -> bool {
    exists|n: nat| reach(b, x, y, i, j, n)
}

/// The clicked cell itself is reached.
proof fn lemma_reach_base(b: Gameboard, x: int, y: int)
    ensures
        cascade_reached(b, x, y, x, y),
{
    reveal(cascade_reached);
    assert(reach(b, x, y, x, y, 0));
}

/// A blank cell bordering a reached blank Empty cell is reached too.
proof fn lemma_reach_step(b: Gameboard, x: int, y: int, a: int, c: int, i: int, j: int)
    requires
        cascade_reached(b, x, y, a, c),
        b.in_bounds(a, c),
        b.in_bounds(i, j),
        is_nbr(a, c, i, j),
        b.tile_at(a, c).tile_type is Empty,
        is_blank(b.tile_at(a, c)),
        is_blank(b.tile_at(i, j)),
    ensures
        cascade_reached(b, x, y, i, j),
{
    reveal(cascade_reached);
    let n = choose|n: nat| reach(b, x, y, a, c, n);
    assert(spread(b, x, y, a, c, n));
    if a == i - 1 && c == j - 1 {
        assert(spread(b, x, y, i - 1, j - 1, n));
    } else if a == i - 1 && c == j {
        assert(spread(b, x, y, i - 1, j, n));
    } else if a == i - 1 && c == j + 1 {
        assert(spread(b, x, y, i - 1, j + 1, n));
    } else if a == i && c == j - 1 {
        assert(spread(b, x, y, i, j - 1, n));
    } else if a == i && c == j + 1 {
        assert(spread(b, x, y, i, j + 1, n));
    } else if a == i + 1 && c == j - 1 {
        assert(spread(b, x, y, i + 1, j - 1, n));
    } else if a == i + 1 && c == j {
        assert(spread(b, x, y, i + 1, j, n));
    } else {
        assert(a == i + 1 && c == j + 1);
        assert(spread(b, x, y, i + 1, j + 1, n));
    }
    assert(reach(b, x, y, i, j, n + 1));
}

/// The cascade misses nothing. From the click's own contract facts alone:
/// once the clicked blank cell is revealed and every revealed Empty cell
/// is saturated, every cell of the cascade region ends revealed. Together
/// with the converse — `click` also ensures every tile it reveals lies in
/// the region — the revealed set is exactly the connected region of Empty
/// tiles around the click plus its rim.
pub proof fn lemma_cascade_complete(
    b0: Gameboard,
    b1: Gameboard,
    x: int,
    y: int,
    i: int,
    j: int,
    n: nat,
)
    requires
        b0.in_bounds(x, y),
        is_blank(b0.tile_at(x, y)),
        is_revealed(b1.tile_at(x, y)),
        click_frame(b0, b1),
        region_saturated(b0, b1),
        reach(b0, x, y, i, j, n),
    ensures
        is_revealed(b1.tile_at(i, j)),
    decreases n, 1int,
{
    if i == x && j == y {
    } else {
        assert(n > 0);
        let m = (n - 1) as nat;
        if spread(b0, x, y, i - 1, j - 1, m) {
            lemma_complete_step(b0, b1, x, y, i - 1, j - 1, i, j, m);
        } else if spread(b0, x, y, i - 1, j, m) {
            lemma_complete_step(b0, b1, x, y, i - 1, j, i, j, m);
        } else if spread(b0, x, y, i - 1, j + 1, m) {
            lemma_complete_step(b0, b1, x, y, i - 1, j + 1, i, j, m);
        } else if spread(b0, x, y, i, j - 1, m) {
            lemma_complete_step(b0, b1, x, y, i, j - 1, i, j, m);
        } else if spread(b0, x, y, i, j + 1, m) {
            lemma_complete_step(b0, b1, x, y, i, j + 1, i, j, m);
        } else if spread(b0, x, y, i + 1, j - 1, m) {
            lemma_complete_step(b0, b1, x, y, i + 1, j - 1, i, j, m);
        } else if spread(b0, x, y, i + 1, j, m) {
            lemma_complete_step(b0, b1, x, y, i + 1, j, i, j, m);
        } else {
            assert(spread(b0, x, y, i + 1, j + 1, m));
            lemma_complete_step(b0, b1, x, y, i + 1, j + 1, i, j, m);
        }
    }
}

/// One spreading step of the completeness argument: the source (a, c) is
/// reached, hence revealed, hence saturated, so its blank neighbour
/// (i, j) cannot have stayed covered.
proof fn lemma_complete_step(
    b0: Gameboard,
    b1: Gameboard,
    x: int,
    y: int,
    a: int,
    c: int,
    i: int,
    j: int,
    m: nat,
)
    requires
        b0.in_bounds(x, y),
        is_blank(b0.tile_at(x, y)),
        is_revealed(b1.tile_at(x, y)),
        click_frame(b0, b1),
        region_saturated(b0, b1),
        spread(b0, x, y, a, c, m),
        is_nbr(a, c, i, j),
        b0.in_bounds(i, j),
        is_blank(b0.tile_at(i, j)),
    ensures
        is_revealed(b1.tile_at(i, j)),
    decreases m, 2int,
{
    lemma_cascade_complete(b0, b1, x, y, a, c, m);
    assert(newly_revealed(b0, b1, a, c));
    assert(tile_step(b0.tile_at(a, c), b1.tile_at(a, c)));
    assert(b1.tile_at(a, c).tile_type is Empty);
    assert(nbrs_settled(b1, a, c));
    assert(is_revealed(b1.tile_at(i, j)) || is_flagged(b1.tile_at(i, j)));
    assert(tile_step(b0.tile_at(i, j), b1.tile_at(i, j)));
    assert(!is_flagged(b1.tile_at(i, j)));
}

/// During a cascade: a worklist entry is an in-bounds cell bordering an
/// Empty tile this click has already revealed.
spec fn entry_ok(b0: Gameboard, b: Gameboard, i: int, j: int) -> bool {
    b.in_bounds(i, j) && has_empty_source(b0, b, i, j)
}

/// Saturation up to the worklist: a neighbour not yet settled is queued.
spec fn nbrs_settled_q(b: Gameboard, i: int, j: int, q: Seq<(usize, usize)>) -> bool {
    forall|a: int, c: int|
        b.in_bounds(a, c) && is_nbr(i, j, a, c) ==> is_revealed(#[trigger] b.tile_at(a, c))
            || is_flagged(b.tile_at(a, c)) || coords_has(q, a, c)
}

/// One cascade step: revealing the blank non-mine tile at (xn, yn) of the
/// well-formed board `b1` keeps it well-formed and keeps every per-tile
/// fact of the click that started at (x, y).
proof fn lemma_reveal_step(
    b0: Gameboard,
    b1: Gameboard,
    b2: Gameboard,
    x: int,
    y: int,
    xn: int,
    yn: int,
)
    requires
        b1.wf(),
        b0.szx == b1.szx,
        b0.szy == b1.szy,
        b0.tiles@.len() == b1.tiles@.len(),
        b1.in_bounds(xn, yn),
        is_blank(b1.tile_at(xn, yn)),
        !is_mine(b1.tile_at(xn, yn)),
        b2.szx == b1.szx,
        b2.szy == b1.szy,
        b2.mines_total == b1.mines_total,
        b2.mines_found == b1.mines_found,
        b2.tiles@ == b1.tiles@.update(
            flat_idx(b1.szy as int, xn, yn),
            revealed(b1.tile_at(xn, yn)),
        ),
        click_frame(b0, b1),
        no_mine_uncovered(b0, b1),
        region_sound(b0, b1, x, y),
        (xn == x && yn == y) || has_empty_source(b0, b1, xn, yn),
    ensures
        b2.wf(),
        click_frame(b0, b2),
        no_mine_uncovered(b0, b2),
        region_sound(b0, b2, x, y),
        forall|i: int, j: int|
            b1.in_bounds(i, j) && !(i == xn && j == yn) ==> #[trigger] b2.tile_at(i, j)
                == b1.tile_at(i, j),
        b2.tile_at(xn, yn) == revealed(b1.tile_at(xn, yn)),
        forall|i: int, j: int|
            b1.in_bounds(i, j) && #[trigger] newly_revealed(b0, b2, i, j) ==> newly_revealed(
                b0,
                b1,
                i,
                j,
            ) || (i == xn && j == yn),
        count_in(b2.tiles@, hidden_p()) == count_in(b1.tiles@, hidden_p()) - 1,
{
    let szx = b1.szx as int;
    let szy = b1.szy as int;
    let k = flat_idx(szy, xn, yn);
    let t = b1.tile_at(xn, yn);
    let nt = revealed(t);
    lemma_flat_idx_bounds(szx, szy, xn, yn);
    lemma_set_tile(b1.tiles@, szx, szy, xn, yn, nt);
    lemma_count_update(b1.tiles@, mine_p(), b1.tiles@.len() as int, k, nt);
    lemma_count_update(b1.tiles@, flag_p(), b1.tiles@.len() as int, k, nt);
    lemma_count_update(b1.tiles@, hidden_p(), b1.tiles@.len() as int, k, nt);
    assert forall|i: int, j: int|
        b1.in_bounds(i, j) && !(i == xn && j == yn) implies #[trigger] b2.tile_at(i, j)
        == b1.tile_at(i, j) by {
        lemma_flat_idx_bounds(szx, szy, i, j);
        if flat_idx(szy, i, j) == k {
            lemma_flat_idx_injective(szy, i, j, xn, yn);
        }
    }
    assert(b2.wf()) by {
        assert forall|a: int, b: int| in_grid(szx, szy, a, b) implies #[trigger] cell_ok(
            b2.tiles@,
            szx,
            szy,
            a,
            b,
        ) by {
            assert(cell_ok(b1.tiles@, szx, szy, a, b));
        }
    }
    assert forall|i: int, j: int|
        b1.in_bounds(i, j) && #[trigger] newly_revealed(b0, b2, i, j) implies newly_revealed(
        b0,
        b1,
        i,
        j,
    ) || (i == xn && j == yn) by {}
    assert(click_frame(b0, b2));
    assert forall|i: int, j: int|
        b0.in_bounds(i, j) && #[trigger] newly_revealed(b0, b2, i, j) implies !is_mine(
        b2.tile_at(i, j),
    ) by {
        if i == xn && j == yn {
        } else {
            assert(b2.tile_at(i, j) == b1.tile_at(i, j));
        }
    }
    assert forall|i: int, j: int|
        b0.in_bounds(i, j) && #[trigger] newly_revealed(b0, b2, i, j) && !(i == x && j
            == y) implies has_empty_source(b0, b2, i, j) by {
        if i == xn && j == yn {
            lemma_source_carries(b0, b1, b2, xn, yn, i, j);
        } else {
            assert(b2.tile_at(i, j) == b1.tile_at(i, j));
            assert(newly_revealed(b0, b1, i, j));
            lemma_source_carries(b0, b1, b2, xn, yn, i, j);
        }
    }
}

/// An Empty source seen before a cascade step is still one after it: the
/// step only reveals the blank tile at (xn, yn), and a source is already
/// revealed, so no source's tile moves.
proof fn lemma_source_carries(
    b0: Gameboard,
    b1: Gameboard,
    b2: Gameboard,
    xn: int,
    yn: int,
    i: int,
    j: int,
)
    requires
        b0.szx == b1.szx,
        b0.szy == b1.szy,
        b1.in_bounds(xn, yn),
        is_blank(b1.tile_at(xn, yn)),
        forall|a: int, c: int|
            b1.in_bounds(a, c) && !(a == xn && c == yn) ==> #[trigger] b2.tile_at(a, c)
                == b1.tile_at(a, c),
        has_empty_source(b0, b1, i, j),
    ensures
        has_empty_source(b0, b2, i, j),
{
    reveal(has_empty_source);
    let (a, c) = choose|a: int, c: int|
        b0.in_bounds(a, c) && is_nbr(a, c, i, j) && #[trigger] newly_revealed(b0, b1, a, c)
            && b1.tile_at(a, c).tile_type is Empty;
    assert(!(a == xn && c == yn));
    assert(b2.tile_at(a, c) == b1.tile_at(a, c));
    assert(b0.in_bounds(a, c) && is_nbr(a, c, i, j) && newly_revealed(b0, b2, a, c) && b2.tile_at(
        a,
        c,
    ).tile_type is Empty);
}

impl Gameboard {
    /// How many tiles are still hidden, flagged or not.
    pub fn count_hidden(&self) -> (c: usize)
        ensures
            c as int == self.hidden_count(),
    {
        let mut c: usize = 0;
        let mut i: usize = 0;
        let n = self.tiles.len();
        while i < n
            invariant
                n == self.tiles@.len(),
                i <= n,
                c as int == count_up_to(self.tiles@, hidden_p(), i as int),
                c <= i,
        decreases n - i,
        {
            let hidden = match self.tiles[i].tile_state {
                TileState::Clicked => false,
                TileState::Unclicked { .. } => true,
            };
            if hidden {
                c += 1;
            }
            i += 1;
        }
        c
    }

    /// Read-only view of one tile, for rendering and for drivers.
    pub fn tile(&self, x: usize, y: usize) -> (t: Tile)
        requires
            self.wf(),
            x < self.szx,
            y < self.szy,
        ensures
            t == self.tile_at(x as int, y as int),
    {
        proof {
            lemma_flat_idx_bounds(self.szx as int, self.szy as int, x as int, y as int);
        }
        self.tiles[x * self.szy + y]
    }

    /// One click at the in-bounds cell (x, y).
    ///
    /// A flagged or already revealed tile is a no-op returning Continued.
    /// A hidden mine is revealed alone and loses at once, before any win
    /// check. A hidden safe tile is revealed; if it is Empty the reveal
    /// cascades over the connected Empty region and its border, skipping
    /// flagged tiles and uncovering no mine; then the game is won exactly
    /// when only the mines are left hidden.
    #[verifier::rlimit(100)]
    pub fn click(&mut self, x: usize, y: usize) -> (r: ClickResult)
        requires
            old(self).wf(),
            x < old(self).szx,
            y < old(self).szy,
        ensures
            final(self).wf(),
            click_frame(*old(self), *final(self)),
            !is_blank(old(self).tile_at(x as int, y as int)) ==> boards_alike(
                *old(self),
                *final(self),
            ) && r is Continued,
            is_blank(old(self).tile_at(x as int, y as int)) ==> is_revealed(
                final(self).tile_at(x as int, y as int),
            ),
            is_blank(old(self).tile_at(x as int, y as int)) && is_mine(
                old(self).tile_at(x as int, y as int),
            ) ==> r is Lost && unchanged_but(*old(self), *final(self), x as int, y as int),
            is_blank(old(self).tile_at(x as int, y as int)) && !is_mine(
                old(self).tile_at(x as int, y as int),
            ) ==> !(r is Lost) && no_mine_uncovered(*old(self), *final(self)) && (r is Won
                <==> final(self).hidden_count() == final(self).mines_total as int) && (r
                is Continued <==> final(self).hidden_count() != final(self).mines_total as int),
            is_blank(old(self).tile_at(x as int, y as int)) && old(self).tile_at(
                x as int,
                y as int,
            ).tile_type is Neighboured ==> unchanged_but(*old(self), *final(self), x as int, y as int),
            is_blank(old(self).tile_at(x as int, y as int)) && old(self).tile_at(
                x as int,
                y as int,
            ).tile_type is Empty ==> region_saturated(*old(self), *final(self)) && region_sound(
                *old(self),
                *final(self),
                x as int,
                y as int,
            ),
            is_blank(old(self).tile_at(x as int, y as int)) ==> (forall|i: int, j: int|
                old(self).in_bounds(i, j) && #[trigger] newly_revealed(
                    *old(self),
                    *final(self),
                    i,
                    j,
                ) ==> cascade_reached(*old(self), x as int, y as int, i, j)),
    {
        let ghost b0 = *self;
        let szx = self.szx;
        let szy = self.szy;
        proof {
            lemma_flat_idx_bounds(szx as int, szy as int, x as int, y as int);
        }
        let k0 = x * szy + y;
        let t0 = self.tiles[k0];
        let blank = match t0.tile_state {
            TileState::Unclicked { flag } => !flag,
            TileState::Clicked => false,
        };
        if !blank {
            return ClickResult::Continued;
        }
        let nt = Tile { tile_type: t0.tile_type, tile_state: TileState::Clicked };
        let ghost b_pre = *self;
        self.tiles[k0] = nt;
        if let TileType::Mine = t0.tile_type {
            proof {
                lemma_set_tile(b_pre.tiles@, szx as int, szy as int, x as int, y as int, nt);
                lemma_count_update(b_pre.tiles@, mine_p(), b_pre.tiles@.len() as int, k0 as int, nt);
                lemma_count_update(b_pre.tiles@, flag_p(), b_pre.tiles@.len() as int, k0 as int, nt);
                assert forall|i: int, j: int|
                    b0.in_bounds(i, j) && !(i == x as int && j == y as int) implies #[trigger] self.tile_at(
                    i,
                    j,
                ) == b0.tile_at(i, j) by {
                    lemma_flat_idx_bounds(szx as int, szy as int, i, j);
                    if flat_idx(szy as int, i, j) == k0 as int {
                        lemma_flat_idx_injective(szy as int, i, j, x as int, y as int);
                    }
                }
                assert(self.wf()) by {
                    assert forall|a: int, b: int|
                        in_grid(szx as int, szy as int, a, b) implies #[trigger] cell_ok(
                        self.tiles@,
                        szx as int,
                        szy as int,
                        a,
                        b,
                    ) by {
                        assert(cell_ok(b_pre.tiles@, szx as int, szy as int, a, b));
                    }
                }
                lemma_reach_base(b0, x as int, y as int);
                assert forall|i: int, j: int|
                    b0.in_bounds(i, j) && #[trigger] newly_revealed(b0, *self, i, j) implies cascade_reached(
                    b0,
                    x as int,
                    y as int,
                    i,
                    j,
                ) by {
                    assert(i == x as int && j == y as int);
                }
            }
            return ClickResult::Lost;
        }
        proof {
            lemma_reveal_step(b0, b_pre, *self, x as int, y as int, x as int, y as int);
            lemma_reach_base(b0, x as int, y as int);
            assert forall|i: int, j: int|
                b0.in_bounds(i, j) && #[trigger] newly_revealed(b0, *self, i, j) implies cascade_reached(
                b0,
                x as int,
                y as int,
                i,
                j,
            ) by {
                assert(i == x as int && j == y as int);
            }
        }
        if let TileType::Empty = t0.tile_type {
            let mut stack = neighbours(x, y, szx, szy);
            proof {
                assert(newly_revealed(b0, *self, x as int, y as int));
                assert(self.tile_at(x as int, y as int).tile_type is Empty);
                lemma_new_entries_ok(b0, *self, x as int, y as int, stack@);
                assert forall|i: int, j: int|
                    b0.in_bounds(i, j) && #[trigger] newly_revealed(b0, *self, i, j)
                        && self.tile_at(i, j).tile_type is Empty implies nbrs_settled_q(
                    *self,
                    i,
                    j,
                    stack@,
                ) by {
                    assert(i == x as int && j == y as int);
                }
            }
            while stack.len() != 0
                invariant
                    self.szx == b0.szx,
                    self.szy == b0.szy,
                    szx == b0.szx,
                    szy == b0.szy,
                    x < szx,
                    y < szy,
                    self.wf(),
                    b0.wf(),
                    is_blank(b0.tile_at(x as int, y as int)),
                    b0.tile_at(x as int, y as int).tile_type is Empty,
                    click_frame(b0, *self),
                    is_revealed(self.tile_at(x as int, y as int)),
                    no_mine_uncovered(b0, *self),
                    region_sound(b0, *self, x as int, y as int),
                    forall|i: int, j: int|
                        b0.in_bounds(i, j) && #[trigger] newly_revealed(b0, *self, i, j)
                            ==> cascade_reached(b0, x as int, y as int, i, j),
                    forall|p: int, q: int| #[trigger]
                        coords_has(stack@, p, q) ==> entry_ok(b0, *self, p, q),
                    forall|i: int, j: int|
                        b0.in_bounds(i, j) && #[trigger] newly_revealed(b0, *self, i, j)
                            && self.tile_at(i, j).tile_type is Empty ==> nbrs_settled_q(
                            *self,
                            i,
                            j,
                            stack@,
                        ),
                decreases count_in(self.tiles@, hidden_p()), stack@.len(),
            {
                let ghost stack_pre = stack@;
                let ghost b_in = *self;
                let e = stack.pop().unwrap();
                let (xn, yn) = e;
                proof {
                    assert(stack_pre[stack_pre.len() - 1] == (xn, yn));
                    assert(coords_has(stack_pre, xn as int, yn as int));
                    lemma_coords_has_pop(stack_pre);
                    assert(entry_ok(b0, *self, xn as int, yn as int));
                    lemma_flat_idx_bounds(szx as int, szy as int, xn as int, yn as int);
                    lemma_count_bounds(self.tiles@, hidden_p(), self.tiles@.len() as int);
                }
                let kk = xn * szy + yn;
                let t = self.tiles[kk];
                let blank2 = match t.tile_state {
                    TileState::Unclicked { flag } => !flag,
                    TileState::Clicked => false,
                };
                if blank2 {
                    proof {
                        lemma_entry_not_mine(b0, *self, xn as int, yn as int);
                        assert(!is_mine(t));
                        lemma_count_one_set(
                            self.tiles@,
                            hidden_p(),
                            self.tiles@.len() as int,
                            flat_idx(szy as int, xn as int, yn as int),
                        );
                    }
                    let nt2 = Tile { tile_type: t.tile_type, tile_state: TileState::Clicked };
                    self.tiles[kk] = nt2;
                    proof {
                        lemma_reveal_step(
                            b0,
                            b_in,
                            *self,
                            x as int,
                            y as int,
                            xn as int,
                            yn as int,
                        );
                        lemma_reached_carries(
                            b0,
                            b_in,
                            *self,
                            x as int,
                            y as int,
                            xn as int,
                            yn as int,
                        );
                    }
                    let is_empty = if let TileType::Empty = t.tile_type {
                        true
                    } else {
                        false
                    };
                    if is_empty {
                        let mut ns = neighbours(xn, yn, szx, szy);
                        let ghost s1 = stack@;
                        let ghost ns_v = ns@;
                        stack.append(&mut ns);
                        proof {
                            lemma_coords_has_concat(s1, ns_v);
                            lemma_entries_carry(
                                b0,
                                b_in,
                                *self,
                                xn as int,
                                yn as int,
                                stack_pre,
                                s1,
                            );
                            lemma_new_entries_ok(b0, *self, xn as int, yn as int, ns_v);
                            assert forall|p: int, q: int| #[trigger]
                                coords_has(stack@, p, q) implies entry_ok(b0, *self, p, q) by {
                                assert(coords_has(s1, p, q) || coords_has(ns_v, p, q));
                            }
                            assert forall|a: int, c: int|
                                self.in_bounds(a, c) && is_nbr(
                                    xn as int,
                                    yn as int,
                                    a,
                                    c,
                                ) implies #[trigger] coords_has(stack@, a, c) by {
                                assert(coords_has(ns_v, a, c));
                            }
                            assert forall|i: int, j: int|
                                b0.in_bounds(i, j) && #[trigger] newly_revealed(b0, *self, i, j)
                                    && self.tile_at(i, j).tile_type is Empty implies nbrs_settled_q(
                                *self,
                                i,
                                j,
                                stack@,
                            ) by {
                                lemma_settled_step(
                                    b0,
                                    b_in,
                                    *self,
                                    xn as int,
                                    yn as int,
                                    i,
                                    j,
                                    stack_pre,
                                    stack@,
                                );
                            }
                        }
                    } else {
                        proof {
                            lemma_entries_carry(
                                b0,
                                b_in,
                                *self,
                                xn as int,
                                yn as int,
                                stack_pre,
                                stack@,
                            );
                            assert forall|i: int, j: int|
                                b0.in_bounds(i, j) && #[trigger] newly_revealed(b0, *self, i, j)
                                    && self.tile_at(i, j).tile_type is Empty implies nbrs_settled_q(
                                *self,
                                i,
                                j,
                                stack@,
                            ) by {
                                lemma_settled_step(
                                    b0,
                                    b_in,
                                    *self,
                                    xn as int,
                                    yn as int,
                                    i,
                                    j,
                                    stack_pre,
                                    stack@,
                                );
                            }
                        }
                    }
                } else {
                    proof {
                        assert forall|p: int, q: int| #[trigger]
                            coords_has(stack@, p, q) implies entry_ok(b0, *self, p, q) by {
                            assert(coords_has(stack_pre, p, q));
                        }
                        assert forall|i: int, j: int|
                            b0.in_bounds(i, j) && #[trigger] newly_revealed(b0, *self, i, j)
                                && self.tile_at(i, j).tile_type is Empty implies nbrs_settled_q(
                            *self,
                            i,
                            j,
                            stack@,
                        ) by {
                            assert(nbrs_settled_q(b_in, i, j, stack_pre));
                            assert forall|a: int, c: int|
                                self.in_bounds(a, c) && is_nbr(i, j, a, c) implies is_revealed(
                                #[trigger] self.tile_at(a, c),
                            ) || is_flagged(self.tile_at(a, c)) || coords_has(stack@, a, c) by {
                                if a == xn as int && c == yn as int {
                                } else {
                                    if coords_has(stack_pre, a, c) {
                                        assert(coords_has(stack@, a, c));
                                    }
                                }
                            }
                        }
                    }
                }
            }
            proof {
                assert forall|i: int, j: int|
                    b0.in_bounds(i, j) && #[trigger] newly_revealed(b0, *self, i, j)
                        && self.tile_at(i, j).tile_type is Empty implies nbrs_settled(
                    *self,
                    i,
                    j,
                ) by {
                    assert(nbrs_settled_q(*self, i, j, stack@));
                }
            }
        }
        let hidden = self.count_hidden();
        if hidden == self.mines_total {
            ClickResult::Won
        } else {
            ClickResult::Continued
        }
    }
}

/// A worklist entry borders a revealed Empty tile of the well-labelled
/// board `b`, so it is no mine.
proof fn lemma_entry_not_mine(b0: Gameboard, b: Gameboard, i: int, j: int)
    requires
        b0.szx == b.szx,
        b0.szy == b.szy,
        b.tiles@.len() == (b.szx as int) * (b.szy as int),
        grid_labelled(b.tiles@, b.szx as int, b.szy as int),
        entry_ok(b0, b, i, j),
    ensures
        !is_mine(b.tile_at(i, j)),
{
    reveal(has_empty_source);
    let (a, c) = choose|a: int, c: int|
        b0.in_bounds(a, c) && is_nbr(a, c, i, j) && #[trigger] newly_revealed(b0, b, a, c)
            && b.tile_at(a, c).tile_type is Empty;
    lemma_flat_idx_bounds(b.szx as int, b.szy as int, a, c);
    lemma_flat_idx_bounds(b.szx as int, b.szy as int, i, j);
    assert(cell_ok(b.tiles@, b.szx as int, b.szy as int, a, c));
    lemma_empty_nbr_not_mine(b.tiles@, b.szx as int, b.szy as int, a, c, i, j);
}

/// The neighbours of a freshly revealed Empty tile are fit worklist
/// entries: each borders that tile.
proof fn lemma_new_entries_ok(
    b0: Gameboard,
    b: Gameboard,
    xn: int,
    yn: int,
    ns: Seq<(usize, usize)>,
)
    requires
        b0.szx == b.szx,
        b0.szy == b.szy,
        b0.in_bounds(xn, yn),
        newly_revealed(b0, b, xn, yn),
        b.tile_at(xn, yn).tile_type is Empty,
        forall|p: int, q: int| #[trigger]
            coords_has(ns, p, q) ==> in_grid(b.szx as int, b.szy as int, p, q) && is_nbr(
                xn,
                yn,
                p,
                q,
            ),
    ensures
        forall|p: int, q: int| #[trigger] coords_has(ns, p, q) ==> entry_ok(b0, b, p, q),
{
    assert forall|p: int, q: int| #[trigger] coords_has(ns, p, q) implies entry_ok(
        b0,
        b,
        p,
        q,
    ) by {
        reveal(has_empty_source);
        assert(b0.in_bounds(xn, yn) && is_nbr(xn, yn, p, q) && newly_revealed(b0, b, xn, yn)
            && b.tile_at(xn, yn).tile_type is Empty);
    }
}

/// Worklist entries stay fit across one cascade step: the step reveals a
/// blank tile, and an entry's Empty source is already revealed.
proof fn lemma_entries_carry(
    b0: Gameboard,
    b1: Gameboard,
    b2: Gameboard,
    xn: int,
    yn: int,
    q1: Seq<(usize, usize)>,
    q2: Seq<(usize, usize)>,
)
    requires
        b0.szx == b1.szx,
        b0.szy == b1.szy,
        b1.szx == b2.szx,
        b1.szy == b2.szy,
        b1.in_bounds(xn, yn),
        is_blank(b1.tile_at(xn, yn)),
        forall|a: int, c: int|
            b1.in_bounds(a, c) && !(a == xn && c == yn) ==> #[trigger] b2.tile_at(a, c)
                == b1.tile_at(a, c),
        forall|p: int, q: int| #[trigger] coords_has(q1, p, q) ==> entry_ok(b0, b1, p, q),
        forall|p: int, q: int| #[trigger] coords_has(q2, p, q) ==> coords_has(q1, p, q),
    ensures
        forall|p: int, q: int| #[trigger] coords_has(q2, p, q) ==> entry_ok(b0, b2, p, q),
{
    assert forall|p: int, q: int| #[trigger] coords_has(q2, p, q) implies entry_ok(
        b0,
        b2,
        p,
        q,
    ) by {
        assert(entry_ok(b0, b1, p, q));
        lemma_source_carries(b0, b1, b2, xn, yn, p, q);
    }
}

/// The reached-set bookkeeping survives one cascade step: the freshly
/// revealed cell is reached through the Empty source it borders, and
/// every earlier reveal keeps its reach.
proof fn lemma_reached_carries(
    b0: Gameboard,
    b1: Gameboard,
    b2: Gameboard,
    x: int,
    y: int,
    xn: int,
    yn: int,
)
    requires
        b0.szx == b1.szx,
        b0.szy == b1.szy,
        b1.szx == b2.szx,
        b1.szy == b2.szy,
        b1.in_bounds(xn, yn),
        is_blank(b1.tile_at(xn, yn)),
        forall|a: int, c: int|
            b1.in_bounds(a, c) && !(a == xn && c == yn) ==> #[trigger] b2.tile_at(a, c)
                == b1.tile_at(a, c),
        click_frame(b0, b1),
        forall|i: int, j: int|
            b0.in_bounds(i, j) && #[trigger] newly_revealed(b0, b1, i, j) ==> cascade_reached(
                b0,
                x,
                y,
                i,
                j,
            ),
        (xn == x && yn == y) || has_empty_source(b0, b1, xn, yn),
    ensures
        forall|i: int, j: int|
            b0.in_bounds(i, j) && #[trigger] newly_revealed(b0, b2, i, j) ==> cascade_reached(
                b0,
                x,
                y,
                i,
                j,
            ),
{
    assert forall|i: int, j: int|
        b0.in_bounds(i, j) && #[trigger] newly_revealed(b0, b2, i, j) implies cascade_reached(
        b0,
        x,
        y,
        i,
        j,
    ) by {
        if i == xn && j == yn {
            if xn == x && yn == y {
                lemma_reach_base(b0, x, y);
            } else if newly_revealed(b0, b1, i, j) {
            } else {
                reveal(has_empty_source);
                let (a, c) = choose|a: int, c: int|
                    b0.in_bounds(a, c) && is_nbr(a, c, xn, yn) && #[trigger] newly_revealed(
                        b0,
                        b1,
                        a,
                        c,
                    ) && b1.tile_at(a, c).tile_type is Empty;
                assert(cascade_reached(b0, x, y, a, c));
                assert(tile_step(b0.tile_at(a, c), b1.tile_at(a, c)));
                assert(b0.tile_at(a, c).tile_type is Empty);
                assert(is_blank(b0.tile_at(a, c)));
                assert(tile_step(b0.tile_at(xn, yn), b1.tile_at(xn, yn)));
                assert(is_blank(b0.tile_at(xn, yn)));
                lemma_reach_step(b0, x, y, a, c, xn, yn);
            }
        } else {
            assert(b2.tile_at(i, j) == b1.tile_at(i, j));
            assert(newly_revealed(b0, b1, i, j));
        }
    }
}

/// One cascade step keeps every revealed Empty tile saturated up to the
/// worklist: the step pops (xn, yn) off the worklist and reveals it, and
/// pushes (xn, yn)'s own neighbours back on when it is Empty.
proof fn lemma_settled_step(
    b0: Gameboard,
    b1: Gameboard,
    b2: Gameboard,
    xn: int,
    yn: int,
    i: int,
    j: int,
    q_pre: Seq<(usize, usize)>,
    q_post: Seq<(usize, usize)>,
)
    requires
        b1.szx == b2.szx,
        b1.szy == b2.szy,
        b0.szx == b1.szx,
        b0.szy == b1.szy,
        b1.in_bounds(xn, yn),
        is_blank(b1.tile_at(xn, yn)),
        forall|a: int, c: int|
            b1.in_bounds(a, c) && !(a == xn && c == yn) ==> #[trigger] b2.tile_at(a, c)
                == b1.tile_at(a, c),
        b2.tile_at(xn, yn) == revealed(b1.tile_at(xn, yn)),
        q_pre.len() > 0,
        q_pre[q_pre.len() - 1] == ((xn as usize, yn as usize)),
        forall|a: int, c: int| #[trigger]
            coords_has(q_pre.subrange(0, q_pre.len() - 1), a, c) ==> coords_has(q_post, a, c),
        b2.tile_at(xn, yn).tile_type is Empty ==> (forall|a: int, c: int|
            b2.in_bounds(a, c) && is_nbr(xn, yn, a, c) ==> #[trigger] coords_has(q_post, a, c)),
        b0.in_bounds(i, j),
        newly_revealed(b0, b2, i, j),
        b2.tile_at(i, j).tile_type is Empty,
        (i == xn && j == yn) || nbrs_settled_q(b1, i, j, q_pre),
    ensures
        nbrs_settled_q(b2, i, j, q_post),
{
    lemma_coords_has_pop(q_pre);
    if i == xn && j == yn {
        assert forall|a: int, c: int|
            b2.in_bounds(a, c) && is_nbr(i, j, a, c) implies is_revealed(
            #[trigger] b2.tile_at(a, c),
        ) || is_flagged(b2.tile_at(a, c)) || coords_has(q_post, a, c) by {
            assert(coords_has(q_post, a, c));
        }
    } else {
        assert forall|a: int, c: int|
            b2.in_bounds(a, c) && is_nbr(i, j, a, c) implies is_revealed(
            #[trigger] b2.tile_at(a, c),
        ) || is_flagged(b2.tile_at(a, c)) || coords_has(q_post, a, c) by {
            if a == xn && c == yn {
            } else {
                assert(b2.tile_at(a, c) == b1.tile_at(a, c));
                if coords_has(q_pre, a, c) {
                    assert(coords_has(q_pre.subrange(0, q_pre.len() - 1), a, c));
                }
            }
        }
    }
}

/// What one flag toggle does to the tile it hits: a hidden tile flips its
/// flag, a revealed tile stays as it is.
pub open spec fn toggled(t: Tile) -> Tile {
    match t.tile_state {
        TileState::Unclicked { flag } => Tile {
            tile_type: t.tile_type,
            tile_state: TileState::Unclicked { flag: !flag },
        },
        TileState::Clicked => t,
    }
}

/// How the flagged-tiles counter moves under one toggle.
pub open spec fn toggle_delta(t: Tile) -> int {
    match t.tile_state {
        TileState::Unclicked { flag } => if flag {
            -1
        } else {
            1
        },
        TileState::Clicked => 0,
    }
}

/// The full effect of one flag toggle at (x, y): that tile is toggled,
/// every other tile is untouched, and `mines_found` moves with the flag.
pub open spec fn flag_toggle_rel(b0: Gameboard, b1: Gameboard, x: int, y: int) -> bool {
    &&& b1.szx == b0.szx
    &&& b1.szy == b0.szy
    &&& b1.mines_total == b0.mines_total
    &&& b1.tiles@.len() == b0.tiles@.len()
    &&& b1.tile_at(x, y) == toggled(b0.tile_at(x, y))
    &&& unchanged_but(b0, b1, x, y)
    &&& b1.mines_found as int == b0.mines_found as int + toggle_delta(b0.tile_at(x, y))
}

impl Gameboard {
    /// Toggles the flag on the in-bounds tile (x, y): an unflagged hidden
    /// tile becomes flagged and `mines_found` goes up by one, a flagged
    /// one becomes unflagged and `mines_found` goes down by one, and a
    /// revealed tile is left alone.
    pub fn flag_toggle(&mut self, x: usize, y: usize)
        requires
            old(self).wf(),
            x < old(self).szx,
            y < old(self).szy,
        ensures
            final(self).wf(),
            flag_toggle_rel(*old(self), *final(self), x as int, y as int),
    {
        let szx = self.szx;
        let szy = self.szy;
        proof {
            lemma_flat_idx_bounds(szx as int, szy as int, x as int, y as int);
        }
        let k = x * szy + y;
        let t = self.tiles[k];
        match t.tile_state {
            TileState::Unclicked { flag } => {
                let nt = Tile {
                    tile_type: t.tile_type,
                    tile_state: TileState::Unclicked { flag: !flag },
                };
                let ghost b_pre = *self;
                proof {
                    lemma_set_tile(self.tiles@, szx as int, szy as int, x as int, y as int, nt);
                    lemma_count_update(
                        self.tiles@,
                        mine_p(),
                        self.tiles@.len() as int,
                        k as int,
                        nt,
                    );
                    lemma_count_update(
                        self.tiles@,
                        flag_p(),
                        self.tiles@.len() as int,
                        k as int,
                        nt,
                    );
                    if flag {
                        lemma_count_one_set(
                            self.tiles@,
                            flag_p(),
                            self.tiles@.len() as int,
                            k as int,
                        );
                    } else {
                        lemma_count_one_clear(
                            self.tiles@,
                            flag_p(),
                            self.tiles@.len() as int,
                            k as int,
                        );
                    }
                }
                self.tiles[k] = nt;
                if flag {
                    self.mines_found -= 1;
                } else {
                    self.mines_found += 1;
                }
                proof {
                    assert forall|i: int, j: int|
                        b_pre.in_bounds(i, j) && !(i == x as int && j == y as int) implies #[trigger] self.tile_at(
                        i,
                        j,
                    ) == b_pre.tile_at(i, j) by {
                        lemma_flat_idx_bounds(szx as int, szy as int, i, j);
                        if flat_idx(szy as int, i, j) == k as int {
                            lemma_flat_idx_injective(szy as int, i, j, x as int, y as int);
                        }
                    }
                    assert(self.wf()) by {
                        assert forall|a: int, b: int|
                            in_grid(szx as int, szy as int, a, b) implies #[trigger] cell_ok(
                            self.tiles@,
                            szx as int,
                            szy as int,
                            a,
                            b,
                        ) by {
                            assert(cell_ok(b_pre.tiles@, szx as int, szy as int, a, b));
                        }
                    }
                }
            },
            TileState::Clicked => {},
        }
    }
}

/// Flag toggling is its own inverse: toggling the same tile twice returns
/// every tile, and the flagged-mines counter, to their original values;
/// and a toggle on a revealed tile never changes the counter at all.
pub proof fn lemma_flag_toggle_involutive(
    b0: Gameboard,
    b1: Gameboard,
    b2: Gameboard,
    x: int,
    y: int,
)
    requires
        b0.in_bounds(x, y),
        flag_toggle_rel(b0, b1, x, y),
        flag_toggle_rel(b1, b2, x, y),
    ensures
        b2.mines_found == b0.mines_found,
        forall|i: int, j: int|
            b0.in_bounds(i, j) ==> #[trigger] b2.tile_at(i, j) == b0.tile_at(i, j),
        is_revealed(b0.tile_at(x, y)) ==> b1.mines_found == b0.mines_found,
{
    assert(b1.tile_at(x, y) == toggled(b0.tile_at(x, y)));
    assert(toggled(toggled(b0.tile_at(x, y))) == b0.tile_at(x, y));
    assert forall|i: int, j: int| b0.in_bounds(i, j) implies #[trigger] b2.tile_at(i, j)
        == b0.tile_at(i, j) by {
        if !(i == x && j == y) {
            assert(b1.tile_at(i, j) == b0.tile_at(i, j));
            assert(b2.tile_at(i, j) == b1.tile_at(i, j));
        }
    }
}

/// The facts every construction path ends with: `placed` is the grid after
/// the mines went in (all tiles blank but the `m` mines), and the board
/// holds its relabelled form. Concludes well-formedness and that every
/// tile is hidden and unflagged.
proof fn lemma_fresh_board_wf(g: Gameboard, placed: Seq<Tile>, m: int)
    requires
        g.tiles@.len() == g.szx as int * g.szy as int,
        g.szx as int * g.szy as int <= usize::MAX as int,
        placed.len() == g.tiles@.len(),
        g.mines_total as int == m,
        g.mines_found == 0,
        count_in(placed, mine_p()) == m,
        forall|n: int|
            0 <= n < g.tiles@.len() ==> is_mine(#[trigger] g.tiles@[n]) == is_mine(placed[n])
                && g.tiles@[n].tile_state == placed[n].tile_state,
        forall|n: int|
            0 <= n < placed.len() ==> (#[trigger] placed[n]).tile_state == (TileState::Unclicked {
                flag: false,
            }),
        grid_labelled(g.tiles@, g.szx as int, g.szy as int),
    ensures
        g.wf(),
        forall|i: int, j: int|
            g.in_bounds(i, j) ==> !is_revealed(#[trigger] g.tile_at(i, j)) && !is_flagged(
                g.tile_at(i, j),
            ),
        g.hidden_count() == g.tiles@.len(),
{
    let len = g.tiles@.len() as int;
    lemma_count_agree(g.tiles@, placed, mine_p(), len);
    lemma_count_bounds(g.tiles@, mine_p(), len);
    lemma_count_zero(g.tiles@, flag_p(), len);
    assert forall|i: int| 0 <= i < len implies hidden_p()(#[trigger] g.tiles@[i]) by {
        assert(g.tiles@[i].tile_state == placed[i].tile_state);
    }
    assert(count_in(g.tiles@, hidden_p()) == len) by {
        lemma_count_full(g.tiles@, hidden_p(), len);
    }
    assert forall|i: int, j: int| g.in_bounds(i, j) implies !is_revealed(
        #[trigger] g.tile_at(i, j),
    ) && !is_flagged(g.tile_at(i, j)) by {
        lemma_flat_idx_bounds(g.szx as int, g.szy as int, i, j);
    }
}

} // verus!

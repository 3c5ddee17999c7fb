use vstd::prelude::*;

use crate::tile::{Tile, TileType, is_mine};

verus! {

/// Where cell (x, y) lives in a row-major flat sequence whose rows have
/// `szy` cells each.
pub open spec fn flat_idx(szy: int, x: int, y: int) -> int {
    x * szy + y
}

pub open spec fn in_grid(szx: int, szy: int, x: int, y: int) -> bool {
    0 <= x < szx && 0 <= y < szy
}

pub open spec fn b2i(b: bool) -> int {
    if b {
        1
    } else {
        0
    }
}

/// Whether (x, y) lies on the grid and holds a mine. Off-grid positions
/// hold none, so the eight-term neighbour sum below needs no clipping.
pub open spec fn mine_in(s: Seq<Tile>, szx: int, szy: int, x: int, y: int) -> bool {
    in_grid(szx, szy, x, y) && is_mine(s[flat_idx(szy, x, y)])
}

/// The number of mines among the up-to-eight grid neighbours of (x, y):
/// the offsets (±1, 0), (0, ±1) and (±1, ±1), clipped to the grid.
pub open spec fn nbr_mines(s: Seq<Tile>, szx: int, szy: int, x: int, y: int) -> int {
    b2i(mine_in(s, szx, szy, x - 1, y - 1)) + b2i(mine_in(s, szx, szy, x - 1, y)) + b2i(
        mine_in(s, szx, szy, x - 1, y + 1),
    ) + b2i(mine_in(s, szx, szy, x, y - 1)) + b2i(mine_in(s, szx, szy, x, y + 1)) + b2i(
        mine_in(s, szx, szy, x + 1, y - 1),
    ) + b2i(mine_in(s, szx, szy, x + 1, y)) + b2i(mine_in(s, szx, szy, x + 1, y + 1))
}

/// Two cells are neighbours when they differ by at most one in each
/// coordinate and are not the same cell.
pub open spec fn is_nbr(x: int, y: int, a: int, b: int) -> bool {
    &&& -1 <= a - x <= 1
    &&& -1 <= b - y <= 1
    &&& !(a == x && b == y)
}

/// The label of cell (x, y) agrees with the mines around it: an Empty tile
/// has no neighbouring mine, a Neighboured(n) tile has exactly n of them,
/// one at least; a Mine tile carries no constraint.
pub open spec fn cell_ok(s: Seq<Tile>, szx: int, szy: int, x: int, y: int) -> bool {
    &&& (s[flat_idx(szy, x, y)].tile_type is Empty ==> nbr_mines(s, szx, szy, x, y) == 0)
    &&& (s[flat_idx(szy, x, y)].tile_type matches TileType::Neighboured(n) ==> n as int
        == nbr_mines(s, szx, szy, x, y) && n >= 1)
}

/// Every cell of the grid is correctly labelled.
pub open spec fn grid_labelled(s: Seq<Tile>, szx: int, szy: int) -> bool {
    forall|x: int, y: int| in_grid(szx, szy, x, y) ==> #[trigger] cell_ok(s, szx, szy, x, y)
}

pub proof fn lemma_flat_idx_bounds(szx: int, szy: int, x: int, y: int)
    by (nonlinear_arith)
    requires
        0 <= x < szx,
        0 <= y < szy,
    ensures
        0 <= x * szy + y < szx * szy,
{
}

pub proof fn lemma_flat_idx_injective(szy: int, x1: int, y1: int, x2: int, y2: int)
    by (nonlinear_arith)
    requires
        0 <= y1 < szy,
        0 <= y2 < szy,
        x1 * szy + y1 == x2 * szy + y2,
    ensures
        x1 == x2,
        y1 == y2,
{
}

/// Changing the tile at (x, y) without changing whether it is a mine keeps
/// every cell's neighbour-mine count; every other cell keeps its label, and
/// (x, y) keeps its own if its kind is kept too.
pub proof fn lemma_set_tile(s: Seq<Tile>, szx: int, szy: int, x: int, y: int, t: Tile)
    requires
        s.len() == szx * szy,
        in_grid(szx, szy, x, y),
        is_mine(t) == is_mine(s[flat_idx(szy, x, y)]),
    ensures
        forall|a: int, b: int| #[trigger]
            mine_in(s.update(flat_idx(szy, x, y), t), szx, szy, a, b) == mine_in(
                s,
                szx,
                szy,
                a,
                b,
            ),
        forall|a: int, b: int|
            in_grid(szx, szy, a, b) ==> #[trigger] nbr_mines(
                s.update(flat_idx(szy, x, y), t),
                szx,
                szy,
                a,
                b,
            ) == nbr_mines(s, szx, szy, a, b),
        forall|a: int, b: int|
            in_grid(szx, szy, a, b) && !(a == x && b == y) && cell_ok(s, szx, szy, a, b)
                ==> #[trigger] cell_ok(s.update(flat_idx(szy, x, y), t), szx, szy, a, b),
        t.tile_type == s[flat_idx(szy, x, y)].tile_type && cell_ok(s, szx, szy, x, y) ==> cell_ok(
            s.update(flat_idx(szy, x, y), t),
            szx,
            szy,
            x,
            y,
        ),
{
    let k = flat_idx(szy, x, y);
    lemma_flat_idx_bounds(szx, szy, x, y);
    let u = s.update(k, t);
    assert forall|a: int, b: int| #[trigger]
        mine_in(u, szx, szy, a, b) == mine_in(s, szx, szy, a, b) by {
        if in_grid(szx, szy, a, b) {
            lemma_flat_idx_bounds(szx, szy, a, b);
            if flat_idx(szy, a, b) == k {
                assert(u[flat_idx(szy, a, b)] == t);
            } else {
                assert(u[flat_idx(szy, a, b)] == s[flat_idx(szy, a, b)]);
            }
        }
    }
    assert forall|a: int, b: int| in_grid(szx, szy, a, b) implies #[trigger] nbr_mines(
        u,
        szx,
        szy,
        a,
        b,
    ) == nbr_mines(s, szx, szy, a, b) by {
        assert(mine_in(u, szx, szy, a - 1, b - 1) == mine_in(s, szx, szy, a - 1, b - 1));
        assert(mine_in(u, szx, szy, a - 1, b) == mine_in(s, szx, szy, a - 1, b));
        assert(mine_in(u, szx, szy, a - 1, b + 1) == mine_in(s, szx, szy, a - 1, b + 1));
        assert(mine_in(u, szx, szy, a, b - 1) == mine_in(s, szx, szy, a, b - 1));
        assert(mine_in(u, szx, szy, a, b + 1) == mine_in(s, szx, szy, a, b + 1));
        assert(mine_in(u, szx, szy, a + 1, b - 1) == mine_in(s, szx, szy, a + 1, b - 1));
        assert(mine_in(u, szx, szy, a + 1, b) == mine_in(s, szx, szy, a + 1, b));
        assert(mine_in(u, szx, szy, a + 1, b + 1) == mine_in(s, szx, szy, a + 1, b + 1));
    }
    assert forall|a: int, b: int|
        in_grid(szx, szy, a, b) && !(a == x && b == y) && cell_ok(
            s,
            szx,
            szy,
            a,
            b,
        ) implies #[trigger] cell_ok(u, szx, szy, a, b) by {
        lemma_flat_idx_bounds(szx, szy, a, b);
        if flat_idx(szy, a, b) == k {
            lemma_flat_idx_injective(szy, a, b, x, y);
        }
        assert(u[flat_idx(szy, a, b)] == s[flat_idx(szy, a, b)]);
    }
}

/// A neighbour of a correctly labelled Empty cell is never a mine: the
/// Empty label means the whole eight-term neighbour sum is zero.
pub proof fn lemma_empty_nbr_not_mine(
    s: Seq<Tile>,
    szx: int,
    szy: int,
    x: int,
    y: int,
    a: int,
    b: int,
)
    requires
        in_grid(szx, szy, x, y),
        in_grid(szx, szy, a, b),
        is_nbr(x, y, a, b),
        cell_ok(s, szx, szy, x, y),
        s[flat_idx(szy, x, y)].tile_type is Empty,
    ensures
        !is_mine(s[flat_idx(szy, a, b)]),
{
    assert(nbr_mines(s, szx, szy, x, y) == 0);
    if a == x - 1 && b == y - 1 {
        assert(!mine_in(s, szx, szy, x - 1, y - 1));
    } else if a == x - 1 && b == y {
        assert(!mine_in(s, szx, szy, x - 1, y));
    } else if a == x - 1 && b == y + 1 {
        assert(!mine_in(s, szx, szy, x - 1, y + 1));
    } else if a == x && b == y - 1 {
        assert(!mine_in(s, szx, szy, x, y - 1));
    } else if a == x && b == y + 1 {
        assert(!mine_in(s, szx, szy, x, y + 1));
    } else if a == x + 1 && b == y - 1 {
        assert(!mine_in(s, szx, szy, x + 1, y - 1));
    } else if a == x + 1 && b == y {
        assert(!mine_in(s, szx, szy, x + 1, y));
    } else {
        assert(a == x + 1 && b == y + 1);
        assert(!mine_in(s, szx, szy, x + 1, y + 1));
    }
}

/// Membership of cell (a, b) in a list of coordinates.
pub open spec fn coords_has(s: Seq<(usize, usize)>, a: int, b: int) -> bool {
    exists|k: int| 0 <= k < s.len() && (#[trigger] s[k]).0 == a && s[k].1 == b
}

/// Concatenation holds a coordinate exactly when one of its sides does.
pub proof fn lemma_coords_has_concat(s1: Seq<(usize, usize)>, s2: Seq<(usize, usize)>)
    ensures
        forall|a: int, b: int| #[trigger] coords_has(s1, a, b) ==> coords_has(s1 + s2, a, b),
        forall|a: int, b: int| #[trigger] coords_has(s2, a, b) ==> coords_has(s1 + s2, a, b),
        forall|a: int, b: int| #[trigger]
            coords_has(s1 + s2, a, b) ==> coords_has(s1, a, b) || coords_has(s2, a, b),
{
    assert forall|a: int, b: int| #[trigger] coords_has(s1, a, b) implies coords_has(
        s1 + s2,
        a,
        b,
    ) by {
        let k = choose|k: int| 0 <= k < s1.len() && (#[trigger] s1[k]).0 == a && s1[k].1 == b;
        assert((s1 + s2)[k] == s1[k]);
    }
    assert forall|a: int, b: int| #[trigger] coords_has(s2, a, b) implies coords_has(
        s1 + s2,
        a,
        b,
    ) by {
        let k = choose|k: int| 0 <= k < s2.len() && (#[trigger] s2[k]).0 == a && s2[k].1 == b;
        assert((s1 + s2)[k + s1.len()] == s2[k]);
    }
    assert forall|a: int, b: int| #[trigger] coords_has(s1 + s2, a, b) implies coords_has(
        s1,
        a,
        b,
    ) || coords_has(s2, a, b) by {
        let k = choose|k: int|
            0 <= k < (s1 + s2).len() && (#[trigger] (s1 + s2)[k]).0 == a && (s1 + s2)[k].1 == b;
        if k < s1.len() {
            assert((s1 + s2)[k] == s1[k]);
        } else {
            assert((s1 + s2)[k] == s2[k - s1.len()]);
        }
    }
}

/// Dropping the last entry loses no coordinate other than that entry's,
/// and invents none.
pub proof fn lemma_coords_has_pop(s: Seq<(usize, usize)>)
    requires
        s.len() > 0,
    ensures
        forall|a: int, b: int|
            #[trigger] coords_has(s, a, b) && !(s[s.len() - 1].0 == a && s[s.len() - 1].1 == b)
                ==> coords_has(s.subrange(0, s.len() - 1), a, b),
        forall|a: int, b: int| #[trigger]
            coords_has(s.subrange(0, s.len() - 1), a, b) ==> coords_has(s, a, b),
{
    assert forall|a: int, b: int|
        #[trigger] coords_has(s, a, b) && !(s[s.len() - 1].0 == a && s[s.len() - 1].1
            == b) implies coords_has(s.subrange(0, s.len() - 1), a, b) by {
        let k = choose|k: int| 0 <= k < s.len() && (#[trigger] s[k]).0 == a && s[k].1 == b;
        assert(k < s.len() - 1);
        assert(s.subrange(0, s.len() - 1)[k] == s[k]);
    }
    assert forall|a: int, b: int| #[trigger]
        coords_has(s.subrange(0, s.len() - 1), a, b) implies coords_has(s, a, b) by {
        let t = s.subrange(0, s.len() - 1);
        let k = choose|k: int| 0 <= k < t.len() && (#[trigger] t[k]).0 == a && t[k].1 == b;
        assert(t[k] == s[k]);
    }
}

/// Appends one coordinate and accounts for the membership change.
fn push_coord(v: &mut Vec<(usize, usize)>, a: usize, b: usize)
    ensures
        final(v)@.len() == old(v)@.len() + 1,
        forall|p: int, q: int| #[trigger]
            coords_has(final(v)@, p, q) <==> coords_has(old(v)@, p, q) || (p == a as int && q
                == b as int),
{
    let ghost s0 = v@;
    v.push((a, b));
    proof {
        assert forall|p: int, q: int| #[trigger]
            coords_has(v@, p, q) <==> coords_has(s0, p, q) || (p == a as int && q
                == b as int) by {
            if coords_has(v@, p, q) {
                let k = choose|k: int|
                    0 <= k < v@.len() && (#[trigger] v@[k]).0 == p && v@[k].1 == q;
                if k < s0.len() {
                    assert(v@[k] == s0[k]);
                } else {
                    assert(v@[k] == (a, b));
                }
            }
            if coords_has(s0, p, q) {
                let k = choose|k: int|
                    0 <= k < s0.len() && (#[trigger] s0[k]).0 == p && s0[k].1 == q;
                assert(v@[k] == s0[k]);
            }
            if p == a as int && q == b as int {
                assert(v@[s0.len() as int] == (a, b));
            }
        }
    }
}

/// A tile holding a single bit of the mine test at an in-bounds cell.
fn mine_bit(tiles: &Vec<Tile>, szx: usize, szy: usize, a: usize, b: usize) -> (r: u32)
    requires
        tiles@.len() == szx as int * szy as int,
        szx as int * szy as int <= usize::MAX as int,
        a < szx,
        b < szy,
    ensures
        r as int == b2i(mine_in(tiles@, szx as int, szy as int, a as int, b as int)),
        r <= 1,
{
    proof {
        lemma_flat_idx_bounds(szx as int, szy as int, a as int, b as int);
    }
    if let TileType::Mine = tiles[a * szy + b].tile_type {
        1
    } else {
        0
    }
}

/// Counts the mines among the in-bounds neighbours of (x, y): the
/// executable twin of `nbr_mines`.
pub(crate) fn count_nbr_mines(tiles: &Vec<Tile>, szx: usize, szy: usize, x: usize, y: usize) -> (c:
    u32)
    requires
        tiles@.len() == szx as int * szy as int,
        szx as int * szy as int <= usize::MAX as int,
        x < szx,
        y < szy,
    ensures
        c as int == nbr_mines(tiles@, szx as int, szy as int, x as int, y as int),
        c <= 8,
{
    let m1: u32 = if x >= 1 && y >= 1 {
        mine_bit(tiles, szx, szy, x - 1, y - 1)
    } else {
        0
    };
    let m2: u32 = if x >= 1 {
        mine_bit(tiles, szx, szy, x - 1, y)
    } else {
        0
    };
    let m3: u32 = if x >= 1 && y + 1 < szy {
        mine_bit(tiles, szx, szy, x - 1, y + 1)
    } else {
        0
    };
    let m4: u32 = if y >= 1 {
        mine_bit(tiles, szx, szy, x, y - 1)
    } else {
        0
    };
    let m5: u32 = if y + 1 < szy {
        mine_bit(tiles, szx, szy, x, y + 1)
    } else {
        0
    };
    let m6: u32 = if x + 1 < szx && y >= 1 {
        mine_bit(tiles, szx, szy, x + 1, y - 1)
    } else {
        0
    };
    let m7: u32 = if x + 1 < szx {
        mine_bit(tiles, szx, szy, x + 1, y)
    } else {
        0
    };
    let m8: u32 = if x + 1 < szx && y + 1 < szy {
        mine_bit(tiles, szx, szy, x + 1, y + 1)
    } else {
        0
    };
    m1 + m2 + m3 + m4 + m5 + m6 + m7 + m8
}

/// The in-bounds neighbours of (x, y), each exactly once: the list holds
/// a coordinate if and only if it is an in-bounds neighbour.
pub(crate) fn neighbours(x: usize, y: usize, szx: usize, szy: usize) -> (v: Vec<(usize, usize)>)
    requires
        x < szx,
        y < szy,
    ensures
        forall|a: int, b: int| #[trigger]
            coords_has(v@, a, b) <==> in_grid(szx as int, szy as int, a, b) && is_nbr(
                x as int,
                y as int,
                a,
                b,
            ),
{
    let mut v: Vec<(usize, usize)> = Vec::new();
    if x >= 1 && y >= 1 {
        push_coord(&mut v, x - 1, y - 1);
    }
    if x >= 1 {
        push_coord(&mut v, x - 1, y);
    }
    if x >= 1 && y + 1 < szy {
        push_coord(&mut v, x - 1, y + 1);
    }
    if y >= 1 {
        push_coord(&mut v, x, y - 1);
    }
    if y + 1 < szy {
        push_coord(&mut v, x, y + 1);
    }
    if x + 1 < szx && y >= 1 {
        push_coord(&mut v, x + 1, y - 1);
    }
    if x + 1 < szx {
        push_coord(&mut v, x + 1, y);
    }
    if x + 1 < szx && y + 1 < szy {
        push_coord(&mut v, x + 1, y + 1);
    }
    v
}

} // verus!

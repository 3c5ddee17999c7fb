use vstd::prelude::*;

verus! {

/// What a tile is underneath, fixed when the board is built: a mine, a safe
/// tile with no adjacent mines, or a safe tile adjacent to `n` mines.
#[derive(Clone, Copy, Debug, PartialEq, Eq, Structural)]
pub enum TileType {
    Neighboured(u32),
    Empty,
    Mine,
}

/// What the player has done to a tile: still hidden (possibly flagged),
/// or revealed by a click.
#[derive(Clone, Copy, Debug, PartialEq, Eq, Structural)]
pub enum TileState {
    Unclicked { flag: bool },
    Clicked,
}

/// One cell of the grid. `tile_type` never changes after construction;
/// only `tile_state` moves, and only through clicks and flag toggles.
#[derive(Clone, Copy, Debug, PartialEq, Eq, Structural)]
pub struct Tile {
    pub tile_type: TileType,
    pub tile_state: TileState,
}

pub open spec fn is_mine(t: Tile) -> bool {
    t.tile_type is Mine
}

pub open spec fn is_revealed(t: Tile) -> bool {
    t.tile_state is Clicked
}

pub open spec fn is_flagged(t: Tile) -> bool {
    t.tile_state matches TileState::Unclicked { flag } && flag
}

/// Hidden and unflagged: the only state a click can reveal.
pub open spec fn is_blank(t: Tile) -> bool {
    t.tile_state == (TileState::Unclicked { flag: false })
}

/// The same tile after a reveal.
pub open spec fn revealed(t: Tile) -> Tile {
    Tile { tile_state: TileState::Clicked, ..t }
}

/// How a single tile may change under a click anywhere on the board:
/// its kind is kept, and its state either stays as it was or goes from
/// hidden-unflagged to revealed. Flagged tiles and revealed tiles never move.
pub open spec fn tile_step(t0: Tile, t1: Tile) -> bool {
    &&& t1.tile_type == t0.tile_type
    &&& (t1.tile_state == t0.tile_state || (is_blank(t0) && t1.tile_state is Clicked))
}

/// The one-character rendering of a tile in a text display: hidden tiles
/// show a placeholder or a flag, revealed tiles show what they hold.
pub open spec fn spec_tile_char(t: Tile) -> char {
    match t.tile_state {
        TileState::Unclicked { flag } => if flag {
            '!'
        } else {
            'O'
        },
        TileState::Clicked => match t.tile_type {
            TileType::Empty => '.',
            TileType::Neighboured(n) => (('0' as u8) + (n as u8)) as char,
            TileType::Mine => 'X',
        },
    }
}

/// The glyph a text display prints for `t`.
pub fn tile_char(t: Tile) -> (c: char)
    requires
        t.tile_type matches TileType::Neighboured(n) ==> 1 <= n <= 8,
    ensures
        c == spec_tile_char(t),
{
    match t.tile_state {
        TileState::Unclicked { flag } => if flag {
            '!'
        } else {
            'O'
        },
        TileState::Clicked => match t.tile_type {
            TileType::Empty => '.',
            TileType::Neighboured(n) => (('0' as u8) + (n as u8)) as char,
            TileType::Mine => 'X',
        },
    }
}

} // verus!

use minesweeper::gameboard::{ClickResult, Gameboard};
use minesweeper::tile::{TileState, TileType};

fn board_3x3_mine_at_origin() -> Gameboard {
    Gameboard::from_mines(3, 3, &vec![(0, 0)]).unwrap()
}

fn count_mines(g: &Gameboard) -> usize {
    let mut c = 0;
    for x in 0..g.szx {
        for y in 0..g.szy {
            if matches!(g.tile(x, y).tile_type, TileType::Mine) {
                c += 1;
            }
        }
    }
    c
}

fn manual_neighbour_mines(g: &Gameboard, x: usize, y: usize) -> u32 {
    let mut c = 0;
    for dx in -1i64..=1 {
        for dy in -1i64..=1 {
            if dx == 0 && dy == 0 {
                continue;
            }
            let nx = x as i64 + dx;
            let ny = y as i64 + dy;
            if 0 <= nx && nx < g.szx as i64 && 0 <= ny && ny < g.szy as i64 {
                if matches!(g.tile(nx as usize, ny as usize).tile_type, TileType::Mine) {
                    c += 1;
                }
            }
        }
    }
    c
}

#[test]
fn create_places_requested_mines() {
    let g = Gameboard::new(5, 5, 5).unwrap();
    assert_eq!(g.szx, 5);
    assert_eq!(g.szy, 5);
    assert_eq!(g.mines_total, 5);
    assert_eq!(g.mines_found, 0);
    assert_eq!(count_mines(&g), 5);
    for x in 0..5 {
        for y in 0..5 {
            assert_eq!(
                g.tile(x, y).tile_state,
                TileState::Unclicked { flag: false }
            );
        }
    }
}

#[test]
fn create_labels_every_safe_tile_truthfully() {
    let g = Gameboard::new(6, 4, 7).unwrap();
    for x in 0..6 {
        for y in 0..4 {
            let want = manual_neighbour_mines(&g, x, y);
            match g.tile(x, y).tile_type {
                TileType::Mine => {}
                TileType::Empty => assert_eq!(want, 0),
                TileType::Neighboured(n) => {
                    assert!(1 <= n && n <= 8);
                    assert_eq!(n, want);
                }
            }
        }
    }
}

#[test]
fn create_rejects_too_many_mines() {
    assert!(Gameboard::new(2, 2, 5).is_err());
    assert!(Gameboard::new(0, 3, 1).is_err());
}

#[test]
fn create_accepts_exact_fit() {
    let g = Gameboard::new(3, 3, 9).unwrap();
    assert_eq!(count_mines(&g), 9);
    let g0 = Gameboard::new(4, 4, 0).unwrap();
    assert_eq!(count_mines(&g0), 0);
}

#[test]
fn single_cell_board_gets_its_mine() {
    let g = Gameboard::new(1, 1, 1).unwrap();
    assert!(matches!(g.tile(0, 0).tile_type, TileType::Mine));
}

#[test]
fn from_mines_places_exactly_the_listed_cells() {
    let g = board_3x3_mine_at_origin();
    assert_eq!(g.mines_total, 1);
    for x in 0..3 {
        for y in 0..3 {
            let is_mine = matches!(g.tile(x, y).tile_type, TileType::Mine);
            assert_eq!(is_mine, x == 0 && y == 0);
        }
    }
    assert!(matches!(g.tile(1, 1).tile_type, TileType::Neighboured(1)));
    assert!(matches!(g.tile(0, 1).tile_type, TileType::Neighboured(1)));
    assert!(matches!(g.tile(1, 0).tile_type, TileType::Neighboured(1)));
    assert!(matches!(g.tile(2, 2).tile_type, TileType::Empty));
}

#[test]
fn from_mines_rejects_duplicates_and_out_of_range() {
    assert!(Gameboard::from_mines(3, 3, &vec![(1, 1), (1, 1)]).is_err());
    assert!(Gameboard::from_mines(3, 3, &vec![(3, 0)]).is_err());
    assert!(Gameboard::from_mines(3, 3, &vec![(0, 3)]).is_err());
}

#[test]
fn clicking_flagged_tile_is_noop() {
    let mut g = board_3x3_mine_at_origin();
    g.flag_toggle(0, 0);
    assert_eq!(g.mines_found, 1);
    let r = g.click(0, 0);
    assert!(matches!(r, ClickResult::Continued));
    assert_eq!(g.tile(0, 0).tile_state, TileState::Unclicked { flag: true });
    for x in 0..3 {
        for y in 0..3 {
            assert!(matches!(
                g.tile(x, y).tile_state,
                TileState::Unclicked { .. }
            ));
        }
    }
    assert_eq!(g.mines_found, 1);
}

#[test]
fn clicking_revealed_tile_is_noop() {
    let mut g = Gameboard::from_mines(2, 2, &vec![(0, 0)]).unwrap();
    let r1 = g.click(1, 1);
    assert!(matches!(r1, ClickResult::Continued));
    assert_eq!(g.tile(1, 1).tile_state, TileState::Clicked);
    let r2 = g.click(1, 1);
    assert!(matches!(r2, ClickResult::Continued));
    assert_eq!(g.tile(1, 1).tile_state, TileState::Clicked);
}

#[test]
fn clicking_mine_loses_and_reveals_only_that_tile() {
    let mut g = board_3x3_mine_at_origin();
    let r = g.click(0, 0);
    assert!(matches!(r, ClickResult::Lost));
    assert_eq!(g.tile(0, 0).tile_state, TileState::Clicked);
    for x in 0..3 {
        for y in 0..3 {
            if !(x == 0 && y == 0) {
                assert_eq!(
                    g.tile(x, y).tile_state,
                    TileState::Unclicked { flag: false }
                );
            }
        }
    }
}

#[test]
fn cascade_reveals_connected_region_and_border() {
    let mut g = board_3x3_mine_at_origin();
    let r = g.click(2, 2);
    // The whole safe region is connected through Empty tiles, so one click
    // reveals all eight safe tiles and wins at once; the mine stays hidden.
    assert!(matches!(r, ClickResult::Won));
    for x in 0..3 {
        for y in 0..3 {
            if x == 0 && y == 0 {
                assert_eq!(
                    g.tile(x, y).tile_state,
                    TileState::Unclicked { flag: false }
                );
            } else {
                assert_eq!(g.tile(x, y).tile_state, TileState::Clicked);
            }
        }
    }
}

#[test]
fn cascade_skips_flagged_tiles() {
    let mut g = Gameboard::from_mines(4, 4, &vec![(0, 0)]).unwrap();
    g.flag_toggle(2, 2);
    let r = g.click(3, 3);
    assert!(matches!(r, ClickResult::Continued));
    assert_eq!(g.tile(2, 2).tile_state, TileState::Unclicked { flag: true });
    // Everything else but the mine and the flagged tile is revealed.
    for x in 0..4 {
        for y in 0..4 {
            if (x == 0 && y == 0) || (x == 2 && y == 2) {
                continue;
            }
            assert_eq!(g.tile(x, y).tile_state, TileState::Clicked);
        }
    }
    // Unflagging and clicking the held-back tile finishes the game.
    g.flag_toggle(2, 2);
    let r2 = g.click(2, 2);
    assert!(matches!(r2, ClickResult::Won));
}

#[test]
fn cascade_never_reveals_a_mine() {
    let mut g = Gameboard::from_mines(5, 5, &vec![(0, 0), (4, 4)]).unwrap();
    let r = g.click(4, 0);
    assert!(!matches!(r, ClickResult::Lost));
    assert!(matches!(
        g.tile(0, 0).tile_state,
        TileState::Unclicked { .. }
    ));
    assert!(matches!(
        g.tile(4, 4).tile_state,
        TileState::Unclicked { .. }
    ));
}

#[test]
fn flag_toggle_twice_restores_everything() {
    let mut g = board_3x3_mine_at_origin();
    assert_eq!(g.mines_found, 0);
    g.flag_toggle(1, 2);
    assert_eq!(g.mines_found, 1);
    assert_eq!(g.tile(1, 2).tile_state, TileState::Unclicked { flag: true });
    g.flag_toggle(1, 2);
    assert_eq!(g.mines_found, 0);
    assert_eq!(
        g.tile(1, 2).tile_state,
        TileState::Unclicked { flag: false }
    );
}

#[test]
fn flag_toggle_on_revealed_tile_changes_nothing() {
    let mut g = board_3x3_mine_at_origin();
    g.click(1, 1);
    assert_eq!(g.tile(1, 1).tile_state, TileState::Clicked);
    g.flag_toggle(1, 1);
    assert_eq!(g.mines_found, 0);
    assert_eq!(g.tile(1, 1).tile_state, TileState::Clicked);
}

#[test]
fn win_on_two_by_one_board() {
    let mut g = Gameboard::from_mines(2, 1, &vec![(0, 0)]).unwrap();
    assert!(matches!(g.tile(1, 0).tile_type, TileType::Neighboured(1)));
    let r = g.click(1, 0);
    assert!(matches!(r, ClickResult::Won));
    assert_eq!(g.count_hidden(), 1);
}

#[test]
fn forced_board_full_scenario() {
    // Click far from the lone mine: reveals and cascades.
    let mut g = board_3x3_mine_at_origin();
    let r = g.click(2, 2);
    assert_eq!(g.tile(2, 2).tile_state, TileState::Clicked);
    assert!(matches!(r, ClickResult::Won));
    // A fresh board: clicking the mine loses.
    let mut g2 = board_3x3_mine_at_origin();
    assert!(matches!(g2.click(0, 0), ClickResult::Lost));
    // A fresh board again: a flag shields the mine from the click.
    let mut g3 = board_3x3_mine_at_origin();
    g3.flag_toggle(0, 0);
    let r3 = g3.click(0, 0);
    assert!(matches!(r3, ClickResult::Continued));
    assert_eq!(g3.tile(0, 0).tile_state, TileState::Unclicked { flag: true });
    for x in 0..3 {
        for y in 0..3 {
            if !(x == 0 && y == 0) {
                assert_eq!(
                    g3.tile(x, y).tile_state,
                    TileState::Unclicked { flag: false }
                );
            }
        }
    }
}

#[test]
fn hidden_count_tracks_reveals() {
    let mut g = Gameboard::from_mines(3, 3, &vec![(0, 0), (2, 2)]).unwrap();
    assert_eq!(g.count_hidden(), 9);
    g.click(2, 0);
    assert!(g.count_hidden() < 9);
}

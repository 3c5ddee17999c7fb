use minesweeper::tile::{tile_char, Tile, TileState, TileType};

fn tile(kind: TileType, state: TileState) -> Tile {
    Tile { tile_type: kind, tile_state: state }
}

#[test]
fn hidden_tiles_print_placeholder_or_flag() {
    let hidden = TileState::Unclicked { flag: false };
    let flagged = TileState::Unclicked { flag: true };
    assert_eq!(tile_char(tile(TileType::Empty, hidden)), 'O');
    assert_eq!(tile_char(tile(TileType::Mine, hidden)), 'O');
    assert_eq!(tile_char(tile(TileType::Neighboured(4), flagged)), '!');
    assert_eq!(tile_char(tile(TileType::Mine, flagged)), '!');
}

#[test]
fn revealed_tiles_print_their_contents() {
    let shown = TileState::Clicked;
    assert_eq!(tile_char(tile(TileType::Empty, shown)), '.');
    assert_eq!(tile_char(tile(TileType::Mine, shown)), 'X');
    assert_eq!(tile_char(tile(TileType::Neighboured(1), shown)), '1');
    assert_eq!(tile_char(tile(TileType::Neighboured(3), shown)), '3');
    assert_eq!(tile_char(tile(TileType::Neighboured(8), shown)), '8');
}

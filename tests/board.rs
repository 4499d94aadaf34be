use rust_2048::{Board, Direction, Settings, Tile, TileState};

fn settings() -> Settings {
    Settings {
        tile_width: 4,
        tile_height: 4,
        tile_size: 72,
        tile_padding: 16,
        board_padding: 12,
        board_offset_y: 128,
        tile_move_time: 100_000,
        tile_new_time: 100_000,
        tile_combine_time: 100_000,
    }
}

fn board_with(tiles: &[(u64, i32, i32)]) -> Board {
    let s = settings();
    let mut board = Board::empty(&s);
    for &(v, x, y) in tiles {
        assert!(board.place_tile(v, x, y));
    }
    board
}

fn settle_fully(board: &mut Board) {
    for _ in 0..4 {
        board.update(1_000_000);
    }
}

fn static_tiles_apart(board: &Board) -> bool {
    let tiles = board.tiles();
    for i in 0..tiles.len() {
        for j in i + 1..tiles.len() {
            let both_static = tiles[i].status == TileState::TileStatic && tiles[j].status == TileState::TileStatic;
            if both_static && tiles[i].tile_x == tiles[j].tile_x && tiles[i].tile_y == tiles[j].tile_y {
                return false;
            }
        }
    }
    true
}

fn value_sum(board: &Board) -> u64 {
    board.tiles().iter().map(|t| t.score).sum()
}

#[test]
fn two_tiles_merge_to_the_left() {
    let mut board = board_with(&[(2, 0, 0), (2, 3, 0)]);
    board.request_move(Direction::Left);
    assert!(!board.is_settled());
    settle_fully(&mut board);
    assert!(board.is_settled());
    let t = board.tile_at(0, 0).unwrap();
    assert_eq!(t.score, 4);
    assert_eq!(board.score(), 4);
    // the merged tile and the spawned one
    assert_eq!(board.tiles().len(), 2);
    let fours_at_origin = board.tiles().iter().filter(|t| t.tile_x == 0 && t.tile_y == 0).count();
    assert_eq!(fours_at_origin, 1);
}

#[test]
fn four_equal_tiles_merge_pairwise() {
    let mut board = board_with(&[(2, 0, 0), (2, 1, 0), (2, 2, 0), (2, 3, 0)]);
    board.request_move(Direction::Left);
    settle_fully(&mut board);
    assert_eq!(board.tile_at(0, 0).unwrap().score, 4);
    assert_eq!(board.tile_at(1, 0).unwrap().score, 4);
    assert_eq!(board.score(), 8);
    assert_eq!(board.tiles().len(), 3);
    assert!(board.tiles().iter().all(|t| t.score != 8));
}

#[test]
fn three_equal_tiles_merge_nearest_the_edge() {
    let mut board = board_with(&[(2, 1, 0), (2, 2, 0), (2, 3, 0)]);
    board.request_move(Direction::Right);
    settle_fully(&mut board);
    assert_eq!(board.tile_at(3, 0).unwrap().score, 4);
    assert_eq!(board.tile_at(2, 0).unwrap().score, 2);
    assert_eq!(board.score(), 4);
}

#[test]
fn merged_tile_does_not_merge_again_in_the_same_move() {
    let mut board = board_with(&[(4, 0, 0), (2, 0, 1), (2, 0, 2)]);
    board.request_move(Direction::Up);
    settle_fully(&mut board);
    assert_eq!(board.tile_at(0, 0).unwrap().score, 4);
    assert_eq!(board.tile_at(0, 1).unwrap().score, 4);
    assert_eq!(board.score(), 4);
}

#[test]
fn tiles_slide_down_without_merging() {
    let mut board = board_with(&[(2, 1, 0), (4, 1, 1)]);
    board.request_move(Direction::Down);
    settle_fully(&mut board);
    assert_eq!(board.tile_at(1, 3).unwrap().score, 4);
    assert_eq!(board.tile_at(1, 2).unwrap().score, 2);
    assert_eq!(board.score(), 0);
    assert_eq!(board.tiles().len(), 3);
}

#[test]
fn blocked_board_ignores_every_direction() {
    let mut tiles = Vec::new();
    for y in 0..4 {
        for x in 0..4 {
            let v = if (x + y) % 2 == 0 { 2 } else { 4 };
            tiles.push((v, x, y));
        }
    }
    let mut board = board_with(&tiles);
    let before = board.tiles().clone();
    for d in [Direction::Left, Direction::Right, Direction::Up, Direction::Down] {
        board.request_move(d);
        assert_eq!(board.tiles(), &before);
        assert_eq!(board.score(), 0);
        assert!(board.is_settled());
    }
}

#[test]
fn blocked_line_ignores_its_own_direction() {
    let mut board = board_with(&[(2, 0, 0), (4, 1, 0)]);
    let before = board.tiles().clone();
    board.request_move(Direction::Left);
    assert_eq!(board.tiles(), &before);
    assert!(board.is_settled());
}

#[test]
fn move_while_animating_is_ignored() {
    let mut board = board_with(&[(2, 0, 0), (2, 3, 0), (4, 2, 2)]);
    board.request_move(Direction::Left);
    assert!(!board.is_settled());
    let tiles = board.tiles().clone();
    let score = board.score();
    board.request_move(Direction::Right);
    assert_eq!(board.tiles(), &tiles);
    assert_eq!(board.score(), score);
    board.merge_from_top_to_bottom();
    assert_eq!(board.tiles(), &tiles);
}

#[test]
fn advance_by_zero_changes_nothing() {
    let mut board = board_with(&[(2, 0, 0), (2, 3, 0), (8, 1, 3)]);
    board.request_move(Direction::Left);
    let tiles = board.tiles().clone();
    board.update(0);
    assert_eq!(board.tiles(), &tiles);
    board.update(40_000);
    let tiles = board.tiles().clone();
    let score = board.score();
    board.update(0);
    assert_eq!(board.tiles(), &tiles);
    assert_eq!(board.score(), score);
}

#[test]
fn advance_by_zero_on_settled_board_changes_nothing() {
    let mut board = board_with(&[(2, 0, 0), (4, 1, 1)]);
    let tiles = board.tiles().clone();
    board.update(0);
    assert_eq!(board.tiles(), &tiles);
    assert_eq!(board.score(), 0);
}

#[test]
fn merge_waits_for_the_moving_tile() {
    let mut board = board_with(&[(2, 0, 0), (2, 3, 0)]);
    board.request_move(Direction::Left);
    board.update(60_000);
    assert_eq!(board.score(), 0);
    board.update(40_000);
    assert_eq!(board.score(), 4);
    let combined = board.tile_at(0, 0).unwrap();
    assert_eq!(combined.score, 4);
    assert_eq!(combined.status, TileState::TileCombine(100_000, 86));
}

#[test]
fn settlement_keeps_total_value_and_scores_the_merge() {
    let mut board = board_with(&[(2, 0, 0), (2, 3, 0), (8, 0, 3), (8, 3, 3)]);
    board.request_move(Direction::Left);
    let before = value_sum(&board);
    board.update(1_000_000);
    assert_eq!(value_sum(&board), before);
    assert_eq!(board.score(), 4 + 16);
    assert_eq!(board.tile_at(0, 3).unwrap().score, 16);
}

#[test]
fn move_adds_only_the_spawned_value() {
    let mut board = board_with(&[(2, 0, 0), (2, 3, 0)]);
    let before = value_sum(&board);
    board.request_move(Direction::Left);
    let added = value_sum(&board) - before;
    assert!(added == 2 || added == 4);
    assert_eq!(board.tiles().len(), 3);
    assert_eq!(board.score(), 0);
}

#[test]
fn random_play_keeps_resting_tiles_apart() {
    let s = settings();
    let mut board = Board::new(&s);
    let dirs = [Direction::Left, Direction::Up, Direction::Right, Direction::Down];
    let mut last_score = 0;
    for step in 0..400 {
        board.request_move(dirs[step % 4]);
        assert!(static_tiles_apart(&board));
        board.update(16_667);
        assert!(static_tiles_apart(&board));
        assert!(board.score() >= last_score);
        last_score = board.score();
        for t in board.tiles() {
            assert!(t.score >= 2 && t.score.is_power_of_two());
        }
    }
}

#[test]
fn new_board_holds_two_spawned_tiles() {
    let s = settings();
    let board = Board::new(&s);
    let tiles = board.tiles();
    assert_eq!(tiles.len(), 2);
    assert!(tiles[0].tile_x != tiles[1].tile_x || tiles[0].tile_y != tiles[1].tile_y);
    for t in tiles {
        assert!(t.score == 2 || t.score == 4);
        assert_eq!(t.status, TileState::TileNew(100_000, 0));
    }
    assert_eq!(board.score(), 0);
}

#[test]
fn one_cell_board_spawns_once() {
    let mut s = settings();
    s.tile_width = 1;
    s.tile_height = 1;
    let mut board = Board::new(&s);
    assert_eq!(board.tiles().len(), 1);
    board.generate_tile();
    assert_eq!(board.tiles().len(), 1);
}

#[test]
fn spawn_picks_the_drawn_empty_cell() {
    let s = settings();
    let mut board = Board::empty(&s);
    board.spawn_tile(5, 10);
    assert_eq!(board.tiles()[0], Tile { score: 4, tile_x: 1, tile_y: 1, status: TileState::TileNew(100_000, 0) });
    // cell (1, 1) is now taken: the fifth empty cell is (2, 1)
    board.spawn_tile(5, 3);
    assert_eq!(board.tiles()[1].score, 2);
    assert_eq!((board.tiles()[1].tile_x, board.tiles()[1].tile_y), (2, 1));
    // draws wrap around the fourteen empty cells
    board.spawn_tile(14, 7);
    assert_eq!((board.tiles()[2].tile_x, board.tiles()[2].tile_y), (0, 0));
}

#[test]
fn spawn_on_full_board_does_nothing() {
    let mut tiles = Vec::new();
    for y in 0..4 {
        for x in 0..4 {
            tiles.push((2, x, y));
        }
    }
    let mut board = board_with(&tiles);
    board.spawn_tile(0, 0);
    assert_eq!(board.tiles().len(), 16);
}

#[test]
fn place_tile_refuses_an_occupied_cell() {
    let mut board = board_with(&[(2, 1, 2)]);
    assert!(!board.place_tile(4, 1, 2));
    assert_eq!(board.tiles().len(), 1);
    assert!(board.tile_at(2, 1).is_none());
}

#[test]
fn directional_methods_push_toward_their_edge() {
    let mut board = board_with(&[(2, 1, 1)]);
    board.merge_from_right_to_left();
    settle_fully(&mut board);
    assert_eq!(board.tile_at(0, 1).unwrap().score, 2);
    let mut board = board_with(&[(2, 1, 1)]);
    board.merge_from_left_to_right();
    settle_fully(&mut board);
    assert_eq!(board.tile_at(3, 1).unwrap().score, 2);
    let mut board = board_with(&[(2, 1, 1)]);
    board.merge_from_bottom_to_top();
    settle_fully(&mut board);
    assert_eq!(board.tile_at(1, 0).unwrap().score, 2);
    let mut board = board_with(&[(2, 1, 1)]);
    board.merge_from_top_to_bottom();
    settle_fully(&mut board);
    assert_eq!(board.tile_at(1, 3).unwrap().score, 2);
}

#[test]
fn wide_board_merges_a_long_row() {
    let mut s = settings();
    s.tile_width = 6;
    s.tile_height = 1;
    let mut board = Board::empty(&s);
    for (x, v) in [(0, 4), (1, 4), (3, 8), (5, 8)] {
        assert!(board.place_tile(v, x, 0));
    }
    board.request_move(Direction::Left);
    settle_fully(&mut board);
    assert_eq!(board.tile_at(0, 0).unwrap().score, 8);
    assert_eq!(board.tile_at(1, 0).unwrap().score, 16);
    assert_eq!(board.score(), 24);
}

#[test]
fn reset_starts_over() {
    let mut board = board_with(&[(2, 0, 0), (2, 3, 0)]);
    board.request_move(Direction::Left);
    settle_fully(&mut board);
    assert_eq!(board.score(), 4);
    board.reset();
    assert_eq!(board.score(), 0);
    assert_eq!(board.tiles().len(), 2);
    assert!(!board.is_settled());
}

#[test]
fn largest_board_is_valid_and_spawns_two_tiles() {
    let mut s = settings();
    s.tile_width = 1000;
    s.tile_height = 1000;
    assert!(s.is_valid());
    let board = Board::new(&s);
    assert_eq!(board.tiles().len(), 2);
    s.tile_width = 1001;
    assert!(!s.is_valid());
}

#[test]
fn values_at_the_merge_limit_still_merge() {
    let limit: u64 = 1 << 61;
    let mut board = board_with(&[(limit, 0, 0), (limit, 1, 0)]);
    board.request_move(Direction::Left);
    settle_fully(&mut board);
    assert_eq!(board.tile_at(0, 0).unwrap().score, 1 << 62);
    assert_eq!(board.score(), 1 << 62);
}

#[test]
fn values_above_the_merge_limit_do_not_merge() {
    let top: u64 = 1 << 62;
    let mut board = board_with(&[(top, 0, 0), (top, 1, 0)]);
    let before = board.tiles().clone();
    board.request_move(Direction::Left);
    assert_eq!(board.tiles(), &before);
    assert!(board.is_settled());
}

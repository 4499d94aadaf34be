use rust_2048::{number_to_digits, Settings, Tile, TileState};

fn settings() -> Settings {
    Settings {
        tile_width: 4,
        tile_height: 4,
        tile_size: 72,
        tile_padding: 16,
        board_padding: 12,
        board_offset_y: 128,
        tile_move_time: 100_000,
        tile_new_time: 100_000,
        tile_combine_time: 100_000,
    }
}

#[test]
fn new_tile_grows_from_nothing() {
    let s = settings();
    let mut t = Tile::new(&s, 2, 1, 2);
    assert_eq!(t.status, TileState::TileNew(100_000, 0));
    t.update(&s, 25_000);
    assert_eq!(t.status, TileState::TileNew(75_000, 18));
    t.update(&s, 75_000);
    assert_eq!(t.status, TileState::TileStatic);
}

#[test]
fn combined_tile_shrinks_back() {
    let s = settings();
    let mut t = Tile::new_combined(&s, 8, 0, 0);
    assert_eq!(t.status, TileState::TileCombine(100_000, 86));
    t.update(&s, 50_000);
    assert_eq!(t.status, TileState::TileCombine(50_000, 79));
}

#[test]
fn cell_positions() {
    let s = settings();
    assert_eq!(Tile::tile_to_pos(&s, 0, 0), (28, 156));
    assert_eq!(Tile::tile_to_pos(&s, 3, 1), (292, 244));
}

#[test]
fn moving_tile_interpolates_each_tick() {
    let s = settings();
    let mut t = Tile { score: 2, tile_x: 0, tile_y: 0, status: TileState::TileStatic };
    t.start_moving(&s, 3, 0);
    assert_eq!((t.tile_x, t.tile_y), (3, 0));
    assert_eq!(t.status, TileState::TileMoving(100_000, 28, 156, 0, 0));
    t.update(&s, 50_000);
    assert_eq!(t.status, TileState::TileMoving(50_000, 160, 156, 0, 0));
    t.update(&s, 25_000);
    assert_eq!(t.status, TileState::TileMoving(25_000, 226, 156, 0, 0));
    t.update(&s, 1_000_000);
    assert_eq!(t.status, TileState::TileStatic);
}

#[test]
fn moving_left_interpolates_downward() {
    let s = settings();
    let mut t = Tile { score: 2, tile_x: 3, tile_y: 0, status: TileState::TileStatic };
    t.start_moving(&s, 0, 0);
    t.update(&s, 50_000);
    assert_eq!(t.status, TileState::TileMoving(50_000, 160, 156, 3, 0));
}

#[test]
fn chained_move_restarts_from_first_origin() {
    let s = settings();
    let mut t = Tile { score: 2, tile_x: 0, tile_y: 0, status: TileState::TileStatic };
    t.start_moving(&s, 2, 0);
    t.update(&s, 50_000);
    t.start_moving(&s, 3, 0);
    assert_eq!((t.tile_x, t.tile_y), (3, 0));
    assert_eq!(t.status, TileState::TileMoving(100_000, 28, 156, 0, 0));
}

#[test]
fn spawning_tile_ignores_a_move() {
    let s = settings();
    let mut t = Tile::new(&s, 2, 1, 1);
    t.start_moving(&s, 0, 1);
    assert_eq!(t, Tile::new(&s, 2, 1, 1));
}

#[test]
fn zero_tick_keeps_every_animation() {
    let s = settings();
    let mut t = Tile { score: 2, tile_x: 0, tile_y: 0, status: TileState::TileStatic };
    t.start_moving(&s, 3, 0);
    let before = t;
    t.update(&s, 0);
    assert_eq!(t, before);
    let mut n = Tile::new(&s, 2, 0, 0);
    n.update(&s, 0);
    assert_eq!(n, Tile::new(&s, 2, 0, 0));
}

#[test]
fn exact_remaining_time_ends_the_animation() {
    let s = settings();
    let mut t = Tile::new(&s, 4, 0, 0);
    t.update(&s, 100_000);
    assert_eq!(t.status, TileState::TileStatic);
}

#[test]
fn settings_validity() {
    let mut s = settings();
    assert!(s.is_valid());
    s.tile_move_time = 0;
    assert!(!s.is_valid());
    let mut s = settings();
    s.tile_width = 0;
    assert!(!s.is_valid());
    let mut s = settings();
    s.tile_size = 100_001;
    assert!(!s.is_valid());
}

#[test]
fn digits_of_numbers() {
    assert_eq!(number_to_digits(0), vec![0]);
    assert_eq!(number_to_digits(7), vec![7]);
    assert_eq!(number_to_digits(2048), vec![2, 0, 4, 8]);
    assert_eq!(number_to_digits(100), vec![1, 0, 0]);
    assert_eq!(number_to_digits(u32::MAX), vec![4, 2, 9, 4, 9, 6, 7, 2, 9, 5]);
}

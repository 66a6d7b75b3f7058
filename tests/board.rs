use puzzle2048::board::Board;
use puzzle2048::model::Direction;
use puzzle2048::settings::Settings;
use puzzle2048::tile::{Tile, TileState};

/// Puts a new tile of value 2 or 4 at (`x`, `y`), an empty cell.
fn place(b: &mut Board, x: i32, y: i32, v: u64) {
    let s = b.settings();
    let mut idx: u32 = 0;
    for yy in 0..s.tile_height {
        for xx in 0..s.tile_width {
            if (yy, xx) < (y, x) && b.get_tile(xx, yy).is_none() {
                idx += 1;
            }
        }
    }
    let value_draw = if v == 4 { 0 } else { 1 };
    assert!(b.spawn_from_draws(idx, value_draw));
    assert_eq!(b.get_tile(x, y).unwrap().score, v);
}

/// Lets every animation finish.
fn settle(b: &mut Board) {
    b.update(1000);
    assert!(!b.is_locking());
}

fn board_of(cells: &[(i32, i32, u64)]) -> Board {
    let mut b = Board::empty(&Settings::default_settings());
    for &(x, y, v) in cells {
        place(&mut b, x, y, v);
    }
    settle(&mut b);
    b
}

fn value(b: &Board, x: i32, y: i32) -> Option<u64> {
    b.get_tile(x, y).map(|t| t.score)
}

fn row(b: &Board, y: i32) -> Vec<Option<u64>> {
    (0..4).map(|x| value(b, x, y)).collect()
}

fn column(b: &Board, x: i32) -> Vec<Option<u64>> {
    (0..4).map(|y| value(b, x, y)).collect()
}

#[test]
fn two_twos_merge_on_move_left() {
    let mut b = board_of(&[(0, 0, 2), (1, 0, 2)]);
    assert_eq!(b.score(), 0);
    b.merge_from_right_to_left();
    let merged = b.get_tile(0, 0).unwrap();
    assert_eq!(merged.score, 4);
    assert_eq!(merged.status, TileState::TileNew(100, 0));
    assert_eq!(b.score(), 4);
    let tiles = b.tiles();
    assert_eq!(tiles.len(), 2);
    let fresh: Vec<&Tile> = tiles.iter().filter(|t| (t.tile_x, t.tile_y) != (0, 0)).collect();
    assert_eq!(fresh.len(), 1);
    assert!(fresh[0].score == 2 || fresh[0].score == 4);
    assert_eq!(fresh[0].status, TileState::TileNew(100, 0));
}

#[test]
fn two_twos_merge_with_given_draws() {
    let mut b = board_of(&[(0, 0, 2), (1, 0, 2)]);
    b.play(Direction::Left, 0, 1);
    assert_eq!(row(&b, 0), vec![Some(4), Some(2), None, None]);
    assert_eq!(b.score(), 4);
    assert_eq!(b.tiles().len(), 2);
}

#[test]
fn merged_tile_does_not_merge_again() {
    let mut b = board_of(&[(0, 0, 2), (1, 0, 2), (2, 0, 4)]);
    assert!(b.slide(Direction::Left));
    assert_eq!(row(&b, 0), vec![Some(4), Some(4), None, None]);
    assert_eq!(b.score(), 4);

    let mut c = board_of(&[(0, 0, 2), (1, 0, 2), (2, 0, 4)]);
    c.merge_from_right_to_left();
    assert_eq!(value(&c, 0, 0), Some(4));
    assert_eq!(value(&c, 1, 0), Some(4));
    assert_eq!(c.score(), 4);
    assert_eq!(c.tiles().len(), 3);
}

fn checkerboard() -> Board {
    let mut cells = Vec::new();
    for y in 0..4 {
        for x in 0..4 {
            cells.push((x, y, if (x + y) % 2 == 0 { 2 } else { 4 }));
        }
    }
    board_of(&cells)
}

#[test]
fn full_board_without_pairs_takes_no_move() {
    let b = checkerboard();
    assert!(!b.has_any_legal_move());
    for dir in [Direction::Left, Direction::Right, Direction::Up, Direction::Down] {
        let mut c = checkerboard();
        c.merge_row(dir);
        assert_eq!(c.tiles(), b.tiles());
        assert_eq!(c.score(), 0);
        let mut d = checkerboard();
        assert!(!d.slide(dir));
        assert_eq!(d.tiles(), b.tiles());
    }
}

#[test]
fn spawn_adds_exactly_one_tile_in_a_free_cell() {
    let mut b = Board::empty(&Settings::default_settings());
    for n in 0..16usize {
        assert_eq!(b.tiles().len(), n);
        assert!(b.generate_tile());
        let tiles = b.tiles();
        assert_eq!(tiles.len(), n + 1);
        for i in 0..tiles.len() {
            for j in i + 1..tiles.len() {
                assert_ne!((tiles[i].tile_x, tiles[i].tile_y), (tiles[j].tile_x, tiles[j].tile_y));
            }
        }
    }
    assert!(!b.generate_tile());
    assert_eq!(b.tiles().len(), 16);
    assert!(!b.spawn_from_draws(3, 3));
}

#[test]
fn spawn_follows_the_draws() {
    let mut b = Board::empty(&Settings::default_settings());
    assert!(b.spawn_from_draws(5, 7));
    assert_eq!(
        b.get_tile(1, 1),
        Some(Tile { tile_x: 1, tile_y: 1, score: 2, status: TileState::TileNew(100, 0) })
    );
    assert!(b.spawn_from_draws(21, 30));
    // 15 cells are free: draw 21 picks the seventh of them, (1,1) being taken.
    assert_eq!(value(&b, 3, 1), Some(4));
}

#[test]
fn merged_value_is_the_sum_of_a_pair() {
    let mut b = board_of(&[(0, 0, 4), (1, 0, 4)]);
    assert!(b.slide(Direction::Left));
    settle(&mut b);
    let m = b.get_tile(0, 0).unwrap();
    assert_eq!(m.score, 8);
    assert!(m.score.is_power_of_two());
    place(&mut b, 3, 0, 4);
    place(&mut b, 2, 0, 4);
    settle(&mut b);
    assert!(b.slide(Direction::Left));
    assert_eq!(row(&b, 0), vec![Some(8), Some(8), None, None]);
    assert_eq!(b.score(), 8 + 8);
    settle(&mut b);
    assert!(b.slide(Direction::Left));
    assert_eq!(row(&b, 0), vec![Some(16), None, None, None]);
    assert_eq!(b.score(), 8 + 8 + 16);
}

#[test]
fn score_never_falls_over_a_game() {
    let mut b = Board::new(&Settings::default_settings());
    let dirs = [Direction::Left, Direction::Down, Direction::Right, Direction::Up];
    let mut last = b.score();
    for i in 0..200u32 {
        b.play(dirs[(i % 4) as usize], i * 7, i);
        assert!(b.score() >= last);
        last = b.score();
        b.update(50);
        assert_eq!(b.score(), last);
        b.update(50);
    }
}

#[test]
fn locked_board_ignores_moves() {
    let mut b = Board::empty(&Settings::default_settings());
    place(&mut b, 0, 0, 2);
    place(&mut b, 3, 0, 2);
    assert!(b.is_locking());
    let before = b.tiles();
    assert!(!b.slide(Direction::Left));
    b.merge_from_right_to_left();
    b.merge_from_bottom_to_top();
    assert_eq!(b.tiles(), before);
    assert_eq!(b.score(), 0);
}

#[test]
fn still_move_spawns_nothing() {
    let mut b = board_of(&[(0, 0, 2), (1, 0, 4), (0, 1, 4)]);
    let before = b.tiles();
    b.merge_from_right_to_left();
    assert_eq!(b.tiles(), before);
    assert_eq!(b.score(), 0);
    b.merge_from_bottom_to_top();
    assert_eq!(b.tiles(), before);
    assert!(b.has_any_legal_move());
}

#[test]
fn four_equal_tiles_make_two_pairs() {
    let mut b = board_of(&[(0, 2, 2), (1, 2, 2), (2, 2, 2), (3, 2, 2)]);
    assert!(b.slide(Direction::Right));
    assert_eq!(row(&b, 2), vec![None, None, Some(4), Some(4)]);
    assert_eq!(b.score(), 8);
}

#[test]
fn three_equal_tiles_merge_nearest_the_wall() {
    let mut b = board_of(&[(3, 0, 2), (3, 1, 2), (3, 2, 2)]);
    assert!(b.slide(Direction::Down));
    assert_eq!(column(&b, 3), vec![None, None, Some(2), Some(4)]);
    let mut c = board_of(&[(3, 0, 2), (3, 1, 2), (3, 2, 2)]);
    assert!(c.slide(Direction::Up));
    assert_eq!(column(&c, 3), vec![Some(4), Some(2), None, None]);
    assert_eq!(c.score(), 4);
}

#[test]
fn sliding_tiles_remember_their_origin() {
    let mut b = board_of(&[(1, 0, 2), (3, 0, 4)]);
    assert!(b.slide(Direction::Left));
    assert_eq!(
        b.get_tile(0, 0),
        Some(Tile { tile_x: 0, tile_y: 0, score: 2, status: TileState::TileMoving(100, 1, 0, 0, 0) })
    );
    assert_eq!(
        b.get_tile(1, 0),
        Some(Tile { tile_x: 1, tile_y: 0, score: 4, status: TileState::TileMoving(100, 3, 0, 1, 0) })
    );
    assert!(b.is_locking());
    b.update(99);
    assert!(b.is_locking());
    b.update(1);
    assert!(!b.is_locking());
    assert_eq!(b.get_tile(1, 0).unwrap().status, TileState::TileStatic);
}

#[test]
fn tile_at_the_wall_stays_at_rest() {
    let mut b = board_of(&[(0, 3, 2), (2, 3, 4)]);
    assert!(b.slide(Direction::Left));
    assert_eq!(b.get_tile(0, 3).unwrap().status, TileState::TileStatic);
    assert_eq!(b.get_tile(1, 3).unwrap().status, TileState::TileMoving(100, 2, 3, 1, 3));
}

#[test]
fn new_game_has_two_tiles() {
    let b = Board::new(&Settings::default_settings());
    let tiles = b.tiles();
    assert_eq!(tiles.len(), 2);
    assert_eq!(b.score(), 0);
    for t in tiles {
        assert!(t.score == 2 || t.score == 4);
        assert_eq!(t.status, TileState::TileNew(100, 0));
    }
}

#[test]
fn one_cell_board_holds_one_tile() {
    let s = Settings { tile_width: 1, tile_height: 1, tile_size: 72, tile_move_time: 100, tile_new_time: 100 };
    let b = Board::new(&s);
    assert_eq!(b.tiles().len(), 1);
    assert!(!b.has_any_legal_move());
}

#[test]
fn cells_outside_the_grid_are_empty() {
    let b = board_of(&[(0, 0, 2)]);
    assert_eq!(b.get_tile(-1, 0), None);
    assert_eq!(b.get_tile(0, 4), None);
    assert_eq!(b.get_tile(4, 0), None);
    assert_eq!(value(&b, 0, 0), Some(2));
}

#[test]
fn rectangular_board_moves_along_its_lines() {
    let s = Settings { tile_width: 5, tile_height: 2, tile_size: 72, tile_move_time: 100, tile_new_time: 100 };
    let mut b = Board::empty(&s);
    place(&mut b, 0, 1, 2);
    place(&mut b, 4, 1, 2);
    settle(&mut b);
    assert!(b.slide(Direction::Right));
    assert_eq!(value(&b, 4, 1), Some(4));
    assert_eq!(b.tiles().len(), 1);
    settle(&mut b);
    assert!(b.slide(Direction::Up));
    assert_eq!(value(&b, 4, 0), Some(4));
}

#[test]
fn restart_gives_a_fresh_board() {
    let mut b = board_of(&[(0, 0, 2), (1, 0, 2)]);
    b.merge_from_left_to_right();
    assert_eq!(b.score(), 4);
    b = Board::new(&b.settings());
    assert_eq!(b.score(), 0);
    assert_eq!(b.tiles().len(), 2);
}

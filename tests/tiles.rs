use puzzle2048::digits::number_to_digits;
use puzzle2048::line::{slide_values, Slide};
use puzzle2048::settings::Settings;
use puzzle2048::tile::{Tile, TileState};

#[test]
fn new_tile_starts_to_appear() {
    let s = Settings::default_settings();
    let t = Tile::new(&s, 4, 2, 3);
    assert_eq!(t, Tile { tile_x: 2, tile_y: 3, score: 4, status: TileState::TileNew(100, 0) });
}

#[test]
fn default_settings_are_the_classic_game() {
    let s = Settings::default_settings();
    assert_eq!((s.tile_width, s.tile_height), (4, 4));
    assert_eq!(s.tile_size, 72);
    assert_eq!((s.tile_move_time, s.tile_new_time), (100, 100));
}

#[test]
fn appearing_tile_grows_toward_full_size() {
    let s = Settings::default_settings();
    let mut t = Tile::new(&s, 2, 0, 0);
    t.update(&s, 25);
    assert_eq!(t.status, TileState::TileNew(75, 18));
    t.update(&s, 25);
    assert_eq!(t.status, TileState::TileNew(50, 36));
    t.update(&s, 0);
    assert_eq!(t.status, TileState::TileNew(50, 36));
    t.update(&s, 50);
    assert_eq!(t.status, TileState::TileStatic);
    t.update(&s, 10);
    assert_eq!(t.status, TileState::TileStatic);
}

#[test]
fn start_moving_only_from_rest() {
    let s = Settings::default_settings();
    let mut t = Tile { tile_x: 3, tile_y: 1, score: 8, status: TileState::TileStatic };
    t.start_moving(&s, 0, 1);
    assert_eq!(t, Tile { tile_x: 0, tile_y: 1, score: 8, status: TileState::TileMoving(100, 3, 1, 0, 1) });
    t.start_moving(&s, 2, 2);
    assert_eq!(t, Tile { tile_x: 0, tile_y: 1, score: 8, status: TileState::TileMoving(100, 3, 1, 0, 1) });
    t.update(&s, 40);
    assert_eq!(t.status, TileState::TileMoving(60, 3, 1, 0, 1));
    t.update(&s, 60);
    assert!(t.is_static());
    let mut n = Tile::new(&s, 2, 1, 1);
    n.start_moving(&s, 0, 0);
    assert_eq!(n, Tile::new(&s, 2, 1, 1));
}

#[test]
fn line_slides_and_merges_toward_the_wall() {
    let (s, g) = slide_values(&vec![None, Some(2), Some(2), Some(4)]);
    assert_eq!(s, vec![Slide::Merged(1, 2, 4), Slide::Kept(3, 4)]);
    assert_eq!(g, 4);
    let (s, g) = slide_values(&vec![Some(8), Some(8), Some(8), Some(8)]);
    assert_eq!(s, vec![Slide::Merged(0, 1, 16), Slide::Merged(2, 3, 16)]);
    assert_eq!(g, 32);
    let (s, g) = slide_values(&vec![Some(2), None, Some(4), Some(2)]);
    assert_eq!(s, vec![Slide::Kept(0, 2), Slide::Kept(2, 4), Slide::Kept(3, 2)]);
    assert_eq!(g, 0);
}

#[test]
fn empty_line_has_no_slides() {
    let (s, g) = slide_values(&vec![None, None, None]);
    assert!(s.is_empty());
    assert_eq!(g, 0);
    let (s, g) = slide_values(&vec![]);
    assert!(s.is_empty());
    assert_eq!(g, 0);
}

#[test]
fn largest_values_do_not_merge() {
    let big = 1u64 << 63;
    let (s, g) = slide_values(&vec![Some(big), Some(big)]);
    assert_eq!(s, vec![Slide::Kept(0, big), Slide::Kept(1, big)]);
    assert_eq!(g, 0);
    let half = 1u64 << 62;
    let (s, g) = slide_values(&vec![None, Some(half), Some(half)]);
    assert_eq!(s, vec![Slide::Merged(1, 2, big)]);
    assert_eq!(g, big);
}

#[test]
fn numbers_split_into_decimal_digits() {
    assert_eq!(number_to_digits(0), vec![0]);
    assert_eq!(number_to_digits(7), vec![7]);
    assert_eq!(number_to_digits(16), vec![1, 6]);
    assert_eq!(number_to_digits(2048), vec![2, 0, 4, 8]);
    assert_eq!(number_to_digits(100), vec![1, 0, 0]);
    assert_eq!(number_to_digits(u32::MAX), vec![4, 2, 9, 4, 9, 6, 7, 2, 9, 5]);
}

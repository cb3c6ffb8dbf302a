use raytracer::tiling::{split, Tile};

#[test]
fn ten_positions_for_three_workers() {
    let tiles = split(10, 3);
    assert_eq!(
        tiles,
        vec![Tile { start: 0, end: 4 }, Tile { start: 4, end: 7 }, Tile { start: 7, end: 10 }]
    );
}

#[test]
fn an_even_split_gives_equal_tiles() {
    let tiles = split(90000, 100);
    assert_eq!(tiles.len(), 100);
    for (t, tile) in tiles.iter().enumerate() {
        assert_eq!(tile.start, 900 * t as u64);
        assert_eq!(tile.end, 900 * (t as u64 + 1));
        assert_eq!(tile.len(), 900);
    }
}

#[test]
fn more_workers_than_positions_leaves_empty_tiles() {
    let tiles = split(2, 4);
    assert_eq!(
        tiles,
        vec![
            Tile { start: 0, end: 1 },
            Tile { start: 1, end: 2 },
            Tile { start: 2, end: 2 },
            Tile { start: 2, end: 2 }
        ]
    );
}

#[test]
fn no_worker_means_a_single_tile() {
    assert_eq!(split(12, 0), vec![Tile { start: 0, end: 12 }]);
    assert_eq!(split(12, 1), vec![Tile { start: 0, end: 12 }]);
}

#[test]
fn nothing_to_split_gives_empty_tiles() {
    assert_eq!(split(0, 2), vec![Tile { start: 0, end: 0 }, Tile { start: 0, end: 0 }]);
}

#[test]
fn the_largest_total_is_split_without_overflow() {
    let tiles = split(u64::MAX, 2);
    assert_eq!(
        tiles,
        vec![
            Tile { start: 0, end: 9223372036854775808 },
            Tile { start: 9223372036854775808, end: u64::MAX }
        ]
    );
}

#[test]
fn tiles_follow_one_another_and_cover_everything() {
    for total in [0u64, 1, 5, 17, 100, 1001] {
        for workers in [0usize, 1, 2, 3, 7, 16, 200] {
            let tiles = split(total, workers);
            assert_eq!(tiles.len(), if workers == 0 { 1 } else { workers });
            assert_eq!(tiles[0].start, 0);
            assert_eq!(tiles[tiles.len() - 1].end, total);
            for t in 1..tiles.len() {
                assert_eq!(tiles[t - 1].end, tiles[t].start);
            }
            for k in 0..total {
                assert_eq!(tiles.iter().filter(|tile| tile.holds(k)).count(), 1);
            }
        }
    }
}

#[test]
fn tile_sizes_differ_by_at_most_one() {
    for total in [0u64, 1, 5, 17, 100, 1001] {
        for workers in [1usize, 2, 3, 7, 16, 200] {
            let tiles = split(total, workers);
            let base = total / workers as u64;
            let extra = total % workers as u64;
            for (t, tile) in tiles.iter().enumerate() {
                let expected = if (t as u64) < extra { base + 1 } else { base };
                assert_eq!(tile.len(), expected);
            }
        }
    }
}

#[test]
fn a_tile_holds_its_start_but_not_its_end() {
    let tile = Tile { start: 4, end: 7 };
    assert!(!tile.holds(3));
    assert!(tile.holds(4));
    assert!(tile.holds(6));
    assert!(!tile.holds(7));
    assert_eq!(tile.len(), 3);
}

#[test]
fn an_inverted_tile_is_empty() {
    let tile = Tile { start: 7, end: 4 };
    assert_eq!(tile.len(), 0);
    assert!(!tile.holds(5));
}

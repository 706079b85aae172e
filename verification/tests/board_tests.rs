use catan_core::board::CatanBoard;
use catan_core::board::Resource;
use catan_core::board::remove_one;
use catan_core::board::create_adjacency_map;

/// The fixed number pool, sorted.
fn expected_numbers() -> Vec<u8> {
    vec![2, 3, 3, 4, 4, 5, 5, 6, 6, 8, 8, 9, 9, 10, 10, 11, 11, 12]
}

fn count_resource(board: &CatanBoard, r: Resource) -> usize {
    board.tiles.iter().filter(|t| t.resource == r).count()
}

/// Panics unless the board satisfies every rule of a fully generated board.
fn assert_board_valid(board: &CatanBoard) {
    assert_eq!(board.tiles.len(), 19);
    // Exactly one desert, and the desert has no number; every other tile has one.
    assert_eq!(count_resource(board, Resource::Desert), 1);
    for tile in &board.tiles {
        if tile.resource == Resource::Desert {
            assert_eq!(tile.number, None);
        } else {
            assert!(tile.number.is_some());
        }
    }
    // The multiset of assigned numbers is exactly the fixed pool.
    let mut numbers: Vec<u8> = board.tiles.iter().filter_map(|t| t.number).collect();
    numbers.sort();
    assert_eq!(numbers, expected_numbers());
    // No adjacency rule is violated.
    for (i, tile) in board.tiles.iter().enumerate() {
        for &j in &tile.adjacent_indices {
            if let (Some(a), Some(b)) = (tile.number, board.tiles[j].number) {
                assert_ne!(a, b, "tiles {} and {} share number {}", i, j, a);
                assert!(
                    !((a == 6 || a == 8) && (b == 6 || b == 8)),
                    "tiles {} and {} hold a 6/8 pair",
                    i,
                    j
                );
                assert!(
                    !((a == 2 || a == 12) && (b == 2 || b == 12)),
                    "tiles {} and {} hold a 2/12 pair",
                    i,
                    j
                );
            }
        }
    }
}

#[test]
fn new_board_shape() {
    let board = CatanBoard::new();
    let map = create_adjacency_map();
    assert_eq!(board.tiles.len(), 19);
    for (i, tile) in board.tiles.iter().enumerate() {
        assert_eq!(tile.number, None);
        assert_eq!(tile.resource, Resource::Desert);
        assert_eq!(tile.adjacent_indices, map[i]);
    }
}

#[test]
fn adjacency_map_layout() {
    let map = create_adjacency_map();
    assert_eq!(map.len(), 19);
    assert_eq!(map[0], vec![1, 3, 4]);
    assert_eq!(map[9], vec![4, 5, 8, 10, 13, 14]);
    assert_eq!(map[18], vec![14, 15, 17]);
}

#[test]
fn adjacency_map_symmetric() {
    let map = create_adjacency_map();
    assert_eq!(map.len(), 19);
    for (i, neighbors) in map.iter().enumerate() {
        assert!(3 <= neighbors.len() && neighbors.len() <= 6);
        for &j in neighbors {
            assert!(j < 19);
            assert_ne!(j, i);
            assert!(map[j].contains(&i), "edge {} -> {} has no reverse", i, j);
        }
    }
}

#[test]
fn resource_distribution_multiset() {
    // Whatever the search outcome, the resources always form the fixed pool.
    for _ in 0..5 {
        let mut board = CatanBoard::new();
        let _ = board.generate_valid_board();
        assert_eq!(count_resource(&board, Resource::Wood), 4);
        assert_eq!(count_resource(&board, Resource::Brick), 3);
        assert_eq!(count_resource(&board, Resource::Sheep), 4);
        assert_eq!(count_resource(&board, Resource::Wheat), 4);
        assert_eq!(count_resource(&board, Resource::Ore), 3);
        assert_eq!(count_resource(&board, Resource::Desert), 1);
    }
}

#[test]
fn distribute_resources_yields_fixed_multiset() {
    // The distribution step alone: whatever permutation the shuffle picks,
    // the 19 tiles end up holding exactly the fixed resource pool, and no
    // number or neighbor list is touched.
    for _ in 0..10 {
        let mut board = CatanBoard::new();
        let map = create_adjacency_map();
        board.distribute_resources();
        assert_eq!(count_resource(&board, Resource::Wood), 4);
        assert_eq!(count_resource(&board, Resource::Brick), 3);
        assert_eq!(count_resource(&board, Resource::Sheep), 4);
        assert_eq!(count_resource(&board, Resource::Wheat), 4);
        assert_eq!(count_resource(&board, Resource::Ore), 3);
        assert_eq!(count_resource(&board, Resource::Desert), 1);
        for (i, tile) in board.tiles.iter().enumerate() {
            assert_eq!(tile.number, None);
            assert_eq!(tile.adjacent_indices, map[i]);
        }
    }
}

#[test]
fn remove_one_first_occurrence_only() {
    let v: Vec<u8> = vec![6, 6, 3];
    assert_eq!(remove_one(&v, 6), vec![6, 3]);
    assert_eq!(remove_one(&v, 3), vec![6, 6]);
    assert_eq!(remove_one(&v, 7), vec![6, 6, 3]);
    let empty: Vec<u8> = vec![];
    assert_eq!(remove_one(&empty, 4), Vec::<u8>::new());
}

#[test]
fn placement_conflict_rules() {
    // Pre-place 6 at tile 0; tile 1 is a declared neighbor of tile 0.
    let mut board = CatanBoard::new();
    board.tiles[0].number = Some(6);
    assert!(!board.is_valid_number_placement(1, 6), "equal numbers may not touch");
    assert!(!board.is_valid_number_placement(1, 8), "6 and 8 may not touch");
    assert!(board.is_valid_number_placement(1, 5), "5 next to 6 is allowed");
    // Tile 7 does not touch tile 0, so 6 is fine there.
    assert!(board.is_valid_number_placement(7, 6));
}

#[test]
fn placement_check_idempotent() {
    let mut board = CatanBoard::new();
    board.tiles[0].number = Some(6);
    board.tiles[9].number = Some(12);
    for tile in 0..19u8 {
        for number in [2u8, 3, 4, 5, 6, 8, 9, 10, 11, 12] {
            let first = board.is_valid_number_placement(tile as usize, number);
            let second = board.is_valid_number_placement(tile as usize, number);
            assert_eq!(first, second);
        }
    }
}

#[test]
fn desert_tile_skipped_without_consuming_candidate() {
    // Desert at index 9, a central highly-connected tile; 6 and 8 pre-placed
    // on its neighbors 4 and 5. The search starting at the desert index must
    // skip it entirely: with a pool of exactly nine candidates for the nine
    // tiles 10..18, success shows no candidate was spent on tile 9.
    let mut board = CatanBoard::new();
    for i in 0..19 {
        board.tiles[i].resource = if i == 9 { Resource::Desert } else { Resource::Wood };
    }
    board.tiles[4].number = Some(6);
    board.tiles[5].number = Some(8);
    let pool: Vec<u8> = vec![3, 2, 12, 4, 5, 9, 10, 11, 6];
    let solved = board.place_numbers_backtracking(9, &pool, 9);
    assert!(solved);
    assert_eq!(board.tiles[9].number, None, "the desert tile must stay unnumbered");
    for i in 0..9 {
        if i == 4 {
            assert_eq!(board.tiles[i].number, Some(6));
        } else if i == 5 {
            assert_eq!(board.tiles[i].number, Some(8));
        } else {
            assert_eq!(board.tiles[i].number, None, "tile {} is before the cursor", i);
        }
    }
    let mut used: Vec<u8> = (10..19).map(|i| board.tiles[i].number.unwrap()).collect();
    used.sort();
    let mut pool_sorted = pool.clone();
    pool_sorted.sort();
    assert_eq!(used, pool_sorted, "all nine candidates went to tiles 10..18");
}

#[test]
fn generated_board_is_valid() {
    let mut board = CatanBoard::new();
    let mut solved = board.generate_valid_board();
    let mut attempts = 1;
    while !solved && attempts < 50 {
        board = CatanBoard::new();
        solved = board.generate_valid_board();
        attempts += 1;
    }
    assert!(solved, "no valid board in {} attempts", attempts);
    assert_board_valid(&board);
}

#[test]
fn repeated_generation_mostly_succeeds() {
    let mut successes = 0;
    for _ in 0..100 {
        let mut board = CatanBoard::new();
        if board.generate_valid_board() {
            assert_board_valid(&board);
            successes += 1;
        } else {
            // A failed search rolls every assignment back.
            for tile in &board.tiles {
                assert_eq!(tile.number, None);
            }
        }
    }
    assert!(successes >= 90, "only {} of 100 runs produced a board", successes);
}

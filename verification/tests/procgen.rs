use bevy_book::procgen::{
    count_wall_neighbors, dungeon_inputs_ok, generate_dungeon, hash_name, smooth_cave, Rng, Room,
};

#[test]
fn rng_deterministic_same_seed() {
    let mut r1 = Rng::new(42);
    let mut r2 = Rng::new(42);

    for _ in 0..100 {
        assert_eq!(r1.next_u32(), r2.next_u32());
    }
}

#[test]
fn rng_different_seeds_diverge() {
    let mut r1 = Rng::new(42);
    let mut r2 = Rng::new(43);
    assert_ne!(r1.next_u32(), r2.next_u32());
}

#[test]
fn rng_follows_the_linear_congruence() {
    let mut state: u64 = 7;
    let mut rng = Rng::new(7);
    for _ in 0..10 {
        state = state.wrapping_mul(6364136223846793005).wrapping_add(1442695040888963407);
        assert_eq!(rng.next_u32(), (state >> 32) as u32);
    }
}

#[test]
fn rng_range_within_bounds() {
    let mut rng = Rng::new(123);
    for _ in 0..1000 {
        let val = rng.range(5, 10);
        assert!(val >= 5 && val < 10, "Value {} out of range [5, 10)", val);
    }
}

#[test]
fn rng_range_reversed_bounds() {
    let mut rng = Rng::new(5);
    for _ in 0..200 {
        let val = rng.range(10, 4);
        assert!(val >= 10 && val < 16);
    }
}

#[test]
fn rng_range_matches_formula() {
    let mut a = Rng::new(99);
    let mut b = Rng::new(99);
    for _ in 0..50 {
        let raw = b.next_u32() as i32;
        assert_eq!(a.range(-3, 17), -3 + raw.rem_euclid(20));
    }
}

#[test]
fn room_intersects() {
    let r1 = Room { x: 0, y: 0, width: 5, height: 5 };
    let r2 = Room { x: 3, y: 3, width: 5, height: 5 };
    let r3 = Room { x: 10, y: 10, width: 3, height: 3 };

    assert!(r1.intersects(&r2));
    assert!(!r1.intersects(&r3));
}

#[test]
fn room_touching_does_not_intersect() {
    let r1 = Room { x: 0, y: 0, width: 5, height: 5 };
    let r2 = Room { x: 5, y: 0, width: 5, height: 5 };
    assert!(!r1.intersects(&r2));
    assert!(!r2.intersects(&r1));
}

#[test]
fn room_center() {
    let room = Room { x: 10, y: 20, width: 10, height: 10 };
    let (cx, cy) = room.center();
    assert_eq!(cx, 15);
    assert_eq!(cy, 25);
}

#[test]
fn dungeon_has_rooms() {
    let mut rng = Rng::new(42);
    let (rooms, grid) = generate_dungeon(50, 50, 10, 4, 10, &mut rng);

    assert!(!rooms.is_empty(), "Should have at least one room");
    assert!(rooms.len() <= 10);

    for room in &rooms {
        assert!(!grid[room.y + 1][room.x + 1], "Room interior should be open");
    }
}

#[test]
fn dungeon_rooms_dont_overlap() {
    let mut rng = Rng::new(42);
    let (rooms, _) = generate_dungeon(60, 60, 15, 4, 8, &mut rng);

    for i in 0..rooms.len() {
        for j in (i + 1)..rooms.len() {
            assert!(!rooms[i].intersects(&rooms[j]), "Rooms overlap");
        }
    }
}

#[test]
fn dungeon_grid_shape_and_walls() {
    let mut rng = Rng::new(7);
    let (rooms, grid) = generate_dungeon(40, 30, 8, 3, 7, &mut rng);
    assert_eq!(grid.len(), 30);
    for row in &grid {
        assert_eq!(row.len(), 40);
    }
    for x in 0..40 {
        assert!(grid[0][x], "top row stays wall");
    }
    for room in &rooms {
        assert!(room.x >= 1 && room.x + room.width + 2 <= 40);
        assert!(room.y >= 1 && room.y + room.height + 2 <= 30);
        for y in room.y..room.y + room.height {
            for x in room.x..room.x + room.width {
                assert!(!grid[y][x]);
            }
        }
    }
}

#[test]
fn dungeon_with_no_tries_is_all_walls() {
    let mut rng = Rng::new(1);
    let (rooms, grid) = generate_dungeon(5, 4, 0, 0, 0, &mut rng);
    assert!(rooms.is_empty());
    assert_eq!(grid, vec![vec![true; 5]; 4]);
}

#[test]
fn count_wall_neighbors_counts_outside_as_walls() {
    let grid = vec![vec![false; 3]; 3];
    assert_eq!(count_wall_neighbors(&grid, 1, 1), 0);
    assert_eq!(count_wall_neighbors(&grid, 0, 0), 5);
    assert_eq!(count_wall_neighbors(&grid, 1, 0), 3);
}

#[test]
fn smooth_cave_applies_the_five_neighbour_rule() {
    let grid = vec![
        vec![true, true, true],
        vec![true, false, false],
        vec![false, false, false],
    ];
    let smoothed = smooth_cave(&grid);
    assert_eq!(smoothed.len(), 3);
    for y in 0..3 {
        for x in 0..3 {
            assert_eq!(smoothed[y][x], count_wall_neighbors(&grid, x, y) >= 5);
        }
    }
    assert!(smoothed[0][0]);
    assert!(!smoothed[1][1]);
}

#[test]
fn hash_name_deterministic() {
    let syllables = vec!["ka", "ru", "shi", "ma", "to"];
    let name1 = hash_name(42, &syllables);
    let name2 = hash_name(42, &syllables);
    assert_eq!(name1, name2);
}

#[test]
fn hash_name_different_seeds() {
    let syllables = vec!["ka", "ru", "shi"];
    let name1 = hash_name(42, &syllables);
    let name2 = hash_name(100, &syllables);
    assert_ne!(name1, name2);
}

#[test]
fn hash_name_is_two_or_three_syllables() {
    let syllables = vec!["x"];
    for seed in 0..50u64 {
        let name = hash_name(seed, &syllables);
        assert!(name == "xx" || name == "xxx");
    }
}

#[test]
fn dungeon_with_reversed_sizes_uses_the_minimum() {
    let mut rng = Rng::new(7);
    assert!(dungeon_inputs_ok(&rng, 60, 60, 6, 6, 5));
    let (rooms, _grid) = generate_dungeon(60, 60, 6, 6, 5, &mut rng);
    assert!(!rooms.is_empty());
    for r in &rooms {
        assert_eq!(r.width, 6);
        assert_eq!(r.height, 6);
    }
}

#[test]
fn dungeon_inputs_refused() {
    let rng = Rng::new(1);
    assert!(!dungeon_inputs_ok(&rng, 60, 60, 3, 5, 5));
    assert!(!dungeon_inputs_ok(&rng, 8, 60, 3, 4, 8));
    assert!(dungeon_inputs_ok(&rng, 8, 60, 0, 5, 5));
}

use bevy_book::pathfinding::{a_star, GridMap, GridPos};

fn assert_valid_path(map: &GridMap, path: &[GridPos]) {
    for pos in path {
        assert!(map.is_walkable(pos));
    }
    for pair in path.windows(2) {
        assert_eq!(pair[0].manhattan_distance(&pair[1]), 1);
    }
}

#[test]
fn manhattan_distance_basic() {
    let a = GridPos::new(0, 0);
    let b = GridPos::new(3, 4);
    assert_eq!(a.manhattan_distance(&b), 7);
}

#[test]
fn manhattan_distance_zero() {
    let a = GridPos::new(5, 5);
    assert_eq!(a.manhattan_distance(&a), 0);
}

#[test]
fn lib_neighbors_4_count() {
    let pos = GridPos::new(5, 5);
    assert_eq!(pos.neighbors_4().len(), 4);
}

#[test]
fn lib_neighbors_8_count() {
    let pos = GridPos::new(5, 5);
    assert_eq!(pos.neighbors_8().len(), 8);
}

#[test]
fn a_star_straight_line() {
    let map = GridMap::new(10, 10);
    let start = GridPos::new(0, 0);
    let goal = GridPos::new(5, 0);

    let path = a_star(&map, start, goal).expect("Path should exist");

    assert_eq!(path.first(), Some(&start));
    assert_eq!(path.last(), Some(&goal));
    assert_eq!(path.len(), 6);
}

#[test]
fn a_star_around_wall() {
    let mut map = GridMap::new(10, 10);
    for y in 0..9 {
        map.add_wall(GridPos::new(3, y));
    }

    let start = GridPos::new(0, 0);
    let goal = GridPos::new(7, 0);

    let path = a_star(&map, start, goal).expect("Path should exist around wall");

    assert_eq!(path.first(), Some(&start));
    assert_eq!(path.last(), Some(&goal));

    for pos in &path {
        assert!(!map.walls.contains(pos), "Path goes through wall at {:?}", pos);
    }
    assert_valid_path(&map, &path);
}

#[test]
fn a_star_no_path() {
    let mut map = GridMap::new(5, 5);
    for y in 0..5 {
        map.add_wall(GridPos::new(2, y));
    }

    let start = GridPos::new(0, 0);
    let goal = GridPos::new(4, 0);

    let path = a_star(&map, start, goal);
    assert!(path.is_none(), "Should not find a path through complete wall");
}

#[test]
fn a_star_start_equals_goal() {
    let map = GridMap::new(5, 5);
    let start = GridPos::new(2, 2);

    let path = a_star(&map, start, start).expect("Path should exist");
    assert_eq!(path, vec![start]);
}

#[test]
fn a_star_optimal_path_length() {
    let map = GridMap::new(10, 10);
    let start = GridPos::new(0, 0);
    let goal = GridPos::new(3, 4);

    let path = a_star(&map, start, goal).expect("Path should exist");

    assert_eq!(path.len(), 8);
}

#[test]
fn a_star_blocked_ends() {
    let mut map = GridMap::new(5, 5);
    map.add_wall(GridPos::new(4, 4));
    assert!(a_star(&map, GridPos::new(0, 0), GridPos::new(4, 4)).is_none());
    assert!(a_star(&map, GridPos::new(4, 4), GridPos::new(0, 0)).is_none());
    assert!(a_star(&map, GridPos::new(-1, 0), GridPos::new(0, 0)).is_none());
}

#[test]
fn a_star_maze_path_is_valid() {
    let mut map = GridMap::new(7, 7);
    for y in 0..6 {
        map.add_wall(GridPos::new(2, y));
    }
    for y in 1..7 {
        map.add_wall(GridPos::new(4, y));
    }
    let path = a_star(&map, GridPos::new(0, 0), GridPos::new(6, 6)).expect("a way round exists");
    assert_eq!(path.first(), Some(&GridPos::new(0, 0)));
    assert_eq!(path.last(), Some(&GridPos::new(6, 6)));
    assert_valid_path(&map, &path);
}

#[test]
fn grid_map_walkable() {
    let mut map = GridMap::new(5, 5);
    map.add_wall(GridPos::new(2, 2));

    assert!(map.is_walkable(&GridPos::new(0, 0)));
    assert!(map.is_walkable(&GridPos::new(4, 4)));
    assert!(!map.is_walkable(&GridPos::new(2, 2)));
    assert!(!map.is_walkable(&GridPos::new(-1, 0)), "Out of bounds");
    assert!(!map.is_walkable(&GridPos::new(5, 0)), "Out of bounds");
}

#[test]
fn grid_map_cost() {
    let mut map = GridMap::new(3, 3);
    map.add_wall(GridPos::new(1, 1));
    let from = GridPos::new(0, 0);
    assert_eq!(map.cost(&from, &GridPos::new(1, 0)), 1);
    assert_eq!(map.cost(&from, &GridPos::new(1, 1)), i32::MAX);
}

#[test]
fn a_star_around_wall_is_shortest() {
    let mut map = GridMap::new(10, 10);
    for y in 0..9 {
        map.add_wall(GridPos::new(3, y));
    }
    let path = a_star(&map, GridPos::new(0, 0), GridPos::new(7, 0)).expect("Path should exist");
    // Down to row 9, across the gap, and back up: 9 + 7 + 9 steps.
    assert_eq!(path.len(), 26);
}

#[test]
fn a_star_on_a_huge_grid() {
    let map = GridMap::new(100_000, 100_000);
    let path = a_star(&map, GridPos::new(0, 0), GridPos::new(1, 0)).expect("Path should exist");
    assert_eq!(path, vec![GridPos::new(0, 0), GridPos::new(1, 0)]);
}

#[test]
fn add_wall_twice_keeps_one() {
    let mut map = GridMap::new(5, 5);
    map.add_wall(GridPos::new(2, 2));
    map.add_wall(GridPos::new(2, 2));
    assert_eq!(map.walls.len(), 1);
}

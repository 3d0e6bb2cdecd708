use bevy_book::tilemaps::{ChunkedTilemap, TileCoord};

#[test]
fn neighbors_4_count() {
    let tile = TileCoord::new(5, 5);
    assert_eq!(tile.neighbors_4().len(), 4);
}

#[test]
fn neighbors_8_count() {
    let tile = TileCoord::new(5, 5);
    assert_eq!(tile.neighbors_8().len(), 8);
}

#[test]
fn tile_neighbors_order() {
    let tile = TileCoord::new(0, 0);
    assert_eq!(
        tile.neighbors_4(),
        vec![TileCoord::new(1, 0), TileCoord::new(-1, 0), TileCoord::new(0, 1), TileCoord::new(0, -1)]
    );
    assert_eq!(
        tile.neighbors_8(),
        vec![
            TileCoord::new(-1, -1),
            TileCoord::new(-1, 0),
            TileCoord::new(-1, 1),
            TileCoord::new(0, -1),
            TileCoord::new(0, 1),
            TileCoord::new(1, -1),
            TileCoord::new(1, 0),
            TileCoord::new(1, 1),
        ]
    );
}

#[test]
fn chebyshev_distance() {
    let a = TileCoord::new(0, 0);
    let b = TileCoord::new(3, 5);
    assert_eq!(a.chebyshev_distance(&b), 5);
}

#[test]
fn chebyshev_distance_adjacent() {
    let a = TileCoord::new(5, 5);
    let b = TileCoord::new(6, 5);
    assert_eq!(a.chebyshev_distance(&b), 1);
}

#[test]
fn chebyshev_distance_negative() {
    let a = TileCoord::new(-4, 2);
    let b = TileCoord::new(3, -1);
    assert_eq!(a.chebyshev_distance(&b), 7);
}

#[test]
fn chunked_tilemap_set_get() {
    let mut map = ChunkedTilemap::new(16);
    map.set_tile(TileCoord::new(5, 3), 42);
    assert_eq!(map.get_tile(&TileCoord::new(5, 3)), 42);
}

#[test]
fn chunked_tilemap_crosses_boundary() {
    let mut map = ChunkedTilemap::new(8);
    map.set_tile(TileCoord::new(0, 0), 1);
    map.set_tile(TileCoord::new(8, 0), 2);

    assert_eq!(map.chunk_count(), 2, "Should span 2 chunks");
}

#[test]
fn chunked_tilemap_empty_returns_zero() {
    let map = ChunkedTilemap::new(16);
    assert_eq!(map.get_tile(&TileCoord::new(100, 100)), 0);
}

#[test]
fn chunked_tilemap_negative_coords_and_neighbours() {
    let mut map = ChunkedTilemap::new(4);
    map.set_tile(TileCoord::new(-1, -1), 7);
    map.set_tile(TileCoord::new(-4, -4), 9);
    assert_eq!(map.get_tile(&TileCoord::new(-1, -1)), 7);
    assert_eq!(map.get_tile(&TileCoord::new(-4, -4)), 9);
    assert_eq!(map.get_tile(&TileCoord::new(-2, -1)), 0);
    assert_eq!(map.get_tile(&TileCoord::new(3, 3)), 0);
    assert_eq!(map.chunk_count(), 1);
    map.set_tile(TileCoord::new(-1, -1), 8);
    assert_eq!(map.get_tile(&TileCoord::new(-1, -1)), 8);
    assert_eq!(map.get_tile(&TileCoord::new(-4, -4)), 9);
    assert_eq!(map.chunk_count(), 1);
}

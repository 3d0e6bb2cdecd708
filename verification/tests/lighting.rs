use bevy_book::lighting::visible_tiles;

#[test]
fn visible_tiles_in_radius() {
    let tiles = visible_tiles((0, 0), 2);
    assert!(tiles.contains(&(0, 0)));
    assert!(tiles.contains(&(1, 0)));
    assert!(tiles.contains(&(0, 1)));
    assert!(!tiles.contains(&(3, 0)), "Should not include tiles outside radius");
}

#[test]
fn visible_tiles_count() {
    let tiles = visible_tiles((0, 0), 1);
    assert_eq!(tiles.len(), 5);
}

#[test]
fn visible_tiles_order_and_offset() {
    let tiles = visible_tiles((10, -3), 1);
    assert_eq!(tiles, vec![(10, -4), (9, -3), (10, -3), (11, -3), (10, -2)]);
}

#[test]
fn visible_tiles_radius_zero_and_negative() {
    assert_eq!(visible_tiles((4, 4), 0), vec![(4, 4)]);
    assert!(visible_tiles((4, 4), -1).is_empty());
}

#[test]
fn visible_tiles_radius_two_count() {
    assert_eq!(visible_tiles((0, 0), 2).len(), 13);
}

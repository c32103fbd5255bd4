use raycaster::map::{GameMap, FLOOR_TILE, SOLID_TILE};

fn bordered_map(width: usize, height: usize, wall: u8) -> GameMap {
    let mut map = GameMap::new(width, height);
    for x in 0..width {
        map.set_tile(x, 0, wall);
        map.set_tile(x, height - 1, wall);
    }
    for y in 0..height {
        map.set_tile(0, y, wall);
        map.set_tile(width - 1, y, wall);
    }
    map
}

#[test]
fn new_map_is_open_floor() {
    let map = GameMap::new(24, 16);
    assert_eq!(map.width(), 24);
    assert_eq!(map.height(), 16);
    for y in 0..16 {
        for x in 0..24 {
            assert_eq!(map.get_tile(x, y), FLOOR_TILE);
        }
    }
}

#[test]
fn get_tile_out_of_range_is_solid() {
    let map = GameMap::new(24, 24);
    assert_eq!(map.get_tile(1000, 5), SOLID_TILE);
    assert_eq!(map.get_tile(5, 1000), SOLID_TILE);
    assert_eq!(map.get_tile(24, 0), 1);
    assert_eq!(map.get_tile(0, 24), 1);
    assert_eq!(map.get_tile(usize::MAX, 5), 1);
    assert_eq!(map.get_tile(23, 23), 0);
}

#[test]
fn get_tile_on_empty_map_is_solid() {
    let map = GameMap::new(0, 0);
    assert_eq!(map.get_tile(0, 0), 1);
    let flat = GameMap::new(5, 0);
    assert_eq!(flat.get_tile(2, 0), 1);
}

#[test]
fn set_tile_changes_one_cell() {
    let mut map = GameMap::new(4, 3);
    map.set_tile(2, 1, 5);
    for y in 0..3 {
        for x in 0..4 {
            let expected = if x == 2 && y == 1 {
                5
            } else {
                0
            };
            assert_eq!(map.get_tile(x, y), expected);
        }
    }
    assert_eq!(map.width(), 4);
    assert_eq!(map.height(), 3);
}

#[test]
fn set_tile_out_of_range_is_ignored() {
    let mut map = GameMap::new(4, 3);
    map.set_tile(4, 1, 5);
    map.set_tile(1, 3, 5);
    for y in 0..3 {
        for x in 0..4 {
            assert_eq!(map.get_tile(x, y), 0);
        }
    }
}

#[test]
fn is_wall_follows_the_tiles() {
    let map = bordered_map(24, 24, 3);
    assert!(map.is_wall(0, 0));
    assert!(map.is_wall(23, 12));
    assert!(!map.is_wall(12, 12));
    assert!(!map.is_wall(1, 1));
}

#[test]
fn is_wall_outside_the_map_is_solid() {
    let map = GameMap::new(24, 24);
    assert!(map.is_wall(-1, 5));
    assert!(map.is_wall(5, -1));
    assert!(map.is_wall(1000, 5));
    assert!(map.is_wall(5, 24));
    assert!(map.is_wall(i64::MIN, i64::MAX));
    assert!(!map.is_wall(0, 0));
}

#[test]
fn is_valid_position_rejects_negative_and_walls() {
    let map = bordered_map(24, 24, 1);
    assert!(map.is_valid_position(12, 12));
    assert!(map.is_valid_position(1, 22));
    assert!(!map.is_valid_position(0, 12));
    assert!(!map.is_valid_position(-1, 12));
    assert!(!map.is_valid_position(12, -1));
    assert!(!map.is_valid_position(24, 12));
    assert!(!map.is_valid_position(12, 1000));
}

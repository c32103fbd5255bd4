use raycaster::map::GameMap;
use raycaster::raycast::{cast_ray, Axis, GridHit, Heading, Side, MAX_RAY_STEPS};

fn border_only_map(size: usize, wall: u8) -> GameMap {
    let mut map = GameMap::new(size, size);
    for i in 0..size {
        map.set_tile(i, 0, wall);
        map.set_tile(i, size - 1, wall);
        map.set_tile(0, i, wall);
        map.set_tile(size - 1, i, wall);
    }
    map
}

fn perpendicular_distance(hit_cell: usize, heading: Heading, start: f32, direction: f32) -> f32 {
    ((hit_cell as f32 - start + heading.edge_offset() as f32) / direction).abs().max(0.01)
}

#[test]
fn ray_along_positive_x_hits_the_border() {
    let map = border_only_map(24, 1);
    let steps = vec![Axis::X; MAX_RAY_STEPS];
    let hit = cast_ray(&map, 12, 12, Heading::Positive, Heading::Positive, &steps);
    assert_eq!(hit, Some(GridHit { cell_x: 23, cell_y: 12, wall_type: 1, side: Side::NorthSouth }));
    let distance = perpendicular_distance(23, Heading::Positive, 12.0, 1.0);
    assert!((distance - 11.0).abs() < 1e-5);
}

#[test]
fn ray_along_negative_x_hits_the_border() {
    let map = border_only_map(24, 4);
    let steps = vec![Axis::X; MAX_RAY_STEPS];
    let hit = cast_ray(&map, 12, 12, Heading::Negative, Heading::Positive, &steps);
    assert_eq!(hit, Some(GridHit { cell_x: 0, cell_y: 12, wall_type: 4, side: Side::NorthSouth }));
    let distance = perpendicular_distance(0, Heading::Negative, 12.0, -1.0);
    assert!((distance - 11.0).abs() < 1e-5);
}

#[test]
fn ray_along_y_reports_the_east_west_side() {
    let map = border_only_map(24, 2);
    let steps = vec![Axis::Y; MAX_RAY_STEPS];
    let down = cast_ray(&map, 5, 12, Heading::Positive, Heading::Positive, &steps);
    assert_eq!(down, Some(GridHit { cell_x: 5, cell_y: 23, wall_type: 2, side: Side::EastWest }));
    let up = cast_ray(&map, 5, 12, Heading::Positive, Heading::Negative, &steps);
    assert_eq!(up, Some(GridHit { cell_x: 5, cell_y: 0, wall_type: 2, side: Side::EastWest }));
}

#[test]
fn diagonal_ray_takes_the_steps_in_turn() {
    let mut map = GameMap::new(8, 8);
    map.set_tile(3, 2, 5);
    let steps = vec![Axis::X, Axis::Y, Axis::X, Axis::Y, Axis::X, Axis::Y];
    let hit = cast_ray(&map, 0, 0, Heading::Positive, Heading::Positive, &steps);
    assert_eq!(hit, Some(GridHit { cell_x: 3, cell_y: 2, wall_type: 5, side: Side::NorthSouth }));
    let other = vec![Axis::Y, Axis::X, Axis::Y, Axis::X, Axis::X, Axis::Y];
    let hit = cast_ray(&map, 0, 0, Heading::Positive, Heading::Positive, &other);
    assert_eq!(hit, Some(GridHit { cell_x: 3, cell_y: 2, wall_type: 5, side: Side::NorthSouth }));
    let from_above = vec![Axis::X, Axis::X, Axis::X, Axis::Y, Axis::Y];
    let hit = cast_ray(&map, 0, 0, Heading::Positive, Heading::Positive, &from_above);
    assert_eq!(hit, Some(GridHit { cell_x: 3, cell_y: 2, wall_type: 5, side: Side::EastWest }));
}

#[test]
fn the_starting_cell_is_not_examined() {
    let mut map = GameMap::new(4, 1);
    map.set_tile(0, 0, 9);
    map.set_tile(2, 0, 3);
    let hit = cast_ray(&map, 0, 0, Heading::Positive, Heading::Positive, &vec![Axis::X; 3]);
    assert_eq!(hit, Some(GridHit { cell_x: 2, cell_y: 0, wall_type: 3, side: Side::NorthSouth }));
}

#[test]
fn ray_that_leaves_the_map_hits_nothing() {
    let map = GameMap::new(10, 10);
    let steps = vec![Axis::X; MAX_RAY_STEPS];
    assert_eq!(cast_ray(&map, 5, 5, Heading::Positive, Heading::Positive, &steps), None);
    assert_eq!(cast_ray(&map, 5, 5, Heading::Negative, Heading::Positive, &steps), None);
    let steps = vec![Axis::Y; MAX_RAY_STEPS];
    assert_eq!(cast_ray(&map, 5, 5, Heading::Positive, Heading::Negative, &steps), None);
}

#[test]
fn ray_is_lost_beyond_a_wall_outside_the_map() {
    let mut map = GameMap::new(6, 1);
    map.set_tile(5, 0, 1);
    let hit = cast_ray(&map, 2, 0, Heading::Positive, Heading::Positive, &vec![Axis::Y, Axis::X, Axis::X, Axis::X]);
    assert_eq!(hit, None);
}

#[test]
fn ray_without_steps_hits_nothing() {
    let map = border_only_map(24, 1);
    assert_eq!(cast_ray(&map, 22, 12, Heading::Positive, Heading::Positive, &Vec::new()), None);
}

#[test]
fn ray_with_too_few_steps_hits_nothing() {
    let map = border_only_map(24, 1);
    let hit = cast_ray(&map, 12, 12, Heading::Positive, Heading::Positive, &vec![Axis::X; 10]);
    assert_eq!(hit, None);
    let hit = cast_ray(&map, 12, 12, Heading::Positive, Heading::Positive, &vec![Axis::X; 11]);
    assert_eq!(hit, Some(GridHit { cell_x: 23, cell_y: 12, wall_type: 1, side: Side::NorthSouth }));
}

#[test]
fn ray_stops_at_the_step_limit() {
    assert_eq!(MAX_RAY_STEPS, 100);
    let mut map = GameMap::new(300, 1);
    map.set_tile(100, 0, 2);
    map.set_tile(101, 0, 3);
    let steps = vec![Axis::X; 250];
    let hit = cast_ray(&map, 0, 0, Heading::Positive, Heading::Positive, &steps);
    assert_eq!(hit, Some(GridHit { cell_x: 100, cell_y: 0, wall_type: 2, side: Side::NorthSouth }));
    map.set_tile(100, 0, 0);
    let hit = cast_ray(&map, 0, 0, Heading::Positive, Heading::Positive, &steps);
    assert_eq!(hit, None);
}

#[test]
fn ray_from_outside_the_map() {
    let map = border_only_map(24, 1);
    let steps = vec![Axis::X; MAX_RAY_STEPS];
    assert_eq!(cast_ray(&map, -5, 12, Heading::Positive, Heading::Positive, &steps), None);
    let hit = cast_ray(&map, -1, 12, Heading::Positive, Heading::Positive, &steps);
    assert_eq!(hit, Some(GridHit { cell_x: 0, cell_y: 12, wall_type: 1, side: Side::NorthSouth }));
    assert_eq!(cast_ray(&map, i64::MAX, i64::MAX, Heading::Positive, Heading::Positive, &steps), None);
    assert_eq!(cast_ray(&map, i64::MIN, 3, Heading::Negative, Heading::Negative, &steps), None);
}

#[test]
fn heading_steps_and_edge_offsets() {
    assert_eq!(Heading::Positive.step(), 1);
    assert_eq!(Heading::Negative.step(), -1);
    assert_eq!(Heading::Positive.edge_offset(), 0);
    assert_eq!(Heading::Negative.edge_offset(), 1);
}

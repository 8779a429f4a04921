use rts_core::map::{GameMap, GroundType, SecondLevelType};
use rts_core::geometry::Point;

#[test]
fn sight_to_itself_and_within_cell() {
    let mut map = GameMap::new(10, 10);
    let a = Point::new(3200, 3300);
    assert!(map.line_of_sight(&a, &a));
    assert!(map.line_of_sight(&a, &Point::new(3900, 3050)));
    map.set(3, 3, GroundType::Water);
    assert!(!map.line_of_sight(&a, &a));
}

#[test]
fn blocked_destination_cell_fails() {
    let mut map = GameMap::new(10, 10);
    map.set(2, 1, GroundType::Water);
    assert!(!map.line_of_sight(&Point::new(1500, 1500), &Point::new(2500, 1500)));
    assert!(map.line_of_sight(&Point::new(1500, 1500), &Point::new(1500, 4500)));
}

#[test]
fn open_line_is_visible() {
    let map = GameMap::new(10, 10);
    assert!(map.line_of_sight(&Point::new(1500, 1500), &Point::new(8500, 6500)));
    assert!(map.line_of_sight(&Point::new(5500, 1500), &Point::new(5500, 8500)));
    assert!(map.line_of_sight(&Point::new(8500, 2500), &Point::new(1500, 2500)));
}

#[test]
fn single_blocking_cell_breaks_sight() {
    let mut map = GameMap::new(10, 10);
    let a = Point::new(1500, 5500);
    let b = Point::new(8500, 5500);
    assert!(map.line_of_sight(&a, &b));
    map.set_second_layer(5, 5, SecondLevelType::Building);
    assert!(!map.line_of_sight(&a, &b));
    assert!(!map.line_of_sight(&b, &a));
}

#[test]
fn blocked_start_cell_fails_when_leaving_it() {
    let mut map = GameMap::new(10, 10);
    map.set(1, 1, GroundType::Water);
    assert!(!map.line_of_sight(&Point::new(1500, 1500), &Point::new(6500, 1500)));
}

#[test]
fn fattened_sight_keeps_clearance_from_corners() {
    let mut map = GameMap::new(10, 10);
    let a = Point::new(2500, 5100);
    let b = Point::new(7500, 5100);
    assert!(map.line_of_sight_fat(&a, &b, 250));
    map.set(5, 4, GroundType::Water);
    assert!(map.line_of_sight(&a, &b));
    assert!(!map.line_of_sight_fat(&a, &b, 250));
}

#[test]
fn ring_search_order() {
    let mut map = GameMap::new(10, 10);
    map.set(5, 5, GroundType::Water);
    assert_eq!(map.closest_moveable_point(5, 5), (6, 5));
    map.set(6, 5, GroundType::Water);
    assert_eq!(map.closest_moveable_point(5, 5), (5, 6));
    map.set(5, 6, GroundType::Water);
    map.set(4, 5, GroundType::Water);
    assert_eq!(map.closest_moveable_point(5, 5), (5, 4));
}

#[test]
fn passability_rules() {
    let mut map = GameMap::new(4, 4);
    assert!(map.point_moveable((1, 1)));
    assert!(!map.point_moveable((-1, 1)));
    assert!(!map.point_moveable((4, 0)));
    map.set(1, 1, GroundType::Sand);
    assert!(map.point_moveable((1, 1)));
    map.set_second_layer(1, 1, SecondLevelType::CutTree);
    assert!(map.point_moveable((1, 1)));
    map.set_second_layer(1, 1, SecondLevelType::Tree);
    assert!(!map.point_moveable((1, 1)));
    assert_eq!(map.get_at(9, 9), GroundType::Empty);
    assert_eq!(map.get_at_second_level(1, 1), SecondLevelType::Tree);
    assert_eq!(map.coord_to_index(3, 2), 11);
}

#[test]
fn terrain_from_noise() {
    let heights = vec![-300, -150, 600, 0];
    let trees = vec![-500, -500, 0, -101];
    let map = GameMap::new_random(2, 2, &heights, &trees);
    assert_eq!(map.get_at(0, 0), GroundType::Water);
    assert_eq!(map.get_at_second_level(0, 0), SecondLevelType::Empty);
    assert_eq!(map.get_at(1, 0), GroundType::Sand);
    assert_eq!(map.get_at_second_level(1, 0), SecondLevelType::Tree);
    assert_eq!(map.get_at(0, 1), GroundType::Rock);
    assert_eq!(map.get_at(1, 1), GroundType::Grass);
    assert_eq!(map.get_at_second_level(1, 1), SecondLevelType::Tree);
}

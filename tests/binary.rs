use rts_core::binary_helpers::{
    u32_as_bytes, i32_as_bytes, pop_u32, pop_i32, pop_u8, pop_padded, pop_bytes_from_vec, padded,
    vec_as_bytes, Binaryable,
};
use rts_core::building::Building;
use rts_core::map::{GameMap, GroundType, SecondLevelType};

#[test]
fn integers_big_endian() {
    assert_eq!(u32_as_bytes(0x01020304), vec![1, 2, 3, 4]);
    assert_eq!(i32_as_bytes(-2), vec![0xff, 0xff, 0xff, 0xfe]);
    let (v, rest) = pop_u32(vec![0, 0, 1, 2, 9]);
    assert_eq!(v, 258);
    assert_eq!(rest, vec![9]);
    let (v, rest) = pop_i32(vec![0xff, 0xff, 0xff, 0xfe]);
    assert_eq!(v, -2);
    assert!(rest.is_empty());
    let (b, rest) = pop_u8(vec![7, 8]);
    assert_eq!((b, rest), (7, vec![8]));
}

#[test]
fn padded_blocks() {
    let block = padded(vec![5, 6, 7]);
    assert_eq!(block, vec![0, 0, 0, 3, 5, 6, 7]);
    let mut data = block.clone();
    data.push(42);
    let (inner, rest) = pop_padded(data);
    assert_eq!(inner, vec![5, 6, 7]);
    assert_eq!(rest, vec![42]);
    let (a, b) = pop_bytes_from_vec(vec![1, 2, 3], 3);
    assert_eq!(a, vec![1, 2, 3]);
    assert!(b.is_empty());
}

#[test]
fn building_round_trip() {
    let b = Building::new((-4, 70000));
    let bytes = b.as_binary();
    assert_eq!(bytes.len(), 8);
    let back = Building::from_binary(bytes);
    assert_eq!((back.x(), back.y()), (-4, 70000));
    let list = vec_as_bytes(&vec![Building::new((1, 2)), Building::new((3, 4))]);
    assert_eq!(&list[0..4], &[0, 0, 0, 24]);
}

#[test]
fn map_round_trip() {
    let mut map = GameMap::new(3, 2);
    map.set(2, 1, GroundType::Rock);
    map.set_second_layer(0, 1, SecondLevelType::Tree);
    let bytes = map.as_binary();
    assert_eq!(bytes.len(), 8 + 12);
    let back = GameMap::from_binary(bytes);
    assert_eq!(back.width(), 3);
    assert_eq!(back.height(), 2);
    assert_eq!(back.get_at(2, 1), GroundType::Rock);
    assert_eq!(back.get_at(0, 0), GroundType::Grass);
    assert_eq!(back.get_at_second_level(0, 1), SecondLevelType::Tree);
}

use rts_core::entity::{Entity, EntityType, ResourceType, Task};
use rts_core::projectile::Projectile;
use rts_core::geometry::Point;

#[test]
fn task_round_trip() {
    let tasks = vec![
        Task::Idle,
        Task::Move { point: Point::new(-5, 1_000_000_000) },
        Task::AttackMove { point: Point::new(i64::MIN, i64::MAX) },
        Task::Gather { point: Point::new(7, 8), resource_type: ResourceType::Gold },
    ];
    for t in tasks.iter() {
        let bytes = t.to_bytes();
        assert_eq!(Task::from_binary(&bytes), Some(*t));
    }
    assert_eq!(Task::Move { point: Point::new(1, 2) }.to_bytes(), vec![1, 0, 0, 0, 0, 0, 0, 0, 1, 0, 0, 0, 0, 0, 0, 0, 2]);
    assert_eq!(Task::from_binary(&vec![9]), None);
    assert_eq!(Task::from_binary(&vec![1, 0, 0]), None);
    assert_eq!(Task::from_binary(&vec![]), None);
}

#[test]
fn unit_round_trip() {
    let path = vec![Point::new(1500, 1500), Point::new(2500, 2500), Point::new(2600, 2700)];
    let task = Task::AttackMove { point: Point::new(2600, 2700) };
    let e = Entity::restore(
        Point::new(1234, -5678),
        42,
        EntityType::Meelee,
        2,
        path.clone(),
        5,
        3,
        77,
        12,
        Some(Point::new(900, 800)),
        Some(6),
        task,
    )
    .expect("valid unit");
    let bytes = e.to_bytes();
    assert_eq!(bytes.len(), 62 + 16 * 3 + 17);
    let back = Entity::from_binary(&bytes).expect("reads back");
    assert_eq!(back.location(), Point::new(1234, -5678));
    assert_eq!(back.id(), 42);
    assert_eq!(back.entity_type(), EntityType::Meelee);
    assert_eq!(back.waypoint_index(), 2);
    assert_eq!(back.path(), &path);
    assert_eq!(back.orientation(), 5);
    assert_eq!(back.team_id(), 3);
    assert_eq!(back.hp(), 77);
    assert_eq!(back.cooldown(), 12);
    assert_eq!(back.closest_seen_enemy_point(), Some(Point::new(900, 800)));
    assert_eq!(back.closest_seen_enemy_id(), None);
    assert_eq!(back.task(), task);
}

#[test]
fn unit_bytes_rejected_when_malformed() {
    let e = Entity::new(1000, 2000, 1, 0, EntityType::Peasant);
    let bytes = e.to_bytes();
    assert!(Entity::from_binary(&bytes).is_some());
    let mut bad_type = bytes.clone();
    bad_type[20] = 7;
    assert!(Entity::from_binary(&bad_type).is_none());
    let mut bad_hp = bytes.clone();
    bad_hp[33] = 0x7f;
    assert!(Entity::from_binary(&bad_hp).is_none());
    assert!(Entity::from_binary(&bytes[0..40].to_vec()).is_none());
    let mut no_task = bytes.clone();
    no_task.pop();
    assert!(Entity::from_binary(&no_task).is_none());
}

#[test]
fn projectile_round_trip() {
    let p = Projectile::restore(Point::new(10, -20), Point::new(0, 0), Point::new(30, -60));
    let bytes = p.to_bytes();
    assert_eq!(bytes.len(), 48);
    let back = Projectile::from_binary(&bytes).expect("reads back");
    assert_eq!(back, p);
    assert!(Projectile::from_binary(&bytes[0..47].to_vec()).is_none());
}

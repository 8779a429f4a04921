use rts_core::map::{GameMap, GroundType, SecondLevelType};
use rts_core::geometry::{Point, Vector};
use rts_core::entity::{Entity, EntityType, Task};
use rts_core::entity_holder::EntityHolder;
use rts_core::game_state::{GameEvent, GameState};
use rts_core::projectile::Projectile;

#[test]
fn waypoint_cursor_stays_in_path() {
    let mut map = GameMap::new(20, 20);
    for y in 0..15 {
        map.set(8, y, GroundType::Water);
    }
    let mut holder = EntityHolder::new();
    holder.add_new_entity(2500, 2500, 0);
    holder.order_entities(&map, Task::Move { point: Point::new(15500, 2500) }, &vec![0]);
    for _ in 0..3000 {
        holder.entity_ai(&map, 0);
        let e = &holder.entities()[0];
        if e.path().is_empty() {
            assert_eq!(e.waypoint_index(), 0);
            assert_eq!(e.task(), Task::Idle);
            break;
        }
        assert!((e.waypoint_index() as usize) < e.path().len());
    }
    let e = &holder.entities()[0];
    assert_eq!(e.task(), Task::Idle);
    assert_eq!(e.location(), Point::new(15500, 2500));
}

#[test]
fn order_gives_route_and_arrives() {
    let map = GameMap::new(20, 20);
    let mut holder = EntityHolder::new();
    holder.add_new_entity(2500, 2500, 0);
    let goal = Point::new(18200, 18700);
    holder.order_entities(&map, Task::Move { point: goal }, &vec![0]);
    let e = &holder.entities()[0];
    assert_eq!(e.task(), Task::Move { point: goal });
    assert_eq!(e.path()[0], Point::new(2500, 2500));
    assert_eq!(*e.path().last().unwrap(), goal);
    assert_eq!(e.path()[e.path().len() - 2], Point::new(18500, 18500));
    assert!(holder.debug_search_tree().is_some());
    for _ in 0..2000 {
        holder.entity_ai(&map, 0);
    }
    assert_eq!(holder.entities()[0].location(), goal);
    assert_eq!(holder.entities()[0].task(), Task::Idle);
}

#[test]
fn unreachable_unit_is_left_idle() {
    let mut map = GameMap::new(20, 20);
    for y in 0..20 {
        map.set(10, y, GroundType::Water);
    }
    let mut holder = EntityHolder::new();
    holder.add_new_entity(2500, 2500, 0);
    holder.order_entities(&map, Task::Move { point: Point::new(18500, 18500) }, &vec![0]);
    let e = &holder.entities()[0];
    assert!(e.path().is_empty());
    assert_eq!(e.task(), Task::Idle);
}

#[test]
fn stop_and_idle_orders() {
    let map = GameMap::new(10, 10);
    let mut holder = EntityHolder::new();
    holder.add_new_entity(1500, 1500, 0);
    holder.add_new_entity(2500, 1500, 0);
    holder.order_entities(&map, Task::Move { point: Point::new(8500, 8500) }, &vec![0, 1]);
    holder.order_entities(&map, Task::Idle, &vec![1]);
    assert!(!holder.entities()[0].path().is_empty());
    assert!(holder.entities()[1].path().is_empty());
    holder.order_stop(&vec![0]);
    assert_eq!(holder.entities()[0].task(), Task::Idle);
    let before = holder.entities()[0].location();
    holder.order_entities(
        &map,
        Task::Gather { point: Point::new(1, 1), resource_type: rts_core::entity::ResourceType::Wood },
        &vec![0],
    );
    assert_eq!(holder.entities()[0].location(), before);
    assert!(holder.entities()[0].path().is_empty());
}

#[test]
fn radius_query_is_a_superset() {
    let map = GameMap::new(30, 30);
    let mut holder = EntityHolder::new();
    let spots = [(10000, 10000), (12900, 10000), (13100, 10000), (10000, 7200), (16000, 16000), (7300, 12800)];
    for s in spots.iter() {
        holder.add_new_entity(s.0, s.1, 0);
    }
    holder.update_entity_location_map(&map);
    let centre = Point::new(10000, 10000);
    let radius = 3000;
    let ids = holder.get_close_entity_ids(&centre, radius);
    for e in holder.entities() {
        let d = e.location().dist_to(&centre).length();
        if d <= radius {
            assert!(ids.contains(&e.id()));
        }
    }
    assert!(!ids.contains(&4));
    // The square box also returns a unit outside the true radius.
    assert!(ids.contains(&5));
    assert!(Point::new(7300, 12800).dist_to(&centre).length() > radius);
}

#[test]
fn far_pair_does_not_push() {
    let mut a = Entity::new(5000, 5000, 0, 0, EntityType::Meelee);
    let b = Entity::new(5600, 5000, 1, 0, EntityType::Meelee);
    let map = GameMap::new(10, 10);
    a.interact_with(&b, &map);
    assert_eq!(a.location(), Point::new(5000, 5000));
    let c = Entity::new(5300, 5000, 2, 0, EntityType::Meelee);
    a.interact_with(&c, &map);
    // 300 apart: pushed away by (550 - 300) * 3 / 10 = 75.
    assert_eq!(a.location(), Point::new(4925, 5000));
}

#[test]
fn coincident_units_lower_id_moves() {
    let map = GameMap::new(10, 10);
    let mut holder = EntityHolder::new();
    holder.add_new_entity(5500, 5500, 0);
    holder.add_new_entity(5500, 5500, 0);
    holder.entities_interact_with_each_other(&map);
    let es = holder.entities();
    assert_eq!(es[0].location(), Point::new(5600, 5500));
    assert_eq!(es[1].location(), Point::new(5500, 5500));
}

#[test]
fn dead_units_are_pruned_by_the_tick() {
    let map = GameMap::new(20, 20);
    let mut holder = EntityHolder::new();
    holder.add_new_entity(5500, 5500, 0);
    holder.add_new_entity(5500, 5500, 1);
    holder.add_new_entity(5500, 5500, 1);
    holder.add_new_entity(8500, 5500, 1);
    assert_eq!(holder.entities()[3].entity_type(), EntityType::Ranged);
    let mut ended = false;
    for tick in 0..3000 {
        holder.entity_ai(&map, tick);
        for e in holder.entities() {
            assert!(e.hp() > 0);
            assert!(e.alive());
        }
        for p in holder.projectiles() {
            assert!(!p.at_location());
        }
        if holder.entities().len() < 4 {
            ended = true;
            break;
        }
    }
    assert!(ended);
}

#[test]
fn unit_tracks_and_shoots_enemy() {
    let map = GameMap::new(20, 20);
    let mut holder = EntityHolder::new();
    holder.add_new_entity(5500, 5500, 0);
    holder.add_new_entity(9500, 5500, 1);
    holder.entities_interact_with_each_other(&map);
    assert_eq!(holder.entities()[0].closest_seen_enemy_id(), Some(1));
    assert_eq!(holder.entities()[0].closest_seen_enemy_point(), Some(Point::new(9500, 5500)));
    holder.entities_ai_stuff(&map);
    assert_eq!(holder.projectiles().len(), 1);
    assert_eq!(holder.projectiles()[0].end_point(), Point::new(9500, 5500));
}

#[test]
fn enemy_out_of_sight_is_not_tracked() {
    let mut map = GameMap::new(20, 20);
    for y in 0..20 {
        map.set(7, y, GroundType::Water);
    }
    let mut holder = EntityHolder::new();
    holder.add_new_entity(5500, 5500, 0);
    holder.add_new_entity(9500, 5500, 1);
    holder.entities_interact_with_each_other(&map);
    assert_eq!(holder.entities()[0].closest_seen_enemy_id(), None);
}

#[test]
fn peasant_flees() {
    let map = GameMap::new(20, 20);
    let mut holder = EntityHolder::new();
    holder.add_new_entity(9500, 5500, 1);
    holder.add_new_entity(5500, 5500, 0);
    assert_eq!(holder.entities()[1].entity_type(), EntityType::Peasant);
    holder.entities_interact_with_each_other(&map);
    holder.entities_ai_stuff(&map);
    assert_eq!(holder.entities()[1].location(), Point::new(5460, 5500));
}

#[test]
fn take_hit_floors_at_zero() {
    let mut e = Entity::new(1000, 1000, 7, 2, EntityType::Peasant);
    assert_eq!(e.hp(), 200);
    assert_eq!(e.max_hp(), 200);
    assert_eq!(e.orientation(), 7);
    e.take_hit(12);
    assert_eq!(e.hp(), 188);
    e.take_hit(1000);
    assert_eq!(e.hp(), 0);
    assert!(!e.alive());
    assert!(!e.can_attack());
    assert!(!e.is_ranged());
}

#[test]
fn orientation_sectors() {
    let mut e = Entity::new(5000, 5000, 0, 0, EntityType::Meelee);
    e.set_orientation_from_vector(&Vector::new(10, 0));
    assert_eq!(e.orientation(), 4);
    e.set_orientation_from_vector(&Vector::new(-10, 0));
    assert_eq!(e.orientation(), 0);
    e.set_orientation_from_vector(&Vector::new(0, 10));
    assert_eq!(e.orientation(), 6);
    e.set_orientation_from_vector(&Vector::new(0, -10));
    assert_eq!(e.orientation(), 2);
    e.set_orientation_from_vector(&Vector::new(10, 10));
    assert_eq!(e.orientation(), 5);
    e.set_orientation_from_vector(&Vector::new(-10, -9));
    assert_eq!(e.orientation(), 1);
    e.move_vector(&Vector::new(40, 0), true);
    assert_eq!(e.location(), Point::new(5040, 5000));
    assert_eq!(e.orientation(), 0);
}

#[test]
fn terrain_correction() {
    let mut map = GameMap::new(10, 10);
    map.set(5, 5, GroundType::Water);
    let mut e = Entity::new(5300, 5300, 0, 0, EntityType::Meelee);
    e.interact_with_map(&map);
    assert_eq!(e.location(), Point::new(6500, 5500));
    let mut f = Entity::new(6100, 5500, 1, 0, EntityType::Meelee);
    f.interact_with_map(&map);
    assert_eq!(f.location(), Point::new(6250, 5500));
    let mut g = Entity::new(6600, 5500, 2, 0, EntityType::Meelee);
    g.interact_with_map(&map);
    assert_eq!(g.location(), Point::new(6600, 5500));
    map.set_second_layer(4, 4, SecondLevelType::Tree);
    let mut h = Entity::new(5100, 5150, 3, 0, EntityType::Meelee);
    map.set(5, 5, GroundType::Grass);
    h.interact_with_map(&map);
    assert_eq!(h.location(), Point::new(5100, 5250));
}

#[test]
fn projectile_flies_and_lands() {
    let mut p = Projectile::new(&Point::new(0, 0), &Point::new(1000, 0));
    p.increment();
    assert_eq!(p.location(), Point::new(200, 0));
    for _ in 0..3 {
        p.increment();
    }
    assert_eq!(p.location(), Point::new(800, 0));
    assert!(!p.at_location());
    p.increment();
    assert_eq!(p.location(), Point::new(1000, 0));
    p.increment();
    assert!(p.at_location());
}

#[test]
fn spawn_types_cycle() {
    let mut holder = EntityHolder::new();
    for _ in 0..4 {
        holder.add_new_entity(1000, 1000, 3);
    }
    let types: Vec<EntityType> = holder.entities().iter().map(|e| e.entity_type()).collect();
    assert_eq!(types, vec![EntityType::Ranged, EntityType::Peasant, EntityType::Meelee, EntityType::Ranged]);
    assert_eq!(holder.id_counter(), 4);
    assert_eq!(holder.entities()[2].attack_distance(), 600);
    assert_eq!(holder.entities()[0].attack_distance(), 8000);
    assert_eq!(holder.entities()[0].seeing_distance(), 15000);
}

#[test]
fn building_marks_cells() {
    let mut map = GameMap::new(10, 10);
    let mut holder = EntityHolder::new();
    holder.add_new_building(&mut map, (8, 2), 0);
    assert_eq!(map.get_at_second_level(8, 2), SecondLevelType::Building);
    assert_eq!(map.get_at_second_level(9, 4), SecondLevelType::Building);
    assert_eq!(map.get_at_second_level(7, 2), SecondLevelType::Empty);
    assert_eq!(map.get_at_second_level(8, 5), SecondLevelType::Empty);
    assert_eq!(holder.buildings().len(), 1);
    assert_eq!(holder.buildings()[0].x(), 8);
    assert_eq!(holder.buildings()[0].width(), 3);
}

#[test]
fn events_drain_last_in_first_out() {
    let map = GameMap::new(10, 10);
    let mut game = GameState::new(map);
    game.dispatch_event(GameEvent::SetMapPoint { location: (1, 1), ground_type: GroundType::Water });
    game.dispatch_event(GameEvent::SetMapPoint { location: (1, 1), ground_type: GroundType::Sand });
    game.dispatch_event(GameEvent::InsertUnit {
        location: Point::new(3500, 3500),
        team_id: 2,
        unit_type: EntityType::Meelee,
    });
    assert_eq!(game.pending_events(), 3);
    game.do_tick();
    assert_eq!(game.tick(), 1);
    assert_eq!(game.pending_events(), 0);
    assert_eq!(game.map().get_at(1, 1), GroundType::Water);
    assert_eq!(game.entity_holder().entities().len(), 1);
    assert_eq!(game.entity_holder().entities()[0].team_id(), 2);
}

#[test]
fn out_of_world_order_is_dropped() {
    let map = GameMap::new(10, 10);
    let mut holder = EntityHolder::new();
    holder.add_new_entity(1500, 1500, 0);
    holder.order_entities(&map, Task::Move { point: Point::new(i64::MAX, 0) }, &vec![0]);
    assert!(holder.entities()[0].path().is_empty());
    assert!(holder.debug_search_tree().is_none());
}

#[test]
fn restore_checks_invariants() {
    let path = vec![Point::new(1500, 1500), Point::new(2500, 2500)];
    let task = Task::Move { point: Point::new(2500, 2500) };
    let e = Entity::restore(Point::new(1200, 1300), 9, EntityType::Ranged, 1, path.clone(), 3, 1, 150, 10, None, None, task)
        .expect("valid unit");
    assert_eq!(e.waypoint_index(), 1);
    assert_eq!(e.hp(), 150);
    assert_eq!(e.cooldown(), 10);
    assert_eq!(e.path(), &path);
    assert!(Entity::restore(Point::new(0, 0), 1, EntityType::Peasant, 2, path.clone(), 0, 0, 10, 0, None, None, task).is_none());
    assert!(Entity::restore(Point::new(0, 0), 1, EntityType::Peasant, 0, vec![], 0, 0, 10, 0, None, None, task).is_none());
    assert!(Entity::restore(Point::new(0, 0), 1, EntityType::Peasant, 0, vec![], 0, 0, 201, 0, None, None, Task::Idle).is_none());

    let a = Entity::new(1000, 1000, 4, 0, EntityType::Meelee);
    let b = Entity::new(2000, 1000, 2, 0, EntityType::Meelee);
    assert!(EntityHolder::restore(vec![a, b], vec![], vec![], 5).is_none());
    let a = Entity::new(1000, 1000, 2, 0, EntityType::Meelee);
    let b = Entity::new(2000, 1000, 4, 0, EntityType::Meelee);
    let p = Projectile::restore(Point::new(1100, 1000), Point::new(1000, 1000), Point::new(2000, 1000));
    let holder = EntityHolder::restore(vec![a, b], vec![p], vec![], 5).expect("valid holder");
    let game = GameState::restore(77, GameMap::new(5, 5), holder);
    assert_eq!(game.tick(), 77);
    assert_eq!(game.entity_holder().entities().len(), 2);
    assert_eq!(game.entity_holder().projectiles()[0].location(), Point::new(1100, 1000));
}

#[test]
fn closest_visible_enemy_is_tracked() {
    let map = GameMap::new(30, 30);
    let mut holder = EntityHolder::new();
    holder.add_new_entity(5500, 5500, 0);
    holder.add_new_entity(12500, 5500, 1);
    holder.add_new_entity(9500, 5500, 1);
    holder.add_new_entity(5500, 8500, 0);
    holder.entities_interact_with_each_other(&map);
    assert_eq!(holder.entities()[0].closest_seen_enemy_id(), Some(2));
    assert_eq!(holder.entities()[0].closest_seen_enemy_point(), Some(Point::new(9500, 5500)));
    assert_eq!(holder.entities()[1].closest_seen_enemy_id(), Some(0));
}

#[test]
fn queued_spawns_come_out_newest_first() {
    let mut game = GameState::new(GameMap::new(10, 10));
    game.dispatch_event(GameEvent::InsertUnit { location: Point::new(1500, 1500), team_id: 0, unit_type: EntityType::Meelee });
    game.dispatch_event(GameEvent::InsertUnit { location: Point::new(5500, 5500), team_id: 1, unit_type: EntityType::Peasant });
    game.do_tick();
    assert_eq!(game.tick(), 1);
    assert_eq!(game.pending_events(), 0);
    let es = game.entity_holder().entities();
    assert_eq!(es.len(), 2);
    assert_eq!((es[0].id(), es[0].location(), es[0].entity_type()), (0, Point::new(5500, 5500), EntityType::Peasant));
    assert_eq!((es[1].id(), es[1].location(), es[1].entity_type()), (1, Point::new(1500, 1500), EntityType::Meelee));
}

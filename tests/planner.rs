use rts_core::map::{GameMap, GroundType, SecondLevelType};
use rts_core::path_finder::{build_search_tree, cell_path_to_points};
use rts_core::geometry::Point;

fn step_cost(a: (i32, i32), b: (i32, i32)) -> u64 {
    if a.0 != b.0 && a.1 != b.1 {
        1414
    } else {
        1000
    }
}

fn path_cost(path: &[(i32, i32)]) -> u64 {
    path.windows(2).map(|w| step_cost(w[0], w[1])).sum()
}

/// Plain Dijkstra over the same moves, for comparison.
fn shortest_cost(map: &GameMap, from: (i32, i32), to: (i32, i32)) -> Option<u64> {
    let w = map.width() as i32;
    let h = map.height() as i32;
    let idx = |c: (i32, i32)| (c.0 + c.1 * w) as usize;
    let mut dist = vec![u64::MAX; (w * h) as usize];
    let mut done = vec![false; (w * h) as usize];
    dist[idx(from)] = 0;
    loop {
        let mut best: Option<(i32, i32)> = None;
        for y in 0..h {
            for x in 0..w {
                let c = (x, y);
                if !done[idx(c)] && dist[idx(c)] != u64::MAX {
                    if best.map_or(true, |b| dist[idx(c)] < dist[idx(b)]) {
                        best = Some(c);
                    }
                }
            }
        }
        let c = match best {
            Some(c) => c,
            None => return None,
        };
        if c == to {
            return Some(dist[idx(c)]);
        }
        done[idx(c)] = true;
        for dx in -1..=1 {
            for dy in -1..=1 {
                if dx == 0 && dy == 0 {
                    continue;
                }
                let t = (c.0 + dx, c.1 + dy);
                if !map.point_moveable(t) {
                    continue;
                }
                if dx != 0 && dy != 0
                    && !(map.point_moveable((c.0 + dx, c.1)) && map.point_moveable((c.0, c.1 + dy)))
                {
                    continue;
                }
                let nd = dist[idx(c)] + step_cost(c, t);
                if nd < dist[idx(t)] {
                    dist[idx(t)] = nd;
                }
            }
        }
    }
}

fn check_links(map: &GameMap, path: &[(i32, i32)]) {
    for w in path.windows(2) {
        let (a, b) = (w[0], w[1]);
        assert!((a.0 - b.0).abs() <= 1 && (a.1 - b.1).abs() <= 1 && a != b);
        assert!(map.point_moveable(b) || b == *path.last().unwrap());
    }
}

#[test]
fn open_grid_paths_are_shortest() {
    let map = GameMap::new(8, 8);
    let goals = [(7, 7), (0, 0), (3, 6), (6, 1)];
    let starts = [(0, 0), (5, 2), (1, 6), (7, 7)];
    for &goal in goals.iter() {
        for &start in starts.iter() {
            let tree = build_search_tree(&map, goal, &vec![start]);
            let path = tree.path_from(&map, start);
            assert_eq!(*path.last().unwrap(), goal);
            check_links(&map, &path);
            assert_eq!(Some(path_cost(&path)), shortest_cost(&map, start, goal));
        }
    }
}

#[test]
fn small_grid_with_obstacles_paths_are_shortest() {
    let mut map = GameMap::new(7, 7);
    for y in 1..6 {
        map.set(3, y, GroundType::Water);
    }
    map.set_second_layer(5, 2, SecondLevelType::Tree);
    let start = (1, 3);
    let goal = (5, 4);
    let tree = build_search_tree(&map, goal, &vec![start]);
    let path = tree.path_from(&map, start);
    assert_eq!(path[0], start);
    assert_eq!(*path.last().unwrap(), goal);
    check_links(&map, &path);
    assert_eq!(Some(path_cost(&path)), shortest_cost(&map, start, goal));
}

#[test]
fn enclosed_start_gives_single_cell_path() {
    let mut map = GameMap::new(10, 10);
    for dx in -1..=1 {
        for dy in -1..=1 {
            if dx != 0 || dy != 0 {
                map.set(4 + dx, 4 + dy, GroundType::Rock);
                map.set_second_layer(4 + dx, 4 + dy, SecondLevelType::Building);
            }
        }
    }
    let tree = build_search_tree(&map, (9, 9), &vec![(4, 4)]);
    assert!(!tree.contains(&map, (4, 4)));
    assert!(!tree.exhausted());
    assert_eq!(tree.path_from(&map, (4, 4)), vec![(4, 4)]);
}

#[test]
fn open_map_diagonal_scenario() {
    let map = GameMap::new(20, 20);
    let tree = build_search_tree(&map, (18, 18), &vec![(2, 2)]);
    assert!(tree.len() <= 400);
    assert!(!tree.exhausted());
    let path = tree.path_from(&map, (2, 2));
    assert_eq!(path.len(), 17);
    let cost = path_cost(&path);
    assert!(cost >= 22_500 && cost <= 22_700, "cost {}", cost);
}

#[test]
fn wall_separates_halves() {
    let mut map = GameMap::new(20, 20);
    for y in 0..20 {
        map.set(10, y, GroundType::Water);
    }
    let tree = build_search_tree(&map, (18, 18), &vec![(2, 2)]);
    assert!(!tree.exhausted());
    assert!(!tree.contains(&map, (2, 2)));
    assert_eq!(tree.path_from(&map, (2, 2)), vec![(2, 2)]);
    // Everything reached lies on the goal's side.
    for x in 0..10 {
        for y in 0..20 {
            assert!(!tree.contains(&map, (x, y)));
        }
    }
}

#[test]
fn several_starts_share_one_search() {
    let map = GameMap::new(12, 12);
    let starts = vec![(0, 0), (11, 0), (0, 11)];
    let tree = build_search_tree(&map, (6, 6), &starts);
    for s in starts.iter() {
        assert!(tree.contains(&map, *s));
        let path = tree.path_from(&map, *s);
        assert_eq!(*path.last().unwrap(), (6, 6));
        check_links(&map, &path);
    }
    assert_eq!(tree.get(&map, (6, 6)), Some(None));
    assert_eq!(tree.goal(), (6, 6));
}

#[test]
fn goal_only_when_no_starts() {
    let map = GameMap::new(5, 5);
    let tree = build_search_tree(&map, (2, 2), &vec![]);
    assert_eq!(tree.len(), 1);
    assert_eq!(tree.get(&map, (2, 3)), None);
}

#[test]
fn cell_path_becomes_centred_waypoints() {
    let pts = cell_path_to_points(&vec![(1, 2), (2, 3)], Point::new(3210, 4321));
    assert_eq!(pts, vec![Point::new(1500, 2500), Point::new(2500, 3500), Point::new(3210, 4321)]);
}

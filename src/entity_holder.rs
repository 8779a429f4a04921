use vstd::prelude::*;
use crate::geometry::{Point, COORD_LIMIT};
use crate::map::{GameMap, SecondLevelType};
use crate::entity::{Entity, EntityType, Task, SEEING_DISTANCE, ai_outcome, same_but_hp, separation_push, separation_vector};
use crate::projectile::Projectile;
use crate::building::{Building, BUILDING_SIZE};
use crate::path_finder::{
    SearchTree,
    build_search_tree,
    cell_path_to_points,
    cell_center,
    steps_toward_goal,
};
use crate::spatial::SpatialIndex;

verus! {

/// Damage a landing projectile deals.
pub const PROJECTILE_DAMAGE: u32 = 12;

/// A landing projectile hits a unit closer than this.
pub const HIT_RADIUS: i64 = 500;

/// Ids strictly increase along the list.
pub open spec fn ids_increasing(s: Seq<Entity>) -> bool {
    forall|i: int, j: int| 0 <= i < j < s.len() ==> s[i].id_spec() < s[j].id_spec()
}

/// The roles of `a` and `b` agree: all but position, orientation and the
/// tracked enemy.
pub open spec fn same_role(a: Entity, b: Entity) -> bool {
    &&& a.id_spec() == b.id_spec()
    &&& a.type_spec() == b.type_spec()
    &&& a.team_spec() == b.team_spec()
    &&& a.hp_spec() == b.hp_spec()
    &&& a.cooldown_spec() == b.cooldown_spec()
    &&& a.cursor() == b.cursor()
    &&& a.path_spec() == b.path_spec()
    &&& a.task_spec() == b.task_spec()
}

/// Unit `b` is an enemy of `a`, truly within seeing distance of it and in
/// its line of sight.
pub open spec fn sees_enemy(m: GameMap, a: Entity, b: Entity) -> bool {
    &&& a.team_spec() != b.team_spec()
    &&& a.location_spec().dist_to_spec(b.location_spec()).norm_sq() <= SEEING_DISTANCE * SEEING_DISTANCE
    &&& m.sight(a.location_spec(), b.location_spec())
}

/// Unit `b` is an enemy of `a` that `a` may track: within seeing distance
/// (rounded) and in its line of sight.
pub open spec fn candidate(m: GameMap, a: Entity, b: Entity) -> bool {
    &&& a.team_spec() != b.team_spec()
    &&& a.location_spec().dist_to_spec(b.location_spec()).len_spec() <= SEEING_DISTANCE
    &&& m.sight(a.location_spec(), b.location_spec())
}

/// Rounded distance from unit `a` to point `p`.
pub open spec fn dist_to(a: Entity, p: Point) -> int {
    a.location_spec().dist_to_spec(p).len_spec()
}

/// What unit `e` (the `k`-th of `units` after the pass) tracks: the spot
/// and id of an enemy it may track, with no enemy it truly sees closer; or
/// nothing, when it truly sees no enemy.
pub open spec fn targeting(m: GameMap, units: Seq<Entity>, k: int, e: Entity) -> bool {
    match (e.enemy_point_spec(), e.enemy_id_spec()) {
        (Some(p), Some(id)) => {
            &&& exists|j: int|
                #![trigger units[j]]
                0 <= j < units.len() && units[j].location_spec() == p && units[j].id_spec() == id
                    && candidate(m, units[k], units[j])
            &&& forall|j: int|
                0 <= j < units.len() && sees_enemy(m, units[k], #[trigger] units[j]) ==> dist_to(units[k], p)
                    <= dist_to(units[k], units[j].location_spec())
        },
        (None, None) => forall|j: int| 0 <= j < units.len() ==> !sees_enemy(m, units[k], #[trigger] units[j]),
        _ => false,
    }
}

/// The projectiles among `shots`, in order.
pub open spec fn fired(shots: Seq<Option<Projectile>>) -> Seq<Projectile>
    decreases shots.len(),
{
    if shots.len() == 0 {
        Seq::empty()
    } else {
        fired(shots.drop_last()) + match shots.last() {
            Some(p) => seq![p],
            None => Seq::empty(),
        }
    }
}

/// Every unit `olds[k]` took its own decisions (see `ai_outcome`), becoming
/// `news[k]` and firing `shots[k]`.
pub open spec fn ai_pass(m: GameMap, olds: Seq<Entity>, news: Seq<Entity>, shots: Seq<Option<Projectile>>) -> bool {
    &&& news.len() == olds.len()
    &&& shots.len() == olds.len()
    &&& forall|k: int| 0 <= k < olds.len() ==> ai_outcome(m, #[trigger] olds[k], news[k], shots[k])
}

/// The units of `s` that still have hit points, in order.
pub open spec fn living(s: Seq<Entity>) -> Seq<Entity>
    decreases s.len(),
{
    if s.len() == 0 {
        Seq::empty()
    } else {
        living(s.drop_last()) + if s.last().hp_spec() > 0 {
            seq![s.last()]
        } else {
            Seq::empty()
        }
    }
}

/// Terrain correction of every unit (see `Entity::interact_with_map`).
pub open spec fn map_pass(m: GameMap, olds: Seq<Entity>, news: Seq<Entity>) -> bool {
    &&& news.len() == olds.len()
    &&& forall|k: int|
        0 <= k < olds.len() ==> {
            let o = #[trigger] olds[k];
            let n = news[k];
            &&& n.same_but_place(&o)
            &&& n.orientation_spec() == o.orientation_spec()
            &&& n.location_spec() == crate::entity::wall_clamped(m, crate::entity::relocated(m, o.location_spec()))
        }
}

/// Where unit `me` ends after being pushed, in turn, by the units of
/// `units` at positions `found` (see `separation_push`), all judged on
/// `me`'s and their positions at the start.
pub open spec fn pushed(me: Entity, units: Seq<Entity>, found: Seq<int>) -> Point
    decreases found.len(),
{
    if found.len() == 0 {
        me.location_spec()
    } else {
        let o = units[found.last()];
        pushed(me, units, found.drop_last()).added_spec(
            separation_push(me.location_spec(), me.id_spec(), o.location_spec(), o.id_spec()),
        )
    }
}

/// `found` lists, once each, exactly the other units standing in the
/// cells the index looks at around the `k`-th unit.
pub open spec fn found_near(units: Seq<Entity>, k: int, found: Seq<int>) -> bool {
    &&& found.no_duplicates()
    &&& forall|q: int| 0 <= q < found.len() ==> 0 <= #[trigger] found[q] < units.len()
    &&& forall|j: int|
        0 <= j < units.len() ==> (found.contains(j) <==> j != k && crate::spatial::in_query_box(
            #[trigger] units[j].location_spec().cell(),
            units[k].location_spec(),
            SEEING_DISTANCE as int,
        ))
}

/// Pairwise interaction: every unit keeps its role, tracks the closest
/// enemy it sees (see `targeting`) and is pushed by each other unit the
/// index finds near it (see `pushed`), all judged on positions at the
/// start.
pub open spec fn interact_pass(m: GameMap, olds: Seq<Entity>, news: Seq<Entity>) -> bool {
    &&& news.len() == olds.len()
    &&& forall|k: int| 0 <= k < olds.len() ==> same_role(#[trigger] news[k], olds[k])
    &&& forall|k: int| 0 <= k < olds.len() ==> targeting(m, olds, k, #[trigger] news[k])
    &&& forall|k: int| 0 <= k < olds.len() ==> pushed_ok(olds, k, (#[trigger] news[k]).location_spec())
}

/// `loc` is where the `k`-th unit ends once pushed by the other units
/// found near it (see `found_near` and `pushed`).
pub open spec fn pushed_ok(units: Seq<Entity>, k: int, loc: Point) -> bool {
    exists|found: Seq<int>| #[trigger] found_near(units, k, found) && loc == pushed(units[k], units, found)
}

/// In the interaction pass, of two units standing at one spot only the one
/// with the lower id moves (by `coincident_push`); the other stays put.
pub proof fn lemma_coincident_pair_step(m: GameMap, olds: Seq<Entity>, news: Seq<Entity>)
    requires
        olds.len() == 2,
        olds[0].wf(),
        olds[1].wf(),
        olds[0].location_spec() == olds[1].location_spec(),
        olds[0].id_spec() < olds[1].id_spec(),
        interact_pass(m, olds, news),
    ensures
        news[0].location_spec() == olds[0].location_spec().added_spec(crate::entity::coincident_push()),
        news[1].location_spec() == olds[1].location_spec(),
{
    let p = olds[0].location_spec();
    assert(pushed_ok(olds, 0, news[0].location_spec()));
    assert(pushed_ok(olds, 1, news[1].location_spec()));
    reveal_with_fuel(pushed, 2);
    assert(p.dist_to_spec(p).x == 0);
    crate::spatial::lemma_query_box_covers_disc(p, SEEING_DISTANCE as int, p);
    crate::entity::lemma_coincident_units_one_moves(p, olds[0].id_spec(), olds[1].id_spec());
    lemma_single_found(olds, news, 0, 1);
    lemma_single_found(olds, news, 1, 0);
    let f0 = choose|found: Seq<int>| #[trigger] found_near(olds, 0, found) && news[0].location_spec() == pushed(olds[0], olds, found);
    let f1 = choose|found: Seq<int>| #[trigger] found_near(olds, 1, found) && news[1].location_spec() == pushed(olds[1], olds, found);
    assert(f0 == seq![1int]);
    assert(f1 == seq![0int]);
    assert(f0.drop_last() =~= Seq::<int>::empty());
    assert(f1.drop_last() =~= Seq::<int>::empty());
    assert(f0.last() == 1);
    assert(f1.last() == 0);
}

/// With two units in one cell, each finds exactly the other.
proof fn lemma_single_found(olds: Seq<Entity>, news: Seq<Entity>, k: int, other: int)
    requires
        olds.len() == 2,
        k == 0 && other == 1 || k == 1 && other == 0,
        olds[0].location_spec() == olds[1].location_spec(),
        crate::spatial::in_query_box(olds[0].location_spec().cell(), olds[0].location_spec(), SEEING_DISTANCE as int),
        pushed_ok(olds, k, news[k].location_spec()),
    ensures
        forall|found: Seq<int>| #[trigger] found_near(olds, k, found) ==> found == seq![other],
{
    assert forall|found: Seq<int>| #[trigger] found_near(olds, k, found) implies found == seq![other] by {
        assert(found.contains(other));
        assert forall|q: int| 0 <= q < found.len() implies found[q] == other by {
            assert(found.contains(found[q]));
        }
        if found.len() >= 2 {
            assert(found[0] == found[1]);
        }
        assert(found =~= seq![other]);
    }
}

/// `pushed` reads only positions and ids.
proof fn lemma_pushed_same(me1: Entity, me2: Entity, u1: Seq<Entity>, u2: Seq<Entity>, found: Seq<int>)
    requires
        me1.location_spec() == me2.location_spec(),
        me1.id_spec() == me2.id_spec(),
        u1.len() == u2.len(),
        forall|j: int| 0 <= j < u1.len() ==> (#[trigger] u1[j]).location_spec() == u2[j].location_spec() && u1[j].id_spec() == u2[j].id_spec(),
        forall|q: int| 0 <= q < found.len() ==> 0 <= #[trigger] found[q] < u1.len(),
    ensures
        pushed(me1, u1, found) == pushed(me2, u2, found),
    decreases found.len(),
{
    if found.len() > 0 {
        lemma_pushed_same(me1, me2, u1, u2, found.drop_last());
        assert(u1[found.last()].location_spec() == u2[found.last()].location_spec());
    }
}

/// The projectile step: `ps` advance, the landed ones hit (see `hits`)
/// and are dropped, leaving `ps2`.
pub open spec fn proj_pass(olds: Seq<Entity>, ps: Seq<Projectile>, news: Seq<Entity>, ps2: Seq<Projectile>) -> bool {
    &&& ps2 == in_flight(ps)
    &&& news.len() == olds.len()
    &&& forall|k: int|
        0 <= k < olds.len() ==> {
            let o = #[trigger] olds[k];
            let n = news[k];
            &&& same_but_hp(n, o)
            &&& n.hp_spec() == floor_zero(o.hp_spec() - PROJECTILE_DAMAGE * hits(olds, ps, k))
        }
}

/// One tick of the units: decisions (`ai_pass`), pairwise interaction
/// (`interact_pass`), terrain correction (`map_pass`), projectiles
/// (`proj_pass`), then removal of the dead, from units `e0` and
/// projectiles `p0` to units `e5` and projectiles `p5`.
pub open spec fn tick_pass(
    m: GameMap,
    e0: Seq<Entity>,
    p0: Seq<Projectile>,
    e1: Seq<Entity>,
    shots: Seq<Option<Projectile>>,
    e2: Seq<Entity>,
    e3: Seq<Entity>,
    e4: Seq<Entity>,
    e5: Seq<Entity>,
    p5: Seq<Projectile>,
) -> bool {
    &&& ai_pass(m, e0, e1, shots)
    &&& interact_pass(m, e1, e2)
    &&& map_pass(m, e2, e3)
    &&& proj_pass(e3, p0 + fired(shots), e4, p5)
    &&& e5 == living(e4)
}

/// `v`, or zero if it is negative.
pub open spec fn floor_zero(v: int) -> int {
    if v > 0 {
        v
    } else {
        0
    }
}

/// A unit stands closer than `HIT_RADIUS` to `spot`.
pub open spec fn within_hit(e: Entity, spot: Point) -> bool {
    e.location_spec().dist_to_spec(spot).len_spec() < HIT_RADIUS
}

/// The first unit from position `k` on that a projectile landing at
/// `spot` hits.
pub open spec fn first_hit(units: Seq<Entity>, spot: Point, k: int) -> Option<int>
    decreases units.len() - k,
{
    if k < 0 || k >= units.len() {
        None
    } else if within_hit(units[k], spot) {
        Some(k)
    } else {
        first_hit(units, spot, k + 1)
    }
}

proof fn lemma_first_hit(units: Seq<Entity>, spot: Point, start: int, k: int)
    requires
        0 <= start <= k < units.len(),
        within_hit(units[k], spot),
        forall|j: int| 0 <= j < k ==> !within_hit(#[trigger] units[j], spot),
    ensures
        first_hit(units, spot, start) == Some(k),
    decreases k - start,
{
    if start < k {
        lemma_first_hit(units, spot, start + 1, k);
    }
}

proof fn lemma_no_hit(units: Seq<Entity>, spot: Point, start: int)
    requires
        0 <= start,
        forall|j: int| 0 <= j < units.len() ==> !within_hit(#[trigger] units[j], spot),
    ensures
        first_hit(units, spot, start) == None::<int>,
    decreases units.len() - start,
{
    if start < units.len() {
        lemma_no_hit(units, spot, start + 1);
    }
}

/// How many of the projectiles `ps`, once advanced, land and hit unit `k`.
pub open spec fn hits(units: Seq<Entity>, ps: Seq<Projectile>, k: int) -> nat
    decreases ps.len(),
{
    if ps.len() == 0 {
        0
    } else {
        let a = ps.last().advanced();
        hits(units, ps.drop_last(), k) + if a.landed() && first_hit(units, a.location_spec(), 0) == Some(k) {
            1nat
        } else {
            0nat
        }
    }
}

/// The projectiles `ps` advanced one tick, without those that landed.
pub open spec fn in_flight(ps: Seq<Projectile>) -> Seq<Projectile>
    decreases ps.len(),
{
    if ps.len() == 0 {
        Seq::empty()
    } else {
        let a = ps.last().advanced();
        in_flight(ps.drop_last()) + if a.landed() {
            Seq::empty()
        } else {
            seq![a]
        }
    }
}

/// The waypoints for a cell path: each cell's centre, then the exact goal.
pub open spec fn route_points(cells: Seq<(i32, i32)>, end: Point) -> Seq<Point> {
    cells.map_values(|c: (i32, i32)| cell_center(c)).push(end)
}

/// The predecessor chain of search tree `t` from `start` to its goal: each
/// cell after the first is the tree's predecessor of the one before, so
/// each step is a legal move.
pub open spec fn planned_route(m: GameMap, t: SearchTree, start: (int, int), cells: Seq<(i32, i32)>) -> bool {
    &&& cells.len() >= 1
    &&& (cells[0].0 as int, cells[0].1 as int) == start
    &&& steps_toward_goal(m, cells)
    &&& (cells.last().0 as int, cells.last().1 as int) == t.goal_spec()
    &&& forall|k: int|
        0 <= k < cells.len() - 1 ==> t.next_toward_goal((#[trigger] cells[k].0 as int, cells[k].1 as int))
            == Some((cells[k + 1].0 as int, cells[k + 1].1 as int))
}

/// What a move order does to one unit `o` (becoming `n`): a selected unit
/// whose cell the search reached gets the task and the route from its cell
/// along the search tree `t`; one whose cell was not reached is stopped;
/// others are untouched.
pub open spec fn move_ordered(
    m: GameMap,
    t: SearchTree,
    task: Task,
    ids: Seq<u32>,
    end: Point,
    o: Entity,
    n: Entity,
) -> bool {
    let start = o.location_spec().cell();
    if ids.contains(o.id_spec()) {
        &&& n.cursor() == 0
        &&& n.location_spec() == o.location_spec()
        &&& n.id_spec() == o.id_spec()
        &&& n.team_spec() == o.team_spec()
        &&& n.hp_spec() == o.hp_spec()
        &&& (!t.exhausted_spec() && !t.closed(m) ==> t.has(start))
        &&& if t.has(start) {
            &&& n.task_spec() == task
            &&& exists|cells: Seq<(i32, i32)>|
                #[trigger] planned_route(m, t, start, cells) && n.path_spec()
                    == route_points(cells, end)
        } else {
            n.task_spec() == Task::Idle && n.path_spec().len() == 0
        }
    } else {
        n == o
    }
}

/// Some selected unit of `units` stands in cell `c`.
pub open spec fn selected_cell(units: Seq<Entity>, ids: Seq<u32>, c: (i32, i32)) -> bool {
    exists|k: int|
        0 <= k < units.len() && ids.contains(units[k].id_spec()) && #[trigger] units[k].location_spec().cell_i32()
            == c
}

/// `starts` lists the cells of the selected units, and only those.
pub open spec fn selection_starts(units: Seq<Entity>, ids: Seq<u32>, starts: Seq<(i32, i32)>) -> bool {
    &&& forall|q: int| 0 <= q < starts.len() ==> selected_cell(units, ids, #[trigger] starts[q])
    &&& forall|k: int|
        0 <= k < units.len() && ids.contains((#[trigger] units[k]).id_spec()) ==> starts.contains(
            units[k].location_spec().cell_i32(),
        )
}

/// What an order does to the holder `o` (becoming `n`) on map `m`: see
/// `order_entities`.
pub open spec fn order_outcome(m: GameMap, task: Task, ids: Seq<u32>, o: EntityHolder, n: EntityHolder) -> bool {
    &&& n.wf()
    &&& n.entities_spec().len() == o.entities_spec().len()
    &&& n.projectiles_spec() == o.projectiles_spec()
    &&& n.buildings_spec() == o.buildings_spec()
    &&& n.id_counter_spec() == o.id_counter_spec()
    &&& match task {
        Task::Move { point } | Task::AttackMove { point } => {
            if point.wf() {
                n.debug_tree_spec() matches Some(t) && t.valid(m) && t.goal_spec()
                    == point.cell() && (exists|starts: Seq<(i32, i32)>|
                    #[trigger] t.settled_in_order(starts) && selection_starts(o.entities_spec(), ids, starts))
                    && (t.exhausted_spec() ==> crate::path_finder::SEARCH_BUDGET <= 8 * t.cells().len()) && (t.exhausted_spec() ==> crate::path_finder::SEARCH_BUDGET
                    <= 8 * (m.width_spec() * m.height_spec() + 1)) && forall|k: int|
                    0 <= k < o.entities_spec().len() ==> {
                        move_ordered(
                            m,
                            t,
                            task,
                            ids,
                            point,
                            #[trigger] o.entities_spec()[k],
                            n.entities_spec()[k],
                        )
                    }
            } else {
                n.entities_spec() == o.entities_spec() && n.debug_tree_spec() == o.debug_tree_spec()
            }
        },
        Task::Idle => forall|k: int|
            0 <= k < o.entities_spec().len() ==> {
                let eo = #[trigger] o.entities_spec()[k];
                let en = n.entities_spec()[k];
                if ids.contains(eo.id_spec()) {
                    en.path_spec().len() == 0 && en.task_spec() == Task::Idle && en.location_spec()
                        == eo.location_spec()
                } else {
                    en == eo
                }
            },
        Task::Gather { .. } => n.entities_spec() == o.entities_spec() && n.debug_tree_spec()
            == o.debug_tree_spec(),
    }
}

/// What spawning a unit of `entity_type` at `(x, y)` for `team_id` does to
/// the holder.
pub open spec fn spawn_outcome(
    x: i64,
    y: i64,
    team_id: u32,
    entity_type: EntityType,
    o: EntityHolder,
    n: EntityHolder,
) -> bool {
    &&& n.wf()
    &&& n.id_counter_spec() == o.id_counter_spec() + 1
    &&& n.entities_spec().len() == o.entities_spec().len() + 1
    &&& n.entities_spec().drop_last() == o.entities_spec()
    &&& n.entities_spec().last().id_spec() == o.id_counter_spec()
    &&& n.entities_spec().last().team_spec() == team_id
    &&& n.entities_spec().last().location_spec() == Point::new_spec(x, y)
    &&& n.entities_spec().last().type_spec() == entity_type
    &&& n.entities_spec().last().hp_spec() == crate::entity::MAX_HP
    &&& n.entities_spec().last().task_spec() == Task::Idle
    &&& n.projectiles_spec() == o.projectiles_spec()
    &&& n.buildings_spec() == o.buildings_spec()
}

/// What placing a building at `location` does to holder and map.
pub open spec fn building_outcome(
    location: (i32, i32),
    o: EntityHolder,
    n: EntityHolder,
    om: GameMap,
    nm: GameMap,
) -> bool {
    &&& n.wf()
    &&& nm.wf()
    &&& n.buildings_spec() == o.buildings_spec().push(Building::new_spec(location))
    &&& n.entities_spec() == o.entities_spec()
    &&& nm.width_spec() == om.width_spec()
    &&& nm.height_spec() == om.height_spec()
    &&& forall|i: int, j: int| #[trigger] nm.ground_at(i, j) == om.ground_at(i, j)
    &&& forall|i: int, j: int| #[trigger]
        nm.overlay_at(i, j) == if om.in_bounds(i, j) && location.0 <= i < location.0 + BUILDING_SIZE
            && location.1 <= j < location.1 + BUILDING_SIZE {
            SecondLevelType::Building
        } else {
            om.overlay_at(i, j)
        }
}

/// What one tick of the units does to the holder (see `entity_ai`).
pub open spec fn tick_outcome(m: GameMap, o: EntityHolder, n: EntityHolder) -> bool {
    &&& n.wf()
    &&& forall|k: int| 0 <= k < n.entities_spec().len() ==> (#[trigger] n.entities_spec()[k]).hp_spec() > 0
    &&& forall|q: int| 0 <= q < n.projectiles_spec().len() ==> !(#[trigger] n.projectiles_spec()[q]).landed()
    &&& exists|e1: Seq<Entity>, shots: Seq<Option<Projectile>>, e2: Seq<Entity>, e3: Seq<Entity>, e4: Seq<Entity>|
        #[trigger] tick_pass(
            m,
            o.entities_spec(),
            o.projectiles_spec(),
            e1,
            shots,
            e2,
            e3,
            e4,
            n.entities_spec(),
            n.projectiles_spec(),
        )
    &&& n.id_counter_spec() == o.id_counter_spec()
    &&& n.buildings_spec() == o.buildings_spec()
}

/// The type a newly spawned unit gets from the id counter.
pub open spec fn spawn_type(counter: u32) -> EntityType {
    if counter % 3 == 0 {
        EntityType::Ranged
    } else if counter % 3 == 1 {
        EntityType::Peasant
    } else {
        EntityType::Meelee
    }
}

/// All live units (kept in increasing id order), projectiles in flight,
/// buildings, and the per-tick spatial index.
pub struct EntityHolder {
    entities: Vec<Entity>,
    projectiles: Vec<Projectile>,
    buildings: Vec<Building>,
    id_counter: u32,
    entity_location_map: SpatialIndex,
    debug_search_tree: Option<SearchTree>,
    debug_entity_interaction_count: u32,
}

fn id_selected(ids: &Vec<u32>, id: u32) -> (r: bool)
    ensures
        r == ids@.contains(id),
{
    let mut k: usize = 0;
    while k < ids.len()
        invariant
            k <= ids@.len(),
            forall|q: int| 0 <= q < k ==> ids@[q] != id,
        decreases ids@.len() - k,
    {
        if ids[k] == id {
            return true;
        }
        k = k + 1;
    }
    false
}

fn cell_listed(cells: &Vec<(i32, i32)>, c: (i32, i32)) -> (r: bool)
    ensures
        r == cells@.contains(c),
{
    let mut k: usize = 0;
    while k < cells.len()
        invariant
            k <= cells@.len(),
            forall|q: int| 0 <= q < k ==> cells@[q] != c,
        decreases cells@.len() - k,
    {
        if cells[k].0 == c.0 && cells[k].1 == c.1 {
            return true;
        }
        k = k + 1;
    }
    false
}

/// A vector truly within `SEEING_DISTANCE` has a rounded length within it too.
proof fn lemma_len_within(v: crate::geometry::Vector)
    requires
        v.wf(),
        v.norm_sq() <= SEEING_DISTANCE * SEEING_DISTANCE,
    ensures
        v.len_spec() <= SEEING_DISTANCE,
{
    let n = v.norm_sq();
    assert(n >= 0) by (nonlinear_arith)
        requires
            n == v.x * v.x + v.y * v.y,
    ;
    let r = crate::geometry::isqrt_exists(n);
    crate::geometry::lemma_isqrt_unique(n, r);
    assert(r <= SEEING_DISTANCE) by (nonlinear_arith)
        requires
            r * r <= n,
            n <= SEEING_DISTANCE * SEEING_DISTANCE,
            r >= 0,
            SEEING_DISTANCE == 15000,
    ;
}

impl EntityHolder {
    pub closed spec fn entities_spec(&self) -> Seq<Entity> {
        self.entities@
    }

    pub closed spec fn projectiles_spec(&self) -> Seq<Projectile> {
        self.projectiles@
    }

    pub closed spec fn buildings_spec(&self) -> Seq<Building> {
        self.buildings@
    }

    pub closed spec fn id_counter_spec(&self) -> u32 {
        self.id_counter
    }

    pub closed spec fn debug_tree_spec(&self) -> Option<SearchTree> {
        self.debug_search_tree
    }

    pub closed spec fn index_spec(&self) -> SpatialIndex {
        self.entity_location_map
    }

    /// Every unit and projectile well formed, ids increasing and below the
    /// id counter.
    pub open spec fn wf(&self) -> bool {
        &&& forall|k: int| 0 <= k < self.entities_spec().len() ==> (#[trigger] self.entities_spec()[k]).wf()
        &&& ids_increasing(self.entities_spec())
        &&& forall|k: int|
            0 <= k < self.entities_spec().len() ==> (#[trigger] self.entities_spec()[k]).id_spec()
                < self.id_counter_spec()
        &&& forall|k: int|
            0 <= k < self.projectiles_spec().len() ==> (#[trigger] self.projectiles_spec()[k]).wf()
        &&& self.index_spec().wf()
    }

    pub fn new() -> (r: EntityHolder)
        ensures
            r.wf(),
            r.entities_spec().len() == 0,
            r.projectiles_spec().len() == 0,
            r.buildings_spec().len() == 0,
            r.id_counter_spec() == 0,
            r.debug_tree_spec().is_none(),
    {
        EntityHolder {
            entities: Vec::new(),
            projectiles: Vec::new(),
            buildings: Vec::new(),
            id_counter: 0,
            entity_location_map: SpatialIndex::new(),
            debug_search_tree: None,
            debug_entity_interaction_count: 0,
        }
    }

    /// A holder with the given units, projectiles, buildings and id
    /// counter, if they satisfy its invariants (see `wf`); the spatial
    /// index starts empty. For rebuilding saved state.
    pub fn restore(
        entities: Vec<Entity>,
        projectiles: Vec<Projectile>,
        buildings: Vec<Building>,
        id_counter: u32,
    ) -> (r: Option<EntityHolder>)
        ensures
            r.is_some() <==> {
                &&& forall|k: int| 0 <= k < entities@.len() ==> (#[trigger] entities@[k]).wf()
                &&& ids_increasing(entities@)
                &&& forall|k: int| 0 <= k < entities@.len() ==> (#[trigger] entities@[k]).id_spec() < id_counter
                &&& forall|k: int| 0 <= k < projectiles@.len() ==> (#[trigger] projectiles@[k]).wf()
            },
            r matches Some(h) ==> {
                &&& h.wf()
                &&& h.entities_spec() == entities@
                &&& h.projectiles_spec() == projectiles@
                &&& h.buildings_spec() == buildings@
                &&& h.id_counter_spec() == id_counter
                &&& h.debug_tree_spec().is_none()
            },
    {
        let n = entities.len();
        let mut k: usize = 0;
        while k < n
            invariant
                n == entities@.len(),
                k <= n,
                forall|q: int| 0 <= q < k ==> (#[trigger] entities@[q]).wf() && entities@[q].id_spec() < id_counter,
                forall|a: int, b: int| 0 <= a < b < k ==> entities@[a].id_spec() < entities@[b].id_spec(),
            decreases n - k,
        {
            if !entities[k].is_well_formed() || entities[k].id() >= id_counter {
                return None;
            }
            if k > 0 && entities[k - 1].id() >= entities[k].id() {
                return None;
            }
            proof {
                assert forall|a: int, b: int| 0 <= a < b < k + 1 implies entities@[a].id_spec() < entities@[b].id_spec() by {
                    if b == k && a < k - 1 {
                        assert(entities@[a].id_spec() < entities@[k - 1].id_spec());
                    }
                }
            }
            k = k + 1;
        }
        let m = projectiles.len();
        let mut k: usize = 0;
        while k < m
            invariant
                m == projectiles@.len(),
                k <= m,
                forall|q: int| 0 <= q < k ==> (#[trigger] projectiles@[q]).wf(),
            decreases m - k,
        {
            let p = &projectiles[k];
            if !crate::entity::point_in_world(&p.location()) || !crate::entity::point_in_world(
                &p.start_point(),
            ) || !crate::entity::point_in_world(&p.end_point()) {
                return None;
            }
            k = k + 1;
        }
        Some(
            EntityHolder {
                entities,
                projectiles,
                buildings,
                id_counter,
                entity_location_map: SpatialIndex::new(),
                debug_search_tree: None,
                debug_entity_interaction_count: 0,
            },
        )
    }

    pub fn entities(&self) -> (r: &Vec<Entity>)
        ensures
            r@ == self.entities_spec(),
    {
        &self.entities
    }

    pub fn projectiles(&self) -> (r: &Vec<Projectile>)
        ensures
            r@ == self.projectiles_spec(),
    {
        &self.projectiles
    }

    pub fn buildings(&self) -> (r: &Vec<Building>)
        ensures
            r@ == self.buildings_spec(),
    {
        &self.buildings
    }

    pub fn id_counter(&self) -> (r: u32)
        ensures
            r == self.id_counter_spec(),
    {
        self.id_counter
    }

    pub fn debug_search_tree(&self) -> (r: &Option<SearchTree>)
        ensures
            *r == self.debug_tree_spec(),
    {
        &self.debug_search_tree
    }

    /// Pairs looked at in the last interaction pass (saturating).
    pub closed spec fn interaction_count_spec(&self) -> u32 {
        self.debug_entity_interaction_count
    }

    pub fn debug_entity_interaction_count(&self) -> (r: u32)
        ensures
            r == self.interaction_count_spec(),
    {
        self.debug_entity_interaction_count
    }

    pub fn entity_location_map(&self) -> (r: &SpatialIndex)
        ensures
            *r == self.index_spec(),
    {
        &self.entity_location_map
    }

    /// Spawns a unit of `entity_type` at `(x, y)` with the next id.
    pub fn spawn_entity(&mut self, x: i64, y: i64, team_id: u32, entity_type: EntityType)
        requires
            old(self).wf(),
            Point::new_spec(x, y).wf(),
            old(self).id_counter_spec() < u32::MAX,
        ensures
            final(self).wf(),
            final(self).id_counter_spec() == old(self).id_counter_spec() + 1,
            final(self).entities_spec().len() == old(self).entities_spec().len() + 1,
            final(self).entities_spec().drop_last() == old(self).entities_spec(),
            ({
                let e = final(self).entities_spec().last();
                &&& e.id_spec() == old(self).id_counter_spec()
                &&& e.team_spec() == team_id
                &&& e.location_spec() == Point::new_spec(x, y)
                &&& e.type_spec() == entity_type
                &&& e.hp_spec() == crate::entity::MAX_HP
                &&& e.task_spec() == Task::Idle
            }),
            final(self).projectiles_spec() == old(self).projectiles_spec(),
            final(self).buildings_spec() == old(self).buildings_spec(),
    {
        let new_entity = Entity::new(x, y, self.id_counter, team_id, entity_type);
        let ghost before = self.entities@;
        self.entities.push(new_entity);
        self.id_counter = self.id_counter + 1;
        assert(self.entities@.drop_last() =~= old(self).entities@);
        assert(self.entities@ == before.push(new_entity));
        assert forall|k: int| 0 <= k < self.entities_spec().len() implies (#[trigger] self.entities_spec()[k]).wf() && self.entities_spec()[k].id_spec() < self.id_counter_spec() by {
            if k < before.len() {
                assert(self.entities_spec()[k] == before[k]);
            }
        }
        assert forall|a: int, b: int| 0 <= a < b < self.entities@.len() implies self.entities@[a].id_spec() < self.entities@[b].id_spec() by {
            assert(self.entities@[a] == before[a]);
            if b < before.len() {
                assert(self.entities@[b] == before[b]);
            }
        }
        assert(ids_increasing(self.entities_spec()));
        assert(self.projectiles_spec() == old(self).projectiles_spec());
        assert(self.index_spec() == old(self).index_spec());
    }

    /// Spawns a unit at `(x, y)` with the next id; its type cycles with
    /// the id counter (ranged, peasant, melee).
    pub fn add_new_entity(&mut self, x: i64, y: i64, team_id: u32)
        requires
            old(self).wf(),
            Point::new_spec(x, y).wf(),
            old(self).id_counter_spec() < u32::MAX,
        ensures
            spawn_outcome(x, y, team_id, spawn_type(old(self).id_counter_spec()), *old(self), *final(self)),
    {
        let entity_type = if self.id_counter % 3 == 0 {
            EntityType::Ranged
        } else if self.id_counter % 3 == 1 {
            EntityType::Peasant
        } else {
            EntityType::Meelee
        };
        self.spawn_entity(x, y, team_id, entity_type);
    }

    /// Places a building with its top-left cell at `location` and marks its
    /// cells on the map.
    pub fn add_new_building(&mut self, map: &mut GameMap, location: (i32, i32), team_id: u32)
        requires
            old(self).wf(),
            old(map).wf(),
            location.0 <= i32::MAX - BUILDING_SIZE,
            location.1 <= i32::MAX - BUILDING_SIZE,
        ensures
            final(self).wf(),
            final(map).wf(),
            final(self).buildings_spec() == old(self).buildings_spec().push(Building::new_spec(location)),
            final(self).entities_spec() == old(self).entities_spec(),
            final(map).width_spec() == old(map).width_spec(),
            final(map).height_spec() == old(map).height_spec(),
            forall|i: int, j: int| #[trigger]
                final(map).ground_at(i, j) == old(map).ground_at(i, j),
            forall|i: int, j: int| #[trigger]
                final(map).overlay_at(i, j) == if old(map).in_bounds(i, j) && location.0 <= i
                    < location.0 + BUILDING_SIZE && location.1 <= j < location.1 + BUILDING_SIZE {
                    SecondLevelType::Building
                } else {
                    old(map).overlay_at(i, j)
                },
    {
        let building = Building::new(location);
        let mut x: i32 = building.x();
        while x < building.x() + building.width()
            invariant
                self.wf(),
                *self == *old(self),
                map.wf(),
                building.x_spec() == location.0,
                building.y_spec() == location.1,
                location.0 <= x <= location.0 + BUILDING_SIZE,
                location.0 <= i32::MAX - BUILDING_SIZE,
                location.1 <= i32::MAX - BUILDING_SIZE,
                map.width_spec() == old(map).width_spec(),
                map.height_spec() == old(map).height_spec(),
                forall|i: int, j: int| #[trigger] map.ground_at(i, j) == old(map).ground_at(i, j),
                forall|i: int, j: int| #[trigger]
                    map.overlay_at(i, j) == if old(map).in_bounds(i, j) && location.0 <= i < x
                        && location.1 <= j < location.1 + BUILDING_SIZE {
                        SecondLevelType::Building
                    } else {
                        old(map).overlay_at(i, j)
                    },
            decreases location.0 + BUILDING_SIZE - x,
        {
            assert(self.wf());
            let mut y: i32 = building.y();
            while y < building.y() + building.height()
                invariant
                    self.wf(),
                    *self == *old(self),
                    map.wf(),
                    building.x_spec() == location.0,
                    building.y_spec() == location.1,
                    location.0 <= x < location.0 + BUILDING_SIZE,
                    location.1 <= y <= location.1 + BUILDING_SIZE,
                    location.0 <= i32::MAX - BUILDING_SIZE,
                    location.1 <= i32::MAX - BUILDING_SIZE,
                    map.width_spec() == old(map).width_spec(),
                    map.height_spec() == old(map).height_spec(),
                    forall|i: int, j: int| #[trigger] map.ground_at(i, j) == old(map).ground_at(i, j),
                    forall|i: int, j: int| #[trigger]
                        map.overlay_at(i, j) == if old(map).in_bounds(i, j) && ((location.0 <= i < x
                            && location.1 <= j < location.1 + BUILDING_SIZE) || (i == x && location.1
                            <= j < y)) {
                            SecondLevelType::Building
                        } else {
                            old(map).overlay_at(i, j)
                        },
                decreases location.1 + BUILDING_SIZE - y,
            {
                map.set_second_layer(x, y, SecondLevelType::Building);
                y = y + 1;
            }
            x = x + 1;
        }
        let ghost mid = *self;
        self.buildings.push(building);
        assert(self.entities_spec() == mid.entities_spec());
        assert(self.projectiles_spec() == mid.projectiles_spec());
        assert(self.index_spec() == mid.index_spec());
        assert(self.id_counter_spec() == mid.id_counter_spec());
        assert(forall|k: int| 0 <= k < self.entities_spec().len() ==> (#[trigger] self.entities_spec()[k]).wf());
        assert(ids_increasing(self.entities_spec()));
        assert(self.index_spec().wf());
    }

    /// Stops every unit whose id is listed.
    pub fn order_stop(&mut self, entity_ids: &Vec<u32>)
        requires
            old(self).wf(),
        ensures
            final(self).wf(),
            final(self).entities_spec().len() == old(self).entities_spec().len(),
            forall|k: int|
                0 <= k < old(self).entities_spec().len() ==> {
                    let o = #[trigger] old(self).entities_spec()[k];
                    let n = final(self).entities_spec()[k];
                    if entity_ids@.contains(o.id_spec()) {
                        &&& n.path_spec().len() == 0
                        &&& n.task_spec() == Task::Idle
                        &&& n.location_spec() == o.location_spec()
                        &&& n.id_spec() == o.id_spec()
                        &&& n.team_spec() == o.team_spec()
                        &&& n.hp_spec() == o.hp_spec()
                    } else {
                        n == o
                    }
                },
            final(self).projectiles_spec() == old(self).projectiles_spec(),
            final(self).buildings_spec() == old(self).buildings_spec(),
            final(self).id_counter_spec() == old(self).id_counter_spec(),
            final(self).debug_tree_spec() == old(self).debug_tree_spec(),
    {
        let n = self.entities.len();
        let mut i: usize = 0;
        while i < n
            invariant
                self.wf(),
                n == self.entities@.len(),
                n == old(self).entities@.len(),
                i <= n,
                self.projectiles == old(self).projectiles,
                self.buildings == old(self).buildings,
                self.id_counter == old(self).id_counter,
                self.debug_search_tree == old(self).debug_search_tree,
                forall|k: int| i <= k < n ==> self.entities@[k] == old(self).entities@[k],
                forall|k: int|
                    0 <= k < i ==> {
                        let o = #[trigger] old(self).entities_spec()[k];
                        let n = self.entities_spec()[k];
                        if entity_ids@.contains(o.id_spec()) {
                            &&& n.path_spec().len() == 0
                            &&& n.task_spec() == Task::Idle
                            &&& n.location_spec() == o.location_spec()
                            &&& n.id_spec() == o.id_spec()
                            &&& n.team_spec() == o.team_spec()
                            &&& n.hp_spec() == o.hp_spec()
                        } else {
                            n == o
                        }
                    },
            decreases n - i,
        {
            if id_selected(entity_ids, self.entities[i].id()) {
                let ghost s0 = *self;
                let ghost before = self.entities@;
                let mut e = self.entities.remove(i);
                e.order_stop();
                self.entities.insert(i, e);
                assert(self.entities@ =~= before.update(i as int, e));
                assert forall|k: int| 0 <= k < self.entities_spec().len() implies (#[trigger] self.entities_spec()[k]).wf() && self.entities_spec()[k].id_spec() < self.id_counter_spec() by {
                    if k != i {
                        assert(self.entities_spec()[k] == before[k]);
                    }
                }
                assert(self.projectiles_spec() == s0.projectiles_spec());
                assert(self.index_spec() == s0.index_spec());
                assert(ids_increasing(self.entities_spec())) by {
                    assert forall|a: int, b: int| 0 <= a < b < self.entities@.len() implies self.entities@[a].id_spec() < self.entities@[b].id_spec() by {
                        assert(before[a].id_spec() < before[b].id_spec());
                    }
                }
            }
            i = i + 1;
        }
    }

    /// Issues a move (or attack-move) toward the task's point to every
    /// listed unit: one reverse search from the goal cell toward the
    /// distinct cells of the selected units, then each unit gets the path
    /// from its cell (cell centres, then the exact goal point); a unit whose
    /// cell the search did not reach is stopped instead. An idle task stops
    /// the units; a gather task, or a goal outside the world, changes
    /// nothing.
    pub fn order_entities(&mut self, map: &GameMap, task: Task, entity_ids: &Vec<u32>)
        requires
            old(self).wf(),
            map.wf(),
        ensures
            final(self).wf(),
            final(self).entities_spec().len() == old(self).entities_spec().len(),
            final(self).projectiles_spec() == old(self).projectiles_spec(),
            final(self).buildings_spec() == old(self).buildings_spec(),
            final(self).id_counter_spec() == old(self).id_counter_spec(),
            match task {
                Task::Move { point } | Task::AttackMove { point } => {
                    if point.wf() {
                        final(self).debug_tree_spec() matches Some(t) && t.valid(*map) && t.goal_spec()
                            == point.cell() && (exists|starts: Seq<(i32, i32)>|
                            #[trigger] t.settled_in_order(starts) && selection_starts(
                                old(self).entities_spec(),
                                entity_ids@,
                                starts,
                            )) && (t.exhausted_spec() ==> crate::path_finder::SEARCH_BUDGET <= 8 * t.cells().len()) && (t.exhausted_spec() ==> crate::path_finder::SEARCH_BUDGET
                            <= 8 * (map.width_spec() * map.height_spec() + 1)) && forall|k: int|
                            0 <= k < old(self).entities_spec().len() ==> {
                                move_ordered(
                                    *map,
                                    t,
                                    task,
                                    entity_ids@,
                                    point,
                                    #[trigger] old(self).entities_spec()[k],
                                    final(self).entities_spec()[k],
                                )
                            }
                    } else {
                        final(self).entities_spec() == old(self).entities_spec()
                            && final(self).debug_tree_spec() == old(self).debug_tree_spec()
                    }
                },
                Task::Idle => forall|k: int|
                    0 <= k < old(self).entities_spec().len() ==> {
                        let o = #[trigger] old(self).entities_spec()[k];
                        let n = final(self).entities_spec()[k];
                        if entity_ids@.contains(o.id_spec()) {
                            n.path_spec().len() == 0 && n.task_spec() == Task::Idle && n.location_spec()
                                == o.location_spec()
                        } else {
                            n == o
                        }
                    },
                Task::Gather { .. } => final(self).entities_spec() == old(self).entities_spec()
                    && final(self).debug_tree_spec() == old(self).debug_tree_spec(),
            },
    {
        let end_point = match task {
            Task::Move { point } => point,
            Task::AttackMove { point } => point,
            Task::Idle => {
                self.order_stop(entity_ids);
                return ;
            },
            Task::Gather { .. } => {
                return ;
            },
        };
        if !(-COORD_LIMIT <= end_point.x && end_point.x <= COORD_LIMIT && -COORD_LIMIT <= end_point.y
            && end_point.y <= COORD_LIMIT) {
            return ;
        }
        let n = self.entities.len();
        let mut distinct_points: Vec<(i32, i32)> = Vec::new();
        let mut i: usize = 0;
        while i < n
            invariant
                self.wf(),
                n == self.entities@.len(),
                i <= n,
                forall|k: int|
                    0 <= k < i && entity_ids@.contains((#[trigger] self.entities_spec()[k]).id_spec())
                        ==> distinct_points@.contains(self.entities_spec()[k].location_spec().cell_i32()),
                forall|q: int|
                    0 <= q < distinct_points@.len() ==> selected_cell(
                        self.entities_spec(),
                        entity_ids@,
                        #[trigger] distinct_points@[q],
                    ),
                *self == *old(self),
            decreases n - i,
        {
            let e = &self.entities[i];
            if id_selected(entity_ids, e.id()) {
                let key = e.location().as_int();
                if !cell_listed(&distinct_points, key) {
                    let ghost before = distinct_points@;
                    distinct_points.push(key);
                    proof {
                        assert forall|c: (i32, i32)| before.contains(c) implies distinct_points@.contains(c) by {
                            let q = choose|q: int| 0 <= q < before.len() && before[q] == c;
                            assert(distinct_points@[q] == c);
                        }
                        assert(distinct_points@.last() == key);
                        assert(self.entities_spec()[i as int].location_spec().cell_i32() == key);
                        assert forall|q: int| 0 <= q < distinct_points@.len() implies selected_cell(
                            self.entities_spec(),
                            entity_ids@,
                            #[trigger] distinct_points@[q],
                        ) by {
                            if q < before.len() {
                                assert(distinct_points@[q] == before[q]);
                            }
                        }
                    }
                }
            }
            i = i + 1;
        }
        let goal = end_point.as_int();
        let tree = build_search_tree(map, goal, &distinct_points);
        assert(selection_starts(old(self).entities_spec(), entity_ids@, distinct_points@));
        assert(tree.settled_in_order(distinct_points@));
        let mut ents: Vec<Entity> = Vec::new();
        std::mem::swap(&mut ents, &mut self.entities);
        let ghost olds = ents@;
        let mut i: usize = 0;
        while i < n
            invariant
                map.wf(),
                tree.wf(*map),
                tree.valid(*map),
                tree.goal_spec() == end_point.cell(),
                tree.settled_in_order(distinct_points@),
                selection_starts(old(self).entities_spec(), entity_ids@, distinct_points@),
                end_point.wf(),
                !tree.exhausted_spec() ==> tree.reaches_all(distinct_points@) || tree.closed(*map),
                tree.cells().len() <= crate::path_finder::SEARCH_BUDGET + 1,
                tree.exhausted_spec() ==> crate::path_finder::SEARCH_BUDGET <= 8 * (map.width_spec() * map.height_spec() + 1),
                tree.exhausted_spec() ==> crate::path_finder::SEARCH_BUDGET <= 8 * tree.cells().len(),
                n == ents@.len(),
                n == olds.len(),
                i <= n,
                olds == old(self).entities_spec(),
                forall|k: int|
                    0 <= k < n && entity_ids@.contains((#[trigger] olds[k]).id_spec())
                        ==> distinct_points@.contains(olds[k].location_spec().cell_i32()),
                forall|k: int| i <= k < n ==> ents@[k] == olds[k],
                forall|k: int| 0 <= k < n ==> (#[trigger] ents@[k]).wf() && ents@[k].id_spec() == olds[k].id_spec(),
                forall|k: int|
                    0 <= k < i ==> {
                        move_ordered(*map, tree, task, entity_ids@, end_point, #[trigger] olds[k], ents@[k])
                    },
            decreases n - i,
        {
            let ghost before = ents@;
            let mut e = ents.remove(i);
            assert(e == olds[i as int]);
            if id_selected(entity_ids, e.id()) {
                let start = e.location().as_int();
                proof {
                    if !tree.exhausted_spec() && !tree.closed(*map) {
                        assert(distinct_points@.contains(start));
                        let q = choose|q: int| 0 <= q < distinct_points@.len() && distinct_points@[q] == start;
                        assert(tree.has((distinct_points@[q].0 as int, distinct_points@[q].1 as int)));
                    }
                }
                if tree.contains(map, start) {
                    let cells = tree.path_from(map, start);
                    let points = cell_path_to_points(&cells, end_point);
                    proof {
                        let st = e.location_spec().cell();
                        assert(planned_route(*map, tree, st, cells@));
                        assert(points@ =~= route_points(cells@, end_point));
                    }
                    e.set_path(points, task);
                } else {
                    e.order_stop();
                }
                assert(move_ordered(*map, tree, task, entity_ids@, end_point, olds[i as int], e));
            }
            ents.insert(i, e);
            assert(ents@ =~= before.update(i as int, e));
            i = i + 1;
        }
        let ghost fin = ents@;
        std::mem::swap(&mut ents, &mut self.entities);
        self.debug_search_tree = Some(tree);
        assert(self.entities_spec() == fin);
        assert(self.debug_tree_spec() == Some(tree));
        proof {
            let t = self.debug_tree_spec().unwrap();
            assert(t == tree);
            assert(t.settled_in_order(distinct_points@) && selection_starts(
                old(self).entities_spec(),
                entity_ids@,
                distinct_points@,
            ));
            assert(exists|starts: Seq<(i32, i32)>|
                #[trigger] t.settled_in_order(starts) && selection_starts(
                    old(self).entities_spec(),
                    entity_ids@,
                    starts,
                ));
            match task {
                Task::Move { point } => {
                    assert(point == end_point);
                },
                Task::AttackMove { point } => {
                    assert(point == end_point);
                },
                _ => {},
            }
            assert(self.projectiles_spec() == old(self).projectiles_spec());
            assert(self.index_spec() == old(self).index_spec());
            assert forall|a: int, b: int| 0 <= a < b < self.entities_spec().len() implies self.entities_spec()[a].id_spec() < self.entities_spec()[b].id_spec() by {
                assert(olds[a].id_spec() < olds[b].id_spec());
            }
            assert forall|k: int| 0 <= k < self.entities_spec().len() implies (#[trigger] self.entities_spec()[k]).id_spec() < self.id_counter_spec() by {
                assert(olds[k].id_spec() < self.id_counter_spec());
            }
        }
    }

    /// Restores the holder's invariant after the units were replaced by
    /// `news`, which keeps each unit's id in place.
    proof fn lemma_same_ids_keep_wf(&self, olds: Seq<Entity>)
        requires
            olds.len() == self.entities_spec().len(),
            forall|k: int| 0 <= k < olds.len() ==> (#[trigger] olds[k]).id_spec() < self.id_counter_spec(),
            ids_increasing(olds),
            forall|k: int|
                0 <= k < olds.len() ==> (#[trigger] self.entities_spec()[k]).wf()
                    && self.entities_spec()[k].id_spec() == olds[k].id_spec(),
        ensures
            ids_increasing(self.entities_spec()),
            forall|k: int|
                0 <= k < self.entities_spec().len() ==> (#[trigger] self.entities_spec()[k]).id_spec()
                    < self.id_counter_spec(),
    {
        assert forall|a: int, b: int| 0 <= a < b < self.entities_spec().len() implies self.entities_spec()[a].id_spec() < self.entities_spec()[b].id_spec() by {
            assert(olds[a].id_spec() < olds[b].id_spec());
        }
        assert forall|k: int| 0 <= k < self.entities_spec().len() implies (#[trigger] self.entities_spec()[k]).id_spec() < self.id_counter_spec() by {
            assert(olds[k].id_spec() < self.id_counter_spec());
        }
    }

    /// Rebuilds the spatial index from the units' positions.
    pub fn update_entity_location_map(&mut self, map: &GameMap)
        requires
            old(self).wf(),
            map.wf(),
        ensures
            final(self).wf(),
            final(self).entities_spec() == old(self).entities_spec(),
            final(self).projectiles_spec() == old(self).projectiles_spec(),
            final(self).id_counter_spec() == old(self).id_counter_spec(),
            final(self).buildings_spec() == old(self).buildings_spec(),
            final(self).debug_tree_spec() == old(self).debug_tree_spec(),
            final(self).index_spec().cells_spec().len() == old(self).entities_spec().len(),
            forall|k: int|
                0 <= k < old(self).entities_spec().len() ==> final(self).index_spec().ids_spec()[k]
                    == (#[trigger] old(self).entities_spec()[k]).id_spec()
                    && final(self).index_spec().cells_spec()[k] == old(self).entities_spec()[k].location_spec().cell(),
    {
        let n = self.entities.len();
        let mut locations: Vec<Point> = Vec::new();
        let mut ids: Vec<u32> = Vec::new();
        let mut i: usize = 0;
        while i < n
            invariant
                self.wf(),
                n == self.entities@.len(),
                i <= n,
                locations@.len() == i,
                ids@.len() == i,
                forall|k: int| 0 <= k < i ==> locations@[k] == (#[trigger] self.entities_spec()[k]).location_spec() && ids@[k] == self.entities_spec()[k].id_spec(),
            decreases n - i,
        {
            locations.push(self.entities[i].location());
            ids.push(self.entities[i].id());
            i = i + 1;
        }
        proof {
            assert forall|k: int| 0 <= k < locations@.len() implies (#[trigger] locations@[k]).wf() by {
                assert(self.entities_spec()[k].wf());
            }
        }
        let index = SpatialIndex::build(map, &locations, &ids);
        self.entity_location_map = index;
        assert(self.entities_spec() == old(self).entities_spec());
        assert(self.projectiles_spec() == old(self).projectiles_spec());
        assert(self.index_spec().wf());
    }

    /// Ids of the units standing in the cells that cover the disc of
    /// `radius` around `location` (a square, so it may also return units a
    /// little farther away), as of the last index rebuild.
    pub fn get_close_entity_ids(&self, location: &Point, radius: i64) -> (r: Vec<u32>)
        requires
            self.wf(),
            location.wf(),
            0 <= radius <= COORD_LIMIT,
        ensures
            forall|k: int|
                0 <= k < self.index_spec().cells_spec().len() && crate::spatial::in_query_box(
                    #[trigger] self.index_spec().cells_spec()[k],
                    *location,
                    radius as int,
                ) ==> r@.contains(self.index_spec().ids_spec()[k]),
            forall|q: int|
                0 <= q < r@.len() ==> self.index_spec().indexed_in_box(
                    #[trigger] r@[q],
                    *location,
                    radius as int,
                ),
    {
        self.entity_location_map.ids_near(location, radius)
    }

    /// Pairwise interaction for one tick (see `interact_pass`). Every unit
    /// forgets its tracked enemy, the index is rebuilt, and then each unit
    /// looks at the other units the index finds within seeing distance, each
    /// counted once; all positions are those at the start of the pass. It
    /// tracks the closest visible enemy and is pushed out of their personal
    /// space. Only the unit being resolved moves.
    pub fn entities_interact_with_each_other(&mut self, map: &GameMap)
        requires
            old(self).wf(),
            map.wf(),
        ensures
            final(self).wf(),
            final(self).entities_spec().len() == old(self).entities_spec().len(),
            interact_pass(*map, old(self).entities_spec(), final(self).entities_spec()),
            final(self).projectiles_spec() == old(self).projectiles_spec(),
            final(self).id_counter_spec() == old(self).id_counter_spec(),
            final(self).buildings_spec() == old(self).buildings_spec(),
            final(self).index_spec().cells_spec().len() == old(self).entities_spec().len(),
            forall|k: int|
                0 <= k < old(self).entities_spec().len() ==> final(self).index_spec().ids_spec()[k]
                    == (#[trigger] old(self).entities_spec()[k]).id_spec()
                    && final(self).index_spec().cells_spec()[k] == old(self).entities_spec()[k].location_spec().cell(),
    {
        let n = self.entities.len();
        let ghost olds = self.entities@;
        let mut ents: Vec<Entity> = Vec::new();
        std::mem::swap(&mut ents, &mut self.entities);
        let mut i: usize = 0;
        while i < n
            invariant
                n == ents@.len(),
                n == olds.len(),
                i <= n,
                forall|k: int| i <= k < n ==> ents@[k] == olds[k],
                forall|k: int| 0 <= k < n ==> (#[trigger] olds[k]).wf(),
                forall|k: int|
                    0 <= k < i ==> (#[trigger] ents@[k]).wf() && same_role(ents@[k], olds[k])
                        && ents@[k].location_spec() == olds[k].location_spec()
                        && ents@[k].enemy_point_spec().is_none() && ents@[k].enemy_id_spec().is_none(),
            decreases n - i,
        {
            let ghost before = ents@;
            let mut e = ents.remove(i);
            assert(e == olds[i as int]);
            e.reset_closest_seen_enemy_position();
            ents.insert(i, e);
            assert(ents@ =~= before.update(i as int, e));
            i = i + 1;
        }
        std::mem::swap(&mut ents, &mut self.entities);
        let ghost reset = self.entities@;
        proof {
            assert(self.projectiles_spec() == old(self).projectiles_spec());
            assert(self.index_spec() == old(self).index_spec());
            self.lemma_same_ids_keep_wf(olds);
        }
        self.update_entity_location_map(map);
        let mut locations: Vec<Point> = Vec::new();
        let mut ids: Vec<u32> = Vec::new();
        let mut teams: Vec<u32> = Vec::new();
        let mut i: usize = 0;
        while i < n
            invariant
                self.wf(),
                self.entities@ == reset,
                n == reset.len(),
                i <= n,
                locations@.len() == i,
                ids@.len() == i,
                teams@.len() == i,
                forall|k: int|
                    0 <= k < i ==> locations@[k] == (#[trigger] reset[k]).location_spec() && ids@[k]
                        == reset[k].id_spec() && teams@[k] == reset[k].team_spec(),
            decreases n - i,
        {
            locations.push(self.entities[i].location());
            ids.push(self.entities[i].id());
            teams.push(self.entities[i].team_id());
            i = i + 1;
        }
        let ghost index = self.entity_location_map;
        let mut count: u32 = 0;
        let mut marks: Vec<bool> = vec![false; n];
        let mut ents: Vec<Entity> = Vec::new();
        std::mem::swap(&mut ents, &mut self.entities);
        let mut i: usize = 0;
        while i < n
            invariant
                map.wf(),
                index.wf(),
                index == self.entity_location_map,
                index.cells_spec().len() == n,
                n == ents@.len(),
                n == reset.len(),
                i <= n,
                locations@.len() == n,
                ids@.len() == n,
                teams@.len() == n,
                forall|k: int|
                    0 <= k < n ==> locations@[k] == (#[trigger] reset[k]).location_spec() && ids@[k]
                        == reset[k].id_spec() && teams@[k] == reset[k].team_spec() && reset[k].wf(),
                forall|k: int| i <= k < n ==> ents@[k] == reset[k],
                forall|k: int| 0 <= k < n ==> (#[trigger] reset[k]).enemy_point_spec().is_none(),
                forall|k: int| 0 <= k < n ==> index.cells_spec()[k] == (#[trigger] reset[k]).location_spec().cell(),
                forall|k: int| 0 <= k < i ==> (#[trigger] ents@[k]).wf() && same_role(ents@[k], reset[k]),
                forall|k: int| 0 <= k < n ==> (#[trigger] reset[k]).enemy_id_spec().is_none(),
                forall|k: int| 0 <= k < i ==> targeting(*map, reset, k, #[trigger] ents@[k]),
                marks@.len() == n,
                forall|j: int| 0 <= j < n ==> !(#[trigger] marks@[j]),
                forall|k: int| 0 <= k < i ==> pushed_ok(reset, k, (#[trigger] ents@[k]).location_spec()),
            decreases n - i,
        {
            let ghost before = ents@;
            let mut e = ents.remove(i);
            assert(e == reset[i as int]);
            proof {
                assert forall|k: int| 0 <= k < n implies (#[trigger] locations@[k]).wf() by {
                    assert(reset[k].wf());
                }
            }
            let slots = self.entity_location_map.query_slots(&locations[i], SEEING_DISTANCE);
            let ghost me = reset[i as int];
            let mut t: usize = 0;
            while t < slots.len()
                invariant
                    map.wf(),
                    e.wf(),
                    same_role(e, me),
                    e.location_spec() == me.location_spec(),
                    me == reset[i as int],
                    locations@.len() == n,
                    ids@.len() == n,
                    teams@.len() == n,
                    n == reset.len(),
                    index.cells_spec().len() == n,
                    i < n,
                    forall|k: int|
                        0 <= k < n ==> locations@[k] == (#[trigger] reset[k]).location_spec() && ids@[k]
                            == reset[k].id_spec() && teams@[k] == reset[k].team_spec() && reset[k].wf(),
                    forall|k: int| 0 <= k < n ==> (#[trigger] locations@[k]).wf(),
                    forall|q: int| 0 <= q < slots@.len() ==> (#[trigger] slots@[q] as int) < index.cells_spec().len(),
                    t <= slots@.len(),
                    match (e.enemy_point_spec(), e.enemy_id_spec()) {
                        (Some(p), Some(id)) => {
                            &&& exists|jj: int|
                                #![trigger reset[jj]]
                                0 <= jj < n && reset[jj].location_spec() == p && reset[jj].id_spec() == id
                                    && candidate(*map, me, reset[jj])
                            &&& forall|q: int|
                                0 <= q < t && candidate(*map, me, #[trigger] reset[slots@[q] as int]) ==> dist_to(me, p)
                                    <= dist_to(me, reset[slots@[q] as int].location_spec())
                        },
                        (None, None) => forall|q: int| 0 <= q < t ==> !candidate(*map, me, #[trigger] reset[slots@[q] as int]),
                        _ => false,
                    },
                decreases slots@.len() - t,
            {
                let j = slots[t];
                if j != i {
                    let ghost before = e;
                    e.update_closest_seen_enemy_at(locations[j], ids[j], teams[j], map);
                    proof {
                        let there = reset[j as int].location_spec();
                        assert(reset[j as int].location_spec() == there);
                        assert forall|q: int|
                            0 <= q < t + 1 && candidate(*map, me, #[trigger] reset[slots@[q] as int])
                                implies e.enemy_point_spec() matches Some(p) && dist_to(me, p) <= dist_to(
                            me,
                            reset[slots@[q] as int].location_spec(),
                        ) by {
                            if q < t {
                                match before.enemy_point_spec() {
                                    Some(p0) => {},
                                    None => {},
                                }
                            }
                        }
                    }
                    if count < u32::MAX {
                        count = count + 1;
                    }
                } else {
                    assert(!candidate(*map, me, reset[j as int]));
                }
                t = t + 1;
            }
            proof {
                assert forall|jj: int| 0 <= jj < n && sees_enemy(*map, me, #[trigger] reset[jj]) implies e.enemy_point_spec() matches Some(p) && dist_to(me, p) <= dist_to(me, reset[jj].location_spec()) by {
                    if sees_enemy(*map, me, reset[jj]) {
                        lemma_len_within(me.location_spec().dist_to_spec(reset[jj].location_spec()));
                        let a = me.location_spec();
                        let u = reset[jj].location_spec();
                        let d = a.dist_to_spec(u);
                        assert(d.x == a.x - u.x && d.y == a.y - u.y);
                        assert((u.x - a.x) * (u.x - a.x) + (u.y - a.y) * (u.y - a.y) == d.norm_sq()) by (nonlinear_arith)
                            requires
                                d.x == a.x - u.x,
                                d.y == a.y - u.y,
                                d.norm_sq() == d.x * d.x + d.y * d.y,
                        ;
                        crate::spatial::lemma_query_box_covers_disc(
                            me.location_spec(),
                            SEEING_DISTANCE as int,
                            reset[jj].location_spec(),
                        );
                        assert(index.cells_spec()[jj] == reset[jj].location_spec().cell());
                        assert(slots@.contains(jj as usize));
                        let q = choose|q: int| 0 <= q < slots@.len() && slots@[q] == jj as usize;
                        assert(slots@[q] as int == jj);
                        assert(candidate(*map, me, reset[slots@[q] as int]));
                    }
                }
                assert(targeting(*map, reset, i as int, e));
            }
            let ghost seen_spot = e.enemy_point_spec();
            let ghost seen_id = e.enemy_id_spec();
            let me_loc = locations[i];
            let me_id = ids[i];
            let ghost mut found: Seq<int> = Seq::empty();
            let mut t: usize = 0;
            while t < slots.len()
                invariant
                    map.wf(),
                    e.wf(),
                    same_role(e, me),
                    me == reset[i as int],
                    me_loc == me.location_spec(),
                    me_id == me.id_spec(),
                    e.enemy_point_spec() == seen_spot,
                    e.enemy_id_spec() == seen_id,
                    locations@.len() == n,
                    ids@.len() == n,
                    n == reset.len(),
                    i < n,
                    forall|k: int|
                        0 <= k < n ==> locations@[k] == (#[trigger] reset[k]).location_spec() && ids@[k]
                            == reset[k].id_spec() && teams@[k] == reset[k].team_spec() && reset[k].wf(),
                    forall|k: int| 0 <= k < n ==> (#[trigger] locations@[k]).wf(),
                    forall|q: int| 0 <= q < slots@.len() ==> (#[trigger] slots@[q] as int) < index.cells_spec().len(),
                    index.cells_spec().len() == n,
                    t <= slots@.len(),
                    marks@.len() == n,
                    found.no_duplicates(),
                    forall|q: int| 0 <= q < found.len() ==> 0 <= #[trigger] found[q] < n,
                    forall|j: int| 0 <= j < n ==> (#[trigger] marks@[j] <==> found.contains(j)),
                    forall|q: int| 0 <= q < found.len() ==> #[trigger] found[q] != i && slots@.contains(found[q] as usize),
                    forall|r: int| 0 <= r < t ==> #[trigger] slots@[r] == i || found.contains(slots@[r] as int),
                    e.location_spec() == pushed(me, reset, found),
                decreases slots@.len() - t,
            {
                let j = slots[t];
                let do_push = j != i && !marks[j];
                let ghost old_found = found;
                proof {
                    assert(!do_push ==> (j == i || old_found.contains(j as int)));
                }
                if do_push {
                    marks.set(j, true);
                    let push = separation_vector(&me_loc, me_id, &locations[j], ids[j]);
                    e.move_vector(&push, false);
                    proof {
                        let nf = found.push(j as int);
                        assert(nf.drop_last() =~= found);
                        assert(!found.contains(j as int));
                        assert(nf.no_duplicates()) by {
                            assert forall|a: int, b: int| 0 <= a < b < nf.len() implies nf[a] != nf[b] by {
                                if b == found.len() {
                                    assert(found[a] == nf[a]);
                                }
                            }
                        }
                        found = nf;
                    }
                }
                proof {
                    assert forall|jj: int| 0 <= jj < n implies (#[trigger] found.contains(jj) <==> old_found.contains(jj) || (do_push && jj == j)) by {
                        if do_push {
                            if found.contains(jj) {
                                let q = choose|q: int| 0 <= q < found.len() && found[q] == jj;
                                if q < old_found.len() {
                                    assert(old_found[q] == jj);
                                }
                            }
                            if old_found.contains(jj) {
                                let q = choose|q: int| 0 <= q < old_found.len() && old_found[q] == jj;
                                assert(found[q] == jj);
                            }
                            if jj == j {
                                assert(found[old_found.len() as int] == jj);
                            }
                        }
                    }
                    assert(slots@.contains(j));
                    assert forall|q: int| 0 <= q < found.len() implies #[trigger] found[q] != i && slots@.contains(found[q] as usize) by {
                        if q < old_found.len() {
                            assert(found[q] == old_found[q]);
                        }
                    }
                    assert forall|r: int| 0 <= r < t + 1 implies #[trigger] slots@[r] == i || found.contains(slots@[r] as int) by {
                        if r < t {
                            if slots@[r] != i {
                                assert(old_found.contains(slots@[r] as int));
                            }
                        }
                    }
                }
                t = t + 1;
            }
            proof {
                assert(slots@.subrange(0, slots@.len() as int) =~= slots@);
                assert forall|jj: int| 0 <= jj < n implies (found.contains(jj) <==> jj != i && slots@.contains(jj as usize)) by {
                    if found.contains(jj) {
                        let q = choose|q: int| 0 <= q < found.len() && found[q] == jj;
                        assert(found[q] != i && slots@.contains(found[q] as usize));
                    }
                    if jj != i && slots@.contains(jj as usize) {
                        let r = choose|r: int| 0 <= r < slots@.len() && slots@[r] == jj as usize;
                        assert(slots@[r] == i || found.contains(slots@[r] as int));
                    }
                }
                assert forall|jj: int| 0 <= jj < n implies (found.contains(jj) <==> jj != i && crate::spatial::in_query_box(
                    #[trigger] reset[jj].location_spec().cell(),
                    reset[i as int].location_spec(),
                    SEEING_DISTANCE as int,
                )) by {
                    assert(index.cells_spec()[jj] == reset[jj].location_spec().cell());
                    if slots@.contains(jj as usize) {
                        let q = choose|q: int| 0 <= q < slots@.len() && slots@[q] == jj as usize;
                        assert(slots@[q] as int == jj);
                    }
                }
                assert(found_near(reset, i as int, found));
            }
            let mut t: usize = 0;
            while t < slots.len()
                invariant
                    marks@.len() == n,
                    forall|q: int| 0 <= q < slots@.len() ==> (#[trigger] slots@[q] as int) < index.cells_spec().len(),
                    index.cells_spec().len() == n,
                    t <= slots@.len(),
                    forall|j: int|
                        0 <= j < n && #[trigger] marks@[j] ==> found.contains(j) && !slots@.subrange(0, t as int).contains(
                            j as usize,
                        ),
                    forall|j: int| 0 <= j < n ==> (found.contains(j) ==> #[trigger] slots@.contains(j as usize)),
                decreases slots@.len() - t,
            {
                let j = slots[t];
                let ghost pre_t = slots@.subrange(0, t as int);
                marks.set(j, false);
                proof {
                    let post_t = slots@.subrange(0, t + 1);
                    assert forall|jj: int| 0 <= jj < n && #[trigger] marks@[jj] implies found.contains(jj) && !post_t.contains(
                        jj as usize,
                    ) by {
                        assert(jj != j);
                        if post_t.contains(jj as usize) {
                            let q = choose|q: int| 0 <= q < post_t.len() && post_t[q] == jj as usize;
                            if q < t {
                                assert(pre_t[q] == jj as usize);
                            }
                        }
                    }
                }
                t = t + 1;
            }
            proof {
                assert(slots@.subrange(0, slots@.len() as int) =~= slots@);
            }
            ents.insert(i, e);
            assert(ents@ =~= before.update(i as int, e));
            proof {
                assert(ents@[i as int] == e);
                assert forall|k: int| 0 <= k < i + 1 implies targeting(*map, reset, k, #[trigger] ents@[k]) && pushed_ok(reset, k, ents@[k].location_spec()) by {
                    if k < i {
                        assert(ents@[k] == before[k]);
                    } else {
                        assert(found_near(reset, i as int, found) && ents@[k].location_spec() == pushed(reset[k], reset, found));
                    }
                }
            }
            i = i + 1;
        }
        std::mem::swap(&mut ents, &mut self.entities);
        self.debug_entity_interaction_count = count;
        proof {
            assert(self.projectiles_spec() == old(self).projectiles_spec());
            assert forall|k: int| 0 <= k < n implies (#[trigger] reset[k]).id_spec() < self.id_counter_spec() && reset[k].id_spec() == olds[k].id_spec() by {
                assert(olds[k].id_spec() < self.id_counter_spec());
            }
            assert(ids_increasing(reset)) by {
                assert forall|a: int, b: int| 0 <= a < b < reset.len() implies reset[a].id_spec() < reset[b].id_spec() by {
                    assert(olds[a].id_spec() < olds[b].id_spec());
                }
            }
            self.lemma_same_ids_keep_wf(reset);
            assert forall|k: int|
                0 <= k < old(self).entities_spec().len() implies self.index_spec().ids_spec()[k]
                    == (#[trigger] old(self).entities_spec()[k]).id_spec()
                    && self.index_spec().cells_spec()[k] == old(self).entities_spec()[k].location_spec().cell() by {
                assert(reset[k].location_spec() == olds[k].location_spec());
            }
            assert forall|k: int| 0 <= k < n implies same_role(#[trigger] self.entities_spec()[k], old(self).entities_spec()[k]) by {
                assert(same_role(reset[k], olds[k]));
            }
            assert forall|k: int| 0 <= k < n implies reset[k].location_spec() == olds[k].location_spec() && reset[k].team_spec() == olds[k].team_spec() by {
                assert(same_role(reset[k], olds[k]));
            }
            assert forall|k: int| 0 <= k < n implies pushed_ok(olds, k, (#[trigger] self.entities_spec()[k]).location_spec()) by {
                assert(pushed_ok(reset, k, self.entities_spec()[k].location_spec()));
                let found = choose|found: Seq<int>| #[trigger] found_near(reset, k, found) && self.entities_spec()[k].location_spec() == pushed(reset[k], reset, found);
                assert forall|j: int| 0 <= j < n implies (#[trigger] reset[j]).location_spec() == olds[j].location_spec()
                    && reset[j].id_spec() == olds[j].id_spec() by {
                    assert(same_role(reset[j], olds[j]));
                }
                lemma_pushed_same(reset[k], olds[k], reset, olds, found);
                assert forall|j: int| 0 <= j < n implies (found.contains(j) <==> j != k && crate::spatial::in_query_box(
                    #[trigger] olds[j].location_spec().cell(),
                    olds[k].location_spec(),
                    SEEING_DISTANCE as int,
                )) by {
                    assert(reset[j].location_spec() == olds[j].location_spec());
                }
                assert(found_near(olds, k, found));
            }
            assert forall|k: int| 0 <= k < n implies targeting(*map, olds, k, #[trigger] self.entities_spec()[k]) by {
                let e = self.entities_spec()[k];
                assert(targeting(*map, reset, k, e));
                assert forall|j: int| 0 <= j < n implies reset[j].location_spec() == olds[j].location_spec()
                    && reset[j].team_spec() == olds[j].team_spec() && reset[j].id_spec() == olds[j].id_spec() by {
                    assert(same_role(reset[j], olds[j]));
                }
                match (e.enemy_point_spec(), e.enemy_id_spec()) {
                    (Some(p), Some(id)) => {
                        let j = choose|j: int|
                            #![trigger reset[j]]
                            0 <= j < n && reset[j].location_spec() == p && reset[j].id_spec() == id
                                && candidate(*map, reset[k], reset[j]);
                        assert(olds[j].location_spec() == p && olds[j].id_spec() == id);
                        assert(candidate(*map, olds[k], olds[j]));
                        assert forall|jj: int| 0 <= jj < n && sees_enemy(*map, olds[k], #[trigger] olds[jj]) implies dist_to(olds[k], p)
                            <= dist_to(olds[k], olds[jj].location_spec()) by {
                            assert(sees_enemy(*map, reset[k], reset[jj]));
                        }
                    },
                    (None, None) => {
                        assert forall|jj: int| 0 <= jj < n implies !sees_enemy(*map, olds[k], #[trigger] olds[jj]) by {
                            assert(!sees_enemy(*map, reset[k], reset[jj]));
                        }
                    },
                    _ => {},
                }
            }
        }
    }

    /// Keeps every unit in passable space (see `Entity::interact_with_map`).
    pub fn entities_interact_with_map(&mut self, map: &GameMap)
        requires
            old(self).wf(),
            map.wf(),
        ensures
            final(self).wf(),
            map_pass(*map, old(self).entities_spec(), final(self).entities_spec()),
            final(self).projectiles_spec() == old(self).projectiles_spec(),
            final(self).id_counter_spec() == old(self).id_counter_spec(),
            final(self).buildings_spec() == old(self).buildings_spec(),
    {
        let n = self.entities.len();
        let ghost olds = self.entities@;
        let mut ents: Vec<Entity> = Vec::new();
        std::mem::swap(&mut ents, &mut self.entities);
        let mut i: usize = 0;
        while i < n
            invariant
                map.wf(),
                n == ents@.len(),
                n == olds.len(),
                i <= n,
                forall|k: int| i <= k < n ==> ents@[k] == olds[k],
                forall|k: int| 0 <= k < n ==> (#[trigger] olds[k]).wf(),
                forall|k: int|
                    0 <= k < i ==> (#[trigger] ents@[k]).wf() && ents@[k].same_but_place(&olds[k])
                        && ents@[k].orientation_spec() == olds[k].orientation_spec()
                        && ents@[k].location_spec() == crate::entity::wall_clamped(
                        *map,
                        crate::entity::relocated(*map, olds[k].location_spec()),
                    ),
            decreases n - i,
        {
            let ghost before = ents@;
            let mut e = ents.remove(i);
            assert(e == olds[i as int]);
            e.interact_with_map(map);
            ents.insert(i, e);
            assert(ents@ =~= before.update(i as int, e));
            i = i + 1;
        }
        std::mem::swap(&mut ents, &mut self.entities);
        proof {
            assert(self.projectiles_spec() == old(self).projectiles_spec());
            assert(self.index_spec() == old(self).index_spec());
            self.lemma_same_ids_keep_wf(olds);
        }
    }

    /// Runs every unit's own decisions (see `Entity::ai_stuff`) and keeps
    /// the projectiles they fire.
    pub fn entities_ai_stuff(&mut self, map: &GameMap)
        requires
            old(self).wf(),
            map.wf(),
        ensures
            final(self).wf(),
            final(self).entities_spec().len() == old(self).entities_spec().len(),
            forall|k: int|
                0 <= k < old(self).entities_spec().len() ==> {
                    let o = #[trigger] old(self).entities_spec()[k];
                    let n = final(self).entities_spec()[k];
                    n.id_spec() == o.id_spec() && n.team_spec() == o.team_spec() && n.hp_spec()
                        == o.hp_spec()
                },
            exists|shots: Seq<Option<Projectile>>|
                #[trigger] ai_pass(*map, old(self).entities_spec(), final(self).entities_spec(), shots)
                    && final(self).projectiles_spec() == old(self).projectiles_spec() + fired(shots),
            final(self).id_counter_spec() == old(self).id_counter_spec(),
            final(self).buildings_spec() == old(self).buildings_spec(),
    {
        let n = self.entities.len();
        let ghost olds = self.entities@;
        let ghost old_proj = self.projectiles@;
        let ghost mut shots: Seq<Option<Projectile>> = Seq::empty();
        proof {
            assert(self.projectiles@ =~= old_proj + fired(shots));
            assert forall|q: int| 0 <= q < self.projectiles@.len() implies (#[trigger] self.projectiles@[q]).wf() by {
                assert(old(self).projectiles_spec()[q].wf());
            }
        }
        let mut ents: Vec<Entity> = Vec::new();
        std::mem::swap(&mut ents, &mut self.entities);
        let mut i: usize = 0;
        while i < n
            invariant
                map.wf(),
                n == ents@.len(),
                n == olds.len(),
                i <= n,
                forall|k: int| i <= k < n ==> ents@[k] == olds[k],
                forall|k: int| 0 <= k < n ==> (#[trigger] olds[k]).wf(),
                forall|k: int|
                    0 <= k < i ==> (#[trigger] ents@[k]).wf() && ents@[k].id_spec() == olds[k].id_spec()
                        && ents@[k].team_spec() == olds[k].team_spec() && ents@[k].hp_spec()
                        == olds[k].hp_spec(),
                shots.len() == i,
                forall|k: int| 0 <= k < i ==> ai_outcome(*map, #[trigger] olds[k], ents@[k], shots[k]),
                self.projectiles@ == old_proj + fired(shots),
                forall|q: int| 0 <= q < self.projectiles@.len() ==> (#[trigger] self.projectiles@[q]).wf(),
                self.entity_location_map == old(self).entity_location_map,
                self.buildings == old(self).buildings,
                self.id_counter == old(self).id_counter,
            decreases n - i,
        {
            let ghost before = ents@;
            let mut e = ents.remove(i);
            assert(e == olds[i as int]);
            let shot = e.ai_stuff(map);
            let ghost pb = self.projectiles@;
            match shot {
                Some(projectile) => {
                    assert(projectile.wf());
                    self.projectiles.push(projectile);
                },
                None => {},
            }
            proof {
                let ns = shots.push(shot);
                assert(ns.drop_last() =~= shots);
                shots = ns;
                assert(self.projectiles@ =~= old_proj + fired(shots));
            }
            ents.insert(i, e);
            assert(ents@ =~= before.update(i as int, e));
            i = i + 1;
        }
        std::mem::swap(&mut ents, &mut self.entities);
        proof {
            self.lemma_same_ids_keep_wf(olds);
            assert(ai_pass(*map, olds, self.entities_spec(), shots));
        }
    }

    /// Advances every projectile; one that lands deals `PROJECTILE_DAMAGE`
    /// to the first unit (in id order) closer than `HIT_RADIUS` to it.
    /// Landed projectiles are then dropped; the others stay, in order.
    pub fn increment_projectiles(&mut self)
        requires
            old(self).wf(),
        ensures
            final(self).wf(),
            proj_pass(
                old(self).entities_spec(),
                old(self).projectiles_spec(),
                final(self).entities_spec(),
                final(self).projectiles_spec(),
            ),
            forall|q: int|
                0 <= q < final(self).projectiles_spec().len() ==> !(#[trigger] final(self).projectiles_spec()[q]).landed(),
            final(self).id_counter_spec() == old(self).id_counter_spec(),
            final(self).buildings_spec() == old(self).buildings_spec(),
    {
        let n = self.entities.len();
        let ghost olds = self.entities@;
        let ghost ps = self.projectiles@;
        let mut ents: Vec<Entity> = Vec::new();
        std::mem::swap(&mut ents, &mut self.entities);
        let mut flying: Vec<Projectile> = Vec::new();
        let m = self.projectiles.len();
        proof {
            assert forall|q: int| 0 <= q < m implies (#[trigger] self.projectiles@[q]).wf() by {
                assert(self.projectiles == old(self).projectiles);
                assert(old(self).projectiles_spec()[q].wf());
            }
            assert(ps.subrange(0, 0) =~= Seq::<Projectile>::empty());
            assert forall|k: int| 0 <= k < n implies ents@[k].hp_spec() == floor_zero(
                olds[k].hp_spec() - PROJECTILE_DAMAGE * hits(olds, ps.subrange(0, 0), k),
            ) by {
                assert(olds[k].wf());
            }
        }
        let mut p: usize = 0;
        while p < m
            invariant
                m == self.projectiles@.len(),
                ps == self.projectiles@,
                p <= m,
                n == ents@.len(),
                n == olds.len(),
                forall|q: int| 0 <= q < m ==> (#[trigger] self.projectiles@[q]).wf(),
                forall|k: int| 0 <= k < n ==> (#[trigger] olds[k]).wf(),
                forall|k: int|
                    0 <= k < n ==> (#[trigger] ents@[k]).wf() && same_but_hp(ents@[k], olds[k])
                        && ents@[k].hp_spec() == floor_zero(
                        olds[k].hp_spec() - PROJECTILE_DAMAGE * hits(olds, ps.subrange(0, p as int), k),
                    ),
                flying@ == in_flight(ps.subrange(0, p as int)),
                forall|q: int| 0 <= q < flying@.len() ==> (#[trigger] flying@[q]).wf() && !flying@[q].landed(),
            decreases m - p,
        {
            let mut projectile = self.projectiles[p];
            projectile.increment();
            let ghost adv = projectile;
            let ghost before_all = ents@;
            let ghost pre = ps.subrange(0, p as int);
            let ghost post = ps.subrange(0, p + 1);
            proof {
                assert(post.drop_last() =~= pre);
                assert(post.last() == ps[p as int]);
                assert(adv == ps[p as int].advanced());
            }
            if projectile.at_location() {
                let spot = projectile.location();
                let mut k: usize = 0;
                let mut hit = false;
                while !hit && k < n
                    invariant
                        n == ents@.len(),
                        n == olds.len(),
                        k <= n,
                        spot.wf(),
                        spot == adv.location_spec(),
                        forall|j: int| 0 <= j < n ==> (#[trigger] olds[j]).wf(),
                        forall|j: int| 0 <= j < n ==> (#[trigger] before_all[j]).wf() && same_but_hp(before_all[j], olds[j]),
                        !hit ==> ents@ == before_all,
                        !hit ==> forall|j: int| 0 <= j < k ==> !within_hit(#[trigger] olds[j], spot),
                        hit ==> k < n && within_hit(olds[k as int], spot)
                            && (forall|j: int| 0 <= j < k ==> !within_hit(#[trigger] olds[j], spot))
                            && ents@ == before_all.update(k as int, ents@[k as int])
                            && same_but_hp(ents@[k as int], before_all[k as int])
                            && ents@[k as int].wf()
                            && ents@[k as int].hp_spec() == floor_zero(before_all[k as int].hp_spec() - PROJECTILE_DAMAGE),
                    decreases n - k, if hit { 0int } else { 1int },
                {
                    if ents[k].location().dist_to(&spot).length() < HIT_RADIUS {
                        let ghost before = ents@;
                        let mut e = ents.remove(k);
                        assert(e == before[k as int]);
                        e.take_hit(PROJECTILE_DAMAGE);
                        ents.insert(k, e);
                        assert(ents@ =~= before.update(k as int, e));
                        hit = true;
                    } else {
                        k = k + 1;
                    }
                }
                proof {
                    if hit {
                        lemma_first_hit(olds, spot, 0, k as int);
                    } else {
                        lemma_no_hit(olds, spot, 0);
                    }
                    assert(in_flight(post) =~= in_flight(pre));
                    assert forall|kk: int| 0 <= kk < n implies (#[trigger] ents@[kk]).wf() && same_but_hp(ents@[kk], olds[kk])
                        && ents@[kk].hp_spec() == floor_zero(
                        olds[kk].hp_spec() - PROJECTILE_DAMAGE * hits(olds, post, kk),
                    ) by {
                        assert(hits(olds, post, kk) == hits(olds, pre, kk) + if first_hit(olds, spot, 0) == Some(kk) {
                            1nat
                        } else {
                            0nat
                        });
                        if hit && kk == k {
                        } else {
                            assert(ents@[kk] == before_all[kk]);
                        }
                    }
                }
            } else {
                flying.push(projectile);
                proof {
                    assert(in_flight(post) =~= in_flight(pre).push(adv));
                    assert forall|kk: int| 0 <= kk < n implies hits(olds, post, kk) == hits(olds, pre, kk) by {}
                }
            }
            p = p + 1;
        }
        self.projectiles = flying;
        std::mem::swap(&mut ents, &mut self.entities);
        proof {
            assert(ps.subrange(0, m as int) =~= ps);
            assert(self.index_spec() == old(self).index_spec());
            self.lemma_same_ids_keep_wf(olds);
        }
    }

    /// Drops every unit with no hit points left; the others keep their order.
    pub fn remove_dead(&mut self)
        requires
            old(self).wf(),
        ensures
            final(self).wf(),
            forall|k: int|
                0 <= k < final(self).entities_spec().len() ==> (#[trigger] final(self).entities_spec()[k]).hp_spec() > 0,
            forall|k: int|
                0 <= k < old(self).entities_spec().len() && (#[trigger] old(self).entities_spec()[k]).hp_spec() > 0
                    ==> final(self).entities_spec().contains(old(self).entities_spec()[k]),
            forall|k: int|
                0 <= k < final(self).entities_spec().len() ==> old(self).entities_spec().contains(
                    #[trigger] final(self).entities_spec()[k],
                ),
            final(self).entities_spec() == living(old(self).entities_spec()),
            final(self).projectiles_spec() == old(self).projectiles_spec(),
            final(self).id_counter_spec() == old(self).id_counter_spec(),
            final(self).buildings_spec() == old(self).buildings_spec(),
    {
        let ghost olds = self.entities@;
        let mut ents: Vec<Entity> = Vec::new();
        std::mem::swap(&mut ents, &mut self.entities);
        let n = ents.len();
        let mut kept: Vec<Entity> = Vec::new();
        let mut i: usize = 0;
        let ghost mut origin: Seq<int> = Seq::empty();
        while i < n
            invariant
                ents@ == olds.subrange(i as int, n as int),
                n == olds.len(),
                i <= n,
                ids_increasing(olds),
                forall|k: int| 0 <= k < n ==> (#[trigger] olds[k]).wf(),
                origin.len() == kept@.len(),
                kept@ == living(olds.subrange(0, i as int)),
                forall|q: int| 0 <= q < kept@.len() ==> 0 <= #[trigger] origin[q] < i && kept@[q] == olds[origin[q]],
                forall|a: int, b: int| 0 <= a < b < origin.len() ==> origin[a] < origin[b],
                forall|q: int| 0 <= q < kept@.len() ==> (#[trigger] kept@[q]).hp_spec() > 0,
                forall|k: int| 0 <= k < i && (#[trigger] olds[k]).hp_spec() > 0 ==> kept@.contains(olds[k]),
            decreases n - i,
        {
            let ghost before = kept@;
            let e = ents.remove(0);
            assert(e == olds[i as int]);
            assert(olds.subrange(0, i + 1).drop_last() =~= olds.subrange(0, i as int));
            let alive = e.alive();
            if alive {
                kept.push(e);
                proof {
                    origin = origin.push(i as int);
                    assert forall|k: int| 0 <= k < i + 1 && (#[trigger] olds[k]).hp_spec() > 0 implies kept@.contains(olds[k]) by {
                        if k < i {
                            let q = choose|q: int| 0 <= q < before.len() && before[q] == olds[k];
                            assert(kept@[q] == olds[k]);
                        } else {
                            assert(kept@.last() == olds[k]);
                        }
                    }
                }
            }
            assert(ents@ =~= olds.subrange(i + 1, n as int));
            assert(kept@ =~= living(olds.subrange(0, i + 1)));
            i = i + 1;
        }
        assert(olds.subrange(0, n as int) =~= olds);
        self.entities = kept;
        proof {
            assert(self.projectiles_spec() == old(self).projectiles_spec());
            assert(self.index_spec() == old(self).index_spec());
            assert forall|k: int| 0 <= k < self.entities_spec().len() implies (#[trigger] self.entities_spec()[k]).wf() && self.entities_spec()[k].id_spec() < self.id_counter_spec() by {
                assert(olds[origin[k]].wf());
                assert(olds[origin[k]].id_spec() < self.id_counter_spec());
            }
            assert forall|a: int, b: int| 0 <= a < b < self.entities_spec().len() implies self.entities_spec()[a].id_spec() < self.entities_spec()[b].id_spec() by {
                assert(origin[a] < origin[b]);
                assert(olds[origin[a]].id_spec() < olds[origin[b]].id_spec());
            }
            assert forall|k: int| 0 <= k < self.entities_spec().len() implies olds.contains(#[trigger] self.entities_spec()[k]) by {
                assert(olds[origin[k]] == self.entities_spec()[k]);
            }
        }
    }

    /// One simulation tick for the units: their own decisions, pairwise
    /// interaction, terrain correction, projectiles, then removal of the
    /// dead. Afterwards every unit is alive and every projectile in flight.
    pub fn entity_ai(&mut self, map: &GameMap, tick: u32)
        requires
            old(self).wf(),
            map.wf(),
        ensures
            final(self).wf(),
            forall|k: int|
                0 <= k < final(self).entities_spec().len() ==> (#[trigger] final(self).entities_spec()[k]).hp_spec() > 0,
            forall|q: int|
                0 <= q < final(self).projectiles_spec().len() ==> !(#[trigger] final(self).projectiles_spec()[q]).landed(),
            exists|e1: Seq<Entity>, shots: Seq<Option<Projectile>>, e2: Seq<Entity>, e3: Seq<Entity>, e4: Seq<Entity>|
                #[trigger] tick_pass(
                    *map,
                    old(self).entities_spec(),
                    old(self).projectiles_spec(),
                    e1,
                    shots,
                    e2,
                    e3,
                    e4,
                    final(self).entities_spec(),
                    final(self).projectiles_spec(),
                ),
            final(self).id_counter_spec() == old(self).id_counter_spec(),
            final(self).buildings_spec() == old(self).buildings_spec(),
    {
        let ghost e0 = self.entities_spec();
        let ghost p0 = self.projectiles_spec();
        self.entities_ai_stuff(map);
        let ghost e1 = self.entities_spec();
        let ghost shots = choose|shots: Seq<Option<Projectile>>|
            #[trigger] ai_pass(*map, e0, e1, shots) && self.projectiles_spec() == p0 + fired(shots);
        self.entities_interact_with_each_other(map);
        let ghost e2 = self.entities_spec();
        self.entities_interact_with_map(map);
        let ghost e3 = self.entities_spec();
        self.increment_projectiles();
        let ghost e4 = self.entities_spec();
        self.remove_dead();
        assert(tick_pass(*map, e0, p0, e1, shots, e2, e3, e4, self.entities_spec(), self.projectiles_spec()));
    }
}

} // verus!

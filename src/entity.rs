use vstd::prelude::*;
use crate::geometry::{Point, Vector, SCALE, COORD_LIMIT, trunc_div, div_trunc, clamp_i64, clamp_coord};
use crate::map::{GameMap, abs};
use crate::projectile::Projectile;
use crate::binary_helpers::{
    Binaryable,
    be_i64,
    be_u32,
    be_i32,
    i64_as_bytes,
    i64_at,
    u32_at,
    i32_at,
    append_bytes,
    copy_range,
    lemma_prefix_sub,
};

verus! {

/// Hit points of a fresh unit.
pub const MAX_HP: i32 = 200;

/// Ticks between two shots.
pub const ATTACK_COOLDOWN: u32 = 45;

/// Distance walked per tick (fixed point).
pub const STEP_LENGTH: i64 = 40;

/// Clearance kept from walls when checking sight to a waypoint.
pub const PATH_CLEARANCE: i64 = 250;

/// Closer than this to the final waypoint, a unit has arrived.
pub const ARRIVAL_DISTANCE: i64 = 100;

/// How far a unit sees enemies.
pub const SEEING_DISTANCE: i64 = 15000;

/// Personal space: closer units push each other away.
pub const PERSONAL_SPACE: i64 = 550;

/// How far the lower-id unit of two coincident units is moved along x.
pub const COINCIDENT_OFFSET: i64 = 100;

/// Margin kept from the edge of a cell that borders a blocked cell.
pub const WALL_MARGIN: i64 = 250;

#[derive(Clone, Copy, PartialEq, Eq, Structural, Debug)]
pub enum ResourceType {
    Wood,
    Gold,
}

/// What a unit is doing.
#[derive(Clone, Copy, PartialEq, Eq, Structural, Debug)]
pub enum Task {
    Idle,
    Move { point: Point },
    AttackMove { point: Point },
    Gather { point: Point, resource_type: ResourceType },
}

#[derive(Clone, Copy, PartialEq, Eq, Structural, Debug)]
pub enum EntityType {
    Peasant,
    Ranged,
    Meelee,
}

/// The point stored as two big-endian `i64` at offset `off` of `b`.
pub open spec fn point_at(b: Seq<u8>, off: int) -> Point {
    Point {
        x: be_i64(b.subrange(off, off + 8)) as i64,
        y: be_i64(b.subrange(off + 8, off + 16)) as i64,
    }
}

/// The task held by `b`: a tag byte (idle 0, move 1, attack-move 2,
/// gather 3), then for all but idle the point, then for gather the
/// resource byte (wood 0, gold 1). `None` for anything else.
pub open spec fn task_decoded(b: Seq<u8>) -> Option<Task> {
    if b.len() < 1 {
        None
    } else if b[0] == 0 {
        Some(Task::Idle)
    } else if b[0] == 1 || b[0] == 2 {
        if b.len() < 17 {
            None
        } else if b[0] == 1 {
            Some(Task::Move { point: point_at(b, 1) })
        } else {
            Some(Task::AttackMove { point: point_at(b, 1) })
        }
    } else if b[0] == 3 {
        if b.len() < 18 || b[17] > 1 {
            None
        } else {
            Some(
                Task::Gather {
                    point: point_at(b, 1),
                    resource_type: if b[17] == 0 {
                        ResourceType::Wood
                    } else {
                        ResourceType::Gold
                    },
                },
            )
        }
    } else {
        None
    }
}

/// Prefix of a concatenation.
pub proof fn lemma_concat_prefix(s: Seq<u8>, t: Seq<u8>, a: int, b: int)
    requires
        0 <= a <= b <= s.len(),
    ensures
        (s + t).subrange(a, b) == s.subrange(a, b),
{
    assert((s + t).subrange(a, b) =~= s.subrange(a, b));
}

/// Appends a point as two big-endian `i64`.
pub fn push_point(out: &mut Vec<u8>, p: Point)
    ensures
        final(out)@.len() == old(out)@.len() + 16,
        final(out)@.subrange(0, old(out)@.len() as int) == old(out)@,
        point_at(final(out)@, old(out)@.len() as int) == p,
{
    let ghost o = old(out)@;
    let bx = i64_as_bytes(p.x);
    let ghost gx = bx@;
    append_bytes(out, bx);
    let ghost mid = out@;
    let by = i64_as_bytes(p.y);
    let ghost gy = by@;
    append_bytes(out, by);
    proof {
        let n = o.len() as int;
        assert(out@.subrange(n, n + 8) =~= gx);
        assert(out@.subrange(n + 8, n + 16) =~= gy);
        assert(out@.subrange(0, n) =~= o);
    }
}

impl Task {
    /// The bytes of the task, laid out as `task_decoded` reads them.
    pub fn to_bytes(&self) -> (r: Vec<u8>)
        ensures
            task_decoded(r@) == Some(*self),
            r@.len() >= 1,
    {
        let mut out: Vec<u8> = Vec::new();
        match *self {
            Task::Idle => {
                out.push(0);
            },
            Task::Move { point } => {
                out.push(1);
                push_point(&mut out, point);
                assert(out@.subrange(0, 1)[0] == 1);
                assert(out@[0] == 1);
                assert(task_decoded(out@) == Some(Task::Move { point }));
            },
            Task::AttackMove { point } => {
                out.push(2);
                push_point(&mut out, point);
                assert(out@.subrange(0, 1)[0] == 2);
                assert(out@[0] == 2);
            },
            Task::Gather { point, resource_type } => {
                out.push(3);
                push_point(&mut out, point);
                let ghost before = out@;
                out.push(
                    match resource_type {
                        ResourceType::Wood => 0,
                        ResourceType::Gold => 1,
                    },
                );
                proof {
                    assert(before.subrange(0, 1)[0] == 3);
                    assert(out@ =~= before + seq![out@.last()]);
                    lemma_concat_prefix(before, seq![out@.last()], 1, 9);
                    lemma_concat_prefix(before, seq![out@.last()], 9, 17);
                    assert(point_at(out@, 1) == point_at(before, 1));
                    assert(out@[0] == 3);
                    assert(out@[17] == out@.last());
                }
            },
        }
        out
    }

    /// The task `bytes` hold (see `task_decoded`).
    pub fn from_binary(bytes: &Vec<u8>) -> (r: Option<Task>)
        ensures
            r == task_decoded(bytes@),
    {
        if bytes.len() < 1 {
            return None;
        }
        let tag = bytes[0];
        if tag == 0 {
            return Some(Task::Idle);
        }
        if tag > 3 || bytes.len() < 17 {
            return None;
        }
        let point = Point::new(i64_at(bytes, 1), i64_at(bytes, 9));
        if tag == 1 {
            Some(Task::Move { point })
        } else if tag == 2 {
            Some(Task::AttackMove { point })
        } else if bytes.len() < 18 || bytes[17] > 1 {
            None
        } else {
            let resource_type = if bytes[17] == 0 {
                ResourceType::Wood
            } else {
                ResourceType::Gold
            };
            Some(Task::Gather { point, resource_type })
        }
    }
}

impl Binaryable for Entity {
    fn as_binary(&self) -> Vec<u8> {
        if self.is_well_formed() {
            self.to_bytes()
        } else {
            Vec::new()
        }
    }
}

impl Binaryable for Task {
    fn as_binary(&self) -> Vec<u8> {
        self.to_bytes()
    }
}

/// Length of the fixed part of a saved unit.
pub const UNIT_HEADER_LEN: usize = 62;

pub open spec fn type_of_code(b: u8) -> EntityType {
    if b == 0 {
        EntityType::Peasant
    } else if b == 1 {
        EntityType::Ranged
    } else {
        EntityType::Meelee
    }
}

/// The fixed part of a saved unit: location (0), id (16), type byte (20),
/// cursor (21), orientation (25), team (29), hit points (33), cooldown
/// (37), enemy flag byte (41) and enemy point (42), path length (58).
pub open spec fn unit_header(b: Seq<u8>) -> (Point, u32, u8, u32, u32, u32, i32, u32, u8, Point, u32) {
    (
        point_at(b, 0),
        be_u32(b.subrange(16, 20)) as u32,
        b[20],
        be_u32(b.subrange(21, 25)) as u32,
        be_u32(b.subrange(25, 29)) as u32,
        be_u32(b.subrange(29, 33)) as u32,
        be_i32(b.subrange(33, 37)) as i32,
        be_u32(b.subrange(37, 41)) as u32,
        b[41],
        point_at(b, 42),
        be_u32(b.subrange(58, 62)) as u32,
    )
}

/// The path of a saved unit: `unit_header(b).10` points after the header.
pub open spec fn unit_path(b: Seq<u8>) -> Seq<Point> {
    Seq::new(unit_header(b).10 as nat, |k: int| point_at(b, UNIT_HEADER_LEN + 16 * k))
}

/// Where the task of a saved unit starts.
pub open spec fn unit_task_start(b: Seq<u8>) -> int {
    UNIT_HEADER_LEN + 16 * unit_header(b).10
}

/// The bytes are laid out as a saved unit with known codes and a task.
pub open spec fn unit_layout_ok(b: Seq<u8>) -> bool {
    &&& b.len() >= UNIT_HEADER_LEN
    &&& unit_header(b).2 <= 2
    &&& unit_header(b).8 <= 1
    &&& b.len() >= unit_task_start(b)
    &&& task_decoded(b.subrange(unit_task_start(b), b.len() as int)).is_some()
}

/// The enemy point a saved unit holds.
pub open spec fn unit_enemy(b: Seq<u8>) -> Option<Point> {
    if unit_header(b).8 == 1 {
        Some(unit_header(b).9)
    } else {
        None
    }
}

/// The saved unit's fields satisfy the unit invariants.
pub open spec fn unit_parts_ok(b: Seq<u8>) -> bool {
    parts_wf(
        unit_header(b).0,
        unit_header(b).3,
        unit_path(b),
        unit_header(b).4,
        unit_header(b).6,
        unit_header(b).7,
        unit_enemy(b),
        task_decoded(b.subrange(unit_task_start(b), b.len() as int)).unwrap(),
    )
}

/// `b` holds unit `e` (all but the tracked enemy's id).
pub open spec fn unit_encodes(b: Seq<u8>, e: Entity) -> bool {
    &&& unit_layout_ok(b)
    &&& unit_header(b).0 == e.location_spec()
    &&& unit_header(b).1 == e.id_spec()
    &&& type_of_code(unit_header(b).2) == e.type_spec()
    &&& unit_header(b).3 == e.cursor()
    &&& unit_header(b).4 == e.orientation_spec()
    &&& unit_header(b).5 == e.team_spec()
    &&& unit_header(b).6 == e.hp_spec()
    &&& unit_header(b).7 == e.cooldown_spec()
    &&& unit_enemy(b) == e.enemy_point_spec()
    &&& unit_path(b) == e.path_spec()
    &&& task_decoded(b.subrange(unit_task_start(b), b.len() as int)) == Some(e.task_spec())
}

/// Two byte strings that agree on the header hold the same header fields.
pub proof fn lemma_header_same(f: Seq<u8>, h: Seq<u8>)
    requires
        f.len() >= UNIT_HEADER_LEN,
        h.len() == UNIT_HEADER_LEN,
        f.subrange(0, UNIT_HEADER_LEN as int) == h,
    ensures
        unit_header(f) == unit_header(h),
{
    lemma_prefix_sub(f, h, 0, 8);
    lemma_prefix_sub(f, h, 8, 16);
    lemma_prefix_sub(f, h, 16, 20);
    lemma_prefix_sub(f, h, 21, 25);
    lemma_prefix_sub(f, h, 25, 29);
    lemma_prefix_sub(f, h, 29, 33);
    lemma_prefix_sub(f, h, 33, 37);
    lemma_prefix_sub(f, h, 37, 41);
    lemma_prefix_sub(f, h, 42, 50);
    lemma_prefix_sub(f, h, 50, 58);
    lemma_prefix_sub(f, h, 58, 62);
    assert(f[20] == f.subrange(0, UNIT_HEADER_LEN as int)[20]);
    assert(f[41] == f.subrange(0, UNIT_HEADER_LEN as int)[41]);
}

/// A saved well-formed unit reads back: its fields satisfy the unit
/// invariants again, so `Entity::from_binary` rebuilds it.
pub proof fn lemma_unit_round_trip(b: Seq<u8>, e: Entity)
    requires
        e.wf(),
        unit_encodes(b, e),
    ensures
        unit_layout_ok(b),
        unit_parts_ok(b),
{
    assert(unit_path(b) == e.path_spec());
}

/// Range at which a unit of this type shoots (fixed point).
pub open spec fn attack_range(t: EntityType) -> int {
    match t {
        EntityType::Ranged => 8000,
        EntityType::Meelee => 600,
        EntityType::Peasant => 0,
    }
}

pub open spec fn is_walking(t: Task) -> bool {
    t is Move || t is AttackMove
}

/// One of eight directions for a vector: `atan2` cut into quarter-pi
/// sectors centred on the axes and diagonals, turned by half a circle.
pub open spec fn orientation_of(x: int, y: int) -> u32 {
    let ax = abs(x);
    let ay = abs(y);
    let d: int = if x == 0 && y == 0 {
        0
    } else if (ax + ay) * (ax + ay) < 2 * ax * ax {
        if x > 0 {
            0
        } else {
            4
        }
    } else if (ax + ay) * (ax + ay) < 2 * ay * ay {
        if y > 0 {
            2
        } else {
            -2
        }
    } else if x > 0 && y > 0 {
        1
    } else if x < 0 && y > 0 {
        3
    } else if x < 0 && y < 0 {
        -3
    } else {
        -1
    };
    ((d + 4) % 8) as u32
}

/// The step a unit takes from `from` toward `to`.
pub open spec fn step_toward(from: Point, to: Point) -> Vector {
    from.dist_to_spec(to).normalized_spec().negated_spec().multiplied_spec(STEP_LENGTH as int)
}

/// The step a unit takes from `from` away from `to`.
pub open spec fn step_away(from: Point, to: Point) -> Vector {
    from.dist_to_spec(to).normalized_spec().multiplied_spec(STEP_LENGTH as int)
}

/// The zero push.
pub open spec fn no_push() -> Vector {
    Vector { x: 0, y: 0 }
}

/// The push given to the lower-id unit of two at one spot.
pub open spec fn coincident_push() -> Vector {
    Vector { x: COINCIDENT_OFFSET, y: 0 }
}

/// How far `self_loc` is pushed by a unit at `other_loc`: units closer than
/// `PERSONAL_SPACE` are pushed apart by three tenths of the overlap; of two
/// units at the same spot only the one with the lower id moves, along x.
pub open spec fn separation_push(self_loc: Point, self_id: u32, other_loc: Point, other_id: u32) -> Vector {
    let d = self_loc.dist_to_spec(other_loc);
    let dist = d.len_spec();
    if dist == 0 {
        if self_id < other_id {
            Vector { x: COINCIDENT_OFFSET, y: 0 }
        } else {
            Vector { x: 0, y: 0 }
        }
    } else if dist < PERSONAL_SPACE {
        d.normalized_spec().multiplied_spec((PERSONAL_SPACE - dist) * 3 / 10)
    } else {
        Vector { x: 0, y: 0 }
    }
}

/// Whether the waypoint cursor at `w` can move on: the unit at `loc` sees
/// the next waypoint.
pub open spec fn advance_cursor(m: GameMap, loc: Point, path: Seq<Point>, w: int) -> int
    decreases path.len() - w,
{
    if 0 <= w && w + 1 < path.len() && m.sight_fat(loc, path[w + 1], PATH_CLEARANCE as int) {
        advance_cursor(m, loc, path, w + 1)
    } else {
        w
    }
}

/// The cursor moved back until the unit sees its waypoint or reaches the first.
pub open spec fn retreat_cursor(m: GameMap, loc: Point, path: Seq<Point>, w: int) -> int
    decreases w,
{
    if 0 < w < path.len() && !m.sight_fat(loc, path[w], PATH_CLEARANCE as int) {
        retreat_cursor(m, loc, path, w - 1)
    } else {
        w
    }
}

/// Fixed-point offset of `v` inside its cell (negative for negative `v`).
pub open spec fn cell_rem(v: int) -> int {
    v - trunc_div(v, SCALE as int) * SCALE
}

/// Fixed-point coordinate of the edge of `v`'s cell nearest zero.
pub open spec fn cell_base(v: int) -> int {
    trunc_div(v, SCALE as int) * SCALE
}

/// Where a unit in an impassable cell is put: the centre of the cell the
/// ring search finds (its own cell if none), clamped to the world.
pub open spec fn relocated(m: GameMap, l: Point) -> Point {
    let c = l.cell();
    if m.moveable(c) {
        l
    } else {
        let t = match m.first_ring_hit(c.0, c.1, 0) {
            Some(t) => t,
            None => c,
        };
        Point {
            x: clamp_coord(t.0 * SCALE + SCALE / 2) as i64,
            y: clamp_coord(t.1 * SCALE + SCALE / 2) as i64,
        }
    }
}

/// A position kept `WALL_MARGIN` away from every edge or corner of its cell
/// that borders a blocked cell. At a blocked corner the axis whose offset is
/// farther from the cell centre is moved (x on a tie).
pub open spec fn wall_clamped(m: GameMap, l: Point) -> Point {
    let c = l.cell();
    let rx = cell_rem(l.x as int);
    let ry = cell_rem(l.y as int);
    let bx = cell_base(l.x as int);
    let by = cell_base(l.y as int);
    let ax = abs(rx - SCALE / 2);
    let ay = abs(ry - SCALE / 2);
    let lo_x = rx < WALL_MARGIN;
    let hi_x = rx > SCALE - WALL_MARGIN;
    let lo_y = ry < WALL_MARGIN;
    let hi_y = ry > SCALE - WALL_MARGIN;
    let blocked = |dx: int, dy: int| !m.moveable((c.0 + dx, c.1 + dy));
    let x1 = if lo_x && blocked(-1, 0) {
        bx + WALL_MARGIN
    } else if hi_x && blocked(1, 0) {
        bx + SCALE - WALL_MARGIN
    } else {
        l.x as int
    };
    let y1 = if lo_y && blocked(0, -1) {
        by + WALL_MARGIN
    } else if hi_y && blocked(0, 1) {
        by + SCALE - WALL_MARGIN
    } else {
        l.y as int
    };
    let corner_dy: int = if lo_x && lo_y && blocked(-1, -1) {
        -1
    } else if hi_x && lo_y && blocked(1, -1) {
        -1
    } else if lo_x && hi_y && blocked(-1, 1) {
        1
    } else if hi_x && hi_y && blocked(1, 1) {
        1
    } else {
        0
    };
    let corner_dx: int = if lo_x {
        -1
    } else {
        1
    };
    let x2 = if corner_dy != 0 && ax <= ay {
        if corner_dx < 0 {
            bx + WALL_MARGIN
        } else {
            bx + SCALE - WALL_MARGIN
        }
    } else {
        x1
    };
    let y2 = if corner_dy != 0 && ax > ay {
        if corner_dy < 0 {
            by + WALL_MARGIN
        } else {
            by + SCALE - WALL_MARGIN
        }
    } else {
        y1
    };
    Point { x: clamp_coord(x2) as i64, y: clamp_coord(y2) as i64 }
}

/// How a unit's state changes when it follows its path for one tick:
/// the cursor advances while the next waypoint is in (fattened) sight, then
/// retreats while the current one is not; a unit close to its final
/// waypoint snaps onto it and goes idle, any other steps toward the waypoint.
pub open spec fn follows_path(m: GameMap, o: Entity, n: Entity) -> bool {
    let path = o.path_spec();
    let w = retreat_cursor(m, o.location_spec(), path, advance_cursor(m, o.location_spec(), path, o.cursor()));
    let wp = path[w];
    let arrived = o.location_spec().dist_to_spec(wp).len_spec() < ARRIVAL_DISTANCE && w == path.len() - 1;
    let step = step_toward(o.location_spec(), wp);
    &&& n.id_spec() == o.id_spec()
    &&& n.type_spec() == o.type_spec()
    &&& n.team_spec() == o.team_spec()
    &&& n.hp_spec() == o.hp_spec()
    &&& n.enemy_point_spec() == o.enemy_point_spec()
    &&& n.enemy_id_spec() == o.enemy_id_spec()
    &&& if arrived {
        &&& n.location_spec() == wp
        &&& n.path_spec().len() == 0
        &&& n.cursor() == 0
        &&& n.task_spec() == Task::Idle
        &&& n.orientation_spec() == o.orientation_spec()
    } else {
        &&& n.location_spec() == o.location_spec().added_spec(step)
        &&& n.path_spec() == path
        &&& n.cursor() == w
        &&& n.task_spec() == o.task_spec()
        &&& n.orientation_spec() == orientation_of(-step.x, -step.y)
    }
}

/// Everything but the hit points agrees between `a` and `b`.
pub open spec fn same_but_hp(a: Entity, b: Entity) -> bool {
    &&& a.location_spec() == b.location_spec()
    &&& a.id_spec() == b.id_spec()
    &&& a.type_spec() == b.type_spec()
    &&& a.team_spec() == b.team_spec()
    &&& a.cooldown_spec() == b.cooldown_spec()
    &&& a.cursor() == b.cursor()
    &&& a.path_spec() == b.path_spec()
    &&& a.task_spec() == b.task_spec()
    &&& a.orientation_spec() == b.orientation_spec()
    &&& a.enemy_point_spec() == b.enemy_point_spec()
    &&& a.enemy_id_spec() == b.enemy_id_spec()
}

/// Path, cursor and task are unchanged from `o` to `n`.
pub open spec fn same_plan(o: Entity, n: Entity) -> bool {
    n.path_spec() == o.path_spec() && n.cursor() == o.cursor() && n.task_spec() == o.task_spec()
}

/// One tick of a unit's own decisions, from `o` to `n`, firing `r`. The
/// cooldown drops by one first. A unit tracking an enemy at `p` and not
/// walking to a destination flees (peasant), closes in (out of range),
/// fires at `p` (in range, cooldown over) or holds; a walking unit follows
/// its path; any other unit keeps still.
pub open spec fn ai_outcome(m: GameMap, o: Entity, n: Entity, r: Option<Projectile>) -> bool {
    let cd = if o.cooldown_spec() > 0 {
        o.cooldown_spec() - 1
    } else {
        0
    };
    let me = o.location_spec();
    &&& n.id_spec() == o.id_spec()
    &&& n.type_spec() == o.type_spec()
    &&& n.team_spec() == o.team_spec()
    &&& n.hp_spec() == o.hp_spec()
    &&& n.enemy_point_spec() == o.enemy_point_spec()
    &&& n.enemy_id_spec() == o.enemy_id_spec()
    &&& (r matches Some(pr) ==> pr.wf())
    &&& match o.enemy_point_spec() {
        Some(p) if !is_walking(o.task_spec()) => {
            &&& same_plan(o, n)
            &&& if o.type_spec() == EntityType::Peasant {
                let step = step_away(me, p);
                &&& n.location_spec() == me.added_spec(step)
                &&& n.orientation_spec() == orientation_of(-step.x, -step.y)
                &&& n.cooldown_spec() == cd
                &&& r.is_none()
            } else if me.dist_to_spec(p).len_spec() > attack_range(o.type_spec()) {
                let step = step_toward(me, p);
                &&& n.location_spec() == me.added_spec(step)
                &&& n.orientation_spec() == orientation_of(-step.x, -step.y)
                &&& n.cooldown_spec() == cd
                &&& r.is_none()
            } else if cd == 0 {
                &&& n.location_spec() == me
                &&& n.orientation_spec() == o.orientation_spec()
                &&& n.cooldown_spec() == ATTACK_COOLDOWN
                &&& r matches Some(pr) && pr.location_spec() == me && pr.start_spec() == me
                    && pr.end_spec() == p
            } else {
                &&& n.location_spec() == me
                &&& n.orientation_spec() == o.orientation_spec()
                &&& n.cooldown_spec() == cd
                &&& r.is_none()
            }
        },
        _ => {
            &&& r.is_none()
            &&& n.cooldown_spec() == cd
            &&& if is_walking(o.task_spec()) {
                follows_path(m, o, n)
            } else {
                &&& n.location_spec() == me
                &&& n.orientation_spec() == o.orientation_spec()
                &&& same_plan(o, n)
            }
        },
    }
}

/// Moving the cursor forward and then back keeps it inside the path.
pub proof fn lemma_cursor_in_range(m: GameMap, loc: Point, path: Seq<Point>, w: int)
    requires
        0 <= w < path.len(),
    ensures
        0 <= advance_cursor(m, loc, path, w) < path.len(),
        0 <= retreat_cursor(m, loc, path, advance_cursor(m, loc, path, w)) < path.len(),
        w <= advance_cursor(m, loc, path, w),
{
    lemma_advance_in_range(m, loc, path, w);
    lemma_retreat_in_range(m, loc, path, advance_cursor(m, loc, path, w));
}

proof fn lemma_advance_in_range(m: GameMap, loc: Point, path: Seq<Point>, w: int)
    requires
        0 <= w < path.len(),
    ensures
        w <= advance_cursor(m, loc, path, w) < path.len(),
    decreases path.len() - w,
{
    if w + 1 < path.len() && m.sight_fat(loc, path[w + 1], PATH_CLEARANCE as int) {
        lemma_advance_in_range(m, loc, path, w + 1);
    }
}

proof fn lemma_retreat_in_range(m: GameMap, loc: Point, path: Seq<Point>, w: int)
    requires
        0 <= w < path.len(),
    ensures
        0 <= retreat_cursor(m, loc, path, w) <= w,
    decreases w,
{
    if 0 < w && !m.sight_fat(loc, path[w], PATH_CLEARANCE as int) {
        lemma_retreat_in_range(m, loc, path, w - 1);
    }
}

/// What a unit's invariants ask of its fields (see `Entity::wf`).
pub open spec fn parts_wf(
    location: Point,
    waypoint_index: u32,
    path: Seq<Point>,
    orientation: u32,
    hp: i32,
    cooldown: u32,
    enemy_point: Option<Point>,
    task: Task,
) -> bool {
    &&& location.wf()
    &&& 0 <= hp <= MAX_HP
    &&& cooldown <= ATTACK_COOLDOWN
    &&& orientation < 8
    &&& path.len() <= u32::MAX
    &&& forall|k: int| 0 <= k < path.len() ==> (#[trigger] path[k]).wf()
    &&& (path.len() == 0 ==> waypoint_index == 0 && task == Task::Idle)
    &&& (path.len() > 0 ==> waypoint_index < path.len())
    &&& (enemy_point matches Some(p) ==> p.wf())
}

/// Whether a point lies in the world's coordinate range.
pub fn point_in_world(p: &Point) -> (r: bool)
    ensures
        r == p.wf(),
{
    -COORD_LIMIT <= p.x && p.x <= COORD_LIMIT && -COORD_LIMIT <= p.y && p.y <= COORD_LIMIT
}

/// Orientation (one of eight) for a vector.
fn orientation_for(x: i64, y: i64) -> (r: u32)
    requires
        -4 * COORD_LIMIT <= x <= 4 * COORD_LIMIT,
        -4 * COORD_LIMIT <= y <= 4 * COORD_LIMIT,
    ensures
        r == orientation_of(x as int, y as int),
        r < 8,
{
    let ax: i128 = if x < 0 { -(x as i128) } else { x as i128 };
    let ay: i128 = if y < 0 { -(y as i128) } else { y as i128 };
    assert((ax + ay) * (ax + ay) <= 64 * COORD_LIMIT * COORD_LIMIT) by (nonlinear_arith)
        requires
            0 <= ax <= 4 * COORD_LIMIT,
            0 <= ay <= 4 * COORD_LIMIT,
    ;
    assert(2 * ax * ax <= 32 * COORD_LIMIT * COORD_LIMIT) by (nonlinear_arith)
        requires
            0 <= ax <= 4 * COORD_LIMIT,
    ;
    assert(2 * ay * ay <= 32 * COORD_LIMIT * COORD_LIMIT) by (nonlinear_arith)
        requires
            0 <= ay <= 4 * COORD_LIMIT,
    ;
    let s = (ax + ay) * (ax + ay);
    let d: i32 = if x == 0 && y == 0 {
        0
    } else if s < 2 * ax * ax {
        if x > 0 { 0 } else { 4 }
    } else if s < 2 * ay * ay {
        if y > 0 { 2 } else { -2 }
    } else if x > 0 && y > 0 {
        1
    } else if x < 0 && y > 0 {
        3
    } else if x < 0 && y < 0 {
        -3
    } else {
        -1
    };
    ((d + 4) % 8) as u32
}

/// A unit: position, identity, planned path with its cursor, combat state
/// and current task.
pub struct Entity {
    location: Point,
    id: u32,
    entity_type: EntityType,
    waypoint_index: u32,
    path: Vec<Point>,
    orientation: u32,
    team_id: u32,
    hp: i32,
    cooldown: u32,
    closest_seen_enemy_point: Option<Point>,
    closest_seen_enemy_id: Option<u32>,
    task: Task,
}

impl Entity {
    pub closed spec fn location_spec(&self) -> Point {
        self.location
    }

    pub closed spec fn id_spec(&self) -> u32 {
        self.id
    }

    pub closed spec fn type_spec(&self) -> EntityType {
        self.entity_type
    }

    pub closed spec fn cursor(&self) -> int {
        self.waypoint_index as int
    }

    pub closed spec fn path_spec(&self) -> Seq<Point> {
        self.path@
    }

    pub closed spec fn orientation_spec(&self) -> u32 {
        self.orientation
    }

    pub closed spec fn team_spec(&self) -> u32 {
        self.team_id
    }

    pub closed spec fn hp_spec(&self) -> int {
        self.hp as int
    }

    pub closed spec fn cooldown_spec(&self) -> int {
        self.cooldown as int
    }

    pub closed spec fn enemy_point_spec(&self) -> Option<Point> {
        self.closest_seen_enemy_point
    }

    pub closed spec fn enemy_id_spec(&self) -> Option<u32> {
        self.closest_seen_enemy_id
    }

    pub closed spec fn task_spec(&self) -> Task {
        self.task
    }

    /// The unit's invariants: hit points within `[0, MAX_HP]`, the cursor
    /// inside a non-empty path, an empty path only when idle.
    pub open spec fn wf(&self) -> bool {
        &&& self.location_spec().wf()
        &&& 0 <= self.hp_spec() <= MAX_HP
        &&& self.cooldown_spec() <= ATTACK_COOLDOWN
        &&& self.orientation_spec() < 8
        &&& self.path_spec().len() <= u32::MAX
        &&& forall|k: int| 0 <= k < self.path_spec().len() ==> (#[trigger] self.path_spec()[k]).wf()
        &&& (self.path_spec().len() == 0 ==> self.cursor() == 0 && self.task_spec() == Task::Idle)
        &&& (self.path_spec().len() > 0 ==> 0 <= self.cursor() < self.path_spec().len())
        &&& (self.enemy_point_spec() matches Some(p) ==> p.wf())
    }

    /// Everything but position and orientation is as in `other`.
    pub open spec fn same_but_place(&self, other: &Entity) -> bool {
        &&& self.id_spec() == other.id_spec()
        &&& self.type_spec() == other.type_spec()
        &&& self.team_spec() == other.team_spec()
        &&& self.hp_spec() == other.hp_spec()
        &&& self.cooldown_spec() == other.cooldown_spec()
        &&& self.cursor() == other.cursor()
        &&& self.path_spec() == other.path_spec()
        &&& self.task_spec() == other.task_spec()
        &&& self.enemy_point_spec() == other.enemy_point_spec()
        &&& self.enemy_id_spec() == other.enemy_id_spec()
    }

    /// A fresh idle unit with full hit points.
    pub fn new(x: i64, y: i64, id: u32, team_id: u32, entity_type: EntityType) -> (r: Entity)
        requires
            Point::new_spec(x, y).wf(),
        ensures
            r.wf(),
            r.location_spec() == Point::new_spec(x, y),
            r.id_spec() == id,
            r.team_spec() == team_id,
            r.type_spec() == entity_type,
            r.hp_spec() == MAX_HP,
            r.cooldown_spec() == 0,
            r.path_spec().len() == 0,
            r.task_spec() == Task::Idle,
            r.orientation_spec() == id % 8,
            r.enemy_point_spec().is_none(),
            r.enemy_id_spec().is_none(),
    {
        Entity {
            location: Point::new(x, y),
            id,
            entity_type,
            waypoint_index: 0,
            path: Vec::new(),
            orientation: id % 8,
            team_id,
            hp: MAX_HP,
            cooldown: 0,
            closest_seen_enemy_point: None,
            closest_seen_enemy_id: None,
            task: Task::Idle,
        }
    }

    /// A unit with every field given, if together they satisfy the unit's
    /// invariants (see `wf`); for rebuilding saved state.
    pub fn restore(
        location: Point,
        id: u32,
        entity_type: EntityType,
        waypoint_index: u32,
        path: Vec<Point>,
        orientation: u32,
        team_id: u32,
        hp: i32,
        cooldown: u32,
        closest_seen_enemy_point: Option<Point>,
        closest_seen_enemy_id: Option<u32>,
        task: Task,
    ) -> (r: Option<Entity>)
        ensures
            r.is_some() <==> parts_wf(
                location,
                waypoint_index,
                path@,
                orientation,
                hp,
                cooldown,
                closest_seen_enemy_point,
                task,
            ),
            r matches Some(e) ==> {
                &&& e.location_spec() == location
                &&& e.id_spec() == id
                &&& e.type_spec() == entity_type
                &&& e.cursor() == waypoint_index
                &&& e.path_spec() == path@
                &&& e.orientation_spec() == orientation
                &&& e.team_spec() == team_id
                &&& e.hp_spec() == hp
                &&& e.cooldown_spec() == cooldown
                &&& e.enemy_point_spec() == closest_seen_enemy_point
                &&& e.enemy_id_spec() == closest_seen_enemy_id
                &&& e.task_spec() == task
            },
    {
        let ghost parts = path@;
        let e = Entity {
            location,
            id,
            entity_type,
            waypoint_index,
            path,
            orientation,
            team_id,
            hp,
            cooldown,
            closest_seen_enemy_point,
            closest_seen_enemy_id,
            task,
        };
        if e.is_well_formed() {
            Some(e)
        } else {
            None
        }
    }

    /// The fixed part of the unit's bytes (see `unit_header`).
    fn header_bytes(&self) -> (r: Vec<u8>)
        requires
            self.wf(),
        ensures
            r@.len() == UNIT_HEADER_LEN,
            unit_header(r@).0 == self.location_spec(),
            unit_header(r@).1 == self.id_spec(),
            type_of_code(unit_header(r@).2) == self.type_spec(),
            unit_header(r@).2 <= 2,
            unit_header(r@).3 == self.cursor(),
            unit_header(r@).4 == self.orientation_spec(),
            unit_header(r@).5 == self.team_spec(),
            unit_header(r@).6 == self.hp_spec(),
            unit_header(r@).7 == self.cooldown_spec(),
            unit_header(r@).8 <= 1,
            unit_enemy(r@) == self.enemy_point_spec(),
            unit_header(r@).10 == self.path_spec().len(),
    {
        let enemy = match self.closest_seen_enemy_point {
            Some(p) => p,
            None => Point::new(0, 0),
        };
        let flag: u8 = if self.closest_seen_enemy_point.is_some() {
            1
        } else {
            0
        };
        let code: u8 = match self.entity_type {
            EntityType::Peasant => 0,
            EntityType::Ranged => 1,
            EntityType::Meelee => 2,
        };
        let n = self.path.len();
        let p0 = i64_as_bytes(self.location.x);
        let p1 = i64_as_bytes(self.location.y);
        let p2 = crate::binary_helpers::u32_as_bytes(self.id);
        let p3 = vec![code];
        let p4 = crate::binary_helpers::u32_as_bytes(self.waypoint_index);
        let p5 = crate::binary_helpers::u32_as_bytes(self.orientation);
        let p6 = crate::binary_helpers::u32_as_bytes(self.team_id);
        let p7 = crate::binary_helpers::i32_as_bytes(self.hp);
        let p8 = crate::binary_helpers::u32_as_bytes(self.cooldown);
        let p9 = vec![flag];
        let p10 = i64_as_bytes(enemy.x);
        let p11 = i64_as_bytes(enemy.y);
        let p12 = crate::binary_helpers::u32_as_bytes(n as u32);
        let ghost g = (p0@, p1@, p2@, p3@, p4@, p5@, p6@, p7@, p8@, p9@, p10@, p11@, p12@);
        let mut out: Vec<u8> = Vec::new();
        append_bytes(&mut out, p0);
        append_bytes(&mut out, p1);
        append_bytes(&mut out, p2);
        append_bytes(&mut out, p3);
        append_bytes(&mut out, p4);
        append_bytes(&mut out, p5);
        append_bytes(&mut out, p6);
        append_bytes(&mut out, p7);
        append_bytes(&mut out, p8);
        append_bytes(&mut out, p9);
        append_bytes(&mut out, p10);
        append_bytes(&mut out, p11);
        append_bytes(&mut out, p12);
        proof {
            let h = out@;
            assert(h.subrange(0, 8) =~= g.0);
            assert(h.subrange(8, 16) =~= g.1);
            assert(h.subrange(16, 20) =~= g.2);
            assert(h[20] == code);
            assert(h.subrange(21, 25) =~= g.4);
            assert(h.subrange(25, 29) =~= g.5);
            assert(h.subrange(29, 33) =~= g.6);
            assert(h.subrange(33, 37) =~= g.7);
            assert(h.subrange(37, 41) =~= g.8);
            assert(h[41] == flag);
            assert(h.subrange(42, 50) =~= g.10);
            assert(h.subrange(50, 58) =~= g.11);
            assert(h.subrange(58, 62) =~= g.12);
            assert(unit_header(h).0 == self.location);
            assert(unit_header(h).9 == enemy);
        }
        out
    }

    /// The bytes of the unit (see `unit_header`): the header, the path
    /// points, then the task.
    pub fn to_bytes(&self) -> (r: Vec<u8>)
        requires
            self.wf(),
        ensures
            unit_encodes(r@, *self),
    {
        let n = self.path.len();
        let mut out = self.header_bytes();
        let ghost header = out@;
        assert(header.len() == UNIT_HEADER_LEN);
        let mut k: usize = 0;
        while k < n
            invariant
                n == self.path@.len(),
                k <= n,
                header.len() == UNIT_HEADER_LEN,
                out@.len() == UNIT_HEADER_LEN + 16 * k,
                out@.subrange(0, UNIT_HEADER_LEN as int) == header,
                forall|q: int| 0 <= q < k ==> #[trigger] point_at(out@, UNIT_HEADER_LEN + 16 * q) == self.path@[q],
            decreases n - k,
        {
            let ghost before = out@;
            push_point(&mut out, self.path[k]);
            proof {
                lemma_prefix_sub(out@, before, 0, UNIT_HEADER_LEN as int);
                assert forall|q: int| 0 <= q < k + 1 implies #[trigger] point_at(out@, UNIT_HEADER_LEN + 16 * q) == self.path@[q] by {
                    if q < k {
                        let o = UNIT_HEADER_LEN + 16 * q;
                        lemma_prefix_sub(out@, before, o, o + 8);
                        lemma_prefix_sub(out@, before, o + 8, o + 16);
                        assert(point_at(before, o) == self.path@[q]);
                    }
                }
            }
            k = k + 1;
        }
        let ghost body = out@;
        let task_bytes = self.task.to_bytes();
        let ghost tb = task_bytes@;
        append_bytes(&mut out, task_bytes);
        proof {
            let f = out@;
            assert(f.subrange(0, body.len() as int) =~= body);
            lemma_prefix_sub(f, body, 0, UNIT_HEADER_LEN as int);
            lemma_prefix_sub(body, header, 0, UNIT_HEADER_LEN as int);
            assert(f.subrange(0, UNIT_HEADER_LEN as int) == header);
            lemma_header_same(f, header);
            lemma_header_same(body, header);
            assert(unit_header(f).10 == n);
            assert(unit_task_start(f) == body.len());
            assert(f.subrange(body.len() as int, f.len() as int) =~= tb);
            assert forall|q: int| 0 <= q < n implies #[trigger] unit_path(f)[q] == self.path@[q] by {
                let o = UNIT_HEADER_LEN + 16 * q;
                lemma_prefix_sub(f, body, o, o + 8);
                lemma_prefix_sub(f, body, o + 8, o + 16);
                assert(point_at(body, o) == self.path@[q]);
            }
            assert(unit_path(f) =~= self.path@);
        }
        out
    }

    /// The unit `bytes` hold, if they are laid out as `to_bytes` writes
    /// and the fields satisfy the unit invariants. No enemy id is kept.
    pub fn from_binary(bytes: &Vec<u8>) -> (r: Option<Entity>)
        ensures
            r.is_some() <==> unit_layout_ok(bytes@) && unit_parts_ok(bytes@),
            r matches Some(e) ==> unit_encodes(bytes@, e) && e.enemy_id_spec().is_none(),
    {
        let len = bytes.len();
        if len < UNIT_HEADER_LEN {
            return None;
        }
        let location = Point::new(i64_at(bytes, 0), i64_at(bytes, 8));
        let id = u32_at(bytes, 16);
        let code = bytes[20];
        let waypoint_index = u32_at(bytes, 21);
        let orientation = u32_at(bytes, 25);
        let team_id = u32_at(bytes, 29);
        let hp = i32_at(bytes, 33);
        let cooldown = u32_at(bytes, 37);
        let flag = bytes[41];
        let enemy = Point::new(i64_at(bytes, 42), i64_at(bytes, 50));
        let n = u32_at(bytes, 58);
        if code > 2 || flag > 1 {
            return None;
        }
        let entity_type = if code == 0 {
            EntityType::Peasant
        } else if code == 1 {
            EntityType::Ranged
        } else {
            EntityType::Meelee
        };
        if (len as u64) < UNIT_HEADER_LEN as u64 + 16 * (n as u64) {
            return None;
        }
        let mut path: Vec<Point> = Vec::new();
        let mut k: usize = 0;
        while k < n as usize
            invariant
                len == bytes@.len(),
                n == unit_header(bytes@).10,
                UNIT_HEADER_LEN + 16 * n <= len,
                k <= n,
                path@.len() == k,
                forall|q: int| 0 <= q < k ==> path@[q] == #[trigger] unit_path(bytes@)[q],
            decreases n - k,
        {
            let o = UNIT_HEADER_LEN + 16 * k;
            path.push(Point::new(i64_at(bytes, o), i64_at(bytes, o + 8)));
            k = k + 1;
        }
        assert(path@ =~= unit_path(bytes@));
        let start = UNIT_HEADER_LEN + 16 * (n as usize);
        let task_bytes = copy_range(bytes, start, len - start);
        let task = match Task::from_binary(&task_bytes) {
            Some(t) => t,
            None => {
                return None;
            },
        };
        let closest = if flag == 1 {
            Some(enemy)
        } else {
            None
        };
        Entity::restore(
            location,
            id,
            entity_type,
            waypoint_index,
            path,
            orientation,
            team_id,
            hp,
            cooldown,
            closest,
            None,
            task,
        )
    }

    /// Whether the unit satisfies its invariants.
    pub fn is_well_formed(&self) -> (r: bool)
        ensures
            r == self.wf(),
    {
        if !point_in_world(&self.location) {
            return false;
        }
        if self.hp < 0 || self.hp > MAX_HP || self.cooldown > ATTACK_COOLDOWN || self.orientation >= 8 {
            return false;
        }
        if self.path.len() > u32::MAX as usize {
            return false;
        }
        let mut k: usize = 0;
        while k < self.path.len()
            invariant
                k <= self.path@.len(),
                forall|q: int| 0 <= q < k ==> (#[trigger] self.path@[q]).wf(),
            decreases self.path@.len() - k,
        {
            if !point_in_world(&self.path[k]) {
                return false;
            }
            k = k + 1;
        }
        if self.path.len() == 0 {
            if self.waypoint_index != 0 || self.task != Task::Idle {
                return false;
            }
        } else if self.waypoint_index as usize >= self.path.len() {
            return false;
        }
        match self.closest_seen_enemy_point {
            Some(p) => point_in_world(&p),
            None => true,
        }
    }

    pub fn entity_type(&self) -> (r: EntityType)
        ensures
            r == self.type_spec(),
    {
        self.entity_type
    }

    pub fn orientation(&self) -> (r: u32)
        ensures
            r == self.orientation_spec(),
    {
        self.orientation
    }

    pub fn path(&self) -> (r: &Vec<Point>)
        ensures
            r@ == self.path_spec(),
    {
        &self.path
    }

    pub fn waypoint_index(&self) -> (r: u32)
        ensures
            r == self.cursor(),
    {
        self.waypoint_index
    }

    pub fn closest_seen_enemy_point(&self) -> (r: Option<Point>)
        ensures
            r == self.enemy_point_spec(),
    {
        self.closest_seen_enemy_point
    }

    pub fn closest_seen_enemy_id(&self) -> (r: Option<u32>)
        ensures
            r == self.enemy_id_spec(),
    {
        self.closest_seen_enemy_id
    }

    pub fn location(&self) -> (r: Point)
        ensures
            r == self.location_spec(),
    {
        self.location
    }

    pub fn id(&self) -> (r: u32)
        ensures
            r == self.id_spec(),
    {
        self.id
    }

    pub fn team_id(&self) -> (r: u32)
        ensures
            r == self.team_spec(),
    {
        self.team_id
    }

    pub fn hp(&self) -> (r: i32)
        ensures
            r == self.hp_spec(),
    {
        self.hp
    }

    pub fn cooldown(&self) -> (r: u32)
        ensures
            r == self.cooldown_spec(),
    {
        self.cooldown
    }

    pub fn task(&self) -> (r: Task)
        ensures
            r == self.task_spec(),
    {
        self.task
    }

    pub fn max_hp(&self) -> (r: i32)
        ensures
            r == MAX_HP,
    {
        MAX_HP
    }

    pub fn alive(&self) -> (r: bool)
        ensures
            r == (self.hp_spec() > 0),
    {
        self.hp > 0
    }

    pub fn is_ranged(&self) -> (r: bool)
        ensures
            r == (self.type_spec() == EntityType::Ranged),
    {
        match self.entity_type {
            EntityType::Peasant => false,
            EntityType::Meelee => false,
            _ => true,
        }
    }

    pub fn can_attack(&self) -> (r: bool)
        ensures
            r == (self.type_spec() != EntityType::Peasant),
    {
        match self.entity_type {
            EntityType::Peasant => false,
            _ => true,
        }
    }

    pub fn seeing_distance(&self) -> (r: i64)
        ensures
            r == SEEING_DISTANCE,
    {
        SEEING_DISTANCE
    }

    pub fn attack_distance(&self) -> (r: i64)
        ensures
            r == attack_range(self.type_spec()),
    {
        match self.entity_type {
            EntityType::Ranged => 8000,
            EntityType::Meelee => 600,
            _ => 0,
        }
    }

    /// Loses `amount` hit points, never going below zero.
    pub fn take_hit(&mut self, amount: u32)
        requires
            old(self).wf(),
        ensures
            final(self).wf(),
            same_but_hp(*final(self), *old(self)),
            final(self).hp_spec() == if old(self).hp_spec() > amount {
                old(self).hp_spec() - amount
            } else {
                0
            },
            final(self).location_spec() == old(self).location_spec(),
            final(self).id_spec() == old(self).id_spec(),
            final(self).team_spec() == old(self).team_spec(),
    {
        if self.hp as i64 > amount as i64 {
            self.hp = self.hp - amount as i32;
        } else {
            self.hp = 0;
        }
    }

    /// Whether the unit stands in the box spanned by two corners, widened
    /// by a quarter tile on each side.
    pub fn is_inside(&self, corner_1: (i64, i64), corner_2: (i64, i64)) -> (r: bool)
        requires
            -COORD_LIMIT <= corner_1.0 <= COORD_LIMIT,
            -COORD_LIMIT <= corner_1.1 <= COORD_LIMIT,
            -COORD_LIMIT <= corner_2.0 <= COORD_LIMIT,
            -COORD_LIMIT <= corner_2.1 <= COORD_LIMIT,
        ensures
            r == ({
                let l = self.location_spec();
                let min_x = if corner_1.0 < corner_2.0 { corner_1.0 } else { corner_2.0 };
                let max_x = if corner_1.0 < corner_2.0 { corner_2.0 } else { corner_1.0 };
                let min_y = if corner_1.1 < corner_2.1 { corner_1.1 } else { corner_2.1 };
                let max_y = if corner_1.1 < corner_2.1 { corner_2.1 } else { corner_1.1 };
                min_x - 250 < l.x < max_x + 250 && min_y - 250 < l.y < max_y + 250
            }),
    {
        let min_x = if corner_1.0 < corner_2.0 { corner_1.0 } else { corner_2.0 } - 250;
        let max_x = if corner_1.0 < corner_2.0 { corner_2.0 } else { corner_1.0 } + 250;
        let min_y = if corner_1.1 < corner_2.1 { corner_1.1 } else { corner_2.1 } - 250;
        let max_y = if corner_1.1 < corner_2.1 { corner_2.1 } else { corner_1.1 } + 250;
        self.location.x > min_x && self.location.x < max_x && self.location.y > min_y
            && self.location.y < max_y
    }

    /// Faces the direction of `vector` (one of eight).
    pub fn set_orientation_from_vector(&mut self, vector: &Vector)
        requires
            old(self).wf(),
            vector.wf(),
        ensures
            final(self).wf(),
            final(self).orientation_spec() == orientation_of(vector.x as int, vector.y as int),
            final(self).same_but_place(old(self)),
            final(self).location_spec() == old(self).location_spec(),
    {
        self.orientation = orientation_for(vector.x, vector.y);
    }

    /// Moves by `vector` (clamped to the world); optionally turns to face
    /// against the movement, as the sprites are drawn.
    pub fn move_vector(&mut self, vector: &Vector, update_orientation: bool)
        requires
            old(self).wf(),
            vector.wf(),
        ensures
            final(self).wf(),
            final(self).location_spec() == old(self).location_spec().added_spec(*vector),
            final(self).orientation_spec() == if update_orientation {
                orientation_of(-vector.x, -vector.y)
            } else {
                old(self).orientation_spec()
            },
            final(self).same_but_place(old(self)),
    {
        self.location = self.location.added(vector);
        if update_orientation {
            let neg = vector.negated();
            self.set_orientation_from_vector(&neg);
        }
    }

    /// Takes a new path with the cursor at its start, and a new task.
    pub fn set_path(&mut self, path: Vec<Point>, task: Task)
        requires
            old(self).wf(),
            path@.len() <= u32::MAX,
            forall|k: int| 0 <= k < path@.len() ==> (#[trigger] path@[k]).wf(),
            path@.len() == 0 ==> task == Task::Idle,
        ensures
            final(self).wf(),
            final(self).path_spec() == path@,
            final(self).cursor() == 0,
            final(self).task_spec() == task,
            final(self).location_spec() == old(self).location_spec(),
            final(self).orientation_spec() == old(self).orientation_spec(),
            final(self).id_spec() == old(self).id_spec(),
            final(self).type_spec() == old(self).type_spec(),
            final(self).team_spec() == old(self).team_spec(),
            final(self).hp_spec() == old(self).hp_spec(),
            final(self).cooldown_spec() == old(self).cooldown_spec(),
            final(self).enemy_point_spec() == old(self).enemy_point_spec(),
            final(self).enemy_id_spec() == old(self).enemy_id_spec(),
    {
        self.waypoint_index = 0;
        self.path = path;
        self.task = task;
    }

    /// Drops the path and goes idle.
    pub fn order_stop(&mut self)
        requires
            old(self).wf(),
        ensures
            final(self).wf(),
            final(self).path_spec().len() == 0,
            final(self).cursor() == 0,
            final(self).task_spec() == Task::Idle,
            final(self).location_spec() == old(self).location_spec(),
            final(self).orientation_spec() == old(self).orientation_spec(),
            final(self).id_spec() == old(self).id_spec(),
            final(self).type_spec() == old(self).type_spec(),
            final(self).team_spec() == old(self).team_spec(),
            final(self).hp_spec() == old(self).hp_spec(),
            final(self).cooldown_spec() == old(self).cooldown_spec(),
            final(self).enemy_point_spec() == old(self).enemy_point_spec(),
            final(self).enemy_id_spec() == old(self).enemy_id_spec(),
    {
        self.path = Vec::new();
        self.waypoint_index = 0;
        self.task = Task::Idle;
    }

    /// Forgets the tracked enemy.
    pub fn reset_closest_seen_enemy_position(&mut self)
        requires
            old(self).wf(),
        ensures
            final(self).wf(),
            final(self).enemy_point_spec().is_none(),
            final(self).enemy_id_spec().is_none(),
            final(self).location_spec() == old(self).location_spec(),
            final(self).id_spec() == old(self).id_spec(),
            final(self).type_spec() == old(self).type_spec(),
            final(self).team_spec() == old(self).team_spec(),
            final(self).hp_spec() == old(self).hp_spec(),
            final(self).cooldown_spec() == old(self).cooldown_spec(),
            final(self).cursor() == old(self).cursor(),
            final(self).path_spec() == old(self).path_spec(),
            final(self).task_spec() == old(self).task_spec(),
            final(self).orientation_spec() == old(self).orientation_spec(),
    {
        self.closest_seen_enemy_point = None;
        self.closest_seen_enemy_id = None;
    }

    /// Records where `other` stands as the tracked enemy position.
    pub fn update_closest_seen_enemy_point(&mut self, other_entity: &Entity)
        requires
            old(self).wf(),
            other_entity.wf(),
        ensures
            final(self).wf(),
            final(self).enemy_point_spec() == Some(other_entity.location_spec()),
            final(self).enemy_id_spec() == old(self).enemy_id_spec(),
            final(self).location_spec() == old(self).location_spec(),
            final(self).id_spec() == old(self).id_spec(),
            final(self).team_spec() == old(self).team_spec(),
            final(self).hp_spec() == old(self).hp_spec(),
    {
        self.closest_seen_enemy_point = Some(other_entity.location);
    }

    /// Tracks `other_entity` if it is an enemy within seeing distance and in
    /// line of sight, and no enemy is tracked yet or it is strictly closer
    /// (see `update_closest_seen_enemy_at`).
    pub fn update_closest_seen_enemy(&mut self, other_entity: &Entity, map: &GameMap)
        requires
            old(self).wf(),
            other_entity.wf(),
            map.wf(),
        ensures
            final(self).wf(),
            ({
                let me = old(self).location_spec();
                let there = other_entity.location_spec();
                let d = me.dist_to_spec(there).len_spec();
                let takes = other_entity.team_spec() != old(self).team_spec() && d
                    <= SEEING_DISTANCE && map.sight(me, there) && match old(self).enemy_point_spec() {
                    Some(p) => d < me.dist_to_spec(p).len_spec(),
                    None => true,
                };
                if takes {
                    final(self).enemy_point_spec() == Some(there) && final(self).enemy_id_spec()
                        == Some(other_entity.id_spec())
                } else {
                    final(self).enemy_point_spec() == old(self).enemy_point_spec()
                        && final(self).enemy_id_spec() == old(self).enemy_id_spec()
                }
            }),
            final(self).location_spec() == old(self).location_spec(),
            final(self).orientation_spec() == old(self).orientation_spec(),
            final(self).id_spec() == old(self).id_spec(),
            final(self).team_spec() == old(self).team_spec(),
            final(self).hp_spec() == old(self).hp_spec(),
    {
        self.update_closest_seen_enemy_at(other_entity.location, other_entity.id, other_entity.team_id, map);
    }

    /// Tracks the unit `other_id` of team `other_team` standing at `there`
    /// if it is an enemy within seeing distance and in line
    /// of sight, and no enemy is tracked yet or `other` is strictly closer.
    pub fn update_closest_seen_enemy_at(&mut self, there: Point, other_id: u32, other_team: u32, map: &GameMap)
        requires
            old(self).wf(),
            there.wf(),
            map.wf(),
        ensures
            final(self).wf(),
            ({
                let me = old(self).location_spec();
                let d = me.dist_to_spec(there).len_spec();
                let takes = other_team != old(self).team_spec() && d
                    <= SEEING_DISTANCE && map.sight(me, there) && match old(self).enemy_point_spec() {
                    Some(p) => d < me.dist_to_spec(p).len_spec(),
                    None => true,
                };
                if takes {
                    final(self).enemy_point_spec() == Some(there) && final(self).enemy_id_spec()
                        == Some(other_id)
                } else {
                    final(self).enemy_point_spec() == old(self).enemy_point_spec()
                        && final(self).enemy_id_spec() == old(self).enemy_id_spec()
                }
            }),
            final(self).location_spec() == old(self).location_spec(),
            final(self).id_spec() == old(self).id_spec(),
            final(self).type_spec() == old(self).type_spec(),
            final(self).team_spec() == old(self).team_spec(),
            final(self).hp_spec() == old(self).hp_spec(),
            final(self).cooldown_spec() == old(self).cooldown_spec(),
            final(self).cursor() == old(self).cursor(),
            final(self).path_spec() == old(self).path_spec(),
            final(self).task_spec() == old(self).task_spec(),
            final(self).orientation_spec() == old(self).orientation_spec(),
    {
        if other_team == self.team_id {
            return ;
        }
        let distance = self.location.dist_to(&there).length();
        if distance > SEEING_DISTANCE {
            return ;
        }
        if !map.line_of_sight(&self.location, &there) {
            return ;
        }
        let closer = match self.closest_seen_enemy_point {
            Some(point) => distance < self.location.dist_to(&point).length(),
            None => true,
        };
        if closer {
            self.closest_seen_enemy_point = Some(there);
            self.closest_seen_enemy_id = Some(other_id);
        }
    }

    /// Personal-space push from `other` (see `separation_push`); only this
    /// unit moves.
    pub fn interact_with(&mut self, other: &Entity, map: &GameMap)
        requires
            old(self).wf(),
            other.wf(),
        ensures
            final(self).wf(),
            final(self).location_spec() == old(self).location_spec().added_spec(
                separation_push(
                    old(self).location_spec(),
                    old(self).id_spec(),
                    other.location_spec(),
                    other.id_spec(),
                ),
            ),
            final(self).orientation_spec() == old(self).orientation_spec(),
            final(self).same_but_place(old(self)),
    {
        self.interact_with_at(other.location, other.id);
    }

    /// Personal-space push from the unit `other_id` standing at `there`.
    pub fn interact_with_at(&mut self, there: Point, other_id: u32)
        requires
            old(self).wf(),
            there.wf(),
        ensures
            final(self).wf(),
            final(self).location_spec() == old(self).location_spec().added_spec(
                separation_push(old(self).location_spec(), old(self).id_spec(), there, other_id),
            ),
            final(self).orientation_spec() == old(self).orientation_spec(),
            final(self).same_but_place(old(self)),
    {
        let push = separation_vector(&self.location, self.id, &there, other_id);
        self.move_vector(&push, false);
    }

    /// Steps directly away from the tracked enemy, if there is one.
    pub fn run_from_enemy(&mut self)
        requires
            old(self).wf(),
        ensures
            final(self).wf(),
            final(self).same_but_place(old(self)),
            match old(self).enemy_point_spec() {
                Some(p) => {
                    let step = step_away(old(self).location_spec(), p);
                    final(self).location_spec() == old(self).location_spec().added_spec(step)
                        && final(self).orientation_spec() == orientation_of(-step.x, -step.y)
                },
                None => final(self).location_spec() == old(self).location_spec()
                    && final(self).orientation_spec() == old(self).orientation_spec(),
            },
    {
        match self.closest_seen_enemy_point {
            Some(point) => {
                let vector_to_enemy = self.location.dist_to(&point);
                let step = vector_to_enemy.normalized().multiplied(STEP_LENGTH);
                self.move_vector(&step, true);
            },
            None => {},
        }
    }

    /// Closes in on the tracked enemy `point` when out of range; in range
    /// and with the cooldown over, fires at the enemy's position.
    fn attack_enemy(&mut self, point: Point) -> (r: Option<Projectile>)
        requires
            old(self).wf(),
            point.wf(),
        ensures
            final(self).wf(),
            final(self).id_spec() == old(self).id_spec(),
            final(self).type_spec() == old(self).type_spec(),
            final(self).team_spec() == old(self).team_spec(),
            final(self).hp_spec() == old(self).hp_spec(),
            final(self).cursor() == old(self).cursor(),
            final(self).path_spec() == old(self).path_spec(),
            final(self).task_spec() == old(self).task_spec(),
            final(self).enemy_point_spec() == old(self).enemy_point_spec(),
            final(self).enemy_id_spec() == old(self).enemy_id_spec(),
            ({
                let me = old(self).location_spec();
                if me.dist_to_spec(point).len_spec() > attack_range(old(self).type_spec()) {
                    let step = step_toward(me, point);
                    &&& final(self).location_spec() == me.added_spec(step)
                    &&& final(self).orientation_spec() == orientation_of(-step.x, -step.y)
                    &&& final(self).cooldown_spec() == old(self).cooldown_spec()
                    &&& r.is_none()
                } else if old(self).cooldown_spec() == 0 {
                    &&& final(self).location_spec() == me
                    &&& final(self).orientation_spec() == old(self).orientation_spec()
                    &&& final(self).cooldown_spec() == ATTACK_COOLDOWN
                    &&& r matches Some(p) && p.location_spec() == me && p.start_spec() == me
                        && p.end_spec() == point
                } else {
                    &&& final(self).location_spec() == me
                    &&& final(self).orientation_spec() == old(self).orientation_spec()
                    &&& final(self).cooldown_spec() == old(self).cooldown_spec()
                    &&& r.is_none()
                }
            }),
    {
        let vector_to_enemy = self.location.dist_to(&point);
        if vector_to_enemy.length() > self.attack_distance() {
            let step = vector_to_enemy.normalized().negated().multiplied(STEP_LENGTH);
            self.move_vector(&step, true);
            None
        } else if self.cooldown == 0 {
            self.cooldown = ATTACK_COOLDOWN;
            Some(Projectile::new(&self.location, &point))
        } else {
            None
        }
    }

    /// One tick of path following (see `follows_path`). Returns `false`,
    /// changing nothing, when there is no path.
    pub fn follow_path_finding(&mut self, map: &GameMap) -> (r: bool)
        requires
            old(self).wf(),
            map.wf(),
        ensures
            final(self).wf(),
            r == (old(self).path_spec().len() > 0),
            final(self).cooldown_spec() == old(self).cooldown_spec(),
            r ==> follows_path(*map, *old(self), *final(self)),
            !r ==> *final(self) == *old(self),
    {
        if self.path.len() == 0 {
            return false;
        }
        let ghost loc = self.location;
        let ghost path = self.path@;
        proof {
            lemma_cursor_in_range(*map, loc, path, self.waypoint_index as int);
        }
        let ghost w0 = self.waypoint_index as int;
        let mut sees = true;
        while sees && (self.waypoint_index as usize) + 1 < self.path.len()
            invariant
                self.wf(),
                map.wf(),
                self.path@ == path,
                self.location == loc,
                w0 <= self.waypoint_index,
                advance_cursor(*map, loc, path, w0) == advance_cursor(
                    *map,
                    loc,
                    path,
                    self.waypoint_index as int,
                ),
                !sees ==> advance_cursor(*map, loc, path, self.waypoint_index as int)
                    == self.waypoint_index,
                *self == (Entity { waypoint_index: self.waypoint_index, ..*old(self) }),
            decreases path.len() - self.waypoint_index, if sees { 1int } else { 0int },
        {
            let next = self.path[(self.waypoint_index + 1) as usize];
            if map.line_of_sight_fat(&self.location, &next, PATH_CLEARANCE) {
                self.waypoint_index = self.waypoint_index + 1;
            } else {
                sees = false;
            }
        }
        let ghost w1 = self.waypoint_index as int;
        assert(w1 == advance_cursor(*map, loc, path, w0));
        let mut blind = true;
        while blind && self.waypoint_index > 0
            invariant
                self.wf(),
                map.wf(),
                self.path@ == path,
                self.location == loc,
                retreat_cursor(*map, loc, path, w1) == retreat_cursor(
                    *map,
                    loc,
                    path,
                    self.waypoint_index as int,
                ),
                !blind ==> retreat_cursor(*map, loc, path, self.waypoint_index as int)
                    == self.waypoint_index,
                *self == (Entity { waypoint_index: self.waypoint_index, ..*old(self) }),
            decreases self.waypoint_index, if blind { 1int } else { 0int },
        {
            let current = self.path[self.waypoint_index as usize];
            if !map.line_of_sight_fat(&self.location, &current, PATH_CLEARANCE) {
                self.waypoint_index = self.waypoint_index - 1;
            } else {
                blind = false;
            }
        }
        assert(self.waypoint_index as int == retreat_cursor(*map, loc, path, w1));
        let point = self.path[self.waypoint_index as usize];
        let vec_to_waypoint = self.location.dist_to(&point);
        if vec_to_waypoint.length() < ARRIVAL_DISTANCE && self.path.len() - 1
            == self.waypoint_index as usize {
            self.location = point;
            self.order_stop();
        } else {
            let step = vec_to_waypoint.normalized().negated().multiplied(STEP_LENGTH);
            self.move_vector(&step, true);
        }
        true
    }

    /// One tick of the unit's own decisions. The cooldown drops by one.
    /// A unit that tracks an enemy and is not walking to a destination
    /// fights it (or flees, if it cannot fight); a walking unit follows its
    /// path whether or not it sees an enemy. Returns the projectile fired,
    /// if any.
    pub fn ai_stuff(&mut self, map: &GameMap) -> (r: Option<Projectile>)
        requires
            old(self).wf(),
            map.wf(),
        ensures
            final(self).wf(),
            ai_outcome(*map, *old(self), *final(self), r),
    {
        if self.cooldown > 0 {
            self.cooldown = self.cooldown - 1;
        }
        let moving = match self.task {
            Task::Move { .. } => true,
            Task::AttackMove { .. } => true,
            _ => false,
        };
        match self.closest_seen_enemy_point {
            Some(point) => {
                if !moving {
                    if self.can_attack() {
                        return self.attack_enemy(point);
                    } else {
                        self.run_from_enemy();
                        return None;
                    }
                }
            },
            None => {},
        }
        if moving {
            let ghost before = *self;
            self.follow_path_finding(map);
            assert(follows_path(*map, before, *self));
        }
        None
    }

    /// Keeps the unit in passable space: out of a blocked cell onto the
    /// nearest passable one (see `relocated`), then away from blocked
    /// edges and corners (see `wall_clamped`).
    pub fn interact_with_map(&mut self, map: &GameMap)
        requires
            old(self).wf(),
            map.wf(),
        ensures
            final(self).wf(),
            final(self).location_spec() == wall_clamped(*map, relocated(*map, old(self).location_spec())),
            final(self).orientation_spec() == old(self).orientation_spec(),
            final(self).same_but_place(old(self)),
    {
        let mut loc = self.location;
        let cell = loc.as_int();
        if !map.point_moveable(cell) {
            let c = map.closest_moveable_point(cell.0, cell.1);
            loc = Point::new(
                clamp_i64(c.0 as i64 * SCALE + SCALE / 2),
                clamp_i64(c.1 as i64 * SCALE + SCALE / 2),
            );
        }
        assert(loc == relocated(*map, old(self).location_spec()));
        self.location = wall_clamp(map, &loc);
    }

    /// The waypoint under the cursor, if the path has one.
    pub fn get_waypoint(&self) -> (r: Option<Point>)
        requires
            self.wf(),
        ensures
            self.path_spec().len() == 0 ==> r.is_none(),
            self.path_spec().len() > 0 ==> r == Some(self.path_spec()[self.cursor()]),
    {
        if (self.waypoint_index as usize) < self.path.len() {
            Some(self.path[self.waypoint_index as usize])
        } else {
            None
        }
    }
}

/// The position `wall_clamped` describes.
#[verifier::rlimit(30)]
fn wall_clamp(map: &GameMap, loc: &Point) -> (r: Point)
    requires
        map.wf(),
        loc.wf(),
    ensures
        r == wall_clamped(*map, *loc),
        r.wf(),
{
        let c = loc.as_int();
        let (bx, rx) = cell_split(loc.x);
        let (by, ry) = cell_split(loc.y);
        let ax: i64 = if rx - SCALE / 2 < 0 { SCALE / 2 - rx } else { rx - SCALE / 2 };
        let ay: i64 = if ry - SCALE / 2 < 0 { SCALE / 2 - ry } else { ry - SCALE / 2 };
        let lo_x = rx < WALL_MARGIN;
        let hi_x = rx > SCALE - WALL_MARGIN;
        let lo_y = ry < WALL_MARGIN;
        let hi_y = ry > SCALE - WALL_MARGIN;
        let mut x = loc.x;
        let mut y = loc.y;
        if lo_x && !map.point_moveable((c.0 - 1, c.1)) {
            x = bx + WALL_MARGIN;
        } else if hi_x && !map.point_moveable((c.0 + 1, c.1)) {
            x = bx + SCALE - WALL_MARGIN;
        }
        if lo_y && !map.point_moveable((c.0, c.1 - 1)) {
            y = by + WALL_MARGIN;
        } else if hi_y && !map.point_moveable((c.0, c.1 + 1)) {
            y = by + SCALE - WALL_MARGIN;
        }
        let corner_dy: i64 = if lo_x && lo_y && !map.point_moveable((c.0 - 1, c.1 - 1)) {
            -1
        } else if hi_x && lo_y && !map.point_moveable((c.0 + 1, c.1 - 1)) {
            -1
        } else if lo_x && hi_y && !map.point_moveable((c.0 - 1, c.1 + 1)) {
            1
        } else if hi_x && hi_y && !map.point_moveable((c.0 + 1, c.1 + 1)) {
            1
        } else {
            0
        };
        if corner_dy != 0 {
            if ax > ay {
                y = if corner_dy < 0 { by + WALL_MARGIN } else { by + SCALE - WALL_MARGIN };
            } else {
                x = if lo_x { bx + WALL_MARGIN } else { bx + SCALE - WALL_MARGIN };
            }
        }
        Point::new(clamp_i64(x), clamp_i64(y))
}

/// The edge of `v`'s cell nearest zero, and `v`'s offset from it.
fn cell_split(v: i64) -> (r: (i64, i64))
    requires
        -COORD_LIMIT <= v <= COORD_LIMIT,
    ensures
        r.0 == cell_base(v as int),
        r.1 == cell_rem(v as int),
        -COORD_LIMIT <= r.0 <= COORD_LIMIT,
        -SCALE < r.1 < SCALE,
{
    let q = div_trunc(v as i128, SCALE as i128);
    assert(-1_000_000 <= q <= 1_000_000);
    let base: i64 = q as i64 * SCALE;
    (base, v - base)
}

/// The push `separation_push` describes.
pub fn separation_vector(self_loc: &Point, self_id: u32, other_loc: &Point, other_id: u32) -> (r: Vector)
    requires
        self_loc.wf(),
        other_loc.wf(),
    ensures
        r == separation_push(*self_loc, self_id, *other_loc, other_id),
        r.wf(),
{
    let dist_vect = self_loc.dist_to(other_loc);
    let distance = dist_vect.length();
    if distance == 0 {
        if self_id < other_id {
            Vector::new(COINCIDENT_OFFSET, 0)
        } else {
            Vector::new(0, 0)
        }
    } else if distance < PERSONAL_SPACE {
        dist_vect.normalized().multiplied((PERSONAL_SPACE - distance) * 3 / 10)
    } else {
        Vector::new(0, 0)
    }
}

/// Of two units at one spot, only the one with the lower id is pushed, so
/// a single resolution step never moves both.
pub proof fn lemma_coincident_units_one_moves(p: Point, id_a: u32, id_b: u32)
    requires
        p.wf(),
        id_a != id_b,
    ensures
        id_a < id_b ==> separation_push(p, id_a, p, id_b) == coincident_push(),
        id_a > id_b ==> separation_push(p, id_a, p, id_b) == no_push(),
        separation_push(p, id_a, p, id_b) == no_push() || separation_push(p, id_b, p, id_a)
            == no_push(),
        separation_push(p, id_a, p, id_b) != no_push() || separation_push(p, id_b, p, id_a)
            != no_push(),
{
    let d = p.dist_to_spec(p);
    assert(d.x == 0 && d.y == 0);
    assert(d.norm_sq() == 0) by (nonlinear_arith)
        requires
            d.x == 0 && d.y == 0,
            d.norm_sq() == d.x * d.x + d.y * d.y,
    ;
    crate::geometry::lemma_isqrt_unique(0, 0);
}

/// Units farther apart than personal space do not push each other.
pub proof fn lemma_far_units_do_not_push(a: Point, id_a: u32, b: Point, id_b: u32)
    requires
        a.wf(),
        b.wf(),
        a.dist_to_spec(b).len_spec() >= PERSONAL_SPACE,
    ensures
        separation_push(a, id_a, b, id_b) == no_push(),
{
}


} // verus!

use vstd::prelude::*;
use crate::geometry::{Point, Vector, SCALE, COORD_LIMIT, cell_coord};
use crate::binary_helpers::{Binaryable, u32_as_bytes, pop_u32, pop_bytes_from_vec, be_u32};

verus! {

/// Base terrain of a tile.
#[derive(Clone, Copy, PartialEq, Eq, Structural, Debug)]
pub enum GroundType {
    Empty,
    Grass,
    Water,
    Sand,
    Rock,
}

/// What stands on a tile, above its ground.
#[derive(Clone, Copy, PartialEq, Eq, Structural, Debug)]
pub enum SecondLevelType {
    Empty,
    Building,
    Tree,
    CutTree,
}

/// Largest step count of one line-of-sight walk.
pub const SIGHT_STEP_BUDGET: u32 = 1000;

/// Rings searched by `closest_moveable_point` (radius 1 up to this, exclusive).
pub const RING_LIMIT: i32 = 20;

/// The tile grid: ground and overlay layers, row-major.
pub struct GameMap {
    height: u32,
    width: u32,
    data: Vec<GroundType>,
    second_level_data: Vec<SecondLevelType>,
}

pub open spec fn ground_walkable(g: GroundType) -> bool {
    g == GroundType::Grass || g == GroundType::Sand || g == GroundType::Rock
}

pub open spec fn overlay_walkable(s: SecondLevelType) -> bool {
    s == SecondLevelType::Empty || s == SecondLevelType::CutTree
}

/// The `k`-th cell that the ring search looks at around `(x, y)`:
/// rings of radius 1, 2, ... and in each ring +x, +y, -x, -y.
pub open spec fn ring_candidate(x: int, y: int, k: int) -> (int, int) {
    let i = k / 4 + 1;
    let d = k % 4;
    if d == 0 {
        (x + i, y)
    } else if d == 1 {
        (x, y + i)
    } else if d == 2 {
        (x - i, y)
    } else {
        (x, y - i)
    }
}

/// Number of candidates the ring search looks at.
pub open spec fn ring_count() -> int {
    4 * (RING_LIMIT - 1)
}

pub open spec fn abs(v: int) -> int {
    if v < 0 {
        -v
    } else {
        v
    }
}

/// The cell a line-of-sight walk from `a` toward `b` enters after cell `c`:
/// it crosses into x or y depending on which cell boundary the segment
/// reaches first (ties go to y; a segment with no x extent never steps in x).
pub open spec fn sight_next(a: Point, b: Point, c: (int, int)) -> (int, int) {
    let dx = b.x - a.x;
    let dy = b.y - a.y;
    let bx = if dx > 0 {
        (c.0 + 1) * SCALE
    } else {
        c.0 * SCALE
    };
    let by = if dy > 0 {
        (c.1 + 1) * SCALE
    } else {
        c.1 * SCALE
    };
    let nx = abs(bx - a.x);
    let ny = abs(by - a.y);
    let step_x = dx != 0 && (dy == 0 || nx * abs(dy) < ny * abs(dx));
    if step_x {
        (c.0 + if dx < 0 {
            -1int
        } else {
            1int
        }, c.1)
    } else {
        (c.0, c.1 + if dy < 0 {
            -1int
        } else {
            1int
        })
    }
}

/// Whether the walk from `a` toward `b`, standing in cell `c` with `fuel`
/// steps left, enters cell `t` (`b`'s cell included).
pub open spec fn sight_visits(a: Point, b: Point, c: (int, int), fuel: nat, t: (int, int)) -> bool
    decreases fuel,
{
    c == t || (c != b.cell() && fuel > 0 && sight_visits(a, b, sight_next(a, b, c), (fuel - 1) as nat, t))
}

/// A perpendicular offset of length `radius` (fixed point) for the segment `a`-`b`.
pub open spec fn side_offset(a: Point, b: Point, radius: int) -> Vector {
    let n = Vector { x: (b.x - a.x) as i64, y: (b.y - a.y) as i64 }.normalized_spec();
    Vector { x: n.y, y: (-n.x) as i64 }.multiplied_spec(radius)
}

/// `n` is the map `o` with the ground at `(x, y)` set to `g` (nothing
/// changes off the map).
pub open spec fn ground_set(o: GameMap, x: int, y: int, g: GroundType, n: GameMap) -> bool {
    &&& n.wf()
    &&& n.width_spec() == o.width_spec()
    &&& n.height_spec() == o.height_spec()
    &&& forall|i: int, j: int| #[trigger]
        n.ground_at(i, j) == if o.in_bounds(x, y) && i == x && j == y {
            g
        } else {
            o.ground_at(i, j)
        }
    &&& forall|i: int, j: int| #[trigger] n.overlay_at(i, j) == o.overlay_at(i, j)
}

/// Byte code of a ground type.
pub open spec fn ground_code(g: GroundType) -> u8 {
    match g {
        GroundType::Empty => 0,
        GroundType::Grass => 1,
        GroundType::Water => 2,
        GroundType::Sand => 3,
        GroundType::Rock => 4,
    }
}

/// Byte code of an overlay type.
pub open spec fn overlay_code(s: SecondLevelType) -> u8 {
    match s {
        SecondLevelType::Empty => 0,
        SecondLevelType::Building => 1,
        SecondLevelType::Tree => 2,
        SecondLevelType::CutTree => 3,
    }
}

/// Ground type of a byte code; unknown codes read as `Empty`.
pub open spec fn ground_of_code(b: u8) -> GroundType {
    if b == 1 {
        GroundType::Grass
    } else if b == 2 {
        GroundType::Water
    } else if b == 3 {
        GroundType::Sand
    } else if b == 4 {
        GroundType::Rock
    } else {
        GroundType::Empty
    }
}

/// Overlay type of a byte code; unknown codes read as `Empty`.
pub open spec fn overlay_of_code(b: u8) -> SecondLevelType {
    if b == 1 {
        SecondLevelType::Building
    } else if b == 2 {
        SecondLevelType::Tree
    } else if b == 3 {
        SecondLevelType::CutTree
    } else {
        SecondLevelType::Empty
    }
}

fn ground_to_byte(g: GroundType) -> (r: u8)
    ensures
        r == ground_code(g),
{
    match g {
        GroundType::Empty => 0,
        GroundType::Grass => 1,
        GroundType::Water => 2,
        GroundType::Sand => 3,
        GroundType::Rock => 4,
    }
}

fn overlay_to_byte(s: SecondLevelType) -> (r: u8)
    ensures
        r == overlay_code(s),
{
    match s {
        SecondLevelType::Empty => 0,
        SecondLevelType::Building => 1,
        SecondLevelType::Tree => 2,
        SecondLevelType::CutTree => 3,
    }
}

fn byte_to_ground(b: u8) -> (r: GroundType)
    ensures
        r == ground_of_code(b),
{
    if b == 1 {
        GroundType::Grass
    } else if b == 2 {
        GroundType::Water
    } else if b == 3 {
        GroundType::Sand
    } else if b == 4 {
        GroundType::Rock
    } else {
        GroundType::Empty
    }
}

fn byte_to_overlay(b: u8) -> (r: SecondLevelType)
    ensures
        r == overlay_of_code(b),
{
    if b == 1 {
        SecondLevelType::Building
    } else if b == 2 {
        SecondLevelType::Tree
    } else if b == 3 {
        SecondLevelType::CutTree
    } else {
        SecondLevelType::Empty
    }
}

/// Ground type for a height-noise sample (in thousandths): water below
/// -0.2, sand below -0.1, rock above 0.5, grass otherwise.
pub open spec fn ground_for_height(h: i32) -> GroundType {
    if h < -200 {
        GroundType::Water
    } else if h < -100 {
        GroundType::Sand
    } else if h > 500 {
        GroundType::Rock
    } else {
        GroundType::Grass
    }
}

/// Overlay for a tile: a tree where the tree noise is below -0.1, unless
/// the tile is water.
pub open spec fn overlay_for(g: GroundType, t: i32) -> SecondLevelType {
    if g != GroundType::Water && t < -100 {
        SecondLevelType::Tree
    } else {
        SecondLevelType::Empty
    }
}

impl Binaryable for GameMap {
    fn as_binary(&self) -> Vec<u8> {
        if self.is_well_formed() {
            self.to_bytes()
        } else {
            Vec::new()
        }
    }
}

/// `b` holds map `m`: width and height as big-endian `u32`, then one byte
/// per tile of the ground layer, then of the overlay layer, row by row.
pub open spec fn map_encodes(b: Seq<u8>, m: GameMap) -> bool {
    let wh = m.width_spec() * m.height_spec();
    &&& b.len() == 8 + 2 * wh
    &&& be_u32(b) == m.width_spec()
    &&& be_u32(b.subrange(4, b.len() as int)) == m.height_spec()
    &&& forall|x: int, y: int|
        m.in_bounds(x, y) ==> b[8 + m.index_of(x, y)] == ground_code(#[trigger] m.ground_at(x, y))
            && b[8 + wh + m.index_of(x, y)] == overlay_code(m.overlay_at(x, y))
}

/// A saved map reads back: `GameMap::from_binary` accepts its bytes and
/// rebuilds every tile.
pub proof fn lemma_map_round_trip(b: Seq<u8>, m: GameMap)
    requires
        m.wf(),
        map_encodes(b, m),
    ensures
        b.len() >= 8,
        be_u32(b) * be_u32(b.subrange(4, b.len() as int)) <= b.len() - 8,
        be_u32(b) * be_u32(b.subrange(4, b.len() as int)) <= u32::MAX,
        be_u32(b) <= i32::MAX,
        be_u32(b.subrange(4, b.len() as int)) <= i32::MAX,
        forall|x: int, y: int|
            m.in_bounds(x, y) ==> ground_of_code(b[8 + m.index_of(x, y)]) == #[trigger] m.ground_at(x, y)
                && 8 + m.width_spec() * m.height_spec() + m.index_of(x, y) < b.len()
                && overlay_of_code(b[8 + m.width_spec() * m.height_spec() + m.index_of(x, y)])
                == m.overlay_at(x, y),
{
    m.lemma_dimensions();
    assert forall|x: int, y: int| m.in_bounds(x, y) implies ground_of_code(b[8 + m.index_of(x, y)])
        == #[trigger] m.ground_at(x, y) && 8 + m.width_spec() * m.height_spec() + m.index_of(x, y)
        < b.len() && overlay_of_code(b[8 + m.width_spec() * m.height_spec() + m.index_of(x, y)])
        == m.overlay_at(x, y) by {
        m.lemma_index_in_range(x, y);
    }
}

impl GameMap {
    /// Whether the map satisfies its invariants.
    pub fn is_well_formed(&self) -> (r: bool)
        ensures
            r == self.wf(),
    {
        assert(self.width as u64 * self.height as u64 <= u64::MAX) by (nonlinear_arith)
            requires
                self.width <= u32::MAX,
                self.height <= u32::MAX,
        ;
        let wh: u64 = self.width as u64 * self.height as u64;
        wh <= u32::MAX as u64 && self.width <= i32::MAX as u32 && self.height <= i32::MAX as u32
            && self.data.len() as u64 == wh && self.second_level_data.len() as u64 == wh
    }

    /// The bytes of the map (see `map_encodes`).
    pub fn to_bytes(&self) -> (r: Vec<u8>)
        requires
            self.wf(),
        ensures
            map_encodes(r@, *self),
    {
        let mut binary_data = u32_as_bytes(self.width);
        let ghost wb = binary_data@;
        let mut h = u32_as_bytes(self.height);
        let ghost hb = h@;
        binary_data.append(&mut h);
        let ghost head = binary_data@;
        assert(head =~= wb + hb);
        let n = self.data.len();
        let mut k: usize = 0;
        while k < n
            invariant
                self.wf(),
                n == self.data@.len(),
                k <= n,
                binary_data@.len() == 8 + k,
                binary_data@.subrange(0, 8) == head,
                forall|q: int| 0 <= q < k ==> binary_data@[8 + q] == ground_code(#[trigger] self.data@[q]),
            decreases n - k,
        {
            let ghost before = binary_data@;
            binary_data.push(ground_to_byte(self.data[k]));
            assert(binary_data@.subrange(0, 8) =~= before.subrange(0, 8));
            k = k + 1;
        }
        let n2 = self.second_level_data.len();
        let mut k: usize = 0;
        while k < n2
            invariant
                self.wf(),
                n == self.data@.len(),
                n2 == self.second_level_data@.len(),
                n == n2,
                k <= n2,
                binary_data@.len() == 8 + n + k,
                binary_data@.subrange(0, 8) == head,
                forall|q: int| 0 <= q < n ==> binary_data@[8 + q] == ground_code(#[trigger] self.data@[q]),
                forall|q: int|
                    0 <= q < k ==> binary_data@[8 + n + q] == overlay_code(#[trigger] self.second_level_data@[q]),
            decreases n2 - k,
        {
            let ghost before = binary_data@;
            binary_data.push(overlay_to_byte(self.second_level_data[k]));
            assert(binary_data@.subrange(0, 8) =~= before.subrange(0, 8));
            k = k + 1;
        }
        proof {
            let b = binary_data@;
            assert(b[0] == head[0] && b[1] == head[1] && b[2] == head[2] && b[3] == head[3]);
            assert(b.subrange(4, b.len() as int)[0] == head[4]);
            assert(b.subrange(4, b.len() as int)[1] == head[5]);
            assert(b.subrange(4, b.len() as int)[2] == head[6]);
            assert(b.subrange(4, b.len() as int)[3] == head[7]);
            assert(head[4] == hb[0] && head[5] == hb[1] && head[6] == hb[2] && head[7] == hb[3]);
            assert(head[0] == wb[0] && head[1] == wb[1] && head[2] == wb[2] && head[3] == wb[3]);
            assert forall|x: int, y: int| self.in_bounds(x, y) implies b[8 + self.index_of(x, y)] == ground_code(
                #[trigger] self.ground_at(x, y),
            ) && b[8 + self.width_spec() * self.height_spec() + self.index_of(x, y)] == overlay_code(
                self.overlay_at(x, y),
            ) by {
                self.lemma_index_in_range(x, y);
                assert(self.data@[self.index_of(x, y)] == self.data@[self.index_of(x, y)]);
                assert(self.second_level_data@[self.index_of(x, y)] == self.second_level_data@[self.index_of(x, y)]);
            }
        }
        binary_data
    }

    /// Reads a map written by `as_binary`. Unknown tile codes, and overlay
    /// bytes missing at the end, read as `Empty`.
    pub fn from_binary(binary_data: Vec<u8>) -> (r: GameMap)
        requires
            binary_data@.len() >= 8,
            be_u32(binary_data@) * be_u32(binary_data@.subrange(4, binary_data@.len() as int))
                <= binary_data@.len() - 8,
            be_u32(binary_data@) * be_u32(binary_data@.subrange(4, binary_data@.len() as int))
                <= u32::MAX,
            be_u32(binary_data@) <= i32::MAX,
            be_u32(binary_data@.subrange(4, binary_data@.len() as int)) <= i32::MAX,
        ensures
            r.wf(),
            r.width_spec() == be_u32(binary_data@),
            r.height_spec() == be_u32(binary_data@.subrange(4, binary_data@.len() as int)),
            forall|x: int, y: int|
                r.in_bounds(x, y) ==> r.ground_at(x, y) == ground_of_code(
                    binary_data@[8 + r.index_of(x, y)],
                ),
            forall|x: int, y: int|
                r.in_bounds(x, y) ==> #[trigger] r.overlay_at(x, y) == if 8 + r.width_spec()
                    * r.height_spec() + r.index_of(x, y) < binary_data@.len() {
                    overlay_of_code(binary_data@[8 + r.width_spec() * r.height_spec() + r.index_of(x, y)])
                } else {
                    SecondLevelType::Empty
                },
    {
        let ghost all = binary_data@;
        let (width, rest) = pop_u32(binary_data);
        let (height, rest) = pop_u32(rest);
        assert(rest@ =~= all.subrange(8, all.len() as int));
        assert(width * height <= u32::MAX);
        let data_size: u32 = width * height;
        let mut new_map = GameMap::new(width, height);
        let (first, second) = pop_bytes_from_vec(rest, data_size);
        let mut n: usize = 0;
        while n < data_size as usize
            invariant
                new_map.wf(),
                new_map.width == width,
                new_map.height == height,
                data_size == width * height,
                first@.len() == data_size,
                8 + data_size <= all.len(),
                first@ == all.subrange(8, 8 + data_size),
                n <= data_size,
                forall|q: int| 0 <= q < n ==> new_map.data@[q] == ground_of_code(#[trigger] first@[q]),
                second@ == all.subrange(8 + data_size, all.len() as int),
                forall|q: int|
                    0 <= q < n ==> #[trigger] new_map.second_level_data@[q] == if q < second@.len() {
                        overlay_of_code(second@[q])
                    } else {
                        SecondLevelType::Empty
                    },
            decreases data_size - n,
        {
            new_map.data.set(n, byte_to_ground(first[n]));
            let overlay = if n < second.len() {
                byte_to_overlay(second[n])
            } else {
                SecondLevelType::Empty
            };
            new_map.second_level_data.set(n, overlay);
            n = n + 1;
        }
        proof {
            assert forall|x: int, y: int| new_map.in_bounds(x, y) implies new_map.ground_at(x, y)
                == ground_of_code(all[8 + new_map.index_of(x, y)]) by {
                new_map.lemma_index_in_range(x, y);
                assert(first@[new_map.index_of(x, y)] == all[8 + new_map.index_of(x, y)]);
            }
            assert forall|x: int, y: int| new_map.in_bounds(x, y) implies #[trigger] new_map.overlay_at(x, y)
                == if 8 + new_map.width_spec() * new_map.height_spec() + new_map.index_of(x, y) < all.len() {
                overlay_of_code(all[8 + new_map.width_spec() * new_map.height_spec() + new_map.index_of(x, y)])
            } else {
                SecondLevelType::Empty
            } by {
                new_map.lemma_index_in_range(x, y);
                assert(new_map.second_level_data@[new_map.index_of(x, y)] == new_map.second_level_data@[new_map.index_of(x, y)]);
            }
        }
        new_map
    }

    /// The walk from cell `c` with `fuel` steps left: it fails on any
    /// blocked cell it enters (the first and the last included), succeeds
    /// once it stands in `b`'s cell, and gives up (succeeding) when the
    /// steps run out.
    pub open spec fn sight_walk(&self, a: Point, b: Point, c: (int, int), fuel: nat) -> bool
        decreases fuel,
    {
        if !self.moveable(c) {
            false
        } else if c == b.cell() {
            true
        } else if fuel == 0 {
            true
        } else {
            self.sight_walk(a, b, sight_next(a, b, c), (fuel - 1) as nat)
        }
    }

    /// Line of sight from `a` to `b`.
    pub open spec fn sight(&self, a: Point, b: Point) -> bool {
        self.sight_walk(a, b, a.cell(), SIGHT_STEP_BUDGET as nat)
    }

    /// Line of sight of a body of half-width `radius` from `a` to `b`.
    pub open spec fn sight_fat(&self, a: Point, b: Point, radius: int) -> bool {
        let off = side_offset(a, b, radius);
        let neg = side_offset(a, b, -radius);
        if a.cell() == b.cell() && self.moveable(a.cell()) {
            true
        } else {
            self.sight(a.added_spec(off), b.added_spec(off)) && self.sight(
                a.added_spec(neg),
                b.added_spec(neg),
            )
        }
    }

    pub closed spec fn wf(&self) -> bool {
        &&& self.data.len() == self.width * self.height
        &&& self.second_level_data.len() == self.width * self.height
        &&& self.width * self.height <= u32::MAX
        &&& self.width <= i32::MAX
        &&& self.height <= i32::MAX
    }

    /// What a well-formed map guarantees about its dimensions.
    pub proof fn lemma_dimensions(&self)
        requires
            self.wf(),
        ensures
            self.width_spec() * self.height_spec() <= u32::MAX,
            0 <= self.width_spec() <= i32::MAX,
            0 <= self.height_spec() <= i32::MAX,
    {
    }

    pub closed spec fn width_spec(&self) -> int {
        self.width as int
    }

    pub closed spec fn height_spec(&self) -> int {
        self.height as int
    }

    pub open spec fn in_bounds(&self, x: int, y: int) -> bool {
        0 <= x < self.width_spec() && 0 <= y < self.height_spec()
    }

    pub open spec fn index_of(&self, x: int, y: int) -> int {
        x + y * self.width_spec()
    }

    /// Ground of a tile; `Empty` off the map.
    pub closed spec fn ground_at(&self, x: int, y: int) -> GroundType {
        if self.in_bounds(x, y) {
            self.data@[self.index_of(x, y)]
        } else {
            GroundType::Empty
        }
    }

    /// Overlay of a tile; `Empty` off the map.
    pub closed spec fn overlay_at(&self, x: int, y: int) -> SecondLevelType {
        if self.in_bounds(x, y) {
            self.second_level_data@[self.index_of(x, y)]
        } else {
            SecondLevelType::Empty
        }
    }

    /// A unit may stand on the tile.
    pub open spec fn moveable(&self, c: (int, int)) -> bool {
        ground_walkable(self.ground_at(c.0, c.1)) && overlay_walkable(self.overlay_at(c.0, c.1))
    }

    /// First passable cell of the ring search from index `k` on.
    pub open spec fn first_ring_hit(&self, x: int, y: int, k: int) -> Option<(int, int)>
        decreases ring_count() - k,
    {
        if k >= ring_count() || k < 0 {
            None
        } else if self.moveable(ring_candidate(x, y, k)) {
            Some(ring_candidate(x, y, k))
        } else {
            self.first_ring_hit(x, y, k + 1)
        }
    }

    /// Only tiles on the map are passable.
    pub proof fn lemma_moveable_in_bounds(&self, c: (int, int))
        requires
            self.moveable(c),
        ensures
            self.in_bounds(c.0, c.1),
    {
    }

    /// An on-map tile has an index inside the layers.
    pub proof fn lemma_index_in_range(&self, x: int, y: int)
        requires
            self.wf(),
            self.in_bounds(x, y),
        ensures
            0 <= self.index_of(x, y) < self.width_spec() * self.height_spec(),
            self.index_of(x, y) < u32::MAX,
    {
        let w = self.width as int;
        let h = self.height as int;
        assert(0 <= x + y * w < w * h) by (nonlinear_arith)
            requires
                0 <= x < w,
                0 <= y < h,
        ;
    }

    /// A map of grass with nothing on it.
    pub fn new(width: u32, height: u32) -> (r: GameMap)
        requires
            width * height <= u32::MAX,
            width <= i32::MAX,
            height <= i32::MAX,
        ensures
            r.wf(),
            r.width_spec() == width,
            r.height_spec() == height,
            forall|x: int, y: int|
                r.in_bounds(x, y) ==> r.ground_at(x, y) == GroundType::Grass && r.overlay_at(x, y)
                    == SecondLevelType::Empty,
    {
        let data_size: u32 = width * height;
        let data: Vec<GroundType> = vec![GroundType::Grass; data_size as usize];
        let second: Vec<SecondLevelType> = vec![SecondLevelType::Empty; data_size as usize];
        let r = GameMap { height, width, data, second_level_data: second };
        assert forall|x: int, y: int| r.in_bounds(x, y) implies r.ground_at(x, y)
            == GroundType::Grass && r.overlay_at(x, y) == SecondLevelType::Empty by {
            r.lemma_index_in_range(x, y);
        }
        r
    }

    /// A map whose terrain follows two noise fields sampled per tile, row
    /// by row, in thousandths: `height_noise` picks the ground and
    /// `tree_noise` places trees.
    pub fn new_random(width: u32, height: u32, height_noise: &Vec<i32>, tree_noise: &Vec<i32>) -> (r:
        GameMap)
        requires
            width * height <= u32::MAX,
            width <= i32::MAX,
            height <= i32::MAX,
            height_noise@.len() == width * height,
            tree_noise@.len() == width * height,
        ensures
            r.wf(),
            r.width_spec() == width,
            r.height_spec() == height,
            forall|x: int, y: int|
                r.in_bounds(x, y) ==> {
                    let g = ground_for_height(height_noise@[r.index_of(x, y)]);
                    r.ground_at(x, y) == g && r.overlay_at(x, y) == overlay_for(
                        g,
                        tree_noise@[r.index_of(x, y)],
                    )
                },
    {
        let data_size: u32 = width * height;
        let mut new_map = GameMap::new(width, height);
        let mut n: usize = 0;
        while n < data_size as usize
            invariant
                new_map.wf(),
                new_map.width == width,
                new_map.height == height,
                data_size == width * height,
                height_noise@.len() == data_size,
                tree_noise@.len() == data_size,
                n <= data_size,
                forall|q: int|
                    0 <= q < n ==> new_map.data@[q] == ground_for_height(#[trigger] height_noise@[q])
                        && new_map.second_level_data@[q] == overlay_for(
                        ground_for_height(height_noise@[q]),
                        tree_noise@[q],
                    ),
            decreases data_size - n,
        {
            let h = height_noise[n];
            let ground_type = if h < -200 {
                GroundType::Water
            } else if h < -100 {
                GroundType::Sand
            } else if h > 500 {
                GroundType::Rock
            } else {
                GroundType::Grass
            };
            let overlay = if ground_type != GroundType::Water && tree_noise[n] < -100 {
                SecondLevelType::Tree
            } else {
                SecondLevelType::Empty
            };
            new_map.data.set(n, ground_type);
            new_map.second_level_data.set(n, overlay);
            n = n + 1;
        }
        proof {
            assert forall|x: int, y: int| new_map.in_bounds(x, y) implies {
                let g = ground_for_height(height_noise@[new_map.index_of(x, y)]);
                new_map.ground_at(x, y) == g && new_map.overlay_at(x, y) == overlay_for(
                    g,
                    tree_noise@[new_map.index_of(x, y)],
                )
            } by {
                new_map.lemma_index_in_range(x, y);
            }
        }
        new_map
    }

    pub fn height(&self) -> (r: u32)
        ensures
            r == self.height_spec(),
    {
        self.height
    }

    pub fn width(&self) -> (r: u32)
        ensures
            r == self.width_spec(),
    {
        self.width
    }

    fn in_bounds_exec(&self, x: i32, y: i32) -> (r: bool)
        requires
            self.wf(),
        ensures
            r == self.in_bounds(x as int, y as int),
    {
        !(x < 0 || y < 0 || x >= self.width as i32 || y >= self.height as i32)
    }

    /// Row-major index of an on-map tile.
    pub fn coord_to_index(&self, x: i32, y: i32) -> (r: usize)
        requires
            self.wf(),
            self.in_bounds(x as int, y as int),
        ensures
            r == self.index_of(x as int, y as int),
            r < self.width_spec() * self.height_spec(),
    {
        proof {
            self.lemma_index_in_range(x as int, y as int);
        }
        (x as u32 + (y as u32) * self.width) as usize
    }

    /// Sets the overlay of a tile; off the map nothing changes.
    pub fn set_second_layer(&mut self, x: i32, y: i32, second_type: SecondLevelType)
        requires
            old(self).wf(),
        ensures
            final(self).wf(),
            final(self).width_spec() == old(self).width_spec(),
            final(self).height_spec() == old(self).height_spec(),
            forall|i: int, j: int| #[trigger]
                final(self).overlay_at(i, j) == if old(self).in_bounds(x as int, y as int) && i
                    == x && j == y {
                    second_type
                } else {
                    old(self).overlay_at(i, j)
                },
            forall|i: int, j: int| #[trigger]
                final(self).ground_at(i, j) == old(self).ground_at(i, j),
    {
        if !self.in_bounds_exec(x, y) {
            return ;
        }
        let index = self.coord_to_index(x, y);
        self.second_level_data.set(index, second_type);
        proof {
            assert forall|i: int, j: int| #[trigger]
                self.overlay_at(i, j) == if old(self).in_bounds(x as int, y as int) && i == x && j
                    == y {
                    second_type
                } else {
                    old(self).overlay_at(i, j)
                } by {
                if self.in_bounds(i, j) {
                    self.lemma_index_in_range(i, j);
                    if self.index_of(i, j) == self.index_of(x as int, y as int) {
                        self.lemma_index_unique(i, j, x as int, y as int);
                    }
                }
            }
        }
    }

    /// Sets the ground of a tile; off the map nothing changes.
    pub fn set(&mut self, x: i32, y: i32, ground_type: GroundType)
        requires
            old(self).wf(),
        ensures
            final(self).wf(),
            final(self).width_spec() == old(self).width_spec(),
            final(self).height_spec() == old(self).height_spec(),
            forall|i: int, j: int| #[trigger]
                final(self).ground_at(i, j) == if old(self).in_bounds(x as int, y as int) && i
                    == x && j == y {
                    ground_type
                } else {
                    old(self).ground_at(i, j)
                },
            forall|i: int, j: int| #[trigger]
                final(self).overlay_at(i, j) == old(self).overlay_at(i, j),
    {
        if !self.in_bounds_exec(x, y) {
            return ;
        }
        let index = self.coord_to_index(x, y);
        self.data.set(index, ground_type);
        proof {
            assert forall|i: int, j: int| #[trigger]
                self.ground_at(i, j) == if old(self).in_bounds(x as int, y as int) && i == x && j
                    == y {
                    ground_type
                } else {
                    old(self).ground_at(i, j)
                } by {
                if self.in_bounds(i, j) {
                    self.lemma_index_in_range(i, j);
                    if self.index_of(i, j) == self.index_of(x as int, y as int) {
                        self.lemma_index_unique(i, j, x as int, y as int);
                    }
                }
            }
        }
    }

    /// Distinct on-map tiles have distinct indices.
    pub proof fn lemma_index_unique(&self, i: int, j: int, x: int, y: int)
        requires
            self.in_bounds(i, j),
            self.in_bounds(x, y),
            self.index_of(i, j) == self.index_of(x, y),
        ensures
            i == x && j == y,
    {
        let w = self.width_spec();
        assert(i == x && j == y) by (nonlinear_arith)
            requires
                0 <= i < w,
                0 <= x < w,
                i + j * w == x + y * w,
        ;
    }

    /// Overlay of a tile; `Empty` off the map.
    pub fn get_at_second_level(&self, x: i32, y: i32) -> (r: SecondLevelType)
        requires
            self.wf(),
        ensures
            r == self.overlay_at(x as int, y as int),
            !self.in_bounds(x as int, y as int) ==> r == SecondLevelType::Empty,
    {
        if !self.in_bounds_exec(x, y) {
            return SecondLevelType::Empty;
        }
        let index = self.coord_to_index(x, y);
        self.second_level_data[index]
    }

    /// Ground of a tile; `Empty` off the map.
    pub fn get_at(&self, x: i32, y: i32) -> (r: GroundType)
        requires
            self.wf(),
        ensures
            r == self.ground_at(x as int, y as int),
            !self.in_bounds(x as int, y as int) ==> r == GroundType::Empty,
    {
        if !self.in_bounds_exec(x, y) {
            return GroundType::Empty;
        }
        let index = self.coord_to_index(x, y);
        self.data[index]
    }

    /// Whether a unit may stand on the tile: walkable ground and no blocking overlay.
    pub fn point_moveable(&self, point: (i32, i32)) -> (r: bool)
        requires
            self.wf(),
        ensures
            r == self.moveable((point.0 as int, point.1 as int)),
    {
        let ground_type = self.get_at(point.0, point.1);
        let second_level_type = self.get_at_second_level(point.0, point.1);
        let base_moveable = ground_type == GroundType::Grass || ground_type == GroundType::Sand
            || ground_type == GroundType::Rock;
        let second_level_moveable = second_level_type == SecondLevelType::Empty
            || second_level_type == SecondLevelType::CutTree;
        base_moveable && second_level_moveable
    }

    /// Whether the straight segment from `point_1` to `point_2` crosses only
    /// passable cells. The cells are walked one at a time from `point_1`'s
    /// cell (tested too) until `point_2`'s cell is reached.
    pub fn line_of_sight(&self, point_1: &Point, point_2: &Point) -> (r: bool)
        requires
            self.wf(),
            point_1.wf(),
            point_2.wf(),
        ensures
            r == self.sight(*point_1, *point_2),
            point_1.cell() == point_2.cell() ==> r == self.moveable(point_1.cell()),
    {
        let a = *point_1;
        let b = *point_2;
        let target = point_2.as_int();
        let start = point_1.as_int();
        let tx: i64 = target.0 as i64;
        let ty: i64 = target.1 as i64;
        let mut x: i64 = start.0 as i64;
        let mut y: i64 = start.1 as i64;
        let mut counter: u32 = 0;
        loop
            invariant
                self.wf(),
                a.wf(),
                b.wf(),
                a == *point_1,
                b == *point_2,
                (tx as int, ty as int) == b.cell(),
                counter <= SIGHT_STEP_BUDGET,
                abs(x - a.cell().0) + abs(y - a.cell().1) <= counter,
                -1_000_000 <= a.cell().0 <= 1_000_000,
                -1_000_000 <= a.cell().1 <= 1_000_000,
                self.sight_walk(a, b, (x as int, y as int), (SIGHT_STEP_BUDGET - counter) as nat)
                    == self.sight(a, b),
            decreases SIGHT_STEP_BUDGET + 1 - counter,
        {
            if !self.point_moveable((x as i32, y as i32)) {
                return false;
            }
            if x == tx && y == ty {
                return true;
            }
            let next = sight_step(&a, &b, x, y);
            x = next.0;
            y = next.1;
            counter = counter + 1;
            if counter > SIGHT_STEP_BUDGET {
                return true;
            }
        }
    }

    /// Line of sight for a body of half-width `radius`: both segments,
    /// shifted sideways by `radius` to either side, must be clear. Two
    /// points in one passable cell always see each other.
    pub fn line_of_sight_fat(&self, point_1: &Point, point_2: &Point, radius: i64) -> (r: bool)
        requires
            self.wf(),
            point_1.wf(),
            point_2.wf(),
            0 <= radius <= COORD_LIMIT,
        ensures
            r == self.sight_fat(*point_1, *point_2, radius as int),
    {
        let normal_vec = point_2.dist_to(point_1).normalized();
        let ninety_degree_vec = Vector::new(normal_vec.y, -normal_vec.x);
        let c1 = point_1.as_int();
        let c2 = point_2.as_int();
        if c1.0 == c2.0 && c1.1 == c2.1 && self.point_moveable(c1) {
            return true;
        }
        let off = ninety_degree_vec.multiplied(radius);
        let neg = ninety_degree_vec.multiplied(-radius);
        self.line_of_sight(&point_1.added(&off), &point_2.added(&off)) && self.line_of_sight(
            &point_1.added(&neg),
            &point_2.added(&neg),
        )
    }

    /// Nearest passable tile by the ring search (+x, +y, -x, -y for each
    /// radius), or `(x, y)` itself when none is found.
    pub fn closest_moveable_point(&self, x: i32, y: i32) -> (r: (i32, i32))
        requires
            self.wf(),
            i32::MIN + RING_LIMIT <= x <= i32::MAX - RING_LIMIT,
            i32::MIN + RING_LIMIT <= y <= i32::MAX - RING_LIMIT,
        ensures
            (r.0 as int, r.1 as int) == match self.first_ring_hit(x as int, y as int, 0) {
                Some(c) => c,
                None => (x as int, y as int),
            },
    {
        let mut i: i32 = 1;
        while i < RING_LIMIT
            invariant
                self.wf(),
                1 <= i <= RING_LIMIT,
                i32::MIN + RING_LIMIT <= x <= i32::MAX - RING_LIMIT,
                i32::MIN + RING_LIMIT <= y <= i32::MAX - RING_LIMIT,
                self.first_ring_hit(x as int, y as int, 0) == self.first_ring_hit(
                    x as int,
                    y as int,
                    4 * (i - 1),
                ),
            decreases RING_LIMIT - i,
        {
            let k: Ghost<int> = Ghost(4 * (i - 1));
            assert(ring_candidate(x as int, y as int, k@) == (x + i, y as int));
            assert(ring_candidate(x as int, y as int, k@ + 1) == (x as int, y + i));
            assert(ring_candidate(x as int, y as int, k@ + 2) == (x - i, y as int));
            assert(ring_candidate(x as int, y as int, k@ + 3) == (x as int, y - i));
            proof {
                reveal_with_fuel(GameMap::first_ring_hit, 5);
            }
            if self.point_moveable((x + i, y)) {
                return (x + i, y);
            }
            if self.point_moveable((x, y + i)) {
                return (x, y + i);
            }
            if self.point_moveable((x - i, y)) {
                return (x - i, y);
            }
            if self.point_moveable((x, y - i)) {
                return (x, y - i);
            }
            i = i + 1;
        }
        (x, y)
    }
}

/// One step of the line-of-sight walk from cell `(x, y)`.
fn sight_step(a: &Point, b: &Point, x: i64, y: i64) -> (r: (i64, i64))
    requires
        a.wf(),
        b.wf(),
        -2_000_000 <= x <= 2_000_000,
        -2_000_000 <= y <= 2_000_000,
    ensures
        (r.0 as int, r.1 as int) == sight_next(*a, *b, (x as int, y as int)),
{
    let dx: i128 = b.x as i128 - a.x as i128;
    let dy: i128 = b.y as i128 - a.y as i128;
    assert(SCALE == 1000);
    let bx: i128 = if dx > 0 {
        scaled(x + 1)
    } else {
        scaled(x)
    };
    let by: i128 = if dy > 0 {
        scaled(y + 1)
    } else {
        scaled(y)
    };
    let nx: i128 = abs_i128(bx - a.x as i128);
    let ny: i128 = abs_i128(by - a.y as i128);
    let adx: i128 = abs_i128(dx);
    let ady: i128 = abs_i128(dy);
    assert(nx * ady <= 7_000_000_000_000_000_000) by (nonlinear_arith)
        requires
            0 <= nx <= 3_002_000_000,
            0 <= ady <= 2_000_000_000,
    ;
    assert(ny * adx <= 7_000_000_000_000_000_000) by (nonlinear_arith)
        requires
            0 <= ny <= 3_002_000_000,
            0 <= adx <= 2_000_000_000,
    ;
    let step_x = dx != 0 && (dy == 0 || nx * ady < ny * adx);
    if step_x {
        (if dx < 0 {
            x - 1
        } else {
            x + 1
        }, y)
    } else {
        (x, if dy < 0 {
            y - 1
        } else {
            y + 1
        })
    }
}

fn scaled(v: i64) -> (r: i128)
    requires
        -3_000_000 <= v <= 3_000_000,
    ensures
        r == v * SCALE,
        -3_000_000_000 <= r <= 3_000_000_000,
{
    v as i128 * 1000
}

fn abs_i128(v: i128) -> (r: i128)
    requires
        v > i128::MIN,
    ensures
        r == abs(v as int),
{
    if v < 0 {
        -v
    } else {
        v
    }
}

/// A blocked cell that the walk from `a` toward `b` enters (either end
/// included) makes the sight line fail: putting any impassable cell in
/// the way of two points that saw each other breaks their line of sight.
pub proof fn lemma_blocked_cell_breaks_sight(m: GameMap, a: Point, b: Point, t: (int, int))
    requires
        sight_visits(a, b, a.cell(), SIGHT_STEP_BUDGET as nat, t),
        !m.moveable(t),
    ensures
        !m.sight(a, b),
{
    lemma_blocked_walk(m, a, b, a.cell(), SIGHT_STEP_BUDGET as nat, t);
}

proof fn lemma_blocked_walk(m: GameMap, a: Point, b: Point, c: (int, int), fuel: nat, t: (int, int))
    requires
        sight_visits(a, b, c, fuel, t),
        !m.moveable(t),
    ensures
        !m.sight_walk(a, b, c, fuel),
    decreases fuel,
{
    if c != t && m.moveable(c) {
        lemma_blocked_walk(m, a, b, sight_next(a, b, c), (fuel - 1) as nat, t);
    }
}

/// A point in a passable cell sees itself, and two points in one passable
/// cell see each other.
pub proof fn lemma_sight_within_cell(m: GameMap, a: Point, b: Point)
    requires
        a.cell() == b.cell(),
        m.moveable(a.cell()),
    ensures
        m.sight(a, b),
        m.sight(a, a),
{
}

} // verus!

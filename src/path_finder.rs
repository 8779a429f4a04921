use vstd::prelude::*;
use crate::geometry::{isqrt, is_isqrt, sqrt_floor, lemma_isqrt_unique, isqrt_exists, Point, SCALE, clamp_i64, clamp_coord};
use crate::map::GameMap;

verus! {

/// Cost of an orthogonal step, in thousandths of a tile.
pub const ORTHOGONAL_COST: u64 = 1000;

/// Cost of a diagonal step (the square root of two, in thousandths).
pub const DIAGONAL_COST: u64 = 1414;

/// Pops after which the search gives up.
pub const SEARCH_BUDGET: u32 = 500000;

/// Whether a unit may step from cell `p` to cell `t`: to an orthogonal
/// neighbour that is passable, or to a diagonal neighbour when it and both
/// cells flanking the corner are passable.
pub open spec fn valid_move(m: GameMap, p: (int, int), t: (int, int)) -> bool {
    let dx = t.0 - p.0;
    let dy = t.1 - p.1;
    if (dx == 0 && (dy == 1 || dy == -1)) || (dy == 0 && (dx == 1 || dx == -1)) {
        m.moveable(t)
    } else if (dx == 1 || dx == -1) && (dy == 1 || dy == -1) {
        m.moveable(t) && m.moveable((p.0 + dx, p.1)) && m.moveable((p.0, p.1 + dy))
    } else {
        false
    }
}

/// Each cell of `p` after the first is a legal move away from the one
/// before it, read backwards: `p[k]` is entered from `p[k + 1]`.
pub open spec fn steps_toward_goal(m: GameMap, p: Seq<(i32, i32)>) -> bool {
    forall|k: int|
        0 <= k < p.len() - 1 ==> valid_move(
            m,
            (p[k + 1].0 as int, p[k + 1].1 as int),
            (#[trigger] p[k].0 as int, p[k].1 as int),
        )
}

/// Whether `t` is one of the eight cells around `p`.
pub open spec fn adjacent(p: (int, int), t: (int, int)) -> bool {
    -1 <= t.0 - p.0 <= 1 && -1 <= t.1 - p.1 <= 1 && t != p
}

/// Units of the search heuristic per tile of straight-line distance. It
/// is a little under the 1000 units an orthogonal step costs, so that the
/// rounded-down heuristic never drops by more than a step costs: popped
/// weights then never decrease.
pub const HEURISTIC_SCALE: u64 = 999;

/// Straight-line distance between two cells, in `HEURISTIC_SCALE` units
/// per tile, rounded down.
pub open spec fn cell_distance(c: (int, int), s: (int, int)) -> int {
    sqrt_floor(((c.0 - s.0) * (c.0 - s.0) + (c.1 - s.1) * (c.1 - s.1)) * HEURISTIC_SCALE * HEURISTIC_SCALE)
}

/// Cost of the step from cell `p` to the neighbouring cell `c`.
pub open spec fn step_cost(p: (int, int), c: (int, int)) -> int {
    if p.0 != c.0 && p.1 != c.1 {
        DIAGONAL_COST as int
    } else {
        ORTHOGONAL_COST as int
    }
}

/// The heuristic drops by no more than a step costs: for one start.
proof fn lemma_distance_consistent(p: (int, int), c: (int, int), s: (int, int))
    requires
        adjacent(c, p),
    ensures
        cell_distance(p, s) <= step_cost(p, c) + cell_distance(c, s),
{
    let k = HEURISTIC_SCALE as int;
    let ux = c.0 - s.0;
    let uy = c.1 - s.1;
    let vx = p.0 - c.0;
    let vy = p.1 - c.1;
    let b = ux * ux + uy * uy;
    let a = (ux + vx) * (ux + vx) + (uy + vy) * (uy + vy);
    let s2 = vx * vx + vy * vy;
    let d = ux * vx + uy * vy;
    let cost = step_cost(p, c);
    assert(a == b + s2 + 2 * d) by (nonlinear_arith)
        requires
            a == (ux + vx) * (ux + vx) + (uy + vy) * (uy + vy),
            b == ux * ux + uy * uy,
            s2 == vx * vx + vy * vy,
            d == ux * vx + uy * vy,
    ;
    assert(b >= 0 && a >= 0) by (nonlinear_arith)
        requires
            a == (ux + vx) * (ux + vx) + (uy + vy) * (uy + vy),
            b == ux * ux + uy * uy,
    ;
    assert((s2 == 2 && cost == 1414) || (s2 == 1 && cost == 1000)) by {
        assert(-1 <= vx <= 1 && -1 <= vy <= 1);
        assert(vx != 0 || vy != 0);
        if vx == 0 {
            assert(s2 == 1) by (nonlinear_arith)
                requires
                    s2 == vx * vx + vy * vy,
                    vx == 0,
                    -1 <= vy <= 1,
                    vy != 0,
            ;
            assert(p.0 == c.0);
            assert(cost == 1000);
        } else if vy == 0 {
            assert(s2 == 1) by (nonlinear_arith)
                requires
                    s2 == vx * vx + vy * vy,
                    vy == 0,
                    -1 <= vx <= 1,
                    vx != 0,
            ;
            assert(p.1 == c.1);
            assert(cost == 1000);
        } else {
            assert(s2 == 2) by (nonlinear_arith)
                requires
                    s2 == vx * vx + vy * vy,
                    -1 <= vx <= 1,
                    -1 <= vy <= 1,
                    vx != 0,
                    vy != 0,
            ;
            assert(p.0 != c.0 && p.1 != c.1);
            assert(cost == 1414);
        }
    }
    assert(k * k == 998001);
    let cc = cost * cost;
    assert(cc >= s2 * 998001 && cost > 0) by (nonlinear_arith)
        requires
            cc == cost * cost,
            (s2 == 2 && cost == 1414) || (s2 == 1 && cost == 1000),
    ;
    let e = ux * vx;
    let f = uy * vy;
    assert(d == e + f);
    assert(e * e == ux * ux * (vx * vx)) by (nonlinear_arith)
        requires
            e == ux * vx,
    ;
    assert(f * f == uy * uy * (vy * vy)) by (nonlinear_arith)
        requires
            f == uy * vy,
    ;
    assert(d * d == e * e + 2 * (e * f) + f * f) by (nonlinear_arith)
        requires
            d == e + f,
    ;
    assert((e - f) * (e - f) == e * e - 2 * (e * f) + f * f) by (nonlinear_arith);
    assert((e - f) * (e - f) >= 0) by (nonlinear_arith);
    assert(ux * ux >= 0 && uy * uy >= 0) by (nonlinear_arith);
    assert(vx * vx <= 1 && vy * vy <= 1 && vx * vx >= 0 && vy * vy >= 0) by (nonlinear_arith)
        requires
            -1 <= vx <= 1,
            -1 <= vy <= 1,
    ;
    assert(b * s2 >= d * d) by {
        if vx == 0 || vy == 0 {
            assert(e * f == 0) by (nonlinear_arith)
                requires
                    e == ux * vx,
                    f == uy * vy,
                    vx == 0 || vy == 0,
            ;
            assert(e * e <= ux * ux && f * f <= uy * uy) by (nonlinear_arith)
                requires
                    e * e == ux * ux * (vx * vx),
                    f * f == uy * uy * (vy * vy),
                    vx * vx <= 1,
                    vy * vy <= 1,
                    ux * ux >= 0,
                    uy * uy >= 0,
            ;
            assert(b * s2 >= b) by (nonlinear_arith)
                requires
                    s2 >= 1,
                    b >= 0,
            ;
        } else {
            assert(vx * vx == 1 && vy * vy == 1) by (nonlinear_arith)
                requires
                    -1 <= vx <= 1,
                    -1 <= vy <= 1,
                    vx != 0,
                    vy != 0,
            ;
            assert(e * e == ux * ux && f * f == uy * uy);
            assert(b * s2 == 2 * (ux * ux) + 2 * (uy * uy));
        }
    }
    let nb = b * 998001;
    let na = a * 998001;
    assert(nb == b * k * k && na == a * k * k);
    let r = isqrt_exists(nb);
    lemma_isqrt_unique(nb, r);
    let hp = isqrt_exists(na);
    lemma_isqrt_unique(na, hp);
    let x = r + 1;
    let xx = x * x;
    assert(xx > nb);
    let xc = x * cost;
    assert(x > 0);
    assert(xc > 0) by (nonlinear_arith)
        requires
            xc == x * cost,
            x > 0,
            cost > 0,
    ;
    let dd = 998001 * d;
    assert(xc >= dd) by {
        if d > 0 {
            assert(xx * cc >= nb * cc) by (nonlinear_arith)
                requires
                    xx > nb,
                    cc > 0,
            ;
            assert(nb * cc >= nb * (s2 * 998001)) by (nonlinear_arith)
                requires
                    nb >= 0,
                    cc >= s2 * 998001,
            ;
            assert(nb * (s2 * 998001) >= dd * dd) by (nonlinear_arith)
                requires
                    nb == b * 998001,
                    dd == 998001 * d,
                    b * s2 >= d * d,
            ;
            assert(xc * xc == xx * cc) by (nonlinear_arith)
                requires
                    xc == x * cost,
                    xx == x * x,
                    cc == cost * cost,
            ;
            assert(xc >= dd) by (nonlinear_arith)
                requires
                    xc * xc >= dd * dd,
                    xc > 0,
                    dd > 0,
            ;
        }
    }
    assert((x + cost) * (x + cost) == xx + 2 * xc + cc) by (nonlinear_arith)
        requires
            xx == x * x,
            xc == x * cost,
            cc == cost * cost,
    ;
    assert(na == nb + s2 * 998001 + 2 * dd);
    assert((x + cost) * (x + cost) > na);
    assert(hp < x + cost) by (nonlinear_arith)
        requires
            hp * hp <= na,
            (x + cost) * (x + cost) > na,
            hp >= 0,
            x + cost > 0,
    ;
}

/// The heuristic (farthest start) drops by no more than a step costs.
proof fn lemma_heuristic_consistent(p: (int, int), c: (int, int), starts: Seq<(i32, i32)>, n: int)
    requires
        adjacent(c, p),
    ensures
        farthest_start(p, starts, n) <= step_cost(p, c) + farthest_start(c, starts, n),
    decreases n,
{
    if n > 0 {
        lemma_heuristic_consistent(p, c, starts, n - 1);
        lemma_distance_consistent(p, c, (starts[n - 1].0 as int, starts[n - 1].1 as int));
    }
}

/// Distance from `c` to the farthest of the first `k` start cells (0 if none).
pub open spec fn farthest_start(c: (int, int), starts: Seq<(i32, i32)>, k: int) -> int
    decreases k,
{
    if k <= 0 {
        0
    } else {
        let rest = farthest_start(c, starts, k - 1);
        let d = cell_distance(c, (starts[k - 1].0 as int, starts[k - 1].1 as int));
        if d > rest {
            d
        } else {
            rest
        }
    }
}

/// How many entries of `s` are non-zero.
spec fn filled(s: Seq<usize>) -> nat
    decreases s.len(),
{
    if s.len() == 0 {
        0
    } else {
        filled(s.drop_last()) + if s.last() != 0 {
            1nat
        } else {
            0nat
        }
    }
}

proof fn lemma_filled_le(s: Seq<usize>)
    ensures
        filled(s) <= s.len(),
    decreases s.len(),
{
    if s.len() > 0 {
        lemma_filled_le(s.drop_last());
    }
}

proof fn lemma_filled_update(s: Seq<usize>, i: int, v: usize)
    requires
        0 <= i < s.len(),
        s[i] == 0,
        v != 0,
    ensures
        filled(s.update(i, v)) == filled(s) + 1,
    decreases s.len(),
{
    let u = s.update(i, v);
    if i == s.len() - 1 {
        assert(u.drop_last() =~= s.drop_last());
    } else {
        assert(u.drop_last() =~= s.drop_last().update(i, v));
        lemma_filled_update(s.drop_last(), i, v);
    }
}

#[derive(Clone, Copy)]
struct TreeNode {
    cell: (i32, i32),
    parent: Option<usize>,
    dist: u64,
    weight: u64,
}

#[derive(Clone, Copy)]
struct FrontierEntry {
    cell: (i32, i32),
    parent: Option<usize>,
    distance_so_far: u64,
    weight: u64,
}

/// Result of one planning call: every cell the search settled, each with
/// the cell it was reached from (one step closer to the goal). The goal is
/// the root and has no predecessor.
pub struct SearchTree {
    goal: (i32, i32),
    width: u32,
    nodes: Vec<TreeNode>,
    slots: Vec<usize>,
    exhausted: bool,
}

impl SearchTree {
    /// The settled cells, in the order they were settled.
    pub closed spec fn cells(&self) -> Seq<(int, int)> {
        self.nodes@.map_values(|n: TreeNode| (n.cell.0 as int, n.cell.1 as int))
    }

    /// For each settled cell, the position of its predecessor in `cells`.
    pub closed spec fn parents(&self) -> Seq<Option<int>> {
        self.nodes@.map_values(
            |n: TreeNode|
                match n.parent {
                    Some(j) => Some(j as int),
                    None => None,
                },
        )
    }

    pub closed spec fn goal_spec(&self) -> (int, int) {
        (self.goal.0 as int, self.goal.1 as int)
    }

    /// For each settled cell, the cost of the path the search found to it
    /// from the goal.
    pub closed spec fn dists(&self) -> Seq<int> {
        self.nodes@.map_values(|n: TreeNode| n.dist as int)
    }

    /// For each settled cell, its weight when it was popped: its distance
    /// plus the straight-line distance to the farthest start.
    pub closed spec fn weights(&self) -> Seq<int> {
        self.nodes@.map_values(|n: TreeNode| n.weight as int)
    }

    /// Best-first order for the given starts: each cell's distance is its
    /// predecessor's plus the step cost, its weight is that distance plus
    /// the heuristic (`farthest_start`), and cells were settled in order of
    /// non-decreasing weight.
    pub open spec fn settled_in_order(&self, starts: Seq<(i32, i32)>) -> bool {
        &&& self.dists().len() == self.cells().len()
        &&& self.weights().len() == self.cells().len()
        &&& self.dists()[0] == 0
        &&& forall|i: int|
            0 < i < self.cells().len() ==> match #[trigger] self.parents()[i] {
                Some(j) => self.dists()[i] == self.dists()[j] + step_cost(self.cells()[j], self.cells()[i]),
                None => true,
            }
        &&& forall|i: int|
            0 <= i < self.cells().len() ==> #[trigger] self.weights()[i] == self.dists()[i] + farthest_start(
                self.cells()[i],
                starts,
                starts.len() as int,
            )
        &&& forall|i: int, j: int|
            0 <= i < j < self.cells().len() ==> #[trigger] self.weights()[i] <= #[trigger] self.weights()[j]
    }

    /// The search stopped on its pop budget.
    pub closed spec fn exhausted_spec(&self) -> bool {
        self.exhausted
    }

    pub open spec fn has(&self, c: (int, int)) -> bool {
        exists|i: int| 0 <= i < self.cells().len() && self.cells()[i] == c
    }

    /// The predecessor of cell `c` in the tree (`None` for the goal and for
    /// cells the search did not settle).
    pub open spec fn next_toward_goal(&self, c: (int, int)) -> Option<(int, int)> {
        if self.has(c) {
            self.parent_cell(choose|i: int| 0 <= i < self.cells().len() && self.cells()[i] == c)
        } else {
            None
        }
    }

    /// Predecessor of the `i`-th settled cell.
    pub open spec fn parent_cell(&self, i: int) -> Option<(int, int)> {
        match self.parents()[i] {
            Some(j) => Some(self.cells()[j]),
            None => None,
        }
    }

    /// A tree rooted at the goal whose every other cell was reached by a
    /// legal move from a cell settled before it.
    pub open spec fn valid(&self, m: GameMap) -> bool {
        &&& self.cells().len() >= 1
        &&& self.cells().len() == self.parents().len()
        &&& self.cells()[0] == self.goal_spec()
        &&& self.parents()[0] == None::<int>
        &&& forall|i: int, j: int|
            0 <= i < j < self.cells().len() ==> self.cells()[i] != self.cells()[j]
        &&& forall|i: int|
            0 < i < self.cells().len() ==> match #[trigger] self.parents()[i] {
                Some(j) => 0 <= j < i && valid_move(m, self.cells()[j], self.cells()[i]),
                None => false,
            }
    }

    /// No legal move leads out of the tree: the search saw everything
    /// reachable from the goal.
    pub open spec fn closed(&self, m: GameMap) -> bool {
        forall|i: int, t: (int, int)|
            0 <= i < self.cells().len() && #[trigger] valid_move(m, self.cells()[i], t)
                ==> self.has(t)
    }

    pub open spec fn reaches_all(&self, starts: Seq<(i32, i32)>) -> bool {
        forall|k: int| 0 <= k < starts.len() ==> self.has((starts[k].0 as int, starts[k].1 as int))
    }

    closed spec fn slots_ok(&self, m: GameMap) -> bool {
        &&& self.width == m.width_spec()
        &&& self.slots.len() == m.width_spec() * m.height_spec()
        &&& self.nodes.len() < usize::MAX
        &&& forall|i: int| 0 < i < self.cells().len() ==> m.in_bounds(#[trigger] self.cells()[i].0, self.cells()[i].1)
        &&& forall|x: int, y: int|
            m.in_bounds(x, y) ==> {
                let s = #[trigger] self.slots@[m.index_of(x, y)];
                &&& (s == 0 <==> !self.has((x, y)))
                &&& (s > 0 ==> s - 1 < self.cells().len() && self.cells()[s - 1] == (x, y))
            }
    }

    pub closed spec fn wf(&self, m: GameMap) -> bool {
        self.valid(m) && self.slots_ok(m)
    }

    /// A settled cell is found at one position only.
    proof fn lemma_unique_index(&self, i: int)
        requires
            self.cells().len() == self.parents().len(),
            forall|a: int, b: int| 0 <= a < b < self.cells().len() ==> self.cells()[a] != self.cells()[b],
            0 <= i < self.cells().len(),
        ensures
            self.has(self.cells()[i]),
            (choose|j: int| 0 <= j < self.cells().len() && self.cells()[j] == self.cells()[i]) == i,
            self.next_toward_goal(self.cells()[i]) == self.parent_cell(i),
    {
        let j = choose|j: int| 0 <= j < self.cells().len() && self.cells()[j] == self.cells()[i];
        if j < i {
            assert(self.cells()[j] != self.cells()[i]);
        } else if j > i {
            assert(self.cells()[i] != self.cells()[j]);
        }
    }

    /// Number of settled cells.
    pub fn len(&self) -> (r: usize)
        ensures
            r == self.cells().len(),
    {
        self.nodes.len()
    }

    /// The goal cell the tree is rooted at.
    pub fn goal(&self) -> (r: (i32, i32))
        ensures
            (r.0 as int, r.1 as int) == self.goal_spec(),
    {
        self.goal
    }

    /// Whether the search stopped on its pop budget.
    pub fn exhausted(&self) -> (r: bool)
        ensures
            r == self.exhausted_spec(),
    {
        self.exhausted
    }

    /// Position of `c` among the settled cells.
    fn find(&self, m: &GameMap, c: (i32, i32)) -> (r: Option<usize>)
        requires
            m.wf(),
            self.wf(*m),
        ensures
            match r {
                Some(i) => i < self.cells().len() && self.cells()[i as int] == (c.0 as int, c.1 as int),
                None => !self.has((c.0 as int, c.1 as int)),
            },
    {
        proof {
            m.lemma_dimensions();
        }
        if c.0 == self.goal.0 && c.1 == self.goal.1 {
            return Some(0);
        }
        if c.0 < 0 || c.1 < 0 || c.0 as i64 >= m.width() as i64 || c.1 as i64 >= m.height() as i64 {
            proof {
                assert forall|i: int| 0 <= i < self.cells().len() implies self.cells()[i] != (
                c.0 as int,
                c.1 as int,
                ) by {
                    if i > 0 {
                        assert(m.in_bounds(self.cells()[i].0, self.cells()[i].1));
                    }
                }
            }
            return None;
        }
        let idx = m.coord_to_index(c.0, c.1);
        let s = self.slots[idx];
        if s == 0 {
            None
        } else {
            Some(s - 1)
        }
    }

    /// Whether the search settled `c`.
    pub fn contains(&self, m: &GameMap, c: (i32, i32)) -> (r: bool)
        requires
            m.wf(),
            self.wf(*m),
        ensures
            r == self.has((c.0 as int, c.1 as int)),
    {
        self.find(m, c).is_some()
    }

    /// `None` if `c` was not settled; otherwise its predecessor, which is
    /// `None` for the goal itself.
    pub fn get(&self, m: &GameMap, c: (i32, i32)) -> (r: Option<Option<(i32, i32)>>)
        requires
            m.wf(),
            self.wf(*m),
        ensures
            r.is_none() == !self.has((c.0 as int, c.1 as int)),
            forall|i: int|
                0 <= i < self.cells().len() && self.cells()[i] == (c.0 as int, c.1 as int) ==> match r {
                    Some(Some(p)) => self.parent_cell(i) == Some((p.0 as int, p.1 as int)),
                    Some(None) => self.parent_cell(i) == None::<(int, int)>,
                    None => false,
                },
    {
        match self.find(m, c) {
            None => None,
            Some(i) => {
                match self.nodes[i].parent {
                    Some(j) => {
                        assert(self.parents()[i as int] == Some(j as int));
                        Some(Some(self.nodes[j].cell))
                    },
                    None => {
                        assert(self.parents()[i as int] == None::<int>);
                        Some(None)
                    },
                }
            },
        }
    }

    /// The cell path from `start` toward the goal, following predecessors.
    /// A start the search never settled gives the one-cell path `[start]`.
    pub fn path_from(&self, m: &GameMap, start: (i32, i32)) -> (r: Vec<(i32, i32)>)
        requires
            m.wf(),
            self.wf(*m),
        ensures
            r@.len() >= 1,
            r@.len() <= self.cells().len(),
            r@[0] == start,
            !self.has((start.0 as int, start.1 as int)) ==> r@.len() == 1,
            self.has((start.0 as int, start.1 as int)) ==> (r@.last().0 as int, r@.last().1 as int)
                == self.goal_spec(),
            steps_toward_goal(*m, r@),
            forall|k: int|
                0 <= k < r@.len() - 1 ==> self.next_toward_goal((#[trigger] r@[k].0 as int, r@[k].1 as int))
                    == Some((r@[k + 1].0 as int, r@[k + 1].1 as int)),
            self.next_toward_goal((r@.last().0 as int, r@.last().1 as int)) == None::<(int, int)>,
    {
        let mut path: Vec<(i32, i32)> = Vec::new();
        match self.find(m, start) {
            None => {
                path.push(start);
                path
            },
            Some(i0) => {
                let ghost first = i0 as int;
                let mut i: usize = i0;
                path.push(self.nodes[i].cell);
                loop
                    invariant
                        self.valid(*m),
                        self.has((start.0 as int, start.1 as int)),
                        i < self.cells().len(),
                        path@.len() >= 1,
                        path@[0] == start,
                        path@.len() + i <= first + 1,
                        first < self.cells().len(),
                        (path@.last().0 as int, path@.last().1 as int) == self.cells()[i as int],
                        steps_toward_goal(*m, path@),
                        forall|k: int|
                            0 <= k < path@.len() - 1 ==> self.next_toward_goal(
                                (#[trigger] path@[k].0 as int, path@[k].1 as int),
                            ) == Some((path@[k + 1].0 as int, path@[k + 1].1 as int)),
                    decreases i,
                {
                    proof {
                        self.lemma_unique_index(i as int);
                    }
                    match self.nodes[i].parent {
                        None => {
                            assert(self.parents()[i as int] == None::<int>);
                            return path;
                        },
                        Some(j) => {
                            assert(self.parents()[i as int] == Some(j as int));
                            let ghost old_path = path@;
                            path.push(self.nodes[j].cell);
                            proof {
                                assert forall|k: int| 0 <= k < path@.len() - 1 implies self.next_toward_goal(
                                    (#[trigger] path@[k].0 as int, path@[k].1 as int),
                                ) == Some((path@[k + 1].0 as int, path@[k + 1].1 as int)) by {
                                    if k < old_path.len() - 1 {
                                        assert(path@[k] == old_path[k]);
                                        assert(path@[k + 1] == old_path[k + 1]);
                                    } else {
                                        assert(path@[k] == old_path.last());
                                    }
                                }
                            }
                            assert forall|k: int| 0 <= k < path@.len() - 1 implies valid_move(
                                *m,
                                (path@[k + 1].0 as int, path@[k + 1].1 as int),
                                (#[trigger] path@[k].0 as int, path@[k].1 as int),
                            ) by {
                                if k < old_path.len() - 1 {
                                    assert(path@[k] == old_path[k]);
                                    assert(path@[k + 1] == old_path[k + 1]);
                                }
                            }
                            i = j;
                        },
                    }
                }
            },
        }
    }
}

impl SearchTree {
    /// Adds `cell` as settled, reached from the `parent`-th settled cell.
    fn settle(&mut self, m: &GameMap, cell: (i32, i32), parent: usize, dist: u64, weight: u64) -> (r: usize)
        requires
            m.wf(),
            old(self).wf(*m),
            !old(self).has((cell.0 as int, cell.1 as int)),
            parent < old(self).cells().len(),
            valid_move(*m, old(self).cells()[parent as int], (cell.0 as int, cell.1 as int)),
            old(self).cells().len() < usize::MAX - 1,
        ensures
            final(self).wf(*m),
            filled(final(self).slots@) == filled(old(self).slots@) + 1,
            final(self).cells() == old(self).cells().push((cell.0 as int, cell.1 as int)),
            final(self).parents() == old(self).parents().push(Some(parent as int)),
            final(self).dists() == old(self).dists().push(dist as int),
            final(self).weights() == old(self).weights().push(weight as int),
            final(self).goal_spec() == old(self).goal_spec(),
            final(self).exhausted_spec() == old(self).exhausted_spec(),
            r == old(self).cells().len(),
    {
        let r = self.nodes.len();
        assert(m.moveable((cell.0 as int, cell.1 as int)));
        proof {
            m.lemma_moveable_in_bounds((cell.0 as int, cell.1 as int));
        }
        let idx = m.coord_to_index(cell.0, cell.1);
        proof {
            m.lemma_index_in_range(cell.0 as int, cell.1 as int);
            assert(self.slots@[m.index_of(cell.0 as int, cell.1 as int)] == 0);
            lemma_filled_update(self.slots@, idx as int, (r + 1) as usize);
        }
        self.nodes.push(TreeNode { cell, parent: Some(parent), dist, weight });
        self.slots.set(idx, r + 1);
        proof {
            assert(self.cells() =~= old(self).cells().push((cell.0 as int, cell.1 as int)));
            assert(self.parents() =~= old(self).parents().push(Some(parent as int)));
            assert(self.dists() =~= old(self).dists().push(dist as int));
            assert(self.weights() =~= old(self).weights().push(weight as int));
            assert forall|i: int|
                0 < i < self.cells().len() implies match #[trigger] self.parents()[i] {
                Some(j) => 0 <= j < i && valid_move(*m, self.cells()[j], self.cells()[i]),
                None => false,
            } by {
                if i < old(self).cells().len() {
                    assert(old(self).parents()[i] == self.parents()[i]);
                }
            }
            assert forall|x: int, y: int| m.in_bounds(x, y) implies {
                let s = #[trigger] self.slots@[m.index_of(x, y)];
                &&& (s == 0 <==> !self.has((x, y)))
                &&& (s > 0 ==> s - 1 < self.cells().len() && self.cells()[s - 1] == (x, y))
            } by {
                m.lemma_index_in_range(x, y);
                if (x, y) == (cell.0 as int, cell.1 as int) {
                    assert(self.cells()[r as int] == (x, y));
                } else {
                    if m.index_of(x, y) == m.index_of(cell.0 as int, cell.1 as int) {
                        m.lemma_index_unique(x, y, cell.0 as int, cell.1 as int);
                    }
                    assert(self.slots@[m.index_of(x, y)] == old(self).slots@[m.index_of(x, y)]);
                    if self.has((x, y)) {
                        let i = choose|i: int| 0 <= i < self.cells().len() && self.cells()[i] == (x, y);
                        assert(i < old(self).cells().len());
                        assert(old(self).cells()[i] == (x, y));
                    }
                    if old(self).has((x, y)) {
                        let i = choose|i: int| 0 <= i < old(self).cells().len() && old(self).cells()[i] == (x, y);
                        assert(self.cells()[i] == (x, y));
                    }
                }
            }
        }
        r
    }

    /// Whether every start cell has been settled.
    fn reaches_every(&self, m: &GameMap, starts: &Vec<(i32, i32)>) -> (r: bool)
        requires
            m.wf(),
            self.wf(*m),
        ensures
            r == self.reaches_all(starts@),
    {
        let mut k: usize = 0;
        while k < starts.len()
            invariant
                m.wf(),
                self.wf(*m),
                k <= starts@.len(),
                forall|q: int| 0 <= q < k ==> self.has((starts@[q].0 as int, starts@[q].1 as int)),
            decreases starts@.len() - k,
        {
            if !self.contains(m, starts[k]) {
                return false;
            }
            k = k + 1;
        }
        true
    }
}

/// Straight-line distance between two cells in thousandths of a tile.
fn cell_distance_exec(c: (i32, i32), s: (i32, i32)) -> (r: u64)
    ensures
        r == cell_distance((c.0 as int, c.1 as int), (s.0 as int, s.1 as int)),
        r <= 0x1_0000_0000_0000,
{
    let dx: i64 = c.0 as i64 - s.0 as i64;
    let dy: i64 = c.1 as i64 - s.1 as i64;
    assert(0 <= dx * dx <= 0x1_0000_0000_0000_0000) by (nonlinear_arith)
        requires
            -0x1_0000_0000 <= dx <= 0x1_0000_0000,
    ;
    assert(0 <= dy * dy <= 0x1_0000_0000_0000_0000) by (nonlinear_arith)
        requires
            -0x1_0000_0000 <= dy <= 0x1_0000_0000,
    ;
    let sq: u128 = (dx as i128 * dx as i128 + dy as i128 * dy as i128) as u128;
    let n: u128 = sq * 998_001;
    let r = isqrt(n);
    proof {
        assert(HEURISTIC_SCALE * HEURISTIC_SCALE == 998_001);
        assert(n == ((c.0 - s.0) * (c.0 - s.0) + (c.1 - s.1) * (c.1 - s.1)) * HEURISTIC_SCALE * HEURISTIC_SCALE);
        lemma_isqrt_unique(n as int, r as int);
        assert(r <= 0x1_0000_0000_0000) by (nonlinear_arith)
            requires
                r * r <= n,
                n <= 0x2_0000_0000_0000_0000 * 1_000_000,
                r >= 0,
        ;
    }
    r
}

/// Distance from `c` to the farthest start cell.
fn farthest_start_exec(c: (i32, i32), starts: &Vec<(i32, i32)>) -> (r: u64)
    ensures
        r == farthest_start((c.0 as int, c.1 as int), starts@, starts@.len() as int),
        r <= 0x1_0000_0000_0000,
{
    let mut best: u64 = 0;
    let mut k: usize = 0;
    while k < starts.len()
        invariant
            k <= starts@.len(),
            best == farthest_start((c.0 as int, c.1 as int), starts@, k as int),
            best <= 0x1_0000_0000_0000,
        decreases starts@.len() - k,
    {
        let d = cell_distance_exec(c, starts[k]);
        if d > best {
            best = d;
        }
        k = k + 1;
    }
    best
}

/// Position of the frontier entry that is popped next: the lowest weight,
/// and among equal weights the one pushed first.
fn next_entry(frontier: &Vec<FrontierEntry>) -> (r: usize)
    requires
        frontier@.len() > 0,
    ensures
        r < frontier@.len(),
        forall|j: int| 0 <= j < frontier@.len() ==> frontier@[r as int].weight <= #[trigger] frontier@[j].weight,
        forall|j: int| 0 <= j < r ==> frontier@[r as int].weight < #[trigger] frontier@[j].weight,
{
    let mut best: usize = 0;
    let mut k: usize = 1;
    while k < frontier.len()
        invariant
            best < k <= frontier@.len(),
            forall|j: int| 0 <= j < k ==> frontier@[best as int].weight <= #[trigger] frontier@[j].weight,
            forall|j: int| 0 <= j < best ==> frontier@[best as int].weight < #[trigger] frontier@[j].weight,
        decreases frontier@.len() - k,
    {
        if frontier[k].weight < frontier[best].weight {
            best = k;
        }
        k = k + 1;
    }
    best
}

spec fn in_frontier(f: Seq<FrontierEntry>, t: (int, int)) -> bool {
    exists|k: int| 0 <= k < f.len() && (f[k].cell.0 as int, f[k].cell.1 as int) == t
}

/// Every entry was pushed by a settled cell with a legal move.
spec fn entries_ok(f: Seq<FrontierEntry>, t: SearchTree, m: GameMap, max_dist: int) -> bool {
    forall|k: int|
        0 <= k < f.len() ==> match #[trigger] f[k].parent {
            Some(j) => 0 <= j < t.cells().len() && valid_move(
                m,
                t.cells()[j as int],
                (f[k].cell.0 as int, f[k].cell.1 as int),
            ) && f[k].distance_so_far <= max_dist,
            None => false,
        }
}

/// Every entry carries its distance (its parent's plus the step) and its
/// weight, which is at least `floor_w`.
spec fn entries_weighed(f: Seq<FrontierEntry>, t: SearchTree, starts: Seq<(i32, i32)>, floor_w: int) -> bool {
    forall|k: int|
        0 <= k < f.len() ==> match #[trigger] f[k].parent {
            Some(j) => {
                &&& f[k].distance_so_far == t.dists()[j as int] + step_cost(
                    t.cells()[j as int],
                    (f[k].cell.0 as int, f[k].cell.1 as int),
                )
                &&& f[k].weight == f[k].distance_so_far + farthest_start(
                    (f[k].cell.0 as int, f[k].cell.1 as int),
                    starts,
                    starts.len() as int,
                )
                &&& f[k].weight >= floor_w
            },
            None => true,
        }
}

/// Every legal move out of a settled cell leads to a settled cell or to
/// one waiting in the frontier.
spec fn frontier_covers(f: Seq<FrontierEntry>, t: SearchTree, m: GameMap) -> bool {
    forall|i: int, c: (int, int)|
        0 <= i < t.cells().len() && #[trigger] valid_move(m, t.cells()[i], c) ==> t.has(c)
            || in_frontier(f, c)
}

fn push_entry(
    frontier: &mut Vec<FrontierEntry>,
    c: (i32, i32),
    parent: usize,
    distance_so_far: u64,
    starts: &Vec<(i32, i32)>,
)
    requires
        distance_so_far <= 0x1_0000_0000_0000,
    ensures
        final(frontier)@.len() == old(frontier)@.len() + 1,
        forall|k: int| 0 <= k < old(frontier)@.len() ==> final(frontier)@[k] == old(frontier)@[k],
        final(frontier)@.last().cell == c,
        final(frontier)@.last().parent == Some(parent),
        final(frontier)@.last().distance_so_far == distance_so_far,
        final(frontier)@.last().weight == distance_so_far + farthest_start(
            (c.0 as int, c.1 as int),
            starts@,
            starts@.len() as int,
        ),
{
    let h = farthest_start_exec(c, starts);
    frontier.push(
        FrontierEntry { cell: c, parent: Some(parent), distance_so_far, weight: distance_so_far + h },
    );
}

/// Pushes every legal move out of `c` (orthogonal ones first, then the
/// diagonals), each reached from the `parent`-th settled cell.
fn push_neighbours(
    m: &GameMap,
    frontier: &mut Vec<FrontierEntry>,
    c: (i32, i32),
    parent: usize,
    distance_so_far: u64,
    starts: &Vec<(i32, i32)>,
)
    requires
        m.wf(),
        i32::MIN < c.0 < i32::MAX,
        i32::MIN < c.1 < i32::MAX,
        distance_so_far <= 0x1_0000_0000,
    ensures
        final(frontier)@.len() >= old(frontier)@.len(),
        final(frontier)@.len() <= old(frontier)@.len() + 8,
        forall|k: int| 0 <= k < old(frontier)@.len() ==> final(frontier)@[k] == old(frontier)@[k],
        forall|k: int|
            old(frontier)@.len() <= k < final(frontier)@.len() ==> #[trigger] final(frontier)@[k].parent
                == Some(parent) && valid_move(
                *m,
                (c.0 as int, c.1 as int),
                (final(frontier)@[k].cell.0 as int, final(frontier)@[k].cell.1 as int),
            ) && final(frontier)@[k].distance_so_far <= distance_so_far + DIAGONAL_COST
                && final(frontier)@[k].distance_so_far == distance_so_far + step_cost(
                (c.0 as int, c.1 as int),
                (final(frontier)@[k].cell.0 as int, final(frontier)@[k].cell.1 as int),
            ) && final(frontier)@[k].weight == final(frontier)@[k].distance_so_far + farthest_start(
                (final(frontier)@[k].cell.0 as int, final(frontier)@[k].cell.1 as int),
                starts@,
                starts@.len() as int,
            ) && final(frontier)@[k].weight >= distance_so_far + farthest_start(
                (c.0 as int, c.1 as int),
                starts@,
                starts@.len() as int,
            ),
        forall|t: (int, int)|
            valid_move(*m, (c.0 as int, c.1 as int), t) ==> in_frontier(final(frontier)@, t),
{
    let ghost cc = (c.0 as int, c.1 as int);
    let ghost n0 = frontier@.len();
    let left = (c.0 - 1, c.1);
    let right = (c.0 + 1, c.1);
    let up = (c.0, c.1 - 1);
    let down = (c.0, c.1 + 1);
    let m_left = m.point_moveable(left);
    let m_right = m.point_moveable(right);
    let m_up = m.point_moveable(up);
    let m_down = m.point_moveable(down);
    let ortho = distance_so_far + ORTHOGONAL_COST;
    let diag = distance_so_far + DIAGONAL_COST;
    if m_left {
        push_entry(frontier, left, parent, ortho, starts);
    }
    let ghost f1 = frontier@;
    if m_right {
        push_entry(frontier, right, parent, ortho, starts);
    }
    let ghost f2 = frontier@;
    if m_up {
        push_entry(frontier, up, parent, ortho, starts);
    }
    let ghost f3 = frontier@;
    if m_down {
        push_entry(frontier, down, parent, ortho, starts);
    }
    let ghost f4 = frontier@;
    let dr = (c.0 + 1, c.1 + 1);
    if m_right && m_down && m.point_moveable(dr) {
        push_entry(frontier, dr, parent, diag, starts);
    }
    let ghost f5 = frontier@;
    let dl = (c.0 - 1, c.1 + 1);
    if m_left && m_down && m.point_moveable(dl) {
        push_entry(frontier, dl, parent, diag, starts);
    }
    let ghost f6 = frontier@;
    let ur = (c.0 + 1, c.1 - 1);
    if m_right && m_up && m.point_moveable(ur) {
        push_entry(frontier, ur, parent, diag, starts);
    }
    let ghost f7 = frontier@;
    let ul = (c.0 - 1, c.1 - 1);
    if m_left && m_up && m.point_moveable(ul) {
        push_entry(frontier, ul, parent, diag, starts);
    }
    proof {
        let f = frontier@;
        assert forall|k: int| n0 <= k < f.len() implies #[trigger] f[k].weight >= distance_so_far + farthest_start(
            cc,
            starts@,
            starts@.len() as int,
        ) by {
            let t = (f[k].cell.0 as int, f[k].cell.1 as int);
            assert(valid_move(*m, cc, t));
            assert(adjacent(cc, t));
            lemma_heuristic_consistent(cc, t, starts@, starts@.len() as int);
        }
        assert forall|t: (int, int)| valid_move(*m, cc, t) implies in_frontier(f, t) by {
            let dx = t.0 - cc.0;
            let dy = t.1 - cc.1;
            if dx == -1 && dy == 0 {
                assert(f[n0 as int] == f1.last());
            } else if dx == 1 && dy == 0 {
                assert(f[f1.len() as int] == f2.last());
            } else if dx == 0 && dy == -1 {
                assert(f[f2.len() as int] == f3.last());
            } else if dx == 0 && dy == 1 {
                assert(f[f3.len() as int] == f4.last());
            } else if dx == 1 && dy == 1 {
                assert(f[f4.len() as int] == f5.last());
            } else if dx == -1 && dy == 1 {
                assert(f[f5.len() as int] == f6.last());
            } else if dx == 1 && dy == -1 {
                assert(f[f6.len() as int] == f7.last());
            } else {
                assert(f[f7.len() as int] == f.last());
            }
        }
    }
}

/// Reverse best-first search from `goal_point` toward every start cell.
///
/// Frontier entries are popped by lowest weight (distance so far plus the
/// straight-line distance to the farthest start), first pushed first among
/// equals; a cell is settled the first time it is popped. The search stops
/// once every start is settled, when the frontier runs dry (then the tree
/// holds everything reachable from the goal), or after `SEARCH_BUDGET` pops.
pub fn build_search_tree(map: &GameMap, goal_point: (i32, i32), start_points: &Vec<(i32, i32)>) -> (r:
    SearchTree)
    requires
        map.wf(),
        i32::MIN < goal_point.0 < i32::MAX,
        i32::MIN < goal_point.1 < i32::MAX,
    ensures
        r.wf(*map),
        r.valid(*map),
        r.goal_spec() == (goal_point.0 as int, goal_point.1 as int),
        r.settled_in_order(start_points@),
        r.cells().len() <= SEARCH_BUDGET + 1,
        r.cells().len() <= map.width_spec() * map.height_spec() + 1,
        r.exhausted_spec() ==> SEARCH_BUDGET <= 8 * r.cells().len(),
        r.exhausted_spec() ==> SEARCH_BUDGET <= 8 * (map.width_spec() * map.height_spec() + 1),
        !r.exhausted_spec() ==> r.reaches_all(start_points@) || r.closed(*map),
{
    proof {
        map.lemma_dimensions();
    }
    let size: usize = (map.width() as usize) * (map.height() as usize);
    let mut slots: Vec<usize> = vec![0usize; size];
    assert(forall|i: int| 0 <= i < slots@.len() ==> slots@[i] == 0);
    let goal = goal_point;
    let goal_in = 0 <= goal.0 && 0 <= goal.1 && (goal.0 as i64) < (map.width() as i64) && (goal.1 as i64) < (
    map.height() as i64);
    assert(goal_in == map.in_bounds(goal.0 as int, goal.1 as int));
    if goal_in {
        let idx = map.coord_to_index(goal.0, goal.1);
        slots.set(idx, 1);
    }
    assert(forall|i: int|
        0 <= i < slots@.len() && !(goal_in && i == map.index_of(goal.0 as int, goal.1 as int))
            ==> slots@[i] == 0);
    assert(goal_in ==> slots@[map.index_of(goal.0 as int, goal.1 as int)] == 1);
    let root_weight = farthest_start_exec(goal, start_points);
    let mut tree = SearchTree {
        goal,
        width: map.width(),
        nodes: vec![TreeNode { cell: goal, parent: None, dist: 0, weight: root_weight }],
        slots,
        exhausted: false,
    };
    proof {
        assert(tree.cells() =~= seq![(goal.0 as int, goal.1 as int)]);
        assert(tree.parents() =~= seq![None::<int>]);
        assert(tree.dists() =~= seq![0int]);
        assert(tree.weights() =~= seq![root_weight as int]);
        assert forall|x: int, y: int| map.in_bounds(x, y) implies {
            let s = #[trigger] tree.slots@[map.index_of(x, y)];
            &&& (s == 0 <==> !tree.has((x, y)))
            &&& (s > 0 ==> s - 1 < tree.cells().len() && tree.cells()[s - 1] == (x, y))
        } by {
            map.lemma_index_in_range(x, y);
            if map.in_bounds(goal.0 as int, goal.1 as int) && map.index_of(x, y) == map.index_of(
                goal.0 as int,
                goal.1 as int,
            ) {
                map.lemma_index_unique(x, y, goal.0 as int, goal.1 as int);
            }
            if tree.has((x, y)) {
                assert(tree.cells()[0] == (x, y));
            }
            if (x, y) == (goal.0 as int, goal.1 as int) {
                assert(tree.cells()[0] == (x, y));
            }
        }
    }
    let mut frontier: Vec<FrontierEntry> = Vec::new();
    push_neighbours(map, &mut frontier, goal, 0, 0, start_points);
    assert(tree.settled_in_order(start_points@));
    assert(entries_weighed(frontier@, tree, start_points@, tree.weights().last()));
    if tree.reaches_every(map, start_points) {
        proof {
                lemma_filled_le(tree.slots@);
            }
            return tree;
    }
    let mut counter: u32 = 1;
    loop
        invariant
            map.wf(),
            tree.wf(*map),
            !tree.exhausted_spec(),
            tree.goal_spec() == (goal_point.0 as int, goal_point.1 as int),
            1 <= counter <= SEARCH_BUDGET,
            tree.cells().len() <= counter,
            tree.cells().len() <= filled(tree.slots@) + 1,
            tree.slots@.len() == map.width_spec() * map.height_spec(),
            counter - 1 + frontier@.len() <= 8 * tree.cells().len(),
            entries_ok(frontier@, tree, *map, DIAGONAL_COST * counter),
            frontier_covers(frontier@, tree, *map),
            tree.settled_in_order(start_points@),
            entries_weighed(frontier@, tree, start_points@, tree.weights().last()),
        decreases SEARCH_BUDGET + 1 - counter,
    {
        if frontier.len() == 0 {
            proof {
                assert forall|i: int, t: (int, int)|
                    0 <= i < tree.cells().len() && #[trigger] valid_move(*map, tree.cells()[i], t)
                    implies tree.has(t) by {
                    if in_frontier(frontier@, t) {
                        let k = choose|k: int| 0 <= k < frontier@.len() && (frontier@[k].cell.0 as int, frontier@[k].cell.1 as int) == t;
                    }
                }
            }
            proof {
                lemma_filled_le(tree.slots@);
            }
            return tree;
        }
        proof {
            map.lemma_dimensions();
        }
        let k = next_entry(&frontier);
        let ghost before = frontier@;
        let ghost old_tree = tree;
        let entry = frontier.remove(k);
        assert(entry == before[k as int]);
        let parent = match entry.parent {
            Some(j) => j,
            None => {
                assert(false);
                0
            },
        };
        assert(valid_move(*map, tree.cells()[parent as int], (entry.cell.0 as int, entry.cell.1 as int)));
        assert(map.moveable((entry.cell.0 as int, entry.cell.1 as int)));
        proof {
            map.lemma_moveable_in_bounds((entry.cell.0 as int, entry.cell.1 as int));
        }
        if !tree.contains(map, entry.cell) {
            let ghost mid = frontier@;
            let idx = tree.settle(map, entry.cell, parent, entry.distance_so_far, entry.weight);
            push_neighbours(map, &mut frontier, entry.cell, idx, entry.distance_so_far, start_points);
            proof {
                let f = frontier@;
                assert(tree.cells()[parent as int] == old_tree.cells()[parent as int]);
                assert(tree.dists()[parent as int] == old_tree.dists()[parent as int]);
                assert(old_tree.parents()[parent as int] == tree.parents()[parent as int]);
                assert(tree.settled_in_order(start_points@)) by {
                    assert forall|i: int|
                        0 < i < tree.cells().len() implies match #[trigger] tree.parents()[i] {
                        Some(j) => tree.dists()[i] == tree.dists()[j] + step_cost(tree.cells()[j], tree.cells()[i]),
                        None => true,
                    } by {
                        if i < old_tree.cells().len() {
                            assert(old_tree.parents()[i] == tree.parents()[i]);
                            match old_tree.parents()[i] {
                                Some(j) => {
                                    assert(0 <= j < i) by {
                                        assert(old_tree.valid(*map));
                                    }
                                    assert(tree.dists()[j] == old_tree.dists()[j]);
                                    assert(tree.cells()[j] == old_tree.cells()[j]);
                                },
                                None => {},
                            }
                        }
                    }
                    assert forall|i: int, j: int|
                        0 <= i < j < tree.cells().len() implies #[trigger] tree.weights()[i] <= #[trigger] tree.weights()[j] by {
                        if j == idx {
                            assert(tree.weights()[i] == old_tree.weights()[i]);
                            assert(old_tree.weights()[i] <= old_tree.weights().last());
                        }
                    }
                }
                assert forall|q: int| 0 <= q < f.len() implies match #[trigger] f[q].parent {
                    Some(j) => {
                        &&& f[q].distance_so_far == tree.dists()[j as int] + step_cost(
                            tree.cells()[j as int],
                            (f[q].cell.0 as int, f[q].cell.1 as int),
                        )
                        &&& f[q].weight == f[q].distance_so_far + farthest_start(
                            (f[q].cell.0 as int, f[q].cell.1 as int),
                            start_points@,
                            start_points@.len() as int,
                        )
                        &&& f[q].weight >= tree.weights().last()
                    },
                    None => true,
                } by {
                    if q < mid.len() {
                        assert(f[q] == mid[q]);
                        if q < k {
                            assert(mid[q] == before[q]);
                        } else {
                            assert(mid[q] == before[q + 1]);
                        }
                        let jj = before[q].parent.unwrap() as int;
                        assert(tree.cells()[jj] == old_tree.cells()[jj]);
                        assert(tree.dists()[jj] == old_tree.dists()[jj]);
                        assert(f[q].weight >= entry.weight);
                    } else {
                        assert(tree.cells()[idx as int] == (entry.cell.0 as int, entry.cell.1 as int));
                        assert(tree.dists()[idx as int] == entry.distance_so_far);
                    }
                }
                assert forall|q: int| 0 <= q < f.len() implies match #[trigger] f[q].parent {
                    Some(j) => 0 <= j < tree.cells().len() && valid_move(
                        *map,
                        tree.cells()[j as int],
                        (f[q].cell.0 as int, f[q].cell.1 as int),
                    ) && f[q].distance_so_far <= DIAGONAL_COST * (counter + 1),
                    None => false,
                } by {
                    if q < mid.len() {
                        assert(f[q] == mid[q]);
                        if q < k {
                            assert(mid[q] == before[q]);
                        } else {
                            assert(mid[q] == before[q + 1]);
                        }
                        assert(tree.cells()[before[q].parent.unwrap() as int] == old_tree.cells()[before[q].parent.unwrap() as int]);
                    } else {
                        assert(tree.cells()[idx as int] == (entry.cell.0 as int, entry.cell.1 as int));
                    }
                }
                assert forall|i: int, t: (int, int)|
                    0 <= i < tree.cells().len() && #[trigger] valid_move(*map, tree.cells()[i], t)
                    implies tree.has(t) || in_frontier(f, t) by {
                    if i < old_tree.cells().len() {
                        assert(old_tree.cells()[i] == tree.cells()[i]);
                        if old_tree.has(t) {
                            let w = choose|w: int| 0 <= w < old_tree.cells().len() && old_tree.cells()[w] == t;
                            assert(tree.cells()[w] == t);
                        } else {
                            let w = choose|w: int| 0 <= w < before.len() && (before[w].cell.0 as int, before[w].cell.1 as int) == t;
                            if w == k {
                                assert(tree.cells()[idx as int] == t);
                            } else if w < k {
                                assert(f[w] == before[w]);
                            } else {
                                assert(f[w - 1] == before[w]);
                            }
                        }
                    }
                }
            }
        } else {
            proof {
                let f = frontier@;
                assert forall|q: int| 0 <= q < f.len() implies match #[trigger] f[q].parent {
                    Some(j) => {
                        &&& f[q].distance_so_far == tree.dists()[j as int] + step_cost(
                            tree.cells()[j as int],
                            (f[q].cell.0 as int, f[q].cell.1 as int),
                        )
                        &&& f[q].weight == f[q].distance_so_far + farthest_start(
                            (f[q].cell.0 as int, f[q].cell.1 as int),
                            start_points@,
                            start_points@.len() as int,
                        )
                        &&& f[q].weight >= tree.weights().last()
                    },
                    None => true,
                } by {
                    if q < k {
                        assert(f[q] == before[q]);
                    } else {
                        assert(f[q] == before[q + 1]);
                    }
                }
                assert forall|q: int| 0 <= q < f.len() implies match #[trigger] f[q].parent {
                    Some(j) => 0 <= j < tree.cells().len() && valid_move(
                        *map,
                        tree.cells()[j as int],
                        (f[q].cell.0 as int, f[q].cell.1 as int),
                    ) && f[q].distance_so_far <= DIAGONAL_COST * (counter + 1),
                    None => false,
                } by {
                    if q < k {
                        assert(f[q] == before[q]);
                    } else {
                        assert(f[q] == before[q + 1]);
                    }
                }
                assert forall|i: int, t: (int, int)|
                    0 <= i < tree.cells().len() && #[trigger] valid_move(*map, tree.cells()[i], t)
                    implies tree.has(t) || in_frontier(f, t) by {
                    if !tree.has(t) {
                        let w = choose|w: int| 0 <= w < before.len() && (before[w].cell.0 as int, before[w].cell.1 as int) == t;
                        if w < k {
                            assert(f[w] == before[w]);
                        } else if w > k {
                            assert(f[w - 1] == before[w]);
                        }
                    }
                }
            }
        }
        if tree.reaches_every(map, start_points) {
            proof {
                lemma_filled_le(tree.slots@);
            }
            return tree;
        }
        counter = counter + 1;
        if counter > SEARCH_BUDGET {
            tree.exhausted = true;
            proof {
                lemma_filled_le(tree.slots@);
            }
            return tree;
        }
    }
}

/// The centre of a cell, in fixed point.
pub open spec fn cell_center(c: (i32, i32)) -> Point {
    Point {
        x: clamp_coord(c.0 * SCALE + SCALE / 2) as i64,
        y: clamp_coord(c.1 * SCALE + SCALE / 2) as i64,
    }
}

/// A unit's waypoints for a cell path: the centre of each cell, then the
/// exact goal point.
pub fn cell_path_to_points(cells: &Vec<(i32, i32)>, end_point: Point) -> (r: Vec<Point>)
    ensures
        r@.len() == cells@.len() + 1,
        forall|k: int| 0 <= k < cells@.len() ==> r@[k] == cell_center(#[trigger] cells@[k]),
        r@.last() == end_point,
        forall|k: int| 0 <= k < cells@.len() ==> (#[trigger] r@[k]).wf(),
{
    let mut out: Vec<Point> = Vec::new();
    let mut k: usize = 0;
    while k < cells.len()
        invariant
            k <= cells@.len(),
            out@.len() == k,
            forall|q: int| 0 <= q < k ==> out@[q] == cell_center(#[trigger] cells@[q]),
            forall|q: int| 0 <= q < k ==> (#[trigger] out@[q]).wf(),
        decreases cells@.len() - k,
    {
        let c = cells[k];
        out.push(
            Point::new(clamp_i64(c.0 as i64 * SCALE + SCALE / 2), clamp_i64(c.1 as i64 * SCALE + SCALE / 2)),
        );
        k = k + 1;
    }
    out.push(end_point);
    out
}

/// A start cell that no legal move can enter (all eight neighbours blocked,
/// and the goal is neither it nor next to it) is never settled, so its path
/// is the start cell alone.
pub proof fn lemma_enclosed_start_unreached(t: SearchTree, m: GameMap, s: (int, int))
    requires
        t.valid(m),
        forall|c: (int, int)| adjacent(s, c) ==> !m.moveable(c),
        !adjacent(s, t.goal_spec()),
        s != t.goal_spec(),
    ensures
        !t.has(s),
{
    if t.has(s) {
        let i = choose|i: int| 0 <= i < t.cells().len() && t.cells()[i] == s;
        assert(i != 0);
        match t.parents()[i] {
            Some(j) => {
                let p = t.cells()[j];
                assert(valid_move(m, p, s));
                assert(adjacent(s, p));
                if j > 0 {
                    match t.parents()[j] {
                        Some(jj) => {
                            assert(valid_move(m, t.cells()[jj], p));
                        },
                        None => {},
                    }
                }
            },
            None => {},
        }
    }
}

} // verus!

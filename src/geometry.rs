use vstd::prelude::*;

verus! {

/// Fixed-point units per tile.
pub const SCALE: i64 = 1000;

/// Largest magnitude a coordinate may take (in fixed-point units).
pub const COORD_LIMIT: i64 = 1_000_000_000;

/// Integer square root: the largest `r` with `r * r <= n`.
pub open spec fn is_isqrt(n: int, r: int) -> bool {
    0 <= r && r * r <= n && n < (r + 1) * (r + 1)
}

/// The floor square root of `n` (for `n >= 0`).
pub open spec fn sqrt_floor(n: int) -> int {
    choose|r: int| is_isqrt(n, r)
}

/// Division rounding toward zero, as Rust's `/` does on signed integers.
pub open spec fn trunc_div(a: int, b: int) -> int
    recommends
        b > 0,
{
    if a >= 0 {
        a / b
    } else {
        -((-a) / b)
    }
}

/// A coordinate pulled back into `[-COORD_LIMIT, COORD_LIMIT]`.
pub open spec fn clamp_coord(v: int) -> int {
    if v > COORD_LIMIT {
        COORD_LIMIT as int
    } else if v < -COORD_LIMIT {
        -COORD_LIMIT as int
    } else {
        v
    }
}

/// The tile that holds a fixed-point coordinate (truncation toward zero).
pub open spec fn cell_coord(v: int) -> int {
    trunc_div(v, SCALE as int)
}

/// Floor square root of `n`.
pub fn isqrt(n: u128) -> (r: u64)
    ensures
        is_isqrt(n as int, r as int),
{
    let mut lo: u128 = 0;
    let mut hi: u128 = 0x1_0000_0000_0000_0000;
    assert(hi * hi > n) by (nonlinear_arith)
        requires
            hi == 0x1_0000_0000_0000_0000u128,
            n <= u128::MAX,
    ;
    while lo + 1 < hi
        invariant
            lo < hi,
            hi <= 0x1_0000_0000_0000_0000u128,
            lo * lo <= n,
            n < hi * hi,
        decreases hi - lo,
    {
        let mid: u128 = lo + (hi - lo) / 2;
        assert(mid < 0x1_0000_0000_0000_0000u128);
        assert(mid * mid < 0x1_0000_0000_0000_0000_0000_0000_0000_0000int) by (nonlinear_arith)
            requires
                mid < 0x1_0000_0000_0000_0000u128,
        ;
        if mid * mid <= n {
            lo = mid;
        } else {
            hi = mid;
        }
    }
    assert(hi == lo + 1);
    lo as u64
}

/// Signed division by a positive divisor, rounding toward zero.
pub fn div_trunc(a: i128, b: i128) -> (r: i128)
    requires
        b > 0,
        a > i128::MIN,
    ensures
        r == trunc_div(a as int, b as int),
{
    if a >= 0 {
        a / b
    } else {
        -((-a) / b)
    }
}

/// A displacement in fixed-point units.
#[derive(Clone, Copy, PartialEq, Eq, Structural, Debug)]
pub struct Vector {
    pub x: i64,
    pub y: i64,
}

/// A continuous position in fixed-point units.
#[derive(Clone, Copy, PartialEq, Eq, Structural, Debug)]
pub struct Point {
    pub x: i64,
    pub y: i64,
}

impl Vector {
    /// Both components small enough that their squares and sums stay exact.
    pub open spec fn wf(&self) -> bool {
        -4 * COORD_LIMIT <= self.x <= 4 * COORD_LIMIT && -4 * COORD_LIMIT <= self.y <= 4
            * COORD_LIMIT
    }

    pub open spec fn norm_sq(&self) -> int {
        self.x * self.x + self.y * self.y
    }

    /// Euclidean length, rounded down.
    pub open spec fn len_spec(&self) -> int {
        sqrt_floor(self.norm_sq())
    }

    /// The direction at length `SCALE`, components rounded toward zero.
    pub open spec fn normalized_spec(&self) -> Vector {
        let l = self.len_spec();
        if l == 0 {
            Vector { x: 0, y: 0 }
        } else {
            Vector {
                x: trunc_div(self.x * SCALE, l) as i64,
                y: trunc_div(self.y * SCALE, l) as i64,
            }
        }
    }

    pub open spec fn negated_spec(&self) -> Vector {
        Vector { x: (-self.x) as i64, y: (-self.y) as i64 }
    }

    /// Scaled by the fixed-point factor `times / SCALE`.
    pub open spec fn multiplied_spec(&self, times: int) -> Vector {
        Vector {
            x: trunc_div(self.x * times, SCALE as int) as i64,
            y: trunc_div(self.y * times, SCALE as int) as i64,
        }
    }

    pub fn new(x: i64, y: i64) -> (r: Vector)
        ensures
            r.x == x,
            r.y == y,
    {
        Vector { x, y }
    }

    /// Euclidean length, rounded down.
    pub fn length(&self) -> (r: i64)
        requires
            self.wf(),
        ensures
            is_isqrt(self.norm_sq(), r as int),
            r == self.len_spec(),
            0 <= r <= 8 * COORD_LIMIT,
    {
        assert(self.x * self.x <= 16 * COORD_LIMIT * COORD_LIMIT) by (nonlinear_arith)
            requires
                -4 * COORD_LIMIT <= self.x <= 4 * COORD_LIMIT,
        ;
        assert(self.y * self.y <= 16 * COORD_LIMIT * COORD_LIMIT) by (nonlinear_arith)
            requires
                -4 * COORD_LIMIT <= self.y <= 4 * COORD_LIMIT,
        ;
        assert(self.x * self.x >= 0 && self.y * self.y >= 0) by (nonlinear_arith);
        let sq: u128 = (self.x as i128 * self.x as i128 + self.y as i128 * self.y as i128) as u128;
        let r = isqrt(sq);
        assert(r <= 8 * COORD_LIMIT) by (nonlinear_arith)
            requires
                r * r <= sq,
                sq <= 32 * COORD_LIMIT * COORD_LIMIT,
                COORD_LIMIT == 1_000_000_000,
                r >= 0,
        ;
        proof {
            lemma_isqrt_unique(sq as int, r as int);
        }
        r as i64
    }

    /// The direction scaled to length `SCALE` (components rounded toward
    /// zero); the zero vector stays zero.
    pub fn normalized(&self) -> (r: Vector)
        requires
            self.wf(),
        ensures
            r == self.normalized_spec(),
            -SCALE <= r.x <= SCALE,
            -SCALE <= r.y <= SCALE,
    {
        let len = self.length();
        if len == 0 {
            return Vector { x: 0, y: 0 };
        }
        proof {
            lemma_component_le_length(self.x as int, self.y as int, len as int);
        }
        let x = div_trunc(self.x as i128 * SCALE as i128, len as i128);
        let y = div_trunc(self.y as i128 * SCALE as i128, len as i128);
        proof {
            lemma_scaled_quotient_bound(self.x as int, len as int);
            lemma_scaled_quotient_bound(self.y as int, len as int);
        }
        Vector { x: x as i64, y: y as i64 }
    }

    /// Adds `other` in place.
    pub fn add(&mut self, other: &Vector)
        requires
            old(self).wf(),
            other.wf(),
        ensures
            final(self).x == old(self).x + other.x,
            final(self).y == old(self).y + other.y,
    {
        self.x = self.x + other.x;
        self.y = self.y + other.y;
    }

    /// Scales by `times / SCALE` (a fixed-point factor), rounding toward zero.
    pub fn multiplied(&self, times: i64) -> (r: Vector)
        requires
            -SCALE <= self.x <= SCALE,
            -SCALE <= self.y <= SCALE,
            -4 * COORD_LIMIT <= times <= 4 * COORD_LIMIT,
        ensures
            r == self.multiplied_spec(times as int),
            r.wf(),
    {
        proof {
            lemma_product_bound(self.x as int, times as int);
            lemma_product_bound(self.y as int, times as int);
        }
        let x = div_trunc(self.x as i128 * times as i128, SCALE as i128);
        let y = div_trunc(self.y as i128 * times as i128, SCALE as i128);
        Vector { x: x as i64, y: y as i64 }
    }

    pub fn negated(&self) -> (r: Vector)
        requires
            self.wf(),
        ensures
            r.x == -self.x,
            r.y == -self.y,
            r == self.negated_spec(),
            r.wf(),
    {
        Vector { x: -self.x, y: -self.y }
    }
}

impl Point {
    /// Both coordinates inside the world's fixed-point range.
    pub open spec fn wf(&self) -> bool {
        -COORD_LIMIT <= self.x <= COORD_LIMIT && -COORD_LIMIT <= self.y <= COORD_LIMIT
    }

    /// The tile under this point.
    pub open spec fn cell(&self) -> (int, int) {
        (cell_coord(self.x as int), cell_coord(self.y as int))
    }

    /// The tile under this point, as machine integers.
    pub open spec fn cell_i32(&self) -> (i32, i32) {
        (cell_coord(self.x as int) as i32, cell_coord(self.y as int) as i32)
    }

    pub open spec fn new_spec(x: i64, y: i64) -> Point {
        Point { x, y }
    }

    /// This point moved by `vec`, clamped to the world range.
    pub open spec fn added_spec(&self, vec: Vector) -> Point {
        Point { x: clamp_coord(self.x + vec.x) as i64, y: clamp_coord(self.y + vec.y) as i64 }
    }

    /// The vector from `other` to this point.
    pub open spec fn dist_to_spec(&self, other: Point) -> Vector {
        Vector { x: (self.x - other.x) as i64, y: (self.y - other.y) as i64 }
    }

    pub fn new(x: i64, y: i64) -> (r: Point)
        ensures
            r.x == x,
            r.y == y,
    {
        Point { x, y }
    }

    /// This point moved by `vec`, each coordinate clamped to the world range.
    pub fn added(&self, vec: &Vector) -> (r: Point)
        requires
            self.wf(),
            vec.wf(),
        ensures
            r.x == clamp_coord(self.x + vec.x),
            r.y == clamp_coord(self.y + vec.y),
            r == self.added_spec(*vec),
            r.wf(),
    {
        Point { x: clamp_i64(self.x + vec.x), y: clamp_i64(self.y + vec.y) }
    }

    /// Moves this point by `vec`, clamped as in `added`.
    pub fn add(&mut self, vec: &Vector)
        requires
            old(self).wf(),
            vec.wf(),
        ensures
            final(self).x == clamp_coord(old(self).x + vec.x),
            final(self).y == clamp_coord(old(self).y + vec.y),
            final(self).wf(),
    {
        *self = self.added(vec);
    }

    /// The vector from `other` to this point.
    pub fn dist_to(&self, other: &Point) -> (r: Vector)
        requires
            self.wf(),
            other.wf(),
        ensures
            r.x == self.x - other.x,
            r.y == self.y - other.y,
            r == self.dist_to_spec(*other),
            r.wf(),
    {
        Vector { x: self.x - other.x, y: self.y - other.y }
    }

    /// The tile under this point.
    pub fn as_int(&self) -> (r: (i32, i32))
        requires
            self.wf(),
        ensures
            r.0 == self.cell().0,
            r.1 == self.cell().1,
            r == self.cell_i32(),
    {
        let x = div_trunc(self.x as i128, SCALE as i128);
        let y = div_trunc(self.y as i128, SCALE as i128);
        proof {
            lemma_cell_bound(self.x as int);
            lemma_cell_bound(self.y as int);
        }
        (x as i32, y as i32)
    }
}

/// A coordinate clamped to the world range.
pub fn clamp_i64(v: i64) -> (r: i64)
    ensures
        r == clamp_coord(v as int),
{
    if v > COORD_LIMIT {
        COORD_LIMIT
    } else if v < -COORD_LIMIT {
        -COORD_LIMIT
    } else {
        v
    }
}

/// Every non-negative number has a floor square root.
pub proof fn isqrt_exists(n: int) -> (r: int)
    requires
        n >= 0,
    ensures
        is_isqrt(n, r),
    decreases n,
{
    if n == 0 {
        assert(is_isqrt(0, 0)) by (nonlinear_arith);
        0
    } else {
        let s = isqrt_exists(n - 1);
        if (s + 1) * (s + 1) <= n {
            assert(is_isqrt(n, s + 1)) by (nonlinear_arith)
                requires
                    n - 1 < (s + 1) * (s + 1),
                    (s + 1) * (s + 1) <= n,
                    s >= 0,
            ;
            s + 1
        } else {
            assert(is_isqrt(n, s)) by (nonlinear_arith)
                requires
                    s * s <= n - 1,
                    n < (s + 1) * (s + 1),
                    s >= 0,
            ;
            s
        }
    }
}

pub proof fn lemma_isqrt_unique(n: int, r: int)
    requires
        is_isqrt(n, r),
    ensures
        forall|l: int| is_isqrt(n, l) ==> l == r,
        sqrt_floor(n) == r,
{
    assert forall|l: int| is_isqrt(n, l) implies l == r by {
        if l < r {
            assert((l + 1) * (l + 1) <= r * r) by (nonlinear_arith)
                requires
                    0 <= l < r,
            ;
        } else if l > r {
            assert((r + 1) * (r + 1) <= l * l) by (nonlinear_arith)
                requires
                    0 <= r < l,
            ;
        }
    }
    assert(is_isqrt(n, sqrt_floor(n)));
}

proof fn lemma_component_le_length(x: int, y: int, len: int)
    requires
        is_isqrt(x * x + y * y, len),
    ensures
        -len <= x <= len,
        -len <= y <= len,
{
    assert(-len <= x <= len && -len <= y <= len) by (nonlinear_arith)
        requires
            x * x + y * y < (len + 1) * (len + 1),
            len >= 0,
    ;
}

proof fn lemma_scaled_quotient_bound(c: int, len: int)
    requires
        len > 0,
        -len <= c <= len,
    ensures
        -SCALE <= trunc_div(c * SCALE, len) <= SCALE,
{
    if c >= 0 {
        assert(c * SCALE <= len * SCALE) by (nonlinear_arith)
            requires
                0 <= c <= len,
        ;
        assert((c * SCALE) / len <= SCALE) by (nonlinear_arith)
            requires
                0 <= c * SCALE <= len * SCALE,
                len > 0,
        ;
        assert((c * SCALE) / len >= 0) by (nonlinear_arith)
            requires
                0 <= c * SCALE,
                len > 0,
        ;
    } else {
        assert(-(c * SCALE) <= len * SCALE) by (nonlinear_arith)
            requires
                -len <= c < 0,
        ;
        assert((-(c * SCALE)) / len <= SCALE) by (nonlinear_arith)
            requires
                0 <= -(c * SCALE) <= len * SCALE,
                len > 0,
        ;
        assert((-(c * SCALE)) / len >= 0) by (nonlinear_arith)
            requires
                0 <= -(c * SCALE),
                len > 0,
        ;
    }
}

proof fn lemma_product_bound(c: int, t: int)
    requires
        -SCALE <= c <= SCALE,
        -4 * COORD_LIMIT <= t <= 4 * COORD_LIMIT,
    ensures
        -4 * COORD_LIMIT * SCALE <= c * t <= 4 * COORD_LIMIT * SCALE,
        -4 * COORD_LIMIT <= trunc_div(c * t, SCALE as int) <= 4 * COORD_LIMIT,
{
    assert(-4 * COORD_LIMIT * SCALE <= c * t <= 4 * COORD_LIMIT * SCALE) by (nonlinear_arith)
        requires
            -SCALE <= c <= SCALE,
            -4 * COORD_LIMIT <= t <= 4 * COORD_LIMIT,
    ;
}

proof fn lemma_cell_bound(v: int)
    requires
        -COORD_LIMIT <= v <= COORD_LIMIT,
    ensures
        -1_000_000 <= cell_coord(v) <= 1_000_000,
{
}

} // verus!

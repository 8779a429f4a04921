use vstd::prelude::*;
use crate::geometry::{Point, SCALE, COORD_LIMIT, trunc_div, div_trunc, cell_coord};
use crate::map::GameMap;

verus! {

/// Whether cell `c` lies in the square of cells that covers the disc of
/// `radius` around `p`.
pub open spec fn in_query_box(c: (int, int), p: Point, radius: int) -> bool {
    &&& trunc_div(p.x - radius, SCALE as int) <= c.0 <= trunc_div(p.x + radius, SCALE as int)
    &&& trunc_div(p.y - radius, SCALE as int) <= c.1 <= trunc_div(p.y + radius, SCALE as int)
}

/// Units bucketed by the cell they stand in, rebuilt from their positions
/// once per tick. Units are named by their position (slot) in the list the
/// index was built from.
pub struct SpatialIndex {
    width: u32,
    height: u32,
    cells: Vec<(i32, i32)>,
    ids: Vec<u32>,
    buckets: Vec<Vec<usize>>,
    outside: Vec<usize>,
}

impl SpatialIndex {
    /// The cell of each indexed unit.
    pub closed spec fn cells_spec(&self) -> Seq<(int, int)> {
        self.cells@.map_values(|c: (i32, i32)| (c.0 as int, c.1 as int))
    }

    /// The id of each indexed unit.
    pub closed spec fn ids_spec(&self) -> Seq<u32> {
        self.ids@
    }

    closed spec fn on_grid(&self, c: (int, int)) -> bool {
        0 <= c.0 < self.width && 0 <= c.1 < self.height
    }

    closed spec fn slot_of(&self, c: (int, int)) -> int {
        c.0 + c.1 * self.width
    }

    pub closed spec fn wf(&self) -> bool {
        &&& self.cells@.len() == self.ids@.len()
        &&& self.cells@.len() <= usize::MAX
        &&& self.buckets@.len() == self.width * self.height
        &&& self.width * self.height <= u32::MAX
        &&& forall|k: int|
            #![trigger self.cells@[k]]
            0 <= k < self.cells@.len() ==> if self.on_grid(self.cells_spec()[k]) {
                self.buckets@[self.slot_of(self.cells_spec()[k])]@.contains(k as usize)
            } else {
                self.outside@.contains(k as usize)
            }
        &&& forall|x: int, y: int, q: int|
            #![trigger self.buckets@[self.slot_of((x, y))]@[q]]
            self.on_grid((x, y)) && 0 <= q < self.buckets@[self.slot_of((x, y))]@.len() ==> {
                let k = self.buckets@[self.slot_of((x, y))]@[q] as int;
                0 <= k < self.cells@.len() && self.cells_spec()[k] == (x, y)
            }
        &&& forall|q: int|
            #![trigger self.outside@[q]]
            0 <= q < self.outside@.len() ==> (self.outside@[q] as int) < self.cells@.len()
    }

    proof fn lemma_slot(&self, x: int, y: int)
        requires
            self.on_grid((x, y)),
        ensures
            0 <= self.slot_of((x, y)) < self.width * self.height,
    {
        let w = self.width as int;
        let h = self.height as int;
        assert(0 <= x + y * w < w * h) by (nonlinear_arith)
            requires
                0 <= x < w,
                0 <= y < h,
        ;
    }

    proof fn lemma_slot_unique(&self, a: (int, int), b: (int, int))
        requires
            self.on_grid(a),
            self.on_grid(b),
            self.slot_of(a) == self.slot_of(b),
        ensures
            a == b,
    {
        let w = self.width as int;
        assert(a.0 == b.0 && a.1 == b.1) by (nonlinear_arith)
            requires
                0 <= a.0 < w,
                0 <= b.0 < w,
                a.0 + a.1 * w == b.0 + b.1 * w,
        ;
    }

    /// Some unit with this id stands in the query box of `radius` around `p`.
    pub open spec fn indexed_in_box(&self, id: u32, p: Point, radius: int) -> bool {
        exists|k: int|
            0 <= k < self.cells_spec().len() && self.ids_spec()[k] == id && in_query_box(
                #[trigger] self.cells_spec()[k],
                p,
                radius,
            )
    }

    /// An index of no units.
    pub fn new() -> (r: SpatialIndex)
        ensures
            r.wf(),
            r.ids_spec().len() == 0,
            r.cells_spec().len() == 0,
    {
        SpatialIndex {
            width: 0,
            height: 0,
            cells: Vec::new(),
            ids: Vec::new(),
            buckets: Vec::new(),
            outside: Vec::new(),
        }
    }

    /// Number of indexed units.
    pub fn len(&self) -> (r: usize)
        ensures
            r == self.ids_spec().len(),
    {
        self.ids.len()
    }

    /// Indexes units standing at `locations` with the given ids, bucketed
    /// by the cells of `map` (units off the map are kept apart).
    pub fn build(map: &GameMap, locations: &Vec<Point>, ids: &Vec<u32>) -> (r: SpatialIndex)
        requires
            map.wf(),
            locations@.len() == ids@.len(),
            forall|k: int| 0 <= k < locations@.len() ==> (#[trigger] locations@[k]).wf(),
        ensures
            r.wf(),
            r.ids_spec() == ids@,
            r.cells_spec().len() == locations@.len(),
            forall|k: int|
                0 <= k < locations@.len() ==> r.cells_spec()[k] == (#[trigger] locations@[k]).cell(),
    {
        proof {
            map.lemma_dimensions();
        }
        let width = map.width();
        let height = map.height();
        let size: usize = width as usize * height as usize;
        let mut buckets: Vec<Vec<usize>> = Vec::new();
        let mut b: usize = 0;
        while b < size
            invariant
                b <= size,
                buckets@.len() == b,
                forall|i: int| 0 <= i < b ==> (#[trigger] buckets@[i])@.len() == 0,
            decreases size - b,
        {
            buckets.push(Vec::new());
            b = b + 1;
        }
        let mut index = SpatialIndex {
            width,
            height,
            cells: Vec::new(),
            ids: Vec::new(),
            buckets,
            outside: Vec::new(),
        };
        proof {
            assert forall|x: int, y: int, q: int|
                #![trigger index.buckets@[index.slot_of((x, y))]@[q]]
                index.on_grid((x, y)) && 0 <= q < index.buckets@[index.slot_of((x, y))]@.len() implies {
                let kk = index.buckets@[index.slot_of((x, y))]@[q] as int;
                0 <= kk < index.cells@.len() && index.cells_spec()[kk] == (x, y)
            } by {
                index.lemma_slot(x, y);
            }
        }
        let mut k: usize = 0;
        while k < locations.len()
            invariant
                index.wf(),
                index.width == width,
                index.height == height,
                width * height <= u32::MAX,
                k <= locations@.len(),
                locations@.len() == ids@.len(),
                forall|j: int| 0 <= j < locations@.len() ==> (#[trigger] locations@[j]).wf(),
                index.ids@ == ids@.subrange(0, k as int),
                index.cells_spec().len() == k,
                forall|j: int| 0 <= j < k ==> index.cells_spec()[j] == (#[trigger] locations@[j]).cell(),
            decreases locations@.len() - k,
        {
            let c = locations[k].as_int();
            index.insert(c, ids[k]);
            proof {
                assert(ids@.subrange(0, k as int).push(ids@[k as int]) =~= ids@.subrange(0, k + 1));
            }
            k = k + 1;
        }
        assert(ids@.subrange(0, k as int) =~= ids@);
        index
    }

    fn insert(&mut self, c: (i32, i32), id: u32)
        requires
            old(self).wf(),
            old(self).cells@.len() < usize::MAX,
        ensures
            final(self).wf(),
            final(self).width == old(self).width,
            final(self).height == old(self).height,
            final(self).ids@ == old(self).ids@.push(id),
            final(self).cells_spec() == old(self).cells_spec().push((c.0 as int, c.1 as int)),
    {
        let k = self.cells.len();
        let ghost cc = (c.0 as int, c.1 as int);
        let ghost old_self = *self;
        assert(self.buckets@.len() == self.width * self.height);
        self.cells.push(c);
        self.ids.push(id);
        assert(self.cells_spec() =~= old_self.cells_spec().push(cc));
        if c.0 >= 0 && c.1 >= 0 && (c.0 as i64) < (self.width as i64) && (c.1 as i64) < (self.height as i64) {
            proof {
                self.lemma_slot(cc.0, cc.1);
            }
            let s: usize = (c.0 as u32 + c.1 as u32 * self.width) as usize;
            let mut bucket = self.buckets.remove(s);
            let ghost old_bucket = bucket@;
            assert(old_bucket == old_self.buckets@[s as int]@);
            bucket.push(k);
            let ghost new_bucket = bucket;
            self.buckets.insert(s, bucket);
            assert(self.buckets@ =~= old_self.buckets@.update(s as int, new_bucket));
            assert(self.buckets@.len() == self.width * self.height);
            assert(self.outside == old_self.outside);
            proof {
                assert forall|j: int| #![trigger self.cells@[j]] 0 <= j < self.cells@.len() implies if self.on_grid(self.cells_spec()[j]) {
                    self.buckets@[self.slot_of(self.cells_spec()[j])]@.contains(j as usize)
                } else {
                    self.outside@.contains(j as usize)
                } by {
                    if j < k {
                        assert(old_self.cells@[j] == self.cells@[j]);
                        if self.on_grid(self.cells_spec()[j]) {
                            old_self.lemma_slot(self.cells_spec()[j].0, self.cells_spec()[j].1);
                            let q = choose|q: int| 0 <= q < old_self.buckets@[self.slot_of(self.cells_spec()[j])]@.len() && old_self.buckets@[self.slot_of(self.cells_spec()[j])]@[q] == j as usize;
                            if self.slot_of(self.cells_spec()[j]) == s {
                                assert(self.buckets@[s as int]@[q] == j as usize);
                            } else {
                                assert(self.buckets@[self.slot_of(self.cells_spec()[j])] == old_self.buckets@[self.slot_of(self.cells_spec()[j])]);
                            }
                        }
                    } else {
                        assert(self.buckets@[s as int]@.last() == k);
                    }
                }
                assert forall|x: int, y: int, q: int|
                    #![trigger self.buckets@[self.slot_of((x, y))]@[q]]
                    self.on_grid((x, y)) && 0 <= q < self.buckets@[self.slot_of((x, y))]@.len() implies {
                    let kk = self.buckets@[self.slot_of((x, y))]@[q] as int;
                    0 <= kk < self.cells@.len() && self.cells_spec()[kk] == (x, y)
                } by {
                    self.lemma_slot(x, y);
                    assert(self.slot_of((x, y)) == old_self.slot_of((x, y)));
                    if self.slot_of((x, y)) == s {
                        self.lemma_slot_unique((x, y), cc);
                        if q < old_bucket.len() {
                            assert(self.buckets@[self.slot_of((x, y))]@[q] == old_self.buckets@[old_self.slot_of((x, y))]@[q]);
                            let kk = old_self.buckets@[old_self.slot_of((x, y))]@[q] as int;
                            assert(old_self.cells_spec()[kk] == (x, y));
                            assert(self.cells_spec()[kk] == (x, y));
                        } else {
                            assert(self.buckets@[self.slot_of((x, y))]@[q] == k);
                            assert(self.cells_spec()[k as int] == cc);
                        }
                    } else {
                        assert(self.buckets@[self.slot_of((x, y))] == old_self.buckets@[old_self.slot_of((x, y))]);
                        let kk = old_self.buckets@[old_self.slot_of((x, y))]@[q] as int;
                        assert(old_self.cells_spec()[kk] == (x, y));
                        assert(self.cells_spec()[kk] == (x, y));
                    }
                }
                assert forall|q: int| #![trigger self.outside@[q]] 0 <= q < self.outside@.len() implies (self.outside@[q] as int) < self.cells@.len() by {
                    assert(self.outside@[q] == old_self.outside@[q]);
                }
                assert(self.cells@.len() == self.ids@.len());
                assert(self.width * self.height <= u32::MAX);
            }
        } else {
            self.outside.push(k);
            proof {
                assert forall|x: int, y: int, q: int|
                    #![trigger self.buckets@[self.slot_of((x, y))]@[q]]
                    self.on_grid((x, y)) && 0 <= q < self.buckets@[self.slot_of((x, y))]@.len() implies {
                    let kk = self.buckets@[self.slot_of((x, y))]@[q] as int;
                    0 <= kk < self.cells@.len() && self.cells_spec()[kk] == (x, y)
                } by {
                    assert(self.slot_of((x, y)) == old_self.slot_of((x, y)));
                    let kk = old_self.buckets@[old_self.slot_of((x, y))]@[q] as int;
                    assert(old_self.cells_spec()[kk] == (x, y));
                    assert(self.cells_spec()[kk] == (x, y));
                }
                assert forall|j: int| #![trigger self.cells@[j]] 0 <= j < self.cells@.len() implies if self.on_grid(self.cells_spec()[j]) {
                    self.buckets@[self.slot_of(self.cells_spec()[j])]@.contains(j as usize)
                } else {
                    self.outside@.contains(j as usize)
                } by {
                    if j < k {
                        assert(old_self.cells@[j] == self.cells@[j]);
                        if !self.on_grid(self.cells_spec()[j]) {
                            let q = choose|q: int| 0 <= q < old_self.outside@.len() && old_self.outside@[q] == j as usize;
                            assert(self.outside@[q] == j as usize);
                        }
                    } else {
                        assert(self.outside@.last() == k);
                    }
                }
                assert forall|q: int| #![trigger self.outside@[q]] 0 <= q < self.outside@.len() implies (self.outside@[q] as int) < self.cells@.len() by {
                    if q < old_self.outside@.len() {
                        assert(self.outside@[q] == old_self.outside@[q]);
                    }
                }
            }
        }
    }

    /// Slots of all units whose cell lies in the square of cells covering
    /// the disc of `radius` around `location`, and of no others.
    pub fn query_slots(&self, location: &Point, radius: i64) -> (r: Vec<usize>)
        requires
            self.wf(),
            location.wf(),
            0 <= radius <= COORD_LIMIT,
        ensures
            forall|k: int|
                0 <= k < self.cells_spec().len() && in_query_box(
                    #[trigger] self.cells_spec()[k],
                    *location,
                    radius as int,
                ) ==> r@.contains(k as usize),
            forall|q: int|
                0 <= q < r@.len() ==> (#[trigger] r@[q] as int) < self.cells_spec().len()
                    && in_query_box(self.cells_spec()[r@[q] as int], *location, radius as int),
    {
        let lo_x: i64 = div_trunc(location.x as i128 - radius as i128, SCALE as i128) as i64;
        let hi_x: i64 = div_trunc(location.x as i128 + radius as i128, SCALE as i128) as i64;
        let lo_y: i64 = div_trunc(location.y as i128 - radius as i128, SCALE as i128) as i64;
        let hi_y: i64 = div_trunc(location.y as i128 + radius as i128, SCALE as i128) as i64;
        let ghost p = *location;
        let ghost rr = radius as int;
        assert(SCALE == 1000);
        let x0: i64 = if lo_x < 0 { 0 } else { lo_x };
        let x1: i64 = if hi_x < self.width as i64 { hi_x + 1 } else { self.width as i64 };
        let y0: i64 = if lo_y < 0 { 0 } else { lo_y };
        let y1: i64 = if hi_y < self.height as i64 { hi_y + 1 } else { self.height as i64 };
        let mut res: Vec<usize> = Vec::new();
        let mut x: i64 = x0;
        while x < x1
            invariant
                self.wf(),
                x0 <= x,
                x0 >= 0,
                y0 >= 0,
                x1 <= self.width,
                y1 <= self.height,
                x0 >= lo_x,
                y0 >= lo_y,
                lo_y < 0 ==> y0 == 0,
                lo_y >= 0 ==> y0 == lo_y,
                lo_x < 0 ==> x0 == 0,
                lo_x >= 0 ==> x0 == lo_x,
                x1 <= hi_x + 1,
                y1 <= hi_y + 1,
                lo_x == trunc_div(p.x - rr, SCALE as int),
                hi_x == trunc_div(p.x + rr, SCALE as int),
                lo_y == trunc_div(p.y - rr, SCALE as int),
                hi_y == trunc_div(p.y + rr, SCALE as int),
                hi_x < x1 || x1 == self.width,
                hi_y < y1 || y1 == self.height,
                forall|q: int|
                    0 <= q < res@.len() ==> (#[trigger] res@[q] as int) < self.cells_spec().len()
                        && in_query_box(self.cells_spec()[res@[q] as int], p, rr),
                forall|k: int|
                    0 <= k < self.cells_spec().len() && self.on_grid(#[trigger] self.cells_spec()[k])
                        && in_query_box(self.cells_spec()[k], p, rr) && self.cells_spec()[k].0 < x
                        ==> res@.contains(k as usize),
            decreases x1 - x,
        {
            let mut y: i64 = y0;
            while y < y1
                invariant
                    self.wf(),
                    x0 <= x < x1,
                    x0 >= 0,
                    y0 <= y,
                    y0 >= 0,
                    x1 <= self.width,
                    y1 <= self.height,
                    x0 >= lo_x,
                    y0 >= lo_y,
                    lo_y < 0 ==> y0 == 0,
                    lo_y >= 0 ==> y0 == lo_y,
                    x1 <= hi_x + 1,
                    y1 <= hi_y + 1,
                    lo_x == trunc_div(p.x - rr, SCALE as int),
                    hi_x == trunc_div(p.x + rr, SCALE as int),
                    lo_y == trunc_div(p.y - rr, SCALE as int),
                    hi_y == trunc_div(p.y + rr, SCALE as int),
                    hi_x < x1 || x1 == self.width,
                    hi_y < y1 || y1 == self.height,
                    forall|q: int|
                        0 <= q < res@.len() ==> (#[trigger] res@[q] as int) < self.cells_spec().len()
                            && in_query_box(self.cells_spec()[res@[q] as int], p, rr),
                    forall|k: int|
                        0 <= k < self.cells_spec().len() && self.on_grid(#[trigger] self.cells_spec()[k])
                            && in_query_box(self.cells_spec()[k], p, rr) && (self.cells_spec()[k].0 < x
                            || (self.cells_spec()[k].0 == x && self.cells_spec()[k].1 < y))
                            ==> res@.contains(k as usize),
                decreases y1 - y,
            {
                let ghost cxy = (x as int, y as int);
                proof {
                    self.lemma_slot(x as int, y as int);
                }
                let s: usize = (x as u32 + y as u32 * self.width) as usize;
                let bucket = &self.buckets[s];
                let ghost before = res@;
                let mut t: usize = 0;
                while t < bucket.len()
                    invariant
                        self.wf(),
                        0 <= s < self.buckets@.len(),
                        s == self.slot_of(cxy),
                        self.on_grid(cxy),
                        in_query_box(cxy, p, rr),
                        *bucket == self.buckets@[s as int],
                        t <= bucket@.len(),
                        res@ == before + bucket@.subrange(0, t as int),
                        forall|q: int|
                            0 <= q < res@.len() ==> (#[trigger] res@[q] as int) < self.cells_spec().len()
                                && in_query_box(self.cells_spec()[res@[q] as int], p, rr),
                    decreases bucket@.len() - t,
                {
                    let ghost qq = t as int;
                    assert(self.buckets@[self.slot_of(cxy)]@[qq] == bucket@[qq]);
                    res.push(bucket[t]);
                    t = t + 1;
                    proof {
                        assert(res@ =~= before + bucket@.subrange(0, t as int));
                    }
                }
                proof {
                    assert forall|k: int|
                        0 <= k < self.cells_spec().len() && self.on_grid(#[trigger] self.cells_spec()[k])
                            && in_query_box(self.cells_spec()[k], p, rr) && (self.cells_spec()[k].0 < x
                            || (self.cells_spec()[k].0 == x && self.cells_spec()[k].1 < y + 1))
                            implies res@.contains(k as usize) by {
                        if self.cells_spec()[k] == cxy {
                            let q = choose|q: int| 0 <= q < self.buckets@[self.slot_of(cxy)]@.len() && self.buckets@[self.slot_of(cxy)]@[q] == k as usize;
                            assert(res@[before.len() + q] == k as usize);
                        } else {
                            let q = choose|q: int| 0 <= q < before.len() && before[q] == k as usize;
                            assert(res@[q] == k as usize);
                        }
                    }
                }
                y = y + 1;
            }
            x = x + 1;
        }
        let mut t: usize = 0;
        while t < self.outside.len()
            invariant
                self.wf(),
                lo_x == trunc_div(p.x - rr, SCALE as int),
                hi_x == trunc_div(p.x + rr, SCALE as int),
                lo_y == trunc_div(p.y - rr, SCALE as int),
                hi_y == trunc_div(p.y + rr, SCALE as int),
                t <= self.outside@.len(),
                forall|q: int|
                    0 <= q < res@.len() ==> (#[trigger] res@[q] as int) < self.cells_spec().len()
                        && in_query_box(self.cells_spec()[res@[q] as int], p, rr),
                forall|k: int|
                    0 <= k < self.cells_spec().len() && self.on_grid(#[trigger] self.cells_spec()[k])
                        && in_query_box(self.cells_spec()[k], p, rr) ==> res@.contains(k as usize),
                forall|q: int|
                    0 <= q < t ==> in_query_box(self.cells_spec()[#[trigger] self.outside@[q] as int], p, rr)
                        ==> res@.contains(self.outside@[q]),
            decreases self.outside@.len() - t,
        {
            let k = self.outside[t];
            let c = self.cells[k];
            let ghost before = res@;
            if lo_x <= c.0 as i64 && c.0 as i64 <= hi_x && lo_y <= c.1 as i64 && c.1 as i64 <= hi_y {
                res.push(k);
                proof {
                    assert(res@.last() == k);
                    assert forall|kk: usize| before.contains(kk) implies res@.contains(kk) by {
                        let q = choose|q: int| 0 <= q < before.len() && before[q] == kk;
                        assert(res@[q] == kk);
                    }
                }
            }
            t = t + 1;
        }
        proof {
            assert forall|k: int|
                0 <= k < self.cells_spec().len() && in_query_box(
                    #[trigger] self.cells_spec()[k],
                    p,
                    rr,
                ) implies res@.contains(k as usize) by {
                if !self.on_grid(self.cells_spec()[k]) {
                    assert(self.outside@.contains(k as usize));
                    let q = choose|q: int| 0 <= q < self.outside@.len() && self.outside@[q] == k as usize;
                    assert(self.outside@[q] as int == k);
                    assert(in_query_box(self.cells_spec()[self.outside@[q] as int], p, rr));
                }
            }
        }
        res
    }

    /// Ids of the units `query_slots` finds.
    pub fn ids_near(&self, location: &Point, radius: i64) -> (r: Vec<u32>)
        requires
            self.wf(),
            location.wf(),
            0 <= radius <= COORD_LIMIT,
        ensures
            forall|k: int|
                0 <= k < self.cells_spec().len() && in_query_box(
                    #[trigger] self.cells_spec()[k],
                    *location,
                    radius as int,
                ) ==> r@.contains(self.ids_spec()[k]),
            forall|q: int|
                0 <= q < r@.len() ==> self.indexed_in_box(#[trigger] r@[q], *location, radius as int),
    {
        let slots = self.query_slots(location, radius);
        let mut out: Vec<u32> = Vec::new();
        let mut t: usize = 0;
        while t < slots.len()
            invariant
                self.wf(),
                t <= slots@.len(),
                out@.len() == t,
                forall|q: int|
                    0 <= q < slots@.len() ==> (#[trigger] slots@[q] as int) < self.cells_spec().len()
                        && in_query_box(self.cells_spec()[slots@[q] as int], *location, radius as int),
                forall|q: int| 0 <= q < t ==> out@[q] == self.ids_spec()[#[trigger] slots@[q] as int],
            decreases slots@.len() - t,
        {
            assert(self.cells_spec().len() == self.ids@.len());
            out.push(self.ids[slots[t]]);
            t = t + 1;
        }
        proof {
            assert forall|k: int|
                0 <= k < self.cells_spec().len() && in_query_box(
                    #[trigger] self.cells_spec()[k],
                    *location,
                    radius as int,
                ) implies out@.contains(self.ids_spec()[k]) by {
                assert(slots@.contains(k as usize));
                let q = choose|q: int| 0 <= q < slots@.len() && slots@[q] == k as usize;
                assert(slots@[q] as int == k);
                assert(out@[q] == self.ids_spec()[slots@[q] as int]);
                assert(out@[q] == self.ids_spec()[k]);
            }
            assert forall|q: int| 0 <= q < out@.len() implies self.indexed_in_box(#[trigger] out@[q], *location, radius as int) by {
                let k = slots@[q] as int;
                assert(out@[q] == self.ids_spec()[k]);
                assert(0 <= k < self.cells_spec().len());
                assert(in_query_box(self.cells_spec()[k], *location, radius as int));
                assert(0 <= k < self.cells_spec().len() && self.ids_spec()[k] == out@[q] && in_query_box(
                    self.cells_spec()[k],
                    *location,
                    radius as int,
                ));
            }
            assert(self.cells_spec().len() == self.cells@.len());
        }
        out
    }
}

/// Truncating division by a positive divisor keeps order.
proof fn lemma_trunc_div_monotone(a: int, b: int, d: int)
    requires
        a <= b,
        d > 0,
    ensures
        trunc_div(a, d) <= trunc_div(b, d),
{
    if a >= 0 {
        assert(a / d <= b / d) by (nonlinear_arith)
            requires
                0 <= a <= b,
                d > 0,
        ;
    } else if b >= 0 {
        assert((-a) / d >= 0) by (nonlinear_arith)
            requires
                -a > 0,
                d > 0,
        ;
        assert(b / d >= 0) by (nonlinear_arith)
            requires
                b >= 0,
                d > 0,
        ;
    } else {
        assert((-b) / d <= (-a) / d) by (nonlinear_arith)
            requires
                0 < -b <= -a,
                d > 0,
        ;
    }
}

/// Every unit truly within `radius` of `p` stands in a cell of the query
/// box, so the radius query never misses it.
pub proof fn lemma_query_box_covers_disc(p: Point, radius: int, u: Point)
    requires
        p.wf(),
        u.wf(),
        radius >= 0,
        (u.x - p.x) * (u.x - p.x) + (u.y - p.y) * (u.y - p.y) <= radius * radius,
    ensures
        in_query_box(u.cell(), p, radius),
{
    let dx = u.x - p.x;
    let dy = u.y - p.y;
    assert(-radius <= dx <= radius && -radius <= dy <= radius) by (nonlinear_arith)
        requires
            dx * dx + dy * dy <= radius * radius,
            radius >= 0,
    ;
    lemma_trunc_div_monotone(p.x - radius, u.x as int, SCALE as int);
    lemma_trunc_div_monotone(u.x as int, p.x + radius, SCALE as int);
    lemma_trunc_div_monotone(p.y - radius, u.y as int, SCALE as int);
    lemma_trunc_div_monotone(u.y as int, p.y + radius, SCALE as int);
}

} // verus!

use vstd::prelude::*;
use crate::geometry::{Point, Vector};
use crate::entity::{point_at, push_point};
use crate::binary_helpers::{Binaryable, i64_at, lemma_prefix_sub};

verus! {

/// Distance a projectile flies per tick (fixed point).
pub const PROJECTILE_SPEED: i64 = 200;

/// Below this distance from its end point a projectile lands.
pub const LANDING_DISTANCE: i64 = 110;

/// A shot in flight from a start point to a fixed impact point. It does
/// not follow its target.
#[derive(Clone, Copy, PartialEq, Eq, Structural, Debug)]
pub struct Projectile {
    location: Point,
    start_point: Point,
    end_point: Point,
}

impl Projectile {
    pub closed spec fn location_spec(&self) -> Point {
        self.location
    }

    pub closed spec fn start_spec(&self) -> Point {
        self.start_point
    }

    pub closed spec fn end_spec(&self) -> Point {
        self.end_point
    }

    /// The projectile after one tick of flight (see `increment`).
    pub closed spec fn advanced(&self) -> Projectile {
        let d = self.location.dist_to_spec(self.end_point);
        if d.len_spec() < LANDING_DISTANCE {
            Projectile { location: self.end_point, ..*self }
        } else {
            Projectile {
                location: self.location.added_spec(
                    d.normalized_spec().multiplied_spec(-PROJECTILE_SPEED),
                ),
                ..*self
            }
        }
    }

    pub open spec fn wf(&self) -> bool {
        self.location_spec().wf() && self.start_spec().wf() && self.end_spec().wf()
    }

    pub open spec fn landed(&self) -> bool {
        self.location_spec() == self.end_spec()
    }

    /// A projectile at `start_point` aimed at `end_point`.
    pub fn new(start_point: &Point, end_point: &Point) -> (r: Projectile)
        ensures
            r.location_spec() == *start_point,
            r.start_spec() == *start_point,
            r.end_spec() == *end_point,
    {
        Projectile { location: *start_point, start_point: *start_point, end_point: *end_point }
    }

    /// A projectile part-way through its flight, for rebuilding saved state.
    pub fn restore(location: Point, start_point: Point, end_point: Point) -> (r: Projectile)
        ensures
            r.location_spec() == location,
            r.start_spec() == start_point,
            r.end_spec() == end_point,
    {
        Projectile { location, start_point, end_point }
    }

    pub fn location(&self) -> (r: Point)
        ensures
            r == self.location_spec(),
    {
        self.location
    }

    pub fn start_point(&self) -> (r: Point)
        ensures
            r == self.start_spec(),
    {
        self.start_point
    }

    pub fn end_point(&self) -> (r: Point)
        ensures
            r == self.end_spec(),
    {
        self.end_point
    }

    /// One tick of flight: lands on the end point when closer than
    /// `LANDING_DISTANCE`, otherwise moves `PROJECTILE_SPEED` toward it.
    pub fn increment(&mut self)
        requires
            old(self).wf(),
        ensures
            final(self).wf(),
            *final(self) == old(self).advanced(),
            final(self).start_spec() == old(self).start_spec(),
            final(self).end_spec() == old(self).end_spec(),
            ({
                let d = old(self).location_spec().dist_to_spec(old(self).end_spec());
                if d.len_spec() < LANDING_DISTANCE {
                    final(self).location_spec() == old(self).end_spec()
                } else {
                    final(self).location_spec() == old(self).location_spec().added_spec(
                        d.normalized_spec().multiplied_spec(-PROJECTILE_SPEED),
                    )
                }
            }),
    {
        let dist_vect = self.location.dist_to(&self.end_point);
        if dist_vect.length() < LANDING_DISTANCE {
            self.location = self.end_point;
        } else {
            let step = dist_vect.normalized().multiplied(-PROJECTILE_SPEED);
            self.location = self.location.added(&step);
        }
    }

    /// The bytes of the projectile: location, start and end point, each as
    /// two big-endian `i64`.
    pub fn to_bytes(&self) -> (r: Vec<u8>)
        ensures
            r@.len() == 48,
            point_at(r@, 0) == self.location_spec(),
            point_at(r@, 16) == self.start_spec(),
            point_at(r@, 32) == self.end_spec(),
    {
        let mut out: Vec<u8> = Vec::new();
        push_point(&mut out, self.location);
        let ghost a = out@;
        push_point(&mut out, self.start_point);
        let ghost b = out@;
        push_point(&mut out, self.end_point);
        proof {
            lemma_prefix_sub(out@, b, 0, 8);
            lemma_prefix_sub(out@, b, 8, 16);
            lemma_prefix_sub(out@, b, 16, 24);
            lemma_prefix_sub(out@, b, 24, 32);
            lemma_prefix_sub(b, a, 0, 8);
            lemma_prefix_sub(b, a, 8, 16);
        }
        out
    }

    /// The projectile `bytes` hold (see `to_bytes`), if there are enough.
    pub fn from_binary(bytes: &Vec<u8>) -> (r: Option<Projectile>)
        ensures
            r.is_some() <==> bytes@.len() >= 48,
            r matches Some(p) ==> p.location_spec() == point_at(bytes@, 0) && p.start_spec()
                == point_at(bytes@, 16) && p.end_spec() == point_at(bytes@, 32),
    {
        if bytes.len() < 48 {
            return None;
        }
        Some(
            Projectile {
                location: Point::new(i64_at(bytes, 0), i64_at(bytes, 8)),
                start_point: Point::new(i64_at(bytes, 16), i64_at(bytes, 24)),
                end_point: Point::new(i64_at(bytes, 32), i64_at(bytes, 40)),
            },
        )
    }

    /// Whether the projectile has reached its end point.
    pub fn at_location(&self) -> (r: bool)
        ensures
            r == self.landed(),
    {
        self.location == self.end_point
    }
}

impl Binaryable for Projectile {
    fn as_binary(&self) -> Vec<u8> {
        self.to_bytes()
    }
}

} // verus!

use vstd::prelude::*;
use crate::binary_helpers::{Binaryable, i32_as_bytes, pop_i32, be_i32};

verus! {

/// Side length, in cells, of every building.
pub const BUILDING_SIZE: i32 = 3;

/// A structure whose top-left cell is at `(x, y)`.
#[derive(Clone, Copy, PartialEq, Eq, Structural, Debug)]
pub struct Building {
    x: i32,
    y: i32,
}

impl Building {
    pub closed spec fn x_spec(&self) -> i32 {
        self.x
    }

    pub closed spec fn y_spec(&self) -> i32 {
        self.y
    }

    pub closed spec fn new_spec(location: (i32, i32)) -> Building {
        Building { x: location.0, y: location.1 }
    }

    pub fn new(location: (i32, i32)) -> (r: Building)
        ensures
            r.x_spec() == location.0,
            r.y_spec() == location.1,
            r == Building::new_spec(location),
    {
        Building { x: location.0, y: location.1 }
    }

    pub fn x(&self) -> (r: i32)
        ensures
            r == self.x_spec(),
    {
        self.x
    }

    pub fn y(&self) -> (r: i32)
        ensures
            r == self.y_spec(),
    {
        self.y
    }

    pub fn height(&self) -> (r: i32)
        ensures
            r == BUILDING_SIZE,
    {
        BUILDING_SIZE
    }

    pub fn width(&self) -> (r: i32)
        ensures
            r == BUILDING_SIZE,
    {
        BUILDING_SIZE
    }
}

impl Binaryable for Building {
    fn as_binary(&self) -> Vec<u8> {
        let mut binary_data = i32_as_bytes(self.x);
        let mut y = i32_as_bytes(self.y);
        binary_data.append(&mut y);
        binary_data
    }
}

impl Building {
    /// Reads a building written by `as_binary`: `x`, then `y`, each a
    /// big-endian `i32`.
    pub fn from_binary(binary_data: Vec<u8>) -> (r: Building)
        requires
            binary_data@.len() >= 8,
        ensures
            r.x_spec() == be_i32(binary_data@),
            r.y_spec() == be_i32(binary_data@.subrange(4, binary_data@.len() as int)),
    {
        let (x, rest) = pop_i32(binary_data);
        let (y, _rest) = pop_i32(rest);
        Building::new((x, y))
    }
}

} // verus!

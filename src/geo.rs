//! Planar points and axis-aligned rectangles on an integer grid (for instance
//! UTM coordinates in centimetres).
use vstd::prelude::*;

use crate::unit_fixed::{fixed_of_ratio, UnitFixedPoint};
use crate::z_order::{morton, ZValue};

verus! {

/// A planar point on the integer grid.
#[derive(Debug, Copy, Clone, PartialEq, Eq, Hash, Structural)]
pub struct UTMCoordinates {
    pub x: i32,
    pub y: i32,
}

/// The squared Euclidean distance between two points.
pub open spec fn sq_dist(a: UTMCoordinates, b: UTMCoordinates) -> int {
    (a.x - b.x) * (a.x - b.x) + (a.y - b.y) * (a.y - b.y)
}

/// An upper bound of every squared distance between two grid points.
pub proof fn lemma_sq_dist_bounds(a: UTMCoordinates, b: UTMCoordinates)
    ensures
        0 <= sq_dist(a, b) < 0x4_0000_0000_0000_0000,
{
    let dx = a.x - b.x;
    let dy = a.y - b.y;
    assert(0 <= dx * dx < 0x1_0000_0000_0000_0000) by (nonlinear_arith)
        requires
            -0x1_0000_0000 < dx < 0x1_0000_0000,
    ;
    assert(0 <= dy * dy < 0x1_0000_0000_0000_0000) by (nonlinear_arith)
        requires
            -0x1_0000_0000 < dy < 0x1_0000_0000,
    ;
}

impl UTMCoordinates {
    pub fn new(x: i32, y: i32) -> (r: UTMCoordinates)
        ensures
            r.x == x,
            r.y == y,
    {
        UTMCoordinates { x, y }
    }

    /// The squared Euclidean distance between this point and another.
    pub fn squared_dist(self, other: UTMCoordinates) -> (r: u128)
        ensures
            r == sq_dist(self, other),
    {
        proof {
            lemma_sq_dist_bounds(self, other);
        }
        let dx = (self.x as i64) - (other.x as i64);
        let dy = (self.y as i64) - (other.y as i64);
        let ax: u128 = if dx < 0 {
            (-dx) as u128
        } else {
            dx as u128
        };
        let ay: u128 = if dy < 0 {
            (-dy) as u128
        } else {
            dy as u128
        };
        assert(ax * ax == dx * dx) by (nonlinear_arith)
            requires
                ax == dx || ax == -dx,
        ;
        assert(ay * ay == dy * dy) by (nonlinear_arith)
            requires
                ay == dy || ay == -dy,
        ;
        ax * ax + ay * ay
    }

    /// Rescales this point into `region`: `(0, 0)` is its southwest corner and
    /// `(1, 1)` its northeast corner. `None` if the point lies outside.
    pub fn normalize(self, region: &Region) -> (r: Option<(UnitFixedPoint, UnitFixedPoint)>)
        requires
            region.west < region.east,
            region.south < region.north,
        ensures
            r.is_none() <==> !region.spec_contains(self),
            r matches Some(p) ==> p.0.0 == fixed_of_ratio(
                self.x - region.west,
                region.east - region.west,
            ) && p.1.0 == fixed_of_ratio(self.y - region.south, region.north - region.south),
    {
        if !region.contains(self) {
            None
        } else {
            let x = UnitFixedPoint::from_ratio(
                (self.x as i64) - (region.west as i64),
                (region.east as i64) - (region.west as i64),
            );
            let y = UnitFixedPoint::from_ratio(
                (self.y as i64) - (region.south as i64),
                (region.north as i64) - (region.south as i64),
            );
            Some((x, y))
        }
    }

    /// The Morton code of this point rescaled into `region` (see `normalize`).
    pub fn z_value(self, region: &Region) -> (r: Option<ZValue>)
        requires
            region.west < region.east,
            region.south < region.north,
        ensures
            r.is_none() <==> !region.spec_contains(self),
            r matches Some(z) ==> z.0 == morton(
                fixed_of_ratio(self.x - region.west, region.east - region.west) as u32,
                fixed_of_ratio(self.y - region.south, region.north - region.south) as u32,
            ),
    {
        match self.normalize(region) {
            None => None,
            Some(p) => Some(ZValue::from_fp(p.0, p.1)),
        }
    }
}

/// An axis-aligned rectangle.
#[derive(Debug, Copy, Clone, PartialEq, Eq, Hash, Structural)]
pub struct Region {
    pub east: i32,
    pub west: i32,
    pub north: i32,
    pub south: i32,
}

/// The midpoint of two grid values, rounded down.
pub open spec fn midpoint(a: int, b: int) -> int {
    (a + b) / 2
}

/// The center of a region, each coordinate rounded down to the grid.
pub open spec fn center_of(r: Region) -> UTMCoordinates {
    UTMCoordinates {
        x: midpoint(r.east as int, r.west as int) as i32,
        y: midpoint(r.north as int, r.south as int) as i32,
    }
}

fn mid_i32(a: i32, b: i32) -> (r: i32)
    ensures
        r == midpoint(a as int, b as int),
{
    // shifted so that the division is of a non-negative number
    let s = (a as i64) + (b as i64) + 0x1_0000_0000i64;
    (s / 2 - 0x8000_0000i64) as i32
}

impl Region {
    pub open spec fn spec_contains(&self, p: UTMCoordinates) -> bool {
        self.west <= p.x <= self.east && self.south <= p.y <= self.north
    }

    pub open spec fn spec_intersects(&self, other: &Region) -> bool {
        self.west < other.east && self.east > other.west && self.south < other.north && self.north
            > other.south
    }

    pub fn new(east: i32, west: i32, north: i32, south: i32) -> (r: Region)
        ensures
            r == (Region { east, west, north, south }),
    {
        Region { east, west, north, south }
    }

    /// The region with the given northeast and southwest corners.
    pub fn from_points(northeast: UTMCoordinates, southwest: UTMCoordinates) -> (r: Region)
        ensures
            r == (Region { east: northeast.x, west: southwest.x, north: northeast.y, south: southwest.y }),
    {
        Region { east: northeast.x, north: northeast.y, west: southwest.x, south: southwest.y }
    }

    /// Whether `p` lies in this region, edges included.
    pub fn contains(&self, p: UTMCoordinates) -> (r: bool)
        ensures
            r == self.spec_contains(p),
    {
        !((p.x < self.west) || (p.x > self.east) || (p.y < self.south) || (p.y > self.north))
    }

    /// Whether the interiors of two regions overlap.
    pub fn intersects(&self, other: &Region) -> (r: bool)
        ensures
            r == self.spec_intersects(other),
    {
        (self.west < other.east) && (self.east > other.west) && (self.south < other.north) && (
        self.north > other.south)
    }

    /// The center of this region, each coordinate rounded down to the grid.
    pub fn center(&self) -> (r: UTMCoordinates)
        ensures
            r == center_of(*self),
            r.x == midpoint(self.east as int, self.west as int),
            r.y == midpoint(self.north as int, self.south as int),
    {
        UTMCoordinates { x: mid_i32(self.east, self.west), y: mid_i32(self.north, self.south) }
    }

    pub fn southwest(&self) -> (r: UTMCoordinates)
        ensures
            r.x == self.west && r.y == self.south,
    {
        UTMCoordinates { y: self.south, x: self.west }
    }

    pub fn southeast(&self) -> (r: UTMCoordinates)
        ensures
            r.x == self.east && r.y == self.south,
    {
        UTMCoordinates { y: self.south, x: self.east }
    }

    pub fn northwest(&self) -> (r: UTMCoordinates)
        ensures
            r.x == self.west && r.y == self.north,
    {
        UTMCoordinates { y: self.north, x: self.west }
    }

    pub fn northeast(&self) -> (r: UTMCoordinates)
        ensures
            r.x == self.east && r.y == self.north,
    {
        UTMCoordinates { y: self.north, x: self.east }
    }
}

} // verus!

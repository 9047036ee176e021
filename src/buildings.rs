//! Buildings: a footprint reduced to its centroid, bounding box and area.
use vstd::prelude::*;

use crate::geo::{Region, UTMCoordinates};

verus! {

/// A simplified building footprint.
#[derive(Debug, Copy, Clone, PartialEq, Eq, Hash, Structural)]
pub struct Building {
    pub id: u32,
    /// The footprint's area, in square grid units.
    pub area: u64,
    pub centroid: UTMCoordinates,
    pub bbox: Region,
}

impl Building {
    pub fn new(id: u32, area: u64, centroid: UTMCoordinates, bbox: Region) -> (r: Building)
        ensures
            r == (Building { id, area, centroid, bbox }),
    {
        Building { id, area, centroid, bbox }
    }

    pub fn id(&self) -> (r: u32)
        ensures
            r == self.id,
    {
        self.id
    }

    pub fn area(&self) -> (r: u64)
        ensures
            r == self.area,
    {
        self.area
    }

    pub fn centroid(&self) -> (r: UTMCoordinates)
        ensures
            r == self.centroid,
    {
        self.centroid
    }

    /// The bounding box of the footprint.
    pub fn bbox(&self) -> (r: &Region)
        ensures
            *r == self.bbox,
    {
        &self.bbox
    }
}

} // verus!

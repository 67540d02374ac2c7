use vstd::prelude::*;

verus! {

/// A geographic position in units of 1e-7 degrees (the fixed-point form used by OSM).
#[derive(Clone, Copy, Debug, PartialEq, Eq, Structural)]
pub struct Position {
    pub lat: i32,
    pub lon: i32,
}

/// An axis-aligned box of positions, bounds inclusive, in units of 1e-7 degrees.
#[derive(Clone, Copy, Debug, PartialEq, Eq, Structural)]
pub struct BoundingBox {
    pub min_lat: i64,
    pub min_lon: i64,
    pub max_lat: i64,
    pub max_lon: i64,
}

impl BoundingBox {
    pub open spec fn contains_spec(&self, p: Position) -> bool {
        self.min_lat <= p.lat <= self.max_lat && self.min_lon <= p.lon <= self.max_lon
    }
}

} // verus!

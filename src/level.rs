//! Level geometry: polygons given as point sequences.
use vstd::prelude::*;
use crate::geometry::{Point, in_bounds};

verus! {

/// A closed or open chain of points. A container bounds the playable space;
/// any other polygon is a solid obstacle.
pub struct Polygon {
    pub points: Vec<Point>,
    pub is_container: bool,
}

/// The polygons of a level, in order.
pub struct Level {
    pub polygons: Vec<Polygon>,
}

impl Level {
    /// Every point of every polygon lies within the coordinate bounds.
    pub open spec fn well_formed(&self) -> bool {
        forall|pi: int, k: int|
            0 <= pi < self.polygons@.len() && 0 <= k < self.polygons@[pi].points@.len()
                ==> in_bounds(#[trigger] self.polygons@[pi].points@[k])
    }

    /// The `li`-th edge of polygon `pi`, from point `li` to point `li + 1`.
    pub open spec fn has_edge(&self, pi: int, li: int) -> bool {
        0 <= pi < self.polygons@.len() && 0 <= li && li + 1 < self.polygons@[pi].points@.len()
    }

    pub open spec fn edge_start(&self, pi: int, li: int) -> Point {
        self.polygons@[pi].points@[li]
    }

    pub open spec fn edge_end(&self, pi: int, li: int) -> Point {
        self.polygons@[pi].points@[li + 1]
    }
}

} // verus!

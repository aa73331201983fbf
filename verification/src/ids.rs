//! Identifiers of roads, intersections and OSM objects.
use vstd::prelude::*;

verus! {

/// An OSM node.
#[derive(Clone, Copy, Debug, PartialEq, Eq, Structural, PartialOrd, Ord, Hash)]
pub struct NodeID(pub i64);

/// An OSM way.
#[derive(Clone, Copy, Debug, PartialEq, Eq, Structural, PartialOrd, Ord, Hash)]
pub struct WayID(pub i64);

/// A road of a street network.
#[derive(Clone, Copy, Debug, PartialEq, Eq, Structural, PartialOrd, Ord, Hash)]
pub struct RoadID(pub usize);

/// An intersection of a street network.
#[derive(Clone, Copy, Debug, PartialEq, Eq, Structural, PartialOrd, Ord, Hash)]
pub struct IntersectionID(pub usize);

/// A lane of a road: the road, and the lane's index counted from the left.
#[derive(Clone, Copy, Debug, PartialEq, Eq, Structural, PartialOrd, Ord, Hash)]
pub struct LaneID {
    pub road: RoadID,
    pub index: usize,
}

/// Refers to a road segment between two nodes, using OSM IDs. Note OSM IDs are not stable over
/// time.
#[derive(Clone, Copy, Debug, PartialEq, Eq, Structural, PartialOrd, Ord, Hash)]
pub struct OriginalRoad {
    pub osm_way_id: WayID,
    pub i1: NodeID,
    pub i2: NodeID,
}

pub open spec fn spec_has_common_endpoint(a: OriginalRoad, b: OriginalRoad) -> bool {
    a.i1 == b.i1 || a.i1 == b.i2 || a.i2 == b.i1 || a.i2 == b.i2
}

impl OriginalRoad {
    pub fn new(way: i64, ends: (i64, i64)) -> (r: OriginalRoad)
        ensures
            r.osm_way_id == WayID(way),
            r.i1 == NodeID(ends.0),
            r.i2 == NodeID(ends.1),
    {
        OriginalRoad { osm_way_id: WayID(way), i1: NodeID(ends.0), i2: NodeID(ends.1) }
    }

    pub fn has_common_endpoint(&self, other: OriginalRoad) -> (r: bool)
        ensures
            r == spec_has_common_endpoint(*self, other),
    {
        if self.i1 == other.i1 || self.i1 == other.i2 {
            return true;
        }
        if self.i2 == other.i1 || self.i2 == other.i2 {
            return true;
        }
        false
    }

    /// The endpoint that the two roads share, preferring `self.i1`. Two roads between the same
    /// pair of nodes are not told apart.
    pub fn common_endpt(&self, other: OriginalRoad) -> (r: NodeID)
        requires
            spec_has_common_endpoint(*self, other),
        ensures
            r == (if self.i1 == other.i1 || self.i1 == other.i2 {
                self.i1
            } else {
                self.i2
            }),
            r == other.i1 || r == other.i2,
    {
        if self.i1 == other.i1 || self.i1 == other.i2 {
            return self.i1;
        }
        self.i2
    }
}

/// It's sometimes useful to track both a road's ID and endpoints together. Use this sparingly.
#[derive(Clone, Copy, Debug)]
pub struct RoadWithEndpoints {
    pub road: OriginalRoad,
    pub src_i: NodeID,
    pub dst_i: NodeID,
}

impl RoadWithEndpoints {
    /// The endpoint across the road from `i`, which must be one of them.
    pub fn other_side(&self, i: NodeID) -> (r: NodeID)
        requires
            self.src_i == i || self.dst_i == i,
        ensures
            r == (if self.src_i == i {
                self.dst_i
            } else {
                self.src_i
            }),
    {
        if self.src_i == i {
            self.dst_i
        } else {
            self.src_i
        }
    }
}

} // verus!

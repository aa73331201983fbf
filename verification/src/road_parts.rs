//! A description of a road by its parts, across its width.
use vstd::prelude::*;

use crate::lanes::{LaneSpec, LaneType, LaneWidth, LaneWidthView};

verus! {

/// Some hunk of something hurtling or dawdling down some lane, or being stored somewhere.
/// From train carriages, to hand drawn carts, to the sack of bones pulling it.
#[derive(Clone, Copy, Debug, PartialEq, Eq, Structural)]
pub enum Carriage {
    /// People on foot, aka "Pedestrians".
    Foot,
    /// People on bikes. (Scooters too?)
    Bike,
    /// Licenced vehicles in general.
    Cars,
    Taxi,
    Bus,
    Truck,
    /// Things on tracks, like trams and light rail. Heavy rail too, I guess.
    Train,
}

#[derive(Clone, Copy, Debug, PartialEq, Eq, Structural)]
pub enum RoadRanks {
    Freeway,
    Highway,
    Local,
    Rural,
    Service,
}

/// The directions that traffic moves in along a part of a road.
#[derive(Clone, Copy, Debug, PartialEq, Eq, Structural)]
pub enum TrafficDirections {
    Forward,
    Backward,
    BothWays,
}

/// A usage designation for an area, such as a lane.
#[derive(Clone, Copy, Debug, PartialEq, Eq, Structural)]
pub enum Designation {
    /// A part of the road designated for travel.
    Travel { carriage: Carriage, direction: TrafficDirections },
    /// A part of the road designated for parking / "standing".
    Parking { carriage: Carriage },
    /// A part of the road that is explicitly not (normally) for carriages.
    /// E.g. a painted buffer, median or verge.
    NoTravel,
}

/// What is the nature of the edge of this area of road?
#[derive(Clone, Copy, Debug, PartialEq, Eq, Structural)]
pub enum RoadEdge {
    /// Not actually the edge of the road, but a continuation into more road surface.
    Join,
    /// The road just ends and transitions into another groundcover.
    Sudden,
    /// A short rise up from the road surface.
    Kerb,
    /// A cliff or the edge of a bridge.
    Drop,
    /// Walls etc. that interrupt the road surface.
    Barrier,
}

/// A single lane on the carriageway, with designation, width, etc.
#[derive(Clone, Debug)]
pub struct RoadPart {
    pub designation: Designation,
    pub width: LaneWidth,
    pub can_enter_from_inside: bool,
    pub can_enter_from_outside: bool,
}

/// A road part with an exact width.
pub open spec fn is_part(
    p: RoadPart,
    designation: Designation,
    width: u64,
    inside: bool,
    outside: bool,
) -> bool {
    &&& p.designation == designation
    &&& p.width@ == LaneWidthView::Exact(width)
    &&& p.can_enter_from_inside == inside
    &&& p.can_enter_from_outside == outside
}

pub open spec fn travel(carriage: Carriage, direction: TrafficDirections) -> Designation {
    Designation::Travel { carriage, direction }
}

impl RoadPart {
    pub fn path() -> (r: RoadPart)
        ensures
            is_part(r, travel(Carriage::Foot, TrafficDirections::BothWays), 1_500_000, true, true),
    {
        RoadPart {
            designation: Designation::Travel {
                carriage: Carriage::Foot,
                direction: TrafficDirections::BothWays,
            },
            width: LaneWidth::Exact(1_500_000),
            can_enter_from_inside: true,
            can_enter_from_outside: true,
        }
    }

    pub fn track() -> (r: RoadPart)
        ensures
            is_part(r, travel(Carriage::Cars, TrafficDirections::BothWays), 4_000_000, true, true),
    {
        RoadPart {
            designation: Designation::Travel {
                carriage: Carriage::Cars,
                direction: TrafficDirections::BothWays,
            },
            width: LaneWidth::Exact(4_000_000),
            can_enter_from_inside: true,
            can_enter_from_outside: true,
        }
    }

    pub fn bike_lane() -> (r: RoadPart)
        ensures
            is_part(r, travel(Carriage::Bike, TrafficDirections::BothWays), 1_000_000, true, true),
    {
        RoadPart {
            designation: Designation::Travel {
                carriage: Carriage::Bike,
                direction: TrafficDirections::BothWays,
            },
            width: LaneWidth::Exact(1_000_000),
            can_enter_from_inside: true,
            can_enter_from_outside: true,
        }
    }

    /// A negotiated lane, like foot traffic.
    pub fn service_road() -> (r: RoadPart)
        ensures
            is_part(r, travel(Carriage::Cars, TrafficDirections::BothWays), 4_000_000, true, true),
    {
        RoadPart {
            designation: Designation::Travel {
                carriage: Carriage::Cars,
                direction: TrafficDirections::BothWays,
            },
            width: LaneWidth::Exact(4_000_000),
            can_enter_from_inside: true,
            can_enter_from_outside: true,
        }
    }

    /// A forward lane for cars; overtaking is assumed to be allowed, and entry from the outside.
    pub fn lane() -> (r: RoadPart)
        ensures
            is_part(r, travel(Carriage::Cars, TrafficDirections::Forward), 3_500_000, true, true),
    {
        RoadPart {
            designation: Designation::Travel {
                carriage: Carriage::Cars,
                direction: TrafficDirections::Forward,
            },
            width: LaneWidth::Exact(3_500_000),
            can_enter_from_inside: true,
            can_enter_from_outside: true,
        }
    }

    pub fn bus_lane() -> (r: RoadPart)
        ensures
            is_part(r, travel(Carriage::Bus, TrafficDirections::Forward), 3_500_000, true, true),
    {
        let l = Self::lane();
        RoadPart {
            designation: Designation::Travel {
                carriage: Carriage::Bus,
                direction: TrafficDirections::Forward,
            },
            ..l
        }
    }

    pub fn truck_lane() -> (r: RoadPart)
        ensures
            is_part(r, travel(Carriage::Truck, TrafficDirections::Forward), 3_500_000, true, true),
    {
        let l = Self::lane();
        RoadPart {
            designation: Designation::Travel {
                carriage: Carriage::Truck,
                direction: TrafficDirections::Forward,
            },
            ..l
        }
    }

    pub fn median() -> (r: RoadPart)
        ensures
            is_part(r, Designation::NoTravel, 1_000_000, false, false),
    {
        RoadPart {
            designation: Designation::NoTravel,
            width: LaneWidth::Exact(1_000_000),
            can_enter_from_inside: false,
            can_enter_from_outside: false,
        }
    }

    pub fn verge() -> (r: RoadPart)
        ensures
            is_part(r, Designation::NoTravel, 3_000_000, false, false),
    {
        RoadPart {
            designation: Designation::NoTravel,
            width: LaneWidth::Exact(3_000_000),
            can_enter_from_inside: false,
            can_enter_from_outside: false,
        }
    }
}

/// The designation of the road part that a lane becomes.
pub open spec fn spec_designation_of(lt: LaneType) -> Designation {
    match lt {
        LaneType::Sidewalk => travel(Carriage::Foot, TrafficDirections::Forward),
        LaneType::Biking => travel(Carriage::Bike, TrafficDirections::Forward),
        LaneType::Driving => travel(Carriage::Cars, TrafficDirections::Forward),
        LaneType::SharedLeftTurn => travel(Carriage::Cars, TrafficDirections::BothWays),
        LaneType::Bus => travel(Carriage::Bus, TrafficDirections::Forward),
        LaneType::LightRail => travel(Carriage::Train, TrafficDirections::Forward),
        LaneType::Buffer(_) | LaneType::Shoulder | LaneType::Construction => Designation::NoTravel,
        LaneType::Parking => Designation::Parking { carriage: Carriage::Cars },
        LaneType::Footway | LaneType::SharedUse => travel(Carriage::Foot, TrafficDirections::BothWays),
    }
}

/// The road part that a lane becomes.
pub open spec fn spec_part_of_lane(l: LaneSpec) -> (Designation, LaneWidthView, bool, bool) {
    (spec_designation_of(l.lt), l.width@, true, false)
}

impl RoadPart {
    /// The road part that a lane becomes. All parts run forward on their way, unless they are
    /// doing something fishy; the lane type carries the both-ways aspect of middle turn lanes.
    pub fn from_lane(l: &LaneSpec) -> (r: RoadPart)
        ensures
            (r.designation, r.width@, r.can_enter_from_inside, r.can_enter_from_outside)
                == spec_part_of_lane(*l),
    {
        let designation = match l.lt {
            LaneType::Sidewalk => Designation::Travel {
                carriage: Carriage::Foot,
                direction: TrafficDirections::Forward,
            },
            LaneType::Biking => Designation::Travel {
                carriage: Carriage::Bike,
                direction: TrafficDirections::Forward,
            },
            LaneType::Driving => Designation::Travel {
                carriage: Carriage::Cars,
                direction: TrafficDirections::Forward,
            },
            LaneType::SharedLeftTurn => Designation::Travel {
                carriage: Carriage::Cars,
                direction: TrafficDirections::BothWays,
            },
            LaneType::Bus => Designation::Travel {
                carriage: Carriage::Bus,
                direction: TrafficDirections::Forward,
            },
            LaneType::LightRail => Designation::Travel {
                carriage: Carriage::Train,
                direction: TrafficDirections::Forward,
            },
            LaneType::Buffer(_) => Designation::NoTravel,
            LaneType::Shoulder => Designation::NoTravel,
            LaneType::Parking => Designation::Parking { carriage: Carriage::Cars },
            LaneType::Construction => Designation::NoTravel,
            LaneType::Footway => Designation::Travel {
                carriage: Carriage::Foot,
                direction: TrafficDirections::BothWays,
            },
            LaneType::SharedUse => Designation::Travel {
                carriage: Carriage::Foot,
                direction: TrafficDirections::BothWays,
            },
        };
        let width = match &l.width {
            LaneWidth::Exact(d) => LaneWidth::Exact(*d),
            LaneWidth::Tagged { metres, otherwise } => LaneWidth::Tagged {
                metres: metres.clone(),
                otherwise: *otherwise,
            },
        };
        RoadPart { designation, width, can_enter_from_inside: true, can_enter_from_outside: false }
    }
}

} // verus!

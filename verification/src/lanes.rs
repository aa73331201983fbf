//! Lane types and the per-lane description of a road.
use vstd::prelude::*;

use crate::strings::str_eq;
use crate::types::DrivingSide;

verus! {

/// A length, in micrometres.
pub type Distance = u64;

/// The width of a normal driving lane.
pub const NORMAL_LANE_THICKNESS: Distance = 3_000_000;

/// The width of a lane on a service road.
pub const SERVICE_ROAD_LANE_THICKNESS: Distance = 2_000_000;

/// The width of a sidewalk.
pub const SIDEWALK_THICKNESS: Distance = 1_500_000;

/// The width of a shoulder.
pub const SHOULDER_THICKNESS: Distance = 500_000;

/// One foot.
pub const FOOT: Distance = 304_800;

#[derive(Clone, Copy, Debug, PartialEq, Eq, Structural, Hash, PartialOrd, Ord)]
pub enum BufferType {
    /// Just paint!
    Stripes,
    /// Flex posts, wands, cones, other "weak" forms of protection. Can weave through them.
    FlexPosts,
    /// Sturdier planters, with gaps.
    Planters,
    /// Solid barrier, no gaps.
    JerseyBarrier,
    /// A raised curb
    Curb,
    /// Non-road surface, between the road and footpath or within a median.
    Verge,
}

#[derive(Clone, Copy, Debug, PartialEq, Eq, Structural, Hash, PartialOrd, Ord)]
pub enum LaneType {
    Driving,
    Parking,
    Sidewalk,
    /// Walkable like a Sidewalk, but very narrow. Used to model pedestrians walking on roads
    /// without sidewalks.
    Shoulder,
    Biking,
    Bus,
    SharedLeftTurn,
    Construction,
    LightRail,
    Buffer(BufferType),
    /// Some kind of pedestrian-only path unassociated with a road
    Footway,
    /// Some kind of shared pedestrian+bicycle space. May be associated with a road or not.
    /// Unclear which mode has effective priority.
    SharedUse,
}

/// A broad categorisation of traffic by the kind of infrastructure it requires.
#[derive(Clone, Copy, Debug, PartialEq, Eq, Structural)]
pub enum TrafficClass {
    /// Pedestrians, wheelchair users, etc.
    Pedestrian,
    /// Bicycles or similar small ridden vehicles.
    Bicycle,
    /// Licenced motor vehicles, including motorbikes, cars, busses and trucks.
    Motor,
    /// Trains and trams that run on rails.
    Rail,
}

pub open spec fn spec_is_for_moving_vehicles(lt: LaneType) -> bool {
    match lt {
        LaneType::Driving | LaneType::Biking | LaneType::Bus | LaneType::LightRail
        | LaneType::SharedUse => true,
        _ => false,
    }
}

pub open spec fn spec_supports_any_movement(lt: LaneType) -> bool {
    match lt {
        LaneType::Parking | LaneType::SharedLeftTurn | LaneType::Construction
        | LaneType::Buffer(_) => false,
        _ => true,
    }
}

pub open spec fn spec_is_tagged_by_lanes_suffix(lt: LaneType) -> bool {
    match lt {
        LaneType::Driving | LaneType::Biking | LaneType::Bus | LaneType::SharedLeftTurn
        | LaneType::Construction => true,
        _ => false,
    }
}

pub open spec fn spec_is_roadway(lt: LaneType) -> bool {
    match lt {
        LaneType::Sidewalk | LaneType::Footway | LaneType::SharedUse => false,
        LaneType::Buffer(BufferType::Curb) | LaneType::Buffer(BufferType::Verge) => false,
        _ => true,
    }
}

pub open spec fn spec_is_walkable(lt: LaneType) -> bool {
    match lt {
        LaneType::Sidewalk | LaneType::Shoulder | LaneType::Footway | LaneType::SharedUse => true,
        _ => false,
    }
}

pub open spec fn spec_traffic_class(lt: LaneType) -> Option<TrafficClass> {
    match lt {
        LaneType::Footway | LaneType::Sidewalk => Some(TrafficClass::Pedestrian),
        LaneType::SharedUse | LaneType::Biking => Some(TrafficClass::Bicycle),
        LaneType::Bus | LaneType::SharedLeftTurn | LaneType::Driving => Some(TrafficClass::Motor),
        LaneType::LightRail => Some(TrafficClass::Rail),
        _ => None,
    }
}

pub open spec fn spec_describe(lt: LaneType) -> Seq<char> {
    match lt {
        LaneType::Driving => "a general-purpose driving lane"@,
        LaneType::Biking => "a bike lane"@,
        LaneType::Bus => "a bus-only lane"@,
        LaneType::Parking => "an on-street parking lane"@,
        LaneType::Sidewalk => "a sidewalk"@,
        LaneType::Shoulder => "a shoulder"@,
        LaneType::SharedLeftTurn => "a shared left-turn lane"@,
        LaneType::Construction => "a lane that's closed for construction"@,
        LaneType::LightRail => "a light rail track"@,
        LaneType::Buffer(BufferType::Stripes) => "striped pavement"@,
        LaneType::Buffer(BufferType::FlexPosts) => "flex post barriers"@,
        LaneType::Buffer(BufferType::Planters) => "planter barriers"@,
        LaneType::Buffer(BufferType::JerseyBarrier) => "a Jersey barrier"@,
        LaneType::Buffer(BufferType::Curb) => "a raised curb"@,
        LaneType::Buffer(BufferType::Verge) => "a grassy verge"@,
        LaneType::Footway => "a footway"@,
        LaneType::SharedUse => "a shared-use walking/cycling path"@,
    }
}

pub open spec fn spec_short_name(lt: LaneType) -> Seq<char> {
    match lt {
        LaneType::Driving => "driving lane"@,
        LaneType::Biking => "bike lane"@,
        LaneType::Bus => "bus lane"@,
        LaneType::Parking => "parking lane"@,
        LaneType::Sidewalk => "sidewalk"@,
        LaneType::Shoulder => "shoulder"@,
        LaneType::SharedLeftTurn => "left-turn lane"@,
        LaneType::Construction => "construction"@,
        LaneType::LightRail => "light rail track"@,
        LaneType::Buffer(BufferType::Stripes) => "stripes"@,
        LaneType::Buffer(BufferType::FlexPosts) => "flex posts"@,
        LaneType::Buffer(BufferType::Planters) => "planters"@,
        LaneType::Buffer(BufferType::JerseyBarrier) => "Jersey barrier"@,
        LaneType::Buffer(BufferType::Curb) => "curb"@,
        LaneType::Buffer(BufferType::Verge) => "verge"@,
        LaneType::Footway => "footway"@,
        LaneType::SharedUse => "shared-use path"@,
    }
}

/// The lane type whose short name is `x`, if any.
pub open spec fn spec_from_short_name(x: Seq<char>) -> Option<LaneType> {
    if x == "driving lane"@ {
        Some(LaneType::Driving)
    } else if x == "bike lane"@ {
        Some(LaneType::Biking)
    } else if x == "bus lane"@ {
        Some(LaneType::Bus)
    } else if x == "parking lane"@ {
        Some(LaneType::Parking)
    } else if x == "sidewalk"@ {
        Some(LaneType::Sidewalk)
    } else if x == "shoulder"@ {
        Some(LaneType::Shoulder)
    } else if x == "left-turn lane"@ {
        Some(LaneType::SharedLeftTurn)
    } else if x == "construction"@ {
        Some(LaneType::Construction)
    } else if x == "light rail track"@ {
        Some(LaneType::LightRail)
    } else if x == "stripes"@ {
        Some(LaneType::Buffer(BufferType::Stripes))
    } else if x == "flex posts"@ {
        Some(LaneType::Buffer(BufferType::FlexPosts))
    } else if x == "planters"@ {
        Some(LaneType::Buffer(BufferType::Planters))
    } else if x == "Jersey barrier"@ {
        Some(LaneType::Buffer(BufferType::JerseyBarrier))
    } else if x == "curb"@ {
        Some(LaneType::Buffer(BufferType::Curb))
    } else if x == "verge"@ {
        Some(LaneType::Buffer(BufferType::Verge))
    } else if x == "footway"@ {
        Some(LaneType::Footway)
    } else if x == "shared-use path"@ {
        Some(LaneType::SharedUse)
    } else {
        None
    }
}

pub open spec fn spec_to_char(lt: LaneType) -> char {
    match lt {
        LaneType::Driving => 'd',
        LaneType::Biking => 'b',
        LaneType::Bus => 'B',
        LaneType::Parking => 'p',
        LaneType::Sidewalk => 's',
        LaneType::Shoulder => 'S',
        LaneType::SharedLeftTurn => 'C',
        LaneType::Construction => 'x',
        LaneType::LightRail => 'l',
        LaneType::Buffer(_) => '|',
        LaneType::Footway => 'f',
        LaneType::SharedUse => 'F',
    }
}

/// The characters that `LaneType::from_char` accepts.
pub open spec fn is_lane_char(x: char) -> bool {
    x == 'd' || x == 'b' || x == 'B' || x == 'p' || x == 's' || x == 'S' || x == 'C' || x == 'x'
        || x == 'l' || x == '|' || x == 'f' || x == 'F'
}

pub open spec fn spec_from_char(x: char) -> LaneType {
    if x == 'd' {
        LaneType::Driving
    } else if x == 'b' {
        LaneType::Biking
    } else if x == 'B' {
        LaneType::Bus
    } else if x == 'p' {
        LaneType::Parking
    } else if x == 's' {
        LaneType::Sidewalk
    } else if x == 'S' {
        LaneType::Shoulder
    } else if x == 'C' {
        LaneType::SharedLeftTurn
    } else if x == 'x' {
        LaneType::Construction
    } else if x == 'l' {
        LaneType::LightRail
    } else if x == '|' {
        LaneType::Buffer(BufferType::FlexPosts)
    } else if x == 'f' {
        LaneType::Footway
    } else {
        LaneType::SharedUse
    }
}

impl LaneType {
    pub fn is_for_moving_vehicles(self) -> (r: bool)
        ensures
            r == spec_is_for_moving_vehicles(self),
    {
        match self {
            LaneType::Driving => true,
            LaneType::Biking => true,
            LaneType::Bus => true,
            LaneType::Parking => false,
            LaneType::Sidewalk => false,
            LaneType::Shoulder => false,
            LaneType::SharedLeftTurn => false,
            LaneType::Construction => false,
            LaneType::LightRail => true,
            LaneType::Buffer(_) => false,
            LaneType::Footway => false,
            LaneType::SharedUse => true,
        }
    }

    pub fn supports_any_movement(self) -> (r: bool)
        ensures
            r == spec_supports_any_movement(self),
    {
        match self {
            LaneType::Driving => true,
            LaneType::Biking => true,
            LaneType::Bus => true,
            LaneType::Parking => false,
            LaneType::Sidewalk => true,
            LaneType::Shoulder => true,
            LaneType::SharedLeftTurn => false,
            LaneType::Construction => false,
            LaneType::LightRail => true,
            LaneType::Buffer(_) => false,
            LaneType::Footway => true,
            LaneType::SharedUse => true,
        }
    }

    /// Determines if the lane is a travel lane that is represented in OSM `*:lanes` tags.
    /// Note that the `lanes` tag counts car driving lanes, excluding bike lanes, whereas the
    /// `:lanes` suffix specifies that each lane, including bike lanes, should have a value between
    /// `|`s. This function identifies the latter kind.
    pub fn is_tagged_by_lanes_suffix(&self) -> (r: bool)
        ensures
            r == spec_is_tagged_by_lanes_suffix(*self),
    {
        match self {
            LaneType::Driving => true,
            LaneType::Biking => true,
            LaneType::Bus => true,
            LaneType::Parking => false,
            LaneType::Sidewalk => false,
            LaneType::Shoulder => false,
            LaneType::SharedLeftTurn => true,
            LaneType::Construction => true,
            LaneType::LightRail => false,
            LaneType::Buffer(_) => false,
            LaneType::Footway => false,
            LaneType::SharedUse => false,
        }
    }

    /// Determines if the lane is part of the roadway, the contiguous sealed surface that OSM
    /// mappers consider the "road".
    pub fn is_roadway(&self) -> (r: bool)
        ensures
            r == spec_is_roadway(*self),
    {
        match self {
            LaneType::Driving => true,
            LaneType::Biking => true,
            LaneType::Bus => true,
            LaneType::Parking => true,
            LaneType::Sidewalk => false,
            LaneType::Shoulder => true,
            LaneType::SharedLeftTurn => true,
            LaneType::Construction => true,
            LaneType::LightRail => true,
            LaneType::Buffer(BufferType::Curb) => false,
            LaneType::Buffer(BufferType::Verge) => false,
            LaneType::Buffer(_) => true,
            LaneType::Footway => false,
            LaneType::SharedUse => false,
        }
    }

    pub fn is_walkable(self) -> (r: bool)
        ensures
            r == spec_is_walkable(self),
    {
        match self {
            LaneType::Sidewalk | LaneType::Shoulder | LaneType::Footway | LaneType::SharedUse => {
                true
            },
            _ => false,
        }
    }

    /// The most significant class of traffic that travels in this lane.
    pub fn traffic_class(&self) -> (r: Option<TrafficClass>)
        ensures
            r == spec_traffic_class(*self),
    {
        match self {
            LaneType::Footway | LaneType::Sidewalk => Some(TrafficClass::Pedestrian),
            LaneType::SharedUse | LaneType::Biking => Some(TrafficClass::Bicycle),
            LaneType::Bus | LaneType::SharedLeftTurn | LaneType::Driving => Some(
                TrafficClass::Motor,
            ),
            LaneType::LightRail => Some(TrafficClass::Rail),
            LaneType::Buffer(_) | LaneType::Shoulder | LaneType::Construction
            | LaneType::Parking => None,
        }
    }

    pub fn describe(self) -> (r: &'static str)
        ensures
            r@ == spec_describe(self),
    {
        match self {
            LaneType::Driving => "a general-purpose driving lane",
            LaneType::Biking => "a bike lane",
            LaneType::Bus => "a bus-only lane",
            LaneType::Parking => "an on-street parking lane",
            LaneType::Sidewalk => "a sidewalk",
            LaneType::Shoulder => "a shoulder",
            LaneType::SharedLeftTurn => "a shared left-turn lane",
            LaneType::Construction => "a lane that's closed for construction",
            LaneType::LightRail => "a light rail track",
            LaneType::Buffer(BufferType::Stripes) => "striped pavement",
            LaneType::Buffer(BufferType::FlexPosts) => "flex post barriers",
            LaneType::Buffer(BufferType::Planters) => "planter barriers",
            LaneType::Buffer(BufferType::JerseyBarrier) => "a Jersey barrier",
            LaneType::Buffer(BufferType::Curb) => "a raised curb",
            LaneType::Buffer(BufferType::Verge) => "a grassy verge",
            LaneType::Footway => "a footway",
            LaneType::SharedUse => "a shared-use walking/cycling path",
        }
    }

    pub fn short_name(self) -> (r: &'static str)
        ensures
            r@ == spec_short_name(self),
    {
        match self {
            LaneType::Driving => "driving lane",
            LaneType::Biking => "bike lane",
            LaneType::Bus => "bus lane",
            LaneType::Parking => "parking lane",
            LaneType::Sidewalk => "sidewalk",
            LaneType::Shoulder => "shoulder",
            LaneType::SharedLeftTurn => "left-turn lane",
            LaneType::Construction => "construction",
            LaneType::LightRail => "light rail track",
            LaneType::Buffer(BufferType::Stripes) => "stripes",
            LaneType::Buffer(BufferType::FlexPosts) => "flex posts",
            LaneType::Buffer(BufferType::Planters) => "planters",
            LaneType::Buffer(BufferType::JerseyBarrier) => "Jersey barrier",
            LaneType::Buffer(BufferType::Curb) => "curb",
            LaneType::Buffer(BufferType::Verge) => "verge",
            LaneType::Footway => "footway",
            LaneType::SharedUse => "shared-use path",
        }
    }

    pub fn from_short_name(x: &str) -> (r: Option<LaneType>)
        ensures
            r == spec_from_short_name(x@),
    {
        if str_eq(x, "driving lane") {
            Some(LaneType::Driving)
        } else if str_eq(x, "bike lane") {
            Some(LaneType::Biking)
        } else if str_eq(x, "bus lane") {
            Some(LaneType::Bus)
        } else if str_eq(x, "parking lane") {
            Some(LaneType::Parking)
        } else if str_eq(x, "sidewalk") {
            Some(LaneType::Sidewalk)
        } else if str_eq(x, "shoulder") {
            Some(LaneType::Shoulder)
        } else if str_eq(x, "left-turn lane") {
            Some(LaneType::SharedLeftTurn)
        } else if str_eq(x, "construction") {
            Some(LaneType::Construction)
        } else if str_eq(x, "light rail track") {
            Some(LaneType::LightRail)
        } else if str_eq(x, "stripes") {
            Some(LaneType::Buffer(BufferType::Stripes))
        } else if str_eq(x, "flex posts") {
            Some(LaneType::Buffer(BufferType::FlexPosts))
        } else if str_eq(x, "planters") {
            Some(LaneType::Buffer(BufferType::Planters))
        } else if str_eq(x, "Jersey barrier") {
            Some(LaneType::Buffer(BufferType::JerseyBarrier))
        } else if str_eq(x, "curb") {
            Some(LaneType::Buffer(BufferType::Curb))
        } else if str_eq(x, "verge") {
            Some(LaneType::Buffer(BufferType::Verge))
        } else if str_eq(x, "footway") {
            Some(LaneType::Footway)
        } else if str_eq(x, "shared-use path") {
            Some(LaneType::SharedUse)
        } else {
            None
        }
    }

    /// Represents the lane type as a single character, for use in tests.
    pub fn to_char(self) -> (r: char)
        ensures
            r == spec_to_char(self),
    {
        match self {
            LaneType::Driving => 'd',
            LaneType::Biking => 'b',
            LaneType::Bus => 'B',
            LaneType::Parking => 'p',
            LaneType::Sidewalk => 's',
            LaneType::Shoulder => 'S',
            LaneType::SharedLeftTurn => 'C',
            LaneType::Construction => 'x',
            LaneType::LightRail => 'l',
            LaneType::Buffer(_) => '|',
            LaneType::Footway => 'f',
            LaneType::SharedUse => 'F',
        }
    }

    /// The inverse of `to_char`. Always picks one buffer type. Defined only on the characters
    /// that `to_char` produces.
    pub fn from_char(x: char) -> (r: LaneType)
        requires
            is_lane_char(x),
        ensures
            r == spec_from_char(x),
    {
        if x == 'd' {
            LaneType::Driving
        } else if x == 'b' {
            LaneType::Biking
        } else if x == 'B' {
            LaneType::Bus
        } else if x == 'p' {
            LaneType::Parking
        } else if x == 's' {
            LaneType::Sidewalk
        } else if x == 'S' {
            LaneType::Shoulder
        } else if x == 'C' {
            LaneType::SharedLeftTurn
        } else if x == 'x' {
            LaneType::Construction
        } else if x == 'l' {
            LaneType::LightRail
        } else if x == '|' {
            LaneType::Buffer(BufferType::FlexPosts)
        } else if x == 'f' {
            LaneType::Footway
        } else {
            LaneType::SharedUse
        }
    }
}

#[derive(Clone, Copy, Debug, PartialEq, Eq, Structural, Hash, PartialOrd, Ord)]
pub enum Direction {
    Fwd,
    Back,
}

pub open spec fn spec_opposite(d: Direction) -> Direction {
    match d {
        Direction::Fwd => Direction::Back,
        Direction::Back => Direction::Fwd,
    }
}

impl Direction {
    pub fn opposite(self) -> (r: Direction)
        ensures
            r == spec_opposite(self),
    {
        match self {
            Direction::Fwd => Direction::Back,
            Direction::Back => Direction::Fwd,
        }
    }

    /// The text that `Display` shows for a direction.
    pub fn to_string(&self) -> (r: &'static str)
        ensures
            r@ == (match *self {
                Direction::Fwd => "forwards"@,
                Direction::Back => "backwards"@,
            }),
    {
        match self {
            Direction::Fwd => "forwards",
            Direction::Back => "backwards",
        }
    }
}

/// A turn direction as defined by <https://wiki.openstreetmap.org/wiki/Key:turn>.
#[derive(Clone, Copy, Debug, PartialEq, Eq, Structural, Hash, PartialOrd, Ord)]
pub enum TurnDirection {
    Through,
    Left,
    Right,
    /// A turn to the left of less than 90 degrees. Not to be confused with a merge or a highway exit.
    SlightLeft,
    /// A turn to the right of less than 90 degrees. Not to be confused with a merge or a highway exit.
    SlightRight,
    SharpLeft,
    SharpRight,
    /// A merge one lane to the left, or a highway exit on the left.
    MergeLeft,
    /// A merge one lane to the right, or a highway exit on the right.
    MergeRight,
    /// A full 180 degree turn, aka a U-turn.
    Reverse,
}

/// Refers to a lane by its left-to-right position among all lanes in that direction. Backward
/// lanes are counted left-to-right from the backwards direction.
///
/// e.g. The left-most forward lane is `LtrLaneNum::Forward(1)` and the backward lane furthest to
/// the road-right is `LtrLaneNum::Backward(1)`, because of the backward perspective.
#[derive(Clone, Copy, Debug, PartialEq, Eq, Structural)]
pub enum LtrLaneNum {
    Forward(usize),
    Backward(usize),
}

pub open spec fn spec_lane_num_reverse(n: LtrLaneNum) -> LtrLaneNum {
    match n {
        LtrLaneNum::Forward(x) => LtrLaneNum::Backward(x),
        LtrLaneNum::Backward(x) => LtrLaneNum::Forward(x),
    }
}

pub open spec fn spec_lane_num(n: LtrLaneNum) -> usize {
    match n {
        LtrLaneNum::Forward(x) => x,
        LtrLaneNum::Backward(x) => x,
    }
}

pub open spec fn spec_lane_num_direction(n: LtrLaneNum) -> Direction {
    match n {
        LtrLaneNum::Forward(_) => Direction::Fwd,
        LtrLaneNum::Backward(_) => Direction::Back,
    }
}

impl LtrLaneNum {
    pub fn direction(&self) -> (r: Direction)
        ensures
            r == spec_lane_num_direction(*self),
    {
        match self {
            LtrLaneNum::Forward(_) => Direction::Fwd,
            LtrLaneNum::Backward(_) => Direction::Back,
        }
    }

    pub fn number(&self) -> (r: usize)
        ensures
            r == spec_lane_num(*self),
    {
        match self {
            LtrLaneNum::Forward(num) => *num,
            LtrLaneNum::Backward(num) => *num,
        }
    }

    /// Converts to the same numbered lane in the opposite direction.
    pub fn reverse(&self) -> (r: LtrLaneNum)
        ensures
            r == spec_lane_num_reverse(*self),
    {
        match self {
            LtrLaneNum::Forward(n) => LtrLaneNum::Backward(*n),
            LtrLaneNum::Backward(n) => LtrLaneNum::Forward(*n),
        }
    }

    /// The next lane to the right, in the same direction.
    pub fn right(&self) -> (r: LtrLaneNum)
        requires
            spec_lane_num(*self) < usize::MAX,
        ensures
            spec_lane_num_direction(r) == spec_lane_num_direction(*self),
            spec_lane_num(r) == spec_lane_num(*self) + 1,
    {
        match self {
            LtrLaneNum::Forward(n) => LtrLaneNum::Forward(*n + 1),
            LtrLaneNum::Backward(n) => LtrLaneNum::Backward(*n + 1),
        }
    }

    /// The next lane to the left, in the same direction.
    pub fn left(&self) -> (r: LtrLaneNum)
        requires
            spec_lane_num(*self) > 0,
        ensures
            spec_lane_num_direction(r) == spec_lane_num_direction(*self),
            spec_lane_num(r) == spec_lane_num(*self) - 1,
    {
        match self {
            LtrLaneNum::Forward(n) => LtrLaneNum::Forward(*n - 1),
            LtrLaneNum::Backward(n) => LtrLaneNum::Backward(*n - 1),
        }
    }
}

/// Identifies a position within the width of a roadway. Lanes are identified by their
/// left-to-right position in the specified direction, as per the OSM convention.
///
/// Most commonly seen as a value of the placement tag, e.g.
/// `placement=right_of:1` means that the OSM way is drawn along the right edge of lane 1.
#[derive(Clone, Copy, Debug, PartialEq, Eq, Structural)]
pub enum RoadPosition {
    /// The center of the carriageway width, ignoring lanes. The default placement of OSM ways.
    Center,
    /// The center of the full width of a `Road`, including verges and footpaths.
    FullWidthCenter,
    /// The center of the separation between both directions of traffic, i.e. the dividing line,
    /// median, or shared turning lane. For a oneway road, this is the "inside" edge of the road,
    /// i.e. the right side of LHT and the left side of RHT.
    Separation,
    /// On the left edge of the named lane (from the direction of the named lane).
    LeftOf(LtrLaneNum),
    /// In the middle of the named lane.
    MiddleOf(LtrLaneNum),
    /// On the right edge of the named lane (from the direction of the named lane).
    RightOf(LtrLaneNum),
}

pub open spec fn spec_position_reverse(p: RoadPosition) -> RoadPosition {
    match p {
        RoadPosition::LeftOf(n) => RoadPosition::LeftOf(spec_lane_num_reverse(n)),
        RoadPosition::MiddleOf(n) => RoadPosition::MiddleOf(spec_lane_num_reverse(n)),
        RoadPosition::RightOf(n) => RoadPosition::RightOf(spec_lane_num_reverse(n)),
        _ => p,
    }
}

impl RoadPosition {
    /// Converts to the same placement interpreted from the other direction. That is, only the
    /// wrapped LtrLaneNum is reversed.
    pub fn reverse(self) -> (r: RoadPosition)
        ensures
            r == spec_position_reverse(self),
    {
        match self {
            RoadPosition::Center | RoadPosition::FullWidthCenter | RoadPosition::Separation => self,
            RoadPosition::LeftOf(n) => RoadPosition::LeftOf(n.reverse()),
            RoadPosition::MiddleOf(n) => RoadPosition::MiddleOf(n.reverse()),
            RoadPosition::RightOf(n) => RoadPosition::RightOf(n.reverse()),
        }
    }

    /// The lane whose left edge this position is, if it is on a lane edge.
    pub fn left_of_lane(self) -> (r: Option<LtrLaneNum>)
        requires
            self matches RoadPosition::RightOf(n) ==> spec_lane_num(n) < usize::MAX,
        ensures
            match self {
                RoadPosition::LeftOf(n) => r == Some(n),
                RoadPosition::RightOf(n) => r matches Some(m) && spec_lane_num_direction(m)
                    == spec_lane_num_direction(n) && spec_lane_num(m) == spec_lane_num(n) + 1,
                _ => r is None,
            },
    {
        match self {
            RoadPosition::LeftOf(l) => Some(l),
            RoadPosition::RightOf(l) => Some(l.right()),
            _ => None,
        }
    }
}

/// One end of a road.
#[derive(Clone, Copy, Debug, PartialEq, Eq, Structural)]
pub enum RoadEnd {
    Start,
    End,
}

/// The direction of travel along a road towards its end `e`.
pub open spec fn spec_direction_towards(e: RoadEnd) -> Direction {
    match e {
        RoadEnd::End => Direction::Fwd,
        RoadEnd::Start => Direction::Back,
    }
}

/// The direction of travel along a road away from its end `e`.
pub open spec fn spec_direction_from(e: RoadEnd) -> Direction {
    match e {
        RoadEnd::Start => Direction::Fwd,
        RoadEnd::End => Direction::Back,
    }
}

impl RoadEnd {
    /// The direction of travel along the road towards this end.
    pub fn direction_towards(self) -> (r: Direction)
        ensures
            r == spec_direction_towards(self),
    {
        match self {
            RoadEnd::End => Direction::Fwd,
            RoadEnd::Start => Direction::Back,
        }
    }

    /// The direction of travel along the road away from this end.
    pub fn direction_from(self) -> (r: Direction)
        ensures
            r == spec_direction_from(self),
    {
        match self {
            RoadEnd::Start => Direction::Fwd,
            RoadEnd::End => Direction::Back,
        }
    }
}

/// Describes the placement of a line (such as the OSM Way) along a road.
#[derive(Clone, Copy, Debug, PartialEq, Eq, Structural)]
pub enum Placement {
    /// Along the specified position down the entire length.
    Consistent(RoadPosition),
    /// Varying linearly from a specified position at the start, to a different one at the end.
    Varying(RoadPosition, RoadPosition),
    /// Varying linearly from some unspecified position at the start, to a different one at the end.
    Transition,
}

impl Placement {
    pub fn road_position_at(&self, end: RoadEnd) -> (r: Option<RoadPosition>)
        ensures
            r == (match *self {
                Placement::Consistent(pos) => Some(pos),
                Placement::Varying(start_pos, end_pos) => match end {
                    RoadEnd::Start => Some(start_pos),
                    RoadEnd::End => Some(end_pos),
                },
                Placement::Transition => None,
            }),
    {
        match self {
            Placement::Consistent(pos) => Some(*pos),
            Placement::Varying(start_pos, end_pos) => match end {
                RoadEnd::Start => Some(*start_pos),
                RoadEnd::End => Some(*end_pos),
            },
            Placement::Transition => None,
        }
    }
}

/// The width of a lane. `Tagged` holds the value of an OSM width tag, in metres: the width is
/// that value read as a floating-point number where it reads as one, and `otherwise` where it
/// does not. Reading the number is left to the caller.
#[derive(Clone, Debug)]
pub enum LaneWidth {
    Exact(Distance),
    Tagged { metres: String, otherwise: Distance },
}

/// What a `LaneWidth` stands for.
pub enum LaneWidthView {
    Exact(Distance),
    Tagged { metres: Seq<char>, otherwise: Distance },
}

impl View for LaneWidth {
    type V = LaneWidthView;

    open spec fn view(&self) -> LaneWidthView {
        match self {
            LaneWidth::Exact(d) => LaneWidthView::Exact(*d),
            LaneWidth::Tagged { metres, otherwise } => LaneWidthView::Tagged {
                metres: metres@,
                otherwise: *otherwise,
            },
        }
    }
}

#[derive(Clone, Debug)]
pub struct LaneSpec {
    pub lt: LaneType,
    pub dir: Direction,
    pub width: LaneWidth,
    /// Turn restrictions for this lane, as the `;`-separated parts of its `turn:lanes` value.
    /// Empty when none are indicated.
    pub turn_restrictions: Vec<String>,
}

/// What a `LaneSpec` stands for.
pub struct LaneSpecView {
    pub lt: LaneType,
    pub dir: Direction,
    pub width: LaneWidthView,
    pub turn_restrictions: Seq<Seq<char>>,
}

impl View for LaneSpec {
    type V = LaneSpecView;

    open spec fn view(&self) -> LaneSpecView {
        LaneSpecView {
            lt: self.lt,
            dir: self.dir,
            width: self.width@,
            turn_restrictions: self.turn_restrictions@.map_values(|s: String| s@),
        }
    }
}

pub open spec fn lanes_view(v: Seq<LaneSpec>) -> Seq<LaneSpecView> {
    v.map_values(|l: LaneSpec| l@)
}

/// The first (default) width of `typical_lane_widths`.
pub open spec fn spec_typical_width(lt: LaneType, highway_type: Seq<char>) -> Distance {
    match lt {
        LaneType::Driving | LaneType::Parking => if highway_type == "service"@ {
            SERVICE_ROAD_LANE_THICKNESS
        } else {
            NORMAL_LANE_THICKNESS
        },
        LaneType::Biking => 1_500_000,
        LaneType::Bus => 3_048_000,
        LaneType::SharedLeftTurn | LaneType::Construction | LaneType::LightRail => NORMAL_LANE_THICKNESS,
        LaneType::Sidewalk => SIDEWALK_THICKNESS,
        LaneType::Shoulder => SHOULDER_THICKNESS,
        LaneType::Buffer(BufferType::Stripes) => 1_500_000,
        LaneType::Buffer(BufferType::FlexPosts) => 500_000,
        LaneType::Buffer(BufferType::Planters) => 2_000_000,
        LaneType::Buffer(BufferType::JerseyBarrier) => 1_500_000,
        LaneType::Buffer(BufferType::Curb) => 100_000,
        LaneType::Buffer(BufferType::Verge) => 2_000_000,
        LaneType::Footway => 2_000_000,
        LaneType::SharedUse => 3_000_000,
    }
}

/// Likely widths of a lane of type `lt` on a road of OSM highway type `highway_type`, each with
/// a label, the default first. Widths in feet are 304 800 micrometres per foot.
pub open spec fn spec_typical_widths(lt: LaneType, highway_type: Seq<char>) -> Seq<(Distance, Seq<char>)> {
    match lt {
        LaneType::Driving => if highway_type == "service"@ {
            seq![
                (SERVICE_ROAD_LANE_THICKNESS, "alley"@),
                (NORMAL_LANE_THICKNESS, "typical"@),
                (2_438_400u64, "narrow"@),
                (3_657_600u64, "highway"@),
            ]
        } else {
            seq![
                (NORMAL_LANE_THICKNESS, "typical"@),
                (SERVICE_ROAD_LANE_THICKNESS, "alley"@),
                (2_438_400u64, "narrow"@),
                (3_657_600u64, "highway"@),
            ]
        },
        LaneType::Biking => seq![(1_500_000u64, "absolute minimum"@), (2_000_000u64, "standard"@)],
        LaneType::Bus => seq![(3_048_000u64, "minimum"@), (3_657_600u64, "normal"@)],
        LaneType::Parking => if highway_type == "service"@ {
            seq![
                (SERVICE_ROAD_LANE_THICKNESS, "alley"@),
                (NORMAL_LANE_THICKNESS, "full lane"@),
                (2_133_600u64, "narrow"@),
                (4_572_000u64, "loading zone"@),
            ]
        } else {
            seq![
                (NORMAL_LANE_THICKNESS, "full lane"@),
                (SERVICE_ROAD_LANE_THICKNESS, "alley"@),
                (2_133_600u64, "narrow"@),
                (4_572_000u64, "loading zone"@),
            ]
        },
        LaneType::Sidewalk => seq![(SIDEWALK_THICKNESS, "default"@), (1_828_800u64, "wide"@)],
        _ => seq![(spec_typical_width(lt, highway_type), "default"@)],
    }
}

/// Width choices with their labels as text.
pub open spec fn width_choices_view(s: Seq<(Distance, &'static str)>) -> Seq<(Distance, Seq<char>)> {
    s.map_values(|p: (Distance, &'static str)| (p.0, p.1@))
}

/// A new lane of type `lt` in direction `dir`, with the default width for `highway_type` and
/// no turn restrictions.
pub open spec fn new_lane(highway_type: Seq<char>, lt: LaneType, dir: Direction) -> LaneSpecView {
    LaneSpecView {
        lt,
        dir,
        width: LaneWidthView::Exact(spec_typical_width(lt, highway_type)),
        turn_restrictions: Seq::empty(),
    }
}

/// The forward and backward lanes, ordered from the road center outwards, put in
/// left-to-right order.
pub open spec fn spec_assemble_ltr<T>(fwd_side: Seq<T>, back_side: Seq<T>, side: DrivingSide) -> Seq<
    T,
> {
    match side {
        DrivingSide::Right => back_side.reverse() + fwd_side,
        DrivingSide::Left => fwd_side.reverse() + back_side,
    }
}

/// The driving direction of a list of lanes, if they all go one way.
pub open spec fn spec_oneway_for_driving(lanes: Seq<LaneSpecView>) -> Option<Direction> {
    let fwd = exists|i: int|
        0 <= i < lanes.len() && (#[trigger] lanes[i]).lt == LaneType::Driving && lanes[i].dir
            == Direction::Fwd;
    let back = exists|i: int|
        0 <= i < lanes.len() && (#[trigger] lanes[i]).lt == LaneType::Driving && lanes[i].dir
            == Direction::Back;
    if fwd && back {
        None
    } else if fwd {
        Some(Direction::Fwd)
    } else if back {
        Some(Direction::Back)
    } else {
        None
    }
}

/// Moves the lanes of `v` into a new list, last first.
fn reversed(v: Vec<LaneSpec>) -> (r: Vec<LaneSpec>)
    ensures
        r@ == v@.reverse(),
{
    let mut v = v;
    let mut r: Vec<LaneSpec> = Vec::new();
    let ghost orig = v@;
    while v.len() > 0
        invariant
            v@.len() <= orig.len(),
            v@ == orig.take(v@.len() as int),
            r@ == orig.skip(v@.len() as int).reverse(),
        decreases v@.len(),
    {
        let ghost n = v@.len();
        let x = v.pop().unwrap();
        r.push(x);
        assert(orig.skip(n - 1).reverse() =~= orig.skip(n as int).reverse().push(orig[n - 1]));
        assert(v@ =~= orig.take(n - 1));
    }
    assert(orig.skip(0) =~= orig);
    r
}

/// Moves the lanes of `tail` onto the end of `v`.
fn extend(v: &mut Vec<LaneSpec>, tail: Vec<LaneSpec>)
    ensures
        final(v)@ == old(v)@ + tail@,
{
    let mut tail = tail;
    v.append(&mut tail);
}

impl LaneSpec {
    /// For a given lane type, returns some likely widths. This may depend on the OSM highway type
    /// of the road. The first value returned will be used as a default.
    pub fn typical_lane_widths(lt: LaneType, highway_type: &str) -> (r: Vec<(Distance, &'static str)>)
        ensures
            width_choices_view(r@) == spec_typical_widths(lt, highway_type@),
            r@.len() > 0,
            r@[0].0 == spec_typical_width(lt, highway_type@),
    {
        match lt {
            LaneType::Driving => {
                let mut choices = vec![
                    (NORMAL_LANE_THICKNESS, "typical"),
                    (SERVICE_ROAD_LANE_THICKNESS, "alley"),
                    (8 * FOOT, "narrow"),
                    (12 * FOOT, "highway"),
                ];
                if str_eq(highway_type, "service") {
                    let first = choices[0];
                    let second = choices[1];
                    choices.set(0, second);
                    choices.set(1, first);
                }
                choices
            },
            LaneType::Biking => vec![(1_500_000, "absolute minimum"), (2_000_000, "standard")],
            LaneType::Bus => vec![(10 * FOOT, "minimum"), (12 * FOOT, "normal")],
            LaneType::Parking => {
                let mut choices = vec![
                    (NORMAL_LANE_THICKNESS, "full lane"),
                    (SERVICE_ROAD_LANE_THICKNESS, "alley"),
                    (7 * FOOT, "narrow"),
                    (15 * FOOT, "loading zone"),
                ];
                if str_eq(highway_type, "service") {
                    let first = choices[0];
                    let second = choices[1];
                    choices.set(0, second);
                    choices.set(1, first);
                }
                choices
            },
            LaneType::SharedLeftTurn => vec![(NORMAL_LANE_THICKNESS, "default")],
            LaneType::Construction => vec![(NORMAL_LANE_THICKNESS, "default")],
            LaneType::LightRail => vec![(NORMAL_LANE_THICKNESS, "default")],
            LaneType::Sidewalk => vec![(SIDEWALK_THICKNESS, "default"), (6 * FOOT, "wide")],
            LaneType::Shoulder => vec![(SHOULDER_THICKNESS, "default")],
            LaneType::Buffer(BufferType::Stripes) => vec![(1_500_000, "default")],
            LaneType::Buffer(BufferType::FlexPosts) => vec![(500_000, "default")],
            LaneType::Buffer(BufferType::Planters) => vec![(2_000_000, "default")],
            LaneType::Buffer(BufferType::JerseyBarrier) => vec![(1_500_000, "default")],
            LaneType::Buffer(BufferType::Curb) => vec![(100_000, "default")],
            LaneType::Buffer(BufferType::Verge) => vec![(2_000_000, "default")],
            LaneType::Footway => vec![(2_000_000, "default")],
            LaneType::SharedUse => vec![(3_000_000, "default")],
        }
    }

    /// Pick a reasonable default for a lane width, without any context on locale or tags.
    pub fn typical_lane_width(lt: LaneType) -> (r: Distance)
        ensures
            r == spec_typical_width(lt, "road"@),
    {
        let widths = Self::typical_lane_widths(lt, "road");
        widths[0].0
    }

    /// Put a list of forward and backward lanes into left-to-right order, depending on the driving
    /// side. Both input lists should be ordered from the center of the road going outwards.
    pub fn assemble_ltr(fwd_side: Vec<LaneSpec>, back_side: Vec<LaneSpec>, driving_side: DrivingSide) -> (r:
        Vec<LaneSpec>)
        ensures
            r@ == spec_assemble_ltr(fwd_side@, back_side@, driving_side),
    {
        match driving_side {
            DrivingSide::Right => {
                let mut r = reversed(back_side);
                extend(&mut r, fwd_side);
                r
            },
            DrivingSide::Left => {
                let mut r = reversed(fwd_side);
                extend(&mut r, back_side);
                r
            },
        }
    }

    /// None if bidirectional. If it's one-way, which direction is that relative to the road?
    /// (Usually forwards)
    pub fn oneway_for_driving(lanes: &[LaneSpec]) -> (r: Option<Direction>)
        ensures
            r == spec_oneway_for_driving(lanes_view(lanes@)),
    {
        let mut fwd = false;
        let mut back = false;
        let mut i: usize = 0;
        let ghost lv = lanes_view(lanes@);
        while i < lanes.len()
            invariant
                i <= lanes@.len(),
                lv == lanes_view(lanes@),
                fwd == (exists|j: int|
                    0 <= j < i && (#[trigger] lv[j]).lt == LaneType::Driving && lv[j].dir
                        == Direction::Fwd),
                back == (exists|j: int|
                    0 <= j < i && (#[trigger] lv[j]).lt == LaneType::Driving && lv[j].dir
                        == Direction::Back),
            decreases lanes@.len() - i,
        {
            let x = &lanes[i];
            assert(lv[i as int] == x@);
            if x.lt == LaneType::Driving {
                if x.dir == Direction::Fwd {
                    fwd = true;
                } else {
                    back = true;
                }
            }
            i = i + 1;
        }
        if fwd && back {
            None
        } else if fwd {
            Some(Direction::Fwd)
        } else if back {
            Some(Direction::Back)
        } else {
            None
        }
    }
}

} // verus!

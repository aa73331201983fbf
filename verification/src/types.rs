//! Map-wide settings and small shared types.
use vstd::prelude::*;

use crate::lanes::Distance;

verus! {

#[derive(Debug, Clone, Copy, PartialEq, Eq, Structural)]
pub enum DrivingSide {
    Right,
    Left,
}

/// How a lane of travel is interrupted, as it meets another or ends.
#[derive(Clone, Copy, Debug, PartialEq, Eq, Structural, Hash)]
pub enum TrafficInterruption {
    Uninterrupted,
    Yield,
    Stop,
    Signal,
    DeadEnd,
}

#[derive(Clone, Copy, Debug)]
pub struct MapConfig {
    /// If true, driving happens on the right side of the road (USA). If false, on the left
    /// (Australia).
    pub driving_side: DrivingSide,
    pub bikes_can_use_bus_lanes: bool,
    /// If true, roads without explicitly tagged sidewalks may be assigned sidewalks or shoulders.
    /// If false, no inference will occur and separate sidewalks and crossings will be included.
    pub inferred_sidewalks: bool,
    /// Street parking is divided into spots of this length.
    pub street_parking_spot_length: Distance,
    /// If true, turns on red which do not conflict crossing traffic ('right on red') are allowed
    pub turn_on_red: bool,
    /// If true, use experimental osm2lanes for figuring out lanes per road. If false, use the
    /// classic algorithm.
    pub osm2lanes: bool,
    /// OSM railway=rail will be included as light rail if so. Cosmetic only.
    pub include_railroads: bool,
}

/// The configuration that `MapConfig::default` gives.
pub open spec fn default_config() -> MapConfig {
    MapConfig {
        driving_side: DrivingSide::Right,
        bikes_can_use_bus_lanes: true,
        inferred_sidewalks: true,
        street_parking_spot_length: 8_000_000,
        turn_on_red: true,
        osm2lanes: false,
        include_railroads: true,
    }
}

impl MapConfig {
    pub fn default() -> (r: MapConfig)
        ensures
            r == default_config(),
            r.driving_side == DrivingSide::Right,
            r.bikes_can_use_bus_lanes,
            r.inferred_sidewalks,
            r.street_parking_spot_length == 8_000_000,
            r.turn_on_red,
            !r.osm2lanes,
            r.include_railroads,
    {
        MapConfig {
            driving_side: DrivingSide::Right,
            bikes_can_use_bus_lanes: true,
            inferred_sidewalks: true,
            street_parking_spot_length: 8_000_000,
            turn_on_red: true,
            osm2lanes: false,
            include_railroads: true,
        }
    }
}

} // verus!

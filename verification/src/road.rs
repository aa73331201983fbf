//! Roads: their lanes, their ends and the turns they allow.
use vstd::prelude::*;

use crate::classic::{get_lane_specs_ltr, lane_specs_defined, spec_lane_specs_ltr};
use crate::ids::{IntersectionID, OriginalRoad, RoadID};
use crate::lanes::{
    lanes_view, spec_is_tagged_by_lanes_suffix, spec_oneway_for_driving, Direction, LaneSpec,
    LaneSpecView, LaneType, Placement, RoadPosition,
};
use crate::placement::spec_parse_placement;
use crate::strings::{contains_str, contains_seq, str_eq};
use crate::tags::Tags;
use crate::types::MapConfig;

verus! {

#[derive(Clone, Copy, Debug, PartialEq, Eq, Structural, PartialOrd, Ord, Hash)]
pub enum RestrictionType {
    BanTurns,
    OnlyAllowTurns,
}

/// A turn from the first road onto the last, banned or the only one allowed.
#[derive(Clone, Copy, Debug, PartialEq, Eq, Structural, PartialOrd, Ord, Hash)]
pub struct TurnRestriction(pub RoadID, pub RestrictionType, pub RoadID);

pub open spec fn spec_restriction_type(r: Seq<char>) -> Option<RestrictionType> {
    if contains_seq(r, "no_"@) || r == "psv"@ {
        Some(RestrictionType::BanTurns)
    } else if contains_seq(r, "only_"@) {
        Some(RestrictionType::OnlyAllowTurns)
    } else {
        None
    }
}

impl RestrictionType {
    /// Buckets an OSM `restriction` value into banning or only allowing turns. Time conditions,
    /// bus-only rules and the like are not represented.
    pub fn new(restriction: &str) -> (r: Option<RestrictionType>)
        ensures
            r == spec_restriction_type(restriction@),
    {
        if contains_str(restriction, "no_") || str_eq(restriction, "psv") {
            Some(RestrictionType::BanTurns)
        } else if contains_str(restriction, "only_") {
            Some(RestrictionType::OnlyAllowTurns)
        } else {
            None
        }
    }
}

/// A road between two intersections, described by what the street network's rules read of it:
/// its lanes, ends and turn restrictions.
#[derive(Clone, Debug)]
pub struct Road {
    pub id: RoadID,
    /// The original segments of OSM ways making up this road.
    pub osm_ids: Vec<OriginalRoad>,
    pub src_i: IntersectionID,
    pub dst_i: IntersectionID,
    /// The OSM `highway` tag (for railways, the `railway` tag).
    pub highway_type: String,
    /// The name of the road in the default OSM-specified language
    pub name: Option<String>,
    /// This road exists only for graph connectivity. It's physically part of a complex
    /// intersection.
    pub internal_junction_road: bool,
    /// The vertical layer of the road, with 0 the default and negative values lower down.
    pub layer: isize,
    /// Where the OSM way is drawn across the road.
    pub reference_line_placement: Placement,
    pub turn_restrictions: Vec<(RestrictionType, RoadID)>,
    /// (via, to). For turn restrictions where 'via' is an entire road. Only BanTurns.
    pub complicated_turn_restrictions: Vec<(RoadID, RoadID)>,
    pub lane_specs_ltr: Vec<LaneSpec>,
}

pub open spec fn road_lanes(r: Road) -> Seq<LaneSpecView> {
    lanes_view(r.lane_specs_ltr@)
}

pub open spec fn spec_is_cycleway(lanes: Seq<LaneSpecView>) -> bool {
    (exists|i: int| 0 <= i < lanes.len() && (#[trigger] lanes[i]).lt == LaneType::Biking)
        && forall|i: int|
        0 <= i < lanes.len() ==> (#[trigger] lanes[i]).lt == LaneType::Biking || lanes[i].lt
            == LaneType::Shoulder
}

/// Whether the road can be driven out of at `which_end`: any two-way road, or a one-way road
/// that leads there.
pub open spec fn spec_can_drive_out_of_end(r: Road, which_end: IntersectionID) -> bool {
    match spec_oneway_for_driving(road_lanes(r)) {
        Some(dir) => dir == (if r.dst_i == which_end {
            Direction::Fwd
        } else {
            Direction::Back
        }),
        None => true,
    }
}

/// Whether the road can be driven into at `which_end`.
pub open spec fn spec_can_drive_into_end(r: Road, which_end: IntersectionID) -> bool {
    match spec_oneway_for_driving(road_lanes(r)) {
        Some(dir) => dir == (if r.src_i == which_end {
            Direction::Fwd
        } else {
            Direction::Back
        }),
        None => true,
    }
}

/// The type of the first restriction that names `dest`, if any.
pub open spec fn first_naming(rs: Seq<(RestrictionType, RoadID)>, dest: RoadID) -> Option<
    RestrictionType,
>
    decreases rs.len(),
{
    if rs.len() == 0 {
        None
    } else if rs[0].1 == dest {
        Some(rs[0].0)
    } else {
        first_naming(rs.drop_first(), dest)
    }
}

/// Whether the turn restrictions of a road allow turning onto `dest`: the first restriction
/// that names `dest` decides; without one, a turn is allowed unless some turns are the only
/// ones allowed.
pub open spec fn spec_allowed_to_turn_to(rs: Seq<(RestrictionType, RoadID)>, dest: RoadID) -> bool {
    match first_naming(rs, dest) {
        Some(t) => t == RestrictionType::OnlyAllowTurns,
        None => !exists|i: int|
            0 <= i < rs.len() && (#[trigger] rs[i]).0 == RestrictionType::OnlyAllowTurns,
    }
}

/// Counts of lanes that `:lanes` tags describe: forward, both ways, backward.
pub open spec fn spec_travel_lane_counts(lanes: Seq<LaneSpecView>) -> (nat, nat, nat)
    decreases lanes.len(),
{
    if lanes.len() == 0 {
        (0, 0, 0)
    } else {
        let (f, b, k) = spec_travel_lane_counts(lanes.drop_last());
        let l = lanes.last();
        if !spec_is_tagged_by_lanes_suffix(l.lt) {
            (f, b, k)
        } else if l.lt == LaneType::SharedLeftTurn {
            (f, b + 1, k)
        } else if l.dir == Direction::Fwd {
            (f + 1, b, k)
        } else {
            (f, b, k + 1)
        }
    }
}

impl Road {
    /// A road from its OSM tags. `layer` is the road's vertical layer, which the caller reads
    /// from the `layer` tag. A placement that cannot be read is taken as the default.
    pub fn new(
        id: RoadID,
        osm_ids: Vec<OriginalRoad>,
        src_i: IntersectionID,
        dst_i: IntersectionID,
        osm_tags: &Tags,
        config: &MapConfig,
        layer: isize,
    ) -> (r: Road)
        requires
            osm_tags@.contains_key("highway"@) || osm_tags@.contains_key("railway"@),
            !config.osm2lanes,
            lane_specs_defined(osm_tags@, *config),
        ensures
            r.id == id,
            r.osm_ids == osm_ids,
            r.src_i == src_i,
            r.dst_i == dst_i,
            r.highway_type@ == (if osm_tags@.contains_key("highway"@) {
                osm_tags@["highway"@]
            } else {
                osm_tags@["railway"@]
            }),
            match r.name {
                Some(n) => osm_tags@.contains_key("name"@) && n@ == osm_tags@["name"@],
                None => !osm_tags@.contains_key("name"@),
            },
            r.internal_junction_road == (osm_tags@.contains_key("junction"@)
                && osm_tags@["junction"@] == "intersection"@),
            r.layer == layer,
            r.reference_line_placement == (match spec_parse_placement(osm_tags@) {
                Ok(p) => p,
                Err(_) => Placement::Consistent(RoadPosition::Center),
            }),
            r.turn_restrictions@.len() == 0,
            r.complicated_turn_restrictions@.len() == 0,
            road_lanes(r) == spec_lane_specs_ltr(osm_tags@, *config),
    {
        let lane_specs_ltr = get_lane_specs_ltr(osm_tags, config);
        let placement = match Placement::parse(osm_tags) {
            Ok(p) => p,
            Err(_) => Placement::Consistent(RoadPosition::Center),
        };
        let highway_type = match osm_tags.get("highway") {
            Some(h) => h.clone(),
            None => osm_tags.get("railway").unwrap().clone(),
        };
        let name = match osm_tags.get("name") {
            Some(n) => Some(n.clone()),
            None => None,
        };
        Road {
            id,
            osm_ids,
            src_i,
            dst_i,
            highway_type,
            name,
            internal_junction_road: osm_tags.is("junction", "intersection"),
            layer,
            reference_line_placement: placement,
            turn_restrictions: Vec::new(),
            complicated_turn_restrictions: Vec::new(),
            lane_specs_ltr,
        }
    }

    pub fn is_light_rail(&self) -> (r: bool)
        ensures
            r == forall|i: int|
                0 <= i < road_lanes(*self).len() ==> (#[trigger] road_lanes(*self)[i]).lt
                    == LaneType::LightRail,
    {
        let ghost s = road_lanes(*self);
        let mut i: usize = 0;
        while i < self.lane_specs_ltr.len()
            invariant
                s == road_lanes(*self),
                i <= self.lane_specs_ltr@.len(),
                forall|j: int| 0 <= j < i ==> (#[trigger] s[j]).lt == LaneType::LightRail,
            decreases self.lane_specs_ltr@.len() - i,
        {
            assert(s[i as int] == self.lane_specs_ltr@[i as int]@);
            if self.lane_specs_ltr[i].lt != LaneType::LightRail {
                return false;
            }
            i = i + 1;
        }
        true
    }

    pub fn is_service(&self) -> (r: bool)
        ensures
            r == (self.highway_type@ == "service"@),
    {
        str_eq(self.highway_type.as_str(), "service")
    }

    /// A road with bike lanes and, apart from them, only shoulders.
    pub fn is_cycleway(&self) -> (r: bool)
        ensures
            r == spec_is_cycleway(road_lanes(*self)),
    {
        let ghost s = road_lanes(*self);
        let mut bike = false;
        let mut i: usize = 0;
        while i < self.lane_specs_ltr.len()
            invariant
                s == road_lanes(*self),
                i <= self.lane_specs_ltr@.len(),
                forall|j: int|
                    0 <= j < i ==> (#[trigger] s[j]).lt == LaneType::Biking || s[j].lt
                        == LaneType::Shoulder,
                bike == exists|j: int| 0 <= j < i && (#[trigger] s[j]).lt == LaneType::Biking,
            decreases self.lane_specs_ltr@.len() - i,
        {
            assert(s[i as int] == self.lane_specs_ltr@[i as int]@);
            if self.lane_specs_ltr[i].lt == LaneType::Biking {
                bike = true;
            } else if self.lane_specs_ltr[i].lt != LaneType::Shoulder {
                return false;
            }
            i = i + 1;
        }
        bike
    }

    pub fn is_driveable(&self) -> (r: bool)
        ensures
            r == exists|i: int|
                0 <= i < road_lanes(*self).len() && (#[trigger] road_lanes(*self)[i]).lt
                    == LaneType::Driving,
    {
        let ghost s = road_lanes(*self);
        let mut i: usize = 0;
        while i < self.lane_specs_ltr.len()
            invariant
                s == road_lanes(*self),
                i <= self.lane_specs_ltr@.len(),
                forall|j: int| 0 <= j < i ==> (#[trigger] s[j]).lt != LaneType::Driving,
            decreases self.lane_specs_ltr@.len() - i,
        {
            assert(s[i as int] == self.lane_specs_ltr@[i as int]@);
            if self.lane_specs_ltr[i].lt == LaneType::Driving {
                return true;
            }
            i = i + 1;
        }
        false
    }

    pub fn oneway_for_driving(&self) -> (r: Option<Direction>)
        ensures
            r == spec_oneway_for_driving(road_lanes(*self)),
    {
        LaneSpec::oneway_for_driving(self.lane_specs_ltr.as_slice())
    }

    pub fn can_drive_out_of_end(&self, which_end: IntersectionID) -> (r: bool)
        ensures
            r == spec_can_drive_out_of_end(*self, which_end),
    {
        if let Some(driving_dir) = self.oneway_for_driving() {
            let required_dir = if self.dst_i == which_end {
                Direction::Fwd
            } else {
                Direction::Back
            };
            return driving_dir == required_dir;
        }
        true
    }

    pub fn can_drive_into_end(&self, which_end: IntersectionID) -> (r: bool)
        ensures
            r == spec_can_drive_into_end(*self, which_end),
    {
        if let Some(driving_dir) = self.oneway_for_driving() {
            let required_dir = if self.src_i == which_end {
                Direction::Fwd
            } else {
                Direction::Back
            };
            return driving_dir == required_dir;
        }
        true
    }

    pub fn allowed_to_turn_to(&self, dest: RoadID) -> (r: bool)
        ensures
            r == spec_allowed_to_turn_to(self.turn_restrictions@, dest),
    {
        allowed_by(&self.turn_restrictions, dest)
    }

    /// Calculates the number of (forward, both_ways, backward) lanes. The order of the lanes
    /// doesn't matter.
    pub fn _travel_lane_counts(&self) -> (r: (usize, usize, usize))
        ensures
            (r.0 as nat, r.1 as nat, r.2 as nat) == spec_travel_lane_counts(road_lanes(*self)),
    {
        let ghost s = road_lanes(*self);
        let mut result: (usize, usize, usize) = (0, 0, 0);
        let mut i: usize = 0;
        assert(s.take(0) =~= Seq::<LaneSpecView>::empty());
        while i < self.lane_specs_ltr.len()
            invariant
                s == road_lanes(*self),
                i <= self.lane_specs_ltr@.len(),
                (result.0 as nat, result.1 as nat, result.2 as nat) == spec_travel_lane_counts(
                    s.take(i as int),
                ),
                result.0 + result.1 + result.2 <= i,
            decreases self.lane_specs_ltr@.len() - i,
        {
            let lane = &self.lane_specs_ltr[i];
            assert(s[i as int] == lane@);
            assert(s.take(i + 1).drop_last() =~= s.take(i as int));
            if !lane.lt.is_tagged_by_lanes_suffix() {
            } else if lane.lt == LaneType::SharedLeftTurn {
                result.1 = result.1 + 1;
            } else if lane.dir == Direction::Fwd {
                result.0 = result.0 + 1;
            } else {
                result.2 = result.2 + 1;
            }
            i = i + 1;
        }
        assert(s.take(i as int) =~= s);
        result
    }

    pub fn endpoints(&self) -> (r: Vec<IntersectionID>)
        ensures
            r@ == seq![self.src_i, self.dst_i],
    {
        let r = vec![self.src_i, self.dst_i];
        assert(r@ =~= seq![self.src_i, self.dst_i]);
        r
    }

    /// The end of the road across from `i`, which must be one of its ends.
    pub fn other_side(&self, i: IntersectionID) -> (r: IntersectionID)
        requires
            self.src_i == i || self.dst_i == i,
        ensures
            r == (if self.src_i == i {
                self.dst_i
            } else {
                self.src_i
            }),
    {
        if self.src_i == i {
            self.dst_i
        } else {
            self.src_i
        }
    }
}

/// Whether the turn restrictions `rs` allow a turn onto `dest`.
pub fn allowed_by(rs: &Vec<(RestrictionType, RoadID)>, dest: RoadID) -> (r: bool)
    ensures
        r == spec_allowed_to_turn_to(rs@, dest),
{
    let mut has_exclusive_allows = false;
    let mut i: usize = 0;
    assert(rs@.skip(0) =~= rs@);
    while i < rs.len()
        invariant
            i <= rs@.len(),
            first_naming(rs@, dest) == first_naming(rs@.skip(i as int), dest),
            has_exclusive_allows == exists|j: int|
                0 <= j < i && (#[trigger] rs@[j]).0 == RestrictionType::OnlyAllowTurns,
        decreases rs@.len() - i,
    {
        let (t, other) = rs[i];
        let ghost rest = rs@.skip(i as int);
        assert(rest[0] == rs@[i as int]);
        assert(rest.drop_first() =~= rs@.skip(i + 1));
        match t {
            RestrictionType::BanTurns => {
                if other == dest {
                    return false;
                }
            },
            RestrictionType::OnlyAllowTurns => {
                if other == dest {
                    return true;
                }
                has_exclusive_allows = true;
            },
        }
        i = i + 1;
    }
    assert(rs@.skip(i as int).len() == 0);
    !has_exclusive_allows
}

} // verus!

//! Purely from OSM tags, determine the lanes that a road segment has: the "classic" rules.
use vstd::prelude::*;

use crate::lane_edit::{
    first_index_lt, insert_lane, last_index_lt, last_position_of_type, lane_with_type,
    lane_with_width, lane_with_turns, lemma_index_lt_bounds, make_lane, position_of_type, push_lane,
    set_lane_type, set_lane_width, set_lane_turns, split_owned,
};
use crate::lanes::{
    lanes_view, new_lane, spec_assemble_ltr, BufferType, Direction, LaneSpec, LaneSpecView,
    LaneType, LaneWidth, LaneWidthView,
};
use crate::strings::{
    parse_usize, parse_usize_seq, split_char, split_seq, starts_with, starts_with_seq, str_eq,
};
use crate::tags::Tags;
use crate::types::{DrivingSide, MapConfig};

verus! {

/// Whether `k` is set to `v` in `t`.
pub open spec fn tag_is(t: Map<Seq<char>, Seq<char>>, k: Seq<char>, v: Seq<char>) -> bool {
    t.contains_key(k) && t[k] == v
}

/// The number that `k` is set to, if it is set to a number.
pub open spec fn tag_usize(t: Map<Seq<char>, Seq<char>>, k: Seq<char>) -> Option<usize> {
    if t.contains_key(k) {
        parse_usize_seq(t[k])
    } else {
        None
    }
}

// ------------------------------------------------------------------------------------------
// Sidewalk inference

/// If sidewalks aren't explicitly tagged on a road, the `sidewalk` value that the rules fill in.
pub open spec fn inferred_sidewalk_value(t: Map<Seq<char>, Seq<char>>, cfg: MapConfig) -> Seq<char> {
    if t.contains_key("sidewalk:left"@) || t.contains_key("sidewalk:right"@) {
        let right = !tag_is(t, "sidewalk:right"@, "no"@);
        let left = !tag_is(t, "sidewalk:left"@, "no"@);
        if right && left {
            "both"@
        } else if right {
            "right"@
        } else if left {
            "left"@
        } else {
            "none"@
        }
    } else if tag_is(t, "highway"@, "motorway"@) || tag_is(t, "highway"@, "motorway_link"@)
        || tag_is(t, "junction"@, "intersection"@) || tag_is(t, "junction"@, "roundabout"@)
        || tag_is(t, "foot"@, "no"@) || tag_is(t, "highway"@, "service"@) || tag_is(
        t,
        "highway"@,
        "cycleway"@,
    ) || tag_is(t, "highway"@, "pedestrian"@) || tag_is(t, "highway"@, "track"@) {
        "none"@
    } else if tag_is(t, "oneway"@, "yes"@) {
        if (tag_is(t, "highway"@, "residential"@) || tag_is(t, "highway"@, "living_street"@))
            && !tag_is(t, "dual_carriageway"@, "yes"@) {
            "both"@
        } else if cfg.driving_side == DrivingSide::Right {
            "right"@
        } else {
            "left"@
        }
    } else {
        "both"@
    }
}

/// The tags after sidewalk inference: unchanged when `sidewalk` is set or the map does not
/// infer sidewalks, else with `sidewalk` set to the inferred value.
pub open spec fn spec_infer_sidewalk_tags(t: Map<Seq<char>, Seq<char>>, cfg: MapConfig) -> Map<
    Seq<char>,
    Seq<char>,
> {
    if t.contains_key("sidewalk"@) || !cfg.inferred_sidewalks {
        t
    } else {
        t.insert("sidewalk"@, inferred_sidewalk_value(t, cfg))
    }
}

/// If sidewalks aren't explicitly tagged on a road, fill them in. This only happens when the
/// map is configured to have this inference.
pub fn infer_sidewalk_tags(tags: &mut Tags, cfg: &MapConfig)
    ensures
        final(tags)@ == spec_infer_sidewalk_tags(old(tags)@, *cfg),
{
    if tags.contains_key("sidewalk") || !cfg.inferred_sidewalks {
        return;
    }
    if tags.contains_key("sidewalk:left") || tags.contains_key("sidewalk:right") {
        let right = !tags.is("sidewalk:right", "no");
        let left = !tags.is("sidewalk:left", "no");
        let value = if right && left {
            "both"
        } else if right {
            "right"
        } else if left {
            "left"
        } else {
            "none"
        };
        tags.insert("sidewalk", value);
    } else if tags.is("highway", "motorway") || tags.is("highway", "motorway_link") || tags.is(
        "junction",
        "intersection",
    ) || tags.is("junction", "roundabout") || tags.is("foot", "no") || tags.is(
        "highway",
        "service",
    ) || tags.is("highway", "cycleway") || tags.is("highway", "pedestrian") || tags.is(
        "highway",
        "track",
    ) {
        tags.insert("sidewalk", "none");
    } else if tags.is("oneway", "yes") {
        let both = (tags.is("highway", "residential") || tags.is("highway", "living_street"))
            && !tags.is("dual_carriageway", "yes");
        if both {
            tags.insert("sidewalk", "both");
        } else if cfg.driving_side == DrivingSide::Right {
            tags.insert("sidewalk", "right");
        } else {
            tags.insert("sidewalk", "left");
        }
    } else {
        tags.insert("sidewalk", "both");
    }
}

// ------------------------------------------------------------------------------------------
// Separation buffers

/// See https://wiki.openstreetmap.org/wiki/Proposed_features/cycleway:separation#Typical_values.
pub open spec fn spec_osm_separation_type(x: Seq<char>) -> Option<BufferType> {
    if x == "bollard"@ || x == "vertical_panel"@ {
        Some(BufferType::FlexPosts)
    } else if x == "kerb"@ || x == "separation_kerb"@ {
        Some(BufferType::Curb)
    } else if x == "grass_verge"@ || x == "planter"@ || x == "tree_row"@ {
        Some(BufferType::Planters)
    } else if x == "guard_rail"@ || x == "jersey_barrier"@ || x == "railing"@ {
        Some(BufferType::JerseyBarrier)
    } else if x == "parking_lane"@ {
        None
    } else if x == "barred_area"@ || x == "dashed_line"@ || x == "solid_line"@ {
        Some(BufferType::Stripes)
    } else {
        None
    }
}

/// The buffer that an OSM `cycleway:*:separation:*` value describes.
pub fn osm_separation_type(x: &String) -> (r: Option<BufferType>)
    ensures
        r == spec_osm_separation_type(x@),
{
    let x = x.as_str();
    if str_eq(x, "bollard") || str_eq(x, "vertical_panel") {
        Some(BufferType::FlexPosts)
    } else if str_eq(x, "kerb") || str_eq(x, "separation_kerb") {
        Some(BufferType::Curb)
    } else if str_eq(x, "grass_verge") || str_eq(x, "planter") || str_eq(x, "tree_row") {
        Some(BufferType::Planters)
    } else if str_eq(x, "guard_rail") || str_eq(x, "jersey_barrier") || str_eq(x, "railing") {
        Some(BufferType::JerseyBarrier)
    } else if str_eq(x, "parking_lane") {
        None
    } else if str_eq(x, "barred_area") || str_eq(x, "dashed_line") || str_eq(x, "solid_line") {
        Some(BufferType::Stripes)
    } else {
        None
    }
}

/// The buffer given by the separation tag `k`, if it is set to a known kind.
pub open spec fn separation_at(t: Map<Seq<char>, Seq<char>>, k: Seq<char>) -> Option<BufferType> {
    if t.contains_key(k) {
        spec_osm_separation_type(t[k])
    } else {
        None
    }
}

// ------------------------------------------------------------------------------------------
// Special roads

pub open spec fn highway(t: Map<Seq<char>, Seq<char>>) -> Seq<char> {
    t["highway"@]
}

/// The lanes of a road that is mainly for cyclists or pedestrians, or None for other roads.
pub open spec fn spec_non_motorized_road(t: Map<Seq<char>, Seq<char>>, cfg: MapConfig) -> Option<
    Seq<LaneSpecView>,
> {
    let hw = highway(t);
    if tag_is(t, "highway"@, "cycleway"@) {
        let fwd1 = seq![new_lane(hw, LaneType::Biking, Direction::Fwd)];
        let back1 = if tag_is(t, "oneway"@, "yes"@) {
            Seq::<LaneSpecView>::empty()
        } else {
            seq![new_lane(hw, LaneType::Biking, Direction::Back)]
        };
        let fwd2 = if !tag_is(t, "foot"@, "no"@) {
            fwd1.push(new_lane(hw, LaneType::Shoulder, Direction::Fwd))
        } else {
            fwd1
        };
        let back2 = if !tag_is(t, "foot"@, "no"@) && back1.len() > 0 {
            back1.push(new_lane(hw, LaneType::Shoulder, Direction::Back))
        } else {
            back1
        };
        Some(spec_assemble_ltr(fwd2, back2, cfg.driving_side))
    } else if tag_is(t, "highway"@, "footway"@) && (tag_is(t, "footway"@, "crossing"@) || tag_is(
        t,
        "footway"@,
        "sidewalk"@,
    )) {
        Some(seq![new_lane(hw, LaneType::Sidewalk, Direction::Fwd)])
    } else if tag_is(t, "highway"@, "footway"@) || tag_is(t, "highway"@, "path"@) || tag_is(
        t,
        "highway"@,
        "pedestrian"@,
    ) || tag_is(t, "highway"@, "steps"@) || tag_is(t, "highway"@, "track"@) {
        if tag_is(t, "bicycle"@, "designated"@) || tag_is(t, "bicycle"@, "yes"@) || tag_is(
            t,
            "bicycle"@,
            "dismount"@,
        ) {
            Some(seq![new_lane(hw, LaneType::SharedUse, Direction::Fwd)])
        } else {
            Some(seq![new_lane(hw, LaneType::Footway, Direction::Fwd)])
        }
    } else {
        None
    }
}

fn non_motorized_road(tags: &Tags, cfg: &MapConfig) -> (r: Option<Vec<LaneSpec>>)
    requires
        tags@.contains_key("highway"@),
    ensures
        match r {
            Some(v) => spec_non_motorized_road(tags@, *cfg) == Some(lanes_view(v@)),
            None => spec_non_motorized_road(tags@, *cfg) is None,
        },
{
    let highway_type = tags.get("highway").unwrap().as_str();
    let ghost hw = highway(tags@);
    if tags.is("highway", "cycleway") {
        let mut fwd_side: Vec<LaneSpec> = Vec::new();
        push_lane(&mut fwd_side, make_lane(highway_type, LaneType::Biking, Direction::Fwd));
        let mut back_side: Vec<LaneSpec> = Vec::new();
        if !tags.is("oneway", "yes") {
            push_lane(&mut back_side, make_lane(highway_type, LaneType::Biking, Direction::Back));
        }
        if !tags.is("foot", "no") {
            push_lane(&mut fwd_side, make_lane(highway_type, LaneType::Shoulder, Direction::Fwd));
            if back_side.len() > 0 {
                push_lane(
                    &mut back_side,
                    make_lane(highway_type, LaneType::Shoulder, Direction::Back),
                );
            }
        }
        let ghost f = lanes_view(fwd_side@);
        let ghost b = lanes_view(back_side@);
        let r = LaneSpec::assemble_ltr(fwd_side, back_side, cfg.driving_side);
        proof {
            assert(lanes_view(r@) =~= spec_assemble_ltr(f, b, cfg.driving_side));
            assert(seq![new_lane(hw, LaneType::Biking, Direction::Fwd)] =~= Seq::<LaneSpecView>::empty().push(new_lane(hw, LaneType::Biking, Direction::Fwd)));
            assert(seq![new_lane(hw, LaneType::Biking, Direction::Back)] =~= Seq::<LaneSpecView>::empty().push(new_lane(hw, LaneType::Biking, Direction::Back)));
        }
        return Some(r);
    }
    if tags.is("highway", "footway") && (tags.is("footway", "crossing") || tags.is(
        "footway",
        "sidewalk",
    )) {
        let mut r: Vec<LaneSpec> = Vec::new();
        push_lane(&mut r, make_lane(highway_type, LaneType::Sidewalk, Direction::Fwd));
        assert(lanes_view(r@) =~= seq![new_lane(hw, LaneType::Sidewalk, Direction::Fwd)]);
        return Some(r);
    }
    if tags.is("highway", "footway") || tags.is("highway", "path") || tags.is(
        "highway",
        "pedestrian",
    ) || tags.is("highway", "steps") || tags.is("highway", "track") {
        let mut r: Vec<LaneSpec> = Vec::new();
        if tags.is("bicycle", "designated") || tags.is("bicycle", "yes") || tags.is(
            "bicycle",
            "dismount",
        ) {
            push_lane(&mut r, make_lane(highway_type, LaneType::SharedUse, Direction::Fwd));
            assert(lanes_view(r@) =~= seq![new_lane(hw, LaneType::SharedUse, Direction::Fwd)]);
        } else {
            push_lane(&mut r, make_lane(highway_type, LaneType::Footway, Direction::Fwd));
            assert(lanes_view(r@) =~= seq![new_lane(hw, LaneType::Footway, Direction::Fwd)]);
        }
        return Some(r);
    }
    None
}

// ------------------------------------------------------------------------------------------
// Driving lanes

pub open spec fn spec_is_oneway(t: Map<Seq<char>, Seq<char>>) -> bool {
    tag_is(t, "oneway"@, "yes"@) || tag_is(t, "oneway"@, "reversible"@) || tag_is(
        t,
        "junction"@,
        "roundabout"@,
    )
}

/// How many driving lanes go forwards.
pub open spec fn spec_num_driving_fwd(t: Map<Seq<char>, Seq<char>>) -> nat {
    if let Some(n) = tag_usize(t, "lanes:forward"@) {
        n as nat
    } else if let Some(n) = tag_usize(t, "lanes"@) {
        if spec_is_oneway(t) {
            n as nat
        } else if n % 2 == 0 {
            (n / 2) as nat
        } else {
            (n / 2 + 1) as nat
        }
    } else {
        1
    }
}

/// How many driving lanes go backwards.
pub open spec fn spec_num_driving_back(t: Map<Seq<char>, Seq<char>>) -> nat {
    if let Some(n) = tag_usize(t, "lanes:backward"@) {
        n as nat
    } else if let Some(n) = tag_usize(t, "lanes"@) {
        let base: nat = if n > spec_num_driving_fwd(t) {
            (n - spec_num_driving_fwd(t)) as nat
        } else {
            0
        };
        if spec_is_oneway(t) {
            base
        } else if base >= 1 {
            base
        } else {
            1
        }
    } else if spec_is_oneway(t) {
        0
    } else {
        1
    }
}

/// The type of the main lanes of the road.
pub open spec fn spec_driving_lane_type(t: Map<Seq<char>, Seq<char>>) -> LaneType {
    if tag_is(t, "access"@, "no"@) && (tag_is(t, "bus"@, "yes"@) || tag_is(t, "psv"@, "yes"@)
        || tag_is(t, "psv"@, "designated"@)) {
        LaneType::Bus
    } else if t.contains_key("motor_vehicle:conditional"@) && starts_with_seq(
        t["motor_vehicle:conditional"@],
        "no"@,
    ) && tag_is(t, "bus"@, "yes"@) {
        LaneType::Bus
    } else if tag_is(t, "access"@, "no"@) || tag_is(t, "highway"@, "construction"@) {
        LaneType::Construction
    } else {
        LaneType::Driving
    }
}

/// The forward and backward driving lanes, each ordered from the road center outwards.
pub open spec fn spec_driving_sides(t: Map<Seq<char>, Seq<char>>) -> (
    Seq<LaneSpecView>,
    Seq<LaneSpecView>,
) {
    let hw = highway(t);
    let lt = spec_driving_lane_type(t);
    let fwd0 = Seq::new(spec_num_driving_fwd(t), |i: int| new_lane(hw, lt, Direction::Fwd));
    let back0 = Seq::new(spec_num_driving_back(t), |i: int| new_lane(hw, lt, Direction::Back));
    let fwd = if tag_is(t, "lanes:both_ways"@, "1"@) || tag_is(t, "centre_turn_lane"@, "yes"@) {
        fwd0.insert(0, new_lane(hw, LaneType::SharedLeftTurn, Direction::Fwd))
    } else {
        fwd0
    };
    (fwd, back0)
}

/// The number that `k` is set to.
fn tag_number(tags: &Tags, k: &str) -> (r: Option<usize>)
    ensures
        r == tag_usize(tags@, k@),
{
    match tags.get(k) {
        Some(v) => parse_usize(v.as_str()),
        None => None,
    }
}

/// `n` copies of a new lane.
fn repeat_lane(highway_type: &str, lt: LaneType, dir: Direction, n: usize) -> (r: Vec<LaneSpec>)
    ensures
        lanes_view(r@) == Seq::new(n as nat, |i: int| new_lane(highway_type@, lt, dir)),
{
    let mut r: Vec<LaneSpec> = Vec::new();
    let mut i: usize = 0;
    while i < n
        invariant
            i <= n,
            lanes_view(r@) == Seq::new(i as nat, |j: int| new_lane(highway_type@, lt, dir)),
        decreases n - i,
    {
        push_lane(&mut r, make_lane(highway_type, lt, dir));
        i = i + 1;
        assert(lanes_view(r@) =~= Seq::new(i as nat, |j: int| new_lane(highway_type@, lt, dir)));
    }
    r
}

fn create_driving_lanes(tags: &Tags) -> (r: (Vec<LaneSpec>, Vec<LaneSpec>, bool, LaneType))
    requires
        tags@.contains_key("highway"@),
    ensures
        (lanes_view(r.0@), lanes_view(r.1@)) == spec_driving_sides(tags@),
        r.2 == spec_is_oneway(tags@),
        r.3 == spec_driving_lane_type(tags@),
{
    let ghost t = tags@;
    let highway_type = tags.get("highway").unwrap().as_str();
    let oneway = tags.is("oneway", "yes") || tags.is("oneway", "reversible") || tags.is(
        "junction",
        "roundabout",
    );
    let num_driving_fwd: usize = if let Some(n) = tag_number(tags, "lanes:forward") {
        n
    } else if let Some(n) = tag_number(tags, "lanes") {
        if oneway {
            n
        } else if n % 2 == 0 {
            n / 2
        } else {
            (n / 2) + 1
        }
    } else {
        1
    };
    assert(num_driving_fwd == spec_num_driving_fwd(t));
    let num_driving_back: usize = if let Some(n) = tag_number(tags, "lanes:backward") {
        n
    } else if let Some(n) = tag_number(tags, "lanes") {
        let base = if n > num_driving_fwd {
            n - num_driving_fwd
        } else {
            0
        };
        if oneway {
            base
        } else if base >= 1 {
            base
        } else {
            1
        }
    } else if oneway {
        0
    } else {
        1
    };
    assert(num_driving_back == spec_num_driving_back(t));
    let motor_conditional_no = match tags.get("motor_vehicle:conditional") {
        Some(x) => starts_with(x.as_str(), "no"),
        None => false,
    };
    let driving_lane = if tags.is("access", "no") && (tags.is("bus", "yes") || tags.is(
        "psv",
        "yes",
    ) || tags.is("psv", "designated")) {
        LaneType::Bus
    } else if motor_conditional_no && tags.is("bus", "yes") {
        LaneType::Bus
    } else if tags.is("access", "no") || tags.is("highway", "construction") {
        LaneType::Construction
    } else {
        LaneType::Driving
    };
    let mut fwd_side = repeat_lane(highway_type, driving_lane, Direction::Fwd, num_driving_fwd);
    let back_side = repeat_lane(highway_type, driving_lane, Direction::Back, num_driving_back);
    if tags.is("lanes:both_ways", "1") || tags.is("centre_turn_lane", "yes") {
        insert_lane(
            &mut fwd_side,
            0,
            make_lane(highway_type, LaneType::SharedLeftTurn, Direction::Fwd),
        );
    }
    (fwd_side, back_side, oneway, driving_lane)
}

// ------------------------------------------------------------------------------------------
// Bus lanes

/// `side` with the lanes that `parts` marks `designated` turned into bus lanes; part `j`
/// speaks of lane `j + offset`.
pub open spec fn mark_bus_lanes(side: Seq<LaneSpecView>, parts: Seq<Seq<char>>, offset: int) -> Seq<
    LaneSpecView,
> {
    Seq::new(
        side.len(),
        |j: int|
            if offset <= j && parts[j - offset] == "designated"@ {
                lane_with_type(side[j], LaneType::Bus)
            } else {
                side[j]
            },
    )
}

/// The `bus:lanes` value that applies forwards, or the empty text.
pub open spec fn fwd_bus_spec(t: Map<Seq<char>, Seq<char>>, oneway: bool) -> Seq<char> {
    if t.contains_key("bus:lanes:forward"@) {
        t["bus:lanes:forward"@]
    } else if t.contains_key("psv:lanes:forward"@) {
        t["psv:lanes:forward"@]
    } else if oneway && t.contains_key("bus:lanes"@) {
        t["bus:lanes"@]
    } else if oneway && t.contains_key("psv:lanes"@) {
        t["psv:lanes"@]
    } else {
        Seq::empty()
    }
}

/// The `bus:lanes` value that applies backwards, if any.
pub open spec fn back_bus_spec(t: Map<Seq<char>, Seq<char>>) -> Option<Seq<char>> {
    if t.contains_key("bus:lanes:backward"@) {
        Some(t["bus:lanes:backward"@])
    } else if t.contains_key("psv:lanes:backward"@) {
        Some(t["psv:lanes:backward"@])
    } else {
        None
    }
}

/// The parts of a `:lanes` value, ordered from the road center outwards.
pub open spec fn center_out_parts(value: Seq<char>, side: DrivingSide) -> Seq<Seq<char>> {
    if side == DrivingSide::Left {
        split_seq(value, '|').reverse()
    } else {
        split_seq(value, '|')
    }
}

pub open spec fn bus_lanes_defined(
    fwd: Seq<LaneSpecView>,
    t: Map<Seq<char>, Seq<char>>,
    oneway: bool,
) -> bool {
    fwd_bus_spec(t, oneway).len() > 0 ==> fwd.len() > 0
}

pub open spec fn spec_add_bus_lanes(
    fwd: Seq<LaneSpecView>,
    back: Seq<LaneSpecView>,
    oneway: bool,
    t: Map<Seq<char>, Seq<char>>,
    cfg: MapConfig,
) -> (Seq<LaneSpecView>, Seq<LaneSpecView>) {
    let s = fwd_bus_spec(t, oneway);
    let fwd2 = if s.len() == 0 {
        fwd
    } else {
        let parts = center_out_parts(s, cfg.driving_side);
        let offset: int = if fwd[0].lt == LaneType::SharedLeftTurn {
            1
        } else {
            0
        };
        if parts.len() == fwd.len() - offset {
            mark_bus_lanes(fwd, parts, offset)
        } else {
            fwd
        }
    };
    let back2 = match back_bus_spec(t) {
        Some(v) => {
            let parts = center_out_parts(v, cfg.driving_side);
            if parts.len() == back.len() {
                mark_bus_lanes(back, parts, 0)
            } else {
                back
            }
        },
        None => back,
    };
    (fwd2, back2)
}

/// The parts of a `:lanes` value in the order of the lanes they describe.
fn center_out_parts_of<'a>(value: &'a str, side: DrivingSide) -> (r: Vec<&'a str>)
    ensures
        r@.map_values(|p: &str| p@) == center_out_parts(value@, side),
{
    let parts = split_char(value, '|');
    if side == DrivingSide::Left {
        let n = parts.len();
        let mut r: Vec<&'a str> = Vec::new();
        let mut i: usize = n;
        let ghost pv = parts@.map_values(|p: &str| p@);
        while i > 0
            invariant
                i <= n,
                n == parts@.len(),
                pv == parts@.map_values(|p: &str| p@),
                r@.map_values(|p: &str| p@) == pv.skip(i as int).reverse(),
            decreases i,
        {
            let ghost prev = r@.map_values(|p: &str| p@);
            r.push(parts[i - 1]);
            assert(r@.map_values(|p: &str| p@) =~= prev.push(pv[i - 1]));
            assert(pv.skip(i - 1).reverse() =~= pv.skip(i as int).reverse().push(pv[i - 1]));
            i = i - 1;
        }
        assert(pv.skip(0) =~= pv);
        r
    } else {
        parts
    }
}

/// Turns the lanes of `side` that `parts` marks `designated` into bus lanes.
fn mark_designated(side: &mut Vec<LaneSpec>, parts: &Vec<&str>, offset: usize)
    requires
        offset + parts@.len() == old(side)@.len(),
    ensures
        lanes_view(final(side)@) == mark_bus_lanes(
            lanes_view(old(side)@),
            parts@.map_values(|p: &str| p@),
            offset as int,
        ),
{
    let ghost orig = lanes_view(side@);
    let ghost pv = parts@.map_values(|p: &str| p@);
    let n = side.len();
    let mut idx: usize = 0;
    while idx < parts.len()
        invariant
            n == side@.len(),
            offset + parts@.len() == side@.len(),
            pv == parts@.map_values(|p: &str| p@),
            orig.len() == side@.len(),
            idx <= parts@.len(),
            forall|j: int|
                0 <= j < side@.len() ==> #[trigger] lanes_view(side@)[j] == (if offset <= j < offset
                    + idx && pv[j - offset] == "designated"@ {
                    lane_with_type(orig[j], LaneType::Bus)
                } else {
                    orig[j]
                }),
        decreases parts@.len() - idx,
    {
        if str_eq(parts[idx], "designated") {
            set_lane_type(side, idx + offset, LaneType::Bus);
        }
        idx = idx + 1;
    }
    assert(lanes_view(side@) =~= mark_bus_lanes(orig, pv, offset as int));
}

fn add_bus_lanes(
    fwd_side: &mut Vec<LaneSpec>,
    back_side: &mut Vec<LaneSpec>,
    oneway: bool,
    tags: &Tags,
    cfg: &MapConfig,
)
    requires
        bus_lanes_defined(lanes_view(old(fwd_side)@), tags@, oneway),
    ensures
        (lanes_view(final(fwd_side)@), lanes_view(final(back_side)@)) == spec_add_bus_lanes(
            lanes_view(old(fwd_side)@),
            lanes_view(old(back_side)@),
            oneway,
            tags@,
            *cfg,
        ),
{
    let ghost t = tags@;
    let fwd_spec: &str = if let Some(s) = tags.get("bus:lanes:forward") {
        s.as_str()
    } else if let Some(s) = tags.get("psv:lanes:forward") {
        s.as_str()
    } else if oneway {
        if let Some(s) = tags.get("bus:lanes") {
            s.as_str()
        } else if let Some(s) = tags.get("psv:lanes") {
            s.as_str()
        } else {
            ""
        }
    } else {
        ""
    };
    proof {
        reveal_strlit("");
    }
    assert(fwd_spec@ == fwd_bus_spec(t, oneway));
    if fwd_spec.unicode_len() > 0 {
        let parts = center_out_parts_of(fwd_spec, cfg.driving_side);
        let offset: usize = if fwd_side[0].lt == LaneType::SharedLeftTurn {
            1
        } else {
            0
        };
        assert(lanes_view(fwd_side@)[0].lt == fwd_side@[0].lt);
        if parts.len() == fwd_side.len() - offset {
            mark_designated(fwd_side, &parts, offset);
        }
    }
    let back_spec = match tags.get("bus:lanes:backward") {
        Some(s) => Some(s),
        None => tags.get("psv:lanes:backward"),
    };
    if let Some(spec) = back_spec {
        let parts = center_out_parts_of(spec.as_str(), cfg.driving_side);
        if parts.len() == back_side.len() {
            mark_designated(back_side, &parts, 0);
        }
    }
}

// ------------------------------------------------------------------------------------------
// Busways

pub open spec fn busway_left(t: Map<Seq<char>, Seq<char>>, oneway: bool, cfg: MapConfig) -> bool {
    tag_is(t, "busway:left"@, "lane"@) || tag_is(t, "busway:both"@, "lane"@) || (tag_is(
        t,
        "busway"@,
        "lane"@,
    ) && (!oneway || cfg.driving_side == DrivingSide::Left))
}

pub open spec fn busway_right(t: Map<Seq<char>, Seq<char>>, oneway: bool, cfg: MapConfig) -> bool {
    tag_is(t, "busway:right"@, "lane"@) || tag_is(t, "busway:both"@, "lane"@) || (tag_is(
        t,
        "busway"@,
        "lane"@,
    ) && (!oneway || cfg.driving_side == DrivingSide::Right))
}

/// Turns the lane at `i`, if there is one, into a bus lane.
pub open spec fn bus_at(s: Seq<LaneSpecView>, i: int) -> Seq<LaneSpecView> {
    if i >= 0 {
        s.update(i, lane_with_type(s[i], LaneType::Bus))
    } else {
        s
    }
}

/// `busway` tags turn the first (left) or last (right) driving lane into a bus lane.
pub open spec fn spec_apply_busway_lanes(
    list: Seq<LaneSpecView>,
    t: Map<Seq<char>, Seq<char>>,
    oneway: bool,
    cfg: MapConfig,
) -> Seq<LaneSpecView> {
    let l1 = if busway_left(t, oneway, cfg) {
        bus_at(list, first_index_lt(list, LaneType::Driving))
    } else {
        list
    };
    if busway_right(t, oneway, cfg) {
        bus_at(l1, last_index_lt(l1, LaneType::Driving))
    } else {
        l1
    }
}

fn apply_busway_lanes(list: &mut Vec<LaneSpec>, tags: &Tags, oneway: bool, cfg: &MapConfig)
    ensures
        lanes_view(final(list)@) == spec_apply_busway_lanes(
            lanes_view(old(list)@),
            tags@,
            oneway,
            *cfg,
        ),
{
    let mut left = tags.is("busway:left", "lane");
    let mut right = tags.is("busway:right", "lane");
    if tags.is("busway:both", "lane") {
        left = true;
        right = true;
    }
    if tags.is("busway", "lane") {
        if oneway {
            if cfg.driving_side == DrivingSide::Right {
                right = true;
            } else {
                left = true;
            }
        } else {
            left = true;
            right = true;
        }
    }
    if left {
        if let Some(i) = position_of_type(list, LaneType::Driving) {
            proof {
                lemma_index_lt_bounds(lanes_view(list@), LaneType::Driving);
            }
            set_lane_type(list, i, LaneType::Bus);
        }
    }
    if right {
        if let Some(i) = last_position_of_type(list, LaneType::Driving) {
            proof {
                lemma_index_lt_bounds(lanes_view(list@), LaneType::Driving);
            }
            set_lane_type(list, i, LaneType::Bus);
        }
    }
}

} // verus!

verus! {

// ------------------------------------------------------------------------------------------
// Bike lanes

pub open spec fn is_lane_or_track(t: Map<Seq<char>, Seq<char>>, k: Seq<char>) -> bool {
    tag_is(t, k, "lane"@) || tag_is(t, k, "track"@)
}

pub open spec fn bike(t: Map<Seq<char>, Seq<char>>, dir: Direction) -> LaneSpecView {
    new_lane(highway(t), LaneType::Biking, dir)
}

/// Bike lanes on the right side of the road.
pub open spec fn bike_right(
    f: Seq<LaneSpecView>,
    b: Seq<LaneSpecView>,
    t: Map<Seq<char>, Seq<char>>,
    cfg: MapConfig,
) -> (Seq<LaneSpecView>, Seq<LaneSpecView>) {
    if is_lane_or_track(t, "cycleway:right"@) {
        let two_way = tag_is(t, "cycleway:right:oneway"@, "no"@) || tag_is(
            t,
            "oneway:bicycle"@,
            "no"@,
        );
        if cfg.driving_side == DrivingSide::Right {
            let f1 = if two_way {
                f.push(bike(t, Direction::Back))
            } else {
                f
            };
            (f1.push(bike(t, Direction::Fwd)), b)
        } else {
            let b1 = if two_way {
                b.push(bike(t, Direction::Fwd))
            } else {
                b
            };
            (f, b1.push(bike(t, Direction::Back)))
        }
    } else {
        (f, b)
    }
}

/// Contraflow bike lanes.
pub open spec fn bike_opposite(
    f: Seq<LaneSpecView>,
    b: Seq<LaneSpecView>,
    t: Map<Seq<char>, Seq<char>>,
    cfg: MapConfig,
) -> (Seq<LaneSpecView>, Seq<LaneSpecView>) {
    if tag_is(t, "cycleway:left"@, "opposite_lane"@) || tag_is(t, "cycleway"@, "opposite_lane"@) {
        if cfg.driving_side == DrivingSide::Right {
            (f, b.push(bike(t, Direction::Back)))
        } else {
            (f.push(bike(t, Direction::Fwd)), b)
        }
    } else {
        (f, b)
    }
}

/// Bike lanes on the left side of the road.
pub open spec fn bike_left(
    f: Seq<LaneSpecView>,
    b: Seq<LaneSpecView>,
    oneway: bool,
    t: Map<Seq<char>, Seq<char>>,
    cfg: MapConfig,
) -> (Seq<LaneSpecView>, Seq<LaneSpecView>) {
    if tag_is(t, "cycleway:left"@, "lane"@) || tag_is(t, "cycleway:left"@, "opposite_track"@)
        || tag_is(t, "cycleway:left"@, "track"@) {
        let two_way = tag_is(t, "cycleway:left:oneway"@, "no"@) || tag_is(
            t,
            "oneway:bicycle"@,
            "no"@,
        );
        if cfg.driving_side == DrivingSide::Right {
            if two_way {
                (f, b.push(bike(t, Direction::Fwd)).push(bike(t, Direction::Back)))
            } else if oneway {
                (f.insert(0, bike(t, Direction::Fwd)), b)
            } else {
                (f, b.push(bike(t, Direction::Back)))
            }
        } else {
            let f1 = if two_way {
                f.push(bike(t, Direction::Back))
            } else {
                f
            };
            (f1.push(bike(t, Direction::Fwd)), b)
        }
    } else {
        (f, b)
    }
}

pub open spec fn bike_main(
    f: Seq<LaneSpecView>,
    b: Seq<LaneSpecView>,
    oneway: bool,
    t: Map<Seq<char>, Seq<char>>,
    cfg: MapConfig,
) -> (Seq<LaneSpecView>, Seq<LaneSpecView>) {
    if is_lane_or_track(t, "cycleway"@) {
        (
            f.push(bike(t, Direction::Fwd)),
            if b.len() > 0 {
                b.push(bike(t, Direction::Back))
            } else {
                b
            },
        )
    } else if is_lane_or_track(t, "cycleway:both"@) {
        (f.push(bike(t, Direction::Fwd)), b.push(bike(t, Direction::Back)))
    } else {
        let r1 = bike_right(f, b, t, cfg);
        let r2 = bike_opposite(r1.0, r1.1, t, cfg);
        bike_left(r2.0, r2.1, oneway, t, cfg)
    }
}

/// A buffer inserted beside the first bike lane of `s`: before it (`shift` 0) or after it
/// (`shift` 1). Nothing changes when `s` has no bike lane.
pub open spec fn buffer_by_bike_lane(
    s: Seq<LaneSpecView>,
    t: Map<Seq<char>, Seq<char>>,
    buf: BufferType,
    dir: Direction,
    shift: int,
) -> Seq<LaneSpecView> {
    let idx = first_index_lt(s, LaneType::Biking);
    if idx >= 0 {
        s.insert(idx + shift, new_lane(highway(t), LaneType::Buffer(buf), dir))
    } else {
        s
    }
}

pub open spec fn bike_separations(
    f: Seq<LaneSpecView>,
    b: Seq<LaneSpecView>,
    t: Map<Seq<char>, Seq<char>>,
) -> (Seq<LaneSpecView>, Seq<LaneSpecView>) {
    let f1 = match separation_at(t, "cycleway:right:separation:left"@) {
        Some(buf) => buffer_by_bike_lane(f, t, buf, Direction::Fwd, 0),
        None => f,
    };
    let b1 = match separation_at(t, "cycleway:left:separation:left"@) {
        Some(buf) => buffer_by_bike_lane(b, t, buf, Direction::Back, 0),
        None => b,
    };
    let f2 = match separation_at(t, "cycleway:left:separation:right"@) {
        Some(buf) => buffer_by_bike_lane(f1, t, buf, Direction::Fwd, 1),
        None => f1,
    };
    (f2, b1)
}

pub open spec fn spec_add_bike_lanes(
    f: Seq<LaneSpecView>,
    b: Seq<LaneSpecView>,
    oneway: bool,
    t: Map<Seq<char>, Seq<char>>,
    cfg: MapConfig,
) -> (Seq<LaneSpecView>, Seq<LaneSpecView>) {
    let r = bike_main(f, b, oneway, t, cfg);
    bike_separations(r.0, r.1, t)
}

fn separation_tag(tags: &Tags, k: &str) -> (r: Option<BufferType>)
    ensures
        r == separation_at(tags@, k@),
{
    match tags.get(k) {
        Some(v) => osm_separation_type(v),
        None => None,
    }
}

fn insert_buffer(
    side: &mut Vec<LaneSpec>,
    highway_type: &str,
    buf: BufferType,
    dir: Direction,
    shift: usize,
    tags: &Tags,
)
    requires
        shift <= 1,
        highway_type@ == highway(tags@),
    ensures
        lanes_view(final(side)@) == buffer_by_bike_lane(
            lanes_view(old(side)@),
            tags@,
            buf,
            dir,
            shift as int,
        ),
{
    let n = side.len();
    if let Some(idx) = position_of_type(side, LaneType::Biking) {
        proof {
            lemma_index_lt_bounds(lanes_view(side@), LaneType::Biking);
        }
        assert(idx < n);
        insert_lane(side, idx + shift, make_lane(highway_type, LaneType::Buffer(buf), dir));
    }
}

fn add_bike_lanes(
    fwd_side: &mut Vec<LaneSpec>,
    back_side: &mut Vec<LaneSpec>,
    oneway: bool,
    tags: &Tags,
    cfg: &MapConfig,
)
    requires
        tags@.contains_key("highway"@),
    ensures
        (lanes_view(final(fwd_side)@), lanes_view(final(back_side)@)) == spec_add_bike_lanes(
            lanes_view(old(fwd_side)@),
            lanes_view(old(back_side)@),
            oneway,
            tags@,
            *cfg,
        ),
{
    let ghost t = tags@;
    let highway_type = tags.get("highway").unwrap().as_str();
    if tags.is("cycleway", "lane") || tags.is("cycleway", "track") {
        push_lane(fwd_side, make_lane(highway_type, LaneType::Biking, Direction::Fwd));
        if back_side.len() > 0 {
            push_lane(back_side, make_lane(highway_type, LaneType::Biking, Direction::Back));
        }
    } else if tags.is("cycleway:both", "lane") || tags.is("cycleway:both", "track") {
        push_lane(fwd_side, make_lane(highway_type, LaneType::Biking, Direction::Fwd));
        push_lane(back_side, make_lane(highway_type, LaneType::Biking, Direction::Back));
    } else {
        let ghost f0 = lanes_view(fwd_side@);
        let ghost b0 = lanes_view(back_side@);
        if tags.is("cycleway:right", "lane") || tags.is("cycleway:right", "track") {
            let two_way = tags.is("cycleway:right:oneway", "no") || tags.is("oneway:bicycle", "no");
            if cfg.driving_side == DrivingSide::Right {
                if two_way {
                    push_lane(fwd_side, make_lane(highway_type, LaneType::Biking, Direction::Back));
                }
                push_lane(fwd_side, make_lane(highway_type, LaneType::Biking, Direction::Fwd));
            } else {
                if two_way {
                    push_lane(back_side, make_lane(highway_type, LaneType::Biking, Direction::Fwd));
                }
                push_lane(back_side, make_lane(highway_type, LaneType::Biking, Direction::Back));
            }
        }
        let ghost r1 = bike_right(f0, b0, t, *cfg);
        assert((lanes_view(fwd_side@), lanes_view(back_side@)) == r1);
        if tags.is("cycleway:left", "opposite_lane") || tags.is("cycleway", "opposite_lane") {
            if cfg.driving_side == DrivingSide::Right {
                push_lane(back_side, make_lane(highway_type, LaneType::Biking, Direction::Back));
            } else {
                push_lane(fwd_side, make_lane(highway_type, LaneType::Biking, Direction::Fwd));
            }
        }
        let ghost r2 = bike_opposite(r1.0, r1.1, t, *cfg);
        assert((lanes_view(fwd_side@), lanes_view(back_side@)) == r2);
        if tags.is("cycleway:left", "lane") || tags.is("cycleway:left", "opposite_track") || tags.is(
            "cycleway:left",
            "track",
        ) {
            let two_way = tags.is("cycleway:left:oneway", "no") || tags.is("oneway:bicycle", "no");
            if cfg.driving_side == DrivingSide::Right {
                if two_way {
                    push_lane(back_side, make_lane(highway_type, LaneType::Biking, Direction::Fwd));
                    push_lane(back_side, make_lane(highway_type, LaneType::Biking, Direction::Back));
                } else if oneway {
                    insert_lane(
                        fwd_side,
                        0,
                        make_lane(highway_type, LaneType::Biking, Direction::Fwd),
                    );
                } else {
                    push_lane(back_side, make_lane(highway_type, LaneType::Biking, Direction::Back));
                }
            } else {
                if two_way {
                    push_lane(fwd_side, make_lane(highway_type, LaneType::Biking, Direction::Back));
                }
                push_lane(fwd_side, make_lane(highway_type, LaneType::Biking, Direction::Fwd));
            }
        }
    }
    let ghost r = bike_main(
        lanes_view(old(fwd_side)@),
        lanes_view(old(back_side)@),
        oneway,
        t,
        *cfg,
    );
    assert((lanes_view(fwd_side@), lanes_view(back_side@)) == r);
    if let Some(buffer) = separation_tag(tags, "cycleway:right:separation:left") {
        insert_buffer(fwd_side, highway_type, buffer, Direction::Fwd, 0, tags);
    }
    if let Some(buffer) = separation_tag(tags, "cycleway:left:separation:left") {
        insert_buffer(back_side, highway_type, buffer, Direction::Back, 0, tags);
    }
    if let Some(buffer) = separation_tag(tags, "cycleway:left:separation:right") {
        insert_buffer(fwd_side, highway_type, buffer, Direction::Fwd, 1, tags);
    }
}

// ------------------------------------------------------------------------------------------
// Parking

pub open spec fn has_parking(t: Map<Seq<char>, Seq<char>>, k: Seq<char>) -> bool {
    tag_is(t, k, "parallel"@) || tag_is(t, k, "diagonal"@) || tag_is(t, k, "perpendicular"@)
}

pub open spec fn spec_add_parking_lanes(
    f: Seq<LaneSpecView>,
    b: Seq<LaneSpecView>,
    t: Map<Seq<char>, Seq<char>>,
) -> (Seq<LaneSpecView>, Seq<LaneSpecView>) {
    let hw = highway(t);
    (
        if has_parking(t, "parking:lane:right"@) || has_parking(t, "parking:lane:both"@) {
            f.push(new_lane(hw, LaneType::Parking, Direction::Fwd))
        } else {
            f
        },
        if has_parking(t, "parking:lane:left"@) || has_parking(t, "parking:lane:both"@) {
            b.push(new_lane(hw, LaneType::Parking, Direction::Back))
        } else {
            b
        },
    )
}

fn tag_has_parking(tags: &Tags, k: &str) -> (r: bool)
    ensures
        r == has_parking(tags@, k@),
{
    tags.is(k, "parallel") || tags.is(k, "diagonal") || tags.is(k, "perpendicular")
}

fn add_parking_lanes(fwd_side: &mut Vec<LaneSpec>, back_side: &mut Vec<LaneSpec>, tags: &Tags)
    requires
        tags@.contains_key("highway"@),
    ensures
        (lanes_view(final(fwd_side)@), lanes_view(final(back_side)@)) == spec_add_parking_lanes(
            lanes_view(old(fwd_side)@),
            lanes_view(old(back_side)@),
            tags@,
        ),
{
    let highway_type = tags.get("highway").unwrap().as_str();
    let parking_lane_fwd = tag_has_parking(tags, "parking:lane:right") || tag_has_parking(
        tags,
        "parking:lane:both",
    );
    let parking_lane_back = tag_has_parking(tags, "parking:lane:left") || tag_has_parking(
        tags,
        "parking:lane:both",
    );
    if parking_lane_fwd {
        push_lane(fwd_side, make_lane(highway_type, LaneType::Parking, Direction::Fwd));
    }
    if parking_lane_back {
        push_lane(back_side, make_lane(highway_type, LaneType::Parking, Direction::Back));
    }
}

// ------------------------------------------------------------------------------------------
// Sidewalks and shoulders

pub open spec fn sidewalk_lanes(
    f: Seq<LaneSpecView>,
    b: Seq<LaneSpecView>,
    t: Map<Seq<char>, Seq<char>>,
    cfg: MapConfig,
) -> (Seq<LaneSpecView>, Seq<LaneSpecView>) {
    let sf = new_lane(highway(t), LaneType::Sidewalk, Direction::Fwd);
    let sb = new_lane(highway(t), LaneType::Sidewalk, Direction::Back);
    if tag_is(t, "sidewalk"@, "both"@) {
        (f.push(sf), b.push(sb))
    } else if tag_is(t, "sidewalk"@, "separate"@) && cfg.inferred_sidewalks {
        (
            f.push(sf),
            if b.len() > 0 {
                b.push(sb)
            } else {
                b
            },
        )
    } else if tag_is(t, "sidewalk"@, "right"@) {
        if cfg.driving_side == DrivingSide::Right {
            (f.push(sf), b)
        } else {
            (f, b.push(sb))
        }
    } else if tag_is(t, "sidewalk"@, "left"@) {
        if cfg.driving_side == DrivingSide::Right {
            (f, b.push(sb))
        } else {
            (f.push(sf), b)
        }
    } else {
        (f, b)
    }
}

/// The exact width that a lane falls back to.
pub open spec fn fallback_width(w: LaneWidthView) -> u64 {
    match w {
        LaneWidthView::Exact(d) => d,
        LaneWidthView::Tagged { metres, otherwise } => otherwise,
    }
}

/// The last lane of `s`, if any, gets the tagged width `metres`.
pub open spec fn tagged_last_width(s: Seq<LaneSpecView>, metres: Seq<char>) -> Seq<LaneSpecView> {
    if s.len() > 0 {
        s.update(
            s.len() - 1,
            lane_with_width(
                s.last(),
                LaneWidthView::Tagged { metres, otherwise: fallback_width(s.last().width) },
            ),
        )
    } else {
        s
    }
}

pub open spec fn sidewalk_widths(
    f: Seq<LaneSpecView>,
    b: Seq<LaneSpecView>,
    t: Map<Seq<char>, Seq<char>>,
    cfg: MapConfig,
) -> (Seq<LaneSpecView>, Seq<LaneSpecView>) {
    let right_hand = cfg.driving_side == DrivingSide::Right;
    let r1 = if t.contains_key("sidewalk:left:width"@) {
        let m = t["sidewalk:left:width"@];
        if right_hand {
            (f, tagged_last_width(b, m))
        } else {
            (tagged_last_width(f, m), b)
        }
    } else {
        (f, b)
    };
    if t.contains_key("sidewalk:right:width"@) {
        let m = t["sidewalk:right:width"@];
        if right_hand {
            (tagged_last_width(r1.0, m), r1.1)
        } else {
            (r1.0, tagged_last_width(r1.1, m))
        }
    } else {
        r1
    }
}

pub open spec fn needs_shoulder(s: Seq<LaneSpecView>) -> bool {
    s.len() == 0 || s.last().lt != LaneType::Sidewalk
}

pub open spec fn no_shoulders(t: Map<Seq<char>, Seq<char>>) -> bool {
    tag_is(t, "highway"@, "motorway"@) || tag_is(t, "highway"@, "motorway_link"@) || tag_is(
        t,
        "highway"@,
        "construction"@,
    ) || tag_is(t, "foot"@, "no"@) || tag_is(t, "access"@, "no"@) || tag_is(
        t,
        "motorroad"@,
        "yes"@,
    )
}

pub open spec fn shoulder_lanes(
    f: Seq<LaneSpecView>,
    b: Seq<LaneSpecView>,
    t: Map<Seq<char>, Seq<char>>,
    cfg: MapConfig,
) -> (Seq<LaneSpecView>, Seq<LaneSpecView>) {
    let nf = needs_shoulder(f) && !no_shoulders(t);
    let nb = needs_shoulder(b) && !no_shoulders(t) && !tag_is(t, "oneway"@, "yes"@);
    if cfg.inferred_sidewalks || tag_is(t, "highway"@, "living_street"@) {
        (
            if nf {
                f.push(new_lane(highway(t), LaneType::Shoulder, Direction::Fwd))
            } else {
                f
            },
            if nb {
                b.push(new_lane(highway(t), LaneType::Shoulder, Direction::Back))
            } else {
                b
            },
        )
    } else {
        (f, b)
    }
}

pub open spec fn spec_add_sidewalks_and_shoulders(
    f: Seq<LaneSpecView>,
    b: Seq<LaneSpecView>,
    t: Map<Seq<char>, Seq<char>>,
    cfg: MapConfig,
) -> (Seq<LaneSpecView>, Seq<LaneSpecView>) {
    let r1 = sidewalk_lanes(f, b, t, cfg);
    let r2 = sidewalk_widths(r1.0, r1.1, t, cfg);
    shoulder_lanes(r2.0, r2.1, t, cfg)
}

/// Gives the last lane of `side`, if any, the tagged width `metres`.
fn tag_last_width(side: &mut Vec<LaneSpec>, metres: &String)
    ensures
        lanes_view(final(side)@) == tagged_last_width(lanes_view(old(side)@), metres@),
{
    let n = side.len();
    if n > 0 {
        let otherwise = match &side[n - 1].width {
            LaneWidth::Exact(d) => *d,
            LaneWidth::Tagged { metres: _, otherwise } => *otherwise,
        };
        assert(lanes_view(side@)[n - 1] == side@[n - 1]@);
        set_lane_width(
            side,
            n - 1,
            LaneWidth::Tagged { metres: metres.clone(), otherwise },
        );
    }
}

fn add_sidewalks_and_shoulders(
    fwd_side: &mut Vec<LaneSpec>,
    back_side: &mut Vec<LaneSpec>,
    tags: &Tags,
    cfg: &MapConfig,
)
    requires
        tags@.contains_key("highway"@),
    ensures
        (lanes_view(final(fwd_side)@), lanes_view(final(back_side)@))
            == spec_add_sidewalks_and_shoulders(
            lanes_view(old(fwd_side)@),
            lanes_view(old(back_side)@),
            tags@,
            *cfg,
        ),
{
    let ghost t = tags@;
    let highway_type = tags.get("highway").unwrap().as_str();
    if tags.is("sidewalk", "both") {
        push_lane(fwd_side, make_lane(highway_type, LaneType::Sidewalk, Direction::Fwd));
        push_lane(back_side, make_lane(highway_type, LaneType::Sidewalk, Direction::Back));
    } else if tags.is("sidewalk", "separate") && cfg.inferred_sidewalks {
        push_lane(fwd_side, make_lane(highway_type, LaneType::Sidewalk, Direction::Fwd));
        if back_side.len() > 0 {
            push_lane(back_side, make_lane(highway_type, LaneType::Sidewalk, Direction::Back));
        }
    } else if tags.is("sidewalk", "right") {
        if cfg.driving_side == DrivingSide::Right {
            push_lane(fwd_side, make_lane(highway_type, LaneType::Sidewalk, Direction::Fwd));
        } else {
            push_lane(back_side, make_lane(highway_type, LaneType::Sidewalk, Direction::Back));
        }
    } else if tags.is("sidewalk", "left") {
        if cfg.driving_side == DrivingSide::Right {
            push_lane(back_side, make_lane(highway_type, LaneType::Sidewalk, Direction::Back));
        } else {
            push_lane(fwd_side, make_lane(highway_type, LaneType::Sidewalk, Direction::Fwd));
        }
    }
    let ghost r1 = sidewalk_lanes(
        lanes_view(old(fwd_side)@),
        lanes_view(old(back_side)@),
        t,
        *cfg,
    );
    assert((lanes_view(fwd_side@), lanes_view(back_side@)) == r1);
    if let Some(x) = tags.get("sidewalk:left:width") {
        if cfg.driving_side == DrivingSide::Right {
            tag_last_width(back_side, x);
        } else {
            tag_last_width(fwd_side, x);
        }
    }
    if let Some(x) = tags.get("sidewalk:right:width") {
        if cfg.driving_side == DrivingSide::Right {
            tag_last_width(fwd_side, x);
        } else {
            tag_last_width(back_side, x);
        }
    }
    let ghost r2 = sidewalk_widths(r1.0, r1.1, t, *cfg);
    assert((lanes_view(fwd_side@), lanes_view(back_side@)) == r2);
    let nf = fwd_side.len();
    let nb = back_side.len();
    let mut need_fwd_shoulder = nf == 0 || fwd_side[nf - 1].lt != LaneType::Sidewalk;
    let mut need_back_shoulder = nb == 0 || back_side[nb - 1].lt != LaneType::Sidewalk;
    proof {
        if nf > 0 {
            assert(lanes_view(fwd_side@)[nf - 1] == fwd_side@[nf - 1]@);
        }
        if nb > 0 {
            assert(lanes_view(back_side@)[nb - 1] == back_side@[nb - 1]@);
        }
    }
    if tags.is("highway", "motorway") || tags.is("highway", "motorway_link") || tags.is(
        "highway",
        "construction",
    ) || tags.is("foot", "no") || tags.is("access", "no") || tags.is("motorroad", "yes") {
        need_fwd_shoulder = false;
        need_back_shoulder = false;
    }
    if tags.is("oneway", "yes") {
        need_back_shoulder = false;
    }
    if cfg.inferred_sidewalks || tags.is("highway", "living_street") {
        if need_fwd_shoulder {
            push_lane(fwd_side, make_lane(highway_type, LaneType::Shoulder, Direction::Fwd));
        }
        if need_back_shoulder {
            push_lane(back_side, make_lane(highway_type, LaneType::Shoulder, Direction::Back));
        }
    }
}

} // verus!

verus! {

// ------------------------------------------------------------------------------------------
// Turn restrictions

/// Turn lanes only apply to certain lane types.
pub open spec fn turn_applicable(l: LaneSpecView) -> bool {
    l.lt == LaneType::Driving || l.lt == LaneType::Bus
}

/// The number of lanes of `s` that turn restrictions apply to.
pub open spec fn count_applicable(s: Seq<LaneSpecView>) -> nat
    decreases s.len(),
{
    if s.len() == 0 {
        0
    } else {
        count_applicable(s.drop_last()) + if turn_applicable(s.last()) {
            1nat
        } else {
            0nat
        }
    }
}

proof fn lemma_count_applicable_prefix(s: Seq<LaneSpecView>, i: int)
    requires
        0 <= i <= s.len(),
    ensures
        count_applicable(s.take(i)) <= count_applicable(s),
        i < s.len() && turn_applicable(s[i]) ==> count_applicable(s.take(i)) < count_applicable(s),
    decreases s.len() - i,
{
    if i < s.len() {
        lemma_count_applicable_prefix(s, i + 1);
        assert(s.take(i + 1).drop_last() =~= s.take(i));
    } else {
        assert(s.take(i) =~= s);
    }
}

/// The `|`-separated parts of a `turn:lanes` value, given in the same order as the lanes, go
/// to the lanes they apply to, each split at `;`. Nothing changes when the counts differ.
pub open spec fn spec_apply_turn_restrictions(s: Seq<LaneSpecView>, value: Seq<char>) -> Seq<
    LaneSpecView,
> {
    let parts = split_seq(value, '|');
    if parts.len() == count_applicable(s) {
        Seq::new(
            s.len(),
            |j: int|
                if turn_applicable(s[j]) {
                    lane_with_turns(s[j], split_seq(parts[count_applicable(s.take(j)) as int], ';'))
                } else {
                    s[j]
                },
        )
    } else {
        s
    }
}

fn is_turn_applicable(l: &LaneSpec) -> (r: bool)
    ensures
        r == turn_applicable(l@),
{
    l.lt == LaneType::Driving || l.lt == LaneType::Bus
}

fn apply_turn_restrictions(list: &mut Vec<LaneSpec>, value: &str)
    ensures
        lanes_view(final(list)@) == spec_apply_turn_restrictions(lanes_view(old(list)@), value@),
{
    let ghost s = lanes_view(list@);
    let parts = split_char(value, '|');
    let ghost pv = parts@.map_values(|p: &str| p@);
    let n = list.len();
    let mut count: usize = 0;
    let mut i: usize = 0;
    assert(s.take(0) =~= Seq::<LaneSpecView>::empty());
    while i < n
        invariant
            n == list@.len(),
            s == lanes_view(list@),
            i <= n,
            count == count_applicable(s.take(i as int)),
            count <= i,
        decreases n - i,
    {
        assert(s.take(i + 1).drop_last() =~= s.take(i as int));
        assert(s[i as int] == list@[i as int]@);
        if is_turn_applicable(&list[i]) {
            count = count + 1;
        }
        i = i + 1;
    }
    assert(s.take(n as int) =~= s);
    if parts.len() != count {
        return;
    }
    let np = parts.len();
    let mut k: usize = 0;
    let mut j: usize = 0;
    while j < n
        invariant
            n == list@.len(),
            np == parts@.len(),
            s.len() == n,
            pv == parts@.map_values(|p: &str| p@),
            pv.len() == count_applicable(s),
            j <= n,
            k == count_applicable(s.take(j as int)),
            forall|m: int|
                0 <= m < n ==> #[trigger] lanes_view(list@)[m] == (if m < j && turn_applicable(
                    s[m],
                ) {
                    lane_with_turns(s[m], split_seq(pv[count_applicable(s.take(m)) as int], ';'))
                } else {
                    s[m]
                }),
        decreases n - j,
    {
        assert(s.take(j + 1).drop_last() =~= s.take(j as int));
        assert(lanes_view(list@)[j as int] == list@[j as int]@);
        proof {
            lemma_count_applicable_prefix(s, j as int);
        }
        if is_turn_applicable(&list[j]) {
            let turns = split_owned(parts[k], ';');
            set_lane_turns(list, j, turns);
            k = k + 1;
        }
        j = j + 1;
    }
    assert(lanes_view(list@) =~= spec_apply_turn_restrictions(s, value@));
}

// ------------------------------------------------------------------------------------------
// The whole road

pub open spec fn is_railway(t: Map<Seq<char>, Seq<char>>) -> bool {
    tag_is(t, "railway"@, "light_rail"@) || tag_is(t, "railway"@, "rail"@)
}

/// The lanes of a normal road, once sidewalk inference has run and neither special case
/// applies.
pub open spec fn spec_normal_road(t: Map<Seq<char>, Seq<char>>, cfg: MapConfig) -> Seq<
    LaneSpecView,
> {
    let sides = spec_driving_sides(t);
    let oneway = spec_is_oneway(t);
    let driving_lane = spec_driving_lane_type(t);
    if driving_lane == LaneType::Construction {
        spec_assemble_ltr(sides.0, sides.1, cfg.driving_side)
    } else {
        let r1 = spec_add_bus_lanes(sides.0, sides.1, oneway, t, cfg);
        let r2 = spec_add_bike_lanes(r1.0, r1.1, oneway, t, cfg);
        let r3 = if driving_lane == LaneType::Driving {
            spec_add_parking_lanes(r2.0, r2.1, t)
        } else {
            r2
        };
        let r4 = spec_add_sidewalks_and_shoulders(r3.0, r3.1, t, cfg);
        let f5 = if t.contains_key("turn:lanes:forward"@) {
            spec_apply_turn_restrictions(r4.0, t["turn:lanes:forward"@])
        } else {
            r4.0
        };
        let b5 = if t.contains_key("turn:lanes:backward"@) {
            spec_apply_turn_restrictions(r4.1, t["turn:lanes:backward"@])
        } else {
            r4.1
        };
        let lanes = spec_assemble_ltr(f5, b5, cfg.driving_side);
        let lanes2 = if t.contains_key("turn:lanes"@) {
            spec_apply_turn_restrictions(lanes, t["turn:lanes"@])
        } else {
            lanes
        };
        spec_apply_busway_lanes(lanes2, t, oneway, cfg)
    }
}

/// The lanes, left to right, that the classic rules give a road with tags `tags`.
pub open spec fn spec_lane_specs_ltr(tags: Map<Seq<char>, Seq<char>>, cfg: MapConfig) -> Seq<
    LaneSpecView,
> {
    let t = spec_infer_sidewalk_tags(tags, cfg);
    if is_railway(t) {
        seq![new_lane("railway"@, LaneType::LightRail, Direction::Fwd)]
    } else if spec_non_motorized_road(t, cfg) is Some {
        spec_non_motorized_road(t, cfg).unwrap()
    } else {
        spec_normal_road(t, cfg)
    }
}

/// The tags on which the classic rules give a result: a railway, or a road with a `highway`
/// tag whose forward bus lane tags, if any, have forward lanes to speak of.
pub open spec fn lane_specs_defined(tags: Map<Seq<char>, Seq<char>>, cfg: MapConfig) -> bool {
    let t = spec_infer_sidewalk_tags(tags, cfg);
    is_railway(t) || (t.contains_key("highway"@) && (spec_non_motorized_road(t, cfg) is Some
        || spec_driving_lane_type(t) == LaneType::Construction || bus_lanes_defined(
        spec_driving_sides(t).0,
        t,
        spec_is_oneway(t),
    )))
}

/// Purely from OSM tags, determine the lanes that a road segment has, with the classic rules.
/// The experimental rules that `cfg.osm2lanes` selects rest on a crate that is not part of
/// this library; callers choose them before calling this.
pub fn get_lane_specs_ltr(tags: &Tags, cfg: &MapConfig) -> (r: Vec<LaneSpec>)
    requires
        !cfg.osm2lanes,
        lane_specs_defined(tags@, *cfg),
    ensures
        lanes_view(r@) == spec_lane_specs_ltr(tags@, *cfg),
{
    let mut tags = tags.clone();
    infer_sidewalk_tags(&mut tags, cfg);
    let ghost t = tags@;

    if tags.is("railway", "light_rail") || tags.is("railway", "rail") {
        let mut r: Vec<LaneSpec> = Vec::new();
        push_lane(&mut r, make_lane("railway", LaneType::LightRail, Direction::Fwd));
        assert(lanes_view(r@) =~= seq![new_lane("railway"@, LaneType::LightRail, Direction::Fwd)]);
        return r;
    }
    if let Some(lanes) = non_motorized_road(&tags, cfg) {
        return lanes;
    }

    normal_road(&tags, cfg)
}

/// The lanes of a road that is neither a railway nor mainly for cyclists or pedestrians.
fn normal_road(tags: &Tags, cfg: &MapConfig) -> (r: Vec<LaneSpec>)
    requires
        tags@.contains_key("highway"@),
        spec_driving_lane_type(tags@) == LaneType::Construction || bus_lanes_defined(
            spec_driving_sides(tags@).0,
            tags@,
            spec_is_oneway(tags@),
        ),
    ensures
        lanes_view(r@) == spec_normal_road(tags@, *cfg),
{
    let (mut fwd_side, mut back_side, oneway, driving_lane) = create_driving_lanes(tags);
    if driving_lane == LaneType::Construction {
        return LaneSpec::assemble_ltr(fwd_side, back_side, cfg.driving_side);
    }
    let ghost t = tags@;
    let ghost sides = spec_driving_sides(t);
    let ghost r1 = spec_add_bus_lanes(sides.0, sides.1, oneway, t, *cfg);
    let ghost r2 = spec_add_bike_lanes(r1.0, r1.1, oneway, t, *cfg);
    let ghost r3 = if driving_lane == LaneType::Driving {
        spec_add_parking_lanes(r2.0, r2.1, t)
    } else {
        r2
    };
    let ghost r4 = spec_add_sidewalks_and_shoulders(r3.0, r3.1, t, *cfg);
    add_bus_lanes(&mut fwd_side, &mut back_side, oneway, tags, cfg);
    assert(lanes_view(fwd_side@) == r1.0 && lanes_view(back_side@) == r1.1);
    add_bike_lanes(&mut fwd_side, &mut back_side, oneway, tags, cfg);
    assert(lanes_view(fwd_side@) == r2.0 && lanes_view(back_side@) == r2.1);
    if driving_lane == LaneType::Driving {
        add_parking_lanes(&mut fwd_side, &mut back_side, tags);
    }
    assert(lanes_view(fwd_side@) == r3.0 && lanes_view(back_side@) == r3.1);
    add_sidewalks_and_shoulders(&mut fwd_side, &mut back_side, tags, cfg);
    assert(lanes_view(fwd_side@) == r4.0 && lanes_view(back_side@) == r4.1);
    if let Some(x) = tags.get("turn:lanes:forward") {
        apply_turn_restrictions(&mut fwd_side, x.as_str());
    }
    if let Some(x) = tags.get("turn:lanes:backward") {
        apply_turn_restrictions(&mut back_side, x.as_str());
    }
    let ghost f5 = if t.contains_key("turn:lanes:forward"@) {
        spec_apply_turn_restrictions(r4.0, t["turn:lanes:forward"@])
    } else {
        r4.0
    };
    let ghost b5 = if t.contains_key("turn:lanes:backward"@) {
        spec_apply_turn_restrictions(r4.1, t["turn:lanes:backward"@])
    } else {
        r4.1
    };
    assert(lanes_view(fwd_side@) == f5);
    assert(lanes_view(back_side@) == b5);
    let ghost fv = fwd_side@;
    let ghost bv = back_side@;
    let mut lanes = LaneSpec::assemble_ltr(fwd_side, back_side, cfg.driving_side);
    assert(lanes_view(lanes@) =~= spec_assemble_ltr(f5, b5, cfg.driving_side)) by {
        assert(lanes@ == spec_assemble_ltr(fv, bv, cfg.driving_side));
        if cfg.driving_side == DrivingSide::Right {
            assert(lanes_view(bv.reverse()) =~= lanes_view(bv).reverse());
            assert(lanes_view(bv.reverse() + fv) =~= lanes_view(bv.reverse()) + lanes_view(fv));
        } else {
            assert(lanes_view(fv.reverse()) =~= lanes_view(fv).reverse());
            assert(lanes_view(fv.reverse() + bv) =~= lanes_view(fv.reverse()) + lanes_view(bv));
        }
    }
    if let Some(x) = tags.get("turn:lanes") {
        apply_turn_restrictions(&mut lanes, x.as_str());
    }
    apply_busway_lanes(&mut lanes, tags, oneway, cfg);
    lanes
}


/// Whether the classic rules give lanes for `tags`: exactly where `get_lane_specs_ltr` may be
/// called. They give none for a way that is neither a railway nor tagged `highway`, and none
/// where forward bus lanes are tagged on a road without forward lanes.
pub fn lane_specs_are_defined(tags: &Tags, cfg: &MapConfig) -> (r: bool)
    ensures
        r == lane_specs_defined(tags@, *cfg),
{
    let mut tags = tags.clone();
    infer_sidewalk_tags(&mut tags, cfg);
    if tags.is("railway", "light_rail") || tags.is("railway", "rail") {
        return true;
    }
    if !tags.contains_key("highway") {
        return false;
    }
    if non_motorized_road(&tags, cfg).is_some() {
        return true;
    }
    let (fwd_side, _back_side, oneway, driving_lane) = create_driving_lanes(&tags);
    if driving_lane == LaneType::Construction {
        return true;
    }
    let fwd_spec: &str = if let Some(s) = tags.get("bus:lanes:forward") {
        s.as_str()
    } else if let Some(s) = tags.get("psv:lanes:forward") {
        s.as_str()
    } else if oneway {
        if let Some(s) = tags.get("bus:lanes") {
            s.as_str()
        } else if let Some(s) = tags.get("psv:lanes") {
            s.as_str()
        } else {
            ""
        }
    } else {
        ""
    };
    proof {
        reveal_strlit("");
    }
    assert(fwd_spec@ == fwd_bus_spec(tags@, oneway));
    fwd_spec.unicode_len() == 0 || fwd_side.len() > 0
}

} // verus!

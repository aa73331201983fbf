//! Laws on the rules of single operations: the bike lanes that tags give, where a sidepath
//! joins a road, the lines between lanes, conflicts between movements and turn restrictions.
use vstd::prelude::*;

use crate::classic::{bike_separations, buffer_by_bike_lane, is_lane_or_track, spec_add_bike_lanes};
use crate::classify::{spec_calc_conflict, ConflictType};
use crate::lane_edit::first_index_lt;
use crate::lanes::{spec_is_walkable, spec_traffic_class, BufferType, Direction, LaneSpecView, LaneType, TrafficClass};
use crate::marking::{spec_longitudinal_markings, Longitudinal, LongitudinalLine};
use crate::road::{first_naming, spec_allowed_to_turn_to, RestrictionType};
use crate::ids::RoadID;
use crate::sidepath::zipped_lanes;
use crate::types::{DrivingSide, MapConfig};

verus! {

/// Some lane of `s` is a bike lane running in direction `dir`.
pub open spec fn has_bike_lane(s: Seq<LaneSpecView>, dir: Direction) -> bool {
    exists|i: int| 0 <= i < s.len() && (#[trigger] s[i]).lt == LaneType::Biking && s[i].dir == dir
}

proof fn lemma_first_index_lt(s: Seq<LaneSpecView>, lt: LaneType)
    ensures
        -1 <= first_index_lt(s, lt) < s.len(),
    decreases s.len(),
{
    if s.len() > 0 && s[0].lt != lt {
        lemma_first_index_lt(s.drop_first(), lt);
    }
}

/// A buffer beside a bike lane keeps every bike lane.
proof fn lemma_buffer_keeps_bike_lanes(
    s: Seq<LaneSpecView>,
    t: Map<Seq<char>, Seq<char>>,
    buf: BufferType,
    d: Direction,
    shift: int,
    dir: Direction,
)
    requires
        0 <= shift <= 1,
        has_bike_lane(s, dir),
    ensures
        has_bike_lane(buffer_by_bike_lane(s, t, buf, d, shift), dir),
{
    lemma_first_index_lt(s, LaneType::Biking);
    let idx = first_index_lt(s, LaneType::Biking);
    let i = choose|i: int| 0 <= i < s.len() && (#[trigger] s[i]).lt == LaneType::Biking && s[i].dir == dir;
    if idx >= 0 {
        let r = buffer_by_bike_lane(s, t, buf, d, shift);
        let at = idx + shift;
        if i < at {
            assert(r[i] == s[i]);
        } else {
            assert(r[i + 1] == s[i]);
        }
    }
}

/// Separating buffers keep the bike lanes of both sides.
proof fn lemma_separations_keep_bike_lanes(
    f: Seq<LaneSpecView>,
    b: Seq<LaneSpecView>,
    t: Map<Seq<char>, Seq<char>>,
)
    requires
        has_bike_lane(f, Direction::Fwd),
        has_bike_lane(b, Direction::Back),
    ensures
        has_bike_lane(bike_separations(f, b, t).0, Direction::Fwd),
        has_bike_lane(bike_separations(f, b, t).1, Direction::Back),
{
    let f1 = match crate::classic::separation_at(t, "cycleway:right:separation:left"@) {
        Some(buf) => {
            lemma_buffer_keeps_bike_lanes(f, t, buf, Direction::Fwd, 0, Direction::Fwd);
            buffer_by_bike_lane(f, t, buf, Direction::Fwd, 0)
        },
        None => f,
    };
    match crate::classic::separation_at(t, "cycleway:left:separation:left"@) {
        Some(buf) => lemma_buffer_keeps_bike_lanes(b, t, buf, Direction::Back, 0, Direction::Back),
        None => {},
    }
    match crate::classic::separation_at(t, "cycleway:left:separation:right"@) {
        Some(buf) => lemma_buffer_keeps_bike_lanes(f1, t, buf, Direction::Fwd, 1, Direction::Fwd),
        None => {},
    }
}

/// A road tagged `cycleway=lane` or `cycleway=track` that has lanes in both directions gets a
/// bike lane on each side: one running forward among the forward lanes and one running backward
/// among the backward lanes. Tagged `cycleway:both` (and not `cycleway`), it gets both whatever
/// lanes it has.
pub proof fn law_cycleway_gives_bike_lanes_both_ways(
    f: Seq<LaneSpecView>,
    b: Seq<LaneSpecView>,
    oneway: bool,
    t: Map<Seq<char>, Seq<char>>,
    cfg: MapConfig,
)
    requires
        (is_lane_or_track(t, "cycleway"@) && b.len() > 0) || (!is_lane_or_track(t, "cycleway"@)
            && is_lane_or_track(t, "cycleway:both"@)),
    ensures
        has_bike_lane(spec_add_bike_lanes(f, b, oneway, t, cfg).0, Direction::Fwd),
        has_bike_lane(spec_add_bike_lanes(f, b, oneway, t, cfg).1, Direction::Back),
{
    let r = crate::classic::bike_main(f, b, oneway, t, cfg);
    assert(r.0[r.0.len() - 1].lt == LaneType::Biking && r.0[r.0.len() - 1].dir == Direction::Fwd);
    assert(r.1[r.1.len() - 1].lt == LaneType::Biking && r.1[r.1.len() - 1].dir == Direction::Back);
    lemma_separations_keep_bike_lanes(r.0, r.1, t);
}

/// `d`, or the other way when `keep` is false.
pub open spec fn flipped_unless(d: Direction, keep: bool) -> Direction {
    if keep {
        d
    } else {
        match d {
            Direction::Fwd => Direction::Back,
            Direction::Back => Direction::Fwd,
        }
    }
}

/// Where a sidepath joins a main road: on the right with no walkable lane at the right edge,
/// all of the main road's lanes come first, in order; on the left with no walkable lane at the
/// left edge, they all come last, and in both cases the sidepath's lanes keep their kinds and
/// order, turned round when the sidepath runs the other way, with a planter buffer between them
/// and the main road. A walkable edge lane stays outermost. Either way the main road gains the
/// sidepath's lanes and one buffer.
pub proof fn law_zipped_lanes_keep_the_main_road(
    lanes: Seq<LaneSpecView>,
    core: Seq<LaneSpecView>,
    snap_to_left: bool,
    same_way: bool,
)
    requires
        lanes.len() > 0,
    ensures
        ({
            let z = zipped_lanes(lanes, core, snap_to_left, same_way);
            let n = lanes.len() as int;
            &&& z.len() == n + core.len() + 1
            &&& !snap_to_left && !spec_is_walkable(lanes[n - 1].lt) ==> z.take(n) == lanes
            &&& !snap_to_left && spec_is_walkable(lanes[n - 1].lt) ==> z.take(n - 1) == lanes.take(n - 1)
                && z.last() == lanes[n - 1]
            &&& snap_to_left && !spec_is_walkable(lanes[0].lt) ==> z.skip(z.len() - n) == lanes
            &&& snap_to_left && spec_is_walkable(lanes[0].lt) ==> z[0] == lanes[0] && z.skip(z.len() - (n - 1))
                == lanes.skip(1)
            &&& !snap_to_left && !spec_is_walkable(lanes[n - 1].lt) ==> z[n].lt == LaneType::Buffer(
                BufferType::Planters,
            ) && forall|i: int| 0 <= i < core.len() ==> (#[trigger] z[n + 1 + i]).lt == core[i].lt && z[n + 1
                + i].dir == flipped_unless(core[i].dir, same_way)
            &&& snap_to_left && !spec_is_walkable(lanes[0].lt) ==> z[core.len() as int].lt == LaneType::Buffer(
                BufferType::Planters,
            ) && forall|i: int| 0 <= i < core.len() ==> (#[trigger] z[i]).lt == core[i].lt && z[i].dir
                == flipped_unless(core[i].dir, same_way)
        }),
{
    let z = zipped_lanes(lanes, core, snap_to_left, same_way);
    let n = lanes.len() as int;
    let ins = crate::sidepath::inserted_lanes(core, snap_to_left, same_way);
    assert(ins.len() == core.len() + 1);
    if !snap_to_left {
        if !spec_is_walkable(lanes[n - 1].lt) {
            assert(z.take(n) =~= lanes);
        } else {
            assert(z.take(n - 1) =~= lanes.take(n - 1));
        }
    } else {
        if !spec_is_walkable(lanes[0].lt) {
            assert(z.skip(z.len() - n) =~= lanes);
        } else {
            assert(z.skip(z.len() - (n - 1)) =~= lanes.skip(1));
        }
    }
}

/// The markings of a road include, at each boundary between two lanes of motor vehicles or two
/// bike lanes, a dividing line where they run opposite ways and a lane line that may be crossed
/// either way where they run the same way. Overtaking across a dividing line is allowed except
/// on motorways, trunk and primary roads.
pub proof fn law_lines_between_lanes_of_one_class(lanes: Seq<LaneSpecView>, highway_type: Seq<char>, k: int)
    requires
        1 <= k < lanes.len(),
        spec_traffic_class(lanes[k - 1].lt) == spec_traffic_class(lanes[k].lt),
        spec_traffic_class(lanes[k].lt) == Some(TrafficClass::Bicycle) || spec_traffic_class(lanes[k].lt)
            == Some(TrafficClass::Motor),
    ensures
        ({
            let overtake = !(highway_type == "motorway"@ || highway_type == "trunk"@ || highway_type
                == "primary"@);
            let kind = if lanes[k - 1].dir != lanes[k].dir {
                LongitudinalLine::Dividing { overtake_left: overtake, overtake_right: overtake }
            } else {
                LongitudinalLine::Lane { merge_left: true, merge_right: true }
            };
            spec_longitudinal_markings(lanes, highway_type).contains(
                (k as usize, Longitudinal { kind, lanes: [lanes[k - 1].lt, lanes[k].lt] }),
            )
        }),
{
    let overtake = !(highway_type == "motorway"@ || highway_type == "trunk"@ || highway_type == "primary"@);
    let kind = if lanes[k - 1].dir != lanes[k].dir {
        LongitudinalLine::Dividing { overtake_left: overtake, overtake_right: overtake }
    } else {
        LongitudinalLine::Lane { merge_left: true, merge_right: true }
    };
    let e = (k as usize, Longitudinal { kind, lanes: [lanes[k - 1].lt, lanes[k].lt] });
    let o = crate::marking::guess_overtaking(highway_type);
    assert(o == overtake);
    lemma_lines_between_has(lanes, o, k, lanes.len() as int, e);
    let m = spec_longitudinal_markings(lanes, highway_type);
    let lb = crate::marking::lines_between(lanes, o, lanes.len() as int);
    let j = choose|j: int| 0 <= j < lb.len() && lb[j] == e;
    let n = lanes.len();
    let verge = LaneType::Buffer(BufferType::Verge);
    let left = if n > 0 && crate::marking::has_edge_line(spec_traffic_class(lanes[0].lt)) {
        seq![(0usize, Longitudinal { kind: LongitudinalLine::Edge, lanes: [verge, lanes[0].lt] })]
    } else {
        Seq::empty()
    };
    assert(m[left.len() + j] == e);
}

proof fn lemma_lines_between_has(
    lanes: Seq<LaneSpecView>,
    o: bool,
    k: int,
    m: int,
    e: (usize, Longitudinal),
)
    requires
        1 <= k < m <= lanes.len(),
        crate::marking::line_between(lanes[k - 1], lanes[k], o) is Some,
        e == (k as usize, Longitudinal {
            kind: crate::marking::line_between(lanes[k - 1], lanes[k], o).unwrap(),
            lanes: [lanes[k - 1].lt, lanes[k].lt],
        }),
    ensures
        crate::marking::lines_between(lanes, o, m).contains(e),
    decreases m,
{
    let s = crate::marking::lines_between(lanes, o, m);
    if m == k + 1 {
        assert(s[s.len() - 1] == e);
    } else {
        lemma_lines_between_has(lanes, o, k, m - 1, e);
        let p = crate::marking::lines_between(lanes, o, m - 1);
        let j = choose|j: int| 0 <= j < p.len() && p[j] == e;
        assert(s[j] == e);
    }
}

/// Two different movements out of the same road diverge; two different movements into the same
/// road merge; a movement does not conflict with itself.
pub proof fn law_conflict_of_shared_ends(a: (int, int), b: (int, int), side: DrivingSide)
    ensures
        a == b ==> spec_calc_conflict(a, b, side) == ConflictType::Uncontested,
        a.0 == b.0 && a.1 != b.1 ==> spec_calc_conflict(a, b, side) == ConflictType::Diverge,
        a.1 == b.1 && a.0 != b.0 ==> spec_calc_conflict(a, b, side) == ConflictType::Merge,
{
}

proof fn lemma_first_naming_none(rs: Seq<(RestrictionType, RoadID)>, dest: RoadID)
    requires
        forall|i: int| 0 <= i < rs.len() ==> (#[trigger] rs[i]).1 != dest,
    ensures
        first_naming(rs, dest) is None,
    decreases rs.len(),
{
    if rs.len() > 0 {
        assert forall|i: int| 0 <= i < rs.drop_first().len() implies (#[trigger] rs.drop_first()[i]).1 != dest by {
            assert(rs.drop_first()[i] == rs[i + 1]);
        }
        lemma_first_naming_none(rs.drop_first(), dest);
    }
}

proof fn lemma_first_naming_at(rs: Seq<(RestrictionType, RoadID)>, dest: RoadID, k: int)
    requires
        0 <= k < rs.len(),
        rs[k].1 == dest,
        forall|i: int| 0 <= i < k ==> (#[trigger] rs[i]).1 != dest,
    ensures
        first_naming(rs, dest) == Some(rs[k].0),
    decreases k,
{
    if k > 0 {
        assert forall|i: int| 0 <= i < k - 1 implies (#[trigger] rs.drop_first()[i]).1 != dest by {
            assert(rs.drop_first()[i] == rs[i + 1]);
        }
        lemma_first_naming_at(rs.drop_first(), dest, k - 1);
    }
}

/// Turn restrictions: a road whose restrictions name no road may be turned from onto any road;
/// one with an only-allowed turn that does not name `dest` may not turn onto it; and where a
/// restriction first names `dest`, a ban forbids the turn and an only-allowed turn permits it.
pub proof fn law_turn_restrictions_decide(rs: Seq<(RestrictionType, RoadID)>, dest: RoadID)
    ensures
        rs.len() == 0 ==> spec_allowed_to_turn_to(rs, dest),
        (forall|i: int| 0 <= i < rs.len() ==> (#[trigger] rs[i]).1 != dest) ==> (spec_allowed_to_turn_to(
            rs,
            dest,
        ) <==> forall|i: int| 0 <= i < rs.len() ==> (#[trigger] rs[i]).0 != RestrictionType::OnlyAllowTurns),
        forall|k: int|
            0 <= k < rs.len() && (#[trigger] rs[k]).1 == dest && (forall|i: int| 0 <= i < k ==> (#[trigger] rs[i]).1 != dest)
                ==> (spec_allowed_to_turn_to(rs, dest) <==> rs[k].0 == RestrictionType::OnlyAllowTurns),
{
    if forall|i: int| 0 <= i < rs.len() ==> (#[trigger] rs[i]).1 != dest {
        lemma_first_naming_none(rs, dest);
    }
    assert forall|k: int|
        0 <= k < rs.len() && (#[trigger] rs[k]).1 == dest && (forall|i: int| 0 <= i < k ==> (#[trigger] rs[i]).1 != dest)
        implies (spec_allowed_to_turn_to(rs, dest) <==> rs[k].0 == RestrictionType::OnlyAllowTurns) by {
        lemma_first_naming_at(rs, dest, k);
    }
}


/// Between a lane of motor vehicles and a bike lane the line is a lane line that neither may
/// cross; between such a lane and a lane of neither class it is an edge line.
pub proof fn law_lines_between_lanes_of_two_classes(lanes: Seq<LaneSpecView>, highway_type: Seq<char>, k: int)
    requires
        1 <= k < lanes.len(),
        spec_traffic_class(lanes[k - 1].lt) != spec_traffic_class(lanes[k].lt),
        spec_traffic_class(lanes[k - 1].lt) == Some(TrafficClass::Bicycle) || spec_traffic_class(lanes[k - 1].lt)
            == Some(TrafficClass::Motor) || spec_traffic_class(lanes[k].lt) == Some(TrafficClass::Bicycle)
            || spec_traffic_class(lanes[k].lt) == Some(TrafficClass::Motor),
    ensures
        ({
            let ca = spec_traffic_class(lanes[k - 1].lt);
            let cb = spec_traffic_class(lanes[k].lt);
            let both_travel = (ca == Some(TrafficClass::Bicycle) || ca == Some(TrafficClass::Motor)) && (cb
                == Some(TrafficClass::Bicycle) || cb == Some(TrafficClass::Motor));
            let kind = if both_travel {
                LongitudinalLine::Lane { merge_left: false, merge_right: false }
            } else {
                LongitudinalLine::Edge
            };
            spec_longitudinal_markings(lanes, highway_type).contains(
                (k as usize, Longitudinal { kind, lanes: [lanes[k - 1].lt, lanes[k].lt] }),
            )
        }),
{
    let ca = spec_traffic_class(lanes[k - 1].lt);
    let cb = spec_traffic_class(lanes[k].lt);
    let both_travel = (ca == Some(TrafficClass::Bicycle) || ca == Some(TrafficClass::Motor)) && (cb
        == Some(TrafficClass::Bicycle) || cb == Some(TrafficClass::Motor));
    let kind = if both_travel {
        LongitudinalLine::Lane { merge_left: false, merge_right: false }
    } else {
        LongitudinalLine::Edge
    };
    let e = (k as usize, Longitudinal { kind, lanes: [lanes[k - 1].lt, lanes[k].lt] });
    let o = crate::marking::guess_overtaking(highway_type);
    lemma_lines_between_has(lanes, o, k, lanes.len() as int, e);
    lemma_markings_include_between(lanes, highway_type, e);
}

/// Lines between lanes are among the markings.
proof fn lemma_markings_include_between(lanes: Seq<LaneSpecView>, highway_type: Seq<char>, e: (usize, Longitudinal))
    requires
        crate::marking::lines_between(lanes, crate::marking::guess_overtaking(highway_type), lanes.len() as int).contains(e),
    ensures
        spec_longitudinal_markings(lanes, highway_type).contains(e),
{
    let o = crate::marking::guess_overtaking(highway_type);
    let lb = crate::marking::lines_between(lanes, o, lanes.len() as int);
    let j = choose|j: int| 0 <= j < lb.len() && lb[j] == e;
    let n = lanes.len();
    let verge = LaneType::Buffer(BufferType::Verge);
    let left = if n > 0 && crate::marking::has_edge_line(spec_traffic_class(lanes[0].lt)) {
        seq![(0usize, Longitudinal { kind: LongitudinalLine::Edge, lanes: [verge, lanes[0].lt] })]
    } else {
        Seq::empty()
    };
    assert(spec_longitudinal_markings(lanes, highway_type)[left.len() + j] == e);
}

/// A road whose first (last) lane carries bicycles or motor vehicles has an edge line at its
/// left (right) edge, against a verge.
pub proof fn law_edge_lines(lanes: Seq<LaneSpecView>, highway_type: Seq<char>)
    ensures
        ({
            let n = lanes.len();
            let m = spec_longitudinal_markings(lanes, highway_type);
            let verge = LaneType::Buffer(BufferType::Verge);
            let travel = |lt: LaneType| spec_traffic_class(lt) == Some(TrafficClass::Bicycle) || spec_traffic_class(lt)
                == Some(TrafficClass::Motor);
            &&& n > 0 && travel(lanes[0].lt) ==> m.len() > 0 && m[0] == (0usize, Longitudinal {
                kind: LongitudinalLine::Edge,
                lanes: [verge, lanes[0].lt],
            })
            &&& n > 0 && travel(lanes[n - 1].lt) ==> m.len() > 0 && m.last() == (n as usize, Longitudinal {
                kind: LongitudinalLine::Edge,
                lanes: [lanes[n - 1].lt, verge],
            })
        }),
{
}

} // verus!

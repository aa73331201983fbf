//! Semantic definitions of the road markings used to control traffic.
//!
//! These types describe the *meaning* of the markings, in a locale-independent way, not
//! necessarily how they look. The nomenclature follows the Australian Manual of Uniform Traffic
//! Control Devices.
use vstd::prelude::*;

use crate::lanes::{
    lanes_view, spec_is_for_moving_vehicles, spec_traffic_class, BufferType, Direction, LaneSpec,
    LaneSpecView, LaneType, TrafficClass,
};
use crate::road::{road_lanes, Road};
use crate::strings::str_is_any;
use crate::types::TrafficInterruption;

verus! {

#[derive(Clone, Copy, Debug, PartialEq, Eq)]
pub struct Longitudinal {
    pub kind: LongitudinalLine,
    /// The two lanes, ltr. At least one will be a traffic lane, and the other might be a buffer.
    pub lanes: [LaneType; 2],
}

#[derive(Clone, Copy, Debug, PartialEq, Eq, Structural)]
pub enum LongitudinalLine {
    /// A line separating opposing directions of traffic.
    Dividing { overtake_left: bool, overtake_right: bool },
    /// A line separating lanes of traffic travelling in the same direction.
    Lane { merge_left: bool, merge_right: bool },
    /// A line at the edge of a lane that is also the edge of the road.
    Edge,
    /// A line at the edge of a lane that is intended to be crossed by other traffic crossing,
    /// entering or exiting the lane.
    Continuity,
    /// A line guiding traffic turning through an intersection.
    Turn,
}

#[derive(Clone, Copy, Debug, PartialEq, Eq, Structural)]
pub enum Transverse {
    StopLine,
    YieldLine,
}

pub enum Symbol {
    /// A marking indicating a mode of traffic that is allowed.
    TrafficMode(TrafficClass),
    /// A marking indicating which turns may be performed.
    TurnArrow(TurnDirections),
}

/// A set of turn directions that are allowed.
#[derive(Clone, Copy, Debug, PartialEq, Eq, Structural)]
pub struct TurnDirections {
    pub through: bool,
    pub left: bool,
    pub right: bool,
    pub slight_left: bool,
    pub slight_right: bool,
    pub reverse: bool,
}

impl TurnDirections {
    /// Only straight through.
    pub fn through() -> (r: TurnDirections)
        ensures
            r == (TurnDirections {
                through: true,
                left: false,
                right: false,
                slight_left: false,
                slight_right: false,
                reverse: false,
            }),
    {
        TurnDirections {
            through: true,
            left: false,
            right: false,
            slight_left: false,
            slight_right: false,
            reverse: false,
        }
    }
}

#[derive(Clone, Copy, Debug, PartialEq, Eq, Structural)]
pub enum Area {
    /// Generic no traffic areas.
    OutOfBounds,
}

impl LongitudinalLine {
    pub fn dividing(overtake_left: bool, overtake_right: bool) -> (r: LongitudinalLine)
        ensures
            r == (LongitudinalLine::Dividing { overtake_left, overtake_right }),
    {
        LongitudinalLine::Dividing { overtake_left, overtake_right }
    }

    pub fn lane(merge_left: bool, merge_right: bool) -> (r: LongitudinalLine)
        ensures
            r == (LongitudinalLine::Lane { merge_left, merge_right }),
    {
        LongitudinalLine::Lane { merge_left, merge_right }
    }

    pub fn edge() -> (r: LongitudinalLine)
        ensures
            r == LongitudinalLine::Edge,
    {
        LongitudinalLine::Edge
    }

    pub fn continuity() -> (r: LongitudinalLine)
        ensures
            r == LongitudinalLine::Continuity,
    {
        LongitudinalLine::Continuity
    }
}

/// The colour of a painted marking.
#[derive(Clone, Copy, Debug, PartialEq, Eq, Structural)]
pub enum PaintColor {
    White,
    Yellow,
}

impl PaintColor {
    pub fn to_str(&self) -> (r: &'static str)
        ensures
            r@ == (match *self {
                PaintColor::White => "white"@,
                PaintColor::Yellow => "yellow"@,
            }),
    {
        match self {
            PaintColor::White => "white",
            PaintColor::Yellow => "yellow",
        }
    }
}

/// The material of a road surface.
#[derive(Clone, Copy, Debug, PartialEq, Eq, Structural)]
pub enum SurfaceMaterial {
    Asphalt,
    FineAsphalt,
    Concrete,
}

impl SurfaceMaterial {
    pub fn to_str(&self) -> (r: &'static str)
        ensures
            r@ == (match *self {
                SurfaceMaterial::Asphalt => "asphalt"@,
                SurfaceMaterial::FineAsphalt => "fine_asphalt"@,
                SurfaceMaterial::Concrete => "concrete"@,
            }),
    {
        match self {
            SurfaceMaterial::Asphalt => "asphalt",
            SurfaceMaterial::FineAsphalt => "fine_asphalt",
            SurfaceMaterial::Concrete => "concrete",
        }
    }
}

pub open spec fn spec_material_from_lane_type(lt: LaneType) -> Option<SurfaceMaterial> {
    match lt {
        LaneType::Sidewalk | LaneType::Footway => Some(SurfaceMaterial::Concrete),
        LaneType::Biking | LaneType::SharedUse => Some(SurfaceMaterial::FineAsphalt),
        LaneType::LightRail => None,
        _ => Some(SurfaceMaterial::Asphalt),
    }
}

/// The surface that a lane of type `lt` is made of; none for rails.
pub fn material_from_lane_type(lt: LaneType) -> (r: Option<SurfaceMaterial>)
    ensures
        r == spec_material_from_lane_type(lt),
{
    match lt {
        LaneType::Sidewalk | LaneType::Footway => Some(SurfaceMaterial::Concrete),
        LaneType::Driving | LaneType::Parking | LaneType::Shoulder | LaneType::SharedLeftTurn
        | LaneType::Construction | LaneType::Buffer(_) | LaneType::Bus => Some(
            SurfaceMaterial::Asphalt,
        ),
        LaneType::Biking | LaneType::SharedUse => Some(SurfaceMaterial::FineAsphalt),
        LaneType::LightRail => None,
    }
}

/// Overtaking is guessed to be allowed across the centre line except on motorways, trunk and
/// primary roads.
pub open spec fn guess_overtaking(highway_type: Seq<char>) -> bool {
    !(highway_type == "motorway"@ || highway_type == "trunk"@ || highway_type == "primary"@)
}

/// Lanes of this class get a painted edge: bicycles and motor vehicles.
pub open spec fn has_edge_line(c: Option<TrafficClass>) -> bool {
    c == Some(TrafficClass::Bicycle) || c == Some(TrafficClass::Motor)
}

/// The line between two adjacent lanes, left to right, from their traffic classes and
/// directions; none between lanes of neither bicycles nor motor vehicles.
pub open spec fn line_between(a: LaneSpecView, b: LaneSpecView, overtaking: bool) -> Option<LongitudinalLine> {
    let ca = spec_traffic_class(a.lt);
    let cb = spec_traffic_class(b.lt);
    let motor = Some(TrafficClass::Motor);
    let bike = Some(TrafficClass::Bicycle);
    if ca == motor && cb == motor {
        if a.dir != b.dir {
            Some(LongitudinalLine::Dividing { overtake_left: overtaking, overtake_right: overtaking })
        } else {
            Some(LongitudinalLine::Lane { merge_left: true, merge_right: true })
        }
    } else if (ca == motor && cb == bike) || (ca == bike && cb == motor) {
        Some(LongitudinalLine::Lane { merge_left: false, merge_right: false })
    } else if ca == motor || cb == motor {
        Some(LongitudinalLine::Edge)
    } else if ca == bike && cb == bike {
        if a.dir != b.dir {
            Some(LongitudinalLine::Dividing { overtake_left: overtaking, overtake_right: overtaking })
        } else {
            Some(LongitudinalLine::Lane { merge_left: true, merge_right: true })
        }
    } else if ca == bike || cb == bike {
        Some(LongitudinalLine::Edge)
    } else {
        None
    }
}

/// The lines at the boundaries between the first `m` lanes, boundary `k` lying between lanes
/// `k - 1` and `k`, in order.
pub open spec fn lines_between(lanes: Seq<LaneSpecView>, overtaking: bool, m: int) -> Seq<(usize, Longitudinal)>
    decreases m,
{
    if m <= 1 {
        Seq::empty()
    } else {
        let prev = lines_between(lanes, overtaking, m - 1);
        match line_between(lanes[m - 2], lanes[m - 1], overtaking) {
            Some(kind) => prev.push(
                ((m - 1) as usize, Longitudinal { kind, lanes: [lanes[m - 2].lt, lanes[m - 1].lt] }),
            ),
            None => prev,
        }
    }
}

/// The longitudinal markings of a road with these lanes, left to right, each with the boundary
/// it lies on: 0 is the left edge of the road, `k` the boundary between lanes `k - 1` and `k`,
/// and the number of lanes the right edge. An edge line runs beside a first or last lane of
/// bicycles or motor vehicles, against a verge; between lanes runs the line that
/// `line_between` gives.
pub open spec fn spec_longitudinal_markings(lanes: Seq<LaneSpecView>, highway_type: Seq<char>) -> Seq<
    (usize, Longitudinal),
> {
    let n = lanes.len();
    let verge = LaneType::Buffer(BufferType::Verge);
    let left = if n > 0 && has_edge_line(spec_traffic_class(lanes[0].lt)) {
        seq![(0usize, Longitudinal { kind: LongitudinalLine::Edge, lanes: [verge, lanes[0].lt] })]
    } else {
        Seq::empty()
    };
    let right = if n > 0 && has_edge_line(spec_traffic_class(lanes[n - 1].lt)) {
        seq![(n as usize, Longitudinal { kind: LongitudinalLine::Edge, lanes: [lanes[n - 1].lt, verge] })]
    } else {
        Seq::empty()
    };
    left + lines_between(lanes, guess_overtaking(highway_type), n as int) + right
}

/// Whether the road edge beside a lane of this type gets a line.
fn edge_line_beside(lt: LaneType) -> (r: bool)
    ensures
        r == has_edge_line(spec_traffic_class(lt)),
{
    match lt.traffic_class() {
        Some(TrafficClass::Bicycle) | Some(TrafficClass::Motor) => true,
        _ => false,
    }
}

/// The line between two adjacent lanes, as `line_between` says.
fn line_between_lanes(a: &LaneSpec, b: &LaneSpec, overtaking: bool) -> (r: Option<LongitudinalLine>)
    ensures
        r == line_between(a@, b@, overtaking),
{
    match (a.lt.traffic_class(), b.lt.traffic_class()) {
        (Some(TrafficClass::Motor), Some(TrafficClass::Motor)) => {
            if a.dir != b.dir {
                Some(LongitudinalLine::dividing(overtaking, overtaking))
            } else {
                Some(LongitudinalLine::lane(true, true))
            }
        },
        (Some(TrafficClass::Motor), Some(TrafficClass::Bicycle)) | (
            Some(TrafficClass::Bicycle),
            Some(TrafficClass::Motor),
        ) => Some(LongitudinalLine::lane(false, false)),
        (Some(TrafficClass::Motor), _) | (_, Some(TrafficClass::Motor)) => Some(LongitudinalLine::edge()),
        (Some(TrafficClass::Bicycle), Some(TrafficClass::Bicycle)) => {
            if a.dir != b.dir {
                Some(LongitudinalLine::dividing(overtaking, overtaking))
            } else {
                Some(LongitudinalLine::lane(true, true))
            }
        },
        (Some(TrafficClass::Bicycle), _) | (_, Some(TrafficClass::Bicycle)) => Some(LongitudinalLine::edge()),
        _ => None,
    }
}

/// The longitudinal markings of a road, each with the boundary between lanes it lies on, as
/// `spec_longitudinal_markings` says. Drawing them along the lanes is geometry, left to the
/// caller.
pub fn longitudinal_markings(road: &Road) -> (r: Vec<(usize, Longitudinal)>)
    ensures
        r@ == spec_longitudinal_markings(road_lanes(*road), road.highway_type@),
{
    let ghost lanes = road_lanes(*road);
    let overtaking = !str_is_any(road.highway_type.as_str(), &["motorway", "trunk", "primary"]);
    let n = road.lane_specs_ltr.len();
    let mut out: Vec<(usize, Longitudinal)> = Vec::new();
    let verge = LaneType::Buffer(BufferType::Verge);
    if n > 0 && edge_line_beside(road.lane_specs_ltr[0].lt) {
        out.push((0, Longitudinal { kind: LongitudinalLine::edge(), lanes: [verge, road.lane_specs_ltr[0].lt] }));
    }
    let ghost left = out@;
    proof {
        assert(overtaking == guess_overtaking(road.highway_type@));
        if n > 0 {
            assert(lanes[0] == road.lane_specs_ltr@[0]@);
        }
    }
    let mut k: usize = 1;
    while k < n
        invariant
            lanes == road_lanes(*road),
            n == lanes.len(),
            1 <= k,
            k <= n || (n == 0 && k == 1),
            out@ == left + lines_between(lanes, overtaking, k as int),
        decreases n - k,
    {
        proof {
            assert(lanes[k - 1] == road.lane_specs_ltr@[k - 1]@);
            assert(lanes[k as int] == road.lane_specs_ltr@[k as int]@);
        }
        match line_between_lanes(&road.lane_specs_ltr[k - 1], &road.lane_specs_ltr[k], overtaking) {
            Some(kind) => {
                out.push((k, Longitudinal { kind, lanes: [road.lane_specs_ltr[k - 1].lt, road.lane_specs_ltr[k].lt] }));
            },
            None => {},
        }
        proof {
            assert(lines_between(lanes, overtaking, k + 1) =~= match line_between(lanes[k - 1], lanes[k as int], overtaking) {
                Some(kind) => lines_between(lanes, overtaking, k as int).push(
                    (k, Longitudinal { kind, lanes: [lanes[k - 1].lt, lanes[k as int].lt] }),
                ),
                None => lines_between(lanes, overtaking, k as int),
            });
        }
        k = k + 1;
    }
    proof {
        if n <= 1 {
            assert(lines_between(lanes, overtaking, n as int) =~= Seq::<(usize, Longitudinal)>::empty());
        }
    }
    let ghost mid = out@;
    if n > 0 && edge_line_beside(road.lane_specs_ltr[n - 1].lt) {
        proof {
            assert(lanes[n - 1] == road.lane_specs_ltr@[n - 1]@);
        }
        out.push((n, Longitudinal { kind: LongitudinalLine::edge(), lanes: [road.lane_specs_ltr[n - 1].lt, verge] }));
    }
    proof {
        let verge = LaneType::Buffer(BufferType::Verge);
        let rt = if n > 0 && has_edge_line(spec_traffic_class(lanes[n - 1].lt)) {
            seq![(n as usize, Longitudinal { kind: LongitudinalLine::Edge, lanes: [lanes[n - 1].lt, verge] })]
        } else {
            Seq::empty()
        };
        if n > 0 {
            assert(lanes[n - 1] == road.lane_specs_ltr@[n - 1]@);
        }
        assert(out@ =~= mid + rt);
        if n == 0 {
            assert(lines_between(lanes, overtaking, 1) == Seq::<(usize, Longitudinal)>::empty());
            assert(lines_between(lanes, overtaking, 0) == Seq::<(usize, Longitudinal)>::empty());
            assert(mid =~= left + lines_between(lanes, overtaking, n as int));
        } else {
            assert(k == n);
            assert(mid =~= left + lines_between(lanes, overtaking, n as int));
        }
        assert(overtaking == guess_overtaking(road.highway_type@));
        assert(out@ =~= left + lines_between(lanes, guess_overtaking(road.highway_type@), n as int) + rt);
    }
    proof {
        let n2 = lanes.len();
        let verge = LaneType::Buffer(BufferType::Verge);
        let l = if n2 > 0 && has_edge_line(spec_traffic_class(lanes[0].lt)) {
            seq![(0usize, Longitudinal { kind: LongitudinalLine::Edge, lanes: [verge, lanes[0].lt] })]
        } else {
            Seq::empty()
        };
        assert(left =~= l);
        if n > 0 {
            assert(lanes[n - 1] == road.lane_specs_ltr@[n - 1]@);
        }
    }
    out
}

/// A lane within a stop line for traffic going `dir`: a lane for moving vehicles going that way.
pub open spec fn stops_at_line(l: LaneSpecView, dir: Direction) -> bool {
    spec_is_for_moving_vehicles(l.lt) && l.dir == dir
}

/// The runs of adjacent lanes before `n` that stop at a line for traffic going `dir`, each as
/// (its first lane, one past its last lane), left to right.
pub open spec fn stop_runs(lanes: Seq<LaneSpecView>, dir: Direction, n: int) -> Seq<(usize, usize)>
    decreases n,
{
    if n <= 0 {
        Seq::empty()
    } else {
        let prev = stop_runs(lanes, dir, n - 1);
        if !stops_at_line(lanes[n - 1], dir) {
            prev
        } else if n >= 2 && stops_at_line(lanes[n - 2], dir) {
            prev.update(prev.len() - 1, (prev.last().0, n as usize))
        } else {
            prev.push(((n - 1) as usize, n as usize))
        }
    }
}

/// The line that an interruption of traffic calls for: a stop line for a stop sign or signal,
/// a yield line for a give-way sign, none otherwise.
pub open spec fn line_for(interruption: TrafficInterruption) -> Option<Transverse> {
    match interruption {
        TrafficInterruption::Stop | TrafficInterruption::Signal => Some(Transverse::StopLine),
        TrafficInterruption::Yield => Some(Transverse::YieldLine),
        _ => None,
    }
}

/// The stop or yield lines across the lanes going `dir`: one for each run of adjacent lanes for
/// moving vehicles going that way, as (first lane, one past the last lane, kind of line).
pub open spec fn spec_stop_groups(
    lanes: Seq<LaneSpecView>,
    dir: Direction,
    interruption: TrafficInterruption,
) -> Seq<(usize, usize, Transverse)> {
    match line_for(interruption) {
        Some(kind) => stop_runs(lanes, dir, lanes.len() as int).map_values(
            |p: (usize, usize)| (p.0, p.1, kind),
        ),
        None => Seq::empty(),
    }
}

/// Where the lane before `n` stops at the line, the last run ends there.
proof fn lemma_stop_runs_last(lanes: Seq<LaneSpecView>, dir: Direction, n: int)
    requires
        1 <= n <= lanes.len(),
        n <= usize::MAX,
        stops_at_line(lanes[n - 1], dir),
    ensures
        stop_runs(lanes, dir, n).len() > 0,
        stop_runs(lanes, dir, n).last().1 == n,
    decreases n,
{
    if n >= 2 && stops_at_line(lanes[n - 2], dir) {
        lemma_stop_runs_last(lanes, dir, n - 1);
    }
}

/// The stop or yield lines across the lanes going `dir` at an end whose traffic is interrupted
/// as `interruption` says, as `spec_stop_groups` says. Where the lines go along the road is
/// geometry, left to the caller.
pub fn stop_line_groups(lanes: &Vec<LaneSpec>, dir: Direction, interruption: TrafficInterruption) -> (r: Vec<
    (usize, usize, Transverse),
>)
    ensures
        r@ == spec_stop_groups(lanes_view(lanes@), dir, interruption),
{
    let ghost lv = lanes_view(lanes@);
    let kind = match interruption {
        TrafficInterruption::Stop | TrafficInterruption::Signal => Transverse::StopLine,
        TrafficInterruption::Yield => Transverse::YieldLine,
        _ => {
            return Vec::new();
        },
    };
    let mut runs: Vec<(usize, usize)> = Vec::new();
    let n = lanes.len();
    let mut k: usize = 0;
    while k < n
        invariant
            lv == lanes_view(lanes@),
            n == lv.len(),
            k <= n,
            runs@ == stop_runs(lv, dir, k as int),
        decreases n - k,
    {
        proof {
            assert(lv[k as int] == lanes@[k as int]@);
            if k > 0 {
                assert(lv[k - 1] == lanes@[k - 1]@);
            }
        }
        let here = lanes[k].lt.is_for_moving_vehicles() && lanes[k].dir == dir;
        if here {
            let before = k > 0 && lanes[k - 1].lt.is_for_moving_vehicles() && lanes[k - 1].dir == dir;
            if before {
                proof {
                    lemma_stop_runs_last(lv, dir, k as int);
                }
                let last = runs.len() - 1;
                let start = runs[last].0;
                runs.set(last, (start, k + 1));
            } else {
                runs.push((k, k + 1));
            }
        }
        k = k + 1;
    }
    let mut r: Vec<(usize, usize, Transverse)> = Vec::new();
    let mut j: usize = 0;
    while j < runs.len()
        invariant
            j <= runs@.len(),
            r@ == runs@.take(j as int).map_values(|p: (usize, usize)| (p.0, p.1, kind)),
        decreases runs@.len() - j,
    {
        r.push((runs[j].0, runs[j].1, kind));
        proof {
            assert(runs@.take(j + 1) =~= runs@.take(j as int).push(runs@[j as int]));
            assert(r@ =~= runs@.take(j + 1).map_values(|p: (usize, usize)| (p.0, p.1, kind)));
        }
        j = j + 1;
    }
    proof {
        assert(runs@.take(runs@.len() as int) =~= runs@);
        assert(line_for(interruption) == Some(kind));
    }
    r
}


/// The indices among the first `n` lanes of those for moving vehicles: arrows are painted along
/// each of them, pointing the way the lane runs.
pub open spec fn arrow_lanes_upto(lanes: Seq<LaneSpecView>, n: int) -> Seq<usize>
    decreases n,
{
    if n <= 0 {
        Seq::empty()
    } else if spec_is_for_moving_vehicles(lanes[n - 1].lt) {
        arrow_lanes_upto(lanes, n - 1).push((n - 1) as usize)
    } else {
        arrow_lanes_upto(lanes, n - 1)
    }
}

/// Whether a lane is a buffer that is painted as an area no traffic may use.
pub open spec fn is_painted_buffer(lt: LaneType) -> bool {
    lt == LaneType::Buffer(BufferType::FlexPosts) || lt == LaneType::Buffer(BufferType::JerseyBarrier)
        || lt == LaneType::Buffer(BufferType::Stripes)
}

/// The indices among the first `n` lanes of the painted buffers.
pub open spec fn painted_buffers_upto(lanes: Seq<LaneSpecView>, n: int) -> Seq<usize>
    decreases n,
{
    if n <= 0 {
        Seq::empty()
    } else if is_painted_buffer(lanes[n - 1].lt) {
        painted_buffers_upto(lanes, n - 1).push((n - 1) as usize)
    } else {
        painted_buffers_upto(lanes, n - 1)
    }
}

/// The lanes of `road` that get arrows along them, left to right: those for moving vehicles.
/// Where the arrows stand along a lane is geometry, left to the caller.
pub fn arrow_lanes(road: &Road) -> (r: Vec<usize>)
    ensures
        r@ == arrow_lanes_upto(road_lanes(*road), road_lanes(*road).len() as int),
{
    let ghost lanes = road_lanes(*road);
    let mut r: Vec<usize> = Vec::new();
    let mut k: usize = 0;
    while k < road.lane_specs_ltr.len()
        invariant
            lanes == road_lanes(*road),
            k <= lanes.len(),
            r@ == arrow_lanes_upto(lanes, k as int),
        decreases lanes.len() - k,
    {
        assert(lanes[k as int] == road.lane_specs_ltr@[k as int]@);
        if road.lane_specs_ltr[k].lt.is_for_moving_vehicles() {
            r.push(k);
        }
        k = k + 1;
    }
    r
}

/// The lanes of `road` painted as areas no traffic may use, left to right: buffers of flex
/// posts, Jersey barriers or stripes. The area a lane covers is geometry, left to the caller.
pub fn painted_buffer_lanes(road: &Road) -> (r: Vec<usize>)
    ensures
        r@ == painted_buffers_upto(road_lanes(*road), road_lanes(*road).len() as int),
{
    let ghost lanes = road_lanes(*road);
    let mut r: Vec<usize> = Vec::new();
    let mut k: usize = 0;
    while k < road.lane_specs_ltr.len()
        invariant
            lanes == road_lanes(*road),
            k <= lanes.len(),
            r@ == painted_buffers_upto(lanes, k as int),
        decreases lanes.len() - k,
    {
        assert(lanes[k as int] == road.lane_specs_ltr@[k as int]@);
        let lt = road.lane_specs_ltr[k].lt;
        if lt == LaneType::Buffer(BufferType::FlexPosts) || lt == LaneType::Buffer(BufferType::JerseyBarrier)
            || lt == LaneType::Buffer(BufferType::Stripes) {
            r.push(k);
        }
        k = k + 1;
    }
    r
}

} // verus!

//! Roads as pairs of one-way halves, and the intersections that join them.
use vstd::prelude::*;

use crate::lanes::{Direction, LaneSpec, LaneType, LaneWidth, LaneWidthView};
use crate::road_parts::{spec_part_of_lane, Designation, RoadEdge, RoadPart};
use crate::types::DrivingSide;

verus! {

/// A crossing of a road, as the part of the road that people walk along.
pub struct CrossWay(pub RoadPart);

impl CrossWay {
    /// A crossing without markings: a two metre wide footpath.
    pub fn unmarked() -> (r: CrossWay)
        ensures
            r.0.designation == crate::road_parts::travel(
                crate::road_parts::Carriage::Foot,
                crate::road_parts::TrafficDirections::BothWays,
            ),
            r.0.width@ == LaneWidthView::Exact(2_000_000),
            r.0.can_enter_from_inside,
            r.0.can_enter_from_outside,
    {
        let foot = RoadPart::path();
        CrossWay(RoadPart { width: LaneWidth::Exact(2_000_000), ..foot })
    }
}

/// What a road part stands for.
pub open spec fn part_view(p: RoadPart) -> (Designation, LaneWidthView, bool, bool) {
    (p.designation, p.width@, p.can_enter_from_inside, p.can_enter_from_outside)
}

/// A collection of Lanes, travelling in the same direction. A "half street" if you will.
#[derive(Clone, Debug)]
pub struct RoadWay {
    /// Lanes, inside (fast lane) out (slow lanes, footpaths). Directions is almost always
    /// forward.
    pub elements: Vec<RoadPart>,
    /// How this roadway transitions into the adjacent area on the inside.
    pub inner: RoadEdge,
    /// How this roadway transitions into the adjacent area on the outside.
    pub outer: RoadEdge,
}

pub open spec fn is_travel_part(p: RoadPart) -> bool {
    p.designation != Designation::NoTravel
}

impl RoadWay {
    /// The parts that carry traffic, in order.
    pub fn lanes(&self) -> (r: Vec<&RoadPart>)
        ensures
            r@.map_values(|p: &RoadPart| *p) == self.elements@.filter(|p: RoadPart| is_travel_part(p)),
    {
        let mut r: Vec<&RoadPart> = Vec::new();
        let mut i: usize = 0;
        while i < self.elements.len()
            invariant
                i <= self.elements@.len(),
                r@.map_values(|p: &RoadPart| *p) == self.elements@.take(i as int).filter(
                    |p: RoadPart| is_travel_part(p),
                ),
            decreases self.elements@.len() - i,
        {
            let ghost prev = r@.map_values(|p: &RoadPart| *p);
            let el = &self.elements[i];
            proof {
                reveal(Seq::filter);
                assert(self.elements@.take(i + 1).drop_last() =~= self.elements@.take(i as int));
            }
            if el.designation != Designation::NoTravel {
                r.push(el);
                assert(r@.map_values(|p: &RoadPart| *p) =~= prev.push(*el));
            }
            i = i + 1;
        }
        assert(self.elements@.take(self.elements@.len() as int) =~= self.elements@);
        r
    }

    /// Forbids entering the innermost part from the inside. (The argument is not consulted.)
    fn set_overtaking(self, overtaking: bool) -> (r: RoadWay)
        ensures
            r.inner == self.inner,
            r.outer == self.outer,
            r.elements@.len() == self.elements@.len(),
            forall|i: int|
                0 < i < r.elements@.len() ==> part_view(#[trigger] r.elements@[i]) == part_view(
                    self.elements@[i],
                ),
            r.elements@.len() > 0 ==> {
                let (d, w, _, o) = part_view(self.elements@[0]);
                part_view(r.elements@[0]) == (d, w, false, o)
            },
    {
        let mut s = self;
        if s.elements.len() > 0 {
            let mut l = s.elements.remove(0);
            l.can_enter_from_inside = false;
            s.elements.insert(0, l);
        }
        s
    }

    pub fn track() -> (r: RoadWay)
        ensures
            r.inner == RoadEdge::Sudden,
            r.outer == RoadEdge::Sudden,
            r.elements@.len() == 1,
            part_view(r.elements@[0]) == (
                crate::road_parts::travel(
                    crate::road_parts::Carriage::Cars,
                    crate::road_parts::TrafficDirections::BothWays,
                ),
                LaneWidthView::Exact(4_000_000),
                true,
                true,
            ),
    {
        RoadWay { inner: RoadEdge::Sudden, elements: vec![RoadPart::track()], outer: RoadEdge::Sudden }
    }

    pub fn rural() -> (r: RoadWay)
        ensures
            r.inner == RoadEdge::Join,
            r.outer == RoadEdge::Sudden,
            r.elements@.len() == 1,
            part_view(r.elements@[0]) == (
                crate::road_parts::travel(
                    crate::road_parts::Carriage::Cars,
                    crate::road_parts::TrafficDirections::Forward,
                ),
                LaneWidthView::Exact(3_500_000),
                true,
                true,
            ),
    {
        RoadWay { inner: RoadEdge::Join, elements: vec![RoadPart::lane()], outer: RoadEdge::Sudden }
    }

    /// A car lane, a verge and a footpath, with a barrier outside.
    pub fn local() -> (r: RoadWay)
        ensures
            r.inner == RoadEdge::Join,
            r.outer == RoadEdge::Barrier,
            r.elements@.len() == 3,
            part_view(r.elements@[0]) == (
                crate::road_parts::travel(
                    crate::road_parts::Carriage::Cars,
                    crate::road_parts::TrafficDirections::Forward,
                ),
                LaneWidthView::Exact(3_500_000),
                true,
                true,
            ),
            part_view(r.elements@[1]) == (Designation::NoTravel, LaneWidthView::Exact(3_000_000), false, false),
            part_view(r.elements@[2]) == (
                crate::road_parts::travel(
                    crate::road_parts::Carriage::Foot,
                    crate::road_parts::TrafficDirections::BothWays,
                ),
                LaneWidthView::Exact(1_500_000),
                true,
                true,
            ),
    {
        RoadWay {
            inner: RoadEdge::Join,
            elements: vec![RoadPart::lane(), RoadPart::verge(), RoadPart::path()],
            outer: RoadEdge::Barrier,
        }
    }

    /// As `local`, but the car lane cannot be entered from the inside.
    pub fn arterial() -> (r: RoadWay)
        ensures
            r.inner == RoadEdge::Join,
            r.outer == RoadEdge::Barrier,
            r.elements@.len() == 3,
            part_view(r.elements@[0]) == (
                crate::road_parts::travel(
                    crate::road_parts::Carriage::Cars,
                    crate::road_parts::TrafficDirections::Forward,
                ),
                LaneWidthView::Exact(3_500_000),
                false,
                true,
            ),
            part_view(r.elements@[1]) == (Designation::NoTravel, LaneWidthView::Exact(3_000_000), false, false),
            part_view(r.elements@[2]) == (
                crate::road_parts::travel(
                    crate::road_parts::Carriage::Foot,
                    crate::road_parts::TrafficDirections::BothWays,
                ),
                LaneWidthView::Exact(1_500_000),
                true,
                true,
            ),
    {
        RoadWay {
            inner: RoadEdge::Join,
            elements: vec![RoadPart::lane(), RoadPart::verge(), RoadPart::path()],
            outer: RoadEdge::Barrier,
        }.set_overtaking(false)
    }
}

/// Intersections are the joints of the road network, they join two or more RoadWays.
#[derive(Clone, Copy, Debug, PartialEq, Eq, Structural)]
pub enum IntersectionType {
    /// An intersection that is missing some connected roads or data (e.g. at the edge of the map).
    Unknown,
    /// The edge of the data that we have.
    MapEdge,
    /// Turning circles, road end signs, train terminus thingos, edge of the map?
    Terminus,
    /// A slice where conditions change, but no yielding.
    Slice,
    /// A perpendicular line across a road, where conditions change.
    Crossing,
    /// One or more "minor" roads merge into (yielding) or out of a "major" road.
    Merge,
    /// An area of the road where priority is shared over time, by lights, negotiation and
    /// priority, etc.
    RoadIntersection,
}

#[derive(Clone, Copy, Debug, PartialEq, Eq, Structural)]
pub enum ControlType {
    Lights,
    Signed,
    Uncontrolled,
}

#[derive(Clone, Copy, Debug, PartialEq, Eq, Structural)]
pub struct Intersection {
    pub t: IntersectionType,
    pub control: ControlType,
}

impl Intersection {
    pub fn default() -> (r: Intersection)
        ensures
            r == (Intersection { t: IntersectionType::Unknown, control: ControlType::Uncontrolled }),
    {
        Intersection { t: IntersectionType::Unknown, control: ControlType::Uncontrolled }
    }

    pub fn slice() -> (r: Intersection)
        ensures
            r == (Intersection { t: IntersectionType::Slice, control: ControlType::Uncontrolled }),
    {
        Intersection { t: IntersectionType::Slice, control: ControlType::Uncontrolled }
    }

    pub fn merge() -> (r: Intersection)
        ensures
            r == (Intersection { t: IntersectionType::Merge, control: ControlType::Uncontrolled }),
    {
        Intersection { t: IntersectionType::Merge, control: ControlType::Uncontrolled }
    }

    pub fn intersection() -> (r: Intersection)
        ensures
            r == (Intersection {
                t: IntersectionType::RoadIntersection,
                control: ControlType::Uncontrolled,
            }),
    {
        Intersection { t: IntersectionType::RoadIntersection, control: ControlType::Uncontrolled }
    }

    pub fn turning_circle() -> (r: Intersection)
        ensures
            r == (Intersection { t: IntersectionType::Terminus, control: ControlType::Uncontrolled }),
    {
        Intersection { t: IntersectionType::Terminus, control: ControlType::Uncontrolled }
    }
}

// ------------------------------------------------------------------------------------------
// Splitting a road into its two halves

/// The direction of the traffic on the right half of a road.
pub open spec fn dir_on_right(side: DrivingSide) -> Direction {
    match side {
        DrivingSide::Right => Direction::Fwd,
        DrivingSide::Left => Direction::Back,
    }
}

/// Whether a lane is the first one of the right half: a lane for cars or buses running the
/// way of the right half.
pub open spec fn starts_right_half(l: LaneSpec, side: DrivingSide) -> bool {
    (l.lt == LaneType::Driving || l.lt == LaneType::Bus) && l.dir == dir_on_right(side)
}

/// The number of lanes, left to right, before the right half starts.
pub open spec fn left_half_len(s: Seq<LaneSpec>, side: DrivingSide) -> nat
    decreases s.len(),
{
    if s.len() == 0 {
        0
    } else if starts_right_half(s[0], side) {
        0
    } else {
        1 + left_half_len(s.drop_first(), side)
    }
}

proof fn lemma_left_half_len(s: Seq<LaneSpec>, side: DrivingSide, i: int)
    requires
        0 <= i <= s.len(),
        forall|j: int| 0 <= j < i ==> !starts_right_half(#[trigger] s[j], side),
    ensures
        i < s.len() && starts_right_half(s[i], side) ==> left_half_len(s, side) == i,
        i == s.len() ==> left_half_len(s, side) == i,
    decreases i,
{
    if i > 0 {
        assert forall|j: int| 0 <= j < i - 1 implies !starts_right_half(
            #[trigger] s.drop_first()[j],
            side,
        ) by {
            assert(s.drop_first()[j] == s[j + 1]);
        }
        lemma_left_half_len(s.drop_first(), side, i - 1);
    }
}

/// A one-way half of a road with the given parts, or none where there are no parts.
pub open spec fn half_matches(
    w: Option<RoadWay>,
    parts: Seq<LaneSpec>,
    other_half_present: bool,
) -> bool {
    match w {
        Some(w) => parts.len() > 0 && w.inner == (if other_half_present {
            RoadEdge::Join
        } else {
            RoadEdge::Sudden
        }) && w.outer == RoadEdge::Sudden && w.elements@.map_values(|p: RoadPart| part_view(p))
            == parts.map_values(|l: LaneSpec| spec_part_of_lane(l)),
        None => parts.len() == 0,
    }
}

fn parts_of(lanes: &[LaneSpec], from: usize, to: usize) -> (r: Vec<RoadPart>)
    requires
        from <= to <= lanes@.len(),
    ensures
        r@.len() == to - from,
        r@.map_values(|p: RoadPart| part_view(p)) == lanes@.subrange(from as int, to as int).map_values(
            |l: LaneSpec| spec_part_of_lane(l),
        ),
{
    let mut r: Vec<RoadPart> = Vec::new();
    let mut i = from;
    while i < to
        invariant
            from <= i <= to <= lanes@.len(),
            r@.len() == i - from,
            r@.map_values(|p: RoadPart| part_view(p)) == lanes@.subrange(from as int, i as int).map_values(
                |l: LaneSpec| spec_part_of_lane(l),
            ),
        decreases to - i,
    {
        let ghost prev = r@.map_values(|p: RoadPart| part_view(p));
        let p = RoadPart::from_lane(&lanes[i]);
        r.push(p);
        assert(r@.map_values(|p: RoadPart| part_view(p)) =~= prev.push(part_view(p)));
        assert(lanes@.subrange(from as int, i + 1).map_values(|l: LaneSpec| spec_part_of_lane(l))
            =~= lanes@.subrange(from as int, i as int).map_values(
            |l: LaneSpec| spec_part_of_lane(l),
        ).push(spec_part_of_lane(lanes@[i as int])));
        i = i + 1;
    }
    r
}

fn half(parts: Vec<RoadPart>, other_half_present: bool) -> (r: Option<RoadWay>)
    ensures
        match r {
            Some(w) => parts@.len() > 0 && w.inner == (if other_half_present {
                RoadEdge::Join
            } else {
                RoadEdge::Sudden
            }) && w.outer == RoadEdge::Sudden && w.elements@ == parts@,
            None => parts@.len() == 0,
        },
{
    if parts.len() > 0 {
        Some(
            RoadWay {
                inner: if other_half_present {
                    RoadEdge::Join
                } else {
                    RoadEdge::Sudden
                },
                elements: parts,
                outer: RoadEdge::Sudden,
            },
        )
    } else {
        None
    }
}

impl RoadWay {
    /// Splits a road, given by its lanes left to right, into its forward and backward halves.
    /// The left half runs up to the first car or bus lane going the way of the right half.
    pub fn pair_from(lanes: &[LaneSpec], driving_side: DrivingSide) -> (r: (
        Option<RoadWay>,
        Option<RoadWay>,
    ))
        ensures
            ({
                let k = left_half_len(lanes@, driving_side) as int;
                let left = lanes@.take(k);
                let right = lanes@.skip(k);
                let (fwd_half, back_half) = match driving_side {
                    DrivingSide::Right => (right, left),
                    DrivingSide::Left => (left, right),
                };
                half_matches(r.0, fwd_half, back_half.len() > 0) && half_matches(
                    r.1,
                    back_half,
                    fwd_half.len() > 0,
                )
            }),
    {
        let n = lanes.len();
        let on_right = match driving_side {
            DrivingSide::Right => Direction::Fwd,
            DrivingSide::Left => Direction::Back,
        };
        let mut k: usize = 0;
        while k < n && !((lanes[k].lt == LaneType::Driving || lanes[k].lt == LaneType::Bus)
            && lanes[k].dir == on_right)
            invariant
                n == lanes@.len(),
                k <= n,
                on_right == dir_on_right(driving_side),
                forall|j: int| 0 <= j < k ==> !starts_right_half(#[trigger] lanes@[j], driving_side),
            decreases n - k,
        {
            k = k + 1;
        }
        proof {
            lemma_left_half_len(lanes@, driving_side, k as int);
        }
        let left_parts = parts_of(lanes, 0, k);
        let right_parts = parts_of(lanes, k, n);
        assert(lanes@.subrange(0, k as int) =~= lanes@.take(k as int));
        assert(lanes@.subrange(k as int, n as int) =~= lanes@.skip(k as int));
        let has_left = k > 0;
        let has_right = k < n;
        assert(lanes@.take(k as int).len() == k);
        assert(lanes@.skip(k as int).len() == n - k);
        assert(left_parts@.len() == k);
        assert(right_parts@.len() == n - k);
        match driving_side {
            DrivingSide::Right => {
                let f = half(right_parts, has_left);
                let b = half(left_parts, has_right);
                (f, b)
            },
            DrivingSide::Left => {
                let f = half(left_parts, has_right);
                let b = half(right_parts, has_left);
                (f, b)
            },
        }
    }
}

} // verus!

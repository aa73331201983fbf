//! Which lane of one road leads into which lane of another, where a movement passes between
//! them.
use vstd::prelude::*;

use crate::ids::{LaneID, RoadID};
use crate::lanes::{
    spec_direction_from, spec_direction_towards, spec_is_tagged_by_lanes_suffix, spec_lane_num,
    spec_lane_num_direction, Direction, LaneSpecView, LtrLaneNum, Placement,
    RoadEnd, RoadPosition,
};
use crate::road::{road_lanes, Road};
use crate::types::DrivingSide;

verus! {

/// A movement from a lane of one road into a lane of another. The path it takes across the
/// intersection is geometry, left to the caller.
#[derive(Clone, Copy, Debug, PartialEq, Eq, Structural)]
pub struct TurnMovement {
    pub from: LaneID,
    pub to: LaneID,
}

/// The indices of the lanes before `n` that go in direction `dir` and are counted by `:lanes`
/// tags, left to right.
pub open spec fn lane_indices(lanes: Seq<LaneSpecView>, dir: Direction, n: int) -> Seq<usize>
    decreases n,
{
    if n <= 0 {
        Seq::empty()
    } else if spec_is_tagged_by_lanes_suffix(lanes[n - 1].lt) && lanes[n - 1].dir == dir {
        lane_indices(lanes, dir, n - 1).push((n - 1) as usize)
    } else {
        lane_indices(lanes, dir, n - 1)
    }
}

/// The lanes of road `r` going in direction `dir`, left to right as seen facing that way.
pub open spec fn lanes_facing(r: Road, dir: Direction) -> Seq<usize> {
    let l = lane_indices(road_lanes(r), dir, road_lanes(r).len() as int);
    if dir == Direction::Fwd {
        l
    } else {
        l.reverse()
    }
}

/// `x` clamped to `0..len`.
pub open spec fn clamped(x: int, len: int) -> int {
    if x < 0 {
        0
    } else if x < len - 1 {
        x
    } else {
        len - 1
    }
}

/// The number of movements when the lanes of two lists are paired up, the first list being
/// `offset` lanes ahead.
pub open spec fn pair_count(src_len: int, dst_len: int, offset: int) -> int {
    let a = if offset > 0 { offset } else { 0 };
    let b = if offset < 0 { -offset } else { 0 };
    if src_len + b > dst_len + a {
        src_len + b
    } else {
        dst_len + a
    }
}

/// The lanes of `src` paired with those of `dst` in order, where the first `offset` lanes of
/// `src` (or the first `-offset` of `dst`) all meet the first lane of the other, and a list
/// that runs out of lanes keeps pairing its last one.
pub open spec fn paired(src: Seq<usize>, dst: Seq<usize>, offset: int) -> Seq<(usize, usize)> {
    let a = if offset > 0 { offset } else { 0 };
    let b = if offset < 0 { -offset } else { 0 };
    Seq::new(
        pair_count(src.len() as int, dst.len() as int, offset) as nat,
        |k: int| (src[clamped(k - b, src.len() as int)], dst[clamped(k - a, dst.len() as int)]),
    )
}

/// The movements from road `s` into road `d` for lane index pairs `p`.
pub open spec fn movements_of(s: RoadID, d: RoadID, p: Seq<(usize, usize)>) -> Seq<TurnMovement> {
    p.map_values(
        |x: (usize, usize)|
            TurnMovement { from: LaneID { road: s, index: x.0 }, to: LaneID { road: d, index: x.1 } },
    )
}

/// The movements out of lane `src_lane` of `src_road` at `src_end` into lane `dst_lane` of
/// `dst_road` at `dst_end`, the lanes of each side paired up in order so that those two meet.
/// Nothing, where the lanes do not point that way.
pub open spec fn spec_with_matched_lanes(
    src_road: Road,
    src_end: RoadEnd,
    src_lane: LtrLaneNum,
    dst_road: Road,
    dst_end: RoadEnd,
    dst_lane: LtrLaneNum,
) -> Option<Seq<TurnMovement>> {
    let s = lanes_facing(src_road, spec_direction_towards(src_end));
    let d = lanes_facing(dst_road, spec_direction_from(dst_end));
    if spec_direction_towards(src_end) != spec_lane_num_direction(src_lane) || spec_direction_from(
        dst_end,
    ) != spec_lane_num_direction(dst_lane) {
        None
    } else if s.len() == 0 || d.len() == 0 {
        Some(Seq::empty())
    } else {
        Some(
            movements_of(
                src_road.id,
                dst_road.id,
                paired(s, d, spec_lane_num(src_lane) - spec_lane_num(dst_lane)),
            ),
        )
    }
}

/// The lanes can be paired without running past the end of a list: the lane the pairing
/// starts from lies within its list.
pub open spec fn matched_lanes_fit(
    src_road: Road,
    src_end: RoadEnd,
    src_lane: LtrLaneNum,
    dst_road: Road,
    dst_end: RoadEnd,
    dst_lane: LtrLaneNum,
) -> bool {
    let s = lanes_facing(src_road, spec_direction_towards(src_end));
    let d = lanes_facing(dst_road, spec_direction_from(dst_end));
    let o = spec_lane_num(src_lane) - spec_lane_num(dst_lane);
    &&& spec_lane_num(src_lane) <= isize::MAX
    &&& spec_lane_num(dst_lane) <= isize::MAX
    &&& (s.len() > 0 && d.len() > 0 && spec_direction_towards(src_end) == spec_lane_num_direction(
        src_lane,
    ) && spec_direction_from(dst_end) == spec_lane_num_direction(dst_lane)) ==> (o < s.len() && -o
        < d.len())
}

/// The lanes of `road` going in direction `dir` and counted by `:lanes` tags, left to right
/// as seen facing that way.
fn driving_lanes(road: &Road, dir: Direction) -> (r: Vec<usize>)
    ensures
        r@ == lanes_facing(*road, dir),
{
    let ghost lanes = road_lanes(*road);
    let mut l: Vec<usize> = Vec::new();
    let mut k: usize = 0;
    while k < road.lane_specs_ltr.len()
        invariant
            lanes == road_lanes(*road),
            lanes.len() == road.lane_specs_ltr@.len(),
            k <= lanes.len(),
            l@ == lane_indices(lanes, dir, k as int),
        decreases lanes.len() - k,
    {
        proof {
            assert(lanes[k as int] == road.lane_specs_ltr@[k as int]@);
        }
        if road.lane_specs_ltr[k].lt.is_tagged_by_lanes_suffix() && road.lane_specs_ltr[k].dir == dir {
            l.push(k);
        }
        k = k + 1;
    }
    match dir {
        Direction::Fwd => l,
        Direction::Back => {
            let ghost orig = l@;
            let mut r: Vec<usize> = Vec::new();
            while l.len() > 0
                invariant
                    l@ == orig.take(l@.len() as int),
                    l@.len() <= orig.len(),
                    r@ == orig.skip(l@.len() as int).reverse(),
                decreases l@.len(),
            {
                let ghost n: int = l@.len() as int;
                let x = l.pop().unwrap();
                proof {
                    assert(orig.take(n)[n - 1] == orig[n - 1]);
                    assert(l@ =~= orig.take(n - 1));
                }
                r.push(x);
                proof {
                    assert(orig.skip(n - 1).reverse() =~= orig.skip(n).reverse().push(orig[n - 1]));
                }
            }
            proof {
                assert(orig.skip(0) =~= orig);
            }
            r
        },
    }
}

/// Pairs up the lanes of `src` and `dst`, the first being `ahead_s` lanes ahead or the second
/// `ahead_d`, as `paired` says.
fn pair_lanes(src: &Vec<usize>, dst: &Vec<usize>, ahead_s: usize, ahead_d: usize, s_road: RoadID, d_road: RoadID) -> (r:
    Vec<TurnMovement>)
    requires
        src@.len() > 0,
        dst@.len() > 0,
        ahead_s == 0 || ahead_d == 0,
        ahead_s < src@.len(),
        ahead_d < dst@.len(),
    ensures
        r@ == movements_of(s_road, d_road, paired(src@, dst@, ahead_s - ahead_d)),
{
    let ghost o: int = ahead_s - ahead_d;
    let ghost a: int = ahead_s as int;
    let ghost b: int = ahead_d as int;
    let ghost ls: int = src@.len() as int;
    let ghost ld: int = dst@.len() as int;
    let ghost n: int = pair_count(ls, ld, o);
    let ghost target = movements_of(s_road, d_road, paired(src@, dst@, o));
    let mut result: Vec<TurnMovement> = Vec::new();
    let mut si: usize = 0;
    let mut di: usize = 0;
    let mut rest_s: usize = ahead_s;
    let mut rest_d: usize = ahead_d;
    let src_len = src.len();
    let dst_len = dst.len();
    loop
        invariant_except_break
            result@.len() < n,
        invariant
            o == ahead_s - ahead_d,
            a == ahead_s,
            b == ahead_d,
            ls == src@.len(),
            ld == dst@.len(),
            src_len == ls,
            dst_len == ld,
            ls > 0,
            ld > 0,
            a == 0 || b == 0,
            a < ls,
            b < ld,
            n == pair_count(ls, ld, o),
            target == movements_of(s_road, d_road, paired(src@, dst@, o)),
            target.len() == n,
            result@.len() <= n,
            forall|j: int| 0 <= j < result@.len() ==> #[trigger] result@[j] == target[j],
            si == clamped(result@.len() - b, ls),
            di == clamped(result@.len() - a, ld),
            rest_s == (if a > result@.len() { a - result@.len() } else { 0 }),
            rest_d == (if b > result@.len() { b - result@.len() } else { 0 }),
        ensures
            result@.len() == n,
            forall|j: int| 0 <= j < result@.len() ==> #[trigger] result@[j] == target[j],
        decreases n - result@.len(),
    {
        let ghost k: int = result@.len() as int;
        proof {
            assert(0 <= si < ls);
            assert(0 <= di < ld);
        }
        result.push(
            TurnMovement {
                from: LaneID { road: s_road, index: src[si] },
                to: LaneID { road: d_road, index: dst[di] },
            },
        );
        proof {
            assert(result@[k] == target[k]);
        }
        if rest_s > 0 {
            si = si + 1;
            rest_s = rest_s - 1;
        } else if rest_d > 0 {
            di = di + 1;
            rest_d = rest_d - 1;
        } else {
            let mut advanced = false;
            if si + 1 < src_len {
                si = si + 1;
                advanced = true;
            }
            if di + 1 < dst_len {
                di = di + 1;
                advanced = true;
            }
            if !advanced {
                break;
            }
        }
    }
    proof {
        assert(result@ =~= target);
    }
    result
}

/// Generates the movements out of lane `src_lane` of `src_road` at `src_end` into lane
/// `dst_lane` of `dst_road` at `dst_end`, as `spec_with_matched_lanes` says: the lanes are
/// paired up in order, so that those two meet, and lanes left over fork from or merge into
/// their closest partner.
pub fn with_matched_lanes(
    src: (&Road, RoadEnd, LtrLaneNum),
    dst: (&Road, RoadEnd, LtrLaneNum),
) -> (r: Option<Vec<TurnMovement>>)
    requires
        matched_lanes_fit(*src.0, src.1, src.2, *dst.0, dst.1, dst.2),
    ensures
        match r {
            Some(v) => spec_with_matched_lanes(*src.0, src.1, src.2, *dst.0, dst.1, dst.2) == Some(
                v@,
            ),
            None => spec_with_matched_lanes(*src.0, src.1, src.2, *dst.0, dst.1, dst.2) is None,
        },
{
    let (src_road, src_end, src_lane) = src;
    let (dst_road, dst_end, dst_lane) = dst;
    if src_end.direction_towards() != src_lane.direction() || dst_end.direction_from()
        != dst_lane.direction() {
        return None;
    }
    let src_lanes = driving_lanes(src_road, src_end.direction_towards());
    let dst_lanes = driving_lanes(dst_road, dst_end.direction_from());
    if src_lanes.len() == 0 || dst_lanes.len() == 0 {
        return Some(Vec::new());
    }
    let s = src_lane.number();
    let d = dst_lane.number();
    let (ahead_s, ahead_d) = if s >= d {
        (s - d, 0)
    } else {
        (0, d - s)
    };
    Some(pair_lanes(&src_lanes, &dst_lanes, ahead_s, ahead_d, src_road.id, dst_road.id))
}

/// The position of the reference line of road `r` at end `e`.
pub open spec fn position_at(r: Road, e: RoadEnd) -> Option<RoadPosition> {
    match r.reference_line_placement {
        Placement::Consistent(p) => Some(p),
        Placement::Varying(s, t) => match e {
            RoadEnd::Start => Some(s),
            RoadEnd::End => Some(t),
        },
        Placement::Transition => None,
    }
}

/// The lane whose left edge is at position `p`, if `p` is an edge of a lane.
pub open spec fn lane_left_of(p: RoadPosition) -> Option<LtrLaneNum> {
    match p {
        RoadPosition::LeftOf(n) => Some(n),
        RoadPosition::RightOf(n) => Some(
            match n {
                LtrLaneNum::Forward(x) => LtrLaneNum::Forward((x + 1) as usize),
                LtrLaneNum::Backward(x) => LtrLaneNum::Backward((x + 1) as usize),
            },
        ),
        _ => None,
    }
}

/// The lane number of a `right_of` position can be counted one further.
pub open spec fn position_countable(p: Option<RoadPosition>) -> bool {
    p matches Some(RoadPosition::RightOf(n)) ==> spec_lane_num(n) < usize::MAX
}

/// The lanes that the reference lines of the two roads follow at the two ends, where they
/// follow lanes: the middle of a lane on both, or else the left edge of a lane on both.
pub open spec fn placement_lanes(
    src_road: Road,
    src_end: RoadEnd,
    dst_road: Road,
    dst_end: RoadEnd,
) -> Option<(LtrLaneNum, LtrLaneNum)> {
    match (position_at(src_road, src_end), position_at(dst_road, dst_end)) {
        (Some(RoadPosition::MiddleOf(a)), Some(RoadPosition::MiddleOf(b))) => Some((a, b)),
        (Some(p), Some(q)) => match (lane_left_of(p), lane_left_of(q)) {
            (Some(a), Some(b)) => Some((a, b)),
            _ => None,
        },
        _ => None,
    }
}

/// Generates the movements from `src_road` at `src_end` into `dst_road` at `dst_end`, pairing
/// the lanes so that those the two reference lines follow meet, as `with_matched_lanes` does.
/// Nothing where the reference lines do not follow lanes.
pub fn from_placement(src: (&Road, RoadEnd), dst: (&Road, RoadEnd)) -> (r: Option<Vec<TurnMovement>>)
    requires
        position_countable(position_at(*src.0, src.1)),
        position_countable(position_at(*dst.0, dst.1)),
        match placement_lanes(*src.0, src.1, *dst.0, dst.1) {
            Some((a, b)) => matched_lanes_fit(*src.0, src.1, a, *dst.0, dst.1, b),
            None => true,
        },
    ensures
        match placement_lanes(*src.0, src.1, *dst.0, dst.1) {
            Some((a, b)) => match r {
                Some(v) => spec_with_matched_lanes(*src.0, src.1, a, *dst.0, dst.1, b) == Some(v@),
                None => spec_with_matched_lanes(*src.0, src.1, a, *dst.0, dst.1, b) is None,
            },
            None => r is None,
        },
{
    let (src_road, src_end) = src;
    let (dst_road, dst_end) = dst;
    let src_pos = src_road.reference_line_placement.road_position_at(src_end);
    let dst_pos = dst_road.reference_line_placement.road_position_at(dst_end);
    if let (Some(RoadPosition::MiddleOf(src_lane)), Some(RoadPosition::MiddleOf(dst_lane))) = (
        src_pos,
        dst_pos,
    ) {
        return with_matched_lanes((src_road, src_end, src_lane), (dst_road, dst_end, dst_lane));
    }
    if let (Some(p), Some(q)) = (src_pos, dst_pos) {
        if let (Some(src_lane), Some(dst_lane)) = (p.left_of_lane(), q.left_of_lane()) {
            return with_matched_lanes(
                (src_road, src_end, src_lane),
                (dst_road, dst_end, dst_lane),
            );
        }
    }
    None
}

/// The movements from `src_road` at `src_end` into `dst_road` at `dst_end` by default: the
/// lanes of each side, ordered from the inside of the road out, are paired up in order, and a
/// side that runs out of lanes keeps its last one. Lanes going both ways are not considered.
pub open spec fn spec_default_movements(
    src_road: Road,
    src_end: RoadEnd,
    dst_road: Road,
    dst_end: RoadEnd,
    side: DrivingSide,
) -> Seq<TurnMovement> {
    let s = lanes_facing(src_road, spec_direction_towards(src_end));
    let d = lanes_facing(dst_road, spec_direction_from(dst_end));
    if s.len() == 0 || d.len() == 0 {
        Seq::empty()
    } else if side == DrivingSide::Left {
        movements_of(src_road.id, dst_road.id, paired(s.reverse(), d.reverse(), 0))
    } else {
        movements_of(src_road.id, dst_road.id, paired(s, d, 0))
    }
}

/// The list, last first.
fn reversed_list(v: &Vec<usize>) -> (r: Vec<usize>)
    ensures
        r@ == v@.reverse(),
{
    let mut r: Vec<usize> = Vec::new();
    let mut k: usize = v.len();
    while k > 0
        invariant
            k <= v@.len(),
            r@ == v@.skip(k as int).reverse(),
        decreases k,
    {
        k = k - 1;
        r.push(v[k]);
        proof {
            assert(v@.skip(k as int).reverse() =~= v@.skip(k + 1).reverse().push(v@[k as int]));
        }
    }
    proof {
        assert(v@.skip(0) =~= v@);
    }
    r
}

/// Generates the movements from `src_road` at `src_end` into `dst_road` at `dst_end` by
/// default, as `spec_default_movements` says.
pub fn default(src: (&Road, RoadEnd), dst: (&Road, RoadEnd), driving_side: DrivingSide) -> (r: Option<
    Vec<TurnMovement>,
>)
    ensures
        r matches Some(v) && v@ == spec_default_movements(*src.0, src.1, *dst.0, dst.1, driving_side),
{
    let (src_road, src_end) = src;
    let (dst_road, dst_end) = dst;
    let src_lanes = driving_lanes(src_road, src_end.direction_towards());
    let dst_lanes = driving_lanes(dst_road, dst_end.direction_from());
    if src_lanes.len() == 0 || dst_lanes.len() == 0 {
        return Some(Vec::new());
    }
    match driving_side {
        DrivingSide::Left => {
            let s = reversed_list(&src_lanes);
            let d = reversed_list(&dst_lanes);
            Some(pair_lanes(&s, &d, 0, 0, src_road.id, dst_road.id))
        },
        DrivingSide::Right => Some(pair_lanes(&src_lanes, &dst_lanes, 0, 0, src_road.id, dst_road.id)),
    }
}

} // verus!

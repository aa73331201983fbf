//! Where a position across a road lies, measured from the road's left edge.
//!
//! Widths are whole micrometres; an offset can fall halfway between two of them, so offsets are
//! given in half-micrometres.
use vstd::prelude::*;

use crate::lanes::{
    spec_is_roadway, spec_is_tagged_by_lanes_suffix, spec_lane_num, spec_lane_num_direction,
    Direction, LaneSpecView, LaneType, LaneWidthView, LtrLaneNum, RoadPosition, Distance,
};
use crate::road::{road_lanes, Road};
use crate::types::DrivingSide;

verus! {

/// The sum of the first `n` widths.
pub open spec fn width_sum(w: Seq<Distance>, n: int) -> int
    decreases n,
{
    if n <= 0 {
        0
    } else {
        width_sum(w, n - 1) + w[n - 1]
    }
}

/// After the first `n` lanes: the width of the lanes left of the first roadway lane, of the
/// roadway lanes and what lies between them, and of what follows the last roadway lane.
pub open spec fn center_scan(lanes: Seq<LaneSpecView>, w: Seq<Distance>, n: int) -> (int, int, int)
    decreases n,
{
    if n <= 0 {
        (0, 0, 0)
    } else {
        let (l, rw, rb) = center_scan(lanes, w, n - 1);
        if !spec_is_roadway(lanes[n - 1].lt) {
            if rw == 0 {
                (l + w[n - 1], rw, rb)
            } else {
                (l, rw, rb + w[n - 1])
            }
        } else {
            (l, rw + rb + w[n - 1], 0)
        }
    }
}

/// After the first `n` lanes, looking for where traffic changes direction: whether a lane of
/// the left-hand direction was seen, the width since the last lane with a direction, the width
/// so far, and the offset found (in half-micrometres), if any.
pub open spec fn separation_scan(
    lanes: Seq<LaneSpecView>,
    w: Seq<Distance>,
    left_dir: Direction,
    n: int,
) -> (bool, int, int, Option<int>)
    decreases n,
{
    if n <= 0 {
        (false, 0, 0, None)
    } else {
        let (f, m, d, r) = separation_scan(lanes, w, left_dir, n - 1);
        if r is Some {
            (f, m, d, r)
        } else if lanes[n - 1].lt == LaneType::SharedLeftTurn {
            (f, m, d, Some(2 * d + w[n - 1]))
        } else if spec_is_tagged_by_lanes_suffix(lanes[n - 1].lt) {
            if lanes[n - 1].dir == left_dir {
                (true, 0, d + w[n - 1], None)
            } else {
                (f, m, d, Some(2 * d - m))
            }
        } else {
            (f, if f {
                m + w[n - 1]
            } else {
                m
            }, d + w[n - 1], None)
        }
    }
}

/// After the first `n` lanes, looking for the `num`-th lane in direction `dir`: the number of
/// such lanes seen, the width so far, and, once found, the offset of the named edge (or middle)
/// of that lane in half-micrometres.
pub open spec fn named_scan(
    lanes: Seq<LaneSpecView>,
    w: Seq<Distance>,
    dir: Direction,
    num: int,
    position: RoadPosition,
    n: int,
) -> (int, int, Option<int>)
    decreases n,
{
    if n <= 0 {
        (0, 0, None)
    } else {
        let (c, d, r) = named_scan(lanes, w, dir, num, position, n - 1);
        if r is Some {
            (c, d, r)
        } else if lanes[n - 1].dir == dir && c + 1 == num {
            (c + 1, d, Some(
                match position {
                    RoadPosition::MiddleOf(_) => 2 * d + w[n - 1],
                    RoadPosition::RightOf(_) => 2 * d + 2 * w[n - 1],
                    _ => 2 * d,
                },
            ))
        } else if lanes[n - 1].dir == dir {
            (c + 1, d + w[n - 1], None)
        } else {
            (c, d + w[n - 1], None)
        }
    }
}

/// The offset of `position` from the left edge of a road with these lanes and widths, in
/// half-micrometres.
/// - The full-width center is half the total width.
/// - The center is the middle of the roadway: of everything from the first to the last roadway
///   lane; with no roadway width, the middle of the lanes before it.
/// - The separation is the middle of a shared left-turn lane, else the middle of what lies
///   between the lanes of the two directions; on a one-way road, the edge after its last lane
///   with a direction.
/// - The edge or middle of a named lane is found counting lanes of its direction from the left
///   as seen in that direction; a lane that does not exist gives the full-width center.
pub open spec fn spec_left_edge_offset(
    lanes: Seq<LaneSpecView>,
    w: Seq<Distance>,
    position: RoadPosition,
    driving_side: DrivingSide,
) -> int {
    let total = width_sum(w, w.len() as int);
    match position {
        RoadPosition::FullWidthCenter => total,
        RoadPosition::Center => {
            let (l, rw, _rb) = center_scan(lanes, w, lanes.len() as int);
            if rw == 0 {
                l
            } else {
                2 * l + rw
            }
        },
        RoadPosition::Separation => {
            let left_dir = if driving_side == DrivingSide::Left {
                Direction::Fwd
            } else {
                Direction::Back
            };
            let (_f, m, d, r) = separation_scan(lanes, w, left_dir, lanes.len() as int);
            match r {
                Some(x) => x,
                None => 2 * (d - m),
            }
        },
        RoadPosition::LeftOf(t) | RoadPosition::MiddleOf(t) | RoadPosition::RightOf(t) => {
            let dir = spec_lane_num_direction(t);
            let fwd = dir == Direction::Fwd;
            let ol = if fwd {
                lanes
            } else {
                lanes.reverse()
            };
            let ow = if fwd {
                w
            } else {
                w.reverse()
            };
            let (_c, _d, r) = named_scan(ol, ow, dir, spec_lane_num(t) as int, position, lanes.len() as int);
            match r {
                Some(x) => if fwd {
                    x
                } else {
                    2 * total - x
                },
                None => total,
            }
        },
    }
}

/// The widths agree with the lanes: a lane with an exact width has that width. A width tagged in
/// metres is read by the caller.
pub open spec fn widths_agree(lanes: Seq<LaneSpecView>, w: Seq<Distance>) -> bool {
    &&& w.len() == lanes.len()
    &&& forall|i: int|
        0 <= i < lanes.len() ==> ((#[trigger] lanes[i]).width matches LaneWidthView::Exact(d) ==> w[i] == d)
}

/// The number of lanes among the first `k` that run in direction `dir`.
pub open spec fn dir_count(lanes: Seq<LaneSpecView>, dir: Direction, k: int) -> int
    decreases k,
{
    if k <= 0 {
        0
    } else {
        dir_count(lanes, dir, k - 1) + if lanes[k - 1].dir == dir {
            1int
        } else {
            0int
        }
    }
}

/// The named edge or middle of lane `k`, in half-micrometres from the left edge, for a lane
/// named from the left (`from_left`) or, for a backward lane, from the right.
pub open spec fn lane_edge(w: Seq<Distance>, k: int, position: RoadPosition, from_left: bool) -> int {
    match position {
        RoadPosition::MiddleOf(_) => 2 * width_sum(w, k) + w[k],
        RoadPosition::LeftOf(_) => if from_left {
            2 * width_sum(w, k)
        } else {
            2 * width_sum(w, k + 1)
        },
        _ => if from_left {
            2 * width_sum(w, k + 1)
        } else {
            2 * width_sum(w, k)
        },
    }
}

/// The lane a position names, if it names one.
pub open spec fn named_lane(position: RoadPosition) -> Option<LtrLaneNum> {
    match position {
        RoadPosition::LeftOf(t) | RoadPosition::MiddleOf(t) | RoadPosition::RightOf(t) => Some(t),
        _ => None,
    }
}

proof fn lemma_dir_count_monotonic(lanes: Seq<LaneSpecView>, dir: Direction, a: int, b: int)
    requires
        a <= b,
    ensures
        dir_count(lanes, dir, a) <= dir_count(lanes, dir, b),
    decreases b - a,
{
    if a < b {
        lemma_dir_count_monotonic(lanes, dir, a, b - 1);
    }
}

/// Before the named lane, the scan has counted the lanes of its direction and summed the widths.
proof fn lemma_named_scan_before(
    lanes: Seq<LaneSpecView>,
    w: Seq<Distance>,
    dir: Direction,
    num: int,
    position: RoadPosition,
    m: int,
    limit: int,
)
    requires
        0 <= m <= limit <= lanes.len(),
        forall|j: int| 0 <= j < limit && lanes[j].dir == dir ==> #[trigger] dir_count(lanes, dir, j) != num - 1,
    ensures
        named_scan(lanes, w, dir, num, position, m) == (dir_count(lanes, dir, m), width_sum(w, m), None::<int>),
    decreases m,
{
    if m > 0 {
        lemma_named_scan_before(lanes, w, dir, num, position, m - 1, limit);
        if lanes[m - 1].dir == dir {
            assert(dir_count(lanes, dir, m - 1) != num - 1);
        }
    }
}

/// Once the scan found the lane, it keeps what it found.
proof fn lemma_named_scan_found(
    lanes: Seq<LaneSpecView>,
    w: Seq<Distance>,
    dir: Direction,
    num: int,
    position: RoadPosition,
    a: int,
    b: int,
)
    requires
        0 < a <= b,
        named_scan(lanes, w, dir, num, position, a).2 is Some,
    ensures
        named_scan(lanes, w, dir, num, position, b).2 == named_scan(lanes, w, dir, num, position, a).2,
    decreases b - a,
{
    if a < b {
        lemma_named_scan_found(lanes, w, dir, num, position, a, b - 1);
    }
}

/// The scan finds lane `k`, the `num`-th of its direction.
proof fn lemma_named_scan_finds(
    lanes: Seq<LaneSpecView>,
    w: Seq<Distance>,
    dir: Direction,
    num: int,
    position: RoadPosition,
    k: int,
)
    requires
        0 <= k < lanes.len(),
        lanes[k].dir == dir,
        dir_count(lanes, dir, k) == num - 1,
        named_lane(position) is Some,
    ensures
        named_scan(lanes, w, dir, num, position, lanes.len() as int).2 == Some(
            lane_edge(w, k, position, true),
        ),
{
    assert forall|j: int| 0 <= j < k && lanes[j].dir == dir implies #[trigger] dir_count(lanes, dir, j) != num - 1 by {
        lemma_dir_count_monotonic(lanes, dir, j + 1, k);
    }
    lemma_named_scan_before(lanes, w, dir, num, position, k, k);
    lemma_named_scan_found(lanes, w, dir, num, position, k + 1, lanes.len() as int);
}

/// The edges and middle of a forward lane are sums of the widths left of it: if lane `k` is the
/// `n`-th forward lane counted from the left, its left edge is the sum of the widths before it,
/// its middle adds half its own width and its right edge adds all of it (in half-micrometres,
/// twice these).
pub proof fn law_forward_lane_offsets(
    lanes: Seq<LaneSpecView>,
    w: Seq<Distance>,
    position: RoadPosition,
    driving_side: DrivingSide,
    n: usize,
    k: int,
)
    requires
        w.len() == lanes.len(),
        named_lane(position) == Some(LtrLaneNum::Forward(n)),
        0 <= k < lanes.len(),
        lanes[k].dir == Direction::Fwd,
        dir_count(lanes, Direction::Fwd, k) == n - 1,
    ensures
        spec_left_edge_offset(lanes, w, position, driving_side) == lane_edge(w, k, position, true),
{
    lemma_named_scan_finds(lanes, w, Direction::Fwd, n as int, position, k);
}

/// The edges and middle of a backward lane, named from the right as seen driving backward: if
/// lane `k` is the `n`-th backward lane counted from the right, its left edge (seen backward) is
/// the sum of the widths up to and including it, its middle the sum before it and half its own
/// width, and its right edge the sum before it (in half-micrometres, twice these).
pub proof fn law_backward_lane_offsets(
    lanes: Seq<LaneSpecView>,
    w: Seq<Distance>,
    position: RoadPosition,
    driving_side: DrivingSide,
    n: usize,
    k: int,
)
    requires
        w.len() == lanes.len(),
        named_lane(position) == Some(LtrLaneNum::Backward(n)),
        0 <= k < lanes.len(),
        lanes[k].dir == Direction::Back,
        dir_count(lanes.reverse(), Direction::Back, lanes.len() - 1 - k) == n - 1,
    ensures
        spec_left_edge_offset(lanes, w, position, driving_side) == lane_edge(w, k, position, false),
{
    let len = lanes.len() as int;
    let k2 = len - 1 - k;
    assert(lanes.reverse()[k2] == lanes[k]);
    lemma_named_scan_finds(lanes.reverse(), w.reverse(), Direction::Back, n as int, position, k2);
    lemma_width_sum_reverse(w, k2);
    lemma_width_sum_reverse(w, k2 + 1);
    assert(w.reverse()[k2] == w[k]);
}

/// A named lane that does not exist gives the full-width center, as does `FullWidthCenter`:
/// half the total width (in half-micrometres, the total).
pub proof fn law_missing_lane_offset(
    lanes: Seq<LaneSpecView>,
    w: Seq<Distance>,
    position: RoadPosition,
    driving_side: DrivingSide,
)
    requires
        w.len() == lanes.len(),
        position == RoadPosition::FullWidthCenter || match named_lane(position) {
            Some(LtrLaneNum::Forward(n)) => forall|k: int|
                0 <= k < lanes.len() && lanes[k].dir == Direction::Fwd ==> #[trigger] dir_count(
                    lanes,
                    Direction::Fwd,
                    k,
                ) != n - 1,
            Some(LtrLaneNum::Backward(n)) => forall|k: int|
                0 <= k < lanes.len() && lanes.reverse()[k].dir == Direction::Back ==> #[trigger] dir_count(
                    lanes.reverse(),
                    Direction::Back,
                    k,
                ) != n - 1,
            None => false,
        },
    ensures
        spec_left_edge_offset(lanes, w, position, driving_side) == width_sum(w, w.len() as int),
{
    let len = lanes.len() as int;
    match named_lane(position) {
        Some(LtrLaneNum::Forward(n)) => {
            if position != RoadPosition::FullWidthCenter {
                lemma_named_scan_before(lanes, w, Direction::Fwd, n as int, position, len, len);
            }
        },
        Some(LtrLaneNum::Backward(n)) => {
            if position != RoadPosition::FullWidthCenter {
                lemma_named_scan_before(lanes.reverse(), w.reverse(), Direction::Back, n as int, position, len, len);
            }
        },
        None => {},
    }
}

proof fn lemma_width_sum_nonneg(w: Seq<Distance>, a: int)
    requires
        0 <= a <= w.len(),
    ensures
        0 <= width_sum(w, a),
    decreases a,
{
    if a > 0 {
        lemma_width_sum_nonneg(w, a - 1);
    }
}

proof fn lemma_width_sum_bounds(w: Seq<Distance>, a: int, b: int)
    requires
        0 <= a <= b <= w.len(),
    ensures
        0 <= width_sum(w, a) <= width_sum(w, b),
    decreases b - a,
{
    lemma_width_sum_nonneg(w, a);
    if a < b {
        lemma_width_sum_bounds(w, a, b - 1);
    }
}

proof fn lemma_width_sum_reverse(w: Seq<Distance>, n: int)
    requires
        0 <= n <= w.len(),
    ensures
        width_sum(w.reverse(), n) + width_sum(w, w.len() - n) == width_sum(w, w.len() as int),
    decreases n,
{
    if n > 0 {
        lemma_width_sum_reverse(w, n - 1);
        assert(w.reverse()[n - 1] == w[w.len() - n]);
    }
}

/// The sum of all widths.
pub fn total_width(widths: &Vec<Distance>) -> (r: Distance)
    requires
        width_sum(widths@, widths@.len() as int) <= u64::MAX,
    ensures
        r == width_sum(widths@, widths@.len() as int),
{
    let mut t: u64 = 0;
    let mut k: usize = 0;
    while k < widths.len()
        invariant
            k <= widths@.len(),
            width_sum(widths@, widths@.len() as int) <= u64::MAX,
            t == width_sum(widths@, k as int),
        decreases widths@.len() - k,
    {
        proof {
            lemma_width_sum_bounds(widths@, k + 1, widths@.len() as int);
        }
        t = t + widths[k];
        k = k + 1;
    }
    t
}

impl Road {
    /// Where `position` lies across this road, measured from its left edge, in
    /// half-micrometres (see `spec_left_edge_offset`). `widths` are the widths of the lanes,
    /// left to right, in micrometres, as the caller resolved them.
    pub fn left_edge_offset_of(
        &self,
        position: RoadPosition,
        driving_side: DrivingSide,
        widths: &Vec<Distance>,
    ) -> (r: u128)
        requires
            widths_agree(road_lanes(*self), widths@),
            width_sum(widths@, widths@.len() as int) <= u64::MAX,
        ensures
            r == spec_left_edge_offset(road_lanes(*self), widths@, position, driving_side),
    {
        let ghost lanes = road_lanes(*self);
        let total = total_width(widths) as u128;
        let n = self.lane_specs_ltr.len();
        match position {
            RoadPosition::FullWidthCenter => total,
            RoadPosition::Center => {
                let mut left_buffer: u128 = 0;
                let mut roadway_width: u128 = 0;
                let mut right_buffer: u128 = 0;
                let mut k: usize = 0;
                while k < n
                    invariant
                        n == lanes.len(),
                        n == widths@.len(),
                        lanes == road_lanes(*self),
                        width_sum(widths@, n as int) <= u64::MAX,
                        k <= n,
                        (left_buffer as int, roadway_width as int, right_buffer as int) == center_scan(lanes, widths@, k as int),
                        left_buffer + roadway_width + right_buffer == width_sum(widths@, k as int),
                    decreases n - k,
                {
                    proof {
                        lemma_width_sum_bounds(widths@, k + 1, n as int);
                        assert(lanes[k as int] == self.lane_specs_ltr@[k as int]@);
                    }
                    let w = widths[k] as u128;
                    if !self.lane_specs_ltr[k].lt.is_roadway() {
                        if roadway_width == 0 {
                            left_buffer = left_buffer + w;
                        } else {
                            right_buffer = right_buffer + w;
                        }
                    } else {
                        roadway_width = roadway_width + right_buffer;
                        right_buffer = 0;
                        roadway_width = roadway_width + w;
                    }
                    k = k + 1;
                }
                if roadway_width == 0 {
                    left_buffer
                } else {
                    2 * left_buffer + roadway_width
                }
            },
            RoadPosition::Separation => {
                let left_dir = if driving_side == DrivingSide::Left {
                    Direction::Fwd
                } else {
                    Direction::Back
                };
                let mut found_first_side = false;
                let mut median_width: u128 = 0;
                let mut dist_so_far: u128 = 0;
                let mut k: usize = 0;
                while k < n
                    invariant
                        n == lanes.len(),
                        n == widths@.len(),
                        lanes == road_lanes(*self),
                        width_sum(widths@, n as int) <= u64::MAX,
                        k <= n,
                        position == RoadPosition::Separation,
                        left_dir == (if driving_side == DrivingSide::Left {
                            Direction::Fwd
                        } else {
                            Direction::Back
                        }),
                        separation_scan(lanes, widths@, left_dir, k as int) == (
                            found_first_side,
                            median_width as int,
                            dist_so_far as int,
                            None::<int>,
                        ),
                        median_width <= dist_so_far,
                        dist_so_far == width_sum(widths@, k as int),
                    decreases n - k,
                {
                    proof {
                        lemma_width_sum_bounds(widths@, k + 1, n as int);
                        assert(lanes[k as int] == self.lane_specs_ltr@[k as int]@);
                    }
                    let w = widths[k] as u128;
                    let lt = self.lane_specs_ltr[k].lt;
                    if lt == LaneType::SharedLeftTurn {
                        proof {
                            assert(separation_scan(lanes, widths@, left_dir, k + 1) == (
                                found_first_side,
                                median_width as int,
                                dist_so_far as int,
                                Some(2 * dist_so_far + w),
                            ));
                            lemma_separation_found(lanes, widths@, left_dir, k as int + 1, n as int);
                        }
                        return 2 * dist_so_far + w;
                    } else if lt.is_tagged_by_lanes_suffix() {
                        if self.lane_specs_ltr[k].dir == left_dir {
                            found_first_side = true;
                        } else {
                            proof {
                                assert(separation_scan(lanes, widths@, left_dir, k + 1) == (
                                    found_first_side,
                                    median_width as int,
                                    dist_so_far as int,
                                    Some(2 * dist_so_far - median_width),
                                ));
                                lemma_separation_found(lanes, widths@, left_dir, k as int + 1, n as int);
                            }
                            return 2 * dist_so_far - median_width;
                        }
                        median_width = 0;
                    } else {
                        if found_first_side {
                            median_width = median_width + w;
                        }
                    }
                    dist_so_far = dist_so_far + w;
                    k = k + 1;
                }
                2 * (dist_so_far - median_width)
            },
            RoadPosition::LeftOf(target) | RoadPosition::MiddleOf(target) | RoadPosition::RightOf(
                target,
            ) => {
                let dir = target.direction();
                let num = target.number();
                let fwd = dir == Direction::Fwd;
                let ghost ol = if fwd {
                    lanes
                } else {
                    lanes.reverse()
                };
                let ghost ow = if fwd {
                    widths@
                } else {
                    widths@.reverse()
                };
                let mut dist_so_far: u128 = 0;
                let mut lanes_found: usize = 0;
                let mut k: usize = 0;
                while k < n
                    invariant
                        n == lanes.len(),
                        n == widths@.len(),
                        lanes == road_lanes(*self),
                        width_sum(widths@, n as int) <= u64::MAX,
                        total == width_sum(widths@, n as int),
                        k <= n,
                        fwd == (dir == Direction::Fwd),
                        ol == (if fwd { lanes } else { lanes.reverse() }),
                        ow == (if fwd { widths@ } else { widths@.reverse() }),
                        position == RoadPosition::LeftOf(target) || position == RoadPosition::MiddleOf(target)
                            || position == RoadPosition::RightOf(target),
                        dir == spec_lane_num_direction(target),
                        num == spec_lane_num(target),
                        named_scan(ol, ow, dir, num as int, position, k as int) == (
                            lanes_found as int,
                            dist_so_far as int,
                            None::<int>,
                        ),
                        lanes_found <= k,
                        dist_so_far == width_sum(ow, k as int),
                    decreases n - k,
                {
                    let j = if fwd {
                        k
                    } else {
                        n - 1 - k
                    };
                    proof {
                        assert(ol[k as int] == lanes[j as int]);
                        assert(ow[k as int] == widths@[j as int]);
                        assert(lanes[j as int] == self.lane_specs_ltr@[j as int]@);
                        if fwd {
                            lemma_width_sum_bounds(widths@, k + 1, n as int);
                        } else {
                            lemma_width_sum_reverse(widths@, k + 1);
                            lemma_width_sum_bounds(widths@, 0, n - (k + 1));
                        }
                    }
                    let w = widths[j] as u128;
                    if self.lane_specs_ltr[j].dir == dir {
                        lanes_found = lanes_found + 1;
                        if lanes_found == num {
                            let offset: u128 = match position {
                                RoadPosition::MiddleOf(_) => 2 * dist_so_far + w,
                                RoadPosition::RightOf(_) => 2 * dist_so_far + 2 * w,
                                _ => 2 * dist_so_far,
                            };
                            proof {
                                assert(named_scan(ol, ow, dir, num as int, position, k + 1) == (
                                    lanes_found as int,
                                    dist_so_far as int,
                                    Some(offset as int),
                                ));
                                lemma_named_found(ol, ow, dir, num as int, position, k as int + 1, n as int);
                                if !fwd {
                                    lemma_width_sum_reverse(widths@, k + 1);
                                    lemma_width_sum_bounds(widths@, 0, n - (k + 1));
                                }
                            }
                            return if fwd {
                                offset
                            } else {
                                2 * total - offset
                            };
                        }
                    }
                    dist_so_far = dist_so_far + w;
                    k = k + 1;
                }
                total
            },
        }
    }
}

/// Once the separation is found, the rest of the lanes change nothing.
proof fn lemma_separation_found(lanes: Seq<LaneSpecView>, w: Seq<Distance>, left_dir: Direction, k: int, n: int)
    requires
        0 < k <= n,
        separation_scan(lanes, w, left_dir, k).3 is Some,
    ensures
        separation_scan(lanes, w, left_dir, n) == separation_scan(lanes, w, left_dir, k),
    decreases n - k,
{
    if k < n {
        lemma_separation_found(lanes, w, left_dir, k, n - 1);
    }
}

/// Once the named lane is found, the rest of the lanes change nothing.
proof fn lemma_named_found(
    lanes: Seq<LaneSpecView>,
    w: Seq<Distance>,
    dir: Direction,
    num: int,
    position: RoadPosition,
    k: int,
    n: int,
)
    requires
        0 < k <= n,
        named_scan(lanes, w, dir, num, position, k).2 is Some,
    ensures
        named_scan(lanes, w, dir, num, position, n) == named_scan(lanes, w, dir, num, position, k),
    decreases n - k,
{
    if k < n {
        lemma_named_found(lanes, w, dir, num, position, k, n - 1);
    }
}

} // verus!

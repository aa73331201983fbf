//! Blocks: tight cycles of roads and intersections, and what kind of space they enclose.
use vstd::prelude::*;

use crate::ids::{IntersectionID, RoadID};
use crate::lanes::LaneType;
use crate::network::{has_intersection, has_road, intersection_at, road_at, Intersection, StreetNetwork};
use crate::disconnected::{ends_present, lists_match_ends};
use crate::road::{road_lanes, Road};

verus! {

/// One step around a block: an intersection, or a road between two of them.
#[derive(Clone, Copy, Debug, PartialEq, Eq, Structural)]
pub enum Step {
    Node(IntersectionID),
    Edge(RoadID),
}

/// What a block encloses.
#[derive(Clone, Copy, Debug, PartialEq, Eq, Structural)]
pub enum BlockKind {
    /// A "city" block; the space in between sidewalks, probably just containing buildings and
    /// not roads.
    LandUseBlock,
    /// The space between a road and sidewalk. It might be a wide sidewalk or contain grass.
    RoadAndSidewalk,
    /// The space between a road and cycle lane. It should contain some kind of separation.
    RoadAndCycleLane,
    /// The space between a cycle lane and sidewalk. It should contain some kind of separation --
    /// at least a curb.
    CycleLaneAndSidewalk,
    /// The space between one-way roads. Probably has some kind of physical barrier, not just
    /// markings.
    DualCarriageway,
    /// A segment of road and all sidepaths and internal connections
    RoadBundle,
    /// A possibly complex junction; everything in between all the crossings
    IntersectionBundle,
    Unknown,
}

/// The road has a driving lane.
pub open spec fn road_is_driveable(r: Road) -> bool {
    exists|i: int| 0 <= i < road_lanes(r).len() && (#[trigger] road_lanes(r)[i]).lt == LaneType::Driving
}

/// The road is a single lane of the given type.
pub open spec fn road_is_single(r: Road, lt: LaneType) -> bool {
    road_lanes(r).len() == 1 && road_lanes(r)[0].lt == lt
}

/// The road of `rs` with ID `id`.
pub open spec fn road_with_id(rs: Seq<Road>, id: RoadID) -> Road {
    rs[choose|k: int| road_at(rs, id, k)]
}

/// Some road stepped over is driveable.
pub open spec fn block_has_road(rs: Seq<Road>, steps: Seq<Step>) -> bool {
    exists|j: int|
        0 <= j < steps.len() && (#[trigger] steps[j]) is Edge && road_is_driveable(
            road_with_id(rs, steps[j]->Edge_0),
        )
}

/// Some road stepped over is a lone cycle lane.
pub open spec fn block_has_cycle_lane(rs: Seq<Road>, steps: Seq<Step>) -> bool {
    exists|j: int|
        0 <= j < steps.len() && (#[trigger] steps[j]) is Edge && !road_is_driveable(
            road_with_id(rs, steps[j]->Edge_0),
        ) && road_is_single(road_with_id(rs, steps[j]->Edge_0), LaneType::Biking)
}

/// Some road stepped over is a lone sidewalk.
pub open spec fn block_has_sidewalk(rs: Seq<Road>, steps: Seq<Step>) -> bool {
    exists|j: int|
        0 <= j < steps.len() && (#[trigger] steps[j]) is Edge && !road_is_driveable(
            road_with_id(rs, steps[j]->Edge_0),
        ) && road_is_single(road_with_id(rs, steps[j]->Edge_0), LaneType::Sidewalk)
}

/// The kind of block that a walk over roads with and without driving lanes, lone cycle lanes
/// and lone sidewalks encloses.
pub open spec fn spec_block_kind(has_road: bool, has_cycle_lane: bool, has_sidewalk: bool) -> BlockKind {
    if has_road && has_sidewalk {
        BlockKind::RoadAndSidewalk
    } else if has_road && has_cycle_lane {
        BlockKind::RoadAndCycleLane
    } else if has_road {
        BlockKind::DualCarriageway
    } else if has_cycle_lane && has_sidewalk {
        BlockKind::CycleLaneAndSidewalk
    } else if !has_cycle_lane && has_sidewalk {
        BlockKind::LandUseBlock
    } else {
        BlockKind::Unknown
    }
}

/// Whether the road's only lane has type `lt`.
fn is_single(r: &Road, lt: LaneType) -> (b: bool)
    ensures
        b == road_is_single(*r, lt),
{
    if r.lane_specs_ltr.len() == 1 {
        proof {
            assert(road_lanes(*r)[0] == r.lane_specs_ltr@[0]@);
        }
        r.lane_specs_ltr[0].lt == lt
    } else {
        false
    }
}

/// Classifies the block that `steps` walk around by the roads it passes: driveable roads, lone
/// cycle lanes and lone sidewalks.
pub fn classify_block(streets: &StreetNetwork, steps: &Vec<Step>) -> (kind: BlockKind)
    requires
        streets.wf(),
        forall|j: int|
            0 <= j < steps@.len() && (#[trigger] steps@[j]) is Edge ==> has_road(
                streets.roads@,
                steps@[j]->Edge_0,
            ),
    ensures
        kind == spec_block_kind(
            block_has_road(streets.roads@, steps@),
            block_has_cycle_lane(streets.roads@, steps@),
            block_has_sidewalk(streets.roads@, steps@),
        ),
{
    let ghost rs = streets.roads@;
    let mut seen_road = false;
    let mut has_cycle_lane = false;
    let mut has_sidewalk = false;
    let mut j: usize = 0;
    while j < steps.len()
        invariant
            j <= steps@.len(),
            rs == streets.roads@,
            streets.wf(),
            forall|x: int|
                0 <= x < steps@.len() && (#[trigger] steps@[x]) is Edge ==> has_road(
                    streets.roads@,
                    steps@[x]->Edge_0,
                ),
            seen_road == block_has_road(rs, steps@.subrange(0, j as int)),
            has_cycle_lane == block_has_cycle_lane(rs, steps@.subrange(0, j as int)),
            has_sidewalk == block_has_sidewalk(rs, steps@.subrange(0, j as int)),
        decreases steps@.len() - j,
    {
        let ghost pre = steps@.subrange(0, j as int);
        let ghost next = steps@.subrange(0, j + 1);
        proof {
            assert forall|x: int| 0 <= x < j implies #[trigger] next[x] == pre[x] by {}
            assert(next[j as int] == steps@[j as int]);
        }
        match steps[j] {
            Step::Edge(r) => {
                let k = streets.road_index(r).unwrap();
                proof {
                    let c = choose|c: int| road_at(rs, r, c);
                    if c != k {
                        if c < k {
                            assert(rs[c].id.0 < rs[k as int].id.0);
                        } else {
                            assert(rs[k as int].id.0 < rs[c].id.0);
                        }
                    }
                    assert(road_with_id(rs, r) == rs[k as int]);
                }
                let road = &streets.roads[k];
                if road.is_driveable() {
                    seen_road = true;
                } else if is_single(road, LaneType::Biking) {
                    has_cycle_lane = true;
                } else if is_single(road, LaneType::Sidewalk) {
                    has_sidewalk = true;
                }
            },
            Step::Node(_) => {},
        }
        proof {
            if block_has_road(rs, next) {
                let x = choose|x: int|
                    0 <= x < next.len() && (#[trigger] next[x]) is Edge && road_is_driveable(
                        road_with_id(rs, next[x]->Edge_0),
                    );
                if x < j {
                    assert(pre[x] == next[x]);
                }
            }
            if block_has_cycle_lane(rs, next) {
                let x = choose|x: int|
                    0 <= x < next.len() && (#[trigger] next[x]) is Edge && !road_is_driveable(
                        road_with_id(rs, next[x]->Edge_0),
                    ) && road_is_single(road_with_id(rs, next[x]->Edge_0), LaneType::Biking);
                if x < j {
                    assert(pre[x] == next[x]);
                }
            }
            if block_has_sidewalk(rs, next) {
                let x = choose|x: int|
                    0 <= x < next.len() && (#[trigger] next[x]) is Edge && !road_is_driveable(
                        road_with_id(rs, next[x]->Edge_0),
                    ) && road_is_single(road_with_id(rs, next[x]->Edge_0), LaneType::Sidewalk);
                if x < j {
                    assert(pre[x] == next[x]);
                }
            }
            if block_has_road(rs, pre) {
                let x = choose|x: int|
                    0 <= x < pre.len() && (#[trigger] pre[x]) is Edge && road_is_driveable(
                        road_with_id(rs, pre[x]->Edge_0),
                    );
                assert(next[x] == pre[x]);
            }
            if block_has_cycle_lane(rs, pre) {
                let x = choose|x: int|
                    0 <= x < pre.len() && (#[trigger] pre[x]) is Edge && !road_is_driveable(
                        road_with_id(rs, pre[x]->Edge_0),
                    ) && road_is_single(road_with_id(rs, pre[x]->Edge_0), LaneType::Biking);
                assert(next[x] == pre[x]);
            }
            if block_has_sidewalk(rs, pre) {
                let x = choose|x: int|
                    0 <= x < pre.len() && (#[trigger] pre[x]) is Edge && !road_is_driveable(
                        road_with_id(rs, pre[x]->Edge_0),
                    ) && road_is_single(road_with_id(rs, pre[x]->Edge_0), LaneType::Sidewalk);
                assert(next[x] == pre[x]);
            }
        }
        j = j + 1;
    }
    proof {
        assert(steps@.subrange(0, steps@.len() as int) =~= steps@);
    }
    if seen_road && has_sidewalk {
        return BlockKind::RoadAndSidewalk;
    }
    if seen_road && has_cycle_lane {
        return BlockKind::RoadAndCycleLane;
    }
    if seen_road {
        return BlockKind::DualCarriageway;
    }
    if !seen_road && has_cycle_lane && has_sidewalk {
        return BlockKind::CycleLaneAndSidewalk;
    }
    if !seen_road && !has_cycle_lane && has_sidewalk {
        return BlockKind::LandUseBlock;
    }
    BlockKind::Unknown
}


/// A walk around a block that did not come back to its start.
#[derive(Clone, Copy, Debug, PartialEq, Eq, Structural)]
pub enum WalkError {
    /// The walk did not come back to its first intersection after twice as many turns as
    /// there are roads, one more.
    NoReturn,
}

/// The intersection of `is` with ID `id`.
pub open spec fn intersection_with_id(is: Seq<Intersection>, id: IntersectionID) -> Intersection {
    is[choose|k: int| intersection_at(is, id, k)]
}

/// The end of road `r` across from `i`.
pub open spec fn other_end(r: Road, i: IntersectionID) -> IntersectionID {
    if r.src_i == i {
        r.dst_i
    } else {
        r.src_i
    }
}

/// The first index of `x` in `s`.
pub open spec fn pos_in(s: Seq<RoadID>, x: RoadID) -> int {
    choose|k: int| 0 <= k < s.len() && s[k] == x && forall|j: int| 0 <= j < k ==> s[j] != x
}

/// The index after `idx` in a circular list of `len`, clockwise or counterclockwise.
pub open spec fn turn_index(idx: int, len: int, clockwise: bool) -> int {
    if clockwise {
        if idx == len - 1 {
            0
        } else {
            idx + 1
        }
    } else {
        if idx == 0 {
            len - 1
        } else {
            idx - 1
        }
    }
}

/// One turn of a walk: from intersection `st.0` along road `st.1` to its other end, then on
/// along the next road there, clockwise or counterclockwise from the one arrived by.
pub open spec fn walk_next(
    rs: Seq<Road>,
    is: Seq<Intersection>,
    st: (IntersectionID, RoadID),
    clockwise: bool,
) -> (IntersectionID, RoadID) {
    let ni = other_end(road_with_id(rs, st.1), st.0);
    let list = intersection_with_id(is, ni).roads@;
    (ni, list[turn_index(pos_in(list, st.1), list.len() as int, clockwise)])
}

/// Where a walk that starts at intersection `start` along its first road is after `t` turns.
pub open spec fn walk_state(
    rs: Seq<Road>,
    is: Seq<Intersection>,
    start: IntersectionID,
    clockwise: bool,
    t: nat,
) -> (IntersectionID, RoadID)
    decreases t,
{
    if t == 0 {
        (start, intersection_with_id(is, start).roads@[0])
    } else {
        walk_next(rs, is, walk_state(rs, is, start, clockwise, (t - 1) as nat), clockwise)
    }
}

/// `steps` record the first `m` turns of the walk: the first road, then each intersection
/// reached and the road taken on from it.
pub open spec fn walk_steps(
    rs: Seq<Road>,
    is: Seq<Intersection>,
    start: IntersectionID,
    clockwise: bool,
    steps: Seq<Step>,
    m: nat,
) -> bool {
    &&& steps.len() == 2 * m + 1
    &&& steps[0] == Step::Edge(walk_state(rs, is, start, clockwise, 0).1)
    &&& forall|t: nat|
        1 <= t <= m ==> steps[2 * t - 1] == Step::Node(walk_state(rs, is, start, clockwise, t).0)
            && steps[2 * t as int] == Step::Edge((#[trigger] walk_state(rs, is, start, clockwise, t)).1)
}

/// Every ID that an intersection lists is a road of the network.
pub open spec fn lists_only_roads(rs: Seq<Road>, is: Seq<Intersection>) -> bool {
    forall|j: int, x: RoadID| 0 <= j < is.len() && #[trigger] is[j].roads@.contains(x) ==> has_road(rs, x)
}

/// In a vector in order of ID, the intersection found at an index is the one `choose` names.
proof fn lemma_intersection_with_id(is: Seq<Intersection>, id: IntersectionID, k: int)
    requires
        crate::network::intersections_sorted(is),
        intersection_at(is, id, k),
    ensures
        intersection_with_id(is, id) == is[k],
{
    let c = choose|c: int| intersection_at(is, id, c);
    if c < k {
        assert(is[c].id.0 < is[k].id.0);
    } else if k < c {
        assert(is[k].id.0 < is[c].id.0);
    }
}

/// In a vector in order of ID, the intersection found at an index is the one `choose` names.
pub(crate) proof fn lemma_intersection_with_id_pub(is: Seq<Intersection>, id: IntersectionID, k: int)
    requires
        crate::network::intersections_sorted(is),
        intersection_at(is, id, k),
    ensures
        intersection_with_id(is, id) == is[k],
{
    lemma_intersection_with_id(is, id, k);
}

/// In a vector in order of ID, the road found at an index is the one `choose` names.
proof fn lemma_road_with_id(rs: Seq<Road>, id: RoadID, k: int)
    requires
        crate::network::roads_sorted(rs),
        road_at(rs, id, k),
    ensures
        road_with_id(rs, id) == rs[k],
{
    let c = choose|c: int| road_at(rs, id, c);
    if c < k {
        assert(rs[c].id.0 < rs[k].id.0);
    } else if k < c {
        assert(rs[k].id.0 < rs[c].id.0);
    }
}

/// The first index of `x` in `v`, which holds it.
fn position_of(v: &Vec<RoadID>, x: RoadID) -> (k: usize)
    requires
        v@.contains(x),
    ensures
        k == pos_in(v@, x),
        k < v@.len(),
{
    let mut k: usize = 0;
    while k < v.len()
        invariant
            v@.contains(x),
            k <= v@.len(),
            forall|j: int| 0 <= j < k ==> v@[j] != x,
        decreases v@.len() - k,
    {
        if v[k] == x {
            proof {
                let c = pos_in(v@, x);
                assert(0 <= c < v@.len() && v@[c] == x && forall|j: int| 0 <= j < c ==> v@[j] != x);
                if c < k {
                } else if k < c {
                    assert(v@[k as int] != x);
                }
            }
            return k;
        }
        k = k + 1;
    }
    proof {
        let w = choose|w: int| 0 <= w < v@.len() && v@[w] == x;
        assert(v@[w] != x);
    }
    0
}

impl StreetNetwork {
    /// Walks around the block on one side of the first road of intersection `start`: along a
    /// road to its other end, then on along the next road there (clockwise or
    /// counterclockwise), until the walk is back at `start`. Returns the roads and
    /// intersections passed, beginning and ending with a road. Gives up where the walk has not
    /// come back after twice as many turns as there are roads, and one more.
    pub fn walk_around(&self, start: IntersectionID, clockwise: bool) -> (r: Result<Vec<Step>, WalkError>)
        requires
            self.wf(),
            ends_present(self.roads@, self.intersections@),
            lists_match_ends(self.roads@, self.intersections@),
            lists_only_roads(self.roads@, self.intersections@),
            exists|k: int|
                intersection_at(self.intersections@, start, k) && (#[trigger] self.intersections@[k]).roads@.len() > 0,
        ensures
            match r {
                Ok(steps) => exists|m: nat|
                    #![trigger walk_steps(self.roads@, self.intersections@, start, clockwise, steps@, m)]
                    m >= 1 && walk_steps(self.roads@, self.intersections@, start, clockwise, steps@, m)
                        && walk_state(self.roads@, self.intersections@, start, clockwise, m).0 == start
                        && forall|t: nat|
                        1 <= t < m ==> (#[trigger] walk_state(self.roads@, self.intersections@, start, clockwise, t)).0 != start,
                Err(e) => e == WalkError::NoReturn && forall|t: nat|
                    1 <= t <= 2 * self.roads@.len() + 1 ==> (#[trigger] walk_state(
                        self.roads@,
                        self.intersections@,
                        start,
                        clockwise,
                        t,
                    )).0 != start,
            },
    {
        let ghost rs = self.roads@;
        let ghost is = self.intersections@;
        let k0 = self.intersection_index(start).unwrap();
        proof {
            lemma_intersection_with_id(is, start, k0 as int);
        }
        let mut current_i = start;
        let mut current_r = self.intersections[k0].roads[0];
        let mut steps: Vec<Step> = Vec::new();
        steps.push(Step::Edge(current_r));
        let limit: u128 = 2 * (self.roads.len() as u128) + 1;
        let mut moves: u128 = 0;
        proof {
            assert(is[k0 as int].roads@.contains(current_r));
            assert(walk_steps(rs, is, start, clockwise, steps@, 0));
        }
        while current_i != start || moves == 0
            invariant
                self.wf(),
                rs == self.roads@,
                is == self.intersections@,
                ends_present(rs, is),
                lists_match_ends(rs, is),
                lists_only_roads(rs, is),
                limit == 2 * rs.len() + 1,
                moves <= limit,
                (current_i, current_r) == walk_state(rs, is, start, clockwise, moves as nat),
                has_intersection(is, current_i),
                intersection_with_id(is, current_i).roads@.contains(current_r),
                walk_steps(rs, is, start, clockwise, steps@, moves as nat),
                forall|t: nat| 1 <= t <= moves ==> (#[trigger] walk_state(rs, is, start, clockwise, t)).0 != start
                    || t == moves,
            decreases limit - moves,
        {
            if moves == limit {
                proof {
                    assert forall|t: nat| 1 <= t <= 2 * rs.len() + 1 implies (#[trigger] walk_state(rs, is, start, clockwise, t)).0 != start by {
                        if t == moves {
                            assert(current_i != start || moves == 0);
                        }
                    }
                }
                return Err(WalkError::NoReturn);
            }
            let (ni, next_r) = self.walk_move(current_i, current_r, clockwise);
            let ghost prev_steps = steps@;
            steps.push(Step::Node(ni));
            steps.push(Step::Edge(next_r));
            proof {
                assert(walk_state(rs, is, start, clockwise, (moves + 1) as nat) == walk_next(rs, is, (current_i, current_r), clockwise));
                let m1 = (moves + 1) as nat;
                assert forall|t: nat| 1 <= t <= m1 implies steps@[2 * t - 1] == Step::Node(walk_state(rs, is, start, clockwise, t).0)
                    && steps@[2 * t as int] == Step::Edge((#[trigger] walk_state(rs, is, start, clockwise, t)).1) by {
                    let st = walk_state(rs, is, start, clockwise, t);
                    if t < m1 {
                        assert(prev_steps[2 * t - 1] == Step::Node(st.0) && prev_steps[2 * t as int] == Step::Edge(st.1));
                        assert(steps@[2 * t - 1] == prev_steps[2 * t - 1]);
                        assert(steps@[2 * t as int] == prev_steps[2 * t as int]);
                    } else {
                        assert(t == m1);
                        assert(st == (ni, next_r));
                        assert(steps@[2 * t - 1] == Step::Node(ni));
                        assert(steps@[2 * t as int] == Step::Edge(next_r));
                    }
                }
                assert(steps@[0] == prev_steps[0]);
            }
            current_i = ni;
            current_r = next_r;
            moves = moves + 1;
        }
        proof {
            let m = moves as nat;
            assert(m >= 1 && walk_steps(rs, is, start, clockwise, steps@, m) && walk_state(rs, is, start, clockwise, m).0 == start);
            assert(forall|t: nat| 1 <= t < m ==> (#[trigger] walk_state(rs, is, start, clockwise, t)).0 != start);
            assert(exists|m2: nat|
                #![trigger walk_steps(self.roads@, self.intersections@, start, clockwise, steps@, m2)]
                m2 >= 1 && walk_steps(self.roads@, self.intersections@, start, clockwise, steps@, m2)
                    && walk_state(self.roads@, self.intersections@, start, clockwise, m2).0 == start
                    && forall|t: nat|
                    1 <= t < m2 ==> (#[trigger] walk_state(self.roads@, self.intersections@, start, clockwise, t)).0 != start);
        }
        let res: Result<Vec<Step>, WalkError> = Ok(steps);
        proof {
            assert(res matches Ok(v) && v@ == steps@);
        }
        res
    }

    /// One turn of a walk around a block, from intersection `i` along road `r`.
    fn walk_move(&self, i: IntersectionID, r: RoadID, clockwise: bool) -> (next: (IntersectionID, RoadID))
        requires
            self.wf(),
            ends_present(self.roads@, self.intersections@),
            lists_match_ends(self.roads@, self.intersections@),
            lists_only_roads(self.roads@, self.intersections@),
            has_intersection(self.intersections@, i),
            intersection_with_id(self.intersections@, i).roads@.contains(r),
        ensures
            next == walk_next(self.roads@, self.intersections@, (i, r), clockwise),
            has_intersection(self.intersections@, next.0),
            intersection_with_id(self.intersections@, next.0).roads@.contains(next.1),
    {
        let ghost rs = self.roads@;
        let ghost is = self.intersections@;
        let ghost ki_old = choose|k: int| intersection_at(is, i, k);
        proof {
            lemma_intersection_with_id(is, i, ki_old);
            assert(has_road(rs, r));
        }
        let kr = self.road_index(r).unwrap();
        proof {
            lemma_road_with_id(rs, r, kr as int);
            assert(is[ki_old].roads@.contains(rs[kr as int].id));
            assert(rs[kr as int].src_i == i || rs[kr as int].dst_i == i);
        }
        let ni = self.roads[kr].other_side(i);
        proof {
            assert(ni == rs[kr as int].src_i || ni == rs[kr as int].dst_i);
            assert(has_intersection(is, ni));
        }
        let kn = self.intersection_index(ni).unwrap();
        proof {
            lemma_intersection_with_id(is, ni, kn as int);
            assert(is[kn as int].roads@.contains(rs[kr as int].id));
        }
        let list = &self.intersections[kn].roads;
        let idx = position_of(list, r);
        let next_idx = if clockwise {
            if idx == list.len() - 1 {
                0
            } else {
                idx + 1
            }
        } else {
            if idx == 0 {
                list.len() - 1
            } else {
                idx - 1
            }
        };
        let next_r = list[next_idx];
        proof {
            assert(is[kn as int].roads@.contains(next_r));
        }
        (ni, next_r)
    }
}

} // verus!

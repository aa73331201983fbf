use osm2streets::ids::{IntersectionID, LaneID, RoadID};
use osm2streets::lanes::{LaneType, LtrLaneNum, Placement, RoadEnd, RoadPosition};
use osm2streets::movements::{from_placement, with_matched_lanes, TurnMovement};
use osm2streets::road::Road;
use osm2streets::tags::Tags;
use osm2streets::types::{DrivingSide, MapConfig};

fn road(id: usize, src: usize, dst: usize, kv: &[(&str, &str)]) -> Road {
    let mut t = Tags::empty();
    for (k, v) in kv {
        t.insert(k, v);
    }
    Road::new(
        RoadID(id),
        Vec::new(),
        IntersectionID(src),
        IntersectionID(dst),
        &t,
        &MapConfig::default(),
        0,
    )
}

/// The indices of the driving lanes of `r`, left to right.
fn driving(r: &Road) -> Vec<usize> {
    (0..r.lane_specs_ltr.len())
        .filter(|k| r.lane_specs_ltr[*k].lt == LaneType::Driving)
        .collect()
}

fn mv(a: usize, i: usize, b: usize, j: usize) -> TurnMovement {
    TurnMovement {
        from: LaneID { road: RoadID(a), index: i },
        to: LaneID { road: RoadID(b), index: j },
    }
}

const TWO_LANES: &[(&str, &str)] = &[("highway", "primary"), ("oneway", "yes"), ("lanes", "2")];
const THREE_LANES: &[(&str, &str)] = &[("highway", "primary"), ("oneway", "yes"), ("lanes", "3")];

#[test]
fn matched_lanes_pair_up_in_order() {
    let a = road(0, 0, 1, TWO_LANES);
    let b = road(1, 1, 2, TWO_LANES);
    let (da, db) = (driving(&a), driving(&b));
    assert_eq!(da.len(), 2);
    let r = with_matched_lanes(
        (&a, RoadEnd::End, LtrLaneNum::Forward(1)),
        (&b, RoadEnd::Start, LtrLaneNum::Forward(1)),
    );
    assert_eq!(r, Some(vec![mv(0, da[0], 1, db[0]), mv(0, da[1], 1, db[1])]));
}

#[test]
fn matched_lanes_offset_forks_into_the_first_lane() {
    let a = road(0, 0, 1, TWO_LANES);
    let b = road(1, 1, 2, TWO_LANES);
    let (da, db) = (driving(&a), driving(&b));
    // Lane 2 of the first road meets lane 1 of the second: lane 1 merges in too.
    let r = with_matched_lanes(
        (&a, RoadEnd::End, LtrLaneNum::Forward(2)),
        (&b, RoadEnd::Start, LtrLaneNum::Forward(1)),
    );
    assert_eq!(
        r,
        Some(vec![mv(0, da[0], 1, db[0]), mv(0, da[1], 1, db[0]), mv(0, da[1], 1, db[1])])
    );
}

#[test]
fn matched_lanes_need_lanes_pointing_that_way() {
    let a = road(0, 0, 1, TWO_LANES);
    let b = road(1, 1, 2, TWO_LANES);
    let r = with_matched_lanes(
        (&a, RoadEnd::Start, LtrLaneNum::Forward(1)),
        (&b, RoadEnd::Start, LtrLaneNum::Forward(1)),
    );
    assert_eq!(r, None);
    // Leaving against the one-way direction finds no lanes.
    let r = with_matched_lanes(
        (&a, RoadEnd::Start, LtrLaneNum::Backward(1)),
        (&b, RoadEnd::Start, LtrLaneNum::Forward(1)),
    );
    assert_eq!(r, Some(Vec::new()));
}

#[test]
fn default_movements_pair_the_inside_lanes() {
    let a = road(0, 0, 1, TWO_LANES);
    let b = road(1, 1, 2, THREE_LANES);
    let (da, db) = (driving(&a), driving(&b));
    assert_eq!(db.len(), 3);
    let right = osm2streets::movements::default((&a, RoadEnd::End), (&b, RoadEnd::Start), DrivingSide::Right);
    assert_eq!(
        right,
        Some(vec![mv(0, da[0], 1, db[0]), mv(0, da[1], 1, db[1]), mv(0, da[1], 1, db[2])])
    );
    let left = osm2streets::movements::default((&a, RoadEnd::End), (&b, RoadEnd::Start), DrivingSide::Left);
    assert_eq!(
        left,
        Some(vec![mv(0, da[1], 1, db[2]), mv(0, da[0], 1, db[1]), mv(0, da[0], 1, db[0])])
    );
}

#[test]
fn movements_follow_the_placement() {
    let mut a = road(0, 0, 1, TWO_LANES);
    let mut b = road(1, 1, 2, TWO_LANES);
    let (da, db) = (driving(&a), driving(&b));
    a.reference_line_placement = Placement::Consistent(RoadPosition::MiddleOf(LtrLaneNum::Forward(2)));
    b.reference_line_placement = Placement::Consistent(RoadPosition::MiddleOf(LtrLaneNum::Forward(1)));
    assert_eq!(
        from_placement((&a, RoadEnd::End), (&b, RoadEnd::Start)),
        Some(vec![mv(0, da[0], 1, db[0]), mv(0, da[1], 1, db[0]), mv(0, da[1], 1, db[1])])
    );
    a.reference_line_placement = Placement::Consistent(RoadPosition::Center);
    assert_eq!(from_placement((&a, RoadEnd::End), (&b, RoadEnd::Start)), None);
    a.reference_line_placement = Placement::Consistent(RoadPosition::RightOf(LtrLaneNum::Forward(1)));
    b.reference_line_placement = Placement::Consistent(RoadPosition::LeftOf(LtrLaneNum::Forward(1)));
    // The right edge of lane 1 is the left edge of lane 2.
    assert_eq!(
        from_placement((&a, RoadEnd::End), (&b, RoadEnd::Start)),
        Some(vec![mv(0, da[0], 1, db[0]), mv(0, da[1], 1, db[0]), mv(0, da[1], 1, db[1])])
    );
}

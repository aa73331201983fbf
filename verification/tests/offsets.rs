use osm2streets::ids::{IntersectionID, RoadID};
use osm2streets::lanes::LtrLaneNum::{Backward, Forward};
use osm2streets::lanes::{Direction, LaneType, LaneWidth, RoadPosition};
use osm2streets::offsets::total_width;
use osm2streets::road::Road;
use osm2streets::tags::Tags;
use osm2streets::types::{DrivingSide, MapConfig};

fn road(kv: &[(&str, &str)]) -> Road {
    let mut t = Tags::empty();
    for (k, v) in kv {
        t.insert(k, v);
    }
    Road::new(RoadID(0), Vec::new(), IntersectionID(0), IntersectionID(1), &t, &MapConfig::default(), 0)
}

const M: u64 = 1_000_000;

/// Gives the lanes the widths that the offsets are computed with.
fn set_widths(r: &mut Road, w: &[u64]) {
    for (l, x) in r.lane_specs_ltr.iter_mut().zip(w) {
        l.width = LaneWidth::Exact(*x);
    }
}

#[test]
fn offsets_across_a_two_way_street() {
    let mut r = road(&[("highway", "residential"), ("lanes", "2")]);
    let kinds: Vec<(LaneType, Direction)> = r.lane_specs_ltr.iter().map(|l| (l.lt, l.dir)).collect();
    assert_eq!(
        kinds,
        vec![
            (LaneType::Sidewalk, Direction::Back),
            (LaneType::Driving, Direction::Back),
            (LaneType::Driving, Direction::Fwd),
            (LaneType::Sidewalk, Direction::Fwd)
        ]
    );
    let w = vec![2 * M, 3 * M, 3 * M, 2 * M];
    set_widths(&mut r, &w);
    assert_eq!(total_width(&w), 10 * M);
    let at = |p: RoadPosition| r.left_edge_offset_of(p, DrivingSide::Right, &w);
    // Offsets are in half-micrometres.
    assert_eq!(at(RoadPosition::FullWidthCenter), 10 * M as u128);
    assert_eq!(at(RoadPosition::Center), 10 * M as u128);
    assert_eq!(at(RoadPosition::Separation), 10 * M as u128);
    assert_eq!(at(RoadPosition::RightOf(Forward(1))), 16 * M as u128);
    assert_eq!(at(RoadPosition::MiddleOf(Forward(1))), 13 * M as u128);
    assert_eq!(at(RoadPosition::LeftOf(Forward(1))), 10 * M as u128);
    assert_eq!(at(RoadPosition::LeftOf(Backward(1))), 10 * M as u128);
    assert_eq!(at(RoadPosition::RightOf(Backward(1))), 4 * M as u128);
    // A lane that does not exist gives the full-width center.
    assert_eq!(at(RoadPosition::RightOf(Forward(5))), 10 * M as u128);
}

#[test]
fn center_skips_buffers_and_separation_of_a_one_way() {
    let mut r = road(&[("highway", "residential"), ("lanes", "2"), ("oneway", "yes"), ("sidewalk", "right")]);
    let kinds: Vec<LaneType> = r.lane_specs_ltr.iter().map(|l| l.lt).collect();
    assert_eq!(kinds, vec![LaneType::Driving, LaneType::Driving, LaneType::Sidewalk]);
    let w = vec![3 * M, 3 * M, 1 * M + 1];
    set_widths(&mut r, &w);
    let at = |p: RoadPosition| r.left_edge_offset_of(p, DrivingSide::Right, &w);
    assert_eq!(at(RoadPosition::Center), 6 * M as u128);
    // Driving on the right, the first forward lane already marks the change of direction.
    assert_eq!(at(RoadPosition::Separation), 0);
    // Driving on the left, the lanes are all on the first side: after the last of them.
    assert_eq!(r.left_edge_offset_of(RoadPosition::Separation, DrivingSide::Left, &w), 12 * M as u128);
    // Half of an odd width.
    assert_eq!(at(RoadPosition::FullWidthCenter), (7 * M + 1) as u128);
}

use osm2streets::ids::{IntersectionID, NodeID, RoadID};
use osm2streets::lanes::{BufferType, Direction, LaneSpec, LaneType, LaneWidth};
use osm2streets::network::StreetNetwork;
use osm2streets::road::Road;
use osm2streets::road_functions::{ControlType, IntersectionType};
use osm2streets::tags::Tags;
use osm2streets::types::MapConfig;

fn lane(lt: LaneType, dir: Direction) -> LaneSpec {
    LaneSpec { lt, dir, width: LaneWidth::Exact(1_500_000), turn_restrictions: Vec::new() }
}

fn road(id: usize, src: usize, dst: usize, highway: &str, lanes: Vec<LaneSpec>) -> Road {
    let mut t = Tags::empty();
    t.insert("highway", highway);
    let mut r = Road::new(
        RoadID(id),
        Vec::new(),
        IntersectionID(src),
        IntersectionID(dst),
        &t,
        &MapConfig::default(),
        0,
    );
    r.lane_specs_ltr = lanes;
    r
}

/// Main road 0 runs from 0 to 1; sidepath 1 runs from 2 to 3 beside it, joined to it by the
/// connectors 2 (0 to 2) and 3 (1 to 3).
fn network(main: Vec<LaneSpec>, side: Vec<LaneSpec>) -> StreetNetwork {
    let mut s = StreetNetwork::blank();
    for k in 0..4 {
        s.insert_intersection(
            vec![NodeID(k as i64)],
            IntersectionType::RoadIntersection,
            ControlType::Uncontrolled,
        );
    }
    s.insert_road(road(0, 0, 1, "residential", main));
    s.insert_road(road(1, 2, 3, "cycleway", side));
    s.insert_road(road(2, 0, 2, "cycleway", vec![lane(LaneType::Biking, Direction::Fwd)]));
    s.insert_road(road(3, 1, 3, "cycleway", vec![lane(LaneType::Biking, Direction::Fwd)]));
    s
}

fn kinds(r: &Road) -> Vec<(LaneType, Direction)> {
    r.lane_specs_ltr.iter().map(|l| (l.lt, l.dir)).collect()
}

fn ids(s: &StreetNetwork) -> (Vec<usize>, Vec<usize>) {
    (s.roads.iter().map(|r| r.id.0).collect(), s.intersections.iter().map(|i| i.id.0).collect())
}

#[test]
fn sidepath_zips_inside_the_right_sidewalk_and_connectors_collapse() {
    let main = vec![
        lane(LaneType::Sidewalk, Direction::Back),
        lane(LaneType::Driving, Direction::Back),
        lane(LaneType::Driving, Direction::Fwd),
        lane(LaneType::Sidewalk, Direction::Fwd),
    ];
    let side = vec![
        lane(LaneType::Shoulder, Direction::Back),
        lane(LaneType::Biking, Direction::Fwd),
        lane(LaneType::Biking, Direction::Back),
        lane(LaneType::Shoulder, Direction::Fwd),
    ];
    let mut s = network(main, side);
    s.zip_sidepath(RoadID(1), &vec![RoadID(0)], &vec![false], &vec![true], (Some(RoadID(2)), Some(RoadID(3))));
    assert_eq!(ids(&s), (vec![0], vec![0, 1]));
    assert_eq!(
        kinds(&s.roads[0]),
        vec![
            (LaneType::Sidewalk, Direction::Back),
            (LaneType::Driving, Direction::Back),
            (LaneType::Driving, Direction::Fwd),
            (LaneType::Buffer(BufferType::Planters), Direction::Fwd),
            (LaneType::Biking, Direction::Fwd),
            (LaneType::Biking, Direction::Back),
            (LaneType::Sidewalk, Direction::Fwd),
        ]
    );
    match s.roads[0].lane_specs_ltr[3].width {
        LaneWidth::Exact(d) => {
            assert_eq!(d, LaneSpec::typical_lane_width(LaneType::Buffer(BufferType::Planters)))
        }
        _ => panic!("the buffer has an exact width"),
    }
    assert_eq!(s.intersections[0].roads, vec![RoadID(0)]);
    assert_eq!(s.intersections[1].roads, vec![RoadID(0)]);
}

#[test]
fn sidepath_running_the_other_way_is_reversed_on_the_left_edge() {
    let main = vec![
        lane(LaneType::Driving, Direction::Back),
        lane(LaneType::Driving, Direction::Fwd),
        lane(LaneType::Sidewalk, Direction::Fwd),
    ];
    let side = vec![lane(LaneType::Biking, Direction::Fwd), lane(LaneType::Shoulder, Direction::Fwd)];
    let mut s = network(main, side);
    s.zip_sidepath(RoadID(1), &vec![RoadID(0)], &vec![true], &vec![false], (None, None));
    assert_eq!(ids(&s), (vec![0, 2, 3], vec![0, 1, 2, 3]));
    assert_eq!(
        kinds(&s.roads[0]),
        vec![
            (LaneType::Biking, Direction::Back),
            (LaneType::Buffer(BufferType::Planters), Direction::Back),
            (LaneType::Driving, Direction::Back),
            (LaneType::Driving, Direction::Fwd),
            (LaneType::Sidewalk, Direction::Fwd),
        ]
    );
    assert_eq!(s.intersections[2].roads, vec![RoadID(2)]);
    assert_eq!(s.intersections[3].roads, vec![RoadID(3)]);
}

#[test]
fn left_sidewalk_stays_outside_the_zipped_lanes() {
    let main = vec![lane(LaneType::Sidewalk, Direction::Back), lane(LaneType::Driving, Direction::Fwd)];
    let side = vec![lane(LaneType::Biking, Direction::Fwd)];
    let mut s = network(main, side);
    s.zip_sidepath(RoadID(1), &vec![RoadID(0)], &vec![true], &vec![true], (Some(RoadID(7)), None));
    assert_eq!(ids(&s), (vec![0, 2, 3], vec![0, 1, 2, 3]));
    assert_eq!(
        kinds(&s.roads[0]),
        vec![
            (LaneType::Sidewalk, Direction::Back),
            (LaneType::Biking, Direction::Fwd),
            (LaneType::Buffer(BufferType::Planters), Direction::Fwd),
            (LaneType::Driving, Direction::Fwd),
        ]
    );
}

#[test]
fn zipping_a_missing_sidepath_changes_nothing() {
    let main = vec![lane(LaneType::Driving, Direction::Fwd)];
    let side = vec![lane(LaneType::Biking, Direction::Fwd)];
    let mut s = network(main, side);
    s.zip_sidepath(RoadID(1), &vec![RoadID(0)], &vec![true], &vec![true], (None, None));
    s.zip_sidepath(RoadID(1), &vec![RoadID(0)], &vec![true], &vec![true], (Some(RoadID(2)), None));
    assert_eq!(ids(&s), (vec![0, 2, 3], vec![0, 1, 2, 3]));
    assert_eq!(kinds(&s.roads[0]).len(), 3);
}

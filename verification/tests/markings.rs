use osm2streets::ids::{IntersectionID, RoadID};
use osm2streets::lanes::{BufferType, Direction, LaneSpec, LaneType, LaneWidth};
use osm2streets::marking::{
    arrow_lanes, longitudinal_markings, painted_buffer_lanes, stop_line_groups, LongitudinalLine, Transverse,
};
use osm2streets::road::Road;
use osm2streets::tags::Tags;
use osm2streets::types::{MapConfig, TrafficInterruption};

fn road(kv: &[(&str, &str)]) -> Road {
    let mut t = Tags::empty();
    for (k, v) in kv {
        t.insert(k, v);
    }
    Road::new(RoadID(0), Vec::new(), IntersectionID(0), IntersectionID(1), &t, &MapConfig::default(), 0)
}

fn lane(lt: LaneType, dir: Direction) -> LaneSpec {
    LaneSpec { lt, dir, width: LaneWidth::Exact(3_000_000), turn_restrictions: Vec::new() }
}

#[test]
fn residential_street_markings() {
    let r = road(&[("highway", "residential")]);
    let kinds: Vec<LaneType> = r.lane_specs_ltr.iter().map(|l| l.lt).collect();
    assert_eq!(kinds, vec![LaneType::Sidewalk, LaneType::Driving, LaneType::Driving, LaneType::Sidewalk]);
    assert_ne!(r.lane_specs_ltr[1].dir, r.lane_specs_ltr[2].dir);
    let m: Vec<(usize, LongitudinalLine, [LaneType; 2])> =
        longitudinal_markings(&r).into_iter().map(|(i, l)| (i, l.kind, l.lanes)).collect();
    assert_eq!(
        m,
        vec![
            (1, LongitudinalLine::Edge, [LaneType::Sidewalk, LaneType::Driving]),
            (2, LongitudinalLine::Dividing { overtake_left: true, overtake_right: true }, [LaneType::Driving, LaneType::Driving]),
            (3, LongitudinalLine::Edge, [LaneType::Driving, LaneType::Sidewalk]),
        ]
    );
}

#[test]
fn primary_road_markings_forbid_overtaking_and_edge_the_carriageway() {
    let mut r = road(&[("highway", "primary")]);
    r.lane_specs_ltr = vec![
        lane(LaneType::Driving, Direction::Back),
        lane(LaneType::Driving, Direction::Fwd),
        lane(LaneType::Bus, Direction::Fwd),
    ];
    let m: Vec<(usize, LongitudinalLine)> = longitudinal_markings(&r).into_iter().map(|(i, l)| (i, l.kind)).collect();
    let n = r.lane_specs_ltr.len();
    assert_eq!(n, 3);
    assert_eq!(
        m,
        vec![
            (0, LongitudinalLine::Edge),
            (1, LongitudinalLine::Dividing { overtake_left: false, overtake_right: false }),
            (2, LongitudinalLine::Lane { merge_left: true, merge_right: true }),
            (3, LongitudinalLine::Edge),
        ]
    );
}

#[test]
fn bike_lane_beside_traffic_gets_a_lane_line() {
    let lanes = vec![lane(LaneType::Driving, Direction::Fwd), lane(LaneType::Biking, Direction::Fwd), lane(LaneType::Buffer(BufferType::Curb), Direction::Fwd)];
    let mut r = road(&[("highway", "residential")]);
    r.lane_specs_ltr = lanes;
    let m: Vec<(usize, LongitudinalLine)> = longitudinal_markings(&r).into_iter().map(|(i, l)| (i, l.kind)).collect();
    assert_eq!(
        m,
        vec![
            (0, LongitudinalLine::Edge),
            (1, LongitudinalLine::Lane { merge_left: false, merge_right: false }),
            (2, LongitudinalLine::Edge),
        ]
    );
}

#[test]
fn stop_lines_cover_runs_of_moving_lanes() {
    let lanes = vec![
        lane(LaneType::Sidewalk, Direction::Back),
        lane(LaneType::Driving, Direction::Back),
        lane(LaneType::Driving, Direction::Fwd),
        lane(LaneType::Bus, Direction::Fwd),
        lane(LaneType::Parking, Direction::Fwd),
        lane(LaneType::Biking, Direction::Fwd),
    ];
    assert_eq!(
        stop_line_groups(&lanes, Direction::Fwd, TrafficInterruption::Stop),
        vec![(2, 4, Transverse::StopLine), (5, 6, Transverse::StopLine)]
    );
    assert_eq!(
        stop_line_groups(&lanes, Direction::Back, TrafficInterruption::Yield),
        vec![(1, 2, Transverse::YieldLine)]
    );
    assert_eq!(stop_line_groups(&lanes, Direction::Fwd, TrafficInterruption::Signal).len(), 2);
    assert!(stop_line_groups(&lanes, Direction::Fwd, TrafficInterruption::Uninterrupted).is_empty());
    assert!(stop_line_groups(&lanes, Direction::Back, TrafficInterruption::DeadEnd).is_empty());
}

#[test]
fn arrows_on_moving_lanes_and_areas_on_painted_buffers() {
    let mut r = road(&[("highway", "residential")]);
    r.lane_specs_ltr = vec![
        lane(LaneType::Sidewalk, Direction::Back),
        lane(LaneType::Driving, Direction::Back),
        lane(LaneType::Buffer(BufferType::Stripes), Direction::Fwd),
        lane(LaneType::Driving, Direction::Fwd),
        lane(LaneType::Buffer(BufferType::Curb), Direction::Fwd),
        lane(LaneType::Parking, Direction::Fwd),
        lane(LaneType::Buffer(BufferType::FlexPosts), Direction::Fwd),
        lane(LaneType::Biking, Direction::Fwd),
    ];
    assert_eq!(arrow_lanes(&r), vec![1, 3, 7]);
    assert_eq!(painted_buffer_lanes(&r), vec![2, 6]);
}

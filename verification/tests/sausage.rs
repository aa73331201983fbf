use osm2streets::ids::{IntersectionID, NodeID, OriginalRoad, RoadID};
use osm2streets::lanes::{BufferType, Direction, LaneType, Placement, RoadPosition};
use osm2streets::network::StreetNetwork;
use osm2streets::road::Road;
use osm2streets::road_functions::{ControlType, IntersectionType};
use osm2streets::sausage::{collapse_sausage_links, find_sausage_links};
use osm2streets::tags::Tags;
use osm2streets::types::{DrivingSide, MapConfig};

fn tags(kv: &[(&str, &str)]) -> Tags {
    let mut t = Tags::empty();
    for (k, v) in kv {
        t.insert(k, v);
    }
    t
}

fn road(id: usize, way: i64, src: usize, dst: usize, kv: &[(&str, &str)], cfg: &MapConfig) -> Road {
    Road::new(
        RoadID(id),
        vec![OriginalRoad::new(way, (src as i64, dst as i64))],
        IntersectionID(src),
        IntersectionID(dst),
        &tags(kv),
        cfg,
        0,
    )
}

const ONEWAY: &[(&str, &str)] = &[("highway", "primary"), ("oneway", "yes"), ("name", "Main St")];
const TWOWAY: &[(&str, &str)] = &[("highway", "primary"), ("name", "Main St")];

/// 0 - r2 - 1 = r0 (1 to 2) / r1 (2 to 1) = 2 - r3 - 3
fn split_network(cfg: &MapConfig) -> StreetNetwork {
    let mut s = StreetNetwork::blank();
    s.config = cfg.clone();
    for k in 0..4 {
        s.insert_intersection(
            vec![NodeID(k as i64)],
            IntersectionType::RoadIntersection,
            ControlType::Uncontrolled,
        );
    }
    s.insert_road(road(0, 100, 1, 2, ONEWAY, cfg));
    s.insert_road(road(1, 101, 2, 1, ONEWAY, cfg));
    s.insert_road(road(2, 102, 0, 1, TWOWAY, cfg));
    s.insert_road(road(3, 103, 2, 3, TWOWAY, cfg));
    s
}

fn listed(s: &StreetNetwork, i: usize) -> Vec<RoadID> {
    let k = s.intersection_index(IntersectionID(i)).unwrap();
    s.intersections[k].roads.clone()
}

fn kinds(r: &Road) -> Vec<(LaneType, Direction)> {
    r.lane_specs_ltr.iter().map(|l| (l.lt, l.dir)).collect()
}

fn flipped_without_sidewalk(mut lanes: Vec<(LaneType, Direction)>, at_start: bool) -> Vec<(LaneType, Direction)> {
    if at_start && lanes[0].0 == LaneType::Sidewalk {
        lanes.remove(0);
    }
    lanes.into_iter().map(|(lt, d)| (lt, d.opposite())).collect()
}

#[test]
fn sausage_links_are_found_once() {
    let cfg = MapConfig::default();
    let s = split_network(&cfg);
    assert_eq!(find_sausage_links(&s), vec![(RoadID(0), RoadID(1))]);
}

#[test]
fn no_sausage_link_without_other_roads_at_both_ends() {
    let cfg = MapConfig::default();
    let mut s = split_network(&cfg);
    s.remove_road(RoadID(3));
    assert!(find_sausage_links(&s).is_empty());
}

#[test]
fn no_sausage_link_between_differently_named_roads() {
    let cfg = MapConfig::default();
    let mut s = split_network(&cfg);
    s.remove_road(RoadID(1));
    s.insert_road(road(1, 101, 2, 1, &[("highway", "primary"), ("oneway", "yes")], &cfg));
    assert!(find_sausage_links(&s).is_empty());
}

#[test]
fn no_sausage_link_within_one_osm_way() {
    let cfg = MapConfig::default();
    let mut s = split_network(&cfg);
    let mut r1 = s.remove_road(RoadID(1));
    r1.osm_ids = vec![OriginalRoad::new(100, (1, 2))];
    s.insert_road(r1);
    assert!(find_sausage_links(&s).is_empty());
}

#[test]
fn collapse_sausage_links_joins_the_pair_on_the_right() {
    let cfg = MapConfig::default();
    let mut s = split_network(&cfg);
    let before0 = kinds(&s.roads[0]);
    let before1 = kinds(&s.roads[1]);
    collapse_sausage_links(&mut s);
    let ids: Vec<usize> = s.roads.iter().map(|r| r.id.0).collect();
    assert_eq!(ids, vec![0, 2, 3]);
    assert_eq!(listed(&s, 1), vec![RoadID(0), RoadID(2)]);
    assert_eq!(listed(&s, 2), vec![RoadID(0), RoadID(3)]);
    let joined = &s.roads[0];
    let ways: Vec<i64> = joined.osm_ids.iter().map(|o| o.osm_way_id.0).collect();
    assert_eq!(ways, vec![100, 101]);
    assert_eq!(joined.reference_line_placement, Placement::Consistent(RoadPosition::Center));
    let mut expected: Vec<(LaneType, Direction)> = flipped_without_sidewalk(before1, true);
    expected.reverse();
    expected.push((LaneType::Buffer(BufferType::Curb), Direction::Fwd));
    let mut own = before0;
    if own[0].0 == LaneType::Sidewalk {
        own.remove(0);
    }
    expected.extend(own);
    assert_eq!(kinds(joined), expected);
}

#[test]
fn collapse_sausage_links_joins_the_pair_on_the_left() {
    let mut cfg = MapConfig::default();
    cfg.driving_side = DrivingSide::Left;
    let mut s = split_network(&cfg);
    let before0 = kinds(&s.roads[0]);
    let before1 = kinds(&s.roads[1]);
    collapse_sausage_links(&mut s);
    let joined = &s.roads[0];
    let mut expected = before0;
    if expected[expected.len() - 1].0 == LaneType::Sidewalk {
        expected.pop();
    }
    expected.push((LaneType::Buffer(BufferType::Curb), Direction::Fwd));
    let mut other = before1;
    other.reverse();
    expected.extend(flipped_without_sidewalk(other, true));
    assert_eq!(kinds(joined), expected);
    assert_eq!(s.roads.len(), 3);
}

use osm2streets::ids::{IntersectionID, RoadID};
use osm2streets::ramps::on_off_ramp_candidate;
use osm2streets::road::Road;
use osm2streets::tags::Tags;
use osm2streets::types::MapConfig;

fn road(id: usize, highway: &str) -> Road {
    let mut t = Tags::empty();
    t.insert("highway", highway);
    Road::new(RoadID(id), Vec::new(), IntersectionID(0), IntersectionID(id + 1), &t, &MapConfig::default(), 0)
}

#[test]
fn three_roads_with_a_link_are_a_ramp_candidate() {
    let (a, b, c) = (road(0, "primary"), road(1, "primary"), road(2, "primary_link"));
    assert!(on_off_ramp_candidate(&vec![&a, &b, &c]));
    let m = road(3, "motorway");
    assert!(on_off_ramp_candidate(&vec![&m, &a, &b]));
}

#[test]
fn other_meetings_are_no_ramp_candidate() {
    let (a, b, c, d) = (road(0, "primary"), road(1, "secondary"), road(2, "residential"), road(3, "motorway_link"));
    assert!(!on_off_ramp_candidate(&vec![&a, &b, &c]));
    assert!(!on_off_ramp_candidate(&vec![&a, &d]));
    assert!(!on_off_ramp_candidate(&vec![&a, &b, &c, &d]));
}

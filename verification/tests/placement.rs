use osm2streets::lanes::LtrLaneNum::{Backward, Forward};
use osm2streets::lanes::Placement::{Consistent, Transition, Varying};
use osm2streets::lanes::RoadPosition::{Center, LeftOf, MiddleOf, RightOf, Separation};
use osm2streets::lanes::{Placement, RoadEnd, RoadPosition};
use osm2streets::placement::PlacementError;
use osm2streets::tags::Tags;

fn tags(kv: &[(&str, &str)]) -> Tags {
    let mut t = Tags::empty();
    for (k, v) in kv {
        t.insert(k, v);
    }
    t
}

#[test]
fn road_position_parses() {
    assert_eq!(RoadPosition::parse("").unwrap(), Center);
    assert_eq!(RoadPosition::parse("separation").unwrap(), Separation);
    assert_eq!(RoadPosition::parse("left_of:1").unwrap(), LeftOf(Forward(1)));
    assert_eq!(RoadPosition::parse("middle_of:1").unwrap(), MiddleOf(Forward(1)));
    assert_eq!(RoadPosition::parse("right_of:1").unwrap(), RightOf(Forward(1)));
}

#[test]
fn placement_parses() {
    assert_eq!(
        Placement::parse(&tags(&[("placement", "transition")])).unwrap(),
        Transition
    );
    assert_eq!(
        Placement::parse(&tags(&[("placement", "right_of:1")])).unwrap(),
        Consistent(RightOf(Forward(1)))
    );
    assert_eq!(
        Placement::parse(&tags(&[("placement:forward", "right_of:1")])).unwrap(),
        Consistent(RightOf(Forward(1)))
    );
    assert_eq!(
        Placement::parse(&tags(&[("placement:backward", "right_of:1")])).unwrap(),
        Consistent(RightOf(Backward(1)))
    );
    assert_eq!(
        Placement::parse(&tags(&[
            ("placement:start", "right_of:1"),
            ("placement:end", "right_of:2")
        ]))
        .unwrap(),
        Varying(RightOf(Forward(1)), RightOf(Forward(2)))
    );
    assert_eq!(
        Placement::parse(&tags(&[
            ("placement:backward:start", "right_of:1"),
            ("placement:backward:end", "right_of:2")
        ]))
        .unwrap(),
        Varying(RightOf(Backward(1)), RightOf(Backward(2)))
    );
}

#[test]
fn road_position_errors() {
    match RoadPosition::parse("above_of:1") {
        Err(PlacementError::UnknownLanePositionSpecifier(s)) => assert_eq!(s, "above_of"),
        other => panic!("unexpected {:?}", other),
    }
    match RoadPosition::parse("left_of:x") {
        Err(PlacementError::BadLaneNumber(s)) => assert_eq!(s, "x"),
        other => panic!("unexpected {:?}", other),
    }
    match RoadPosition::parse("nowhere") {
        Err(e @ PlacementError::UnknownPlacementValue(_)) => {
            assert_eq!(e.to_string(), "unknown placement value: nowhere")
        }
        other => panic!("unexpected {:?}", other),
    }
}

#[test]
fn placement_without_tags_is_centered() {
    assert_eq!(Placement::parse(&Tags::empty()).unwrap(), Consistent(Center));
}

#[test]
fn road_position_reverse_twice() {
    let p = RightOf(Forward(3));
    assert_eq!(p.reverse(), RightOf(Backward(3)));
    assert_eq!(p.reverse().reverse(), p);
    assert_eq!(Separation.reverse(), Separation);
}

#[test]
fn left_of_lane_moves_right_edges() {
    assert_eq!(RightOf(Forward(1)).left_of_lane(), Some(Forward(2)));
    assert_eq!(LeftOf(Backward(2)).left_of_lane(), Some(Backward(2)));
    assert_eq!(Center.left_of_lane(), None);
}

#[test]
fn placement_position_at_ends() {
    let v = Varying(RightOf(Forward(1)), RightOf(Forward(2)));
    assert_eq!(v.road_position_at(RoadEnd::Start), Some(RightOf(Forward(1))));
    assert_eq!(v.road_position_at(RoadEnd::End), Some(RightOf(Forward(2))));
    assert_eq!(Transition.road_position_at(RoadEnd::Start), None);
}

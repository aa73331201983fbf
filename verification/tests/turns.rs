use osm2streets::lanes::TurnDirection;
use osm2streets::lanes::TurnDirection::{
    Left, MergeLeft, MergeRight, Reverse, Right, SharpLeft, SharpRight, SlightLeft, SlightRight,
    Through,
};

#[test]
fn turn_direction_parses() {
    assert_eq!(TurnDirection::parse("").unwrap(), None);
    assert_eq!(TurnDirection::parse("none").unwrap(), None);

    for (input, expected) in [
        ("through", Through),
        ("left", Left),
        ("right", Right),
        ("slight_left", SlightLeft),
        ("slight_right", SlightRight),
        ("sharp_left", SharpLeft),
        ("sharp_right", SharpRight),
        ("merge_to_left", MergeLeft),
        ("merge_to_right", MergeRight),
        ("reverse", Reverse),
    ] {
        assert_eq!(TurnDirection::parse(input).unwrap(), Some(expected));
    }

    assert!(TurnDirection::parse("not_a_valid_turn").is_err());
}

#[test]
fn turn_directions_parses() {
    assert_eq!(TurnDirection::parse_set("").unwrap().len(), 0);
    let only = TurnDirection::parse_set("through").unwrap();
    assert_eq!(only.len(), 1);
    assert!(only.contains(Through));
    let two = TurnDirection::parse_set("through;right").unwrap();
    assert_eq!(two.len(), 2);
    assert!(two.contains(Through));
    assert!(two.contains(Right));
    assert!(!two.contains(Left));
}

#[test]
fn turn_set_rejects_unknown_parts() {
    let e = TurnDirection::parse_set("left;sideways").unwrap_err();
    assert_eq!(e.0, "sideways");
    assert_eq!(e.to_string(), "unknown turn direction: sideways");
}

#[test]
fn turn_set_ignores_repeats_and_none() {
    let s = TurnDirection::parse_set("left;left;none").unwrap();
    assert_eq!(s.len(), 1);
    assert!(s.contains(Left));
}

#[test]
fn turn_tag_values_read_back() {
    for d in [Through, Left, Right, SlightLeft, SlightRight, SharpLeft, SharpRight, Reverse] {
        assert_eq!(TurnDirection::parse(d.tag_value()).unwrap(), Some(d));
    }
    assert_eq!(MergeLeft.tag_value(), "merge_left");
    assert!(TurnDirection::parse(MergeLeft.tag_value()).is_err());
}

#[test]
fn turn_angles() {
    assert_eq!(Through.turn_angle(), 0);
    assert_eq!(SlightRight.turn_angle(), 45);
    assert_eq!(MergeLeft.turn_angle(), -45);
    assert_eq!(SharpLeft.turn_angle(), -135);
    assert_eq!(Reverse.turn_angle(), 180);
    assert!(MergeRight.is_merge());
    assert!(!Right.is_merge());
}

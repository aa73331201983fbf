use osm2streets::block::{classify_block, BlockKind, Step, WalkError};
use osm2streets::classify::ConflictType;
use osm2streets::collapse::CollapseError;
use osm2streets::complexity::IntersectionComplexity;
use osm2streets::degenerate::{collapse, should_collapse, trim_deadends, CollapseRefusal};
use osm2streets::ids::{IntersectionID, NodeID, OriginalRoad, RoadID, WayID};
use osm2streets::network::StreetNetwork;
use osm2streets::road::{RestrictionType, Road};
use osm2streets::road_functions::{ControlType, IntersectionType};
use osm2streets::short_roads::collapse_all_junction_roads;
use osm2streets::tags::Tags;
use osm2streets::transform::Transformation;
use osm2streets::types::MapConfig;

fn tags(kv: &[(&str, &str)]) -> Tags {
    let mut t = Tags::empty();
    for (k, v) in kv {
        t.insert(k, v);
    }
    t
}

fn road(id: usize, src: usize, dst: usize, kv: &[(&str, &str)]) -> Road {
    Road::new(
        RoadID(id),
        Vec::new(),
        IntersectionID(src),
        IntersectionID(dst),
        &tags(kv),
        &MapConfig::default(),
        0,
    )
}

fn street(id: usize, src: usize, dst: usize) -> Road {
    road(id, src, dst, &[("highway", "residential")])
}

/// A network with `n` plain intersections, numbered from 0.
fn network(n: usize) -> StreetNetwork {
    let mut s = StreetNetwork::blank();
    for k in 0..n {
        let id = s.insert_intersection(
            vec![NodeID(k as i64)],
            IntersectionType::RoadIntersection,
            ControlType::Uncontrolled,
        );
        assert_eq!(id, IntersectionID(k));
    }
    s
}

fn listed(s: &StreetNetwork, i: usize) -> Vec<RoadID> {
    let k = s.intersection_index(IntersectionID(i)).unwrap();
    s.intersections[k].roads.clone()
}

fn road_by_id(s: &StreetNetwork, r: usize) -> &Road {
    &s.roads[s.road_index(RoadID(r)).unwrap()]
}

#[test]
fn blank_network_hands_out_fresh_ids() {
    let mut s = StreetNetwork::blank();
    assert!(s.roads.is_empty());
    assert!(s.intersections.is_empty());
    assert_eq!(s.next_road_id(), RoadID(0));
    assert_eq!(s.next_road_id(), RoadID(1));
    assert_eq!(s.next_intersection_id(), IntersectionID(0));
    assert_eq!(s.road_id_counter, 2);
    assert_eq!(s.intersection_id_counter, 1);
}

#[test]
fn inserted_roads_stay_in_id_order_and_are_listed_at_their_ends() {
    let mut s = network(3);
    s.insert_road(street(5, 0, 1));
    s.insert_road(street(2, 1, 2));
    s.insert_road(street(9, 2, 2));
    let ids: Vec<usize> = s.roads.iter().map(|r| r.id.0).collect();
    assert_eq!(ids, vec![2, 5, 9]);
    assert_eq!(listed(&s, 0), vec![RoadID(5)]);
    assert_eq!(listed(&s, 1), vec![RoadID(5), RoadID(2)]);
    // A loop is listed once for each end.
    assert_eq!(listed(&s, 2), vec![RoadID(2), RoadID(9), RoadID(9)]);
}

#[test]
fn remove_road_undoes_insert_road() {
    let mut s = network(2);
    s.insert_road(street(0, 0, 1));
    s.insert_road(street(1, 1, 1));
    let removed = s.remove_road(RoadID(1));
    assert_eq!(removed.id, RoadID(1));
    assert_eq!(s.roads.len(), 1);
    assert_eq!(listed(&s, 1), vec![RoadID(0)]);
    let removed = s.remove_road(RoadID(0));
    assert_eq!(removed.src_i, IntersectionID(0));
    assert!(s.roads.is_empty());
    assert!(listed(&s, 0).is_empty());
    assert!(listed(&s, 1).is_empty());
    s.remove_intersection(IntersectionID(0));
    assert_eq!(s.intersections.len(), 1);
    assert_eq!(s.intersection_index(IntersectionID(0)), None);
}

#[test]
fn roads_per_intersection_follow_the_list() {
    let mut s = network(3);
    s.insert_road(street(0, 0, 1));
    s.insert_road(street(1, 1, 2));
    let rs = s.roads_per_intersection(IntersectionID(1));
    let ids: Vec<RoadID> = rs.iter().map(|r| r.id).collect();
    assert_eq!(ids, vec![RoadID(0), RoadID(1)]);
}

#[test]
fn collapse_merges_the_end_into_the_start() {
    // 0 --r0--> 1 --r1--> 2, and r2 from 1 to 3.
    let mut s = network(4);
    s.insert_road(street(0, 0, 1));
    let mut r1 = street(1, 1, 2);
    r1.turn_restrictions.push((RestrictionType::BanTurns, RoadID(0)));
    r1.complicated_turn_restrictions.push((RoadID(0), RoadID(7)));
    s.insert_road(r1);
    s.insert_road(street(2, 1, 3));
    let k1 = s.intersection_index(IntersectionID(1)).unwrap();
    s.intersections[k1].control = ControlType::Lights;

    assert_eq!(
        s.collapse_short_road(RoadID(0)),
        Ok((IntersectionID(0), IntersectionID(1)))
    );
    assert_eq!(s.intersection_index(IntersectionID(1)), None);
    assert_eq!(s.road_index(RoadID(0)), None);
    assert_eq!(listed(&s, 0), vec![RoadID(1), RoadID(2)]);
    let k0 = s.intersection_index(IntersectionID(0)).unwrap();
    assert_eq!(s.intersections[k0].control, ControlType::Lights);
    assert_eq!(s.intersections[k0].osm_ids, vec![NodeID(0), NodeID(1)]);
    assert_eq!(road_by_id(&s, 1).src_i, IntersectionID(0));
    assert_eq!(road_by_id(&s, 2).src_i, IntersectionID(0));
    assert_eq!(road_by_id(&s, 2).dst_i, IntersectionID(3));
    // r1 met the destroyed intersection, so its ban onto r0 becomes bans onto the roads that
    // were at the kept one: there were none. The complicated restriction through r0 becomes a
    // simple ban.
    assert_eq!(
        road_by_id(&s, 1).turn_restrictions,
        vec![(RestrictionType::BanTurns, RoadID(7))]
    );
    assert!(road_by_id(&s, 1).complicated_turn_restrictions.is_empty());
}

#[test]
fn collapse_rewrites_bans_onto_the_successors() {
    // 3 --r3--> 0 --r0--> 1 --r1--> 2; r3 bans turning onto r0.
    let mut s = network(4);
    s.insert_road(street(0, 0, 1));
    s.insert_road(street(1, 1, 2));
    let mut r3 = street(3, 3, 0);
    r3.turn_restrictions.push((RestrictionType::BanTurns, RoadID(0)));
    r3.turn_restrictions.push((RestrictionType::OnlyAllowTurns, RoadID(0)));
    s.insert_road(r3);
    assert_eq!(
        s.collapse_short_road(RoadID(0)),
        Ok((IntersectionID(0), IntersectionID(1)))
    );
    assert_eq!(
        road_by_id(&s, 3).turn_restrictions,
        vec![
            (RestrictionType::BanTurns, RoadID(1)),
            (RestrictionType::OnlyAllowTurns, RoadID(0))
        ]
    );
    assert_eq!(road_by_id(&s, 1).src_i, IntersectionID(0));
}

#[test]
fn collapse_of_a_loop_only_removes_it() {
    let mut s = network(1);
    s.insert_road(street(0, 0, 0));
    assert_eq!(
        s.collapse_short_road(RoadID(0)),
        Ok((IntersectionID(0), IntersectionID(0)))
    );
    assert!(s.roads.is_empty());
    assert_eq!(s.intersections.len(), 1);
    assert!(listed(&s, 0).is_empty());
}

#[test]
fn collapse_refuses_map_edges() {
    let mut s = StreetNetwork::blank();
    s.insert_intersection(vec![], IntersectionType::MapEdge, ControlType::Uncontrolled);
    s.insert_intersection(vec![], IntersectionType::RoadIntersection, ControlType::Uncontrolled);
    s.insert_road(street(0, 0, 1));
    assert_eq!(
        s.collapse_short_road(RoadID(0)),
        Err(CollapseError::TouchesMapEdge(RoadID(0)))
    );
    assert_eq!(s.roads.len(), 1);
    assert_eq!(s.intersections.len(), 2);
}

#[test]
fn blocks_are_classified_by_their_roads() {
    let mut s = network(3);
    s.insert_road(street(0, 0, 1));
    s.insert_road(road(1, 1, 2, &[("highway", "footway"), ("footway", "sidewalk")]));
    s.insert_road(road(
        2,
        2,
        0,
        &[("highway", "cycleway"), ("oneway", "yes"), ("foot", "no")],
    ));
    let kinds = |steps: Vec<Step>| classify_block(&s, &steps);
    assert_eq!(
        kinds(vec![Step::Edge(RoadID(0)), Step::Node(IntersectionID(1)), Step::Edge(RoadID(1))]),
        BlockKind::RoadAndSidewalk
    );
    assert_eq!(
        kinds(vec![Step::Edge(RoadID(0)), Step::Node(IntersectionID(0)), Step::Edge(RoadID(2))]),
        BlockKind::RoadAndCycleLane
    );
    assert_eq!(kinds(vec![Step::Edge(RoadID(0))]), BlockKind::DualCarriageway);
    assert_eq!(
        kinds(vec![Step::Edge(RoadID(1)), Step::Node(IntersectionID(2)), Step::Edge(RoadID(2))]),
        BlockKind::CycleLaneAndSidewalk
    );
    assert_eq!(kinds(vec![Step::Edge(RoadID(1))]), BlockKind::LandUseBlock);
    assert_eq!(kinds(vec![Step::Edge(RoadID(2))]), BlockKind::Unknown);
    assert_eq!(kinds(vec![]), BlockKind::Unknown);
    assert_eq!(
        kinds(vec![Step::Edge(RoadID(0)), Step::Edge(RoadID(1)), Step::Edge(RoadID(2))]),
        BlockKind::RoadAndSidewalk
    );
}

#[test]
fn a_single_driveable_road_is_a_terminus() {
    let mut s = network(2);
    s.insert_road(street(0, 0, 1));
    let (c, w, m) = s.guess_complexity(IntersectionID(1));
    assert_eq!(c, IntersectionComplexity::Terminus);
    assert_eq!(w, ConflictType::Uncontested);
    assert!(m.is_empty());
}

#[test]
fn two_way_roads_meeting_head_on_count_as_crossing() {
    let mut s = network(3);
    s.insert_road(street(0, 0, 1));
    s.insert_road(street(1, 1, 2));
    s.insert_road(road(2, 1, 2, &[("highway", "footway")]));
    // Driving on the right, the movements 0 -> 1 and 1 -> 0 are taken to cross.
    let (c, w, m) = s.guess_complexity(IntersectionID(1));
    assert_eq!(c, IntersectionComplexity::Crossing);
    assert_eq!(w, ConflictType::Cross);
    assert_eq!(m, vec![(RoadID(0), RoadID(1)), (RoadID(1), RoadID(0))]);
    s.config.driving_side = osm2streets::types::DrivingSide::Left;
    let (c, w, _) = s.guess_complexity(IntersectionID(1));
    assert_eq!(c, IntersectionComplexity::Connection);
    assert_eq!(w, ConflictType::Uncontested);
}

#[test]
fn a_four_way_junction_crosses() {
    let mut s = network(5);
    for k in 1..5 {
        s.insert_road(street(k, 0, k));
    }
    let (c, w, m) = s.guess_complexity(IntersectionID(0));
    assert_eq!(c, IntersectionComplexity::Crossing);
    assert_eq!(w, ConflictType::Cross);
    assert_eq!(m.len(), 12);
}

#[test]
fn turn_restrictions_remove_movements() {
    let mut s = network(3);
    let mut r0 = street(0, 0, 1);
    r0.turn_restrictions.push((RestrictionType::BanTurns, RoadID(1)));
    s.insert_road(r0);
    s.insert_road(street(1, 1, 2));
    let (c, w, m) = s.guess_complexity(IntersectionID(1));
    assert_eq!(c, IntersectionComplexity::Connection);
    assert_eq!(w, ConflictType::Uncontested);
    assert_eq!(m, vec![(RoadID(1), RoadID(0))]);
}

#[test]
fn one_way_roads_limit_movements() {
    let mut s = network(4);
    s.insert_road(road(0, 0, 1, &[("highway", "residential"), ("oneway", "yes")]));
    s.insert_road(road(1, 1, 2, &[("highway", "residential"), ("oneway", "yes")]));
    s.insert_road(street(2, 1, 3));
    let (c, w, m) = s.guess_complexity(IntersectionID(1));
    // Out of r0 into r1 or r2; out of r2 into r1. r0 and r2 both enter r1: a merge.
    assert_eq!(m, vec![(RoadID(0), RoadID(1)), (RoadID(0), RoadID(2)), (RoadID(2), RoadID(1))]);
    assert_eq!(w, ConflictType::Merge);
    assert_eq!(c, IntersectionComplexity::MultiConnection);
}

fn road_ids(s: &StreetNetwork) -> Vec<usize> {
    s.roads.iter().map(|r| r.id.0).collect()
}

fn intersection_ids(s: &StreetNetwork) -> Vec<usize> {
    s.intersections.iter().map(|i| i.id.0).collect()
}

#[test]
fn remove_disconnected_roads_keeps_the_largest_group() {
    let mut s = network(7);
    s.insert_road(street(0, 0, 1));
    s.insert_road(street(1, 1, 2));
    s.insert_road(street(4, 2, 2));
    s.insert_road(street(2, 3, 4));
    s.insert_road(road(3, 5, 6, &[("railway", "light_rail")]));
    s.remove_disconnected_roads();
    // The loop r4 belonged to the largest group but is removed as a loop; light rail stays.
    assert_eq!(road_ids(&s), vec![0, 1, 3]);
    assert_eq!(intersection_ids(&s), vec![0, 1, 2, 5, 6]);
    assert_eq!(listed(&s, 2), vec![RoadID(1)]);
}

#[test]
fn remove_disconnected_roads_breaks_ties_towards_the_last_group() {
    let mut s = network(4);
    s.insert_road(street(0, 0, 1));
    s.insert_road(street(1, 2, 3));
    s.remove_disconnected_roads();
    assert_eq!(road_ids(&s), vec![1]);
    assert_eq!(intersection_ids(&s), vec![2, 3]);
}

#[test]
fn remove_disconnected_roads_on_an_empty_network() {
    let mut s = network(2);
    s.remove_disconnected_roads();
    assert!(s.roads.is_empty());
    assert!(s.intersections.is_empty());
}

#[test]
fn walk_around_a_square_block() {
    let mut s = network(4);
    for k in 0..4 {
        s.insert_road(street(k, k, (k + 1) % 4));
    }
    let steps = s.walk_around(IntersectionID(0), true).unwrap();
    let e = |r: usize| Step::Edge(RoadID(r));
    let n = |i: usize| Step::Node(IntersectionID(i));
    assert_eq!(steps, vec![e(0), n(1), e(1), n(2), e(2), n(3), e(3), n(0), e(0)]);
    // Counterclockwise the walk turns the other way at each intersection.
    let steps = s.walk_around(IntersectionID(0), false).unwrap();
    assert_eq!(steps, vec![e(0), n(1), e(1), n(2), e(2), n(3), e(3), n(0), e(0)]);
}

#[test]
fn walk_around_a_dead_end_comes_straight_back() {
    let mut s = network(2);
    s.insert_road(street(0, 0, 1));
    let steps = s.walk_around(IntersectionID(0), true).unwrap();
    assert_eq!(
        steps,
        vec![
            Step::Edge(RoadID(0)),
            Step::Node(IntersectionID(1)),
            Step::Edge(RoadID(0)),
            Step::Node(IntersectionID(0)),
            Step::Edge(RoadID(0))
        ]
    );
}

#[test]
fn walk_around_gives_up_when_caught_in_a_loop() {
    let mut s = network(2);
    s.insert_road(street(0, 0, 1));
    s.insert_road(street(1, 1, 1));
    assert_eq!(s.walk_around(IntersectionID(0), true), Err(WalkError::NoReturn));
}

#[test]
fn collapse_intersection_joins_two_roads() {
    let mut s = network(4);
    let mut r0 = street(0, 0, 1);
    r0.osm_ids.push(OriginalRoad::new(10, (0, 1)));
    s.insert_road(r0);
    let mut r1 = street(1, 1, 2);
    r1.osm_ids.push(OriginalRoad::new(11, (1, 2)));
    s.insert_road(r1);
    let mut r3 = street(3, 2, 3);
    r3.turn_restrictions.push((RestrictionType::BanTurns, RoadID(1)));
    r3.complicated_turn_restrictions.push((RoadID(1), RoadID(0)));
    s.insert_road(r3);

    s.collapse_intersection(IntersectionID(1));
    assert_eq!(road_ids(&s), vec![0, 3]);
    assert_eq!(intersection_ids(&s), vec![0, 2, 3]);
    let joined = road_by_id(&s, 0);
    assert_eq!(joined.src_i, IntersectionID(0));
    assert_eq!(joined.dst_i, IntersectionID(2));
    let ways: Vec<WayID> = joined.osm_ids.iter().map(|o| o.osm_way_id).collect();
    assert_eq!(ways, vec![WayID(10), WayID(11)]);
    assert_eq!(listed(&s, 0), vec![RoadID(0)]);
    assert_eq!(listed(&s, 2), vec![RoadID(3), RoadID(0)]);
    let r3 = road_by_id(&s, 3);
    assert_eq!(r3.turn_restrictions, vec![(RestrictionType::BanTurns, RoadID(0))]);
    assert_eq!(r3.complicated_turn_restrictions, vec![(RoadID(0), RoadID(0))]);
}

#[test]
fn collapse_intersection_keeps_the_first_roads_direction() {
    // r0: 1 -> 0 and r1: 2 -> 1 meet at 1 head to tail the other way round.
    let mut s = network(3);
    s.insert_road(street(0, 1, 0));
    s.insert_road(street(1, 2, 1));
    s.collapse_intersection(IntersectionID(1));
    let joined = road_by_id(&s, 0);
    assert_eq!((joined.src_i, joined.dst_i), (IntersectionID(2), IntersectionID(0)));
}

#[test]
fn collapse_intersection_leaves_loops_alone() {
    let mut s = network(2);
    s.insert_road(street(0, 0, 1));
    s.insert_road(street(1, 1, 0));
    s.collapse_intersection(IntersectionID(1));
    assert_eq!(road_ids(&s), vec![0, 1]);
    assert_eq!(intersection_ids(&s), vec![0, 1]);
}

#[test]
fn should_collapse_compares_the_two_roads() {
    let a = street(0, 0, 1);
    let b = street(1, 1, 2);
    assert_eq!(should_collapse(&a, &b), Ok(()));
    let named = road(2, 1, 2, &[("highway", "residential"), ("name", "Main St")]);
    assert_eq!(should_collapse(&a, &named), Err(CollapseRefusal::NamesDiffer));
    let wide = road(3, 1, 2, &[("highway", "residential"), ("lanes", "4")]);
    assert_eq!(should_collapse(&a, &wide), Err(CollapseRefusal::LaneSpecsDiffer));
    let mut restricted = street(4, 1, 2);
    restricted.turn_restrictions.push((RestrictionType::BanTurns, RoadID(0)));
    assert_eq!(should_collapse(&a, &restricted), Err(CollapseRefusal::TurnRestrictions));
    let one1 = road(5, 0, 1, &[("highway", "residential"), ("oneway", "yes")]);
    let one2 = road(6, 2, 1, &[("highway", "residential"), ("oneway", "yes")]);
    assert_eq!(should_collapse(&one1, &one2), Err(CollapseRefusal::OnewaysPointAtEachOther));
    let service = road(7, 1, 2, &[("highway", "service")]);
    assert_ne!(should_collapse(&a, &service), Ok(()));
    let mut up = street(8, 1, 2);
    up.layer = 1;
    assert_eq!(should_collapse(&a, &up), Err(CollapseRefusal::LayersDiffer));
    let placed = road(9, 1, 2, &[("highway", "residential"), ("placement", "right_of:1")]);
    assert_eq!(should_collapse(&a, &placed), Err(CollapseRefusal::PlacementsDiffer));
    let moving = road(
        10,
        1,
        2,
        &[("highway", "residential"), ("placement:start", "right_of:1"), ("placement:end", "right_of:2")],
    );
    assert_eq!(should_collapse(&a, &moving), Err(CollapseRefusal::PlacementNotConsistent));
}

#[test]
fn retain_roads_removes_the_others() {
    let mut s = network(3);
    s.insert_road(street(0, 0, 1));
    s.insert_road(street(1, 1, 2));
    s.insert_road(street(2, 2, 0));
    s.insert_road(street(3, 2, 2));
    s.retain_roads(|r| r.src_i != r.dst_i && r.id.0 != 1);
    assert_eq!(road_ids(&s), vec![0, 2]);
    assert_eq!(listed(&s, 0), vec![RoadID(0), RoadID(2)]);
    assert_eq!(listed(&s, 1), vec![RoadID(0)]);
    assert_eq!(listed(&s, 2), vec![RoadID(2)]);
    assert_eq!(intersection_ids(&s), vec![0, 1, 2]);
}

#[test]
fn short_roads_at_traffic_signals_are_marked() {
    let mut s = network(4);
    let k1 = s.intersection_index(IntersectionID(1)).unwrap();
    s.intersections[k1].control = ControlType::Lights;
    let k3 = s.intersection_index(IntersectionID(3)).unwrap();
    s.intersections[k3].kind = IntersectionType::MapEdge;
    s.intersections[k3].control = ControlType::Lights;
    s.insert_road(street(0, 0, 1));
    s.insert_road(street(1, 1, 2));
    s.insert_road(street(2, 0, 2));
    s.insert_road(street(3, 1, 3));
    let m = 1_000_000u64;
    let lengths = vec![10 * m, 30 * m, 5 * m, 5 * m];
    let found = s.find_traffic_signal_clusters(&lengths);
    assert_eq!(found, vec![RoadID(0)]);
    assert!(road_by_id(&s, 0).internal_junction_road);
    assert!(!road_by_id(&s, 1).internal_junction_road);
    assert!(!road_by_id(&s, 2).internal_junction_road);
    assert!(!road_by_id(&s, 3).internal_junction_road);
    // Exactly at the threshold still counts; a road already marked is not found again.
    let found = s.find_traffic_signal_clusters(&vec![20 * m, 20 * m, 5 * m, 5 * m]);
    assert_eq!(found, vec![RoadID(1)]);
}

#[test]
fn mark_short_roads_sets_the_flag() {
    let mut s = network(2);
    s.insert_road(street(0, 0, 1));
    s.insert_road(street(1, 1, 0));
    let list = s.mark_short_roads(vec![RoadID(1)]);
    assert_eq!(list, vec![RoadID(1)]);
    assert!(!road_by_id(&s, 0).internal_junction_road);
    assert!(road_by_id(&s, 1).internal_junction_road);
}

#[test]
fn collapse_joins_a_chain_of_matching_roads() {
    // 0 - r0 - 1 - r1 - 2 - r2 - 3, all alike: both middle intersections go. At 1, r0 takes
    // over r1 and is then listed after r2 at 2, so r2 takes over r0 there.
    let mut s = network(4);
    s.insert_road(street(0, 0, 1));
    s.insert_road(street(1, 1, 2));
    s.insert_road(street(2, 2, 3));
    collapse(&mut s);
    assert_eq!(road_ids(&s), vec![2]);
    assert_eq!(intersection_ids(&s), vec![0, 3]);
    let joined = road_by_id(&s, 2);
    assert_eq!((joined.src_i, joined.dst_i), (IntersectionID(0), IntersectionID(3)));
    assert_eq!(listed(&s, 0), vec![RoadID(2)]);
    assert_eq!(listed(&s, 3), vec![RoadID(2)]);
}

#[test]
fn collapse_keeps_intersections_between_different_roads() {
    let mut s = network(3);
    s.insert_road(street(0, 0, 1));
    s.insert_road(road(1, 1, 2, &[("highway", "residential"), ("name", "Main St")]));
    collapse(&mut s);
    assert_eq!(road_ids(&s), vec![0, 1]);
    assert_eq!(intersection_ids(&s), vec![0, 1, 2]);
}

#[test]
fn collapse_leaves_loops_and_junctions_alone() {
    // A loop through 0 and 1, and a three-way junction at 2.
    let mut s = network(5);
    s.insert_road(street(0, 0, 1));
    s.insert_road(street(1, 1, 0));
    s.insert_road(street(2, 2, 3));
    s.insert_road(street(3, 2, 4));
    s.insert_road(street(4, 4, 2));
    collapse(&mut s);
    assert_eq!(road_ids(&s), vec![0, 1, 2, 3, 4]);
    assert_eq!(intersection_ids(&s), vec![0, 1, 2, 3, 4]);
}

#[test]
fn collapse_all_junction_roads_merges_each_marked_road() {
    let mut s = network(4);
    s.insert_road(street(0, 0, 1));
    let mut r1 = street(1, 1, 2);
    r1.internal_junction_road = true;
    s.insert_road(r1);
    s.insert_road(street(2, 2, 3));
    collapse_all_junction_roads(&mut s);
    assert_eq!(road_ids(&s), vec![0, 2]);
    assert_eq!(intersection_ids(&s), vec![0, 1, 3]);
    let r2 = road_by_id(&s, 2);
    assert_eq!((r2.src_i, r2.dst_i), (IntersectionID(1), IntersectionID(3)));
    assert_eq!(listed(&s, 1), vec![RoadID(0), RoadID(2)]);
}

#[test]
fn collapse_all_junction_roads_leaves_map_edges() {
    let mut s = StreetNetwork::blank();
    s.insert_intersection(vec![NodeID(0)], IntersectionType::MapEdge, ControlType::Uncontrolled);
    s.insert_intersection(vec![NodeID(1)], IntersectionType::RoadIntersection, ControlType::Uncontrolled);
    let mut r0 = street(0, 0, 1);
    r0.internal_junction_road = true;
    s.insert_road(r0);
    collapse_all_junction_roads(&mut s);
    assert_eq!(road_ids(&s), vec![0]);
    assert_eq!(intersection_ids(&s), vec![0, 1]);
}

#[test]
fn trim_deadends_removes_short_service_stubs() {
    let mut s = network(3);
    s.insert_road(street(0, 0, 1));
    s.insert_road(road(1, 1, 2, &[("highway", "service")]));
    // Lengths in micrometres: 100 m and 10 m.
    trim_deadends(&mut s, &vec![100_000_000, 10_000_000]);
    assert_eq!(road_ids(&s), vec![0]);
    // Intersection 0 is a dead end too, but of a residential street.
    assert_eq!(intersection_ids(&s), vec![0, 1]);
    assert_eq!(listed(&s, 1), vec![RoadID(0)]);
}

#[test]
fn trim_deadends_keeps_long_stubs_and_map_edges() {
    let mut s = StreetNetwork::blank();
    s.insert_intersection(vec![NodeID(0)], IntersectionType::MapEdge, ControlType::Uncontrolled);
    s.insert_intersection(vec![NodeID(1)], IntersectionType::RoadIntersection, ControlType::Uncontrolled);
    s.insert_intersection(vec![NodeID(2)], IntersectionType::RoadIntersection, ControlType::Uncontrolled);
    s.insert_road(road(0, 0, 1, &[("highway", "service")]));
    s.insert_road(road(1, 1, 2, &[("highway", "service")]));
    // The first is short but ends at a map edge; the second is exactly 30 m long.
    trim_deadends(&mut s, &vec![1_000_000, 30_000_000]);
    assert_eq!(road_ids(&s), vec![0, 1]);
    assert_eq!(intersection_ids(&s), vec![0, 1, 2]);
}

/// Every road's ends are intersections, and each intersection lists exactly the roads that end
/// there, once for each end.
fn assert_consistent(s: &StreetNetwork) {
    for r in &s.roads {
        assert!(s.intersection_index(r.src_i).is_some());
        assert!(s.intersection_index(r.dst_i).is_some());
    }
    for i in &s.intersections {
        for r in &s.roads {
            let ends = (r.src_i == i.id) as usize + (r.dst_i == i.id) as usize;
            assert_eq!(i.roads.iter().filter(|x| **x == r.id).count(), ends);
        }
        for x in &i.roads {
            assert!(s.road_index(*x).is_some());
        }
    }
}

#[test]
fn transformations_keep_the_network_consistent() {
    // A chain, a loop, a junction road and a short service stub.
    let build = || {
        let mut s = network(7);
        s.insert_road(street(0, 0, 1));
        s.insert_road(street(1, 1, 2));
        s.insert_road(street(2, 2, 3));
        s.insert_road(street(3, 3, 4));
        s.insert_road(street(4, 4, 3));
        let mut j = street(5, 2, 5);
        j.internal_junction_road = true;
        s.insert_road(j);
        s.insert_road(road(6, 5, 6, &[("highway", "service")]));
        s
    };
    let mut s = build();
    assert_consistent(&s);
    collapse(&mut s);
    assert_consistent(&s);
    let mut s = build();
    collapse_all_junction_roads(&mut s);
    assert_consistent(&s);
    let mut s = build();
    let lengths: Vec<u64> = s.roads.iter().map(|_| 1_000_000).collect();
    trim_deadends(&mut s, &lengths);
    assert_consistent(&s);
    assert_eq!(road_ids(&s), vec![0, 1, 2, 3, 4, 5]);
}

#[test]
fn applying_transformations_dispatches_to_each_step() {
    let mut s = network(4);
    s.insert_road(street(0, 0, 1));
    let mut r1 = street(1, 1, 2);
    r1.internal_junction_road = true;
    s.insert_road(r1);
    s.insert_road(street(2, 2, 3));
    // The geometric steps are left to the caller.
    assert!(!Transformation::SnapCycleways.apply(&mut s, &vec![]));
    assert!(!Transformation::MergeDualCarriageways.apply(&mut s, &vec![]));
    assert_eq!(road_ids(&s), vec![0, 1, 2]);
    assert!(Transformation::CollapseShortRoads.apply(&mut s, &vec![]));
    assert_eq!(road_ids(&s), vec![0, 2]);
    assert_eq!(intersection_ids(&s), vec![0, 1, 3]);
    assert!(Transformation::CollapseDegenerateIntersections.apply(&mut s, &vec![]));
    assert_eq!(s.roads.len(), 1);
    assert_eq!(intersection_ids(&s), vec![0, 3]);
}

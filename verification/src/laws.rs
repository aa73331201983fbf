//! Properties that hold of the library as a whole.
use vstd::prelude::*;

use crate::classic::{spec_apply_turn_restrictions, spec_infer_sidewalk_tags, turn_applicable};
use crate::classify::{spec_calc_conflict, ConflictType};
use crate::lanes::{
    is_lane_char, spec_assemble_ltr, spec_from_char, spec_from_short_name, spec_is_for_moving_vehicles,
    spec_is_walkable, spec_lane_num_reverse, spec_opposite, spec_position_reverse,
    spec_short_name, spec_supports_any_movement, spec_to_char, spec_traffic_class, BufferType,
    Direction, LaneType, LtrLaneNum, RoadPosition,
};
use crate::turns::{spec_parse_turn, spec_tag_value};
use crate::types::{DrivingSide, MapConfig};
use crate::lanes::TurnDirection;
use crate::collapse::{
    ban_all, collapsed_road, collapsible_at, complicated_kept, ends_at, fixed_restrictions,
    intersection_collapsed, lemma_road_unique, lemma_road_with_id_at, lists_its_roads,
    merged_road, renamed_road, repoint, short_road_collapsed, three_ends, with_merged_ends,
    CollapseError,
};
use crate::road_functions::IntersectionType;
use crate::block::road_with_id;
use crate::complexity::{movement_allowed, movements_from, movements_upto, spec_movements};
use crate::ids::{IntersectionID, OriginalRoad, RoadID};
use crate::names::spec_names_of_tags;
use crate::network::{with_road_added, with_road_removed, without_road, Intersection};
use crate::block::lists_only_roads;
use crate::network::{
    has_intersection, has_road, intersection_at, intersections_sorted, road_at, roads_sorted,
    same_but_roads,
};
use crate::disconnected::{
    ends_present, lists_match_ends, disconnected_removed, in_graph, is_largest_component, lemma_reach_symm, lemma_reach_trans,
    reaches, remaining_ids, road_is_light_rail, survives, surviving,
};
use crate::road::{RestrictionType, Road};
use crate::sequences::{chained, spec_orient_oneways};

verus! {

/// Turning around twice faces the original way, and turning around never keeps the way.
pub proof fn law_opposite_involution(d: Direction)
    ensures
        spec_opposite(spec_opposite(d)) == d,
        spec_opposite(d) != d,
{
}

/// Reversing a lane number twice gives it back.
pub proof fn law_lane_num_reverse_involution(n: LtrLaneNum)
    ensures
        spec_lane_num_reverse(spec_lane_num_reverse(n)) == n,
{
}

/// Interpreting a road position from the other direction twice gives it back.
pub proof fn law_position_reverse_involution(p: RoadPosition)
    ensures
        spec_position_reverse(spec_position_reverse(p)) == p,
{
}

/// `from_char` is the inverse of `to_char` on every character that `to_char` gives, and gives
/// back every lane type but the buffers, of which it always picks flex posts.
pub proof fn law_lane_char_round_trip(lt: LaneType, c: char)
    ensures
        is_lane_char(spec_to_char(lt)),
        !(lt is Buffer) ==> spec_from_char(spec_to_char(lt)) == lt,
        lt is Buffer ==> spec_from_char(spec_to_char(lt)) == LaneType::Buffer(BufferType::FlexPosts),
        is_lane_char(c) ==> spec_to_char(spec_from_char(c)) == c,
{
}

/// Reading a lane type back from its short name gives the same lane type.
pub proof fn law_short_name_round_trip(lt: LaneType)
    ensures
        spec_from_short_name(spec_short_name(lt)) == Some(lt),
{
    reveal_strlit("driving lane");
    reveal_strlit("bike lane");
    reveal_strlit("bus lane");
    reveal_strlit("parking lane");
    reveal_strlit("sidewalk");
    reveal_strlit("shoulder");
    reveal_strlit("left-turn lane");
    reveal_strlit("construction");
    reveal_strlit("light rail track");
    reveal_strlit("stripes");
    reveal_strlit("flex posts");
    reveal_strlit("planters");
    reveal_strlit("Jersey barrier");
    reveal_strlit("curb");
    reveal_strlit("verge");
    reveal_strlit("footway");
    reveal_strlit("shared-use path");
    assert("driving lane"@.len() == 12 && "driving lane"@[0] == 'd' && "driving lane"@[1] == 'r');
    assert("bike lane"@.len() == 9 && "bike lane"@[0] == 'b' && "bike lane"@[1] == 'i');
    assert("bus lane"@.len() == 8 && "bus lane"@[0] == 'b' && "bus lane"@[1] == 'u');
    assert("parking lane"@.len() == 12 && "parking lane"@[0] == 'p' && "parking lane"@[1] == 'a');
    assert("sidewalk"@.len() == 8 && "sidewalk"@[0] == 's' && "sidewalk"@[1] == 'i');
    assert("shoulder"@.len() == 8 && "shoulder"@[0] == 's' && "shoulder"@[1] == 'h');
    assert("left-turn lane"@.len() == 14 && "left-turn lane"@[0] == 'l' && "left-turn lane"@[1] == 'e');
    assert("construction"@.len() == 12 && "construction"@[0] == 'c' && "construction"@[1] == 'o');
    assert("light rail track"@.len() == 16 && "light rail track"@[0] == 'l' && "light rail track"@[1] == 'i');
    assert("stripes"@.len() == 7 && "stripes"@[0] == 's' && "stripes"@[1] == 't');
    assert("flex posts"@.len() == 10 && "flex posts"@[0] == 'f' && "flex posts"@[1] == 'l');
    assert("planters"@.len() == 8 && "planters"@[0] == 'p' && "planters"@[1] == 'l');
    assert("Jersey barrier"@.len() == 14 && "Jersey barrier"@[0] == 'J' && "Jersey barrier"@[1] == 'e');
    assert("curb"@.len() == 4 && "curb"@[0] == 'c' && "curb"@[1] == 'u');
    assert("verge"@.len() == 5 && "verge"@[0] == 'v' && "verge"@[1] == 'e');
    assert("footway"@.len() == 7 && "footway"@[0] == 'f' && "footway"@[1] == 'o');
    assert("shared-use path"@.len() == 15 && "shared-use path"@[0] == 's' && "shared-use path"@[1] == 'h');
    match lt {
        LaneType::Buffer(BufferType::Stripes) => {},
        LaneType::Buffer(BufferType::FlexPosts) => {},
        LaneType::Buffer(BufferType::Planters) => {},
        LaneType::Buffer(BufferType::JerseyBarrier) => {},
        LaneType::Buffer(BufferType::Curb) => {},
        LaneType::Buffer(BufferType::Verge) => {},
        _ => {},
    }
}

/// Every walkable lane supports some movement, and every lane for moving vehicles carries a
/// class of traffic.
pub proof fn law_lane_type_classes(lt: LaneType)
    ensures
        spec_is_walkable(lt) ==> spec_supports_any_movement(lt),
        spec_is_for_moving_vehicles(lt) ==> spec_traffic_class(lt) is Some,
{
}

/// Reading the tag value of a turn direction gives the direction back, except for the merges,
/// whose tag values are not the ones that the `turn` scheme reads.
pub proof fn law_turn_tag_value_round_trip(d: TurnDirection)
    requires
        d != TurnDirection::MergeLeft,
        d != TurnDirection::MergeRight,
    ensures
        spec_parse_turn(spec_tag_value(d)) == Ok::<Option<TurnDirection>, Seq<char>>(Some(d)),
{
    reveal_strlit("none");
    reveal_strlit("through");
    reveal_strlit("left");
    reveal_strlit("right");
    reveal_strlit("slight_left");
    reveal_strlit("slight_right");
    reveal_strlit("sharp_left");
    reveal_strlit("sharp_right");
    reveal_strlit("merge_to_left");
    reveal_strlit("merge_to_right");
    reveal_strlit("reverse");
    assert("none"@.len() == 4 && "none"@[0] == 'n' && "none"@[1] == 'o');
    assert("through"@.len() == 7 && "through"@[0] == 't' && "through"@[1] == 'h');
    assert("left"@.len() == 4 && "left"@[0] == 'l' && "left"@[1] == 'e');
    assert("right"@.len() == 5 && "right"@[0] == 'r' && "right"@[1] == 'i');
    assert("slight_left"@.len() == 11 && "slight_left"@[0] == 's' && "slight_left"@[1] == 'l');
    assert("slight_right"@.len() == 12 && "slight_right"@[0] == 's' && "slight_right"@[1] == 'l');
    assert("sharp_left"@.len() == 10 && "sharp_left"@[0] == 's' && "sharp_left"@[1] == 'h');
    assert("sharp_right"@.len() == 11 && "sharp_right"@[0] == 's' && "sharp_right"@[1] == 'h');
    assert("merge_to_left"@.len() == 13 && "merge_to_left"@[0] == 'm' && "merge_to_left"@[1] == 'e');
    assert("merge_to_right"@.len() == 14 && "merge_to_right"@[0] == 'm' && "merge_to_right"@[1] == 'e');
    assert("reverse"@.len() == 7 && "reverse"@[0] == 'r' && "reverse"@[1] == 'e');
    match d {
        TurnDirection::Through => {},
        TurnDirection::Left => {},
        TurnDirection::Right => {},
        TurnDirection::SlightLeft => {},
        TurnDirection::SlightRight => {},
        TurnDirection::SharpLeft => {},
        TurnDirection::SharpRight => {},
        TurnDirection::MergeLeft => {},
        TurnDirection::MergeRight => {},
        TurnDirection::Reverse => {},
    }
}

/// Driving on the left mirrors driving on the right: the left-to-right lanes for one side are
/// those for the other side read right to left, and swapping the roles of the two directions.
pub proof fn law_assemble_mirror<T>(fwd: Seq<T>, back: Seq<T>)
    ensures
        spec_assemble_ltr(fwd, back, DrivingSide::Left) == spec_assemble_ltr(back, fwd, DrivingSide::Right),
        spec_assemble_ltr(fwd, back, DrivingSide::Left) == spec_assemble_ltr(fwd, back, DrivingSide::Right).reverse(),
        spec_assemble_ltr(fwd, back, DrivingSide::Left).len() == fwd.len() + back.len(),
{
    let r = spec_assemble_ltr(fwd, back, DrivingSide::Right);
    let l = spec_assemble_ltr(fwd, back, DrivingSide::Left);
    assert(l =~= r.reverse());
}

/// Sidewalk inference sets `sidewalk` when the map infers sidewalks, changes no other tag,
/// keeps a `sidewalk` tag that is already there, and running it again changes nothing.
pub proof fn law_infer_sidewalks(t: Map<Seq<char>, Seq<char>>, cfg: MapConfig)
    ensures
        cfg.inferred_sidewalks ==> spec_infer_sidewalk_tags(t, cfg).contains_key("sidewalk"@),
        t.contains_key("sidewalk"@) ==> spec_infer_sidewalk_tags(t, cfg) == t,
        forall|k: Seq<char>|
            k != "sidewalk"@ ==> (#[trigger] spec_infer_sidewalk_tags(t, cfg).contains_key(k)
                == t.contains_key(k) && (t.contains_key(k) ==> spec_infer_sidewalk_tags(t, cfg)[k]
                == t[k])),
        spec_infer_sidewalk_tags(spec_infer_sidewalk_tags(t, cfg), cfg) == spec_infer_sidewalk_tags(t, cfg),
{
}

/// Turn restrictions only ever go to driving and bus lanes; every other lane keeps the
/// restrictions it had.
pub proof fn law_turn_restrictions_only_on_travel_lanes(s: Seq<crate::lanes::LaneSpecView>, value: Seq<char>)
    ensures
        spec_apply_turn_restrictions(s, value).len() == s.len(),
        forall|j: int|
            0 <= j < s.len() && !turn_applicable(s[j]) ==> #[trigger] spec_apply_turn_restrictions(s, value)[j] == s[j],
        forall|j: int|
            0 <= j < s.len() ==> (#[trigger] spec_apply_turn_restrictions(s, value)[j]).lt == s[j].lt
                && spec_apply_turn_restrictions(s, value)[j].dir == s[j].dir,
{
}

/// A movement never conflicts with itself, and two movements between four different roads
/// conflict the same way whichever is asked about first.
pub proof fn law_conflict_symmetry(a: (int, int), b: (int, int), side: DrivingSide)
    ensures
        spec_calc_conflict(a, a, side) == ConflictType::Uncontested,
        (a.0 != b.0 && a.0 != b.1 && a.1 != b.0 && a.1 != b.1) ==> spec_calc_conflict(a, b, side)
            == spec_calc_conflict(b, a, side),
{
}


/// Tags give back what was written under a key, and writing under one key leaves the others.
pub proof fn law_tags_read_after_write(
    t: Map<Seq<char>, Seq<char>>,
    k: Seq<char>,
    v: Seq<char>,
    other: Seq<char>,
)
    ensures
        t.insert(k, v).contains_key(k) && t.insert(k, v)[k] == v,
        other != k ==> (t.insert(k, v).contains_key(other) == t.contains_key(other) && (
        t.contains_key(other) ==> t.insert(k, v)[other] == t[other])),
{
}

/// The names of a tagged object: the native name is the `name` tag, and a language has a name
/// exactly where a `name:` tag for it exists; any other language falls back to the native name.
pub proof fn law_names_of_tags(t: Map<Seq<char>, Seq<char>>, lang: Seq<char>)
    ensures
        spec_names_of_tags(t).contains_key(None),
        spec_names_of_tags(t)[None] == t["name"@],
        spec_names_of_tags(t).contains_key(Some(lang)) == t.contains_key("name:"@ + lang),
        t.contains_key("name:"@ + lang) ==> spec_names_of_tags(t)[Some(lang)] == t["name:"@ + lang],
{
}

/// Orienting one-way roads gives them chained, in the given order or reversed.
pub proof fn law_orient_oneways(s: Seq<OriginalRoad>)
    ensures
        spec_orient_oneways(s) matches Some(v) ==> chained(v) && (v == s || v == s.reverse()),
        chained(s) ==> spec_orient_oneways(s) == Some(s),
{
}

/// Taking a road out of a list leaves none of it.
proof fn lemma_without_road_absent(s: Seq<RoadID>, id: RoadID)
    ensures
        !without_road(s, id).contains(id),
        forall|j: int| 0 <= j < without_road(s, id).len() ==> s.contains(#[trigger] without_road(s, id)[j]),
    decreases s.len(),
{
    if s.len() > 0 {
        lemma_without_road_absent(s.drop_last(), id);
        let w = without_road(s.drop_last(), id);
        if s.last() != id {
            assert forall|j: int| 0 <= j < w.push(s.last()).len() implies s.contains(#[trigger] w.push(s.last())[j]) by {
                if j < w.len() {
                    let x = choose|x: int| 0 <= x < s.drop_last().len() && s.drop_last()[x] == w[j];
                    assert(s[x] == w[j]);
                } else {
                    assert(s[s.len() - 1] == s.last());
                }
            }
        } else {
            assert forall|j: int| 0 <= j < w.len() implies s.contains(#[trigger] w[j]) by {
                let x = choose|x: int| 0 <= x < s.drop_last().len() && s.drop_last()[x] == w[j];
                assert(s[x] == w[j]);
            }
        }
    }
}

/// Taking out a road that is not there changes nothing.
proof fn lemma_without_absent_road(s: Seq<RoadID>, id: RoadID)
    requires
        !s.contains(id),
    ensures
        without_road(s, id) == s,
    decreases s.len(),
{
    if s.len() > 0 {
        assert(!s.drop_last().contains(id)) by {
            if s.drop_last().contains(id) {
                let x = choose|x: int| 0 <= x < s.drop_last().len() && s.drop_last()[x] == id;
                assert(s[x] == id);
            }
        }
        lemma_without_absent_road(s.drop_last(), id);
        assert(s.last() != id) by {
            assert(s[s.len() - 1] == s.last());
        }
        assert(s.drop_last().push(s.last()) =~= s);
    }
}

/// Removing a road undoes inserting it: the roads of the network get the same list back, and
/// so does each intersection's list of roads, where the road was not listed before.
pub proof fn law_remove_road_undoes_insert(rs: Seq<Road>, k: int, r: Road, s: Seq<RoadID>, i: IntersectionID)
    requires
        0 <= k <= rs.len(),
        !s.contains(r.id),
    ensures
        rs.insert(k, r).remove(k) == rs,
        with_road_removed(with_road_added(s, i, r), i, r) == s,
{
    assert(rs.insert(k, r).remove(k) =~= rs);
    let s1 = if r.src_i == i { s.push(r.id) } else { s };
    let s2 = if r.dst_i == i { s1.push(r.id) } else { s1 };
    if r.src_i == i || r.dst_i == i {
        lemma_without_absent_road(s, r.id);
        let p1 = s.push(r.id);
        assert(p1.drop_last() =~= s);
        assert(p1.last() == r.id);
        assert(without_road(p1, r.id) == without_road(s, r.id));
        if r.src_i == i && r.dst_i == i {
            let p2 = p1.push(r.id);
            assert(p2.drop_last() =~= p1);
            assert(p2.last() == r.id);
            assert(without_road(p2, r.id) == without_road(p1, r.id));
        }
    }
}

/// After a collapse no road ends at the destroyed intersection.
pub proof fn law_collapse_moves_ends(x: IntersectionID, keep: IntersectionID, destroy: IntersectionID)
    requires
        keep != destroy,
    ensures
        repoint(x, keep, destroy) != destroy,
        x != destroy ==> repoint(x, keep, destroy) == x,
{
}

/// After a collapse no simple ban on turning onto the collapsed road is left from the road's
/// own simple restrictions, and no complicated restriction through it is kept.
pub proof fn law_collapse_forgets_road(
    trs: Seq<(RestrictionType, RoadID)>,
    me: RoadID,
    short_r: RoadID,
    at_keep: Seq<RoadID>,
    at_destroy: Seq<RoadID>,
    cs: Seq<(RoadID, RoadID)>,
)
    ensures
        forall|j: int|
            0 <= j < fixed_restrictions(trs, me, short_r, without_road(at_keep, short_r), without_road(at_destroy, short_r)).len()
                ==> #[trigger] fixed_restrictions(trs, me, short_r, without_road(at_keep, short_r), without_road(at_destroy, short_r))[j]
                != (RestrictionType::BanTurns, short_r),
        forall|j: int| 0 <= j < complicated_kept(cs, short_r).len() ==> (#[trigger] complicated_kept(cs, short_r)[j]).0 != short_r,
    decreases trs.len() + cs.len(),
{
    let ck = without_road(at_keep, short_r);
    let cd = without_road(at_destroy, short_r);
    lemma_without_road_absent(at_keep, short_r);
    lemma_without_road_absent(at_destroy, short_r);
    if trs.len() > 0 {
        law_collapse_forgets_road(trs.drop_last(), me, short_r, at_keep, at_destroy, Seq::empty());
        let prev = fixed_restrictions(trs.drop_last(), me, short_r, ck, cd);
        if trs.last().1 == short_r && trs.last().0 == RestrictionType::BanTurns {
            let add = ban_all(if ck.contains(me) { cd } else { ck });
            let f = prev + add;
            assert forall|j: int| 0 <= j < f.len() implies #[trigger] f[j] != (RestrictionType::BanTurns, short_r) by {
                if j >= prev.len() {
                    let w = if ck.contains(me) { cd } else { ck };
                    assert(f[j] == add[j - prev.len()]);
                    assert(add[j - prev.len()] == (RestrictionType::BanTurns, w[j - prev.len()]));
                    assert(w.contains(w[j - prev.len()]));
                }
            }
        }
    }
    if cs.len() > 0 {
        law_collapse_forgets_road(Seq::empty(), me, short_r, at_keep, at_destroy, cs.drop_last());
        let prev = complicated_kept(cs.drop_last(), short_r);
        if cs.last().0 != short_r {
            assert forall|j: int| 0 <= j < prev.push(cs.last()).len() implies (#[trigger] prev.push(cs.last())[j]).0 != short_r by {
                if j < prev.len() {
                    assert(prev.push(cs.last())[j] == prev[j]);
                }
            }
        }
    }
}

/// The movements from road `s` before `d` start at `s`, end at another road, and are allowed.
proof fn lemma_movements_from(drv: Seq<Road>, i: IntersectionID, s: int, d: int)
    requires
        0 <= s < drv.len() <= usize::MAX,
        d <= drv.len(),
    ensures
        forall|k: int|
            0 <= k < movements_from(drv, i, s, d).len() ==> {
                let m = #[trigger] movements_from(drv, i, s, d)[k];
                m.0 != m.1 && movement_allowed(drv, i, m.0 as int, m.1 as int)
            },
    decreases d,
{
    if d > 0 {
        lemma_movements_from(drv, i, s, d - 1);
        let prev = movements_from(drv, i, s, d - 1);
        if movement_allowed(drv, i, s, d - 1) {
            let m = (s as usize, (d - 1) as usize);
            assert(m.0 as int == s);
            assert(m.1 as int == d - 1);
            assert forall|k: int| 0 <= k < prev.push(m).len() implies {
                let x = #[trigger] prev.push(m)[k];
                x.0 != x.1 && movement_allowed(drv, i, x.0 as int, x.1 as int)
            } by {
                if k < prev.len() {
                    assert(prev.push(m)[k] == prev[k]);
                }
            }
        }
    }
}

/// The movements from the roads before `s` are allowed and are no U-turns.
proof fn lemma_movements_upto(drv: Seq<Road>, i: IntersectionID, s: int)
    requires
        0 <= s <= drv.len() <= usize::MAX,
    ensures
        forall|k: int|
            0 <= k < movements_upto(drv, i, s).len() ==> {
                let m = #[trigger] movements_upto(drv, i, s)[k];
                m.0 != m.1 && movement_allowed(drv, i, m.0 as int, m.1 as int)
            },
    decreases s,
{
    if s > 0 {
        lemma_movements_upto(drv, i, s - 1);
        lemma_movements_from(drv, i, s - 1, drv.len() as int);
        let a = movements_upto(drv, i, s - 1);
        let b = movements_from(drv, i, s - 1, drv.len() as int);
        assert forall|k: int| 0 <= k < (a + b).len() implies {
            let m = #[trigger] (a + b)[k];
            m.0 != m.1 && movement_allowed(drv, i, m.0 as int, m.1 as int)
        } by {
            if k < a.len() {
                assert((a + b)[k] == a[k]);
            } else {
                assert((a + b)[k] == b[k - a.len()]);
            }
        }
    }
}

/// Every movement that an intersection is credited with leaves one road for another (no
/// U-turns), out of a road that traffic may leave there, into one it may enter, as the turn
/// restrictions allow.
pub proof fn law_movements_allowed(drv: Seq<Road>, i: IntersectionID)
    requires
        drv.len() <= usize::MAX,
    ensures
        forall|k: int|
            0 <= k < spec_movements(drv, i).len() ==> {
                let m = #[trigger] spec_movements(drv, i)[k];
                m.0 != m.1 && movement_allowed(drv, i, m.0 as int, m.1 as int)
            },
{
    lemma_movements_upto(drv, i, drv.len() as int);
}


/// After the disconnected roads are removed, no loop road is left, every intersection left
/// still lists a road, and every two roads left that are not light rail were connected to
/// each other.
pub proof fn law_disconnected_removed(
    rs: Seq<Road>,
    is: Seq<Intersection>,
    rs2: Seq<Road>,
    is2: Seq<Intersection>,
    c: int,
)
    requires
        disconnected_removed(rs, is, rs2, is2, c),
        is_largest_component(rs, c) || forall|k: int| !in_graph(rs, k),
    ensures
        forall|j: int| 0 <= j < rs2.len() ==> (#[trigger] rs2[j]).src_i != rs2[j].dst_i,
        forall|j: int| 0 <= j < is2.len() ==> (#[trigger] is2[j]).roads@.len() > 0,
        forall|j1: int, j2: int|
            0 <= j1 < rs2.len() && 0 <= j2 < rs2.len() && !road_is_light_rail(#[trigger] rs2[j1])
                && !road_is_light_rail(#[trigger] rs2[j2]) ==> reaches(
                rs,
                surviving(rs, c, rs.len() as int)[j1],
                surviving(rs, c, rs.len() as int)[j2],
            ),
{
    let kr = surviving(rs, c, rs.len() as int);
    lemma_surviving_in(rs, c, rs.len() as int);
    lemma_busy_in(rs, c, is, is.len() as int);
    assert forall|j: int| 0 <= j < rs2.len() implies (#[trigger] rs2[j]).src_i != rs2[j].dst_i by {
        assert(survives(rs, c, kr[j]));
    }
    assert forall|j1: int, j2: int|
        0 <= j1 < rs2.len() && 0 <= j2 < rs2.len() && !road_is_light_rail(#[trigger] rs2[j1])
            && !road_is_light_rail(#[trigger] rs2[j2]) implies reaches(rs, kr[j1], kr[j2]) by {
        assert(rs2[j1] == rs[kr[j1]]);
        assert(rs2[j2] == rs[kr[j2]]);
        assert(survives(rs, c, kr[j1]) && survives(rs, c, kr[j2]));
        assert(in_graph(rs, kr[j1]) && in_graph(rs, kr[j2]));
        lemma_reach_symm(rs, c, kr[j1]);
        lemma_reach_trans(rs, kr[j1], c, kr[j2]);
    }
}

/// The roads that `surviving` picks survive and are roads of the network.
proof fn lemma_surviving_in(rs: Seq<Road>, c: int, n: int)
    requires
        0 <= n <= rs.len(),
    ensures
        forall|j: int|
            0 <= j < surviving(rs, c, n).len() ==> 0 <= #[trigger] surviving(rs, c, n)[j] < n && survives(
                rs,
                c,
                surviving(rs, c, n)[j],
            ),
    decreases n,
{
    if n > 0 {
        lemma_surviving_in(rs, c, n - 1);
        let p = surviving(rs, c, n - 1);
        if survives(rs, c, n - 1) {
            assert forall|j: int| 0 <= j < p.push(n - 1).len() implies 0 <= #[trigger] p.push(n - 1)[j] < n
                && survives(rs, c, p.push(n - 1)[j]) by {
                if j < p.len() {
                    assert(p.push(n - 1)[j] == p[j]);
                }
            }
        }
    }
}

/// The intersections that `busy_intersections` picks still list a kept road.
proof fn lemma_busy_in(rs: Seq<Road>, c: int, is: Seq<Intersection>, n: int)
    requires
        0 <= n <= is.len(),
    ensures
        forall|j: int|
            0 <= j < crate::disconnected::busy_intersections(rs, c, is, n).len() ==> remaining_ids(
                rs,
                c,
                is[#[trigger] crate::disconnected::busy_intersections(rs, c, is, n)[j]].roads@,
            ).len() > 0,
    decreases n,
{
    if n > 0 {
        lemma_busy_in(rs, c, is, n - 1);
        let p = crate::disconnected::busy_intersections(rs, c, is, n - 1);
        if remaining_ids(rs, c, is[n - 1].roads@).len() > 0 {
            assert forall|j: int| 0 <= j < p.push(n - 1).len() implies remaining_ids(
                rs,
                c,
                is[#[trigger] p.push(n - 1)[j]].roads@,
            ).len() > 0 by {
                if j < p.len() {
                    assert(p.push(n - 1)[j] == p[j]);
                }
            }
        }
    }
}


/// A road is listed at an intersection once it is taken out of the list exactly where it was
/// listed before and is not the road taken out.
proof fn lemma_without_road_contains(s: Seq<RoadID>, id: RoadID, x: RoadID)
    ensures
        without_road(s, id).contains(x) == (s.contains(x) && x != id),
    decreases s.len(),
{
    lemma_without_road_absent(s, id);
    if s.len() > 0 {
        lemma_without_road_contains(s.drop_last(), id, x);
        let w = without_road(s.drop_last(), id);
        if s.contains(x) && x != id {
            let k = choose|k: int| 0 <= k < s.len() && s[k] == x;
            if k < s.len() - 1 {
                assert(s.drop_last()[k] == x);
                let m = choose|m: int| 0 <= m < w.len() && w[m] == x;
                if s.last() != id {
                    assert(w.push(s.last())[m] == x);
                }
            } else {
                assert(s.last() == x);
                assert(w.push(s.last())[w.len() as int] == x);
            }
        }
    }
}

/// The network is consistent: every road's ends are intersections of the network, every
/// intersection lists exactly the roads that end there, and lists only roads.
pub open spec fn consistent(rs: Seq<Road>, is: Seq<Intersection>) -> bool {
    ends_present(rs, is) && lists_match_ends(rs, is) && lists_only_roads(rs, is)
}

/// Inserting a road whose ends are intersections of the network, as `insert_road` does, keeps
/// the network consistent.
pub proof fn law_insert_road_keeps_consistency(
    rs: Seq<Road>,
    is: Seq<Intersection>,
    rs2: Seq<Road>,
    is2: Seq<Intersection>,
    r: Road,
    k: int,
)
    requires
        consistent(rs, is),
        !has_road(rs, r.id),
        has_intersection(is, r.src_i),
        has_intersection(is, r.dst_i),
        0 <= k <= rs.len(),
        rs2 == rs.insert(k, r),
        is2.len() == is.len(),
        forall|j: int|
            0 <= j < is.len() ==> same_but_roads(#[trigger] is2[j], is[j]) && is2[j].roads@ == with_road_added(
                is[j].roads@,
                is[j].id,
                r,
            ),
    ensures
        consistent(rs2, is2),
{
    assert forall|q: int| 0 <= q < rs2.len() implies has_intersection(is2, (#[trigger] rs2[q]).src_i)
        && has_intersection(is2, rs2[q].dst_i) by {
        let o = if q < k { rs2[q] } else if q == k { r } else { rs[q - 1] };
        assert(rs2[q] == o);
        if q != k {
            let qq = if q < k { q } else { q - 1 };
            assert(rs[qq] == o);
        }
        let a = choose|a: int| intersection_at(is, o.src_i, a);
        let b = choose|b: int| intersection_at(is, o.dst_i, b);
        assert(intersection_at(is2, o.src_i, a));
        assert(intersection_at(is2, o.dst_i, b));
    }
    assert forall|j: int, q: int| 0 <= j < is2.len() && 0 <= q < rs2.len() implies (is2[j].roads@.contains(
        #[trigger] rs2[q].id,
    ) <==> (rs2[q].src_i == (#[trigger] is2[j]).id || rs2[q].dst_i == is2[j].id)) by {
        let s0 = is[j].roads@;
        let s1 = if r.src_i == is[j].id { s0.push(r.id) } else { s0 };
        let s2 = if r.dst_i == is[j].id { s1.push(r.id) } else { s1 };
        assert(is2[j].roads@ == s2);
        assert(s2.contains(rs2[q].id) == (s0.contains(rs2[q].id) || ((r.src_i == is[j].id
            || r.dst_i == is[j].id) && rs2[q].id == r.id))) by {
            if r.src_i == is[j].id {
                assert(s0.push(r.id)[s0.len() as int] == r.id);
                assert forall|x: RoadID| s0.push(r.id).contains(x) == (s0.contains(x) || x == r.id) by {
                    if s0.contains(x) {
                        let w = choose|w: int| 0 <= w < s0.len() && s0[w] == x;
                        assert(s0.push(r.id)[w] == x);
                    }
                    if s0.push(r.id).contains(x) && x != r.id {
                        let w = choose|w: int| 0 <= w < s0.push(r.id).len() && s0.push(r.id)[w] == x;
                        assert(s0[w] == x);
                    }
                }
            }
            if r.dst_i == is[j].id {
                assert(s1.push(r.id)[s1.len() as int] == r.id);
                assert forall|x: RoadID| s1.push(r.id).contains(x) == (s1.contains(x) || x == r.id) by {
                    if s1.contains(x) {
                        let w = choose|w: int| 0 <= w < s1.len() && s1[w] == x;
                        assert(s1.push(r.id)[w] == x);
                    }
                    if s1.push(r.id).contains(x) && x != r.id {
                        let w = choose|w: int| 0 <= w < s1.push(r.id).len() && s1.push(r.id)[w] == x;
                        assert(s1[w] == x);
                    }
                }
            }
        }
        if q == k {
            assert(rs2[q] == r);
            assert(!s0.contains(r.id)) by {
                if s0.contains(r.id) {
                    assert(has_road(rs, r.id));
                }
            }
        } else {
            let qq = if q < k { q } else { q - 1 };
            assert(rs2[q] == rs[qq]);
            assert(rs[qq].id != r.id) by {
                assert(!road_at(rs, r.id, qq));
            }
        }
    }
    assert forall|j: int, x: RoadID| 0 <= j < is2.len() && #[trigger] is2[j].roads@.contains(x) implies has_road(rs2, x) by {
        let s0 = is[j].roads@;
        if x == r.id {
            assert(road_at(rs2, x, k));
        } else {
            assert(s0.contains(x)) by {
                let s1 = if r.src_i == is[j].id { s0.push(r.id) } else { s0 };
                let w = choose|w: int| 0 <= w < is2[j].roads@.len() && is2[j].roads@[w] == x;
                if r.dst_i == is[j].id {
                    assert(is2[j].roads@ == s1.push(r.id));
                    assert(s1[w] == x);
                } else {
                    assert(s1[w] == x);
                }
                if r.src_i == is[j].id {
                    assert(s0[w] == x);
                }
            }
            let y = choose|y: int| road_at(rs, x, y);
            if y < k {
                assert(road_at(rs2, x, y));
            } else {
                assert(road_at(rs2, x, y + 1));
            }
        }
    }
}

/// Removing a road, as `remove_road` does, keeps the network consistent.
pub proof fn law_remove_road_keeps_consistency(
    rs: Seq<Road>,
    is: Seq<Intersection>,
    rs2: Seq<Road>,
    is2: Seq<Intersection>,
    k: int,
)
    requires
        consistent(rs, is),
        roads_sorted(rs),
        0 <= k < rs.len(),
        rs2 == rs.remove(k),
        is2.len() == is.len(),
        forall|j: int|
            0 <= j < is.len() ==> same_but_roads(#[trigger] is2[j], is[j]) && is2[j].roads@ == with_road_removed(
                is[j].roads@,
                is[j].id,
                rs[k],
            ),
    ensures
        consistent(rs2, is2),
{
    let r = rs[k];
    assert forall|q: int| 0 <= q < rs2.len() implies has_intersection(is2, (#[trigger] rs2[q]).src_i)
        && has_intersection(is2, rs2[q].dst_i) by {
        let qq = if q < k { q } else { q + 1 };
        assert(rs2[q] == rs[qq]);
        let a = choose|a: int| intersection_at(is, rs[qq].src_i, a);
        let b = choose|b: int| intersection_at(is, rs[qq].dst_i, b);
        assert(intersection_at(is2, rs[qq].src_i, a));
        assert(intersection_at(is2, rs[qq].dst_i, b));
    }
    assert forall|j: int, q: int| 0 <= j < is2.len() && 0 <= q < rs2.len() implies (is2[j].roads@.contains(
        #[trigger] rs2[q].id,
    ) <==> (rs2[q].src_i == (#[trigger] is2[j]).id || rs2[q].dst_i == is2[j].id)) by {
        let qq = if q < k { q } else { q + 1 };
        assert(rs2[q] == rs[qq]);
        assert(rs[qq].id != r.id) by {
            if qq < k {
                assert(rs[qq].id.0 < rs[k].id.0);
            } else {
                assert(rs[k].id.0 < rs[qq].id.0);
            }
        }
        lemma_without_road_contains(is[j].roads@, r.id, rs[qq].id);
        assert(is[j].roads@.contains(rs[qq].id) == (rs[qq].src_i == is[j].id || rs[qq].dst_i == is[j].id));
    }
    assert forall|j: int, x: RoadID| 0 <= j < is2.len() && #[trigger] is2[j].roads@.contains(x) implies has_road(rs2, x) by {
        lemma_without_road_contains(is[j].roads@, r.id, x);
        assert(is[j].roads@.contains(x));
        if x == r.id {
            assert(r.src_i == is[j].id || r.dst_i == is[j].id);
            assert(is2[j].roads@ == without_road(is[j].roads@, r.id));
            lemma_without_road_absent(is[j].roads@, r.id);
        } else {
            let y = choose|y: int| road_at(rs, x, y);
            assert(y != k);
            if y < k {
                assert(road_at(rs2, x, y));
            } else {
                assert(road_at(rs2, x, y - 1));
            }
        }
    }
}

/// Whether road `r` has an end at intersection `x`.
pub open spec fn ends_at_node(r: Road, x: IntersectionID) -> bool {
    r.src_i == x || r.dst_i == x
}

/// Two different roads, and no more.
pub open spec fn two_different(s: Seq<RoadID>) -> bool {
    s.len() == 2 && s[0] != s[1]
}

/// A road is listed once connected where it was listed before, or where it ends.
proof fn lemma_with_road_added_contains(s: Seq<RoadID>, x: IntersectionID, r: Road, y: RoadID)
    ensures
        with_road_added(s, x, r).contains(y) == (s.contains(y) || (ends_at_node(r, x) && y == r.id)),
{
    let s1 = if r.src_i == x { s.push(r.id) } else { s };
    assert(s1.contains(y) == (s.contains(y) || (r.src_i == x && y == r.id))) by {
        if r.src_i == x {
            if s.contains(y) {
                let w = choose|w: int| 0 <= w < s.len() && s[w] == y;
                assert(s.push(r.id)[w] == y);
            }
            if y == r.id {
                assert(s.push(r.id)[s.len() as int] == y);
            }
            if s.push(r.id).contains(y) && y != r.id {
                let w = choose|w: int| 0 <= w < s.push(r.id).len() && s.push(r.id)[w] == y;
                assert(s[w] == y);
            }
        }
    }
    if r.dst_i == x {
        if s1.contains(y) {
            let w = choose|w: int| 0 <= w < s1.len() && s1[w] == y;
            assert(s1.push(r.id)[w] == y);
        }
        if y == r.id {
            assert(s1.push(r.id)[s1.len() as int] == y);
        }
        if s1.push(r.id).contains(y) && y != r.id {
            let w = choose|w: int| 0 <= w < s1.push(r.id).len() && s1.push(r.id)[w] == y;
            assert(s1[w] == y);
        }
    }
}

/// A road is listed once another is disconnected where it was listed before and is not the
/// disconnected one.
proof fn lemma_with_road_removed_contains(s: Seq<RoadID>, x: IntersectionID, r: Road, y: RoadID)
    ensures
        with_road_removed(s, x, r).contains(y) == (s.contains(y) && !(ends_at_node(r, x) && y
            == r.id)),
{
    if ends_at_node(r, x) {
        lemma_without_road_contains(s, r.id, y);
    }
}

/// What a list of two entries holds.
proof fn lemma_two_contains(s: Seq<RoadID>, y: RoadID)
    requires
        s.len() == 2,
    ensures
        s.contains(y) == (y == s[0] || y == s[1]),
{
    if y == s[0] {
        assert(s[0] == y);
    }
    if y == s[1] {
        assert(s[1] == y);
    }
}

/// Taking a road out of a list of two different roads that holds it leaves the other.
proof fn lemma_without_of_two(s: Seq<RoadID>, id: RoadID)
    requires
        two_different(s),
        s.contains(id),
    ensures
        without_road(s, id).len() == 1,
        without_road(s, id)[0] != id,
        s.contains(without_road(s, id)[0]),
{
    lemma_two_contains(s, id);
    assert(s.drop_last().drop_last() =~= Seq::<RoadID>::empty());
    assert(s.drop_last() =~= seq![s[0]]);
    assert(s.drop_last().last() == s[0]);
    if s[1] == id {
        assert(without_road(s.drop_last().drop_last(), id) =~= Seq::<RoadID>::empty());
        assert(without_road(s.drop_last(), id) =~= seq![s[0]]);
        assert(without_road(s, id) =~= seq![s[0]]);
        assert(s[0] == s[0]);
    } else {
        assert(without_road(s.drop_last().drop_last(), id) =~= Seq::<RoadID>::empty());
        assert(without_road(s.drop_last(), id) =~= Seq::<RoadID>::empty());
        assert(without_road(s, id) =~= seq![s[1]]);
        assert(s[1] == s[1]);
    }
}

/// At an intersection other than the collapsed one, two different roads stay two different
/// roads: the joined road takes the place of the one of the pair that ends there.
proof fn lemma_two_different_kept(l: Seq<RoadID>, x: IntersectionID, k: Road, d: Road, m: Road)
    requires
        two_different(l),
        l.contains(k.id) == ends_at_node(k, x),
        l.contains(d.id) == ends_at_node(d, x),
        !(ends_at_node(k, x) && ends_at_node(d, x)),
        m.id == k.id,
        k.id != d.id,
        ends_at_node(m, x) == (ends_at_node(k, x) || ends_at_node(d, x)),
        m.src_i != m.dst_i,
    ensures
        two_different(
            with_road_added(with_road_removed(with_road_removed(l, x, k), x, d), x, m),
        ),
{
    let r1 = with_road_removed(l, x, k);
    let r2 = with_road_removed(r1, x, d);
    if ends_at_node(k, x) {
        lemma_without_of_two(l, k.id);
        assert(r2 == r1);
        if m.src_i == x {
            assert(with_road_added(r2, x, m) == r2.push(m.id));
        } else {
            assert(with_road_added(r2, x, m) == r2.push(m.id));
        }
    } else if ends_at_node(d, x) {
        assert(r1 == l);
        lemma_without_of_two(l, d.id);
        assert(r2[0] != k.id);
        if m.src_i == x {
            assert(with_road_added(r2, x, m) == r2.push(m.id));
        } else {
            assert(with_road_added(r2, x, m) == r2.push(m.id));
        }
    } else {
        assert(r1 == l);
        assert(r2 == l);
        assert(with_road_added(r2, x, m) == l);
    }
}

/// The joined road runs between the far ends of the two roads.
proof fn lemma_merged_ends(k: Road, d: Road, i: IntersectionID)
    requires
        ends_at_node(k, i),
        ends_at_node(d, i),
        three_ends(k, d, i),
    ensures
        with_merged_ends(k, d).src_i != i,
        with_merged_ends(k, d).dst_i != i,
        with_merged_ends(k, d).src_i != with_merged_ends(k, d).dst_i,
        with_merged_ends(k, d).id == k.id,
        forall|x: IntersectionID|
            x != i ==> (ends_at_node(#[trigger] with_merged_ends(k, d), x) == (ends_at_node(k, x)
                || ends_at_node(d, x))),
        forall|x: IntersectionID| x != i ==> !(ends_at_node(k, x) && #[trigger] ends_at_node(d, x)),
{
}

/// An intersection other than the one taken out is still found.
proof fn lemma_still_present(is: Seq<Intersection>, is2: Seq<Intersection>, ki: int, e: IntersectionID)
    requires
        0 <= ki < is.len(),
        has_intersection(is, e),
        e != is[ki].id,
        is2.len() == is.len() - 1,
        forall|j: int| 0 <= j < is2.len() ==> (#[trigger] is2[j]).id == is.remove(ki)[j].id,
    ensures
        has_intersection(is2, e),
{
    let a = choose|a: int| intersection_at(is, e, a);
    let a2 = if a < ki { a } else { a - 1 };
    assert(is.remove(ki)[a2] == is[a]);
    assert(intersection_at(is2, e, a2));
}

/// Collapsing an intersection, as `collapse_intersection` does, keeps the network consistent;
/// every other intersection stays, and one that listed two different roads still does.
#[verifier::rlimit(60)]
pub proof fn law_collapse_intersection_keeps_consistency(
    rs: Seq<Road>,
    is: Seq<Intersection>,
    rs2: Seq<Road>,
    is2: Seq<Intersection>,
    i: IntersectionID,
    ki: int,
)
    requires
        consistent(rs, is),
        roads_sorted(rs),
        intersections_sorted(is),
        intersection_at(is, i, ki),
        collapsible_at(rs, is, ki),
        intersection_collapsed(rs, is, rs2, is2, i),
    ensures
        consistent(rs2, is2),
        forall|x: IntersectionID| x != i && #[trigger] has_intersection(is, x) ==> has_intersection(is2, x),
        forall|x: IntersectionID, j2: int|
            #[trigger] intersection_at(is2, x, j2) ==> exists|jj: int|
                intersection_at(is, x, jj) && (two_different(is[jj].roads@) ==> two_different(
                    is2[j2].roads@,
                )),
{
    let l = is[ki].roads@;
    let k = road_with_id(rs, l[0]);
    let d = road_with_id(rs, l[1]);
    assert(intersection_at(is, i, ki));
    if !three_ends(k, d, i) {
        assert(rs2 == rs && is2 == is);
        assert forall|x: IntersectionID, j2: int| #[trigger] intersection_at(is2, x, j2) implies exists|jj: int|
            intersection_at(is, x, jj) && (two_different(is[jj].roads@) ==> two_different(is2[j2].roads@)) by {
            assert(intersection_at(is, x, j2));
        }
    } else {
        let kk = choose|kk: int| road_at(rs, l[0], kk);
        let kd = choose|kd: int|
            #![trigger road_at(rs, l[1], kd)]
            road_at(rs, l[1], kd) && rs2.len() == rs.len() - 1 && forall|j: int|
                0 <= j < rs.len() - 1 ==> if rs.remove(kd)[j].id == l[0] {
                    merged_road(#[trigger] rs2[j], rs.remove(kd)[j], d)
                } else {
                    renamed_road(rs2[j], rs.remove(kd)[j], l[1], l[0])
                };
        lemma_road_with_id_at(rs, l[0], kk);
        lemma_road_with_id_at(rs, l[1], kd);
        let rr = rs.remove(kd);
        let left = is.remove(ki);
        let m = with_merged_ends(k, d);
        let kk2 = if kk < kd { kk } else { kk - 1 };
        assert(kk != kd);
        assert(rr[kk2] == k);
        lemma_merged_ends(k, d, i);
        // Index by index, the roads left and how they changed.
        assert forall|q: int| 0 <= q < rs2.len() implies (#[trigger] rs2[q]).id == rr[q].id && rr[q].id != l[1]
            && (if q == kk2 {
                rs2[q].src_i == m.src_i && rs2[q].dst_i == m.dst_i
            } else {
                rr[q].id != l[0] && rs2[q].src_i == rr[q].src_i && rs2[q].dst_i == rr[q].dst_i
            }) by {
            let qq = if q < kd { q } else { q + 1 };
            assert(rr[q] == rs[qq]);
            if rr[q].id == l[1] {
                lemma_road_unique(rs, l[1], qq, kd);
            }
            if rr[q].id == l[0] {
                lemma_road_unique(rs, l[0], qq, kk);
            }
        }
        // A road other than the two has no end at the collapsed intersection.
        assert forall|q: int| 0 <= q < rs2.len() && q != kk2 implies !ends_at_node(#[trigger] rr[q], i) by {
            let qq = if q < kd { q } else { q + 1 };
            assert(rr[q] == rs[qq]);
            lemma_two_contains(l, rs[qq].id);
            assert(is[ki].roads@.contains(rs[qq].id) == (rs[qq].src_i == is[ki].id || rs[qq].dst_i == is[ki].id));
        }
        assert forall|j: int| 0 <= j < is2.len() implies (#[trigger] is2[j]).id == is.remove(ki)[j].id by {
            assert(same_but_roads(is2[j], left[j]));
        }
        // Every end is still an intersection.
        assert forall|q: int| 0 <= q < rs2.len() implies has_intersection(is2, (#[trigger] rs2[q]).src_i)
            && has_intersection(is2, rs2[q].dst_i) by {
            if q == kk2 {
                lemma_still_present(is, is2, ki, m.src_i);
                lemma_still_present(is, is2, ki, m.dst_i);
            } else {
                let qq = if q < kd { q } else { q + 1 };
                assert(rr[q] == rs[qq]);
                assert(!ends_at_node(rr[q], i));
                lemma_still_present(is, is2, ki, rs[qq].src_i);
                lemma_still_present(is, is2, ki, rs[qq].dst_i);
            }
        }
        assert(ends_present(rs2, is2));
        // Each list names exactly the roads ending there.
        assert forall|j: int, q: int| 0 <= j < is2.len() && 0 <= q < rs2.len() implies (is2[j].roads@.contains(
            #[trigger] rs2[q].id,
        ) <==> (rs2[q].src_i == (#[trigger] is2[j]).id || rs2[q].dst_i == is2[j].id)) by {
            let jj = if j < ki { j } else { j + 1 };
            assert(left[j] == is[jj]);
            let x = is[jj].id;
            assert(same_but_roads(is2[j], left[j]));
            assert(x != i) by {
                if x == i {
                    crate::collapse::lemma_intersection_unique(is, i, jj, ki);
                }
            }
            let ls = is[jj].roads@;
            let r1 = with_road_removed(ls, x, k);
            let r2 = with_road_removed(r1, x, d);
            let y = rs2[q].id;
            lemma_with_road_removed_contains(ls, x, k, y);
            lemma_with_road_removed_contains(r1, x, d, y);
            lemma_with_road_added_contains(r2, x, m, y);
            if q == kk2 {
                assert(is[jj].roads@.contains(rs[kk].id) == (rs[kk].src_i == is[jj].id || rs[kk].dst_i == is[jj].id));
            } else {
                let qq = if q < kd { q } else { q + 1 };
                assert(rr[q] == rs[qq]);
                assert(is[jj].roads@.contains(rs[qq].id) == (rs[qq].src_i == is[jj].id || rs[qq].dst_i == is[jj].id));
            }
        }
        // Each list names only roads.
        assert forall|j: int, y: RoadID| 0 <= j < is2.len() && #[trigger] is2[j].roads@.contains(y) implies has_road(rs2, y) by {
            let jj = if j < ki { j } else { j + 1 };
            assert(left[j] == is[jj]);
            let x = is[jj].id;
            let ls = is[jj].roads@;
            let r1 = with_road_removed(ls, x, k);
            let r2 = with_road_removed(r1, x, d);
            lemma_with_road_removed_contains(ls, x, k, y);
            lemma_with_road_removed_contains(r1, x, d, y);
            lemma_with_road_added_contains(r2, x, m, y);
            if y == l[0] {
                assert(road_at(rs2, y, kk2));
            } else {
                assert(ls.contains(y));
                let p = choose|p: int| road_at(rs, y, p);
                if y == l[1] {
                    assert(is[jj].roads@.contains(rs[kd].id) == (rs[kd].src_i == is[jj].id || rs[kd].dst_i == is[jj].id));
                    assert(false);
                }
                assert(p != kd);
                let p2 = if p < kd { p } else { p - 1 };
                assert(rr[p2] == rs[p]);
                assert(road_at(rs2, y, p2));
            }
        }
        assert forall|x: IntersectionID| x != i && #[trigger] has_intersection(is, x) implies has_intersection(is2, x) by {
            lemma_still_present(is, is2, ki, x);
        }
        assert forall|x: IntersectionID, j2: int| #[trigger] intersection_at(is2, x, j2) implies exists|jj: int|
            intersection_at(is, x, jj) && (two_different(is[jj].roads@) ==> two_different(is2[j2].roads@)) by {
            let jj = if j2 < ki { j2 } else { j2 + 1 };
            assert(left[j2] == is[jj]);
            assert(same_but_roads(is2[j2], left[j2]));
            assert(intersection_at(is, x, jj));
            if two_different(is[jj].roads@) {
                assert(x != i) by {
                    if x == i {
                        crate::collapse::lemma_intersection_unique(is, i, jj, ki);
                    }
                }
                assert(is[jj].roads@.contains(rs[kk].id) == (rs[kk].src_i == is[jj].id || rs[kk].dst_i == is[jj].id));
                assert(is[jj].roads@.contains(rs[kd].id) == (rs[kd].src_i == is[jj].id || rs[kd].dst_i == is[jj].id));
                assert(ends_at_node(m, x) == (ends_at_node(k, x) || ends_at_node(d, x)));
                lemma_two_different_kept(is[jj].roads@, x, k, d, m);
            }
        }
    }
}

/// Every intersection lists each road once for each end it has there, and no other road.
pub open spec fn all_list_their_roads(rs: Seq<Road>, is: Seq<Intersection>) -> bool {
    forall|k: int| 0 <= k < is.len() ==> #[trigger] lists_its_roads(rs, is, k)
}

/// Taking a road out of a list leaves every other road as often as before.
proof fn lemma_without_road_count(s: Seq<RoadID>, id: RoadID, y: RoadID)
    ensures
        without_road(s, id).to_multiset().count(y) == (if y == id {
            0
        } else {
            s.to_multiset().count(y)
        }),
    decreases s.len(),
{
    broadcast use vstd::seq_lib::group_to_multiset_ensures;
    broadcast use vstd::multiset::group_multiset_axioms;

    if s.len() == 0 {
        assert(without_road(s, id).to_multiset() =~= vstd::multiset::Multiset::empty());
        assert(s.to_multiset() =~= vstd::multiset::Multiset::empty());
    } else {
        lemma_without_road_count(s.drop_last(), id, y);
        assert(s.drop_last().push(s.last()) =~= s);
    }
}

/// Collapsing a short road, as `collapse_short_road` does, keeps every road's ends at
/// intersections of the network and every intersection listing each road once for each end
/// it has there; every other road stays.
#[verifier::rlimit(60)]
pub proof fn law_collapse_short_road_keeps_lists(
    rs: Seq<Road>,
    is: Seq<Intersection>,
    rs2: Seq<Road>,
    is2: Seq<Intersection>,
    short_r: RoadID,
    res: Result<(IntersectionID, IntersectionID), CollapseError>,
)
    requires
        roads_sorted(rs),
        intersections_sorted(is),
        ends_present(rs, is),
        all_list_their_roads(rs, is),
        has_road(rs, short_r),
        short_road_collapsed(rs, is, rs2, is2, short_r, res),
    ensures
        ends_present(rs2, is2),
        all_list_their_roads(rs2, is2),
        forall|x: RoadID| x != short_r && #[trigger] has_road(rs, x) ==> has_road(rs2, x),
{
    broadcast use vstd::seq_lib::lemma_multiset_commutative;
    broadcast use vstd::seq_lib::to_multiset_contains;

    let kr = choose|kr: int| road_at(rs, short_r, kr);
    let sr = rs[kr];
    let keep = sr.src_i;
    let destroy = sr.dst_i;
    let kk = choose|kk: int| intersection_at(is, keep, kk);
    let kd = choose|kd: int| intersection_at(is, destroy, kd);
    assert(road_at(rs, short_r, kr) && intersection_at(is, rs[kr].src_i, kk) && intersection_at(is, rs[kr].dst_i, kd));
    let edge = is[kk].kind == IntersectionType::MapEdge || is[kd].kind == IntersectionType::MapEdge;
    let rest = rs.remove(kr);
    // Roads other than the short one keep their index in `rest`.
    assert forall|p: int| 0 <= p < rest.len() implies (#[trigger] rest[p]).id != short_r by {
        let pp = if p < kr { p } else { p + 1 };
        assert(rest[p] == rs[pp]);
        if rest[p].id == short_r {
            lemma_road_unique(rs, short_r, pp, kr);
        }
    }
    assert forall|x: RoadID| x != short_r && #[trigger] has_road(rs, x) implies has_road(rest, x) by {
        let p = choose|p: int| road_at(rs, x, p);
        assert(p != kr);
        let p2 = if p < kr { p } else { p - 1 };
        assert(rest[p2] == rs[p]);
        assert(road_at(rest, x, p2));
    }
    // The short road is listed only at its own ends.
    assert forall|j: int| 0 <= j < is.len() && is[j].id != keep && is[j].id != destroy implies !(
    #[trigger] is[j].roads@).contains(short_r) by {
        assert(lists_its_roads(rs, is, j));
        assert(is[j].roads@.to_multiset().count(rs[kr].id) == ends_at(rs[kr], is[j].id));
    }
    if edge {
        assert(rs2 == rs && is2 == is);
    } else if keep == destroy {
        assert(rs2 == rest);
        assert forall|q: int| 0 <= q < rs2.len() implies has_intersection(is2, (#[trigger] rs2[q]).src_i)
            && has_intersection(is2, rs2[q].dst_i) by {
            let qq = if q < kr { q } else { q + 1 };
            assert(rest[q] == rs[qq]);
            let a = choose|a: int| intersection_at(is, rs[qq].src_i, a);
            let b = choose|b: int| intersection_at(is, rs[qq].dst_i, b);
            assert(is2[a].id == is[a].id);
            assert(is2[b].id == is[b].id);
            assert(intersection_at(is2, rs[qq].src_i, a));
            assert(intersection_at(is2, rs[qq].dst_i, b));
        }
        assert forall|k: int| 0 <= k < is2.len() implies #[trigger] lists_its_roads(rs2, is2, k) by {
            assert(lists_its_roads(rs, is, k));
            let l = is[k].roads@;
            assert(is2[k].id == is[k].id);
            assert forall|p: int| 0 <= p < rs2.len() implies is2[k].roads@.to_multiset().count(
                (#[trigger] rs2[p]).id,
            ) == ends_at(rs2[p], is2[k].id) by {
                let pp = if p < kr { p } else { p + 1 };
                assert(rest[p] == rs[pp]);
                if ends_at_node(sr, is[k].id) {
                    lemma_without_road_count(l, short_r, rs[pp].id);
                }
            }
            assert forall|x: RoadID| #[trigger] is2[k].roads@.contains(x) implies exists|p: int| road_at(rs2, x, p) by {
                if ends_at_node(sr, is[k].id) {
                    lemma_without_road_contains(l, short_r, x);
                }
                assert(l.contains(x));
                let p = choose|p: int| road_at(rs, x, p);
                assert(has_road(rs, x));
                assert(x != short_r);
                assert(has_road(rest, x));
            }
        }
    } else {
        let left = is.remove(kd);
        let ck = without_road(is[kk].roads@, short_r);
        let cd = without_road(is[kd].roads@, short_r);
        assert(kk != kd);
        let kk2 = if kk < kd { kk } else { kk - 1 };
        assert(left[kk2] == is[kk]);
        // Intersections other than the destroyed one stay, and only the kept one changes.
        assert forall|j: int| 0 <= j < is2.len() implies (#[trigger] is2[j]).id == left[j].id && (left[j].id != keep
            ==> is2[j] == left[j]) by {
            if left[j].id == keep {
                assert(is2[j].id == keep);
            }
        }
        assert forall|e: IntersectionID| e != destroy && #[trigger] has_intersection(is, e) implies has_intersection(is2, e) by {
            let a = choose|a: int| intersection_at(is, e, a);
            assert(a != kd);
            let a2 = if a < kd { a } else { a - 1 };
            assert(left[a2] == is[a]);
            assert(intersection_at(is2, e, a2));
        }
        assert(has_intersection(is, keep));
        assert forall|q: int| 0 <= q < rs2.len() implies has_intersection(is2, (#[trigger] rs2[q]).src_i)
            && has_intersection(is2, rs2[q].dst_i) by {
            let qq = if q < kr { q } else { q + 1 };
            assert(rest[q] == rs[qq]);
            assert(collapsed_road(rs2[q], rest[q], short_r, keep, destroy, ck, cd));
            assert(has_intersection(is, rs[qq].src_i));
            assert(has_intersection(is, rs[qq].dst_i));
        }
        assert forall|k: int| 0 <= k < is2.len() implies #[trigger] lists_its_roads(rs2, is2, k) by {
            let kk0 = if k < kd { k } else { k + 1 };
            assert(left[k] == is[kk0]);
            assert(lists_its_roads(rs, is, kk0));
            let x = is[kk0].id;
            if x == keep {
                assert(kk0 == kk) by {
                    crate::collapse::lemma_intersection_unique(is, keep, kk0, kk);
                }
                assert(is2[k].roads@ == ck + cd);
                assert(lists_its_roads(rs, is, kd));
                assert forall|p: int| 0 <= p < rs2.len() implies is2[k].roads@.to_multiset().count(
                    (#[trigger] rs2[p]).id,
                ) == ends_at(rs2[p], is2[k].id) by {
                    let pp = if p < kr { p } else { p + 1 };
                    assert(rest[p] == rs[pp]);
                    assert(collapsed_road(rs2[p], rest[p], short_r, keep, destroy, ck, cd));
                    lemma_without_road_count(is[kk].roads@, short_r, rs[pp].id);
                    lemma_without_road_count(is[kd].roads@, short_r, rs[pp].id);
                    assert((ck + cd).to_multiset() =~= ck.to_multiset().add(cd.to_multiset()));
                    assert(is[kd].roads@.to_multiset().count(rs[pp].id) == ends_at(rs[pp], destroy));
                }
                assert forall|y: RoadID| #[trigger] is2[k].roads@.contains(y) implies exists|p: int| road_at(rs2, y, p) by {
                    assert((ck + cd).to_multiset().count(y) > 0);
                    assert((ck + cd).to_multiset() =~= ck.to_multiset().add(cd.to_multiset()));
                    lemma_without_road_count(is[kk].roads@, short_r, y);
                    lemma_without_road_count(is[kd].roads@, short_r, y);
                    assert(y != short_r);
                    assert(lists_its_roads(rs, is, kd));
                    if is[kk].roads@.to_multiset().count(y) > 0 {
                        assert(is[kk].roads@.contains(y));
                    } else {
                        assert(is[kd].roads@.contains(y));
                    }
                    let p = choose|p: int| road_at(rs, y, p);
                    assert(has_road(rs, y));
                    assert(has_road(rest, y));
                    let p2 = choose|p2: int| road_at(rest, y, p2);
                    assert(collapsed_road(rs2[p2], rest[p2], short_r, keep, destroy, ck, cd));
                    assert(road_at(rs2, y, p2));
                }
            } else {
                assert(is2[k] == left[k]);
                assert(kk0 != kd);
                assert(x != destroy) by {
                    if x == destroy {
                        crate::collapse::lemma_intersection_unique(is, destroy, kk0, kd);
                    }
                }
                assert forall|p: int| 0 <= p < rs2.len() implies is2[k].roads@.to_multiset().count(
                    (#[trigger] rs2[p]).id,
                ) == ends_at(rs2[p], is2[k].id) by {
                    let pp = if p < kr { p } else { p + 1 };
                    assert(rest[p] == rs[pp]);
                    assert(collapsed_road(rs2[p], rest[p], short_r, keep, destroy, ck, cd));
                }
                assert forall|y: RoadID| #[trigger] is2[k].roads@.contains(y) implies exists|p: int| road_at(rs2, y, p) by {
                    assert(is[kk0].roads@.contains(y));
                    assert(!(is[kk0].roads@.contains(short_r)));
                    let p = choose|p: int| road_at(rs, y, p);
                    assert(has_road(rs, y));
                    assert(has_road(rest, y));
                    let p2 = choose|p2: int| road_at(rest, y, p2);
                    assert(collapsed_road(rs2[p2], rest[p2], short_r, keep, destroy, ck, cd));
                    assert(road_at(rs2, y, p2));
                }
            }
        }
        assert forall|y: RoadID| y != short_r && #[trigger] has_road(rs, y) implies has_road(rs2, y) by {
            assert(has_road(rest, y));
            let p2 = choose|p2: int| road_at(rest, y, p2);
            assert(collapsed_road(rs2[p2], rest[p2], short_r, keep, destroy, ck, cd));
            assert(road_at(rs2, y, p2));
        }
    }
}


/// Removing a road, as `remove_road` does, keeps every road's ends in the network and every
/// intersection listing exactly its roads.
pub(crate) proof fn lemma_remove_road_keeps_lists(
    rs: Seq<Road>,
    is: Seq<Intersection>,
    rs2: Seq<Road>,
    is2: Seq<Intersection>,
    k: int,
)
    requires
        roads_sorted(rs),
        ends_present(rs, is),
        all_list_their_roads(rs, is),
        0 <= k < rs.len(),
        rs2 == rs.remove(k),
        is2.len() == is.len(),
        forall|j: int|
            0 <= j < is.len() ==> same_but_roads(#[trigger] is2[j], is[j]) && is2[j].roads@ == with_road_removed(
                is[j].roads@,
                is[j].id,
                rs[k],
            ),
    ensures
        ends_present(rs2, is2),
        all_list_their_roads(rs2, is2),
{
    broadcast use vstd::seq_lib::to_multiset_contains;

    let r = rs[k];
    assert forall|q: int| 0 <= q < rs2.len() implies has_intersection(is2, (#[trigger] rs2[q]).src_i)
        && has_intersection(is2, rs2[q].dst_i) by {
        let qq = if q < k { q } else { q + 1 };
        assert(rs2[q] == rs[qq]);
        let a = choose|a: int| intersection_at(is, rs[qq].src_i, a);
        let b = choose|b: int| intersection_at(is, rs[qq].dst_i, b);
        assert(same_but_roads(is2[a], is[a]));
        assert(same_but_roads(is2[b], is[b]));
        assert(intersection_at(is2, rs[qq].src_i, a));
        assert(intersection_at(is2, rs[qq].dst_i, b));
    }
    assert forall|m: int| 0 <= m < is2.len() implies #[trigger] lists_its_roads(rs2, is2, m) by {
        assert(lists_its_roads(rs, is, m));
        assert(same_but_roads(is2[m], is[m]));
        assert forall|q: int| 0 <= q < rs2.len() implies is2[m].roads@.to_multiset().count(
            (#[trigger] rs2[q]).id,
        ) == ends_at(rs2[q], is2[m].id) by {
            let qq = if q < k { q } else { q + 1 };
            assert(rs2[q] == rs[qq]);
            assert(rs[qq].id != r.id) by {
                if qq < k {
                    assert(rs[qq].id.0 < rs[k].id.0);
                } else {
                    assert(rs[k].id.0 < rs[qq].id.0);
                }
            }
            lemma_without_road_count(is[m].roads@, r.id, rs[qq].id);
        }
        assert forall|x: RoadID| #[trigger] is2[m].roads@.contains(x) implies exists|j: int|
            road_at(rs2, x, j) by {
            lemma_without_road_count(is[m].roads@, r.id, x);
            assert(is2[m].roads@.to_multiset().count(x) > 0);
            assert(is[m].roads@.to_multiset().count(x) > 0);
            assert(is[m].roads@.contains(x));
            if x == r.id {
                assert(is[m].roads@.to_multiset().count(rs[k].id) == ends_at(rs[k], is[m].id));
                assert(r.src_i == is[m].id || r.dst_i == is[m].id);
                assert(is2[m].roads@ == without_road(is[m].roads@, r.id));
                assert(false);
            } else {
                let y = choose|y: int| road_at(rs, x, y);
                assert(y != k);
                if y < k {
                    assert(road_at(rs2, x, y));
                } else {
                    assert(road_at(rs2, x, y - 1));
                }
            }
        }
    }
}

/// Roads that keep their IDs and ends keep every road's ends in the network and every
/// intersection listing exactly its roads.
pub(crate) proof fn lemma_same_ends_keeps_lists(rs: Seq<Road>, rs2: Seq<Road>, is: Seq<Intersection>)
    requires
        ends_present(rs, is),
        all_list_their_roads(rs, is),
        rs2.len() == rs.len(),
        forall|j: int|
            0 <= j < rs.len() ==> (#[trigger] rs2[j]).id == rs[j].id && rs2[j].src_i == rs[j].src_i
                && rs2[j].dst_i == rs[j].dst_i,
    ensures
        ends_present(rs2, is),
        all_list_their_roads(rs2, is),
{
    assert forall|q: int| 0 <= q < rs2.len() implies has_intersection(is, (#[trigger] rs2[q]).src_i)
        && has_intersection(is, rs2[q].dst_i) by {
        assert(rs2[q].src_i == rs[q].src_i);
    }
    assert forall|m: int| 0 <= m < is.len() implies #[trigger] lists_its_roads(rs2, is, m) by {
        assert(lists_its_roads(rs, is, m));
        assert forall|q: int| 0 <= q < rs2.len() implies is[m].roads@.to_multiset().count(
            (#[trigger] rs2[q]).id,
        ) == ends_at(rs2[q], is[m].id) by {
            assert(rs2[q].id == rs[q].id);
        }
        assert forall|x: RoadID| #[trigger] is[m].roads@.contains(x) implies exists|j: int|
            road_at(rs2, x, j) by {
            let y = choose|y: int| road_at(rs, x, y);
            assert(rs2[y].id == rs[y].id);
            assert(road_at(rs2, x, y));
        }
    }
}


} // verus!

//! Dual carriageways that split very briefly and join again, with no road in between.
use vstd::prelude::*;

use crate::block::{intersection_with_id, lemma_intersection_with_id_pub, road_with_id};
use crate::collapse::{lemma_road_unique, lemma_road_with_id_at};
use crate::degenerate::name_view;
use crate::ids::{IntersectionID, OriginalRoad, RoadID};
use crate::lanes::{
    lanes_view, spec_oneway_for_driving, spec_opposite, spec_typical_width, BufferType, Direction,
    LaneSpec, LaneSpecView, LaneType, LaneWidth, LaneWidthView, Placement, RoadPosition,
};
use crate::types::DrivingSide;
use crate::laws::consistent;
use crate::network::{
    has_intersection, has_road, intersection_at, intersections_sorted, road_at, roads_sorted,
    Intersection, StreetNetwork,
};
use crate::road::{road_lanes, Road};
use crate::strings::str_eq;

verus! {

/// The roads listed at intersection `id`.
pub open spec fn listed_at(is: Seq<Intersection>, id: IntersectionID) -> Seq<RoadID> {
    intersection_with_id(is, id).roads@
}

/// Road `x` is listed at both ends of road `r`.
pub open spec fn links_ends(is: Seq<Intersection>, r: Road, x: RoadID) -> bool {
    listed_at(is, r.src_i).contains(x) && listed_at(is, r.dst_i).contains(x)
}

/// `x` is the one road other than `r` listed at both ends of `r`.
pub open spec fn sole_partner(is: Seq<Intersection>, r: Road, x: RoadID) -> bool {
    &&& x != r.id
    &&& links_ends(is, r, x)
    &&& forall|y: RoadID| #[trigger] links_ends(is, r, y) && y != r.id ==> y == x
}

/// Road `r1` and the road `id2` split off and join again: both are one-way, `id2` is the one
/// other road between the ends of `r1`, they share a name and point in a loop, both ends meet
/// something else, and they do not come from the same OSM way (a roundabout).
pub open spec fn sausage_link(rs: Seq<Road>, is: Seq<Intersection>, r1: Road, id2: RoadID) -> bool {
    let r2 = road_with_id(rs, id2);
    &&& spec_oneway_for_driving(road_lanes(r1)) is Some
    &&& sole_partner(is, r1, id2)
    &&& spec_oneway_for_driving(road_lanes(r2)) is Some
    &&& name_view(r1) == name_view(r2)
    &&& r1.dst_i == r2.src_i
    &&& r2.dst_i == r1.src_i
    &&& listed_at(is, r1.src_i).len() >= 3
    &&& listed_at(is, r1.dst_i).len() >= 3
    &&& !(r1.osm_ids@.len() > 0 && r1.osm_ids@ == r2.osm_ids@)
}

/// Road `r` forms a sausage link with a road of higher ID.
pub open spec fn links_upward(rs: Seq<Road>, is: Seq<Intersection>, r: Road) -> bool {
    exists|x: RoadID| #[trigger] sausage_link(rs, is, r, x) && r.id.0 < x.0
}

/// The road of higher ID that `r` forms a sausage link with.
pub open spec fn upward_partner(rs: Seq<Road>, is: Seq<Intersection>, r: Road) -> RoadID {
    choose|x: RoadID| #[trigger] sausage_link(rs, is, r, x) && r.id.0 < x.0
}

/// The sausage links of the roads before index `n`, each road paired with its partner of
/// higher ID, in order.
pub open spec fn sausage_links_upto(rs: Seq<Road>, is: Seq<Intersection>, n: int) -> Seq<
    (RoadID, RoadID),
>
    decreases n,
{
    if n <= 0 {
        Seq::empty()
    } else if links_upward(rs, is, rs[n - 1]) {
        sausage_links_upto(rs, is, n - 1).push((rs[n - 1].id, upward_partner(rs, is, rs[n - 1])))
    } else {
        sausage_links_upto(rs, is, n - 1)
    }
}

/// The sausage links of the network, each road paired with its partner of higher ID, in order.
pub open spec fn sausage_links(rs: Seq<Road>, is: Seq<Intersection>) -> Seq<(RoadID, RoadID)> {
    sausage_links_upto(rs, is, rs.len() as int)
}

/// A sausage link goes both ways: the partner pairs up with the first road.
pub proof fn law_sausage_link_symmetric(rs: Seq<Road>, is: Seq<Intersection>, k1: int, id2: RoadID)
    requires
        consistent(rs, is),
        roads_sorted(rs),
        intersections_sorted(is),
        0 <= k1 < rs.len(),
        sausage_link(rs, is, rs[k1], id2),
    ensures
        has_road(rs, id2),
        sausage_link(rs, is, road_with_id(rs, id2), rs[k1].id),
{
    let r1 = rs[k1];
    let a = choose|a: int| intersection_at(is, r1.src_i, a);
    let b = choose|b: int| intersection_at(is, r1.dst_i, b);
    lemma_intersection_with_id_pub(is, r1.src_i, a);
    lemma_intersection_with_id_pub(is, r1.dst_i, b);
    assert(is[a].roads@.contains(id2));
    let p = choose|p: int| road_at(rs, id2, p);
    lemma_road_with_id_at(rs, id2, p);
    lemma_road_with_id_at(rs, r1.id, k1);
    let r2 = rs[p];
    assert(is[a].roads@.contains(rs[k1].id) == (rs[k1].src_i == is[a].id || rs[k1].dst_i == is[a].id));
    assert(is[b].roads@.contains(rs[k1].id) == (rs[k1].src_i == is[b].id || rs[k1].dst_i == is[b].id));
    assert(links_ends(is, r2, r1.id));
    assert forall|y: RoadID| #[trigger] links_ends(is, r2, y) && y != r2.id implies y == r1.id by {
        assert(links_ends(is, r1, y));
    }
}

/// Each entry pairs a road before `n` with its partner of higher ID.
proof fn lemma_links_upto(rs: Seq<Road>, is: Seq<Intersection>, n: int)
    requires
        0 <= n <= rs.len(),
    ensures
        forall|t: int|
            0 <= t < sausage_links_upto(rs, is, n).len() ==> exists|kk: int|
                0 <= kk < n && rs[kk].id == (#[trigger] sausage_links_upto(rs, is, n)[t]).0
                    && sausage_link(rs, is, rs[kk], sausage_links_upto(rs, is, n)[t].1)
                    && sausage_links_upto(rs, is, n)[t].0.0 < sausage_links_upto(rs, is, n)[t].1.0,
        roads_sorted(rs) ==> forall|t: int|
            0 <= t < sausage_links_upto(rs, is, n).len() ==> n > 0 && (#[trigger] sausage_links_upto(rs, is, n)[t]).0.0
                <= rs[n - 1].id.0,
        roads_sorted(rs) ==> forall|t: int, u: int|
            0 <= t < u < sausage_links_upto(rs, is, n).len() ==> (#[trigger] sausage_links_upto(rs, is, n)[t]).0.0
                < (#[trigger] sausage_links_upto(rs, is, n)[u]).0.0,
    decreases n,
{
    if n > 0 {
        lemma_links_upto(rs, is, n - 1);
        let w = sausage_links_upto(rs, is, n - 1);
        let wn = sausage_links_upto(rs, is, n);
        assert forall|t: int| 0 <= t < wn.len() implies exists|kk: int|
            0 <= kk < n && rs[kk].id == (#[trigger] wn[t]).0 && sausage_link(rs, is, rs[kk], wn[t].1)
                && wn[t].0.0 < wn[t].1.0 by {
            if t < w.len() {
                assert(wn[t] == w[t]);
                let kk = choose|kk: int|
                    0 <= kk < n - 1 && rs[kk].id == w[t].0 && sausage_link(rs, is, rs[kk], w[t].1)
                        && w[t].0.0 < w[t].1.0;
                assert(rs[kk].id == wn[t].0);
            } else {
                let x = upward_partner(rs, is, rs[n - 1]);
                assert(sausage_link(rs, is, rs[n - 1], x) && rs[n - 1].id.0 < x.0);
                assert(wn[t] == (rs[n - 1].id, x));
            }
        }
        if roads_sorted(rs) {
            assert forall|t: int| 0 <= t < wn.len() implies (#[trigger] wn[t]).0.0 <= rs[n - 1].id.0 by {
                if t < w.len() {
                    assert(wn[t] == w[t]);
                    assert(rs[n - 2].id.0 < rs[n - 1].id.0);
                }
            }
            assert forall|t: int, u: int| 0 <= t < u < wn.len() implies (#[trigger] wn[t]).0.0 < (#[trigger] wn[u]).0.0 by {
                assert(wn[t] == w[t]);
                if u < w.len() {
                    assert(wn[u] == w[u]);
                } else {
                    assert(rs[n - 2].id.0 < rs[n - 1].id.0);
                }
            }
        }
    }
}

/// A road before `n` that forms a sausage link upward is in the list.
proof fn lemma_links_upto_has(rs: Seq<Road>, is: Seq<Intersection>, n: int, kk: int)
    requires
        0 <= kk < n <= rs.len(),
        links_upward(rs, is, rs[kk]),
    ensures
        sausage_links_upto(rs, is, n).contains((rs[kk].id, upward_partner(rs, is, rs[kk]))),
    decreases n,
{
    let e = (rs[kk].id, upward_partner(rs, is, rs[kk]));
    if kk == n - 1 {
        let w = sausage_links_upto(rs, is, n - 1);
        assert(sausage_links_upto(rs, is, n)[w.len() as int] == e);
    } else {
        lemma_links_upto_has(rs, is, n - 1, kk);
        let w = sausage_links_upto(rs, is, n - 1);
        let j = choose|j: int| 0 <= j < w.len() && w[j] == e;
        if links_upward(rs, is, rs[n - 1]) {
            assert(sausage_links_upto(rs, is, n)[j] == e);
        }
    }
}

/// Whether `x` is in the list.
pub(crate) fn list_contains(v: &Vec<RoadID>, x: RoadID) -> (r: bool)
    ensures
        r == v@.contains(x),
{
    let mut k: usize = 0;
    while k < v.len()
        invariant
            k <= v@.len(),
            forall|j: int| 0 <= j < k ==> v@[j] != x,
        decreases v@.len() - k,
    {
        if v[k] == x {
            return true;
        }
        k = k + 1;
    }
    false
}

/// Whether the pair is in the list.
fn pairs_contain(v: &Vec<(RoadID, RoadID)>, a: RoadID, b: RoadID) -> (r: bool)
    ensures
        r == v@.contains((a, b)),
{
    let mut k: usize = 0;
    while k < v.len()
        invariant
            k <= v@.len(),
            forall|j: int| 0 <= j < k ==> v@[j] != (a, b),
        decreases v@.len() - k,
    {
        if v[k].0 == a && v[k].1 == b {
            proof {
                assert(v@[k as int] == (a, b));
            }
            return true;
        }
        k = k + 1;
    }
    false
}

/// Whether the two lists of OSM segments are the same.
fn same_osm_ids(a: &Vec<OriginalRoad>, b: &Vec<OriginalRoad>) -> (r: bool)
    ensures
        r == (a@ == b@),
{
    if a.len() != b.len() {
        return false;
    }
    let mut k: usize = 0;
    while k < a.len()
        invariant
            a@.len() == b@.len(),
            k <= a@.len(),
            forall|j: int| 0 <= j < k ==> a@[j] == b@[j],
        decreases a@.len() - k,
    {
        if a[k] != b[k] {
            return false;
        }
        k = k + 1;
    }
    proof {
        assert(a@ =~= b@);
    }
    true
}

/// Whether the two roads have the same name.
fn same_name(r1: &Road, r2: &Road) -> (r: bool)
    ensures
        r == (name_view(*r1) == name_view(*r2)),
{
    match (&r1.name, &r2.name) {
        (Some(a), Some(b)) => str_eq(a.as_str(), b.as_str()),
        (None, None) => true,
        _ => false,
    }
}

/// The roads other than `me` listed at both intersections `ks` and `kd`, each once.
fn partners(streets: &StreetNetwork, ks: usize, kd: usize, me: RoadID) -> (r: Vec<RoadID>)
    requires
        ks < streets.intersections@.len(),
        kd < streets.intersections@.len(),
    ensures
        forall|a: int, b: int| 0 <= a < b < r@.len() ==> r@[a] != r@[b],
        forall|y: RoadID|
            #[trigger] r@.contains(y) == (streets.intersections@[ks as int].roads@.contains(y) && y != me
                && streets.intersections@[kd as int].roads@.contains(y)),
{
    let ls = &streets.intersections[ks].roads;
    let ld = &streets.intersections[kd].roads;
    let mut r: Vec<RoadID> = Vec::new();
    let mut j: usize = 0;
    while j < ls.len()
        invariant
            ls == &streets.intersections@[ks as int].roads,
            ld == &streets.intersections@[kd as int].roads,
            j <= ls@.len(),
            forall|a: int, b: int| 0 <= a < b < r@.len() ==> r@[a] != r@[b],
            forall|y: RoadID|
                #[trigger] r@.contains(y) == (ls@.take(j as int).contains(y) && y != me && ld@.contains(y)),
        decreases ls@.len() - j,
    {
        let x = ls[j];
        let ghost t0 = ls@.take(j as int);
        let ghost t1 = ls@.take(j + 1);
        if x != me && list_contains(ld, x) && !list_contains(&r, x) {
            let ghost r0 = r@;
            r.push(x);
            proof {
                assert(r0 =~= r@.drop_last());
                assert forall|y: RoadID| #[trigger] r@.contains(y) == (t1.contains(y) && y != me
                    && ld@.contains(y)) by {
                    if y == x {
                        assert(r@[r@.len() - 1] == x);
                        assert(t1[j as int] == x);
                    } else {
                        if r@.contains(y) {
                            let w = choose|w: int| 0 <= w < r@.len() && r@[w] == y;
                            assert(r0[w] == y);
                        }
                        if t1.contains(y) {
                            let w = choose|w: int| 0 <= w < t1.len() && t1[w] == y;
                            assert(t0[w] == y);
                        }
                        if r0.contains(y) {
                            let w = choose|w: int| 0 <= w < r0.len() && r0[w] == y;
                            assert(r@[w] == y);
                        }
                        if t0.contains(y) {
                            let w = choose|w: int| 0 <= w < t0.len() && t0[w] == y;
                            assert(t1[w] == y);
                        }
                    }
                }
            }
        } else {
            proof {
                assert forall|y: RoadID| #[trigger] r@.contains(y) == (t1.contains(y) && y != me
                    && ld@.contains(y)) by {
                    if t1.contains(y) && y != x {
                        let w = choose|w: int| 0 <= w < t1.len() && t1[w] == y;
                        assert(t0[w] == y);
                    }
                    if t0.contains(y) {
                        let w = choose|w: int| 0 <= w < t0.len() && t0[w] == y;
                        assert(t1[w] == y);
                    }
                    if y == x {
                        assert(t1[j as int] == x);
                    }
                }
            }
        }
        j = j + 1;
    }
    proof {
        assert(ls@.take(ls@.len() as int) =~= ls@);
    }
    r
}

/// The road of higher ID that road `k` forms a sausage link with, if any. `pairs` are the
/// links found among the roads before it.
fn upward_link(streets: &StreetNetwork, k: usize, pairs: &Vec<(RoadID, RoadID)>) -> (r: Option<RoadID>)
    requires
        streets.wf(),
        consistent(streets.roads@, streets.intersections@),
        k < streets.roads@.len(),
        pairs@ == sausage_links_upto(streets.roads@, streets.intersections@, k as int),
    ensures
        r == (if links_upward(streets.roads@, streets.intersections@, streets.roads@[k as int]) {
            Some(upward_partner(streets.roads@, streets.intersections@, streets.roads@[k as int]))
        } else {
            None
        }),
{
    let ghost rs = streets.roads@;
    let ghost is = streets.intersections@;
    let road1 = &streets.roads[k];
    let ghost r1 = rs[k as int];
    if road1.oneway_for_driving().is_none() {
        return None;
    }
    proof {
        assert(has_intersection(is, r1.src_i) && has_intersection(is, r1.dst_i));
    }
    let ks = streets.intersection_index(road1.src_i).unwrap();
    let kd = streets.intersection_index(road1.dst_i).unwrap();
    proof {
        lemma_intersection_with_id_pub(is, r1.src_i, ks as int);
        lemma_intersection_with_id_pub(is, r1.dst_i, kd as int);
    }
    let others = partners(streets, ks, kd, road1.id);
    if others.len() != 1 {
        proof {
            assert forall|x: RoadID| !sole_partner(is, r1, x) by {
                if sole_partner(is, r1, x) {
                    assert(others@.contains(x));
                    if others@.len() == 0 {
                        assert(false);
                    } else {
                        assert(others@.contains(others@[0]));
                        assert(others@.contains(others@[1]));
                        assert(links_ends(is, r1, others@[0]));
                        assert(links_ends(is, r1, others@[1]));
                        assert(others@[0] != others@[1]);
                    }
                }
            }
            assert(!links_upward(rs, is, r1));
        }
        return None;
    }
    let id2 = others[0];
    proof {
        assert(others@.contains(id2));
        assert forall|y: RoadID| #[trigger] links_ends(is, r1, y) && y != r1.id implies y == id2 by {
            assert(others@.contains(y));
        }
        assert(sole_partner(is, r1, id2));
        // Any sausage link of `road1` is with `id2`.
        assert forall|x: RoadID| #[trigger] sausage_link(rs, is, r1, x) implies x == id2 by {}
    }
    if pairs_contain(pairs, id2, road1.id) {
        proof {
            lemma_links_upto(rs, is, k as int);
            let t = choose|t: int| 0 <= t < pairs@.len() && pairs@[t] == (id2, r1.id);
            assert(pairs@[t].0.0 < pairs@[t].1.0);
        }
        return None;
    }
    proof {
        assert(is[ks as int].roads@.contains(id2));
        let p = choose|p: int| road_at(rs, id2, p);
        lemma_road_with_id_at(rs, id2, p);
    }
    let k2 = streets.road_index(id2).unwrap();
    let road2 = &streets.roads[k2];
    proof {
        lemma_road_with_id_at(rs, id2, k2 as int);
    }
    if road2.oneway_for_driving().is_none() || !same_name(road1, road2) {
        return None;
    }
    if !(road1.dst_i == road2.src_i && road2.dst_i == road1.src_i) {
        return None;
    }
    if streets.intersections[ks].roads.len() < 3 || streets.intersections[kd].roads.len() < 3 {
        return None;
    }
    if road1.osm_ids.len() > 0 && same_osm_ids(&road1.osm_ids, &road2.osm_ids) {
        return None;
    }
    proof {
        assert(sausage_link(rs, is, r1, id2));
        if id2.0 < r1.id.0 {
            // The partner, coming first, would have listed this pair already.
            law_sausage_link_symmetric(rs, is, k as int, id2);
            let r2 = rs[k2 as int];
            assert(road_with_id(rs, id2) == r2);
            assert(sausage_link(rs, is, r2, r1.id));
            assert(links_upward(rs, is, r2));
            assert(k2 < k) by {
                if k2 > k {
                    assert(rs[k as int].id.0 < rs[k2 as int].id.0);
                }
            }
            lemma_links_upto_has(rs, is, k as int, k2 as int);
            let x = upward_partner(rs, is, r2);
            assert(sausage_link(rs, is, r2, x));
            assert(road_at(rs, r1.id, k as int));
            assert(sole_partner(is, r2, x));
            assert(sole_partner(is, r2, r1.id));
            assert(links_ends(is, r2, r1.id));
            assert(x == r1.id);
            assert(false);
        }
        assert(links_upward(rs, is, r1));
    }
    Some(id2)
}

/// Finds the dual carriageways that split very briefly and join again with no road in
/// between: each pair once, the road of lower ID first, in order.
pub fn find_sausage_links(streets: &StreetNetwork) -> (pairs: Vec<(RoadID, RoadID)>)
    requires
        streets.wf(),
        consistent(streets.roads@, streets.intersections@),
    ensures
        pairs@ == sausage_links(streets.roads@, streets.intersections@),
{
    let mut pairs: Vec<(RoadID, RoadID)> = Vec::new();
    let mut k: usize = 0;
    while k < streets.roads.len()
        invariant
            streets.wf(),
            consistent(streets.roads@, streets.intersections@),
            k <= streets.roads@.len(),
            pairs@ == sausage_links_upto(streets.roads@, streets.intersections@, k as int),
        decreases streets.roads@.len() - k,
    {
        match upward_link(streets, k, &pairs) {
            Some(x) => {
                pairs.push((streets.roads[k].id, x));
            },
            None => {},
        }
        k = k + 1;
    }
    pairs
}

/// The lanes with every direction turned around.
pub open spec fn flipped(s: Seq<LaneSpecView>) -> Seq<LaneSpecView> {
    s.map_values(|l: LaneSpecView| LaneSpecView { dir: spec_opposite(l.dir), ..l })
}

/// The curb put between the two halves of a joined dual carriageway.
pub open spec fn curb_buffer() -> LaneSpecView {
    LaneSpecView {
        lt: LaneType::Buffer(BufferType::Curb),
        dir: Direction::Fwd,
        width: LaneWidthView::Exact(spec_typical_width(LaneType::Buffer(BufferType::Curb), "road"@)),
        turn_restrictions: Seq::empty(),
    }
}

/// The lanes of road `l1` joined with those of its partner `l2`, which runs the other way: a
/// curb goes in the middle, where neither may keep a sidewalk, and the partner's lanes turn
/// around. On the right, the partner's lanes go on the left; on the left, on the right.
pub open spec fn joined_lanes(l1: Seq<LaneSpecView>, l2: Seq<LaneSpecView>, side: DrivingSide) -> Seq<
    LaneSpecView,
> {
    match side {
        DrivingSide::Right => {
            let a = if l1[0].lt == LaneType::Sidewalk { l1.drop_first() } else { l1 };
            let b = if l2[0].lt == LaneType::Sidewalk { l2.drop_first() } else { l2 };
            flipped(b).reverse() + seq![curb_buffer()] + a
        },
        DrivingSide::Left => {
            let a = if l1.last().lt == LaneType::Sidewalk { l1.drop_last() } else { l1 };
            let rb = l2.reverse();
            let b = if rb[0].lt == LaneType::Sidewalk { rb.drop_first() } else { rb };
            a + seq![curb_buffer()] + flipped(b)
        },
    }
}

/// `n` is road `r1` joined with its partner `r2`: it takes over the OSM segments of `r2`, its
/// reference line runs along its center, and it has the joined lanes.
pub open spec fn sausage_joined(n: Road, r1: Road, r2: Road, side: DrivingSide) -> bool {
    &&& n.id == r1.id
    &&& n.osm_ids@ == r1.osm_ids@ + r2.osm_ids@
    &&& n.src_i == r1.src_i
    &&& n.dst_i == r1.dst_i
    &&& n.highway_type == r1.highway_type
    &&& n.name == r1.name
    &&& n.internal_junction_road == r1.internal_junction_road
    &&& n.layer == r1.layer
    &&& n.reference_line_placement == Placement::Consistent(RoadPosition::Center)
    &&& lanes_view(n.lane_specs_ltr@) == joined_lanes(road_lanes(r1), road_lanes(r2), side)
    &&& n.turn_restrictions == r1.turn_restrictions
    &&& n.complicated_turn_restrictions == r1.complicated_turn_restrictions
}

/// The curb between the halves.
fn new_curb_buffer() -> (l: LaneSpec)
    ensures
        l@ == curb_buffer(),
{
    let l = LaneSpec {
        lt: LaneType::Buffer(BufferType::Curb),
        dir: Direction::Fwd,
        width: LaneWidth::Exact(LaneSpec::typical_lane_width(LaneType::Buffer(BufferType::Curb))),
        turn_restrictions: Vec::new(),
    };
    proof {
        assert(l@.turn_restrictions =~= Seq::<Seq<char>>::empty());
    }
    l
}

/// Lane `l` turned around.
fn flip_lane(l: LaneSpec) -> (n: LaneSpec)
    ensures
        n@ == (LaneSpecView { dir: spec_opposite(l@.dir), ..l@ }),
{
    let mut l = l;
    l.dir = l.dir.opposite();
    l
}

/// The lanes of two roads joined, as `joined_lanes` says.
fn join_lanes(l1: Vec<LaneSpec>, l2: Vec<LaneSpec>, side: DrivingSide) -> (r: Vec<LaneSpec>)
    requires
        l1@.len() > 0,
        l2@.len() > 0,
    ensures
        lanes_view(r@) == joined_lanes(lanes_view(l1@), lanes_view(l2@), side),
{
    let ghost v1 = lanes_view(l1@);
    let ghost v2 = lanes_view(l2@);
    let mut a = l1;
    let mut b = l2;
    match side {
        DrivingSide::Right => {
            if a[0].lt == LaneType::Sidewalk {
                a.remove(0);
                proof {
                    assert(lanes_view(a@) =~= v1.drop_first());
                }
            }
            if b[0].lt == LaneType::Sidewalk {
                b.remove(0);
                proof {
                    assert(lanes_view(b@) =~= v2.drop_first());
                }
            }
            let ghost vb = lanes_view(b@);
            let mut out: Vec<LaneSpec> = Vec::new();
            while b.len() > 0
                invariant
                    lanes_view(b@) == vb.take(b@.len() as int),
                    b@.len() <= vb.len(),
                    lanes_view(out@) == flipped(vb.skip(b@.len() as int)).reverse(),
                decreases b@.len(),
            {
                let ghost n: int = b@.len() as int;
                let ghost b0 = b@;
                let l = b.pop().unwrap();
                proof {
                    assert(lanes_view(b0)[n - 1] == b0[n - 1]@);
                    assert(vb.take(n)[n - 1] == vb[n - 1]);
                    assert(l@ == vb[n - 1]);
                    assert(b@ =~= b0.take(n - 1));
                    assert(lanes_view(b@) =~= vb.take(n - 1));
                }
                out.push(flip_lane(l));
                proof {
                    assert(flipped(vb.skip(n - 1)).reverse() =~= flipped(vb.skip(n)).reverse().push(
                        LaneSpecView { dir: spec_opposite(vb[n - 1].dir), ..vb[n - 1] },
                    ));
                    assert(lanes_view(out@) =~= flipped(vb.skip(n - 1)).reverse());
                }
            }
            proof {
                assert(vb.skip(0) =~= vb);
            }
            out.push(new_curb_buffer());
            let ghost va = lanes_view(a@);
            let ghost vo = lanes_view(out@);
            out.append(&mut a);
            proof {
                assert(lanes_view(out@) =~= vo + va);
            }
            out
        },
        DrivingSide::Left => {
            let last = a.len() - 1;
            if a[last].lt == LaneType::Sidewalk {
                a.pop();
                proof {
                    assert(lanes_view(a@) =~= v1.drop_last());
                }
            }
            let mut rb: Vec<LaneSpec> = Vec::new();
            while b.len() > 0
                invariant
                    lanes_view(b@) == v2.take(b@.len() as int),
                    b@.len() <= v2.len(),
                    lanes_view(rb@) == v2.skip(b@.len() as int).reverse(),
                decreases b@.len(),
            {
                let ghost n: int = b@.len() as int;
                let ghost b0 = b@;
                let l = b.pop().unwrap();
                proof {
                    assert(lanes_view(b0)[n - 1] == b0[n - 1]@);
                    assert(v2.take(n)[n - 1] == v2[n - 1]);
                    assert(l@ == v2[n - 1]);
                    assert(b@ =~= b0.take(n - 1));
                    assert(lanes_view(b@) =~= v2.take(n - 1));
                }
                let ghost rb1 = rb@;
                let ghost lv = l@;
                rb.push(l);
                proof {
                    assert(lanes_view(rb@) =~= lanes_view(rb1).push(lv));
                    assert(v2.skip(n - 1).reverse() =~= v2.skip(n).reverse().push(v2[n - 1]));
                }
            }
            proof {
                assert(v2.skip(0) =~= v2);
            }
            if rb[0].lt == LaneType::Sidewalk {
                rb.remove(0);
                proof {
                    assert(lanes_view(rb@) =~= v2.reverse().drop_first());
                }
            }
            a.push(new_curb_buffer());
            let ghost vr = lanes_view(rb@);
            let ghost va = lanes_view(a@);
            while rb.len() > 0
                invariant
                    lanes_view(rb@) == vr.skip(vr.len() - rb@.len()),
                    rb@.len() <= vr.len(),
                    lanes_view(a@) == va + flipped(vr.take(vr.len() - rb@.len())),
                decreases rb@.len(),
            {
                let ghost c = vr.len() - rb@.len();
                let ghost rb0 = rb@;
                let l = rb.remove(0);
                proof {
                    assert(lanes_view(rb0)[0] == rb0[0]@);
                    assert(vr.skip(c)[0] == vr[c]);
                    assert(l@ == vr[c]);
                    assert(rb@ =~= rb0.skip(1));
                    assert(lanes_view(rb@) =~= lanes_view(rb0).skip(1));
                    assert(vr.skip(c).skip(1) =~= vr.skip(c + 1));
                }
                let ghost a1 = a@;
                let f = flip_lane(l);
                let ghost fv = f@;
                a.push(f);
                proof {
                    assert(lanes_view(a@) =~= lanes_view(a1).push(fv));
                    assert(flipped(vr.take(c + 1)) =~= flipped(vr.take(c)).push(fv));
                    assert(lanes_view(a@) =~= va + flipped(vr.take(c + 1)));
                }
            }
            proof {
                assert(vr.take(vr.len() as int) =~= vr);
            }
            a
        },
    }
}

/// Two sausage links never share a road, and no road pairs up with itself.
proof fn lemma_links_disjoint(rs: Seq<Road>, is: Seq<Intersection>)
    requires
        consistent(rs, is),
        roads_sorted(rs),
        intersections_sorted(is),
    ensures
        forall|t: int|
            0 <= t < sausage_links(rs, is).len() ==> (#[trigger] sausage_links(rs, is)[t]).0.0
                < sausage_links(rs, is)[t].1.0 && has_road(rs, sausage_links(rs, is)[t].0) && has_road(
                rs,
                sausage_links(rs, is)[t].1,
            ) && sausage_link(rs, is, road_with_id(rs, sausage_links(rs, is)[t].0), sausage_links(rs, is)[t].1)
                && sausage_link(rs, is, road_with_id(rs, sausage_links(rs, is)[t].1), sausage_links(rs, is)[t].0),
        forall|t: int, u: int|
            0 <= t < u < sausage_links(rs, is).len() ==> {
                let p = #[trigger] sausage_links(rs, is)[t];
                let q = #[trigger] sausage_links(rs, is)[u];
                p.0 != q.0 && p.0 != q.1 && p.1 != q.0 && p.1 != q.1
            },
{
    let sl = sausage_links(rs, is);
    lemma_links_upto(rs, is, rs.len() as int);
    assert forall|t: int| 0 <= t < sl.len() implies (#[trigger] sl[t]).0.0 < sl[t].1.0 && has_road(rs, sl[t].0)
        && has_road(rs, sl[t].1) && sausage_link(rs, is, road_with_id(rs, sl[t].0), sl[t].1)
        && sausage_link(rs, is, road_with_id(rs, sl[t].1), sl[t].0) by {
        let kk = choose|kk: int|
            0 <= kk < rs.len() && rs[kk].id == sl[t].0 && sausage_link(rs, is, rs[kk], sl[t].1) && sl[t].0.0
                < sl[t].1.0;
        assert(road_at(rs, sl[t].0, kk));
        lemma_road_with_id_at(rs, sl[t].0, kk);
        law_sausage_link_symmetric(rs, is, kk, sl[t].1);
    }
    assert forall|t: int, u: int| 0 <= t < u < sl.len() implies {
        let p = #[trigger] sl[t];
        let q = #[trigger] sl[u];
        p.0 != q.0 && p.0 != q.1 && p.1 != q.0 && p.1 != q.1
    } by {
        let p = sl[t];
        let q = sl[u];
        assert(p.0.0 < q.0.0);
        assert(p.0.0 < p.1.0);
        assert(q.0.0 < q.1.0);
        let rp = road_with_id(rs, p.0);
        let rq = road_with_id(rs, q.0);
        let rpb = road_with_id(rs, p.1);
        if p.0 == q.1 {
            // Both `p.1` and `q.0` are the sole partner of road `p.0`.
            assert(sausage_link(rs, is, rp, p.1));
            assert(sausage_link(rs, is, road_with_id(rs, q.1), q.0));
            assert(sole_partner(is, rp, q.0));
            assert(sole_partner(is, rp, p.1));
            assert(links_ends(is, rp, q.0));
            assert(q.0 == p.1);
        }
        if p.1 == q.0 {
            assert(sausage_link(rs, is, rpb, p.0));
            assert(sausage_link(rs, is, rq, q.1));
            assert(sole_partner(is, rq, p.0));
            assert(links_ends(is, rq, p.0));
            assert(p.0 == q.1);
        }
        if p.1 == q.1 {
            assert(sausage_link(rs, is, rpb, p.0));
            assert(sausage_link(rs, is, road_with_id(rs, q.1), q.0));
            assert(sole_partner(is, rpb, q.0));
            assert(links_ends(is, rpb, p.0));
            assert(p.0 == q.0);
        }
    }
}

/// The road with ID `id` is there and has lanes.
pub open spec fn has_road_with_lanes(rs: Seq<Road>, id: RoadID) -> bool {
    has_road(rs, id) && forall|k: int| #[trigger] road_at(rs, id, k) ==> rs[k].lane_specs_ltr@.len() > 0
}

/// `(n_rs, n_is)` is the network `(o_rs, o_is)` once road `id2` is joined into road `id1`:
/// road `id2` is gone from the roads and the lists, and road `id1` is joined with it.
pub open spec fn sausage_fixed(
    o_rs: Seq<Road>,
    o_is: Seq<Intersection>,
    n_rs: Seq<Road>,
    n_is: Seq<Intersection>,
    id1: RoadID,
    id2: RoadID,
    side: DrivingSide,
) -> bool {
    exists|k2: int|
        #![trigger road_at(o_rs, id2, k2)]
        road_at(o_rs, id2, k2) && {
            let rest = o_rs.remove(k2);
            &&& n_rs.len() == rest.len()
            &&& forall|j: int|
                0 <= j < rest.len() ==> if rest[j].id == id1 {
                    sausage_joined(#[trigger] n_rs[j], rest[j], o_rs[k2], side)
                } else {
                    n_rs[j] == rest[j]
                }
            &&& n_is.len() == o_is.len()
            &&& forall|j: int|
                0 <= j < o_is.len() ==> crate::network::same_but_roads(#[trigger] n_is[j], o_is[j])
                    && n_is[j].roads@ == crate::network::with_road_removed(o_is[j].roads@, o_is[j].id, o_rs[k2])
        }
}

/// Roads keeping their IDs and ends keep the network consistent.
proof fn lemma_same_ends_consistent(rs: Seq<Road>, rs2: Seq<Road>, is: Seq<Intersection>)
    requires
        consistent(rs, is),
        rs2.len() == rs.len(),
        forall|j: int|
            0 <= j < rs.len() ==> (#[trigger] rs2[j]).id == rs[j].id && rs2[j].src_i == rs[j].src_i
                && rs2[j].dst_i == rs[j].dst_i,
    ensures
        consistent(rs2, is),
{
    assert forall|q: int| 0 <= q < rs2.len() implies has_intersection(is, (#[trigger] rs2[q]).src_i)
        && has_intersection(is, rs2[q].dst_i) by {
        assert(rs2[q].src_i == rs[q].src_i);
    }
    assert forall|j: int, q: int| 0 <= j < is.len() && 0 <= q < rs2.len() implies (is[j].roads@.contains(
        #[trigger] rs2[q].id,
    ) <==> (rs2[q].src_i == (#[trigger] is[j]).id || rs2[q].dst_i == is[j].id)) by {
        assert(rs2[q].id == rs[q].id);
        assert(is[j].roads@.contains(rs[q].id) == (rs[q].src_i == is[j].id || rs[q].dst_i == is[j].id));
    }
    assert forall|j: int, x: RoadID| 0 <= j < is.len() && #[trigger] is[j].roads@.contains(x) implies has_road(rs2, x) by {
        let p = choose|p: int| road_at(rs, x, p);
        assert(road_at(rs2, x, p));
    }
}

impl StreetNetwork {
    /// Joins road `id2` into road `id1`, which run between the same two intersections in
    /// opposite directions: `id2` is removed, and `id1` takes over its OSM segments and its
    /// lanes, as `sausage_joined` says. The geometry of the joined road is left to the caller.
    fn fix(&mut self, id1: RoadID, id2: RoadID)
        requires
            old(self).wf(),
            crate::disconnected::ends_present(old(self).roads@, old(self).intersections@),
            id1 != id2,
            has_road_with_lanes(old(self).roads@, id1),
            has_road_with_lanes(old(self).roads@, id2),
        ensures
            final(self).wf(),
            crate::disconnected::ends_present(final(self).roads@, final(self).intersections@),
            final(self).config == old(self).config,
            final(self).road_counter() == old(self).road_counter(),
            final(self).intersection_counter() == old(self).intersection_counter(),
            sausage_fixed(
                old(self).roads@,
                old(self).intersections@,
                final(self).roads@,
                final(self).intersections@,
                id1,
                id2,
                old(self).config.driving_side,
            ),
    {
        let ghost o_rs = self.roads@;
        let ghost o_is = self.intersections@;
        let ghost k2 = choose|k2: int| road_at(o_rs, id2, k2);
        let ghost ka = choose|ka: int| road_at(o_rs, id1, ka);
        proof {
            assert(has_intersection(o_is, o_rs[k2].src_i));
        }
        let road2 = self.remove_road(id2);
        proof {
            let kx = choose|kx: int| road_at(o_rs, id2, kx) && road2 == o_rs[kx] && self.roads@ == o_rs.remove(kx);
            lemma_road_unique(o_rs, id2, kx, k2);
            let ka2 = if ka < k2 { ka } else { ka - 1 };
            assert(ka != k2);
            assert(self.roads@[ka2] == o_rs[ka]);
            assert(road_at(self.roads@, id1, ka2));
        }
        let ghost mid = self.roads@;
        let ghost g2 = road2;
        let k1 = self.road_index(id1).unwrap();
        proof {
            let ka2 = if ka < k2 { ka } else { ka - 1 };
            lemma_road_unique(mid, id1, k1 as int, ka2);
            assert(mid[k1 as int] == o_rs[ka]);
            assert(o_rs[ka].lane_specs_ltr@.len() > 0);
            assert(g2.lane_specs_ltr@.len() > 0);
        }
        let mut road1 = self.roads.remove(k1);
        let ghost g1 = road1;
        let mut osm2 = road2.osm_ids;
        road1.osm_ids.append(&mut osm2);
        road1.reference_line_placement = Placement::Consistent(RoadPosition::Center);
        let mut l1: Vec<LaneSpec> = Vec::new();
        std::mem::swap(&mut l1, &mut road1.lane_specs_ltr);
        road1.lane_specs_ltr = join_lanes(l1, road2.lane_specs_ltr, self.config.driving_side);
        self.roads.insert(k1, road1);
        proof {
            let rs = self.roads@;
            assert(rs =~= mid.update(k1 as int, road1));
            assert forall|a: int, b: int| 0 <= a < b < rs.len() implies (#[trigger] rs[a]).id.0
                < (#[trigger] rs[b]).id.0 by {
                assert(mid[a].id.0 < mid[b].id.0);
            }
            assert(sausage_joined(road1, g1, g2, self.config.driving_side));
            assert forall|j: int| 0 <= j < mid.len() implies if mid[j].id == id1 {
                sausage_joined(#[trigger] rs[j], mid[j], o_rs[k2], self.config.driving_side)
            } else {
                rs[j] == mid[j]
            } by {
                if mid[j].id == id1 {
                    lemma_road_unique(mid, id1, j, k1 as int);
                } else {
                    assert(j != k1);
                }
            }
            assert(road_at(o_rs, id2, k2));
            assert forall|q: int| 0 <= q < rs.len() implies has_intersection(self.intersections@, (#[trigger] rs[q]).src_i)
                && has_intersection(self.intersections@, rs[q].dst_i) by {
                let qq = if q < k2 { q } else { q + 1 };
                assert(mid[q] == o_rs[qq]);
                assert(rs[q].src_i == mid[q].src_i && rs[q].dst_i == mid[q].dst_i);
                let a = choose|a: int| intersection_at(o_is, o_rs[qq].src_i, a);
                let b = choose|b: int| intersection_at(o_is, o_rs[qq].dst_i, b);
                assert(intersection_at(self.intersections@, o_rs[qq].src_i, a));
                assert(intersection_at(self.intersections@, o_rs[qq].dst_i, b));
            }
        }
    }
}

/// `(rss[t], iss[t])` are the networks met while joining the sausage links `pairs` one after
/// the other, as `fix` does.
pub open spec fn sausage_steps(
    rss: Seq<Seq<Road>>,
    iss: Seq<Seq<Intersection>>,
    pairs: Seq<(RoadID, RoadID)>,
    side: DrivingSide,
) -> bool {
    &&& rss.len() == pairs.len() + 1
    &&& iss.len() == pairs.len() + 1
    &&& forall|t: int|
        0 <= t < pairs.len() ==> sausage_fixed(
            rss[t],
            iss[t],
            rss[t + 1],
            iss[t + 1],
            (#[trigger] pairs[t]).0,
            pairs[t].1,
            side,
        )
}

/// Roads other than the two joined keep their lanes, and stay.
proof fn lemma_fix_keeps_others(
    o_rs: Seq<Road>,
    o_is: Seq<Intersection>,
    n_rs: Seq<Road>,
    n_is: Seq<Intersection>,
    id1: RoadID,
    id2: RoadID,
    side: DrivingSide,
    x: RoadID,
)
    requires
        roads_sorted(o_rs),
        sausage_fixed(o_rs, o_is, n_rs, n_is, id1, id2, side),
        x != id1,
        x != id2,
        has_road_with_lanes(o_rs, x),
    ensures
        has_road_with_lanes(n_rs, x),
{
    let k2 = choose|k2: int|
        #![trigger road_at(o_rs, id2, k2)]
        road_at(o_rs, id2, k2) && {
            let rest = o_rs.remove(k2);
            &&& n_rs.len() == rest.len()
            &&& forall|j: int|
                0 <= j < rest.len() ==> if rest[j].id == id1 {
                    sausage_joined(#[trigger] n_rs[j], rest[j], o_rs[k2], side)
                } else {
                    n_rs[j] == rest[j]
                }
            &&& n_is.len() == o_is.len()
            &&& forall|j: int|
                0 <= j < o_is.len() ==> crate::network::same_but_roads(#[trigger] n_is[j], o_is[j])
                    && n_is[j].roads@ == crate::network::with_road_removed(o_is[j].roads@, o_is[j].id, o_rs[k2])
        };
    let rest = o_rs.remove(k2);
    let p = choose|p: int| road_at(o_rs, x, p);
    assert(p != k2);
    let p2 = if p < k2 { p } else { p - 1 };
    assert(rest[p2] == o_rs[p]);
    assert(n_rs[p2] == rest[p2]);
    assert(road_at(n_rs, x, p2));
    assert forall|k: int| #[trigger] road_at(n_rs, x, k) implies n_rs[k].lane_specs_ltr@.len() > 0 by {
        let kk = if k < k2 { k } else { k + 1 };
        assert(rest[k] == o_rs[kk]);
        if rest[k].id == id1 {
            assert(false);
        }
        assert(n_rs[k] == rest[k]);
        assert(road_at(o_rs, x, kk));
    }
}

/// Joining a sausage link keeps the network consistent.
proof fn lemma_fix_keeps_consistency(
    o_rs: Seq<Road>,
    o_is: Seq<Intersection>,
    n_rs: Seq<Road>,
    n_is: Seq<Intersection>,
    id1: RoadID,
    id2: RoadID,
    side: DrivingSide,
)
    requires
        consistent(o_rs, o_is),
        roads_sorted(o_rs),
        sausage_fixed(o_rs, o_is, n_rs, n_is, id1, id2, side),
    ensures
        consistent(n_rs, n_is),
{
    let k2 = choose|k2: int|
        #![trigger road_at(o_rs, id2, k2)]
        road_at(o_rs, id2, k2) && {
            let rest = o_rs.remove(k2);
            &&& n_rs.len() == rest.len()
            &&& forall|j: int|
                0 <= j < rest.len() ==> if rest[j].id == id1 {
                    sausage_joined(#[trigger] n_rs[j], rest[j], o_rs[k2], side)
                } else {
                    n_rs[j] == rest[j]
                }
            &&& n_is.len() == o_is.len()
            &&& forall|j: int|
                0 <= j < o_is.len() ==> crate::network::same_but_roads(#[trigger] n_is[j], o_is[j])
                    && n_is[j].roads@ == crate::network::with_road_removed(o_is[j].roads@, o_is[j].id, o_rs[k2])
        };
    let rest = o_rs.remove(k2);
    crate::laws::law_remove_road_keeps_consistency(o_rs, o_is, rest, n_is, k2);
    assert forall|j: int| 0 <= j < rest.len() implies (#[trigger] n_rs[j]).id == rest[j].id && n_rs[j].src_i
        == rest[j].src_i && n_rs[j].dst_i == rest[j].dst_i by {
        if rest[j].id == id1 {
            assert(sausage_joined(n_rs[j], rest[j], o_rs[k2], side));
        }
    }
    lemma_same_ends_consistent(rest, n_rs, n_is);
}

/// Finds the dual carriageways that split very briefly and join again with no road in between,
/// and joins each pair into its road of lower ID, with a curb in the middle, as `fix` does, in
/// the order `find_sausage_links` gives. The network stays consistent.
pub fn collapse_sausage_links(streets: &mut StreetNetwork)
    requires
        old(streets).wf(),
        consistent(old(streets).roads@, old(streets).intersections@),
    ensures
        final(streets).wf(),
        consistent(final(streets).roads@, final(streets).intersections@),
        final(streets).config == old(streets).config,
        final(streets).road_counter() == old(streets).road_counter(),
        final(streets).intersection_counter() == old(streets).intersection_counter(),
        exists|rss: Seq<Seq<Road>>, iss: Seq<Seq<Intersection>>|
            {
                &&& sausage_steps(
                    rss,
                    iss,
                    sausage_links(old(streets).roads@, old(streets).intersections@),
                    old(streets).config.driving_side,
                )
                &&& rss[0] == old(streets).roads@
                &&& iss[0] == old(streets).intersections@
                &&& rss.last() == final(streets).roads@
                &&& iss.last() == final(streets).intersections@
            },
{
    let ghost rs0 = streets.roads@;
    let ghost is0 = streets.intersections@;
    let pairs = find_sausage_links(streets);
    let ghost ps = pairs@;
    proof {
        lemma_links_disjoint(rs0, is0);
        assert forall|u: int| 0 <= u < ps.len() implies has_road_with_lanes(rs0, (#[trigger] ps[u]).0)
            && has_road_with_lanes(rs0, ps[u].1) by {
            let r1 = road_with_id(rs0, ps[u].0);
            let r2 = road_with_id(rs0, ps[u].1);
            assert(sausage_link(rs0, is0, r1, ps[u].1));
            assert(sausage_link(rs0, is0, r2, ps[u].0));
            assert forall|k: int| #[trigger] road_at(rs0, ps[u].0, k) implies rs0[k].lane_specs_ltr@.len() > 0 by {
                lemma_road_with_id_at(rs0, ps[u].0, k);
                let w = choose|w: int| 0 <= w < road_lanes(r1).len() && (#[trigger] road_lanes(r1)[w]).lt
                    == LaneType::Driving && road_lanes(r1)[w].dir == spec_oneway_for_driving(road_lanes(r1))->0;
            }
            assert forall|k: int| #[trigger] road_at(rs0, ps[u].1, k) implies rs0[k].lane_specs_ltr@.len() > 0 by {
                lemma_road_with_id_at(rs0, ps[u].1, k);
                let w = choose|w: int| 0 <= w < road_lanes(r2).len() && (#[trigger] road_lanes(r2)[w]).lt
                    == LaneType::Driving && road_lanes(r2)[w].dir == spec_oneway_for_driving(road_lanes(r2))->0;
            }
        }
    }
    let ghost mut rss: Seq<Seq<Road>> = seq![rs0];
    let ghost mut iss: Seq<Seq<Intersection>> = seq![is0];
    let mut t: usize = 0;
    while t < pairs.len()
        invariant
            ps == pairs@,
            ps == sausage_links(rs0, is0),
            streets.wf(),
            consistent(streets.roads@, streets.intersections@),
            streets.config == old(streets).config,
            streets.road_counter() == old(streets).road_counter(),
            streets.intersection_counter() == old(streets).intersection_counter(),
            rs0 == old(streets).roads@,
            is0 == old(streets).intersections@,
            t <= ps.len(),
            rss.len() == t + 1,
            iss.len() == t + 1,
            rss[0] == rs0,
            iss[0] == is0,
            rss[t as int] == streets.roads@,
            iss[t as int] == streets.intersections@,
            forall|u: int|
                0 <= u < t ==> sausage_fixed(
                    rss[u],
                    iss[u],
                    rss[u + 1],
                    iss[u + 1],
                    (#[trigger] ps[u]).0,
                    ps[u].1,
                    old(streets).config.driving_side,
                ),
            forall|u: int|
                t <= u < ps.len() ==> has_road_with_lanes(streets.roads@, (#[trigger] ps[u]).0)
                    && has_road_with_lanes(streets.roads@, ps[u].1),
            forall|u: int| 0 <= u < ps.len() ==> (#[trigger] ps[u]).0 != ps[u].1,
            forall|u: int, v: int|
                0 <= u < v < ps.len() ==> {
                    let p = #[trigger] ps[u];
                    let q = #[trigger] ps[v];
                    p.0 != q.0 && p.0 != q.1 && p.1 != q.0 && p.1 != q.1
                },
        decreases ps.len() - t,
    {
        let (id1, id2) = pairs[t];
        let ghost pre_rs = streets.roads@;
        let ghost pre_is = streets.intersections@;
        proof {
            assert(ps[t as int] == (id1, id2));
        }
        streets.fix(id1, id2);
        proof {
            lemma_fix_keeps_consistency(
                pre_rs,
                pre_is,
                streets.roads@,
                streets.intersections@,
                id1,
                id2,
                old(streets).config.driving_side,
            );
            rss = rss.push(streets.roads@);
            iss = iss.push(streets.intersections@);
            assert forall|u: int| 0 <= u < t + 1 implies sausage_fixed(
                rss[u],
                iss[u],
                rss[u + 1],
                iss[u + 1],
                (#[trigger] ps[u]).0,
                ps[u].1,
                old(streets).config.driving_side,
            ) by {
                if u < t {
                    assert(rss[u] == rss.drop_last()[u]);
                }
            }
            assert forall|u: int| t + 1 <= u < ps.len() implies has_road_with_lanes(
                streets.roads@,
                (#[trigger] ps[u]).0,
            ) && has_road_with_lanes(streets.roads@, ps[u].1) by {
                let p = ps[t as int];
                let q = ps[u];
                assert(p.0 != q.0 && p.0 != q.1 && p.1 != q.0 && p.1 != q.1);
                lemma_fix_keeps_others(
                    pre_rs,
                    pre_is,
                    streets.roads@,
                    streets.intersections@,
                    id1,
                    id2,
                    old(streets).config.driving_side,
                    q.0,
                );
                lemma_fix_keeps_others(
                    pre_rs,
                    pre_is,
                    streets.roads@,
                    streets.intersections@,
                    id1,
                    id2,
                    old(streets).config.driving_side,
                    q.1,
                );
            }
        }
        t = t + 1;
    }
    proof {
        assert(sausage_steps(rss, iss, ps, old(streets).config.driving_side));
    }
}

} // verus!

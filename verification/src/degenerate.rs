//! Whether an intersection where two roads meet is degenerate enough to join the roads.
use vstd::prelude::*;

use crate::lanes::{spec_oneway_for_driving, Distance, LaneSpec, LaneWidth, Placement};
use crate::road::{road_lanes, spec_is_cycleway, Road};
use crate::road_functions::IntersectionType;
use crate::strings::str_eq;
use crate::block::road_with_id;
use crate::collapse::{
    collapsible_at, intersection_collapsed, lemma_intersection_unique, lemma_road_with_id_at,
};
use crate::ids::{IntersectionID, RoadID};
use crate::laws::{consistent, law_collapse_intersection_keeps_consistency, two_different};
use crate::network::{
    has_intersection, has_road, intersection_at, intersections_sorted, road_at, roads_sorted,
    same_but_roads, without_road, Intersection, StreetNetwork,
};

verus! {

/// Why two roads meeting at an intersection are not joined.
#[derive(Clone, Copy, Debug, PartialEq, Eq, Structural)]
pub enum CollapseRefusal {
    /// One road has turn restrictions.
    TurnRestrictions,
    /// The roads are one-ways that point at each other.
    OnewaysPointAtEachOther,
    /// The lane specs don't match.
    LaneSpecsDiffer,
    /// The names don't match.
    NamesDiffer,
    /// The highway types don't match.
    HighwayTypesDiffer,
    /// The layers don't match.
    LayersDiffer,
    /// The placements don't match.
    PlacementsDiffer,
    /// One of the placements isn't consistent.
    PlacementNotConsistent,
}

pub open spec fn name_view(r: Road) -> Option<Seq<char>> {
    match r.name {
        Some(n) => Some(n@),
        None => None,
    }
}

/// Whether two roads meeting at an intersection may be joined into one, and if not, the first
/// reason against it: restrictions, one-ways pointing at each other, then any difference in
/// lanes, name, highway type, layer or placement (which must be consistent along each road).
pub open spec fn spec_should_collapse(r1: Road, r2: Road) -> Result<(), CollapseRefusal> {
    if r1.turn_restrictions@.len() > 0 || r1.complicated_turn_restrictions@.len() > 0 {
        Err(CollapseRefusal::TurnRestrictions)
    } else if r2.turn_restrictions@.len() > 0 || r2.complicated_turn_restrictions@.len() > 0 {
        Err(CollapseRefusal::TurnRestrictions)
    } else if spec_oneway_for_driving(road_lanes(r1)) is Some && spec_oneway_for_driving(
        road_lanes(r2),
    ) is Some && r1.dst_i == r2.dst_i {
        Err(CollapseRefusal::OnewaysPointAtEachOther)
    } else if road_lanes(r1) != road_lanes(r2) {
        Err(CollapseRefusal::LaneSpecsDiffer)
    } else if name_view(r1) != name_view(r2) {
        Err(CollapseRefusal::NamesDiffer)
    } else if r1.highway_type@ != r2.highway_type@ {
        Err(CollapseRefusal::HighwayTypesDiffer)
    } else if r1.layer != r2.layer {
        Err(CollapseRefusal::LayersDiffer)
    } else {
        match (r1.reference_line_placement, r2.reference_line_placement) {
            (Placement::Consistent(p1), Placement::Consistent(p2)) => if p1 != p2 {
                Err(CollapseRefusal::PlacementsDiffer)
            } else {
                Ok(())
            },
            _ => Err(CollapseRefusal::PlacementNotConsistent),
        }
    }
}

/// Whether two lists of strings hold the same strings in the same order.
fn strings_equal(a: &Vec<String>, b: &Vec<String>) -> (r: bool)
    ensures
        r == (a@.map_values(|s: String| s@) == b@.map_values(|s: String| s@)),
{
    let ghost av = a@.map_values(|s: String| s@);
    let ghost bv = b@.map_values(|s: String| s@);
    if a.len() != b.len() {
        proof {
            assert(av.len() != bv.len());
        }
        return false;
    }
    let mut k: usize = 0;
    while k < a.len()
        invariant
            a@.len() == b@.len(),
            av == a@.map_values(|s: String| s@),
            bv == b@.map_values(|s: String| s@),
            k <= a@.len(),
            forall|j: int| 0 <= j < k ==> av[j] == bv[j],
        decreases a@.len() - k,
    {
        if !str_eq(a[k].as_str(), b[k].as_str()) {
            proof {
                assert(av[k as int] != bv[k as int]);
            }
            return false;
        }
        k = k + 1;
    }
    proof {
        assert(av =~= bv);
    }
    true
}

/// Whether two lanes are the same.
fn lane_equal(a: &LaneSpec, b: &LaneSpec) -> (r: bool)
    ensures
        r == (a@ == b@),
{
    if a.lt != b.lt || a.dir != b.dir {
        return false;
    }
    let widths = match (&a.width, &b.width) {
        (LaneWidth::Exact(x), LaneWidth::Exact(y)) => *x == *y,
        (
            LaneWidth::Tagged { metres: m1, otherwise: o1 },
            LaneWidth::Tagged { metres: m2, otherwise: o2 },
        ) => *o1 == *o2 && str_eq(m1.as_str(), m2.as_str()),
        _ => false,
    };
    if !widths {
        return false;
    }
    strings_equal(&a.turn_restrictions, &b.turn_restrictions)
}

/// Whether two roads have the same lanes.
fn lanes_equal(a: &Vec<LaneSpec>, b: &Vec<LaneSpec>) -> (r: bool)
    ensures
        r == (crate::lanes::lanes_view(a@) == crate::lanes::lanes_view(b@)),
{
    let ghost av = crate::lanes::lanes_view(a@);
    let ghost bv = crate::lanes::lanes_view(b@);
    if a.len() != b.len() {
        proof {
            assert(av.len() != bv.len());
        }
        return false;
    }
    let mut k: usize = 0;
    while k < a.len()
        invariant
            a@.len() == b@.len(),
            av == crate::lanes::lanes_view(a@),
            bv == crate::lanes::lanes_view(b@),
            k <= a@.len(),
            forall|j: int| 0 <= j < k ==> av[j] == bv[j],
        decreases a@.len() - k,
    {
        if !lane_equal(&a[k], &b[k]) {
            proof {
                assert(av[k as int] == a@[k as int]@);
                assert(bv[k as int] == b@[k as int]@);
            }
            return false;
        }
        proof {
            assert(av[k as int] == a@[k as int]@);
            assert(bv[k as int] == b@[k as int]@);
        }
        k = k + 1;
    }
    proof {
        assert(av =~= bv);
    }
    true
}

/// Decides whether the two roads meeting at a degenerate intersection may be joined into one,
/// as `spec_should_collapse` says.
pub fn should_collapse(road1: &Road, road2: &Road) -> (r: Result<(), CollapseRefusal>)
    ensures
        r == spec_should_collapse(*road1, *road2),
{
    if road1.turn_restrictions.len() > 0 || road1.complicated_turn_restrictions.len() > 0 {
        return Err(CollapseRefusal::TurnRestrictions);
    }
    if road2.turn_restrictions.len() > 0 || road2.complicated_turn_restrictions.len() > 0 {
        return Err(CollapseRefusal::TurnRestrictions);
    }
    if road1.oneway_for_driving().is_some() && road2.oneway_for_driving().is_some() && road1.dst_i
        == road2.dst_i {
        return Err(CollapseRefusal::OnewaysPointAtEachOther);
    }
    if !lanes_equal(&road1.lane_specs_ltr, &road2.lane_specs_ltr) {
        return Err(CollapseRefusal::LaneSpecsDiffer);
    }
    let names = match (&road1.name, &road2.name) {
        (Some(a), Some(b)) => str_eq(a.as_str(), b.as_str()),
        (None, None) => true,
        _ => false,
    };
    if !names {
        return Err(CollapseRefusal::NamesDiffer);
    }
    if !str_eq(road1.highway_type.as_str(), road2.highway_type.as_str()) {
        return Err(CollapseRefusal::HighwayTypesDiffer);
    }
    if road1.layer != road2.layer {
        return Err(CollapseRefusal::LayersDiffer);
    }
    match (road1.reference_line_placement, road2.reference_line_placement) {
        (Placement::Consistent(p1), Placement::Consistent(p2)) => {
            if p1 != p2 {
                return Err(CollapseRefusal::PlacementsDiffer);
            }
        },
        _ => {
            return Err(CollapseRefusal::PlacementNotConsistent);
        },
    }
    Ok(())
}

/// Intersection `is[j]` lists two roads, and `should_collapse` accepts joining them.
pub open spec fn collapse_wanted(rs: Seq<Road>, is: Seq<Intersection>, j: int) -> bool {
    let l = is[j].roads@;
    l.len() == 2 && spec_should_collapse(road_with_id(rs, l[0]), road_with_id(rs, l[1])) is Ok
}

/// The IDs of the intersections before index `n` where joining the two roads is wanted, in
/// order.
pub open spec fn wanted_collapses(rs: Seq<Road>, is: Seq<Intersection>, n: int) -> Seq<
    IntersectionID,
>
    decreases n,
{
    if n <= 0 {
        Seq::empty()
    } else if collapse_wanted(rs, is, n - 1) {
        wanted_collapses(rs, is, n - 1).push(is[n - 1].id)
    } else {
        wanted_collapses(rs, is, n - 1)
    }
}

/// No intersection lists one road twice, as its only road, with joining it to itself wanted.
pub open spec fn no_lone_loop_wanted(rs: Seq<Road>, is: Seq<Intersection>) -> bool {
    forall|j: int|
        0 <= j < is.len() && (#[trigger] is[j]).roads@.len() == 2 && is[j].roads@[0]
            == is[j].roads@[1] ==> !collapse_wanted(rs, is, j)
}

/// `(rss[t], iss[t])` are the networks met while collapsing the intersections `ids` one after
/// the other, as `collapse_intersection` does.
pub open spec fn collapse_steps(
    rss: Seq<Seq<Road>>,
    iss: Seq<Seq<Intersection>>,
    ids: Seq<IntersectionID>,
) -> bool {
    &&& rss.len() == ids.len() + 1
    &&& iss.len() == ids.len() + 1
    &&& forall|t: int|
        0 <= t < ids.len() ==> intersection_collapsed(
            rss[t],
            iss[t],
            rss[t + 1],
            iss[t + 1],
            #[trigger] ids[t],
        )
}

/// Each wanted collapse names an intersection before `n` where it is wanted, and the IDs
/// increase.
proof fn lemma_wanted_collapses(rs: Seq<Road>, is: Seq<Intersection>, n: int)
    requires
        intersections_sorted(is),
        0 <= n <= is.len(),
    ensures
        forall|t: int|
            0 <= t < wanted_collapses(rs, is, n).len() ==> exists|j: int|
                0 <= j < n && is[j].id == #[trigger] wanted_collapses(rs, is, n)[t] && collapse_wanted(rs, is, j),
        forall|a: int, b: int|
            0 <= a < b < wanted_collapses(rs, is, n).len() ==> (#[trigger] wanted_collapses(rs, is, n)[a]).0
                < (#[trigger] wanted_collapses(rs, is, n)[b]).0,
        forall|t: int|
            0 <= t < wanted_collapses(rs, is, n).len() ==> (#[trigger] wanted_collapses(rs, is, n)[t]).0 < (
            if n > 0 { is[n - 1].id.0 + 1 } else { 0 }),
    decreases n,
{
    if n > 0 {
        lemma_wanted_collapses(rs, is, n - 1);
        let w = wanted_collapses(rs, is, n - 1);
        let wn = wanted_collapses(rs, is, n);
        assert forall|t: int| 0 <= t < wn.len() implies exists|j: int|
            0 <= j < n && is[j].id == #[trigger] wn[t] && collapse_wanted(rs, is, j) by {
            if t < w.len() {
                assert(wn[t] == w[t]);
                let j = choose|j: int| 0 <= j < n - 1 && is[j].id == w[t] && collapse_wanted(rs, is, j);
                assert(is[j].id == wn[t]);
            } else {
                assert(is[n - 1].id == wn[t]);
            }
        }
        assert forall|t: int| 0 <= t < wn.len() implies (#[trigger] wn[t]).0 < is[n - 1].id.0 + 1 by {
            if t < w.len() {
                assert(wn[t] == w[t]);
                if n > 1 {
                    assert(is[n - 2].id.0 < is[n - 1].id.0);
                }
            }
        }
        assert forall|a: int, b: int| 0 <= a < b < wn.len() implies (#[trigger] wn[a]).0 < (#[trigger] wn[b]).0 by {
            assert(wn[a] == w[a]);
            if b < w.len() {
                assert(wn[b] == w[b]);
            } else if n > 1 {
                assert(is[n - 2].id.0 < is[n - 1].id.0);
            }
        }
    }
}

/// In a consistent network, an intersection listing two different roads can be collapsed.
proof fn lemma_collapsible(rs: Seq<Road>, is: Seq<Intersection>, ki: int)
    requires
        consistent(rs, is),
        crate::network::roads_sorted(rs),
        0 <= ki < is.len(),
        two_different(is[ki].roads@),
    ensures
        collapsible_at(rs, is, ki),
{
    let l = is[ki].roads@;
    assert(l.contains(l[0]));
    assert(l.contains(l[1]));
    let p0 = choose|p: int| road_at(rs, l[0], p);
    let p1 = choose|p: int| road_at(rs, l[1], p);
    lemma_road_with_id_at(rs, l[0], p0);
    lemma_road_with_id_at(rs, l[1], p1);
    assert(is[ki].roads@.contains(rs[p0].id) == (rs[p0].src_i == is[ki].id || rs[p0].dst_i == is[ki].id));
    assert(is[ki].roads@.contains(rs[p1].id) == (rs[p1].src_i == is[ki].id || rs[p1].dst_i == is[ki].id));
}

/// After collapsing the intersection `ids[t]`, the network is still consistent, and each
/// intersection still to be collapsed is there and lists two different roads.
#[verifier::rlimit(80)]
proof fn lemma_collapse_step(
    pre_rs: Seq<Road>,
    pre_is: Seq<Intersection>,
    rs2: Seq<Road>,
    is2: Seq<Intersection>,
    ids: Seq<IntersectionID>,
    t: int,
    ki: int,
)
    requires
        consistent(pre_rs, pre_is),
        crate::network::roads_sorted(pre_rs),
        intersections_sorted(pre_is),
        0 <= t < ids.len(),
        intersection_at(pre_is, ids[t], ki),
        collapsible_at(pre_rs, pre_is, ki),
        intersection_collapsed(pre_rs, pre_is, rs2, is2, ids[t]),
        forall|u: int| t <= u < ids.len() ==> has_intersection(pre_is, #[trigger] ids[u]),
        forall|u: int, k: int|
            #![trigger ids[u], pre_is[k]]
            t <= u < ids.len() && intersection_at(pre_is, ids[u], k) ==> two_different(pre_is[k].roads@),
        forall|a: int, b: int| 0 <= a < b < ids.len() ==> (#[trigger] ids[a]).0 < (#[trigger] ids[b]).0,
    ensures
        consistent(rs2, is2),
        forall|u: int| t + 1 <= u < ids.len() ==> has_intersection(is2, #[trigger] ids[u]),
        forall|u: int, k: int|
            #![trigger ids[u], is2[k]]
            t + 1 <= u < ids.len() && intersection_at(is2, ids[u], k) ==> two_different(is2[k].roads@),
{
    law_collapse_intersection_keeps_consistency(pre_rs, pre_is, rs2, is2, ids[t], ki);
    assert forall|u: int| t + 1 <= u < ids.len() implies has_intersection(is2, #[trigger] ids[u]) by {
        assert(ids[t].0 < ids[u].0);
        assert(has_intersection(pre_is, ids[u]));
    }
    assert forall|u: int, k: int|
        #![trigger ids[u], is2[k]]
        t + 1 <= u < ids.len() && intersection_at(is2, ids[u], k) implies two_different(is2[k].roads@) by {
        let jj = choose|jj: int|
            intersection_at(pre_is, ids[u], jj) && (two_different(pre_is[jj].roads@) ==> two_different(
                is2[k].roads@,
            ));
        assert(two_different(pre_is[jj].roads@));
    }
}

/// Whether joining the two roads at the intersection at index `j` is wanted, as
/// `collapse_wanted` says.
fn wants_collapse(streets: &StreetNetwork, j: usize) -> (r: bool)
    requires
        streets.wf(),
        consistent(streets.roads@, streets.intersections@),
        j < streets.intersections@.len(),
    ensures
        r == collapse_wanted(streets.roads@, streets.intersections@, j as int),
{
    let ghost rs = streets.roads@;
    let ghost is = streets.intersections@;
    let id = streets.intersections[j].id;
    proof {
        assert(intersection_at(is, id, j as int));
        assert forall|x: int| 0 <= x < is[j as int].roads@.len() implies crate::network::has_road(
            rs,
            #[trigger] is[j as int].roads@[x],
        ) by {
            assert(is[j as int].roads@.contains(is[j as int].roads@[x]));
        }
    }
    let roads = streets.roads_per_intersection(id);
    proof {
        let k = choose|k: int|
            intersection_at(is, id, k) && roads@.len() == (#[trigger] is[k]).roads@.len() && forall|x: int|
                0 <= x < roads@.len() ==> (#[trigger] roads@[x]).id == is[k].roads@[x] && rs.contains(*roads@[x]);
        lemma_intersection_unique(is, id, k, j as int);
    }
    if roads.len() != 2 {
        return false;
    }
    proof {
        let l = is[j as int].roads@;
        let p0 = choose|p: int| 0 <= p < rs.len() && rs[p] == *roads@[0];
        let p1 = choose|p: int| 0 <= p < rs.len() && rs[p] == *roads@[1];
        assert(road_at(rs, l[0], p0));
        assert(road_at(rs, l[1], p1));
        lemma_road_with_id_at(rs, l[0], p0);
        lemma_road_with_id_at(rs, l[1], p1);
    }
    should_collapse(roads[0], roads[1]).is_ok()
}

/// Joins the two roads at every intersection where exactly two meet and `should_collapse`
/// accepts them: the intersections are picked first, in order of ID, then collapsed one after
/// the other by `collapse_intersection`, which leaves loops alone. The network stays
/// consistent.
#[verifier::rlimit(50)]
pub fn collapse(streets: &mut StreetNetwork)
    requires
        old(streets).wf(),
        consistent(old(streets).roads@, old(streets).intersections@),
        no_lone_loop_wanted(old(streets).roads@, old(streets).intersections@),
    ensures
        final(streets).wf(),
        consistent(final(streets).roads@, final(streets).intersections@),
        final(streets).config == old(streets).config,
        final(streets).road_counter() == old(streets).road_counter(),
        final(streets).intersection_counter() == old(streets).intersection_counter(),
        exists|rss: Seq<Seq<Road>>, iss: Seq<Seq<Intersection>>|
            {
                &&& collapse_steps(
                    rss,
                    iss,
                    wanted_collapses(
                        old(streets).roads@,
                        old(streets).intersections@,
                        old(streets).intersections@.len() as int,
                    ),
                )
                &&& rss[0] == old(streets).roads@
                &&& iss[0] == old(streets).intersections@
                &&& rss.last() == final(streets).roads@
                &&& iss.last() == final(streets).intersections@
            },
{
    let ghost rs0 = streets.roads@;
    let ghost is0 = streets.intersections@;
    let mut merge: Vec<IntersectionID> = Vec::new();
    let mut j: usize = 0;
    while j < streets.intersections.len()
        invariant
            streets.wf(),
            consistent(streets.roads@, streets.intersections@),
            streets.roads@ == rs0,
            streets.intersections@ == is0,
            j <= is0.len(),
            merge@ == wanted_collapses(rs0, is0, j as int),
        decreases is0.len() - j,
    {
        if wants_collapse(streets, j) {
            merge.push(streets.intersections[j].id);
        }
        j = j + 1;
    }
    let ghost ids = merge@;
    proof {
        lemma_wanted_collapses(rs0, is0, is0.len() as int);
        assert forall|u: int, k: int|
            #![trigger ids[u], is0[k]]
            0 <= u < ids.len() && intersection_at(is0, ids[u], k) implies two_different(
            is0[k].roads@,
        ) by {
            let jj = choose|jj: int| 0 <= jj < is0.len() && is0[jj].id == ids[u] && collapse_wanted(rs0, is0, jj);
            lemma_intersection_unique(is0, ids[u], jj, k);
            assert(is0[jj].roads@.len() == 2);
        }
        assert forall|u: int| 0 <= u < ids.len() implies has_intersection(is0, #[trigger] ids[u]) by {
            let jj = choose|jj: int| 0 <= jj < is0.len() && is0[jj].id == ids[u] && collapse_wanted(rs0, is0, jj);
            assert(intersection_at(is0, ids[u], jj));
        }
    }
    let ghost mut rss: Seq<Seq<Road>> = seq![rs0];
    let ghost mut iss: Seq<Seq<Intersection>> = seq![is0];
    let mut t: usize = 0;
    while t < merge.len()
        invariant
            ids == merge@,
            streets.wf(),
            consistent(streets.roads@, streets.intersections@),
            streets.config == old(streets).config,
            streets.road_counter() == old(streets).road_counter(),
            streets.intersection_counter() == old(streets).intersection_counter(),
            rs0 == old(streets).roads@,
            is0 == old(streets).intersections@,
            t <= ids.len(),
            rss.len() == t + 1,
            iss.len() == t + 1,
            rss[0] == rs0,
            iss[0] == is0,
            rss[t as int] == streets.roads@,
            iss[t as int] == streets.intersections@,
            forall|u: int|
                0 <= u < t ==> intersection_collapsed(
                    rss[u],
                    iss[u],
                    rss[u + 1],
                    iss[u + 1],
                    #[trigger] ids[u],
                ),
            forall|u: int| t <= u < ids.len() ==> has_intersection(streets.intersections@, #[trigger] ids[u]),
            forall|u: int, k: int|
                #![trigger ids[u], streets.intersections@[k]]
                t <= u < ids.len() && intersection_at(streets.intersections@, ids[u], k) ==> two_different(
                    streets.intersections@[k].roads@,
                ),
            forall|a: int, b: int| 0 <= a < b < ids.len() ==> (#[trigger] ids[a]).0 < (#[trigger] ids[b]).0,
        decreases ids.len() - t,
    {
        let i = merge[t];
        let ghost pre_rs = streets.roads@;
        let ghost pre_is = streets.intersections@;
        let ghost ki = choose|ki: int| intersection_at(pre_is, i, ki);
        proof {
            assert(has_intersection(pre_is, ids[t as int]));
            lemma_collapsible(pre_rs, pre_is, ki);
        }
        streets.collapse_intersection(i);
        proof {
            lemma_collapse_step(pre_rs, pre_is, streets.roads@, streets.intersections@, ids, t as int, ki);
            rss = rss.push(streets.roads@);
            iss = iss.push(streets.intersections@);
            assert forall|u: int| 0 <= u < t + 1 implies intersection_collapsed(
                rss[u],
                iss[u],
                rss[u + 1],
                iss[u + 1],
                #[trigger] ids[u],
            ) by {
                if u < t {
                    assert(rss[u] == rss.drop_last()[u]);
                }
            }
        }
        t = t + 1;
    }
    proof {
        assert(collapse_steps(rss, iss, ids));
    }
}

/// Dead-end cycleways and service roads shorter than this are trimmed: 30 m.
pub const SHORT_THRESHOLD: Distance = 30_000_000;

/// The index of the road with ID `id`.
pub open spec fn road_index_of(rs: Seq<Road>, id: RoadID) -> int {
    choose|p: int| road_at(rs, id, p)
}

/// Intersection `i` is the dead end of a short cycleway or service road: one road meets it,
/// it is no map edge, and that road, of length `lengths` gives at its index, is shorter than
/// `SHORT_THRESHOLD` and a cycleway or a service road.
pub open spec fn is_deadend_stub(rs: Seq<Road>, lengths: Seq<Distance>, i: Intersection) -> bool {
    let l = i.roads@;
    let p = road_index_of(rs, l[0]);
    &&& l.len() == 1
    &&& i.kind != IntersectionType::MapEdge
    &&& lengths[p] < SHORT_THRESHOLD
    &&& (spec_is_cycleway(road_lanes(rs[p])) || rs[p].highway_type@ == "service"@)
}

/// Road `x` meets the trimmed dead end `is[j]`.
pub open spec fn trimmed_at(
    rs: Seq<Road>,
    is: Seq<Intersection>,
    lengths: Seq<Distance>,
    j: int,
    x: RoadID,
) -> bool {
    0 <= j < is.len() && is_deadend_stub(rs, lengths, is[j]) && is[j].roads@[0] == x
}

/// The roads that meet a trimmed dead end.
pub open spec fn trimmed_roads(rs: Seq<Road>, is: Seq<Intersection>, lengths: Seq<Distance>) -> Set<
    RoadID,
> {
    Set::new(|x: RoadID| exists|j: int| #[trigger] trimmed_at(rs, is, lengths, j, x))
}

/// The roads of `rs` not in `gone`, in order.
pub open spec fn roads_kept(rs: Seq<Road>, gone: Set<RoadID>) -> Seq<Road>
    decreases rs.len(),
{
    if rs.len() == 0 {
        rs
    } else if gone.contains(rs.last().id) {
        roads_kept(rs.drop_last(), gone)
    } else {
        roads_kept(rs.drop_last(), gone).push(rs.last())
    }
}

/// The IDs of `s` not in `gone`, in order.
pub open spec fn ids_kept(s: Seq<RoadID>, gone: Set<RoadID>) -> Seq<RoadID>
    decreases s.len(),
{
    if s.len() == 0 {
        s
    } else if gone.contains(s.last()) {
        ids_kept(s.drop_last(), gone)
    } else {
        ids_kept(s.drop_last(), gone).push(s.last())
    }
}

/// The indices of the intersections before `n` that are not trimmed dead ends, in order.
pub open spec fn kept_intersections(
    rs: Seq<Road>,
    is: Seq<Intersection>,
    lengths: Seq<Distance>,
    n: int,
) -> Seq<int>
    decreases n,
{
    if n <= 0 {
        Seq::empty()
    } else if is_deadend_stub(rs, lengths, is[n - 1]) {
        kept_intersections(rs, is, lengths, n - 1)
    } else {
        kept_intersections(rs, is, lengths, n - 1).push(n - 1)
    }
}

/// Taking one more road out of a list.
proof fn lemma_ids_kept_step(s: Seq<RoadID>, gone: Set<RoadID>, id: RoadID)
    ensures
        without_road(ids_kept(s, gone), id) == ids_kept(s, gone.insert(id)),
    decreases s.len(),
{
    if s.len() > 0 {
        lemma_ids_kept_step(s.drop_last(), gone, id);
        let k = ids_kept(s.drop_last(), gone);
        if !gone.contains(s.last()) {
            assert(k.push(s.last()).drop_last() =~= k);
            assert(k.push(s.last()).last() == s.last());
        }
    }
}

/// A road not in the list is not taken out of it.
proof fn lemma_ids_kept_absent(s: Seq<RoadID>, gone: Set<RoadID>, id: RoadID)
    requires
        !s.contains(id),
    ensures
        ids_kept(s, gone.insert(id)) == ids_kept(s, gone),
    decreases s.len(),
{
    if s.len() > 0 {
        assert(!s.drop_last().contains(id)) by {
            if s.drop_last().contains(id) {
                let w = choose|w: int| 0 <= w < s.drop_last().len() && s.drop_last()[w] == id;
                assert(s[w] == id);
            }
        }
        assert(s.last() != id) by {
            assert(s[s.len() - 1] == s.last());
        }
        lemma_ids_kept_absent(s.drop_last(), gone, id);
    }
}

/// The kept roads are roads of the list, in order, with the IDs not in `gone`.
proof fn lemma_roads_kept(rs: Seq<Road>, gone: Set<RoadID>)
    requires
        roads_sorted(rs),
    ensures
        roads_sorted(roads_kept(rs, gone)),
        forall|x: RoadID| has_road(roads_kept(rs, gone), x) <==> (has_road(rs, x) && !gone.contains(x)),
        forall|j: int| 0 <= j < roads_kept(rs, gone).len() ==> rs.contains(#[trigger] roads_kept(rs, gone)[j]),
    decreases rs.len(),
{
    if rs.len() > 0 {
        let d = rs.drop_last();
        assert(roads_sorted(d));
        lemma_roads_kept(d, gone);
        let k = roads_kept(d, gone);
        let last = rs.last();
        assert(rs[rs.len() - 1] == last);
        assert forall|x: RoadID| has_road(rs, x) <==> (has_road(d, x) || x == last.id) by {
            if has_road(rs, x) {
                let p = choose|p: int| road_at(rs, x, p);
                if p < rs.len() - 1 {
                    assert(road_at(d, x, p));
                }
            }
            if has_road(d, x) {
                let p = choose|p: int| road_at(d, x, p);
                assert(road_at(rs, x, p));
            }
            if x == last.id {
                assert(road_at(rs, x, rs.len() - 1));
            }
        }
        assert forall|j: int| 0 <= j < roads_kept(rs, gone).len() implies rs.contains(#[trigger] roads_kept(rs, gone)[j]) by {
            if j < k.len() {
                assert(d.contains(k[j]));
                let w = choose|w: int| 0 <= w < d.len() && d[w] == k[j];
                assert(rs[w] == k[j]);
            }
        }
        if !gone.contains(last.id) {
            let kr = k.push(last);
            assert forall|a: int, b: int| 0 <= a < b < kr.len() implies (#[trigger] kr[a]).id.0 < (#[trigger] kr[b]).id.0 by {
                if b < k.len() {
                } else {
                    assert(d.contains(kr[a]));
                    let w = choose|w: int| 0 <= w < d.len() && d[w] == kr[a];
                    assert(rs[w] == kr[a]);
                }
            }
            assert forall|x: RoadID| has_road(kr, x) <==> (has_road(rs, x) && !gone.contains(x)) by {
                if has_road(kr, x) {
                    let p = choose|p: int| road_at(kr, x, p);
                    if p < k.len() {
                        assert(road_at(k, x, p));
                    }
                }
                if has_road(k, x) {
                    let p = choose|p: int| road_at(k, x, p);
                    assert(road_at(kr, x, p));
                }
                if x == last.id {
                    assert(road_at(kr, x, k.len() as int));
                }
            }
        }
    }
}

/// Removing a kept road from the kept roads is keeping one road fewer.
proof fn lemma_roads_kept_step(rs: Seq<Road>, gone: Set<RoadID>, k: int, id: RoadID)
    requires
        roads_sorted(rs),
        0 <= k < roads_kept(rs, gone).len(),
        roads_kept(rs, gone)[k].id == id,
    ensures
        roads_kept(rs, gone).remove(k) == roads_kept(rs, gone.insert(id)),
    decreases rs.len(),
{
    let d = rs.drop_last();
    let last = rs.last();
    assert(roads_sorted(d));
    lemma_roads_kept(d, gone);
    let kd = roads_kept(d, gone);
    if gone.contains(last.id) {
        lemma_roads_kept_step(d, gone, k, id);
    } else if k == kd.len() {
        assert(roads_kept(rs, gone)[k] == last);
        // No earlier road has the ID of the last one.
        assert(roads_kept(d, gone.insert(id)) =~= kd) by {
            lemma_roads_kept_absent_id(d, gone, id);
        }
        assert(roads_kept(rs, gone).remove(k) =~= kd);
    } else {
        lemma_roads_kept_step(d, gone, k, id);
        assert(kd[k].id == id);
        assert(last.id != id) by {
            assert(d.contains(kd[k]));
            let w = choose|w: int| 0 <= w < d.len() && d[w] == kd[k];
            assert(rs[w] == kd[k]);
            assert(rs[w].id.0 < rs[rs.len() - 1].id.0);
        }
        assert(roads_kept(rs, gone).remove(k) =~= kd.remove(k).push(last));
    }
}

/// Where no road has ID `id`, keeping one road fewer keeps the same roads.
proof fn lemma_roads_kept_absent_id(rs: Seq<Road>, gone: Set<RoadID>, id: RoadID)
    requires
        forall|j: int| 0 <= j < rs.len() ==> (#[trigger] rs[j]).id != id,
    ensures
        roads_kept(rs, gone.insert(id)) == roads_kept(rs, gone),
    decreases rs.len(),
{
    if rs.len() > 0 {
        assert(rs[rs.len() - 1] == rs.last());
        lemma_roads_kept_absent_id(rs.drop_last(), gone, id);
    }
}

/// The indices that `kept_intersections` picks increase and stay below `n`.
proof fn lemma_kept_increasing(rs: Seq<Road>, is: Seq<Intersection>, lengths: Seq<Distance>, n: int)
    requires
        n >= 0,
    ensures
        forall|j: int|
            0 <= j < kept_intersections(rs, is, lengths, n).len() ==> 0 <= #[trigger] kept_intersections(
                rs,
                is,
                lengths,
                n,
            )[j] < n,
        forall|a: int, b: int|
            0 <= a < b < kept_intersections(rs, is, lengths, n).len() ==> #[trigger] kept_intersections(
                rs,
                is,
                lengths,
                n,
            )[a] < #[trigger] kept_intersections(rs, is, lengths, n)[b],
    decreases n,
{
    if n > 0 {
        lemma_kept_increasing(rs, is, lengths, n - 1);
        let p = kept_intersections(rs, is, lengths, n - 1);
        if !is_deadend_stub(rs, lengths, is[n - 1]) {
            let q = p.push(n - 1);
            assert(kept_intersections(rs, is, lengths, n) == q);
            assert forall|j: int| 0 <= j < q.len() implies 0 <= #[trigger] q[j] < n by {
                if j < p.len() {
                    assert(q[j] == p[j]);
                }
            }
            assert forall|a: int, b: int| 0 <= a < b < q.len() implies #[trigger] q[a] < #[trigger] q[b] by {
                assert(q[a] == p[a]);
                if b < p.len() {
                    assert(q[b] == p[b]);
                }
            }
        }
    }
}

/// Whether the intersection at index `j` is the dead end of a short cycleway or service road,
/// as `is_deadend_stub` says.
fn is_stub(streets: &StreetNetwork, lengths: &Vec<Distance>, j: usize) -> (r: bool)
    requires
        streets.wf(),
        consistent(streets.roads@, streets.intersections@),
        lengths@.len() == streets.roads@.len(),
        j < streets.intersections@.len(),
    ensures
        r == is_deadend_stub(streets.roads@, lengths@, streets.intersections@[j as int]),
{
    let ghost rs = streets.roads@;
    let inter = &streets.intersections[j];
    if inter.roads.len() != 1 || inter.kind == IntersectionType::MapEdge {
        return false;
    }
    let id = inter.roads[0];
    proof {
        assert(streets.intersections@[j as int].roads@.contains(id));
    }
    let p = streets.road_index(id).unwrap();
    proof {
        let c = choose|c: int| road_at(rs, id, c);
        crate::collapse::lemma_road_unique(rs, id, c, p as int);
    }
    let road = &streets.roads[p];
    lengths[p] < SHORT_THRESHOLD && (road.is_cycleway() || road.is_service())
}

/// Removes the dead ends of short cycleways and service roads, with the roads that lead to
/// them: where one road meets an intersection that is no map edge, and that road is a
/// cycleway or a service road shorter than `SHORT_THRESHOLD`. `lengths` are the roads' lengths
/// in micrometres, in the order of `streets.roads`, as the caller measured them.
pub fn trim_deadends(streets: &mut StreetNetwork, lengths: &Vec<Distance>)
    requires
        old(streets).wf(),
        consistent(old(streets).roads@, old(streets).intersections@),
        lengths@.len() == old(streets).roads@.len(),
    ensures
        final(streets).wf(),
        final(streets).config == old(streets).config,
        final(streets).road_counter() == old(streets).road_counter(),
        final(streets).intersection_counter() == old(streets).intersection_counter(),
        consistent(final(streets).roads@, final(streets).intersections@),
        final(streets).roads@ == roads_kept(
            old(streets).roads@,
            trimmed_roads(old(streets).roads@, old(streets).intersections@, lengths@),
        ),
        ({
            let is = old(streets).intersections@;
            let kept = kept_intersections(old(streets).roads@, is, lengths@, is.len() as int);
            &&& final(streets).intersections@.len() == kept.len()
            &&& forall|j: int|
                0 <= j < kept.len() ==> same_but_roads(#[trigger] final(streets).intersections@[j], is[kept[j]])
                    && final(streets).intersections@[j].roads@ == ids_kept(
                    is[kept[j]].roads@,
                    trimmed_roads(old(streets).roads@, is, lengths@),
                )
        }),
{
    let ghost rs0 = streets.roads@;
    let ghost is0 = streets.intersections@;
    let ghost tr = trimmed_roads(rs0, is0, lengths@);
    let mut stub: Vec<bool> = Vec::new();
    let mut gone: Vec<RoadID> = Vec::new();
    let mut j: usize = 0;
    while j < streets.intersections.len()
        invariant
            streets.wf(),
            consistent(streets.roads@, streets.intersections@),
            streets.roads@ == rs0,
            streets.intersections@ == is0,
            lengths@.len() == rs0.len(),
            j <= is0.len(),
            stub@.len() == j,
            forall|x: int| 0 <= x < j ==> #[trigger] stub@[x] == is_deadend_stub(rs0, lengths@, is0[x]),
            forall|a: int, b: int| 0 <= a < b < gone@.len() ==> gone@[a] != gone@[b],
            forall|y: RoadID|
                #[trigger] gone@.contains(y) <==> exists|x: int| x < j && #[trigger] trimmed_at(rs0, is0, lengths@, x, y),
        decreases is0.len() - j,
    {
        let b = is_stub(streets, lengths, j);
        stub.push(b);
        if b {
            let r = streets.intersections[j].roads[0];
            let ghost g0 = gone@;
            if !crate::sausage::list_contains(&gone, r) {
                gone.push(r);
                proof {
                    assert(gone@[gone@.len() - 1] == r);
                    assert forall|a: int, c: int| 0 <= a < c < gone@.len() implies gone@[a] != gone@[c] by {
                        if c == gone@.len() - 1 {
                            assert(g0[a] == gone@[a]);
                        } else {
                            assert(g0[a] == gone@[a] && g0[c] == gone@[c]);
                        }
                    }
                }
            }
            proof {
                assert(gone@.contains(r));
                assert forall|y: RoadID| #[trigger] gone@.contains(y) <==> exists|x: int|
                    x < j + 1 && #[trigger] trimmed_at(rs0, is0, lengths@, x, y) by {
                    if y == r {
                        assert(trimmed_at(rs0, is0, lengths@, j as int, r));
                    } else {
                        if gone@.contains(y) {
                            let w = choose|w: int| 0 <= w < gone@.len() && gone@[w] == y;
                            assert(w < g0.len());
                            assert(g0[w] == y);
                            assert(g0.contains(y));
                        }
                        if g0.contains(y) {
                            let w = choose|w: int| 0 <= w < g0.len() && g0[w] == y;
                            assert(gone@[w] == y);
                        }
                        if exists|x: int| x < j + 1 && #[trigger] trimmed_at(rs0, is0, lengths@, x, y) {
                            let x = choose|x: int| x < j + 1 && #[trigger] trimmed_at(rs0, is0, lengths@, x, y);
                            assert(x != j);
                        }
                    }
                }
            }
        } else {
            proof {
                assert forall|y: RoadID| #[trigger] gone@.contains(y) <==> exists|x: int|
                    x < j + 1 && #[trigger] trimmed_at(rs0, is0, lengths@, x, y) by {
                    if exists|x: int| x < j + 1 && #[trigger] trimmed_at(rs0, is0, lengths@, x, y) {
                        let x = choose|x: int| x < j + 1 && #[trigger] trimmed_at(rs0, is0, lengths@, x, y);
                        assert(x != j);
                    }
                }
            }
        }
        j = j + 1;
    }
    proof {
        assert forall|y: RoadID| gone@.contains(y) <==> tr.contains(y) by {
            if tr.contains(y) {
                let x = choose|x: int| #[trigger] trimmed_at(rs0, is0, lengths@, x, y);
                assert(x < is0.len());
            }
        }
    }
    // Take the roads out.
    let ghost mut done: Set<RoadID> = Set::empty();
    let mut t: usize = 0;
    proof {
        assert forall|y: RoadID| done.contains(y) <==> gone@.take(0).contains(y) by {}
        assert(roads_kept(rs0, done) == rs0) by {
            lemma_roads_kept_none(rs0);
        }
        assert forall|x: int| 0 <= x < is0.len() implies ids_kept(is0[x].roads@, done) == (#[trigger] is0[x]).roads@ by {
            lemma_ids_kept_none(is0[x].roads@);
        }
    }
    while t < gone.len()
        invariant
            streets.wf(),
            consistent(rs0, is0),
            roads_sorted(rs0),
            streets.config == old(streets).config,
            streets.road_counter() == old(streets).road_counter(),
            streets.intersection_counter() == old(streets).intersection_counter(),
            rs0 == old(streets).roads@,
            is0 == old(streets).intersections@,
            t <= gone@.len(),
            tr == trimmed_roads(rs0, is0, lengths@),
            lengths@.len() == rs0.len(),
            forall|a: int, b: int| 0 <= a < b < gone@.len() ==> gone@[a] != gone@[b],
            forall|y: RoadID| #[trigger] gone@.contains(y) <==> tr.contains(y),
            forall|y: RoadID| #[trigger] done.contains(y) <==> gone@.take(t as int).contains(y),
            streets.roads@ == roads_kept(rs0, done),
            consistent(streets.roads@, streets.intersections@),
            streets.intersections@.len() == is0.len(),
            forall|x: int|
                0 <= x < is0.len() ==> same_but_roads(#[trigger] streets.intersections@[x], is0[x])
                    && streets.intersections@[x].roads@ == ids_kept(is0[x].roads@, done),
        decreases gone@.len() - t,
    {
        let id = gone[t];
        let ghost pre = streets.roads@;
        proof {
            assert(gone@[t as int] == id);
            assert(gone@.contains(id));
            assert(tr.contains(id));
            let x = choose|x: int| #[trigger] trimmed_at(rs0, is0, lengths@, x, id);
            assert(is0[x].roads@[0] == id && is0[x].roads@.len() == 1);
            assert(is0[x].roads@.contains(id));
            assert(has_road(rs0, id));
            assert(!done.contains(id)) by {
                if gone@.take(t as int).contains(id) {
                    let w = choose|w: int| 0 <= w < t && gone@.take(t as int)[w] == id;
                    assert(gone@[w] == gone@[t as int]);
                }
            }
            lemma_roads_kept(rs0, done);
            assert(has_road(pre, id));
            let k = choose|k: int| road_at(pre, id, k);
            assert(rs0.contains(pre[k]));
            let p = choose|p: int| 0 <= p < rs0.len() && rs0[p] == pre[k];
            let a = choose|a: int| intersection_at(is0, rs0[p].src_i, a);
            let b = choose|b: int| intersection_at(is0, rs0[p].dst_i, b);
            assert(intersection_at(streets.intersections@, rs0[p].src_i, a));
            assert(intersection_at(streets.intersections@, rs0[p].dst_i, b));
        }
        let ghost pre_is = streets.intersections@;
        let removed = streets.remove_road(id);
        proof {
            let k = choose|k: int| road_at(pre, id, k) && removed == pre[k] && streets.roads@ == pre.remove(k);
            crate::laws::law_remove_road_keeps_consistency(pre, pre_is, streets.roads@, streets.intersections@, k);
            lemma_roads_kept_step(rs0, done, k, id);
            lemma_roads_kept(rs0, done);
            assert(rs0.contains(removed));
            let p = choose|p: int| 0 <= p < rs0.len() && rs0[p] == removed;
            assert forall|x: int| 0 <= x < is0.len() implies same_but_roads(#[trigger] streets.intersections@[x], is0[x])
                && streets.intersections@[x].roads@ == ids_kept(is0[x].roads@, done.insert(id)) by {
                let l = is0[x].roads@;
                assert(is0[x].roads@.contains(rs0[p].id) == (rs0[p].src_i == is0[x].id || rs0[p].dst_i == is0[x].id));
                if removed.src_i == is0[x].id || removed.dst_i == is0[x].id {
                    lemma_ids_kept_step(l, done, id);
                } else {
                    lemma_ids_kept_absent(l, done, id);
                }
            }
            let g1 = gone@.take(t + 1);
            let g0 = gone@.take(t as int);
            assert(g1 =~= g0.push(id));
            assert forall|y: RoadID| #[trigger] done.insert(id).contains(y) <==> g1.contains(y) by {
                if g1.contains(y) && y != id {
                    let w = choose|w: int| 0 <= w < g1.len() && g1[w] == y;
                    assert(g0[w] == y);
                }
                if g0.contains(y) {
                    let w = choose|w: int| 0 <= w < g0.len() && g0[w] == y;
                    assert(g1[w] == y);
                }
                if y == id {
                    assert(g1[t as int] == id);
                }
            }
            done = done.insert(id);
        }
        t = t + 1;
    }
    proof {
        assert(gone@.take(gone@.len() as int) =~= gone@);
        assert(done =~= tr);
    }
    // Drop the dead ends themselves.
    let ghost mid = streets.intersections@;
    let mut old_is: Vec<Intersection> = Vec::new();
    std::mem::swap(&mut old_is, &mut streets.intersections);
    let m = old_is.len();
    let mut new_is: Vec<Intersection> = Vec::new();
    let mut k: usize = 0;
    while k < m
        invariant
            m == is0.len(),
            tr == trimmed_roads(rs0, is0, lengths@),
            mid.len() == is0.len(),
            k <= m,
            old_is@ == mid.subrange(k as int, m as int),
            stub@.len() == is0.len(),
            forall|x: int| 0 <= x < is0.len() ==> #[trigger] stub@[x] == is_deadend_stub(rs0, lengths@, is0[x]),
            forall|x: int|
                0 <= x < is0.len() ==> same_but_roads(#[trigger] mid[x], is0[x]) && mid[x].roads@ == ids_kept(
                    is0[x].roads@,
                    tr,
                ),
            new_is@.len() == kept_intersections(rs0, is0, lengths@, k as int).len(),
            forall|u: int|
                0 <= u < new_is@.len() ==> #[trigger] new_is@[u] == mid[kept_intersections(rs0, is0, lengths@, k as int)[u]],
        decreases m - k,
    {
        let inter = old_is.remove(0);
        proof {
            assert(inter == mid[k as int]);
            assert(old_is@ =~= mid.subrange(k + 1, m as int));
        }
        let ghost before = new_is@;
        if !stub[k] {
            new_is.push(inter);
            proof {
                let k1 = kept_intersections(rs0, is0, lengths@, k + 1);
                assert(k1 == kept_intersections(rs0, is0, lengths@, k as int).push(k as int));
                assert forall|u: int| 0 <= u < new_is@.len() implies #[trigger] new_is@[u] == mid[k1[u]] by {
                    if u < before.len() {
                        assert(new_is@[u] == before[u]);
                    }
                }
            }
        }
        k = k + 1;
    }
    proof {
        let ki = kept_intersections(rs0, is0, lengths@, is0.len() as int);
        lemma_kept_increasing(rs0, is0, lengths@, is0.len() as int);
        let ns = new_is@;
        assert forall|a: int, b: int| 0 <= a < b < ns.len() implies (#[trigger] ns[a]).id.0 < (#[trigger] ns[b]).id.0 by {
            assert(ki[a] < ki[b]);
            assert(mid[ki[a]].id == is0[ki[a]].id);
            assert(mid[ki[b]].id == is0[ki[b]].id);
            assert(is0[ki[a]].id.0 < is0[ki[b]].id.0);
        }
        assert forall|u: int| 0 <= u < ns.len() implies (#[trigger] ns[u]).id.0 < streets.intersection_id_counter by {
            assert(mid[ki[u]].id == is0[ki[u]].id);
            assert(is0[ki[u]].id.0 < streets.intersection_id_counter);
        }
    }
    proof {
        let ki = kept_intersections(rs0, is0, lengths@, is0.len() as int);
        lemma_kept_members(rs0, is0, lengths@, is0.len() as int);
        assert forall|x: int| 0 <= x < mid.len() && mid[x].roads@.len() > 0 implies exists|u: int|
            0 <= u < ki.len() && ki[u] == x by {
            if is_deadend_stub(rs0, lengths@, is0[x]) {
                let y = is0[x].roads@[0];
                assert(trimmed_at(rs0, is0, lengths@, x, y));
                assert(tr.contains(y));
                assert(is0[x].roads@ =~= seq![y]);
                assert(seq![y].drop_last() =~= Seq::<RoadID>::empty());
                assert(seq![y].last() == y);
                assert(ids_kept(Seq::<RoadID>::empty(), tr) =~= Seq::<RoadID>::empty());
                assert(ids_kept(seq![y], tr) =~= Seq::<RoadID>::empty());
                assert(ids_kept(is0[x].roads@, tr) =~= Seq::<RoadID>::empty());
            }
        }
        lemma_drop_unlisted_keeps_consistency(streets.roads@, mid, new_is@, ki);
    }
    streets.intersections = new_is;
}

/// The indices `kept_intersections` picks are those of the intersections that are not trimmed
/// dead ends.
proof fn lemma_kept_members(rs: Seq<Road>, is: Seq<Intersection>, lengths: Seq<Distance>, n: int)
    requires
        0 <= n <= is.len(),
    ensures
        forall|x: int|
            0 <= x < n && !is_deadend_stub(rs, lengths, #[trigger] is[x]) ==> exists|u: int|
                0 <= u < kept_intersections(rs, is, lengths, n).len() && kept_intersections(rs, is, lengths, n)[u]
                    == x,
    decreases n,
{
    if n > 0 {
        lemma_kept_members(rs, is, lengths, n - 1);
        let p = kept_intersections(rs, is, lengths, n - 1);
        let q = kept_intersections(rs, is, lengths, n);
        assert forall|x: int| 0 <= x < n && !is_deadend_stub(rs, lengths, #[trigger] is[x]) implies exists|u: int|
            0 <= u < q.len() && q[u] == x by {
            if x < n - 1 {
                let u = choose|u: int| 0 <= u < p.len() && p[u] == x;
                if !is_deadend_stub(rs, lengths, is[n - 1]) {
                    assert(q[u] == p[u]);
                }
            } else {
                assert(q[p.len() as int] == n - 1);
            }
        }
    }
}

/// Dropping intersections that list no road keeps the network consistent.
proof fn lemma_drop_unlisted_keeps_consistency(
    rs: Seq<Road>,
    is: Seq<Intersection>,
    ns: Seq<Intersection>,
    kept: Seq<int>,
)
    requires
        consistent(rs, is),
        ns.len() == kept.len(),
        forall|u: int| 0 <= u < kept.len() ==> 0 <= #[trigger] kept[u] < is.len() && ns[u] == is[kept[u]],
        forall|x: int| 0 <= x < is.len() && is[x].roads@.len() > 0 ==> exists|u: int| 0 <= u < kept.len() && kept[u] == x,
    ensures
        consistent(rs, ns),
{
    assert forall|q: int| 0 <= q < rs.len() implies has_intersection(ns, (#[trigger] rs[q]).src_i)
        && has_intersection(ns, rs[q].dst_i) by {
        let a = choose|a: int| intersection_at(is, rs[q].src_i, a);
        let b = choose|b: int| intersection_at(is, rs[q].dst_i, b);
        assert(is[a].roads@.contains(rs[q].id) == (rs[q].src_i == is[a].id || rs[q].dst_i == is[a].id));
        assert(is[b].roads@.contains(rs[q].id) == (rs[q].src_i == is[b].id || rs[q].dst_i == is[b].id));
        let ua = choose|u: int| 0 <= u < kept.len() && kept[u] == a;
        let ub = choose|u: int| 0 <= u < kept.len() && kept[u] == b;
        assert(intersection_at(ns, rs[q].src_i, ua));
        assert(intersection_at(ns, rs[q].dst_i, ub));
    }
    assert forall|j: int, q: int| 0 <= j < ns.len() && 0 <= q < rs.len() implies (ns[j].roads@.contains(
        #[trigger] rs[q].id,
    ) <==> (rs[q].src_i == (#[trigger] ns[j]).id || rs[q].dst_i == ns[j].id)) by {
        assert(ns[j] == is[kept[j]]);
        assert(is[kept[j]].roads@.contains(rs[q].id) == (rs[q].src_i == is[kept[j]].id || rs[q].dst_i
            == is[kept[j]].id));
    }
    assert forall|j: int, x: RoadID| 0 <= j < ns.len() && #[trigger] ns[j].roads@.contains(x) implies has_road(rs, x) by {
        assert(ns[j] == is[kept[j]]);
        assert(is[kept[j]].roads@.contains(x));
    }
}

/// Keeping every road of the list keeps the list.
proof fn lemma_ids_kept_none(s: Seq<RoadID>)
    ensures
        ids_kept(s, Set::empty()) == s,
    decreases s.len(),
{
    if s.len() > 0 {
        lemma_ids_kept_none(s.drop_last());
        assert(s.drop_last().push(s.last()) =~= s);
    }
}

/// Keeping every road keeps the roads.
proof fn lemma_roads_kept_none(rs: Seq<Road>)
    ensures
        roads_kept(rs, Set::empty()) == rs,
    decreases rs.len(),
{
    if rs.len() > 0 {
        lemma_roads_kept_none(rs.drop_last());
        assert(rs.drop_last().push(rs.last()) =~= rs);
    }
}

} // verus!

//! Marking short roads for merging into their intersections.
use vstd::prelude::*;

use crate::block::intersection_with_id;
use crate::collapse::{lists_its_roads, short_road_collapsed, CollapseError};
use crate::disconnected::ends_present;
use crate::ids::{IntersectionID, RoadID};
use crate::laws::{all_list_their_roads, law_collapse_short_road_keeps_lists};
use crate::lanes::Distance;
use crate::network::{
    has_intersection, has_road, intersection_at, road_at, roads_sorted, Intersection, StreetNetwork,
};
use crate::road::Road;
use crate::road_functions::{ControlType, IntersectionType};

verus! {

/// Roads no longer than this that meet traffic signals are merged into them: 20 m.
pub const SIGNAL_CLUSTER_THRESHOLD: Distance = 20_000_000;

/// `n` is road `o` marked, or not, as part of a junction.
pub open spec fn marked_as(n: Road, o: Road, mark: bool) -> bool {
    &&& n.id == o.id
    &&& n.osm_ids == o.osm_ids
    &&& n.src_i == o.src_i
    &&& n.dst_i == o.dst_i
    &&& n.highway_type == o.highway_type
    &&& n.name == o.name
    &&& n.internal_junction_road == (o.internal_junction_road || mark)
    &&& n.layer == o.layer
    &&& n.reference_line_placement == o.reference_line_placement
    &&& n.lane_specs_ltr == o.lane_specs_ltr
    &&& n.turn_restrictions == o.turn_restrictions
    &&& n.complicated_turn_restrictions == o.complicated_turn_restrictions
}

/// Road `k` is short and meets traffic signals: it is not yet part of a junction, neither end
/// is at the edge of the map, one end has traffic lights, and it is no longer than the
/// threshold.
pub open spec fn in_signal_cluster(
    rs: Seq<Road>,
    is: Seq<crate::network::Intersection>,
    lengths: Seq<Distance>,
    k: int,
) -> bool {
    let a = intersection_with_id(is, rs[k].src_i);
    let b = intersection_with_id(is, rs[k].dst_i);
    &&& !rs[k].internal_junction_road
    &&& a.kind != IntersectionType::MapEdge
    &&& b.kind != IntersectionType::MapEdge
    &&& (a.control == ControlType::Lights || b.control == ControlType::Lights)
    &&& lengths[k] <= SIGNAL_CLUSTER_THRESHOLD
}

/// The IDs of the roads before `n` in a signal cluster, in order.
pub open spec fn signal_cluster_ids(
    rs: Seq<Road>,
    is: Seq<crate::network::Intersection>,
    lengths: Seq<Distance>,
    n: int,
) -> Seq<RoadID>
    decreases n,
{
    if n <= 0 {
        Seq::empty()
    } else if in_signal_cluster(rs, is, lengths, n - 1) {
        signal_cluster_ids(rs, is, lengths, n - 1).push(rs[n - 1].id)
    } else {
        signal_cluster_ids(rs, is, lengths, n - 1)
    }
}

impl StreetNetwork {
    /// Marks road `k` as part of a junction when `mark` holds.
    fn mark_at(&mut self, k: usize, mark: bool)
        requires
            old(self).wf(),
            k < old(self).roads@.len(),
        ensures
            final(self).wf(),
            final(self).roads@.len() == old(self).roads@.len(),
            marked_as(final(self).roads@[k as int], old(self).roads@[k as int], mark),
            forall|j: int| 0 <= j < final(self).roads@.len() && j != k ==> #[trigger] final(self).roads@[j] == old(self).roads@[j],
            final(self).intersections == old(self).intersections,
            final(self).config == old(self).config,
            final(self).road_id_counter == old(self).road_id_counter,
            final(self).intersection_id_counter == old(self).intersection_id_counter,
    {
        let ghost o = self.roads@;
        let mut r = self.roads.remove(k);
        if mark {
            r.internal_junction_road = true;
        }
        self.roads.insert(k, r);
        proof {
            let rs = self.roads@;
            assert forall|a: int, b: int| 0 <= a < b < rs.len() implies (#[trigger] rs[a]).id.0
                < (#[trigger] rs[b]).id.0 by {
                assert(o[a].id.0 < o[b].id.0);
            }
        }
    }

    /// Marks the listed roads as part of a junction, to be merged. Returns the list.
    pub fn mark_short_roads(&mut self, list: Vec<RoadID>) -> (r: Vec<RoadID>)
        requires
            old(self).wf(),
            forall|t: int| 0 <= t < list@.len() ==> has_road(old(self).roads@, #[trigger] list@[t]),
        ensures
            r@ == list@,
            final(self).wf(),
            final(self).roads@.len() == old(self).roads@.len(),
            forall|j: int|
                0 <= j < final(self).roads@.len() ==> marked_as(
                    #[trigger] final(self).roads@[j],
                    old(self).roads@[j],
                    list@.contains(old(self).roads@[j].id),
                ),
            final(self).intersections == old(self).intersections,
            final(self).config == old(self).config,
            final(self).road_id_counter == old(self).road_id_counter,
            final(self).intersection_id_counter == old(self).intersection_id_counter,
    {
        let ghost o = self.roads@;
        let mut t: usize = 0;
        while t < list.len()
            invariant
                self.wf(),
                t <= list@.len(),
                self.roads@.len() == o.len(),
                forall|q: int| 0 <= q < list@.len() ==> has_road(o, #[trigger] list@[q]),
                forall|j: int|
                    0 <= j < o.len() ==> marked_as(
                        #[trigger] self.roads@[j],
                        o[j],
                        list@.subrange(0, t as int).contains(o[j].id),
                    ),
                self.intersections == old(self).intersections,
                self.config == old(self).config,
                self.road_id_counter == old(self).road_id_counter,
                self.intersection_id_counter == old(self).intersection_id_counter,
            decreases list@.len() - t,
        {
            let id = list[t];
            proof {
                let y = choose|y: int| road_at(o, id, y);
                assert(self.roads@[y].id == id);
                assert(road_at(self.roads@, id, y));
            }
            let k = self.road_index(id).unwrap();
            let ghost before = self.roads@;
            self.mark_at(k, true);
            proof {
                assert forall|j: int| 0 <= j < o.len() implies marked_as(
                    #[trigger] self.roads@[j],
                    o[j],
                    list@.subrange(0, t + 1).contains(o[j].id),
                ) by {
                    assert(list@.subrange(0, t + 1) =~= list@.subrange(0, t as int).push(id));
                    if j == k {
                        assert(o[j].id == id);
                        assert(list@.subrange(0, t + 1)[t as int] == id);
                    } else {
                        assert(self.roads@[j] == before[j]);
                        assert(before[j].id == o[j].id);
                        assert(before[k as int].id == id);
                        if o[j].id == id {
                            assert(before[j].id.0 < before[k as int].id.0 || before[k as int].id.0 < before[j].id.0);
                        }
                        if list@.subrange(0, t as int).contains(o[j].id) {
                            let w = choose|w: int| 0 <= w < t && #[trigger] list@.subrange(0, t as int)[w] == o[j].id;
                            assert(list@.subrange(0, t + 1)[w] == o[j].id);
                        }
                        if list@.subrange(0, t + 1).contains(o[j].id) {
                            let w = choose|w: int| 0 <= w < t + 1 && #[trigger] list@.subrange(0, t + 1)[w] == o[j].id;
                            if w < t {
                                assert(list@.subrange(0, t as int)[w] == o[j].id);
                            }
                        }
                    }
                }
            }
            t = t + 1;
        }
        proof {
            assert(list@.subrange(0, list@.len() as int) =~= list@);
        }
        list
    }

    /// Finds the short roads that meet traffic signals, marks them as part of a junction, and
    /// returns them in order of ID. `lengths` are the roads' lengths in micrometres, in the
    /// order of `self.roads`, as the caller measured them.
    pub fn find_traffic_signal_clusters(&mut self, lengths: &Vec<Distance>) -> (r: Vec<RoadID>)
        requires
            old(self).wf(),
            lengths@.len() == old(self).roads@.len(),
            forall|k: int|
                0 <= k < old(self).roads@.len() ==> has_intersection(
                    old(self).intersections@,
                    (#[trigger] old(self).roads@[k]).src_i,
                ) && has_intersection(old(self).intersections@, old(self).roads@[k].dst_i),
        ensures
            final(self).wf(),
            r@ == signal_cluster_ids(old(self).roads@, old(self).intersections@, lengths@, old(self).roads@.len() as int),
            final(self).roads@.len() == old(self).roads@.len(),
            forall|j: int|
                0 <= j < final(self).roads@.len() ==> marked_as(
                    #[trigger] final(self).roads@[j],
                    old(self).roads@[j],
                    in_signal_cluster(old(self).roads@, old(self).intersections@, lengths@, j),
                ),
            final(self).intersections == old(self).intersections,
            final(self).config == old(self).config,
            final(self).road_id_counter == old(self).road_id_counter,
            final(self).intersection_id_counter == old(self).intersection_id_counter,
    {
        let ghost o = self.roads@;
        let ghost is = self.intersections@;
        let n = self.roads.len();
        let mut results: Vec<RoadID> = Vec::new();
        let mut k: usize = 0;
        while k < n
            invariant
                self.wf(),
                n == o.len(),
                k <= n,
                lengths@.len() == n,
                is == self.intersections@,
                self.intersections == old(self).intersections,
                self.roads@.len() == n,
                forall|x: int|
                    0 <= x < n ==> has_intersection(is, (#[trigger] o[x]).src_i) && has_intersection(
                        is,
                        o[x].dst_i,
                    ),
                forall|j: int| 0 <= j < k ==> marked_as(#[trigger] self.roads@[j], o[j], in_signal_cluster(o, is, lengths@, j)),
                forall|j: int| k <= j < n ==> #[trigger] self.roads@[j] == o[j],
                results@ == signal_cluster_ids(o, is, lengths@, k as int),
                self.config == old(self).config,
                self.road_id_counter == old(self).road_id_counter,
                self.intersection_id_counter == old(self).intersection_id_counter,
            decreases n - k,
        {
            let ghost before = self.roads@;
            assert(self.roads@[k as int] == o[k as int]);
            let a = self.intersection_index(self.roads[k].src_i).unwrap();
            let b = self.intersection_index(self.roads[k].dst_i).unwrap();
            proof {
                crate::block::lemma_intersection_with_id_pub(is, o[k as int].src_i, a as int);
                crate::block::lemma_intersection_with_id_pub(is, o[k as int].dst_i, b as int);
            }
            let mark = !self.roads[k].internal_junction_road
                && self.intersections[a].kind != IntersectionType::MapEdge
                && self.intersections[b].kind != IntersectionType::MapEdge
                && (self.intersections[a].control == ControlType::Lights
                    || self.intersections[b].control == ControlType::Lights)
                && lengths[k] <= SIGNAL_CLUSTER_THRESHOLD;
            proof {
                assert(mark == in_signal_cluster(o, is, lengths@, k as int));
            }
            if mark {
                results.push(self.roads[k].id);
            }
            self.mark_at(k, mark);
            proof {
                assert forall|j: int| 0 <= j < k + 1 implies marked_as(#[trigger] self.roads@[j], o[j], in_signal_cluster(o, is, lengths@, j)) by {
                    if j < k {
                        assert(self.roads@[j] == before[j]);
                    }
                }
                assert forall|j: int| k + 1 <= j < n implies #[trigger] self.roads@[j] == o[j] by {
                    assert(self.roads@[j] == before[j]);
                }
            }
            k = k + 1;
        }
        results
    }
}

/// The IDs of the roads before index `n` marked as part of a junction, in order.
pub open spec fn junction_road_ids(rs: Seq<Road>, n: int) -> Seq<RoadID>
    decreases n,
{
    if n <= 0 {
        Seq::empty()
    } else if rs[n - 1].internal_junction_road {
        junction_road_ids(rs, n - 1).push(rs[n - 1].id)
    } else {
        junction_road_ids(rs, n - 1)
    }
}

/// `(rss[t], iss[t])` are the networks met while collapsing the roads `ids` one after the
/// other, as `collapse_short_road` does, with the results `results`.
pub open spec fn short_road_steps(
    rss: Seq<Seq<Road>>,
    iss: Seq<Seq<Intersection>>,
    ids: Seq<RoadID>,
    results: Seq<Result<(IntersectionID, IntersectionID), CollapseError>>,
) -> bool {
    &&& rss.len() == ids.len() + 1
    &&& iss.len() == ids.len() + 1
    &&& results.len() == ids.len()
    &&& forall|t: int|
        0 <= t < ids.len() ==> short_road_collapsed(
            rss[t],
            iss[t],
            rss[t + 1],
            iss[t + 1],
            #[trigger] ids[t],
            results[t],
        )
}

/// The marked roads are roads of the network, in increasing order of ID.
proof fn lemma_junction_road_ids(rs: Seq<Road>, n: int)
    requires
        roads_sorted(rs),
        0 <= n <= rs.len(),
    ensures
        forall|t: int| 0 <= t < junction_road_ids(rs, n).len() ==> has_road(rs, #[trigger] junction_road_ids(rs, n)[t]),
        forall|t: int|
            0 <= t < junction_road_ids(rs, n).len() ==> n > 0 && (#[trigger] junction_road_ids(rs, n)[t]).0
                <= rs[n - 1].id.0,
        forall|a: int, b: int|
            0 <= a < b < junction_road_ids(rs, n).len() ==> (#[trigger] junction_road_ids(rs, n)[a]).0
                < (#[trigger] junction_road_ids(rs, n)[b]).0,
    decreases n,
{
    if n > 0 {
        lemma_junction_road_ids(rs, n - 1);
        let w = junction_road_ids(rs, n - 1);
        let wn = junction_road_ids(rs, n);
        assert(road_at(rs, rs[n - 1].id, n - 1));
        assert forall|t: int| 0 <= t < wn.len() implies has_road(rs, #[trigger] wn[t]) && wn[t].0 <= rs[n - 1].id.0 by {
            if t < w.len() {
                assert(wn[t] == w[t]);
                assert(rs[n - 2].id.0 < rs[n - 1].id.0);
            }
        }
        assert forall|a: int, b: int| 0 <= a < b < wn.len() implies (#[trigger] wn[a]).0 < (#[trigger] wn[b]).0 by {
            assert(wn[a] == w[a]);
            if b < w.len() {
                assert(wn[b] == w[b]);
            } else {
                assert(rs[n - 2].id.0 < rs[n - 1].id.0);
            }
        }
    }
}

/// Collapses every road marked as part of a junction, one after the other in order of ID, as
/// `collapse_short_road` does; a road that cannot be collapsed stays. Every road's ends stay
/// intersections of the network, and every intersection keeps listing each road once for each
/// end it has there.
pub fn collapse_all_junction_roads(streets: &mut StreetNetwork)
    requires
        old(streets).wf(),
        ends_present(old(streets).roads@, old(streets).intersections@),
        all_list_their_roads(old(streets).roads@, old(streets).intersections@),
    ensures
        final(streets).wf(),
        ends_present(final(streets).roads@, final(streets).intersections@),
        all_list_their_roads(final(streets).roads@, final(streets).intersections@),
        final(streets).config == old(streets).config,
        final(streets).road_counter() == old(streets).road_counter(),
        final(streets).intersection_counter() == old(streets).intersection_counter(),
        exists|
            rss: Seq<Seq<Road>>,
            iss: Seq<Seq<Intersection>>,
            results: Seq<Result<(IntersectionID, IntersectionID), CollapseError>>,
        |
            {
                &&& short_road_steps(
                    rss,
                    iss,
                    junction_road_ids(old(streets).roads@, old(streets).roads@.len() as int),
                    results,
                )
                &&& rss[0] == old(streets).roads@
                &&& iss[0] == old(streets).intersections@
                &&& rss.last() == final(streets).roads@
                &&& iss.last() == final(streets).intersections@
            },
{
    let ghost rs0 = streets.roads@;
    let ghost is0 = streets.intersections@;
    let mut queue: Vec<RoadID> = Vec::new();
    let mut k: usize = 0;
    while k < streets.roads.len()
        invariant
            streets.roads@ == rs0,
            k <= rs0.len(),
            queue@ == junction_road_ids(rs0, k as int),
        decreases rs0.len() - k,
    {
        if streets.roads[k].internal_junction_road {
            queue.push(streets.roads[k].id);
        }
        k = k + 1;
    }
    let ghost ids = queue@;
    proof {
        lemma_junction_road_ids(rs0, rs0.len() as int);
    }
    let ghost mut rss: Seq<Seq<Road>> = seq![rs0];
    let ghost mut iss: Seq<Seq<Intersection>> = seq![is0];
    let ghost mut results: Seq<Result<(IntersectionID, IntersectionID), CollapseError>> = Seq::empty();
    let mut t: usize = 0;
    while t < queue.len()
        invariant
            ids == queue@,
            streets.wf(),
            ends_present(streets.roads@, streets.intersections@),
            all_list_their_roads(streets.roads@, streets.intersections@),
            streets.config == old(streets).config,
            streets.road_counter() == old(streets).road_counter(),
            streets.intersection_counter() == old(streets).intersection_counter(),
            rs0 == old(streets).roads@,
            is0 == old(streets).intersections@,
            t <= ids.len(),
            rss.len() == t + 1,
            iss.len() == t + 1,
            results.len() == t,
            rss[0] == rs0,
            iss[0] == is0,
            rss[t as int] == streets.roads@,
            iss[t as int] == streets.intersections@,
            forall|u: int|
                0 <= u < t ==> short_road_collapsed(
                    rss[u],
                    iss[u],
                    rss[u + 1],
                    iss[u + 1],
                    #[trigger] ids[u],
                    results[u],
                ),
            forall|u: int| t <= u < ids.len() ==> has_road(streets.roads@, #[trigger] ids[u]),
            forall|a: int, b: int| 0 <= a < b < ids.len() ==> (#[trigger] ids[a]).0 < (#[trigger] ids[b]).0,
        decreases ids.len() - t,
    {
        let id = queue[t];
        let ghost pre_rs = streets.roads@;
        let ghost pre_is = streets.intersections@;
        proof {
            assert(has_road(pre_rs, ids[t as int]));
            let kr = choose|kr: int| road_at(pre_rs, id, kr);
            assert(has_intersection(pre_is, pre_rs[kr].src_i));
            let kd = choose|kd: int| intersection_at(pre_is, pre_rs[kr].dst_i, kd);
            assert(lists_its_roads(pre_rs, pre_is, kd));
        }
        let res = streets.collapse_short_road(id);
        proof {
            law_collapse_short_road_keeps_lists(
                pre_rs,
                pre_is,
                streets.roads@,
                streets.intersections@,
                id,
                res,
            );
            rss = rss.push(streets.roads@);
            iss = iss.push(streets.intersections@);
            results = results.push(res);
            assert forall|u: int| 0 <= u < t + 1 implies short_road_collapsed(
                rss[u],
                iss[u],
                rss[u + 1],
                iss[u + 1],
                #[trigger] ids[u],
                results[u],
            ) by {
                if u < t {
                    assert(rss[u] == rss.drop_last()[u]);
                    assert(results[u] == results.drop_last()[u]);
                }
            }
            assert forall|u: int| t + 1 <= u < ids.len() implies has_road(streets.roads@, #[trigger] ids[u]) by {
                assert(ids[t as int].0 < ids[u].0);
                assert(has_road(pre_rs, ids[u]));
            }
        }
        t = t + 1;
    }
    proof {
        assert(short_road_steps(rss, iss, ids, results));
    }
}

} // verus!

//! The street network: roads and intersections kept in order of their IDs, as a map from ID to
//! value, and the edits that keep the two sides connected.
use vstd::prelude::*;

use crate::ids::{IntersectionID, NodeID, RoadID};
use crate::road::Road;
use crate::road_functions::{ControlType, IntersectionType};
use crate::types::{default_config, MapConfig};

verus! {

/// An intersection of the street network, with the roads that meet there.
pub struct Intersection {
    pub id: IntersectionID,
    /// The OSM nodes making up this intersection.
    pub osm_ids: Vec<NodeID>,
    pub kind: IntersectionType,
    pub control: ControlType,
    /// All roads connected to this intersection, incoming or outgoing. A road that starts and
    /// ends here is listed once for each end.
    pub roads: Vec<RoadID>,
}

/// Roads and intersections, each kept in increasing order of ID so that the vectors behave as
/// maps from ID to value, walked in ID order.
pub struct StreetNetwork {
    pub roads: Vec<Road>,
    pub intersections: Vec<Intersection>,
    pub config: MapConfig,
    /// The next intersection ID to hand out.
    pub intersection_id_counter: usize,
    /// The next road ID to hand out.
    pub road_id_counter: usize,
}

/// The roads are in strictly increasing order of ID.
pub open spec fn roads_sorted(rs: Seq<Road>) -> bool {
    forall|a: int, b: int| 0 <= a < b < rs.len() ==> (#[trigger] rs[a]).id.0 < (#[trigger] rs[b]).id.0
}

/// The intersections are in strictly increasing order of ID.
pub open spec fn intersections_sorted(is: Seq<Intersection>) -> bool {
    forall|a: int, b: int|
        0 <= a < b < is.len() ==> (#[trigger] is[a]).id.0 < (#[trigger] is[b]).id.0
}

/// The road with ID `id` stands at index `k`.
pub open spec fn road_at(rs: Seq<Road>, id: RoadID, k: int) -> bool {
    0 <= k < rs.len() && rs[k].id == id
}

pub open spec fn has_road(rs: Seq<Road>, id: RoadID) -> bool {
    exists|k: int| road_at(rs, id, k)
}

/// The intersection with ID `id` stands at index `k`.
pub open spec fn intersection_at(is: Seq<Intersection>, id: IntersectionID, k: int) -> bool {
    0 <= k < is.len() && is[k].id == id
}

pub open spec fn has_intersection(is: Seq<Intersection>, id: IntersectionID) -> bool {
    exists|k: int| intersection_at(is, id, k)
}

/// The intersections keep their IDs, index by index.
pub open spec fn same_ids(a: Seq<Intersection>, b: Seq<Intersection>) -> bool {
    a.len() == b.len() && forall|j: int| 0 <= j < a.len() ==> (#[trigger] a[j]).id == b[j].id
}

/// Two intersections agree on everything but the roads that meet there.
pub open spec fn same_but_roads(a: Intersection, b: Intersection) -> bool {
    a.id == b.id && a.osm_ids@ == b.osm_ids@ && a.kind == b.kind && a.control == b.control
}

/// `s` with every occurrence of `id` taken out, the rest in order.
pub open spec fn without_road(s: Seq<RoadID>, id: RoadID) -> Seq<RoadID>
    decreases s.len(),
{
    if s.len() == 0 {
        s
    } else if s.last() == id {
        without_road(s.drop_last(), id)
    } else {
        without_road(s.drop_last(), id).push(s.last())
    }
}

/// The roads listed at intersection `i` once `r` is connected: its ID is added for each of its
/// ends at `i`, the start first.
pub open spec fn with_road_added(s: Seq<RoadID>, i: IntersectionID, r: Road) -> Seq<RoadID> {
    let s1 = if r.src_i == i {
        s.push(r.id)
    } else {
        s
    };
    if r.dst_i == i {
        s1.push(r.id)
    } else {
        s1
    }
}

/// The roads listed at intersection `i` once `r` is disconnected.
pub open spec fn with_road_removed(s: Seq<RoadID>, i: IntersectionID, r: Road) -> Seq<RoadID> {
    if r.src_i == i || r.dst_i == i {
        without_road(s, r.id)
    } else {
        s
    }
}

/// A vector with the same IDs at the same indices is as well ordered as the first.
pub(crate) proof fn lemma_same_ids_wf(a: Seq<Intersection>, b: Seq<Intersection>, counter: usize)
    requires
        same_ids(a, b),
        intersections_sorted(a),
        forall|k: int| 0 <= k < a.len() ==> (#[trigger] a[k]).id.0 < counter,
    ensures
        intersections_sorted(b),
        forall|k: int| 0 <= k < b.len() ==> (#[trigger] b[k]).id.0 < counter,
{
    assert forall|x: int, y: int| 0 <= x < y < b.len() implies (#[trigger] b[x]).id.0
        < (#[trigger] b[y]).id.0 by {
        assert(a[x].id == b[x].id);
        assert(a[y].id == b[y].id);
    }
    assert forall|k: int| 0 <= k < b.len() implies (#[trigger] b[k]).id.0 < counter by {
        assert(a[k].id == b[k].id);
    }
}

/// The roads of `v` but `id`, in order.
pub fn roads_without(v: &Vec<RoadID>, id: RoadID) -> (r: Vec<RoadID>)
    ensures
        r@ == without_road(v@, id),
{
    let mut r: Vec<RoadID> = Vec::new();
    let mut k: usize = 0;
    while k < v.len()
        invariant
            k <= v@.len(),
            r@ == without_road(v@.subrange(0, k as int), id),
        decreases v@.len() - k,
    {
        proof {
            assert(v@.subrange(0, k + 1).drop_last() =~= v@.subrange(0, k as int));
        }
        if v[k] != id {
            r.push(v[k]);
        }
        k = k + 1;
    }
    proof {
        assert(v@.subrange(0, v@.len() as int) =~= v@);
    }
    r
}

impl StreetNetwork {
    /// The next road ID that `next_road_id` hands out.
    pub open spec fn road_counter(&self) -> usize {
        self.road_id_counter
    }

    /// The next intersection ID that `next_intersection_id` hands out.
    pub open spec fn intersection_counter(&self) -> usize {
        self.intersection_id_counter
    }

    /// Both vectors are ordered by ID, and every intersection's ID was handed out before.
    pub open spec fn wf(&self) -> bool {
        &&& roads_sorted(self.roads@)
        &&& intersections_sorted(self.intersections@)
        &&& forall|k: int|
            0 <= k < self.intersections@.len() ==> (#[trigger] self.intersections@[k]).id.0
                < self.intersection_counter()
    }

    /// A network with no roads and no intersections.
    pub fn blank() -> (r: StreetNetwork)
        ensures
            r.wf(),
            r.roads@.len() == 0,
            r.intersections@.len() == 0,
            r.road_counter() == 0,
            r.intersection_counter() == 0,
            r.config == default_config(),
    {
        StreetNetwork {
            roads: Vec::new(),
            intersections: Vec::new(),
            config: MapConfig::default(),
            intersection_id_counter: 0,
            road_id_counter: 0,
        }
    }

    /// Hands out a road ID that was not handed out before.
    pub fn next_road_id(&mut self) -> (id: RoadID)
        requires
            old(self).road_counter() < usize::MAX,
        ensures
            id == RoadID(old(self).road_counter()),
            final(self).road_counter() == old(self).road_counter() + 1,
            final(self).intersection_counter() == old(self).intersection_counter(),
            final(self).roads == old(self).roads,
            final(self).intersections == old(self).intersections,
            final(self).config == old(self).config,
    {
        let id = RoadID(self.road_id_counter);
        self.road_id_counter = self.road_id_counter + 1;
        id
    }

    /// Hands out an intersection ID that was not handed out before.
    pub fn next_intersection_id(&mut self) -> (id: IntersectionID)
        requires
            old(self).intersection_counter() < usize::MAX,
        ensures
            id == IntersectionID(old(self).intersection_counter()),
            final(self).intersection_counter() == old(self).intersection_counter() + 1,
            final(self).road_counter() == old(self).road_counter(),
            final(self).roads == old(self).roads,
            final(self).intersections == old(self).intersections,
            final(self).config == old(self).config,
    {
        let id = IntersectionID(self.intersection_id_counter);
        self.intersection_id_counter = self.intersection_id_counter + 1;
        id
    }

    /// The index of the road with ID `id`, if there is one.
    pub fn road_index(&self, id: RoadID) -> (r: Option<usize>)
        requires
            self.wf(),
        ensures
            match r {
                Some(k) => road_at(self.roads@, id, k as int),
                None => !has_road(self.roads@, id),
            },
    {
        let mut k: usize = 0;
        while k < self.roads.len()
            invariant
                k <= self.roads@.len(),
                forall|j: int| 0 <= j < k ==> (#[trigger] self.roads@[j]).id != id,
            decreases self.roads@.len() - k,
        {
            if self.roads[k].id == id {
                return Some(k);
            }
            k = k + 1;
        }
        None
    }

    /// The index of the intersection with ID `id`, if there is one.
    pub fn intersection_index(&self, id: IntersectionID) -> (r: Option<usize>)
        requires
            self.wf(),
        ensures
            match r {
                Some(k) => intersection_at(self.intersections@, id, k as int),
                None => !has_intersection(self.intersections@, id),
            },
    {
        let mut k: usize = 0;
        while k < self.intersections.len()
            invariant
                k <= self.intersections@.len(),
                forall|j: int| 0 <= j < k ==> (#[trigger] self.intersections@[j]).id != id,
            decreases self.intersections@.len() - k,
        {
            if self.intersections[k].id == id {
                return Some(k);
            }
            k = k + 1;
        }
        None
    }

    /// Creates an intersection for one or more OSM nodes, with no roads yet, under a fresh ID.
    pub fn insert_intersection(
        &mut self,
        osm_ids: Vec<NodeID>,
        kind: IntersectionType,
        control: ControlType,
    ) -> (id: IntersectionID)
        requires
            old(self).wf(),
            old(self).intersection_counter() < usize::MAX,
        ensures
            final(self).wf(),
            id == IntersectionID(old(self).intersection_counter()),
            !has_intersection(old(self).intersections@, id),
            final(self).intersections@.len() == old(self).intersections@.len() + 1,
            final(self).intersections@.drop_last() == old(self).intersections@,
            final(self).intersections@.last().id == id,
            final(self).intersections@.last().osm_ids@ == osm_ids@,
            final(self).intersections@.last().kind == kind,
            final(self).intersections@.last().control == control,
            final(self).intersections@.last().roads@.len() == 0,
            final(self).roads == old(self).roads,
            final(self).config == old(self).config,
            final(self).road_counter() == old(self).road_counter(),
            final(self).intersection_counter() == old(self).intersection_counter() + 1,
    {
        let id = self.next_intersection_id();
        self.intersections.push(Intersection { id, osm_ids, kind, control, roads: Vec::new() });
        proof {
            let is = self.intersections@;
            assert forall|a: int, b: int| 0 <= a < b < is.len() implies (#[trigger] is[a]).id.0
                < (#[trigger] is[b]).id.0 by {
                if b == is.len() - 1 {
                    assert(old(self).intersections@[a] == is[a]);
                } else {
                    assert(old(self).intersections@[a] == is[a]);
                    assert(old(self).intersections@[b] == is[b]);
                }
            }
            assert forall|k: int| 0 <= k < old(self).intersections@.len() implies !(#[trigger] old(self).intersections@[k].id == id) by {}
            assert(self.intersections@.drop_last() =~= old(self).intersections@);
        }
        id
    }

    /// Removes an intersection that no road meets any more.
    pub fn remove_intersection(&mut self, id: IntersectionID)
        requires
            old(self).wf(),
            exists|k: int|
                intersection_at(old(self).intersections@, id, k) && (#[trigger] old(self).intersections@[k]).roads@.len() == 0,
        ensures
            final(self).wf(),
            exists|k: int|
                intersection_at(old(self).intersections@, id, k) && final(self).intersections@
                    == old(self).intersections@.remove(k),
            final(self).roads == old(self).roads,
            final(self).config == old(self).config,
            final(self).road_counter() == old(self).road_counter(),
            final(self).intersection_counter() == old(self).intersection_counter(),
    {
        let k = self.intersection_index(id);
        let k = k.unwrap();
        let _removed = self.intersections.remove(k);
        proof {
            let is = self.intersections@;
            let o = old(self).intersections@;
            assert forall|a: int, b: int| 0 <= a < b < is.len() implies (#[trigger] is[a]).id.0
                < (#[trigger] is[b]).id.0 by {
                if a < k {
                    assert(is[a] == o[a]);
                } else {
                    assert(is[a] == o[a + 1]);
                }
                if b < k {
                    assert(is[b] == o[b]);
                } else {
                    assert(is[b] == o[b + 1]);
                }
            }
            assert forall|j: int| 0 <= j < is.len() implies (#[trigger] is[j]).id.0
                < self.intersection_counter() by {
                if j < k {
                    assert(is[j] == o[j]);
                } else {
                    assert(is[j] == o[j + 1]);
                }
            }
        }
    }
    /// Adds `r` to the roads that meet at the intersection at index `k`.
    pub(crate) fn push_road_to(&mut self, k: usize, r: RoadID)
        requires
            k < old(self).intersections@.len(),
        ensures
            final(self).intersections@.len() == old(self).intersections@.len(),
            forall|j: int|
                0 <= j < final(self).intersections@.len() && j != k ==> #[trigger] final(self).intersections@[j] == old(self).intersections@[j],
            same_but_roads(final(self).intersections@[k as int], old(self).intersections@[k as int]),
            final(self).intersections@[k as int].roads@ == old(self).intersections@[k as int].roads@.push(r),
            final(self).roads == old(self).roads,
            final(self).config == old(self).config,
            final(self).road_counter() == old(self).road_counter(),
            final(self).intersection_counter() == old(self).intersection_counter(),
    {
        let mut inter = self.intersections.remove(k);
        inter.roads.push(r);
        self.intersections.insert(k, inter);
    }

    /// Takes `r` out of the roads that meet at the intersection at index `k`.
    pub(crate) fn drop_road_from(&mut self, k: usize, r: RoadID)
        requires
            k < old(self).intersections@.len(),
        ensures
            final(self).intersections@.len() == old(self).intersections@.len(),
            forall|j: int|
                0 <= j < final(self).intersections@.len() && j != k ==> #[trigger] final(self).intersections@[j] == old(self).intersections@[j],
            same_but_roads(final(self).intersections@[k as int], old(self).intersections@[k as int]),
            final(self).intersections@[k as int].roads@ == without_road(
                old(self).intersections@[k as int].roads@,
                r,
            ),
            final(self).roads == old(self).roads,
            final(self).config == old(self).config,
            final(self).road_counter() == old(self).road_counter(),
            final(self).intersection_counter() == old(self).intersection_counter(),
    {
        let mut inter = self.intersections.remove(k);
        inter.roads = roads_without(&inter.roads, r);
        self.intersections.insert(k, inter);
    }

    /// Adds a road, keeping the roads in order of ID, and connects it to the intersections at
    /// its ends: its ID goes at the end of their lists of roads, once for each end there.
    /// Sorting those lists clockwise needs the roads' geometry and is left to the caller.
    pub fn insert_road(&mut self, road: Road)
        requires
            old(self).wf(),
            !has_road(old(self).roads@, road.id),
            has_intersection(old(self).intersections@, road.src_i),
            has_intersection(old(self).intersections@, road.dst_i),
        ensures
            final(self).wf(),
            exists|k: int|
                0 <= k <= old(self).roads@.len() && final(self).roads@ == old(self).roads@.insert(
                    k,
                    road,
                ),
            final(self).intersections@.len() == old(self).intersections@.len(),
            forall|j: int|
                0 <= j < final(self).intersections@.len() ==> same_but_roads(
                    #[trigger] final(self).intersections@[j],
                    old(self).intersections@[j],
                ) && final(self).intersections@[j].roads@ == with_road_added(
                    old(self).intersections@[j].roads@,
                    old(self).intersections@[j].id,
                    road,
                ),
            final(self).config == old(self).config,
            final(self).road_counter() == old(self).road_counter(),
            final(self).intersection_counter() == old(self).intersection_counter(),
    {
        let ghost old_is = self.intersections@;
        let id = road.id;
        let src = road.src_i;
        let dst = road.dst_i;
        let ghost rd = road;
        // The first road with a larger ID, or the end.
        let mut k: usize = 0;
        while k < self.roads.len() && self.roads[k].id.0 < id.0
            invariant
                k <= self.roads@.len(),
                forall|j: int| 0 <= j < k ==> (#[trigger] self.roads@[j]).id.0 < id.0,
            decreases self.roads@.len() - k,
        {
            k = k + 1;
        }
        let ghost old_roads = self.roads@;
        self.roads.insert(k, road);
        proof {
            let rs = self.roads@;
            assert forall|a: int, b: int| 0 <= a < b < rs.len() implies (#[trigger] rs[a]).id.0
                < (#[trigger] rs[b]).id.0 by {
                if k < old_roads.len() {
                    assert(old_roads[k as int].id.0 >= id.0);
                    assert(!road_at(old_roads, id, k as int));
                }
                if b < k {
                } else if b == k {
                } else if a < k {
                    assert(rs[b] == old_roads[b - 1]);
                    if a < b - 1 {
                        assert(old_roads[a].id.0 < old_roads[k as int].id.0 || a >= k);
                    }
                } else if a == k {
                    assert(rs[b] == old_roads[b - 1]);
                    assert(old_roads[k as int].id.0 <= old_roads[b - 1].id.0 || b - 1 == k);
                } else {
                    assert(rs[a] == old_roads[a - 1]);
                    assert(rs[b] == old_roads[b - 1]);
                }
            }
        }
        let ks = self.intersection_index(src).unwrap();
        self.push_road_to(ks, id);
        proof {
            lemma_same_ids_wf(old_is, self.intersections@, self.intersection_counter());
            let k0 = choose|k0: int| intersection_at(old_is, dst, k0);
            assert(intersection_at(self.intersections@, dst, k0));
        }
        let ghost mid_is = self.intersections@;
        let kd = self.intersection_index(dst).unwrap();
        self.push_road_to(kd, id);
        proof {
            lemma_same_ids_wf(mid_is, self.intersections@, self.intersection_counter());
            let is = self.intersections@;
            assert forall|j: int| 0 <= j < is.len() implies same_but_roads(
                #[trigger] is[j],
                old_is[j],
            ) && is[j].roads@ == with_road_added(old_is[j].roads@, old_is[j].id, rd) by {
                if j != ks {
                    assert(old_is[j].id != src);
                }
                if j != kd {
                    assert(mid_is[j].id != dst);
                }
                if ks == kd {
                    assert(src == dst);
                }
            }
        }
    }

    /// Removes a road, and takes it out of the lists of roads at its ends. Returns the road.
    pub fn remove_road(&mut self, id: RoadID) -> (removed: Road)
        requires
            old(self).wf(),
            exists|k: int|
                road_at(old(self).roads@, id, k) && has_intersection(
                    old(self).intersections@,
                    (#[trigger] old(self).roads@[k]).src_i,
                ) && has_intersection(old(self).intersections@, old(self).roads@[k].dst_i),
        ensures
            final(self).wf(),
            exists|k: int|
                road_at(old(self).roads@, id, k) && removed == old(self).roads@[k] && final(self).roads@ == old(self).roads@.remove(k),
            final(self).intersections@.len() == old(self).intersections@.len(),
            forall|j: int|
                0 <= j < final(self).intersections@.len() ==> same_but_roads(
                    #[trigger] final(self).intersections@[j],
                    old(self).intersections@[j],
                ) && final(self).intersections@[j].roads@ == with_road_removed(
                    old(self).intersections@[j].roads@,
                    old(self).intersections@[j].id,
                    removed,
                ),
            forall|j: int|
                0 <= j < final(self).intersections@.len() && old(self).intersections@[j].id
                    != removed.src_i && old(self).intersections@[j].id != removed.dst_i
                    ==> #[trigger] final(self).intersections@[j] == old(self).intersections@[j],
            final(self).config == old(self).config,
            final(self).road_counter() == old(self).road_counter(),
            final(self).intersection_counter() == old(self).intersection_counter(),
    {
        let ghost old_is = self.intersections@;
        let k = self.road_index(id).unwrap();
        let src = self.roads[k].src_i;
        let dst = self.roads[k].dst_i;
        let ks = self.intersection_index(src).unwrap();
        self.drop_road_from(ks, id);
        proof {
            lemma_same_ids_wf(old_is, self.intersections@, self.intersection_counter());
            let k0 = choose|k0: int| intersection_at(old_is, dst, k0);
            assert(intersection_at(self.intersections@, dst, k0));
        }
        let ghost mid_is = self.intersections@;
        let kd = self.intersection_index(dst).unwrap();
        self.drop_road_from(kd, id);
        let ghost old_roads = self.roads@;
        let removed = self.roads.remove(k);
        proof {
            lemma_same_ids_wf(mid_is, self.intersections@, self.intersection_counter());
            let rs = self.roads@;
            assert forall|a: int, b: int| 0 <= a < b < rs.len() implies (#[trigger] rs[a]).id.0
                < (#[trigger] rs[b]).id.0 by {
                if a < k {
                    assert(rs[a] == old_roads[a]);
                } else {
                    assert(rs[a] == old_roads[a + 1]);
                }
                if b < k {
                    assert(rs[b] == old_roads[b]);
                } else {
                    assert(rs[b] == old_roads[b + 1]);
                }
            }
            let is = self.intersections@;
            assert forall|j: int| 0 <= j < is.len() implies same_but_roads(
                #[trigger] is[j],
                old_is[j],
            ) && is[j].roads@ == with_road_removed(old_is[j].roads@, old_is[j].id, removed) by {
                if j != ks {
                    assert(old_is[j].id != src);
                }
                if j != kd {
                    assert(mid_is[j].id != dst);
                }
                if ks == kd {
                    lemma_without_road_idempotent(old_is[j].roads@, id);
                }
            }
        }
        removed
    }

    /// The roads that meet at intersection `i`, in the order it lists them.
    pub fn roads_per_intersection(&self, i: IntersectionID) -> (r: Vec<&Road>)
        requires
            self.wf(),
            exists|k: int|
                intersection_at(self.intersections@, i, k) && forall|j: int|
                    0 <= j < (#[trigger] self.intersections@[k]).roads@.len() ==> has_road(
                        self.roads@,
                        self.intersections@[k].roads@[j],
                    ),
        ensures
            exists|k: int|
                intersection_at(self.intersections@, i, k) && r@.len() == (#[trigger] self.intersections@[k]).roads@.len()
                    && forall|j: int|
                    0 <= j < r@.len() ==> (#[trigger] r@[j]).id == self.intersections@[k].roads@[j]
                        && self.roads@.contains(*r@[j]),
    {
        let ki = self.intersection_index(i).unwrap();
        let ids = &self.intersections[ki].roads;
        let mut r: Vec<&Road> = Vec::new();
        let mut j: usize = 0;
        while j < ids.len()
            invariant
                j <= ids@.len(),
                ids == &self.intersections@[ki as int].roads,
                intersection_at(self.intersections@, i, ki as int),
                self.wf(),
                forall|x: int| 0 <= x < ids@.len() ==> has_road(self.roads@, ids@[x]),
                r@.len() == j,
                forall|x: int|
                    0 <= x < j ==> (#[trigger] r@[x]).id == ids@[x] && self.roads@.contains(*r@[x]),
            decreases ids@.len() - j,
        {
            let kr = self.road_index(ids[j]).unwrap();
            r.push(&self.roads[kr]);
            j = j + 1;
        }
        r
    }
}

/// Taking a road out twice is taking it out once.
proof fn lemma_without_road_idempotent(s: Seq<RoadID>, id: RoadID)
    ensures
        without_road(without_road(s, id), id) == without_road(s, id),
    decreases s.len(),
{
    if s.len() > 0 {
        lemma_without_road_idempotent(s.drop_last(), id);
        if s.last() != id {
            assert(without_road(s, id).drop_last() =~= without_road(s.drop_last(), id));
        }
    }
}


/// The roads of `rs` before `n` that `keep` marks, in order.
pub open spec fn kept_by(rs: Seq<Road>, keep: Seq<bool>, n: int) -> Seq<Road>
    decreases n,
{
    if n <= 0 {
        Seq::empty()
    } else if keep[n - 1] {
        kept_by(rs, keep, n - 1).push(rs[n - 1])
    } else {
        kept_by(rs, keep, n - 1)
    }
}

/// The list `s` of intersection `i` once the roads of `rs` before `n` that `keep` does not
/// mark are removed, one after the other.
pub open spec fn list_after_removals(
    s: Seq<RoadID>,
    i: IntersectionID,
    rs: Seq<Road>,
    keep: Seq<bool>,
    n: int,
) -> Seq<RoadID>
    decreases n,
{
    if n <= 0 {
        s
    } else if keep[n - 1] {
        list_after_removals(s, i, rs, keep, n - 1)
    } else {
        with_road_removed(list_after_removals(s, i, rs, keep, n - 1), i, rs[n - 1])
    }
}

impl StreetNetwork {
    /// Removes every road for which `f` answers `false`, one after the other in order of ID, as
    /// `remove_road` does; the others stay in order.
    pub fn retain_roads<F: Fn(&Road) -> bool>(&mut self, f: F)
        requires
            old(self).wf(),
            forall|k: int|
                0 <= k < old(self).roads@.len() ==> has_intersection(
                    old(self).intersections@,
                    (#[trigger] old(self).roads@[k]).src_i,
                ) && has_intersection(old(self).intersections@, old(self).roads@[k].dst_i),
            forall|k: int| 0 <= k < old(self).roads@.len() ==> f.requires((&#[trigger] old(self).roads@[k],)),
        ensures
            final(self).wf(),
            final(self).config == old(self).config,
            final(self).road_counter() == old(self).road_counter(),
            final(self).intersection_counter() == old(self).intersection_counter(),
            exists|keep: Seq<bool>|
                {
                    &&& keep.len() == old(self).roads@.len()
                    &&& forall|k: int|
                        0 <= k < keep.len() ==> f.ensures((&old(self).roads@[k],), #[trigger] keep[k])
                    &&& final(self).roads@ == kept_by(old(self).roads@, keep, keep.len() as int)
                    &&& final(self).intersections@.len() == old(self).intersections@.len()
                    &&& forall|j: int|
                        0 <= j < old(self).intersections@.len() ==> same_but_roads(
                            #[trigger] final(self).intersections@[j],
                            old(self).intersections@[j],
                        ) && final(self).intersections@[j].roads@ == list_after_removals(
                            old(self).intersections@[j].roads@,
                            old(self).intersections@[j].id,
                            old(self).roads@,
                            keep,
                            keep.len() as int,
                        )
                },
    {
        let ghost rs = self.roads@;
        let ghost is0 = self.intersections@;
        let n = self.roads.len();
        let mut keep: Vec<bool> = Vec::new();
        let mut ids: Vec<RoadID> = Vec::new();
        let mut k: usize = 0;
        while k < n
            invariant
                rs == self.roads@,
                n == rs.len(),
                k <= n,
                keep@.len() == k,
                ids@.len() == k,
                forall|x: int| 0 <= x < n ==> f.requires((&#[trigger] rs[x],)),
                forall|x: int| 0 <= x < k ==> f.ensures((&rs[x],), #[trigger] keep@[x]),
                forall|x: int| 0 <= x < k ==> #[trigger] ids@[x] == rs[x].id,
            decreases n - k,
        {
            let b = f(&self.roads[k]);
            keep.push(b);
            ids.push(self.roads[k].id);
            k = k + 1;
        }
        let ghost kv = keep@;
        let mut idx: usize = 0;
        while idx < n
            invariant
                self.wf(),
                n == rs.len(),
                kv == keep@,
                kv.len() == n,
                ids@.len() == n,
                forall|x: int| 0 <= x < n ==> #[trigger] ids@[x] == rs[x].id,
                roads_sorted(rs),
                idx <= n,
                self.roads@ == kept_by(rs, kv, idx as int) + rs.subrange(idx as int, n as int),
                forall|x: int|
                    0 <= x < n ==> has_intersection(is0, (#[trigger] rs[x]).src_i) && has_intersection(
                        is0,
                        rs[x].dst_i,
                    ),
                self.intersections@.len() == is0.len(),
                forall|j: int|
                    0 <= j < is0.len() ==> same_but_roads(#[trigger] self.intersections@[j], is0[j])
                        && self.intersections@[j].roads@ == list_after_removals(
                        is0[j].roads@,
                        is0[j].id,
                        rs,
                        kv,
                        idx as int,
                    ),
                self.config == old(self).config,
                self.road_counter() == old(self).road_counter(),
                self.intersection_counter() == old(self).intersection_counter(),
            decreases n - idx,
        {
            let ghost before = self.roads@;
            let ghost is_before = self.intersections@;
            let ghost pre = kept_by(rs, kv, idx as int);
            if !keep[idx] {
                let id = ids[idx];
                proof {
                    let p = pre.len() as int;
                    assert(before[p] == rs[idx as int]);
                    assert(road_at(before, id, p));
                    let a = choose|a: int| intersection_at(is0, rs[idx as int].src_i, a);
                    let b = choose|b: int| intersection_at(is0, rs[idx as int].dst_i, b);
                    assert(intersection_at(self.intersections@, rs[idx as int].src_i, a));
                    assert(intersection_at(self.intersections@, rs[idx as int].dst_i, b));
                }
                let gone = self.remove_road(id);
                proof {
                    let p = pre.len() as int;
                    let k2 = choose|k2: int| road_at(before, id, k2) && gone == before[k2] && self.roads@ == before.remove(k2);
                    if k2 < p {
                        assert(before[k2].id.0 < before[p].id.0);
                    } else if p < k2 {
                        assert(before[p].id.0 < before[k2].id.0);
                    }
                    assert(gone == rs[idx as int]);
                    assert(self.roads@ =~= kept_by(rs, kv, idx + 1) + rs.subrange(idx + 1, n as int));
                    assert forall|j: int| 0 <= j < is0.len() implies same_but_roads(#[trigger] self.intersections@[j], is0[j])
                        && self.intersections@[j].roads@ == list_after_removals(is0[j].roads@, is0[j].id, rs, kv, idx + 1) by {
                        assert(is_before[j].id == is0[j].id);
                    }
                }
            } else {
                proof {
                    assert(self.roads@ =~= kept_by(rs, kv, idx + 1) + rs.subrange(idx + 1, n as int));
                }
            }
            idx = idx + 1;
        }
        proof {
            assert(self.roads@ =~= kept_by(rs, kv, n as int));
        }
    }
}

} // verus!

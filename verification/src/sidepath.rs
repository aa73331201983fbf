//! Zipping a separately mapped sidepath into the main roads that run beside it: the sidepath
//! is removed, its lanes are spliced into each main road behind a planter buffer, and the short
//! connector roads to it are collapsed.
use vstd::prelude::*;

use crate::collapse::{lemma_road_unique, lists_its_roads, short_road_collapsed, CollapseError};
use crate::disconnected::ends_present;
use crate::ids::{IntersectionID, RoadID};
use crate::lanes::{
    lanes_view, spec_is_walkable, spec_opposite, spec_typical_width, BufferType, LaneSpec,
    LaneSpecView, LaneType, LaneWidth, LaneWidthView,
};
use crate::laws::{
    all_list_their_roads, law_collapse_short_road_keeps_lists, lemma_remove_road_keeps_lists,
    lemma_same_ends_keeps_lists,
};
use crate::network::{
    has_intersection, has_road, intersection_at, road_at, same_but_roads, with_road_removed,
    Intersection, StreetNetwork,
};
use crate::road::{road_lanes, Road};

verus! {

/// A sidepath's lanes can be zipped: there is one, and more than a lone shoulder.
pub open spec fn can_zip_lanes(lanes: Seq<LaneSpecView>) -> bool {
    lanes.len() > 0 && !(lanes.len() == 1 && lanes[0].lt == LaneType::Shoulder)
}

/// The sidepath's lanes without a shoulder at its left end and then without one at its right
/// end.
pub open spec fn sidepath_core(lanes: Seq<LaneSpecView>) -> Seq<LaneSpecView> {
    let a = if lanes[0].lt == LaneType::Shoulder {
        lanes.drop_first()
    } else {
        lanes
    };
    if a.last().lt == LaneType::Shoulder {
        a.drop_last()
    } else {
        a
    }
}

/// A lane seen from a main road: its direction is reversed when the sidepath runs the other way.
pub open spec fn oriented(l: LaneSpecView, same_way: bool) -> LaneSpecView {
    if same_way {
        l
    } else {
        LaneSpecView {
            lt: l.lt,
            dir: spec_opposite(l.dir),
            width: l.width,
            turn_restrictions: l.turn_restrictions,
        }
    }
}

/// The planter buffer that stands for the physical separation of a sidepath, facing `dir`.
pub open spec fn planter_buffer(dir: crate::lanes::Direction) -> LaneSpecView {
    LaneSpecView {
        lt: LaneType::Buffer(BufferType::Planters),
        dir,
        width: LaneWidthView::Exact(spec_typical_width(LaneType::Buffer(BufferType::Planters), "road"@)),
        turn_restrictions: Seq::empty(),
    }
}

/// The lanes that go into one main road: the sidepath's lanes, oriented, with the buffer on
/// the side of the main road (after them when the sidepath lies to the left, before them when
/// it lies to the right), facing as the lane beside it.
pub open spec fn inserted_lanes(core: Seq<LaneSpecView>, snap_to_left: bool, same_way: bool) -> Seq<
    LaneSpecView,
> {
    let o = core.map_values(|l: LaneSpecView| oriented(l, same_way));
    if snap_to_left {
        o.push(planter_buffer(o.last().dir))
    } else {
        seq![planter_buffer(o[0].dir)] + o
    }
}

/// Where the sidepath's lanes go: at the outer edge on the sidepath's side, but inside a
/// walkable lane that already stands there.
pub open spec fn insert_index(lanes: Seq<LaneSpecView>, snap_to_left: bool) -> int {
    if snap_to_left {
        if spec_is_walkable(lanes[0].lt) {
            1
        } else {
            0
        }
    } else {
        if spec_is_walkable(lanes.last().lt) {
            lanes.len() - 1
        } else {
            lanes.len() as int
        }
    }
}

/// A main road's lanes with the sidepath's lanes spliced in.
pub open spec fn zipped_lanes(
    lanes: Seq<LaneSpecView>,
    core: Seq<LaneSpecView>,
    snap_to_left: bool,
    same_way: bool,
) -> Seq<LaneSpecView> {
    let idx = insert_index(lanes, snap_to_left);
    lanes.take(idx) + inserted_lanes(core, snap_to_left, same_way) + lanes.skip(idx)
}

/// The lanes of road `x` once the first `n` main roads took in the sidepath: every time `x` is
/// named among them, the sidepath's lanes are spliced in once more.
pub open spec fn zip_all(
    lanes: Seq<LaneSpecView>,
    x: RoadID,
    main: Seq<RoadID>,
    snap_to_left: Seq<bool>,
    same_way: Seq<bool>,
    core: Seq<LaneSpecView>,
    n: int,
) -> Seq<LaneSpecView>
    decreases n,
{
    if n <= 0 {
        lanes
    } else {
        let prev = zip_all(lanes, x, main, snap_to_left, same_way, core, n - 1);
        if main[n - 1] == x {
            zipped_lanes(prev, core, snap_to_left[n - 1], same_way[n - 1])
        } else {
            prev
        }
    }
}

/// Road `n` is road `o` with other lanes only.
pub open spec fn same_but_lanes(n: Road, o: Road) -> bool {
    &&& n.id == o.id
    &&& n.osm_ids == o.osm_ids
    &&& n.src_i == o.src_i
    &&& n.dst_i == o.dst_i
    &&& n.highway_type == o.highway_type
    &&& n.name == o.name
    &&& n.internal_junction_road == o.internal_junction_road
    &&& n.layer == o.layer
    &&& n.reference_line_placement == o.reference_line_placement
    &&& n.turn_restrictions == o.turn_restrictions
    &&& n.complicated_turn_restrictions == o.complicated_turn_restrictions
}

/// A main road that can take in the sidepath: it is in the network and has a lane.
pub open spec fn main_road_ready(rs: Seq<Road>, r: RoadID) -> bool {
    exists|k: int| road_at(rs, r, k) && road_lanes(rs[k]).len() > 0
}

/// What zipping needs of the network: the sidepath's lanes can be zipped and keep a lane when
/// there is a main road, and each main road is another road with a lane.
pub open spec fn zip_feasible(rs: Seq<Road>, sidepath: RoadID, main: Seq<RoadID>) -> bool {
    &&& forall|kr: int|
        #[trigger] road_at(rs, sidepath, kr) ==> can_zip_lanes(road_lanes(rs[kr])) && (main.len() > 0
            ==> sidepath_core(road_lanes(rs[kr])).len() > 0)
    &&& forall|i: int| 0 <= i < main.len() ==> #[trigger] main[i] != sidepath && main_road_ready(rs, main[i])
}

/// `rs2`, `is2` are `rs`, `is` with the sidepath removed and its lanes, shoulders dropped,
/// spliced into the main roads.
pub open spec fn sidepath_zipped(
    rs: Seq<Road>,
    is: Seq<Intersection>,
    sidepath: RoadID,
    main: Seq<RoadID>,
    snap_to_left: Seq<bool>,
    same_way: Seq<bool>,
    rs2: Seq<Road>,
    is2: Seq<Intersection>,
) -> bool {
    exists|kr: int|
        #[trigger] road_at(rs, sidepath, kr) && {
            let core = sidepath_core(road_lanes(rs[kr]));
            let mid = rs.remove(kr);
            &&& rs2.len() == mid.len()
            &&& forall|j: int|
                0 <= j < mid.len() ==> same_but_lanes(#[trigger] rs2[j], mid[j]) && road_lanes(rs2[j])
                    == zip_all(road_lanes(mid[j]), mid[j].id, main, snap_to_left, same_way, core, main.len() as int)
            &&& is2.len() == is.len()
            &&& forall|j: int|
                0 <= j < is.len() ==> same_but_roads(#[trigger] is2[j], is[j]) && is2[j].roads@
                    == with_road_removed(is[j].roads@, is[j].id, rs[kr])
        }
}

/// `rs2`, `is2` are `rs`, `is` once connector `c` was collapsed as `collapse_short_road` does,
/// if it names a road of the network; otherwise they are unchanged.
pub open spec fn connector_collapsed(
    rs: Seq<Road>,
    is: Seq<Intersection>,
    rs2: Seq<Road>,
    is2: Seq<Intersection>,
    c: Option<RoadID>,
) -> bool {
    match c {
        Some(r) => if has_road(rs, r) {
            exists|res: Result<(IntersectionID, IntersectionID), CollapseError>|
                #[trigger] short_road_collapsed(rs, is, rs2, is2, r, res)
        } else {
            rs2 == rs && is2 == is
        },
        None => rs2 == rs && is2 == is,
    }
}

/// A lane with the same kind, direction, width and turn restrictions.
fn copy_lane(l: &LaneSpec) -> (r: LaneSpec)
    ensures
        r@ == l@,
{
    let width = match &l.width {
        LaneWidth::Exact(d) => LaneWidth::Exact(*d),
        LaneWidth::Tagged { metres, otherwise } => LaneWidth::Tagged {
            metres: metres.clone(),
            otherwise: *otherwise,
        },
    };
    let mut turns: Vec<String> = Vec::new();
    let mut k: usize = 0;
    while k < l.turn_restrictions.len()
        invariant
            k <= l.turn_restrictions@.len(),
            turns@.len() == k,
            forall|j: int| 0 <= j < k ==> (#[trigger] turns@[j])@ == l.turn_restrictions@[j]@,
        decreases l.turn_restrictions@.len() - k,
    {
        turns.push(l.turn_restrictions[k].clone());
        k = k + 1;
    }
    let r = LaneSpec { lt: l.lt, dir: l.dir, width, turn_restrictions: turns };
    assert(r@.turn_restrictions =~= l@.turn_restrictions);
    r
}

/// The sidepath's lanes without a shoulder at either end.
fn core_lanes(lanes: Vec<LaneSpec>) -> (r: Vec<LaneSpec>)
    requires
        can_zip_lanes(lanes_view(lanes@)),
    ensures
        lanes_view(r@) == sidepath_core(lanes_view(lanes@)),
{
    let ghost v = lanes_view(lanes@);
    let mut l = lanes;
    assert(l@[0]@ == v[0]);
    if l[0].lt == LaneType::Shoulder {
        l.remove(0);
        assert(lanes_view(l@) =~= v.drop_first());
    }
    let ghost a = lanes_view(l@);
    let n = l.len();
    assert(l@[n - 1]@ == a.last());
    if l[n - 1].lt == LaneType::Shoulder {
        l.pop();
        assert(lanes_view(l@) =~= a.drop_last());
    }
    l
}

/// The lanes that go into one main road, as `inserted_lanes` says.
fn lanes_to_insert(core: &Vec<LaneSpec>, snap_to_left: bool, same_way: bool) -> (r: Vec<LaneSpec>)
    requires
        core@.len() > 0,
    ensures
        lanes_view(r@) == inserted_lanes(lanes_view(core@), snap_to_left, same_way),
{
    let ghost o = lanes_view(core@).map_values(|l: LaneSpecView| oriented(l, same_way));
    let mut out: Vec<LaneSpec> = Vec::new();
    let mut k: usize = 0;
    while k < core.len()
        invariant
            k <= core@.len(),
            o.len() == core@.len(),
            o == lanes_view(core@).map_values(|l: LaneSpecView| oriented(l, same_way)),
            out@.len() == k,
            forall|j: int| 0 <= j < k ==> (#[trigger] out@[j])@ == o[j],
        decreases core@.len() - k,
    {
        let mut l = copy_lane(&core[k]);
        if !same_way {
            l.dir = l.dir.opposite();
        }
        out.push(l);
        k = k + 1;
    }
    assert(lanes_view(out@) =~= o);
    let width = LaneWidth::Exact(LaneSpec::typical_lane_width(LaneType::Buffer(BufferType::Planters)));
    let no_turns: Vec<String> = Vec::new();
    assert(no_turns@.map_values(|s: String| s@) =~= Seq::<Seq<char>>::empty());
    if snap_to_left {
        let dir = out[out.len() - 1].dir;
        out.push(LaneSpec { lt: LaneType::Buffer(BufferType::Planters), dir, width, turn_restrictions: no_turns });
        assert(lanes_view(out@) =~= o.push(planter_buffer(o.last().dir)));
    } else {
        let dir = out[0].dir;
        out.insert(0, LaneSpec { lt: LaneType::Buffer(BufferType::Planters), dir, width, turn_restrictions: no_turns });
        assert(lanes_view(out@) =~= seq![planter_buffer(o[0].dir)] + o);
    }
    out
}

/// Spliced lanes, seen lane by lane.
proof fn lemma_splice_view(a: Seq<LaneSpec>, idx: int, b: Seq<LaneSpec>)
    requires
        0 <= idx <= a.len(),
    ensures
        lanes_view(a.take(idx) + b + a.skip(idx)) == lanes_view(a).take(idx) + lanes_view(b)
            + lanes_view(a).skip(idx),
{
    assert(lanes_view(a.take(idx) + b + a.skip(idx)) =~= lanes_view(a).take(idx) + lanes_view(b)
        + lanes_view(a).skip(idx));
}

/// A road with a lane keeps one however often the sidepath is spliced into it.
proof fn lemma_zip_all_nonempty(
    lanes: Seq<LaneSpecView>,
    x: RoadID,
    main: Seq<RoadID>,
    snap_to_left: Seq<bool>,
    same_way: Seq<bool>,
    core: Seq<LaneSpecView>,
    n: int,
)
    requires
        lanes.len() > 0,
    ensures
        zip_all(lanes, x, main, snap_to_left, same_way, core, n).len() > 0,
    decreases n,
{
    if n > 0 {
        lemma_zip_all_nonempty(lanes, x, main, snap_to_left, same_way, core, n - 1);
        let prev = zip_all(lanes, x, main, snap_to_left, same_way, core, n - 1);
        let idx = insert_index(prev, snap_to_left[n - 1]);
        assert(0 <= idx <= prev.len());
        assert(prev.take(idx).len() + prev.skip(idx).len() == prev.len());
    }
}

impl StreetNetwork {
    /// Collapses connector `c` as `collapse_short_road` does, if it names a road of the network,
    /// ignoring a refusal.
    fn collapse_connector(&mut self, c: Option<RoadID>)
        requires
            old(self).wf(),
            ends_present(old(self).roads@, old(self).intersections@),
            all_list_their_roads(old(self).roads@, old(self).intersections@),
        ensures
            final(self).wf(),
            ends_present(final(self).roads@, final(self).intersections@),
            all_list_their_roads(final(self).roads@, final(self).intersections@),
            final(self).config == old(self).config,
            final(self).road_counter() == old(self).road_counter(),
            final(self).intersection_counter() == old(self).intersection_counter(),
            connector_collapsed(
                old(self).roads@,
                old(self).intersections@,
                final(self).roads@,
                final(self).intersections@,
                c,
            ),
    {
        if let Some(r) = c {
            if let Some(kr) = self.road_index(r) {
                let ghost rs = self.roads@;
                let ghost is = self.intersections@;
                proof {
                    let kk = choose|kk: int| intersection_at(is, rs[kr as int].src_i, kk);
                    let kd = choose|kd: int| intersection_at(is, rs[kr as int].dst_i, kd);
                    assert(has_intersection(is, rs[kr as int].src_i));
                    assert(has_intersection(is, rs[kr as int].dst_i));
                    assert(lists_its_roads(rs, is, kd));
                    assert(road_at(rs, r, kr as int));
                }
                let res = self.collapse_short_road(r);
                proof {
                    assert(has_road(rs, r));
                    law_collapse_short_road_keeps_lists(
                        rs,
                        is,
                        self.roads@,
                        self.intersections@,
                        r,
                        res,
                    );
                    assert(short_road_collapsed(rs, is, self.roads@, self.intersections@, r, res));
                }
            }
        }
    }

    /// Zips sidepath `sidepath` into `main_roads`, the roads that run beside it. For main road
    /// `i`, `snap_to_left[i]` says whether the sidepath lies on its left side and `same_way[i]`
    /// whether it points the same way; both come from the roads' geometry.
    ///
    /// Nothing happens when the sidepath is no longer in the network. Otherwise it is removed,
    /// a shoulder at either end of its lanes is dropped, and the remaining lanes are spliced into
    /// each main road as `zipped_lanes` says: reversed where the sidepath runs the other way,
    /// behind a planter buffer, inside a walkable lane at the edge. Then each connector that
    /// names a road of the network is collapsed as `collapse_short_road` does; a refusal is
    /// ignored. Recomputing the main roads' geometry is left to the caller.
    pub fn zip_sidepath(
        &mut self,
        sidepath: RoadID,
        main_roads: &Vec<RoadID>,
        snap_to_left: &Vec<bool>,
        same_way: &Vec<bool>,
        connectors: (Option<RoadID>, Option<RoadID>),
    )
        requires
            old(self).wf(),
            ends_present(old(self).roads@, old(self).intersections@),
            all_list_their_roads(old(self).roads@, old(self).intersections@),
            snap_to_left@.len() == main_roads@.len(),
            same_way@.len() == main_roads@.len(),
            has_road(old(self).roads@, sidepath) ==> zip_feasible(
                old(self).roads@,
                sidepath,
                main_roads@,
            ),
        ensures
            final(self).wf(),
            ends_present(final(self).roads@, final(self).intersections@),
            all_list_their_roads(final(self).roads@, final(self).intersections@),
            final(self).config == old(self).config,
            final(self).road_counter() == old(self).road_counter(),
            final(self).intersection_counter() == old(self).intersection_counter(),
            !has_road(old(self).roads@, sidepath) ==> final(self).roads@ == old(self).roads@
                && final(self).intersections@ == old(self).intersections@,
            has_road(old(self).roads@, sidepath) ==> exists|
                rs_z: Seq<Road>,
                is_z: Seq<Intersection>,
                rs_c: Seq<Road>,
                is_c: Seq<Intersection>,
            |
                #![trigger sidepath_zipped(old(self).roads@, old(self).intersections@, sidepath, main_roads@, snap_to_left@, same_way@, rs_z, is_z), connector_collapsed(rs_z, is_z, rs_c, is_c, connectors.0)]
                sidepath_zipped(
                    old(self).roads@,
                    old(self).intersections@,
                    sidepath,
                    main_roads@,
                    snap_to_left@,
                    same_way@,
                    rs_z,
                    is_z,
                ) && connector_collapsed(rs_z, is_z, rs_c, is_c, connectors.0)
                    && connector_collapsed(
                    rs_c,
                    is_c,
                    final(self).roads@,
                    final(self).intersections@,
                    connectors.1,
                ),
    {
        let kr = match self.road_index(sidepath) {
            Some(k) => k,
            None => {
                return ;
            },
        };
        let ghost rs0 = self.roads@;
        let ghost is0 = self.intersections@;
        let removed = self.remove_road(sidepath);
        proof {
            let k2 = choose|k2: int|
                road_at(rs0, sidepath, k2) && removed == rs0[k2] && self.roads@ == rs0.remove(k2);
            lemma_road_unique(rs0, sidepath, k2, kr as int);
            lemma_remove_road_keeps_lists(rs0, is0, self.roads@, self.intersections@, kr as int);
            assert(road_at(rs0, sidepath, kr as int));
        }
        let core = core_lanes(removed.lane_specs_ltr);
        let ghost cv = lanes_view(core@);
        let ghost mid = self.roads@;
        let ghost is_z = self.intersections@;
        let ghost main = main_roads@;
        let ghost left = snap_to_left@;
        let ghost same = same_way@;
        proof {
            assert forall|i: int| 0 <= i < main.len() implies #[trigger] main_road_ready(mid, main[i]) by {
                assert(main[i] != sidepath && main_road_ready(rs0, main[i]));
                let k = choose|k: int| road_at(rs0, main[i], k) && road_lanes(rs0[k]).len() > 0;
                assert(k != kr);
                if k < kr {
                    assert(road_at(mid, main[i], k));
                } else {
                    assert(road_at(mid, main[i], k - 1));
                }
            }
        }
        let mut i: usize = 0;
        while i < main_roads.len()
            invariant
                self.wf(),
                i <= main.len(),
                main == main_roads@,
                left == snap_to_left@,
                same == same_way@,
                left.len() == main.len(),
                same.len() == main.len(),
                main.len() > 0 ==> cv.len() > 0,
                cv == lanes_view(core@),
                self.intersections@ == is_z,
                self.config == old(self).config,
                self.road_counter() == old(self).road_counter(),
                self.intersection_counter() == old(self).intersection_counter(),
                self.roads@.len() == mid.len(),
                forall|j: int|
                    0 <= j < mid.len() ==> same_but_lanes(#[trigger] self.roads@[j], mid[j]) && road_lanes(
                        self.roads@[j],
                    ) == zip_all(road_lanes(mid[j]), mid[j].id, main, left, same, cv, i as int),
                forall|q: int| 0 <= q < main.len() ==> #[trigger] main_road_ready(mid, main[q]),
            decreases main.len() - i,
        {
            let r = main_roads[i];
            proof {
                assert(main_road_ready(mid, main[i as int]));
                let k = choose|k: int| road_at(mid, r, k) && road_lanes(mid[k]).len() > 0;
                assert(same_but_lanes(self.roads@[k], mid[k]));
                assert(road_at(self.roads@, r, k));
            }
            let k = self.road_index(r).unwrap();
            let ghost before = self.roads@;
            proof {
                let k0 = choose|k0: int| road_at(mid, r, k0) && road_lanes(mid[k0]).len() > 0;
                assert(same_but_lanes(before[k0], mid[k0]));
                assert(road_at(before, r, k0));
                lemma_road_unique(before, r, k0, k as int);
                lemma_zip_all_nonempty(road_lanes(mid[k0]), r, main, left, same, cv, i as int);
                assert(same_but_lanes(before[k as int], mid[k as int]));
            }
            let mut road = self.roads.remove(k);
            let n = road.lane_specs_ltr.len();
            let ghost lv = lanes_view(road.lane_specs_ltr@);
            assert(road.lane_specs_ltr@[0]@ == lv[0]);
            assert(road.lane_specs_ltr@[n - 1]@ == lv.last());
            let idx: usize = if snap_to_left[i] {
                if road.lane_specs_ltr[0].lt.is_walkable() {
                    1
                } else {
                    0
                }
            } else {
                if road.lane_specs_ltr[n - 1].lt.is_walkable() {
                    n - 1
                } else {
                    n
                }
            };
            let ins = lanes_to_insert(&core, snap_to_left[i], same_way[i]);
            let ghost old_lanes = road.lane_specs_ltr@;
            crate::sequences::splice_in(&mut road.lane_specs_ltr, idx, ins);
            proof {
                lemma_splice_view(old_lanes, idx as int, ins@);
            }
            self.roads.insert(k, road);
            proof {
                let rs = self.roads@;
                assert(rs =~= before.update(k as int, road));
                assert forall|a: int, b: int| 0 <= a < b < rs.len() implies (#[trigger] rs[a]).id.0
                    < (#[trigger] rs[b]).id.0 by {
                    assert(before[a].id.0 < before[b].id.0);
                }
                assert forall|j: int| 0 <= j < mid.len() implies same_but_lanes(
                    #[trigger] rs[j],
                    mid[j],
                ) && road_lanes(rs[j]) == zip_all(
                    road_lanes(mid[j]),
                    mid[j].id,
                    main,
                    left,
                    same,
                    cv,
                    i + 1,
                ) by {
                    assert(same_but_lanes(before[j], mid[j]));
                    if j != k {
                        assert(rs[j] == before[j]);
                        assert(mid[j].id != r) by {
                            if mid[j].id == r {
                                assert(road_at(before, r, j));
                                lemma_road_unique(before, r, j, k as int);
                            }
                        }
                    }
                }
            }
            i = i + 1;
        }
        let ghost rs_z = self.roads@;
        proof {
            lemma_same_ends_keeps_lists(mid, rs_z, is_z);
            assert(sidepath_zipped(rs0, is0, sidepath, main, left, same, rs_z, is_z)) by {
                assert(road_at(rs0, sidepath, kr as int));
                assert(cv == sidepath_core(road_lanes(rs0[kr as int])));
            }
        }
        self.collapse_connector(connectors.0);
        let ghost rs_c = self.roads@;
        let ghost is_c = self.intersections@;
        self.collapse_connector(connectors.1);
        proof {
            assert(sidepath_zipped(rs0, is0, sidepath, main, left, same, rs_z, is_z));
            assert(connector_collapsed(rs_z, is_z, rs_c, is_c, connectors.0));
        }
    }
}

} // verus!

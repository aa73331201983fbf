//! Collapsing a short road: its two intersections merge into one, and the turn restrictions that
//! named the road are rewritten.
use vstd::prelude::*;

use crate::ids::{IntersectionID, RoadID};
use crate::block::{other_end, road_with_id};
use crate::network::{
    has_intersection, same_but_roads, with_road_added, has_road, intersection_at, intersections_sorted, road_at, roads_sorted, roads_without,
    with_road_removed, without_road, Intersection, StreetNetwork,
};
use crate::road::{RestrictionType, Road};
use crate::road_functions::{ControlType, IntersectionType};

verus! {

/// Why a road could not be collapsed.
#[derive(Clone, Copy, Debug, PartialEq, Eq, Structural)]
pub enum CollapseError {
    /// The road touches the edge of the map.
    TouchesMapEdge(RoadID),
}

/// The number of ends that road `r` has at intersection `i`.
pub open spec fn ends_at(r: Road, i: IntersectionID) -> nat {
    (if r.src_i == i {
        1nat
    } else {
        0nat
    }) + (if r.dst_i == i {
        1nat
    } else {
        0nat
    })
}

/// The intersection at index `k` lists each road of the network once for each end it has
/// there, and no other road.
pub open spec fn lists_its_roads(rs: Seq<Road>, is: Seq<Intersection>, k: int) -> bool {
    &&& forall|j: int|
        0 <= j < rs.len() ==> is[k].roads@.to_multiset().count((#[trigger] rs[j]).id) == ends_at(
            rs[j],
            is[k].id,
        )
    &&& forall|x: RoadID| #[trigger] is[k].roads@.contains(x) ==> exists|j: int| road_at(rs, x, j)
}

/// An end at the destroyed intersection moves to the kept one.
pub open spec fn repoint(x: IntersectionID, keep: IntersectionID, destroy: IntersectionID) -> IntersectionID {
    if x == destroy {
        keep
    } else {
        x
    }
}

/// A ban on turning onto each of `ids`, in order.
pub open spec fn ban_all(ids: Seq<RoadID>) -> Seq<(RestrictionType, RoadID)> {
    ids.map_values(|x: RoadID| (RestrictionType::BanTurns, x))
}

/// The simple turn restrictions of road `me` once `short_r` is gone: a ban on turning onto
/// `short_r` becomes a ban on turning onto each road that `short_r` led to. When `me` met the
/// kept intersection, those are the roads of the destroyed one (`cd`), else those of the kept
/// one (`ck`). Every other restriction stays, in order.
pub open spec fn fixed_restrictions(
    trs: Seq<(RestrictionType, RoadID)>,
    me: RoadID,
    short_r: RoadID,
    ck: Seq<RoadID>,
    cd: Seq<RoadID>,
) -> Seq<(RestrictionType, RoadID)>
    decreases trs.len(),
{
    if trs.len() == 0 {
        trs
    } else {
        let prev = fixed_restrictions(trs.drop_last(), me, short_r, ck, cd);
        if trs.last().1 == short_r && trs.last().0 == RestrictionType::BanTurns {
            prev + ban_all(
                if ck.contains(me) {
                    cd
                } else {
                    ck
                },
            )
        } else {
            prev.push(trs.last())
        }
    }
}

/// The complicated restrictions whose `via` is not `via`, in order.
pub open spec fn complicated_kept(cs: Seq<(RoadID, RoadID)>, via: RoadID) -> Seq<(RoadID, RoadID)>
    decreases cs.len(),
{
    if cs.len() == 0 {
        cs
    } else if cs.last().0 == via {
        complicated_kept(cs.drop_last(), via)
    } else {
        complicated_kept(cs.drop_last(), via).push(cs.last())
    }
}

/// The complicated restrictions through `via`, each become a simple ban on its last road.
pub open spec fn complicated_banned(cs: Seq<(RoadID, RoadID)>, via: RoadID) -> Seq<
    (RestrictionType, RoadID),
>
    decreases cs.len(),
{
    if cs.len() == 0 {
        Seq::empty()
    } else if cs.last().0 == via {
        complicated_banned(cs.drop_last(), via).push((RestrictionType::BanTurns, cs.last().1))
    } else {
        complicated_banned(cs.drop_last(), via)
    }
}

/// `n` is road `o` after `short_r` collapsed, merging `destroy` into `keep`: its ends at
/// `destroy` move to `keep`, and its restrictions that named `short_r` are rewritten.
pub open spec fn collapsed_road(
    n: Road,
    o: Road,
    short_r: RoadID,
    keep: IntersectionID,
    destroy: IntersectionID,
    ck: Seq<RoadID>,
    cd: Seq<RoadID>,
) -> bool {
    &&& n.id == o.id
    &&& n.osm_ids == o.osm_ids
    &&& n.highway_type == o.highway_type
    &&& n.name == o.name
    &&& n.internal_junction_road == o.internal_junction_road
    &&& n.layer == o.layer
    &&& n.reference_line_placement == o.reference_line_placement
    &&& n.lane_specs_ltr == o.lane_specs_ltr
    &&& n.src_i == repoint(o.src_i, keep, destroy)
    &&& n.dst_i == repoint(o.dst_i, keep, destroy)
    &&& n.turn_restrictions@ == fixed_restrictions(o.turn_restrictions@, o.id, short_r, ck, cd)
        + complicated_banned(o.complicated_turn_restrictions@, short_r)
    &&& n.complicated_turn_restrictions@ == complicated_kept(
        o.complicated_turn_restrictions@,
        short_r,
    )
}

/// Whether `v` holds `x`.
fn holds_road(v: &Vec<RoadID>, x: RoadID) -> (r: bool)
    ensures
        r == v@.contains(x),
{
    let mut k: usize = 0;
    while k < v.len()
        invariant
            k <= v@.len(),
            forall|j: int| 0 <= j < k ==> v@[j] != x,
        decreases v@.len() - k,
    {
        if v[k] == x {
            return true;
        }
        k = k + 1;
    }
    false
}

/// Appends a ban on turning onto each of `ids`.
fn push_bans(out: &mut Vec<(RestrictionType, RoadID)>, ids: &Vec<RoadID>)
    ensures
        final(out)@ == old(out)@ + ban_all(ids@),
{
    let ghost base = out@;
    let mut k: usize = 0;
    while k < ids.len()
        invariant
            k <= ids@.len(),
            out@ == base + ban_all(ids@.subrange(0, k as int)),
        decreases ids@.len() - k,
    {
        proof {
            assert(ban_all(ids@.subrange(0, k + 1)) =~= ban_all(ids@.subrange(0, k as int)).push(
                (RestrictionType::BanTurns, ids@[k as int]),
            ));
        }
        out.push((RestrictionType::BanTurns, ids[k]));
        k = k + 1;
    }
    proof {
        assert(ids@.subrange(0, ids@.len() as int) =~= ids@);
    }
}

/// The simple turn restrictions of road `me` once `short_r` is collapsed.
pub fn fix_restrictions(
    trs: &Vec<(RestrictionType, RoadID)>,
    me: RoadID,
    short_r: RoadID,
    ck: &Vec<RoadID>,
    cd: &Vec<RoadID>,
) -> (r: Vec<(RestrictionType, RoadID)>)
    ensures
        r@ == fixed_restrictions(trs@, me, short_r, ck@, cd@),
{
    let mine_at_keep = holds_road(ck, me);
    let mut out: Vec<(RestrictionType, RoadID)> = Vec::new();
    let mut k: usize = 0;
    while k < trs.len()
        invariant
            k <= trs@.len(),
            mine_at_keep == ck@.contains(me),
            out@ == fixed_restrictions(trs@.subrange(0, k as int), me, short_r, ck@, cd@),
        decreases trs@.len() - k,
    {
        proof {
            assert(trs@.subrange(0, k + 1).drop_last() =~= trs@.subrange(0, k as int));
        }
        let (rt, to) = trs[k];
        if to == short_r && rt == RestrictionType::BanTurns {
            if mine_at_keep {
                push_bans(&mut out, cd);
            } else {
                push_bans(&mut out, ck);
            }
        } else {
            out.push((rt, to));
        }
        k = k + 1;
    }
    proof {
        assert(trs@.subrange(0, trs@.len() as int) =~= trs@);
    }
    out
}

/// Splits the complicated restrictions into those that stay and the simple bans that replace
/// those through `via`.
pub fn split_complicated(cs: &Vec<(RoadID, RoadID)>, via: RoadID) -> (r: (
    Vec<(RoadID, RoadID)>,
    Vec<(RestrictionType, RoadID)>,
))
    ensures
        r.0@ == complicated_kept(cs@, via),
        r.1@ == complicated_banned(cs@, via),
{
    let mut kept: Vec<(RoadID, RoadID)> = Vec::new();
    let mut banned: Vec<(RestrictionType, RoadID)> = Vec::new();
    let mut k: usize = 0;
    while k < cs.len()
        invariant
            k <= cs@.len(),
            kept@ == complicated_kept(cs@.subrange(0, k as int), via),
            banned@ == complicated_banned(cs@.subrange(0, k as int), via),
        decreases cs@.len() - k,
    {
        proof {
            assert(cs@.subrange(0, k + 1).drop_last() =~= cs@.subrange(0, k as int));
        }
        let (v, to) = cs[k];
        if v == via {
            banned.push((RestrictionType::BanTurns, to));
        } else {
            kept.push((v, to));
        }
        k = k + 1;
    }
    proof {
        assert(cs@.subrange(0, cs@.len() as int) =~= cs@);
    }
    (kept, banned)
}

/// Road `r` once `short_r` has collapsed, merging `destroy` into `keep`.
fn rewrite_road(
    r: Road,
    short_r: RoadID,
    keep: IntersectionID,
    destroy: IntersectionID,
    ck: &Vec<RoadID>,
    cd: &Vec<RoadID>,
) -> (n: Road)
    ensures
        collapsed_road(n, r, short_r, keep, destroy, ck@, cd@),
{
    let mut r = r;
    if r.src_i == destroy {
        r.src_i = keep;
    }
    if r.dst_i == destroy {
        r.dst_i = keep;
    }
    let mut fixed = fix_restrictions(&r.turn_restrictions, r.id, short_r, ck, cd);
    let (kept, mut banned) = split_complicated(&r.complicated_turn_restrictions, short_r);
    fixed.append(&mut banned);
    r.turn_restrictions = fixed;
    r.complicated_turn_restrictions = kept;
    r
}

/// Removing an element keeps a vector of intersections in order.
proof fn lemma_remove_keeps_order(is: Seq<Intersection>, k: int, counter: usize)
    requires
        0 <= k < is.len(),
        intersections_sorted(is),
        forall|j: int| 0 <= j < is.len() ==> (#[trigger] is[j]).id.0 < counter,
    ensures
        intersections_sorted(is.remove(k)),
        forall|j: int| 0 <= j < is.remove(k).len() ==> (#[trigger] is.remove(k)[j]).id.0 < counter,
{
    let n = is.remove(k);
    assert forall|a: int, b: int| 0 <= a < b < n.len() implies (#[trigger] n[a]).id.0
        < (#[trigger] n[b]).id.0 by {
        if a < k {
            assert(n[a] == is[a]);
        } else {
            assert(n[a] == is[a + 1]);
        }
        if b < k {
            assert(n[b] == is[b]);
        } else {
            assert(n[b] == is[b + 1]);
        }
    }
    assert forall|j: int| 0 <= j < n.len() implies (#[trigger] n[j]).id.0 < counter by {
        if j < k {
            assert(n[j] == is[j]);
        } else {
            assert(n[j] == is[j + 1]);
        }
    }
}

/// In a vector in order of ID, an ID stands at one index only.
pub(crate) proof fn lemma_intersection_unique(is: Seq<Intersection>, id: IntersectionID, a: int, b: int)
    requires
        intersections_sorted(is),
        intersection_at(is, id, a),
        intersection_at(is, id, b),
    ensures
        a == b,
{
    if a < b {
        assert(is[a].id.0 < is[b].id.0);
    } else if b < a {
        assert(is[b].id.0 < is[a].id.0);
    }
}

/// In a vector in order of ID, an ID stands at one index only.
pub(crate) proof fn lemma_road_unique(rs: Seq<Road>, id: RoadID, a: int, b: int)
    requires
        roads_sorted(rs),
        road_at(rs, id, a),
        road_at(rs, id, b),
    ensures
        a == b,
{
    if a < b {
        assert(rs[a].id.0 < rs[b].id.0);
    } else if b < a {
        assert(rs[b].id.0 < rs[a].id.0);
    }
}

impl StreetNetwork {
    /// Merges the intersection at index `kd` into the one at index `kk` and removes it: the
    /// survivor takes over its OSM nodes and roads, appended in order, and its traffic lights.
    #[verifier::rlimit(50)]
    fn merge_into(&mut self, kk: usize, kd: usize)
        requires
            old(self).wf(),
            kk < old(self).intersections@.len(),
            kd < old(self).intersections@.len(),
            kk != kd,
        ensures
            final(self).wf(),
            final(self).roads == old(self).roads,
            final(self).config == old(self).config,
            final(self).road_id_counter == old(self).road_id_counter,
            final(self).intersection_id_counter == old(self).intersection_id_counter,
            final(self).intersections@.len() == old(self).intersections@.len() - 1,
            forall|j: int|
                0 <= j < final(self).intersections@.len() ==> if old(self).intersections@.remove(
                    kd as int,
                )[j].id == old(self).intersections@[kk as int].id {
                    let o = old(self).intersections@;
                    &&& (#[trigger] final(self).intersections@[j]).id == o[kk as int].id
                    &&& final(self).intersections@[j].kind == o[kk as int].kind
                    &&& final(self).intersections@[j].control == (if o[kd as int].control
                        == ControlType::Lights {
                        ControlType::Lights
                    } else {
                        o[kk as int].control
                    })
                    &&& final(self).intersections@[j].osm_ids@ == o[kk as int].osm_ids@
                        + o[kd as int].osm_ids@
                    &&& final(self).intersections@[j].roads@ == o[kk as int].roads@
                        + o[kd as int].roads@
                } else {
                    final(self).intersections@[j] == old(self).intersections@.remove(kd as int)[j]
                },
    {
        let ghost o = self.intersections@;
        let mut dead = self.intersections.remove(kd);
        proof {
            lemma_remove_keeps_order(o, kd as int, self.intersection_counter());
        }
        let kk2: usize = if kk < kd {
            kk
        } else {
            kk - 1
        };
        let ghost left = self.intersections@;
        proof {
            assert(left == o.remove(kd as int));
            assert(left[kk2 as int] == o[kk as int]);
            assert forall|j: int| 0 <= j < left.len() && j != kk2 implies #[trigger] left[j].id
                != o[kk as int].id by {
                if left[j].id == o[kk as int].id {
                    lemma_intersection_unique(left, o[kk as int].id, j, kk2 as int);
                }
            }
        }
        let mut kept_i = self.intersections.remove(kk2);
        if dead.control == ControlType::Lights {
            kept_i.control = ControlType::Lights;
        }
        kept_i.osm_ids.append(&mut dead.osm_ids);
        kept_i.roads.append(&mut dead.roads);
        self.intersections.insert(kk2, kept_i);
        proof {
            let n = self.intersections@;
            assert(n.len() == left.len());
            assert forall|j: int| 0 <= j < n.len() && j != kk2 implies #[trigger] n[j] == left[j] by {}
            assert forall|j: int| 0 <= j < left.len() implies (#[trigger] left[j]).id
                == self.intersections@[j].id by {
                if j != kk2 {
                    assert(self.intersections@[j] == left[j]);
                }
            }
            crate::network::lemma_same_ids_wf(left, self.intersections@, self.intersection_counter());
        }
    }

    /// Moves every road end at `destroy` to `keep`, and rewrites every road's restrictions that
    /// name `short_r`.
    fn rewrite_all_roads(
        &mut self,
        short_r: RoadID,
        keep: IntersectionID,
        destroy: IntersectionID,
        ck: &Vec<RoadID>,
        cd: &Vec<RoadID>,
    )
        requires
            roads_sorted(old(self).roads@),
        ensures
            roads_sorted(final(self).roads@),
            final(self).roads@.len() == old(self).roads@.len(),
            forall|j: int|
                0 <= j < old(self).roads@.len() ==> collapsed_road(
                    #[trigger] final(self).roads@[j],
                    old(self).roads@[j],
                    short_r,
                    keep,
                    destroy,
                    ck@,
                    cd@,
                ),
            final(self).intersections == old(self).intersections,
            final(self).config == old(self).config,
            final(self).road_id_counter == old(self).road_id_counter,
            final(self).intersection_id_counter == old(self).intersection_id_counter,
    {
        let ghost rest = self.roads@;
        let mut j: usize = 0;
        while j < self.roads.len()
            invariant
                j <= self.roads@.len(),
                self.roads@.len() == rest.len(),
                rest == old(self).roads@,
                roads_sorted(rest),
                self.intersections == old(self).intersections,
                self.config == old(self).config,
                self.road_id_counter == old(self).road_id_counter,
                self.intersection_id_counter == old(self).intersection_id_counter,
                forall|x: int| 0 <= x < rest.len() ==> (#[trigger] self.roads@[x]).id == rest[x].id,
                forall|x: int|
                    0 <= x < j ==> collapsed_road(
                        #[trigger] self.roads@[x],
                        rest[x],
                        short_r,
                        keep,
                        destroy,
                        ck@,
                        cd@,
                    ),
                forall|x: int| j <= x < rest.len() ==> #[trigger] self.roads@[x] == rest[x],
            decreases rest.len() - j,
        {
            let r = self.roads.remove(j);
            let n = rewrite_road(r, short_r, keep, destroy, ck, cd);
            self.roads.insert(j, n);
            j = j + 1;
        }
        proof {
            let rs = self.roads@;
            assert forall|a: int, b: int| 0 <= a < b < rs.len() implies (#[trigger] rs[a]).id.0
                < (#[trigger] rs[b]).id.0 by {
                assert(rest[a].id.0 < rest[b].id.0);
            }
        }
    }
}

/// `(n_rs, n_is)` is the network `(o_rs, o_is)` once road `short_r` is collapsed with result
/// `res`, as `collapse_short_road` says.
pub open spec fn short_road_collapsed(
    o_rs: Seq<Road>,
    o_is: Seq<Intersection>,
    n_rs: Seq<Road>,
    n_is: Seq<Intersection>,
    short_r: RoadID,
    res: Result<(IntersectionID, IntersectionID), CollapseError>,
) -> bool {
    forall|kr: int, kk: int, kd: int|
        #![trigger road_at(o_rs, short_r, kr), intersection_at(o_is, o_rs[kr].src_i, kk), intersection_at(o_is, o_rs[kr].dst_i, kd)]
        road_at(o_rs, short_r, kr) && intersection_at(
            o_is,
            o_rs[kr].src_i,
            kk,
        ) && intersection_at(o_is, o_rs[kr].dst_i, kd)
            ==> ({
            let keep = o_rs[kr].src_i;
            let destroy = o_rs[kr].dst_i;
            let edge = o_is[kk].kind == IntersectionType::MapEdge
                || o_is[kd].kind == IntersectionType::MapEdge;
            let ck = without_road(o_is[kk].roads@, short_r);
            let cd = without_road(o_is[kd].roads@, short_r);
            let rest = o_rs.remove(kr);
            let left = o_is.remove(kd);
            &&& edge ==> res == Err::<(IntersectionID, IntersectionID), CollapseError>(
                CollapseError::TouchesMapEdge(short_r),
            ) && n_rs == o_rs && n_is == o_is
            &&& !edge && keep == destroy ==> res == Ok::<
                (IntersectionID, IntersectionID),
                CollapseError,
            >((keep, keep)) && n_rs == rest && n_is.len()
                == o_is.len() && forall|j: int|
                0 <= j < o_is.len() ==> (#[trigger] n_is[j]).roads@ == with_road_removed(
                    o_is[j].roads@,
                    o_is[j].id,
                    o_rs[kr],
                ) && n_is[j].id == o_is[j].id
                    && n_is[j].osm_ids@ == o_is[j].osm_ids@
                    && n_is[j].kind == o_is[j].kind
                    && n_is[j].control == o_is[j].control
            &&& !edge && keep != destroy ==> res == Ok::<
                (IntersectionID, IntersectionID),
                CollapseError,
            >((keep, destroy)) && n_rs.len() == rest.len() && (forall|j: int|
                0 <= j < rest.len() ==> collapsed_road(
                    #[trigger] n_rs[j],
                    rest[j],
                    short_r,
                    keep,
                    destroy,
                    ck,
                    cd,
                )) && n_is.len() == left.len() && forall|j: int|
                0 <= j < left.len() ==> if left[j].id == keep {
                    &&& (#[trigger] n_is[j]).id == keep
                    &&& n_is[j].kind == left[j].kind
                    &&& n_is[j].control == (if o_is[kd].control
                        == ControlType::Lights {
                        ControlType::Lights
                    } else {
                        left[j].control
                    })
                    &&& n_is[j].osm_ids@ == left[j].osm_ids@
                        + o_is[kd].osm_ids@
                    &&& n_is[j].roads@ == ck + cd
                } else {
                    n_is[j] == left[j]
                }
        })
}

impl StreetNetwork {
    /// Collapses road `short_r`, merging the intersection at its end into the one at its start.
    /// Returns (the surviving intersection, the deleted one); they are the same when the road
    /// is a loop, which is then only removed.
    ///
    /// Otherwise the surviving intersection takes over the OSM nodes and the roads of the other
    /// one, and its traffic lights; every road end at the deleted intersection moves to the
    /// surviving one; a ban on turning onto `short_r` becomes a ban on turning onto each road
    /// that it led to; and a complicated restriction through `short_r` becomes a simple ban.
    /// Re-sorting the surviving intersection's roads clockwise needs geometry and is left to
    /// the caller.
    pub fn collapse_short_road(&mut self, short_r: RoadID) -> (res: Result<
        (IntersectionID, IntersectionID),
        CollapseError,
    >)
        requires
            old(self).wf(),
            exists|kr: int|
                road_at(old(self).roads@, short_r, kr) && has_intersection(
                    old(self).intersections@,
                    (#[trigger] old(self).roads@[kr]).src_i,
                ) && (exists|kd: int|
                    intersection_at(old(self).intersections@, old(self).roads@[kr].dst_i, kd)
                        && lists_its_roads(old(self).roads@, old(self).intersections@, kd)),
        ensures
            final(self).wf(),
            final(self).config == old(self).config,
            final(self).road_counter() == old(self).road_counter(),
            final(self).intersection_counter() == old(self).intersection_counter(),
            short_road_collapsed(
                old(self).roads@,
                old(self).intersections@,
                final(self).roads@,
                final(self).intersections@,
                short_r,
                res,
            ),
    {
        let kr = self.road_index(short_r).unwrap();
        let keep = self.roads[kr].src_i;
        let destroy = self.roads[kr].dst_i;
        let kk = self.intersection_index(keep).unwrap();
        let kd = self.intersection_index(destroy).unwrap();
        proof {
            assert forall|kr2: int, kk2: int, kd2: int|
                #![trigger road_at(old(self).roads@, short_r, kr2), intersection_at(old(self).intersections@, old(self).roads@[kr2].src_i, kk2), intersection_at(old(self).intersections@, old(self).roads@[kr2].dst_i, kd2)]
                road_at(old(self).roads@, short_r, kr2) && intersection_at(
                    old(self).intersections@,
                    old(self).roads@[kr2].src_i,
                    kk2,
                ) && intersection_at(old(self).intersections@, old(self).roads@[kr2].dst_i, kd2)
                implies kr2 == kr && kk2 == kk && kd2 == kd by {
                lemma_road_unique(old(self).roads@, short_r, kr2, kr as int);
                lemma_intersection_unique(old(self).intersections@, keep, kk2, kk as int);
                lemma_intersection_unique(old(self).intersections@, destroy, kd2, kd as int);
            }
        }
        if self.intersections[kk].kind == IntersectionType::MapEdge
            || self.intersections[kd].kind == IntersectionType::MapEdge {
            return Err(CollapseError::TouchesMapEdge(short_r));
        }
        if keep == destroy {
            let _gone = self.remove_road(short_r);
            proof {
                let kr2 = choose|kr2: int|
                    road_at(old(self).roads@, short_r, kr2) && _gone == old(self).roads@[kr2]
                        && self.roads@ == old(self).roads@.remove(kr2);
                lemma_road_unique(old(self).roads@, short_r, kr2, kr as int);
            }
            return Ok((keep, keep));
        }
        let ck = roads_without(&self.intersections[kk].roads, short_r);
        let cd = roads_without(&self.intersections[kd].roads, short_r);
        let ghost o_is = self.intersections@;
        let _gone = self.remove_road(short_r);
        proof {
            let kr2 = choose|kr2: int|
                road_at(old(self).roads@, short_r, kr2) && _gone == old(self).roads@[kr2]
                    && self.roads@ == old(self).roads@.remove(kr2);
            lemma_road_unique(old(self).roads@, short_r, kr2, kr as int);
        }
        let ghost mid_is = self.intersections@;
        let ghost rest = self.roads@;
        self.merge_into(kk, kd);
        self.rewrite_all_roads(short_r, keep, destroy, &ck, &cd);
        proof {
            let o = old(self).intersections@;
            assert(mid_is[kk as int].roads@ == ck@);
            assert(mid_is[kd as int].roads@ == cd@);
            assert(same_but_roads(mid_is[kk as int], o[kk as int]));
            assert(same_but_roads(mid_is[kd as int], o[kd as int]));
            assert(rest == old(self).roads@.remove(kr as int));
            let left = o.remove(kd as int);
            assert forall|j: int| 0 <= j < left.len() && left[j].id != keep implies #[trigger] mid_is.remove(kd as int)[j] == left[j] by {
                let jj = if j < kd { j } else { j + 1 };
                assert(left[j] == o[jj]);
                assert(mid_is.remove(kd as int)[j] == mid_is[jj]);
                if o[jj].id == destroy {
                    lemma_intersection_unique(o, destroy, jj, kd as int);
                }
            }
            assert forall|j: int| 0 <= j < left.len() && left[j].id == keep implies j == (if kk < kd { kk as int } else { kk - 1 }) by {
                let jj = if j < kd { j } else { j + 1 };
                assert(left[j] == o[jj]);
                lemma_intersection_unique(o, keep, jj, kk as int);
            }
        }
        Ok((keep, destroy))
    }
}


/// The ends of the road that joins road `k` and road `d` at the intersection they share,
/// keeping the direction of `k`.
pub open spec fn merged_ends(k: Road, d: Road) -> (IntersectionID, IntersectionID) {
    if k.dst_i == d.src_i {
        (k.src_i, d.dst_i)
    } else if k.dst_i == d.dst_i {
        (k.src_i, d.src_i)
    } else if k.src_i == d.src_i {
        (d.dst_i, k.dst_i)
    } else {
        (d.src_i, k.dst_i)
    }
}

pub open spec fn renamed_id(x: RoadID, from: RoadID, to: RoadID) -> RoadID {
    if x == from {
        to
    } else {
        x
    }
}

/// The restrictions, naming road `to` wherever they named road `from`.
pub open spec fn renamed_restrictions(trs: Seq<(RestrictionType, RoadID)>, from: RoadID, to: RoadID) -> Seq<
    (RestrictionType, RoadID),
> {
    trs.map_values(|p: (RestrictionType, RoadID)| (p.0, renamed_id(p.1, from, to)))
}

/// The complicated restrictions, naming road `to` wherever they named road `from`.
pub open spec fn renamed_complicated(cs: Seq<(RoadID, RoadID)>, from: RoadID, to: RoadID) -> Seq<
    (RoadID, RoadID),
> {
    cs.map_values(|p: (RoadID, RoadID)| (renamed_id(p.0, from, to), renamed_id(p.1, from, to)))
}

/// `n` is road `o` with every restriction that named road `from` naming road `to` instead.
pub open spec fn renamed_road(n: Road, o: Road, from: RoadID, to: RoadID) -> bool {
    &&& n.id == o.id
    &&& n.osm_ids == o.osm_ids
    &&& n.src_i == o.src_i
    &&& n.dst_i == o.dst_i
    &&& n.highway_type == o.highway_type
    &&& n.name == o.name
    &&& n.internal_junction_road == o.internal_junction_road
    &&& n.layer == o.layer
    &&& n.reference_line_placement == o.reference_line_placement
    &&& n.lane_specs_ltr == o.lane_specs_ltr
    &&& n.turn_restrictions@ == renamed_restrictions(o.turn_restrictions@, from, to)
    &&& n.complicated_turn_restrictions@ == renamed_complicated(o.complicated_turn_restrictions@, from, to)
}

/// `n` is road `o` merged with road `d`: it keeps its own lanes and attributes, takes over the
/// OSM segments of `d`, runs between the far ends of the two, and its restrictions name `o`
/// wherever they named `d`.
pub open spec fn merged_road(n: Road, o: Road, d: Road) -> bool {
    &&& n.id == o.id
    &&& n.osm_ids@ == o.osm_ids@ + d.osm_ids@
    &&& (n.src_i, n.dst_i) == merged_ends(o, d)
    &&& n.highway_type == o.highway_type
    &&& n.name == o.name
    &&& n.internal_junction_road == o.internal_junction_road
    &&& n.layer == o.layer
    &&& n.reference_line_placement == o.reference_line_placement
    &&& n.lane_specs_ltr == o.lane_specs_ltr
    &&& n.turn_restrictions@ == renamed_restrictions(o.turn_restrictions@, d.id, o.id)
    &&& n.complicated_turn_restrictions@ == renamed_complicated(o.complicated_turn_restrictions@, d.id, o.id)
}

/// Roads `k` and `d` both end at `i` and have three different ends in all.
pub open spec fn three_ends(k: Road, d: Road, i: IntersectionID) -> bool {
    other_end(k, i) != i && other_end(d, i) != i && other_end(k, i) != other_end(d, i)
}

/// Road `r` with every restriction naming `to` where it named `from`.
fn rename_in_road(r: Road, from: RoadID, to: RoadID) -> (n: Road)
    ensures
        renamed_road(n, r, from, to),
{
    let mut r = r;
    let ghost t0 = r.turn_restrictions@;
    let ghost c0 = r.complicated_turn_restrictions@;
    let mut trs: Vec<(RestrictionType, RoadID)> = Vec::new();
    let mut k: usize = 0;
    while k < r.turn_restrictions.len()
        invariant
            t0 == r.turn_restrictions@,
            k <= t0.len(),
            trs@ == renamed_restrictions(t0.subrange(0, k as int), from, to),
        decreases t0.len() - k,
    {
        let (rt, x) = r.turn_restrictions[k];
        let y = if x == from {
            to
        } else {
            x
        };
        trs.push((rt, y));
        proof {
            assert(trs@ =~= renamed_restrictions(t0.subrange(0, k + 1), from, to));
        }
        k = k + 1;
    }
    let mut cs: Vec<(RoadID, RoadID)> = Vec::new();
    let mut k: usize = 0;
    while k < r.complicated_turn_restrictions.len()
        invariant
            c0 == r.complicated_turn_restrictions@,
            k <= c0.len(),
            cs@ == renamed_complicated(c0.subrange(0, k as int), from, to),
        decreases c0.len() - k,
    {
        let (a, b) = r.complicated_turn_restrictions[k];
        let a2 = if a == from {
            to
        } else {
            a
        };
        let b2 = if b == from {
            to
        } else {
            b
        };
        cs.push((a2, b2));
        proof {
            assert(cs@ =~= renamed_complicated(c0.subrange(0, k + 1), from, to));
        }
        k = k + 1;
    }
    proof {
        assert(t0.subrange(0, t0.len() as int) =~= t0);
        assert(c0.subrange(0, c0.len() as int) =~= c0);
    }
    r.turn_restrictions = trs;
    r.complicated_turn_restrictions = cs;
    r
}

impl StreetNetwork {
    /// Renames road `from` to `to` in the restrictions of every road.
    fn rename_in_all_roads(&mut self, from: RoadID, to: RoadID)
        requires
            roads_sorted(old(self).roads@),
        ensures
            roads_sorted(final(self).roads@),
            final(self).roads@.len() == old(self).roads@.len(),
            forall|j: int|
                0 <= j < old(self).roads@.len() ==> renamed_road(
                    #[trigger] final(self).roads@[j],
                    old(self).roads@[j],
                    from,
                    to,
                ),
            final(self).intersections == old(self).intersections,
            final(self).config == old(self).config,
            final(self).road_id_counter == old(self).road_id_counter,
            final(self).intersection_id_counter == old(self).intersection_id_counter,
    {
        let ghost rest = self.roads@;
        let mut j: usize = 0;
        while j < self.roads.len()
            invariant
                j <= self.roads@.len(),
                self.roads@.len() == rest.len(),
                rest == old(self).roads@,
                roads_sorted(rest),
                self.intersections == old(self).intersections,
                self.config == old(self).config,
                self.road_id_counter == old(self).road_id_counter,
                self.intersection_id_counter == old(self).intersection_id_counter,
                forall|x: int| 0 <= x < rest.len() ==> (#[trigger] self.roads@[x]).id == rest[x].id,
                forall|x: int| 0 <= x < j ==> renamed_road(#[trigger] self.roads@[x], rest[x], from, to),
                forall|x: int| j <= x < rest.len() ==> #[trigger] self.roads@[x] == rest[x],
            decreases rest.len() - j,
        {
            let r = self.roads.remove(j);
            let n = rename_in_road(r, from, to);
            self.roads.insert(j, n);
            j = j + 1;
        }
        proof {
            let rs = self.roads@;
            assert forall|a: int, b: int| 0 <= a < b < rs.len() implies (#[trigger] rs[a]).id.0
                < (#[trigger] rs[b]).id.0 by {
                assert(rest[a].id.0 < rest[b].id.0);
            }
        }
    }
}


/// Intersection `is[ki]` can be collapsed: exactly two different roads of the network meet
/// there, both with an end there and both ends present in the network.
pub open spec fn collapsible_at(rs: Seq<Road>, is: Seq<Intersection>, ki: int) -> bool {
    let l = is[ki].roads@;
    let k = road_with_id(rs, l[0]);
    let d = road_with_id(rs, l[1]);
    &&& l.len() == 2
    &&& l[0] != l[1]
    &&& has_road(rs, l[0])
    &&& has_road(rs, l[1])
    &&& k.src_i == is[ki].id || k.dst_i == is[ki].id
    &&& d.src_i == is[ki].id || d.dst_i == is[ki].id
    &&& has_intersection(is, k.src_i)
    &&& has_intersection(is, k.dst_i)
    &&& has_intersection(is, d.src_i)
    &&& has_intersection(is, d.dst_i)
}

/// Road `k` with its ends moved to where the road merged from `k` and `d` runs.
pub open spec fn with_merged_ends(k: Road, d: Road) -> Road {
    Road { src_i: merged_ends(k, d).0, dst_i: merged_ends(k, d).1, ..k }
}

/// In a vector in order of ID, the road found at an index is the one `choose` names.
pub(crate) proof fn lemma_road_with_id_at(rs: Seq<Road>, id: RoadID, k: int)
    requires
        roads_sorted(rs),
        road_at(rs, id, k),
    ensures
        road_with_id(rs, id) == rs[k],
{
    let c = choose|c: int| road_at(rs, id, c);
    lemma_road_unique(rs, id, c, k);
}


/// `(n_rs, n_is)` is the network `(o_rs, o_is)` once intersection `i` is collapsed: where the
/// two roads listed there have three ends in all, the second is gone, the first is joined
/// with it, every other road names the first where it named the second, and the intersection
/// is gone, with each other intersection listing the joined road in place of both; otherwise
/// nothing changes.
pub open spec fn intersection_collapsed(
    o_rs: Seq<Road>,
    o_is: Seq<Intersection>,
    n_rs: Seq<Road>,
    n_is: Seq<Intersection>,
    i: IntersectionID,
) -> bool {
    forall|ki: int|
        #![trigger intersection_at(o_is, i, ki)]
        intersection_at(o_is, i, ki) ==> {
            let l = o_is[ki].roads@;
            let k = road_with_id(o_rs, l[0]);
            let d = road_with_id(o_rs, l[1]);
            let left = o_is.remove(ki);
            &&& !three_ends(k, d, i) ==> n_rs == o_rs && n_is == o_is
            &&& three_ends(k, d, i) ==> (exists|kd: int|
                #![trigger road_at(o_rs, l[1], kd)]
                road_at(o_rs, l[1], kd) && n_rs.len() == o_rs.len() - 1 && forall|j: int|
                    0 <= j < o_rs.len() - 1 ==> if o_rs.remove(kd)[j].id == l[0] {
                        merged_road(#[trigger] n_rs[j], o_rs.remove(kd)[j], d)
                    } else {
                        renamed_road(n_rs[j], o_rs.remove(kd)[j], l[1], l[0])
                    }) && n_is.len() == left.len() && forall|j: int|
                0 <= j < left.len() ==> same_but_roads(#[trigger] n_is[j], left[j])
                    && n_is[j].roads@ == with_road_added(
                    with_road_removed(with_road_removed(left[j].roads@, left[j].id, k), left[j].id, d),
                    left[j].id,
                    with_merged_ends(k, d),
                )
        }
}


impl StreetNetwork {
    /// Deletes intersection `i`, where exactly two roads meet, and joins the two roads into the
    /// first one listed there, which keeps its lanes, attributes and direction, takes over the
    /// OSM segments of the second, runs between the far ends of the two, and is listed at
    /// those ends in place of both; restrictions that named the second road name the first.
    /// Where the two roads have fewer than three ends in all (a loop), nothing changes. The
    /// geometry of the joined road is left to the caller.
    #[verifier::rlimit(80)]
    pub fn collapse_intersection(&mut self, i: IntersectionID)
        requires
            old(self).wf(),
            exists|ki: int|
                intersection_at(old(self).intersections@, i, ki) && #[trigger] collapsible_at(
                    old(self).roads@,
                    old(self).intersections@,
                    ki,
                ),
        ensures
            final(self).wf(),
            final(self).config == old(self).config,
            final(self).road_id_counter == old(self).road_id_counter,
            final(self).intersection_id_counter == old(self).intersection_id_counter,
            intersection_collapsed(
                old(self).roads@,
                old(self).intersections@,
                final(self).roads@,
                final(self).intersections@,
                i,
            ),
    {
        let ghost o_rs = self.roads@;
        let ghost o_is = self.intersections@;
        let ki = self.intersection_index(i).unwrap();
        proof {
            assert forall|ki2: int| intersection_at(o_is, i, ki2) implies ki2 == ki by {
                lemma_intersection_unique(o_is, i, ki2, ki as int);
            }
            assert(collapsible_at(o_rs, o_is, ki as int));
        }
        let keep_r = self.intersections[ki].roads[0];
        let destroy_r = self.intersections[ki].roads[1];
        let kk = self.road_index(keep_r).unwrap();
        let kd = self.road_index(destroy_r).unwrap();
        proof {
            lemma_road_with_id_at(o_rs, keep_r, kk as int);
            lemma_road_with_id_at(o_rs, destroy_r, kd as int);
        }
        let ghost k = o_rs[kk as int];
        let ghost d = o_rs[kd as int];
        let x = self.roads[kk].other_side(i);
        let y = self.roads[kd].other_side(i);
        if x == i || y == i || x == y {
            return;
        }
        let k_src = self.roads[kk].src_i;
        let k_dst = self.roads[kk].dst_i;
        let d_src = self.roads[kd].src_i;
        let d_dst = self.roads[kd].dst_i;
        // New ends, keeping the direction of the kept road.
        let (new_src, new_dst) = if k_dst == d_src {
            (k_src, d_dst)
        } else if k_dst == d_dst {
            (k_src, d_src)
        } else if k_src == d_src {
            (d_dst, k_dst)
        } else {
            (d_src, k_dst)
        };
        let mut gone = self.detach_pair(ki, kk, kd, i);
        let ghost rest = self.roads@;
        let kk2: usize = if kk < kd {
            kk
        } else {
            kk - 1
        };
        proof {
            assert(rest[kk2 as int] == k);
            assert((new_src, new_dst) == merged_ends(k, d));
            let a1 = choose|a1: int| intersection_at(o_is, new_src, a1);
            let a2 = choose|a2: int| intersection_at(o_is, new_dst, a2);
            assert(new_src != i && new_dst != i && new_src != new_dst);
        }
        self.attach_joined(kk2, &mut gone, new_src, new_dst);
        let ghost joined = self.roads@;
        // Rename the removed road in every restriction.
        self.rename_in_all_roads(destroy_r, keep_r);
        proof {
            let left = o_is.remove(ki as int);
            let fr = self.roads@;
            assert forall|j: int|
                0 <= j < o_rs.len() - 1 implies if o_rs.remove(kd as int)[j].id == keep_r {
                    merged_road(#[trigger] fr[j], o_rs.remove(kd as int)[j], d)
                } else {
                    renamed_road(fr[j], o_rs.remove(kd as int)[j], destroy_r, keep_r)
                } by {
                assert(o_rs.remove(kd as int)[j] == rest[j]);
                if j == kk2 {
                } else {
                    assert(joined[j] == rest[j]);
                    if rest[j].id == keep_r {
                        lemma_road_unique(rest, keep_r, j, kk2 as int);
                    }
                }
            }
            assert(road_at(o_rs, destroy_r, kd as int));
        }
    }
}


impl StreetNetwork {
    /// Takes road `kk` out of the lists at its ends, removes road `kd`, and removes the
    /// intersection at index `ki`. Returns the removed road.
    #[verifier::rlimit(60)]
    fn detach_pair(&mut self, ki: usize, kk: usize, kd: usize, i: IntersectionID) -> (gone: Road)
        requires
            old(self).wf(),
            intersection_at(old(self).intersections@, i, ki as int),
            kk < old(self).roads@.len(),
            kd < old(self).roads@.len(),
            kk != kd,
            three_ends(old(self).roads@[kk as int], old(self).roads@[kd as int], i),
            old(self).roads@[kk as int].src_i == i || old(self).roads@[kk as int].dst_i == i,
            old(self).roads@[kd as int].src_i == i || old(self).roads@[kd as int].dst_i == i,
            has_intersection(old(self).intersections@, old(self).roads@[kk as int].src_i),
            has_intersection(old(self).intersections@, old(self).roads@[kk as int].dst_i),
            has_intersection(old(self).intersections@, old(self).roads@[kd as int].src_i),
            has_intersection(old(self).intersections@, old(self).roads@[kd as int].dst_i),
        ensures
            final(self).wf(),
            final(self).config == old(self).config,
            final(self).road_id_counter == old(self).road_id_counter,
            final(self).intersection_id_counter == old(self).intersection_id_counter,
            gone == old(self).roads@[kd as int],
            final(self).roads@ == old(self).roads@.remove(kd as int),
            final(self).intersections@.len() == old(self).intersections@.len() - 1,
            forall|j: int|
                0 <= j < final(self).intersections@.len() ==> same_but_roads(
                    #[trigger] final(self).intersections@[j],
                    old(self).intersections@.remove(ki as int)[j],
                ) && final(self).intersections@[j].roads@ == with_road_removed(
                    with_road_removed(
                        old(self).intersections@.remove(ki as int)[j].roads@,
                        old(self).intersections@.remove(ki as int)[j].id,
                        old(self).roads@[kk as int],
                    ),
                    old(self).intersections@.remove(ki as int)[j].id,
                    old(self).roads@[kd as int],
                ),
            forall|id: IntersectionID|
                id != i && #[trigger] has_intersection(old(self).intersections@, id) ==> has_intersection(
                    final(self).intersections@,
                    id,
                ),
    {
        let ghost o_rs = self.roads@;
        let ghost o_is = self.intersections@;
        let ghost k = o_rs[kk as int];
        let ghost d = o_rs[kd as int];
        let keep_r = self.roads[kk].id;
        let destroy_r = self.roads[kd].id;
        let k_src = self.roads[kk].src_i;
        let k_dst = self.roads[kk].dst_i;
        let ks = self.intersection_index(k_src).unwrap();
        self.drop_road_from(ks, keep_r);
        proof {
            crate::network::lemma_same_ids_wf(o_is, self.intersections@, self.intersection_counter());
            let w = choose|w: int| intersection_at(o_is, k_dst, w);
            assert(intersection_at(self.intersections@, k_dst, w));
        }
        let ghost is_a1 = self.intersections@;
        let kt = self.intersection_index(k_dst).unwrap();
        self.drop_road_from(kt, keep_r);
        proof {
            crate::network::lemma_same_ids_wf(is_a1, self.intersections@, self.intersection_counter());
        }
        let ghost is_a = self.intersections@;
        proof {
            assert(ks != kt);
            assert forall|j: int| 0 <= j < is_a.len() implies same_but_roads(#[trigger] is_a[j], o_is[j])
                && is_a[j].roads@ == with_road_removed(o_is[j].roads@, o_is[j].id, k) by {
                if j != ks {
                    assert(o_is[j].id != k_src);
                }
                if j != kt {
                    assert(is_a1[j].id != k_dst);
                }
            }
            assert(has_intersection(is_a, d.src_i) && has_intersection(is_a, d.dst_i)) by {
                let a = choose|a: int| intersection_at(o_is, d.src_i, a);
                let b = choose|b: int| intersection_at(o_is, d.dst_i, b);
                assert(intersection_at(is_a, d.src_i, a));
                assert(intersection_at(is_a, d.dst_i, b));
            }
            assert(road_at(self.roads@, destroy_r, kd as int));
        }
        let gone = self.remove_road(destroy_r);
        let ghost is_b = self.intersections@;
        proof {
            let kd2 = choose|kd2: int|
                road_at(o_rs, destroy_r, kd2) && gone == o_rs[kd2] && self.roads@ == o_rs.remove(kd2);
            lemma_road_unique(o_rs, destroy_r, kd2, kd as int);
        }
        let _dead = self.intersections.remove(ki);
        proof {
            lemma_remove_keeps_order(is_b, ki as int, self.intersection_counter());
            let fi = self.intersections@;
            let left = o_is.remove(ki as int);
            assert forall|j: int| 0 <= j < fi.len() implies same_but_roads(#[trigger] fi[j], left[j])
                && fi[j].roads@ == with_road_removed(with_road_removed(left[j].roads@, left[j].id, k), left[j].id, d) by {
                let jj = if j < ki { j } else { j + 1 };
                assert(left[j] == o_is[jj]);
                assert(fi[j] == is_b[jj]);
            }
            assert forall|id: IntersectionID|
                id != i && #[trigger] has_intersection(o_is, id) implies has_intersection(fi, id) by {
                let w = choose|w: int| intersection_at(o_is, id, w);
                assert(w != ki);
                if w < ki {
                    assert(intersection_at(fi, id, w));
                } else {
                    assert(fi[w - 1] == is_b[w]);
                    assert(intersection_at(fi, id, w - 1));
                }
            }
        }
        gone
    }

    /// Joins road `gone` into the road at index `kk`: it takes over the OSM segments of `gone`,
    /// runs from `new_src` to `new_dst`, and is listed there.
    #[verifier::rlimit(60)]
    fn attach_joined(&mut self, kk: usize, gone: &mut Road, new_src: IntersectionID, new_dst: IntersectionID)
        requires
            old(self).wf(),
            kk < old(self).roads@.len(),
            has_intersection(old(self).intersections@, new_src),
            has_intersection(old(self).intersections@, new_dst),
            new_src != new_dst,
        ensures
            final(self).wf(),
            final(self).config == old(self).config,
            final(self).road_id_counter == old(self).road_id_counter,
            final(self).intersection_id_counter == old(self).intersection_id_counter,
            final(self).roads@.len() == old(self).roads@.len(),
            forall|j: int| 0 <= j < final(self).roads@.len() && j != kk ==> #[trigger] final(self).roads@[j] == old(self).roads@[j],
            ({
                let o = old(self).roads@[kk as int];
                let n = final(self).roads@[kk as int];
                &&& n.id == o.id
                &&& n.osm_ids@ == o.osm_ids@ + old(gone).osm_ids@
                &&& n.src_i == new_src
                &&& n.dst_i == new_dst
                &&& n.highway_type == o.highway_type
                &&& n.name == o.name
                &&& n.internal_junction_road == o.internal_junction_road
                &&& n.layer == o.layer
                &&& n.reference_line_placement == o.reference_line_placement
                &&& n.lane_specs_ltr == o.lane_specs_ltr
                &&& n.turn_restrictions == o.turn_restrictions
                &&& n.complicated_turn_restrictions == o.complicated_turn_restrictions
            }),
            final(self).intersections@.len() == old(self).intersections@.len(),
            forall|j: int|
                0 <= j < final(self).intersections@.len() ==> same_but_roads(
                    #[trigger] final(self).intersections@[j],
                    old(self).intersections@[j],
                ) && final(self).intersections@[j].roads@ == with_road_added(
                    old(self).intersections@[j].roads@,
                    old(self).intersections@[j].id,
                    Road { src_i: new_src, dst_i: new_dst, ..old(self).roads@[kk as int] },
                ),
    {
        let ghost o_rs = self.roads@;
        let ghost o_is = self.intersections@;
        let mut kept = self.roads.remove(kk);
        let keep_r = kept.id;
        kept.osm_ids.append(&mut gone.osm_ids);
        kept.src_i = new_src;
        kept.dst_i = new_dst;
        self.roads.insert(kk, kept);
        proof {
            let rs = self.roads@;
            assert forall|a: int, b: int| 0 <= a < b < rs.len() implies (#[trigger] rs[a]).id.0
                < (#[trigger] rs[b]).id.0 by {
                assert(o_rs[a].id.0 < o_rs[b].id.0);
            }
        }
        let kn1 = self.intersection_index(new_src).unwrap();
        self.push_road_to(kn1, keep_r);
        proof {
            crate::network::lemma_same_ids_wf(o_is, self.intersections@, self.intersection_counter());
            let w = choose|w: int| intersection_at(o_is, new_dst, w);
            assert(intersection_at(self.intersections@, new_dst, w));
        }
        let ghost is_c1 = self.intersections@;
        let kn2 = self.intersection_index(new_dst).unwrap();
        self.push_road_to(kn2, keep_r);
        proof {
            crate::network::lemma_same_ids_wf(is_c1, self.intersections@, self.intersection_counter());
            let nk = Road { src_i: new_src, dst_i: new_dst, ..o_rs[kk as int] };
            let fi = self.intersections@;
            assert forall|j: int| 0 <= j < fi.len() implies same_but_roads(#[trigger] fi[j], o_is[j])
                && fi[j].roads@ == with_road_added(o_is[j].roads@, o_is[j].id, nk) by {
                if j != kn1 {
                    assert(o_is[j].id != new_src);
                }
                if j != kn2 {
                    assert(is_c1[j].id != new_dst);
                }
            }
        }
    }
}

} // verus!

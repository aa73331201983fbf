//! A first guess at how complex an intersection is, from the movements that its driveable roads
//! allow and how those movements conflict.
use vstd::prelude::*;

use crate::block::{road_is_driveable, road_with_id};
use crate::classify::{calc_conflict, conflict_rank, spec_calc_conflict, worse_conflict, ConflictType};
use crate::ids::{IntersectionID, RoadID};
use crate::network::{has_road, intersection_at, road_at, StreetNetwork};
use crate::road::{spec_allowed_to_turn_to, spec_can_drive_into_end, spec_can_drive_out_of_end, Road};

verus! {

/// How complex an intersection is.
#[derive(Clone, Copy, Debug, PartialEq, Eq, Structural)]
pub enum IntersectionComplexity {
    /// A single road ends here.
    Terminus,
    /// Two roads meet, and no movement crosses another.
    Connection,
    /// More roads meet, and no movement crosses another.
    MultiConnection,
    /// Some movement crosses another.
    Crossing,
}

/// The driveable roads among those listed as `ids`, in order.
pub open spec fn driveable_roads(rs: Seq<Road>, ids: Seq<RoadID>) -> Seq<Road>
    decreases ids.len(),
{
    if ids.len() == 0 {
        Seq::empty()
    } else {
        let prev = driveable_roads(rs, ids.drop_last());
        let r = road_with_id(rs, ids.last());
        if road_is_driveable(r) {
            prev.push(r)
        } else {
            prev
        }
    }
}

/// Traffic can go at intersection `i` from road `s` to another road `d`: it can leave `s` and
/// enter `d` there, and the turn restrictions of `s` allow it.
pub open spec fn movement_allowed(drv: Seq<Road>, i: IntersectionID, s: int, d: int) -> bool {
    &&& s != d
    &&& spec_can_drive_out_of_end(drv[s], i)
    &&& spec_can_drive_into_end(drv[d], i)
    &&& spec_allowed_to_turn_to(drv[s].turn_restrictions@, drv[d].id)
}

/// The allowed movements from road `s` onto the roads before `d`, in order.
pub open spec fn movements_from(drv: Seq<Road>, i: IntersectionID, s: int, d: int) -> Seq<
    (usize, usize),
>
    decreases d,
{
    if d <= 0 {
        Seq::empty()
    } else {
        let prev = movements_from(drv, i, s, d - 1);
        if movement_allowed(drv, i, s, d - 1) {
            prev.push((s as usize, (d - 1) as usize))
        } else {
            prev
        }
    }
}

/// The allowed movements from the roads before `s`, ordered by source, then destination.
pub open spec fn movements_upto(drv: Seq<Road>, i: IntersectionID, s: int) -> Seq<(usize, usize)>
    decreases s,
{
    if s <= 0 {
        Seq::empty()
    } else {
        movements_upto(drv, i, s - 1) + movements_from(drv, i, s - 1, drv.len() as int)
    }
}

/// All allowed movements between the roads `drv`, by their places in the list, but U-turns.
pub open spec fn spec_movements(drv: Seq<Road>, i: IntersectionID) -> Seq<(usize, usize)> {
    movements_upto(drv, i, drv.len() as int)
}

pub open spec fn pair_conflict(c: Seq<(usize, usize)>, p: int, q: int, side: crate::types::DrivingSide) -> ConflictType {
    spec_calc_conflict((c[p].0 as int, c[p].1 as int), (c[q].0 as int, c[q].1 as int), side)
}

/// `w` is the most severe conflict between two of the movements `c`, or `Uncontested` when
/// there are no two.
pub open spec fn is_worst_conflict(c: Seq<(usize, usize)>, side: crate::types::DrivingSide, w: ConflictType) -> bool {
    &&& forall|p: int, q: int|
        0 <= p < q < c.len() ==> conflict_rank(#[trigger] pair_conflict(c, p, q, side)) <= conflict_rank(
            w,
        )
    &&& (w == ConflictType::Uncontested || exists|p: int, q: int|
        0 <= p < q < c.len() && #[trigger] pair_conflict(c, p, q, side) == w)
}

/// The movements, by the IDs of their roads.
pub open spec fn movement_ids(drv: Seq<Road>, c: Seq<(usize, usize)>) -> Seq<(RoadID, RoadID)> {
    c.map_values(|m: (usize, usize)| (drv[m.0 as int].id, drv[m.1 as int].id))
}

/// The complexity that the worst conflict and the number of driveable roads give.
pub open spec fn spec_complexity(n: nat, worst: ConflictType) -> IntersectionComplexity {
    if n == 1 {
        IntersectionComplexity::Terminus
    } else if worst == ConflictType::Cross {
        IntersectionComplexity::Crossing
    } else if n == 2 {
        IntersectionComplexity::Connection
    } else {
        IntersectionComplexity::MultiConnection
    }
}

impl StreetNetwork {
    /// The indices, into `self.roads`, of the driveable roads listed at the intersection at
    /// index `ki`, in order.
    fn driveable_indices(&self, ki: usize) -> (r: Vec<usize>)
        requires
            self.wf(),
            ki < self.intersections@.len(),
            forall|j: int|
                0 <= j < self.intersections@[ki as int].roads@.len() ==> has_road(
                    self.roads@,
                    #[trigger] self.intersections@[ki as int].roads@[j],
                ),
        ensures
            forall|k: int| 0 <= k < r@.len() ==> (#[trigger] r@[k]) < self.roads@.len(),
            r@.map_values(|k: usize| self.roads@[k as int]) == driveable_roads(
                self.roads@,
                self.intersections@[ki as int].roads@,
            ),
    {
        let ghost rs = self.roads@;
        let ids = &self.intersections[ki].roads;
        let mut r: Vec<usize> = Vec::new();
        let mut j: usize = 0;
        while j < ids.len()
            invariant
                self.wf(),
                rs == self.roads@,
                ids == &self.intersections@[ki as int].roads,
                j <= ids@.len(),
                forall|x: int| 0 <= x < ids@.len() ==> has_road(rs, #[trigger] ids@[x]),
                forall|k: int| 0 <= k < r@.len() ==> (#[trigger] r@[k]) < rs.len(),
                r@.map_values(|k: usize| rs[k as int]) == driveable_roads(
                    rs,
                    ids@.subrange(0, j as int),
                ),
            decreases ids@.len() - j,
        {
            let ghost before = r@;
            proof {
                assert(ids@.subrange(0, j + 1).drop_last() =~= ids@.subrange(0, j as int));
                assert(ids@.subrange(0, j + 1).last() == ids@[j as int]);
                assert(has_road(rs, ids@[j as int]));
            }
            let k = self.road_index(ids[j]).unwrap();
            proof {
                let c = choose|c: int| road_at(rs, ids@[j as int], c);
                if c != k {
                    if c < k {
                        assert(rs[c].id.0 < rs[k as int].id.0);
                    } else {
                        assert(rs[k as int].id.0 < rs[c].id.0);
                    }
                }
                assert(road_with_id(rs, ids@[j as int]) == rs[k as int]);
            }
            if self.roads[k].is_driveable() {
                r.push(k);
                proof {
                    assert(r@.map_values(|k: usize| rs[k as int]) =~= before.map_values(
                        |k: usize| rs[k as int],
                    ).push(rs[k as int]));
                }
            }
            j = j + 1;
        }
        proof {
            assert(ids@.subrange(0, ids@.len() as int) =~= ids@);
        }
        r
    }

    /// Guesses how complex intersection `i` is from its driveable roads: a terminus where only
    /// one meets, else by the worst conflict between two allowed movements (all pairs of
    /// different roads that traffic may leave and enter there, and that the turn restrictions
    /// allow). Returns the complexity, the worst conflict and the movements by road IDs.
    pub fn guess_complexity(&self, i: IntersectionID) -> (r: (
        IntersectionComplexity,
        ConflictType,
        Vec<(RoadID, RoadID)>,
    ))
        requires
            self.wf(),
            exists|ki: int|
                intersection_at(self.intersections@, i, ki) && forall|j: int|
                    0 <= j < (#[trigger] self.intersections@[ki]).roads@.len() ==> has_road(
                        self.roads@,
                        self.intersections@[ki].roads@[j],
                    ),
        ensures
            forall|ki: int|
                #![trigger intersection_at(self.intersections@, i, ki)]
                intersection_at(self.intersections@, i, ki) ==> {
                    let drv = driveable_roads(self.roads@, self.intersections@[ki].roads@);
                    let c = spec_movements(drv, i);
                    &&& drv.len() == 1 ==> r.0 == IntersectionComplexity::Terminus && r.1
                        == ConflictType::Uncontested && r.2@.len() == 0
                    &&& drv.len() != 1 ==> is_worst_conflict(c, self.config.driving_side, r.1)
                        && r.0 == spec_complexity(drv.len(), r.1) && r.2@ == movement_ids(drv, c)
                },
    {
        let ki = self.intersection_index(i).unwrap();
        proof {
            assert forall|ki2: int| #[trigger] intersection_at(self.intersections@, i, ki2) implies ki2
                == ki by {
                if ki2 < ki {
                    assert(self.intersections@[ki2].id.0 < self.intersections@[ki as int].id.0);
                } else if ki < ki2 {
                    assert(self.intersections@[ki as int].id.0 < self.intersections@[ki2].id.0);
                }
            }
        }
        let drv = self.driveable_indices(ki);
        let ghost dv = drv@.map_values(|k: usize| self.roads@[k as int]);
        if drv.len() == 1 {
            return (IntersectionComplexity::Terminus, ConflictType::Uncontested, Vec::new());
        }
        let conns = self.movements(&drv, i);
        let worst = worst_conflict(&conns, self.config.driving_side);
        let mut ids: Vec<(RoadID, RoadID)> = Vec::new();
        let mut k: usize = 0;
        while k < conns.len()
            invariant
                k <= conns@.len(),
                conns@ == spec_movements(dv, i),
                dv == drv@.map_values(|k: usize| self.roads@[k as int]),
                forall|x: int| 0 <= x < drv@.len() ==> (#[trigger] drv@[x]) < self.roads@.len(),
                forall|x: int|
                    0 <= x < conns@.len() ==> (#[trigger] conns@[x]).0 < drv@.len() && conns@[x].1
                        < drv@.len(),
                ids@ == movement_ids(dv, conns@.subrange(0, k as int)),
            decreases conns@.len() - k,
        {
            let (s, d) = conns[k];
            let a = self.roads[drv[s]].id;
            let b = self.roads[drv[d]].id;
            proof {
                assert(movement_ids(dv, conns@.subrange(0, k + 1)) =~= movement_ids(
                    dv,
                    conns@.subrange(0, k as int),
                ).push((a, b)));
            }
            ids.push((a, b));
            k = k + 1;
        }
        proof {
            assert(conns@.subrange(0, conns@.len() as int) =~= conns@);
        }
        let complexity = if worst == ConflictType::Cross {
            IntersectionComplexity::Crossing
        } else if drv.len() == 2 {
            IntersectionComplexity::Connection
        } else {
            IntersectionComplexity::MultiConnection
        };
        (complexity, worst, ids)
    }

    /// The allowed movements between the roads at indices `drv`, met at intersection `i`.
    fn movements(&self, drv: &Vec<usize>, i: IntersectionID) -> (c: Vec<(usize, usize)>)
        requires
            forall|x: int| 0 <= x < drv@.len() ==> (#[trigger] drv@[x]) < self.roads@.len(),
        ensures
            c@ == spec_movements(drv@.map_values(|k: usize| self.roads@[k as int]), i),
            forall|x: int|
                0 <= x < c@.len() ==> (#[trigger] c@[x]).0 < drv@.len() && c@[x].1 < drv@.len(),
    {
        let ghost dv = drv@.map_values(|k: usize| self.roads@[k as int]);
        let n = drv.len();
        let mut c: Vec<(usize, usize)> = Vec::new();
        let mut s: usize = 0;
        while s < n
            invariant
                n == drv@.len(),
                dv.len() == n,
                dv == drv@.map_values(|k: usize| self.roads@[k as int]),
                forall|x: int| 0 <= x < drv@.len() ==> (#[trigger] drv@[x]) < self.roads@.len(),
                s <= n,
                c@ == movements_upto(dv, i, s as int),
                forall|x: int| 0 <= x < c@.len() ==> (#[trigger] c@[x]).0 < n && c@[x].1 < n,
            decreases n - s,
        {
            let ghost base = c@;
            let mut d: usize = 0;
            while d < n
                invariant
                    n == drv@.len(),
                    dv.len() == n,
                    dv == drv@.map_values(|k: usize| self.roads@[k as int]),
                    forall|x: int| 0 <= x < drv@.len() ==> (#[trigger] drv@[x]) < self.roads@.len(),
                    s < n,
                    d <= n,
                    c@ == base + movements_from(dv, i, s as int, d as int),
                    forall|x: int| 0 <= x < c@.len() ==> (#[trigger] c@[x]).0 < n && c@[x].1 < n,
                decreases n - d,
            {
                let src = &self.roads[drv[s]];
                let dst = &self.roads[drv[d]];
                proof {
                    assert(dv[s as int] == *src);
                    assert(dv[d as int] == *dst);
                }
                if s != d && src.can_drive_out_of_end(i) && dst.can_drive_into_end(i)
                    && src.allowed_to_turn_to(dst.id) {
                    c.push((s, d));
                    proof {
                        assert(c@ =~= base + movements_from(dv, i, s as int, d + 1));
                    }
                }
                d = d + 1;
            }
            s = s + 1;
        }
        c
    }
}

/// The most severe conflict between two of the movements `c`, each pair compared once with the
/// earlier movement first.
pub fn worst_conflict(c: &Vec<(usize, usize)>, side: crate::types::DrivingSide) -> (w: ConflictType)
    ensures
        is_worst_conflict(c@, side, w),
{
    let mut w = ConflictType::Uncontested;
    let mut p: usize = 0;
    while p < c.len()
        invariant
            p <= c@.len(),
            forall|x: int, y: int|
                0 <= x < p && x < y < c@.len() ==> conflict_rank(
                    #[trigger] pair_conflict(c@, x, y, side),
                ) <= conflict_rank(w),
            w == ConflictType::Uncontested || exists|x: int, y: int|
                0 <= x < y < c@.len() && #[trigger] pair_conflict(c@, x, y, side) == w,
        decreases c@.len() - p,
    {
        let mut q: usize = p + 1;
        while q < c.len()
            invariant
                p < c@.len(),
                p + 1 <= q <= c@.len(),
                forall|x: int, y: int|
                    0 <= x < p && x < y < c@.len() ==> conflict_rank(
                        #[trigger] pair_conflict(c@, x, y, side),
                    ) <= conflict_rank(w),
                forall|y: int|
                    p < y < q ==> conflict_rank(#[trigger] pair_conflict(c@, p as int, y, side))
                        <= conflict_rank(w),
                w == ConflictType::Uncontested || exists|x: int, y: int|
                    0 <= x < y < c@.len() && #[trigger] pair_conflict(c@, x, y, side) == w,
            decreases c@.len() - q,
        {
            let conflict = calc_conflict(&c[p], &c[q], side);
            proof {
                assert(conflict == pair_conflict(c@, p as int, q as int, side));
            }
            w = worse_conflict(w, conflict);
            q = q + 1;
        }
        p = p + 1;
    }
    w
}

} // verus!

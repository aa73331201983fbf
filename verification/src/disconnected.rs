//! Removing the roads that are disconnected from the largest connected group of roads, and the
//! loops and the empty intersections that are left.
use vstd::prelude::*;

use crate::ids::RoadID;
use crate::lanes::LaneType;
use crate::network::{has_intersection, road_at, Intersection, StreetNetwork};
use crate::road::{road_lanes, Road};

verus! {

/// Every lane of the road is light rail (a road without lanes counts too).
pub open spec fn road_is_light_rail(r: Road) -> bool {
    forall|i: int| 0 <= i < road_lanes(r).len() ==> (#[trigger] road_lanes(r)[i]).lt == LaneType::LightRail
}

/// The road at index `k` is part of the road graph: it exists and is not light rail.
pub open spec fn in_graph(rs: Seq<Road>, k: int) -> bool {
    0 <= k < rs.len() && !road_is_light_rail(rs[k])
}

/// The two roads have an end at the same intersection.
pub open spec fn share_end(a: Road, b: Road) -> bool {
    a.src_i == b.src_i || a.src_i == b.dst_i || a.dst_i == b.src_i || a.dst_i == b.dst_i
}

/// The roads at indices `a` and `b` are in the graph and meet at an intersection.
pub open spec fn adjacent(rs: Seq<Road>, a: int, b: int) -> bool {
    in_graph(rs, a) && in_graph(rs, b) && share_end(rs[a], rs[b])
}

/// `p` is a walk through the graph, from road to meeting road.
pub open spec fn is_path(rs: Seq<Road>, p: Seq<int>) -> bool {
    &&& p.len() > 0
    &&& in_graph(rs, p[0])
    &&& forall|j: int| 0 <= j < p.len() - 1 ==> adjacent(rs, #[trigger] p[j], p[j + 1])
}

/// Road `b` can be reached from road `a` through meeting roads of the graph.
pub open spec fn reaches(rs: Seq<Road>, a: int, b: int) -> bool {
    exists|p: Seq<int>| #[trigger] is_path(rs, p) && p[0] == a && p.last() == b
}

/// The roads connected to road `a`, by index.
pub open spec fn component(rs: Seq<Road>, a: int) -> Set<int> {
    Set::new(|b: int| reaches(rs, a, b))
}

/// Every intersection lists a road of the network exactly when the road has an end there.
pub open spec fn lists_match_ends(rs: Seq<Road>, is: Seq<Intersection>) -> bool {
    forall|j: int, k: int|
        0 <= j < is.len() && 0 <= k < rs.len() ==> (is[j].roads@.contains(#[trigger] rs[k].id) <==> (
        rs[k].src_i == (#[trigger] is[j]).id || rs[k].dst_i == is[j].id))
}

/// Every road's ends are intersections of the network.
pub open spec fn ends_present(rs: Seq<Road>, is: Seq<Intersection>) -> bool {
    forall|k: int|
        0 <= k < rs.len() ==> has_intersection(is, (#[trigger] rs[k]).src_i) && has_intersection(
            is,
            rs[k].dst_i,
        )
}

/// Some road of `A` comes before every road of `B`.
pub open spec fn starts_before(a: Set<int>, b: Set<int>) -> bool {
    exists|y: int| #[trigger] a.contains(y) && forall|x: int| #[trigger] b.contains(x) ==> y < x
}

/// The group of roads connected to `c` is the one that survives: no other group is larger, and
/// of those as large, it starts with the last road.
pub open spec fn is_largest_component(rs: Seq<Road>, c: int) -> bool {
    &&& in_graph(rs, c)
    &&& forall|a: int|
        #![trigger component(rs, a)]
        in_graph(rs, a) ==> component(rs, a) == component(rs, c) || component(rs, a).len()
            < component(rs, c).len() || (component(rs, a).len() == component(rs, c).len()
            && starts_before(component(rs, a), component(rs, c)))
}

pub proof fn lemma_reach_refl(rs: Seq<Road>, a: int)
    requires
        in_graph(rs, a),
    ensures
        reaches(rs, a, a),
{
    let p = seq![a];
    assert(is_path(rs, p));
}

pub proof fn lemma_reach_step(rs: Seq<Road>, a: int, b: int, c: int)
    requires
        reaches(rs, a, b),
        adjacent(rs, b, c),
    ensures
        reaches(rs, a, c),
{
    let p = choose|p: Seq<int>| #[trigger] is_path(rs, p) && p[0] == a && p.last() == b;
    let q = p.push(c);
    assert forall|j: int| 0 <= j < q.len() - 1 implies adjacent(rs, #[trigger] q[j], q[j + 1]) by {
        if j < p.len() - 1 {
            assert(q[j] == p[j] && q[j + 1] == p[j + 1]);
        } else {
            assert(q[j] == b);
        }
    }
    assert(is_path(rs, q));
}

pub proof fn lemma_reach_symm(rs: Seq<Road>, a: int, b: int)
    requires
        reaches(rs, a, b),
    ensures
        reaches(rs, b, a),
{
    let p = choose|p: Seq<int>| #[trigger] is_path(rs, p) && p[0] == a && p.last() == b;
    let q = p.reverse();
    assert forall|j: int| 0 <= j < q.len() - 1 implies adjacent(rs, #[trigger] q[j], q[j + 1]) by {
        let i = p.len() - 2 - j;
        assert(adjacent(rs, p[i], p[i + 1]));
        assert(q[j] == p[i + 1]);
        assert(q[j + 1] == p[i]);
    }
    if p.len() > 1 {
        assert(adjacent(rs, p[p.len() - 2], p[p.len() - 1]));
    }
    assert(q[0] == p.last());
    assert(is_path(rs, q));
}

proof fn lemma_path_ends_in_graph(rs: Seq<Road>, p: Seq<int>)
    requires
        is_path(rs, p),
    ensures
        in_graph(rs, p.last()),
{
    if p.len() > 1 {
        assert(adjacent(rs, p[p.len() - 2], p[p.len() - 1]));
    }
}

pub proof fn lemma_reach_in_graph(rs: Seq<Road>, a: int, b: int)
    requires
        reaches(rs, a, b),
    ensures
        in_graph(rs, a),
        in_graph(rs, b),
{
    let p = choose|p: Seq<int>| #[trigger] is_path(rs, p) && p[0] == a && p.last() == b;
    lemma_path_ends_in_graph(rs, p);
}

pub proof fn lemma_reach_trans(rs: Seq<Road>, a: int, b: int, c: int)
    requires
        reaches(rs, a, b),
        reaches(rs, b, c),
    ensures
        reaches(rs, a, c),
    decreases 0int,
{
    let q = choose|q: Seq<int>| #[trigger] is_path(rs, q) && q[0] == b && q.last() == c;
    lemma_reach_along(rs, a, q, q.len() as int);
}

/// Following the first `n` roads of a path from a reached road reaches its `n`-th road.
proof fn lemma_reach_along(rs: Seq<Road>, a: int, q: Seq<int>, n: int)
    requires
        is_path(rs, q),
        reaches(rs, a, q[0]),
        1 <= n <= q.len(),
    ensures
        reaches(rs, a, q[n - 1]),
    decreases n,
{
    if n > 1 {
        lemma_reach_along(rs, a, q, n - 1);
        assert(adjacent(rs, q[n - 2], q[n - 1]));
        lemma_reach_step(rs, a, q[n - 2], q[n - 1]);
    }
}

/// A set of roads that is closed under meeting holds every road reached from one of its own.
pub proof fn lemma_closed_holds_reached(rs: Seq<Road>, s: Set<int>, a: int, b: int)
    requires
        s.contains(a),
        forall|x: int, y: int| #[trigger] s.contains(x) && adjacent(rs, x, y) ==> #[trigger] s.contains(y),
        reaches(rs, a, b),
    ensures
        s.contains(b),
{
    let p = choose|p: Seq<int>| #[trigger] is_path(rs, p) && p[0] == a && p.last() == b;
    lemma_closed_holds_path(rs, s, p, p.len() as int);
}

proof fn lemma_closed_holds_path(rs: Seq<Road>, s: Set<int>, p: Seq<int>, n: int)
    requires
        is_path(rs, p),
        s.contains(p[0]),
        forall|x: int, y: int| #[trigger] s.contains(x) && adjacent(rs, x, y) ==> #[trigger] s.contains(y),
        1 <= n <= p.len(),
    ensures
        s.contains(p[n - 1]),
    decreases n,
{
    if n > 1 {
        lemma_closed_holds_path(rs, s, p, n - 1);
        assert(adjacent(rs, p[n - 2], p[n - 1]));
    }
}


/// The roads labelled `l`.
pub open spec fn part(lb: Seq<Option<usize>>, l: int) -> Set<int> {
    Set::new(|k: int| 0 <= k < lb.len() && lb[k] is Some && lb[k]->0 == l)
}

/// The roads with some label.
pub open spec fn labelled(lb: Seq<Option<usize>>) -> Set<int> {
    Set::new(|k: int| 0 <= k < lb.len() && lb[k] is Some)
}

/// The labels `lb` name the connected groups of the roads before `scan`: group `l` was found
/// from road `seeds[l]`, its first road, and has `sizes[l]` roads.
pub open spec fn labels_ok(
    rs: Seq<Road>,
    lb: Seq<Option<usize>>,
    seeds: Seq<usize>,
    sizes: Seq<usize>,
    scan: int,
) -> bool {
    &&& lb.len() == rs.len()
    &&& seeds.len() == sizes.len()
    &&& 0 <= scan <= rs.len()
    &&& seeds.len() <= scan
    &&& rs.len() <= usize::MAX
    &&& forall|k: int|
        0 <= k < lb.len() && (#[trigger] lb[k]) is Some ==> in_graph(rs, k) && (lb[k]->0 as int)
            < seeds.len() && reaches(rs, seeds[lb[k]->0 as int] as int, k) && seeds[lb[k]->0 as int] <= k
    &&& forall|k: int| 0 <= k < scan && in_graph(rs, k) ==> (#[trigger] lb[k]) is Some
    &&& forall|l: int| 0 <= l < seeds.len() ==> (#[trigger] seeds[l]) < scan && lb[seeds[l] as int] == Some(l as usize)
    &&& forall|l1: int, l2: int| 0 <= l1 < l2 < seeds.len() ==> (#[trigger] seeds[l1]) < (#[trigger] seeds[l2])
    &&& forall|c: int, x: int|
        0 <= c < lb.len() && (#[trigger] lb[c]) is Some && #[trigger] adjacent(rs, c, x) ==> lb[x] == lb[c]
    &&& forall|l: int|
        #![trigger sizes[l]]
        #![trigger part(lb, l)]
        0 <= l < sizes.len() ==> part(lb, l).len() == sizes[l] && part(lb, l).finite()
}

proof fn lemma_labelled_bounded(lb: Seq<Option<usize>>)
    ensures
        labelled(lb).finite(),
        labelled(lb).len() <= lb.len(),
{
    vstd::set_lib::lemma_int_range(0, lb.len() as int);
    assert(labelled(lb).subset_of(vstd::set_lib::set_int_range(0, lb.len() as int)));
    vstd::set_lib::lemma_len_subset(labelled(lb), vstd::set_lib::set_int_range(0, lb.len() as int));
}

impl StreetNetwork {
    /// Pushes onto `queue` every road listed at the intersection at index `ki`.
    fn push_listed(&self, ki: usize, queue: &mut Vec<usize>)
        requires
            self.wf(),
            ki < self.intersections@.len(),
            forall|q: int| 0 <= q < old(queue)@.len() ==> (#[trigger] old(queue)@[q]) < self.roads@.len(),
        ensures
            final(queue)@.len() >= old(queue)@.len(),
            forall|q: int| 0 <= q < old(queue)@.len() ==> #[trigger] final(queue)@[q] == old(queue)@[q],
            forall|q: int| 0 <= q < final(queue)@.len() ==> (#[trigger] final(queue)@[q]) < self.roads@.len(),
            forall|q: int|
                old(queue)@.len() <= q < final(queue)@.len() ==> self.intersections@[ki as int].roads@.contains(
                    self.roads@[#[trigger] final(queue)@[q] as int].id,
                ),
            forall|y: int|
                0 <= y < self.roads@.len() && self.intersections@[ki as int].roads@.contains(
                    #[trigger] self.roads@[y].id,
                ) ==> final(queue)@.contains(y as usize),
    {
        let ids = &self.intersections[ki].roads;
        let ghost rs = self.roads@;
        let ghost q0 = queue@;
        let mut t: usize = 0;
        while t < ids.len()
            invariant
                self.wf(),
                rs == self.roads@,
                ids == &self.intersections@[ki as int].roads,
                t <= ids@.len(),
                queue@.len() >= q0.len(),
                forall|q: int| 0 <= q < q0.len() ==> #[trigger] queue@[q] == q0[q],
                forall|q: int| 0 <= q < queue@.len() ==> (#[trigger] queue@[q]) < rs.len(),
                forall|q: int| q0.len() <= q < queue@.len() ==> ids@.contains(rs[#[trigger] queue@[q] as int].id),
                forall|u: int, y: int|
                    0 <= u < t && 0 <= y < rs.len() && #[trigger] ids@[u] == #[trigger] rs[y].id ==> queue@.contains(y as usize),
            decreases ids@.len() - t,
        {
            let ghost before = queue@;
            match self.road_index(ids[t]) {
                Some(y) => {
                    queue.push(y);
                    proof {
                        assert(queue@[queue@.len() - 1] == y);
                        assert(ids@.contains(ids@[t as int]));
                        assert forall|u: int, y2: int|
                            0 <= u < t + 1 && 0 <= y2 < rs.len() && #[trigger] ids@[u] == #[trigger] rs[y2].id implies queue@.contains(y2 as usize) by {
                            if u < t {
                                assert(before.contains(y2 as usize));
                                let w = choose|w: int| 0 <= w < before.len() && before[w] == y2 as usize;
                                assert(queue@[w] == before[w]);
                            } else {
                                if y2 != y {
                                    if y2 < y {
                                        assert(rs[y2].id.0 < rs[y as int].id.0);
                                    } else {
                                        assert(rs[y as int].id.0 < rs[y2].id.0);
                                    }
                                }
                                assert(queue@[queue@.len() - 1] == y2 as usize);
                            }
                        }
                    }
                },
                None => {
                    proof {
                        assert forall|y2: int| 0 <= y2 < rs.len() implies rs[y2].id != ids@[t as int] by {
                            assert(!road_at(rs, ids@[t as int], y2));
                        }
                    }
                },
            }
            t = t + 1;
        }
        proof {
            assert forall|y: int|
                0 <= y < rs.len() && ids@.contains(#[trigger] rs[y].id) implies queue@.contains(y as usize) by {
                let u = choose|u: int| 0 <= u < ids@.len() && ids@[u] == rs[y].id;
                assert(ids@[u] == rs[y].id);
            }
        }
    }
}



/// The state of a flood fill from road `s` that gives label `l`: labels from before stay, new
/// labels are `l` and go to roads reached from `s`, the queue holds roads reached from `s`, and
/// every road meeting a road labelled `l` is labelled or queued.
pub open spec fn flood_ok(
    rs: Seq<Road>,
    lb0: Seq<Option<usize>>,
    lb: Seq<Option<usize>>,
    queue: Seq<usize>,
    s: int,
    l: usize,
    size: usize,
) -> bool {
    &&& lb.len() == rs.len()
    &&& lb0.len() == rs.len()
    &&& forall|k: int| 0 <= k < lb.len() && (#[trigger] lb0[k]) is Some ==> lb[k] == lb0[k]
    &&& forall|k: int|
        0 <= k < lb.len() && (#[trigger] lb[k]) is Some && lb0[k] is None ==> lb[k] == Some(l)
    &&& forall|k: int|
        0 <= k < lb.len() && (#[trigger] lb[k]) == Some(l) ==> in_graph(rs, k) && reaches(rs, s, k)
            && s <= k
    &&& forall|q: int|
        0 <= q < queue.len() ==> (#[trigger] queue[q]) < rs.len() && (in_graph(rs, queue[q] as int)
            ==> reaches(rs, s, queue[q] as int))
    &&& forall|c: int, x: int|
        0 <= c < lb.len() && (#[trigger] lb[c]) == Some(l) && #[trigger] adjacent(rs, c, x) ==> lb[x] is Some
            || queue.contains(x as usize)
    &&& part(lb, l as int).finite()
    &&& part(lb, l as int).len() == size
    &&& labelled(lb).finite()
    &&& labelled(lb).len() <= rs.len()
}

/// Dropping a queued road that is labelled or not in the graph keeps the flood fill's state.
proof fn lemma_flood_skip(
    rs: Seq<Road>,
    lb0: Seq<Option<usize>>,
    lb: Seq<Option<usize>>,
    queue: Seq<usize>,
    x: usize,
    s: int,
    l: usize,
    size: usize,
)
    requires
        flood_ok(rs, lb0, lb, queue.push(x), s, l, size),
        lb[x as int] is Some || !in_graph(rs, x as int),
        rs.len() <= usize::MAX,
    ensures
        flood_ok(rs, lb0, lb, queue, s, l, size),
{
    let q1 = queue.push(x);
    assert forall|q: int| 0 <= q < queue.len() implies (#[trigger] queue[q]) < rs.len() && (in_graph(
        rs,
        queue[q] as int,
    ) ==> reaches(rs, s, queue[q] as int)) by {
        assert(q1[q] == queue[q]);
    }
    assert forall|c: int, y: int|
        0 <= c < lb.len() && (#[trigger] lb[c]) == Some(l) && #[trigger] adjacent(rs, c, y) implies lb[y] is Some
        || queue.contains(y as usize) by {
        if lb[y] is None {
            assert(q1.contains(y as usize));
            let w = choose|w: int| 0 <= w < q1.len() && q1[w] == y as usize;
            if w < queue.len() {
                assert(queue[w] == y as usize);
            } else {
                assert(q1[w] == x);
                assert(in_graph(rs, y));
            }
        }
    }
}

impl StreetNetwork {
    /// Labels road `x` with `l` and queues every road listed at its ends.
    #[verifier::rlimit(100)]
    fn visit(
        &self,
        lb: &mut Vec<Option<usize>>,
        queue: &mut Vec<usize>,
        x: usize,
        l: usize,
        size: usize,
        Ghost(s): Ghost<int>,
        Ghost(lb0): Ghost<Seq<Option<usize>>>,
    )
        requires
            self.wf(),
            ends_present(self.roads@, self.intersections@),
            lists_match_ends(self.roads@, self.intersections@),
            flood_ok(self.roads@, lb0, old(lb)@, old(queue)@.push(x), s, l, size),
            in_graph(self.roads@, x as int),
            old(lb)@[x as int] is None,
            lb0[x as int] is None,
            s <= x,
        ensures
            size < usize::MAX,
            flood_ok(self.roads@, lb0, final(lb)@, final(queue)@, s, l, (size + 1) as usize),
            labelled(final(lb)@).len() == labelled(old(lb)@).len() + 1,
            final(lb)@[x as int] == Some(l),
            forall|k: int| 0 <= k < old(lb)@.len() && (#[trigger] old(lb)@[k]) is Some ==> final(lb)@[k] == old(lb)@[k],
    {
        let ghost rs = self.roads@;
        let ghost lb1 = lb@;
        let ghost q1 = queue@.push(x);
        proof {
            assert(rs.len() == self.roads.len());
            assert(q1[q1.len() - 1] == x);
            assert(reaches(rs, s, x as int));
            assert(!part(lb1, l as int).contains(x as int));
            assert(part(lb1, l as int).subset_of(labelled(lb1)));
            vstd::set_lib::lemma_len_subset(part(lb1, l as int), labelled(lb1));
            assert(!labelled(lb1).contains(x as int));
            vstd::set_lib::lemma_int_range(0, rs.len() as int);
            assert(labelled(lb1).insert(x as int).subset_of(vstd::set_lib::set_int_range(0, rs.len() as int)));
            vstd::set_lib::lemma_len_subset(
                labelled(lb1).insert(x as int),
                vstd::set_lib::set_int_range(0, rs.len() as int),
            );
        }
        lb.set(x, Some(l));
        let ghost q2 = queue@;
        proof {
            assert forall|q: int| 0 <= q < q2.len() implies (#[trigger] q2[q]) < rs.len() by {
                assert(q2[q] == q1[q]);
            }
        }
        let a = self.roads[x].src_i;
        let b = self.roads[x].dst_i;
        let ka = self.intersection_index(a).unwrap();
        self.push_listed(ka, queue);
        let ghost qa = queue@;
        let kb = self.intersection_index(b).unwrap();
        self.push_listed(kb, queue);
        proof {
            let lb2 = lb@;
            assert forall|y: int|
                0 <= y < rs.len() && self.intersections@[ka as int].roads@.contains(#[trigger] rs[y].id)
                implies queue@.contains(y as usize) by {
                assert(qa.contains(y as usize));
                let w = choose|w: int| 0 <= w < qa.len() && qa[w] == y as usize;
                assert(queue@[w] == qa[w]);
            }
            assert(part(lb2, l as int) =~= part(lb1, l as int).insert(x as int));
            assert(labelled(lb2) =~= labelled(lb1).insert(x as int));
            assert forall|q: int| 0 <= q < queue@.len() implies (#[trigger] queue@[q]) < rs.len() && (
            in_graph(rs, queue@[q] as int) ==> reaches(rs, s, queue@[q] as int)) by {
                if q < q2.len() {
                    assert(queue@[q] == q1[q]);
                } else {
                    let y = queue@[q] as int;
                    if in_graph(rs, y) {
                        assert(self.intersections@[ka as int].id == a);
                        assert(self.intersections@[kb as int].id == b);
                        if self.intersections@[ka as int].roads@.contains(rs[y].id) {
                            assert(rs[y].src_i == a || rs[y].dst_i == a);
                        } else {
                            assert(self.intersections@[kb as int].roads@.contains(rs[y].id));
                            assert(rs[y].src_i == b || rs[y].dst_i == b);
                        }
                        assert(adjacent(rs, x as int, y));
                        lemma_reach_step(rs, s, x as int, y);
                    }
                }
            }
            assert forall|c: int, y: int|
                0 <= c < lb2.len() && (#[trigger] lb2[c]) == Some(l) && #[trigger] adjacent(rs, c, y)
                implies lb2[y] is Some || queue@.contains(y as usize) by {
                if c == x {
                    assert(self.intersections@[ka as int].id == a);
                    assert(self.intersections@[kb as int].id == b);
                    if rs[y].src_i == a || rs[y].dst_i == a {
                        assert(self.intersections@[ka as int].roads@.contains(rs[y].id));
                    } else {
                        assert(rs[y].src_i == b || rs[y].dst_i == b);
                        assert(self.intersections@[kb as int].roads@.contains(rs[y].id));
                    }
                } else {
                    assert(lb1[c] == Some(l));
                    if lb1[y] is None && y != x {
                        assert(q1.contains(y as usize));
                        let w = choose|w: int| 0 <= w < q1.len() && q1[w] == y as usize;
                        assert(q1[q1.len() - 1] == x);
                        assert(w != q1.len() - 1);
                        assert(q1[w] == q2[w]);
                        assert(queue@[w] == y as usize);
                    }
                }
            }
        }
    }

    /// Labels `l` every road connected to road `s`, the first road of the graph without a
    /// label, by a flood fill through the roads listed at each road's ends. Returns how many
    /// roads got the label.
    #[verifier::rlimit(60)]
    fn flood(
        &self,
        lb: &mut Vec<Option<usize>>,
        s: usize,
        l: usize,
        Ghost(seeds): Ghost<Seq<usize>>,
        Ghost(sizes): Ghost<Seq<usize>>,
    ) -> (size: usize)
        requires
            self.wf(),
            ends_present(self.roads@, self.intersections@),
            lists_match_ends(self.roads@, self.intersections@),
            labels_ok(self.roads@, old(lb)@, seeds, sizes, s as int),
            l == seeds.len(),
            in_graph(self.roads@, s as int),
            old(lb)@[s as int] is None,
        ensures
            labels_ok(self.roads@, final(lb)@, seeds.push(s), sizes.push(size), s + 1),
    {
        let ghost rs = self.roads@;
        let ghost lb0 = lb@;
        let mut queue: Vec<usize> = Vec::new();
        queue.push(s);
        let mut size: usize = 0;
        proof {
            assert(part(lb@, l as int) =~= Set::empty()) by {
                assert forall|k: int| !part(lb@, l as int).contains(k) by {
                    if 0 <= k < lb@.len() && lb@[k] == Some(l) {
                        assert((lb0[k]->0 as int) < seeds.len());
                    }
                }
            }
            lemma_labelled_bounded(lb@);
            lemma_reach_refl(rs, s as int);
            assert(queue@[0] == s);
        }
        while queue.len() > 0
            invariant
                self.wf(),
                rs == self.roads@,
                ends_present(rs, self.intersections@),
                lists_match_ends(rs, self.intersections@),
                labels_ok(rs, lb0, seeds, sizes, s as int),
                l == seeds.len(),
                in_graph(rs, s as int),
                lb0[s as int] is None,
                flood_ok(rs, lb0, lb@, queue@, s as int, l, size),
                lb@[s as int] == Some(l) || queue@ == seq![s],
            decreases rs.len() - labelled(lb@).len(), queue@.len(),
        {
            let ghost lb1 = lb@;
            let ghost q1 = queue@;
            let x = queue.pop().unwrap();
            proof {
                assert(q1 == queue@.push(x));
            }
            if lb[x].is_none() && !self.roads[x].is_light_rail() {
                proof {
                    assert(q1[q1.len() - 1] == x);
                    assert(in_graph(rs, x as int));
                    if (x as int) < s {
                        assert(lb0[x as int] is Some);
                    }
                    if lb0[x as int] is Some {
                        assert(lb1[x as int] == lb0[x as int]);
                    }
                }
                self.visit(lb, &mut queue, x, l, size, Ghost(s as int), Ghost(lb0));
                size = size + 1;
            } else {
                proof {
                    assert(rs.len() == self.roads.len());
                    lemma_flood_skip(rs, lb0, lb@, queue@, x, s as int, l, size);
                    if lb@[s as int] != Some(l) {
                        assert(q1 == seq![s]);
                        assert(q1[0] == x);
                    }
                }
            }
        }
        proof {
            let lb2 = lb@;
            let seeds2 = seeds.push(s);
            let sizes2 = sizes.push(size);
            assert(part(lb2, l as int).finite());
            assert forall|c: int, y: int|
                0 <= c < lb2.len() && (#[trigger] lb2[c]) is Some && #[trigger] adjacent(rs, c, y)
                implies lb2[y] == lb2[c] by {
                if lb0[c] is Some {
                    assert(lb0[y] == lb0[c]);
                } else {
                    assert(lb2[c] == Some(l));
                    assert(lb2[y] is Some || queue@.contains(y as usize));
                    if lb0[y] is Some {
                        assert(adjacent(rs, y, c));
                        assert(lb0[c] == lb0[y]);
                    }
                }
            }
            assert forall|k: int|
                0 <= k < lb2.len() && (#[trigger] lb2[k]) is Some implies in_graph(rs, k) && (lb2[k]->0 as int)
                    < seeds2.len() && reaches(rs, seeds2[lb2[k]->0 as int] as int, k) && seeds2[lb2[k]->0 as int] <= k by {
                if lb0[k] is Some {
                    assert(lb2[k] == lb0[k]);
                    assert(seeds2[lb0[k]->0 as int] == seeds[lb0[k]->0 as int]);
                } else {
                    assert(lb2[k] == Some(l));
                    assert(seeds2[l as int] == s);
                }
            }
            assert forall|k: int| 0 <= k < s + 1 && in_graph(rs, k) implies (#[trigger] lb2[k]) is Some by {
                if k < s {
                    assert(lb0[k] is Some);
                }
            }
            assert forall|j: int| 0 <= j < seeds2.len() implies (#[trigger] seeds2[j]) < s + 1 && lb2[seeds2[j] as int] == Some(j as usize) by {
                if j < seeds.len() {
                    assert(seeds2[j] == seeds[j]);
                    assert(lb0[seeds[j] as int] == Some(j as usize));
                }
            }
            assert forall|l1: int, l2: int| 0 <= l1 < l2 < seeds2.len() implies (#[trigger] seeds2[l1]) < (#[trigger] seeds2[l2]) by {
                assert(seeds2[l1] == seeds[l1]);
                if l2 < seeds.len() {
                    assert(seeds2[l2] == seeds[l2]);
                }
            }
            assert forall|j: int|
                #![trigger sizes2[j]]
                #![trigger part(lb2, j)]
                0 <= j < sizes2.len() implies part(lb2, j).len() == sizes2[j] && part(lb2, j).finite() by {
                if j == sizes.len() {
                    assert(sizes2[j] == size);
                    assert(j as usize == l);
                    assert(part(lb2, l as int).finite());
                    assert(part(lb2, j).finite());
                } else {
                    assert(sizes2[j] == sizes[j]);
                    assert(part(lb2, j) =~= part(lb0, j)) by {
                        assert forall|k: int| #[trigger] part(lb2, j).contains(k) <==> part(lb0, j).contains(k) by {
                            if 0 <= k < lb2.len() {
                                if lb0[k] is Some {
                                    assert(lb2[k] == lb0[k]);
                                } else if lb2[k] is Some {
                                    assert(lb2[k] == Some(l));
                                }
                            }
                        }
                    }
                    assert(part(lb0, j).finite());
                    assert(part(lb2, j).finite());
                }
            }
            assert(labels_ok(rs, lb2, seeds2, sizes2, s + 1));
        }
        size
    }
}


impl StreetNetwork {
    /// Labels the connected groups of roads, each group in order of its first road: the label
    /// of each road in the graph, the first road of each group, and each group's size.
    fn label_components(&self) -> (r: (Vec<Option<usize>>, Vec<usize>, Vec<usize>))
        requires
            self.wf(),
            ends_present(self.roads@, self.intersections@),
            lists_match_ends(self.roads@, self.intersections@),
        ensures
            labels_ok(self.roads@, r.0@, r.1@, r.2@, self.roads@.len() as int),
    {
        let ghost rs = self.roads@;
        let n = self.roads.len();
        let mut lb: Vec<Option<usize>> = Vec::new();
        let mut k: usize = 0;
        while k < n
            invariant
                n == rs.len(),
                k <= n,
                lb@.len() == k,
                forall|j: int| 0 <= j < k ==> (#[trigger] lb@[j]) is None,
            decreases n - k,
        {
            lb.push(None);
            k = k + 1;
        }
        let mut seeds: Vec<usize> = Vec::new();
        let mut sizes: Vec<usize> = Vec::new();
        proof {
            assert forall|l: int|
                #![trigger sizes@[l]]
                #![trigger part(lb@, l)]
                0 <= l < sizes@.len() implies part(lb@, l).len() == sizes@[l] && part(lb@, l).finite() by {}
        }
        let mut scan: usize = 0;
        while scan < n
            invariant
                self.wf(),
                rs == self.roads@,
                n == rs.len(),
                ends_present(rs, self.intersections@),
                lists_match_ends(rs, self.intersections@),
                scan <= n,
                labels_ok(rs, lb@, seeds@, sizes@, scan as int),
            decreases n - scan,
        {
            if lb[scan].is_none() && !self.roads[scan].is_light_rail() {
                let l = seeds.len();
                let size = self.flood(&mut lb, scan, l, Ghost(seeds@), Ghost(sizes@));
                seeds.push(scan);
                sizes.push(size);
            } else {
                proof {
                    assert forall|j: int| 0 <= j < scan + 1 && in_graph(rs, j) implies (#[trigger] lb@[j]) is Some by {
                        if j == scan {
                            assert(in_graph(rs, scan as int));
                        }
                    }
                }
            }
            scan = scan + 1;
        }
        (lb, seeds, sizes)
    }
}

/// The label of the largest group, the last of those as large.
fn best_label(sizes: &Vec<usize>) -> (b: usize)
    requires
        sizes@.len() > 0,
    ensures
        b < sizes@.len(),
        forall|l: int|
            0 <= l < sizes@.len() ==> (#[trigger] sizes@[l]) < sizes@[b as int] || (sizes@[l] == sizes@[b as int]
                && l <= b),
{
    let mut b: usize = 0;
    let mut l: usize = 1;
    while l < sizes.len()
        invariant
            1 <= l <= sizes@.len(),
            b < l,
            forall|j: int|
                0 <= j < l ==> (#[trigger] sizes@[j]) < sizes@[b as int] || (sizes@[j] == sizes@[b as int] && j <= b),
        decreases sizes@.len() - l,
    {
        if sizes[l] >= sizes[b] {
            b = l;
        }
        l = l + 1;
    }
    b
}

/// Once every road of the graph is labelled, the roads labelled as road `a` are those
/// connected to it.
proof fn lemma_part_is_component(
    rs: Seq<Road>,
    lb: Seq<Option<usize>>,
    seeds: Seq<usize>,
    sizes: Seq<usize>,
    a: int,
)
    requires
        labels_ok(rs, lb, seeds, sizes, rs.len() as int),
        in_graph(rs, a),
    ensures
        lb[a] is Some,
        component(rs, a) == part(lb, lb[a]->0 as int),
{
    let l = lb[a]->0 as int;
    let c = seeds[l] as int;
    assert(reaches(rs, c, a));
    lemma_reach_symm(rs, c, a);
    let s = part(lb, l);
    assert forall|x: int, y: int| #[trigger] s.contains(x) && adjacent(rs, x, y) implies #[trigger] s.contains(y) by {
        assert(lb[x] is Some);
        assert(lb[y] == lb[x]);
    }
    assert forall|b: int| #[trigger] component(rs, a).contains(b) <==> s.contains(b) by {
        if reaches(rs, a, b) {
            lemma_closed_holds_reached(rs, s, a, b);
        }
        if s.contains(b) {
            assert(lb[b] is Some);
            assert(reaches(rs, c, b));
            lemma_reach_trans(rs, a, c, b);
        }
    }
    assert(component(rs, a) =~= s);
}


/// How the group of road `a` compares with the group chosen as largest.
#[verifier::rlimit(40)]
proof fn lemma_compare_with_best(
    rs: Seq<Road>,
    lb: Seq<Option<usize>>,
    seeds: Seq<usize>,
    sizes: Seq<usize>,
    b: int,
    a: int,
)
    requires
        labels_ok(rs, lb, seeds, sizes, rs.len() as int),
        0 <= b < sizes.len(),
        forall|l: int|
            0 <= l < sizes.len() ==> (#[trigger] sizes[l]) < sizes[b] || (sizes[l] == sizes[b] && l <= b),
        in_graph(rs, a),
    ensures
        component(rs, a) == component(rs, seeds[b] as int) || component(rs, a).len() < component(
            rs,
            seeds[b] as int,
        ).len() || (component(rs, a).len() == component(rs, seeds[b] as int).len() && starts_before(
            component(rs, a),
            component(rs, seeds[b] as int),
        )),
{
    let c = seeds[b] as int;
    assert(lb[c] == Some(b as usize));
    lemma_part_is_component(rs, lb, seeds, sizes, c);
    lemma_part_is_component(rs, lb, seeds, sizes, a);
    let la = lb[a]->0 as int;
    assert(0 <= la < sizes.len());
    assert(part(lb, la).len() == sizes[la]);
    assert(part(lb, b).len() == sizes[b]);
    if la == b {
    } else if sizes[la] < sizes[b] {
    } else {
        assert(la <= b);
        assert(seeds[la] < seeds[b]);
        let y = seeds[la] as int;
        assert(lb[y] == Some(la as usize));
        assert(part(lb, la).contains(y));
        assert forall|x: int| #[trigger] part(lb, b).contains(x) implies y < x by {
            assert(lb[x] is Some);
            assert(seeds[b] <= x);
        }
        assert(starts_before(part(lb, la), part(lb, b)));
    }
}

/// With every road labelled, the first road of the largest group, the last of those as large,
/// starts the largest connected group of roads.
proof fn lemma_best_is_largest(
    rs: Seq<Road>,
    lb: Seq<Option<usize>>,
    seeds: Seq<usize>,
    sizes: Seq<usize>,
    b: int,
)
    requires
        labels_ok(rs, lb, seeds, sizes, rs.len() as int),
        0 <= b < sizes.len(),
        forall|l: int|
            0 <= l < sizes.len() ==> (#[trigger] sizes[l]) < sizes[b] || (sizes[l] == sizes[b] && l <= b),
    ensures
        is_largest_component(rs, seeds[b] as int),
{
    let c = seeds[b] as int;
    assert(lb[c] == Some(b as usize));
    assert forall|a: int| #![trigger component(rs, a)] in_graph(rs, a) implies component(rs, a) == component(rs, c)
        || component(rs, a).len() < component(rs, c).len() || (component(rs, a).len() == component(rs, c).len()
        && starts_before(component(rs, a), component(rs, c))) by {
        lemma_compare_with_best(rs, lb, seeds, sizes, b, a);
    }
}


/// Road `k` is kept: it is light rail or connected to road `c`, and it is not a loop.
pub open spec fn survives(rs: Seq<Road>, c: int, k: int) -> bool {
    (!in_graph(rs, k) || reaches(rs, c, k)) && rs[k].src_i != rs[k].dst_i
}

/// The indices of the roads before `n` that are kept, in order.
pub open spec fn surviving(rs: Seq<Road>, c: int, n: int) -> Seq<int>
    decreases n,
{
    if n <= 0 {
        Seq::empty()
    } else if survives(rs, c, n - 1) {
        surviving(rs, c, n - 1).push(n - 1)
    } else {
        surviving(rs, c, n - 1)
    }
}

/// `x` names a road that is removed.
pub open spec fn is_removed(rs: Seq<Road>, c: int, x: RoadID) -> bool {
    exists|k: int| road_at(rs, x, k) && !survives(rs, c, k)
}

/// The roads of the list `s` that are not removed, in order.
pub open spec fn remaining_ids(rs: Seq<Road>, c: int, s: Seq<RoadID>) -> Seq<RoadID>
    decreases s.len(),
{
    if s.len() == 0 {
        s
    } else if is_removed(rs, c, s.last()) {
        remaining_ids(rs, c, s.drop_last())
    } else {
        remaining_ids(rs, c, s.drop_last()).push(s.last())
    }
}

/// The indices of the intersections before `n` that some kept road still meets, in order.
pub open spec fn busy_intersections(rs: Seq<Road>, c: int, is: Seq<Intersection>, n: int) -> Seq<int>
    decreases n,
{
    if n <= 0 {
        Seq::empty()
    } else if remaining_ids(rs, c, is[n - 1].roads@).len() > 0 {
        busy_intersections(rs, c, is, n - 1).push(n - 1)
    } else {
        busy_intersections(rs, c, is, n - 1)
    }
}

/// The indices that `surviving` picks increase and stay below `n`.
proof fn lemma_surviving_increasing(rs: Seq<Road>, c: int, n: int)
    requires
        n >= 0,
    ensures
        forall|j: int| 0 <= j < surviving(rs, c, n).len() ==> 0 <= #[trigger] surviving(rs, c, n)[j] < n,
        forall|a: int, b: int|
            0 <= a < b < surviving(rs, c, n).len() ==> #[trigger] surviving(rs, c, n)[a] < #[trigger] surviving(
                rs,
                c,
                n,
            )[b],
    decreases n,
{
    if n > 0 {
        lemma_surviving_increasing(rs, c, n - 1);
        let p = surviving(rs, c, n - 1);
        if survives(rs, c, n - 1) {
            let q = p.push(n - 1);
            assert(surviving(rs, c, n) == q);
            assert forall|j: int| 0 <= j < q.len() implies 0 <= #[trigger] q[j] < n by {
                if j < p.len() {
                    assert(q[j] == p[j]);
                }
            }
            assert forall|a: int, b: int| 0 <= a < b < q.len() implies #[trigger] q[a] < #[trigger] q[b] by {
                assert(q[a] == p[a]);
                if b < p.len() {
                    assert(q[b] == p[b]);
                }
            }
        }
    }
}

/// The indices that `busy_intersections` picks increase and stay below `n`.
proof fn lemma_busy_increasing(rs: Seq<Road>, c: int, is: Seq<Intersection>, n: int)
    requires
        n >= 0,
    ensures
        forall|j: int|
            0 <= j < busy_intersections(rs, c, is, n).len() ==> 0 <= #[trigger] busy_intersections(rs, c, is, n)[j]
                < n,
        forall|a: int, b: int|
            0 <= a < b < busy_intersections(rs, c, is, n).len() ==> #[trigger] busy_intersections(
                rs,
                c,
                is,
                n,
            )[a] < #[trigger] busy_intersections(rs, c, is, n)[b],
    decreases n,
{
    if n > 0 {
        lemma_busy_increasing(rs, c, is, n - 1);
        let p = busy_intersections(rs, c, is, n - 1);
        if remaining_ids(rs, c, is[n - 1].roads@).len() > 0 {
            let q = p.push(n - 1);
            assert(busy_intersections(rs, c, is, n) == q);
            assert forall|j: int| 0 <= j < q.len() implies 0 <= #[trigger] q[j] < n by {
                if j < p.len() {
                    assert(q[j] == p[j]);
                }
            }
            assert forall|a: int, b: int| 0 <= a < b < q.len() implies #[trigger] q[a] < #[trigger] q[b] by {
                assert(q[a] == p[a]);
                if b < p.len() {
                    assert(q[b] == p[b]);
                }
            }
        }
    }
}

impl StreetNetwork {
    /// The roads of `list` that are not removed, where `keep` tells which roads are kept.
    fn remaining_list(&self, list: &Vec<RoadID>, keep: &Vec<bool>, Ghost(c): Ghost<int>) -> (r: Vec<RoadID>)
        requires
            self.wf(),
            keep@.len() == self.roads@.len(),
            forall|k: int| 0 <= k < keep@.len() ==> #[trigger] keep@[k] == survives(self.roads@, c, k),
        ensures
            r@ == remaining_ids(self.roads@, c, list@),
    {
        let ghost rs = self.roads@;
        let mut r: Vec<RoadID> = Vec::new();
        let mut t: usize = 0;
        while t < list.len()
            invariant
                self.wf(),
                rs == self.roads@,
                keep@.len() == rs.len(),
                forall|k: int| 0 <= k < keep@.len() ==> #[trigger] keep@[k] == survives(rs, c, k),
                t <= list@.len(),
                r@ == remaining_ids(rs, c, list@.subrange(0, t as int)),
            decreases list@.len() - t,
        {
            proof {
                assert(list@.subrange(0, t + 1).drop_last() =~= list@.subrange(0, t as int));
                assert(list@.subrange(0, t + 1).last() == list@[t as int]);
            }
            let x = list[t];
            let removed = match self.road_index(x) {
                Some(k) => {
                    proof {
                        assert forall|k2: int| road_at(rs, x, k2) implies k2 == k by {
                            if k2 < k {
                                assert(rs[k2].id.0 < rs[k as int].id.0);
                            } else if k < k2 {
                                assert(rs[k as int].id.0 < rs[k2].id.0);
                            }
                        }
                        assert(keep@[k as int] == survives(rs, c, k as int));
                    }
                    !keep[k]
                },
                None => false,
            };
            proof {
                assert(removed == is_removed(rs, c, x));
            }
            if !removed {
                r.push(x);
            }
            t = t + 1;
        }
        proof {
            assert(list@.subrange(0, list@.len() as int) =~= list@);
        }
        r
    }
}


/// `rs2` and `is2` are what is left of the roads `rs` and the intersections `is` once the roads
/// that do not survive (for the largest group starting at road `c`) are removed: the kept roads
/// in order; and the intersections that some kept road still meets, in order, each listing
/// only its kept roads.
pub open spec fn disconnected_removed(
    rs: Seq<Road>,
    is: Seq<Intersection>,
    rs2: Seq<Road>,
    is2: Seq<Intersection>,
    c: int,
) -> bool {
    let kr = surviving(rs, c, rs.len() as int);
    let ki = busy_intersections(rs, c, is, is.len() as int);
    &&& rs2.len() == kr.len()
    &&& forall|j: int| 0 <= j < rs2.len() ==> #[trigger] rs2[j] == rs[kr[j]]
    &&& is2.len() == ki.len()
    &&& forall|j: int|
        0 <= j < is2.len() ==> crate::network::same_but_roads(#[trigger] is2[j], is[ki[j]])
            && is2[j].roads@ == remaining_ids(rs, c, is[ki[j]].roads@)
}

impl StreetNetwork {
    /// Which roads are kept: those of the graph labelled `best`, light rail, and no loops.
    fn keep_mask(
        &self,
        lb: &Vec<Option<usize>>,
        best: Option<usize>,
        Ghost(seeds): Ghost<Seq<usize>>,
        Ghost(sizes): Ghost<Seq<usize>>,
        Ghost(c): Ghost<int>,
    ) -> (keep: Vec<bool>)
        requires
            labels_ok(self.roads@, lb@, seeds, sizes, self.roads@.len() as int),
            match best {
                Some(b) => b < seeds.len() && c == seeds[b as int],
                None => seeds.len() == 0,
            },
        ensures
            keep@.len() == self.roads@.len(),
            forall|k: int| 0 <= k < keep@.len() ==> #[trigger] keep@[k] == survives(self.roads@, c, k),
    {
        let ghost rs = self.roads@;
        let n = self.roads.len();
        let mut keep: Vec<bool> = Vec::new();
        let mut k: usize = 0;
        while k < n
            invariant
                rs == self.roads@,
                n == rs.len(),
                labels_ok(rs, lb@, seeds, sizes, rs.len() as int),
                match best {
                    Some(b) => b < seeds.len() && c == seeds[b as int],
                    None => seeds.len() == 0,
                },
                k <= n,
                keep@.len() == k,
                forall|j: int| 0 <= j < k ==> #[trigger] keep@[j] == survives(rs, c, j),
            decreases n - k,
        {
            let main = match lb[k] {
                None => true,
                Some(l) => match best {
                    Some(b) => l == b,
                    None => false,
                },
            };
            proof {
                let kk = k as int;
                if lb@[kk] is Some {
                    let l = lb@[kk]->0;
                    assert(in_graph(rs, kk));
                    match best {
                        Some(b) => {
                            if l == b {
                                assert(reaches(rs, c, kk));
                            } else if reaches(rs, c, kk) {
                                assert(lb@[c] == Some(b));
                                lemma_part_is_component(rs, lb@, seeds, sizes, c);
                                assert(component(rs, c).contains(kk));
                                assert(part(lb@, b as int).contains(kk));
                            }
                        },
                        None => {},
                    }
                } else {
                    assert(!in_graph(rs, kk));
                }
                assert(main == (!in_graph(rs, kk) || reaches(rs, c, kk)));
            }
            keep.push(main && self.roads[k].src_i != self.roads[k].dst_i);
            k = k + 1;
        }
        keep
    }

    /// Takes the removed roads out of every intersection's list, and removes the intersections
    /// that no road meets any more.
    fn prune_intersections(&mut self, keep: &Vec<bool>, Ghost(c): Ghost<int>)
        requires
            old(self).wf(),
            keep@.len() == old(self).roads@.len(),
            forall|k: int| 0 <= k < keep@.len() ==> #[trigger] keep@[k] == survives(old(self).roads@, c, k),
        ensures
            final(self).wf(),
            final(self).roads == old(self).roads,
            final(self).config == old(self).config,
            final(self).road_id_counter == old(self).road_id_counter,
            final(self).intersection_id_counter == old(self).intersection_id_counter,
            ({
                let rs = old(self).roads@;
                let is = old(self).intersections@;
                let ki = busy_intersections(rs, c, is, is.len() as int);
                &&& final(self).intersections@.len() == ki.len()
                &&& forall|j: int|
                    0 <= j < ki.len() ==> crate::network::same_but_roads(#[trigger] final(self).intersections@[j], is[ki[j]])
                        && final(self).intersections@[j].roads@ == remaining_ids(rs, c, is[ki[j]].roads@)
            }),
    {
        let ghost rs = self.roads@;
        let ghost is = self.intersections@;
        let mut old_is: Vec<Intersection> = Vec::new();
        std::mem::swap(&mut old_is, &mut self.intersections);
        let m = old_is.len();
        let mut new_is: Vec<Intersection> = Vec::new();
        let mut j: usize = 0;
        while j < m
            invariant
                self.wf(),
                rs == self.roads@,
                self.intersections@.len() == 0,
                self.config == old(self).config,
                self.road_id_counter == old(self).road_id_counter,
                self.intersection_id_counter == old(self).intersection_id_counter,
                self.roads == old(self).roads,
                keep@.len() == rs.len(),
                forall|k: int| 0 <= k < keep@.len() ==> #[trigger] keep@[k] == survives(rs, c, k),
                m == is.len(),
                j <= m,
                old_is@ == is.subrange(j as int, m as int),
                new_is@.len() == busy_intersections(rs, c, is, j as int).len(),
                forall|t: int|
                    0 <= t < new_is@.len() ==> crate::network::same_but_roads(#[trigger] new_is@[t], is[busy_intersections(rs, c, is, j as int)[t]])
                        && new_is@[t].roads@ == remaining_ids(rs, c, is[busy_intersections(rs, c, is, j as int)[t]].roads@),
            decreases m - j,
        {
            let mut inter = old_is.remove(0);
            proof {
                assert(inter == is[j as int]);
                assert(old_is@ =~= is.subrange(j + 1, m as int));
            }
            let list = self.remaining_list(&inter.roads, keep, Ghost(c));
            let ghost before = new_is@;
            if list.len() > 0 {
                inter.roads = list;
                new_is.push(inter);
                proof {
                    let b1 = busy_intersections(rs, c, is, j + 1);
                    assert(b1 == busy_intersections(rs, c, is, j as int).push(j as int));
                    assert forall|t: int| 0 <= t < new_is@.len() implies crate::network::same_but_roads(#[trigger] new_is@[t], is[b1[t]])
                        && new_is@[t].roads@ == remaining_ids(rs, c, is[b1[t]].roads@) by {
                        if t < before.len() {
                            assert(new_is@[t] == before[t]);
                            assert(b1[t] == busy_intersections(rs, c, is, j as int)[t]);
                        }
                    }
                }
            }
            j = j + 1;
        }
        proof {
            let ki = busy_intersections(rs, c, is, is.len() as int);
            lemma_busy_increasing(rs, c, is, is.len() as int);
            let ns = new_is@;
            assert forall|a: int, b: int| 0 <= a < b < ns.len() implies (#[trigger] ns[a]).id.0 < (#[trigger] ns[b]).id.0 by {
                assert(ki[a] < ki[b]);
                assert(is[ki[a]].id.0 < is[ki[b]].id.0);
            }
            assert forall|t: int| 0 <= t < ns.len() implies (#[trigger] ns[t]).id.0 < self.intersection_id_counter by {
                assert(is[ki[t]].id.0 < self.intersection_id_counter);
            }
        }
        self.intersections = new_is;
    }

    /// Removes the roads that are not kept, keeping the others in order.
    fn prune_roads(&mut self, keep: &Vec<bool>, Ghost(c): Ghost<int>)
        requires
            old(self).wf(),
            keep@.len() == old(self).roads@.len(),
            forall|k: int| 0 <= k < keep@.len() ==> #[trigger] keep@[k] == survives(old(self).roads@, c, k),
        ensures
            final(self).wf(),
            final(self).intersections == old(self).intersections,
            final(self).config == old(self).config,
            final(self).road_id_counter == old(self).road_id_counter,
            final(self).intersection_id_counter == old(self).intersection_id_counter,
            final(self).roads@.len() == surviving(old(self).roads@, c, old(self).roads@.len() as int).len(),
            forall|j: int|
                0 <= j < final(self).roads@.len() ==> #[trigger] final(self).roads@[j] == old(self).roads@[surviving(
                    old(self).roads@,
                    c,
                    old(self).roads@.len() as int,
                )[j]],
    {
        let ghost rs = self.roads@;
        let mut old_rs: Vec<Road> = Vec::new();
        std::mem::swap(&mut old_rs, &mut self.roads);
        let n = old_rs.len();
        let mut new_rs: Vec<Road> = Vec::new();
        let mut k: usize = 0;
        while k < n
            invariant
                keep@.len() == rs.len(),
                forall|x: int| 0 <= x < keep@.len() ==> #[trigger] keep@[x] == survives(rs, c, x),
                n == rs.len(),
                k <= n,
                old_rs@ == rs.subrange(k as int, n as int),
                new_rs@.len() == surviving(rs, c, k as int).len(),
                forall|t: int| 0 <= t < new_rs@.len() ==> #[trigger] new_rs@[t] == rs[surviving(rs, c, k as int)[t]],
            decreases n - k,
        {
            let r = old_rs.remove(0);
            proof {
                assert(r == rs[k as int]);
                assert(old_rs@ =~= rs.subrange(k + 1, n as int));
            }
            let ghost before = new_rs@;
            if keep[k] {
                new_rs.push(r);
                proof {
                    let s1 = surviving(rs, c, k + 1);
                    assert(s1 == surviving(rs, c, k as int).push(k as int));
                    assert forall|t: int| 0 <= t < new_rs@.len() implies #[trigger] new_rs@[t] == rs[s1[t]] by {
                        if t < before.len() {
                            assert(new_rs@[t] == before[t]);
                            assert(s1[t] == surviving(rs, c, k as int)[t]);
                        }
                    }
                }
            }
            k = k + 1;
        }
        proof {
            let kr = surviving(rs, c, rs.len() as int);
            lemma_surviving_increasing(rs, c, rs.len() as int);
            let ns = new_rs@;
            assert forall|a: int, b: int| 0 <= a < b < ns.len() implies (#[trigger] ns[a]).id.0 < (#[trigger] ns[b]).id.0 by {
                assert(kr[a] < kr[b]);
                assert(rs[kr[a]].id.0 < rs[kr[b]].id.0);
            }
        }
        self.roads = new_rs;
    }

    /// Removes the roads that are disconnected from the largest connected group of roads (of
    /// those as large, the one whose first road comes last), as a flood fill through the roads
    /// listed at each road's ends finds the groups; light rail is no part of any group and
    /// stays. Then removes every loop road, and every intersection that no road meets any more.
    pub fn remove_disconnected_roads(&mut self)
        requires
            old(self).wf(),
            ends_present(old(self).roads@, old(self).intersections@),
            lists_match_ends(old(self).roads@, old(self).intersections@),
        ensures
            final(self).wf(),
            final(self).config == old(self).config,
            final(self).road_id_counter == old(self).road_id_counter,
            final(self).intersection_id_counter == old(self).intersection_id_counter,
            exists|c: int|
                (is_largest_component(old(self).roads@, c) || forall|k: int| !in_graph(old(self).roads@, k))
                    && #[trigger] disconnected_removed(
                    old(self).roads@,
                    old(self).intersections@,
                    final(self).roads@,
                    final(self).intersections@,
                    c,
                ),
    {
        let ghost rs = self.roads@;
        let ghost is = self.intersections@;
        let (lb, seeds, sizes) = self.label_components();
        let best: Option<usize> = if sizes.len() > 0 {
            Some(best_label(&sizes))
        } else {
            None
        };
        let ghost c: int = match best {
            Some(b) => seeds@[b as int] as int,
            None => -1int,
        };
        proof {
            match best {
                Some(b) => {
                    lemma_best_is_largest(rs, lb@, seeds@, sizes@, b as int);
                },
                None => {
                    assert forall|k: int| !in_graph(rs, k) by {
                        if in_graph(rs, k) {
                            assert(lb@[k] is Some);
                        }
                    }
                },
            }
        }
        let keep = self.keep_mask(&lb, best, Ghost(seeds@), Ghost(sizes@), Ghost(c));
        self.prune_intersections(&keep, Ghost(c));
        self.prune_roads(&keep, Ghost(c));
        proof {
            assert(disconnected_removed(rs, is, self.roads@, self.intersections@, c));
        }
    }
}

} // verus!

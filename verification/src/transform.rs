//! The in-place transformations of a street network, and their standard sequences.
use vstd::prelude::*;

use crate::collapse::CollapseError;
use crate::degenerate::{
    collapse, collapse_steps, ids_kept, kept_intersections, no_lone_loop_wanted, roads_kept,
    trim_deadends, trimmed_roads, wanted_collapses,
};
use crate::disconnected::{disconnected_removed, ends_present, in_graph, is_largest_component, lists_match_ends};
use crate::ids::IntersectionID;
use crate::lanes::Distance;
use crate::laws::{all_list_their_roads, consistent};
use crate::network::{same_but_roads, Intersection, StreetNetwork};
use crate::road::Road;
use crate::sausage::{collapse_sausage_links, sausage_links, sausage_steps};
use crate::short_roads::{collapse_all_junction_roads, junction_road_ids, short_road_steps};

verus! {

/// An in-place transformation of a street network.
#[derive(Clone, Copy, Debug, PartialEq, Eq, Structural)]
pub enum Transformation {
    TrimDeadendCycleways,
    SnapCycleways,
    RemoveDisconnectedRoads,
    CollapseShortRoads,
    CollapseDegenerateIntersections,
    CollapseSausageLinks,
    MergeDualCarriageways,
}

pub open spec fn spec_standard_for_clipped_areas() -> Seq<Transformation> {
    seq![
        Transformation::TrimDeadendCycleways,
        Transformation::CollapseSausageLinks,
        Transformation::CollapseShortRoads,
        Transformation::CollapseDegenerateIntersections,
        Transformation::CollapseShortRoads,
    ]
}

impl Transformation {
    /// Useful for test cases and small clipped areas. Doesn't remove disconnected roads.
    /// Collapsing short roads runs again at the end, as the steps before may discover more.
    pub fn standard_for_clipped_areas() -> (r: Vec<Transformation>)
        ensures
            r@ == spec_standard_for_clipped_areas(),
    {
        let r = vec![
            Transformation::TrimDeadendCycleways,
            Transformation::CollapseSausageLinks,
            Transformation::CollapseShortRoads,
            Transformation::CollapseDegenerateIntersections,
            Transformation::CollapseShortRoads,
        ];
        assert(r@ =~= spec_standard_for_clipped_areas());
        r
    }

    /// A full suite of transformations for A/B Street: disconnected roads are removed first.
    pub fn abstreet() -> (r: Vec<Transformation>)
        ensures
            r@ == spec_standard_for_clipped_areas().insert(0, Transformation::RemoveDisconnectedRoads),
    {
        let mut list = Self::standard_for_clipped_areas();
        list.insert(0, Transformation::RemoveDisconnectedRoads);
        list
    }

    /// The name of the transformation, as progress reports show it.
    pub fn name(&self) -> (r: &'static str)
        ensures
            r@ == (match *self {
                Transformation::TrimDeadendCycleways => "trim dead-end cycleways"@,
                Transformation::SnapCycleways => "snap separate cycleways"@,
                Transformation::RemoveDisconnectedRoads => "remove disconnected roads"@,
                Transformation::CollapseShortRoads => "collapse short roads"@,
                Transformation::CollapseDegenerateIntersections => "collapse degenerate intersections"@,
                Transformation::CollapseSausageLinks => "collapse sausage links"@,
                Transformation::MergeDualCarriageways => "merge dual carriageways"@,
            }),
    {
        match self {
            Transformation::TrimDeadendCycleways => "trim dead-end cycleways",
            Transformation::SnapCycleways => "snap separate cycleways",
            Transformation::RemoveDisconnectedRoads => "remove disconnected roads",
            Transformation::CollapseShortRoads => "collapse short roads",
            Transformation::CollapseDegenerateIntersections => "collapse degenerate intersections",
            Transformation::CollapseSausageLinks => "collapse sausage links",
            Transformation::MergeDualCarriageways => "merge dual carriageways",
        }
    }
}


/// What a transformation needs of the network it works on.
pub open spec fn ready_for(t: Transformation, s: StreetNetwork, lengths: Seq<Distance>) -> bool {
    &&& s.wf()
    &&& match t {
        Transformation::TrimDeadendCycleways => consistent(s.roads@, s.intersections@) && lengths.len()
            == s.roads@.len(),
        Transformation::RemoveDisconnectedRoads => ends_present(s.roads@, s.intersections@)
            && lists_match_ends(s.roads@, s.intersections@),
        Transformation::CollapseShortRoads => ends_present(s.roads@, s.intersections@)
            && all_list_their_roads(s.roads@, s.intersections@),
        Transformation::CollapseDegenerateIntersections => consistent(s.roads@, s.intersections@)
            && no_lone_loop_wanted(s.roads@, s.intersections@),
        Transformation::CollapseSausageLinks => consistent(s.roads@, s.intersections@),
        Transformation::SnapCycleways | Transformation::MergeDualCarriageways => true,
    }
}

/// `n` is network `o` after transformation `t`, as the function that carries it out says.
pub open spec fn transformed(t: Transformation, o: StreetNetwork, n: StreetNetwork, lengths: Seq<Distance>) -> bool {
    match t {
        Transformation::TrimDeadendCycleways => {
            let is = o.intersections@;
            let tr = trimmed_roads(o.roads@, is, lengths);
            let kept = kept_intersections(o.roads@, is, lengths, is.len() as int);
            &&& consistent(n.roads@, n.intersections@)
            &&& n.roads@ == roads_kept(o.roads@, tr)
            &&& n.intersections@.len() == kept.len()
            &&& forall|j: int|
                0 <= j < kept.len() ==> same_but_roads(#[trigger] n.intersections@[j], is[kept[j]])
                    && n.intersections@[j].roads@ == ids_kept(is[kept[j]].roads@, tr)
        },
        Transformation::RemoveDisconnectedRoads => exists|c: int|
            (is_largest_component(o.roads@, c) || forall|k: int| !in_graph(o.roads@, k))
                && #[trigger] disconnected_removed(o.roads@, o.intersections@, n.roads@, n.intersections@, c),
        Transformation::CollapseShortRoads => {
            &&& ends_present(n.roads@, n.intersections@)
            &&& all_list_their_roads(n.roads@, n.intersections@)
            &&& exists|
                rss: Seq<Seq<Road>>,
                iss: Seq<Seq<Intersection>>,
                results: Seq<Result<(IntersectionID, IntersectionID), CollapseError>>,
            |
                {
                    &&& short_road_steps(rss, iss, junction_road_ids(o.roads@, o.roads@.len() as int), results)
                    &&& rss[0] == o.roads@
                    &&& iss[0] == o.intersections@
                    &&& rss.last() == n.roads@
                    &&& iss.last() == n.intersections@
                }
        },
        Transformation::CollapseDegenerateIntersections => {
            &&& consistent(n.roads@, n.intersections@)
            &&& exists|rss: Seq<Seq<Road>>, iss: Seq<Seq<Intersection>>|
                {
                    &&& collapse_steps(
                        rss,
                        iss,
                        wanted_collapses(o.roads@, o.intersections@, o.intersections@.len() as int),
                    )
                    &&& rss[0] == o.roads@
                    &&& iss[0] == o.intersections@
                    &&& rss.last() == n.roads@
                    &&& iss.last() == n.intersections@
                }
        },
        Transformation::CollapseSausageLinks => {
            &&& consistent(n.roads@, n.intersections@)
            &&& exists|rss: Seq<Seq<Road>>, iss: Seq<Seq<Intersection>>|
                {
                    &&& sausage_steps(rss, iss, sausage_links(o.roads@, o.intersections@), o.config.driving_side)
                    &&& rss[0] == o.roads@
                    &&& iss[0] == o.intersections@
                    &&& rss.last() == n.roads@
                    &&& iss.last() == n.intersections@
                }
        },
        Transformation::SnapCycleways | Transformation::MergeDualCarriageways => n.roads@ == o.roads@
            && n.intersections@ == o.intersections@,
    }
}

impl Transformation {
    /// Applies this transformation to `streets`, as the function that carries it out does;
    /// `lengths` are the roads' measured lengths, which trimming dead ends reads. Snapping
    /// separate cycleways and merging dual carriageways are decided on the roads' geometry and
    /// are left to the caller: for them nothing changes and the result is `false`; for the
    /// others it is `true`.
    pub fn apply(&self, streets: &mut StreetNetwork, lengths: &Vec<Distance>) -> (done: bool)
        requires
            ready_for(*self, *old(streets), lengths@),
        ensures
            final(streets).wf(),
            final(streets).config == old(streets).config,
            final(streets).road_counter() == old(streets).road_counter(),
            final(streets).intersection_counter() == old(streets).intersection_counter(),
            done == !(*self == Transformation::SnapCycleways || *self == Transformation::MergeDualCarriageways),
            transformed(*self, *old(streets), *final(streets), lengths@),
    {
        match self {
            Transformation::TrimDeadendCycleways => {
                trim_deadends(streets, lengths);
                true
            },
            Transformation::RemoveDisconnectedRoads => {
                streets.remove_disconnected_roads();
                true
            },
            Transformation::CollapseShortRoads => {
                collapse_all_junction_roads(streets);
                true
            },
            Transformation::CollapseDegenerateIntersections => {
                collapse(streets);
                true
            },
            Transformation::CollapseSausageLinks => {
                collapse_sausage_links(streets);
                true
            },
            Transformation::SnapCycleways | Transformation::MergeDualCarriageways => false,
        }
    }
}

} // verus!

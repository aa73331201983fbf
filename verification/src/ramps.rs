//! Which meetings of roads are shaped as highway on/off ramps, before any geometry is looked at.
use vstd::prelude::*;

use crate::road::Road;
use crate::strings::str_is_any;

verus! {

/// A highway type of a motorway or of a link road.
pub open spec fn is_ramp_highway(h: Seq<char>) -> bool {
    h == "motorway"@ || h == "motorway_link"@ || h == "primary_link"@ || h == "secondary_link"@
        || h == "tertiary_link"@ || h == "trunk_link"@
}

/// Exactly three roads meet, and one of them is a motorway or a link road.
pub open spec fn spec_on_off_ramp_candidate(types: Seq<Seq<char>>) -> bool {
    types.len() == 3 && exists|i: int| 0 <= i < types.len() && #[trigger] is_ramp_highway(types[i])
}

/// The highway types of some roads.
pub open spec fn highway_types(roads: Seq<&Road>) -> Seq<Seq<char>> {
    roads.map_values(|r: &Road| r.highway_type@)
}

/// Whether the roads meeting at an intersection are a candidate for the on/off ramp shape:
/// exactly three of them, one a motorway or a link road. Whether the shape then fits is a
/// question of geometry, left to the caller.
pub fn on_off_ramp_candidate(roads: &Vec<&Road>) -> (r: bool)
    ensures
        r == spec_on_off_ramp_candidate(highway_types(roads@)),
{
    let ghost types = highway_types(roads@);
    if roads.len() != 3 {
        return false;
    }
    let mut i: usize = 0;
    while i < roads.len()
        invariant
            types == highway_types(roads@),
            types.len() == roads@.len(),
            roads@.len() == 3,
            i <= roads@.len(),
            forall|j: int| 0 <= j < i ==> !#[trigger] is_ramp_highway(types[j]),
        decreases roads@.len() - i,
    {
        let found = str_is_any(
            roads[i].highway_type.as_str(),
            &["motorway", "motorway_link", "primary_link", "secondary_link", "tertiary_link", "trunk_link"],
        );
        assert(types[i as int] == roads@[i as int].highway_type@);
        assert(found == is_ramp_highway(types[i as int]));
        if found {
            return true;
        }
        i = i + 1;
    }
    false
}

} // verus!

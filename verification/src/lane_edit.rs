//! Edits of a list of lanes, each stated over the lanes' views.
use vstd::prelude::*;

use crate::lanes::{
    lanes_view, new_lane, Direction, LaneSpec, LaneSpecView, LaneType, LaneWidth, LaneWidthView,
};
use crate::strings::{split_char, split_seq};

verus! {

pub open spec fn lane_with_type(l: LaneSpecView, lt: LaneType) -> LaneSpecView {
    LaneSpecView { lt, dir: l.dir, width: l.width, turn_restrictions: l.turn_restrictions }
}

pub open spec fn lane_with_width(l: LaneSpecView, w: LaneWidthView) -> LaneSpecView {
    LaneSpecView { lt: l.lt, dir: l.dir, width: w, turn_restrictions: l.turn_restrictions }
}

pub open spec fn lane_with_turns(l: LaneSpecView, turns: Seq<Seq<char>>) -> LaneSpecView {
    LaneSpecView { lt: l.lt, dir: l.dir, width: l.width, turn_restrictions: turns }
}

/// The index of the first lane of type `lt`, or -1.
pub open spec fn first_index_lt(s: Seq<LaneSpecView>, lt: LaneType) -> int
    decreases s.len(),
{
    if s.len() == 0 {
        -1
    } else if s[0].lt == lt {
        0
    } else {
        let r = first_index_lt(s.drop_first(), lt);
        if r < 0 {
            -1
        } else {
            r + 1
        }
    }
}

/// The index of the last lane of type `lt`, or -1.
pub open spec fn last_index_lt(s: Seq<LaneSpecView>, lt: LaneType) -> int
    decreases s.len(),
{
    if s.len() == 0 {
        -1
    } else if s.last().lt == lt {
        s.len() - 1
    } else {
        last_index_lt(s.drop_last(), lt)
    }
}

pub proof fn lemma_first_index_lt(s: Seq<LaneSpecView>, lt: LaneType, i: int)
    requires
        0 <= i <= s.len(),
        forall|j: int| 0 <= j < i ==> s[j].lt != lt,
    ensures
        i < s.len() && s[i].lt == lt ==> first_index_lt(s, lt) == i,
        i == s.len() ==> first_index_lt(s, lt) == -1,
    decreases i,
{
    if i > 0 {
        lemma_first_index_lt(s.drop_first(), lt, i - 1);
    }
}

pub proof fn lemma_last_index_lt(s: Seq<LaneSpecView>, lt: LaneType, i: int)
    requires
        -1 <= i < s.len(),
        forall|j: int| i < j < s.len() ==> s[j].lt != lt,
    ensures
        i >= 0 && s[i].lt == lt ==> last_index_lt(s, lt) == i,
        i == -1 ==> last_index_lt(s, lt) == -1,
    decreases s.len(),
{
    if s.len() > 0 && i < s.len() - 1 {
        lemma_last_index_lt(s.drop_last(), lt, i);
    }
}

pub proof fn lemma_index_lt_bounds(s: Seq<LaneSpecView>, lt: LaneType)
    ensures
        -1 <= first_index_lt(s, lt) < s.len(),
        first_index_lt(s, lt) >= 0 ==> s[first_index_lt(s, lt)].lt == lt,
        -1 <= last_index_lt(s, lt) < s.len(),
        last_index_lt(s, lt) >= 0 ==> s[last_index_lt(s, lt)].lt == lt,
    decreases s.len(),
{
    if s.len() > 0 {
        lemma_index_lt_bounds(s.drop_first(), lt);
        lemma_index_lt_bounds(s.drop_last(), lt);
    }
}

/// A lane of type `lt` in direction `dir` with the default width for `highway_type`.
pub fn make_lane(highway_type: &str, lt: LaneType, dir: Direction) -> (r: LaneSpec)
    ensures
        r@ == new_lane(highway_type@, lt, dir),
{
    let widths = LaneSpec::typical_lane_widths(lt, highway_type);
    let r = LaneSpec {
        lt,
        dir,
        width: LaneWidth::Exact(widths[0].0),
        turn_restrictions: Vec::new(),
    };
    assert(r@.turn_restrictions =~= Seq::<Seq<char>>::empty());
    r
}

pub fn push_lane(v: &mut Vec<LaneSpec>, l: LaneSpec)
    ensures
        final(v)@.len() == old(v)@.len() + 1,
        lanes_view(final(v)@) == lanes_view(old(v)@).push(l@),
{
    v.push(l);
    assert(lanes_view(v@) =~= lanes_view(old(v)@).push(l@));
}

pub fn insert_lane(v: &mut Vec<LaneSpec>, i: usize, l: LaneSpec)
    requires
        i <= old(v)@.len(),
    ensures
        final(v)@.len() == old(v)@.len() + 1,
        lanes_view(final(v)@) == lanes_view(old(v)@).insert(i as int, l@),
{
    v.insert(i, l);
    assert(lanes_view(v@) =~= lanes_view(old(v)@).insert(i as int, l@));
}

pub fn set_lane_type(v: &mut Vec<LaneSpec>, i: usize, lt: LaneType)
    requires
        i < old(v)@.len(),
    ensures
        final(v)@.len() == old(v)@.len(),
        lanes_view(final(v)@) == lanes_view(old(v)@).update(
            i as int,
            lane_with_type(lanes_view(old(v)@)[i as int], lt),
        ),
{
    let mut l = v.remove(i);
    l.lt = lt;
    v.insert(i, l);
    assert(lanes_view(v@) =~= lanes_view(old(v)@).update(
        i as int,
        lane_with_type(lanes_view(old(v)@)[i as int], lt),
    ));
}

pub fn set_lane_width(v: &mut Vec<LaneSpec>, i: usize, w: LaneWidth)
    requires
        i < old(v)@.len(),
    ensures
        final(v)@.len() == old(v)@.len(),
        lanes_view(final(v)@) == lanes_view(old(v)@).update(
            i as int,
            lane_with_width(lanes_view(old(v)@)[i as int], w@),
        ),
{
    let mut l = v.remove(i);
    l.width = w;
    v.insert(i, l);
    assert(lanes_view(v@) =~= lanes_view(old(v)@).update(
        i as int,
        lane_with_width(lanes_view(old(v)@)[i as int], w@),
    ));
}

pub fn set_lane_turns(v: &mut Vec<LaneSpec>, i: usize, turns: Vec<String>)
    requires
        i < old(v)@.len(),
    ensures
        final(v)@.len() == old(v)@.len(),
        lanes_view(final(v)@) == lanes_view(old(v)@).update(
            i as int,
            lane_with_turns(lanes_view(old(v)@)[i as int], turns@.map_values(|s: String| s@)),
        ),
{
    let mut l = v.remove(i);
    l.turn_restrictions = turns;
    v.insert(i, l);
    assert(lanes_view(v@) =~= lanes_view(old(v)@).update(
        i as int,
        lane_with_turns(lanes_view(old(v)@)[i as int], turns@.map_values(|s: String| s@)),
    ));
}

/// The position of the first lane of type `lt`.
pub fn position_of_type(v: &Vec<LaneSpec>, lt: LaneType) -> (r: Option<usize>)
    ensures
        match r {
            Some(i) => first_index_lt(lanes_view(v@), lt) == i,
            None => first_index_lt(lanes_view(v@), lt) == -1,
        },
{
    let ghost s = lanes_view(v@);
    let mut i: usize = 0;
    while i < v.len()
        invariant
            s == lanes_view(v@),
            i <= v@.len(),
            forall|j: int| 0 <= j < i ==> s[j].lt != lt,
        decreases v@.len() - i,
    {
        assert(s[i as int] == v@[i as int]@);
        if v[i].lt == lt {
            proof {
                lemma_first_index_lt(s, lt, i as int);
            }
            return Some(i);
        }
        i = i + 1;
    }
    proof {
        lemma_first_index_lt(s, lt, i as int);
    }
    None
}

/// The position of the last lane of type `lt`.
pub fn last_position_of_type(v: &Vec<LaneSpec>, lt: LaneType) -> (r: Option<usize>)
    ensures
        match r {
            Some(i) => last_index_lt(lanes_view(v@), lt) == i,
            None => last_index_lt(lanes_view(v@), lt) == -1,
        },
{
    let ghost s = lanes_view(v@);
    let mut i: usize = v.len();
    while i > 0
        invariant
            s == lanes_view(v@),
            i <= v@.len(),
            forall|j: int| i <= j < s.len() ==> s[j].lt != lt,
        decreases i,
    {
        assert(s[i - 1] == v@[i - 1]@);
        if v[i - 1].lt == lt {
            proof {
                lemma_last_index_lt(s, lt, i - 1);
            }
            return Some(i - 1);
        }
        i = i - 1;
    }
    proof {
        lemma_last_index_lt(s, lt, -1);
    }
    None
}

/// The pieces of `s` between occurrences of `sep`, as owned text.
pub fn split_owned(s: &str, sep: char) -> (r: Vec<String>)
    ensures
        r@.map_values(|p: String| p@) == split_seq(s@, sep),
{
    let parts = split_char(s, sep);
    let mut r: Vec<String> = Vec::new();
    let mut i: usize = 0;
    while i < parts.len()
        invariant
            i <= parts@.len(),
            r@.map_values(|p: String| p@) == parts@.take(i as int).map_values(|p: &str| p@),
        decreases parts@.len() - i,
    {
        let ghost prev = r@.map_values(|p: String| p@);
        r.push(String::from_str(parts[i]));
        assert(r@.map_values(|p: String| p@) =~= prev.push(parts@[i as int]@));
        assert(parts@.take(i + 1).map_values(|p: &str| p@) =~= parts@.take(i as int).map_values(
            |p: &str| p@,
        ).push(parts@[i as int]@));
        i = i + 1;
    }
    assert(parts@.take(parts@.len() as int) =~= parts@);
    r
}

} // verus!

//! Small operations on sequences of roads and lanes.
use vstd::prelude::*;

use crate::ids::OriginalRoad;
use crate::lanes::Direction;
use crate::types::DrivingSide;

verus! {

/// Inserts all of `insert` at `idx` in `target`.
pub fn splice_in<T>(target: &mut Vec<T>, idx: usize, insert: Vec<T>)
    requires
        idx <= old(target)@.len(),
    ensures
        final(target)@ == old(target)@.take(idx as int) + insert@ + old(target)@.skip(idx as int),
{
    let mut tail = target.split_off(idx);
    let mut insert = insert;
    target.append(&mut insert);
    target.append(&mut tail);
}

/// Whether each road of `s` ends where the next one starts.
pub open spec fn chained(s: Seq<OriginalRoad>) -> bool {
    forall|i: int| 0 <= i < s.len() - 1 ==> (#[trigger] s[i]).i2 == s[i + 1].i1
}

fn is_chained(seq: &Vec<OriginalRoad>) -> (r: bool)
    ensures
        r == chained(seq@),
{
    let n = seq.len();
    if n == 0 {
        return true;
    }
    let mut i: usize = 0;
    while i < n - 1
        invariant
            n == seq@.len(),
            n > 0,
            forall|j: int| 0 <= j < i && j < n - 1 ==> (#[trigger] seq@[j]).i2 == seq@[j + 1].i1,
        decreases n - i,
    {
        if seq[i].i2 != seq[i + 1].i1 {
            return false;
        }
        i = i + 1;
    }
    true
}

/// The one-way roads of one side of a dual carriageway, ordered so that each points at the
/// next: as given, else reversed, else none when neither order chains.
pub open spec fn spec_orient_oneways(seq: Seq<OriginalRoad>) -> Option<Seq<OriginalRoad>> {
    if chained(seq) {
        Some(seq)
    } else if chained(seq.reverse()) {
        Some(seq.reverse())
    } else {
        None
    }
}

/// The input should already be ordered so that the first road points at the second, or reversed
/// relative to the way the one-ways are defined. Flip the order if needed.
pub fn orient_oneways(seq: Vec<OriginalRoad>) -> (r: Option<Vec<OriginalRoad>>)
    ensures
        match r {
            Some(v) => spec_orient_oneways(seq@) == Some(v@),
            None => spec_orient_oneways(seq@) is None,
        },
{
    if is_chained(&seq) {
        return Some(seq);
    }
    let ghost orig = seq@;
    let mut rev: Vec<OriginalRoad> = Vec::new();
    let mut i: usize = seq.len();
    while i > 0
        invariant
            i <= seq@.len(),
            seq@ == orig,
            rev@ == orig.skip(i as int).reverse(),
        decreases i,
    {
        rev.push(seq[i - 1]);
        assert(orig.skip(i - 1).reverse() =~= orig.skip(i as int).reverse().push(orig[i - 1]));
        i = i - 1;
    }
    assert(orig.skip(0) =~= orig);
    if is_chained(&rev) {
        return Some(rev);
    }
    None
}

/// The direction of the lane at `position` (counted in half-lanes from the left) relative to
/// the way, given where the centre line lies.
pub open spec fn spec_traffic_direction(position: int, centre_line: int, side: DrivingSide) -> Direction {
    if position + 1 == centre_line {
        Direction::Fwd
    } else if (position < centre_line) == (side == DrivingSide::Left) {
        Direction::Fwd
    } else {
        Direction::Back
    }
}

pub fn traffic_direction(position: u8, centre_line: u8, driving_side: DrivingSide) -> (r: Direction)
    requires
        position < 255,
    ensures
        r == spec_traffic_direction(position as int, centre_line as int, driving_side),
{
    if position + 1 == centre_line {
        return Direction::Fwd;
    }
    if (position < centre_line) == (driving_side == DrivingSide::Left) {
        Direction::Fwd
    } else {
        Direction::Back
    }
}

} // verus!

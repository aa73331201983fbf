//! How the movements through an intersection conflict with each other.
use vstd::prelude::*;

use crate::types::DrivingSide;

verus! {

/// How two movements through an intersection meet, from least to most severe.
#[derive(Clone, Copy, Debug, PartialEq, Eq, Structural)]
pub enum ConflictType {
    Uncontested,
    Diverge,
    Merge,
    Cross,
}

/// The severity of a conflict: its place in the order of `ConflictType`.
pub open spec fn conflict_rank(c: ConflictType) -> int {
    match c {
        ConflictType::Uncontested => 0,
        ConflictType::Diverge => 1,
        ConflictType::Merge => 2,
        ConflictType::Cross => 3,
    }
}

/// The more severe of two conflicts.
pub fn worse_conflict(a: ConflictType, b: ConflictType) -> (r: ConflictType)
    ensures
        r == (if conflict_rank(a) >= conflict_rank(b) {
            a
        } else {
            b
        }),
{
    let ra: u8 = match a {
        ConflictType::Uncontested => 0,
        ConflictType::Diverge => 1,
        ConflictType::Merge => 2,
        ConflictType::Cross => 3,
    };
    let rb: u8 = match b {
        ConflictType::Uncontested => 0,
        ConflictType::Diverge => 1,
        ConflictType::Merge => 2,
        ConflictType::Cross => 3,
    };
    if ra >= rb {
        a
    } else {
        b
    }
}

/// Whether `num` lies strictly between the two ends of `range`, in either order.
pub open spec fn spec_is_between(num: int, range: (int, int)) -> bool {
    let bot = if range.0 <= range.1 {
        range.0
    } else {
        range.1
    };
    let top = if range.0 <= range.1 {
        range.1
    } else {
        range.0
    };
    bot < num && num < top
}

pub fn is_between(num: usize, range: &(usize, usize)) -> (r: bool)
    ensures
        r == spec_is_between(num as int, (range.0 as int, range.1 as int)),
{
    let bot = if range.0 <= range.1 {
        range.0
    } else {
        range.1
    };
    let top = if range.0 <= range.1 {
        range.1
    } else {
        range.0
    };
    bot < num && num < top
}

/// How the movement `a` meets the movement `b`. A movement goes from one road to another, each
/// named by its place in the clockwise order of the roads around the intersection. Two
/// movements from different roads to different roads cross where exactly one end of one lies
/// between the ends of the other; where they share an end going opposite ways, the side of the
/// road that traffic keeps to decides.
pub open spec fn spec_calc_conflict(a: (int, int), b: (int, int), side: DrivingSide) -> ConflictType {
    if a.0 == b.0 && a.1 == b.1 {
        ConflictType::Uncontested
    } else if a.0 == b.0 {
        ConflictType::Diverge
    } else if a.1 == b.1 {
        ConflictType::Merge
    } else {
        let is_driving_side_between = (side == DrivingSide::Left) != (a.0 < a.1);
        if a.0 == b.1 {
            if is_driving_side_between != spec_is_between(b.0, a) {
                ConflictType::Cross
            } else {
                ConflictType::Uncontested
            }
        } else if a.1 == b.0 {
            if is_driving_side_between != spec_is_between(b.1, a) {
                ConflictType::Cross
            } else {
                ConflictType::Uncontested
            }
        } else if spec_is_between(a.0, b) != spec_is_between(a.1, b) {
            ConflictType::Cross
        } else {
            ConflictType::Uncontested
        }
    }
}

pub fn calc_conflict(a: &(usize, usize), b: &(usize, usize), side: DrivingSide) -> (r: ConflictType)
    ensures
        r == spec_calc_conflict(
            (a.0 as int, a.1 as int),
            (b.0 as int, b.1 as int),
            side,
        ),
{
    if a.0 == b.0 && a.1 == b.1 {
        return ConflictType::Uncontested;
    }
    if a.0 == b.0 {
        return ConflictType::Diverge;
    }
    if a.1 == b.1 {
        return ConflictType::Merge;
    }
    let is_driving_side_between = (side == DrivingSide::Left) ^ (a.0 < a.1);
    if a.0 == b.1 {
        return if is_driving_side_between ^ is_between(b.0, a) {
            ConflictType::Cross
        } else {
            ConflictType::Uncontested
        };
    }
    if a.1 == b.0 {
        return if is_driving_side_between ^ is_between(b.1, a) {
            ConflictType::Cross
        } else {
            ConflictType::Uncontested
        };
    }
    if is_between(a.0, b) ^ is_between(a.1, b) {
        return ConflictType::Cross;
    }
    ConflictType::Uncontested
}

} // verus!

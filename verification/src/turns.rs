//! Turn directions, as the OSM `turn` scheme names them.
use vstd::prelude::*;

use crate::lanes::TurnDirection;
use crate::strings::{split_char, split_seq, str_eq};

verus! {

/// A set of turn directions.
#[derive(Debug)]
pub struct TurnSet {
    members: Vec<TurnDirection>,
}

impl TurnSet {
    #[verifier::type_invariant]
    spec fn wf(&self) -> bool {
        self.members@.no_duplicates()
    }

    /// The empty set.
    pub fn empty() -> (r: TurnSet)
        ensures
            r@ == Set::<TurnDirection>::empty(),
    {
        let r = TurnSet { members: Vec::new() };
        assert(r.members@.to_set() =~= Set::<TurnDirection>::empty());
        r
    }

    /// The set holding `d` alone.
    pub fn only(d: TurnDirection) -> (r: TurnSet)
        ensures
            r@ == Set::<TurnDirection>::empty().insert(d),
    {
        let mut r = TurnSet::empty();
        r.insert(d);
        r
    }

    pub fn contains(&self, d: TurnDirection) -> (r: bool)
        ensures
            r == self@.contains(d),
    {
        let mut i: usize = 0;
        while i < self.members.len()
            invariant
                i <= self.members@.len(),
                forall|j: int| 0 <= j < i ==> self.members@[j] != d,
            decreases self.members@.len() - i,
        {
            if self.members[i] == d {
                assert(self.members@.to_set().contains(self.members@[i as int]));
                return true;
            }
            i = i + 1;
        }
        false
    }

    pub fn insert(&mut self, d: TurnDirection)
        ensures
            final(self)@ == old(self)@.insert(d),
    {
        proof {
            use_type_invariant(&*self);
        }
        if self.contains(d) {
            assert(self@.insert(d) =~= self@);
            return;
        }
        let mut members: Vec<TurnDirection> = Vec::new();
        std::mem::swap(&mut members, &mut self.members);
        let ghost old_members = members@;
        members.push(d);
        proof {
            old_members.lemma_push_to_set_commute(d);
        }
        assert(members@.no_duplicates()) by {
            assert forall|i: int, j: int|
                0 <= i < members@.len() && 0 <= j < members@.len() && i != j implies members@[i]
                != members@[j] by {
                if i == old_members.len() as int {
                    assert(old_members.to_set().contains(old_members[j]));
                } else if j == old_members.len() as int {
                    assert(old_members.to_set().contains(old_members[i]));
                }
            }
        }
        self.members = members;
    }

    /// The number of directions in the set.
    pub fn len(&self) -> (r: usize)
        ensures
            r == self@.len(),
    {
        proof {
            use_type_invariant(self);
            self.members@.unique_seq_to_set();
        }
        self.members.len()
    }
}

impl View for TurnSet {
    type V = Set<TurnDirection>;

    closed spec fn view(&self) -> Set<TurnDirection> {
        self.members@.to_set()
    }
}

/// The OSM tag value of a turn direction.
pub open spec fn spec_tag_value(d: TurnDirection) -> Seq<char> {
    match d {
        TurnDirection::Through => "through"@,
        TurnDirection::Left => "left"@,
        TurnDirection::Right => "right"@,
        TurnDirection::SlightLeft => "slight_left"@,
        TurnDirection::SlightRight => "slight_right"@,
        TurnDirection::SharpLeft => "sharp_left"@,
        TurnDirection::SharpRight => "sharp_right"@,
        TurnDirection::MergeLeft => "merge_left"@,
        TurnDirection::MergeRight => "merge_right"@,
        TurnDirection::Reverse => "reverse"@,
    }
}

/// The turn direction that a single `turn` value names; `None` for no turn, and `Err` for a
/// value that names nothing.
pub open spec fn spec_parse_turn(value: Seq<char>) -> Result<Option<TurnDirection>, Seq<char>> {
    if value.len() == 0 || value == "none"@ {
        Ok(None)
    } else if value == "through"@ {
        Ok(Some(TurnDirection::Through))
    } else if value == "left"@ {
        Ok(Some(TurnDirection::Left))
    } else if value == "right"@ {
        Ok(Some(TurnDirection::Right))
    } else if value == "slight_left"@ {
        Ok(Some(TurnDirection::SlightLeft))
    } else if value == "slight_right"@ {
        Ok(Some(TurnDirection::SlightRight))
    } else if value == "sharp_left"@ {
        Ok(Some(TurnDirection::SharpLeft))
    } else if value == "sharp_right"@ {
        Ok(Some(TurnDirection::SharpRight))
    } else if value == "merge_to_left"@ {
        Ok(Some(TurnDirection::MergeLeft))
    } else if value == "merge_to_right"@ {
        Ok(Some(TurnDirection::MergeRight))
    } else if value == "reverse"@ {
        Ok(Some(TurnDirection::Reverse))
    } else {
        Err(value)
    }
}

/// The directions that the first `n` parts of a `;`-separated `turn` value name, or the first
/// part among them that names nothing.
pub open spec fn spec_parse_parts(parts: Seq<Seq<char>>, n: int) -> Result<Set<TurnDirection>, Seq<
    char,
>>
    decreases n,
{
    if n <= 0 {
        Ok(Set::empty())
    } else {
        match spec_parse_parts(parts, n - 1) {
            Err(e) => Err(e),
            Ok(set) => match spec_parse_turn(parts[n - 1]) {
                Err(e) => Err(e),
                Ok(Some(d)) => Ok(set.insert(d)),
                Ok(None) => Ok(set),
            },
        }
    }
}

/// The set of directions that a `;`-separated `turn` value names.
pub open spec fn spec_parse_set(value: Seq<char>) -> Result<Set<TurnDirection>, Seq<char>> {
    spec_parse_parts(split_seq(value, ';'), split_seq(value, ';').len() as int)
}

/// A `turn` value that names no direction.
#[derive(Clone, Debug)]
pub struct UnknownTurnDirection(pub String);

impl UnknownTurnDirection {
    /// The message that describes the error.
    pub fn to_string(&self) -> (r: String)
        ensures
            r@ == "unknown turn direction: "@ + self.0@,
    {
        String::from_str("unknown turn direction: ").concat(self.0.as_str())
    }
}

impl TurnDirection {
    /// The angle of the turn, in degrees clockwise.
    pub fn turn_angle(&self) -> (r: i32)
        ensures
            -180 < r <= 180,
            r as int == (match *self {
                TurnDirection::Through => 0int,
                TurnDirection::SlightRight | TurnDirection::MergeRight => 45,
                TurnDirection::SlightLeft | TurnDirection::MergeLeft => -45,
                TurnDirection::Right => 90,
                TurnDirection::Left => -90,
                TurnDirection::SharpRight => 135,
                TurnDirection::SharpLeft => -135,
                TurnDirection::Reverse => 180,
            }),
    {
        match self {
            TurnDirection::Through => 0,
            TurnDirection::SlightRight => 45,
            TurnDirection::SlightLeft => -45,
            TurnDirection::MergeRight => 45,
            TurnDirection::MergeLeft => -45,
            TurnDirection::Right => 90,
            TurnDirection::Left => -90,
            TurnDirection::SharpRight => 135,
            TurnDirection::SharpLeft => -135,
            TurnDirection::Reverse => 180,
        }
    }

    pub fn is_merge(&self) -> (r: bool)
        ensures
            r == (*self == TurnDirection::MergeLeft || *self == TurnDirection::MergeRight),
    {
        match self {
            TurnDirection::MergeLeft | TurnDirection::MergeRight => true,
            _ => false,
        }
    }

    pub fn tag_value(&self) -> (r: &'static str)
        ensures
            r@ == spec_tag_value(*self),
    {
        match self {
            TurnDirection::Through => "through",
            TurnDirection::Left => "left",
            TurnDirection::Right => "right",
            TurnDirection::SlightLeft => "slight_left",
            TurnDirection::SlightRight => "slight_right",
            TurnDirection::SharpLeft => "sharp_left",
            TurnDirection::SharpRight => "sharp_right",
            TurnDirection::MergeLeft => "merge_left",
            TurnDirection::MergeRight => "merge_right",
            TurnDirection::Reverse => "reverse",
        }
    }

    /// Tries to parse a single turn direction from an osm tag value as per the `turn` scheme,
    /// defined at <https://wiki.openstreetmap.org/wiki/Key:turn>.
    pub fn parse(value: &str) -> (r: Result<Option<TurnDirection>, UnknownTurnDirection>)
        ensures
            match r {
                Ok(d) => spec_parse_turn(value@) == Ok::<Option<TurnDirection>, Seq<char>>(d),
                Err(e) => spec_parse_turn(value@) == Err::<Option<TurnDirection>, Seq<char>>(
                    e.0@,
                ),
            },
    {
        if value.unicode_len() == 0 || str_eq(value, "none") {
            Ok(None)
        } else if str_eq(value, "through") {
            Ok(Some(TurnDirection::Through))
        } else if str_eq(value, "left") {
            Ok(Some(TurnDirection::Left))
        } else if str_eq(value, "right") {
            Ok(Some(TurnDirection::Right))
        } else if str_eq(value, "slight_left") {
            Ok(Some(TurnDirection::SlightLeft))
        } else if str_eq(value, "slight_right") {
            Ok(Some(TurnDirection::SlightRight))
        } else if str_eq(value, "sharp_left") {
            Ok(Some(TurnDirection::SharpLeft))
        } else if str_eq(value, "sharp_right") {
            Ok(Some(TurnDirection::SharpRight))
        } else if str_eq(value, "merge_to_left") {
            Ok(Some(TurnDirection::MergeLeft))
        } else if str_eq(value, "merge_to_right") {
            Ok(Some(TurnDirection::MergeRight))
        } else if str_eq(value, "reverse") {
            Ok(Some(TurnDirection::Reverse))
        } else {
            Err(UnknownTurnDirection(String::from_str(value)))
        }
    }

    /// Tries to parse a set of turn directions from an OSM tag value according to the `turn`
    /// scheme defined at <https://wiki.openstreetmap.org/wiki/Key:turn>.
    pub fn parse_set(value: &str) -> (r: Result<TurnSet, UnknownTurnDirection>)
        ensures
            match r {
                Ok(set) => spec_parse_set(value@) == Ok::<Set<TurnDirection>, Seq<char>>(set@),
                Err(e) => spec_parse_set(value@) == Err::<Set<TurnDirection>, Seq<char>>(e.0@),
            },
    {
        let parts = split_char(value, ';');
        let ghost pv = parts@.map_values(|p: &str| p@);
        let mut result = TurnSet::empty();
        let mut i: usize = 0;
        while i < parts.len()
            invariant
                i <= parts@.len(),
                pv == parts@.map_values(|p: &str| p@),
                pv == split_seq(value@, ';'),
                spec_parse_parts(pv, i as int) == Ok::<Set<TurnDirection>, Seq<char>>(result@),
            decreases parts@.len() - i,
        {
            assert(pv[i as int] == parts@[i as int]@);
            match TurnDirection::parse(parts[i]) {
                Ok(Some(dir)) => {
                    result.insert(dir);
                },
                Ok(None) => {},
                Err(e) => {
                    proof {
                        lemma_parse_parts_err(pv, i as int + 1, pv.len() as int);
                    }
                    return Err(e);
                },
            }
            i = i + 1;
        }
        Ok(result)
    }
}

proof fn lemma_parse_parts_err(parts: Seq<Seq<char>>, i: int, n: int)
    requires
        0 < i <= n,
        spec_parse_parts(parts, i) is Err,
    ensures
        spec_parse_parts(parts, n) == spec_parse_parts(parts, i),
    decreases n - i,
{
    if i < n {
        lemma_parse_parts_err(parts, i, n - 1);
    }
}

} // verus!

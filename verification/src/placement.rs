//! Reading the OSM `placement` scheme.
use vstd::prelude::*;

use crate::lanes::{spec_position_reverse, LtrLaneNum, Placement, RoadPosition};
use crate::strings::{parse_usize, parse_usize_seq, split_once_char, split_once_seq, str_eq};
use crate::tags::Tags;

verus! {

/// Why a placement value could not be read.
#[derive(Clone, Debug)]
pub enum PlacementError {
    /// The part before `:` is not `left_of`, `middle_of` or `right_of`.
    UnknownLanePositionSpecifier(String),
    /// The part after `:` is not a lane number.
    BadLaneNumber(String),
    /// The value has no `:` and is not a known position.
    UnknownPlacementValue(String),
}

pub enum PlacementErrorView {
    UnknownLanePositionSpecifier(Seq<char>),
    BadLaneNumber(Seq<char>),
    UnknownPlacementValue(Seq<char>),
}

impl View for PlacementError {
    type V = PlacementErrorView;

    open spec fn view(&self) -> PlacementErrorView {
        match self {
            PlacementError::UnknownLanePositionSpecifier(s) => PlacementErrorView::UnknownLanePositionSpecifier(s@),
            PlacementError::BadLaneNumber(s) => PlacementErrorView::BadLaneNumber(s@),
            PlacementError::UnknownPlacementValue(s) => PlacementErrorView::UnknownPlacementValue(s@),
        }
    }
}

impl PlacementError {
    /// The message that describes the error.
    pub fn to_string(&self) -> (r: String)
        ensures
            r@ == (match self@ {
                PlacementErrorView::UnknownLanePositionSpecifier(s) => "unknown lane position specifier: "@ + s,
                PlacementErrorView::BadLaneNumber(s) => "bad lane number: "@ + s,
                PlacementErrorView::UnknownPlacementValue(s) => "unknown placement value: "@ + s,
            }),
    {
        match self {
            PlacementError::UnknownLanePositionSpecifier(s) => String::from_str(
                "unknown lane position specifier: ",
            ).concat(s.as_str()),
            PlacementError::BadLaneNumber(s) => String::from_str("bad lane number: ").concat(
                s.as_str(),
            ),
            PlacementError::UnknownPlacementValue(s) => String::from_str(
                "unknown placement value: ",
            ).concat(s.as_str()),
        }
    }
}

pub open spec fn result_view(r: Result<RoadPosition, PlacementError>) -> Result<
    RoadPosition,
    PlacementErrorView,
> {
    match r {
        Ok(p) => Ok(p),
        Err(e) => Err(e@),
    }
}

pub open spec fn placement_result_view(r: Result<Placement, PlacementError>) -> Result<
    Placement,
    PlacementErrorView,
> {
    match r {
        Ok(p) => Ok(p),
        Err(e) => Err(e@),
    }
}

/// What a `placement` value means, read as in the forward direction.
/// See https://wiki.openstreetmap.org/wiki/Proposed_features/placement#Tagging
pub open spec fn spec_parse_position(value: Seq<char>) -> Result<RoadPosition, PlacementErrorView> {
    if value.len() == 0 {
        Ok(RoadPosition::Center)
    } else if value == "separation"@ {
        Ok(RoadPosition::Separation)
    } else {
        match split_once_seq(value, ':') {
            Some((kind, lane_str)) => match parse_usize_seq(lane_str) {
                Some(lane) => if kind == "left_of"@ {
                    Ok(RoadPosition::LeftOf(LtrLaneNum::Forward(lane)))
                } else if kind == "middle_of"@ {
                    Ok(RoadPosition::MiddleOf(LtrLaneNum::Forward(lane)))
                } else if kind == "right_of"@ {
                    Ok(RoadPosition::RightOf(LtrLaneNum::Forward(lane)))
                } else {
                    Err(PlacementErrorView::UnknownLanePositionSpecifier(kind))
                },
                None => Err(PlacementErrorView::BadLaneNumber(lane_str)),
            },
            None => Err(PlacementErrorView::UnknownPlacementValue(value)),
        }
    }
}

/// The value of tag `k`, or the empty text when it is not set.
pub open spec fn tag_or_empty(t: Map<Seq<char>, Seq<char>>, k: Seq<char>) -> Seq<char> {
    if t.contains_key(k) {
        t[k]
    } else {
        Seq::empty()
    }
}

pub open spec fn reversed_result(r: Result<RoadPosition, PlacementErrorView>) -> Result<
    RoadPosition,
    PlacementErrorView,
> {
    match r {
        Ok(p) => Ok(spec_position_reverse(p)),
        Err(e) => Err(e),
    }
}

pub open spec fn varying(
    start: Result<RoadPosition, PlacementErrorView>,
    end: Result<RoadPosition, PlacementErrorView>,
) -> Result<Placement, PlacementErrorView> {
    match start {
        Err(e) => Err(e),
        Ok(s) => match end {
            Err(e) => Err(e),
            Ok(e) => Ok(Placement::Varying(s, e)),
        },
    }
}

pub open spec fn consistent(p: Result<RoadPosition, PlacementErrorView>) -> Result<
    Placement,
    PlacementErrorView,
> {
    match p {
        Err(e) => Err(e),
        Ok(p) => Ok(Placement::Consistent(p)),
    }
}

/// What a set of tags says of the placement, in the first form of the scheme that they use.
pub open spec fn spec_parse_placement(t: Map<Seq<char>, Seq<char>>) -> Result<
    Placement,
    PlacementErrorView,
> {
    if t.contains_key("placement"@) {
        if t["placement"@] == "transition"@ {
            Ok(Placement::Transition)
        } else {
            consistent(spec_parse_position(t["placement"@]))
        }
    } else if t.contains_key("placement:start"@) || t.contains_key("placement:end"@) {
        varying(
            spec_parse_position(tag_or_empty(t, "placement:start"@)),
            spec_parse_position(tag_or_empty(t, "placement:end"@)),
        )
    } else if t.contains_key("placement:forward"@) {
        consistent(spec_parse_position(t["placement:forward"@]))
    } else if t.contains_key("placement:forward:start"@) || t.contains_key(
        "placement:forward:end"@,
    ) {
        varying(
            spec_parse_position(tag_or_empty(t, "placement:forward:start"@)),
            spec_parse_position(tag_or_empty(t, "placement:forward:end"@)),
        )
    } else if t.contains_key("placement:backward"@) {
        consistent(reversed_result(spec_parse_position(t["placement:backward"@])))
    } else if t.contains_key("placement:backward:start"@) || t.contains_key(
        "placement:backward:end"@,
    ) {
        varying(
            reversed_result(spec_parse_position(tag_or_empty(t, "placement:backward:start"@))),
            reversed_result(spec_parse_position(tag_or_empty(t, "placement:backward:end"@))),
        )
    } else {
        Ok(Placement::Consistent(RoadPosition::Center))
    }
}

impl RoadPosition {
    /// Tries to parse a road position from an osm tag value as per the `placement` scheme.
    /// See https://wiki.openstreetmap.org/wiki/Proposed_features/placement#Tagging
    ///
    /// The direction is treated as forward, use `reverse()` on the result if the context is
    /// backward.
    pub fn parse(value: &str) -> (r: Result<RoadPosition, PlacementError>)
        ensures
            result_view(r) == spec_parse_position(value@),
    {
        if value.unicode_len() == 0 {
            return Ok(RoadPosition::Center);
        }
        if str_eq(value, "separation") {
            return Ok(RoadPosition::Separation);
        }
        if let Some((kind, lane_str)) = split_once_char(value, ':') {
            if let Some(lane) = parse_usize(lane_str) {
                if str_eq(kind, "left_of") {
                    Ok(RoadPosition::LeftOf(LtrLaneNum::Forward(lane)))
                } else if str_eq(kind, "middle_of") {
                    Ok(RoadPosition::MiddleOf(LtrLaneNum::Forward(lane)))
                } else if str_eq(kind, "right_of") {
                    Ok(RoadPosition::RightOf(LtrLaneNum::Forward(lane)))
                } else {
                    Err(PlacementError::UnknownLanePositionSpecifier(String::from_str(kind)))
                }
            } else {
                Err(PlacementError::BadLaneNumber(String::from_str(lane_str)))
            }
        } else {
            Err(PlacementError::UnknownPlacementValue(String::from_str(value)))
        }
    }
}

/// Reads the position in tag `k`, or the default position when it is not set.
fn parse_tag_or_empty(tags: &Tags, k: &str) -> (r: Result<RoadPosition, PlacementError>)
    ensures
        result_view(r) == spec_parse_position(tag_or_empty(tags@, k@)),
{
    match tags.get(k) {
        Some(v) => RoadPosition::parse(v.as_str()),
        None => {
            proof {
                reveal_strlit("");
            }
            RoadPosition::parse("")
        },
    }
}

fn reversed(r: Result<RoadPosition, PlacementError>) -> (out: Result<RoadPosition, PlacementError>)
    ensures
        result_view(out) == reversed_result(result_view(r)),
{
    match r {
        Ok(p) => Ok(p.reverse()),
        Err(e) => Err(e),
    }
}

fn make_varying(
    start: Result<RoadPosition, PlacementError>,
    end: Result<RoadPosition, PlacementError>,
) -> (r: Result<Placement, PlacementError>)
    ensures
        placement_result_view(r) == varying(result_view(start), result_view(end)),
{
    let s = start?;
    let e = end?;
    Ok(Placement::Varying(s, e))
}

fn make_consistent(p: Result<RoadPosition, PlacementError>) -> (r: Result<
    Placement,
    PlacementError,
>)
    ensures
        placement_result_view(r) == consistent(result_view(p)),
{
    let p = p?;
    Ok(Placement::Consistent(p))
}

impl Placement {
    /// Tries to parse a placement from a set of OSM tags according to the `placement` scheme.
    /// See https://wiki.openstreetmap.org/wiki/Proposed_features/placement#Tagging
    ///
    /// Limitations:
    /// - Doesn't validate tag combos, just returns the first interpretation it finds.
    /// - Doesn't allow `:end` and `:start` to mix `:forward` and `:back`.
    pub fn parse(tags: &Tags) -> (r: Result<Placement, PlacementError>)
        ensures
            placement_result_view(r) == spec_parse_placement(tags@),
    {
        if let Some(transition_or_pos) = tags.get("placement") {
            if str_eq(transition_or_pos.as_str(), "transition") {
                Ok(Placement::Transition)
            } else {
                make_consistent(RoadPosition::parse(transition_or_pos.as_str()))
            }
        } else if tags.contains_key("placement:start") || tags.contains_key("placement:end") {
            make_varying(
                parse_tag_or_empty(tags, "placement:start"),
                parse_tag_or_empty(tags, "placement:end"),
            )
        } else if let Some(pos) = tags.get("placement:forward") {
            make_consistent(RoadPosition::parse(pos.as_str()))
        } else if tags.contains_key("placement:forward:start") || tags.contains_key(
            "placement:forward:end",
        ) {
            make_varying(
                parse_tag_or_empty(tags, "placement:forward:start"),
                parse_tag_or_empty(tags, "placement:forward:end"),
            )
        } else if let Some(backwards_pos) = tags.get("placement:backward") {
            make_consistent(reversed(RoadPosition::parse(backwards_pos.as_str())))
        } else if tags.contains_key("placement:backward:start") || tags.contains_key(
            "placement:backward:end",
        ) {
            make_varying(
                reversed(parse_tag_or_empty(tags, "placement:backward:start")),
                reversed(parse_tag_or_empty(tags, "placement:backward:end")),
            )
        } else {
            Ok(Placement::Consistent(RoadPosition::Center))
        }
    }
}

} // verus!

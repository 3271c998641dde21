//! Which part of a box a page holds when the box is split across pages.
use vstd::prelude::*;

verus! {

/// The place of a box fragment in its box. Corner radii apply only to the
/// corners on edges that the fragment really has: a box continued on the
/// next page has no bottom edge on this one.
#[derive(Clone, Copy, PartialEq, Eq, Structural, Debug)]
pub enum FragmentPosition {
    /// The box is not split.
    Whole,
    /// The first fragment: only the top corners are rounded.
    First,
    /// Neither first nor last: no corner is rounded.
    Middle,
    /// The last fragment: only the bottom corners are rounded.
    Last,
}

impl Default for FragmentPosition {
    fn default() -> (r: Self)
        ensures
            r == FragmentPosition::Whole,
    {
        FragmentPosition::Whole
    }
}

/// The fragment that holds the box's start (`is_first`) and/or its end
/// (`is_last`).
pub open spec fn spec_fragment_position(is_first: bool, is_last: bool) -> FragmentPosition {
    if is_first && is_last {
        FragmentPosition::Whole
    } else if is_first {
        FragmentPosition::First
    } else if is_last {
        FragmentPosition::Last
    } else {
        FragmentPosition::Middle
    }
}

/// The position of a fragment from whether it holds the start and the end
/// of its box.
pub fn fragment_position(is_first: bool, is_last: bool) -> (r: FragmentPosition)
    ensures
        r == spec_fragment_position(is_first, is_last),
{
    match (is_first, is_last) {
        (true, true) => FragmentPosition::Whole,
        (true, false) => FragmentPosition::First,
        (false, true) => FragmentPosition::Last,
        (false, false) => FragmentPosition::Middle,
    }
}

/// Whether the fragment has the box's top edge, whose corners may be
/// rounded.
pub fn rounds_top_corners(p: FragmentPosition) -> (r: bool)
    ensures
        r == (p == FragmentPosition::Whole || p == FragmentPosition::First),
{
    match p {
        FragmentPosition::Whole | FragmentPosition::First => true,
        _ => false,
    }
}

/// Whether the fragment has the box's bottom edge, whose corners may be
/// rounded.
pub fn rounds_bottom_corners(p: FragmentPosition) -> (r: bool)
    ensures
        r == (p == FragmentPosition::Whole || p == FragmentPosition::Last),
{
    match p {
        FragmentPosition::Whole | FragmentPosition::Last => true,
        _ => false,
    }
}

/// A fragment rounds its top corners exactly when it holds the start of the
/// box, and its bottom corners exactly when it holds the end.
pub proof fn lemma_rounded_corners_follow_the_edges(is_first: bool, is_last: bool)
    ensures
        ({
            let p = spec_fragment_position(is_first, is_last);
            &&& (p == FragmentPosition::Whole || p == FragmentPosition::First) == is_first
            &&& (p == FragmentPosition::Whole || p == FragmentPosition::Last) == is_last
        }),
{
}

} // verus!

//! What block layout reads from the computed style before any geometry:
//! the style of a box and the fragmentation properties it carries to
//! pagination.
use vstd::prelude::*;
use std::collections::HashMap;
use crate::html::NodeId;
use crate::layout::box_tree::LayoutBox;
use crate::style::{spec_default_style, BreakBetween, BreakInside, ComputedStyle, Display};
use vstd::std_specs::convert::FromSpecImpl;

verus! {

broadcast use vstd::std_specs::hash::group_hash_axioms;

/// The CSS Fragmentation values of a laid-out box, which pagination reads
/// to decide where a page may break (they do not change the layout).
#[derive(Clone, Copy, PartialEq, Eq, Structural, Debug)]
pub struct FragmentationHints {
    pub break_before: BreakBetween,
    pub break_after: BreakBetween,
    pub break_inside: BreakInside,
    pub orphans: u32,
    pub widows: u32,
}

/// The hints a style gives.
pub open spec fn spec_hints_of(style: ComputedStyle) -> FragmentationHints {
    FragmentationHints {
        break_before: style.break_before,
        break_after: style.break_after,
        break_inside: style.break_inside,
        orphans: style.orphans,
        widows: style.widows,
    }
}

impl<'a> From<&'a ComputedStyle> for FragmentationHints {
    fn from(style: &'a ComputedStyle) -> (r: Self) {
        FragmentationHints {
            break_before: style.break_before,
            break_after: style.break_after,
            break_inside: style.break_inside,
            orphans: style.orphans,
            widows: style.widows,
        }
    }
}

impl<'a> FromSpecImpl<&'a ComputedStyle> for FragmentationHints {
    open spec fn obeys_from_spec() -> bool {
        true
    }

    open spec fn from_spec(v: &'a ComputedStyle) -> Self {
        spec_hints_of(*v)
    }
}

impl Default for FragmentationHints {
    /// The hints of the initial style: breaks `auto`, two orphans, two
    /// widows.
    fn default() -> (r: Self)
        ensures
            r == spec_hints_of(spec_default_style()),
    {
        let style = ComputedStyle::default();
        FragmentationHints::from(&style)
    }
}

/// The style of a box: its element's computed style, or for an anonymous
/// box (CSS 2.1 §9.2.1.1) a block with the initial values, which has no
/// margin, padding or border.
pub open spec fn spec_box_style(node: Option<NodeId>, styles: Map<NodeId, ComputedStyle>) -> ComputedStyle {
    match node {
        Some(n) => styles[n],
        None => ComputedStyle { display: Display::Block, ..spec_default_style() },
    }
}

/// The style of `b`. Every element that generated a box has a computed
/// style.
pub fn box_style(b: &LayoutBox, styles: &HashMap<NodeId, ComputedStyle>) -> (r: ComputedStyle)
    requires
        b.node matches Some(n) ==> styles@.contains_key(n),
    ensures
        r == spec_box_style(b.node, styles@),
{
    match b.node {
        Some(node) => match styles.get(&node) {
            Some(s) => s.clone(),
            None => ComputedStyle::default(),
        },
        None => {
            let mut s = ComputedStyle::default();
            s.display = Display::Block;
            s
        },
    }
}

} // verus!

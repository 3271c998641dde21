//! The decorations of a box split across pages.
//!
//! When a block container does not fit on the page, its children (or
//! lines) are placed one by one and may spill onto following pages. The
//! container's background and borders are then redrawn on every page that
//! received part of its content: each such page gets a decoration fragment,
//! inserted before the content placed there. Only the first fragment keeps
//! the top edge (margin, border, padding, rounded corners) and only the last
//! one keeps the bottom edge.
use vstd::prelude::*;
use crate::layout::geometry::{fragment_position, spec_fragment_position, FragmentPosition};

verus! {

/// A run of a split box's content: the page it went to and where on that
/// page (the index among the page's boxes) it started.
#[derive(Clone, Copy, PartialEq, Eq, Structural, Debug)]
pub struct Segment {
    pub page_index: usize,
    pub start_index: usize,
}

/// A decoration fragment to insert: the page, the index to insert it at,
/// and which edges of the box it holds.
#[derive(Clone, Copy, PartialEq, Eq, Structural, Debug)]
pub struct DecorationFragment {
    pub page_index: usize,
    pub insert_index: usize,
    pub position: FragmentPosition,
}

/// The segments that really received content: the page now holds boxes
/// beyond the segment's start.
pub open spec fn spec_filled_segments(segments: Seq<Segment>, page_box_counts: Seq<usize>) -> Seq<Segment>
    decreases segments.len(),
{
    if segments.len() == 0 {
        segments
    } else {
        let rest = spec_filled_segments(segments.drop_last(), page_box_counts);
        let s = segments.last();
        if page_box_counts[s.page_index as int] > s.start_index {
            rest.push(s)
        } else {
            rest
        }
    }
}

/// One fragment per filled segment, in order; the first holds the top edge
/// and the last the bottom edge.
pub open spec fn spec_decoration_fragments(segments: Seq<Segment>, page_box_counts: Seq<usize>) -> Seq<
    DecorationFragment,
> {
    let filled = spec_filled_segments(segments, page_box_counts);
    Seq::new(
        filled.len(),
        |i: int|
            DecorationFragment {
                page_index: filled[i].page_index,
                insert_index: filled[i].start_index,
                position: spec_fragment_position(i == 0, i == filled.len() - 1),
            },
    )
}

/// The decoration fragments of a split box whose content went to
/// `segments`, given how many boxes each page holds after the placement.
pub fn decoration_fragments(segments: &Vec<Segment>, page_box_counts: &Vec<usize>) -> (r: Vec<DecorationFragment>)
    requires
        forall|k: int| 0 <= k < segments@.len() ==> (#[trigger] segments@[k]).page_index < page_box_counts@.len(),
    ensures
        r@ == spec_decoration_fragments(segments@, page_box_counts@),
{
    let mut filled: Vec<Segment> = Vec::new();
    let mut k: usize = 0;
    while k < segments.len()
        invariant
            k <= segments@.len(),
            forall|j: int| 0 <= j < segments@.len() ==> (#[trigger] segments@[j]).page_index < page_box_counts@.len(),
            filled@ == spec_filled_segments(segments@.take(k as int), page_box_counts@),
        decreases segments@.len() - k,
    {
        let s = segments[k];
        proof {
            assert(segments@.take(k + 1).drop_last() =~= segments@.take(k as int));
        }
        if page_box_counts[s.page_index] > s.start_index {
            filled.push(s);
        }
        k = k + 1;
    }
    assert(segments@.take(k as int) =~= segments@);
    let n = filled.len();
    let mut out: Vec<DecorationFragment> = Vec::new();
    let mut i: usize = 0;
    while i < n
        invariant
            n == filled@.len(),
            i <= n,
            out@.len() == i,
            forall|j: int|
                0 <= j < i ==> #[trigger] out@[j] == (DecorationFragment {
                    page_index: filled@[j].page_index,
                    insert_index: filled@[j].start_index,
                    position: spec_fragment_position(j == 0, j == n - 1),
                }),
        decreases n - i,
    {
        let s = filled[i];
        let position = fragment_position(i == 0, i + 1 == n);
        out.push(DecorationFragment { page_index: s.page_index, insert_index: s.start_index, position });
        i = i + 1;
    }
    assert(out@ =~= spec_decoration_fragments(segments@, page_box_counts@));
    out
}

/// A split box has its top edge drawn on exactly one page and its bottom
/// edge on exactly one page: the first fragment holds the top, the last
/// holds the bottom, and every fragment in between holds neither.
pub proof fn lemma_one_top_and_one_bottom(segments: Seq<Segment>, page_box_counts: Seq<usize>)
    ensures
        ({
            let f = spec_decoration_fragments(segments, page_box_counts);
            &&& forall|i: int|
                0 <= i < f.len() ==> ((#[trigger] f[i]).position == FragmentPosition::Whole
                    || f[i].position == FragmentPosition::First) == (i == 0)
            &&& forall|i: int|
                0 <= i < f.len() ==> ((#[trigger] f[i]).position == FragmentPosition::Whole
                    || f[i].position == FragmentPosition::Last) == (i == f.len() - 1)
        }),
{
}

} // verus!

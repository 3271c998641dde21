use sghtmltopdf_core::layout::geometry::FragmentPosition;
use sghtmltopdf_core::layout::paginate::{decoration_fragments, DecorationFragment, Segment};

fn seg(page_index: usize, start_index: usize) -> Segment {
    Segment { page_index, start_index }
}

fn frag(page_index: usize, insert_index: usize, position: FragmentPosition) -> DecorationFragment {
    DecorationFragment { page_index, insert_index, position }
}

#[test]
fn a_box_split_over_three_pages_gets_first_middle_and_last_fragments() {
    let fragments = decoration_fragments(&vec![seg(0, 2), seg(1, 0), seg(2, 0)], &vec![4, 6, 1]);
    assert_eq!(
        fragments,
        vec![
            frag(0, 2, FragmentPosition::First),
            frag(1, 0, FragmentPosition::Middle),
            frag(2, 0, FragmentPosition::Last),
        ]
    );
}

#[test]
fn pages_that_received_nothing_get_no_fragment() {
    // The first child moved straight to the next page: nothing of the box
    // stayed on page 0.
    let fragments = decoration_fragments(&vec![seg(0, 3), seg(1, 0), seg(2, 0)], &vec![3, 2, 0]);
    assert_eq!(fragments, vec![frag(1, 0, FragmentPosition::Whole)]);
    assert_eq!(decoration_fragments(&vec![seg(0, 1)], &vec![1]), vec![]);
}

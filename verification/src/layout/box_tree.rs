//! Builds the layout box tree from the document and its computed styles.
//!
//! Elements with `display: none` and their subtrees produce no box. When the
//! children of a block container mix block-level and inline-level content,
//! consecutive inline content is wrapped in an anonymous block box
//! (CSS 2.1 §9.2.1.1), which has no node. Inline elements are flattened into
//! one [`InlineSpan`] per text node, so that every piece of text keeps the
//! computed style of the node it came from; `::before`/`::after` content
//! becomes a span carrying the host element's node.
//!
//! `<img>` elements are first built like any other block; [`resolve_images`]
//! then replaces their content with the decoded image, so that building the
//! tree depends on the document and its styles alone.
use vstd::prelude::*;
use std::collections::HashMap;
use crate::html::{
    attr_value, down_step, is_child, is_down_path, lemma_child_after_parent, lemma_down_path_goes_down,
    lemma_down_paths_share_their_tail, spec_node_attr, tree_shape, Dom, Node, NodeData, NodeId,
};
use crate::img::{read_img_attrs, spec_dimension, spec_lookup, ImageAssetCache, PreparedImage};
use crate::style::{CaptionSide, ComputedStyle, Display};
use crate::text::{is_blank, parse_usize, spec_is_blank, spec_parse_usize, str_equals};
use vstd::std_specs::iter::IteratorSpec;

verus! {

broadcast use vstd::std_specs::hash::group_hash_axioms;

/// A box of the layout tree.
pub struct LayoutBox {
    /// The element that generated the box; `None` for an anonymous box.
    pub node: Option<NodeId>,
    pub content: BoxContent,
}

/// What a box contains.
pub enum BoxContent {
    Blocks(Vec<LayoutBox>),
    /// The content of an inline formatting context.
    Inline(Vec<InlineSpan>),
    /// The rows and cells of a `display: table` element.
    Table(TableBox),
    /// An `<img>` element, a replaced element (see [`resolve_images`]).
    Image(ImageBoxContent),
}

/// The content of an `<img>` element.
#[derive(Clone, Copy, PartialEq, Eq, Structural, Debug)]
pub struct ImageBoxContent {
    /// The decoded image, or `None` when it could not be fetched or decoded
    /// (layout then treats the element as an empty replaced element).
    pub image: Option<PreparedImage>,
    /// The `width` and `height` attributes, hints weaker than CSS sizes.
    pub attr_width: Option<u32>,
    pub attr_height: Option<u32>,
}

/// The rows of a `display: table` element and its optional caption.
pub struct TableBox {
    /// The first `display: table-caption` child, if any.
    pub caption: Option<Box<LayoutBox>>,
    /// `caption-side` of the caption (`Top` when there is none).
    pub caption_side: CaptionSide,
    pub rows: Vec<TableRow>,
}

/// A `display: table-row` element.
pub struct TableRow {
    pub node: NodeId,
    pub cells: Vec<TableCell>,
}

/// A `display: table-cell` element.
pub struct TableCell {
    pub node: NodeId,
    /// The `colspan` attribute (1 when absent or not a positive integer).
    pub colspan: usize,
    /// The `rowspan` attribute (1 when absent or not a positive integer;
    /// `rowspan="0"` is also read as 1).
    pub rowspan: usize,
    /// The cell's own content.
    pub content: LayoutBox,
}

/// A piece of text with a single computed style: the text of one text node,
/// or generated content.
pub struct InlineSpan {
    /// The node whose computed style applies to the text.
    pub node: NodeId,
    pub text: String,
    /// The span holds the `::first-letter` of its block.
    pub is_first_letter: bool,
    /// The span is a forced line break (`<br>`); its text is `"\n"`.
    pub is_forced_break: bool,
}

// ---------------------------------------------------------------------------
// Mathematical model of boxes.
// ---------------------------------------------------------------------------

/// The model of an [`InlineSpan`].
pub struct SpanView {
    pub node: NodeId,
    pub text: Seq<char>,
    pub is_first_letter: bool,
    pub is_forced_break: bool,
}

/// The model of a [`LayoutBox`].
pub struct BoxView {
    pub node: Option<NodeId>,
    pub content: ContentView,
}

/// The model of a [`BoxContent`].
pub enum ContentView {
    Blocks(Seq<BoxView>),
    Inline(Seq<SpanView>),
    Table(TableView),
    Image(ImageBoxContent),
}

/// The model of a [`TableBox`].
pub struct TableView {
    pub caption: Option<Box<BoxView>>,
    pub caption_side: CaptionSide,
    pub rows: Seq<RowView>,
}

/// The model of a [`TableRow`].
pub struct RowView {
    pub node: NodeId,
    pub cells: Seq<CellView>,
}

/// The model of a [`TableCell`].
pub struct CellView {
    pub node: NodeId,
    pub colspan: usize,
    pub rowspan: usize,
    pub content: BoxView,
}

impl View for InlineSpan {
    type V = SpanView;

    open spec fn view(&self) -> SpanView {
        SpanView {
            node: self.node,
            text: self.text@,
            is_first_letter: self.is_first_letter,
            is_forced_break: self.is_forced_break,
        }
    }
}

pub open spec fn spans_view(s: Seq<InlineSpan>) -> Seq<SpanView> {
    s.map_values(|sp: InlineSpan| sp@)
}

pub open spec fn box_view(b: LayoutBox) -> BoxView
    decreases b,
{
    BoxView {
        node: b.node,
        content: match b.content {
            BoxContent::Blocks(v) => ContentView::Blocks(boxes_view(v@)),
            BoxContent::Inline(v) => ContentView::Inline(spans_view(v@)),
            BoxContent::Table(t) => ContentView::Table(table_view(t)),
            BoxContent::Image(i) => ContentView::Image(i),
        },
    }
}

pub open spec fn boxes_view(s: Seq<LayoutBox>) -> Seq<BoxView>
    decreases s,
{
    if s.len() == 0 {
        Seq::empty()
    } else {
        seq![box_view(s[0])] + boxes_view(s.subrange(1, s.len() as int))
    }
}

pub open spec fn table_view(t: TableBox) -> TableView
    decreases t,
{
    TableView {
        caption: match t.caption {
            Some(c) => Some(Box::new(box_view(*c))),
            None => None,
        },
        caption_side: t.caption_side,
        rows: rows_view(t.rows@),
    }
}

pub open spec fn row_view(r: TableRow) -> RowView
    decreases r,
{
    RowView { node: r.node, cells: cells_view(r.cells@) }
}

pub open spec fn rows_view(s: Seq<TableRow>) -> Seq<RowView>
    decreases s,
{
    if s.len() == 0 {
        Seq::empty()
    } else {
        seq![row_view(s[0])] + rows_view(
            s.subrange(1, s.len() as int),
        )
    }
}

pub open spec fn cells_view(s: Seq<TableCell>) -> Seq<CellView>
    decreases s,
{
    if s.len() == 0 {
        Seq::empty()
    } else {
        seq![
            CellView {
                node: s[0].node,
                colspan: s[0].colspan,
                rowspan: s[0].rowspan,
                content: box_view(s[0].content),
            },
        ] + cells_view(s.subrange(1, s.len() as int))
    }
}


// ---------------------------------------------------------------------------
// What the box tree of a document is.
// ---------------------------------------------------------------------------

/// How a child of a block container takes part in its parent's content.
#[derive(Clone, Copy, PartialEq, Eq, Structural, Debug)]
pub enum ChildKind {
    /// Generates no box (`display: none`, white-space-only text, ...).
    Skipped,
    Block,
    Inline,
}

/// The number of children of node `n` (0 for an id outside the document).
pub open spec fn nk(nodes: Seq<Node>, n: int) -> int {
    if 0 <= n < nodes.len() {
        nodes[n].children@.len() as int
    } else {
        0
    }
}

/// The `k`-th child of `n`.
pub open spec fn kid(nodes: Seq<Node>, n: int, k: int) -> NodeId {
    nodes[n].children@[k]
}

/// The computed style of `n`, if it has one.
pub open spec fn spec_style(st: Map<NodeId, ComputedStyle>, n: NodeId) -> Option<ComputedStyle> {
    if st.contains_key(n) {
        Some(st[n])
    } else {
        None
    }
}

pub open spec fn spec_display(st: Map<NodeId, ComputedStyle>, n: NodeId) -> Option<Display> {
    match spec_style(st, n) {
        Some(s) => Some(s.display),
        None => None,
    }
}

/// How node `c` takes part in its parent's content: `<img>` is always a
/// block; other elements follow `display`; text is inline unless it is
/// white space only.
pub open spec fn spec_child_kind(nodes: Seq<Node>, st: Map<NodeId, ComputedStyle>, c: NodeId) -> ChildKind {
    match nodes[c as int].data {
        NodeData::Element { name, .. } => {
            let display = spec_display(st, c);
            if display == Some(Display::NoneKeyword) {
                ChildKind::Skipped
            } else if name@ == "img"@ {
                ChildKind::Block
            } else {
                match display {
                    Some(Display::Block) | Some(Display::Table) => ChildKind::Block,
                    Some(Display::Inline) => ChildKind::Inline,
                    _ => ChildKind::Skipped,
                }
            }
        },
        NodeData::Text { contents } => if spec_is_blank(contents@) {
            ChildKind::Skipped
        } else {
            ChildKind::Inline
        },
        _ => ChildKind::Skipped,
    }
}

pub open spec fn span_view(node: NodeId, text: Seq<char>) -> SpanView {
    SpanView { node, text, is_first_letter: false, is_forced_break: false }
}

/// The span of `n`'s `::before` content, if it has one.
pub open spec fn spec_before(st: Map<NodeId, ComputedStyle>, n: NodeId) -> Seq<SpanView> {
    match spec_style(st, n) {
        Some(s) => match s.pseudo_before_content {
            Some(t) => seq![span_view(n, t@)],
            None => Seq::empty(),
        },
        None => Seq::empty(),
    }
}

/// The span of `n`'s `::after` content, if it has one.
pub open spec fn spec_after(st: Map<NodeId, ComputedStyle>, n: NodeId) -> Seq<SpanView> {
    match spec_style(st, n) {
        Some(s) => match s.pseudo_after_content {
            Some(t) => seq![span_view(n, t@)],
            None => Seq::empty(),
        },
        None => Seq::empty(),
    }
}

/// The spans of an inline subtree in document order: one per text node,
/// with each element's generated content around its children.
pub open spec fn spec_collect_spans(nodes: Seq<Node>, st: Map<NodeId, ComputedStyle>, n: NodeId) -> Seq<SpanView>
    decreases nodes.len() - n, 1 + nk(nodes, n as int),
{
    if n >= nodes.len() {
        Seq::empty()
    } else {
        match nodes[n as int].data {
            NodeData::Text { contents } => seq![span_view(n, contents@)],
            NodeData::Element { .. } => spec_before(st, n) + spec_spans_of_children(
                nodes,
                st,
                n,
                nk(nodes, n as int),
            ) + spec_after(st, n),
            _ => Seq::empty(),
        }
    }
}

/// The spans of the first `k` children of `n`.
pub open spec fn spec_spans_of_children(
    nodes: Seq<Node>,
    st: Map<NodeId, ComputedStyle>,
    n: NodeId,
    k: int,
) -> Seq<SpanView>
    decreases nodes.len() - n, k,
{
    if k <= 0 || n >= nodes.len() || k > nk(nodes, n as int) {
        Seq::empty()
    } else {
        let c = kid(nodes, n as int, k - 1);
        spec_spans_of_children(nodes, st, n, k - 1) + if n < c < nodes.len() {
            spec_collect_spans(nodes, st, c)
        } else {
            Seq::empty()
        }
    }
}

/// The spans of the first `k` children of `n` that are inline-level.
pub open spec fn spec_inline_children(
    nodes: Seq<Node>,
    st: Map<NodeId, ComputedStyle>,
    n: NodeId,
    k: int,
) -> Seq<SpanView>
    decreases k,
{
    if k <= 0 || n >= nodes.len() || k > nk(nodes, n as int) {
        Seq::empty()
    } else {
        let c = kid(nodes, n as int, k - 1);
        spec_inline_children(nodes, st, n, k - 1) + if n < c < nodes.len() && spec_child_kind(
            nodes,
            st,
            c,
        ) == ChildKind::Inline {
            spec_collect_spans(nodes, st, c)
        } else {
            Seq::empty()
        }
    }
}

/// Whether some child of `n` is block-level.
pub open spec fn spec_has_block_child(nodes: Seq<Node>, st: Map<NodeId, ComputedStyle>, n: NodeId) -> bool {
    exists|j: int|
        0 <= j < nk(nodes, n as int) && spec_child_kind(nodes, st, #[trigger] kid(nodes, n as int, j))
            == ChildKind::Block
}

/// Whether all pending spans are white space only.
pub open spec fn all_blank(spans: Seq<SpanView>) -> bool {
    forall|i: int| 0 <= i < spans.len() ==> spec_is_blank(#[trigger] spans[i].text)
}

/// Closes the pending inline content into an anonymous block box, unless it
/// is white space only.
pub open spec fn spec_flush(result: Seq<BoxView>, pending: Seq<SpanView>) -> Seq<BoxView> {
    if all_blank(pending) {
        result
    } else {
        result.push(BoxView { node: None, content: ContentView::Inline(pending) })
    }
}

pub open spec fn opt_seq(b: Option<BoxView>) -> Seq<BoxView> {
    match b {
        Some(x) => seq![x],
        None => Seq::empty(),
    }
}

/// An empty inline box for node `n`.
pub open spec fn empty_box(n: NodeId) -> BoxView {
    BoxView { node: Some(n), content: ContentView::Inline(Seq::empty()) }
}

/// A positive integer attribute such as `colspan`, or 1.
pub open spec fn spec_span_attr(value: Option<String>) -> usize {
    match value {
        Some(v) => match spec_parse_usize(v@) {
            Some(k) => if k > 0 {
                k
            } else {
                1
            },
            None => 1,
        },
        None => 1,
    }
}

/// The box generated by element `n`, if any.
pub open spec fn spec_box_for_element(nodes: Seq<Node>, st: Map<NodeId, ComputedStyle>, n: NodeId) -> Option<BoxView>
    decreases nodes.len() - n, nk(nodes, n as int) + 3,
{
    if n >= nodes.len() {
        None
    } else {
        match spec_style(st, n) {
            None => None,
            Some(s) => if s.display == Display::NoneKeyword {
                None
            } else if s.display == Display::Table {
                Some(
                    BoxView {
                        node: Some(n),
                        content: ContentView::Table(spec_table_box(nodes, st, n)),
                    },
                )
            } else if spec_has_block_child(nodes, st, n) {
                Some(
                    BoxView {
                        node: Some(n),
                        content: ContentView::Blocks(spec_children_boxes(nodes, st, n)),
                    },
                )
            } else {
                Some(
                    BoxView {
                        node: Some(n),
                        content: ContentView::Inline(
                            spec_before(st, n) + spec_inline_children(
                                nodes,
                                st,
                                n,
                                nk(nodes, n as int),
                            ) + spec_after(st, n),
                        ),
                    },
                )
            },
        }
    }
}

/// An element whose content is inline (it is displayed, is not a table and
/// has no block-level child) gets an inline box of its own whose spans are
/// its `::before` content first, then its children's spans, then its
/// `::after` content last: the generated content sits around everything the
/// children give.
pub proof fn lemma_inline_box_is_wrapped_in_generated_content(
    nodes: Seq<Node>,
    st: Map<NodeId, ComputedStyle>,
    n: NodeId,
)
    requires
        n < nodes.len(),
        st.contains_key(n),
        st[n].display != Display::NoneKeyword,
        st[n].display != Display::Table,
        !spec_has_block_child(nodes, st, n),
    ensures
        ({
            let b = spec_box_for_element(nodes, st, n);
            &&& b is Some
            &&& b->0.node == Some(n)
            &&& b->0.content is Inline
            &&& ({
                let spans = b->0.content->Inline_0;
                let kids = spec_inline_children(nodes, st, n, nk(nodes, n as int));
                let lead: int = if st[n].pseudo_before_content is Some { 1 } else { 0 };
                let tail: int = if st[n].pseudo_after_content is Some { 1 } else { 0 };
                &&& spans.len() == lead + kids.len() + tail
                &&& spans.subrange(lead, lead + kids.len()) == kids
                &&& st[n].pseudo_before_content is Some ==> spans[0] == span_view(
                    n,
                    st[n].pseudo_before_content->0@,
                )
                &&& st[n].pseudo_after_content is Some ==> spans.last() == span_view(
                    n,
                    st[n].pseudo_after_content->0@,
                )
            })
        }),
{
    let spans = spec_before(st, n) + spec_inline_children(nodes, st, n, nk(nodes, n as int)) + spec_after(st, n);
    let kids = spec_inline_children(nodes, st, n, nk(nodes, n as int));
    let lead = spec_before(st, n).len() as int;
    assert(spans.subrange(lead, lead + kids.len()) =~= kids);
}

/// The boxes of the children of `n`, with inline runs wrapped in anonymous
/// blocks.
pub open spec fn spec_children_boxes(nodes: Seq<Node>, st: Map<NodeId, ComputedStyle>, n: NodeId) -> Seq<BoxView>
    decreases nodes.len() - n, nk(nodes, n as int) + 2,
{
    let state = spec_children_state(nodes, st, n, nk(nodes, n as int));
    spec_flush(state.0, state.1)
}

/// The finished boxes and the pending inline spans after the first `k`
/// children of `n`.
pub open spec fn spec_children_state(
    nodes: Seq<Node>,
    st: Map<NodeId, ComputedStyle>,
    n: NodeId,
    k: int,
) -> (Seq<BoxView>, Seq<SpanView>)
    decreases nodes.len() - n, k + 1,
{
    if k <= 0 || n >= nodes.len() || k > nk(nodes, n as int) {
        (Seq::empty(), Seq::empty())
    } else {
        let prev = spec_children_state(nodes, st, n, k - 1);
        let c = kid(nodes, n as int, k - 1);
        if !(n < c < nodes.len()) {
            prev
        } else {
            match spec_child_kind(nodes, st, c) {
                ChildKind::Skipped => prev,
                ChildKind::Block => (
                    spec_flush(prev.0, prev.1) + opt_seq(spec_box_for_element(nodes, st, c)),
                    Seq::empty(),
                ),
                ChildKind::Inline => (prev.0, prev.1 + spec_collect_spans(nodes, st, c)),
            }
        }
    }
}

/// The table built for the `display: table` element `n`.
pub open spec fn spec_table_box(nodes: Seq<Node>, st: Map<NodeId, ComputedStyle>, n: NodeId) -> TableView
    decreases nodes.len() - n, nk(nodes, n as int) + 2,
{
    let collected = spec_collect_rows(nodes, st, n, nk(nodes, n as int), None);
    let caption_node = collected.1;
    TableView {
        caption: match caption_node {
            Some(c) => if n < c < nodes.len() {
                match spec_box_for_element(nodes, st, c) {
                    Some(b) => Some(Box::new(b)),
                    None => None,
                }
            } else {
                None
            },
            None => None,
        },
        caption_side: match caption_node {
            Some(c) => match spec_style(st, c) {
                Some(s) => s.caption_side,
                None => CaptionSide::Top,
            },
            None => CaptionSide::Top,
        },
        rows: collected.0,
    }
}

/// The rows found among the first `k` children of `n` (looking through row
/// groups but not into nested tables) and the first caption seen, starting
/// from `caption`.
pub open spec fn spec_collect_rows(
    nodes: Seq<Node>,
    st: Map<NodeId, ComputedStyle>,
    n: NodeId,
    k: int,
    caption: Option<NodeId>,
) -> (Seq<RowView>, Option<NodeId>)
    decreases nodes.len() - n, k + 1,
{
    if k <= 0 || n >= nodes.len() || k > nk(nodes, n as int) {
        (Seq::empty(), caption)
    } else {
        let prev = spec_collect_rows(nodes, st, n, k - 1, caption);
        let c = kid(nodes, n as int, k - 1);
        if !(n < c < nodes.len()) {
            prev
        } else {
            match spec_display(st, c) {
                Some(Display::TableRow) => (prev.0.push(spec_build_row(nodes, st, c)), prev.1),
                Some(Display::TableCaption) => (
                    prev.0,
                    if prev.1 is None {
                        Some(c)
                    } else {
                        prev.1
                    },
                ),
                Some(Display::Table) | Some(Display::NoneKeyword) | None => prev,
                _ => {
                    let inner = spec_collect_rows(nodes, st, c, nk(nodes, c as int), prev.1);
                    (prev.0 + inner.0, inner.1)
                },
            }
        }
    }
}

/// The row built for the `display: table-row` element `r`.
pub open spec fn spec_build_row(nodes: Seq<Node>, st: Map<NodeId, ComputedStyle>, r: NodeId) -> RowView
    decreases nodes.len() - r, nk(nodes, r as int) + 2,
{
    RowView { node: r, cells: spec_row_cells(nodes, st, r, nk(nodes, r as int)) }
}

/// The cells among the first `k` children of row `r`.
pub open spec fn spec_row_cells(
    nodes: Seq<Node>,
    st: Map<NodeId, ComputedStyle>,
    r: NodeId,
    k: int,
) -> Seq<CellView>
    decreases nodes.len() - r, k + 1,
{
    if k <= 0 || r >= nodes.len() || k > nk(nodes, r as int) {
        Seq::empty()
    } else {
        let prev = spec_row_cells(nodes, st, r, k - 1);
        let c = kid(nodes, r as int, k - 1);
        if n_lt(r, c, nodes.len()) && spec_display(st, c) == Some(Display::TableCell) {
            prev.push(
                CellView {
                    node: c,
                    colspan: spec_span_attr(spec_node_attr(nodes, c as int, "colspan"@)),
                    rowspan: spec_span_attr(spec_node_attr(nodes, c as int, "rowspan"@)),
                    content: match spec_box_for_element(nodes, st, c) {
                        Some(b) => b,
                        None => empty_box(c),
                    },
                },
            )
        } else {
            prev
        }
    }
}

pub open spec fn n_lt(a: NodeId, b: NodeId, len: nat) -> bool {
    a < b < len
}

/// The box tree of a whole document: an anonymous block holding the boxes
/// of the document node's children.
pub open spec fn spec_build_box_tree(nodes: Seq<Node>, st: Map<NodeId, ComputedStyle>) -> BoxView {
    BoxView { node: None, content: ContentView::Blocks(spec_children_boxes(nodes, st, 0)) }
}

// ---------------------------------------------------------------------------
// Construction.
// ---------------------------------------------------------------------------

/// The computed style of `node`, if it has one.
fn style_of<'a>(styles: &'a HashMap<NodeId, ComputedStyle>, node: NodeId) -> (r: Option<&'a ComputedStyle>)
    ensures
        r is None <==> spec_style(styles@, node) is None,
        r is Some ==> spec_style(styles@, node) == Some(*r->0),
{
    styles.get(&node)
}

/// How `node` takes part in its parent's content.
fn child_kind(dom: &Dom, styles: &HashMap<NodeId, ComputedStyle>, node: NodeId) -> (r: ChildKind)
    requires
        node < dom@.len(),
    ensures
        r == spec_child_kind(dom@, styles@, node),
{
    match &dom.node(node).data {
        NodeData::Element { name, .. } => {
            let display = match style_of(styles, node) {
                Some(s) => Some(s.display),
                None => None,
            };
            if display == Some(Display::NoneKeyword) {
                return ChildKind::Skipped;
            }
            if str_equals(name.as_str(), "img") {
                return ChildKind::Block;
            }
            match display {
                Some(Display::Block) | Some(Display::Table) => ChildKind::Block,
                Some(Display::Inline) => ChildKind::Inline,
                Some(Display::TableRow) | Some(Display::TableCell) | Some(Display::TableCaption) => {
                    ChildKind::Skipped
                },
                Some(Display::NoneKeyword) | None => ChildKind::Skipped,
            }
        },
        NodeData::Text { contents } => {
            if is_blank(contents.as_str()) {
                ChildKind::Skipped
            } else {
                ChildKind::Inline
            }
        },
        _ => ChildKind::Skipped,
    }
}

proof fn lemma_spans_view_push(s: Seq<InlineSpan>, x: InlineSpan)
    ensures
        spans_view(s.push(x)) == spans_view(s).push(x@),
{
    assert(spans_view(s.push(x)) =~= spans_view(s).push(x@));
}

/// Pushes the span of `node`'s `::before` content, if any.
fn push_before_content(styles: &HashMap<NodeId, ComputedStyle>, node: NodeId, out: &mut Vec<InlineSpan>)
    ensures
        spans_view(final(out)@) == spans_view(old(out)@) + spec_before(styles@, node),
{
    if let Some(s) = style_of(styles, node) {
        if let Some(text) = &s.pseudo_before_content {
            let span = InlineSpan {
                node,
                text: text.clone(),
                is_first_letter: false,
                is_forced_break: false,
            };
            proof {
                lemma_spans_view_push(out@, span);
            }
            out.push(span);
            return;
        }
    }
    assert(spans_view(old(out)@) + Seq::<SpanView>::empty() =~= spans_view(old(out)@));
}

/// Pushes the span of `node`'s `::after` content, if any.
fn push_after_content(styles: &HashMap<NodeId, ComputedStyle>, node: NodeId, out: &mut Vec<InlineSpan>)
    ensures
        spans_view(final(out)@) == spans_view(old(out)@) + spec_after(styles@, node),
{
    if let Some(s) = style_of(styles, node) {
        if let Some(text) = &s.pseudo_after_content {
            let span = InlineSpan {
                node,
                text: text.clone(),
                is_first_letter: false,
                is_forced_break: false,
            };
            proof {
                lemma_spans_view_push(out@, span);
            }
            out.push(span);
            return;
        }
    }
    assert(spans_view(old(out)@) + Seq::<SpanView>::empty() =~= spans_view(old(out)@));
}

/// Appends the spans of the inline subtree at `node` to `out`: one per text
/// node, with each element's generated content around its children.
fn collect_spans(dom: &Dom, styles: &HashMap<NodeId, ComputedStyle>, node: NodeId, out: &mut Vec<InlineSpan>)
    requires
        dom.wf(),
        node < dom@.len(),
    ensures
        spans_view(final(out)@) == spans_view(old(out)@) + spec_collect_spans(dom@, styles@, node),
    decreases dom@.len() - node, 1 + nk(dom@, node as int),
{
    match &dom.node(node).data {
        NodeData::Text { contents } => {
            let span = InlineSpan {
                node,
                text: contents.clone(),
                is_first_letter: false,
                is_forced_break: false,
            };
            proof {
                lemma_spans_view_push(out@, span);
            }
            out.push(span);
        },
        NodeData::Element { .. } => {
            let ghost start = spans_view(out@);
            push_before_content(styles, node, out);
            let kids = dom.children(node);
            let n = kids.len();
            let mut i: usize = 0;
            while i < n
                invariant
                    dom.wf(),
                    node < dom@.len(),
                    kids@ == dom@[node as int].children@,
                    n == kids@.len(),
                    i <= n,
                    spans_view(out@) == start + spec_before(styles@, node) + spec_spans_of_children(
                        dom@,
                        styles@,
                        node,
                        i as int,
                    ),
                decreases n - i,
            {
                let c = kids[i];
                assert(node < c < dom@.len()) by {
                    assert(c == dom@[node as int].children@[i as int]);
                }
                collect_spans(dom, styles, c, out);
                assert(kid(dom@, node as int, i as int) == c);
                i = i + 1;
                assert(spans_view(out@) == start + spec_before(styles@, node) + spec_spans_of_children(
                    dom@,
                    styles@,
                    node,
                    i as int,
                )) by {
                    assert(spec_spans_of_children(dom@, styles@, node, i as int)
                        == spec_spans_of_children(dom@, styles@, node, i - 1) + spec_collect_spans(
                        dom@,
                        styles@,
                        c,
                    ));
                    assert(spans_view(out@) =~= start + spec_before(styles@, node)
                        + spec_spans_of_children(dom@, styles@, node, i as int));
                }
            }
            push_after_content(styles, node, out);
        },
        _ => {
            assert(spans_view(old(out)@) + Seq::<SpanView>::empty() =~= spans_view(old(out)@));
        },
    }
}

proof fn lemma_boxes_view_push(s: Seq<LayoutBox>, b: LayoutBox)
    ensures
        boxes_view(s.push(b)) == boxes_view(s).push(box_view(b)),
    decreases s.len(),
{
    if s.len() == 0 {
        assert(s.push(b).subrange(1, 1) =~= Seq::<LayoutBox>::empty());
        assert(boxes_view(Seq::<LayoutBox>::empty()) == Seq::<BoxView>::empty());
        assert(s =~= Seq::<LayoutBox>::empty());
        assert(boxes_view(s.push(b)) =~= boxes_view(s).push(box_view(b)));
    } else {
        let t = s.subrange(1, s.len() as int);
        lemma_boxes_view_push(t, b);
        assert(s.push(b).subrange(1, s.len() as int + 1) =~= t.push(b));
        assert(boxes_view(s.push(b)) =~= boxes_view(s).push(box_view(b)));
    }
}

proof fn lemma_rows_view_push(s: Seq<TableRow>, r: TableRow)
    ensures
        rows_view(s.push(r)) == rows_view(s).push(row_view(r)),
    decreases s.len(),
{
    let rv = row_view(r);
    if s.len() == 0 {
        assert(s.push(r).subrange(1, 1) =~= Seq::<TableRow>::empty());
        assert(rows_view(Seq::<TableRow>::empty()) == Seq::<RowView>::empty());
        assert(s =~= Seq::<TableRow>::empty());
        assert(rows_view(s.push(r)) =~= rows_view(s).push(rv));
    } else {
        let t = s.subrange(1, s.len() as int);
        lemma_rows_view_push(t, r);
        assert(s.push(r).subrange(1, s.len() as int + 1) =~= t.push(r));
        assert(rows_view(s.push(r)) =~= rows_view(s).push(rv));
    }
}

proof fn lemma_cells_view_push(s: Seq<TableCell>, c: TableCell)
    ensures
        cells_view(s.push(c)) == cells_view(s).push(
            CellView { node: c.node, colspan: c.colspan, rowspan: c.rowspan, content: box_view(c.content) },
        ),
    decreases s.len(),
{
    let cv = CellView { node: c.node, colspan: c.colspan, rowspan: c.rowspan, content: box_view(c.content) };
    if s.len() == 0 {
        assert(s.push(c).subrange(1, 1) =~= Seq::<TableCell>::empty());
        assert(cells_view(Seq::<TableCell>::empty()) == Seq::<CellView>::empty());
        assert(s =~= Seq::<TableCell>::empty());
        assert(cells_view(s.push(c)) =~= cells_view(s).push(cv));
    } else {
        let t = s.subrange(1, s.len() as int);
        lemma_cells_view_push(t, c);
        assert(s.push(c).subrange(1, s.len() as int + 1) =~= t.push(c));
        assert(cells_view(s.push(c)) =~= cells_view(s).push(cv));
    }
}

/// The caption recorded while collecting rows is the one given, or a node
/// after the table element.
proof fn lemma_collect_rows_caption(
    nodes: Seq<Node>,
    st: Map<NodeId, ComputedStyle>,
    n: NodeId,
    k: int,
    caption: Option<NodeId>,
)
    ensures
        spec_collect_rows(nodes, st, n, k, caption).1 == caption || (spec_collect_rows(
            nodes,
            st,
            n,
            k,
            caption,
        ).1 matches Some(x) && n < x < nodes.len()),
    decreases nodes.len() - n, k + 1,
{
    if k <= 0 || n >= nodes.len() || k > nk(nodes, n as int) {
    } else {
        lemma_collect_rows_caption(nodes, st, n, k - 1, caption);
        let prev = spec_collect_rows(nodes, st, n, k - 1, caption);
        let c = kid(nodes, n as int, k - 1);
        if n < c < nodes.len() {
            match spec_display(st, c) {
                Some(Display::TableRow) | Some(Display::TableCaption) | Some(Display::Table) | Some(
                    Display::NoneKeyword,
                ) | None => {},
                _ => {
                    lemma_collect_rows_caption(nodes, st, c, nk(nodes, c as int), prev.1);
                },
            }
        }
    }
}

/// Whether every pending span is white space only.
fn all_spans_blank(pending: &Vec<InlineSpan>) -> (r: bool)
    ensures
        r == all_blank(spans_view(pending@)),
{
    let n = pending.len();
    let mut i: usize = 0;
    while i < n
        invariant
            n == pending@.len(),
            i <= n,
            forall|j: int| 0 <= j < i ==> spec_is_blank(#[trigger] pending@[j].text@),
        decreases n - i,
    {
        if !is_blank(pending[i].text.as_str()) {
            assert(spans_view(pending@)[i as int].text == pending@[i as int].text@);
            return false;
        }
        i = i + 1;
    }
    assert forall|j: int| 0 <= j < spans_view(pending@).len() implies spec_is_blank(
        #[trigger] spans_view(pending@)[j].text,
    ) by {
        assert(spans_view(pending@)[j].text == pending@[j].text@);
    }
    true
}

/// Closes the pending inline content into an anonymous block box unless it
/// is white space only, and empties `pending`.
fn flush_pending_spans(pending: &mut Vec<InlineSpan>, result: &mut Vec<LayoutBox>)
    ensures
        boxes_view(final(result)@) == spec_flush(boxes_view(old(result)@), spans_view(old(pending)@)),
        final(pending)@.len() == 0,
{
    if !all_spans_blank(pending) {
        let mut taken: Vec<InlineSpan> = Vec::new();
        std::mem::swap(&mut taken, pending);
        let b = LayoutBox { node: None, content: BoxContent::Inline(taken) };
        proof {
            lemma_boxes_view_push(result@, b);
        }
        result.push(b);
    }
    pending.clear();
}

/// Whether some child of `node` is block-level.
fn has_block_child(dom: &Dom, styles: &HashMap<NodeId, ComputedStyle>, node: NodeId) -> (r: bool)
    requires
        dom.wf(),
        node < dom@.len(),
    ensures
        r == spec_has_block_child(dom@, styles@, node),
{
    let kids = dom.children(node);
    let n = kids.len();
    let mut i: usize = 0;
    while i < n
        invariant
            dom.wf(),
            node < dom@.len(),
            kids@ == dom@[node as int].children@,
            n == kids@.len(),
            i <= n,
            forall|j: int|
                0 <= j < i ==> spec_child_kind(dom@, styles@, #[trigger] kid(dom@, node as int, j))
                    != ChildKind::Block,
        decreases n - i,
    {
        let c = kids[i];
        assert(c == kid(dom@, node as int, i as int));
        assert(c < dom@.len());
        if child_kind(dom, styles, c) == ChildKind::Block {
            return true;
        }
        i = i + 1;
    }
    false
}

/// Builds the box of element `node` and its subtree; `None` when it has no
/// computed style or is `display: none`.
pub fn build_box_for_element(dom: &Dom, styles: &HashMap<NodeId, ComputedStyle>, node: NodeId) -> (r: Option<LayoutBox>)
    requires
        dom.wf(),
        node < dom@.len(),
    ensures
        r is None <==> spec_box_for_element(dom@, styles@, node) is None,
        r is Some ==> spec_box_for_element(dom@, styles@, node) == Some(box_view(r->0)),
    decreases dom@.len() - node, nk(dom@, node as int) + 3,
{
    let style = match style_of(styles, node) {
        Some(s) => s,
        None => {
            return None;
        },
    };
    if style.display == Display::NoneKeyword {
        return None;
    }
    if style.display == Display::Table {
        let table = build_table_box(dom, styles, node);
        return Some(LayoutBox { node: Some(node), content: BoxContent::Table(table) });
    }
    if has_block_child(dom, styles, node) {
        let children = build_children_boxes(dom, styles, node);
        return Some(LayoutBox { node: Some(node), content: BoxContent::Blocks(children) });
    }
    let mut spans: Vec<InlineSpan> = Vec::new();
    push_before_content(styles, node, &mut spans);
    let kids = dom.children(node);
    let n = kids.len();
    let mut i: usize = 0;
    while i < n
        invariant
            dom.wf(),
            node < dom@.len(),
            kids@ == dom@[node as int].children@,
            n == kids@.len(),
            i <= n,
            spans_view(spans@) == Seq::<SpanView>::empty() + spec_before(styles@, node)
                + spec_inline_children(dom@, styles@, node, i as int),
        decreases n - i,
    {
        let c = kids[i];
        assert(c == kid(dom@, node as int, i as int));
        assert(node < c < dom@.len());
        if child_kind(dom, styles, c) == ChildKind::Inline {
            collect_spans(dom, styles, c, &mut spans);
        }
        i = i + 1;
        assert(spans_view(spans@) =~= Seq::<SpanView>::empty() + spec_before(styles@, node)
            + spec_inline_children(dom@, styles@, node, i as int));
    }
    push_after_content(styles, node, &mut spans);
    let b = LayoutBox { node: Some(node), content: BoxContent::Inline(spans) };
    assert(box_view(b).content == ContentView::Inline(spans_view(spans@)));
    assert(spans_view(spans@) =~= spec_before(styles@, node) + spec_inline_children(
        dom@,
        styles@,
        node,
        nk(dom@, node as int),
    ) + spec_after(styles@, node));
    Some(b)
}

/// Builds the boxes of the children of `parent`, wrapping runs of inline
/// content in anonymous block boxes.
fn build_children_boxes(dom: &Dom, styles: &HashMap<NodeId, ComputedStyle>, parent: NodeId) -> (r: Vec<LayoutBox>)
    requires
        dom.wf(),
        parent < dom@.len(),
    ensures
        boxes_view(r@) == spec_children_boxes(dom@, styles@, parent),
    decreases dom@.len() - parent, nk(dom@, parent as int) + 2,
{
    let mut result: Vec<LayoutBox> = Vec::new();
    let mut pending: Vec<InlineSpan> = Vec::new();
    let kids = dom.children(parent);
    let n = kids.len();
    let mut i: usize = 0;
    assert(boxes_view(result@) =~= Seq::<BoxView>::empty());
    assert(spans_view(pending@) =~= Seq::<SpanView>::empty());
    while i < n
        invariant
            dom.wf(),
            parent < dom@.len(),
            kids@ == dom@[parent as int].children@,
            n == kids@.len(),
            i <= n,
            (boxes_view(result@), spans_view(pending@)) == spec_children_state(
                dom@,
                styles@,
                parent,
                i as int,
            ),
        decreases n - i,
    {
        let c = kids[i];
        assert(c == kid(dom@, parent as int, i as int));
        assert(parent < c < dom@.len());
        match child_kind(dom, styles, c) {
            ChildKind::Skipped => {},
            ChildKind::Block => {
                flush_pending_spans(&mut pending, &mut result);
                let built = build_box_for_element(dom, styles, c);
                let ghost flushed = result@;
                if let Some(b) = built {
                    proof {
                        lemma_boxes_view_push(result@, b);
                    }
                    result.push(b);
                }
                assert(boxes_view(result@) =~= boxes_view(flushed) + opt_seq(
                    spec_box_for_element(dom@, styles@, c),
                ));
                assert(spans_view(pending@) =~= Seq::<SpanView>::empty());
            },
            ChildKind::Inline => {
                collect_spans(dom, styles, c, &mut pending);
            },
        }
        i = i + 1;
    }
    flush_pending_spans(&mut pending, &mut result);
    result
}

/// Builds the table of the `display: table` element `table_node`.
fn build_table_box(dom: &Dom, styles: &HashMap<NodeId, ComputedStyle>, table_node: NodeId) -> (r: TableBox)
    requires
        dom.wf(),
        table_node < dom@.len(),
    ensures
        table_view(r) == spec_table_box(dom@, styles@, table_node),
    decreases dom@.len() - table_node, nk(dom@, table_node as int) + 2,
{
    let mut rows: Vec<TableRow> = Vec::new();
    let mut caption_node: Option<NodeId> = None;
    collect_table_rows(dom, styles, table_node, &mut rows, &mut caption_node);
    proof {
        lemma_collect_rows_caption(dom@, styles@, table_node, nk(dom@, table_node as int), None);
        assert(rows_view(Seq::<TableRow>::empty()) =~= Seq::<RowView>::empty());
        assert(rows_view(rows@) =~= spec_collect_rows(
            dom@,
            styles@,
            table_node,
            nk(dom@, table_node as int),
            None,
        ).0);
    }
    let caption_side = match caption_node {
        Some(c) => match style_of(styles, c) {
            Some(s) => s.caption_side,
            None => CaptionSide::Top,
        },
        None => CaptionSide::Top,
    };
    let caption = match caption_node {
        Some(c) => match build_box_for_element(dom, styles, c) {
            Some(b) => Some(Box::new(b)),
            None => None,
        },
        None => None,
    };
    TableBox { caption, caption_side, rows }
}

/// Collects into `out` the rows among the children of `node`, looking
/// through row groups (`thead`/`tbody`/`tfoot`) but not into nested tables,
/// and records the first `table-caption` child in `out_caption`.
fn collect_table_rows(
    dom: &Dom,
    styles: &HashMap<NodeId, ComputedStyle>,
    node: NodeId,
    out: &mut Vec<TableRow>,
    out_caption: &mut Option<NodeId>,
)
    requires
        dom.wf(),
        node < dom@.len(),
    ensures
        rows_view(final(out)@) == rows_view(old(out)@) + spec_collect_rows(
            dom@,
            styles@,
            node,
            nk(dom@, node as int),
            *old(out_caption),
        ).0,
        *final(out_caption) == spec_collect_rows(
            dom@,
            styles@,
            node,
            nk(dom@, node as int),
            *old(out_caption),
        ).1,
    decreases dom@.len() - node, nk(dom@, node as int) + 1,
{
    let ghost start = rows_view(out@);
    let ghost cap0 = *out_caption;
    let kids = dom.children(node);
    let n = kids.len();
    let mut i: usize = 0;
    assert(start =~= start + Seq::<RowView>::empty());
    while i < n
        invariant
            dom.wf(),
            node < dom@.len(),
            kids@ == dom@[node as int].children@,
            n == kids@.len(),
            i <= n,
            rows_view(out@) == start + spec_collect_rows(dom@, styles@, node, i as int, cap0).0,
            *out_caption == spec_collect_rows(dom@, styles@, node, i as int, cap0).1,
        decreases n - i,
    {
        let c = kids[i];
        assert(c == kid(dom@, node as int, i as int));
        assert(node < c < dom@.len());
        let ghost prev = spec_collect_rows(dom@, styles@, node, i as int, cap0);
        let display = match style_of(styles, c) {
            Some(s) => Some(s.display),
            None => None,
        };
        match display {
            Some(Display::TableRow) => {
                let row = build_table_row(dom, styles, c);
                proof {
                    lemma_rows_view_push(out@, row);
                }
                out.push(row);
                assert(rows_view(out@) =~= start + prev.0.push(spec_build_row(dom@, styles@, c)));
            },
            Some(Display::TableCaption) => {
                if out_caption.is_none() {
                    *out_caption = Some(c);
                }
            },
            Some(Display::Table) | Some(Display::NoneKeyword) | None => {},
            _ => {
                collect_table_rows(dom, styles, c, out, out_caption);
                assert(rows_view(out@) =~= start + (prev.0 + spec_collect_rows(
                    dom@,
                    styles@,
                    c,
                    nk(dom@, c as int),
                    prev.1,
                ).0));
            },
        }
        i = i + 1;
    }
}

/// Builds the row of the `display: table-row` element `row_node`.
fn build_table_row(
    dom: &Dom,
    styles: &HashMap<NodeId, ComputedStyle>,
    row_node: NodeId,
) -> (r: TableRow)
    requires
        dom.wf(),
        row_node < dom@.len(),
    ensures
        row_view(r) == spec_build_row(dom@, styles@, row_node),
    decreases dom@.len() - row_node, nk(dom@, row_node as int) + 2,
{
    let mut cells: Vec<TableCell> = Vec::new();
    let kids = dom.children(row_node);
    let n = kids.len();
    let mut i: usize = 0;
    assert(cells_view(cells@) =~= Seq::<CellView>::empty());
    while i < n
        invariant
            dom.wf(),
            row_node < dom@.len(),
            kids@ == dom@[row_node as int].children@,
            n == kids@.len(),
            i <= n,
            cells_view(cells@) == spec_row_cells(dom@, styles@, row_node, i as int),
        decreases n - i,
    {
        let c = kids[i];
        assert(c == kid(dom@, row_node as int, i as int));
        assert(row_node < c < dom@.len());
        let is_cell = match style_of(styles, c) {
            Some(s) => s.display == Display::TableCell,
            None => false,
        };
        if is_cell {
            let colspan = read_colspan(dom, c);
            let rowspan = read_rowspan(dom, c);
            let content = match build_box_for_element(dom, styles, c) {
                Some(b) => b,
                None => {
                    let empty: Vec<InlineSpan> = Vec::new();
                    assert(spans_view(empty@) =~= Seq::<SpanView>::empty());
                    LayoutBox { node: Some(c), content: BoxContent::Inline(empty) }
                },
            };
            let cell = TableCell { node: c, colspan, rowspan, content };
            proof {
                lemma_cells_view_push(cells@, cell);
            }
            cells.push(cell);
        }
        i = i + 1;
    }
    TableRow { node: row_node, cells }
}

/// Reads a positive integer attribute of `node`, or 1.
fn read_span_attr(dom: &Dom, node: NodeId, name: &str) -> (r: usize)
    requires
        node < dom@.len(),
    ensures
        r == spec_span_attr(spec_node_attr(dom@, node as int, name@)),
{
    match &dom.node(node).data {
        NodeData::Element { attrs, .. } => match attr_value(attrs, name) {
            Some(v) => match parse_usize(v.as_str()) {
                Some(k) => if k > 0 {
                    k
                } else {
                    1
                },
                None => 1,
            },
            None => 1,
        },
        _ => 1,
    }
}

/// The `colspan` attribute of a cell (1 when absent, zero or not a number).
pub fn read_colspan(dom: &Dom, node: NodeId) -> (r: usize)
    requires
        node < dom@.len(),
    ensures
        r == spec_span_attr(spec_node_attr(dom@, node as int, "colspan"@)),
        r >= 1,
{
    read_span_attr(dom, node, "colspan")
}

/// The `rowspan` attribute of a cell (1 when absent, zero or not a number).
pub fn read_rowspan(dom: &Dom, node: NodeId) -> (r: usize)
    requires
        node < dom@.len(),
    ensures
        r == spec_span_attr(spec_node_attr(dom@, node as int, "rowspan"@)),
        r >= 1,
{
    read_span_attr(dom, node, "rowspan")
}

/// Builds the box tree of a whole document: an anonymous block holding the
/// boxes of the document node's children.
pub fn build_box_tree(dom: &Dom, styles: &HashMap<NodeId, ComputedStyle>) -> (r: LayoutBox)
    requires
        dom.wf(),
    ensures
        r@ == spec_build_box_tree(dom@, styles@),
{
    let children = build_children_boxes(dom, styles, dom.document());
    LayoutBox { node: None, content: BoxContent::Blocks(children) }
}

// ---------------------------------------------------------------------------
// Images.
// ---------------------------------------------------------------------------

/// Whether node `n` is an `<img>` element.
pub open spec fn spec_is_img(nodes: Seq<Node>, n: NodeId) -> bool {
    n < nodes.len() && match nodes[n as int].data {
        NodeData::Element { name, .. } => name@ == "img"@,
        _ => false,
    }
}

/// The content of the `<img>` element `n`: its size attributes and the
/// cached outcome for its `src`.
pub open spec fn spec_image_content(
    nodes: Seq<Node>,
    n: NodeId,
    cache: Seq<(Seq<char>, Option<PreparedImage>)>,
) -> ImageBoxContent {
    match spec_node_attr(nodes, n as int, "src"@) {
        Some(src) => ImageBoxContent {
            image: spec_lookup(cache, src@),
            attr_width: spec_dimension(spec_node_attr(nodes, n as int, "width"@)),
            attr_height: spec_dimension(spec_node_attr(nodes, n as int, "height"@)),
        },
        None => ImageBoxContent { image: None, attr_width: None, attr_height: None },
    }
}

/// `b` with the content of every `<img>` box replaced by its image.
pub open spec fn spec_resolve_box(
    b: BoxView,
    nodes: Seq<Node>,
    cache: Seq<(Seq<char>, Option<PreparedImage>)>,
) -> BoxView
    decreases b,
{
    if b.node is Some && spec_is_img(nodes, b.node->0) {
        BoxView { node: b.node, content: ContentView::Image(spec_image_content(nodes, b.node->0, cache)) }
    } else {
        match b.content {
            ContentView::Blocks(s) => BoxView {
                node: b.node,
                content: ContentView::Blocks(spec_resolve_boxes(s, nodes, cache)),
            },
            ContentView::Table(t) => BoxView {
                node: b.node,
                content: ContentView::Table(
                    TableView {
                        caption: match t.caption {
                            Some(c) => Some(Box::new(spec_resolve_box(*c, nodes, cache))),
                            None => None,
                        },
                        caption_side: t.caption_side,
                        rows: spec_resolve_rows(t.rows, nodes, cache),
                    },
                ),
            },
            _ => b,
        }
    }
}

pub open spec fn spec_resolve_boxes(
    s: Seq<BoxView>,
    nodes: Seq<Node>,
    cache: Seq<(Seq<char>, Option<PreparedImage>)>,
) -> Seq<BoxView>
    decreases s,
{
    if s.len() == 0 {
        s
    } else {
        seq![spec_resolve_box(s[0], nodes, cache)] + spec_resolve_boxes(s.subrange(1, s.len() as int), nodes, cache)
    }
}

pub open spec fn spec_resolve_rows(
    s: Seq<RowView>,
    nodes: Seq<Node>,
    cache: Seq<(Seq<char>, Option<PreparedImage>)>,
) -> Seq<RowView>
    decreases s,
{
    if s.len() == 0 {
        s
    } else {
        seq![RowView { node: s[0].node, cells: spec_resolve_cells(s[0].cells, nodes, cache) }]
            + spec_resolve_rows(s.subrange(1, s.len() as int), nodes, cache)
    }
}

pub open spec fn spec_resolve_cells(
    s: Seq<CellView>,
    nodes: Seq<Node>,
    cache: Seq<(Seq<char>, Option<PreparedImage>)>,
) -> Seq<CellView>
    decreases s,
{
    if s.len() == 0 {
        s
    } else {
        seq![
            CellView {
                node: s[0].node,
                colspan: s[0].colspan,
                rowspan: s[0].rowspan,
                content: spec_resolve_box(s[0].content, nodes, cache),
            },
        ] + spec_resolve_cells(s.subrange(1, s.len() as int), nodes, cache)
    }
}

/// Every node that a box of `b` names is below `len`.
pub open spec fn box_nodes_below(b: BoxView, len: nat) -> bool
    decreases b,
{
    &&& (b.node matches Some(n) ==> n < len)
    &&& match b.content {
        ContentView::Blocks(s) => boxes_nodes_below(s, len),
        ContentView::Table(t) => (t.caption matches Some(c) ==> box_nodes_below(*c, len)) && rows_nodes_below(
            t.rows,
            len,
        ),
        _ => true,
    }
}

pub open spec fn boxes_nodes_below(s: Seq<BoxView>, len: nat) -> bool
    decreases s,
{
    s.len() > 0 ==> box_nodes_below(s[0], len) && boxes_nodes_below(s.subrange(1, s.len() as int), len)
}

pub open spec fn rows_nodes_below(s: Seq<RowView>, len: nat) -> bool
    decreases s,
{
    s.len() > 0 ==> cells_nodes_below(s[0].cells, len) && rows_nodes_below(s.subrange(1, s.len() as int), len)
}

pub open spec fn cells_nodes_below(s: Seq<CellView>, len: nat) -> bool
    decreases s,
{
    s.len() > 0 ==> box_nodes_below(s[0].content, len) && cells_nodes_below(
        s.subrange(1, s.len() as int),
        len,
    )
}

proof fn lemma_boxes_view_index(s: Seq<LayoutBox>)
    ensures
        boxes_view(s).len() == s.len(),
        forall|j: int| 0 <= j < s.len() ==> #[trigger] boxes_view(s)[j] == box_view(s[j]),
    decreases s.len(),
{
    if s.len() > 0 {
        lemma_boxes_view_index(s.subrange(1, s.len() as int));
        assert forall|j: int| 0 <= j < s.len() implies #[trigger] boxes_view(s)[j] == box_view(s[j]) by {
            if j > 0 {
                assert(s.subrange(1, s.len() as int)[j - 1] == s[j]);
            }
        }
    }
}

proof fn lemma_rows_view_index(s: Seq<TableRow>)
    ensures
        rows_view(s).len() == s.len(),
        forall|j: int| 0 <= j < s.len() ==> #[trigger] rows_view(s)[j] == row_view(s[j]),
    decreases s.len(),
{
    if s.len() > 0 {
        lemma_rows_view_index(s.subrange(1, s.len() as int));
        assert forall|j: int| 0 <= j < s.len() implies #[trigger] rows_view(s)[j] == row_view(s[j]) by {
            if j > 0 {
                assert(s.subrange(1, s.len() as int)[j - 1] == s[j]);
            }
        }
    }
}

pub open spec fn cell_view(c: TableCell) -> CellView {
    CellView { node: c.node, colspan: c.colspan, rowspan: c.rowspan, content: box_view(c.content) }
}

proof fn lemma_cells_view_index(s: Seq<TableCell>)
    ensures
        cells_view(s).len() == s.len(),
        forall|j: int| 0 <= j < s.len() ==> #[trigger] cells_view(s)[j] == cell_view(s[j]),
    decreases s.len(),
{
    if s.len() > 0 {
        lemma_cells_view_index(s.subrange(1, s.len() as int));
        assert forall|j: int| 0 <= j < s.len() implies #[trigger] cells_view(s)[j] == cell_view(s[j]) by {
            if j > 0 {
                assert(s.subrange(1, s.len() as int)[j - 1] == s[j]);
            }
        }
    }
}

proof fn lemma_resolve_boxes_index(s: Seq<BoxView>, nodes: Seq<Node>, cache: Seq<(Seq<char>, Option<PreparedImage>)>)
    ensures
        spec_resolve_boxes(s, nodes, cache).len() == s.len(),
        forall|j: int|
            0 <= j < s.len() ==> #[trigger] spec_resolve_boxes(s, nodes, cache)[j] == spec_resolve_box(
                s[j],
                nodes,
                cache,
            ),
        boxes_nodes_below(s, nodes.len()) <==> forall|j: int|
            0 <= j < s.len() ==> box_nodes_below(#[trigger] s[j], nodes.len()),
    decreases s.len(),
{
    if s.len() > 0 {
        let t = s.subrange(1, s.len() as int);
        lemma_resolve_boxes_index(t, nodes, cache);
        assert forall|j: int| 0 < j < s.len() implies #[trigger] s[j] == t[j - 1] by {}
        assert forall|j: int|
            0 <= j < s.len() implies #[trigger] spec_resolve_boxes(s, nodes, cache)[j] == spec_resolve_box(
            s[j],
            nodes,
            cache,
        ) by {
            if j > 0 {
                assert(s[j] == t[j - 1]);
            }
        }
        if forall|j: int| 0 <= j < s.len() ==> box_nodes_below(#[trigger] s[j], nodes.len()) {
            assert forall|j: int| 0 <= j < t.len() implies box_nodes_below(#[trigger] t[j], nodes.len()) by {
                assert(t[j] == s[j + 1]);
            }
        }
    }
}

proof fn lemma_resolve_rows_index(s: Seq<RowView>, nodes: Seq<Node>, cache: Seq<(Seq<char>, Option<PreparedImage>)>)
    ensures
        spec_resolve_rows(s, nodes, cache).len() == s.len(),
        forall|j: int|
            0 <= j < s.len() ==> #[trigger] spec_resolve_rows(s, nodes, cache)[j] == (RowView {
                node: s[j].node,
                cells: spec_resolve_cells(s[j].cells, nodes, cache),
            }),
        rows_nodes_below(s, nodes.len()) <==> forall|j: int|
            0 <= j < s.len() ==> cells_nodes_below(#[trigger] s[j].cells, nodes.len()),
    decreases s.len(),
{
    if s.len() > 0 {
        let t = s.subrange(1, s.len() as int);
        lemma_resolve_rows_index(t, nodes, cache);
        assert forall|j: int| 0 < j < s.len() implies #[trigger] s[j] == t[j - 1] by {}
        assert forall|j: int|
            0 <= j < s.len() implies #[trigger] spec_resolve_rows(s, nodes, cache)[j] == (RowView {
            node: s[j].node,
            cells: spec_resolve_cells(s[j].cells, nodes, cache),
        }) by {
            if j > 0 {
                assert(s[j] == t[j - 1]);
            }
        }
        if forall|j: int| 0 <= j < s.len() ==> cells_nodes_below(#[trigger] s[j].cells, nodes.len()) {
            assert forall|j: int| 0 <= j < t.len() implies cells_nodes_below(#[trigger] t[j].cells, nodes.len()) by {
                assert(t[j] == s[j + 1]);
            }
        }
    }
}

proof fn lemma_resolve_cells_index(s: Seq<CellView>, nodes: Seq<Node>, cache: Seq<(Seq<char>, Option<PreparedImage>)>)
    ensures
        spec_resolve_cells(s, nodes, cache).len() == s.len(),
        forall|j: int|
            0 <= j < s.len() ==> #[trigger] spec_resolve_cells(s, nodes, cache)[j] == (CellView {
                node: s[j].node,
                colspan: s[j].colspan,
                rowspan: s[j].rowspan,
                content: spec_resolve_box(s[j].content, nodes, cache),
            }),
        cells_nodes_below(s, nodes.len()) <==> forall|j: int|
            0 <= j < s.len() ==> box_nodes_below(#[trigger] s[j].content, nodes.len()),
    decreases s.len(),
{
    if s.len() > 0 {
        let t = s.subrange(1, s.len() as int);
        lemma_resolve_cells_index(t, nodes, cache);
        assert forall|j: int| 0 < j < s.len() implies #[trigger] s[j] == t[j - 1] by {}
        assert forall|j: int|
            0 <= j < s.len() implies #[trigger] spec_resolve_cells(s, nodes, cache)[j] == (CellView {
            node: s[j].node,
            colspan: s[j].colspan,
            rowspan: s[j].rowspan,
            content: spec_resolve_box(s[j].content, nodes, cache),
        }) by {
            if j > 0 {
                assert(s[j] == t[j - 1]);
            }
        }
        if forall|j: int| 0 <= j < s.len() ==> box_nodes_below(#[trigger] s[j].content, nodes.len()) {
            assert forall|j: int| 0 <= j < t.len() implies box_nodes_below(#[trigger] t[j].content, nodes.len()) by {
                assert(t[j] == s[j + 1]);
            }
        }
    }
}

/// An `<img>` box takes its image and both of its size attributes from
/// the element: the image cached for its `src`, its `width` attribute read
/// as a pixel count into `attr_width` and its `height` attribute into
/// `attr_height` (a number written in digits that fits in 32 bits gives
/// that number, an absent attribute none). An `<img>` without `src` has no
/// image and no size.
pub proof fn lemma_img_box_takes_the_element_attributes(
    b: BoxView,
    nodes: Seq<Node>,
    cache: Seq<(Seq<char>, Option<PreparedImage>)>,
)
    requires
        b.node is Some,
        spec_is_img(nodes, b.node->0),
    ensures
        ({
            let n = b.node->0 as int;
            let r = spec_resolve_box(b, nodes, cache);
            &&& r.node == b.node
            &&& r.content is Image
            &&& spec_node_attr(nodes, n, "src"@) is Some ==> {
                &&& r.content->Image_0.image == spec_lookup(cache, spec_node_attr(nodes, n, "src"@)->0@)
                &&& r.content->Image_0.attr_width == spec_dimension(spec_node_attr(nodes, n, "width"@))
                &&& r.content->Image_0.attr_height == spec_dimension(spec_node_attr(nodes, n, "height"@))
                &&& spec_node_attr(nodes, n, "height"@) is None ==> r.content->Image_0.attr_height is None
                &&& (spec_node_attr(nodes, n, "height"@) is Some && spec_parse_usize(
                    spec_node_attr(nodes, n, "height"@)->0@,
                ) is Some && spec_parse_usize(spec_node_attr(nodes, n, "height"@)->0@)->0 <= u32::MAX)
                    ==> r.content->Image_0.attr_height == Some(
                    spec_parse_usize(spec_node_attr(nodes, n, "height"@)->0@)->0 as u32,
                )
                &&& (spec_node_attr(nodes, n, "width"@) is Some && spec_parse_usize(
                    spec_node_attr(nodes, n, "width"@)->0@,
                ) is Some && spec_parse_usize(spec_node_attr(nodes, n, "width"@)->0@)->0 <= u32::MAX)
                    ==> r.content->Image_0.attr_width == Some(
                    spec_parse_usize(spec_node_attr(nodes, n, "width"@)->0@)->0 as u32,
                )
            }
            &&& spec_node_attr(nodes, n, "src"@) is None ==> r.content->Image_0 == (ImageBoxContent {
                image: None,
                attr_width: None,
                attr_height: None,
            })
        }),
{
}

/// Whether `node` is an `<img>` element.
fn is_img_element(dom: &Dom, node: NodeId) -> (r: bool)
    ensures
        r == spec_is_img(dom@, node),
{
    if node >= dom.len() {
        return false;
    }
    match &dom.node(node).data {
        NodeData::Element { name, .. } => str_equals(name.as_str(), "img"),
        _ => false,
    }
}

/// The content of the `<img>` element `node`.
fn build_image_box_content(dom: &Dom, node: NodeId, image_cache: &ImageAssetCache) -> (r: ImageBoxContent)
    requires
        node < dom@.len(),
    ensures
        r == spec_image_content(dom@, node, image_cache@),
{
    match read_img_attrs(dom, node) {
        Some(attrs) => ImageBoxContent {
            image: image_cache.get_or_decode(attrs.src.as_str()),
            attr_width: attrs.width,
            attr_height: attrs.height,
        },
        None => ImageBoxContent { image: None, attr_width: None, attr_height: None },
    }
}

/// A placeholder box used while a box is taken out of its parent.
fn placeholder_box() -> (b: LayoutBox)
    ensures
        b@ == (BoxView { node: None, content: ContentView::Blocks(Seq::empty()) }),
{
    let b = LayoutBox { node: None, content: BoxContent::Blocks(Vec::new()) };
    assert(boxes_view(Seq::<LayoutBox>::empty()) =~= Seq::<BoxView>::empty());
    b
}

/// `b` with every `<img>` box's content replaced by its image.
#[verifier::loop_isolation(false)]
fn resolve_box(b: LayoutBox, dom: &Dom, image_cache: &ImageAssetCache) -> (r: LayoutBox)
    requires
        box_nodes_below(b@, dom@.len()),
    ensures
        r@ == spec_resolve_box(b@, dom@, image_cache@),
    decreases b,
{
    if let Some(node) = b.node {
        if is_img_element(dom, node) {
            // `<img>` is a void element: nothing below it to resolve.
            return LayoutBox {
                node: b.node,
                content: BoxContent::Image(build_image_box_content(dom, node, image_cache)),
            };
        }
    }
    let ghost b0 = b;
    let LayoutBox { node, content } = b;
    match content {
        BoxContent::Blocks(children) => {
            let ghost old_children = children@;
            let mut children = children;
            let n = children.len();
            proof {
                lemma_boxes_view_index(old_children);
                lemma_resolve_boxes_index(boxes_view(old_children), dom@, image_cache@);
                assert(box_view(b0).content == ContentView::Blocks(boxes_view(old_children)));
                assert(boxes_nodes_below(boxes_view(old_children), dom@.len()));
                assert forall|j: int| 0 <= j < n implies box_nodes_below(#[trigger] box_view(old_children[j]), dom@.len()) by {
                    assert(boxes_view(old_children)[j] == box_view(old_children[j]));
                }
                assert forall|j: int| 0 <= j < n implies decreases_to!(b0 => #[trigger] old_children[j]) by {
                    assert(decreases_to!(b0 => b0.content));
                }
            }
            let mut i: usize = 0;
            while i < n
                invariant
                    n == children@.len(),
                    n == old_children.len(),
                    i <= n,
                    forall|j: int| i <= j < n ==> children@[j] == old_children[j],
                    forall|j: int|
                        0 <= j < i ==> box_view(#[trigger] children@[j]) == spec_resolve_box(
                            box_view(old_children[j]),
                            dom@,
                            image_cache@,
                        ),
                    forall|j: int| 0 <= j < n ==> box_nodes_below(#[trigger] box_view(old_children[j]), dom@.len()),
                decreases n - i,
            {
                let mut child = placeholder_box();
                std::mem::swap(&mut child, &mut children[i]);
                assert(child == old_children[i as int]);
                let resolved = resolve_box(child, dom, image_cache);
                children.set(i, resolved);
                i = i + 1;
            }
            let r = LayoutBox { node, content: BoxContent::Blocks(children) };
            proof {
                lemma_boxes_view_index(children@);
                assert(boxes_view(children@) =~= spec_resolve_boxes(boxes_view(old_children), dom@, image_cache@));
            }
            r
        },
        BoxContent::Table(table) => {
            let ghost table0 = table;
            let TableBox { caption, caption_side, rows } = table;
            let caption = match caption {
                Some(c) => Some(Box::new(resolve_box(*c, dom, image_cache))),
                None => None,
            };
            let ghost old_rows = rows@;
            let mut rows = rows;
            let n = rows.len();
            proof {
                lemma_rows_view_index(old_rows);
                lemma_resolve_rows_index(rows_view(old_rows), dom@, image_cache@);
                assert(box_view(b0).content == ContentView::Table(table_view(table0)));
                assert(rows_nodes_below(rows_view(old_rows), dom@.len()));
                assert forall|j: int| 0 <= j < n implies cells_nodes_below(#[trigger] cells_view(old_rows[j].cells@), dom@.len()) by {
                    assert(rows_view(old_rows)[j] == row_view(old_rows[j]));
                    assert(cells_nodes_below(rows_view(old_rows)[j].cells, dom@.len()));
                }
                assert forall|j: int| 0 <= j < n implies decreases_to!(b0 => #[trigger] old_rows[j]) by {
                    assert(decreases_to!(b0 => b0.content));
                }
            }
            let mut i: usize = 0;
            while i < n
                invariant
                    n == rows@.len(),
                    n == old_rows.len(),
                    i <= n,
                    forall|j: int| i <= j < n ==> rows@[j] == old_rows[j],
                    forall|j: int|
                        0 <= j < i ==> row_view(#[trigger] rows@[j]) == (RowView {
                            node: old_rows[j].node,
                            cells: spec_resolve_cells(cells_view(old_rows[j].cells@), dom@, image_cache@),
                        }),
                    forall|j: int| 0 <= j < n ==> cells_nodes_below(#[trigger] cells_view(old_rows[j].cells@), dom@.len()),
                decreases n - i,
            {
                let mut row = TableRow { node: 0, cells: Vec::new() };
                std::mem::swap(&mut row, &mut rows[i]);
                assert(row == old_rows[i as int]);
                let TableRow { node: row_node, cells } = row;
                let ghost old_cells = cells@;
                let mut cells = cells;
                let m = cells.len();
                proof {
                    lemma_cells_view_index(old_cells);
                    lemma_resolve_cells_index(cells_view(old_cells), dom@, image_cache@);
                    assert(row_view(old_rows[i as int]).cells == cells_view(old_cells));
                    assert(cells_nodes_below(cells_view(old_cells), dom@.len()));
                    assert forall|j: int| 0 <= j < m implies box_nodes_below(#[trigger] box_view(old_cells[j].content), dom@.len()) by {
                        assert(cells_view(old_cells)[j] == cell_view(old_cells[j]));
                        assert(box_nodes_below(cells_view(old_cells)[j].content, dom@.len()));
                    }
                    assert forall|j: int| 0 <= j < m implies decreases_to!(b0 => #[trigger] old_cells[j].content) by {
                        assert(decreases_to!(b0 => old_rows[i as int]));
                    }
                }
                let mut k: usize = 0;
                while k < m
                    invariant
                        m == cells@.len(),
                        m == old_cells.len(),
                        k <= m,
                        forall|j: int| k <= j < m ==> cells@[j] == old_cells[j],
                        forall|j: int|
                            0 <= j < k ==> cell_view(#[trigger] cells@[j]) == (CellView {
                                node: old_cells[j].node,
                                colspan: old_cells[j].colspan,
                                rowspan: old_cells[j].rowspan,
                                content: spec_resolve_box(box_view(old_cells[j].content), dom@, image_cache@),
                            }),
                        forall|j: int| 0 <= j < m ==> box_nodes_below(#[trigger] box_view(old_cells[j].content), dom@.len()),
                    decreases m - k,
                {
                    let mut content = placeholder_box();
                    std::mem::swap(&mut content, &mut cells[k].content);
                    assert(content == old_cells[k as int].content);
                    let resolved = resolve_box(content, dom, image_cache);
                    cells[k].content = resolved;
                    k = k + 1;
                }
                proof {
                    lemma_cells_view_index(cells@);
                    assert(cells_view(cells@) =~= spec_resolve_cells(cells_view(old_cells), dom@, image_cache@));
                }
                rows.set(i, TableRow { node: row_node, cells });
                i = i + 1;
            }
            let r = LayoutBox {
                node,
                content: BoxContent::Table(TableBox { caption, caption_side, rows }),
            };
            proof {
                lemma_rows_view_index(rows@);
                assert(rows_view(rows@) =~= spec_resolve_rows(rows_view(old_rows), dom@, image_cache@));
            }
            r
        },
        BoxContent::Inline(spans) => LayoutBox { node, content: BoxContent::Inline(spans) },
        BoxContent::Image(image) => LayoutBox { node, content: BoxContent::Image(image) },
    }
}

/// Replaces the content of every `<img>` box of `tree` with its image: the
/// cached outcome for its `src` and its `width`/`height` attributes.
pub fn resolve_images(tree: &mut LayoutBox, dom: &Dom, image_cache: &ImageAssetCache)
    requires
        box_nodes_below(old(tree)@, dom@.len()),
    ensures
        final(tree)@ == spec_resolve_box(old(tree)@, dom@, image_cache@),
{
    let mut owned = placeholder_box();
    std::mem::swap(&mut owned, tree);
    *tree = resolve_box(owned, dom, image_cache);
}

/// The decoded background image of node `n`, when its style names one and
/// that URL was fetched and decoded.
pub open spec fn spec_background_image(
    st: Map<NodeId, ComputedStyle>,
    n: NodeId,
    cache: Seq<(Seq<char>, Option<PreparedImage>)>,
) -> Option<PreparedImage> {
    match spec_style(st, n) {
        Some(s) => match s.background_image {
            Some(url) => spec_lookup(cache, url@),
            None => None,
        },
        None => None,
    }
}

/// The decoded `background-image` of every node that declares one, keyed by
/// node. Nodes whose image could not be fetched or decoded are left out, so
/// they are drawn without a background image. The box tree is not changed:
/// background images do not take part in sizing.
pub fn resolve_background_images(
    styles: &HashMap<NodeId, ComputedStyle>,
    image_cache: &ImageAssetCache,
) -> (r: HashMap<NodeId, PreparedImage>)
    ensures
        forall|n: NodeId|
            #![trigger r@.contains_key(n)]
            #![trigger spec_background_image(styles@, n, image_cache@)]
            r@.contains_key(n) <==> spec_background_image(styles@, n, image_cache@) is Some,
        forall|n: NodeId|
            r@.contains_key(n) ==> Some(#[trigger] r@[n]) == spec_background_image(styles@, n, image_cache@),
{
    let mut out: HashMap<NodeId, PreparedImage> = HashMap::new();
    let ghost pairs = vstd::std_specs::hash::spec_hash_map_iter(styles).remaining();
    for entry in it: styles.iter()
        invariant
            it.seq() == pairs,
            pairs == vstd::std_specs::hash::spec_hash_map_iter(styles).remaining(),
            forall|n: NodeId|
                out@.contains_key(n) ==> Some(#[trigger] out@[n]) == spec_background_image(
                    styles@,
                    n,
                    image_cache@,
                ),
            forall|i: int|
                0 <= i < it.index() && #[trigger] spec_background_image(styles@, *pairs[i].0, image_cache@) is Some
                    ==> out@.contains_key(*pairs[i].0),
    {
        let (node, style) = entry;
        assert(styles@.contains_key(*node) && styles@[*node] == *style);
        if let Some(url) = &style.background_image {
            if let Some(image) = image_cache.get_or_decode(url.as_str()) {
                out.insert(*node, image);
            }
        }
    }
    assert forall|n: NodeId| #[trigger] spec_background_image(styles@, n, image_cache@) is Some implies out@.contains_key(n) by {
        assert(styles@.contains_key(n));
        assert(pairs.contains((&n, &styles@[n])));
        let i = choose|i: int| 0 <= i < pairs.len() && pairs[i] == (&n, &styles@[n]);
        assert(*pairs[i].0 == n);
    }
    assert forall|n: NodeId| #[trigger] out@.contains_key(n) implies spec_background_image(styles@, n, image_cache@) is Some by {
        assert(Some(out@[n]) == spec_background_image(styles@, n, image_cache@));
    }
    out
}

impl View for LayoutBox {
    type V = BoxView;

    open spec fn view(&self) -> BoxView {
        box_view(*self)
    }
}

} // verus!

verus! {

// ---------------------------------------------------------------------------
// What every box of the built tree names.
// ---------------------------------------------------------------------------

/// Every node that a box of `b` names satisfies `p`.
pub open spec fn box_names_all(b: BoxView, p: spec_fn(NodeId) -> bool) -> bool
    decreases b,
{
    &&& (b.node matches Some(n) ==> p(n))
    &&& match b.content {
        ContentView::Blocks(s) => boxes_names_all(s, p),
        ContentView::Table(t) => (t.caption matches Some(c) ==> box_names_all(*c, p)) && rows_names_all(t.rows, p),
        _ => true,
    }
}

pub open spec fn boxes_names_all(s: Seq<BoxView>, p: spec_fn(NodeId) -> bool) -> bool
    decreases s,
{
    s.len() > 0 ==> box_names_all(s[0], p) && boxes_names_all(s.subrange(1, s.len() as int), p)
}

pub open spec fn rows_names_all(s: Seq<RowView>, p: spec_fn(NodeId) -> bool) -> bool
    decreases s,
{
    s.len() > 0 ==> cells_names_all(s[0].cells, p) && rows_names_all(s.subrange(1, s.len() as int), p)
}

pub open spec fn cells_names_all(s: Seq<CellView>, p: spec_fn(NodeId) -> bool) -> bool
    decreases s,
{
    s.len() > 0 ==> box_names_all(s[0].content, p) && cells_names_all(s.subrange(1, s.len() as int), p)
}

proof fn lemma_boxes_names_all_index(s: Seq<BoxView>, p: spec_fn(NodeId) -> bool)
    ensures
        boxes_names_all(s, p) <==> forall|i: int| 0 <= i < s.len() ==> box_names_all(#[trigger] s[i], p),
    decreases s.len(),
{
    if s.len() > 0 {
        let t = s.subrange(1, s.len() as int);
        lemma_boxes_names_all_index(t, p);
        assert forall|i: int| 1 <= i < s.len() implies s[i] == t[i - 1] by {}
        if forall|i: int| 0 <= i < s.len() ==> box_names_all(#[trigger] s[i], p) {
            assert forall|i: int| 0 <= i < t.len() implies box_names_all(#[trigger] t[i], p) by {
                assert(t[i] == s[i + 1]);
            }
        }
    }
}

proof fn lemma_rows_names_all_index(s: Seq<RowView>, p: spec_fn(NodeId) -> bool)
    ensures
        rows_names_all(s, p) <==> forall|i: int| 0 <= i < s.len() ==> cells_names_all(#[trigger] s[i].cells, p),
    decreases s.len(),
{
    if s.len() > 0 {
        let t = s.subrange(1, s.len() as int);
        lemma_rows_names_all_index(t, p);
        assert forall|i: int| 1 <= i < s.len() implies s[i] == t[i - 1] by {}
        if forall|i: int| 0 <= i < s.len() ==> cells_names_all(#[trigger] s[i].cells, p) {
            assert forall|i: int| 0 <= i < t.len() implies cells_names_all(#[trigger] t[i].cells, p) by {
                assert(t[i] == s[i + 1]);
            }
        }
    }
}

proof fn lemma_cells_names_all_index(s: Seq<CellView>, p: spec_fn(NodeId) -> bool)
    ensures
        cells_names_all(s, p) <==> forall|i: int| 0 <= i < s.len() ==> box_names_all(#[trigger] s[i].content, p),
    decreases s.len(),
{
    if s.len() > 0 {
        let t = s.subrange(1, s.len() as int);
        lemma_cells_names_all_index(t, p);
        assert forall|i: int| 1 <= i < s.len() implies s[i] == t[i - 1] by {}
        if forall|i: int| 0 <= i < s.len() ==> box_names_all(#[trigger] s[i].content, p) {
            assert forall|i: int| 0 <= i < t.len() implies box_names_all(#[trigger] t[i].content, p) by {
                assert(t[i] == s[i + 1]);
            }
        }
    }
}

proof fn lemma_boxes_names_all_concat(a: Seq<BoxView>, b: Seq<BoxView>, p: spec_fn(NodeId) -> bool)
    requires
        boxes_names_all(a, p),
        boxes_names_all(b, p),
    ensures
        boxes_names_all(a + b, p),
{
    lemma_boxes_names_all_index(a, p);
    lemma_boxes_names_all_index(b, p);
    lemma_boxes_names_all_index(a + b, p);
    assert forall|i: int| 0 <= i < (a + b).len() implies box_names_all(#[trigger] (a + b)[i], p) by {
        if i >= a.len() {
            assert((a + b)[i] == b[i - a.len()]);
        }
    }
}

proof fn lemma_flush_names_all(result: Seq<BoxView>, pending: Seq<SpanView>, p: spec_fn(NodeId) -> bool)
    requires
        boxes_names_all(result, p),
    ensures
        boxes_names_all(spec_flush(result, pending), p),
{
    let anon = BoxView { node: None, content: ContentView::Inline(pending) };
    lemma_boxes_names_all_index(seq![anon], p);
    lemma_boxes_names_all_concat(result, seq![anon], p);
    assert(result.push(anon) =~= result + seq![anon]);
}

/// Whether the construction descends into the children of `n`: the
/// document node, and every element whose `display` is not `none`.
pub open spec fn entered(st: Map<NodeId, ComputedStyle>, n: NodeId) -> bool {
    n == 0 || (spec_display(st, n) is Some && spec_display(st, n) != Some(Display::NoneKeyword))
}

/// What lets `p` be shown of every node a box names, for nodes met in a
/// context `ctx` that passes from an entered node to its children: `p`
/// holds of every element in context that generates a box, and of every
/// table cell in context (an empty box stands for a cell that generates
/// none).
pub open spec fn holds_of_boxed_nodes(
    nodes: Seq<Node>,
    st: Map<NodeId, ComputedStyle>,
    p: spec_fn(NodeId) -> bool,
    ctx: spec_fn(NodeId) -> bool,
) -> bool {
    &&& forall|n: NodeId| #[trigger] spec_box_for_element(nodes, st, n) is Some && ctx(n) ==> p(n)
    &&& forall|c: NodeId|
        c < nodes.len() && #[trigger] spec_display(st, c) == Some(Display::TableCell) && ctx(c) ==> p(c)
    &&& forall|n: NodeId, k: int|
        0 <= k < nk(nodes, n as int) && ctx(n) && entered(st, n) ==> ctx(#[trigger] kid(nodes, n as int, k))
}

proof fn lemma_box_for_element_names(
    nodes: Seq<Node>,
    st: Map<NodeId, ComputedStyle>,
    n: NodeId,
    p: spec_fn(NodeId) -> bool,
    ctx: spec_fn(NodeId) -> bool,
)
    requires
        holds_of_boxed_nodes(nodes, st, p, ctx),
        ctx(n),
    ensures
        spec_box_for_element(nodes, st, n) matches Some(b) ==> box_names_all(b, p),
    decreases nodes.len() - n, nk(nodes, n as int) + 3,
{
    if n < nodes.len() {
        match spec_style(st, n) {
            None => {},
            Some(s) => {
                if s.display == Display::NoneKeyword {
                } else if s.display == Display::Table {
                    lemma_table_box_names(nodes, st, n, p, ctx);
                } else if spec_has_block_child(nodes, st, n) {
                    lemma_children_boxes_names(nodes, st, n, p, ctx);
                }
            },
        }
    }
}

proof fn lemma_children_boxes_names(
    nodes: Seq<Node>,
    st: Map<NodeId, ComputedStyle>,
    n: NodeId,
    p: spec_fn(NodeId) -> bool,
    ctx: spec_fn(NodeId) -> bool,
)
    requires
        holds_of_boxed_nodes(nodes, st, p, ctx),
        ctx(n),
        entered(st, n),
    ensures
        boxes_names_all(spec_children_boxes(nodes, st, n), p),
    decreases nodes.len() - n, nk(nodes, n as int) + 2,
{
    lemma_children_state_names(nodes, st, n, nk(nodes, n as int), p, ctx);
    let state = spec_children_state(nodes, st, n, nk(nodes, n as int));
    lemma_flush_names_all(state.0, state.1, p);
}

proof fn lemma_children_state_names(
    nodes: Seq<Node>,
    st: Map<NodeId, ComputedStyle>,
    n: NodeId,
    k: int,
    p: spec_fn(NodeId) -> bool,
    ctx: spec_fn(NodeId) -> bool,
)
    requires
        holds_of_boxed_nodes(nodes, st, p, ctx),
        ctx(n),
        entered(st, n),
    ensures
        boxes_names_all(spec_children_state(nodes, st, n, k).0, p),
    decreases nodes.len() - n, k + 1,
{
    if k <= 0 || n >= nodes.len() || k > nk(nodes, n as int) {
        lemma_boxes_names_all_index(Seq::<BoxView>::empty(), p);
    } else {
        lemma_children_state_names(nodes, st, n, k - 1, p, ctx);
        let prev = spec_children_state(nodes, st, n, k - 1);
        let c = kid(nodes, n as int, k - 1);
        if n < c < nodes.len() && spec_child_kind(nodes, st, c) == ChildKind::Block {
            assert(ctx(c));
            lemma_flush_names_all(prev.0, prev.1, p);
            lemma_box_for_element_names(nodes, st, c, p, ctx);
            let tail = opt_seq(spec_box_for_element(nodes, st, c));
            lemma_boxes_names_all_index(tail, p);
            lemma_boxes_names_all_concat(spec_flush(prev.0, prev.1), tail, p);
        }
    }
}

proof fn lemma_table_box_names(
    nodes: Seq<Node>,
    st: Map<NodeId, ComputedStyle>,
    n: NodeId,
    p: spec_fn(NodeId) -> bool,
    ctx: spec_fn(NodeId) -> bool,
)
    requires
        holds_of_boxed_nodes(nodes, st, p, ctx),
        ctx(n),
        entered(st, n),
    ensures
        ({
            let t = spec_table_box(nodes, st, n);
            &&& t.caption matches Some(c) ==> box_names_all(*c, p)
            &&& rows_names_all(t.rows, p)
        }),
    decreases nodes.len() - n, nk(nodes, n as int) + 2,
{
    lemma_collect_rows_names(nodes, st, n, nk(nodes, n as int), None, p, ctx);
    let collected = spec_collect_rows(nodes, st, n, nk(nodes, n as int), None);
    if let Some(c) = collected.1 {
        if n < c < nodes.len() {
            lemma_box_for_element_names(nodes, st, c, p, ctx);
        }
    }
}

proof fn lemma_collect_rows_names(
    nodes: Seq<Node>,
    st: Map<NodeId, ComputedStyle>,
    n: NodeId,
    k: int,
    caption: Option<NodeId>,
    p: spec_fn(NodeId) -> bool,
    ctx: spec_fn(NodeId) -> bool,
)
    requires
        holds_of_boxed_nodes(nodes, st, p, ctx),
        ctx(n),
        entered(st, n),
        caption matches Some(c) ==> ctx(c),
    ensures
        rows_names_all(spec_collect_rows(nodes, st, n, k, caption).0, p),
        spec_collect_rows(nodes, st, n, k, caption).1 matches Some(c) ==> ctx(c),
    decreases nodes.len() - n, k + 1,
{
    if k <= 0 || n >= nodes.len() || k > nk(nodes, n as int) {
        lemma_rows_names_all_index(Seq::<RowView>::empty(), p);
    } else {
        lemma_collect_rows_names(nodes, st, n, k - 1, caption, p, ctx);
        let prev = spec_collect_rows(nodes, st, n, k - 1, caption);
        let c = kid(nodes, n as int, k - 1);
        assert(ctx(c));
        lemma_rows_names_all_index(prev.0, p);
        if n < c < nodes.len() {
            match spec_display(st, c) {
                Some(Display::TableRow) => {
                    lemma_build_row_names(nodes, st, c, p, ctx);
                    let r = prev.0.push(spec_build_row(nodes, st, c));
                    lemma_rows_names_all_index(r, p);
                    assert forall|i: int| 0 <= i < r.len() implies cells_names_all(#[trigger] r[i].cells, p) by {
                        if i < prev.0.len() {
                            assert(r[i] == prev.0[i]);
                        }
                    }
                },
                Some(Display::TableCaption) => {},
                Some(Display::Table) | Some(Display::NoneKeyword) | None => {},
                _ => {
                    lemma_collect_rows_names(nodes, st, c, nk(nodes, c as int), prev.1, p, ctx);
                    let inner = spec_collect_rows(nodes, st, c, nk(nodes, c as int), prev.1);
                    lemma_rows_names_all_index(inner.0, p);
                    let r = prev.0 + inner.0;
                    lemma_rows_names_all_index(r, p);
                    assert forall|i: int| 0 <= i < r.len() implies cells_names_all(#[trigger] r[i].cells, p) by {
                        if i < prev.0.len() {
                            assert(r[i] == prev.0[i]);
                        } else {
                            assert(r[i] == inner.0[i - prev.0.len()]);
                        }
                    }
                },
            }
        }
    }
}

proof fn lemma_build_row_names(
    nodes: Seq<Node>,
    st: Map<NodeId, ComputedStyle>,
    r: NodeId,
    p: spec_fn(NodeId) -> bool,
    ctx: spec_fn(NodeId) -> bool,
)
    requires
        holds_of_boxed_nodes(nodes, st, p, ctx),
        ctx(r),
        entered(st, r),
    ensures
        cells_names_all(spec_build_row(nodes, st, r).cells, p),
    decreases nodes.len() - r, nk(nodes, r as int) + 2,
{
    lemma_row_cells_names(nodes, st, r, nk(nodes, r as int), p, ctx);
}

proof fn lemma_row_cells_names(
    nodes: Seq<Node>,
    st: Map<NodeId, ComputedStyle>,
    r: NodeId,
    k: int,
    p: spec_fn(NodeId) -> bool,
    ctx: spec_fn(NodeId) -> bool,
)
    requires
        holds_of_boxed_nodes(nodes, st, p, ctx),
        ctx(r),
        entered(st, r),
    ensures
        cells_names_all(spec_row_cells(nodes, st, r, k), p),
    decreases nodes.len() - r, k + 1,
{
    if k <= 0 || r >= nodes.len() || k > nk(nodes, r as int) {
        lemma_cells_names_all_index(Seq::<CellView>::empty(), p);
    } else {
        lemma_row_cells_names(nodes, st, r, k - 1, p, ctx);
        let prev = spec_row_cells(nodes, st, r, k - 1);
        let c = kid(nodes, r as int, k - 1);
        if n_lt(r, c, nodes.len()) && spec_display(st, c) == Some(Display::TableCell) {
            assert(ctx(c));
            lemma_box_for_element_names(nodes, st, c, p, ctx);
            let s = spec_row_cells(nodes, st, r, k);
            lemma_cells_names_all_index(prev, p);
            lemma_cells_names_all_index(s, p);
            assert forall|i: int| 0 <= i < s.len() implies box_names_all(#[trigger] s[i].content, p) by {
                if i < prev.len() {
                    assert(s[i] == prev[i]);
                }
            }
        }
    }
}

/// Every node is in context.
pub open spec fn everywhere() -> spec_fn(NodeId) -> bool {
    |n: NodeId| true
}

/// Whether `n` is below `len`.
pub open spec fn node_below(len: nat) -> spec_fn(NodeId) -> bool {
    |n: NodeId| n < len
}

/// Whether `n` has a computed style whose `display` is not `none`.
pub open spec fn node_displayed(st: Map<NodeId, ComputedStyle>) -> spec_fn(NodeId) -> bool {
    |n: NodeId| spec_display(st, n) is Some && spec_display(st, n) != Some(Display::NoneKeyword)
}

proof fn lemma_names_below(b: BoxView, len: nat)
    requires
        box_names_all(b, node_below(len)),
    ensures
        box_nodes_below(b, len),
    decreases b,
{
    match b.content {
        ContentView::Blocks(s) => {
            lemma_boxes_names_below(s, len);
        },
        ContentView::Table(t) => {
            if let Some(c) = t.caption {
                lemma_names_below(*c, len);
            }
            lemma_rows_names_below(t.rows, len);
        },
        _ => {},
    }
}

proof fn lemma_boxes_names_below(s: Seq<BoxView>, len: nat)
    requires
        boxes_names_all(s, node_below(len)),
    ensures
        boxes_nodes_below(s, len),
    decreases s,
{
    if s.len() > 0 {
        lemma_names_below(s[0], len);
        lemma_boxes_names_below(s.subrange(1, s.len() as int), len);
    }
}

proof fn lemma_rows_names_below(s: Seq<RowView>, len: nat)
    requires
        rows_names_all(s, node_below(len)),
    ensures
        rows_nodes_below(s, len),
    decreases s,
{
    if s.len() > 0 {
        lemma_cells_names_below(s[0].cells, len);
        lemma_rows_names_below(s.subrange(1, s.len() as int), len);
    }
}

proof fn lemma_cells_names_below(s: Seq<CellView>, len: nat)
    requires
        cells_names_all(s, node_below(len)),
    ensures
        cells_nodes_below(s, len),
    decreases s,
{
    if s.len() > 0 {
        lemma_names_below(s[0].content, len);
        lemma_cells_names_below(s.subrange(1, s.len() as int), len);
    }
}

/// Every box of the tree built for a document names a node of that
/// document (or none, for an anonymous box), which is what
/// [`resolve_images`] needs of the tree it is given.
pub proof fn lemma_box_tree_names_document_nodes(nodes: Seq<Node>, st: Map<NodeId, ComputedStyle>)
    ensures
        box_nodes_below(spec_build_box_tree(nodes, st), nodes.len()),
{
    let p = node_below(nodes.len());
    assert(holds_of_boxed_nodes(nodes, st, p, everywhere()));
    lemma_children_boxes_names(nodes, st, 0, p, everywhere());
    lemma_names_below(spec_build_box_tree(nodes, st), nodes.len());
}

/// An element with `display: none` gets no box: every box of the tree
/// built for a document names an element with a computed style whose
/// `display` is not `none` (or no node, for an anonymous box).
pub proof fn lemma_box_tree_has_no_undisplayed_element(nodes: Seq<Node>, st: Map<NodeId, ComputedStyle>)
    ensures
        box_names_all(spec_build_box_tree(nodes, st), node_displayed(st)),
{
    let p = node_displayed(st);
    assert(holds_of_boxed_nodes(nodes, st, p, everywhere()));
    lemma_children_boxes_names(nodes, st, 0, p, everywhere());
}


/// Whether every node strictly between the document and the end of `path`
/// is an element whose `display` is not `none`.
pub open spec fn displayed_between(st: Map<NodeId, ComputedStyle>, path: Seq<NodeId>) -> bool {
    forall|i: int| 0 < i < path.len() - 1 ==> entered(st, #[trigger] path[i])
}

/// The nodes that can be reached from the document going down through
/// elements whose `display` is not `none`.
pub open spec fn reached(nodes: Seq<Node>, st: Map<NodeId, ComputedStyle>) -> spec_fn(NodeId) -> bool {
    |n: NodeId|
        exists|path: Seq<NodeId>|
            is_down_path(nodes, path) && path[0] == 0 && path.last() == n && displayed_between(st, path)
}

/// Every node other than the one that `down` leads to.
pub open spec fn outside_of(down: Seq<NodeId>) -> spec_fn(NodeId) -> bool {
    |m: NodeId| m != down.last()
}

proof fn lemma_reached_steps_down(nodes: Seq<Node>, st: Map<NodeId, ComputedStyle>, n: NodeId, k: int)
    requires
        0 <= k < nk(nodes, n as int),
        reached(nodes, st)(n),
        entered(st, n),
    ensures
        reached(nodes, st)(kid(nodes, n as int, k)),
{
    let path = choose|path: Seq<NodeId>|
        is_down_path(nodes, path) && path[0] == 0 && path.last() == n && displayed_between(st, path);
    let c = kid(nodes, n as int, k);
    let longer = path.push(c);
    assert(nodes[n as int].children@[k] == c);
    assert(is_child(nodes, n, c));
    assert forall|i: int| 0 <= i < longer.len() - 1 implies #[trigger] down_step(nodes, longer, i) by {
        if i < path.len() - 1 {
            assert(down_step(nodes, path, i));
        }
    }
    assert forall|i: int| 0 < i < longer.len() - 1 implies entered(st, #[trigger] longer[i]) by {
        if i < path.len() - 1 {
            assert(longer[i] == path[i]);
        }
    }
    assert(longer[0] == 0 && longer.last() == c);
}

/// A node reached through displayed elements, and displayed itself, is not
/// inside an undisplayed element `a` (`down` leads from `a` to `n`).
proof fn lemma_reached_is_not_inside(
    nodes: Seq<Node>,
    st: Map<NodeId, ComputedStyle>,
    down: Seq<NodeId>,
    m: NodeId,
)
    requires
        tree_shape(nodes),
        is_down_path(nodes, down),
        down[0] != 0,
        spec_display(st, down[0]) == Some(Display::NoneKeyword),
        reached(nodes, st)(m),
        entered(st, m),
    ensures
        m != down.last(),
{
    lemma_down_path_goes_down(nodes, down);
    if m == down.last() {
        let path = choose|path: Seq<NodeId>|
            is_down_path(nodes, path) && path[0] == 0 && path.last() == m && displayed_between(st, path);
        lemma_down_paths_share_their_tail(nodes, path, down);
        let j = path.len() - down.len();
        assert(path[j] == down[0]) by {
            assert(down[0] == path.subrange(j, path.len() as int)[0]);
        }
        if j == 0 {
            assert(false);
        } else if j == path.len() - 1 {
            assert(down[0] == m);
            assert(false);
        } else {
            assert(entered(st, path[j]));
            assert(false);
        }
    }
}

/// An element with `display: none` generates no box, and neither does
/// anything inside it: no box of the tree built for a document names a node
/// that `down`, a path down from such an element, leads to.
pub proof fn lemma_no_box_inside_an_undisplayed_element(
    nodes: Seq<Node>,
    st: Map<NodeId, ComputedStyle>,
    down: Seq<NodeId>,
)
    requires
        tree_shape(nodes),
        is_down_path(nodes, down),
        down[0] != 0,
        spec_display(st, down[0]) == Some(Display::NoneKeyword),
    ensures
        box_names_all(spec_build_box_tree(nodes, st), outside_of(down)),
{
    let p = outside_of(down);
    let ctx = reached(nodes, st);
    assert forall|n: NodeId| #[trigger] spec_box_for_element(nodes, st, n) is Some && ctx(n) implies p(n) by {
        if n == 0 {
            lemma_down_path_goes_down(nodes, down);
        } else {
            lemma_reached_is_not_inside(nodes, st, down, n);
        }
    }
    assert forall|c: NodeId|
        c < nodes.len() && #[trigger] spec_display(st, c) == Some(Display::TableCell) && ctx(c) implies p(c) by {
        if c == 0 {
            lemma_down_path_goes_down(nodes, down);
        } else {
            lemma_reached_is_not_inside(nodes, st, down, c);
        }
    }
    assert forall|n: NodeId, k: int|
        0 <= k < nk(nodes, n as int) && ctx(n) && entered(st, n) implies ctx(#[trigger] kid(nodes, n as int, k)) by {
        lemma_reached_steps_down(nodes, st, n, k);
    }
    assert(ctx(0)) by {
        let path = seq![0usize];
        assert(is_down_path(nodes, path));
        assert(displayed_between(st, path));
        assert(is_down_path(nodes, path) && path[0] == 0 && path.last() == 0 && displayed_between(st, path));
    }
    lemma_children_boxes_names(nodes, st, 0, p, ctx);
}

} // verus!

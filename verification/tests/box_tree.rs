use std::collections::HashMap;

use sghtmltopdf_core::html::{Attribute, Dom, NodeData, NodeId};
use sghtmltopdf_core::img::{ImageAssetCache, PreparedImage};
use sghtmltopdf_core::layout::block::{box_style, FragmentationHints};
use sghtmltopdf_core::layout::box_tree::{
    build_box_tree, read_colspan, read_rowspan, resolve_background_images, resolve_images, BoxContent,
    InlineSpan, LayoutBox,
};
use sghtmltopdf_core::style::{BreakBetween, BreakInside, CaptionSide, ComputedStyle, Display, FontWeight};

/// A document under construction with the computed style of each node, as
/// the style cascade of the user-agent stylesheet gives them (text nodes
/// inherit their parent's style).
struct Doc {
    dom: Dom,
    styles: HashMap<NodeId, ComputedStyle>,
}

fn style(display: Display) -> ComputedStyle {
    ComputedStyle { display, ..ComputedStyle::default() }
}

fn display_for(tag: &str) -> Display {
    match tag {
        "head" | "style" | "script" => Display::NoneKeyword,
        "html" | "body" | "div" | "p" | "thead" | "tbody" | "tfoot" => Display::Block,
        "table" => Display::Table,
        "tr" => Display::TableRow,
        "td" | "th" => Display::TableCell,
        "caption" => Display::TableCaption,
        _ => Display::Inline,
    }
}

impl Doc {
    /// `<html><head></head><body></body></html>`, as the parser builds it;
    /// returns the document and the body.
    fn new() -> (Doc, NodeId) {
        let mut doc = Doc { dom: Dom::new(), styles: HashMap::new() };
        let root = doc.dom.document();
        let html = doc.element(root, "html", &[]);
        doc.element(html, "head", &[]);
        let body = doc.element(html, "body", &[]);
        (doc, body)
    }

    fn element(&mut self, parent: NodeId, tag: &str, attrs: &[(&str, &str)]) -> NodeId {
        let attrs = attrs
            .iter()
            .map(|(n, v)| Attribute { name: n.to_string(), value: v.to_string() })
            .collect();
        let id = self.dom.append(parent, NodeData::Element { name: tag.to_string(), attrs });
        self.styles.insert(id, style(display_for(tag)));
        id
    }

    fn text(&mut self, parent: NodeId, contents: &str) -> NodeId {
        let id = self.dom.append(parent, NodeData::Text { contents: contents.to_string() });
        let inherited = self.styles.get(&parent).cloned().unwrap_or_default();
        self.styles.insert(id, ComputedStyle { display: Display::Inline, ..inherited });
        id
    }

    fn styled(&mut self, node: NodeId, f: impl FnOnce(&mut ComputedStyle)) {
        f(self.styles.get_mut(&node).unwrap());
    }

    fn tree(&self) -> LayoutBox {
        build_box_tree(&self.dom, &self.styles)
    }
}

fn find_box(b: &LayoutBox, target: NodeId) -> Option<&LayoutBox> {
    if b.node == Some(target) {
        return Some(b);
    }
    if let BoxContent::Blocks(children) = &b.content {
        for child in children {
            if let Some(found) = find_box(child, target) {
                return Some(found);
            }
        }
    }
    None
}

fn find_inline_spans(b: &LayoutBox) -> Option<&Vec<InlineSpan>> {
    match &b.content {
        BoxContent::Inline(spans) => Some(spans),
        BoxContent::Blocks(children) => children.iter().find_map(find_inline_spans),
        BoxContent::Image(_) => None,
        BoxContent::Table(table) => table.caption.as_deref().and_then(find_inline_spans).or_else(|| {
            table.rows.iter().flat_map(|row| &row.cells).find_map(|cell| find_inline_spans(&cell.content))
        }),
    }
}

fn joined_text(content: &BoxContent) -> String {
    match content {
        BoxContent::Inline(spans) => spans.iter().map(|s| s.text.as_str()).collect::<String>(),
        _ => panic!("expected inline content"),
    }
}

fn table_of(b: &LayoutBox) -> &sghtmltopdf_core::layout::box_tree::TableBox {
    match &b.content {
        BoxContent::Table(t) => t,
        _ => panic!("expected a table box"),
    }
}

// <p>before <b>bold</b> after</p>
#[test]
fn inline_element_boundaries_are_preserved_as_separate_spans() {
    let (mut doc, body) = Doc::new();
    let p = doc.element(body, "p", &[]);
    doc.text(p, "before ");
    let b = doc.element(p, "b", &[]);
    doc.styled(b, |s| s.font_weight = FontWeight::Bold);
    let bold_text = doc.text(b, "bold");
    doc.text(p, " after");
    let tree = doc.tree();

    let p_box = find_box(&tree, p).expect("p box not found");
    let spans = find_inline_spans(p_box).expect("expected inline content");

    assert_eq!(spans.len(), 3, "before-text / bold-text / after-text");
    assert_eq!(spans[0].text, "before ");
    assert_eq!(spans[1].text, "bold");
    assert_eq!(spans[2].text, " after");
    assert_ne!(spans[0].node, spans[1].node);
    assert_eq!(doc.dom.children(b).first().copied(), Some(spans[1].node));
    assert_eq!(bold_text, spans[1].node);
}

// <p>plain <b style="color: rgb(9, 9, 9);">loud</b></p>
#[test]
fn span_style_reflects_ancestor_cascade_at_layout_time() {
    let (mut doc, body) = Doc::new();
    let p = doc.element(body, "p", &[("style", "color: rgb(9, 9, 9);")]);
    doc.text(p, "plain ");
    let b = doc.element(p, "b", &[]);
    doc.styled(b, |s| s.font_weight = FontWeight::Bold);
    doc.text(b, "loud");
    let tree = doc.tree();

    let p_box = find_box(&tree, p).expect("p box not found");
    let spans = find_inline_spans(p_box).expect("expected inline content");

    let loud_style = &doc.styles[&spans[1].node];
    assert_eq!(loud_style.font_weight, FontWeight::Bold);
}

// <span class="badge">Text</span> with `.badge::before { content: "["; }`
// and `.badge::after { content: "]"; }`
#[test]
fn before_and_after_content_are_prepended_and_appended_as_spans() {
    let (mut doc, body) = Doc::new();
    let span = doc.element(body, "span", &[("class", "badge")]);
    doc.styled(span, |s| {
        s.pseudo_before_content = Some("[".to_string());
        s.pseudo_after_content = Some("]".to_string());
    });
    doc.text(span, "Text");
    let tree = doc.tree();

    let spans = find_inline_spans(&tree).expect("expected inline content");
    assert_eq!(spans.len(), 3, "before / text / after");
    assert_eq!(spans[0].text, "[");
    assert_eq!(spans[1].text, "Text");
    assert_eq!(spans[2].text, "]");
    assert_eq!(spans[0].node, span);
    assert_eq!(spans[2].node, span);
}

// <span>Text</span>
#[test]
fn element_without_before_after_rules_has_no_extra_spans() {
    let (mut doc, body) = Doc::new();
    let span = doc.element(body, "span", &[]);
    doc.text(span, "Text");
    let tree = doc.tree();

    let spans = find_inline_spans(&tree).expect("expected inline content");
    assert_eq!(spans.len(), 1);
    assert_eq!(spans[0].text, "Text");
}

fn cell(doc: &mut Doc, row: NodeId, tag: &str, attrs: &[(&str, &str)], text: &str) -> NodeId {
    let c = doc.element(row, tag, attrs);
    doc.text(c, text);
    c
}

#[test]
fn table_rows_and_cells_are_collected_through_thead_tbody() {
    let (mut doc, body) = Doc::new();
    let table = doc.element(body, "table", &[]);
    doc.text(table, "\n                ");
    let thead = doc.element(table, "thead", &[]);
    let tr = doc.element(thead, "tr", &[]);
    cell(&mut doc, tr, "th", &[], "Name");
    cell(&mut doc, tr, "th", &[], "Price");
    doc.text(table, "\n                ");
    let tbody = doc.element(table, "tbody", &[]);
    doc.text(tbody, "\n                    ");
    let tr = doc.element(tbody, "tr", &[]);
    cell(&mut doc, tr, "td", &[], "Apple");
    cell(&mut doc, tr, "td", &[], "100");
    doc.text(tbody, "\n                    ");
    let tr = doc.element(tbody, "tr", &[]);
    cell(&mut doc, tr, "td", &[], "Banana");
    cell(&mut doc, tr, "td", &[], "200");
    doc.text(tbody, "\n                ");
    let tree = doc.tree();

    let table_box = find_box(&tree, table).expect("table box not found");
    let table = table_of(table_box);
    assert_eq!(table.rows.len(), 3, "thead + 2 tbody rows");
    assert_eq!(table.rows[0].cells.len(), 2);
    assert_eq!(joined_text(&table.rows[0].cells[0].content.content), "Name");
    assert_eq!(joined_text(&table.rows[1].cells[0].content.content), "Apple");
    assert_eq!(joined_text(&table.rows[2].cells[0].content.content), "Banana");
}

#[test]
fn caption_content_is_collected_and_kept_separate_from_rows() {
    let (mut doc, body) = Doc::new();
    let table = doc.element(body, "table", &[]);
    doc.text(table, "\n                ");
    let caption = doc.element(table, "caption", &[]);
    doc.text(caption, "Fruit Prices");
    doc.text(table, "\n                ");
    let tbody = doc.element(table, "tbody", &[]);
    let tr = doc.element(tbody, "tr", &[]);
    cell(&mut doc, tr, "td", &[], "Apple");
    cell(&mut doc, tr, "td", &[], "100");
    let tree = doc.tree();

    let table = table_of(find_box(&tree, table).expect("table box not found"));
    assert_eq!(table.rows.len(), 1, "caption should not be collected as a row");
    let caption = table.caption.as_ref().expect("caption not found");
    assert_eq!(joined_text(&caption.content), "Fruit Prices");
    assert_eq!(table.caption_side, CaptionSide::Top);
}

#[test]
fn table_without_a_caption_has_none() {
    let (mut doc, body) = Doc::new();
    let table = doc.element(body, "table", &[]);
    let tbody = doc.element(table, "tbody", &[]);
    let tr = doc.element(tbody, "tr", &[]);
    cell(&mut doc, tr, "td", &[], "a");
    let tree = doc.tree();

    let table = table_of(find_box(&tree, table).expect("table box not found"));
    assert!(table.caption.is_none());
}

#[test]
fn colspan_attribute_is_read_from_the_cell() {
    let (mut doc, body) = Doc::new();
    let table = doc.element(body, "table", &[]);
    let tbody = doc.element(table, "tbody", &[]);
    let tr = doc.element(tbody, "tr", &[]);
    cell(&mut doc, tr, "td", &[("colspan", "3")], "wide");
    cell(&mut doc, tr, "td", &[], "narrow");
    let tree = doc.tree();

    let table = table_of(find_box(&tree, table).unwrap());
    assert_eq!(table.rows[0].cells[0].colspan, 3);
    assert_eq!(table.rows[0].cells[1].colspan, 1);
}

#[test]
fn invalid_or_missing_colspan_defaults_to_one() {
    let (mut doc, body) = Doc::new();
    let table = doc.element(body, "table", &[]);
    let tbody = doc.element(table, "tbody", &[]);
    let tr = doc.element(tbody, "tr", &[]);
    cell(&mut doc, tr, "td", &[("colspan", "0")], "a");
    cell(&mut doc, tr, "td", &[("colspan", "not-a-number")], "b");
    cell(&mut doc, tr, "td", &[], "c");
    let tree = doc.tree();

    let table = table_of(find_box(&tree, table).unwrap());
    for cell in &table.rows[0].cells {
        assert_eq!(cell.colspan, 1);
    }
}

#[test]
fn rowspan_attribute_is_read_from_the_cell() {
    let (mut doc, body) = Doc::new();
    let table = doc.element(body, "table", &[]);
    let tbody = doc.element(table, "tbody", &[]);
    let tr = doc.element(tbody, "tr", &[]);
    cell(&mut doc, tr, "td", &[("rowspan", "2")], "tall");
    cell(&mut doc, tr, "td", &[], "a");
    let tr = doc.element(tbody, "tr", &[]);
    cell(&mut doc, tr, "td", &[], "b");
    let tree = doc.tree();

    let table = table_of(find_box(&tree, table).unwrap());
    assert_eq!(table.rows[0].cells[0].rowspan, 2);
    assert_eq!(table.rows[0].cells[1].rowspan, 1);
    assert_eq!(table.rows[1].cells[0].rowspan, 1);
}

#[test]
fn invalid_or_missing_rowspan_defaults_to_one() {
    let (mut doc, body) = Doc::new();
    let table = doc.element(body, "table", &[]);
    let tbody = doc.element(table, "tbody", &[]);
    let tr = doc.element(tbody, "tr", &[]);
    cell(&mut doc, tr, "td", &[("rowspan", "0")], "a");
    cell(&mut doc, tr, "td", &[("rowspan", "not-a-number")], "b");
    cell(&mut doc, tr, "td", &[], "c");
    let tree = doc.tree();

    let table = table_of(find_box(&tree, table).unwrap());
    for cell in &table.rows[0].cells {
        assert_eq!(cell.rowspan, 1);
    }
}

#[test]
fn nested_table_rows_belong_to_the_inner_table_only() {
    let (mut doc, body) = Doc::new();
    let outer = doc.element(body, "table", &[("id", "outer")]);
    let tbody = doc.element(outer, "tbody", &[]);
    let tr = doc.element(tbody, "tr", &[]);
    let td = doc.element(tr, "td", &[]);
    doc.text(td, "\n                ");
    let inner = doc.element(td, "table", &[("id", "inner")]);
    let inner_body = doc.element(inner, "tbody", &[]);
    let inner_tr = doc.element(inner_body, "tr", &[]);
    cell(&mut doc, inner_tr, "td", &[], "nested");
    doc.text(td, "\n            ");
    let tree = doc.tree();

    let outer_table = table_of(find_box(&tree, outer).unwrap());
    assert_eq!(outer_table.rows.len(), 1, "outer table should have exactly one row");
    assert_eq!(outer_table.rows[0].cells.len(), 1);
    let BoxContent::Blocks(cell_children) = &outer_table.rows[0].cells[0].content.content else {
        panic!("expected the outer cell to contain a block (the nested table)")
    };
    assert_eq!(cell_children.len(), 1);
    let BoxContent::Table(inner_table) = &cell_children[0].content else {
        panic!("expected the nested table box")
    };
    assert_eq!(inner_table.rows.len(), 1);
}

// <div><p class="hidden">hidden</p><p class="visible">visible</p></div>
// with `.hidden { display: none; }`
#[test]
fn display_none_excludes_element_and_subtree() {
    let (mut doc, body) = Doc::new();
    let div = doc.element(body, "div", &[]);
    let hidden_p = doc.element(div, "p", &[("class", "hidden")]);
    doc.styled(hidden_p, |s| s.display = Display::NoneKeyword);
    doc.text(hidden_p, "hidden");
    let visible_p = doc.element(div, "p", &[("class", "visible")]);
    doc.text(visible_p, "visible");
    let tree = doc.tree();

    assert!(find_box(&tree, hidden_p).is_none());
    assert!(find_box(&tree, visible_p).is_some());
}

// <div class="outer">before <p>P</p> after</div>
#[test]
fn mixed_block_and_inline_children_get_anonymous_block_wrapping() {
    let (mut doc, body) = Doc::new();
    let div = doc.element(body, "div", &[("class", "outer")]);
    doc.text(div, "before ");
    let p = doc.element(div, "p", &[]);
    doc.text(p, "P");
    doc.text(div, " after");
    let tree = doc.tree();

    let div_box = find_box(&tree, div).expect("div box not found");
    let BoxContent::Blocks(children) = &div_box.content else {
        panic!("expected block container")
    };
    assert_eq!(children.len(), 3, "before-text / <p> / after-text");
    assert_eq!(joined_text(&children[0].content).trim(), "before");
    assert_eq!(children[1].node, Some(p));
    assert_eq!(joined_text(&children[2].content).trim(), "after");
}

// <div class="box"></div> with
// `.box { break-before: always; break-inside: avoid; orphans: 3; widows: 4; }`
#[test]
fn fragmentation_hints_reflect_the_elements_computed_style() {
    let (mut doc, body) = Doc::new();
    let div = doc.element(body, "div", &[("class", "box")]);
    doc.styled(div, |s| {
        s.break_before = BreakBetween::Always;
        s.break_inside = BreakInside::Avoid;
        s.orphans = 3;
        s.widows = 4;
    });
    let tree = doc.tree();

    let div_box = find_box(&tree, div).expect("div box not found");
    let hints = FragmentationHints::from(&box_style(div_box, &doc.styles));
    assert_eq!(hints.break_before, BreakBetween::Always);
    assert_eq!(hints.break_after, BreakBetween::Auto);
    assert_eq!(hints.break_inside, BreakInside::Avoid);
    assert_eq!(hints.orphans, 3);
    assert_eq!(hints.widows, 4);
}

// <div class="outer">before <p>P</p> after</div>
#[test]
fn anonymous_boxes_get_default_fragmentation_hints() {
    let (mut doc, body) = Doc::new();
    let div = doc.element(body, "div", &[("class", "outer")]);
    doc.text(div, "before ");
    let p = doc.element(div, "p", &[]);
    doc.text(p, "P");
    doc.text(div, " after");
    let tree = doc.tree();

    let div_box = find_box(&tree, div).expect("div box not found");
    let BoxContent::Blocks(children) = &div_box.content else {
        panic!("expected block container")
    };
    let anonymous = children
        .iter()
        .find(|c| c.node.is_none())
        .expect("expected an anonymous block wrapping the loose text");
    let hints = FragmentationHints::from(&box_style(anonymous, &doc.styles));
    assert_eq!(hints, FragmentationHints::default());
    assert_eq!(box_style(anonymous, &doc.styles).display, Display::Block);
}

// <div><p>text</p></div> with `div { background-image: url(<decodable jpeg>); }`
#[test]
fn resolve_background_images_decodes_only_nodes_with_background_image_set() {
    let (mut doc, body) = Doc::new();
    let div = doc.element(body, "div", &[]);
    let p = doc.element(div, "p", &[]);
    doc.text(p, "text");
    let url = "data:image/jpeg;base64,/9j/4AAQ";
    doc.styled(div, |s| s.background_image = Some(url.to_string()));

    let mut image_cache = ImageAssetCache::new();
    image_cache.insert(url.to_string(), Some(PreparedImage { id: 1, width: 4, height: 2 }));
    let background_images = resolve_background_images(&doc.styles, &image_cache);

    assert!(background_images.contains_key(&div), "div should have a decoded background image");
    assert!(
        !background_images.contains_key(&p),
        "p has no background-image declared and should not be in the map"
    );
    assert_eq!(background_images[&div], PreparedImage { id: 1, width: 4, height: 2 });
}

// <div></div> with `div { background-image: url("does-not-exist.png"); }`
#[test]
fn resolve_background_images_skips_a_failed_fetch_without_panicking() {
    let (mut doc, body) = Doc::new();
    let div = doc.element(body, "div", &[]);
    doc.styled(div, |s| s.background_image = Some("does-not-exist.png".to_string()));

    let mut image_cache = ImageAssetCache::new();
    image_cache.insert("does-not-exist.png".to_string(), None);
    let background_images = resolve_background_images(&doc.styles, &image_cache);

    assert!(background_images.is_empty(), "a failed background-image fetch should be skipped, not panic");
}

#[test]
fn resolved_img_boxes_carry_the_cached_image_and_their_size_attributes() {
    let (mut doc, body) = Doc::new();
    let img = doc.element(body, "img", &[("src", "a.png"), ("width", "40"), ("height", "abc")]);
    doc.styled(img, |s| s.display = Display::Block);
    let missing = doc.element(body, "img", &[("src", "b.png")]);
    doc.styled(missing, |s| s.display = Display::Block);
    let mut tree = doc.tree();

    let mut cache = ImageAssetCache::new();
    cache.insert("a.png".to_string(), Some(PreparedImage { id: 7, width: 10, height: 20 }));
    resolve_images(&mut tree, &doc.dom, &cache);

    let BoxContent::Image(content) = &find_box(&tree, img).unwrap().content else {
        panic!("expected an image box")
    };
    assert_eq!(content.image, Some(PreparedImage { id: 7, width: 10, height: 20 }));
    assert_eq!(content.attr_width, Some(40));
    assert_eq!(content.attr_height, None);
    let BoxContent::Image(content) = &find_box(&tree, missing).unwrap().content else {
        panic!("expected an image box")
    };
    assert_eq!(content.image, None);
}

#[test]
fn span_attributes_read_positive_decimals_only() {
    let (mut doc, body) = Doc::new();
    let table = doc.element(body, "table", &[]);
    let tr = doc.element(table, "tr", &[]);
    let a = cell(&mut doc, tr, "td", &[("colspan", "12"), ("rowspan", "+2")], "a");
    let b = cell(&mut doc, tr, "td", &[("colspan", "99999999999999999999999"), ("rowspan", "007")], "b");
    assert_eq!(read_colspan(&doc.dom, a), 12);
    assert_eq!(read_rowspan(&doc.dom, b), 7);
    assert_eq!(read_colspan(&doc.dom, b), 1);
}

#[test]
fn white_space_only_text_between_blocks_makes_no_box() {
    let (mut doc, body) = Doc::new();
    let div = doc.element(body, "div", &[]);
    doc.text(div, "\n  ");
    let p1 = doc.element(div, "p", &[]);
    doc.text(p1, "one");
    doc.text(div, "\n  ");
    let p2 = doc.element(div, "p", &[]);
    doc.text(p2, "two");
    let tree = doc.tree();

    let BoxContent::Blocks(children) = &find_box(&tree, div).unwrap().content else {
        panic!("expected block container")
    };
    assert_eq!(children.len(), 2);
    assert_eq!(children[0].node, Some(p1));
    assert_eq!(children[1].node, Some(p2));
}

#[test]
fn blocks_inside_an_undisplayed_element_get_no_box() {
    let (mut doc, body) = Doc::new();
    let hidden = doc.element(body, "div", &[]);
    doc.styled(hidden, |s| s.display = Display::NoneKeyword);
    let inner = doc.element(hidden, "p", &[]);
    doc.text(inner, "inner");
    let table = doc.element(hidden, "table", &[]);
    let tr = doc.element(table, "tr", &[]);
    let td = cell(&mut doc, tr, "td", &[], "x");
    let shown = doc.element(body, "p", &[]);
    doc.text(shown, "shown");
    let tree = doc.tree();

    for node in [hidden, inner, table, tr, td] {
        assert!(find_box(&tree, node).is_none());
    }
    assert!(find_box(&tree, shown).is_some());
}

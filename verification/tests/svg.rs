use pdf_writer::Ref;
use sghtmltopdf_core::pdf::refs::{RefAllocator, RefRenumbering};
use sghtmltopdf_core::pdf::svg::{find, looks_like_svg, object_offsets, renumber_into_document};

#[test]
fn sniffs_a_plain_svg() {
    let src = r#"<svg xmlns="http://www.w3.org/2000/svg" width="20" height="10"></svg>"#;
    assert!(looks_like_svg(src.as_bytes()));
}

#[test]
fn sniffs_an_svg_behind_a_prolog_a_comment_and_a_doctype() {
    let src = [
        "\n  <?xml version=\"1.0\" encoding=\"UTF-8\"?>\n",
        "<!-- exported by some drawing tool -->\n",
        "<!DOCTYPE svg PUBLIC \"-//W3C//DTD SVG 1.1//EN\" \"x.dtd\">\n",
        "<svg xmlns=\"http://www.w3.org/2000/svg\"></svg>",
    ]
    .concat();
    assert!(looks_like_svg(src.as_bytes()));
}

#[test]
fn sniffs_an_svg_with_a_utf8_bom_and_an_uppercase_tag() {
    let mut bytes = vec![0xEF, 0xBB, 0xBF];
    bytes.extend_from_slice(b"<SVG xmlns=\"http://www.w3.org/2000/svg\"></SVG>");
    assert!(looks_like_svg(&bytes));
}

#[test]
fn does_not_sniff_other_xml_or_binary_as_svg() {
    assert!(!looks_like_svg(b"<?xml version=\"1.0\"?><rss><channel/></rss>"));
    assert!(!looks_like_svg(b"\x89PNG\r\n\x1a\n"));
    assert!(!looks_like_svg(b""));
    assert!(!looks_like_svg(b"   \n\t  "));
    let mut far = String::from("<other>");
    far.push_str(&"x".repeat(5000));
    far.push_str("<svg/></other>");
    assert!(!looks_like_svg(far.as_bytes()));
}

#[test]
fn gzip_data_is_taken_for_svgz() {
    assert!(looks_like_svg(&[0x1f, 0x8b, 0x08, 0x00]));
}

#[test]
fn an_svg_tag_just_inside_the_window_is_found() {
    let mut near = String::from("<");
    near.push_str(&"x".repeat(4091));
    near.push_str("<svg/>");
    assert!(looks_like_svg(near.as_bytes()));
    let mut just_out = String::from("<");
    just_out.push_str(&"x".repeat(4092));
    just_out.push_str("<svg/>");
    assert!(!looks_like_svg(just_out.as_bytes()));
}

#[test]
fn find_gives_the_first_occurrence() {
    assert_eq!(find(b"abcabc", b"bc"), Some(1));
    assert_eq!(find(b"abcabc", b"cab"), Some(2));
    assert_eq!(find(b"abc", b"abcd"), None);
    assert_eq!(find(b"abc", b""), None);
    assert_eq!(find(b"abc", b"x"), None);
}

const TWO_OBJECTS: &[u8] = b"3 0 obj\n<< /A 4 0 R >>\nendobj\n\n4 0 obj\n(stream 4 0 obj\n)\nendobj\n\n";

#[test]
fn offsets_are_found_after_each_endobj() {
    let offsets = object_offsets(TWO_OBJECTS, &vec![3, 4]).unwrap();
    assert_eq!(offsets, vec![(3, 0), (4, 31)]);
    assert!(TWO_OBJECTS[31..].starts_with(b"4 0 obj\n"));
}

#[test]
fn a_missing_object_header_is_an_error() {
    assert!(object_offsets(TWO_OBJECTS, &vec![3, 5]).is_err());
    assert!(object_offsets(TWO_OBJECTS, &vec![4, 3]).is_err());
    assert_eq!(object_offsets(TWO_OBJECTS, &vec![]).unwrap(), vec![]);
}

const CIRCLE: &str = r##"<svg xmlns="http://www.w3.org/2000/svg" width="20" height="10">
    <circle cx="10" cy="5" r="4" fill="#f00"/>
</svg>"##;

fn convert(src: &str) -> (pdf_writer::Chunk, Ref) {
    let tree = svg2pdf::usvg::Tree::from_data(src.as_bytes(), &svg2pdf::usvg::Options::default()).unwrap();
    svg2pdf::to_chunk(&tree, svg2pdf::ConversionOptions::default()).unwrap()
}

/// Renumbers `chunk` into `alloc`'s numbers as the renderer does.
fn renumber(
    chunk: &pdf_writer::Chunk,
    root: Ref,
    alloc: &mut RefAllocator,
) -> (pdf_writer::Chunk, Result<sghtmltopdf_core::pdf::svg::RenumberedObjects, String>) {
    let mut mapping = RefRenumbering::starting_at(alloc.peek());
    let renumbered = chunk.renumber(|old| Ref::new(mapping.map(old.get()).expect("object numbers left")));
    let refs: Vec<i32> = renumbered.refs().map(|r| r.get()).collect();
    let result = renumber_into_document(&mapping, root.get(), &refs, renumbered.as_bytes(), alloc)
        .map_err(|e| e.describe());
    (renumbered, result)
}

#[test]
fn renumbering_maps_every_object_into_the_documents_ref_space() {
    let (chunk, root) = convert(CIRCLE);
    let mut alloc = RefAllocator::default();
    let first = alloc.next();
    let (renumbered, result) = renumber(&chunk, root, &mut alloc);
    let objects = result.expect("should renumber");

    let mut got: Vec<i32> = renumbered.refs().map(|r| r.get()).collect();
    assert!(!got.is_empty());
    assert!(renumbered.refs().any(|r| r.get() == objects.root), "the form XObject must be one of the chunk's objects");
    let expected: Vec<i32> = (first + 1..=first + got.len() as i32).collect();
    got.sort_unstable();
    assert_eq!(got, expected);
    assert_eq!(alloc.peek(), first + 1 + got.len() as i32);
}

#[test]
fn object_offsets_point_at_every_object_header() {
    let (chunk, root) = convert(CIRCLE);
    let mut alloc = RefAllocator::default();
    let (renumbered, result) = renumber(&chunk, root, &mut alloc);
    let objects = result.unwrap();

    let bytes = renumbered.as_bytes();
    assert_eq!(objects.offsets.len(), renumbered.refs().len());
    for &(id, offset) in &objects.offsets {
        let header = format!("{} 0 obj\n", id);
        assert!(bytes[offset..].starts_with(header.as_bytes()), "offset {offset} for object {id} should point at its header");
    }
}

#[test]
fn a_failed_renumbering_leaves_the_allocator_alone() {
    let mut alloc = RefAllocator::default();
    alloc.next();
    let mut mapping = RefRenumbering::starting_at(alloc.peek());
    assert_eq!(mapping.map(7), Some(2));
    assert_eq!(mapping.map(9), Some(3));
    assert_eq!(mapping.map(7), Some(2));
    // Object 3 (old 9) is referred to but never defined.
    let bytes = b"2 0 obj\n<< /X 3 0 R >>\nendobj\n\n";
    let result = renumber_into_document(&mapping, 7, &vec![2], bytes, &mut alloc);
    assert!(result.is_err());
    assert_eq!(alloc.peek(), 2);
    // A root that was never met is an error too.
    let result = renumber_into_document(&mapping, 8, &vec![2, 3], bytes, &mut alloc);
    assert!(result.is_err());
    assert_eq!(alloc.peek(), 2);
}

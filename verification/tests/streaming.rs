use sghtmltopdf_core::pdf::streaming::{FontIds, StreamingPdfWriter};
use sghtmltopdf_core::sink::{BufferedSink, MemorySink};

/// The `(offset)` of each in-use entry of the cross-reference table at the
/// end of `pdf`, by object number.
fn xref_offsets(pdf: &[u8]) -> Vec<usize> {
    let text = String::from_utf8_lossy(pdf).to_string();
    let start = text.find("xref\n0 ").unwrap();
    text[start..]
        .lines()
        .skip(3)
        .take_while(|l| l.ends_with(" n "))
        .map(|l| l[..10].parse().unwrap())
        .collect()
}

#[test]
fn objects_are_numbered_and_found_again_through_the_table() {
    let mut w = StreamingPdfWriter::new(1, MemorySink::new()).unwrap();
    assert_eq!(w.catalog_id(), 1);
    assert_eq!(w.pages_tree_id(), 2);
    assert_eq!(
        w.font_ids()[0],
        FontIds { font_file: 3, descriptor: 4, cid_font: 5, type0_font: 6, to_unicode: 7, cid_to_gid_map: 8 }
    );
    assert_eq!(w.written_len(), 16);

    let (page, content) = w.begin_page();
    assert_eq!((page, content), (9, 10));
    let content_obj = b"10 0 obj\n<< /Length 0 >>\nstream\n\nendstream\nendobj\n\n".to_vec();
    let page_obj = b"9 0 obj\n<< /Type /Page /Parent 2 0 R /Contents 10 0 R >>\nendobj\n\n".to_vec();
    let pages_obj = b"2 0 obj\n<< /Type /Pages /Kids [9 0 R] /Count 1 >>\nendobj\n\n".to_vec();
    let catalog_obj = b"1 0 obj\n<< /Type /Catalog /Pages 2 0 R >>\nendobj\n\n".to_vec();
    w.write_object(content, &content_obj).unwrap();
    w.write_object(page, &page_obj).unwrap();
    w.write_object(w.pages_tree_id(), &pages_obj).unwrap();
    w.write_object(w.catalog_id(), &catalog_obj).unwrap();
    assert_eq!(w.page_ids(), &vec![9]);
    let total = w.written_len();
    let trailer = w.trailer_text();
    let pdf = w.finish().unwrap();

    assert!(pdf.starts_with(b"%PDF-1.7\n%\x80\x80\x80\x80\n\n"));
    assert_eq!(&pdf[total..], trailer.as_bytes());
    assert!(trailer.starts_with("xref\n0 11\n"));
    assert!(trailer.ends_with(&format!("startxref\n{total}\n%%EOF")));
    let offsets = xref_offsets(&pdf);
    assert_eq!(offsets.len(), 4, "objects 1, 2, 9 and 10 are in use");
    assert!(pdf[offsets[0]..].starts_with(&catalog_obj));
    assert!(pdf[offsets[1]..].starts_with(&pages_obj));
    assert!(pdf[offsets[2]..].starts_with(&page_obj));
    assert!(pdf[offsets[3]..].starts_with(&content_obj));
}

#[test]
fn pages_get_two_numbers_each_after_the_fonts() {
    let mut w = StreamingPdfWriter::new(2, MemorySink::new()).unwrap();
    assert_eq!(w.font_ids()[1].font_file, 9);
    assert_eq!(w.font_ids()[1].cid_to_gid_map, 14);
    assert_eq!(w.begin_page(), (15, 16));
    assert_eq!(w.begin_page(), (17, 18));
    assert_eq!(w.page_ids(), &vec![15, 17]);
}

#[test]
fn a_sink_that_refuses_the_header_fails_the_writer() {
    let sink: BufferedSink<(), std::io::Error, _> =
        BufferedSink::new(4, |_part| Err(std::io::Error::other("upload failed")));
    assert!(StreamingPdfWriter::new(0, sink).is_err());
}

#[test]
fn the_output_is_the_header_the_objects_and_the_trailer() {
    let mut w = StreamingPdfWriter::new(0, MemorySink::new()).unwrap();
    let obj = b"1 0 obj\n<< /Type /Catalog >>\nendobj\n\n".to_vec();
    w.write_object(1, &obj).unwrap();
    let trailer = w.trailer_text();
    let pdf = w.finish().unwrap();
    let mut expected = b"%PDF-1.7\n%\x80\x80\x80\x80\n\n".to_vec();
    expected.extend_from_slice(&obj);
    expected.extend_from_slice(trailer.as_bytes());
    assert_eq!(pdf, expected);
    assert_eq!(
        trailer,
        "xref\n0 2\n0000000000 65535 f \n0000000016 00000 n \ntrailer\n<< /Size 2 /Root 1 0 R >>\nstartxref\n53\n%%EOF"
    );
}

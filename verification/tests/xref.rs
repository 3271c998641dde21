use sghtmltopdf_core::pdf::compress::deflate;
use sghtmltopdf_core::pdf::refs::RefAllocator;
use sghtmltopdf_core::pdf::xref::{sort_by_id, xref_and_trailer, ObjectOffsets};

#[test]
fn the_table_lists_objects_by_number_with_ten_digit_offsets() {
    let text = xref_and_trailer(&vec![(3, 120), (1, 15), (2, 64)], 1, 200);
    assert_eq!(
        text,
        "xref\n0 4\n0000000000 65535 f \n0000000015 00000 n \n0000000064 00000 n \n0000000120 00000 n \n\
         trailer\n<< /Size 4 /Root 1 0 R >>\nstartxref\n200\n%%EOF"
    );
}

#[test]
fn an_empty_table_has_only_the_free_entry() {
    let text = xref_and_trailer(&vec![], 1, 15);
    assert_eq!(
        text,
        "xref\n0 1\n0000000000 65535 f \ntrailer\n<< /Size 1 /Root 1 0 R >>\nstartxref\n15\n%%EOF"
    );
}

#[test]
fn sorting_keeps_entries_with_the_same_number_in_order() {
    let sorted = sort_by_id(&vec![(5, 1), (2, 2), (5, 3), (1, 4), (2, 5)]);
    assert_eq!(sorted, vec![(1, 4), (2, 2), (2, 5), (5, 1), (5, 3)]);
}

#[test]
fn recorded_offsets_add_up_the_lengths_written_before() {
    let mut table = ObjectOffsets::new(15);
    let mut alloc = RefAllocator::new();
    let catalog = alloc.next();
    let pages = alloc.next();
    table.record(pages, 40);
    table.record(catalog, 30);
    assert_eq!(table.written_len(), 85);
    let text = table.xref_and_trailer(catalog);
    assert!(text.starts_with("xref\n0 3\n0000000000 65535 f \n0000000055 00000 n \n0000000015 00000 n \n"));
    assert!(text.ends_with("startxref\n85\n%%EOF"));
}

#[test]
fn deflate_shrinks_compressible_data() {
    let data = vec![b'A'; 10_000];
    let compressed = deflate(&data);
    assert!(compressed.len() < data.len() / 10, "{} -> {}", data.len(), compressed.len());
}

#[test]
fn deflate_output_round_trips_via_zlib_decoder() {
    let data = b"the quick brown fox jumps over the lazy dog".repeat(50);
    let compressed = deflate(&data);
    assert_ne!(compressed, data);
    let mut decoder = flate2::read::ZlibDecoder::new(&compressed[..]);
    let mut decompressed = Vec::new();
    std::io::Read::read_to_end(&mut decoder, &mut decompressed).unwrap();
    assert_eq!(decompressed, data);
}

#[test]
fn the_allocator_hands_out_consecutive_numbers_from_one() {
    let mut alloc = RefAllocator::default();
    assert_eq!(alloc.peek(), 1);
    assert_eq!(alloc.next(), 1);
    assert_eq!(alloc.next(), 2);
    alloc.commit(3);
    assert_eq!(alloc.next(), 6);
}

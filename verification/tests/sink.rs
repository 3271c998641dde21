use std::io;

use sghtmltopdf_core::sink::{BufferedSink, MemorySink, Sink, MULTIPART_MIN_PART_SIZE};

#[test]
fn memory_sink_accumulates_written_bytes() {
    let mut sink = MemorySink::new();
    sink.write(b"hello, ").unwrap();
    sink.write(b"world").unwrap();
    assert_eq!(sink.finish().unwrap(), b"hello, world");
}

#[test]
fn buffered_sink_does_not_flush_a_part_before_the_threshold_is_reached() {
    let mut parts_seen: Vec<Vec<u8>> = Vec::new();
    let mut sink: BufferedSink<(), io::Error, _> = BufferedSink::new(10, |part| {
        parts_seen.push(part);
        Ok(())
    });
    sink.write(b"12345").unwrap();
    sink.write(b"6789").unwrap();
    drop(sink);
    assert!(parts_seen.is_empty(), "9 bytes written should not cross the 10-byte threshold yet");
}

#[test]
fn buffered_sink_flushes_a_part_once_the_threshold_is_crossed() {
    let mut parts_seen: Vec<Vec<u8>> = Vec::new();
    let mut sink: BufferedSink<(), io::Error, _> = BufferedSink::new(10, |part| {
        parts_seen.push(part);
        Ok(())
    });
    sink.write(b"12345").unwrap();
    sink.write(b"67890").unwrap();
    drop(sink);
    assert_eq!(parts_seen, vec![b"1234567890".to_vec()]);
}

#[test]
fn buffered_sink_flushes_multiple_parts_from_a_single_large_write() {
    let mut parts_seen: Vec<Vec<u8>> = Vec::new();
    let mut sink: BufferedSink<(), io::Error, _> = BufferedSink::new(3, |part| {
        parts_seen.push(part);
        Ok(())
    });
    sink.write(b"abcdefghi").unwrap();
    drop(sink);
    assert_eq!(parts_seen, vec![b"abc".to_vec(), b"def".to_vec(), b"ghi".to_vec()]);
}

#[test]
fn buffered_sink_flushes_the_remaining_partial_data_on_finish() {
    let mut parts_seen: Vec<Vec<u8>> = Vec::new();
    let mut sink: BufferedSink<(), io::Error, _> = BufferedSink::new(10, |part| {
        parts_seen.push(part);
        Ok(())
    });
    sink.write(b"hello").unwrap();
    sink.finish().unwrap();
    assert_eq!(
        parts_seen,
        vec![b"hello".to_vec()],
        "the final short part (5 bytes, below the 10-byte threshold) should still be flushed on finish"
    );
}

#[test]
fn buffered_sink_does_not_send_an_empty_final_part() {
    let mut parts_seen: Vec<Vec<u8>> = Vec::new();
    let mut sink: BufferedSink<(), io::Error, _> = BufferedSink::new(5, |part| {
        parts_seen.push(part);
        Ok(())
    });
    sink.write(b"12345").unwrap();
    sink.finish().unwrap();
    assert_eq!(
        parts_seen,
        vec![b"12345".to_vec()],
        "exactly one full part should be sent, with no trailing empty part on finish"
    );
}

#[test]
fn buffered_sink_preserves_byte_order_across_parts() {
    let mut parts_seen: Vec<Vec<u8>> = Vec::new();
    let mut sink: BufferedSink<(), io::Error, _> = BufferedSink::new(4, |part| {
        parts_seen.push(part);
        Ok(())
    });
    for chunk in [b"ab".as_slice(), b"cdef".as_slice(), b"gh".as_slice(), b"i"] {
        sink.write(chunk).unwrap();
    }
    sink.finish().unwrap();
    let reassembled: Vec<u8> = parts_seen.concat();
    assert_eq!(reassembled, b"abcdefghi");
}

#[test]
fn buffered_sink_propagates_errors_from_on_part() {
    let mut sink: BufferedSink<(), io::Error, _> = BufferedSink::new(4, |_part| Err(io::Error::other("upload failed")));
    let result = sink.write(b"abcd");
    assert!(result.is_err());
}

#[test]
fn buffered_sink_output_collects_each_parts_return_value() {
    let mut next_etag = 0u32;
    let mut sink: BufferedSink<u32, io::Error, _> = BufferedSink::new(4, |_part| {
        next_etag += 1;
        Ok(next_etag)
    });
    sink.write(b"abcdefgh").unwrap();
    let etags = sink.finish().unwrap();
    assert_eq!(etags, vec![1, 2]);
}

#[test]
fn a_zero_threshold_hands_over_every_byte_on_its_own() {
    let mut parts_seen: Vec<Vec<u8>> = Vec::new();
    let mut sink: BufferedSink<usize, io::Error, _> = BufferedSink::new(0, |part| {
        let n = part.len();
        parts_seen.push(part);
        Ok(n)
    });
    sink.write(b"abc").unwrap();
    sink.write(b"de").unwrap();
    let sizes = sink.finish().unwrap();
    assert_eq!(sizes, vec![1, 1, 1, 1, 1]);
    assert_eq!(
        parts_seen,
        vec![b"a".to_vec(), b"b".to_vec(), b"c".to_vec(), b"d".to_vec(), b"e".to_vec()]
    );
}

#[test]
fn the_multipart_minimum_is_five_mebibytes() {
    assert_eq!(MULTIPART_MIN_PART_SIZE, 5 * 1024 * 1024);
}

#[test]
fn a_last_part_refused_on_finish_is_an_error() {
    let mut sink: BufferedSink<(), io::Error, _> = BufferedSink::new(10, |_part| Err(io::Error::other("upload failed")));
    sink.write(b"abc").unwrap();
    assert!(sink.finish().is_err());
}

//! Behavioural tests of the record-stream codec and its primitives.

use mcpr_filter::process::{process_tmcpr, rewrite_entry};
use mcpr_filter::utils::{read_int, read_varint, write_int};
use mcpr_filter::McprError;

/// Builds one record: big-endian timestamp, big-endian length, payload.
fn record(timestamp: i32, payload: &[u8]) -> Vec<u8> {
    let mut out = Vec::new();
    out.extend_from_slice(&timestamp.to_be_bytes());
    out.extend_from_slice(&(payload.len() as i32).to_be_bytes());
    out.extend_from_slice(payload);
    out
}

#[test]
fn varint_two_bytes() {
    assert_eq!(read_varint(&[0xFF, 0x01]), Ok((255, 2)));
}

#[test]
fn varint_single_zero() {
    assert_eq!(read_varint(&[0x00]), Ok((0, 1)));
}

#[test]
fn varint_six_continuations_too_long() {
    assert_eq!(
        read_varint(&[0x80, 0x80, 0x80, 0x80, 0x80, 0x80]),
        Err(McprError::VarintTooLong)
    );
}

#[test]
fn varint_empty_eof() {
    assert_eq!(read_varint(&[]), Err(McprError::UnexpectedEof));
}

#[test]
fn varint_trailing_continuation_eof() {
    assert_eq!(read_varint(&[0x80, 0x80]), Err(McprError::UnexpectedEof));
    assert_eq!(
        read_varint(&[0x80, 0x80, 0x80, 0x80, 0x80]),
        Err(McprError::UnexpectedEof)
    );
}

#[test]
fn varint_ignores_bytes_after_terminator() {
    assert_eq!(read_varint(&[0x05, 0xAA, 0xBB]), Ok((5, 1)));
}

#[test]
fn int_round_trip() {
    let mut buf = Vec::new();
    write_int(&mut buf, -1);
    write_int(&mut buf, 0x0102_0304);
    assert_eq!(buf, vec![0xFF, 0xFF, 0xFF, 0xFF, 0x01, 0x02, 0x03, 0x04]);
    assert_eq!(read_int(&buf, 0), Some(-1));
    assert_eq!(read_int(&buf, 4), Some(0x0102_0304));
    assert_eq!(read_int(&buf, 5), None);
}

#[test]
fn end_to_end_scenario() {
    let mut stream = record(100, &[0x05, 0xAA]);
    let second = record(200, &[0x7F]);
    stream.extend_from_slice(&second);
    let (out, counts) = process_tmcpr(&stream, &[5]).unwrap();
    assert_eq!(out, second);
    assert_eq!(counts.len(), 1);
    assert_eq!(counts.get(&5), Some(&1));
}

#[test]
fn empty_filter_is_identity() {
    let mut stream = record(1, &[0x05, 0xAA]);
    stream.extend_from_slice(&record(-7, &[0x80, 0x03, 0x01]));
    let (out, counts) = process_tmcpr(&stream, &[]).unwrap();
    assert_eq!(out, stream);
    assert!(counts.is_empty());
}

#[test]
fn filtering_twice_equals_filtering_once() {
    let mut stream = Vec::new();
    stream.extend_from_slice(&record(1, &[0x05, 0x01]));
    stream.extend_from_slice(&record(2, &[0x07]));
    stream.extend_from_slice(&record(3, &[0x05]));
    stream.extend_from_slice(&record(4, &[0x0A, 0xFF]));
    let (once, counts) = process_tmcpr(&stream, &[5]).unwrap();
    let (twice, recounts) = process_tmcpr(&once, &[5]).unwrap();
    assert_eq!(twice, once);
    assert_eq!(counts.get(&5), Some(&2));
    assert!(recounts.is_empty());
}

#[test]
fn kept_records_are_byte_identical_in_order() {
    let kept_a = record(10, &[0x07, 0x01]);
    let kept_b = record(-20, &[0x08]);
    let mut stream = Vec::new();
    stream.extend_from_slice(&record(1, &[0x05]));
    stream.extend_from_slice(&kept_a);
    stream.extend_from_slice(&record(2, &[0x05, 0x55]));
    stream.extend_from_slice(&kept_b);
    let (out, _) = process_tmcpr(&stream, &[5]).unwrap();
    let mut expected = kept_a.clone();
    expected.extend_from_slice(&kept_b);
    assert_eq!(out, expected);
}

#[test]
fn removal_counts_are_exact() {
    let mut stream = Vec::new();
    stream.extend_from_slice(&record(1, &[0x05]));
    stream.extend_from_slice(&record(2, &[0x07, 0x11]));
    stream.extend_from_slice(&record(3, &[0x05, 0x22]));
    stream.extend_from_slice(&record(4, &[0x09]));
    stream.extend_from_slice(&record(5, &[0x07]));
    stream.extend_from_slice(&record(6, &[0x05]));
    let (out, counts) = process_tmcpr(&stream, &[5, 7]).unwrap();
    assert_eq!(out, record(4, &[0x09]));
    assert_eq!(counts.get(&5), Some(&3));
    assert_eq!(counts.get(&7), Some(&2));
    assert_eq!(counts.get(&9), None);
    assert_eq!(counts.len(), 2);
}

#[test]
fn boundary_length_accepted() {
    let payload = vec![0x05u8; 10_000_000];
    let stream = record(0, &payload);
    let (out, counts) = process_tmcpr(&stream, &[]).unwrap();
    assert_eq!(out, stream);
    assert!(counts.is_empty());
}

#[test]
fn over_boundary_length_halts() {
    let mut stream = record(9, &[0x07]);
    let mut bad = Vec::new();
    bad.extend_from_slice(&1i32.to_be_bytes());
    bad.extend_from_slice(&10_000_001i32.to_be_bytes());
    bad.extend_from_slice(&[0u8; 16]);
    stream.extend_from_slice(&bad);
    let (out, counts) = process_tmcpr(&stream, &[]).unwrap();
    assert_eq!(out, record(9, &[0x07]));
    assert!(counts.is_empty());
}

#[test]
fn zero_length_halts() {
    let mut stream = record(9, &[0x07]);
    let mut bad = Vec::new();
    bad.extend_from_slice(&1i32.to_be_bytes());
    bad.extend_from_slice(&0i32.to_be_bytes());
    bad.extend_from_slice(&[0x55u8; 4]);
    stream.extend_from_slice(&bad);
    let (out, counts) = process_tmcpr(&stream, &[]).unwrap();
    assert_eq!(out, record(9, &[0x07]));
    assert!(counts.is_empty());
}

#[test]
fn negative_length_halts() {
    let mut stream = Vec::new();
    stream.extend_from_slice(&1i32.to_be_bytes());
    stream.extend_from_slice(&(-3i32).to_be_bytes());
    stream.extend_from_slice(&[0x55u8; 8]);
    let (out, counts) = process_tmcpr(&stream, &[1]).unwrap();
    assert!(out.is_empty());
    assert!(counts.is_empty());
}

#[test]
fn truncated_payload_is_hard_error() {
    let mut stream = Vec::new();
    stream.extend_from_slice(&1i32.to_be_bytes());
    stream.extend_from_slice(&5i32.to_be_bytes());
    stream.extend_from_slice(&[0x01, 0x02, 0x03]);
    assert_eq!(process_tmcpr(&stream, &[]), Err(McprError::UnexpectedEof));
}

#[test]
fn short_trailing_fragment_stops_normally() {
    let mut stream = record(3, &[0x06, 0x01]);
    stream.extend_from_slice(&[0x00, 0x00, 0x01]);
    let (out, counts) = process_tmcpr(&stream, &[9]).unwrap();
    assert_eq!(out, record(3, &[0x06, 0x01]));
    assert!(counts.is_empty());
}

#[test]
fn undecodable_tag_falls_back_to_sentinel() {
    // A one-byte payload holding only a continuation byte has no
    // decodable tag; the record counts under the sentinel 0xFFFF.
    let mut stream = record(1, &[0x80]);
    stream.extend_from_slice(&record(2, &[0x05]));
    let (out, counts) = process_tmcpr(&stream, &[0xFFFF]).unwrap();
    assert_eq!(out, record(2, &[0x05]));
    assert_eq!(counts.get(&0xFFFF), Some(&1));
}

#[test]
fn rewrite_entry_filters_stream_entry() {
    let mut stream = record(100, &[0x05, 0xAA]);
    stream.extend_from_slice(&record(200, &[0x7F]));
    let (out, counts) = rewrite_entry("recording.tmcpr", &stream, &[5]).unwrap();
    assert_eq!(out, record(200, &[0x7F]));
    assert_eq!(counts.get(&5), Some(&1));
}

#[test]
fn rewrite_entry_passes_other_entries_through() {
    let bytes = vec![0xDE, 0xAD, 0xBE, 0xEF];
    let (out, counts) = rewrite_entry("metaData.json", &bytes, &[5]).unwrap();
    assert_eq!(out, bytes);
    assert!(counts.is_empty());
}

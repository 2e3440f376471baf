use vctsdb::wal::{
    check_header, frame_entry, header_end, needs_rotation, parse_segment_entries, replay_order,
    segment_is_valid, Segment, WalError, WAL_MAGIC, WAL_VERSION,
};

fn entry(i: i64) -> Vec<u8> {
    format!("{{\"series_name\":\"test_series\",\"timestamp\":{},\"value\":{}.0,\"tags\":{{\"host\":\"server1\"}},\"crc\":0}}", i, i)
        .into_bytes()
}

fn segment(entries: &[Vec<u8>]) -> Vec<u8> {
    let mut bytes = b"{\"magic\":1463897088,\"version\":1,\"created_at\":0}\n".to_vec();
    for e in entries {
        frame_entry(e, &mut bytes);
    }
    bytes
}

#[test]
fn replay_returns_written_entries_in_order() {
    let entries: Vec<Vec<u8>> = (1000..1003).map(entry).collect();
    let bytes = segment(&entries);
    let start = header_end(&bytes).unwrap();
    let (read, torn) = parse_segment_entries(&bytes, start).unwrap();
    assert!(!torn);
    assert_eq!(read, entries);
    assert!(segment_is_valid(&bytes, start));
}

#[test]
fn frame_is_line_checksum_newline() {
    let mut out = Vec::new();
    frame_entry(&b"123456789".to_vec(), &mut out);
    // CRC-32C of "123456789" is 0xE3069283
    let mut expected = b"123456789\n".to_vec();
    expected.extend_from_slice(&0xE306_9283u32.to_le_bytes());
    expected.push(b'\n');
    assert_eq!(out, expected);
}

#[test]
fn overwritten_tail_makes_segment_invalid() {
    let entries: Vec<Vec<u8>> = (0..3).map(entry).collect();
    let mut bytes = segment(&entries);
    let n = bytes.len();
    bytes[n - 10..n - 1].copy_from_slice(b"corrupted");
    let start = header_end(&bytes).unwrap();
    assert!(!segment_is_valid(&bytes, start));
}

#[test]
fn checksum_mismatch_is_fatal() {
    let entries: Vec<Vec<u8>> = (0..2).map(entry).collect();
    let mut bytes = segment(&entries);
    let start = header_end(&bytes).unwrap();
    // change one byte of the first entry's JSON
    bytes[start + 3] ^= 1;
    assert!(matches!(parse_segment_entries(&bytes, start), Err(WalError::CorruptedEntry)));
}

#[test]
fn torn_tail_keeps_what_came_before() {
    let entries: Vec<Vec<u8>> = (0..2).map(entry).collect();
    let bytes = segment(&entries);
    let cut = bytes[..bytes.len() - 3].to_vec();
    let start = header_end(&cut).unwrap();
    let (read, torn) = parse_segment_entries(&cut, start).unwrap();
    assert!(torn);
    assert_eq!(read, vec![entries[0].clone()]);
    assert!(!segment_is_valid(&cut, start));
}

#[test]
fn header_fields_are_checked() {
    assert!(check_header(WAL_MAGIC, WAL_VERSION).is_ok());
    assert!(matches!(check_header(0, WAL_VERSION), Err(WalError::InvalidHeader(_))));
    assert!(matches!(check_header(WAL_MAGIC, 2), Err(WalError::InvalidHeader(_))));
    assert_eq!(header_end(&b"abc".to_vec()), None);
}

#[test]
fn rotation_when_missing_full_or_old() {
    assert!(needs_rotation(&None, 100, 50, 3600));
    let small = Some(Segment::new("a.wal".to_string(), 10, 100));
    assert!(!needs_rotation(&small, 200, 50, 3600));
    let full = Some(Segment::new("b.wal".to_string(), 50, 100));
    assert!(needs_rotation(&full, 200, 50, 3600));
    let old = Some(Segment::new("c.wal".to_string(), 10, 100));
    assert!(needs_rotation(&old, 3700, 50, 3600));
    // a clock behind the creation time counts as age zero
    assert!(!needs_rotation(&old, 50, 50, 3600));
}

#[test]
fn replay_order_is_by_creation_time_then_listing() {
    assert_eq!(replay_order(&vec![30, 10, 20, 10]), vec![1, 3, 2, 0]);
    assert!(replay_order(&vec![]).is_empty());
}

#[test]
fn empty_lines_are_skipped() {
    let mut bytes = b"\n\n".to_vec();
    frame_entry(&entry(1), &mut bytes);
    let (read, torn) = parse_segment_entries(&bytes, 0).unwrap();
    assert!(!torn);
    assert_eq!(read, vec![entry(1)]);
}

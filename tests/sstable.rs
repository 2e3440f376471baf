use vctsdb::block::{decode_block, encode_block, DataBlock};
use vctsdb::sstable::{IoFailure, SSTable, SSTableError, SSTABLE_MAGIC, SSTABLE_VERSION};

fn host_tags() -> Vec<(String, String)> {
    vec![("host".to_string(), "server1".to_string())]
}

fn bits(v: &[f64]) -> Vec<u64> {
    v.iter().map(|x| x.to_bits()).collect()
}

#[test]
fn test_sstable_write_and_read() {
    let mut sstable = SSTable::new("test.sst".to_string());
    let tags = host_tags();

    let block = DataBlock {
        start_timestamp: 1000,
        timestamp_deltas: vec![0, 1, 2],
        values: bits(&[42.0, 43.0, 44.0]),
        series_names: vec!["test_series".to_string(); 3],
        tags: vec![tags.clone(); 3],
    };

    sstable.write_block(block).unwrap();

    let read_block = sstable.read_block(0).unwrap();

    assert_eq!(read_block.start_timestamp, 1000);
    assert_eq!(read_block.timestamp_deltas, vec![0, 1, 2]);
    assert_eq!(read_block.values, bits(&[42.0, 43.0, 44.0]));
    assert_eq!(read_block.series_names, vec!["test_series"; 3]);
    assert_eq!(read_block.tags, vec![tags; 3]);
}

#[test]
fn test_sstable_versioning() {
    let sstable = SSTable::new("test.sst".to_string());
    let image = sstable.data.clone();
    drop(sstable);

    // Opening the image that was written
    let sstable = SSTable::open("test.sst".to_string(), image).unwrap();
    drop(sstable);

    // A file with nothing in it
    assert!(matches!(SSTable::open("nonexistent.sst".to_string(), Vec::new()), Err(SSTableError::Io(_))));

    // Invalid magic
    let mut bytes = 0u32.to_le_bytes().to_vec();
    bytes.extend_from_slice(&SSTABLE_VERSION.to_le_bytes());
    assert!(matches!(SSTable::open("invalid.sst".to_string(), bytes), Err(SSTableError::InvalidMagic)));

    // Unsupported version
    let mut bytes = SSTABLE_MAGIC.to_le_bytes().to_vec();
    bytes.extend_from_slice(&99u32.to_le_bytes());
    assert!(matches!(
        SSTable::open("unsupported.sst".to_string(), bytes),
        Err(SSTableError::UnsupportedVersion(99))
    ));
}

#[test]
fn header_is_magic_then_version() {
    let t = SSTable::new("x.sst".to_string());
    assert_eq!(t.data, vec![0x42, 0x54, 0x53, 0x53, 1, 0, 0, 0]);
    assert_eq!(t.metadata.min_timestamp, i64::MAX);
    assert_eq!(t.metadata.max_timestamp, i64::MIN);
}

#[test]
fn block_layout_is_bit_exact() {
    let block = DataBlock {
        start_timestamp: 100,
        timestamp_deltas: vec![0, 50],
        values: vec![1, 2],
        series_names: vec!["s".to_string(), "s".to_string()],
        tags: vec![vec![], vec![]],
    };
    let mut out = Vec::new();
    encode_block(&block, &mut out).unwrap();
    let mut expected = Vec::new();
    expected.extend_from_slice(&100i64.to_le_bytes());
    expected.extend_from_slice(&2u32.to_le_bytes());
    expected.extend_from_slice(&0i64.to_le_bytes());
    expected.extend_from_slice(&50i64.to_le_bytes());
    expected.extend_from_slice(&1u64.to_le_bytes());
    expected.extend_from_slice(&2u64.to_le_bytes());
    for _ in 0..2 {
        expected.extend_from_slice(&1u32.to_le_bytes());
        expected.push(b's');
    }
    for _ in 0..2 {
        expected.extend_from_slice(&2u32.to_le_bytes());
        expected.extend_from_slice(b"{}");
    }
    assert_eq!(out, expected);
}

#[test]
fn metadata_tracks_blocks() {
    let mut t = SSTable::new("m.sst".to_string());
    let b1 = DataBlock {
        start_timestamp: 100,
        timestamp_deltas: vec![0, 50, 25],
        values: vec![0, 0, 0],
        series_names: vec!["a".to_string(), "b".to_string(), "a".to_string()],
        tags: vec![vec![], vec![], vec![]],
    };
    t.write_block(b1).unwrap();
    assert_eq!(t.metadata.point_count, 3);
    assert_eq!(t.metadata.min_timestamp, 100);
    assert_eq!(t.metadata.max_timestamp, 175);
    assert_eq!(t.metadata.series_names, vec!["a".to_string(), "b".to_string()]);
    assert_eq!(t.metadata.blocks.len(), 1);
    assert_eq!(t.metadata.blocks[0].offset, 8);
    assert_eq!(t.metadata.blocks[0].point_count, 3);
    assert!(matches!(t.read_block(1), Err(SSTableError::InvalidBlockIndex)));
}

#[test]
fn unequal_columns_are_refused() {
    let mut t = SSTable::new("bad.sst".to_string());
    let b = DataBlock {
        start_timestamp: 0,
        timestamp_deltas: vec![0, 1],
        values: vec![0],
        series_names: vec!["a".to_string(), "a".to_string()],
        tags: vec![vec![], vec![]],
    };
    assert!(matches!(t.write_block(b), Err(SSTableError::Io(IoFailure::InvalidInput))));
    assert_eq!(t.data.len(), 8);
    assert!(t.metadata.blocks.is_empty());
}

#[test]
fn corrupted_block_bytes_are_rejected() {
    let block = DataBlock {
        start_timestamp: 5,
        timestamp_deltas: vec![0],
        values: vec![9],
        series_names: vec!["s".to_string()],
        tags: vec![vec![("k".to_string(), "v".to_string())]],
    };
    let mut bytes = Vec::new();
    encode_block(&block, &mut bytes).unwrap();
    // point count differs from the index
    assert!(matches!(decode_block(&bytes, 0, 2), Err(SSTableError::Io(IoFailure::InvalidData))));
    // truncated
    let cut = bytes[..bytes.len() - 3].to_vec();
    assert!(matches!(decode_block(&cut, 0, 1), Err(SSTableError::Io(IoFailure::UnexpectedEof))));
    // a name length prefix that runs past the end
    let mut long = bytes.clone();
    let name_at = 8 + 4 + 8 + 8;
    long[name_at..name_at + 4].copy_from_slice(&1000u32.to_le_bytes());
    assert!(matches!(decode_block(&long, 0, 1), Err(SSTableError::Io(IoFailure::UnexpectedEof))));
    // invalid UTF-8 in the name
    let mut bad = bytes.clone();
    bad[name_at + 4] = 0xff;
    assert!(matches!(decode_block(&bad, 0, 1), Err(SSTableError::Utf8)));
    // tags that are not JSON
    let mut nojson = bytes.clone();
    let tag_at = name_at + 4 + 1 + 4;
    nojson[tag_at] = b'x';
    assert!(matches!(decode_block(&nojson, 0, 1), Err(SSTableError::Json)));
    // the intact bytes decode, and tell where the block ends
    let (b, end) = decode_block(&bytes, 0, 1).unwrap();
    assert_eq!(end, bytes.len());
    assert_eq!(b.tags, vec![vec![("k".to_string(), "v".to_string())]]);
}

#[test]
fn scan_returns_blocks_in_file_order() {
    let mut t = SSTable::new("scan.sst".to_string());
    for start in [10i64, 20, 30] {
        t.write_block(DataBlock {
            start_timestamp: start,
            timestamp_deltas: vec![0],
            values: vec![start as u64],
            series_names: vec!["s".to_string()],
            tags: vec![vec![]],
        })
        .unwrap();
    }
    let starts: Vec<i64> = t.scan_blocks().iter().map(|b| b.start_timestamp).collect();
    assert_eq!(starts, vec![10, 20, 30]);
}

#[test]
fn open_rebuilds_the_block_index() {
    let mut t = SSTable::new("idx.sst".to_string());
    for (start, n) in [(10i64, 2usize), (50, 3)] {
        t.write_block(DataBlock {
            start_timestamp: start,
            timestamp_deltas: vec![1; n],
            values: vec![7; n],
            series_names: vec!["s".to_string(); n],
            tags: vec![vec![]; n],
        })
        .unwrap();
    }
    let reopened = SSTable::open("idx.sst".to_string(), t.data.clone()).unwrap();
    assert_eq!(reopened.metadata.blocks.len(), 2);
    assert_eq!(reopened.metadata.blocks[0].offset, t.metadata.blocks[0].offset);
    assert_eq!(reopened.metadata.blocks[1].offset, t.metadata.blocks[1].offset);
    assert_eq!(reopened.metadata.blocks[1].point_count, 3);
    assert_eq!(reopened.metadata.point_count, 5);
    // points at 11, 12 and 51, 52, 53
    assert_eq!(reopened.metadata.min_timestamp, 11);
    assert_eq!(reopened.metadata.max_timestamp, 53);
    assert_eq!(reopened.metadata.series_names, vec!["s".to_string()]);
    assert_eq!(reopened.read_block(1).unwrap().start_timestamp, 50);
}

#[test]
fn open_rejects_a_truncated_block() {
    let mut t = SSTable::new("cut.sst".to_string());
    t.write_block(DataBlock {
        start_timestamp: 1,
        timestamp_deltas: vec![0],
        values: vec![0],
        series_names: vec!["s".to_string()],
        tags: vec![vec![]],
    })
    .unwrap();
    let mut bytes = t.data.clone();
    bytes.truncate(bytes.len() - 1);
    assert!(matches!(
        SSTable::open("cut.sst".to_string(), bytes),
        Err(SSTableError::Io(IoFailure::UnexpectedEof))
    ));
}

#[test]
fn min_and_max_follow_the_points() {
    let mut t = SSTable::new("mm.sst".to_string());
    // one point at 105
    t.write_block(DataBlock {
        start_timestamp: 100,
        timestamp_deltas: vec![5],
        values: vec![0],
        series_names: vec!["s".to_string()],
        tags: vec![vec![]],
    })
    .unwrap();
    assert_eq!(t.metadata.min_timestamp, 105);
    assert_eq!(t.metadata.max_timestamp, 105);
    // points at 200, 150, 170: the largest is not the last
    t.write_block(DataBlock {
        start_timestamp: 200,
        timestamp_deltas: vec![0, -50, 20],
        values: vec![0, 0, 0],
        series_names: vec!["s".to_string(); 3],
        tags: vec![vec![]; 3],
    })
    .unwrap();
    assert_eq!(t.metadata.min_timestamp, 105);
    assert_eq!(t.metadata.max_timestamp, 200);
}

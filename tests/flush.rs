use vctsdb::data::{DataPoint, TimeSeries};
use vctsdb::flush::{FlushError, FlushManager};
use vctsdb::memtable::MemTable;
use vctsdb::router::{Query, QueryRouter};

#[test]
fn test_flush_process() {
    let mut flush_manager = FlushManager::new("tmp".to_string());
    let mut memtable = MemTable::new(1000);

    let series = TimeSeries::new("test_series".to_string()).unwrap();
    let point = DataPoint::new(1000, 42.0f64.to_bits(), Vec::new());
    memtable.insert(&series, &point).unwrap();

    let _table = flush_manager.start_flush(&mut memtable, "tmp/1.sst".to_string()).unwrap();
    assert!(flush_manager.is_flushing());

    flush_manager.wait_for_flush().unwrap();
    assert!(!flush_manager.is_flushing());

    assert!(memtable.is_empty());
}

#[test]
fn test_concurrent_flush_prevention() {
    let mut flush_manager = FlushManager::new("tmp".to_string());
    let mut memtable = MemTable::new(1000);

    flush_manager.start_flush(&mut memtable, "tmp/1.sst".to_string()).unwrap();

    let result = flush_manager.start_flush(&mut memtable, "tmp/2.sst".to_string());
    assert!(matches!(result, Err(FlushError::FlushInProgress)));
}

#[test]
fn flushed_points_come_back_from_the_segment() {
    let mut memtable = MemTable::new(100);
    let a = TimeSeries::new("a".to_string()).unwrap();
    let b = TimeSeries::new("b".to_string()).unwrap();
    let written: Vec<(i64, f64)> = vec![(100, 1.5), (130, 2.5), (175, 3.5), (400, 4.5)];
    for (t, v) in &written {
        memtable.insert(&a, &DataPoint::new(*t, v.to_bits(), vec![("k".to_string(), "v".to_string())])).unwrap();
    }
    memtable.insert(&b, &DataPoint::new(130, 9.0f64.to_bits(), Vec::new())).unwrap();
    let mut fm = FlushManager::new("d".to_string());
    let table = fm.start_flush(&mut memtable, "d/0.sst".to_string()).unwrap();
    assert_eq!(memtable.capacity(), 100);
    assert_eq!(table.metadata.blocks.len(), 2);
    assert_eq!(table.metadata.point_count, 5);
    assert_eq!(table.metadata.min_timestamp, 100);
    assert_eq!(table.metadata.max_timestamp, 400);
    // one block per series, with deltas from one point to the next
    let blocks = table.scan_blocks();
    assert_eq!(blocks[0].start_timestamp, 100);
    assert_eq!(blocks[0].timestamp_deltas, vec![0, 30, 45, 225]);
    assert_eq!(blocks[0].series_names, vec!["a".to_string(); 4]);
    let router = QueryRouter::new(memtable, vec![table]);
    let got: Vec<(i64, f64)> = router
        .route_query(&Query::with_series(100, 400, "a".to_string()))
        .iter()
        .map(|p| (p.timestamp(), f64::from_bits(p.value())))
        .collect();
    assert_eq!(got, written);
}

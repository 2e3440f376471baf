use vctsdb::block::DataBlock;
use vctsdb::data::{DataPoint, TimeSeries};
use vctsdb::memtable::MemTable;
use vctsdb::router::{Query, QueryRouter, TimeRange};
use vctsdb::sstable::SSTable;

fn setup() -> (QueryRouter, TimeSeries) {
    let mut memtable = MemTable::new(1000);
    let series = TimeSeries::new("test_series".to_string()).unwrap();
    memtable.insert(&series, &DataPoint::new(150, 1.0f64.to_bits(), Vec::new())).unwrap();
    memtable.insert(&series, &DataPoint::new(200, 2.0f64.to_bits(), Vec::new())).unwrap();

    let mut sstable = SSTable::new("test.sst".to_string());
    let block = DataBlock {
        start_timestamp: 100,
        timestamp_deltas: vec![0, 50],
        values: vec![0.5f64.to_bits(), 1.5f64.to_bits()],
        series_names: vec!["test_series".to_string(), "test_series".to_string()],
        tags: vec![Vec::new(), Vec::new()],
    };
    sstable.write_block(block).unwrap();
    (QueryRouter::new(memtable, vec![sstable]), series)
}

fn value(p: &DataPoint) -> f64 {
    f64::from_bits(p.value())
}

#[test]
fn test_time_range_overlap() {
    let range1 = TimeRange::new(0, 100);
    let range2 = TimeRange::new(50, 150);
    let range3 = TimeRange::new(101, 200);
    let range4 = TimeRange::new(-50, 50);

    assert!(range1.overlaps(&range2));
    assert!(range2.overlaps(&range1));
    assert!(!range1.overlaps(&range3));
    assert!(!range3.overlaps(&range1));
    assert!(range1.overlaps(&range4));
    assert!(range4.overlaps(&range1));
}

#[test]
fn test_time_range_contains() {
    let range = TimeRange::new(0, 100);

    assert!(range.contains(0));
    assert!(range.contains(50));
    assert!(range.contains(100));
    assert!(!range.contains(-1));
    assert!(!range.contains(101));
}

#[test]
fn test_multi_level_search() {
    let (router, _) = setup();
    let query = Query::with_series(90, 210, "test_series".to_string());
    let results = router.route_query(&query);

    assert_eq!(results.len(), 3);
    assert_eq!(results[0].timestamp(), 100);
    assert_eq!(value(&results[0]), 0.5);
    assert_eq!(results[1].timestamp(), 150);
    assert_eq!(value(&results[1]), 1.0);
    assert_eq!(results[2].timestamp(), 200);
    assert_eq!(value(&results[2]), 2.0);
}

#[test]
fn test_point_query_accuracy() {
    let (router, _) = setup();

    let query1 = Query::with_series(150, 150, "test_series".to_string());
    let results1 = router.route_query(&query1);
    assert_eq!(results1.len(), 1);
    assert_eq!(results1[0].timestamp(), 150);
    assert_eq!(value(&results1[0]), 1.0);

    let query2 = Query::with_series(100, 100, "test_series".to_string());
    let results2 = router.route_query(&query2);
    assert_eq!(results2.len(), 1);
    assert_eq!(results2[0].timestamp(), 100);
    assert_eq!(value(&results2[0]), 0.5);

    let query3 = Query::with_series(300, 300, "test_series".to_string());
    let results3 = router.route_query(&query3);
    assert!(results3.is_empty());
}

#[test]
fn test_range_query_completeness() {
    let (router, _) = setup();

    let query = Query::with_series(90, 210, "test_series".to_string());
    let results = router.route_query(&query);
    assert_eq!(results.len(), 3);
    assert_eq!(results[0].timestamp(), 100);
    assert_eq!(value(&results[0]), 0.5);
    assert_eq!(results[1].timestamp(), 150);
    assert_eq!(value(&results[1]), 1.0);
    assert_eq!(results[2].timestamp(), 200);
    assert_eq!(value(&results[2]), 2.0);

    let query2 = Query::with_series(120, 170, "test_series".to_string());
    let results2 = router.route_query(&query2);
    assert_eq!(results2.len(), 1);
    assert_eq!(results2[0].timestamp(), 150);
    assert_eq!(value(&results2[0]), 1.0);
}

#[test]
fn test_index_update_consistency() {
    let (mut router, series) = setup();

    let query1 = Query::with_series(90, 210, "test_series".to_string());
    assert_eq!(router.route_query(&query1).len(), 3);

    router.memtable.insert(&series, &DataPoint::new(250, 3.0f64.to_bits(), Vec::new())).unwrap();

    let query2 = Query::with_series(90, 260, "test_series".to_string());
    let results2 = router.route_query(&query2);
    assert_eq!(results2.len(), 4);
    assert_eq!(results2[3].timestamp(), 250);
    assert_eq!(value(&results2[3]), 3.0);

    let mut sstable2 = SSTable::new("test2.sst".to_string());
    let block2 = DataBlock {
        start_timestamp: 300,
        timestamp_deltas: vec![0, 50],
        values: vec![4.0f64.to_bits(), 5.0f64.to_bits()],
        series_names: vec!["test_series".to_string(), "test_series".to_string()],
        tags: vec![Vec::new(), Vec::new()],
    };
    sstable2.write_block(block2).unwrap();
    router.sstables.push(sstable2);

    let query3 = Query::with_series(90, 360, "test_series".to_string());
    let results3 = router.route_query(&query3);
    assert_eq!(results3.len(), 6);
    assert_eq!(results3[4].timestamp(), 300);
    assert_eq!(value(&results3[4]), 4.0);
    assert_eq!(results3[5].timestamp(), 350);
    assert_eq!(value(&results3[5]), 5.0);
}

#[test]
fn memtable_wins_on_equal_timestamps() {
    let mut memtable = MemTable::new(10);
    let s = TimeSeries::new("s".to_string()).unwrap();
    memtable.insert(&s, &DataPoint::new(150, 9.9f64.to_bits(), Vec::new())).unwrap();
    let mut t = SSTable::new("t.sst".to_string());
    t.write_block(DataBlock {
        start_timestamp: 150,
        timestamp_deltas: vec![0],
        values: vec![1.0f64.to_bits()],
        series_names: vec!["s".to_string()],
        tags: vec![Vec::new()],
    })
    .unwrap();
    let router = QueryRouter::new(memtable, vec![t]);
    let r = router.route_query(&Query::with_series(100, 200, "s".to_string()));
    assert_eq!(r.len(), 1);
    assert_eq!(r[0].timestamp(), 150);
    assert_eq!(value(&r[0]), 9.9);
}

#[test]
fn other_series_and_late_blocks_are_skipped() {
    let memtable = MemTable::new(10);
    let mut t = SSTable::new("t.sst".to_string());
    t.write_block(DataBlock {
        start_timestamp: 10,
        timestamp_deltas: vec![0, 5, 5],
        values: vec![1, 2, 3],
        series_names: vec!["a".to_string(), "b".to_string(), "a".to_string()],
        tags: vec![Vec::new(), Vec::new(), Vec::new()],
    })
    .unwrap();
    t.write_block(DataBlock {
        start_timestamp: 500,
        timestamp_deltas: vec![0],
        values: vec![4],
        series_names: vec!["a".to_string()],
        tags: vec![Vec::new()],
    })
    .unwrap();
    let router = QueryRouter::new(memtable, vec![t]);
    let r = router.route_query(&Query::with_series(0, 100, "a".to_string()));
    let got: Vec<(i64, u64)> = r.iter().map(|p| (p.timestamp(), p.value())).collect();
    assert_eq!(got, vec![(10, 1), (20, 3)]);
    // without a series, every series answers
    let all = router.route_query(&Query::new(0, 1000));
    let got: Vec<i64> = all.iter().map(|p| p.timestamp()).collect();
    assert_eq!(got, vec![10, 15, 20, 500]);
}

#[test]
fn results_are_strictly_increasing_and_in_range() {
    let mut memtable = MemTable::new(100);
    let s = TimeSeries::new("s".to_string()).unwrap();
    for t in [5i64, 12, 30, 41] {
        memtable.insert(&s, &DataPoint::new(t, 1, Vec::new())).unwrap();
    }
    let mut table = SSTable::new("t.sst".to_string());
    table
        .write_block(DataBlock {
            start_timestamp: 0,
            timestamp_deltas: vec![0, 12, 13, 5, 30],
            values: vec![2, 2, 2, 2, 2],
            series_names: vec!["s".to_string(); 5],
            tags: vec![Vec::new(); 5],
        })
        .unwrap();
    let router = QueryRouter::new(memtable, vec![table]);
    let r = router.route_query(&Query::with_series(5, 40, "s".to_string()));
    let got: Vec<(i64, u64)> = r.iter().map(|p| (p.timestamp(), p.value())).collect();
    // 12 is in both tiers and comes from memory; 0 and 60 are out of range
    assert_eq!(got, vec![(5, 1), (12, 1), (25, 2), (30, 1)]);
    for w in r.windows(2) {
        assert!(w[0].timestamp() < w[1].timestamp());
    }
    for p in &r {
        assert!(5 <= p.timestamp() && p.timestamp() <= 40);
    }
}

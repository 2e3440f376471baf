use vctsdb::data::{DataPoint, TimeSeries};
use vctsdb::memtable::{MemTable, MemTableError};

fn host_tags() -> Vec<(String, String)> {
    vec![("host".to_string(), "server1".to_string())]
}

#[test]
fn test_memtable_insert_and_retrieve() {
    let mut memtable = MemTable::new(1000);
    let series = TimeSeries::new("test_series".to_string()).unwrap();
    let tags = host_tags();

    let points = vec![
        DataPoint::new(1000, 42.0f64.to_bits(), tags.clone()),
        DataPoint::new(1001, 43.0f64.to_bits(), tags.clone()),
        DataPoint::new(1002, 44.0f64.to_bits(), tags.clone()),
    ];

    for point in &points {
        memtable.insert(&series, point).unwrap();
    }

    let retrieved = memtable.get_range(1000, 1002);
    assert_eq!(retrieved.len(), 3);

    for (i, (name, point)) in retrieved.iter().enumerate() {
        assert_eq!(name, "test_series");
        assert_eq!(point.timestamp(), points[i].timestamp());
        assert_eq!(point.value(), points[i].value());
    }
}

#[test]
fn test_memtable_capacity() {
    let mut memtable = MemTable::new(2);
    let series = TimeSeries::new("test_series".to_string()).unwrap();
    let tags = host_tags();

    let points = vec![
        DataPoint::new(1000, 42.0f64.to_bits(), tags.clone()),
        DataPoint::new(1001, 43.0f64.to_bits(), tags.clone()),
        DataPoint::new(1002, 44.0f64.to_bits(), tags.clone()),
    ];

    for (i, point) in points.iter().enumerate() {
        let needs_flush = memtable.insert(&series, point).unwrap();
        assert_eq!(needs_flush, i >= 1);
    }

    assert_eq!(memtable.size(), 3);
}

#[test]
fn test_memtable_clear() {
    let mut memtable = MemTable::new(1000);
    let series = TimeSeries::new("test_series".to_string()).unwrap();
    let tags = host_tags();

    let points = vec![
        DataPoint::new(1000, 42.0f64.to_bits(), tags.clone()),
        DataPoint::new(1001, 43.0f64.to_bits(), tags.clone()),
    ];

    for point in &points {
        memtable.insert(&series, point).unwrap();
    }

    let cleared = memtable.clear();
    assert_eq!(cleared.len(), 2);
    assert!(memtable.is_empty());
}

#[test]
fn out_of_order_insert_is_refused() {
    let mut memtable = MemTable::new(10);
    let series = TimeSeries::new("s".to_string()).unwrap();
    memtable.insert(&series, &DataPoint::new(2000, 0, vec![])).unwrap();
    assert!(matches!(
        memtable.insert(&series, &DataPoint::new(1500, 0, vec![])),
        Err(MemTableError::InvalidTimestampOrder)
    ));
    assert!(matches!(
        memtable.insert(&series, &DataPoint::new(2000, 0, vec![])),
        Err(MemTableError::InvalidTimestampOrder)
    ));
    assert_eq!(memtable.size(), 1);
}

#[test]
fn range_across_series_is_ordered_by_time() {
    let mut memtable = MemTable::new(10);
    let a = TimeSeries::new("a".to_string()).unwrap();
    let b = TimeSeries::new("b".to_string()).unwrap();
    memtable.insert(&a, &DataPoint::new(30, 3, vec![])).unwrap();
    memtable.insert(&b, &DataPoint::new(10, 1, vec![])).unwrap();
    memtable.insert(&a, &DataPoint::new(40, 4, vec![])).unwrap();
    memtable.insert(&b, &DataPoint::new(20, 2, vec![])).unwrap();
    let r = memtable.get_range(15, 40);
    let got: Vec<(String, i64)> = r.iter().map(|(n, p)| (n.clone(), p.timestamp())).collect();
    assert_eq!(
        got,
        vec![("b".to_string(), 20), ("a".to_string(), 30), ("a".to_string(), 40)]
    );
}

#[test]
fn series_range_is_inclusive_and_filtered() {
    let mut memtable = MemTable::new(10);
    let a = TimeSeries::new("a".to_string()).unwrap();
    for t in [100i64, 150, 200, 250] {
        memtable.insert(&a, &DataPoint::new(t, t as u64, vec![])).unwrap();
    }
    let got: Vec<i64> = memtable.get_series_range("a", 150, 200).iter().map(|p| p.timestamp()).collect();
    assert_eq!(got, vec![150, 200]);
    assert!(memtable.get_series_range("missing", 0, 1000).is_empty());
}

#[test]
fn clear_keeps_capacity_and_resets_size() {
    let mut memtable = MemTable::new(7);
    let a = TimeSeries::new("a".to_string()).unwrap();
    memtable.insert(&a, &DataPoint::new(1, 0, vec![])).unwrap();
    let _ = memtable.clear();
    assert_eq!(memtable.capacity(), 7);
    assert_eq!(memtable.size(), 0);
    assert!(memtable.get_range(i64::MIN, i64::MAX).is_empty());
    // after clearing, the series starts afresh
    memtable.insert(&a, &DataPoint::new(0, 0, vec![])).unwrap();
}

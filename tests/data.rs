use vctsdb::data::{DataError, DataPoint, TimeSeries};

fn host_tags() -> Vec<(String, String)> {
    vec![("host".to_string(), "server1".to_string())]
}

#[test]
fn test_data_point_validation() {
    let tags = host_tags();

    // Valid data point
    let point = DataPoint::new(1000, 42.0f64.to_bits(), tags.clone());
    assert!(point.validate().is_ok());

    // Invalid timestamp
    let point = DataPoint::new(-1, 42.0f64.to_bits(), tags.clone());
    assert!(matches!(point.validate(), Err(DataError::InvalidTimestamp(_))));

    // Invalid tag key (non-ASCII)
    let invalid_tags = vec![("høst".to_string(), "server1".to_string())];
    let point = DataPoint::new(1000, 42.0f64.to_bits(), invalid_tags);
    assert!(matches!(point.validate(), Err(DataError::InvalidTagKey(_))));
}

#[test]
fn test_time_series_creation() {
    assert!(TimeSeries::new("valid_series".to_string()).is_ok());
    assert!(matches!(TimeSeries::new("".to_string()), Err(DataError::InvalidSeriesName(_))));
    assert!(matches!(TimeSeries::new("série".to_string()), Err(DataError::InvalidSeriesName(_))));
}

#[test]
fn test_time_series_points() {
    let mut series = TimeSeries::new("test_series".to_string()).unwrap();
    let tags = host_tags();

    let point1 = DataPoint::new(1000, 42.0f64.to_bits(), tags.clone());
    let point2 = DataPoint::new(2000, 43.0f64.to_bits(), tags.clone());

    series.add_point(point1).unwrap();
    series.add_point(point2).unwrap();

    let points = series.points();
    assert_eq!(points.len(), 2);
    assert_eq!(points[0].timestamp(), 1000);
    assert_eq!(points[1].timestamp(), 2000);

    assert_eq!(series.last_timestamp(), 2000);

    let invalid_point = DataPoint::new(1500, 44.0f64.to_bits(), tags);
    assert!(matches!(series.add_point(invalid_point), Err(DataError::NonIncreasingTimestamp)));
}

#[test]
fn non_ascii_tag_value_is_reported() {
    let point = DataPoint::new(5, 1.0f64.to_bits(), vec![("host".to_string(), "sérver".to_string())]);
    match point.validate() {
        Err(DataError::InvalidTagValue(v)) => assert_eq!(v, "sérver"),
        other => panic!("unexpected {:?}", other),
    }
}

#[test]
fn equal_timestamp_is_not_increasing() {
    let mut series = TimeSeries::new("s".to_string()).unwrap();
    series.add_point(DataPoint::new(10, 0, vec![])).unwrap();
    assert!(matches!(
        series.add_point(DataPoint::new(10, 0, vec![])),
        Err(DataError::NonIncreasingTimestamp)
    ));
    assert_eq!(series.points().len(), 1);
}

#[test]
fn duplicate_keeps_every_field() {
    let p = DataPoint::new(7, 3.5f64.to_bits(), host_tags());
    let q = p.duplicate();
    assert_eq!(q.timestamp(), 7);
    assert_eq!(f64::from_bits(q.value()), 3.5);
    assert_eq!(q.tags(), &host_tags());
}

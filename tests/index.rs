use vctsdb::ast::{FilterExpr, TagFilter, TagFilterOp, TimeRange};
use vctsdb::data::DataPoint;
use vctsdb::index::IndexInfo;

fn create_test_index() -> IndexInfo {
    IndexInfo {
        name: "test_index".to_string(),
        time_range: TimeRange::Absolute { start: 0, end: 1000000000000 },
        tag_keys: vec!["region".to_string(), "env".to_string()],
        estimated_rows: 1000,
    }
}

fn eq_filter(key: &str, value: &str) -> FilterExpr {
    FilterExpr::TagFilter(TagFilter { key: key.to_string(), op: TagFilterOp::Eq, value: value.to_string() })
}

#[test]
fn test_time_range_coverage() {
    let index = create_test_index();
    let query_range = TimeRange::Absolute { start: 100000000000, end: 200000000000 };
    assert!(index.covers_time_range(&query_range));
    let query_range = TimeRange::Last { duration: 360000000000 };
    assert!(index.covers_time_range(&query_range));
    let query_range = TimeRange::Absolute { start: 2000000000000, end: 3000000000000 };
    assert!(!index.covers_time_range(&query_range));
}

#[test]
fn test_filter_satisfaction() {
    let index = create_test_index();
    let filter = eq_filter("region", "us-west");
    assert!(index.can_satisfy_filter(&filter));
    let filter = eq_filter("datacenter", "dc1");
    assert!(!index.can_satisfy_filter(&filter));
    let filter = FilterExpr::And(Box::new(eq_filter("region", "us-west")), Box::new(eq_filter("env", "prod")));
    assert!(index.can_satisfy_filter(&filter));
}

#[test]
fn test_row_estimation() {
    let index = create_test_index();
    let range = TimeRange::Absolute { start: 100000000000, end: 200000000000 };
    let estimate = index.estimate_rows_in_range(&range);
    assert!(estimate > 0 && estimate < index.estimated_rows);
    let range = TimeRange::Last { duration: 360000000000 };
    let estimate = index.estimate_rows_in_range(&range);
    assert!(estimate > 0 && estimate < index.estimated_rows);
}

#[test]
fn row_estimates_are_exact_shares() {
    let index = create_test_index();
    assert_eq!(index.estimate_rows_in_range(&TimeRange::Absolute { start: 100000000000, end: 200000000000 }), 100);
    assert_eq!(index.estimate_rows_in_range(&TimeRange::Last { duration: 360000000000 }), 360);
    assert_eq!(index.estimate_rows_in_range(&TimeRange::Relative { offset: 5, duration: 250000000000 }), 250);
    let zero = IndexInfo::new("z".to_string(), TimeRange::Absolute { start: 5, end: 5 }, vec![], 10);
    assert_eq!(zero.estimate_rows_in_range(&TimeRange::Absolute { start: 0, end: 1 }), usize::MAX);
    let rel = IndexInfo::new("r".to_string(), TimeRange::Last { duration: 5 }, vec![], 10);
    assert_eq!(rel.estimate_rows_in_range(&TimeRange::Absolute { start: 0, end: 1 }), 10);
}

#[test]
fn or_and_not_filters_need_every_key() {
    let index = create_test_index();
    let or = FilterExpr::Or(Box::new(eq_filter("region", "x")), Box::new(eq_filter("dc", "y")));
    assert!(!index.can_satisfy_filter(&or));
    let not = FilterExpr::Not(Box::new(eq_filter("env", "prod")));
    assert!(index.can_satisfy_filter(&not));
}

#[test]
fn span_checks_and_update() {
    let mut index = create_test_index();
    assert!(index.contains_timestamp(0));
    assert!(!index.contains_timestamp(-1));
    assert!(index.overlaps(1000000000000, 2000000000000));
    assert!(!index.overlaps(1000000000001, 2000000000000));
    index.update(&DataPoint::new(1000000000500, 0, vec![]));
    assert_eq!(index.estimated_rows, 1001);
    assert!(index.contains_timestamp(1000000000500));
}

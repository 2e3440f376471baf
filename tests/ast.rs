use vctsdb::ast::{FilterExpr, FunctionArg, FunctionCall, Query, SelectExpr, TagFilter, TagFilterOp, TimeRange};

#[test]
fn test_basic_query() {
    let query = Query {
        select: vec![SelectExpr {
            function: FunctionCall {
                name: "avg".to_string(),
                args: vec![FunctionArg::Identifier("value".to_string())],
            },
            alias: Some("avg_value".to_string()),
        }],
        from: "metrics".to_string(),
        time_range: Some(TimeRange::Last { duration: 3600_000_000_000 }),
        filter: Some(FilterExpr::TagFilter(TagFilter {
            key: "region".to_string(),
            op: TagFilterOp::Eq,
            value: "us-west".to_string(),
        })),
        group_by: vec!["datacenter".to_string()],
        order_by: vec![("avg_value".to_string(), true)],
        limit: Some(10),
        offset: None,
    };

    assert_eq!(query.from, "metrics");
    assert_eq!(query.group_by.len(), 1);
    assert_eq!(query.limit, Some(10));
}

#[test]
fn test_complex_filter() {
    let filter = FilterExpr::And(
        Box::new(FilterExpr::TagFilter(TagFilter {
            key: "region".to_string(),
            op: TagFilterOp::Eq,
            value: "us-west".to_string(),
        })),
        Box::new(FilterExpr::Or(
            Box::new(FilterExpr::TagFilter(TagFilter {
                key: "env".to_string(),
                op: TagFilterOp::Eq,
                value: "prod".to_string(),
            })),
            Box::new(FilterExpr::TagFilter(TagFilter {
                key: "env".to_string(),
                op: TagFilterOp::Eq,
                value: "staging".to_string(),
            })),
        )),
    );

    if let FilterExpr::And(left, _right) = &filter {
        if let FilterExpr::TagFilter(tag_filter) = left.as_ref() {
            assert_eq!(tag_filter.key, "region");
            assert_eq!(tag_filter.value, "us-west");
        } else {
            panic!("Expected TagFilter");
        }
    } else {
        panic!("Expected And");
    }
}

#[test]
fn new_query_is_empty() {
    let q = Query::new();
    assert!(q.select.is_empty() && q.from.is_empty() && q.time_range.is_none());
    assert!(q.filter.is_none() && q.group_by.is_empty() && q.order_by.is_empty());
    assert!(q.limit.is_none() && q.offset.is_none());
}

use vctsdb::ast::{FilterExpr, FunctionArg, FunctionCall, Query, SelectExpr, TagFilter, TagFilterOp};
use vctsdb::validator::{FunctionRegistry, QueryValidator, Schema, ValidationError};

fn create_test_schema() -> Schema {
    let mut schema = Schema::new();
    schema.add_tag_key("region".to_string());
    schema.add_tag_key("env".to_string());
    schema.add_value_field("value".to_string());
    schema.add_value_field("count".to_string());
    schema
}

fn select(name: &str, args: Vec<FunctionArg>, alias: Option<&str>) -> SelectExpr {
    SelectExpr { function: FunctionCall { name: name.to_string(), args }, alias: alias.map(|a| a.to_string()) }
}

fn query(select: Vec<SelectExpr>, filter: Option<FilterExpr>, group_by: Vec<String>, order_by: Vec<(String, bool)>, limit: Option<usize>) -> Query {
    Query {
        select,
        from: "metrics".to_string(),
        time_range: None,
        filter,
        group_by,
        order_by,
        limit,
        offset: None,
    }
}

fn tag(key: &str, value: &str) -> FilterExpr {
    FilterExpr::TagFilter(TagFilter { key: key.to_string(), op: TagFilterOp::Eq, value: value.to_string() })
}

#[test]
fn test_valid_query() {
    let validator = QueryValidator::new().with_schema(create_test_schema());
    let q = query(
        vec![select("avg", vec![FunctionArg::Identifier("value".to_string())], Some("avg_value"))],
        Some(tag("region", "us-west")),
        vec!["value".to_string()],
        vec![("avg_value".to_string(), true)],
        Some(10),
    );
    assert!(validator.validate(&q).is_ok());
}

#[test]
fn test_unknown_function() {
    let validator = QueryValidator::new().with_schema(create_test_schema());
    let q = query(
        vec![select("unknown_func", vec![FunctionArg::Identifier("value".to_string())], None)],
        None,
        vec![],
        vec![],
        None,
    );
    assert!(matches!(validator.validate(&q), Err(ValidationError::UnknownFunction(_))));
}

#[test]
fn test_invalid_tag_key() {
    let validator = QueryValidator::new().with_schema(create_test_schema());
    let q = query(
        vec![select("avg", vec![FunctionArg::Identifier("value".to_string())], None)],
        Some(tag("unknown_tag", "us-west")),
        vec![],
        vec![],
        None,
    );
    assert!(matches!(validator.validate(&q), Err(ValidationError::UnknownTagKey(_))));
}

#[test]
fn test_invalid_argument_count() {
    let validator = QueryValidator::new().with_schema(create_test_schema());
    let q = query(
        vec![select(
            "avg",
            vec![FunctionArg::Identifier("value".to_string()), FunctionArg::Identifier("count".to_string())],
            None,
        )],
        None,
        vec![],
        vec![],
        None,
    );
    assert!(matches!(validator.validate(&q), Err(ValidationError::InvalidArgumentCount(_, _, _))));
}

#[test]
fn percentile_needs_a_number_second() {
    let registry = FunctionRegistry::new();
    let ok = FunctionCall {
        name: "percentile".to_string(),
        args: vec![FunctionArg::Identifier("value".to_string()), FunctionArg::NumberLiteral(0.9f64.to_bits())],
    };
    assert!(registry.validate_arguments(&ok).is_ok());
    let bad = FunctionCall {
        name: "percentile".to_string(),
        args: vec![FunctionArg::Identifier("value".to_string()), FunctionArg::StringLiteral("x".to_string())],
    };
    assert!(matches!(registry.validate_arguments(&bad), Err(ValidationError::InvalidArgumentType(_, _))));
    let short = FunctionCall { name: "percentile".to_string(), args: vec![] };
    assert!(matches!(registry.validate_arguments(&short), Err(ValidationError::InvalidArgumentCount(_, 2, 0))));
    assert!(registry.validate_function("stddev").is_ok());
}

#[test]
fn group_and_order_fields_are_checked() {
    let validator = QueryValidator::new().with_schema(create_test_schema());
    let q = query(vec![], None, vec!["nope".to_string()], vec![], None);
    assert!(matches!(validator.validate(&q), Err(ValidationError::InvalidGroupByField(_))));
    let q = query(vec![], None, vec![], vec![("nope".to_string(), false)], None);
    assert!(matches!(validator.validate(&q), Err(ValidationError::InvalidOrderByField(_))));
    let nested = query(
        vec![select(
            "max",
            vec![FunctionArg::FunctionCall(Box::new(FunctionCall {
                name: "rate".to_string(),
                args: vec![FunctionArg::Identifier("missing".to_string())],
            }))],
            None,
        )],
        None,
        vec![],
        vec![],
        None,
    );
    assert!(matches!(validator.validate(&nested), Err(ValidationError::InvalidOrderByField(_))));
}

#[test]
fn schema_keys_are_a_set() {
    let mut schema = Schema::new();
    schema.add_tag_key("a".to_string());
    schema.add_tag_key("a".to_string());
    assert_eq!(schema.tag_keys.len(), 1);
    assert!(schema.validate_tag_key("a").is_ok());
    assert!(matches!(schema.validate_value_field("a"), Err(ValidationError::InvalidOrderByField(_))));
}

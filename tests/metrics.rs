use vctsdb::executor::ExecutionConfig;

#[test]
fn test_metrics_initialization() {
    // The library needs no metrics set-up to be usable.
    let _ = ExecutionConfig::default_config();
    assert!(true);
}

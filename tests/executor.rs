use std::cell::Cell;
use vctsdb::ast::{Query, TimeRange};
use vctsdb::block::DataBlock;
use vctsdb::data::{DataPoint, TimeSeries};
use vctsdb::executor::{ExecutionConfig, ExecutionError, QueryExecutor};
use vctsdb::memtable::MemTable;
use vctsdb::sstable::SSTable;

#[test]
fn test_parallel_execution() {
    let mut memtable = MemTable::new(1000);
    let series = TimeSeries::new("test_series".to_string()).unwrap();
    let point = DataPoint::new(1000, 42.0f64.to_bits(), Vec::new());
    memtable.insert(&series, &point).unwrap();

    let mut sstable = SSTable::new("test.sst".to_string());
    let block = DataBlock {
        start_timestamp: 500,
        timestamp_deltas: vec![0, 100],
        values: vec![41.0f64.to_bits(), 42.0f64.to_bits()],
        series_names: vec!["test_series".to_string(), "test_series".to_string()],
        tags: vec![Vec::new(), Vec::new()],
    };
    sstable.write_block(block).unwrap();

    let config = ExecutionConfig { max_concurrent_tasks: 2, memory_limit: 1024 * 1024, timeout_ms: 5000 };
    let mut executor = QueryExecutor::new(memtable, vec![sstable], config);

    let mut query = Query::new();
    query.from = "test_series".to_string();
    query.time_range = Some(TimeRange::Absolute { start: 400, end: 1100 });
    let results = executor.execute_query(&query, &|| false).unwrap();

    assert_eq!(results.len(), 3);
    assert_eq!(results[0].timestamp(), 500);
    assert_eq!(results[1].timestamp(), 600);
    assert_eq!(results[2].timestamp(), 1000);
}

#[test]
fn test_cancellation() {
    let memtable = MemTable::new(1000);
    let mut sstable = SSTable::new("test.sst".to_string());
    let mut timestamp_deltas = Vec::with_capacity(20_000);
    let mut values = Vec::with_capacity(20_000);
    let mut series_names = Vec::with_capacity(20_000);
    let mut tags = Vec::with_capacity(20_000);
    for i in 0..20_000 {
        let delta = if i == 0 { 0 } else { 1 };
        timestamp_deltas.push(delta);
        values.push((i as f64).to_bits());
        series_names.push("test_series".to_string());
        tags.push(Vec::new());
    }
    let block = DataBlock { start_timestamp: 0, timestamp_deltas, values, series_names, tags };
    sstable.write_block(block).unwrap();

    let config = ExecutionConfig { max_concurrent_tasks: 2, memory_limit: 1024 * 1024, timeout_ms: 5000 };
    let mut executor = QueryExecutor::new(memtable, vec![sstable], config);

    let mut query = Query::new();
    query.from = "test_series".to_string();
    query.time_range = Some(TimeRange::Absolute { start: 0, end: 20_000 });

    // the cancel signal has arrived by the time the scan reaches the block
    let cancelled = Cell::new(false);
    cancelled.set(true);
    let result = executor.execute_query(&query, &|| cancelled.get());
    assert!(matches!(result, Err(ExecutionError::Cancelled)));
}

fn one_block_executor(limit: usize) -> QueryExecutor {
    let mut sstable = SSTable::new("m.sst".to_string());
    for start in [0i64, 100] {
        sstable
            .write_block(DataBlock {
                start_timestamp: start,
                timestamp_deltas: vec![0, 1, 1],
                values: vec![1, 2, 3],
                series_names: vec!["s".to_string(); 3],
                tags: vec![Vec::new(); 3],
            })
            .unwrap();
    }
    let config = ExecutionConfig { max_concurrent_tasks: 1, memory_limit: limit, timeout_ms: 1000 };
    QueryExecutor::new(MemTable::new(10), vec![sstable], config)
}

#[test]
fn memory_budget_is_enforced_between_blocks() {
    let mut query = Query::new();
    query.from = "s".to_string();
    query.time_range = Some(TimeRange::Absolute { start: 0, end: 1000 });
    let mut small = one_block_executor(1);
    assert!(matches!(small.execute_query(&query, &|| false), Err(ExecutionError::MemoryLimitExceeded)));
    let mut large = one_block_executor(1 << 20);
    let r = large.execute_query(&query, &|| false).unwrap();
    let got: Vec<i64> = r.iter().map(|p| p.timestamp()).collect();
    assert_eq!(got, vec![0, 1, 2, 100, 101, 102]);
    assert_eq!(large.memory_usage(), 6 * std::mem::size_of::<DataPoint>());
}

#[test]
fn absent_or_relative_range_fails() {
    let mut ex = one_block_executor(1 << 20);
    let mut query = Query::new();
    query.from = "s".to_string();
    assert!(matches!(ex.execute_query(&query, &|| false), Err(ExecutionError::ExecutionFailed(_))));
    query.time_range = Some(TimeRange::Last { duration: 10 });
    assert!(matches!(ex.execute_query(&query, &|| false), Err(ExecutionError::ExecutionFailed(_))));
}

#[test]
fn default_config_values() {
    let c = ExecutionConfig::default();
    assert_eq!(c.max_concurrent_tasks, 4);
    assert_eq!(c.memory_limit, 1024 * 1024 * 1024);
    assert_eq!(c.timeout_ms, 30_000);
}

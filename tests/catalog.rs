use vctsdb::block::DataBlock;
use vctsdb::catalog::SSTableCatalog;
use vctsdb::sstable::SSTable;

fn create_test_sstable(path: &str, series_names: Vec<String>, start_time: i64, point_count: u32) -> SSTable {
    let mut sstable = SSTable::new(path.to_string());
    let mut timestamp_deltas = Vec::new();
    let mut values = Vec::new();
    let mut block_series_names = Vec::new();
    let mut tags = Vec::new();
    for i in 0..point_count {
        timestamp_deltas.push(i as i64);
        values.push((i as f64).to_bits());
        block_series_names.push(series_names[0].clone());
        tags.push(Vec::new());
    }
    let block = DataBlock {
        start_timestamp: start_time,
        timestamp_deltas,
        values,
        series_names: block_series_names,
        tags,
    };
    sstable.write_block(block).unwrap();
    sstable
}

#[test]
fn test_catalog_add_and_remove() {
    let mut catalog = SSTableCatalog::new("tmp".to_string());
    let sstable = create_test_sstable("tmp/test.sst", vec!["test_series".to_string()], 1000, 10);

    catalog.add_table(&sstable).unwrap();

    let tables = catalog.get_all_tables();
    assert_eq!(tables.len(), 1);
    assert_eq!(tables[0].point_count, 10);

    let table_id = catalog.generate_table_id(&tables[0]);
    catalog.remove_table(&table_id).unwrap();

    let tables = catalog.get_all_tables();
    assert_eq!(tables.len(), 0);
}

#[test]
fn test_catalog_time_range_query() {
    let mut catalog = SSTableCatalog::new("tmp".to_string());
    let sstable1 = create_test_sstable("tmp/table1.sst", vec!["series1".to_string()], 1000, 10);
    let sstable2 = create_test_sstable("tmp/table2.sst", vec!["series2".to_string()], 2000, 10);

    catalog.add_table(&sstable1).unwrap();
    catalog.add_table(&sstable2).unwrap();

    let tables = catalog.get_tables_in_range(1000, 2000);
    assert_eq!(tables.len(), 2);

    let tables = catalog.get_tables_in_range(3000, 4000);
    assert_eq!(tables.len(), 0);
}

#[test]
fn test_catalog_series_query() {
    let mut catalog = SSTableCatalog::new("tmp".to_string());
    let sstable1 = create_test_sstable("tmp/table1.sst", vec!["test_series".to_string()], 1000, 10);
    let sstable2 = create_test_sstable("tmp/table2.sst", vec!["other_series".to_string()], 2000, 10);

    catalog.add_table(&sstable1).unwrap();
    catalog.add_table(&sstable2).unwrap();

    let tables = catalog.get_tables_for_series("test_series");
    assert_eq!(tables.len(), 1);

    let tables = catalog.get_tables_for_series("nonexistent");
    assert_eq!(tables.len(), 0);
}

#[test]
fn test_catalog_metrics() {
    let mut catalog = SSTableCatalog::new("tmp".to_string());
    let sstable1 = create_test_sstable("tmp/table1.sst", vec!["series1".to_string()], 1000, 10);
    let sstable2 = create_test_sstable("tmp/table2.sst", vec!["series2".to_string()], 2000, 15);

    catalog.add_table(&sstable1).unwrap();
    catalog.add_table(&sstable2).unwrap();

    assert_eq!(catalog.total_points(), 25);
    assert_eq!(catalog.unique_series_count(), 2);
}

#[test]
fn table_id_is_min_timestamp_and_path() {
    let catalog = SSTableCatalog::new("tmp".to_string());
    let t = create_test_sstable("tmp/a.sst", vec!["s".to_string()], 1000, 2);
    let mut c2 = SSTableCatalog::new("tmp".to_string());
    c2.add_table(&t).unwrap();
    let info = &c2.get_all_tables()[0];
    assert_eq!(catalog.generate_table_id(info), "1000_tmp/a.sst");
}

#[test]
fn adding_the_same_table_twice_keeps_one_entry() {
    let mut catalog = SSTableCatalog::new("tmp".to_string());
    let t = create_test_sstable("tmp/a.sst", vec!["s".to_string()], 1000, 2);
    catalog.add_table(&t).unwrap();
    catalog.add_table(&t).unwrap();
    assert_eq!(catalog.get_all_tables().len(), 1);
    // removing an unknown id changes nothing
    catalog.remove_table("nope").unwrap();
    assert_eq!(catalog.get_all_tables().len(), 1);
}

#[test]
fn range_overlap_is_inclusive() {
    let mut catalog = SSTableCatalog::new("tmp".to_string());
    // deltas 0 and 1: points at 1000 and 1001
    let t = create_test_sstable("tmp/a.sst", vec!["s".to_string()], 1000, 2);
    catalog.add_table(&t).unwrap();
    let info = &catalog.get_all_tables()[0];
    assert_eq!(info.min_timestamp, 1000);
    assert_eq!(info.max_timestamp, 1001);
    assert_eq!(catalog.get_tables_in_range(1001, 1001).len(), 1);
    assert_eq!(catalog.get_tables_in_range(0, 1000).len(), 1);
    assert_eq!(catalog.get_tables_in_range(1002, 2000).len(), 0);
    assert_eq!(catalog.get_tables_in_range(0, 999).len(), 0);
}

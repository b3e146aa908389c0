use schemajs::query_shard::{QueryError, QueryShard};
use schemajs::table::Table;
use schemajs::table_shard::DatabaseConfig;

fn config() -> DatabaseConfig {
    DatabaseConfig { max_rows_per_shard: 10, max_temporary_shards: 2, max_records_per_hash_index_shard: 20 }
}

#[test]
fn row_without_identifier_is_refused() {
    let mut q = QueryShard::new("db".to_string(), "1".to_string(), config());
    assert_eq!(q.insert(Table::new("t"), None, Some(vec![1])), Err(QueryError::UnknownUid));
    assert!(q.table_shards.is_empty());
}

#[test]
fn row_without_serialized_form_is_refused() {
    let mut q = QueryShard::new("db".to_string(), "1".to_string(), config());
    assert_eq!(
        q.insert(Table::new("t"), Some("id-1".to_string()), None),
        Err(QueryError::InvalidSerialization)
    );
}

#[test]
fn rows_go_to_their_table() {
    let mut q = QueryShard::new("db".to_string(), "1".to_string(), config());
    assert_eq!(q.uuid.len(), 16);
    assert_eq!(q.insert(Table::new("t"), Some("id-1".to_string()), Some(vec![1, 2])), Ok("id-1".to_string()));
    assert_eq!(q.insert(Table::new("t"), Some("id-2".to_string()), Some(vec![3])), Ok("id-2".to_string()));
    assert_eq!(q.insert(Table::new("u"), Some("id-3".to_string()), Some(vec![4])), Ok("id-3".to_string()));
    assert_eq!(q.table_shards.len(), 2);
    let t = &mut q.table_shards[0];
    assert_eq!(t.table.name, "t");
    let moved = t.reconcile();
    assert_eq!(moved.len(), 2);
}

#[test]
fn table_without_temp_shards_refuses_rows() {
    let cfg = DatabaseConfig { max_temporary_shards: 0, ..config() };
    let mut q = QueryShard::new("db".to_string(), "1".to_string(), cfg);
    assert_eq!(
        q.insert(Table::new("t"), Some("id".to_string()), Some(vec![1])),
        Err(QueryError::InvalidInsertion)
    );
    assert!(q.table_shards.is_empty());
}

use schemajs::index_shard::get_entry_size;
use schemajs::table::{Index, IndexType, Table};
use schemajs::table_shard::{DatabaseConfig, TableShard, INDEX_KEY_SIZE, INDEX_VALUE_SIZE};

fn config() -> DatabaseConfig {
    DatabaseConfig { max_rows_per_shard: 10, max_temporary_shards: 2, max_records_per_hash_index_shard: 20 }
}

fn user_table() -> Table {
    Table::new("people").add_index(Index {
        name: "user".to_string(),
        members: vec!["user".to_string()],
        index_type: IndexType::Hash,
    })
}

#[test]
fn indexable_row_flows_through_reconcile() {
    let mut shard = TableShard::new(user_table(), "db", &config(), vec![], vec![]).unwrap();
    let row = br#"{"user":"alice"}"#.to_vec();
    shard.insert_row(row.clone()).unwrap();
    let moved = shard.reconcile();
    assert_eq!(moved.len(), 1);
    let decoded: Vec<(Vec<(String, String)>, u64)> =
        moved.iter().map(|r| (vec![("user".to_string(), "alice".to_string())], r.index)).collect();
    shard.insert_indexes(&decoded);
    let user_index = &shard.indexes[1];
    assert_eq!(user_index.data.total_used_slots(), 1);
    assert_eq!(shard.indexes[0].data.total_used_slots(), 0);
    let query = vec![("user".to_string(), "alice".to_string())];
    let pos = shard.find_by_index("user", &query).unwrap();
    assert_eq!(pos, moved[0].index);
    assert_eq!(shard.get_row(pos as usize).unwrap(), row);
    let other = vec![("user".to_string(), "bob".to_string())];
    assert_eq!(shard.find_by_index("user", &other), None);
    assert_eq!(shard.find_by_index("nope", &query), None);
}

#[test]
fn rows_without_member_values_are_not_indexed() {
    let mut shard = TableShard::new(user_table(), "db", &config(), vec![], vec![]).unwrap();
    let decoded = vec![(vec![("age".to_string(), "3".to_string())], 0u64)];
    shard.insert_indexes(&decoded);
    assert_eq!(shard.indexes[1].data.total_used_slots(), 0);
}

#[test]
fn composite_key_layout() {
    let mut shard = TableShard::new(user_table(), "db", &config(), vec![], vec![]).unwrap();
    shard.insert_indexes(&vec![(vec![("user".to_string(), "al".to_string())], 5u64)]);
    let (key, value, raw) = shard.indexes[1].get_kv(0, true).unwrap();
    let mut expected = b"user=al;".to_vec();
    expected.resize(INDEX_KEY_SIZE, 0);
    assert_eq!(key, expected);
    assert_eq!(value, 5u64.to_le_bytes().to_vec());
    assert_eq!(raw.len(), get_entry_size(INDEX_KEY_SIZE, INDEX_VALUE_SIZE));
}

#[test]
fn table_shard_config_applies() {
    let shard = TableShard::new(user_table(), "db", &config(), vec![], vec![]).unwrap();
    assert_eq!(shard.temps.temps.len(), 2);
    assert_eq!(shard.temps.target_shard.max_offsets, 10);
    assert_eq!(shard.indexes.len(), 2);
    assert_eq!(shard.scheme, "db");
}

#[test]
fn malformed_index_image_is_refused() {
    let result = TableShard::new(user_table(), "db", &config(), vec![], vec![vec![], vec![vec![7u8; 40]]]);
    assert_eq!(result.err(), Some(schemajs::errors::ShardErrors::InvalidHeader));
}

#[test]
fn reopened_table_keeps_its_rows() {
    let mut shard = TableShard::new(user_table(), "db", &config(), vec![], vec![]).unwrap();
    shard.insert_row(b"r0".to_vec()).unwrap();
    shard.insert_row(b"r1".to_vec()).unwrap();
    shard.reconcile();
    let data = &shard.temps.target_shard;
    let mut images: Vec<Vec<u8>> = data.past_master_shards.iter().map(|s| s.file().clone()).collect();
    images.push(data.current_master_shard.file().clone());
    let reopened = TableShard::new(user_table(), "db", &config(), images, vec![]).unwrap();
    assert_eq!(reopened.get_row(0).unwrap(), shard.get_row(0).unwrap());
    assert_eq!(reopened.get_row(1).unwrap(), shard.get_row(1).unwrap());
    assert!(reopened.temps.temps.iter().all(|t| t.data.len() == 0));
}

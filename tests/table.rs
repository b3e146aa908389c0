use schemajs::table::{Column, DataTypes, Index, IndexType, Table};

#[test]
fn new_table_holds_the_identifier_column() {
    let table = Table::new("users");
    assert_eq!(table.name, "users");
    assert_eq!(table.primary_key, "_uid");
    assert_eq!(table.list_columns(), vec![&"_uid".to_string()]);
    let uid = table.get_column("_uid").unwrap();
    assert_eq!(uid.data_type, DataTypes::Uuid);
    assert!(uid.required && uid.primary_key);
    assert_eq!(table.indexes.len(), 1);
    assert_eq!(table.indexes[0].name, "uidindx");
    assert_eq!(table.indexes[0].members, vec!["_uid".to_string()]);
    assert!(!table.metadata.internal);
}

#[test]
fn add_column_replaces_same_name() {
    let table = Table::new("t")
        .add_column(Column::new("name", DataTypes::String))
        .add_column(Column::new("name", DataTypes::Boolean));
    assert_eq!(table.columns.len(), 2);
    assert_eq!(table.get_column("name").unwrap().data_type, DataTypes::Boolean);
    assert!(table.get_column("missing").is_none());
}

#[test]
fn primary_key_column_becomes_primary_key() {
    let table = Table::new("t").add_column(Column::new("email", DataTypes::String).set_primary_key(true));
    assert_eq!(table.primary_key, "email");
}

#[test]
fn init_adds_default_indexes() {
    let mut table = Table::new("t")
        .add_column(Column::new("user", DataTypes::String).set_default_index(true))
        .add_column(Column::new("age", DataTypes::Number));
    table.indexes.clear();
    table.init();
    let names: Vec<&str> = table.indexes.iter().map(|i| i.name.as_str()).collect();
    assert_eq!(names, vec!["user_indx", "uidindx"]);
    assert_eq!(table.indexes[0].members, vec!["user".to_string()]);
}

#[test]
fn add_index_and_set_internal() {
    let table = Table::new("t")
        .add_index(Index { name: "x".to_string(), members: vec!["a".to_string()], index_type: IndexType::Hash })
        .set_internal(true);
    assert_eq!(table.indexes.len(), 2);
    assert_eq!(table.indexes[1].name, "x");
    assert!(table.metadata.internal);
}

#[test]
fn identifier_column_and_index() {
    let col = Table::get_internal_uid();
    assert_eq!(col.name, "_uid");
    assert_eq!(col.default_index, None);
    let index = Table::get_internal_uid_index();
    assert_eq!(index.name, "uidindx");
    assert_eq!(index.index_type, IndexType::Hash);
}

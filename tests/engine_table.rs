use schemajs::table::{EngineTable, InsertionError, ValidationError};
use schemajs::types::{Column, DataTypes, DataValue, Document, Table};

fn get_common_table() -> Table {
    let mut id = Column::new("id", DataTypes::String);
    id.required = false;
    let mut enabled = Column::new("enabled", DataTypes::Boolean);
    enabled.required = true;
    Table::new("users").add_column(id).add_column(enabled)
}

#[test]
fn test_row_correct_validation() {
    let table = get_common_table();
    let engine_table = EngineTable::new("public", table);
    engine_table
        .validate_row_value(
            &Document::new()
                .with("id", DataValue::String("Hello".to_string()))
                .with("enabled", DataValue::Boolean(true)),
        )
        .unwrap();
}

#[test]
fn test_row_invalid_boolean() {
    let table = get_common_table();
    let engine_table = EngineTable::new("public", table);
    let validate = engine_table.validate_row_value(
        &Document::new()
            .with("id", DataValue::String("1".to_string()))
            .with("enabled", DataValue::String("".to_string())),
    );

    assert!(validate.is_err());
    assert!(validate.err().unwrap().is_expected_boolean());

    let validate =
        engine_table.validate_row_value(&Document::new().with("id", DataValue::String("1".to_string())));
    assert!(validate.err().unwrap().is_missing_column());
}

#[test]
fn validation_names_the_failing_column() {
    let t = EngineTable::new("public", get_common_table());
    match t.validate_row_value(&Document::new().with("enabled", DataValue::Boolean(false)).with("id", DataValue::Boolean(true))) {
        Err(ValidationError::ExpectedString(n)) => assert_eq!(n, "id"),
        other => panic!("unexpected {:?}", other),
    }
    match t.validate_row_value(&Document::new().with("id", DataValue::String("1".to_string()))) {
        Err(ValidationError::MissingColumn(n)) => assert_eq!(n, "enabled"),
        other => panic!("unexpected {:?}", other),
    }
}

#[test]
fn optional_missing_column_and_extra_fields_are_accepted() {
    let t = EngineTable::new("public", get_common_table());
    let doc = Document::new()
        .with("enabled", DataValue::Boolean(true))
        .with("extra", DataValue::Number("42".to_string()));
    assert!(t.validate_row_value(&doc).is_ok());
}

#[test]
fn rejected_insert_stages_nothing() {
    let mut t = EngineTable::new("public", get_common_table());
    let r = t.insert_row(Document::new().with("id", DataValue::String("1".to_string())));
    assert!(matches!(r, Err(InsertionError::ValidationError(ValidationError::MissingColumn(_)))));
    assert_eq!(t.pending_len(), 0);
    assert_eq!(t.len(), 0);
}

#[test]
fn staged_rows_move_in_order_on_reconcile() {
    let mut t = EngineTable::new("public", get_common_table());
    for i in 0..5 {
        let doc = Document::new()
            .with("id", DataValue::String(format!("{}", i)))
            .with("enabled", DataValue::Boolean(i % 2 == 0));
        t.insert_row(doc).unwrap();
    }
    assert_eq!(t.pending_len(), 5);
    assert_eq!(t.len(), 0);
    assert_eq!(t.reconcile(), 0);
    assert_eq!(t.pending_len(), 0);
    assert_eq!(t.len(), 5);
    for i in 0..5u64 {
        let row = t.row_at(i);
        match row.get("id") {
            Some(DataValue::String(s)) => assert_eq!(s, &format!("{}", i)),
            other => panic!("unexpected {:?}", other),
        }
    }
    t.insert_row(Document::new().with("enabled", DataValue::Boolean(true))).unwrap();
    assert_eq!(t.reconcile(), 5);
    assert_eq!(t.len(), 6);
}

#[test]
fn new_table_uses_standard_storage_settings() {
    let mut t = EngineTable::new("public", get_common_table());
    assert_eq!(t.data().prefix(), "data_");
    assert_eq!(t.temp_shards().staging().prefix(), "datatemp-");
    assert_eq!(t.temp_shards().staging().max_records(), 1000);
    for i in 0..1001 {
        let doc = Document::new()
            .with("id", DataValue::String(format!("{}", i)))
            .with("enabled", DataValue::Boolean(true));
        t.insert_row(doc).unwrap();
    }
    assert_eq!(t.temp_shards().staging().shard_count(), 2);
    assert_eq!(t.temp_shards().staging().shard(0).len(), 1000);
    assert_eq!(t.temp_shards().staging().shard(1).len(), 1);
}

#[test]
fn add_column_replaces_a_column_of_the_same_name() {
    let mut enabled = Column::new("enabled", DataTypes::String);
    enabled.required = false;
    let t = get_common_table().add_column(enabled);
    assert_eq!(t.columns.len(), 2);
    let c = t.get_column("enabled").unwrap();
    assert_eq!(c.data_type, DataTypes::String);
    assert!(!c.required);
    assert_eq!(t.columns[1].name, "enabled");
}

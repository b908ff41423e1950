use schemajs::engine::{is_js_or_ts, SchemeJsEngine};
use schemajs::index::{to_key, CompositeKey, HashIndex};
use schemajs::search::{QueryError, QueryOps, QuerySearchManager, QueryVal};
use schemajs::types::{Column, DataTypes, DataValue, Document, Index, IndexType, Table};

fn cond(key: &str, op: &str, value: &str) -> QueryOps {
    QueryOps::Condition(QueryVal {
        key: key.to_string(),
        filter_type: op.to_string(),
        value: DataValue::String(value.to_string()),
    })
}

fn index(name: &str, members: &[&str]) -> Index {
    Index {
        name: name.to_string(),
        members: members.iter().map(|m| m.to_string()).collect(),
        index_type: IndexType::Hash,
    }
}

fn users_table() -> Table {
    Table::new("users")
        .add_column(Column::new("user_id", DataTypes::String))
        .add_column(Column::new("user_email", DataTypes::String))
        .add_column(Column::new("user_country", DataTypes::String))
        .add_column(Column::new("user_age", DataTypes::String))
        .add_column(Column::new("user_name", DataTypes::String))
        .add_index(index("user_id_indx", &["user_id"]))
        .add_index(index("user_email_indx", &["user_email"]))
        .add_index(index("user_country_indx", &["user_country"]))
        .add_index(index("user_age_indx", &["user_age"]))
        .add_index(index("user_name_indx", &["user_name"]))
        .add_index(index("age_country_indx", &["user_age", "user_country"]))
}

fn user(uid: &str, id: &str, email: &str, country: &str, age: &str, name: &str) -> Document {
    Document::new()
        .with("_uid", DataValue::String(uid.to_string()))
        .with("user_id", DataValue::String(id.to_string()))
        .with("user_email", DataValue::String(email.to_string()))
        .with("user_country", DataValue::String(country.to_string()))
        .with("user_age", DataValue::String(age.to_string()))
        .with("user_name", DataValue::String(name.to_string()))
}

fn name_of(d: &Document) -> String {
    match d.get("user_name") {
        Some(DataValue::String(s)) => s.clone(),
        other => panic!("no name: {:?}", other),
    }
}

fn loaded_manager() -> QuerySearchManager {
    let mut m = QuerySearchManager::new();
    m.register_table("public", users_table());
    let users = "users".to_string();
    let rows = vec![
        user("0874d926-52a9-43e7-b682-9d7c5ec62b30", "1", "email@outlook.com", "US", "20", "andreespirela"),
        user("933a79e1-4d60-47b4-8f9d-2ee12ec75e37", "2", "email2@outlook.com", "US", "21", "Veronica"),
        user("968af9b6-c325-4c2a-ac35-b9f82429fcdf", "3", "email3@outlook.com", "US", "21", "superman"),
        user("c455eb4e-82ea-4974-bd74-0ea449c16d2c", "4", "email3@outlook.com", "US", "19", "Luis"),
        user("0977848d-18a9-49ec-a4e6-da51df3ae11d", "5", "email10@outlook.com", "US", "22", "Flash"),
        user("a44fbf77-7a62-46a0-ae81-c6f75048ab34", "6", "email10@outlook.com", "AR", "22", "Door"),
    ];
    for r in rows {
        m.insert(&users, r).unwrap();
    }
    m
}

#[test]
fn test_search_manager() {
    let mut m = loaded_manager();
    let ops = QueryOps::Or(vec![
        QueryOps::And(vec![cond("user_age", "=", "22"), cond("user_country", "=", "AR")]),
        cond("user_name", "=", "Luis"),
    ]);
    m.reconcile(&"users".to_string()).unwrap();
    let results = m.search("users".to_string(), &ops).unwrap();
    assert_eq!(results.len(), 2);
    assert_eq!(name_of(&results[0]), "Door");
    assert_eq!(name_of(&results[1]), "Luis");
}

#[test]
fn unreconciled_rows_are_invisible() {
    let mut m = loaded_manager();
    let q = cond("user_name", "=", "Luis");
    assert_eq!(m.search("users".to_string(), &q).unwrap().len(), 0);
    m.reconcile(&"users".to_string()).unwrap();
    assert_eq!(m.search("users".to_string(), &q).unwrap().len(), 1);
    m.insert(&"users".to_string(), user("u7", "7", "e7", "UY", "30", "Luis")).unwrap();
    let still = m.search("users".to_string(), &q).unwrap();
    assert_eq!(still.len(), 1);
    assert_eq!(still[0].get("user_id").map(|v| v.to_text()), Some("4".to_string()));
}

#[test]
fn last_writer_wins_on_equal_keys() {
    let mut m = loaded_manager();
    m.reconcile(&"users".to_string()).unwrap();
    let r = m.search("users".to_string(), &cond("user_country", "=", "US")).unwrap();
    assert_eq!(r.len(), 1);
    assert_eq!(name_of(&r[0]), "Flash");
}

#[test]
fn and_is_intersection_and_or_is_union() {
    let mut m = loaded_manager();
    m.reconcile(&"users".to_string()).unwrap();
    let names = |q: &QueryOps| -> Vec<String> {
        let mut v: Vec<String> = m.search("users".to_string(), q).unwrap().iter().map(name_of).collect();
        v.sort();
        v
    };
    // user_email=email10 points at Door (last writer), user_age=22 points at Door too.
    let both = QueryOps::And(vec![cond("user_email", "=", "email10@outlook.com"), cond("user_name", "=", "Door")]);
    assert_eq!(names(&both), vec!["Door".to_string()]);
    let none = QueryOps::And(vec![cond("user_name", "=", "Luis"), cond("user_id", "=", "5")]);
    assert!(names(&none).is_empty());
    // Two values for one key: no row has both.
    let same_key = QueryOps::And(vec![cond("user_name", "=", "Luis"), cond("user_name", "=", "Door")]);
    assert!(names(&same_key).is_empty());
    let repeated = QueryOps::And(vec![cond("user_name", "=", "Luis"), cond("user_name", "=", "Luis")]);
    assert_eq!(names(&repeated), vec!["Luis".to_string()]);
    let either = QueryOps::Or(vec![cond("user_name", "=", "Luis"), cond("user_name", "=", "Veronica")]);
    assert_eq!(names(&either), vec!["Luis".to_string(), "Veronica".to_string()]);
    let same = QueryOps::Or(vec![cond("user_name", "=", "Luis"), cond("user_id", "=", "4")]);
    assert_eq!(names(&same), vec!["Luis".to_string()]);
}

#[test]
fn non_equality_and_unindexed_conditions_are_empty() {
    let mut m = loaded_manager();
    m.reconcile(&"users".to_string()).unwrap();
    assert!(m.search("users".to_string(), &cond("user_name", ">", "Luis")).unwrap().is_empty());
    assert!(m.search("users".to_string(), &cond("_uid", "=", "a44fbf77-7a62-46a0-ae81-c6f75048ab34")).unwrap().is_empty());
    assert!(m.search("users".to_string(), &QueryOps::And(vec![])).unwrap().is_empty());
    assert!(m.search("users".to_string(), &QueryOps::Or(vec![])).unwrap().is_empty());
}

#[test]
fn unknown_table_is_reported() {
    let mut m = loaded_manager();
    match m.search("nope".to_string(), &cond("a", "=", "b")) {
        Err(QueryError::InvalidTable(n)) => assert_eq!(n, "nope"),
        _ => panic!("expected InvalidTable"),
    }
    assert!(matches!(m.insert(&"nope".to_string(), Document::new()), Err(QueryError::InvalidTable(_))));
    assert!(matches!(m.reconcile(&"nope".to_string()), Err(QueryError::InvalidTable(_))));
    assert_eq!(m.table_names(), vec!["users".to_string()]);
    assert!(m.get_table(&"users".to_string()).is_some());
}

#[test]
fn composite_key_encoding_and_index_overwrite() {
    let ck = CompositeKey(vec![("a".to_string(), "1".to_string())]);
    assert_eq!(
        to_key(&ck),
        vec![1, 0, 0, 0, 0, 0, 0, 0, b'a', 1, 0, 0, 0, 0, 0, 0, 0, b'1']
    );
    let mut ix = HashIndex::new("a_indx", IndexType::Hash);
    assert_eq!(ix.name(), "a_indx");
    assert_eq!(ix.get(&to_key(&ck)), None);
    ix.put(to_key(&ck), 3);
    ix.put(to_key(&ck), 8);
    assert_eq!(ix.get(&to_key(&ck)), Some(8));
    let other = CompositeKey(vec![("a".to_string(), "2".to_string())]);
    assert_eq!(ix.get(&to_key(&other)), None);
}

#[test]
fn test_db_engine() {
    let mut engine = SchemeJsEngine::new(None);
    engine.add_database("rust-test-random");
    assert!(engine.find_by_name_ref("rust-test-random".to_string()).is_some());
    engine.register_tables("rust-test-random", vec![Table::new("users").add_column(Column::new("id", DataTypes::String))]);
    let db = engine.find_by_name("rust-test-random".to_string()).unwrap();
    let users = "users".to_string();
    db.query_manager
        .insert(&users, Document::new().with("_uid", DataValue::String("97ad4bba-98c5-4a9e-80d8-6bf6302fb883".to_string())).with("id", DataValue::String("1".to_string())))
        .unwrap();
    db.query_manager
        .insert(&users, Document::new().with("_uid", DataValue::String("2ec92148-646d-4521-974f-b4a6d422c195".to_string())).with("id", DataValue::String("2".to_string())))
        .unwrap();
    db.query_manager.reconcile(&users).unwrap();
    let tbl = db.query_manager.get_table(&users).unwrap();
    assert_eq!(tbl.len(), 2);
    assert_eq!(tbl.row_at(0).get("id").map(|v| v.to_text()), Some("1".to_string()));
    assert_eq!(tbl.row_at(1).get("id").map(|v| v.to_text()), Some("2".to_string()));
}

#[test]
fn add_database_is_idempotent() {
    let mut engine = SchemeJsEngine::new(Some("/data".to_string()));
    engine.add_database("public");
    engine.add_database("public");
    assert_eq!(engine.databases.len(), 1);
    assert!(engine.find_by_name("other".to_string()).is_none());
}

#[test]
fn table_definitions_are_js_or_ts_files() {
    assert!(is_js_or_ts("tables/users.ts"));
    assert!(is_js_or_ts("tables/users.js"));
    assert!(!is_js_or_ts("tables/users.json"));
    assert!(!is_js_or_ts("ts"));
    let mut engine = SchemeJsEngine::new(None);
    let (name, specs) = engine.load_database_schema(
        "public",
        vec!["/d/public/tables/users.ts".to_string(), "/d/public/tables/README.md".to_string(), "/d/public/tables/posts.js".to_string()],
    );
    assert_eq!(name, "public");
    assert_eq!(specs, vec!["/d/public/tables/users.ts".to_string(), "/d/public/tables/posts.js".to_string()]);
    assert_eq!(engine.databases.len(), 1);
}

#[test]
fn canonical_text_of_values() {
    assert_eq!(DataValue::Boolean(true).to_text(), "true");
    assert_eq!(DataValue::Boolean(false).to_text(), "false");
    assert_eq!(DataValue::Null.to_text(), "null");
    assert_eq!(DataValue::String("x".to_string()).to_text(), "x");
}

#[test]
fn test_runtime_config_as_folder() {
    let (folder, file) = schemajs::engine::resolve_config_location("./test_cases/default-db", true, "./test_cases");
    assert_eq!(folder, "./test_cases/default-db");
    assert_eq!(file, "./test_cases/default-db/SchemeJS.toml");
    let (_, file) = schemajs::engine::resolve_config_location("/w/db/", true, "/w");
    assert_eq!(file, "/w/db/SchemeJS.toml");
}

#[test]
fn test_runtime_config_as_file() {
    let (folder, file) = schemajs::engine::resolve_config_location(
        "./test_cases/default-db/CustomSchemeJS.toml",
        false,
        "./test_cases/default-db",
    );
    assert_eq!(folder, "./test_cases/default-db");
    assert_eq!(file, "./test_cases/default-db/CustomSchemeJS.toml");
}

#[test]
fn reconcile_all_drains_every_table() {
    let mut db = schemajs::engine::EngineDb::new("public");
    db.add_table(Table::new("a").add_index(index("id_indx", &["id"])));
    db.add_table(Table::new("b"));
    let doc = || Document::new().with("id", DataValue::String("x".to_string()));
    db.query_manager.insert(&"a".to_string(), doc()).unwrap();
    db.query_manager.insert(&"b".to_string(), doc()).unwrap();
    db.reconcile_all();
    assert_eq!(db.query_manager.get_table(&"a".to_string()).unwrap().len(), 1);
    assert_eq!(db.query_manager.get_table(&"b".to_string()).unwrap().pending_len(), 0);
    assert_eq!(db.query_manager.search("a".to_string(), &cond("id", "=", "x")).unwrap().len(), 1);
}

#[test]
fn restored_table_answers_like_the_live_one() {
    let mut m = loaded_manager();
    let users = "users".to_string();
    m.reconcile(&users).unwrap();
    let live = m.get_table(&users).unwrap();
    let image: Vec<Vec<u8>> = (0..live.data().shard_count()).map(|s| live.data().shard(s).to_bytes()).collect();
    let shards: Vec<schemajs::shard::Shard> =
        image.iter().map(|b| schemajs::shard::Shard::from_bytes(b).unwrap()).collect();
    let data = schemajs::shard::MapShard::load("data_", 1000000, &shards);
    let restored = schemajs::table::EngineTable::restore("public", users_table(), data).unwrap();
    assert_eq!(restored.len(), 6);
    let mut fresh = QuerySearchManager::new();
    fresh.add_table_shard(restored);
    let q = QueryOps::Or(vec![
        QueryOps::And(vec![cond("user_age", "=", "22"), cond("user_country", "=", "AR")]),
        cond("user_name", "=", "Luis"),
    ]);
    let names: Vec<String> = fresh.search(users.clone(), &q).unwrap().iter().map(name_of).collect();
    assert_eq!(names, vec!["Door".to_string(), "Luis".to_string()]);
}

#[test]
fn restore_rejects_records_that_are_not_documents() {
    let mut data = schemajs::shard::MapShard::new("data_", 10);
    data.append(&vec![1, 2, 3]);
    assert!(schemajs::table::EngineTable::restore("public", users_table(), data).is_none());
}

#[test]
fn search_order_is_repeatable() {
    let mut m = loaded_manager();
    m.reconcile(&"users".to_string()).unwrap();
    let q = QueryOps::Or(vec![
        cond("user_name", "=", "Veronica"),
        cond("user_name", "=", "andreespirela"),
        cond("user_id", "=", "2"),
    ]);
    let first: Vec<String> = m.search("users".to_string(), &q).unwrap().iter().map(name_of).collect();
    let second: Vec<String> = m.search("users".to_string(), &q).unwrap().iter().map(name_of).collect();
    assert_eq!(first, vec!["Veronica".to_string(), "andreespirela".to_string()]);
    assert_eq!(first, second);
}

#[test]
fn conjunction_of_conflicting_equalities_is_empty() {
    let mut m = QuerySearchManager::new();
    m.register_table("public", Table::new("t").add_column(Column::new("k", DataTypes::String)).add_index(index("k_indx", &["k"])));
    let t = "t".to_string();
    m.insert(&t, Document::new().with("_uid", DataValue::String("U1".to_string())).with("k", DataValue::String("a".to_string()))).unwrap();
    m.reconcile(&t).unwrap();
    assert_eq!(m.search(t.clone(), &cond("k", "=", "a")).unwrap().len(), 1);
    assert_eq!(m.search(t.clone(), &cond("k", "=", "")).unwrap().len(), 0);
    let both = QueryOps::And(vec![cond("k", "=", "a"), cond("k", "=", "")]);
    assert_eq!(m.search(t.clone(), &both).unwrap().len(), 0);
    let same = QueryOps::And(vec![cond("k", "=", "a"), cond("k", "=", "a")]);
    assert_eq!(m.search(t, &same).unwrap().len(), 1);
}

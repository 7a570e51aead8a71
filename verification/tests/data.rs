use prismerge::data::{Column, ColumnType, MapTable, Model, Schema};
use prismerge::run::{
    catalog_query, integrity_warning, prepare_statements, restore_statements, skipped_warning,
    vacuum_statement,
};

fn column(name: &str, primary_key: bool) -> Column {
    Column {
        name: name.to_string(),
        ty: ColumnType { name: "String".to_string(), collection: false, nullable: false },
        relation: None,
        unique: false,
        primary_key,
    }
}

#[test]
fn the_last_flagged_column_is_the_primary_key() {
    let model = Model::new(
        "T".to_string(),
        vec![column("a", true), column("b", false), column("c", true), column("d", false)],
        None,
    );
    assert_eq!(model.primary_key_index, Some(2));
    assert_eq!(model.primary_key().unwrap().name, "c");
    assert_eq!(model.map_table.name, "T_id_map");
    let bare = Model::new("U".to_string(), vec![column("a", false)], None);
    assert_eq!(bare.primary_key_index, None);
    assert!(bare.primary_key().is_none());
}

#[test]
fn a_primary_key_index_out_of_range_names_no_column() {
    let mut model = Model::new("T".to_string(), vec![column("a", true)], None);
    model.primary_key_index = Some(5);
    assert!(model.primary_key().is_none());
}

#[test]
fn columns_are_found_by_name() {
    let model = Model::new("T".to_string(), vec![column("a", true), column("b", false), column("b", true)], None);
    assert_eq!(model.column_index("b"), Some(1));
    assert!(!model.get_col("b").unwrap().primary_key);
    assert!(model.get_col("z").is_none());
    assert!(model.get_col("").is_none());
    assert!(model.get_col("B").is_none());
}

#[test]
fn a_schema_holds_one_table_of_a_name() {
    let mut schema = Schema::new();
    assert!(schema.insert(Model::new("A".to_string(), vec![column("a", true)], None)));
    assert!(schema.insert(Model::new("B".to_string(), vec![column("b", true)], None)));
    assert!(!schema.insert(Model::new("A".to_string(), vec![column("c", true)], None)));
    assert_eq!(schema.models.len(), 2);
    assert_eq!(schema.index_of("A"), Some(0));
    assert_eq!(schema.get("A").unwrap().columns[0].name, "c");
    assert!(schema.contains("B"));
    assert!(!schema.contains("C"));
    assert!(schema.get("C").is_none());
}

#[test]
fn the_identity_map_is_created_indexed_and_dropped() {
    let map = MapTable::new("Owner".to_string());
    assert_eq!(map.name, "Owner_id_map");
    assert_eq!(
        map.create_into(),
        "CREATE TABLE Owner_id_map (old_id TEXT NOT NULL, new_id TEXT NOT NULL)"
    );
    assert_eq!(
        map.create_indices(),
        "CREATE INDEX \"Owner_id_map_old_id\" ON \"Owner_id_map\"(\"old_id\"); \
         CREATE INDEX \"Owner_id_map_new_id\" ON \"Owner_id_map\"(\"new_id\"); \
         CREATE INDEX \"Owner_id_map_new_id_old_id\" ON \"Owner_id_map\"(\"new_id\", \"old_id\");"
    );
    assert_eq!(
        map.drop_from(),
        "DROP INDEX IF EXISTS \"Owner_id_map_old_id\"; DROP INDEX IF EXISTS \"Owner_id_map_new_id\"; \
         DROP INDEX IF EXISTS \"Owner_id_map_new_id_old_id\"; DROP TABLE IF EXISTS \"Owner_id_map\";"
    );
}

#[test]
fn dangling_foreign_keys_are_counted_and_judged() {
    let model = Model::new("Owner".to_string(), vec![column("id", true)], None);
    assert_eq!(model.integrity_query(), "SELECT COUNT(*) FROM pragma_foreign_key_check('Owner');");
    assert_eq!(model.verify_integrity(0), Ok(()));
    assert_eq!(model.verify_integrity(1), Err(1));
    assert_eq!(model.verify_integrity(42), Err(42));
    assert_eq!(integrity_warning("Owner", 42), "Table Owner has 42 foreign key integrity problems");
    assert_eq!(
        skipped_warning("Owner", 3),
        "Table Owner: 3 rows could not be read and were skipped"
    );
}

#[test]
fn the_destination_is_prepared_and_restored() {
    assert_eq!(
        prepare_statements(),
        "PRAGMA synchronous = OFF; PRAGMA journal_mode = OFF; PRAGMA temp_store = MEMORY; \
         PRAGMA cache_size = -16000; PRAGMA foreign_keys = OFF;"
    );
    assert_eq!(
        restore_statements(),
        "PRAGMA synchronous = ON; PRAGMA journal_mode = DELETE; PRAGMA foreign_keys = ON;"
    );
    assert_eq!(catalog_query(), "SELECT sql FROM sqlite_master;");
    assert_eq!(vacuum_statement(), "VACUUM;");
}

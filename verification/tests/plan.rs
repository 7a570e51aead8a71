use prismerge::data::{Column, ColumnType, Model, Relation, Schema, Unique};
use prismerge::plan::{MergePlan, PlanError, SourceRow};

fn column(name: &str, ty: &str, primary_key: bool) -> Column {
    Column {
        name: name.to_string(),
        ty: ColumnType { name: ty.to_string(), collection: false, nullable: false },
        relation: None,
        unique: false,
        primary_key,
    }
}

fn relation(name: &str, to: &str, field: &str) -> Column {
    Column {
        name: name.to_string(),
        ty: ColumnType { name: to.to_string(), collection: false, nullable: false },
        relation: Some(Relation {
            fields: vec![field.to_string()],
            references: vec!["id".to_string()],
        }),
        unique: false,
        primary_key: false,
    }
}

fn unique(names: &[&str]) -> Option<Unique> {
    Some(Unique { column_names: names.iter().map(|name| name.to_string()).collect() })
}

fn todo_schema() -> Schema {
    let mut schema = Schema::new();
    schema.insert(Model::new(
        "Owner".to_string(),
        vec![
            column("id", "String", true),
            column("name", "String", false),
            Column {
                name: "lists".to_string(),
                ty: ColumnType { name: "TodoList".to_string(), collection: true, nullable: false },
                relation: None,
                unique: false,
                primary_key: false,
            },
        ],
        unique(&["name"]),
    ));
    schema.insert(Model::new(
        "TodoList".to_string(),
        vec![
            column("id", "String", true),
            column("name", "String", false),
            column("ownerId", "String", false),
            relation("owner", "Owner", "ownerId"),
        ],
        unique(&["name", "ownerId"]),
    ));
    schema
}

fn plan(schema: &Schema, table: &str) -> MergePlan {
    MergePlan::new(schema.get(table).unwrap(), schema).unwrap()
}

fn row(old_pk: &str, values: &[&str]) -> SourceRow {
    SourceRow {
        old_pk: old_pk.to_string(),
        quoted_pk: format!("'{}'", old_pk),
        values: values.iter().map(|value| value.to_string()).collect(),
    }
}

#[test]
fn counts_and_scans_a_table() {
    let schema = todo_schema();
    let owner = plan(&schema, "Owner");
    assert_eq!(owner.table(), "Owner");
    assert_eq!(owner.width(), 1);
    assert!(owner.has_unique());
    assert_eq!(owner.count_query(), "SELECT COUNT(id) FROM \"Owner\" WHERE 1");
    assert_eq!(
        owner.select_query(),
        "SELECT \"id\" AS unquoted_pk, quote(\"id\") AS \"id\", quote(\"Owner\".\"name\") AS name \
         FROM \"Owner\" WHERE 1;"
    );
    let todo = plan(&schema, "TodoList");
    assert_eq!(todo.width(), 2);
    assert_eq!(
        todo.select_query(),
        "SELECT \"id\" AS unquoted_pk, quote(\"id\") AS \"id\", quote(\"TodoList\".\"name\") AS name, \
         quote(\"TodoList\".\"ownerId\") AS ownerId FROM \"TodoList\" WHERE 1;"
    );
}

#[test]
fn scans_a_table_of_nothing_but_a_key() {
    let mut schema = Schema::new();
    schema.insert(Model::new("Bare".to_string(), vec![column("id", "String", true)], None));
    let bare = plan(&schema, "Bare");
    assert_eq!(bare.width(), 0);
    assert!(!bare.has_unique());
    assert_eq!(
        bare.select_query(),
        "SELECT \"id\" AS unquoted_pk, quote(\"id\") AS \"id\" FROM \"Bare\" WHERE 1;"
    );
    assert_eq!(bare.check_sql_template(), None);
    assert_eq!(bare.check_sql(&row("a", &[])), None);
    assert_eq!(
        bare.insert_sql("a", &row("a", &[])),
        "INSERT INTO \"Bare\" (id) SELECT 'a' FROM (SELECT 1) AS dummy  LIMIT 1"
    );
}

#[test]
fn looks_a_duplicate_up_by_its_values() {
    let schema = todo_schema();
    let owner = plan(&schema, "Owner");
    assert_eq!(
        owner.check_sql_template().unwrap(),
        "SELECT quote(id) FROM \"Owner\"  WHERE name = ?1 LIMIT 1;"
    );
    assert_eq!(
        owner.check_sql(&row("o1", &["'Woody'"])).unwrap(),
        "SELECT quote(id) FROM \"Owner\"  WHERE name = 'Woody' LIMIT 1;"
    );
}

#[test]
fn looks_a_foreign_key_up_through_the_identity_map() {
    let schema = todo_schema();
    let todo = plan(&schema, "TodoList");
    assert_eq!(
        todo.check_sql_template().unwrap(),
        "SELECT quote(id) FROM \"TodoList\" JOIN Owner_id_map ON \"TodoList\".\"ownerId\" = \
         Owner_id_map.new_id WHERE name = ?1 AND Owner_id_map.old_id = ?2 LIMIT 1;"
    );
    assert_eq!(
        todo.check_sql(&row("t1", &["'Chores'", "'o1'"])).unwrap(),
        "SELECT quote(id) FROM \"TodoList\" JOIN Owner_id_map ON \"TodoList\".\"ownerId\" = \
         Owner_id_map.new_id WHERE name = 'Chores' AND Owner_id_map.old_id = 'o1' LIMIT 1;"
    );
}

#[test]
fn a_row_of_the_wrong_width_is_not_looked_up() {
    let schema = todo_schema();
    let todo = plan(&schema, "TodoList");
    assert_eq!(todo.check_sql(&row("t1", &["'Chores'"])), None);
    assert_eq!(todo.check_sql(&row("t1", &["'Chores'", "'o1'", "'x'"])), None);
}

#[test]
fn places_the_values_of_a_template_by_number() {
    let mut schema = Schema::new();
    let names = ["a", "b", "c", "d", "e", "f", "g", "h", "i", "j", "k"];
    let mut columns = vec![column("id", "String", true)];
    for name in names {
        columns.push(column(name, "String", false));
    }
    schema.insert(Model::new("Wide".to_string(), columns, unique(&names)));
    let wide = plan(&schema, "Wide");
    let template = wide.check_sql_template().unwrap();
    assert!(template.ends_with("i = ?9 AND j = ?10 AND k = ?11 LIMIT 1;"));
    let values = ["'?2'", "2", "3", "4", "5", "6", "7", "8", "9", "10", "11"];
    let check = wide.check_sql(&row("w", &values)).unwrap();
    assert_eq!(
        check,
        "SELECT quote(id) FROM \"Wide\"  WHERE a = '?2' AND b = 2 AND c = 3 AND d = 4 AND e = 5 AND \
         f = 6 AND g = 7 AND h = 8 AND i = 9 AND j = 10 AND k = 11 LIMIT 1;"
    );
}

#[test]
fn inserts_a_row_and_translates_its_foreign_keys() {
    let schema = todo_schema();
    let owner = plan(&schema, "Owner");
    assert_eq!(
        owner.insert_sql("k", &row("o1", &["'Woody'"])),
        "INSERT INTO \"Owner\" (id, name) SELECT 'k', 'Woody' FROM (SELECT 1) AS dummy  LIMIT 1"
    );
    let todo = plan(&schema, "TodoList");
    assert_eq!(
        todo.insert_sql("k", &row("t1", &["'Chores'", "'o1'"])),
        "INSERT INTO \"TodoList\" (id, name, ownerId) SELECT 'k', 'Chores', Owner_id_map.new_id \
         FROM (SELECT 1) AS dummy LEFT JOIN Owner_id_map ON Owner_id_map.old_id = 'o1' LIMIT 1"
    );
}

#[test]
fn records_keys_in_the_identity_map() {
    let schema = todo_schema();
    let owner = plan(&schema, "Owner");
    assert_eq!(
        owner.map_new_sql("old", "new"),
        "INSERT INTO \"Owner_id_map\" (old_id, new_id) VALUES ('old', 'new')"
    );
    assert_eq!(
        owner.map_existing_sql("old", "'there'"),
        "INSERT INTO \"Owner_id_map\" (old_id, new_id) VALUES ('old', 'there')"
    );
}

#[test]
fn a_table_without_a_primary_key_has_no_plan() {
    let mut schema = Schema::new();
    schema.insert(Model::new("Loose".to_string(), vec![column("name", "String", false)], None));
    let error = MergePlan::new(&schema.models[0], &schema).unwrap_err();
    assert!(matches!(&error, PlanError::MissingPrimaryKey { table } if table == "Loose"));
    assert_eq!(error.message(), "Table Loose has no primary key");
}

#[test]
fn a_constraint_on_a_column_that_is_not_scanned_has_no_plan() {
    let mut schema = todo_schema();
    schema.insert(Model::new(
        "Odd".to_string(),
        vec![column("id", "String", true), column("name", "String", false), relation("owner", "Owner", "ownerId")],
        unique(&["name", "owner", "missing"]),
    ));
    let error = MergePlan::new(schema.get("Odd").unwrap(), &schema).unwrap_err();
    assert!(matches!(
        &error,
        PlanError::UnusableUniqueColumn { table, column } if table == "Odd" && column == "owner"
    ));
    assert_eq!(
        error.message(),
        "Table Odd has a uniqueness constraint on owner, which a row scan does not read"
    );
}

#[test]
fn a_constraint_without_columns_constrains_nothing() {
    let mut schema = Schema::new();
    schema.insert(Model::new("Free".to_string(), vec![column("id", "String", true)], unique(&[])));
    assert!(!plan(&schema, "Free").has_unique());
}

#[test]
fn a_constraint_on_the_primary_key_reads_the_quoted_key() {
    let mut schema = Schema::new();
    schema.insert(Model::new(
        "Keyed".to_string(),
        vec![column("id", "String", true), column("name", "String", false)],
        unique(&["id"]),
    ));
    assert_eq!(
        plan(&schema, "Keyed").check_sql(&row("k1", &["'n'"])).unwrap(),
        "SELECT quote(id) FROM \"Keyed\"  WHERE id = 'k1' LIMIT 1;"
    );
}

#[test]
fn every_table_is_checked_before_anything_is_written() {
    let mut schema = todo_schema();
    assert!(schema.check_plans().is_ok());
    schema.insert(Model::new("Loose".to_string(), vec![column("name", "String", false)], None));
    schema.insert(Model::new(
        "Odd".to_string(),
        vec![column("id", "String", true)],
        unique(&["missing"]),
    ));
    let error = schema.check_plans().unwrap_err();
    assert_eq!(error.message(), "Table Loose has no primary key");
    assert!(Schema::new().check_plans().is_ok());
}

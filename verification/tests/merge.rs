use prismerge::data::{Column, ColumnType, Model, Relation, Schema, Unique};
use prismerge::merge::{RowOutcome, TableMerge};
use prismerge::plan::{MergePlan, SourceRow};
use rusqlite::Connection;
use std::collections::HashMap;
use uuid::Uuid;

fn text_column(name: &str, primary_key: bool) -> Column {
    Column {
        name: name.to_string(),
        ty: ColumnType { name: "String".to_string(), collection: false, nullable: false },
        relation: None,
        unique: false,
        primary_key,
    }
}

fn schema() -> Schema {
    let mut schema = Schema::new();
    schema.insert(Model::new(
        "Owner".to_string(),
        vec![text_column("id", true), text_column("name", false)],
        Some(Unique { column_names: vec!["name".to_string()] }),
    ));
    schema.insert(Model::new(
        "TodoList".to_string(),
        vec![
            text_column("id", true),
            text_column("name", false),
            text_column("ownerId", false),
            Column {
                name: "owner".to_string(),
                ty: ColumnType { name: "Owner".to_string(), collection: false, nullable: false },
                relation: Some(Relation {
                    fields: vec!["ownerId".to_string()],
                    references: vec!["id".to_string()],
                }),
                unique: false,
                primary_key: false,
            },
        ],
        Some(Unique { column_names: vec!["name".to_string(), "ownerId".to_string()] }),
    ));
    schema
}

/// Merges `connections` into `merged`: the statements come from the
/// library, and this function only carries them to the databases.
fn prismerge(schema: &Schema, connections: &Vec<Connection>, merged: &Connection, min_inserts: u64) {
    let order = schema.order().unwrap();
    schema.check_plans().unwrap();
    merged
        .execute_batch(
            "PRAGMA synchronous = OFF; PRAGMA journal_mode = OFF; PRAGMA temp_store = MEMORY; \
             PRAGMA cache_size = -16000; PRAGMA foreign_keys = OFF;",
        )
        .unwrap();
    {
        let mut schema_query = connections[0].prepare("SELECT sql FROM sqlite_master;").unwrap();
        let mut schema_rows = schema_query.query(()).unwrap();
        while let Ok(Some(row)) = schema_rows.next() {
            if let Ok(stmt) = row.get::<usize, String>(0) {
                merged.execute(stmt.as_str(), ()).unwrap();
            }
        }
    }
    for table in order {
        let model = &schema.models[table];
        merged.execute(model.map_table.create_into().as_str(), ()).unwrap();
        let plan = MergePlan::new(model, schema).unwrap();
        let count_query = plan.count_query();
        let select_query = plan.select_query();
        let counts: Vec<u64> = connections
            .iter()
            .map(|conn| {
                conn.query_row(count_query.as_str(), (), |row| row.get::<_, i64>(0)).unwrap() as u64
            })
            .collect();
        let mut merge = TableMerge::begin(plan, &counts, min_inserts);
        while let Some(source) = merge.current_source() {
            let width = merge.plan().width();
            let mut stmt = connections[source].prepare(select_query.as_str()).unwrap();
            let mut rows = stmt.query(()).unwrap();
            loop {
                match rows.next() {
                    Ok(Some(row)) => {
                        let scanned = SourceRow {
                            old_pk: row.get(0).unwrap(),
                            quoted_pk: row.get(1).unwrap(),
                            values: (0..width).map(|k| row.get(k + 2).unwrap()).collect(),
                        };
                        let existing = match merge.duplicate_check(&scanned) {
                            Some(sql) => {
                                merged.query_row(sql.as_str(), (), |found| found.get::<_, String>(0)).ok()
                            }
                            None => None,
                        };
                        let (_, batches) = merge.merge_row(&scanned, existing).unwrap();
                        for batch in batches {
                            merged.execute_batch(batch.sql.as_str()).unwrap();
                        }
                    }
                    Ok(None) => break,
                    Err(_) => merge.skip_row(),
                }
            }
            let batch = merge.finish_source();
            merged.execute_batch(batch.sql.as_str()).unwrap();
        }
        merged.execute_batch(model.map_table.create_indices().as_str()).unwrap();
    }
    merged
        .execute_batch(
            "PRAGMA synchronous = ON; PRAGMA journal_mode = DELETE; PRAGMA foreign_keys = ON;",
        )
        .unwrap();
}

fn apply_schema(conn: &Connection) {
    Owner::setup(conn);
    TodoList::setup(conn);
}

fn create_connection() -> Connection {
    Connection::open_in_memory().unwrap()
}

fn create_connections() -> (Connection, Connection, Connection) {
    let first = create_connection();
    let second = create_connection();
    let merged = create_connection();

    apply_schema(&first);
    apply_schema(&second);

    (first, second, merged)
}

#[derive(Debug)]
struct Owner {
    id: String,
    name: String,
}

impl Owner {
    fn setup(conn: &Connection) {
        conn.execute_batch(
            r#"
                CREATE TABLE IF NOT EXISTS "Owner" (
                    "id"    TEXT NOT NULL PRIMARY KEY,
                    "name"  TEXT NOT NULL
                );

                CREATE UNIQUE INDEX IF NOT EXISTS "Owner_name_key"
                ON "Owner"("name");
            "#,
        )
        .unwrap();
    }

    fn create(conn: &Connection, name: &str) -> Owner {
        let id = Uuid::new_v4().to_string();

        conn.execute("INSERT INTO Owner(\"id\", \"name\") VALUES(?1, ?2)", [id.as_str(), name])
            .unwrap();

        Owner { id, name: name.to_string() }
    }

    fn all_by_name(conn: &Connection) -> HashMap<String, Owner> {
        let mut result: HashMap<String, Owner> = HashMap::new();
        let mut stmt = conn.prepare("SELECT * FROM \"Owner\" WHERE 1").unwrap();
        let mut rows = stmt.query([]).unwrap();

        loop {
            match rows.next() {
                Ok(Some(row)) => {
                    let id: String = row.get("id").unwrap();
                    let name: String = row.get("name").unwrap();
                    result.insert(name.clone(), Owner { id, name });
                }

                Ok(None) => break,
                Err(_) => break,
            }
        }

        result
    }
}

#[allow(dead_code)]
#[derive(Debug)]
struct TodoList {
    id: String,
    name: String,
    owner_id: String,
}

impl TodoList {
    fn setup(conn: &Connection) {
        conn.execute_batch(
            r#"
                CREATE TABLE IF NOT EXISTS "TodoList" (
                    "id"      TEXT NOT NULL PRIMARY KEY,
                    "name"    TEXT NOT NULL,
                    "ownerId" TEXT NOT NULL,
                    CONSTRAINT "TodoList_ownerId_fkey"
                        FOREIGN KEY ("ownerId")
                        REFERENCES "Owner" ("id")
                        ON DELETE RESTRICT
                        ON UPDATE CASCADE
                );

                CREATE UNIQUE INDEX IF NOT EXISTS "TodoList_name_ownerId_key"
                ON "TodoList"("name", "ownerId");
            "#,
        )
        .unwrap();
    }

    fn create(conn: &Connection, name: &str, owner_id: &str) -> TodoList {
        let id = Uuid::new_v4().to_string();

        conn.execute(
            "INSERT INTO TodoList(\"id\", \"name\", \"ownerId\") VALUES(?1, ?2, ?3)",
            [id.as_str(), name, owner_id],
        )
        .unwrap();

        TodoList { id, name: name.to_string(), owner_id: owner_id.to_string() }
    }

    fn all_by_name(conn: &Connection) -> HashMap<String, TodoList> {
        let mut result: HashMap<String, TodoList> = HashMap::new();
        let mut stmt = conn.prepare("SELECT * FROM \"TodoList\" WHERE 1").unwrap();
        let mut rows = stmt.query([]).unwrap();

        loop {
            match rows.next() {
                Ok(Some(row)) => {
                    let id: String = row.get("id").unwrap();
                    let name: String = row.get("name").unwrap();
                    let owner_id: String = row.get("ownerId").unwrap();
                    result.insert(name.clone(), TodoList { id, name, owner_id });
                }

                Ok(None) => break,
                Err(_) => break,
            }
        }

        result
    }
}

fn dangling(schema: &Schema, merged: &Connection) -> Vec<Result<(), usize>> {
    schema
        .models
        .iter()
        .map(|model| {
            let count: i64 =
                merged.query_row(model.integrity_query().as_str(), (), |row| row.get(0)).unwrap();
            model.verify_integrity(count as usize)
        })
        .collect()
}

#[test]
fn merges_tables_with_no_foreign_keys() {
    let (first, second, merged) = create_connections();

    let woody = Owner::create(&first, "Woody");
    let jessie = Owner::create(&second, "Jessie");
    let bo = Owner::create(&second, "Bo");

    prismerge(&schema(), &vec![first, second], &merged, 1);

    let records = Owner::all_by_name(&merged);
    assert!(records.len() == 3);

    // Jessie and Bo are part of the primary because there are more records in
    // that db (2 vs 1). Because they're in the primary, they retain their old
    // IDs.
    assert!(records["Jessie"].name == "Jessie");
    assert!(records["Jessie"].id == jessie.id);

    assert!(records["Bo"].name == "Bo");
    assert!(records["Bo"].id == bo.id);

    // Woody is in the secondary DB and therefore gets a new ID.
    assert!(records["Woody"].name == "Woody");
    assert!(records["Woody"].id != woody.id);
}

#[test]
fn merges_tables_with_foreign_keys() {
    let (first, second, merged) = create_connections();

    let woody = Owner::create(&first, "Woody");
    let jessie = Owner::create(&second, "Jessie");
    let bo = Owner::create(&second, "Bo");

    TodoList::create(&first, "Groceries", woody.id.as_str());
    TodoList::create(&second, "Chores", jessie.id.as_str());
    TodoList::create(&second, "Errands", bo.id.as_str());

    prismerge(&schema(), &vec![first, second], &merged, 1);

    let owners = Owner::all_by_name(&merged);
    let todo_lists = TodoList::all_by_name(&merged);

    assert!(owners.len() == 3);
    assert!(todo_lists.len() == 3);

    let woodys_groceries = todo_lists.get("Groceries").unwrap();
    assert!(woodys_groceries.name == "Groceries");
    assert!(woodys_groceries.owner_id == owners.get("Woody").unwrap().id);

    let jessies_chores = todo_lists.get("Chores").unwrap();
    assert!(jessies_chores.name == "Chores");
    assert!(jessies_chores.owner_id == owners.get("Jessie").unwrap().id);

    let bos_errands = todo_lists.get("Errands").unwrap();
    assert!(bos_errands.name == "Errands");
    assert!(bos_errands.owner_id == owners.get("Bo").unwrap().id);
}

#[test]
fn merges_duplicate_records() {
    let (first, second, merged) = create_connections();
    let first_woody = Owner::create(&first, "Woody");
    let second_woody = Owner::create(&second, "Woody");

    TodoList::create(&first, "Chores", first_woody.id.as_str());
    TodoList::create(&second, "Errands", second_woody.id.as_str());

    prismerge(&schema(), &vec![first, second], &merged, 1);

    let owners = Owner::all_by_name(&merged);
    let todo_lists = TodoList::all_by_name(&merged);

    assert!(owners.len() == 1);
    assert!(todo_lists.len() == 2);

    let merged_woody = owners.get("Woody").unwrap();
    assert!([&first_woody.id, &second_woody.id].contains(&&merged_woody.id));

    for (_, todo_list) in todo_lists.iter() {
        assert!(todo_list.owner_id == merged_woody.id);
    }
}

#[test]
fn merged_databases_have_no_dangling_foreign_keys() {
    let (first, second, merged) = create_connections();
    let woody = Owner::create(&first, "Woody");
    let jessie = Owner::create(&second, "Jessie");
    TodoList::create(&first, "Groceries", woody.id.as_str());
    TodoList::create(&first, "Chores", woody.id.as_str());
    TodoList::create(&second, "Errands", jessie.id.as_str());

    let schema = schema();
    prismerge(&schema, &vec![first, second], &merged, 1000);

    assert_eq!(dangling(&schema, &merged), vec![Ok(()), Ok(())]);
    assert_eq!(TodoList::all_by_name(&merged).len(), 3);
}

#[test]
fn rows_without_a_constraint_are_all_copied() {
    let mut schema = Schema::new();
    schema.insert(Model::new(
        "Owner".to_string(),
        vec![text_column("id", true), text_column("name", false)],
        None,
    ));
    let first = create_connection();
    let second = create_connection();
    let third = create_connection();
    let merged = create_connection();
    for conn in [&first, &second, &third] {
        conn.execute_batch(
            "CREATE TABLE \"Owner\" (\"id\" TEXT NOT NULL PRIMARY KEY, \"name\" TEXT NOT NULL);",
        )
        .unwrap();
    }
    Owner::create(&first, "Woody");
    Owner::create(&second, "Woody");
    Owner::create(&second, "Jessie");
    let bo = Owner::create(&third, "Bo");
    Owner::create(&third, "Woody");
    Owner::create(&third, "Rex");

    prismerge(&schema, &vec![first, second, third], &merged, 4);

    let count: i64 = merged.query_row("SELECT COUNT(*) FROM \"Owner\"", (), |row| row.get(0)).unwrap();
    assert_eq!(count, 6);
    // The third source holds the most rows: its rows keep their keys.
    let kept: String = merged
        .query_row("SELECT id FROM \"Owner\" WHERE name = 'Bo'", (), |row| row.get(0))
        .unwrap();
    assert_eq!(kept, bo.id);
}

#[test]
fn a_new_key_is_a_hyphenated_identifier() {
    let schema = schema();
    let plan = MergePlan::new(&schema.models[0], &schema).unwrap();
    let mut merge = TableMerge::begin(plan, &vec![1, 1], 1000);
    merge.finish_source();
    let row = SourceRow {
        old_pk: "old".to_string(),
        quoted_pk: "'old'".to_string(),
        values: vec!["'Woody'".to_string()],
    };
    let (outcome, batches) = merge.merge_row(&row, None).unwrap();
    assert!(batches.is_empty());
    match outcome {
        RowOutcome::Inserted { old_pk, new_pk } => {
            assert_eq!(old_pk, "old");
            assert_ne!(new_pk, "old");
            assert_eq!(new_pk.len(), 36);
            assert!(new_pk.chars().all(|c| c == '-' || c.is_ascii_digit() || ('a'..='f').contains(&c)));
            assert_eq!(new_pk.matches('-').count(), 4);
        }
        RowOutcome::Duplicate { .. } => panic!("the row was not found, so it is inserted"),
    }
    let (again, _) = merge.merge_row(&row, None).unwrap();
    match (again, merge.merge_row(&row, None).unwrap().0) {
        (RowOutcome::Inserted { new_pk: one, .. }, RowOutcome::Inserted { new_pk: other, .. }) => {
            assert_ne!(one, other)
        }
        _ => panic!("both rows are inserted"),
    }
}

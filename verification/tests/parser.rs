use prismerge::data::Schema;
use prismerge::prisma_parser::{parse, parse_nodes, SyntaxNode};

const TODO_SCHEMA: &str = r#"
datasource db {
  provider = "sqlite"
  url      = "file:dev.db"
}

model Owner {
  id    String     @id @default(uuid())
  name  String     @unique
  age   Int?
  lists TodoList[]
}

model TodoList {
  id      String @id
  name    String
  ownerId String
  owner   Owner  @relation(fields: [ownerId], references: [id])

  @@unique(fields: [name, ownerId])
}
"#;

fn names(schema: &Schema) -> Vec<&str> {
    schema.models.iter().map(|model| model.name.as_str()).collect()
}

#[test]
fn parses_models_and_columns() {
    let schema = parse(TODO_SCHEMA).unwrap();
    assert_eq!(names(&schema), vec!["Owner", "TodoList"]);

    let owner = schema.get("Owner").unwrap();
    let columns: Vec<&str> = owner.columns.iter().map(|column| column.name.as_str()).collect();
    assert_eq!(columns, vec!["id", "name", "age", "lists"]);
    assert_eq!(owner.primary_key().unwrap().name, "id");
    assert_eq!(owner.primary_key_index, Some(0));
    assert_eq!(owner.map_table.name, "Owner_id_map");

    let name = owner.get_col("name").unwrap();
    assert!(name.unique);
    assert!(!name.primary_key);
    assert_eq!(name.ty.name, "String");
    assert!(!name.ty.collection);
    assert!(!name.ty.nullable);

    let age = owner.get_col("age").unwrap();
    assert_eq!(age.ty.name, "Int");
    assert!(age.ty.nullable);

    let lists = owner.get_col("lists").unwrap();
    assert_eq!(lists.ty.name, "TodoList");
    assert!(lists.ty.collection);
    assert!(!lists.is_regular(&schema));
    assert!(name.is_regular(&schema));
    assert!(!owner.get_col("id").unwrap().is_regular(&schema));
}

#[test]
fn a_column_flagged_unique_makes_the_constraint() {
    let schema = parse(TODO_SCHEMA).unwrap();
    let owner = schema.get("Owner").unwrap();
    assert_eq!(owner.unique.as_ref().unwrap().column_names, vec!["name".to_string()]);
}

#[test]
fn parses_relations_and_block_constraints() {
    let schema = parse(TODO_SCHEMA).unwrap();
    let todo = schema.get("TodoList").unwrap();
    let unique = todo.unique.as_ref().unwrap();
    assert_eq!(unique.column_names, vec!["name".to_string(), "ownerId".to_string()]);

    let owner = todo.get_col("owner").unwrap();
    assert!(owner.has_relation());
    let relation = owner.relation.as_ref().unwrap();
    assert_eq!(relation.fields, vec!["ownerId".to_string()]);
    assert_eq!(relation.references, vec!["id".to_string()]);
    assert!(!owner.is_regular(&schema));

    let owner_id = todo.get_col("ownerId").unwrap();
    assert!(!owner_id.has_relation());
    assert!(owner_id.is_regular(&schema));
    assert_eq!(owner_id.get_related_column(todo).unwrap().name, "owner");
    assert!(todo.get_col("name").unwrap().get_related_column(todo).is_none());
    assert_eq!(owner_id.quoted(&todo.name), "quote(\"TodoList\".\"ownerId\")");
}

#[test]
fn a_parsed_schema_is_ordered_by_its_relations() {
    let schema = parse(TODO_SCHEMA).unwrap();
    let sorted = schema.sorted().unwrap();
    let order: Vec<&str> = sorted.iter().map(|model| model.name.as_str()).collect();
    assert_eq!(order, vec!["Owner", "TodoList"]);
}

#[test]
fn a_later_model_takes_the_place_of_an_earlier_one_of_its_name() {
    let schema = parse("model A {\n  id String @id\n}\nmodel B {\n  id String @id\n}\nmodel A {\n  key String @id\n}\n")
        .unwrap();
    assert_eq!(names(&schema), vec!["A", "B"]);
    assert_eq!(schema.get("A").unwrap().columns[0].name, "key");
}

#[test]
fn text_without_models_gives_an_empty_schema() {
    assert!(parse("").unwrap().models.is_empty());
    assert!(parse("// nothing here\n").unwrap().models.is_empty());
}

fn node(kind: &str, start: usize, end: usize) -> SyntaxNode {
    SyntaxNode { kind: kind.to_string(), start, end }
}

#[test]
fn nodes_that_do_not_start_with_a_program_are_refused() {
    let error = parse_nodes(vec![node("model_declaration", 0, 1)], "x").unwrap_err();
    assert_eq!(error, "Expected program, got model_declaration");
    let error = parse_nodes(vec![], "").unwrap_err();
    assert_eq!(error, "Expected program, got ");
}

#[test]
fn a_model_that_breaks_off_is_refused() {
    let source = "model A {";
    let nodes = vec![
        node("program", 0, 9),
        node("model_declaration", 0, 9),
        node("model", 0, 5),
        node("identifier", 6, 7),
        node("statement_block", 8, 9),
        node("{", 8, 9),
    ];
    assert_eq!(parse_nodes(nodes, source).unwrap_err(), "Expected }, got ");
}

#[test]
fn a_model_is_read_from_its_nodes() {
    let source = "model Ab { id String @id }";
    let nodes = vec![
        node("program", 0, 26),
        node("model_declaration", 0, 26),
        node("model", 0, 5),
        node("identifier", 6, 8),
        node("statement_block", 9, 26),
        node("{", 9, 10),
        node("column_declaration", 11, 24),
        node("identifier", 11, 13),
        node("column_type", 14, 20),
        node("identifier", 14, 20),
        node("attribute", 21, 24),
        node("@", 21, 22),
        node("identifier", 22, 24),
        node("}", 25, 26),
    ];
    let schema = parse_nodes(nodes, source).unwrap();
    assert_eq!(names(&schema), vec!["Ab"]);
    let model = &schema.models[0];
    assert_eq!(model.columns.len(), 1);
    assert_eq!(model.columns[0].name, "id");
    assert_eq!(model.columns[0].ty.name, "String");
    assert!(model.columns[0].primary_key);
    assert!(model.unique.is_none());
}

#[test]
fn an_identifier_that_cuts_a_character_is_refused() {
    let source = "model é";
    let nodes = vec![
        node("program", 0, 8),
        node("model_declaration", 0, 8),
        node("model", 0, 5),
        node("identifier", 7, 8),
    ];
    assert_eq!(parse_nodes(nodes, source).unwrap_err(), "Unreadable identifier");
    let nodes = vec![
        node("program", 0, 8),
        node("model_declaration", 0, 8),
        node("model", 0, 5),
        node("identifier", 6, 40),
    ];
    assert_eq!(parse_nodes(nodes, source).unwrap_err(), "Unreadable identifier");
}

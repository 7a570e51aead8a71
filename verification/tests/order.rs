use prismerge::data::{Column, ColumnType, Model, Relation, Schema};
use prismerge::run::MergeRun;

fn key() -> Column {
    Column {
        name: "id".to_string(),
        ty: ColumnType { name: "String".to_string(), collection: false, nullable: false },
        relation: None,
        unique: false,
        primary_key: true,
    }
}

fn reference(to: &str) -> Vec<Column> {
    let field = format!("{}Id", to);
    vec![
        Column {
            name: field.clone(),
            ty: ColumnType { name: "String".to_string(), collection: false, nullable: false },
            relation: None,
            unique: false,
            primary_key: false,
        },
        Column {
            name: to.to_lowercase(),
            ty: ColumnType { name: to.to_string(), collection: false, nullable: false },
            relation: Some(Relation { fields: vec![field], references: vec!["id".to_string()] }),
            unique: false,
            primary_key: false,
        },
    ]
}

fn table(name: &str, references: &[&str]) -> Model {
    let mut columns = vec![key()];
    for to in references {
        columns.extend(reference(to));
    }
    Model::new(name.to_string(), columns, None)
}

fn schema(tables: &[(&str, &[&str])]) -> Schema {
    let mut schema = Schema::new();
    for (name, references) in tables {
        schema.insert(table(name, references));
    }
    schema
}

fn sorted_names(schema: &Schema) -> Vec<String> {
    schema.sorted().unwrap().iter().map(|model| model.name.clone()).collect()
}

#[test]
fn an_empty_schema_has_an_empty_order() {
    assert_eq!(Schema::new().order().unwrap(), Vec::<usize>::new());
}

#[test]
fn a_referenced_table_comes_first() {
    let schema = schema(&[("Child", &["Parent"]), ("Parent", &[])]);
    assert_eq!(schema.order().unwrap(), vec![1, 0]);
    assert_eq!(sorted_names(&schema), vec!["Parent", "Child"]);
}

#[test]
fn tables_are_released_in_rounds() {
    // A references B, B references C, and D stands alone: A and D are
    // released first, then B, then C, and the merge runs backwards.
    let schema = schema(&[("A", &["B"]), ("B", &["C"]), ("C", &[]), ("D", &[])]);
    assert_eq!(schema.order().unwrap(), vec![2, 1, 3, 0]);
    assert_eq!(sorted_names(&schema), vec!["C", "B", "D", "A"]);
}

#[test]
fn the_order_is_the_same_every_time() {
    let names = ["T0", "T1", "T2", "T3", "T4", "T5", "T6", "T7", "T8", "T9"];
    let mut tables: Vec<(&str, &[&str])> = vec![];
    for name in names {
        tables.push((name, &[]));
    }
    let schema = schema(&tables);
    let first = schema.order().unwrap();
    assert_eq!(first, vec![9, 8, 7, 6, 5, 4, 3, 2, 1, 0]);
    for _ in 0..20 {
        assert_eq!(schema.order().unwrap(), first);
    }
}

#[test]
fn every_reference_is_merged_before_its_table() {
    let schema = schema(&[
        ("Comment", &["Post", "User"]),
        ("Post", &["User", "Blog"]),
        ("User", &[]),
        ("Blog", &["User"]),
        ("Tag", &[]),
    ]);
    let order = schema.order().unwrap();
    let mut sorted = order.clone();
    sorted.sort();
    assert_eq!(sorted, vec![0, 1, 2, 3, 4]);
    let place = |name: &str| {
        let index = schema.index_of(name).unwrap();
        order.iter().position(|table| *table == index).unwrap()
    };
    assert!(place("Post") < place("Comment"));
    assert!(place("User") < place("Comment"));
    assert!(place("User") < place("Post"));
    assert!(place("Blog") < place("Post"));
    assert!(place("User") < place("Blog"));
}

#[test]
fn a_circle_of_references_has_no_order() {
    let schema = schema(&[("A", &["B"]), ("B", &["A", "C"]), ("C", &[]), ("D", &[])]);
    let cycle = schema.order().unwrap_err();
    // C is never released, because B references it, but it is no part of
    // the circle and is not named.
    assert_eq!(cycle.tables, vec![0, 1]);
    assert_eq!(
        schema.cycle_message(&cycle),
        "The tables A, B cannot be ordered: their references run in a circle"
    );
    assert!(schema.sorted().is_err());
    assert!(MergeRun::begin(&schema).is_err());
}

#[test]
fn tables_that_only_hang_on_a_circle_are_not_named() {
    // A and B reference each other. C references A, so it is released
    // before the circle is met. D is referenced by B and references E, and
    // E is referenced by D alone: both are held with the circle, round
    // after round they come loose.
    let schema = schema(&[
        ("A", &["B"]),
        ("B", &["A", "D"]),
        ("C", &["A"]),
        ("D", &["E"]),
        ("E", &[]),
    ]);
    assert_eq!(schema.order().unwrap_err().tables, vec![0, 1]);
}

#[test]
fn a_table_between_two_circles_is_named() {
    // A and B reference each other, and so do D and E. C is referenced by B
    // and references D.
    let schema = schema(&[
        ("A", &["B"]),
        ("B", &["A", "C"]),
        ("C", &["D"]),
        ("D", &["E"]),
        ("E", &["D"]),
        ("F", &[]),
    ]);
    assert_eq!(schema.order().unwrap_err().tables, vec![0, 1, 2, 3, 4]);
}

#[test]
fn a_table_that_references_itself_has_no_order() {
    let schema = schema(&[("Node", &["Node"]), ("Leaf", &[])]);
    assert_eq!(schema.order().unwrap_err().tables, vec![0]);
}

#[test]
fn a_reference_to_an_unknown_table_orders_nothing() {
    let schema = schema(&[("A", &["Elsewhere"]), ("B", &[])]);
    assert_eq!(schema.order().unwrap(), vec![1, 0]);
}

#[test]
fn a_run_goes_through_the_tables_in_their_order() {
    let schema = schema(&[("Child", &["Parent"]), ("Parent", &[])]);
    let mut run = MergeRun::begin(&schema).ok().unwrap();
    assert_eq!(run.current_table(), Some(1));
    run.finish_table();
    assert_eq!(run.current_table(), Some(0));
    run.finish_table();
    assert_eq!(run.current_table(), None);
    run.finish_table();
    assert_eq!(run.current_table(), None);
}

#[test]
fn a_message_names_unknown_tables_by_a_question_mark() {
    let schema = schema(&[("A", &[])]);
    let cycle = prismerge::order::DependencyCycle { tables: vec![0, 7] };
    assert_eq!(
        schema.cycle_message(&cycle),
        "The tables A, ? cannot be ordered: their references run in a circle"
    );
}

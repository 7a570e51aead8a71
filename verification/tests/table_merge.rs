use prismerge::data::{Column, ColumnType, Model, Schema, Unique};
use prismerge::merge::{
    primary_source, source_order, total_rows, MergeState, RowError, RowOutcome, SourceRole,
    TableMerge,
};
use prismerge::plan::{MergePlan, SourceRow};

fn column(name: &str, primary_key: bool) -> Column {
    Column {
        name: name.to_string(),
        ty: ColumnType { name: "String".to_string(), collection: false, nullable: false },
        relation: None,
        unique: false,
        primary_key,
    }
}

fn owner_plan(constrained: bool) -> MergePlan {
    let mut schema = Schema::new();
    let unique = if constrained { Some(Unique { column_names: vec!["name".to_string()] }) } else { None };
    schema.insert(Model::new("Owner".to_string(), vec![column("id", true), column("name", false)], unique));
    MergePlan::new(&schema.models[0], &schema).unwrap()
}

fn row(old_pk: &str, name: &str) -> SourceRow {
    SourceRow {
        old_pk: old_pk.to_string(),
        quoted_pk: format!("'{}'", old_pk),
        values: vec![format!("'{}'", name)],
    }
}

#[test]
fn the_first_source_with_the_most_rows_is_primary() {
    assert_eq!(primary_source(&vec![]), None);
    assert_eq!(primary_source(&vec![0]), Some(0));
    assert_eq!(primary_source(&vec![0, 0, 0]), Some(0));
    assert_eq!(primary_source(&vec![1, 2]), Some(1));
    assert_eq!(primary_source(&vec![1, 5, 3, 5, 2]), Some(1));
    assert_eq!(primary_source(&vec![7, 5, 7]), Some(0));
    assert_eq!(primary_source(&vec![1, 2, u64::MAX]), Some(2));
}

#[test]
fn the_primary_source_is_scanned_first() {
    assert_eq!(source_order(&vec![]), Vec::<usize>::new());
    assert_eq!(source_order(&vec![4]), vec![0]);
    assert_eq!(source_order(&vec![1, 2]), vec![1, 0]);
    assert_eq!(source_order(&vec![1, 5, 3, 9, 2]), vec![3, 0, 1, 2, 4]);
    assert_eq!(source_order(&vec![9, 5, 3]), vec![0, 1, 2]);
    assert_eq!(source_order(&vec![1, 5, 9]), vec![2, 0, 1]);
}

#[test]
fn the_rows_of_all_sources_are_added_up() {
    assert_eq!(total_rows(&vec![]), Some(0));
    assert_eq!(total_rows(&vec![1, 2, 3]), Some(6));
    assert_eq!(total_rows(&vec![u64::MAX, 0]), Some(u64::MAX));
    assert_eq!(total_rows(&vec![u64::MAX, 1]), None);
    assert_eq!(total_rows(&vec![1, u64::MAX, 5]), None);
}

#[test]
fn a_row_of_the_primary_source_keeps_its_key() {
    let mut merge = TableMerge::begin(owner_plan(true), &vec![1, 2], 1000);
    assert_eq!(merge.current_source(), Some(1));
    assert_eq!(merge.role(), Some(SourceRole::Primary));
    let jessie = row("j1", "Jessie");
    assert_eq!(merge.duplicate_check(&jessie), None);
    assert!(!merge.needs_fresh_key(&None));
    // A row that is not looked up is inserted, whatever is said to have
    // been found.
    let (outcome, batches) = merge.merge_row(&jessie, Some("'x'".to_string())).unwrap();
    assert!(batches.is_empty());
    assert!(matches!(
        outcome,
        RowOutcome::Inserted { old_pk, new_pk } if old_pk == "j1" && new_pk == "j1"
    ));
    let batch = merge.finish_source();
    assert_eq!(
        batch.sql,
        "BEGIN TRANSACTION; INSERT INTO \"Owner\" (id, name) SELECT 'j1', 'Jessie' FROM (SELECT 1) \
         AS dummy  LIMIT 1; INSERT INTO \"Owner_id_map\" (old_id, new_id) VALUES ('j1', 'j1'); COMMIT;"
    );
    assert_eq!(batch.count, 1);
}

#[test]
fn a_row_of_a_secondary_source_is_looked_up() {
    let mut merge = TableMerge::begin(owner_plan(true), &vec![1, 2], 1000);
    merge.finish_source();
    assert_eq!(merge.current_source(), Some(0));
    assert_eq!(merge.role(), Some(SourceRole::Secondary));
    let woody = row("w1", "Woody");
    assert_eq!(
        merge.duplicate_check(&woody).unwrap(),
        "SELECT quote(id) FROM \"Owner\"  WHERE name = 'Woody' LIMIT 1;"
    );
    assert!(merge.needs_fresh_key(&None));
    assert!(!merge.needs_fresh_key(&Some("'w0'".to_string())));
}

#[test]
fn a_duplicate_only_leaves_a_trace_in_the_identity_map() {
    let mut merge = TableMerge::begin(owner_plan(true), &vec![1, 2], 1000);
    merge.finish_source();
    let woody = row("w1", "Woody");
    let (outcome, batches) =
        merge.place_row(&woody, Some("'w0'".to_string()), "fresh".to_string()).unwrap();
    assert!(batches.is_empty());
    assert!(matches!(
        outcome,
        RowOutcome::Duplicate { old_pk, existing_id } if old_pk == "w1" && existing_id == "'w0'"
    ));
    let batch = merge.finish_source();
    assert_eq!(
        batch.sql,
        "BEGIN TRANSACTION; INSERT INTO \"Owner_id_map\" (old_id, new_id) VALUES ('w1', 'w0'); COMMIT;"
    );
    // The entry stands for the row, so it counts.
    assert_eq!(batch.count, 1);
}

#[test]
fn a_new_row_of_a_secondary_source_gets_the_fresh_key() {
    let mut merge = TableMerge::begin(owner_plan(true), &vec![1, 2], 1000);
    merge.finish_source();
    let (outcome, _) = merge.place_row(&row("w1", "Woody"), None, "fresh".to_string()).unwrap();
    assert!(matches!(
        outcome,
        RowOutcome::Inserted { old_pk, new_pk } if old_pk == "w1" && new_pk == "fresh"
    ));
    let batch = merge.finish_source();
    assert_eq!(
        batch.sql,
        "BEGIN TRANSACTION; INSERT INTO \"Owner\" (id, name) SELECT 'fresh', 'Woody' FROM \
         (SELECT 1) AS dummy  LIMIT 1; INSERT INTO \"Owner_id_map\" (old_id, new_id) VALUES \
         ('w1', 'fresh'); COMMIT;"
    );
}

#[test]
fn without_a_constraint_nothing_is_looked_up() {
    let mut merge = TableMerge::begin(owner_plan(false), &vec![1, 2], 1000);
    merge.finish_source();
    let woody = row("w1", "Woody");
    assert_eq!(merge.duplicate_check(&woody), None);
    assert!(merge.needs_fresh_key(&Some("'w0'".to_string())));
    let (outcome, _) =
        merge.place_row(&woody, Some("'w0'".to_string()), "fresh".to_string()).unwrap();
    assert!(matches!(outcome, RowOutcome::Inserted { new_pk, .. } if new_pk == "fresh"));
}

#[test]
fn batches_leave_as_the_threshold_is_reached() {
    let mut merge = TableMerge::begin(owner_plan(true), &vec![3], 3);
    let (_, batches) = merge.merge_row(&row("a", "A"), None).unwrap();
    assert!(batches.is_empty());
    let (_, batches) = merge.merge_row(&row("b", "B"), None).unwrap();
    assert_eq!(batches.len(), 1);
    assert_eq!(batches[0].count, 2);
    assert!(batches[0].sql.starts_with("BEGIN TRANSACTION; INSERT INTO \"Owner\" (id, name) SELECT 'a'"));
    assert!(batches[0].sql.ends_with("SELECT 'b', 'B' FROM (SELECT 1) AS dummy  LIMIT 1; COMMIT;"));
    // The entry of the second row waits, and the two statements of the
    // third row fill the buffer again.
    let (_, batches) = merge.merge_row(&row("c", "C"), None).unwrap();
    assert_eq!(batches.len(), 1);
    assert_eq!(batches[0].count, 1);
    assert!(batches[0].sql.starts_with(
        "BEGIN TRANSACTION; INSERT INTO \"Owner_id_map\" (old_id, new_id) VALUES ('b', 'b'); "
    ));
    let rest = merge.finish_source();
    assert_eq!(rest.sql, "BEGIN TRANSACTION; ; COMMIT;");
    assert_eq!(rest.count, 0);
    let mut each = TableMerge::begin(owner_plan(true), &vec![3], 1);
    let (_, batches) = each.merge_row(&row("a", "A"), None).unwrap();
    assert_eq!(batches.len(), 2);
    assert_eq!((batches[0].count, batches[1].count), (1, 0));
}

#[test]
fn rows_that_cannot_be_merged_are_refused() {
    let mut merge = TableMerge::begin(owner_plan(true), &vec![1], 1000);
    let wide = SourceRow {
        old_pk: "a".to_string(),
        quoted_pk: "'a'".to_string(),
        values: vec!["'A'".to_string(), "'B'".to_string()],
    };
    assert_eq!(merge.merge_row(&wide, None).unwrap_err(), RowError::WrongWidth);
    assert_eq!(merge.duplicate_check(&wide), None);
    merge.finish_source();
    assert!(merge.is_done());
    assert_eq!(merge.current_source(), None);
    assert_eq!(merge.role(), None);
    assert_eq!(merge.merge_row(&row("a", "A"), None).unwrap_err(), RowError::Finished);
    assert_eq!(merge.finish_source().count, 0);
    assert!(merge.is_done());
}

#[test]
fn skipped_rows_are_counted() {
    let mut merge = TableMerge::begin(owner_plan(true), &vec![1], 1000);
    assert_eq!(merge.skipped(), 0);
    merge.skip_row();
    merge.skip_row();
    assert_eq!(merge.skipped(), 2);
}

#[test]
fn a_merge_without_sources_is_done_at_once() {
    let merge = TableMerge::begin(owner_plan(true), &vec![], 1000);
    assert!(merge.is_done());
    assert_eq!(merge.current_source(), None);
}

#[test]
fn the_sources_are_scanned_one_after_the_other() {
    let mut merge = TableMerge::begin(owner_plan(true), &vec![1, 5, 3], 1000);
    assert_eq!(merge.state(), MergeState::ScanningPrimary);
    assert_eq!(merge.current_source(), Some(1));
    merge.finish_source();
    assert_eq!(merge.state(), MergeState::ScanningSecondary(0));
    assert_eq!(merge.current_source(), Some(0));
    merge.finish_source();
    assert_eq!(merge.state(), MergeState::ScanningSecondary(1));
    assert_eq!(merge.current_source(), Some(2));
    merge.finish_source();
    assert_eq!(merge.state(), MergeState::Done);
    assert_eq!(merge.current_source(), None);
}

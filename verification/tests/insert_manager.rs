use prismerge::insert_manager::InsertManager;

#[test]
fn statements_wait_until_the_threshold_is_reached() {
    let mut manager = InsertManager::new(3);
    assert!(manager.insert("a".to_string()).is_none());
    assert!(manager.insert_supporting("b".to_string()).is_none());
    assert_eq!(manager.pending(), 2);
    let batch = manager.insert("c".to_string()).unwrap();
    assert_eq!(batch.sql, "BEGIN TRANSACTION; a; b; c; COMMIT;");
    assert_eq!(batch.count, 2);
    assert_eq!(manager.pending(), 0);
    assert!(manager.insert("d".to_string()).is_none());
}

#[test]
fn supporting_writes_are_committed_but_not_counted() {
    let mut manager = InsertManager::new(2);
    assert!(manager.insert_supporting("a".to_string()).is_none());
    let batch = manager.insert_supporting("b".to_string()).unwrap();
    assert_eq!(batch.sql, "BEGIN TRANSACTION; a; b; COMMIT;");
    assert_eq!(batch.count, 0);
}

#[test]
fn a_threshold_of_one_commits_every_statement() {
    let mut manager = InsertManager::new(1);
    let first = manager.insert("a".to_string()).unwrap();
    assert_eq!((first.sql.as_str(), first.count), ("BEGIN TRANSACTION; a; COMMIT;", 1));
    let second = manager.insert_supporting("b".to_string()).unwrap();
    assert_eq!((second.sql.as_str(), second.count), ("BEGIN TRANSACTION; b; COMMIT;", 0));
}

#[test]
fn a_threshold_of_zero_commits_every_statement() {
    let mut manager = InsertManager::new(0);
    assert_eq!(manager.insert("a".to_string()).unwrap().count, 1);
    assert_eq!(manager.pending(), 0);
}

#[test]
fn a_flush_takes_whatever_waits() {
    let mut manager = InsertManager::new(1000);
    assert!(manager.insert("a".to_string()).is_none());
    assert!(manager.insert("b".to_string()).is_none());
    assert!(manager.insert_supporting("c".to_string()).is_none());
    let batch = manager.flush();
    assert_eq!(batch.sql, "BEGIN TRANSACTION; a; b; c; COMMIT;");
    assert_eq!(batch.count, 2);
    let empty = manager.flush();
    assert_eq!(empty.sql, "BEGIN TRANSACTION; ; COMMIT;");
    assert_eq!(empty.count, 0);
}

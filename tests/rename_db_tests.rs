use ftmi::rename_db::{operation_id_at, undo_allowed, LedgerError, UndoTally};
use ftmi::{generate_operation_id, RenameDatabase, RenameRecord};

fn record(id: i64, timestamp: i64, old: &str, new: &str, op: &str) -> RenameRecord {
    RenameRecord {
        id,
        timestamp,
        old_path: old.to_string(),
        new_path: new.to_string(),
        directory: "/d".to_string(),
        prefix_removed: "P".to_string(),
        operation_id: op.to_string(),
    }
}

#[test]
fn test_database_operations() {
    let mut db = RenameDatabase::new("test.db".to_string());

    let old_path = "/tmp/x/[Artist] Song.mp3";
    let new_path = "/tmp/x/Song.mp3";
    let directory = "/tmp/x";

    let operation_id = generate_operation_id();
    let record_id = db.record_rename(old_path, new_path, directory, "Artist", &operation_id).unwrap();

    assert!(record_id > 0);

    let recent = db.get_recent_operations(10);
    assert_eq!(recent.len(), 1);
    assert_eq!(recent[0], operation_id);

    let renames = db.get_operation_renames(&operation_id).unwrap();
    assert_eq!(renames.len(), 1);
    assert_eq!(renames[0].prefix_removed, "Artist");
}

#[test]
fn operation_ids_are_decimal_seconds() {
    assert_eq!(operation_id_at(0), "op_0");
    assert_eq!(operation_id_at(1700000000), "op_1700000000");
    assert_eq!(operation_id_at(u64::MAX), "op_18446744073709551615");
    let id = generate_operation_id();
    assert!(id.starts_with("op_"));
    assert!(id[3..].chars().all(|c| c.is_ascii_digit()));
    assert!(id.len() > 4);
}

#[test]
fn ids_increase_and_records_keep_their_fields() {
    let mut db = RenameDatabase::new("l.db".to_string());
    assert_eq!(db.append_record("a", "b", "/d", "P", "op_1", 10), Ok(1));
    assert_eq!(db.append_record("c", "d", "/d", "P", "op_1", 20), Ok(2));
    assert_eq!(db.records().len(), 2);
    assert_eq!(db.records()[1].old_path, "c");
    assert_eq!(db.records()[1].timestamp, 20);
    assert_eq!(db.db_path(), "l.db");
}

#[test]
fn operation_history_is_oldest_first_and_undo_newest_first() {
    let mut db = RenameDatabase::new("l.db".to_string());
    db.append_record("a2", "b2", "/d", "P", "op", 20).unwrap();
    db.append_record("x", "y", "/d", "P", "other", 5).unwrap();
    db.append_record("a1", "b1", "/d", "P", "op", 10).unwrap();
    db.append_record("a3", "b3", "/d", "P", "op", 20).unwrap();

    let history = db.get_operation_renames("op").unwrap();
    let olds: Vec<&str> = history.iter().map(|r| r.old_path.as_str()).collect();
    assert_eq!(olds, vec!["a1", "a2", "a3"]);

    let plan = db.undo_plan("op").unwrap();
    let olds: Vec<&str> = plan.iter().map(|r| r.old_path.as_str()).collect();
    assert_eq!(olds, vec!["a3", "a2", "a1"]);
}

#[test]
fn unknown_operation_is_an_error() {
    let db = RenameDatabase::new("l.db".to_string());
    assert_eq!(db.get_operation_renames("nope").unwrap_err(), LedgerError::OperationNotFound);
    assert_eq!(db.undo_plan("nope").unwrap_err(), LedgerError::OperationNotFound);
}

#[test]
fn recent_operations_latest_start_first_with_limit() {
    let mut db = RenameDatabase::new("l.db".to_string());
    db.append_record("a", "b", "/d", "P", "op_a", 100).unwrap();
    db.append_record("c", "d", "/d", "P", "op_b", 300).unwrap();
    db.append_record("e", "f", "/d", "P", "op_c", 200).unwrap();
    db.append_record("g", "h", "/d", "P", "op_b", 50).unwrap();
    assert_eq!(db.get_recent_operations(10), vec!["op_c", "op_a", "op_b"]);
    assert_eq!(db.get_recent_operations(2), vec!["op_c", "op_a"]);
    assert!(db.get_recent_operations(0).is_empty());
}

#[test]
fn old_records_are_removed_by_cutoff() {
    let mut db = RenameDatabase::new("l.db".to_string());
    db.append_record("a", "b", "/d", "P", "op", 100).unwrap();
    db.append_record("c", "d", "/d", "P", "op", 300).unwrap();
    db.append_record("e", "f", "/d", "P", "op", 200).unwrap();
    assert_eq!(db.remove_older_than(200), 1);
    let olds: Vec<&str> = db.records().iter().map(|r| r.old_path.as_str()).collect();
    assert_eq!(olds, vec!["c", "e"]);
    assert_eq!(db.append_record("g", "h", "/d", "P", "op", 400), Ok(4));
    let mut fresh = RenameDatabase::new("l.db".to_string());
    fresh.record_rename("a", "b", "/d", "P", "op").unwrap();
    assert_eq!(fresh.cleanup_old_records(1), 0);
    assert_eq!(fresh.records().len(), 1);
}

#[test]
fn loading_records_checks_ids() {
    let db = RenameDatabase::from_records(
        "l.db".to_string(),
        vec![record(3, 1, "a", "b", "op"), record(7, 2, "c", "d", "op")],
    );
    let mut db = db.unwrap();
    assert_eq!(db.append_record("e", "f", "/d", "P", "op", 3), Ok(8));
    assert!(RenameDatabase::from_records("l.db".to_string(), vec![record(0, 1, "a", "b", "op")])
        .is_none());
    let mut full = RenameDatabase::from_records(
        "l.db".to_string(),
        vec![record(i64::MAX - 1, 1, "a", "b", "op")],
    )
    .unwrap();
    assert_eq!(full.append_record("e", "f", "/d", "P", "op", 3), Err(LedgerError::IdsExhausted));
    assert_eq!(full.records().len(), 1);
}

#[test]
fn undo_needs_new_present_and_old_absent() {
    assert!(undo_allowed(true, false));
    assert!(!undo_allowed(true, true));
    assert!(!undo_allowed(false, false));
    assert!(!undo_allowed(false, true));
}

#[test]
fn undo_tally_counts_each_record() {
    let mut t = UndoTally::new();
    t.record(true, false, true);
    t.record(true, false, false);
    t.record(false, false, true);
    t.record(true, true, true);
    assert_eq!((t.succeeded, t.failed), (1, 3));
}

#[test]
fn first_record_on_new_ledger_gets_id_one() {
    let mut db = RenameDatabase::new("l.db".to_string());
    assert_eq!(db.record_rename("a", "b", "/d", "P", "op"), Ok(1));
    assert_eq!(db.record_rename("c", "d", "/d", "P", "op"), Ok(2));
    assert!(db.records()[0].timestamp >= 0);
}

use ardiex::metadata::{
    append_backup_history_entry, backup_history_type_from_name, parse_backup_created_at,
    synchronize_metadata_history_with_disk, validate_backup_metadata_history, BackupHistoryType,
    SnapshotDirInfo, SourceMetadata,
};

fn empty_metadata() -> SourceMetadata {
    SourceMetadata {
        last_full_backup: None,
        last_backup: None,
        file_hashes: Vec::new(),
        backup_history: Vec::new(),
    }
}

fn info(name: &str, files: usize, bytes: u64) -> SnapshotDirInfo {
    SnapshotDirInfo {
        name: String::from(name),
        files,
        bytes,
    }
}

#[test]
fn backup_history_type_comes_from_the_name_prefix() {
    assert!(matches!(
        backup_history_type_from_name("full_20260224_120000123"),
        Some(BackupHistoryType::Full)
    ));
    assert!(matches!(
        backup_history_type_from_name("inc_20260224_120000123"),
        Some(BackupHistoryType::Incremental)
    ));
    assert!(backup_history_type_from_name("other_20260224_120000123").is_none());
}

#[test]
fn parse_backup_created_at_reads_both_timestamp_forms() {
    assert_eq!(
        parse_backup_created_at("full_20260224_120000123"),
        Some(20260224120000123)
    );
    assert_eq!(
        parse_backup_created_at("inc_20260224_120000"),
        Some(20260224120000000)
    );
    assert_eq!(parse_backup_created_at("full_20261324_120000"), None);
    assert_eq!(parse_backup_created_at("full_2026"), None);
    assert_eq!(parse_backup_created_at("nope_20260224_120000"), None);
}

#[test]
fn synchronize_rebuilds_history_sorted_with_markers() {
    let mut metadata = empty_metadata();
    metadata.last_backup = Some(1);
    let dirs = vec![
        info("inc_20260224_120100456", 1, 8),
        info("full_20260224_120000123", 1, 9),
        info("metadata.json", 0, 0),
    ];
    synchronize_metadata_history_with_disk(&mut metadata, &dirs).expect("sync must succeed");
    assert_eq!(metadata.backup_history.len(), 2);
    assert_eq!(metadata.backup_history[0].backup_name, "full_20260224_120000123");
    assert_eq!(metadata.backup_history[1].backup_name, "inc_20260224_120100456");
    assert_eq!(metadata.backup_history[0].files_backed_up, 1);
    assert_eq!(metadata.backup_history[0].bytes_processed, 9);
    assert_eq!(metadata.last_backup, Some(20260224120100456));
    assert_eq!(metadata.last_full_backup, Some(20260224120000123));
}

#[test]
fn synchronize_fails_on_malformed_snapshot_name() {
    let mut metadata = empty_metadata();
    let dirs = vec![info("full_20260224", 1, 9)];
    let err = synchronize_metadata_history_with_disk(&mut metadata, &dirs)
        .expect_err("malformed timestamp must be rejected");
    assert!(err.message().contains("Invalid backup directory timestamp format"));
}

#[test]
fn validation_passes_when_metadata_mirrors_disk() {
    let mut metadata = empty_metadata();
    let dirs = vec![
        info("full_20260224_100000123", 2, 20),
        info("inc_20260224_101000456", 1, 5),
    ];
    synchronize_metadata_history_with_disk(&mut metadata, &dirs).expect("sync must succeed");
    validate_backup_metadata_history(&dirs, true, &metadata).expect("validation must pass");
}

#[test]
fn validation_fails_when_metadata_json_missing() {
    let metadata = empty_metadata();
    let dirs = vec![info("full_20260224_120000123", 1, 1)];
    let err = validate_backup_metadata_history(&dirs, false, &metadata)
        .expect_err("history validation must fail when the metadata file is missing");
    assert!(err.message().contains("metadata.json is missing"));
}

#[test]
fn validation_fails_when_only_incremental_exists() {
    let mut metadata = empty_metadata();
    let dirs = vec![info("inc_20260224_100000123", 1, 1)];
    synchronize_metadata_history_with_disk(&mut metadata, &dirs).expect("sync must succeed");
    let err = validate_backup_metadata_history(&dirs, true, &metadata)
        .expect_err("incremental before full must be rejected");
    assert!(err.message().contains("incremental backup appears before any full backup"));
}

#[test]
fn validation_fails_on_history_mismatch() {
    let mut metadata = empty_metadata();
    let dirs = vec![
        info("full_20260224_100000123", 1, 4),
        info("inc_20260224_101000456", 1, 2),
    ];
    synchronize_metadata_history_with_disk(&mut metadata, &dirs).expect("sync must succeed");
    let tampered = vec![
        info("full_20260224_100000123", 1, 4),
        info("inc_20260224_101000456", 1, 3),
    ];
    let err = validate_backup_metadata_history(&tampered, true, &metadata)
        .expect_err("a bytes mismatch must be rejected");
    assert!(err.message().contains("metadata history mismatch"));
}

#[test]
fn append_replaces_entry_of_the_same_name_and_updates_markers() {
    let mut metadata = empty_metadata();
    append_backup_history_entry(
        &mut metadata,
        "full_20260224_100000123",
        BackupHistoryType::Full,
        20260224100000123,
        2,
        10,
    );
    append_backup_history_entry(
        &mut metadata,
        "inc_20260224_101000456",
        BackupHistoryType::Incremental,
        20260224101000456,
        1,
        3,
    );
    append_backup_history_entry(
        &mut metadata,
        "full_20260224_100000123",
        BackupHistoryType::Full,
        20260224100000123,
        2,
        12,
    );
    assert_eq!(metadata.backup_history.len(), 2);
    assert_eq!(metadata.backup_history[0].bytes_processed, 12);
    assert_eq!(metadata.last_backup, Some(20260224101000456));
    assert_eq!(metadata.last_full_backup, Some(20260224100000123));
}

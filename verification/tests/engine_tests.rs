use ardiex::chain::{
    count_inc_since_last_full, needs_force_full, validate_delta_chain, RepoSnapshot, SnapshotRef,
    StoredFile,
};
use ardiex::config::{auto_full_backup_interval, BackupMode};
use ardiex::engine::{perform_backup, should_exclude, BackupType, SourceFile};
use ardiex::metadata::SourceMetadata;

fn source_file(rel: &str, content: &[u8]) -> SourceFile {
    SourceFile {
        path: format!("/src/{}", rel),
        rel_path: String::from(rel),
        content: content.to_vec(),
    }
}

fn empty_metadata() -> SourceMetadata {
    SourceMetadata {
        last_full_backup: None,
        last_backup: None,
        file_hashes: Vec::new(),
        backup_history: Vec::new(),
    }
}

fn as_snapshot(outcome: ardiex::engine::BackupOutcome, mtime: u64) -> RepoSnapshot {
    let ns = outcome.new_snapshot.expect("a snapshot must have been produced");
    RepoSnapshot {
        name: ns.name,
        mtime,
        files: ns.files,
    }
}

fn hashes_get<'a>(m: &'a SourceMetadata, key: &str) -> Option<&'a String> {
    m.file_hashes.iter().find(|(k, _)| k == key).map(|(_, v)| v)
}

/// One engine run over an in-memory repository, with the snapshot and
/// metadata carried forward the way the surrounding process would.
fn run(
    files: &Vec<SourceFile>,
    repo: &Vec<RepoSnapshot>,
    metadata: SourceMetadata,
    max_backups: usize,
    mode: BackupMode,
    force_full: bool,
    ts: &str,
    mtime: u64,
) -> ardiex::engine::BackupOutcome {
    perform_backup(
        files,
        &Vec::new(),
        repo,
        metadata,
        max_backups,
        mode,
        force_full,
        ts,
        mtime,
    )
    .expect("engine run must succeed")
}

#[test]
fn empty_source_produces_full_then_no_incremental() {
    let files: Vec<SourceFile> = Vec::new();
    let out1 = run(
        &files,
        &Vec::new(),
        empty_metadata(),
        10,
        BackupMode::Delta,
        false,
        "20260224_120000000",
        1,
    );
    assert!(matches!(out1.backup_type, BackupType::Full));
    assert_eq!(out1.files_backed_up, 0);
    let meta1 = out1.metadata.as_ref().expect("metadata must be produced").clone();
    let repo = vec![as_snapshot(out1, 1)];

    let out2 = run(
        &files,
        &repo,
        meta1,
        10,
        BackupMode::Delta,
        false,
        "20260224_121000000",
        2,
    );
    assert!(matches!(out2.backup_type, BackupType::Incremental));
    assert!(out2.new_snapshot.is_none());
    assert_eq!(out2.files_backed_up, 0);
}

#[test]
fn unchanged_file_second_run_is_a_no_op() {
    let files = vec![source_file("sample.txt", b"v1")];
    let out1 = run(
        &files,
        &Vec::new(),
        empty_metadata(),
        10,
        BackupMode::Delta,
        false,
        "20260224_120000000",
        1,
    );
    assert!(matches!(out1.backup_type, BackupType::Full));
    assert_eq!(out1.files_backed_up, 1);
    assert_eq!(out1.bytes_processed, 2);
    let meta1 = out1.metadata.as_ref().unwrap().clone();
    let repo = vec![as_snapshot(out1, 1)];

    let out2 = run(
        &files,
        &repo,
        meta1,
        10,
        BackupMode::Delta,
        false,
        "20260224_121000000",
        2,
    );
    assert!(matches!(out2.backup_type, BackupType::Incremental));
    assert!(out2.new_snapshot.is_none());
    assert_eq!(out2.bytes_processed, 0);
}

#[test]
fn max_backups_one_forces_full_after_one_incremental_and_retains_one() {
    // With max_backups 1 the derived interval is 1: at most one incremental
    // ever follows a full before validation forces the next run full, and
    // the forced full's retention keeps exactly one snapshot.
    let v1 = vec![source_file("sample.txt", b"one")];
    let out1 = run(
        &v1,
        &Vec::new(),
        empty_metadata(),
        1,
        BackupMode::Delta,
        false,
        "20260224_120000000",
        1,
    );
    assert!(matches!(out1.backup_type, BackupType::Full));
    let meta1 = out1.metadata.as_ref().unwrap().clone();
    let mut repo = vec![as_snapshot(out1, 1)];

    let v2 = vec![source_file("sample.txt", b"two")];
    let out2 = run(
        &v2,
        &repo,
        meta1,
        1,
        BackupMode::Delta,
        false,
        "20260224_121000000",
        2,
    );
    assert!(matches!(out2.backup_type, BackupType::Incremental));
    let meta2 = out2.metadata.as_ref().unwrap().clone();
    repo.push(as_snapshot(out2, 2));

    // Startup validation before the third run sees one pending incremental,
    // which reaches the interval and forces a full.
    let names: Vec<String> = repo.iter().map(|s| s.name.clone()).collect();
    let inc_count = count_inc_since_last_full(&names);
    assert_eq!(inc_count, 1);
    let force = needs_force_full(
        true,
        BackupMode::Delta,
        inc_count,
        auto_full_backup_interval(1),
        validate_delta_chain(&repo),
    );
    assert!(force);
    let v3 = vec![source_file("sample.txt", b"three")];
    let out3 = run(
        &v3,
        &repo,
        meta2,
        1,
        BackupMode::Delta,
        force,
        "20260224_122000000",
        3,
    );
    assert!(matches!(out3.backup_type, BackupType::Full));
    assert_eq!(out3.deletions.len(), 2);
    let meta3 = out3.metadata.as_ref().unwrap();
    assert_eq!(meta3.backup_history.len(), 1);
}

#[test]
fn delta_exceeding_half_of_new_size_falls_back_to_literal_copy() {
    let v1 = vec![source_file("sample.bin", &[1u8; 6000])];
    let out1 = run(
        &v1,
        &Vec::new(),
        empty_metadata(),
        10,
        BackupMode::Delta,
        false,
        "20260224_120000000",
        1,
    );
    let meta1 = out1.metadata.as_ref().unwrap().clone();
    let repo = vec![as_snapshot(out1, 1)];

    // Every block changes: the delta would carry the whole file.
    let v2 = vec![source_file("sample.bin", &[2u8; 6000])];
    let out2 = run(
        &v2,
        &repo,
        meta1,
        10,
        BackupMode::Delta,
        false,
        "20260224_121000000",
        2,
    );
    let ns = out2.new_snapshot.expect("incremental snapshot expected");
    assert_eq!(ns.files.len(), 1);
    assert_eq!(ns.files[0].rel_path, "sample.bin");
    assert_eq!(ns.files[0].content, vec![2u8; 6000]);
}

#[test]
fn small_change_in_delta_mode_stores_a_delta_record() {
    let mut big = vec![7u8; 60000];
    let out1 = run(
        &vec![source_file("sample.bin", &big)],
        &Vec::new(),
        empty_metadata(),
        10,
        BackupMode::Delta,
        false,
        "20260224_120000000",
        1,
    );
    let meta1 = out1.metadata.as_ref().unwrap().clone();
    let repo = vec![as_snapshot(out1, 1)];

    big[0] = 9;
    let out2 = run(
        &vec![source_file("sample.bin", &big)],
        &repo,
        meta1,
        10,
        BackupMode::Delta,
        false,
        "20260224_121000000",
        2,
    );
    // The accounted bytes are the delta payload: one changed block.
    assert_eq!(out2.bytes_processed, 4096);
    let ns = out2.new_snapshot.expect("incremental snapshot expected");
    assert_eq!(ns.files.len(), 1);
    assert_eq!(ns.files[0].rel_path, "sample.bin.delta");
    let loaded = ardiex::delta_codec::load_delta(&ns.files[0].content)
        .expect("stored delta must parse");
    assert_eq!(loaded.changed_blocks.len(), 1);
    assert_eq!(loaded.changed_blocks[0].index, 0);
}

#[test]
fn copy_mode_incremental_stores_literal_copy() {
    let v1 = vec![source_file("sample.txt", b"copy_v1")];
    let out1 = run(
        &v1,
        &Vec::new(),
        empty_metadata(),
        10,
        BackupMode::Copy,
        false,
        "20260224_120000000",
        1,
    );
    assert!(matches!(out1.backup_type, BackupType::Full));
    let meta1 = out1.metadata.as_ref().unwrap().clone();
    let repo = vec![as_snapshot(out1, 1)];

    let v2 = vec![source_file("sample.txt", b"copy_v2")];
    let out2 = run(
        &v2,
        &repo,
        meta1,
        10,
        BackupMode::Copy,
        false,
        "20260224_121000000",
        2,
    );
    assert!(matches!(out2.backup_type, BackupType::Incremental));
    assert_eq!(out2.bytes_processed, 7);
    let ns = out2.new_snapshot.expect("incremental snapshot expected");
    assert_eq!(ns.files.len(), 1);
    assert_eq!(ns.files[0].rel_path, "sample.txt");
    assert_eq!(ns.files[0].content, b"copy_v2".to_vec());
    assert!(ns.files.iter().all(|f| !f.rel_path.ends_with(".delta")));
}

#[test]
fn force_full_is_cleared_after_first_full_run() {
    // Startup validation forced a full; the first run honors it, and a
    // later run without the flag proceeds incrementally.
    let v1 = vec![source_file("sample.txt", b"10")];
    let out1 = run(
        &v1,
        &Vec::new(),
        empty_metadata(),
        10,
        BackupMode::Delta,
        true,
        "20260224_120000000",
        1,
    );
    assert!(matches!(out1.backup_type, BackupType::Full));
    let meta1 = out1.metadata.as_ref().unwrap().clone();
    let repo = vec![as_snapshot(out1, 1)];

    let v2 = vec![source_file("sample.txt", b"20")];
    let out2 = run(
        &v2,
        &repo,
        meta1,
        10,
        BackupMode::Delta,
        false,
        "20260224_121000000",
        2,
    );
    assert!(matches!(out2.backup_type, BackupType::Incremental));
    assert!(out2.new_snapshot.is_some());
}

#[test]
fn deleted_file_is_removed_from_metadata_hashes() {
    let both = vec![
        source_file("keep.txt", b"keep-v1"),
        source_file("remove.txt", b"remove-v1"),
    ];
    let out1 = run(
        &both,
        &Vec::new(),
        empty_metadata(),
        10,
        BackupMode::Copy,
        false,
        "20260224_120000000",
        1,
    );
    let meta1 = out1.metadata.as_ref().unwrap().clone();
    let repo = vec![as_snapshot(out1, 1)];

    let only_keep = vec![source_file("keep.txt", b"keep-v1")];
    let out2 = run(
        &only_keep,
        &repo,
        meta1,
        10,
        BackupMode::Copy,
        false,
        "20260224_121000000",
        2,
    );
    assert_eq!(out2.files_backed_up, 0);
    let meta2 = out2.metadata.as_ref().expect("metadata must be persisted");
    assert!(hashes_get(meta2, "keep.txt").is_some());
    assert!(hashes_get(meta2, "remove.txt").is_none());
}

#[test]
fn force_full_cadence_runs_full_inc_inc_full() {
    let max_backups = 3;
    let interval = auto_full_backup_interval(max_backups);
    let contents: [&[u8]; 4] = [b"v1", b"v2", b"v3", b"v4"];
    let stamps = [
        "20260224_120000000",
        "20260224_121000000",
        "20260224_122000000",
        "20260224_123000000",
    ];
    let mut repo: Vec<RepoSnapshot> = Vec::new();
    let mut metadata = empty_metadata();
    let mut kinds: Vec<&str> = Vec::new();
    for step in 0..4 {
        let names: Vec<String> = repo.iter().map(|s| s.name.clone()).collect();
        let force = needs_force_full(
            true,
            BackupMode::Delta,
            count_inc_since_last_full(&names),
            interval,
            validate_delta_chain(&repo),
        );
        let files = vec![source_file("sample.txt", contents[step])];
        let out = run(
            &files,
            &repo,
            metadata,
            max_backups,
            BackupMode::Delta,
            force,
            stamps[step],
            (step + 1) as u64,
        );
        kinds.push(match out.backup_type {
            BackupType::Full => "full",
            BackupType::Incremental => "inc",
        });
        metadata = out.metadata.as_ref().unwrap().clone();
        for doomed in &out.deletions {
            repo.retain(|s| s.name != doomed.name);
        }
        repo.push(as_snapshot(out, (step + 1) as u64));
    }
    assert_eq!(kinds, vec!["full", "inc", "inc", "full"]);
}

#[test]
fn cleanup_preserves_latest_full_chain_in_delta_mode() {
    let refs = vec![
        SnapshotRef { name: String::from("full_20260224_100000"), mtime: 1 },
        SnapshotRef { name: String::from("inc_20260224_101000"), mtime: 2 },
        SnapshotRef { name: String::from("full_20260224_110000"), mtime: 3 },
        SnapshotRef { name: String::from("inc_20260224_111000"), mtime: 4 },
        SnapshotRef { name: String::from("inc_20260224_112000"), mtime: 5 },
    ];
    let victims = ardiex::chain::cleanup_old_backups(refs, 3, BackupMode::Delta);
    let names: Vec<String> = victims.into_iter().map(|v| v.name).collect();
    assert_eq!(
        names,
        vec![
            String::from("full_20260224_100000"),
            String::from("inc_20260224_101000"),
        ]
    );
}

#[test]
fn cleanup_in_copy_mode_drops_the_oldest_beyond_the_budget() {
    let refs = vec![
        SnapshotRef { name: String::from("full_20260224_100000"), mtime: 1 },
        SnapshotRef { name: String::from("inc_20260224_101000"), mtime: 2 },
        SnapshotRef { name: String::from("inc_20260224_102000"), mtime: 3 },
    ];
    let victims = ardiex::chain::cleanup_old_backups(refs, 2, BackupMode::Copy);
    let names: Vec<String> = victims.into_iter().map(|v| v.name).collect();
    assert_eq!(names, vec![String::from("full_20260224_100000")]);
}

#[test]
fn count_inc_since_last_full_counts_only_newer_incrementals() {
    let names = vec![
        String::from("full_20260224_100000"),
        String::from("inc_20260224_101000"),
        String::from("inc_20260224_102000"),
        String::from("full_20260224_103000"),
        String::from("inc_20260224_104000"),
    ];
    assert_eq!(count_inc_since_last_full(&names), 1);
}

#[test]
fn validate_delta_chain_requires_a_full_snapshot() {
    let only_inc = vec![RepoSnapshot {
        name: String::from("inc_20260224_121000"),
        mtime: 1,
        files: vec![StoredFile {
            rel_path: String::from("a.txt"),
            content: b"x".to_vec(),
        }],
    }];
    assert!(!validate_delta_chain(&only_inc));
}

#[test]
fn validate_delta_chain_rejects_corrupt_delta_records() {
    let snaps = vec![
        RepoSnapshot {
            name: String::from("full_20260224_120000"),
            mtime: 1,
            files: vec![StoredFile {
                rel_path: String::from("a.txt"),
                content: b"x".to_vec(),
            }],
        },
        RepoSnapshot {
            name: String::from("inc_20260224_121000"),
            mtime: 2,
            files: vec![StoredFile {
                rel_path: String::from("a.txt.delta"),
                content: b"{invalid".to_vec(),
            }],
        },
    ];
    assert!(!validate_delta_chain(&snaps));
}

#[test]
fn exclude_patterns_match_globs_and_substrings() {
    let patterns = vec![String::from("*.tmp"), String::from(".git/")];
    assert!(should_exclude("/src/drop.tmp", &patterns));
    assert!(should_exclude("/src/.git/config", &patterns));
    assert!(!should_exclude("/src/keep.txt", &patterns));
}

#[test]
fn full_backup_respects_exclude_patterns() {
    let files = vec![
        source_file("keep.txt", b"keep"),
        source_file("drop.tmp", b"drop"),
    ];
    let out = perform_backup(
        &files,
        &vec![String::from("*.tmp")],
        &Vec::new(),
        empty_metadata(),
        10,
        BackupMode::Delta,
        false,
        "20260224_120000000",
        1,
    )
    .expect("engine run must succeed");
    let ns = out.new_snapshot.expect("full snapshot expected");
    assert_eq!(ns.files.len(), 1);
    assert_eq!(ns.files[0].rel_path, "keep.txt");
}

#[test]
fn cron_validity_check_accepts_and_rejects() {
    assert!(ardiex::config::cron_expression_is_valid("0 0 * * * *"));
    assert!(!ardiex::config::cron_expression_is_valid("invalid cron"));
}

#[test]
fn min_interval_by_size_respects_thresholds() {
    assert_eq!(ardiex::chain::min_interval_secs_for_size(1024), 1);
    assert_eq!(ardiex::chain::min_interval_secs_for_size(11 * 1024 * 1024), 60);
    assert_eq!(ardiex::chain::min_interval_secs_for_size(110 * 1024 * 1024), 3600);
    assert_eq!(
        ardiex::chain::min_interval_secs_for_size(3 * 1024 * 1024 * 1024 + 1),
        4 * 3600
    );
}

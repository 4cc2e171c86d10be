use ardiex::chain::{RepoSnapshot, StoredFile};
use ardiex::delta::{create_delta, delta_size};
use ardiex::delta_codec::save_delta;
use ardiex::restore::{BackupEntry, ListingEntry, RestoreManager};

fn make_backup_entry(name: &str, is_full: bool) -> BackupEntry {
    BackupEntry {
        name: String::from(name),
        path: format!("/tmp/{}", name),
        is_full,
        timestamp: if is_full {
            String::from(name.trim_start_matches("full_"))
        } else {
            String::from(name.trim_start_matches("inc_"))
        },
    }
}

#[test]
fn select_backups_uses_latest_full_before_cutoff() {
    let backups = vec![
        make_backup_entry("full_20260224_100000", true),
        make_backup_entry("inc_20260224_101000", false),
        make_backup_entry("full_20260224_110000", true),
        make_backup_entry("inc_20260224_111000", false),
        make_backup_entry("inc_20260224_112000", false),
    ];

    let selected = RestoreManager::select_backups(&backups, Some("20260224_111500"))
        .expect("selection must succeed");
    let names: Vec<String> = selected.into_iter().map(|b| b.name.clone()).collect();
    assert_eq!(
        names,
        vec![
            String::from("full_20260224_110000"),
            String::from("inc_20260224_111000"),
        ]
    );
}

#[test]
fn select_backups_fails_when_no_full_exists_before_cutoff() {
    let backups = vec![
        make_backup_entry("inc_20260224_101000", false),
        make_backup_entry("inc_20260224_102000", false),
    ];

    let err = RestoreManager::select_backups(&backups, Some("20260224_103000"))
        .expect_err("must fail without full backup");
    assert!(err.message().contains("No full backup found"));
}

#[test]
fn strip_delta_extension_removes_only_delta_suffix() {
    assert_eq!(
        RestoreManager::strip_delta_extension("a.txt.delta"),
        String::from("a.txt")
    );
    assert_eq!(
        RestoreManager::strip_delta_extension("nested/a.bin.delta"),
        String::from("nested/a.bin")
    );
    assert_eq!(
        RestoreManager::strip_delta_extension("a.txt"),
        String::from("a.txt")
    );
}

#[test]
fn list_backups_filters_and_sorts_entries() {
    let listing = vec![
        ListingEntry {
            name: String::from("full_20260224_120000"),
            path: String::from("/repo/full_20260224_120000"),
            is_dir: true,
        },
        ListingEntry {
            name: String::from("inc_20260224_130000"),
            path: String::from("/repo/inc_20260224_130000"),
            is_dir: true,
        },
        ListingEntry {
            name: String::from("full_20260224_110000"),
            path: String::from("/repo/full_20260224_110000"),
            is_dir: true,
        },
        ListingEntry {
            name: String::from("ignored_dir"),
            path: String::from("/repo/ignored_dir"),
            is_dir: true,
        },
        ListingEntry {
            name: String::from("inc_20260224_140000"),
            path: String::from("/repo/inc_20260224_140000"),
            is_dir: false,
        },
    ];

    let backups = RestoreManager::list_backups(&listing);
    let names: Vec<String> = backups.into_iter().map(|b| b.name).collect();
    assert_eq!(
        names,
        vec![
            String::from("full_20260224_110000"),
            String::from("full_20260224_120000"),
            String::from("inc_20260224_130000"),
        ]
    );
}

fn snapshot(name: &str, mtime: u64, files: Vec<(&str, Vec<u8>)>) -> RepoSnapshot {
    RepoSnapshot {
        name: String::from(name),
        mtime,
        files: files
            .into_iter()
            .map(|(p, c)| StoredFile {
                rel_path: String::from(p),
                content: c,
            })
            .collect(),
    }
}

fn tree_get<'a>(tree: &'a [(String, Vec<u8>)], key: &str) -> Option<&'a Vec<u8>> {
    tree.iter().find(|(k, _)| k == key).map(|(_, v)| v)
}

#[test]
fn restore_applies_full_and_incremental_copy_chain() {
    let snapshots = vec![
        snapshot("full_20260224_120000", 1, vec![("a.txt", b"v1".to_vec())]),
        snapshot("inc_20260224_121000", 2, vec![("a.txt", b"v2".to_vec())]),
    ];
    let (tree, restored) =
        RestoreManager::restore_to_point(&snapshots, None).expect("restore must succeed");
    assert_eq!(restored, 2);
    assert_eq!(tree_get(&tree, "a.txt"), Some(&b"v2".to_vec()));
}

#[test]
fn restore_applies_delta_incremental_tail() {
    let old_content = b"hello-old".to_vec();
    let new_content = b"hello-new".to_vec();
    let delta = create_delta(&old_content, &new_content);
    let delta_bytes = save_delta(&delta);

    let snapshots = vec![
        snapshot(
            "full_20260224_120000",
            1,
            vec![("a.txt", old_content.clone())],
        ),
        snapshot("inc_20260224_121000", 2, vec![("a.txt.delta", delta_bytes)]),
    ];
    let (tree, restored) =
        RestoreManager::restore_to_point(&snapshots, None).expect("restore must succeed");
    assert_eq!(restored, 2);
    assert_eq!(tree_get(&tree, "a.txt"), Some(&b"hello-new".to_vec()));
}

#[test]
fn restore_respects_cutoff_and_skips_later_incrementals() {
    let snapshots = vec![
        snapshot("full_20260224_120000", 1, vec![("a.txt", b"v1".to_vec())]),
        snapshot("inc_20260224_121000", 2, vec![("a.txt", b"v2".to_vec())]),
        snapshot("inc_20260224_122000", 3, vec![("a.txt", b"v3".to_vec())]),
    ];
    let (tree, restored) = RestoreManager::restore_to_point(&snapshots, Some("20260224_121000"))
        .expect("restore must succeed");
    assert_eq!(restored, 2);
    assert_eq!(tree_get(&tree, "a.txt"), Some(&b"v2".to_vec()));
}

#[test]
fn restore_cutoff_between_snapshots_uses_earlier_set() {
    let snapshots = vec![
        snapshot("full_20260224_120000", 1, vec![("a.txt", b"v1".to_vec())]),
        snapshot("inc_20260224_121000", 2, vec![("a.txt", b"v2".to_vec())]),
        snapshot("inc_20260224_122000", 3, vec![("a.txt", b"v3".to_vec())]),
    ];
    let (tree, restored) = RestoreManager::restore_to_point(&snapshots, Some("20260224_121500"))
        .expect("restore must succeed");
    assert_eq!(restored, 2);
    assert_eq!(tree_get(&tree, "a.txt"), Some(&b"v2".to_vec()));
}

#[test]
fn restore_fails_when_no_snapshots_exist() {
    let snapshots: Vec<RepoSnapshot> = Vec::new();
    let err = RestoreManager::restore_to_point(&snapshots, None)
        .expect_err("restore must fail when no backups exist");
    assert!(err.message().contains("No backups found"));
}

#[test]
fn restore_fails_when_cutoff_is_before_any_full() {
    let snapshots = vec![snapshot(
        "full_20260224_120000",
        1,
        vec![("a.txt", b"v1".to_vec())],
    )];
    let err = RestoreManager::restore_to_point(&snapshots, Some("20260224_110000"))
        .expect_err("cutoff before first full must fail");
    assert!(err.message().contains("No full backup found before restore point"));
}

#[test]
fn restore_fails_on_invalid_delta_file() {
    let snapshots = vec![
        snapshot("full_20260224_120000", 1, vec![("a.txt", b"v1".to_vec())]),
        snapshot(
            "inc_20260224_121000",
            2,
            vec![("a.txt.delta", b"{invalid delta".to_vec())],
        ),
    ];
    let err = RestoreManager::restore_to_point(&snapshots, None)
        .expect_err("invalid delta content must fail restore");
    assert!(!err.message().is_empty());
}

#[test]
fn delta_size_reports_changed_payload() {
    let old_content = vec![0u8; 4096];
    let mut new_content = vec![0u8; 5000];
    new_content[4099] = 7;
    let delta = create_delta(&old_content, &new_content);
    // Only the second block differs: 5000 - 4096 bytes of payload.
    assert_eq!(delta_size(&delta), 904);
}

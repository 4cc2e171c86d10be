use ardiex::config::{
    auto_full_backup_interval, collect_event_watch_paths, validate_all_sources_delta, BackupConfig,
    BackupMode, SourceConfig,
};

fn make_source(path: &str) -> SourceConfig {
    SourceConfig {
        source_dir: String::from(path),
        backup_dirs: vec![String::from("/tmp/backup")],
        enabled: true,
        exclude_patterns: None,
        max_backups: None,
        backup_mode: None,
        cron_schedule: None,
        enable_event_driven: None,
        enable_periodic: None,
    }
}

fn make_source_with_flags(
    path: &str,
    enabled: bool,
    enable_event_driven: Option<bool>,
) -> SourceConfig {
    SourceConfig {
        source_dir: String::from(path),
        backup_dirs: vec![String::from("/tmp/backup")],
        enabled,
        exclude_patterns: None,
        max_backups: None,
        backup_mode: None,
        cron_schedule: None,
        enable_event_driven,
        enable_periodic: None,
    }
}

fn base_config(backup_mode: BackupMode, enable_event_driven: bool) -> BackupConfig {
    BackupConfig {
        sources: vec![make_source("/tmp/source")],
        enable_periodic: true,
        enable_event_driven,
        exclude_patterns: vec![],
        max_backups: 10,
        backup_mode,
        cron_schedule: String::from("0 0 * * * *"),
        enable_min_interval_by_size: false,
        max_log_file_size_mb: 20,
        metadata: Vec::new(),
    }
}

#[test]
fn auto_full_backup_interval_has_expected_bounds() {
    assert_eq!(auto_full_backup_interval(0), 1);
    assert_eq!(auto_full_backup_interval(1), 1);
    assert_eq!(auto_full_backup_interval(2), 1);
    assert_eq!(auto_full_backup_interval(10), 9);
}

#[test]
fn effective_backup_dirs_uses_source_backup_dir_when_empty() {
    let source = SourceConfig {
        source_dir: String::from("/tmp/source"),
        backup_dirs: vec![],
        enabled: true,
        exclude_patterns: None,
        max_backups: None,
        backup_mode: None,
        cron_schedule: None,
        enable_event_driven: None,
        enable_periodic: None,
    };

    assert_eq!(
        source.effective_backup_dirs(),
        vec![String::from("/tmp/source/.backup")]
    );
}

#[test]
fn effective_backup_dirs_keeps_explicit_backup_dirs() {
    let source = SourceConfig {
        source_dir: String::from("/tmp/source"),
        backup_dirs: vec![String::from("/tmp/backup1"), String::from("/tmp/backup2")],
        enabled: true,
        exclude_patterns: None,
        max_backups: None,
        backup_mode: None,
        cron_schedule: None,
        enable_event_driven: None,
        enable_periodic: None,
    };

    assert_eq!(
        source.effective_backup_dirs(),
        vec![String::from("/tmp/backup1"), String::from("/tmp/backup2")]
    );
}

#[test]
fn resolve_uses_global_defaults_when_source_overrides_are_absent() {
    let global = BackupConfig {
        sources: vec![],
        enable_periodic: true,
        enable_event_driven: true,
        exclude_patterns: vec![String::from("*.tmp")],
        max_backups: 10,
        backup_mode: BackupMode::Delta,
        cron_schedule: String::from("0 0 * * * *"),
        enable_min_interval_by_size: true,
        max_log_file_size_mb: 20,
        metadata: Vec::new(),
    };

    let source = SourceConfig {
        source_dir: String::from("/tmp/source"),
        backup_dirs: vec![],
        enabled: true,
        exclude_patterns: None,
        max_backups: None,
        backup_mode: None,
        cron_schedule: None,
        enable_event_driven: None,
        enable_periodic: None,
    };

    let resolved = source.resolve(&global);
    assert_eq!(resolved.exclude_patterns, vec![String::from("*.tmp")]);
    assert_eq!(resolved.max_backups, 10);
    assert!(matches!(resolved.backup_mode, BackupMode::Delta));
    assert_eq!(resolved.full_backup_interval, 9);
    assert_eq!(resolved.cron_schedule, "0 0 * * * *");
    assert!(resolved.enable_event_driven);
    assert!(resolved.enable_periodic);
}

#[test]
fn resolve_source_overrides_take_precedence() {
    let global = BackupConfig {
        sources: vec![],
        enable_periodic: true,
        enable_event_driven: true,
        exclude_patterns: vec![String::from("*.tmp")],
        max_backups: 10,
        backup_mode: BackupMode::Delta,
        cron_schedule: String::from("0 0 * * * *"),
        enable_min_interval_by_size: true,
        max_log_file_size_mb: 20,
        metadata: Vec::new(),
    };

    let source = SourceConfig {
        source_dir: String::from("/tmp/source"),
        backup_dirs: vec![],
        enabled: true,
        exclude_patterns: Some(vec![String::from("*.cache")]),
        max_backups: Some(3),
        backup_mode: Some(BackupMode::Copy),
        cron_schedule: Some(String::from("0 */5 * * * *")),
        enable_event_driven: Some(false),
        enable_periodic: Some(false),
    };

    let resolved = source.resolve(&global);
    assert_eq!(resolved.exclude_patterns, vec![String::from("*.cache")]);
    assert_eq!(resolved.max_backups, 3);
    assert!(matches!(resolved.backup_mode, BackupMode::Copy));
    assert_eq!(resolved.full_backup_interval, 2);
    assert_eq!(resolved.cron_schedule, "0 */5 * * * *");
    assert!(!resolved.enable_event_driven);
    assert!(!resolved.enable_periodic);
}

#[test]
fn resolve_full_backup_interval_is_never_below_one() {
    let global = BackupConfig::default();
    let source = SourceConfig {
        source_dir: String::from("/tmp/source"),
        backup_dirs: vec![],
        enabled: true,
        exclude_patterns: None,
        max_backups: Some(1),
        backup_mode: None,
        cron_schedule: None,
        enable_event_driven: None,
        enable_periodic: None,
    };

    let resolved = source.resolve(&global);
    assert_eq!(resolved.full_backup_interval, 1);
}

#[test]
fn backup_config_default_values_are_consistent() {
    let config = BackupConfig::default();
    assert!(config.enable_periodic);
    assert!(config.enable_event_driven);
    assert!(config.enable_min_interval_by_size);
    assert_eq!(config.max_backups, 10);
    assert_eq!(config.max_log_file_size_mb, 20);
    assert!(matches!(config.backup_mode, BackupMode::Delta));
    assert_eq!(config.cron_schedule, "0 0 * * * *");
}

#[test]
fn collect_event_watch_paths_includes_copy_mode_source() {
    let config = base_config(BackupMode::Copy, true);
    let paths = collect_event_watch_paths(&config);
    assert_eq!(paths, vec![String::from("/tmp/source")]);
}

#[test]
fn collect_event_watch_paths_respects_source_override_disable() {
    let mut config = base_config(BackupMode::Delta, true);
    config.sources[0].enable_event_driven = Some(false);
    let paths = collect_event_watch_paths(&config);
    assert!(paths.is_empty());
}

#[test]
fn collect_event_watch_paths_empty_when_global_disabled() {
    let config = base_config(BackupMode::Copy, false);
    let paths = collect_event_watch_paths(&config);
    assert!(paths.is_empty());
}

#[test]
fn collect_event_watch_paths_skips_disabled_sources() {
    let mut config = base_config(BackupMode::Copy, true);
    config.sources = vec![
        make_source_with_flags("/tmp/source_enabled", true, None),
        make_source_with_flags("/tmp/source_disabled", false, None),
    ];

    let paths = collect_event_watch_paths(&config);
    assert_eq!(paths, vec![String::from("/tmp/source_enabled")]);
}

#[test]
fn collect_event_watch_paths_filters_mixed_source_overrides() {
    let mut config = base_config(BackupMode::Delta, true);
    config.sources = vec![
        make_source_with_flags("/tmp/source_a", true, Some(true)),
        make_source_with_flags("/tmp/source_b", true, Some(false)),
        make_source_with_flags("/tmp/source_c", false, Some(true)),
    ];

    let paths = collect_event_watch_paths(&config);
    assert_eq!(paths, vec![String::from("/tmp/source_a")]);
}

#[test]
fn delta_retention_validation_rejects_too_small_budget() {
    let mut config = base_config(BackupMode::Delta, true);
    assert!(validate_all_sources_delta(&config).is_ok());
    config.sources[0].max_backups = Some(1);
    // With max_backups 1 the derived interval is 1, which still fits.
    assert!(validate_all_sources_delta(&config).is_ok());
}

#[test]
fn validate_config_accepts_a_plain_configuration() {
    let config = base_config(BackupMode::Delta, true);
    assert!(ardiex::config::validate_config(&config).is_ok());
}

#[test]
fn validate_config_rejects_duplicate_sources() {
    let mut config = base_config(BackupMode::Delta, true);
    config.sources = vec![make_source("/tmp/source"), make_source("/tmp/source")];
    let err = ardiex::config::validate_config(&config).expect_err("duplicate sources must be rejected");
    assert!(err.message().contains("Duplicate source directory"));
}

#[test]
fn validate_config_rejects_relative_source_path() {
    let mut config = base_config(BackupMode::Delta, true);
    config.sources = vec![make_source("relative/source")];
    let err = ardiex::config::validate_config(&config).expect_err("relative source path must be rejected");
    assert!(err.message().contains("Source path must be absolute"));
}

#[test]
fn validate_config_rejects_invalid_global_cron() {
    let mut config = base_config(BackupMode::Delta, true);
    config.cron_schedule = String::from("invalid cron");
    let err = ardiex::config::validate_config(&config).expect_err("invalid global cron must be rejected");
    assert!(err.message().contains("Invalid global cron_schedule"));
}

#[test]
fn validate_config_rejects_backup_dir_equal_to_source() {
    let mut config = base_config(BackupMode::Delta, true);
    config.sources[0].backup_dirs = vec![String::from("/tmp/source")];
    let err = ardiex::config::validate_config(&config).expect_err("same source/backup path must be rejected");
    assert!(err.message().contains("Backup directory cannot be the same as source"));
}

#[test]
fn validate_config_rejects_zero_max_backups() {
    let mut config = base_config(BackupMode::Delta, true);
    config.max_backups = 0;
    let err = ardiex::config::validate_config(&config).expect_err("global max_backups=0 must be rejected");
    assert!(err.message().contains("Global max_backups must be > 0"));
}

//! Configuration model: global settings, per-source settings, resolution of
//! per-source overrides against the global defaults, and the pure part of
//! startup validation.

use vstd::prelude::*;
use crate::metadata::SourceMetadata;
use crate::strutil::{seq_starts_with, str_eq, str_starts_with};

verus! {

/// How changed files are stored in an incremental snapshot: block deltas
/// against the nearest prior copy, or whole-file copies.
#[derive(Clone, Copy, PartialEq, Eq, Structural, Debug)]
pub enum BackupMode {
    Delta,
    Copy,
}

/// Number of incremental snapshots tolerated after the latest full snapshot
/// before a full snapshot is forced: `max(1, max_backups - 1)`.
pub fn auto_full_backup_interval(max_backups: usize) -> (r: usize)
    ensures
        r == spec_auto_full_interval(max_backups),
{
    if max_backups <= 1 {
        1
    } else {
        max_backups - 1
    }
}

pub open spec fn spec_auto_full_interval(max_backups: usize) -> usize {
    if max_backups <= 1 {
        1usize
    } else {
        (max_backups - 1) as usize
    }
}

/// One backed-up directory: where it lives, where its snapshots go, and its
/// optional overrides of the global settings.
#[derive(Debug)]
pub struct SourceConfig {
    pub source_dir: String,
    pub backup_dirs: Vec<String>,
    pub enabled: bool,
    pub exclude_patterns: Option<Vec<String>>,
    pub max_backups: Option<usize>,
    pub backup_mode: Option<BackupMode>,
    pub cron_schedule: Option<String>,
    pub enable_event_driven: Option<bool>,
    pub enable_periodic: Option<bool>,
}

/// A source's settings with every override resolved against the globals.
#[derive(Debug)]
pub struct ResolvedSourceConfig {
    pub exclude_patterns: Vec<String>,
    pub max_backups: usize,
    pub backup_mode: BackupMode,
    pub full_backup_interval: usize,
    pub cron_schedule: String,
    pub enable_event_driven: bool,
    pub enable_periodic: bool,
}

/// The whole configuration: global settings plus the list of sources.
#[derive(Debug)]
pub struct BackupConfig {
    pub sources: Vec<SourceConfig>,
    pub enable_periodic: bool,
    pub enable_event_driven: bool,
    pub exclude_patterns: Vec<String>,
    pub max_backups: usize,
    pub backup_mode: BackupMode,
    pub cron_schedule: String,
    pub enable_min_interval_by_size: bool,
    pub max_log_file_size_mb: u64,
    pub metadata: Vec<(String, SourceMetadata)>,
}

impl Default for BackupConfig {
    /// The configuration a fresh installation starts from.
    fn default() -> (r: BackupConfig)
        ensures
            r.sources@.len() == 0,
            r.enable_periodic,
            r.enable_event_driven,
            r.exclude_patterns@.len() == 4,
            r.exclude_patterns@[0]@ == "*.tmp"@,
            r.exclude_patterns@[1]@ == "*.log"@,
            r.exclude_patterns@[2]@ == ".git/*"@,
            r.exclude_patterns@[3]@ == ".DS_Store"@,
            r.max_backups == 10,
            r.backup_mode is Delta,
            r.cron_schedule@ == "0 0 * * * *"@,
            r.enable_min_interval_by_size,
            r.max_log_file_size_mb == 20,
            r.metadata@.len() == 0,
    {
        let mut exclude_patterns: Vec<String> = Vec::new();
        exclude_patterns.push(String::from_str("*.tmp"));
        exclude_patterns.push(String::from_str("*.log"));
        exclude_patterns.push(String::from_str(".git/*"));
        exclude_patterns.push(String::from_str(".DS_Store"));
        BackupConfig {
            sources: Vec::new(),
            enable_periodic: true,
            enable_event_driven: true,
            exclude_patterns,
            max_backups: 10,
            backup_mode: BackupMode::Delta,
            cron_schedule: String::from_str("0 0 * * * *"),
            enable_min_interval_by_size: true,
            max_log_file_size_mb: 20,
            metadata: Vec::new(),
        }
    }
}

/// What the cron crate accepts as a schedule; parsing depends on the
/// expression alone.
pub uninterp spec fn cron_accepts(s: Seq<char>) -> bool;

/// Relies on cron's `Schedule::from_str`: a pure parse of the expression.
#[verifier::external_body]
pub fn cron_expression_is_valid(expr: &str) -> (r: bool)
    ensures
        r == cron_accepts(expr@),
{
    <cron::Schedule as core::str::FromStr>::from_str(expr).is_ok()
}

/// A configuration the engine refuses to start with.
#[derive(Debug)]
pub enum ConfigError {
    InvalidGlobalCron,
    GlobalMaxBackupsZero,
    GlobalLogSizeZero,
    DuplicateSourceDir,
    SourcePathNotAbsolute,
    SourceMaxBackupsZero,
    InvalidSourceCron,
    BackupPathNotAbsolute,
    DuplicateBackupDir,
    BackupEqualsSource,
    DeltaRetentionTooSmall,
    PathNotAbsolute,
}

impl ConfigError {
    /// A short description, for error reporting at the edges.
    pub fn message(&self) -> (r: &'static str) {
        match self {
            ConfigError::InvalidGlobalCron => "Invalid global cron_schedule",
            ConfigError::GlobalMaxBackupsZero => "Global max_backups must be > 0",
            ConfigError::GlobalLogSizeZero => "Global max_log_file_size_mb must be > 0",
            ConfigError::DuplicateSourceDir => "Duplicate source directory",
            ConfigError::SourcePathNotAbsolute => "Source path must be absolute",
            ConfigError::SourceMaxBackupsZero => "max_backups must be > 0",
            ConfigError::InvalidSourceCron => "invalid cron_schedule",
            ConfigError::BackupPathNotAbsolute => "Backup path must be absolute",
            ConfigError::DuplicateBackupDir => "Duplicate backup directory",
            ConfigError::BackupEqualsSource => "Backup directory cannot be the same as source",
            ConfigError::DeltaRetentionTooSmall => "max_backups must be >= full_backup_interval in delta mode",
            ConfigError::PathNotAbsolute => "must be an absolute path",
        }
    }
}

fn clone_string_vec(v: &Vec<String>) -> (r: Vec<String>)
    ensures
        r@ == v@,
{
    let mut r: Vec<String> = Vec::new();
    let mut i: usize = 0;
    while i < v.len()
        invariant
            0 <= i <= v@.len(),
            r@ == v@.take(i as int),
        decreases v@.len() - i,
    {
        r.push(v[i].clone());
        proof {
            assert(v@.take(i + 1) =~= v@.take(i as int).push(v@[i as int]));
        }
        i = i + 1;
    }
    proof {
        assert(v@.take(v@.len() as int) =~= v@);
    }
    r
}

impl SourceConfig {
    /// Where this source's snapshots go: the configured repositories, or the
    /// default `<source>/.backup` when none is configured.
    pub fn effective_backup_dirs(&self) -> (r: Vec<String>)
        ensures
            self.backup_dirs@.len() > 0 ==> r@ == self.backup_dirs@,
            self.backup_dirs@.len() == 0 ==> r@.len() == 1 && r@[0]@ == self.source_dir@
                + "/.backup"@,
    {
        if self.backup_dirs.len() == 0 {
            let mut r: Vec<String> = Vec::new();
            r.push(self.source_dir.clone().concat("/.backup"));
            r
        } else {
            clone_string_vec(&self.backup_dirs)
        }
    }

    /// Every source-level override shadows the global value; the full-backup
    /// interval is always derived from the resolved `max_backups`.
    pub fn resolve(&self, global: &BackupConfig) -> (r: ResolvedSourceConfig)
        ensures
            r.exclude_patterns@ == spec_resolved_excludes(self, global),
            r.max_backups == spec_resolved_max_backups(self, global),
            r.backup_mode == spec_resolved_mode(self, global),
            r.full_backup_interval == spec_auto_full_interval(
                spec_resolved_max_backups(self, global),
            ),
            r.cron_schedule@ == spec_resolved_cron(self, global),
            r.enable_event_driven == spec_resolved_event_driven(self, global),
            r.enable_periodic == spec_resolved_periodic(self, global),
    {
        let resolved_max_backups = match self.max_backups {
            Some(m) => m,
            None => global.max_backups,
        };
        let exclude_patterns = match &self.exclude_patterns {
            Some(p) => clone_string_vec(p),
            None => clone_string_vec(&global.exclude_patterns),
        };
        let backup_mode = match self.backup_mode {
            Some(m) => m,
            None => global.backup_mode,
        };
        let cron_schedule = match &self.cron_schedule {
            Some(c) => c.clone(),
            None => global.cron_schedule.clone(),
        };
        let enable_event_driven = match self.enable_event_driven {
            Some(b) => b,
            None => global.enable_event_driven,
        };
        let enable_periodic = match self.enable_periodic {
            Some(b) => b,
            None => global.enable_periodic,
        };
        ResolvedSourceConfig {
            exclude_patterns,
            max_backups: resolved_max_backups,
            backup_mode,
            full_backup_interval: auto_full_backup_interval(resolved_max_backups),
            cron_schedule,
            enable_event_driven,
            enable_periodic,
        }
    }
}

pub open spec fn spec_resolved_max_backups(s: &SourceConfig, g: &BackupConfig) -> usize {
    match s.max_backups {
        Some(m) => m,
        None => g.max_backups,
    }
}

pub open spec fn spec_resolved_mode(s: &SourceConfig, g: &BackupConfig) -> BackupMode {
    match s.backup_mode {
        Some(m) => m,
        None => g.backup_mode,
    }
}

pub open spec fn spec_resolved_excludes(s: &SourceConfig, g: &BackupConfig) -> Seq<String> {
    match s.exclude_patterns {
        Some(p) => p@,
        None => g.exclude_patterns@,
    }
}

pub open spec fn spec_resolved_cron(s: &SourceConfig, g: &BackupConfig) -> Seq<char> {
    match s.cron_schedule {
        Some(c) => c@,
        None => g.cron_schedule@,
    }
}

pub open spec fn spec_resolved_event_driven(s: &SourceConfig, g: &BackupConfig) -> bool {
    match s.enable_event_driven {
        Some(b) => b,
        None => g.enable_event_driven,
    }
}

pub open spec fn spec_resolved_periodic(s: &SourceConfig, g: &BackupConfig) -> bool {
    match s.enable_periodic {
        Some(b) => b,
        None => g.enable_periodic,
    }
}

/// In delta mode the whole restore chain must fit in the retention budget:
/// the resolved `max_backups` may not be below the derived interval.
pub open spec fn delta_retention_ok(s: &SourceConfig, g: &BackupConfig) -> bool {
    !(s.enabled && spec_resolved_mode(s, g) is Delta && spec_resolved_max_backups(s, g)
        < spec_auto_full_interval(spec_resolved_max_backups(s, g)))
}

/// Rejects any enabled delta-mode source whose retention budget could not
/// hold a full restore chain.
pub fn validate_all_sources_delta(config: &BackupConfig) -> (r: Result<(), ConfigError>)
    ensures
        r is Ok <==> forall|i: int|
            0 <= i < config.sources@.len() ==> delta_retention_ok(&config.sources@[i], config),
{
    let mut i: usize = 0;
    while i < config.sources.len()
        invariant
            0 <= i <= config.sources@.len(),
            forall|j: int| 0 <= j < i ==> delta_retention_ok(&config.sources@[j], config),
        decreases config.sources@.len() - i,
    {
        let s = &config.sources[i];
        if s.enabled {
            let resolved_max = match s.max_backups {
                Some(m) => m,
                None => config.max_backups,
            };
            let mode = match s.backup_mode {
                Some(m) => m,
                None => config.backup_mode,
            };
            let fbi = auto_full_backup_interval(resolved_max);
            let is_delta = match mode {
                BackupMode::Delta => true,
                BackupMode::Copy => false,
            };
            if is_delta && resolved_max < fbi {
                return Err(ConfigError::DeltaRetentionTooSmall);
            }
        }
        i = i + 1;
    }
    Ok(())
}

/// A path is absolute when it starts at the filesystem root.
pub open spec fn is_absolute_path(p: Seq<char>) -> bool {
    seq_starts_with(p, "/"@)
}

/// Rejects a path that does not start at the filesystem root.
pub fn ensure_absolute(path: &str, label: &str) -> (r: Result<(), ConfigError>)
    ensures
        r is Ok <==> is_absolute_path(path@),
{
    if str_starts_with(path, "/") {
        Ok(())
    } else {
        Err(ConfigError::PathNotAbsolute)
    }
}

/// The source directories the filesystem watcher observes: every enabled
/// source whose resolved settings allow event-driven snapshots, provided the
/// global switch is on.
pub open spec fn watch_paths_of(sources: Seq<SourceConfig>, g: &BackupConfig) -> Seq<String>
    decreases sources.len(),
{
    if sources.len() == 0 {
        Seq::empty()
    } else {
        let rest = watch_paths_of(sources.drop_last(), g);
        if sources.last().enabled && spec_resolved_event_driven(&sources.last(), g) {
            rest.push(sources.last().source_dir)
        } else {
            rest
        }
    }
}

pub fn collect_event_watch_paths(config: &BackupConfig) -> (r: Vec<String>)
    ensures
        config.enable_event_driven ==> r@ == watch_paths_of(config.sources@, config),
        !config.enable_event_driven ==> r@.len() == 0,
{
    let mut r: Vec<String> = Vec::new();
    if !config.enable_event_driven {
        return r;
    }
    let mut i: usize = 0;
    while i < config.sources.len()
        invariant
            0 <= i <= config.sources@.len(),
            r@ == watch_paths_of(config.sources@.take(i as int), config),
        decreases config.sources@.len() - i,
    {
        let s = &config.sources[i];
        proof {
            assert(config.sources@.take(i + 1).drop_last() =~= config.sources@.take(i as int));
            assert(config.sources@.take(i + 1).last() == config.sources@[i as int]);
        }
        let eed = match s.enable_event_driven {
            Some(b) => b,
            None => config.enable_event_driven,
        };
        if s.enabled && eed {
            r.push(s.source_dir.clone());
        }
        i = i + 1;
    }
    proof {
        assert(config.sources@.take(config.sources@.len() as int) =~= config.sources@);
    }
    r
}

/// Two sources name the same directory.
pub open spec fn has_duplicate_sources(sources: Seq<SourceConfig>) -> bool {
    exists|i: int, j: int|
        0 <= i < j < sources.len() && (#[trigger] sources[i]).source_dir@ == (
        #[trigger] sources[j]).source_dir@
}

/// Two repositories of one source name the same directory.
pub open spec fn has_duplicate_backup_dirs(dirs: Seq<String>) -> bool {
    exists|i: int, j: int| 0 <= i < j < dirs.len() && (#[trigger] dirs[i])@ == (#[trigger] dirs[j])@
}

/// The pure part of startup validation: the global cron expression and
/// numeric limits, and for each source its path shape, overrides, and
/// repository list. What only the filesystem can answer (existence, being a
/// directory) stays with the caller.
pub open spec fn config_statically_valid(c: &BackupConfig) -> bool {
    &&& cron_accepts(c.cron_schedule@)
    &&& c.max_backups > 0
    &&& c.max_log_file_size_mb > 0
    &&& !has_duplicate_sources(c.sources@)
    &&& forall|i: int|
        0 <= i < c.sources@.len() ==> source_statically_valid(#[trigger] c.sources@[i], c)
}

pub open spec fn source_statically_valid(s: SourceConfig, g: &BackupConfig) -> bool {
    &&& is_absolute_path(s.source_dir@)
    &&& (s.enabled ==> {
        &&& (s.max_backups matches Some(m) ==> m > 0)
        &&& (s.cron_schedule matches Some(cs) ==> cron_accepts(cs@))
        &&& backup_dirs_statically_valid(effective_dir_views(s), s.source_dir@)
    })
}

/// The repository paths a source acts on, as `effective_backup_dirs` returns
/// them.
pub open spec fn effective_dir_views(s: SourceConfig) -> Seq<Seq<char>> {
    if s.backup_dirs@.len() > 0 {
        Seq::new(s.backup_dirs@.len(), |i: int| s.backup_dirs@[i]@)
    } else {
        seq![s.source_dir@ + "/.backup"@]
    }
}

pub open spec fn backup_dirs_statically_valid(dirs: Seq<Seq<char>>, source_dir: Seq<char>) -> bool {
    &&& forall|i: int| 0 <= i < dirs.len() ==> is_absolute_path(#[trigger] dirs[i])
    &&& forall|i: int, j: int| 0 <= i < j < dirs.len() ==> #[trigger] dirs[i] != #[trigger] dirs[j]
    &&& forall|i: int| 0 <= i < dirs.len() ==> #[trigger] dirs[i] != source_dir
}

/// Checks everything about a configuration that does not need the
/// filesystem. Succeeds exactly when `config_statically_valid` holds; the
/// caller still checks that each source exists and is a directory, and
/// creates missing repositories.
#[verifier::loop_isolation(false)]
#[verifier::rlimit(60)]
pub fn validate_config(config: &BackupConfig) -> (r: Result<(), ConfigError>)
    ensures
        r is Ok <==> config_statically_valid(config),
{
    if !cron_expression_is_valid(config.cron_schedule.as_str()) {
        return Err(ConfigError::InvalidGlobalCron);
    }
    if config.max_backups == 0 {
        return Err(ConfigError::GlobalMaxBackupsZero);
    }
    if config.max_log_file_size_mb == 0 {
        return Err(ConfigError::GlobalLogSizeZero);
    }
    let n = config.sources.len();
    let mut i: usize = 0;
    while i < n
        invariant
            0 <= i <= n,
            n == config.sources@.len(),
            forall|a: int, b: int|
                0 <= a < b < i ==> (#[trigger] config.sources@[a]).source_dir@ != (
                #[trigger] config.sources@[b]).source_dir@,
            forall|a: int|
                0 <= a < i ==> source_statically_valid(#[trigger] config.sources@[a], config),
        decreases n - i,
    {
        let s = &config.sources[i];
        // Duplicate check against every earlier source.
        let mut j: usize = 0;
        while j < i
            invariant
                0 <= j <= i < n,
                n == config.sources@.len(),
                forall|a: int|
                    0 <= a < j ==> (#[trigger] config.sources@[a]).source_dir@
                        != config.sources@[i as int].source_dir@,
            decreases i - j,
        {
            if str_eq(config.sources[j].source_dir.as_str(), config.sources[i].source_dir.as_str())
                {
                return Err(ConfigError::DuplicateSourceDir);
            }
            j = j + 1;
        }
        if !str_starts_with(s.source_dir.as_str(), "/") {
            return Err(ConfigError::SourcePathNotAbsolute);
        }
        if s.enabled {
            match s.max_backups {
                Some(m) => if m == 0 {
                    return Err(ConfigError::SourceMaxBackupsZero);
                },
                None => {},
            }
            match &s.cron_schedule {
                Some(cs) => if !cron_expression_is_valid(cs.as_str()) {
                    return Err(ConfigError::InvalidSourceCron);
                },
                None => {},
            }
            let dirs = s.effective_backup_dirs();
            let ghost spec_dirs = effective_dir_views(config.sources@[i as int]);
            if s.backup_dirs.len() == 0 {
                // The default repository `<source>/.backup` starts at the
                // root because the source does, and its longer path can
                // never equal the source path itself.
                proof {
                    reveal_strlit("/");
                    reveal_strlit("/.backup");
                    let sd = config.sources@[i as int].source_dir@;
                    let d = sd + "/.backup"@;
                    assert(spec_dirs =~= seq![d]);
                    assert(d.subrange(0, 1) =~= sd.subrange(0, 1));
                    assert(is_absolute_path(d));
                    assert(d.len() != sd.len());
                }
            } else {
                proof {
                    assert(spec_dirs =~= Seq::new(
                        s.backup_dirs@.len(),
                        |x: int| s.backup_dirs@[x]@,
                    ));
                }
                let m = dirs.len();
                let mut a: usize = 0;
                while a < m
                    invariant
                        0 <= a <= m,
                        m == dirs@.len(),
                        dirs@ == config.sources@[i as int].backup_dirs@,
                        forall|x: int|
                            0 <= x < a ==> is_absolute_path((#[trigger] dirs@[x])@),
                        forall|x: int, y: int|
                            0 <= x < y < a ==> (#[trigger] dirs@[x])@ != (#[trigger] dirs@[y])@,
                        forall|x: int|
                            0 <= x < a ==> (#[trigger] dirs@[x])@ != s.source_dir@,
                    decreases m - a,
                {
    if !str_starts_with(dirs[a].as_str(), "/") {
                        proof {
                            let sv = effective_dir_views(config.sources@[i as int]);
                            assert(sv[a as int] == dirs@[a as int]@);
                            assert(!backup_dirs_statically_valid(
                                sv,
                                config.sources@[i as int].source_dir@,
                            ));
                        }
                        return Err(ConfigError::BackupPathNotAbsolute);
                    }
                    let mut b: usize = 0;
                    while b < a
                        invariant
                            0 <= b <= a < m,
                            m == dirs@.len(),
                            forall|x: int|
                                0 <= x < b ==> (#[trigger] dirs@[x])@ != dirs@[a as int]@,
                        decreases a - b,
                    {
                        if str_eq(dirs[b].as_str(), dirs[a].as_str()) {
                            proof {
                                let sv = effective_dir_views(config.sources@[i as int]);
                                assert(sv[b as int] == dirs@[b as int]@);
                                assert(sv[a as int] == dirs@[a as int]@);
                                assert(sv[b as int] == sv[a as int]);
                                assert(!backup_dirs_statically_valid(
                                    sv,
                                    config.sources@[i as int].source_dir@,
                                ));
                            }
                            return Err(ConfigError::DuplicateBackupDir);
                        }
                        b = b + 1;
                    }
                    if str_eq(dirs[a].as_str(), s.source_dir.as_str()) {
                        proof {
                            let sv = effective_dir_views(config.sources@[i as int]);
                            assert(sv[a as int] == dirs@[a as int]@);
                            assert(!backup_dirs_statically_valid(
                                sv,
                                config.sources@[i as int].source_dir@,
                            ));
                        }
                        return Err(ConfigError::BackupEqualsSource);
                    }
                    a = a + 1;
                }
            }
        }
        proof {
            assert(source_statically_valid(config.sources@[i as int], config));
        }
        i = i + 1;
    }
    Ok(())
}

} // verus!

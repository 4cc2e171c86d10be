//! Run-loop decisions that need no I/O: whether a newly loaded configuration
//! fingerprint warrants a hot reload.

use vstd::prelude::*;
use crate::strutil::str_eq;

verus! {

/// A reload is skipped when the latest fingerprint is already active, or
/// matches the fingerprint that last failed validation.
pub fn should_skip_hot_reload(
    active_fingerprint: &str,
    failed_fingerprint: Option<&str>,
    latest_fingerprint: &str,
) -> (r: bool)
    ensures
        r == (latest_fingerprint@ == active_fingerprint@ || (failed_fingerprint matches Some(f)
            && f@ == latest_fingerprint@)),
{
    if str_eq(latest_fingerprint, active_fingerprint) {
        return true;
    }
    match failed_fingerprint {
        Some(f) => str_eq(f, latest_fingerprint),
        None => false,
    }
}

/// The force-full flag is one-shot: a run that produced a full snapshot
/// clears its repository's flag; any other outcome leaves it standing.
pub fn should_clear_force_full(backup_type: crate::engine::BackupType) -> (r: bool)
    ensures
        r == (backup_type is Full),
{
    match backup_type {
        crate::engine::BackupType::Full => true,
        crate::engine::BackupType::Incremental => false,
    }
}

} // verus!

//! The filesystem watcher's filtering decision: which change events are worth
//! a snapshot. The watcher itself delivers events; this decides.

use vstd::prelude::*;
use crate::strutil::{seq_ends_with, str_ends_with};

verus! {

/// The shape of a filesystem change event, as the engine reads it.
#[derive(Clone, Copy, PartialEq, Eq, Structural, Debug)]
pub enum WatchEventKind {
    Create,
    Modify,
    Remove,
    Other,
}

/// A path an editor or tool writes transiently; changes to it are noise.
pub open spec fn is_transient_path(p: Seq<char>) -> bool {
    seq_ends_with(p, ".tmp"@) || seq_ends_with(p, ".swp"@) || seq_ends_with(p, ".lock"@)
}

/// Creations and removals always trigger; modifications trigger unless any
/// touched path is a transient file; everything else is ignored.
#[verifier::loop_isolation(false)]
pub fn should_trigger_backup(kind: WatchEventKind, paths: &Vec<String>) -> (r: bool)
    ensures
        kind is Create ==> r,
        kind is Remove ==> r,
        kind is Other ==> !r,
        kind is Modify ==> r == !(exists|i: int|
            0 <= i < paths@.len() && is_transient_path((#[trigger] paths@[i])@)),
{
    match kind {
        WatchEventKind::Create => true,
        WatchEventKind::Remove => true,
        WatchEventKind::Other => false,
        WatchEventKind::Modify => {
            let mut i: usize = 0;
            while i < paths.len()
                invariant
                    0 <= i <= paths@.len(),
                    forall|j: int| 0 <= j < i ==> !is_transient_path((#[trigger] paths@[j])@),
                decreases paths@.len() - i,
            {
                let p = paths[i].as_str();
                if str_ends_with(p, ".tmp") || str_ends_with(p, ".swp") || str_ends_with(
                    p,
                    ".lock",
                ) {
                    return false;
                }
                i = i + 1;
            }
            true
        },
    }
}

} // verus!

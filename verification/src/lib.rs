//! Incremental backup engine: snapshot planning, block-delta coding,
//! repository metadata maintenance, chain retention and restore planning,
//! all expressed over in-memory values so the logic can be verified.

use vstd::prelude::*;

pub mod chain;
pub mod config;
pub mod delta;
pub mod engine;
pub mod delta_codec;
pub mod hashing;
pub mod metadata;
pub mod restore;
pub mod runner;
pub mod strutil;
pub mod update;
pub mod watcher;

verus! {

} // verus!

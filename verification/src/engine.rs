//! The snapshot engine: change detection over the source tree, the
//! full-or-incremental decision, composing a new snapshot (copies or block
//! deltas), the hash-index update, history append, retention, and the final
//! re-synchronization of the metadata against the surviving snapshots.

use vstd::prelude::*;
use crate::chain::{cleanup_old_backups, retention_victims, snapshot_file_lookup, RepoSnapshot, SnapshotRef, StoredFile};
use crate::config::BackupMode;
use crate::delta::{create_delta, delta_of, delta_payload_size, delta_size, lemma_delta_payload_within_new};
use crate::delta_codec::{byte_chars, enc_delta, save_delta};
use crate::hashing::{sha256_hex, sha256_hex_of};
use crate::metadata::{
    append_backup_history_entry, dirs_parse_ok, entries_of_dirs, hash_lookup, hashes_insert,
    hashes_retain_current, markers_ok, parse_snapshot_name, sort_history,
    synchronize_metadata_history_with_disk, valid_ts_millis, BackupHistoryType, MetadataError,
    SnapshotDirInfo, SourceMetadata,
};
use crate::strutil::{count_char, find_char, seq_contains, seq_ends_with, seq_starts_with, str_contains, str_count_char, str_ends_with, str_eq, str_starts_with};

verus! {

/// Whether a run produced (or would produce) a complete copy of the source
/// or only the changed files.
#[derive(Clone, Copy, PartialEq, Eq, Structural, Debug)]
pub enum BackupType {
    Full,
    Incremental,
}

/// What one snapshot run reports.
#[derive(Debug)]
pub struct BackupResult {
    pub backup_dir: String,
    pub backup_type: BackupType,
    pub files_backed_up: usize,
    pub bytes_processed: u64,
    pub duration_ms: u64,
}

/// One source file as the scanner sees it: the path as observed during
/// traversal (what exclude patterns match against), the path relative to the
/// source root, and the content.
#[derive(Debug)]
pub struct SourceFile {
    pub path: String,
    pub rel_path: String,
    pub content: Vec<u8>,
}

/// The snapshot directory a run wants written.
#[derive(Debug)]
pub struct NewSnapshot {
    pub name: String,
    pub files: Vec<StoredFile>,
}

/// Everything a run decides: what to write, what to delete, and the
/// metadata to persist afterwards. `metadata` of `None` means the metadata
/// file is left untouched.
#[derive(Debug)]
pub struct BackupOutcome {
    pub backup_type: BackupType,
    pub files_backed_up: usize,
    pub bytes_processed: u64,
    pub new_snapshot: Option<NewSnapshot>,
    pub deletions: Vec<SnapshotRef>,
    pub metadata: Option<SourceMetadata>,
}

/// A pattern with exactly one `*` matches as prefix and suffix; a pattern
/// without `*` matches anywhere in the path; other patterns match nothing.
pub open spec fn pattern_matches(path: Seq<char>, pat: Seq<char>) -> bool {
    if count_char(pat, '*') == 1 {
        let i = crate::update::idx_of(pat, '*');
        seq_starts_with(path, pat.take(i)) && seq_ends_with(path, pat.skip(i + 1))
    } else if count_char(pat, '*') == 0 {
        seq_contains(path, pat)
    } else {
        false
    }
}

pub open spec fn excluded(path: Seq<char>, patterns: Seq<String>) -> bool {
    exists|p: int| 0 <= p < patterns.len() && pattern_matches(path, (#[trigger] patterns[p])@)
}

/// Whether a traversed path is excluded from the snapshot.
#[verifier::loop_isolation(false)]
pub fn should_exclude(path: &str, patterns: &Vec<String>) -> (r: bool)
    ensures
        r == excluded(path@, patterns@),
{
    let mut p: usize = 0;
    while p < patterns.len()
        invariant
            0 <= p <= patterns@.len(),
            forall|q: int| 0 <= q < p ==> !pattern_matches(path@, (#[trigger] patterns@[q])@),
        decreases patterns@.len() - p,
    {
        let pat = patterns[p].as_str();
        let stars = str_count_char(pat, '*');
        if stars == 1 {
            let i = match find_char(pat, '*') {
                Some(i) => i,
                None => {
                    proof {
                        lemma_count_char_none(pat@, '*');
                        assert(false);
                    }
                    0
                },
            };
            proof {
                crate::strutil::lemma_first_diff(pat@, pat@);
                lemma_idx_of_found(pat@, '*', i as int);
            }
            let n = pat.unicode_len();
            let prefix = pat.substring_char(0, i);
            let suffix = pat.substring_char(i + 1, n);
            proof {
                assert(prefix@ =~= pat@.take(i as int));
                assert(suffix@ =~= pat@.skip(i + 1));
            }
            if str_starts_with(path, prefix) && str_ends_with(path, suffix) {
                proof {
                    assert(pattern_matches(path@, patterns@[p as int]@));
                }
                return true;
            }
        } else if stars == 0 {
            if str_contains(path, pat) {
                proof {
                    assert(pattern_matches(path@, patterns@[p as int]@));
                }
                return true;
            }
        }
        p = p + 1;
    }
    false
}

proof fn lemma_count_char_none(s: Seq<char>, c: char)
    requires
        forall|j: int| 0 <= j < s.len() ==> s[j] != c,
    ensures
        count_char(s, c) == 0,
    decreases s.len(),
{
    if s.len() > 0 {
        assert(forall|j: int| 0 <= j < s.len() - 1 ==> s.drop_last()[j] == s[j]);
        lemma_count_char_none(s.drop_last(), c);
    }
}

proof fn lemma_idx_of_found(s: Seq<char>, c: char, i: int)
    requires
        0 <= i < s.len(),
        s[i] == c,
        forall|j: int| 0 <= j < i ==> s[j] != c,
    ensures
        crate::update::idx_of(s, c) == i,
{
    crate::update::lemma_idx_of_at(s, c, i);
}

/// The indices of the files a run works on, in traversal order: the
/// non-excluded files, all of them for a full snapshot, the changed ones
/// otherwise. A file has changed when the recorded hash of its relative
/// path differs from the hash of its content now.
#[verifier::opaque]
pub open spec fn work_indices(
    files: Seq<SourceFile>,
    patterns: Seq<String>,
    full: bool,
    prior_hashes: Seq<(String, String)>,
    upto: int,
) -> Seq<int>
    decreases upto,
{
    if upto <= 0 {
        Seq::empty()
    } else {
        let rest = work_indices(files, patterns, full, prior_hashes, upto - 1);
        let i = upto - 1;
        if !excluded(files[i].path@, patterns) && (full || hash_lookup(
            prior_hashes,
            files[i].rel_path@,
        ) != Some(sha256_hex_of(files[i].content@))) {
            rest.push(i)
        } else {
            rest
        }
    }
}

/// Walks the already-collected source files: hashes every non-excluded one,
/// decides full versus incremental from the metadata marker, and returns
/// the work list.
#[verifier::loop_isolation(false)]
#[verifier::rlimit(100)]
pub fn scan_for_changes(
    source_files: &Vec<SourceFile>,
    metadata: &SourceMetadata,
    exclude_patterns: &Vec<String>,
) -> (r: (BackupType, Vec<usize>, Vec<(String, String)>))
    ensures
        r.0 is Full <==> metadata.last_full_backup is None,
        work_view(r.1@) == work_indices(
            source_files@,
            exclude_patterns@,
            r.0 is Full,
            metadata.file_hashes@,
            source_files@.len() as int,
        ),
        forall|k: Seq<char>|
            hash_lookup(r.2@, k) is Some <==> exists|i: int|
                0 <= i < source_files@.len() && !excluded(
                    (#[trigger] source_files@[i]).path@,
                    exclude_patterns@,
                ) && source_files@[i].rel_path@ == k,
        forall|i: int|
            {
                &&& 0 <= i < source_files@.len()
                &&& !excluded((#[trigger] source_files@[i]).path@, exclude_patterns@)
                &&& forall|i2: int|
                    i < i2 < source_files@.len() ==> !(!excluded(
                        (#[trigger] source_files@[i2]).path@,
                        exclude_patterns@,
                    ) && source_files@[i2].rel_path@ == source_files@[i].rel_path@)
            } ==> hash_lookup(r.2@, source_files@[i].rel_path@) == Some(
                sha256_hex_of(source_files@[i].content@),
            ),
{
    proof {
        reveal(work_indices);
    }
    let full = match metadata.last_full_backup {
        Some(_) => false,
        None => true,
    };
    let decision = if full {
        BackupType::Full
    } else {
        BackupType::Incremental
    };
    let mut work: Vec<usize> = Vec::new();
    let mut current: Vec<(String, String)> = Vec::new();
    let mut i: usize = 0;
    while i < source_files.len()
        invariant
            0 <= i <= source_files@.len(),
            work_view(work@) == work_indices(
                source_files@,
                exclude_patterns@,
                full,
                metadata.file_hashes@,
                i as int,
            ),
            forall|k: Seq<char>|
                hash_lookup(current@, k) is Some <==> exists|i2: int|
                    0 <= i2 < i && !excluded(
                        (#[trigger] source_files@[i2]).path@,
                        exclude_patterns@,
                    ) && source_files@[i2].rel_path@ == k,
            forall|i2: int|
                {
                    &&& 0 <= i2 < i
                    &&& !excluded((#[trigger] source_files@[i2]).path@, exclude_patterns@)
                    &&& forall|i3: int|
                        i2 < i3 < i ==> !(!excluded(
                            (#[trigger] source_files@[i3]).path@,
                            exclude_patterns@,
                        ) && source_files@[i3].rel_path@ == source_files@[i2].rel_path@)
                } ==> hash_lookup(current@, source_files@[i2].rel_path@) == Some(
                    sha256_hex_of(source_files@[i2].content@),
                ),
        decreases source_files@.len() - i,
    {
        let f = &source_files[i];
        if !should_exclude(f.path.as_str(), exclude_patterns) {
            let hex = sha256_hex(&f.content);
            let changed = if full {
                true
            } else {
                match crate::metadata::hashes_find(&metadata.file_hashes, f.rel_path.as_str()) {
                    Some(hi) => !str_eq(metadata.file_hashes[hi].1.as_str(), hex.as_str()),
                    None => true,
                }
            };
            let ghost cur_before = current@;
            hashes_insert(&mut current, f.rel_path.as_str(), hex);
            proof {
                assert forall|k: Seq<char>| hash_lookup(current@, k) is Some <==> (exists|i2: int|
                    0 <= i2 < i + 1 && !excluded(
                        (#[trigger] source_files@[i2]).path@,
                        exclude_patterns@,
                    ) && source_files@[i2].rel_path@ == k) by {
                    if k == source_files@[i as int].rel_path@ {
                        assert(hash_lookup(current@, k) is Some);
                        assert(!excluded(source_files@[i as int].path@, exclude_patterns@)
                            && source_files@[i as int].rel_path@ == k);
                    } else {
                        assert(hash_lookup(current@, k) == hash_lookup(cur_before, k));
                    }
                }
            }
            if changed {
                let ghost wbefore = work_view(work@);
                work.push(i);
                proof {
                    assert(work_view(work@) =~= wbefore.push(i as int));
                }
            }
        }
        i = i + 1;
    }
    (decision, work, current)
}

/// What one changed file becomes inside an incremental delta-mode snapshot:
/// with no prior copy, a literal copy; with a prior copy, the block delta
/// when its payload stays under half the file, a literal copy otherwise.
#[verifier::opaque]
pub open spec fn stored_ok(
    prev: Option<Seq<u8>>,
    src_rel: Seq<char>,
    src_content: Seq<u8>,
    sf: StoredFile,
) -> bool {
    match prev {
        None => sf.rel_path@ == src_rel && sf.content@ == src_content,
        Some(pv) => exists|d: crate::delta::DeltaFile|
            #![trigger delta_of(d, pv, src_content)]
            {
                &&& delta_of(d, pv, src_content)
                &&& if delta_payload_size(d.changed_blocks@) < src_content.len() / 2 {
                    sf.rel_path@ == src_rel + ".delta"@ && sf.content@ == enc_delta(d)
                } else {
                    sf.rel_path@ == src_rel && sf.content@ == src_content
                }
            },
    }
}

proof fn lemma_stored_ok_delta(
    d: crate::delta::DeltaFile,
    pv: Seq<u8>,
    rel: Seq<char>,
    content: Seq<u8>,
    sf: StoredFile,
)
    requires
        delta_of(d, pv, content),
        delta_payload_size(d.changed_blocks@) < content.len() / 2,
        sf.rel_path@ == rel + ".delta"@,
        sf.content@ == enc_delta(d),
    ensures
        stored_ok(Some(pv), rel, content, sf),
{
    reveal(stored_ok);
    let p0 = Some(pv);
    assert(p0->0 == pv);
    assert(delta_of(d, p0->0, content));
}

proof fn lemma_stored_ok_literal(
    d: crate::delta::DeltaFile,
    pv: Seq<u8>,
    rel: Seq<char>,
    content: Seq<u8>,
    sf: StoredFile,
)
    requires
        delta_of(d, pv, content),
        !(delta_payload_size(d.changed_blocks@) < content.len() / 2),
        sf.rel_path@ == rel,
        sf.content@ == content,
    ensures
        stored_ok(Some(pv), rel, content, sf),
{
    reveal(stored_ok);
    let p0 = Some(pv);
    assert(p0->0 == pv);
    assert(delta_of(d, p0->0, content));
}

/// The work list as spec indices.
pub open spec fn work_view(work: Seq<usize>) -> Seq<int> {
    Seq::new(work.len(), |q: int| work[q] as int)
}

/// The relative path of the `q`-th worked file.
pub open spec fn worked_rel(files: Seq<SourceFile>, work: Seq<int>, q: int) -> Seq<char> {
    files[work[q]].rel_path@
}

/// Bytes one stored snapshot file accounts for, given the source file it
/// came from: a literal copy counts its full length, a delta record the
/// payload its parsed form carries.
pub open spec fn entry_accounted(sf: StoredFile, src_rel: Seq<char>, src_content: Seq<u8>) -> nat {
    if sf.rel_path@ == src_rel {
        src_content.len()
    } else {
        match crate::delta_codec::parse_delta(sf.content@) {
            Some(v) => crate::delta_codec::view_payload(v.4),
            None => 0,
        }
    }
}

/// The byte accounting of a run: each stored file measured against the
/// source file at the matching work position, saturating.
pub open spec fn work_accounted_sum(
    stored: Seq<StoredFile>,
    work: Seq<int>,
    files: Seq<SourceFile>,
) -> u64
    decreases stored.len(),
{
    if stored.len() == 0 {
        0
    } else {
        let q = stored.len() - 1;
        sat_add(
            work_accounted_sum(stored.drop_last(), work, files),
            entry_accounted(stored.last(), files[work[q]].rel_path@, files[work[q]].content@),
        )
    }
}

/// Some retention victim carries this name.
pub open spec fn name_among_refs(refs: Seq<SnapshotRef>, name: Seq<char>) -> bool {
    exists|v: int| 0 <= v < refs.len() && (#[trigger] refs[v]).name@ == name
}

/// The directory summaries retention spared, in order.
pub open spec fn kept_infos(infos: Seq<SnapshotDirInfo>, victims: Seq<SnapshotRef>) -> Seq<
    SnapshotDirInfo,
>
    decreases infos.len(),
{
    if infos.len() == 0 {
        Seq::empty()
    } else {
        let rest = kept_infos(infos.drop_last(), victims);
        if name_among_refs(victims, infos.last().name@) {
            rest
        } else {
            rest.push(infos.last())
        }
    }
}

/// What remains on disk after a run: the spared prior snapshots plus the
/// newly written one, as directory summaries.
pub open spec fn surviving_infos(
    snaps: Seq<RepoSnapshot>,
    victims: Seq<SnapshotRef>,
    ns: NewSnapshot,
) -> Seq<SnapshotDirInfo> {
    kept_infos(dir_infos_of(snaps), victims).push(
        SnapshotDirInfo {
            name: ns.name,
            files: ns.files@.len() as usize,
            bytes: stored_bytes(ns.files@),
        },
    )
}

/// Work positions name strictly increasing, non-excluded files.
pub proof fn lemma_work_indices_props(
    files: Seq<SourceFile>,
    patterns: Seq<String>,
    full: bool,
    ph: Seq<(String, String)>,
    upto: int,
)
    requires
        upto <= files.len(),
    ensures
        ({
            let w = work_indices(files, patterns, full, ph, upto);
            &&& forall|q1: int, q2: int| 0 <= q1 < q2 < w.len() ==> #[trigger] w[q1] < #[trigger] w[q2]
            &&& forall|q: int|
                0 <= q < w.len() ==> !excluded(files[#[trigger] w[q]].path@, patterns)
        }),
    decreases upto,
{
    reveal(work_indices);
    if upto > 0 {
        lemma_work_indices_props(files, patterns, full, ph, upto - 1);
        lemma_work_indices_range(files, patterns, full, ph, upto - 1);
        let rest = work_indices(files, patterns, full, ph, upto - 1);
        let whole = work_indices(files, patterns, full, ph, upto);
        assert(forall|q: int| 0 <= q < rest.len() ==> whole[q] == rest[q]);
    }
}

/// The most recent prior snapshot holding a literal file at this relative
/// path: the greatest modification time wins, ties keep the earliest listed.
pub open spec fn prev_literal_lookup(snaps: Seq<RepoSnapshot>, rel: Seq<char>) -> Option<Seq<u8>>
    decreases snaps.len(),
{
    if snaps.len() == 0 {
        None
    } else {
        let rest = prev_literal_lookup(snaps.drop_last(), rel);
        let last = snaps.last();
        if crate::chain::is_snapshot_name(last.name@) && snapshot_file_lookup(
            last.files@,
            rel,
        ) is Some {
            match best_prev_mtime(snaps.drop_last(), rel) {
                Some(m) => if m >= last.mtime {
                    rest
                } else {
                    snapshot_file_lookup(last.files@, rel)
                },
                None => snapshot_file_lookup(last.files@, rel),
            }
        } else {
            rest
        }
    }
}

/// The modification time of the snapshot `prev_literal_lookup` picks.
pub open spec fn best_prev_mtime(snaps: Seq<RepoSnapshot>, rel: Seq<char>) -> Option<u64>
    decreases snaps.len(),
{
    if snaps.len() == 0 {
        None
    } else {
        let rest = best_prev_mtime(snaps.drop_last(), rel);
        let last = snaps.last();
        if crate::chain::is_snapshot_name(last.name@) && snapshot_file_lookup(
            last.files@,
            rel,
        ) is Some {
            match rest {
                Some(m) => if m >= last.mtime {
                    Some(m)
                } else {
                    Some(last.mtime)
                },
                None => Some(last.mtime),
            }
        } else {
            rest
        }
    }
}

/// Finds the content of the most recent prior literal copy of a file.
#[verifier::loop_isolation(false)]
#[verifier::rlimit(60)]
pub fn find_latest_backup_file(snapshots: &Vec<RepoSnapshot>, rel: &str) -> (r: Option<Vec<u8>>)
    ensures
        match r {
            Some(c) => prev_literal_lookup(snapshots@, rel@) == Some(c@),
            None => prev_literal_lookup(snapshots@, rel@) is None,
        },
{
    let mut best: Option<(usize, u64)> = None;
    let mut i: usize = 0;
    while i < snapshots.len()
        invariant
            0 <= i <= snapshots@.len(),
            match best {
                Some((bi, bm)) => {
                    &&& bi < snapshots@.len()
                    &&& best_prev_mtime(snapshots@.take(i as int), rel@) == Some(bm)
                    &&& bm == snapshots@[bi as int].mtime
                    &&& prev_literal_lookup(snapshots@.take(i as int), rel@)
                        == snapshot_file_lookup(snapshots@[bi as int].files@, rel@)
                    &&& snapshot_file_lookup(snapshots@[bi as int].files@, rel@) is Some
                },
                None => {
                    &&& best_prev_mtime(snapshots@.take(i as int), rel@) is None
                    &&& prev_literal_lookup(snapshots@.take(i as int), rel@) is None
                },
            },
        decreases snapshots@.len() - i,
    {
        proof {
            assert(snapshots@.take(i + 1).drop_last() =~= snapshots@.take(i as int));
            assert(snapshots@.take(i + 1).last() == snapshots@[i as int]);
        }
        let s = &snapshots[i];
        let eligible = str_starts_with(s.name.as_str(), "full_") || str_starts_with(
            s.name.as_str(),
            "inc_",
        );
        if eligible {
            match crate::chain::snapshot_find_file(&s.files, rel) {
                Some(_) => {
                    let take = match best {
                        Some((_, bm)) => bm < s.mtime,
                        None => true,
                    };
                    if take {
                        best = Some((i, s.mtime));
                    }
                },
                None => {},
            }
        }
        i = i + 1;
    }
    proof {
        assert(snapshots@.take(snapshots@.len() as int) =~= snapshots@);
    }
    match best {
        Some((bi, _)) => {
            match crate::chain::snapshot_find_file(&snapshots[bi].files, rel) {
                Some(fi) => Some(
                    crate::delta::subrange_vec(
                        &snapshots[bi].files[fi].content,
                        0,
                        snapshots[bi].files[fi].content.len(),
                    ),
                ),
                None => {
                    proof {
                        assert(false);
                    }
                    None
                },
            }
        },
        None => None,
    }
}

/// Saturating byte totals: what the engine records as a snapshot's size.
pub open spec fn sat_add(a: u64, b: nat) -> u64 {
    if a + b > u64::MAX {
        u64::MAX
    } else {
        (a + b) as u64
    }
}

/// The bytes a snapshot directory holds, saturating at the counter's range.
pub open spec fn stored_bytes(files: Seq<StoredFile>) -> u64
    decreases files.len(),
{
    if files.len() == 0 {
        0
    } else {
        sat_add(stored_bytes(files.drop_last()), files.last().content@.len())
    }
}

/// The directory summaries the metadata store reconciles against: one per
/// prior snapshot.
pub open spec fn dir_infos_of(snaps: Seq<RepoSnapshot>) -> Seq<SnapshotDirInfo> {
    Seq::new(
        snaps.len(),
        |i: int|
            SnapshotDirInfo {
                name: snaps[i].name,
                files: snaps[i].files@.len() as usize,
                bytes: stored_bytes(snaps[i].files@),
            },
    )
}

fn stored_bytes_exec(files: &Vec<StoredFile>) -> (r: u64)
    ensures
        r == stored_bytes(files@),
{
    let mut total: u64 = 0;
    let mut i: usize = 0;
    while i < files.len()
        invariant
            0 <= i <= files@.len(),
            total == stored_bytes(files@.take(i as int)),
        decreases files@.len() - i,
    {
        proof {
            assert(files@.take(i + 1).drop_last() =~= files@.take(i as int));
            assert(files@.take(i + 1).last() == files@[i as int]);
        }
        let len = files[i].content.len() as u64;
        if len <= u64::MAX - total {
            total = total + len;
        } else {
            total = u64::MAX;
        }
        i = i + 1;
    }
    proof {
        assert(files@.take(files@.len() as int) =~= files@);
    }
    total
}

fn build_dir_infos(snaps: &Vec<RepoSnapshot>) -> (r: Vec<SnapshotDirInfo>)
    ensures
        r@ == dir_infos_of(snaps@),
{
    let mut r: Vec<SnapshotDirInfo> = Vec::new();
    let mut i: usize = 0;
    while i < snaps.len()
        invariant
            0 <= i <= snaps@.len(),
            r@.len() == i,
            forall|k: int| 0 <= k < i ==> #[trigger] r@[k] == dir_infos_of(snaps@)[k],
        decreases snaps@.len() - i,
    {
        let bytes = stored_bytes_exec(&snaps[i].files);
        r.push(SnapshotDirInfo { name: snaps[i].name.clone(), files: snaps[i].files.len(), bytes });
        i = i + 1;
    }
    proof {
        assert(r@ =~= dir_infos_of(snaps@));
    }
    r
}

/// No two source files share a relative path, as a filesystem walk
/// guarantees.
pub open spec fn unique_rel_paths(files: Seq<SourceFile>) -> bool {
    forall|i: int, j: int|
        0 <= i < j < files.len() ==> (#[trigger] files[i]).rel_path@ != (
        #[trigger] files[j]).rel_path@
}

/// Whether the collected source files carry pairwise distinct relative
/// paths, as a filesystem walk guarantees and the engine requires.
#[verifier::loop_isolation(false)]
pub fn rel_paths_unique(source_files: &Vec<SourceFile>) -> (r: bool)
    ensures
        r == unique_rel_paths(source_files@),
{
    let n = source_files.len();
    let mut i: usize = 0;
    while i < n
        invariant
            0 <= i <= n,
            n == source_files@.len(),
            forall|a: int, b: int|
                0 <= a < b < source_files@.len() && b < i ==> (#[trigger] source_files@[a]).rel_path@
                    != (#[trigger] source_files@[b]).rel_path@,
        decreases n - i,
    {
        let mut j: usize = 0;
        while j < i
            invariant
                0 <= j <= i < n,
                forall|a: int|
                    0 <= a < j ==> (#[trigger] source_files@[a]).rel_path@
                        != source_files@[i as int].rel_path@,
            decreases i - j,
        {
            if str_eq(source_files[j].rel_path.as_str(), source_files[i].rel_path.as_str()) {
                return false;
            }
            j = j + 1;
        }
        i = i + 1;
    }
    true
}

/// No entry of the history is a full snapshot.
pub open spec fn no_full_in(h: Seq<crate::metadata::BackupHistoryEntry>) -> bool {
    forall|i: int| 0 <= i < h.len() ==> !((#[trigger] h[i]).backup_type is Full)
}

/// The disk holds no full snapshot: what upgrades the first run to full.
pub open spec fn disk_has_no_full(infos: Seq<SnapshotDirInfo>) -> bool {
    no_full_in(sort_history(entries_of_dirs(infos)))
}

pub proof fn lemma_work_indices_range(
    files: Seq<SourceFile>,
    patterns: Seq<String>,
    full: bool,
    ph: Seq<(String, String)>,
    upto: int,
)
    requires
        upto <= files.len(),
    ensures
        forall|q: int|
            0 <= q < work_indices(files, patterns, full, ph, upto).len() ==> 0 <= #[trigger] work_indices(
                files,
                patterns,
                full,
                ph,
                upto,
            )[q] < upto,
    decreases upto,
{
    reveal(work_indices);
    if upto > 0 {
        lemma_work_indices_range(files, patterns, full, ph, upto - 1);
        let rest = work_indices(files, patterns, full, ph, upto - 1);
        let whole = work_indices(files, patterns, full, ph, upto);
        assert forall|q: int| 0 <= q < whole.len() implies 0 <= #[trigger] whole[q] < upto by {
            if q < rest.len() {
                assert(whole[q] == rest[q]);
            }
        }
    }
}

proof fn lemma_work_indices_same_hashes(
    files: Seq<SourceFile>,
    patterns: Seq<String>,
    full: bool,
    ph1: Seq<(String, String)>,
    ph2: Seq<(String, String)>,
    upto: int,
)
    requires
        ph1 == ph2,
    ensures
        work_indices(files, patterns, full, ph1, upto) == work_indices(
            files,
            patterns,
            full,
            ph2,
            upto,
        ),
{
}

proof fn lemma_worked_hash_step(
    files: Seq<SourceFile>,
    wspec: Seq<int>,
    k: int,
    pre: Seq<(String, String)>,
    post: Seq<(String, String)>,
    hashes0: Seq<(String, String)>,
)
    requires
        unique_rel_paths(files),
        0 <= k < wspec.len(),
        forall|q: int| 0 <= q < wspec.len() ==> 0 <= #[trigger] wspec[q] < files.len(),
        forall|q1: int, q2: int|
            0 <= q1 < q2 < wspec.len() ==> #[trigger] wspec[q1] < #[trigger] wspec[q2],
        hash_lookup(post, files[wspec[k]].rel_path@) == Some(
            sha256_hex_of(files[wspec[k]].content@),
        ),
        forall|k2: Seq<char>|
            k2 != files[wspec[k]].rel_path@ ==> #[trigger] hash_lookup(post, k2) == hash_lookup(
                pre,
                k2,
            ),
        forall|q: int|
            0 <= q < k ==> hash_lookup(pre, #[trigger] worked_rel(files, wspec, q)) == Some(
                sha256_hex_of(files[wspec[q]].content@),
            ),
        forall|k2: Seq<char>|
            (forall|q: int| 0 <= q < k ==> #[trigger] worked_rel(files, wspec, q) != k2)
                ==> #[trigger] hash_lookup(pre, k2) == hash_lookup(hashes0, k2),
    ensures
        forall|q: int|
            0 <= q < k + 1 ==> hash_lookup(post, #[trigger] worked_rel(files, wspec, q)) == Some(
                sha256_hex_of(files[wspec[q]].content@),
            ),
        forall|k2: Seq<char>|
            (forall|q: int| 0 <= q < k + 1 ==> #[trigger] worked_rel(files, wspec, q) != k2)
                ==> #[trigger] hash_lookup(post, k2) == hash_lookup(hashes0, k2),
{
    assert forall|q: int| 0 <= q < k + 1 implies hash_lookup(
        post,
        #[trigger] worked_rel(files, wspec, q),
    ) == Some(sha256_hex_of(files[wspec[q]].content@)) by {
        if q < k {
            assert(wspec[q] < wspec[k]);
            assert(worked_rel(files, wspec, q) != files[wspec[k]].rel_path@);
        } else {
            assert(worked_rel(files, wspec, q) == files[wspec[k]].rel_path@);
        }
    }
    assert forall|k2: Seq<char>|
        (forall|q: int| 0 <= q < k + 1 ==> #[trigger] worked_rel(files, wspec, q) != k2) implies #[trigger] hash_lookup(
        post,
        k2,
    ) == hash_lookup(hashes0, k2) by {
        assert(worked_rel(files, wspec, k) != k2);
    }
}

proof fn lemma_work_indices_full_any(
    files: Seq<SourceFile>,
    patterns: Seq<String>,
    ph1: Seq<(String, String)>,
    ph2: Seq<(String, String)>,
    upto: int,
)
    ensures
        work_indices(files, patterns, true, ph1, upto) == work_indices(
            files,
            patterns,
            true,
            ph2,
            upto,
        ),
    decreases upto,
{
    reveal(work_indices);
    if upto > 0 {
        lemma_work_indices_full_any(files, patterns, ph1, ph2, upto - 1);
    }
}

proof fn lemma_snapshot_name_parses(prefix_full: bool, name: Seq<char>, ts: Seq<char>)
    requires
        valid_ts_millis(ts),
        prefix_full ==> name == "full_"@ + ts,
        !prefix_full ==> name == "inc_"@ + ts,
    ensures
        parse_snapshot_name(name) matches Some((k, v)) && v == crate::metadata::ts_value(ts) && (
        prefix_full <==> k is Full),
{
    reveal_strlit("full_");
    reveal_strlit("inc_");
    if prefix_full {
        assert(name.subrange(0, 5) =~= "full_"@);
        assert(crate::strutil::seq_starts_with(name, "full_"@));
        assert(name.skip(5) =~= ts);
    } else {
        assert(name.subrange(0, 4) =~= "inc_"@);
        assert(crate::strutil::seq_starts_with(name, "inc_"@));
        assert(!crate::strutil::seq_starts_with(name, "full_"@)) by {
            if crate::strutil::seq_starts_with(name, "full_"@) {
                assert(name.subrange(0, 5)[0] == 'f');
                assert(name[0] == 'i');
            }
        }
        assert(name.skip(4) =~= ts);
    }
}

/// One run of the snapshot engine over a repository, from the in-memory view
/// of the source and the repository to everything the run decides: the
/// snapshot to write, the snapshots retention removes, and the metadata to
/// persist. The caller performs the writes in that order, writing the
/// metadata last, so a crash leaves the prior metadata authoritative.
///
/// The run fails only when a prior snapshot directory name is malformed;
/// that failure makes the next run force a full snapshot. An incremental
/// run with nothing changed writes no snapshot; the metadata it returns
/// still drops hashes of deleted paths.
#[verifier::loop_isolation(false)]
#[verifier::rlimit(100)]
pub fn perform_backup(
    source_files: &Vec<SourceFile>,
    exclude_patterns: &Vec<String>,
    prior_snapshots: &Vec<RepoSnapshot>,
    metadata0: SourceMetadata,
    max_backups: usize,
    mode: BackupMode,
    force_full: bool,
    now_ts: &str,
    now_mtime: u64,
) -> (r: Result<BackupOutcome, MetadataError>)
    requires
        valid_ts_millis(now_ts@),
        unique_rel_paths(source_files@),
    ensures
        r is Err ==> !dirs_parse_ok(dir_infos_of(prior_snapshots@)),
        r matches Ok(o) ==> {
            let infos = dir_infos_of(prior_snapshots@);
            let full = o.backup_type is Full;
            let work = work_indices(
                source_files@,
                exclude_patterns@,
                full,
                metadata0.file_hashes@,
                source_files@.len() as int,
            );
            &&& dirs_parse_ok(infos)
            &&& (full <==> force_full || disk_has_no_full(infos))
            &&& (o.new_snapshot is None <==> !full && work.len() == 0)
            &&& o.files_backed_up == (if !full && work.len() == 0 {
                0int
            } else {
                work.len() as int
            })
            &&& (o.new_snapshot matches Some(ns) ==> {
                &&& ns.name@ == (if full {
                    "full_"@ + now_ts@
                } else {
                    "inc_"@ + now_ts@
                })
                &&& ns.files@.len() == work.len()
                &&& forall|k: int|
                    0 <= k < work.len() ==> {
                        let i = work[k];
                        let f = source_files@[i];
                        if mode is Delta && !full {
                            stored_ok(
                                prev_literal_lookup(prior_snapshots@, f.rel_path@),
                                f.rel_path@,
                                f.content@,
                                #[trigger] ns.files@[k],
                            )
                        } else {
                            ns.files@[k].rel_path@ == f.rel_path@ && ns.files@[k].content@
                                == f.content@
                        }
                    }
                &&& o.deletions@ == retention_victims(
                    dir_refs_of(prior_snapshots@).push(
                        SnapshotRef { name: ns.name, mtime: now_mtime },
                    ),
                    max_backups as int,
                    mode,
                )
            })
            &&& (o.new_snapshot is None ==> o.deletions@.len() == 0 && o.bytes_processed == 0)
            &&& (o.new_snapshot matches Some(ns) ==> o.bytes_processed == work_accounted_sum(
                ns.files@,
                work,
                source_files@,
            ))
            &&& (o.metadata matches Some(m) && {
                &&& markers_ok(&m)
                // The hash index holds exactly the currently present paths:
                // worked ones at their new digests, untouched ones at their
                // prior digests, everything else gone.
                &&& forall|q: int|
                    0 <= q < work.len() ==> hash_lookup(
                        m.file_hashes@,
                        #[trigger] worked_rel(source_files@, work, q),
                    ) == Some(sha256_hex_of(source_files@[work[q]].content@))
                &&& forall|i: int|
                    0 <= i < source_files@.len() && !excluded(
                        (#[trigger] source_files@[i]).path@,
                        exclude_patterns@,
                    ) && !work.contains(i) ==> hash_lookup(m.file_hashes@, source_files@[i].rel_path@)
                        == hash_lookup(metadata0.file_hashes@, source_files@[i].rel_path@)
                &&& forall|k2: Seq<char>|
                    (forall|i: int|
                        0 <= i < source_files@.len() ==> !(!excluded(
                            (#[trigger] source_files@[i]).path@,
                            exclude_patterns@,
                        ) && source_files@[i].rel_path@ == k2)) ==> hash_lookup(
                        m.file_hashes@,
                        k2,
                    ) is None
                // The history mirrors what remains on disk.
                &&& (o.new_snapshot is None ==> m.backup_history@ == sort_history(
                    entries_of_dirs(dir_infos_of(prior_snapshots@)),
                ))
                &&& (o.new_snapshot matches Some(ns) ==> m.backup_history@ == sort_history(
                    entries_of_dirs(surviving_infos(prior_snapshots@, o.deletions@, ns)),
                ))
            })
        },
{
    let infos = build_dir_infos(prior_snapshots);
    let mut metadata = metadata0;
    match synchronize_metadata_history_with_disk(&mut metadata, &infos) {
        Ok(()) => {},
        Err(e) => {
            return Err(e);
        },
    }
    let (decision0, work0, current) = scan_for_changes(source_files, &metadata, exclude_patterns);
    let was_full = match decision0 {
        BackupType::Full => true,
        BackupType::Incremental => false,
    };
    proof {
        // The scanner's decision marker comes from the reconciled history:
        // absent exactly when no full snapshot is on disk.
        let h = metadata.backup_history@;
        if metadata.last_full_backup is None {
            assert(no_full_in(h));
        } else {
            assert(!no_full_in(h));
        }
    }
    let is_full = force_full || was_full;
    let work: Vec<usize> = if is_full && !was_full {
        let blank = SourceMetadata {
            last_full_backup: None,
            last_backup: None,
            file_hashes: Vec::new(),
            backup_history: Vec::new(),
        };
        proof {
            assert(blank.file_hashes@ =~= Seq::<(String, String)>::empty());
        }
        let (_, wall, _) = scan_for_changes(source_files, &blank, exclude_patterns);
        proof {
            lemma_work_indices_full_any(
                source_files@,
                exclude_patterns@,
                blank.file_hashes@,
                metadata0.file_hashes@,
                source_files@.len() as int,
            );
            assert(work_view(wall@) == work_indices(
                source_files@,
                exclude_patterns@,
                true,
                metadata0.file_hashes@,
                source_files@.len() as int,
            ));
        }
        wall
    } else {
        work0
    };
    proof {
        assert(metadata.file_hashes@ == metadata0.file_hashes@);
        if is_full && was_full {
            lemma_work_indices_full_any(
                source_files@,
                exclude_patterns@,
                metadata.file_hashes@,
                metadata0.file_hashes@,
                source_files@.len() as int,
            );
        }
    }
    let ghost hashes0 = metadata0.file_hashes@;
    let ghost wspec = work_view(work@);
    proof {
        assert(metadata.file_hashes@ == hashes0);
        lemma_work_indices_props(
            source_files@,
            exclude_patterns@,
            is_full,
            metadata0.file_hashes@,
            source_files@.len() as int,
        );
        lemma_work_indices_props(
            source_files@,
            exclude_patterns@,
            is_full,
            Seq::empty(),
            source_files@.len() as int,
        );
    }
    if !is_full && work.len() == 0 {
        let ghost pre_retain = metadata.file_hashes@;
        hashes_retain_current(&mut metadata.file_hashes, &current);
        proof {
            assert forall|k2: Seq<char>| true implies hash_lookup(metadata.file_hashes@, k2) == (
            if hash_lookup(current@, k2) is Some {
                hash_lookup(pre_retain, k2)
            } else {
                None
            }) by {
                crate::metadata::lemma_lookup_live(pre_retain, current@, k2);
            }
        }
        return Ok(
            BackupOutcome {
                backup_type: BackupType::Incremental,
                files_backed_up: 0,
                bytes_processed: 0,
                new_snapshot: None,
                deletions: Vec::new(),
                metadata: Some(metadata),
            },
        );
    }
    let kind = if is_full {
        BackupType::Full
    } else {
        BackupType::Incremental
    };
    let name = if is_full {
        String::from_str("full_").concat(now_ts)
    } else {
        String::from_str("inc_").concat(now_ts)
    };
    proof {
        lemma_snapshot_name_parses(is_full, name@, now_ts@);
    }
    let created_at = match crate::metadata::parse_backup_created_at(name.as_str()) {
        Some(v) => v,
        None => {
            proof {
                assert(false);
            }
            0
        },
    };
    let use_delta = match mode {
        BackupMode::Delta => !is_full,
        BackupMode::Copy => false,
    };
    proof {
        assert(wspec == work_view(work@));
        assert(metadata.file_hashes@ == metadata0.file_hashes@);
        assert(work_view(work@) == work_indices(
            source_files@,
            exclude_patterns@,
            is_full,
            metadata.file_hashes@,
            source_files@.len() as int,
        ));
        lemma_work_indices_same_hashes(
            source_files@,
            exclude_patterns@,
            is_full,
            metadata.file_hashes@,
            metadata0.file_hashes@,
            source_files@.len() as int,
        );
        lemma_work_indices_range(
            source_files@,
            exclude_patterns@,
            is_full,
            metadata0.file_hashes@,
            source_files@.len() as int,
        );
        lemma_work_indices_props(
            source_files@,
            exclude_patterns@,
            is_full,
            metadata0.file_hashes@,
            source_files@.len() as int,
        );
        let w = work_indices(
            source_files@,
            exclude_patterns@,
            is_full,
            metadata0.file_hashes@,
            source_files@.len() as int,
        );
        assert(wspec == w);
        assert forall|q: int| 0 <= q < wspec.len() implies 0 <= #[trigger] wspec[q]
            < source_files@.len() by {
            assert(wspec[q] == w[q]);
        }
        assert forall|q1: int, q2: int|
            0 <= q1 < q2 < wspec.len() implies #[trigger] wspec[q1] < #[trigger] wspec[q2] by {
            assert(wspec[q1] == w[q1] && wspec[q2] == w[q2]);
        }
        assert forall|q: int| 0 <= q < wspec.len() implies !excluded(
            source_files@[#[trigger] wspec[q]].path@,
            exclude_patterns@,
        ) by {
            assert(wspec[q] == w[q]);
        }
    }
    let ghost pre_build = metadata.file_hashes@;
    proof {
        assert(pre_build == hashes0);
    }
    let (files_out, bytes_processed) = build_snapshot_files(
        source_files,
        &work,
        prior_snapshots,
        use_delta,
        &mut metadata.file_hashes,
    );
    let ghost pre_retain = metadata.file_hashes@;
    hashes_retain_current(&mut metadata.file_hashes, &current);
    proof {
        assert forall|k2: Seq<char>| true implies hash_lookup(metadata.file_hashes@, k2) == (
        if hash_lookup(current@, k2) is Some {
            hash_lookup(pre_retain, k2)
        } else {
            None
        }) by {
            crate::metadata::lemma_lookup_live(pre_retain, current@, k2);
        }
        // Worked paths: present in the current scan, carrying the new digest.
        assert forall|q: int| 0 <= q < wspec.len() implies hash_lookup(
            metadata.file_hashes@,
            #[trigger] worked_rel(source_files@, wspec, q),
        ) == Some(sha256_hex_of(source_files@[wspec[q]].content@)) by {
            let i = wspec[q];
            assert(!excluded(source_files@[i].path@, exclude_patterns@));
            assert(exists|i2: int|
                0 <= i2 < source_files@.len() && !excluded(
                    (#[trigger] source_files@[i2]).path@,
                    exclude_patterns@,
                ) && source_files@[i2].rel_path@ == source_files@[i].rel_path@) by {
                assert(!excluded(source_files@[i].path@, exclude_patterns@)
                    && source_files@[i].rel_path@ == source_files@[i].rel_path@);
            }
        }
        // Untouched present paths keep their prior digests.
        assert forall|i: int|
            0 <= i < source_files@.len() && !excluded(
                (#[trigger] source_files@[i]).path@,
                exclude_patterns@,
            ) && !wspec.contains(i) implies hash_lookup(
            metadata.file_hashes@,
            source_files@[i].rel_path@,
        ) == hash_lookup(hashes0, source_files@[i].rel_path@) by {
            assert forall|q: int|
                0 <= q < wspec.len() implies #[trigger] worked_rel(source_files@, wspec, q)
                != source_files@[i].rel_path@ by {
                assert(wspec[q] != i);
            }
            assert(hash_lookup(pre_retain, source_files@[i].rel_path@) == hash_lookup(
                pre_build,
                source_files@[i].rel_path@,
            ));
            assert(exists|i2: int|
                0 <= i2 < source_files@.len() && !excluded(
                    (#[trigger] source_files@[i2]).path@,
                    exclude_patterns@,
                ) && source_files@[i2].rel_path@ == source_files@[i].rel_path@) by {
                assert(!excluded(source_files@[i].path@, exclude_patterns@)
                    && source_files@[i].rel_path@ == source_files@[i].rel_path@);
            }
        }
        // Paths no longer present are gone.
        assert forall|k2: Seq<char>|
            (forall|i: int|
                0 <= i < source_files@.len() ==> !(!excluded(
                    (#[trigger] source_files@[i]).path@,
                    exclude_patterns@,
                ) && source_files@[i].rel_path@ == k2)) implies hash_lookup(
            metadata.file_hashes@,
            k2,
        ) is None by {
            assert(hash_lookup(current@, k2) is None);
        }
    }
    let ghost hashes_done = metadata.file_hashes@;
    let hist_kind = if is_full {
        BackupHistoryType::Full
    } else {
        BackupHistoryType::Incremental
    };
    append_backup_history_entry(
        &mut metadata,
        name.as_str(),
        hist_kind,
        created_at,
        files_out.len(),
        bytes_processed,
    );
    // Retention sees every snapshot directory, the new one included.
    let mut refs: Vec<SnapshotRef> = Vec::new();
    let mut i: usize = 0;
    while i < prior_snapshots.len()
        invariant
            0 <= i <= prior_snapshots@.len(),
            refs@.len() == i,
            forall|q: int| 0 <= q < i ==> #[trigger] refs@[q] == dir_refs_of(prior_snapshots@)[q],
        decreases prior_snapshots@.len() - i,
    {
        refs.push(
            SnapshotRef { name: prior_snapshots[i].name.clone(), mtime: prior_snapshots[i].mtime },
        );
        i = i + 1;
    }
    refs.push(SnapshotRef { name: name.clone(), mtime: now_mtime });
    proof {
        assert(refs@ =~= dir_refs_of(prior_snapshots@).push(
            SnapshotRef { name: name, mtime: now_mtime },
        ));
    }
    let ghost refs_view = refs@;
    let victims = cleanup_old_backups(refs, max_backups, mode);
    // Reconcile the metadata against what will remain on disk: the prior
    // snapshots retention spared, plus the new one.
    let mut survivors: Vec<SnapshotDirInfo> = Vec::new();
    proof {
        assert(infos@.take(0) =~= Seq::<SnapshotDirInfo>::empty());
    }
    let mut i: usize = 0;
    while i < infos.len()
        invariant
            0 <= i <= infos@.len(),
            infos@ == dir_infos_of(prior_snapshots@),
            dirs_parse_ok(infos@),
            survivors@ == kept_infos(infos@.take(i as int), victims@),
            forall|q: int|
                0 <= q < survivors@.len() ==> crate::metadata::dir_eligible(
                    #[trigger] survivors@[q],
                ) ==> parse_snapshot_name(survivors@[q].name@) is Some,
        decreases infos@.len() - i,
    {
        proof {
            assert(infos@.take(i + 1).drop_last() =~= infos@.take(i as int));
            assert(infos@.take(i + 1).last() == infos@[i as int]);
        }
        let mut doomed = false;
        let mut v: usize = 0;
        while v < victims.len() && !doomed
            invariant
                0 <= v <= victims@.len(),
                0 <= i < infos@.len(),
                !doomed ==> forall|v2: int|
                    0 <= v2 < v ==> (#[trigger] victims@[v2]).name@ != infos@[i as int].name@,
                doomed ==> name_among_refs(victims@, infos@[i as int].name@),
            decreases victims@.len() - v,
        {
            if str_eq(victims[v].name.as_str(), infos[i].name.as_str()) {
                doomed = true;
            }
            v = v + 1;
        }
        if !doomed {
            let kept = SnapshotDirInfo {
                name: infos[i].name.clone(),
                files: infos[i].files,
                bytes: infos[i].bytes,
            };
            proof {
                assert(kept == infos@[i as int]);
                assert(!name_among_refs(victims@, infos@[i as int].name@));
            }
            survivors.push(kept);
        }
        i = i + 1;
    }
    proof {
        assert(infos@.take(infos@.len() as int) =~= infos@);
    }
    survivors.push(
        SnapshotDirInfo { name: name.clone(), files: files_out.len(), bytes: stored_bytes_exec(
            &files_out,
        ) },
    );
    proof {
        assert(dirs_parse_ok(survivors@)) by {
            assert(forall|q: int|
                0 <= q < survivors@.len() - 1 ==> crate::metadata::dir_eligible(
                    #[trigger] survivors@[q],
                ) ==> parse_snapshot_name(survivors@[q].name@) is Some);
            assert(parse_snapshot_name(survivors@[survivors@.len() - 1].name@) is Some);
        }
    }
    match synchronize_metadata_history_with_disk(&mut metadata, &survivors) {
        Ok(()) => {},
        Err(e) => {
            proof {
                assert(false);
            }
            return Err(e);
        },
    }
    let ns = NewSnapshot { name, files: files_out };
    proof {
        assert(survivors@ =~= surviving_infos(prior_snapshots@, victims@, ns));
        assert(metadata.file_hashes@ == hashes_done);
    }
    Ok(
        BackupOutcome {
            backup_type: kind,
            files_backed_up: ns.files.len(),
            bytes_processed,
            new_snapshot: Some(ns),
            deletions: victims,
            metadata: Some(metadata),
        },
    )
}


/// Composes the stored files of one run: for each work position, a literal
/// copy or (in delta mode) the serialized delta against the most recent
/// prior literal copy when its payload stays under half the file. Records
/// every worked file's new digest in the hash index and accounts the bytes.
#[verifier::loop_isolation(false)]
#[verifier::rlimit(100)]
#[verifier::spinoff_prover]
fn build_snapshot_files(
    source_files: &Vec<SourceFile>,
    work: &Vec<usize>,
    prior_snapshots: &Vec<RepoSnapshot>,
    use_delta: bool,
    hashes: &mut Vec<(String, String)>,
) -> (r: (Vec<StoredFile>, u64))
    requires
        unique_rel_paths(source_files@),
        ({
            let wspec = work_view(work@);
            &&& forall|q: int| 0 <= q < wspec.len() ==> 0 <= #[trigger] wspec[q] < source_files@.len()
            &&& forall|q1: int, q2: int|
                0 <= q1 < q2 < wspec.len() ==> #[trigger] wspec[q1] < #[trigger] wspec[q2]
        }),
    ensures
        ({
            let wspec = work_view(work@);
            &&& r.0@.len() == work@.len()
            &&& forall|q: int|
                0 <= q < wspec.len() ==> {
                    let f = source_files@[wspec[q]];
                    if use_delta {
                        stored_ok(
                            prev_literal_lookup(prior_snapshots@, f.rel_path@),
                            f.rel_path@,
                            f.content@,
                            #[trigger] r.0@[q],
                        )
                    } else {
                        r.0@[q].rel_path@ == f.rel_path@ && r.0@[q].content@ == f.content@
                    }
                }
            &&& r.1 == work_accounted_sum(r.0@, wspec, source_files@)
            &&& forall|q: int|
                0 <= q < wspec.len() ==> hash_lookup(
                    final(hashes)@,
                    #[trigger] worked_rel(source_files@, wspec, q),
                ) == Some(sha256_hex_of(source_files@[wspec[q]].content@))
            &&& forall|k2: Seq<char>|
                (forall|q: int|
                    0 <= q < wspec.len() ==> #[trigger] worked_rel(source_files@, wspec, q) != k2)
                    ==> #[trigger] hash_lookup(final(hashes)@, k2) == hash_lookup(old(hashes)@, k2)
        }),
{
    let ghost wspec = work_view(work@);
    let ghost hashes0 = hashes@;
    let mut files_out: Vec<StoredFile> = Vec::new();
    let mut bytes_processed: u64 = 0;
    proof {
        assert forall|q: int| 0 <= q < work@.len() implies 0 <= #[trigger] work@[q]
            < source_files@.len() by {
            assert(wspec[q] == work@[q] as int);
        }
    }
    proof {
        assert(files_out@.take(0) =~= Seq::<StoredFile>::empty());
    }
    let mut k: usize = 0;
    while k < work.len()
        invariant
            0 <= k <= work@.len(),
            files_out@.len() == k,
            wspec == work_view(work@),
            forall|q: int| 0 <= q < work@.len() ==> 0 <= #[trigger] work@[q] < source_files@.len(),
            forall|q1: int, q2: int|
                0 <= q1 < q2 < wspec.len() ==> #[trigger] wspec[q1] < #[trigger] wspec[q2],

            forall|q: int|
                0 <= q < k ==> {
                    let i = work@[q] as int;
                    let f = source_files@[i];
                    if use_delta {
                        stored_ok(
                            prev_literal_lookup(prior_snapshots@, f.rel_path@),
                            f.rel_path@,
                            f.content@,
                            #[trigger] files_out@[q],
                        )
                    } else {
                        files_out@[q].rel_path@ == f.rel_path@ && files_out@[q].content@
                            == f.content@
                    }
                },
            bytes_processed == work_accounted_sum(files_out@, wspec, source_files@),
            forall|q: int|
                0 <= q < k ==> hash_lookup(
                    (*hashes)@,
                    #[trigger] worked_rel(source_files@, wspec, q),
                ) == Some(sha256_hex_of(source_files@[wspec[q]].content@)),
            forall|k2: Seq<char>|
                (forall|q: int|
                    0 <= q < k ==> #[trigger] worked_rel(source_files@, wspec, q) != k2)
                    ==> #[trigger] hash_lookup((*hashes)@, k2) == hash_lookup(
                    hashes0,
                    k2,
                ),
        decreases work@.len() - k,
    {
        let ghost stored_before = files_out@;
        proof {
            assert(wspec[k as int] == work@[k as int] as int);
        }
        let i = work[k];
        let f = &source_files[i];
        let mut handled = false;
        if use_delta {
            match find_latest_backup_file(prior_snapshots, f.rel_path.as_str()) {
                Some(prev) => {
                    let d = create_delta(&prev, &f.content);
                    let clen = f.content.len();
                    proof {
                        lemma_delta_payload_within_new(d, prev@, f.content@);
                        assert(delta_payload_size(d.changed_blocks@) <= clen);
                    }
                    let dsize = delta_size(&d);
                    if (dsize as u64) < (f.content.len() as u64) / 2 {
                        proof {
                            crate::delta_codec::lemma_hex_byte_chars(
                                crate::hashing::sha256_of(prev@),
                            );
                            assert forall|b: int|
                                0 <= b < d.changed_blocks@.len() implies crate::delta_codec::byte_chars(
                                (#[trigger] d.changed_blocks@[b]).hash@,
                            ) by {
                                crate::delta_codec::lemma_hex_byte_chars(
                                    crate::hashing::sha256_of(
                                        crate::delta::chunks(
                                            f.content@,
                                            crate::delta::BLOCK_SIZE as int,
                                        )[d.changed_blocks@[b].index as int],
                                    ),
                                );
                            }
                        }
                        let buf = save_delta(&d);
                        let stored = StoredFile {
                            rel_path: f.rel_path.clone().concat(".delta"),
                            content: buf,
                        };
                        proof {
                            lemma_stored_ok_delta(d, prev@, f.rel_path@, f.content@, stored);
                            crate::delta_codec::lemma_created_delta_loads(d, prev@, f.content@);
                            crate::delta_codec::lemma_view_payload_matches(d);
                            reveal_strlit(".delta");
                            assert(stored.rel_path@ != f.rel_path@) by {
                                assert(stored.rel_path@.len() == f.rel_path@.len() + 6);
                            }
                            assert(entry_accounted(stored, f.rel_path@, f.content@)
                                == delta_payload_size(d.changed_blocks@));
                        }
                        files_out.push(stored);
                        if (dsize as u64) <= u64::MAX - bytes_processed {
                            bytes_processed = bytes_processed + (dsize as u64);
                        } else {
                            bytes_processed = u64::MAX;
                        }
                        proof {
                            assert(files_out@.drop_last() =~= stored_before);
                        }
                        handled = true;
                    }
                    if !handled {
                        let copy = crate::delta::subrange_vec(&f.content, 0, f.content.len());
                        let stored = StoredFile { rel_path: f.rel_path.clone(), content: copy };
                        proof {
                            assert(stored.content@ =~= f.content@);
                            lemma_stored_ok_literal(d, prev@, f.rel_path@, f.content@, stored);
                            assert(entry_accounted(stored, f.rel_path@, f.content@)
                                == f.content@.len());
                        }
                        files_out.push(stored);
                        let len = f.content.len() as u64;
                        if len <= u64::MAX - bytes_processed {
                            bytes_processed = bytes_processed + len;
                        } else {
                            bytes_processed = u64::MAX;
                        }
                        proof {
                            assert(files_out@.drop_last() =~= stored_before);
                        }
                        handled = true;
                    }
                },
                None => {},
            }
        }
        if !handled {
            let copy = crate::delta::subrange_vec(&f.content, 0, f.content.len());
            let stored = StoredFile { rel_path: f.rel_path.clone(), content: copy };
            proof {
                reveal(stored_ok);
                assert(stored.content@ =~= f.content@);
                assert(entry_accounted(stored, f.rel_path@, f.content@) == f.content@.len());
            }
            files_out.push(stored);
            let len = f.content.len() as u64;
            if len <= u64::MAX - bytes_processed {
                bytes_processed = bytes_processed + len;
            } else {
                bytes_processed = u64::MAX;
            }
            proof {
                assert(files_out@.drop_last() =~= stored_before);
            }
        }
        let ghost pre_insert = (*hashes)@;
        let hex = sha256_hex(&f.content);
        hashes_insert(hashes, f.rel_path.as_str(), hex);
        proof {
            // Earlier worked paths are untouched: the work positions are
            // strictly increasing indices into distinct relative paths.
            lemma_worked_hash_step(
                source_files@,
                wspec,
                k as int,
                pre_insert,
                (*hashes)@,
                hashes0,
            );
        }
        k = k + 1;
    }
    (files_out, bytes_processed)
}

/// The prior snapshots reduced to what retention needs.
pub open spec fn dir_refs_of(snaps: Seq<RepoSnapshot>) -> Seq<SnapshotRef> {
    Seq::new(snaps.len(), |i: int| SnapshotRef { name: snaps[i].name, mtime: snaps[i].mtime })
}

} // verus!

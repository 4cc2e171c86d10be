//! Snapshot chain management: counting incrementals since the latest full,
//! delta-chain integrity, the force-full decision, and retention that never
//! breaks the active restore chain in delta mode.

use vstd::prelude::*;
use crate::config::BackupMode;
use crate::delta_codec::{load_delta, parse_delta};
use crate::strutil::{lex_le, seq_ends_with, seq_starts_with, str_ends_with, str_eq, str_starts_with};

verus! {

/// One file stored inside a snapshot directory: its path relative to the
/// snapshot root, and its bytes.
#[derive(Debug)]
pub struct StoredFile {
    pub rel_path: String,
    pub content: Vec<u8>,
}

/// One snapshot directory with its contents, as the engine sees it in
/// memory.
#[derive(Debug)]
pub struct RepoSnapshot {
    pub name: String,
    pub mtime: u64,
    pub files: Vec<StoredFile>,
}

/// A snapshot directory reduced to what retention needs: its name and its
/// filesystem modification time.
#[derive(Debug)]
pub struct SnapshotRef {
    pub name: String,
    pub mtime: u64,
}

pub open spec fn is_full_name(s: Seq<char>) -> bool {
    seq_starts_with(s, "full_"@)
}

pub open spec fn is_inc_name(s: Seq<char>) -> bool {
    seq_starts_with(s, "inc_"@)
}

pub open spec fn is_snapshot_name(s: Seq<char>) -> bool {
    is_full_name(s) || is_inc_name(s)
}

/// The timestamp a snapshot name embeds: what follows its kind prefix.
pub open spec fn ts_of_name(n: Seq<char>) -> Seq<char> {
    if is_full_name(n) {
        n.skip(5)
    } else {
        n.skip(4)
    }
}

/// An incremental is counted when it is newer than every full snapshot: the
/// timestamp its name embeds is strictly greater than each full snapshot's.
/// Timestamps are fixed width, so their order is creation order.
pub open spec fn counts_as_pending_inc(names: Seq<String>, i: int) -> bool {
    &&& 0 <= i < names.len()
    &&& is_inc_name(names[i]@)
    &&& forall|j: int|
        0 <= j < names.len() && is_full_name((#[trigger] names[j])@) ==> lex_le(
            ts_of_name(names[j]@),
            ts_of_name(names[i]@),
        ) && ts_of_name(names[j]@) != ts_of_name(names[i]@)
}

pub open spec fn pending_inc_count(names: Seq<String>, upto: int) -> nat
    decreases upto,
{
    if upto <= 0 {
        0
    } else {
        pending_inc_count(names, upto - 1) + if counts_as_pending_inc(names, upto - 1) {
            1nat
        } else {
            0nat
        }
    }
}

/// How many incremental snapshots follow the latest full snapshot: the
/// number of incrementals newer than every full. With no full snapshot,
/// every incremental counts.
#[verifier::loop_isolation(false)]
#[verifier::rlimit(60)]
pub fn count_inc_since_last_full(names: &Vec<String>) -> (r: usize)
    ensures
        r == pending_inc_count(names@, names@.len() as int),
{
    proof {
        reveal_strlit("inc_");
        reveal_strlit("full_");
    }
    let n = names.len();
    let mut count: usize = 0;
    let mut i: usize = 0;
    while i < n
        invariant
            0 <= i <= n,
            n == names@.len(),
            count == pending_inc_count(names@, i as int),
            count <= i,
        decreases n - i,
    {
        if str_starts_with(names[i].as_str(), "inc_") {
            let ni = names[i].as_str();
            let ts_i = ni.substring_char(4, ni.unicode_len());
            proof {
                assert(ts_i@ =~= ts_of_name(names@[i as int]@)) by {
                    assert(!is_full_name(names@[i as int]@)) by {
                        if is_full_name(names@[i as int]@) {
                            assert(names@[i as int]@.subrange(0, 5)[0] == 'f');
                            assert(names@[i as int]@.subrange(0, 4)[0] == 'i');
                        }
                    }
                }
            }
            let mut newer_than_all_fulls = true;
            let mut j: usize = 0;
            while j < n && newer_than_all_fulls
                invariant
                    0 <= j <= n,
                    n == names@.len(),
                    0 <= i < n,
                    ts_i@ == ts_of_name(names@[i as int]@),
                    newer_than_all_fulls ==> forall|k: int|
                        0 <= k < j && is_full_name((#[trigger] names@[k])@) ==> lex_le(
                            ts_of_name(names@[k]@),
                            ts_of_name(names@[i as int]@),
                        ) && ts_of_name(names@[k]@) != ts_of_name(names@[i as int]@),
                    !newer_than_all_fulls ==> exists|k: int|
                        0 <= k < j && is_full_name((#[trigger] names@[k])@) && !(lex_le(
                            ts_of_name(names@[k]@),
                            ts_of_name(names@[i as int]@),
                        ) && ts_of_name(names@[k]@) != ts_of_name(names@[i as int]@)),
                decreases n - j,
            {
                if str_starts_with(names[j].as_str(), "full_") {
                    let nj = names[j].as_str();
                    let ts_j = nj.substring_char(5, nj.unicode_len());
                    proof {
                        assert(ts_j@ =~= ts_of_name(names@[j as int]@));
                    }
                    let le = crate::strutil::str_lex_le(ts_j, ts_i);
                    let ne = !str_eq(ts_j, ts_i);
                    if !(le && ne) {
                        newer_than_all_fulls = false;
                    }
                }
                j = j + 1;
            }
            if newer_than_all_fulls {
                count = count + 1;
                proof {
                    assert(counts_as_pending_inc(names@, i as int));
                }
            } else {
                proof {
                    assert(!counts_as_pending_inc(names@, i as int));
                }
            }
        } else {
            proof {
                assert(!counts_as_pending_inc(names@, i as int));
            }
        }
        i = i + 1;
    }
    count
}

/// The first stored file at exactly this relative path.
pub open spec fn snapshot_file_lookup(files: Seq<StoredFile>, rel: Seq<char>) -> Option<Seq<u8>>
    decreases files.len(),
{
    if files.len() == 0 {
        None
    } else if files[0].rel_path@ == rel {
        Some(files[0].content@)
    } else {
        snapshot_file_lookup(files.skip(1), rel)
    }
}

pub fn snapshot_find_file(files: &Vec<StoredFile>, rel: &str) -> (r: Option<usize>)
    ensures
        match r {
            Some(i) => i < files@.len() && files@[i as int].rel_path@ == rel@
                && snapshot_file_lookup(files@, rel@) == Some(files@[i as int].content@),
            None => snapshot_file_lookup(files@, rel@) is None,
        },
{
    proof {
        assert(files@.skip(0) =~= files@);
    }
    let mut i: usize = 0;
    while i < files.len()
        invariant
            0 <= i <= files@.len(),
            snapshot_file_lookup(files@, rel@) == snapshot_file_lookup(
                files@.skip(i as int),
                rel@,
            ),
        decreases files@.len() - i,
    {
        proof {
            assert(files@.skip(i as int)[0] == files@[i as int]);
            assert(files@.skip(i as int).skip(1) =~= files@.skip(i + 1));
        }
        if str_eq(files[i].rel_path.as_str(), rel) {
            return Some(i);
        }
        i = i + 1;
    }
    None
}

/// Every delta record under every incremental snapshot parses, and at least
/// one full snapshot exists: the condition for the chain to be restorable.
pub open spec fn chain_valid(snaps: Seq<RepoSnapshot>) -> bool {
    &&& exists|i: int| 0 <= i < snaps.len() && is_full_name((#[trigger] snaps[i]).name@)
    &&& forall|i: int, j: int|
        0 <= i < snaps.len() && is_inc_name((#[trigger] snaps[i]).name@) && 0 <= j
            < snaps[i].files@.len() && seq_ends_with(
            (#[trigger] snaps[i].files@[j]).rel_path@,
            ".delta"@,
        ) ==> parse_delta(snaps[i].files@[j].content@) is Some
}

/// Startup integrity scan of the delta chain.
#[verifier::loop_isolation(false)]
#[verifier::rlimit(60)]
pub fn validate_delta_chain(snapshots: &Vec<RepoSnapshot>) -> (r: bool)
    ensures
        r == chain_valid(snapshots@),
{
    let mut full_exists = false;
    let mut i: usize = 0;
    while i < snapshots.len()
        invariant
            0 <= i <= snapshots@.len(),
            full_exists == exists|k: int|
                0 <= k < i && is_full_name((#[trigger] snapshots@[k]).name@),
        decreases snapshots@.len() - i,
    {
        if str_starts_with(snapshots[i].name.as_str(), "full_") {
            proof {
                assert(is_full_name(snapshots@[i as int].name@));
            }
            full_exists = true;
        }
        i = i + 1;
    }
    if !full_exists {
        return false;
    }
    let mut i: usize = 0;
    while i < snapshots.len()
        invariant
            0 <= i <= snapshots@.len(),
            forall|a: int, b: int|
                0 <= a < i && is_inc_name((#[trigger] snapshots@[a]).name@) && 0 <= b
                    < snapshots@[a].files@.len() && seq_ends_with(
                    (#[trigger] snapshots@[a].files@[b]).rel_path@,
                    ".delta"@,
                ) ==> parse_delta(snapshots@[a].files@[b].content@) is Some,
        decreases snapshots@.len() - i,
    {
        if str_starts_with(snapshots[i].name.as_str(), "inc_") {
            let files = &snapshots[i].files;
            let mut j: usize = 0;
            while j < files.len()
                invariant
                    0 <= j <= files@.len(),
                    files@ == snapshots@[i as int].files@,
                    0 <= i < snapshots@.len(),
                    forall|b: int|
                        0 <= b < j && seq_ends_with(
                            (#[trigger] files@[b]).rel_path@,
                            ".delta"@,
                        ) ==> parse_delta(files@[b].content@) is Some,
                decreases files@.len() - j,
            {
                if str_ends_with(files[j].rel_path.as_str(), ".delta") {
                    match load_delta(&files[j].content) {
                        Ok(_) => {},
                        Err(_) => {
                            return false;
                        },
                    }
                }
                j = j + 1;
            }
        }
        i = i + 1;
    }
    true
}

/// The minimum seconds between snapshots of a source, derived from its
/// size: one second up to 10 MiB, a minute up to 100 MiB, an hour up to
/// 1 GiB, and an hour per started GiB beyond that.
pub fn min_interval_secs_for_size(total_bytes: u64) -> (r: u64)
    ensures
        total_bytes <= 10485760 ==> r == 1,
        10485760 < total_bytes <= 104857600 ==> r == 60,
        104857600 < total_bytes <= 1073741824 ==> r == 3600,
        total_bytes > 1073741824 ==> r == 3600 * ((total_bytes + 1073741823) / 1073741824),
{
    if total_bytes <= 10485760 {
        1
    } else if total_bytes <= 104857600 {
        60
    } else if total_bytes <= 1073741824 {
        3600
    } else {
        let gib: u64 = 1073741824;
        let hours = (total_bytes - 1) / gib + 1;
        proof {
            assert(3600 * ((total_bytes - 1) / 1073741824 + 1) == 3600 * ((total_bytes
                + 1073741823) / 1073741824)) by {
                assert((total_bytes - 1) / 1073741824 + 1 == (total_bytes + 1073741823)
                    / 1073741824) by (nonlinear_arith)
                    requires total_bytes >= 1;
            }
        }
        3600 * hours
    }
}

/// The startup force-full rule: a failed history validation forces a full;
/// in delta mode, reaching the auto-full interval or a broken chain does
/// too.
pub fn needs_force_full(
    history_valid: bool,
    mode: BackupMode,
    inc_count: usize,
    full_backup_interval: usize,
    chain_is_valid: bool,
) -> (r: bool)
    ensures
        r == (!history_valid || (mode is Delta && (inc_count >= full_backup_interval
            || !chain_is_valid))),
{
    if !history_valid {
        return true;
    }
    match mode {
        BackupMode::Delta => inc_count >= full_backup_interval || !chain_is_valid,
        BackupMode::Copy => false,
    }
}

/// Order for retention: by modification time, oldest first; equal times keep
/// their listing order.
pub open spec fn ref_lt(a: &SnapshotRef, b: &SnapshotRef) -> bool {
    a.mtime < b.mtime
}

#[verifier::opaque]
pub open spec fn insert_ref(e: SnapshotRef, s: Seq<SnapshotRef>) -> Seq<SnapshotRef>
    decreases s.len(),
{
    if s.len() == 0 {
        seq![e]
    } else if ref_lt(&e, &s[0]) {
        seq![e] + s
    } else {
        seq![s[0]] + insert_ref(e, s.skip(1))
    }
}

/// Snapshots sorted by modification time, oldest first, stably.
#[verifier::opaque]
pub open spec fn sort_refs_spec(s: Seq<SnapshotRef>) -> Seq<SnapshotRef>
    decreases s.len(),
{
    if s.len() == 0 {
        Seq::empty()
    } else {
        insert_ref(s.last(), sort_refs_spec(s.drop_last()))
    }
}

pub open spec fn refs_sorted(s: Seq<SnapshotRef>) -> bool {
    forall|i: int, j: int| 0 <= i < j < s.len() ==> (#[trigger] s[i]).mtime <= (#[trigger] s[j]).mtime
}

pub proof fn lemma_insert_ref_props(e: SnapshotRef, s: Seq<SnapshotRef>)
    requires
        refs_sorted(s),
    ensures
        refs_sorted(insert_ref(e, s)),
        insert_ref(e, s).to_multiset() == s.to_multiset().insert(e),
        insert_ref(e, s).len() == s.len() + 1,
    decreases s.len(),
{
    reveal(insert_ref);
    broadcast use vstd::seq_lib::group_to_multiset_ensures;

    let out = insert_ref(e, s);
    if s.len() == 0 {
        assert(out.to_multiset() =~= s.to_multiset().insert(e));
    } else if ref_lt(&e, &s[0]) {
        assert(out =~= s.insert(0, e));
        vstd::seq_lib::to_multiset_insert(s, 0, e);
        assert forall|i: int, j: int|
            0 <= i < j < out.len() implies (#[trigger] out[i]).mtime <= (#[trigger] out[j]).mtime by {
            if i == 0 {
                if j >= 2 {
                    assert(out[j] == s[j - 1]);
                    assert(s[0].mtime <= s[j - 1].mtime);
                }
            } else {
                assert(out[i] == s[i - 1] && out[j] == s[j - 1]);
            }
        }
    } else {
        assert(refs_sorted(s.skip(1))) by {
            assert(forall|i: int, j: int|
                0 <= i < j < s.skip(1).len() ==> s.skip(1)[i] == s[i + 1] && s.skip(1)[j] == s[j
                    + 1]);
        }
        lemma_insert_ref_props(e, s.skip(1));
        let rest = insert_ref(e, s.skip(1));
        assert(out =~= seq![s[0]] + rest);
        assert(seq![s[0]] + rest =~= rest.insert(0, s[0]));
        vstd::seq_lib::to_multiset_insert(rest, 0, s[0]);
        assert(s =~= s.skip(1).insert(0, s[0]));
        vstd::seq_lib::to_multiset_insert(s.skip(1), 0, s[0]);
        assert(out.to_multiset() == s.to_multiset().insert(e)) by {
            assert(out.to_multiset() == rest.to_multiset().insert(s[0]));
            assert(rest.to_multiset() == s.skip(1).to_multiset().insert(e));
            assert(s.to_multiset() == s.skip(1).to_multiset().insert(s[0]));
            assert(s.skip(1).to_multiset().insert(e).insert(s[0]) =~= s.skip(
                1,
            ).to_multiset().insert(s[0]).insert(e));
        }
        assert forall|i: int, j: int|
            0 <= i < j < out.len() implies (#[trigger] out[i]).mtime <= (#[trigger] out[j]).mtime by {
            if i == 0 {
                assert(out[j] == rest[j - 1]);
                assert(rest.to_multiset().contains(rest[j - 1]));
                if rest[j - 1] == e {
                    assert(!ref_lt(&e, &s[0]));
                } else {
                    assert(s.skip(1).to_multiset().contains(rest[j - 1]));
                    let k = choose|k: int| 0 <= k < s.skip(1).len() && s.skip(1)[k] == rest[j - 1];
                    assert(s[0].mtime <= s[k + 1].mtime);
                }
            } else {
                assert(out[i] == rest[i - 1] && out[j] == rest[j - 1]);
            }
        }
    }
}

pub proof fn lemma_sort_refs_props(s: Seq<SnapshotRef>)
    ensures
        refs_sorted(sort_refs_spec(s)),
        sort_refs_spec(s).to_multiset() == s.to_multiset(),
        sort_refs_spec(s).len() == s.len(),
    decreases s.len(),
{
    reveal(sort_refs_spec);
    broadcast use vstd::seq_lib::group_to_multiset_ensures;

    if s.len() == 0 {
    } else {
        lemma_sort_refs_props(s.drop_last());
        lemma_insert_ref_props(s.last(), sort_refs_spec(s.drop_last()));
        assert(s =~= s.drop_last().push(s.last()));
        vstd::seq_lib::to_multiset_build(s.drop_last(), s.last());
    }
}

proof fn lemma_insert_ref_at(e: SnapshotRef, s: Seq<SnapshotRef>, j: int)
    requires
        0 <= j <= s.len(),
        forall|i: int| 0 <= i < j ==> !ref_lt(&e, &s[i]),
        j < s.len() ==> ref_lt(&e, &s[j]),
    ensures
        insert_ref(e, s) == s.take(j) + seq![e] + s.skip(j),
    decreases s.len(),
{
    reveal(insert_ref);
    if s.len() == 0 {
        assert(s.take(0) + seq![e] + s.skip(0) =~= seq![e]);
    } else if ref_lt(&e, &s[0]) {
        assert(j == 0);
        assert(s.take(0) + seq![e] + s.skip(0) =~= seq![e] + s);
    } else {
        assert(j >= 1);
        assert(forall|i: int| 0 <= i < j - 1 ==> s.skip(1)[i] == s[i + 1]);
        lemma_insert_ref_at(e, s.skip(1), j - 1);
        assert(s.skip(1).take(j - 1) =~= s.take(j).skip(1));
        assert(seq![s[0]] + (s.take(j).skip(1) + seq![e] + s.skip(1).skip(j - 1)) =~= s.take(j)
            + seq![e] + s.skip(j)) by {
            assert(s.skip(1).skip(j - 1) =~= s.skip(j));
        }
    }
}

fn insert_ref_sorted(out: &mut Vec<SnapshotRef>, e: SnapshotRef)
    ensures
        final(out)@ == insert_ref(e, old(out)@),
{
    let ghost e0 = e;
    let mut j: usize = 0;
    while j < out.len() && !(e.mtime < out[j].mtime)
        invariant
            0 <= j <= out@.len(),
            e == e0,
            forall|i: int| 0 <= i < j ==> !ref_lt(&e0, &out@[i]),
        decreases out@.len() - j,
    {
        j = j + 1;
    }
    proof {
        lemma_insert_ref_at(e0, out@, j as int);
    }
    out.insert(j, e);
    proof {
        assert(out@ =~= old(out)@.take(j as int) + seq![e0] + old(out)@.skip(j as int));
    }
}

/// Sorts snapshot references by modification time, oldest first, stably.
pub fn sort_refs(mut v: Vec<SnapshotRef>) -> (r: Vec<SnapshotRef>)
    ensures
        r@ == sort_refs_spec(v@),
{
    let ghost input = v@;
    let mut out: Vec<SnapshotRef> = Vec::new();
    proof {
        reveal(sort_refs_spec);
        assert(input.skip(0) =~= input);
        assert(input.take(0) =~= Seq::<SnapshotRef>::empty());
    }
    while v.len() > 0
        invariant
            input.skip(out@.len() as int) == v@,
            out@.len() + v@.len() == input.len(),
            out@ == sort_refs_spec(input.take(out@.len() as int)),
        decreases v@.len(),
    {
        let ghost done = out@.len() as int;
        let e = v.remove(0);
        proof {
            reveal(sort_refs_spec);
            assert(e == input.skip(done)[0]);
            assert(e == input[done]);
            assert(v@ =~= input.skip(done + 1)) by {
                assert(v@ == input.skip(done).remove(0));
            }
            assert(input.take(done + 1).drop_last() =~= input.take(done));
            assert(input.take(done + 1).last() == input[done]);
            lemma_sort_refs_props(input.take(done));
            lemma_insert_ref_props(e, out@);
        }
        insert_ref_sorted(&mut out, e);
    }
    proof {
        assert(input.take(out@.len() as int) =~= input);
    }
    out
}

/// The last position of a full snapshot in the age-ordered list.
pub open spec fn latest_full_idx(sorted: Seq<SnapshotRef>) -> Option<int>
    decreases sorted.len(),
{
    if sorted.len() == 0 {
        None
    } else if is_full_name(sorted.last().name@) {
        Some(sorted.len() - 1)
    } else {
        latest_full_idx(sorted.drop_last())
    }
}

/// How many age-ordered snapshots retention keeps: at least `max_backups`,
/// and in delta mode never fewer than the latest full snapshot and
/// everything after it. With no full snapshot in delta mode, everything is
/// kept.
pub open spec fn retention_keep_count(
    sorted: Seq<SnapshotRef>,
    max_backups: int,
    mode: BackupMode,
) -> int {
    if mode is Delta {
        let protect = match latest_full_idx(sorted) {
            Some(idx) => sorted.len() - idx,
            None => sorted.len() as int,
        };
        if max_backups >= protect {
            max_backups
        } else {
            protect
        }
    } else {
        max_backups
    }
}

/// The names retention deletes: the oldest snapshots beyond the kept count,
/// in age order; nothing when the count fits the budget.
pub open spec fn retention_victims(
    snaps: Seq<SnapshotRef>,
    max_backups: int,
    mode: BackupMode,
) -> Seq<SnapshotRef> {
    let sorted = sort_refs_spec(snaps);
    if sorted.len() <= max_backups {
        Seq::empty()
    } else {
        let keep = retention_keep_count(sorted, max_backups, mode);
        if sorted.len() <= keep {
            Seq::empty()
        } else {
            sorted.take(sorted.len() - keep)
        }
    }
}

fn latest_full_idx_exec(sorted: &Vec<SnapshotRef>) -> (r: Option<usize>)
    ensures
        match r {
            Some(i) => latest_full_idx(sorted@) == Some(i as int),
            None => latest_full_idx(sorted@) is None,
        },
{
    let mut j = sorted.len();
    let mut found: Option<usize> = None;
    proof {
        assert(sorted@.take(sorted@.len() as int) =~= sorted@);
    }
    while j > 0 && found.is_none()
        invariant
            0 <= j <= sorted@.len(),
            found is None ==> latest_full_idx(sorted@) == latest_full_idx(
                sorted@.take(j as int),
            ),
            found matches Some(i) ==> latest_full_idx(sorted@) == Some(i as int),
        decreases j,
    {
        j = j - 1;
        proof {
            assert(sorted@.take(j + 1).drop_last() =~= sorted@.take(j as int));
            assert(sorted@.take(j + 1).last() == sorted@[j as int]);
        }
        if str_starts_with(sorted[j].name.as_str(), "full_") {
            found = Some(j);
        }
    }
    proof {
        if found is None {
            assert(sorted@.take(0) =~= Seq::<SnapshotRef>::empty());
        }
    }
    found
}

/// Decides which snapshots retention removes. The input is every snapshot
/// directory with its modification time; the result lists the doomed ones,
/// oldest first.
pub fn cleanup_old_backups(snaps: Vec<SnapshotRef>, max_backups: usize, mode: BackupMode) -> (r:
    Vec<SnapshotRef>)
    ensures
        r@ == retention_victims(snaps@, max_backups as int, mode),
{
    let ghost input = snaps@;
    let mut sorted = sort_refs(snaps);
    if sorted.len() <= max_backups {
        proof {
            lemma_sort_refs_props(input);
        }
        return Vec::new();
    }
    let keep_count: usize = match mode {
        BackupMode::Delta => {
            let protect: usize = match latest_full_idx_exec(&sorted) {
                Some(idx) => {
                    proof {
                        lemma_latest_full_bounds(sorted@);
                    }
                    sorted.len() - idx
                },
                None => sorted.len(),
            };
            if max_backups >= protect {
                max_backups
            } else {
                protect
            }
        },
        BackupMode::Copy => max_backups,
    };
    proof {
        lemma_latest_full_bounds(sorted@);
        assert(keep_count == retention_keep_count(sorted@, max_backups as int, mode));
    }
    if sorted.len() <= keep_count {
        return Vec::new();
    }
    let to_remove = sorted.len() - keep_count;
    let mut victims: Vec<SnapshotRef> = Vec::new();
    let mut i: usize = 0;
    while i < to_remove
        invariant
            0 <= i <= to_remove <= sorted@.len() + i,
            victims@ == sort_refs_spec(input).take(i as int),
            sorted@ == sort_refs_spec(input).skip(i as int),
            to_remove == sort_refs_spec(input).len() - retention_keep_count(
                sort_refs_spec(input),
                max_backups as int,
                mode,
            ),
        decreases to_remove - i,
    {
        let ghost all = sort_refs_spec(input);
        let e = sorted.remove(0);
        proof {
            assert(e == all[i as int]);
            assert(all.take(i + 1) =~= all.take(i as int).push(all[i as int]));
            assert(sorted@ =~= all.skip(i + 1)) by {
                assert(sorted@ == all.skip(i as int).remove(0));
            }
        }
        victims.push(e);
        i = i + 1;
    }
    victims
}

proof fn lemma_latest_full_bounds(s: Seq<SnapshotRef>)
    ensures
        latest_full_idx(s) matches Some(i) ==> 0 <= i < s.len(),
    decreases s.len(),
{
    if s.len() > 0 && !is_full_name(s.last().name@) {
        lemma_latest_full_bounds(s.drop_last());
    }
}

/// In delta mode, retention never touches the latest full snapshot nor
/// anything after it: the snapshots that make up the active restore chain
/// all survive.
pub proof fn lemma_retention_preserves_chain(
    snaps: Seq<SnapshotRef>,
    max_backups: int,
    k: int,
)
    requires
        latest_full_idx(sort_refs_spec(snaps)) matches Some(f) && f <= k < sort_refs_spec(
            snaps,
        ).len(),
    ensures
        ({
            let sorted = sort_refs_spec(snaps);
            let victims = retention_victims(snaps, max_backups, BackupMode::Delta);
            forall|v: int| 0 <= v < victims.len() ==> victims[v] == sorted[v] && v < k
        }),
{
    let sorted = sort_refs_spec(snaps);
    let f = latest_full_idx(sorted)->0;
    lemma_latest_full_bounds(sorted);
    let victims = retention_victims(snaps, max_backups, BackupMode::Delta);
    let keep = retention_keep_count(sorted, max_backups, BackupMode::Delta);
    assert(keep >= sorted.len() - f);
    if sorted.len() <= max_backups {
        assert(victims.len() == 0);
    } else if sorted.len() <= keep {
        assert(victims.len() == 0);
    } else {
        assert(victims == sorted.take(sorted.len() - keep));
        assert(sorted.len() - keep <= f);
    }
}

} // verus!

//! Restore planning and application: listing snapshots, selecting the full
//! snapshot and incremental tail for a point in time, and replaying them
//! over an in-memory target tree.

use vstd::prelude::*;
use crate::chain::{is_full_name, is_inc_name, is_snapshot_name, snapshot_file_lookup, ts_of_name, RepoSnapshot, StoredFile};
use crate::delta::{apply_delta, apply_delta_view};
use crate::delta_codec::{delta_view, load_delta, parse_delta};
use crate::strutil::{lex_le, seq_ends_with, seq_starts_with, str_ends_with, str_eq, str_lex_le, str_starts_with};

verus! {

/// One snapshot as the restore planner lists it: directory name, its path on
/// disk, whether it is a full snapshot, and the timestamp its name embeds.
#[derive(Debug)]
pub struct BackupEntry {
    pub name: String,
    pub path: String,
    pub is_full: bool,
    pub timestamp: String,
}

/// One directory entry of a repository listing, as the caller found it.
#[derive(Debug)]
pub struct ListingEntry {
    pub name: String,
    pub path: String,
    pub is_dir: bool,
}

/// Why a restore cannot proceed.
#[derive(Debug)]
pub enum RestoreError {
    NoBackups,
    NoFullBeforePoint,
    CorruptDelta,
}

impl RestoreError {
    /// A short description, for error reporting at the edges.
    pub fn message(&self) -> (r: &'static str) {
        match self {
            RestoreError::NoBackups => "No backups found in repository",
            RestoreError::NoFullBeforePoint => "No full backup found before restore point",
            RestoreError::CorruptDelta => "corrupt delta file in snapshot",
        }
    }
}

pub struct RestoreManager {}

/// A well-formed planner entry for a listed directory.
pub open spec fn entry_wf(e: BackupEntry) -> bool {
    &&& is_snapshot_name(e.name@)
    &&& e.is_full == is_full_name(e.name@)
    &&& e.timestamp@ == ts_of_name(e.name@)
}

pub open spec fn entries_sorted(es: Seq<BackupEntry>) -> bool {
    forall|i: int, j: int|
        0 <= i < j < es.len() ==> lex_le((#[trigger] es[i]).timestamp@, (#[trigger] es[j]).timestamp@)
}

pub open spec fn entry_ts_lt(a: &BackupEntry, b: &BackupEntry) -> bool {
    lex_le(a.timestamp@, b.timestamp@) && a.timestamp@ != b.timestamp@
}

#[verifier::opaque]
pub open spec fn insert_listed(e: BackupEntry, s: Seq<BackupEntry>) -> Seq<BackupEntry>
    decreases s.len(),
{
    if s.len() == 0 {
        seq![e]
    } else if entry_ts_lt(&e, &s[0]) {
        seq![e] + s
    } else {
        seq![s[0]] + insert_listed(e, s.skip(1))
    }
}

proof fn lemma_entry_ts_total(a: &BackupEntry, b: &BackupEntry)
    ensures
        !entry_ts_lt(a, b) ==> lex_le(b.timestamp@, a.timestamp@),
{
    crate::strutil::lemma_lex_le_total(a.timestamp@, b.timestamp@);
}

proof fn lemma_entry_ts_trans(a: &BackupEntry, b: &BackupEntry, c: &BackupEntry)
    requires
        lex_le(a.timestamp@, b.timestamp@),
        lex_le(b.timestamp@, c.timestamp@),
    ensures
        lex_le(a.timestamp@, c.timestamp@),
{
    crate::strutil::lemma_lex_le_trans(a.timestamp@, b.timestamp@, c.timestamp@);
}

pub proof fn lemma_insert_listed_props(e: BackupEntry, s: Seq<BackupEntry>)
    requires
        entries_sorted(s),
    ensures
        entries_sorted(insert_listed(e, s)),
        insert_listed(e, s).to_multiset() == s.to_multiset().insert(e),
        insert_listed(e, s).len() == s.len() + 1,
    decreases s.len(),
{
    reveal(insert_listed);
    broadcast use vstd::seq_lib::group_to_multiset_ensures;

    let out = insert_listed(e, s);
    if s.len() == 0 {
        assert(out.to_multiset() =~= s.to_multiset().insert(e));
    } else if entry_ts_lt(&e, &s[0]) {
        assert(out =~= s.insert(0, e));
        vstd::seq_lib::to_multiset_insert(s, 0, e);
        assert forall|i: int, j: int| 0 <= i < j < out.len() implies lex_le(
            (#[trigger] out[i]).timestamp@,
            (#[trigger] out[j]).timestamp@,
        ) by {
            if i == 0 {
                if j == 1 {
                } else {
                    assert(out[j] == s[j - 1]);
                    lemma_entry_ts_trans(&e, &s[0], &s[j - 1]);
                }
            } else {
                assert(out[i] == s[i - 1] && out[j] == s[j - 1]);
            }
        }
    } else {
        lemma_entry_ts_total(&e, &s[0]);
        assert(entries_sorted(s.skip(1))) by {
            assert(forall|i: int, j: int|
                0 <= i < j < s.skip(1).len() ==> s.skip(1)[i] == s[i + 1] && s.skip(1)[j] == s[j
                    + 1]);
        }
        lemma_insert_listed_props(e, s.skip(1));
        let rest = insert_listed(e, s.skip(1));
        assert(out =~= seq![s[0]] + rest);
        assert(seq![s[0]] + rest =~= rest.insert(0, s[0]));
        vstd::seq_lib::to_multiset_insert(rest, 0, s[0]);
        assert(s =~= s.skip(1).insert(0, s[0]));
        vstd::seq_lib::to_multiset_insert(s.skip(1), 0, s[0]);
        assert(out.to_multiset() == s.to_multiset().insert(e)) by {
            assert(out.to_multiset() == rest.to_multiset().insert(s[0]));
            assert(rest.to_multiset() == s.skip(1).to_multiset().insert(e));
            assert(s.to_multiset() == s.skip(1).to_multiset().insert(s[0]));
            assert(s.skip(1).to_multiset().insert(e).insert(s[0]) =~= s.skip(
                1,
            ).to_multiset().insert(s[0]).insert(e));
        }
        assert forall|i: int, j: int| 0 <= i < j < out.len() implies lex_le(
            (#[trigger] out[i]).timestamp@,
            (#[trigger] out[j]).timestamp@,
        ) by {
            if i == 0 {
                assert(out[j] == rest[j - 1]);
                assert(rest.to_multiset().contains(rest[j - 1]));
                if rest[j - 1] == e {
                    assert(lex_le(s[0].timestamp@, e.timestamp@));
                } else {
                    assert(s.skip(1).to_multiset().contains(rest[j - 1]));
                    let k = choose|k: int| 0 <= k < s.skip(1).len() && s.skip(1)[k] == rest[j - 1];
                    assert(lex_le(s[0].timestamp@, s[k + 1].timestamp@));
                }
            } else {
                assert(out[i] == rest[i - 1] && out[j] == rest[j - 1]);
            }
        }
    }
}

proof fn lemma_insert_listed_at(e: BackupEntry, s: Seq<BackupEntry>, j: int)
    requires
        0 <= j <= s.len(),
        forall|i: int| 0 <= i < j ==> !entry_ts_lt(&e, &s[i]),
        j < s.len() ==> entry_ts_lt(&e, &s[j]),
    ensures
        insert_listed(e, s) == s.take(j) + seq![e] + s.skip(j),
    decreases s.len(),
{
    reveal(insert_listed);
    if s.len() == 0 {
        assert(s.take(0) + seq![e] + s.skip(0) =~= seq![e]);
    } else if entry_ts_lt(&e, &s[0]) {
        assert(j == 0);
        assert(s.take(0) + seq![e] + s.skip(0) =~= seq![e] + s);
    } else {
        assert(j >= 1);
        assert(forall|i: int| 0 <= i < j - 1 ==> s.skip(1)[i] == s[i + 1]);
        lemma_insert_listed_at(e, s.skip(1), j - 1);
        assert(s.skip(1).take(j - 1) =~= s.take(j).skip(1));
        assert(seq![s[0]] + (s.take(j).skip(1) + seq![e] + s.skip(1).skip(j - 1)) =~= s.take(j)
            + seq![e] + s.skip(j)) by {
            assert(s.skip(1).skip(j - 1) =~= s.skip(j));
        }
    }
}

fn insert_listed_sorted(out: &mut Vec<BackupEntry>, e: BackupEntry)
    ensures
        final(out)@ == insert_listed(e, old(out)@),
{
    let ghost e0 = e;
    let mut j: usize = 0;
    while j < out.len() && !(str_lex_le(e.timestamp.as_str(), out[j].timestamp.as_str()) && !str_eq(
        e.timestamp.as_str(),
        out[j].timestamp.as_str(),
    ))
        invariant
            0 <= j <= out@.len(),
            e == e0,
            forall|i: int| 0 <= i < j ==> !entry_ts_lt(&e0, &out@[i]),
        decreases out@.len() - j,
    {
        j = j + 1;
    }
    proof {
        lemma_insert_listed_at(e0, out@, j as int);
    }
    out.insert(j, e);
    proof {
        assert(out@ =~= old(out)@.take(j as int) + seq![e0] + old(out)@.skip(j as int));
    }
}

/// The cutoff a restore point denotes: the given timestamp, or a bound above
/// every well-formed timestamp when none is given.
pub open spec fn cutoff_view(restore_point: Option<&str>) -> Seq<char> {
    match restore_point {
        Some(p) => p@,
        None => "99999999_999999"@,
    }
}

/// The last list position holding a full snapshot whose timestamp is at or
/// before the cutoff.
pub open spec fn last_full_at_or_before(backups: Seq<BackupEntry>, cutoff: Seq<char>) -> Option<
    int,
>
    decreases backups.len(),
{
    if backups.len() == 0 {
        None
    } else if backups.last().is_full && lex_le(backups.last().timestamp@, cutoff) {
        Some(backups.len() - 1)
    } else {
        last_full_at_or_before(backups.drop_last(), cutoff)
    }
}

/// The incremental snapshots a restore replays: those strictly after the
/// chosen full snapshot and at or before the cutoff, in list order.
pub open spec fn selected_incrementals(
    backups: Seq<BackupEntry>,
    full_ts: Seq<char>,
    cutoff: Seq<char>,
) -> Seq<BackupEntry>
    decreases backups.len(),
{
    if backups.len() == 0 {
        Seq::empty()
    } else {
        let rest = selected_incrementals(backups.drop_last(), full_ts, cutoff);
        let b = backups.last();
        if !b.is_full && !lex_le(b.timestamp@, full_ts) && lex_le(b.timestamp@, cutoff) {
            rest.push(b)
        } else {
            rest
        }
    }
}

fn clone_backup_entry(e: &BackupEntry) -> (r: BackupEntry)
    ensures
        r == *e,
{
    BackupEntry {
        name: e.name.clone(),
        path: e.path.clone(),
        is_full: e.is_full,
        timestamp: e.timestamp.clone(),
    }
}

/// An entry faithfully describes a listed directory.
pub open spec fn entry_matches_listing(e: BackupEntry, l: ListingEntry) -> bool {
    &&& l.is_dir
    &&& is_snapshot_name(l.name@)
    &&& e.name@ == l.name@
    &&& e.path@ == l.path@
}

/// Every entry comes from some listed snapshot directory.
pub open spec fn entries_from_listing(es: Seq<BackupEntry>, listing: Seq<ListingEntry>) -> bool {
    forall|k: int|
        0 <= k < es.len() ==> exists|j: int|
            0 <= j < listing.len() && entry_matches_listing(#[trigger] es[k], listing[j])
}

/// Every listed snapshot directory has an entry.
pub open spec fn listing_covered(es: Seq<BackupEntry>, listing: Seq<ListingEntry>) -> bool {
    forall|j: int|
        0 <= j < listing.len() && (#[trigger] listing[j]).is_dir && is_snapshot_name(
            listing[j].name@,
        ) ==> exists|k: int| 0 <= k < es.len() && (#[trigger] es[k]).name@ == listing[j].name@
}

impl RestoreManager {
    /// Lists the snapshots in a repository listing: every directory whose
    /// name carries a snapshot prefix becomes a well-formed entry, and the
    /// result is sorted by the embedded timestamp. Nothing is invented and
    /// nothing eligible is dropped.
    #[verifier::loop_isolation(false)]
    #[verifier::rlimit(100)]
    pub fn list_backups(listing: &Vec<ListingEntry>) -> (r: Vec<BackupEntry>)
        ensures
            entries_sorted(r@),
            forall|k: int| 0 <= k < r@.len() ==> entry_wf(#[trigger] r@[k]),
            entries_from_listing(r@, listing@),
            listing_covered(r@, listing@),
    {
        broadcast use vstd::seq_lib::group_to_multiset_ensures;

        let mut out: Vec<BackupEntry> = Vec::new();
        let mut i: usize = 0;
        while i < listing.len()
            invariant
                0 <= i <= listing@.len(),
                entries_sorted(out@),
                forall|k: int| 0 <= k < out@.len() ==> entry_wf(#[trigger] out@[k]),
                entries_from_listing(out@, listing@.take(i as int)),
                listing_covered(out@, listing@.take(i as int)),
            decreases listing@.len() - i,
        {
            let le = &listing[i];
            let is_full = str_starts_with(le.name.as_str(), "full_");
            let is_inc = str_starts_with(le.name.as_str(), "inc_");
            if le.is_dir && (is_full || is_inc) {
                let ts_start: usize = if is_full {
                    5
                } else {
                    4
                };
                proof {
                    reveal_strlit("full_");
                    reveal_strlit("inc_");
                    assert(ts_start <= le.name@.len());
                }
                let n = le.name.unicode_len();
                let timestamp = String::from_str(le.name.as_str().substring_char(ts_start, n));
                let entry = BackupEntry {
                    name: le.name.clone(),
                    path: le.path.clone(),
                    is_full,
                    timestamp,
                };
                let ghost entry_g = entry;
                let ghost before = out@;
                proof {
                    assert(entry_wf(entry)) by {
                        assert(entry.timestamp@ =~= ts_of_name(entry.name@));
                    }
                    lemma_insert_listed_props(entry, out@);
                }
                insert_listed_sorted(&mut out, entry);
                proof {
                    // Every entry of the grown list is the new entry or one
                    // of the old ones; every old entry is still present.
                    assert(out@.to_multiset() == before.to_multiset().insert(entry_g));
                    assert forall|k: int| 0 <= k < out@.len() implies entry_wf(
                        #[trigger] out@[k],
                    ) by {
                        assert(out@.to_multiset().contains(out@[k]));
                        if out@[k] != entry_g {
                            assert(before.to_multiset().contains(out@[k]));
                            let k0 = choose|k0: int|
                                0 <= k0 < before.len() && before[k0] == out@[k];
                            assert(entry_wf(before[k0]));
                        }
                    }
                    let pre = listing@.take(i as int);
                    let post = listing@.take(i + 1);
                    assert(forall|j: int| 0 <= j < i ==> post[j] == pre[j]);
                    assert(post[i as int] == listing@[i as int]);
                    assert forall|k: int| 0 <= k < out@.len() implies exists|j: int|
                        0 <= j < post.len() && entry_matches_listing(
                            #[trigger] out@[k],
                            post[j],
                        ) by {
                        assert(out@.to_multiset().contains(out@[k]));
                        if out@[k] == entry_g {
                            assert(entry_matches_listing(out@[k], post[i as int]));
                        } else {
                            assert(before.to_multiset().contains(out@[k]));
                            let k0 = choose|k0: int| 0 <= k0 < before.len() && before[k0] == out@[k];
                            let j = choose|j: int|
                                0 <= j < pre.len() && entry_matches_listing(before[k0], pre[j]);
                            assert(entry_matches_listing(out@[k], post[j]));
                        }
                    }
                    assert forall|j: int|
                        0 <= j < post.len() && (#[trigger] post[j]).is_dir && is_snapshot_name(
                            post[j].name@,
                        ) implies exists|k: int|
                        0 <= k < out@.len() && (#[trigger] out@[k]).name@ == post[j].name@ by {
                        if j == i {
                            assert(out@.to_multiset().contains(entry_g));
                            let k = choose|k: int| 0 <= k < out@.len() && out@[k] == entry_g;
                            assert(out@[k].name@ == post[j].name@);
                        } else {
                            let k0 = choose|k0: int|
                                0 <= k0 < before.len() && (#[trigger] before[k0]).name@
                                    == pre[j].name@;
                            assert(before.to_multiset().contains(before[k0]));
                            assert(out@.to_multiset().contains(before[k0]));
                            let k = choose|k: int| 0 <= k < out@.len() && out@[k] == before[k0];
                            assert(out@[k].name@ == post[j].name@);
                        }
                    }
                }
            } else {
                proof {
                    let pre = listing@.take(i as int);
                    let post = listing@.take(i + 1);
                    assert(forall|j: int| 0 <= j < i ==> post[j] == pre[j]);
                    assert(post[i as int] == listing@[i as int]);
                    assert(entries_from_listing(out@, post)) by {
                        assert forall|k: int| 0 <= k < out@.len() implies exists|j: int|
                            0 <= j < post.len() && entry_matches_listing(
                                #[trigger] out@[k],
                                post[j],
                            ) by {
                            let j = choose|j: int|
                                0 <= j < pre.len() && entry_matches_listing(out@[k], pre[j]);
                            assert(entry_matches_listing(out@[k], post[j]));
                        }
                    }
                    assert(listing_covered(out@, post)) by {
                        reveal_strlit("full_");
                        reveal_strlit("inc_");
                        assert(!(post[i as int].is_dir && is_snapshot_name(post[i as int].name@)));
                    }
                }
            }
            i = i + 1;
        }
        proof {
            assert(listing@.take(listing@.len() as int) =~= listing@);
        }
        out
    }

    /// The latest full snapshot at or before the cutoff: the last entry in
    /// list order that is full and whose timestamp does not exceed the
    /// cutoff.
    pub fn select_backups(backups: &Vec<BackupEntry>, restore_point: Option<&str>) -> (r: Result<
        Vec<BackupEntry>,
        RestoreError,
    >)
        ensures
            ({
                let cutoff = cutoff_view(restore_point);
                match r {
                    Ok(v) => last_full_at_or_before(backups@, cutoff) matches Some(f) && v@
                        == seq![backups@[f]] + selected_incrementals(
                        backups@,
                        backups@[f].timestamp@,
                        cutoff,
                    ),
                    Err(_) => last_full_at_or_before(backups@, cutoff) is None,
                }
            }),
    {
        let cutoff: &str = match restore_point {
            Some(p) => p,
            None => "99999999_999999",
        };
        proof {
            assert(cutoff@ == cutoff_view(restore_point));
        }
        let mut fi = backups.len();
        let mut found = false;
        proof {
            assert(backups@.take(backups@.len() as int) =~= backups@);
        }
        while fi > 0 && !found
            invariant
                0 <= fi <= backups@.len(),
                !found ==> last_full_at_or_before(backups@, cutoff@) == last_full_at_or_before(
                    backups@.take(fi as int),
                    cutoff@,
                ),
                found ==> 0 <= fi < backups@.len() && last_full_at_or_before(backups@, cutoff@)
                    == Some(fi as int),
            decreases fi,
        {
            let probe = fi - 1;
            proof {
                assert(backups@.take(probe + 1).drop_last() =~= backups@.take(probe as int));
                assert(backups@.take(probe + 1).last() == backups@[probe as int]);
            }
            if backups[probe].is_full && str_lex_le(backups[probe].timestamp.as_str(), cutoff) {
                found = true;
                fi = probe;
            } else {
                fi = probe;
            }
        }
        if !found {
            proof {
                assert(backups@.take(0) =~= Seq::<BackupEntry>::empty());
            }
            return Err(RestoreError::NoFullBeforePoint);
        }
        let full_entry = clone_backup_entry(&backups[fi]);
        let ghost full_g = full_entry;
        let mut result: Vec<BackupEntry> = Vec::new();
        result.push(full_entry);
        let full_ts_owned = backups[fi].timestamp.clone();
        let full_ts = full_ts_owned.as_str();
        let mut i: usize = 0;
        while i < backups.len()
            invariant
                0 <= i <= backups@.len(),
                full_ts@ == backups@[fi as int].timestamp@,
                0 <= fi < backups@.len(),
                result@ == seq![full_g] + selected_incrementals(
                    backups@.take(i as int),
                    full_ts@,
                    cutoff@,
                ),
                cutoff@ == cutoff_view(restore_point),
            decreases backups@.len() - i,
        {
            proof {
                assert(backups@.take(i + 1).drop_last() =~= backups@.take(i as int));
                assert(backups@.take(i + 1).last() == backups@[i as int]);
            }
            let b = &backups[i];
            let gt_full = !str_lex_le(b.timestamp.as_str(), full_ts);
            let le_cutoff = str_lex_le(b.timestamp.as_str(), cutoff);
            if !b.is_full && gt_full && le_cutoff {
                let e = clone_backup_entry(b);
                proof {
                    assert(e == backups@[i as int]);
                }
                result.push(e);
            }
            i = i + 1;
        }
        proof {
            assert(backups@.take(backups@.len() as int) =~= backups@);
        }
        Ok(result)
    }

    /// The final characters `.delta` removed, when present.
    pub fn strip_delta_extension(path: &str) -> (r: String)
        ensures
            r@ == strip_delta_view(path@),
    {
        let n = path.unicode_len();
        if str_ends_with(path, ".delta") {
            proof {
                reveal_strlit(".delta");
            }
            String::from_str(path.substring_char(0, n - 6))
        } else {
            String::from_str(path)
        }
    }

    /// Replays one snapshot's files over the target tree, in file order:
    /// a literal file replaces the path's content; a delta record is applied
    /// to the path's current content (empty when absent). Fails exactly when
    /// some delta record does not parse.
    #[verifier::loop_isolation(false)]
    #[verifier::rlimit(100)]
    pub fn apply_backup(files: &Vec<StoredFile>, target: &mut Vec<(String, Vec<u8>)>) -> (r:
        Result<usize, RestoreError>)
        requires
            tree_wf(old(target)@),
        ensures
            match r {
                Ok(n) => {
                    &&& n == files@.len()
                    &&& tree_wf(final(target)@)
                    &&& tree_view(final(target)@) == apply_files(tree_view(old(target)@), files@)
                    &&& files_parse_ok(files@)
                },
                Err(e) => !files_parse_ok(files@) && e is CorruptDelta,
            },
    {
        let ghost m0 = tree_view(old(target)@);
        let mut i: usize = 0;
        while i < files.len()
            invariant
                0 <= i <= files@.len(),
                tree_wf(target@),
                tree_view(target@) == apply_files(m0, files@.take(i as int)),
                files_parse_ok(files@.take(i as int)),
            decreases files@.len() - i,
        {
            proof {
                assert(files@.take(i + 1).drop_last() =~= files@.take(i as int));
                assert(files@.take(i + 1).last() == files@[i as int]);
            }
            let f = &files[i];
            if str_ends_with(f.rel_path.as_str(), ".delta") {
                let stripped = Self::strip_delta_extension(f.rel_path.as_str());
                let delta = match load_delta(&f.content) {
                    Ok(d) => d,
                    Err(_) => {
                        proof {
                            assert(!files_parse_ok(files@)) by {
                                assert(seq_ends_with(files@[i as int].rel_path@, ".delta"@));
                                assert(parse_delta(files@[i as int].content@) is None);
                            }
                        }
                        return Err(RestoreError::CorruptDelta);
                    },
                };
                let base: Vec<u8> = match tree_find(target, stripped.as_str()) {
                    Some(bi) => crate::delta::subrange_vec(&target[bi].1, 0, target[bi].1.len()),
                    None => Vec::new(),
                };
                proof {
                    lemma_tree_view_lookup(target@, stripped@);
                    assert(base@ == if tree_view(target@).dom().contains(stripped@) {
                        tree_view(target@)[stripped@]
                    } else {
                        Seq::<u8>::empty()
                    });
                }
                let restored = apply_delta(&base, &delta);
                proof {
                    crate::delta::lemma_apply_matches_view(base@, delta);
                }
                tree_set(target, stripped.as_str(), restored);
                proof {
                    assert(tree_view(target@) =~= apply_one_file(
                        apply_files(m0, files@.take(i as int)),
                        files@[i as int],
                    ));
                }
            } else {
                let copy = crate::delta::subrange_vec(&f.content, 0, f.content.len());
                tree_set(target, f.rel_path.as_str(), copy);
                proof {
                    assert(copy@ =~= f.content@);
                    assert(tree_view(target@) =~= apply_one_file(
                        apply_files(m0, files@.take(i as int)),
                        files@[i as int],
                    ));
                }
            }
            i = i + 1;
        }
        proof {
            assert(files@.take(files@.len() as int) =~= files@);
        }
        Ok(files.len())
    }

    /// Restores a repository to a point in time: picks the latest full
    /// snapshot at or before the cutoff and the incrementals after it, and
    /// replays them oldest first over an empty tree. The result is exactly
    /// the fold of the selected snapshots' files, and the count the number
    /// of files applied; failure cases are pinned to their causes.
    #[verifier::loop_isolation(false)]
    #[verifier::rlimit(100)]
    pub fn restore_to_point(snapshots: &Vec<RepoSnapshot>, restore_point: Option<&str>) -> (r:
        Result<(Vec<(String, Vec<u8>)>, usize), RestoreError>)
        ensures
            r matches Ok(p) ==> tree_wf(p.0@) && exists|bs: Seq<BackupEntry>|
                {
                    &&& #[trigger] entries_listed_from(bs, snapshots@)
                    &&& match last_full_at_or_before(bs, cutoff_view(restore_point)) {
                        Some(f) => {
                            let sel = seq![bs[f]] + selected_incrementals(
                                bs,
                                bs[f].timestamp@,
                                cutoff_view(restore_point),
                            );
                            &&& selection_parses(snapshots@, sel)
                            &&& tree_view(p.0@) == restore_fold(
                                snapshots@,
                                Map::<Seq<char>, Seq<u8>>::empty(),
                                sel,
                            )
                            &&& p.1 == restore_file_count(snapshots@, sel)
                        },
                        None => false,
                    }
                },
            (r matches Err(e) && e is NoBackups) <==> forall|i: int|
                0 <= i < snapshots@.len() ==> !is_snapshot_name((#[trigger] snapshots@[i]).name@),
            (r matches Err(e) && e is NoFullBeforePoint) <==> {
                &&& exists|i: int|
                    0 <= i < snapshots@.len() && is_snapshot_name(
                        (#[trigger] snapshots@[i]).name@,
                    )
                &&& forall|i: int|
                    0 <= i < snapshots@.len() && is_full_name((#[trigger] snapshots@[i]).name@)
                        ==> !lex_le(ts_of_name(snapshots@[i].name@), cutoff_view(restore_point))
            },
            (r matches Err(e) && e is CorruptDelta) ==> exists|i: int|
                0 <= i < snapshots@.len() && !files_parse_ok((#[trigger] snapshots@[i]).files@),
    {
        let ghost cutoff = cutoff_view(restore_point);
        let mut listing: Vec<ListingEntry> = Vec::new();
        let mut i: usize = 0;
        while i < snapshots.len()
            invariant
                0 <= i <= snapshots@.len(),
                listing@ == listing_of(snapshots@).take(i as int),
            decreases snapshots@.len() - i,
        {
            let entry = ListingEntry {
                name: snapshots[i].name.clone(),
                path: snapshots[i].name.clone(),
                is_dir: true,
            };
            proof {
                assert(entry == listing_of(snapshots@)[i as int]);
                assert(listing_of(snapshots@).take(i + 1) =~= listing_of(snapshots@).take(
                    i as int,
                ).push(listing_of(snapshots@)[i as int]));
            }
            listing.push(entry);
            i = i + 1;
        }
        proof {
            assert(listing@ =~= listing_of(snapshots@));
        }
        let backups = Self::list_backups(&listing);
        if backups.len() == 0 {
            proof {
                assert forall|i2: int| 0 <= i2 < snapshots@.len() implies !is_snapshot_name(
                    (#[trigger] snapshots@[i2]).name@,
                ) by {
                    if is_snapshot_name(snapshots@[i2].name@) {
                        assert(listing@[i2].is_dir && is_snapshot_name(listing@[i2].name@));
                        assert(exists|k: int|
                            0 <= k < backups@.len() && (#[trigger] backups@[k]).name@
                                == listing@[i2].name@);
                    }
                }
            }
            return Err(RestoreError::NoBackups);
        }
        // Some directory is a snapshot: entry 0 came from one.
        proof {
            let j = choose|j: int|
                0 <= j < listing@.len() && entry_matches_listing(backups@[0], listing@[j]);
            assert(is_snapshot_name(snapshots@[j].name@));
        }
        let selected = match Self::select_backups(&backups, restore_point) {
            Ok(v) => v,
            Err(_) => {
                proof {
                    lemma_no_full_selected(backups@, cutoff);
                    assert forall|i2: int|
                        0 <= i2 < snapshots@.len() && is_full_name(
                            (#[trigger] snapshots@[i2]).name@,
                        ) implies !lex_le(ts_of_name(snapshots@[i2].name@), cutoff) by {
                        assert(listing@[i2].is_dir && is_snapshot_name(listing@[i2].name@));
                        let k = choose|k: int|
                            0 <= k < backups@.len() && (#[trigger] backups@[k]).name@
                                == listing@[i2].name@;
                        assert(entry_wf(backups@[k]));
                        assert(backups@[k].is_full);
                        assert(backups@[k].timestamp@ == ts_of_name(snapshots@[i2].name@));
                    }
                }
                return Err(RestoreError::NoFullBeforePoint);
            },
        };
        // A full snapshot at or before the cutoff exists on disk: the chosen
        // entry names one.
        proof {
            lemma_last_full_props(backups@, cutoff);
            let f = last_full_at_or_before(backups@, cutoff)->0;
            let j = choose|j: int|
                0 <= j < listing@.len() && entry_matches_listing(#[trigger] backups@[f], listing@[j]);
            assert(is_full_name(snapshots@[j].name@));
            assert(lex_le(ts_of_name(snapshots@[j].name@), cutoff)) by {
                assert(backups@[f].timestamp@ == ts_of_name(backups@[f].name@));
            }
        }
        let applied = match Self::apply_selected(snapshots, &selected) {
            Ok(p) => p,
            Err(e) => {
                return Err(e);
            },
        };
        proof {
            assert(entries_listed_from(backups@, snapshots@));
        }
        Ok(applied)
    }

    /// Replays the selected snapshots in order over an empty tree: each
    /// entry's first matching snapshot is applied; failure means a corrupt
    /// delta record in one of them.
    #[verifier::loop_isolation(false)]
    #[verifier::rlimit(100)]
    fn apply_selected(snapshots: &Vec<RepoSnapshot>, selected: &Vec<BackupEntry>) -> (r: Result<
        (Vec<(String, Vec<u8>)>, usize),
        RestoreError,
    >)
        ensures
            r matches Ok(p) ==> {
                &&& tree_wf(p.0@)
                &&& tree_view(p.0@) == restore_fold(
                    snapshots@,
                    Map::<Seq<char>, Seq<u8>>::empty(),
                    selected@,
                )
                &&& p.1 == restore_file_count(snapshots@, selected@)
                &&& selection_parses(snapshots@, selected@)
            },
            r matches Err(e) ==> e is CorruptDelta && exists|i: int|
                0 <= i < snapshots@.len() && !files_parse_ok((#[trigger] snapshots@[i]).files@),
    {
        let mut target: Vec<(String, Vec<u8>)> = Vec::new();
        let mut count: usize = 0;
        let mut s: usize = 0;
        while s < selected.len()
            invariant
                tree_wf(target@),
                0 <= s <= selected@.len(),
                tree_view(target@) == restore_fold(
                    snapshots@,
                    Map::<Seq<char>, Seq<u8>>::empty(),
                    selected@.take(s as int),
                ),
                count == restore_file_count(snapshots@, selected@.take(s as int)),
                selection_parses(snapshots@, selected@.take(s as int)),
            decreases selected@.len() - s,
        {
            proof {
                assert(selected@.take(s + 1).drop_last() =~= selected@.take(s as int));
                assert(selected@.take(s + 1).last() == selected@[s as int]);
            }
            match find_snapshot_by_name(snapshots, selected[s].name.as_str()) {
                Some(fi) => {
                    let applied = match Self::apply_backup(&snapshots[fi].files, &mut target) {
                        Ok(n) => n,
                        Err(e) => {
                            proof {
                                assert(!files_parse_ok(snapshots@[fi as int].files@));
                            }
                            return Err(RestoreError::CorruptDelta);
                        },
                    };
                    if applied <= usize::MAX - count {
                        count = count + applied;
                    } else {
                        count = usize::MAX;
                    }
                },
                None => {},
            }
            s = s + 1;
        }
        proof {
            assert(selected@.take(selected@.len() as int) =~= selected@);
        }
        Ok((target, count))
    }
}

/// The listing `restore_to_point` plans over: one directory entry per
/// snapshot, named after it.
pub open spec fn listing_of(snaps: Seq<RepoSnapshot>) -> Seq<ListingEntry> {
    Seq::new(
        snaps.len(),
        |i: int| ListingEntry { name: snaps[i].name, path: snaps[i].name, is_dir: true },
    )
}

/// The planner entries a snapshot list denotes: sorted, well-formed, drawn
/// from the listing and covering it — what `list_backups` returns.
pub open spec fn entries_listed_from(bs: Seq<BackupEntry>, snaps: Seq<RepoSnapshot>) -> bool {
    &&& entries_sorted(bs)
    &&& forall|k: int| 0 <= k < bs.len() ==> entry_wf(#[trigger] bs[k])
    &&& entries_from_listing(bs, listing_of(snaps))
    &&& listing_covered(bs, listing_of(snaps))
}

/// The files of the first snapshot with this name.
pub open spec fn snap_files_by_name(snaps: Seq<RepoSnapshot>, name: Seq<char>) -> Option<
    Seq<StoredFile>,
>
    decreases snaps.len(),
{
    if snaps.len() == 0 {
        None
    } else if snaps[0].name@ == name {
        Some(snaps[0].files@)
    } else {
        snap_files_by_name(snaps.skip(1), name)
    }
}

/// Replaying one selected snapshot: its files applied in order; an entry
/// naming no snapshot changes nothing.
pub open spec fn apply_selected_entry(
    snaps: Seq<RepoSnapshot>,
    m: Map<Seq<char>, Seq<u8>>,
    e: BackupEntry,
) -> Map<Seq<char>, Seq<u8>> {
    match snap_files_by_name(snaps, e.name@) {
        Some(files) => apply_files(m, files),
        None => m,
    }
}

/// The whole restore: the selected snapshots replayed in selection order.
pub open spec fn restore_fold(
    snaps: Seq<RepoSnapshot>,
    m: Map<Seq<char>, Seq<u8>>,
    sel: Seq<BackupEntry>,
) -> Map<Seq<char>, Seq<u8>>
    decreases sel.len(),
{
    if sel.len() == 0 {
        m
    } else {
        apply_selected_entry(snaps, restore_fold(snaps, m, sel.drop_last()), sel.last())
    }
}

pub open spec fn sat_add_usize(a: usize, b: nat) -> usize {
    if a + b > usize::MAX {
        usize::MAX
    } else {
        (a + b) as usize
    }
}

/// How many files the selected snapshots hold together, saturating at the
/// counter's range.
pub open spec fn restore_file_count(snaps: Seq<RepoSnapshot>, sel: Seq<BackupEntry>) -> usize
    decreases sel.len(),
{
    if sel.len() == 0 {
        0
    } else {
        sat_add_usize(
            restore_file_count(snaps, sel.drop_last()),
            match snap_files_by_name(snaps, sel.last().name@) {
                Some(files) => files.len(),
                None => 0,
            },
        )
    }
}

/// Every delta record in the selected snapshots parses.
pub open spec fn selection_parses(snaps: Seq<RepoSnapshot>, sel: Seq<BackupEntry>) -> bool {
    forall|k: int|
        0 <= k < sel.len() ==> match snap_files_by_name(snaps, (#[trigger] sel[k]).name@) {
            Some(files) => files_parse_ok(files),
            None => true,
        }
}

/// Index of the first snapshot with this name.
pub fn find_snapshot_by_name(snaps: &Vec<RepoSnapshot>, name: &str) -> (r: Option<usize>)
    ensures
        match r {
            Some(i) => i < snaps@.len() && snaps@[i as int].name@ == name@ && snap_files_by_name(
                snaps@,
                name@,
            ) == Some(snaps@[i as int].files@),
            None => snap_files_by_name(snaps@, name@) is None,
        },
{
    proof {
        assert(snaps@.skip(0) =~= snaps@);
    }
    let mut i: usize = 0;
    while i < snaps.len()
        invariant
            0 <= i <= snaps@.len(),
            snap_files_by_name(snaps@, name@) == snap_files_by_name(snaps@.skip(i as int), name@),
        decreases snaps@.len() - i,
    {
        proof {
            assert(snaps@.skip(i as int)[0] == snaps@[i as int]);
            assert(snaps@.skip(i as int).skip(1) =~= snaps@.skip(i + 1));
        }
        if str_eq(snaps[i].name.as_str(), name) {
            return Some(i);
        }
        i = i + 1;
    }
    None
}

proof fn lemma_last_full_props(backups: Seq<BackupEntry>, cutoff: Seq<char>)
    ensures
        last_full_at_or_before(backups, cutoff) matches Some(f) ==> 0 <= f < backups.len()
            && backups[f].is_full && lex_le(backups[f].timestamp@, cutoff),
    decreases backups.len(),
{
    if backups.len() > 0 && !(backups.last().is_full && lex_le(backups.last().timestamp@, cutoff)) {
        lemma_last_full_props(backups.drop_last(), cutoff);
    }
}

proof fn lemma_no_full_selected(backups: Seq<BackupEntry>, cutoff: Seq<char>)
    requires
        last_full_at_or_before(backups, cutoff) is None,
    ensures
        forall|k: int|
            0 <= k < backups.len() ==> !((#[trigger] backups[k]).is_full && lex_le(
                backups[k].timestamp@,
                cutoff,
            )),
    decreases backups.len(),
{
    if backups.len() > 0 {
        lemma_no_full_selected(backups.drop_last(), cutoff);
        assert(forall|k: int| 0 <= k < backups.len() - 1 ==> backups.drop_last()[k] == backups[k]);
    }
}

/// The `.delta` suffix removed, when present.
pub open spec fn strip_delta_view(p: Seq<char>) -> Seq<char> {
    if seq_ends_with(p, ".delta"@) {
        p.take(p.len() - 6)
    } else {
        p
    }
}

/// The mapping a target tree denotes: later pairs shadow earlier ones, and
/// the engine keeps keys unique.
pub open spec fn tree_view(t: Seq<(String, Vec<u8>)>) -> Map<Seq<char>, Seq<u8>>
    decreases t.len(),
{
    if t.len() == 0 {
        Map::empty()
    } else {
        tree_view(t.drop_last()).insert(t.last().0@, t.last().1@)
    }
}

/// Keys are unique.
pub open spec fn tree_wf(t: Seq<(String, Vec<u8>)>) -> bool {
    forall|i: int, j: int| 0 <= i < j < t.len() ==> (#[trigger] t[i]).0@ != (#[trigger] t[j]).0@
}

/// What one stored file does to the target: a literal replaces the path's
/// content; a delta record rewrites the stripped path from its current
/// content (empty when absent); an unparseable record changes nothing, and
/// the engine fails instead of applying it.
pub open spec fn apply_one_file(m: Map<Seq<char>, Seq<u8>>, f: StoredFile) -> Map<
    Seq<char>,
    Seq<u8>,
> {
    if seq_ends_with(f.rel_path@, ".delta"@) {
        let p = strip_delta_view(f.rel_path@);
        match parse_delta(f.content@) {
            Some(v) => {
                let base = if m.dom().contains(p) {
                    m[p]
                } else {
                    Seq::<u8>::empty()
                };
                m.insert(p, apply_delta_view(base, v))
            },
            None => m,
        }
    } else {
        m.insert(f.rel_path@, f.content@)
    }
}

/// A snapshot's files applied in order.
pub open spec fn apply_files(m: Map<Seq<char>, Seq<u8>>, files: Seq<StoredFile>) -> Map<
    Seq<char>,
    Seq<u8>,
>
    decreases files.len(),
{
    if files.len() == 0 {
        m
    } else {
        apply_one_file(apply_files(m, files.drop_last()), files.last())
    }
}

/// Every delta record in the file list parses.
pub open spec fn files_parse_ok(files: Seq<StoredFile>) -> bool {
    forall|j: int|
        0 <= j < files.len() && seq_ends_with((#[trigger] files[j]).rel_path@, ".delta"@)
            ==> parse_delta(files[j].content@) is Some
}

/// Replaying a stored delta over a tree restores the exact new content:
/// when the tree holds the content the delta was created against at the
/// stripped path, applying the stored record (the encoding of a delta built
/// from that prior content and the new content) leaves the new content at
/// the path. This is the per-file heart of the restore round trip: the
/// codec's parse inverts the encoding, and applying a delta to its creation
/// base reproduces the new bytes.
pub proof fn lemma_stored_delta_restores_new_content(
    m: Map<Seq<char>, Seq<u8>>,
    sf: StoredFile,
    d: crate::delta::DeltaFile,
    prev: Seq<u8>,
    new: Seq<u8>,
)
    requires
        seq_ends_with(sf.rel_path@, ".delta"@),
        crate::delta::delta_of(d, prev, new),
        sf.content@ == crate::delta_codec::enc_delta(d),
        crate::delta_codec::delta_byte_chars(d),
        d.original_file_hash@.len() <= usize::MAX,
        forall|k: int|
            0 <= k < d.changed_blocks@.len() ==> (#[trigger] d.changed_blocks@[k]).hash@.len()
                <= usize::MAX,
        forall|k: int|
            0 <= k < d.changed_blocks@.len() ==> (#[trigger] d.changed_blocks@[k]).data@.len()
                <= usize::MAX,
        d.changed_blocks@.len() <= u64::MAX,
        m.dom().contains(strip_delta_view(sf.rel_path@)),
        m[strip_delta_view(sf.rel_path@)] == prev,
    ensures
        apply_one_file(m, sf) == m.insert(strip_delta_view(sf.rel_path@), new),
{
    crate::delta_codec::lemma_codec_round_trip(d);
    assert(parse_delta(sf.content@) == Some(delta_view(d)));
    crate::delta::lemma_apply_matches_view(prev, d);
    crate::delta::lemma_delta_round_trip(d, prev, new);
}

proof fn lemma_tree_view_lookup(t: Seq<(String, Vec<u8>)>, k: Seq<char>)
    requires
        tree_wf(t),
    ensures
        forall|i: int|
            0 <= i < t.len() && (#[trigger] t[i]).0@ == k ==> tree_view(t).dom().contains(k)
                && tree_view(t)[k] == t[i].1@,
        (forall|i: int| 0 <= i < t.len() ==> (#[trigger] t[i]).0@ != k) ==> !tree_view(
            t,
        ).dom().contains(k),
    decreases t.len(),
{
    if t.len() > 0 {
        assert(tree_wf(t.drop_last())) by {
            assert(forall|i: int, j: int|
                0 <= i < j < t.len() - 1 ==> t.drop_last()[i] == t[i] && t.drop_last()[j] == t[j]);
        }
        lemma_tree_view_lookup(t.drop_last(), k);
        assert(forall|i: int| 0 <= i < t.len() - 1 ==> t.drop_last()[i] == t[i]);
    }
}

/// Index of the first pair with this key.
pub fn tree_find(t: &Vec<(String, Vec<u8>)>, key: &str) -> (r: Option<usize>)
    ensures
        match r {
            Some(i) => i < t@.len() && t@[i as int].0@ == key@,
            None => forall|i: int| 0 <= i < t@.len() ==> (#[trigger] t@[i]).0@ != key@,
        },
{
    let mut i: usize = 0;
    while i < t.len()
        invariant
            0 <= i <= t@.len(),
            forall|j: int| 0 <= j < i ==> (#[trigger] t@[j]).0@ != key@,
        decreases t@.len() - i,
    {
        if str_eq(t[i].0.as_str(), key) {
            return Some(i);
        }
        i = i + 1;
    }
    None
}

proof fn lemma_tree_view_update(t: Seq<(String, Vec<u8>)>, i: int, p: (String, Vec<u8>))
    requires
        tree_wf(t),
        0 <= i < t.len(),
        t[i].0@ == p.0@,
    ensures
        tree_view(t.update(i, p)) == tree_view(t).insert(p.0@, p.1@),
        tree_wf(t.update(i, p)),
    decreases t.len(),
{
    let tu = t.update(i, p);
    assert(tree_wf(tu)) by {
        assert(forall|a: int| 0 <= a < t.len() && a != i ==> tu[a] == t[a]);
        assert(tu[i].0@ == t[i].0@);
    }
    if i == t.len() - 1 {
        assert(tu.drop_last() =~= t.drop_last());
        assert(tu.last() == p);
        assert(tree_view(t).insert(p.0@, p.1@) =~= tree_view(t.drop_last()).insert(
            t.last().0@,
            t.last().1@,
        ).insert(p.0@, p.1@));
        assert(tree_view(t.drop_last()).insert(t.last().0@, t.last().1@).insert(p.0@, p.1@)
            =~= tree_view(t.drop_last()).insert(p.0@, p.1@));
    } else {
        assert(tree_wf(t.drop_last())) by {
            assert(forall|a: int, b: int|
                0 <= a < b < t.len() - 1 ==> t.drop_last()[a] == t[a] && t.drop_last()[b] == t[b]);
        }
        lemma_tree_view_update(t.drop_last(), i, p);
        assert(tu.drop_last() =~= t.drop_last().update(i, p));
        assert(tu.last() == t.last());
        assert(t.last().0@ != p.0@) by {
            assert(t[i].0@ != t[t.len() - 1].0@);
        }
        assert(tree_view(t.drop_last()).insert(p.0@, p.1@).insert(t.last().0@, t.last().1@)
            =~= tree_view(t.drop_last()).insert(t.last().0@, t.last().1@).insert(p.0@, p.1@));
    }
}

/// Sets the path's content in the tree: replaces the existing pair or adds
/// a new one.
pub fn tree_set(t: &mut Vec<(String, Vec<u8>)>, key: &str, value: Vec<u8>)
    requires
        tree_wf(old(t)@),
    ensures
        tree_wf(final(t)@),
        tree_view(final(t)@) == tree_view(old(t)@).insert(key@, value@),
{
    let ghost val = value@;
    match tree_find(t, key) {
        Some(i) => {
            let ghost before = t@;
            let pair = (String::from_str(key), value);
            let ghost pair_g = pair;
            t.set(i, pair);
            proof {
                assert(t@ =~= before.update(i as int, pair_g));
                lemma_tree_view_update(before, i as int, pair_g);
            }
        },
        None => {
            let ghost before = t@;
            let pair = (String::from_str(key), value);
            let ghost pair_g = pair;
            t.push(pair);
            proof {
                assert(t@.drop_last() =~= before);
                assert(t@.last() == pair_g);
                assert(tree_wf(t@)) by {
                    assert(forall|a: int| 0 <= a < before.len() ==> t@[a] == before[a]);
                    assert(t@[t@.len() - 1].0@ == key@);
                }
            }
        },
    }
}

} // verus!

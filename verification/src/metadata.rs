//! Repository metadata: the per-file hash index, the snapshot history, and
//! their maintenance. The history mirrors the on-disk snapshot directories;
//! rebuilding it from a directory listing and validating the two against each
//! other are the consistency core of the engine.

use vstd::prelude::*;
use crate::strutil::{
    all_digits, digits_val, lex_le, lemma_lex_le_total, lemma_lex_le_trans, parse_u64_range,
    seq_starts_with, str_lex_le, str_starts_with, str_eq,
};

verus! {

/// Whether a snapshot holds the complete source or only what changed.
#[derive(Clone, Copy, PartialEq, Eq, Structural, Debug)]
pub enum BackupHistoryType {
    Full,
    Incremental,
}

/// One snapshot as the history records it: the directory name, its kind, its
/// creation instant (the numeric form of the name's timestamp), and the work
/// that produced it.
#[derive(Debug, Clone)]
pub struct BackupHistoryEntry {
    pub backup_name: String,
    pub backup_type: BackupHistoryType,
    pub created_at: u64,
    pub files_backed_up: usize,
    pub bytes_processed: u64,
}

/// One snapshot directory as found on disk: its name, and the file count and
/// byte total of its contents.
#[derive(Debug)]
pub struct SnapshotDirInfo {
    pub name: String,
    pub files: usize,
    pub bytes: u64,
}

/// The persistent metadata of one repository.
#[derive(Debug, Clone)]
pub struct SourceMetadata {
    pub last_full_backup: Option<u64>,
    pub last_backup: Option<u64>,
    pub file_hashes: Vec<(String, String)>,
    pub backup_history: Vec<BackupHistoryEntry>,
}

impl Default for SourceMetadata {
    /// Empty metadata: what a repository has before its first snapshot, and
    /// what an unreadable metadata file falls back to.
    fn default() -> (r: SourceMetadata)
        ensures
            r.last_full_backup is None,
            r.last_backup is None,
            r.file_hashes@.len() == 0,
            r.backup_history@.len() == 0,
    {
        SourceMetadata {
            last_full_backup: None,
            last_backup: None,
            file_hashes: Vec::new(),
            backup_history: Vec::new(),
        }
    }
}

/// Signals that a snapshot directory name cannot be part of a valid history,
/// or that the history disagrees with the disk.
#[derive(Debug)]
pub enum MetadataError {
    MalformedSnapshotName,
    MetadataFileMissing,
    HistoryEmpty,
    HistoryCountMismatch,
    HistoryEntryMismatch,
    IncrementalBeforeFull,
    MarkerMismatch,
}

impl MetadataError {
    /// A short description, for error reporting at the edges.
    pub fn message(&self) -> (r: &'static str) {
        match self {
            MetadataError::MalformedSnapshotName => "Invalid backup directory timestamp format",
            MetadataError::MetadataFileMissing => "metadata.json is missing while backup directories exist",
            MetadataError::HistoryEmpty => "metadata.backup_history is empty while backup directories exist",
            MetadataError::HistoryCountMismatch => "metadata history count mismatch",
            MetadataError::HistoryEntryMismatch => "metadata history mismatch",
            MetadataError::IncrementalBeforeFull => "incremental backup appears before any full backup",
            MetadataError::MarkerMismatch => "metadata backup markers disagree with history",
        }
    }
}

/// The kind a snapshot directory name declares, by its prefix.
pub open spec fn kind_of_name(s: Seq<char>) -> Option<BackupHistoryType> {
    if seq_starts_with(s, "full_"@) {
        Some(BackupHistoryType::Full)
    } else if seq_starts_with(s, "inc_"@) {
        Some(BackupHistoryType::Incremental)
    } else {
        None
    }
}

/// "YYYYMMDD_HHMMSS": eight date digits, an underscore, six time digits,
/// with the month, day, hour, minute and second fields in range.
pub open spec fn valid_ts_base(s: Seq<char>) -> bool {
    &&& s.len() == 15
    &&& s[8] == '_'
    &&& all_digits(s.subrange(0, 8))
    &&& all_digits(s.subrange(9, 15))
    &&& 1 <= digits_val(s.subrange(4, 6)) <= 12
    &&& 1 <= digits_val(s.subrange(6, 8)) <= 31
    &&& digits_val(s.subrange(9, 11)) <= 23
    &&& digits_val(s.subrange(11, 13)) <= 59
    &&& digits_val(s.subrange(13, 15)) <= 59
}

/// "YYYYMMDD_HHMMSSmmm": the base form followed by three millisecond digits.
pub open spec fn valid_ts_millis(s: Seq<char>) -> bool {
    &&& s.len() == 18
    &&& valid_ts_base(s.subrange(0, 15))
    &&& all_digits(s.subrange(15, 18))
}

/// The instant a timestamp string denotes, as the number
/// YYYYMMDDHHMMSSmmm; the base form has zero milliseconds.
pub open spec fn ts_value(s: Seq<char>) -> u64 {
    if valid_ts_millis(s) {
        (digits_val(s.subrange(0, 8)) * 1000000000 + digits_val(s.subrange(9, 15)) * 1000
            + digits_val(s.subrange(15, 18))) as u64
    } else {
        (digits_val(s.subrange(0, 8)) * 1000000000 + digits_val(s.subrange(9, 15)) * 1000) as u64
    }
}

/// What a snapshot directory name denotes: its kind and creation instant.
/// `None` when the prefix or the timestamp is malformed.
pub open spec fn parse_snapshot_name(s: Seq<char>) -> Option<(BackupHistoryType, u64)> {
    match kind_of_name(s) {
        None => None,
        Some(kind) => {
            let ts = if kind is Full {
                s.skip(5)
            } else {
                s.skip(4)
            };
            if valid_ts_millis(ts) || valid_ts_base(ts) {
                Some((kind, ts_value(ts)))
            } else {
                None
            }
        },
    }
}

pub fn backup_history_type_from_name(backup_name: &str) -> (r: Option<BackupHistoryType>)
    ensures
        r == kind_of_name(backup_name@),
{
    if str_starts_with(backup_name, "full_") {
        Some(BackupHistoryType::Full)
    } else if str_starts_with(backup_name, "inc_") {
        Some(BackupHistoryType::Incremental)
    } else {
        None
    }
}

fn range_all_digits(s: &str, from: usize, to: usize) -> (r: bool)
    requires
        from <= to <= s@.len(),
    ensures
        r == all_digits(s@.subrange(from as int, to as int)),
{
    let mut i: usize = from;
    while i < to
        invariant
            from <= i <= to <= s@.len(),
            forall|j: int| 0 <= j < i - from ==> crate::strutil::is_digit(
                #[trigger] s@.subrange(from as int, to as int)[j],
            ),
        decreases to - i,
    {
        let c = s.get_char(i);
        if !('0' <= c && c <= '9') {
            proof {
                assert(s@.subrange(from as int, to as int)[i - from] == c);
            }
            return false;
        }
        proof {
            assert(s@.subrange(from as int, to as int)[i - from] == c);
        }
        i = i + 1;
    }
    true
}

#[verifier::rlimit(50)]
fn parse_ts(s: &str, from: usize) -> (r: Option<u64>)
    requires
        from <= s@.len(),
        s@.len() <= usize::MAX,
    ensures
        ({
            let t = s@.skip(from as int);
            match r {
                Some(v) => (valid_ts_millis(t) || valid_ts_base(t)) && v == ts_value(t),
                None => !valid_ts_millis(t) && !valid_ts_base(t),
            }
        }),
{
    let ghost t = s@.skip(from as int);
    let n = s.unicode_len();
    let len = n - from;
    if len != 15 && len != 18 {
        return None;
    }
    proof {
        assert(t.subrange(0, 8) =~= s@.subrange(from as int, from + 8));
        assert(t.subrange(9, 15) =~= s@.subrange(from + 9, from + 15));
        assert(t.subrange(4, 6) =~= s@.subrange(from + 4, from + 6));
        assert(t.subrange(6, 8) =~= s@.subrange(from + 6, from + 8));
        assert(t.subrange(9, 11) =~= s@.subrange(from + 9, from + 11));
        assert(t.subrange(11, 13) =~= s@.subrange(from + 11, from + 13));
        assert(t.subrange(13, 15) =~= s@.subrange(from + 13, from + 15));
        let b = t.subrange(0, 15);
        assert(b.subrange(0, 8) =~= t.subrange(0, 8));
        assert(b.subrange(9, 15) =~= t.subrange(9, 15));
        assert(b.subrange(4, 6) =~= t.subrange(4, 6));
        assert(b.subrange(6, 8) =~= t.subrange(6, 8));
        assert(b.subrange(9, 11) =~= t.subrange(9, 11));
        assert(b.subrange(11, 13) =~= t.subrange(11, 13));
        assert(b.subrange(13, 15) =~= t.subrange(13, 15));
        assert(b[8] == t[8]);
        if len == 18 {
            assert(t.subrange(15, 18) =~= s@.subrange(from + 15, from + 18));
        }
        if len == 15 {
            assert(b =~= t);
        }
    }
    if s.get_char(from + 8) != '_' {
        proof {
            assert(t[8] == s@[from + 8]);
        }
        return None;
    }
    if !range_all_digits(s, from, from + 8) || !range_all_digits(s, from + 9, from + 15) {
        return None;
    }
    if len == 18 && !range_all_digits(s, from + 15, from + 18) {
        return None;
    }
    proof {
        crate::strutil::lemma_digits_val_bounded(t.subrange(0, 8));
        crate::strutil::lemma_digits_val_bounded(t.subrange(9, 15));
        assert(all_digits(t.subrange(4, 6)) && all_digits(t.subrange(6, 8))) by {
            assert(forall|j: int| 0 <= j < 2 ==> t.subrange(4, 6)[j] == t.subrange(0, 8)[4 + j]);
            assert(forall|j: int| 0 <= j < 2 ==> t.subrange(6, 8)[j] == t.subrange(0, 8)[6 + j]);
        }
        assert(all_digits(t.subrange(9, 11)) && all_digits(t.subrange(11, 13)) && all_digits(
            t.subrange(13, 15),
        )) by {
            assert(forall|j: int| 0 <= j < 2 ==> t.subrange(9, 11)[j] == t.subrange(9, 15)[j]);
            assert(forall|j: int| 0 <= j < 2 ==> t.subrange(11, 13)[j] == t.subrange(9, 15)[2 + j]);
            assert(forall|j: int| 0 <= j < 2 ==> t.subrange(13, 15)[j] == t.subrange(9, 15)[4 + j]);
        }
        crate::strutil::lemma_digits_val_bounded(t.subrange(4, 6));
        crate::strutil::lemma_digits_val_bounded(t.subrange(6, 8));
        crate::strutil::lemma_digits_val_bounded(t.subrange(9, 11));
        crate::strutil::lemma_digits_val_bounded(t.subrange(11, 13));
        crate::strutil::lemma_digits_val_bounded(t.subrange(13, 15));
    }
    let date = match parse_u64_range(s, from, from + 8) {
        Some(v) => v,
        None => {
            proof {
                assert(false);
            }
            return None;
        },
    };
    let time = match parse_u64_range(s, from + 9, from + 15) {
        Some(v) => v,
        None => {
            proof {
                assert(false);
            }
            return None;
        },
    };
    let month = match parse_u64_range(s, from + 4, from + 6) {
        Some(v) => v,
        None => {
            proof {
                assert(false);
            }
            return None;
        },
    };
    let day = match parse_u64_range(s, from + 6, from + 8) {
        Some(v) => v,
        None => {
            proof {
                assert(false);
            }
            return None;
        },
    };
    let hour = match parse_u64_range(s, from + 9, from + 11) {
        Some(v) => v,
        None => {
            proof {
                assert(false);
            }
            return None;
        },
    };
    let minute = match parse_u64_range(s, from + 11, from + 13) {
        Some(v) => v,
        None => {
            proof {
                assert(false);
            }
            return None;
        },
    };
    let second = match parse_u64_range(s, from + 13, from + 15) {
        Some(v) => v,
        None => {
            proof {
                assert(false);
            }
            return None;
        },
    };
    if !(1 <= month && month <= 12) || !(1 <= day && day <= 31) || hour > 23 || minute > 59
        || second > 59 {
        return None;
    }
    if len == 15 {
        proof {
            assert(valid_ts_base(t));
            assert(!valid_ts_millis(t));
        }
        Some(date * 1000000000 + time * 1000)
    } else {
        let millis = match parse_u64_range(s, from + 15, from + 18) {
            Some(v) => v,
            None => {
                proof {
                    crate::strutil::lemma_digits_val_bounded(t.subrange(15, 18));
                    assert(false);
                }
                return None;
            },
        };
        proof {
            assert(valid_ts_base(t.subrange(0, 15)));
            assert(valid_ts_millis(t));
            crate::strutil::lemma_digits_val_bounded(t.subrange(15, 18));
        }
        Some(date * 1000000000 + time * 1000 + millis)
    }
}


/// Whether a string has the exact millisecond-timestamp shape that names a
/// snapshot, as the engine requires of its clock input.
pub fn is_valid_millis_timestamp(s: &str) -> (r: bool)
    ensures
        r == valid_ts_millis(s@),
{
    let n = s.unicode_len();
    if n != 18 {
        return false;
    }
    match parse_ts(s, 0) {
        Some(_) => {
            proof {
                assert(s@.skip(0) =~= s@);
                assert(valid_ts_millis(s@) || valid_ts_base(s@));
                assert(!valid_ts_base(s@));
            }
            true
        },
        None => {
            proof {
                assert(s@.skip(0) =~= s@);
            }
            false
        },
    }
}

/// The creation instant a snapshot directory name carries, or `None` when
/// the name is not a well-formed snapshot name.
pub fn parse_backup_created_at(backup_name: &str) -> (r: Option<u64>)
    ensures
        match r {
            Some(v) => parse_snapshot_name(backup_name@) matches Some((k, v2)) && v == v2,
            None => parse_snapshot_name(backup_name@) is None,
        },
{
    let n = backup_name.unicode_len();
    let kind = match backup_history_type_from_name(backup_name) {
        Some(k) => k,
        None => { return None },
    };
    let off: usize = match kind {
        BackupHistoryType::Full => 5,
        BackupHistoryType::Incremental => 4,
    };
    proof {
        reveal_strlit("full_");
        reveal_strlit("inc_");
        assert(off <= backup_name@.len());
    }
    match parse_ts(backup_name, off) {
        Some(v) => Some(v),
        None => None,
    }
}

/// History order: by creation instant, ties broken by name.
pub open spec fn entry_le(a: &BackupHistoryEntry, b: &BackupHistoryEntry) -> bool {
    a.created_at < b.created_at || (a.created_at == b.created_at && lex_le(
        a.backup_name@,
        b.backup_name@,
    ))
}

/// Strict history order; equal keys are never reordered.
pub open spec fn entry_lt(a: &BackupHistoryEntry, b: &BackupHistoryEntry) -> bool {
    a.created_at < b.created_at || (a.created_at == b.created_at && lex_le(
        a.backup_name@,
        b.backup_name@,
    ) && a.backup_name@ != b.backup_name@)
}

pub open spec fn history_sorted(h: Seq<BackupHistoryEntry>) -> bool {
    forall|i: int, j: int| 0 <= i < j < h.len() ==> entry_le(&h[i], &h[j])
}

pub proof fn lemma_entry_le_total(a: &BackupHistoryEntry, b: &BackupHistoryEntry)
    ensures
        entry_le(a, b) || entry_le(b, a),
        !entry_lt(a, b) ==> entry_le(b, a),
{
    lemma_lex_le_total(a.backup_name@, b.backup_name@);
}

/// Stable insertion into a sorted history: the new entry goes before the
/// first strictly greater one.
#[verifier::opaque]
pub open spec fn insert_entry(e: BackupHistoryEntry, s: Seq<BackupHistoryEntry>) -> Seq<
    BackupHistoryEntry,
>
    decreases s.len(),
{
    if s.len() == 0 {
        seq![e]
    } else if entry_lt(&e, &s[0]) {
        seq![e] + s
    } else {
        seq![s[0]] + insert_entry(e, s.skip(1))
    }
}

/// The canonical ordering of a history: entries sorted by `entry_le`,
/// equal keys keeping their relative order.
#[verifier::opaque]
pub open spec fn sort_history(s: Seq<BackupHistoryEntry>) -> Seq<BackupHistoryEntry>
    decreases s.len(),
{
    if s.len() == 0 {
        Seq::empty()
    } else {
        insert_entry(s.last(), sort_history(s.drop_last()))
    }
}

pub proof fn lemma_insert_entry_props(e: BackupHistoryEntry, s: Seq<BackupHistoryEntry>)
    requires
        history_sorted(s),
    ensures
        history_sorted(insert_entry(e, s)),
        insert_entry(e, s).to_multiset() == s.to_multiset().insert(e),
        insert_entry(e, s).len() == s.len() + 1,
    decreases s.len(),
{
    reveal(insert_entry);
    broadcast use vstd::seq_lib::group_to_multiset_ensures;

    let out = insert_entry(e, s);
    if s.len() == 0 {
        assert(seq![e].drop_last() =~= Seq::<BackupHistoryEntry>::empty());
        assert(out.to_multiset() =~= s.to_multiset().insert(e));
    } else if entry_lt(&e, &s[0]) {
        assert forall|i: int, j: int| 0 <= i < j < out.len() implies entry_le(&out[i], &out[j]) by {
            if i == 0 {
                assert(out[0] == e);
                if j == 1 {
                    assert(out[j] == s[0]);
                } else {
                    assert(out[j] == s[j - 1]);
                    assert(entry_le(&s[0], &s[j - 1]));
                    lemma_entry_le_total(&e, &s[0]);
                    lemma_entry_trans(&e, &s[0], &s[j - 1]);
                }
            } else {
                assert(out[i] == s[i - 1] && out[j] == s[j - 1]);
            }
        }
        assert(out =~= s.insert(0, e));
        assert(out.to_multiset() == s.to_multiset().insert(e)) by {
            assert(out =~= seq![e] + s);
            lemma_multiset_prepend(e, s);
        }
    } else {
        lemma_entry_le_total(&e, &s[0]);
        assert(entry_le(&s[0], &e));
        assert(history_sorted(s.skip(1))) by {
            assert(forall|i: int, j: int|
                0 <= i < j < s.skip(1).len() ==> entry_le(&s.skip(1)[i], &s.skip(1)[j]));
        }
        lemma_insert_entry_props(e, s.skip(1));
        let rest = insert_entry(e, s.skip(1));
        assert(out =~= seq![s[0]] + rest);
        // Everything in the recursive result is either e or from s.skip(1),
        // and both are at or above s[0].
        assert forall|i: int, j: int| 0 <= i < j < out.len() implies entry_le(&out[i], &out[j]) by {
            if i == 0 {
                assert(out[j] == rest[j - 1]);
                assert(rest.to_multiset().contains(rest[j - 1]));
                assert(rest.to_multiset() == s.skip(1).to_multiset().insert(e));
                if rest[j - 1] == e {
                    assert(entry_le(&s[0], &e));
                } else {
                    assert(s.skip(1).to_multiset().contains(rest[j - 1]));
                    let k = choose|k: int|
                        0 <= k < s.skip(1).len() && s.skip(1)[k] == rest[j - 1];
                    assert(entry_le(&s[0], &s[k + 1]));
                }
            } else {
                assert(out[i] == rest[i - 1] && out[j] == rest[j - 1]);
            }
        }
        assert(out.to_multiset() == s.to_multiset().insert(e)) by {
            lemma_multiset_prepend(s[0], rest);
            lemma_multiset_prepend(s[0], s.skip(1));
            assert(seq![s[0]] + s.skip(1) =~= s);
            assert(out.to_multiset() == rest.to_multiset().insert(s[0]));
            assert(rest.to_multiset() == s.skip(1).to_multiset().insert(e));
            assert(s.to_multiset() == s.skip(1).to_multiset().insert(s[0]));
            assert(s.skip(1).to_multiset().insert(e).insert(s[0]) =~= s.skip(
                1,
            ).to_multiset().insert(s[0]).insert(e));
        }
    }
}

proof fn lemma_multiset_prepend(e: BackupHistoryEntry, s: Seq<BackupHistoryEntry>)
    ensures
        (seq![e] + s).to_multiset() == s.to_multiset().insert(e),
{
    assert(seq![e] + s =~= s.insert(0, e));
    vstd::seq_lib::to_multiset_insert(s, 0, e);
}

/// Transitivity of the history order.
pub proof fn lemma_entry_trans(a: &BackupHistoryEntry, b: &BackupHistoryEntry, c: &BackupHistoryEntry)
    requires
        entry_le(a, b),
        entry_le(b, c),
    ensures
        entry_le(a, c),
{
    if a.created_at == b.created_at && b.created_at == c.created_at {
        lemma_lex_le_trans(a.backup_name@, b.backup_name@, c.backup_name@);
    }
}

pub proof fn lemma_sort_history_props(s: Seq<BackupHistoryEntry>)
    ensures
        history_sorted(sort_history(s)),
        sort_history(s).to_multiset() == s.to_multiset(),
        sort_history(s).len() == s.len(),
    decreases s.len(),
{
    reveal(sort_history);
    broadcast use vstd::seq_lib::group_to_multiset_ensures;

    if s.len() == 0 {
    } else {
        lemma_sort_history_props(s.drop_last());
        lemma_insert_entry_props(s.last(), sort_history(s.drop_last()));
        assert(s =~= s.drop_last().push(s.last()));
        vstd::seq_lib::to_multiset_build(s.drop_last(), s.last());
    }
}

fn entry_lt_exec(a: &BackupHistoryEntry, b: &BackupHistoryEntry) -> (r: bool)
    ensures
        r == entry_lt(a, b),
{
    if a.created_at < b.created_at {
        true
    } else if a.created_at == b.created_at {
        str_lex_le(a.backup_name.as_str(), b.backup_name.as_str()) && !str_eq(
            a.backup_name.as_str(),
            b.backup_name.as_str(),
        )
    } else {
        false
    }
}

proof fn lemma_insert_entry_at(e: BackupHistoryEntry, s: Seq<BackupHistoryEntry>, j: int)
    requires
        0 <= j <= s.len(),
        forall|i: int| 0 <= i < j ==> !entry_lt(&e, &s[i]),
        j < s.len() ==> entry_lt(&e, &s[j]),
    ensures
        insert_entry(e, s) == s.take(j) + seq![e] + s.skip(j),
    decreases s.len(),
{
    reveal(insert_entry);
    if s.len() == 0 {
        assert(s.take(0) + seq![e] + s.skip(0) =~= seq![e]);
    } else if entry_lt(&e, &s[0]) {
        assert(j == 0);
        assert(s.take(0) + seq![e] + s.skip(0) =~= seq![e] + s);
    } else {
        assert(j >= 1);
        assert(forall|i: int| 0 <= i < j - 1 ==> s.skip(1)[i] == s[i + 1]);
        lemma_insert_entry_at(e, s.skip(1), j - 1);
        assert(s.skip(1).take(j - 1) =~= s.take(j).skip(1));
        assert(seq![s[0]] + (s.take(j).skip(1) + seq![e] + s.skip(1).skip(j - 1)) =~= s.take(j)
            + seq![e] + s.skip(j)) by {
            assert(s.skip(1).skip(j - 1) =~= s.skip(j));
        }
    }
}

fn insert_sorted(out: &mut Vec<BackupHistoryEntry>, e: BackupHistoryEntry)
    ensures
        final(out)@ == insert_entry(e, old(out)@),
{
    let ghost e0 = e;
    let mut j: usize = 0;
    while j < out.len() && !entry_lt_exec(&e, &out[j])
        invariant
            0 <= j <= out@.len(),
            e == e0,
            forall|i: int| 0 <= i < j ==> !entry_lt(&e0, &out@[i]),
        decreases out@.len() - j,
    {
        j = j + 1;
    }
    proof {
        lemma_insert_entry_at(e0, out@, j as int);
    }
    out.insert(j, e);
    proof {
        assert(out@ =~= old(out)@.take(j as int) + seq![e0] + old(out)@.skip(j as int));
    }
}

/// Sorts a history into the canonical order: by creation instant, ties by
/// name, equal keys keeping their relative order.
pub fn sort_entries(mut v: Vec<BackupHistoryEntry>) -> (r: Vec<BackupHistoryEntry>)
    ensures
        r@ == sort_history(v@),
{
    let ghost input = v@;
    let mut out: Vec<BackupHistoryEntry> = Vec::new();
    proof {
        reveal(sort_history);
        assert(input.skip(0) =~= input);
        assert(input.take(0) =~= Seq::<BackupHistoryEntry>::empty());
        assert(out@ == sort_history(input.take(0)));
    }
    while v.len() > 0
        invariant
            input.skip(out@.len() as int) == v@,
            out@.len() + v@.len() == input.len(),
            out@ == sort_history(input.take(out@.len() as int)),
        decreases v@.len(),
    {
        let ghost done = out@.len() as int;
        let e = v.remove(0);
        proof {
            reveal(sort_history);
            assert(e == input.skip(done)[0]);
            assert(e == input[done]);
            assert(v@ =~= input.skip(done + 1)) by {
                assert(v@ == input.skip(done).remove(0));
            }
            assert(input.take(done + 1).drop_last() =~= input.take(done));
            assert(input.take(done + 1).last() == input[done]);
            lemma_sort_history_props(input.take(done));
            lemma_insert_entry_props(e, out@);
        }
        insert_sorted(&mut out, e);
    }
    proof {
        assert(input.take(out@.len() as int) =~= input);
    }
    out
}

/// `v` is the greatest creation instant in `h`, or absent when `h` is empty.
pub open spec fn marker_is_max(h: Seq<BackupHistoryEntry>, v: Option<u64>) -> bool {
    if h.len() == 0 {
        v is None
    } else {
        &&& v is Some
        &&& exists|i: int| 0 <= i < h.len() && (#[trigger] h[i]).created_at == v->0
        &&& forall|i: int| 0 <= i < h.len() ==> (#[trigger] h[i]).created_at <= v->0
    }
}

/// `v` is the greatest creation instant among the full entries of `h`, or
/// absent when `h` has none.
pub open spec fn full_marker_is_max(h: Seq<BackupHistoryEntry>, v: Option<u64>) -> bool {
    if forall|i: int| 0 <= i < h.len() ==> !((#[trigger] h[i]).backup_type is Full) {
        v is None
    } else {
        &&& v is Some
        &&& exists|i: int|
            0 <= i < h.len() && (#[trigger] h[i]).backup_type is Full && h[i].created_at == v->0
        &&& forall|i: int|
            0 <= i < h.len() && (#[trigger] h[i]).backup_type is Full ==> h[i].created_at <= v->0
    }
}

/// The marker invariants of a repository's metadata: the history is sorted
/// and each marker is the maximum it claims to be.
pub open spec fn markers_ok(m: &SourceMetadata) -> bool {
    &&& history_sorted(m.backup_history@)
    &&& marker_is_max(m.backup_history@, m.last_backup)
    &&& full_marker_is_max(m.backup_history@, m.last_full_backup)
}

/// Re-sorts the history and recomputes both markers from it. The hash index
/// is untouched.
pub fn refresh_metadata_markers(metadata: &mut SourceMetadata)
    ensures
        final(metadata).backup_history@ == sort_history(old(metadata).backup_history@),
        markers_ok(final(metadata)),
        final(metadata).file_hashes == old(metadata).file_hashes,
{
    let mut h: Vec<BackupHistoryEntry> = Vec::new();
    core::mem::swap(&mut metadata.backup_history, &mut h);
    let ghost orig = h@;
    let sorted = sort_entries(h);
    proof {
        lemma_sort_history_props(orig);
    }
    let n = sorted.len();
    if n == 0 {
        metadata.last_backup = None;
        metadata.last_full_backup = None;
    } else {
        metadata.last_backup = Some(sorted[n - 1].created_at);
        proof {
            assert(forall|i: int|
                #![trigger sorted@[i]]
                0 <= i < sorted@.len() - 1 ==> entry_le(&sorted@[i], &sorted@[sorted@.len() - 1]));
        }
        let mut j = n;
        let mut found: Option<u64> = None;
        while j > 0 && found.is_none()
            invariant
                0 <= j <= n,
                n == sorted@.len(),
                history_sorted(sorted@),
                found is None ==> forall|i: int|
                    j <= i < n ==> !((#[trigger] sorted@[i]).backup_type is Full),
                found matches Some(m) ==> full_marker_is_max(sorted@, Some(m)),
            decreases j,
        {
            j = j - 1;
            let is_full = match sorted[j].backup_type {
                BackupHistoryType::Full => true,
                BackupHistoryType::Incremental => false,
            };
            if is_full {
                found = Some(sorted[j].created_at);
                proof {
                    assert forall|i: int|
                        0 <= i < n && (#[trigger] sorted@[i]).backup_type is Full implies sorted@[i].created_at
                        <= sorted@[j as int].created_at by {
                        if i > j {
                            assert(!(sorted@[i].backup_type is Full));
                        } else if i < j {
                            assert(entry_le(&sorted@[i], &sorted@[j as int]));
                        }
                    }
                }
            }
        }
        metadata.last_full_backup = found;
    }
    metadata.backup_history = sorted;
}

/// How a snapshot directory enters the history: its name, the kind and
/// instant its name denotes, and its measured contents.
pub open spec fn entry_of_dir(d: SnapshotDirInfo) -> BackupHistoryEntry {
    match parse_snapshot_name(d.name@) {
        Some((kind, ts)) => BackupHistoryEntry {
            backup_name: d.name,
            backup_type: kind,
            created_at: ts,
            files_backed_up: d.files,
            bytes_processed: d.bytes,
        },
        None => BackupHistoryEntry {
            backup_name: d.name,
            backup_type: BackupHistoryType::Full,
            created_at: 0,
            files_backed_up: d.files,
            bytes_processed: d.bytes,
        },
    }
}

/// A directory takes part in the history exactly when its name carries a
/// snapshot prefix.
pub open spec fn dir_eligible(d: SnapshotDirInfo) -> bool {
    kind_of_name(d.name@) is Some
}

/// Every eligible directory has a well-formed timestamp.
pub open spec fn dirs_parse_ok(dirs: Seq<SnapshotDirInfo>) -> bool {
    forall|i: int|
        0 <= i < dirs.len() && dir_eligible(#[trigger] dirs[i]) ==> parse_snapshot_name(
            dirs[i].name@,
        ) is Some
}

/// The history a directory listing denotes, before sorting: one entry per
/// eligible directory, in listing order.
pub open spec fn entries_of_dirs(dirs: Seq<SnapshotDirInfo>) -> Seq<BackupHistoryEntry>
    decreases dirs.len(),
{
    if dirs.len() == 0 {
        Seq::empty()
    } else {
        let rest = entries_of_dirs(dirs.drop_last());
        if dir_eligible(dirs.last()) {
            rest.push(entry_of_dir(dirs.last()))
        } else {
            rest
        }
    }
}

/// The entries of `h` whose name is not `name`, in order.
pub open spec fn entries_without_name(h: Seq<BackupHistoryEntry>, name: Seq<char>) -> Seq<
    BackupHistoryEntry,
>
    decreases h.len(),
{
    if h.len() == 0 {
        Seq::empty()
    } else {
        let rest = entries_without_name(h.drop_last(), name);
        if h.last().backup_name@ != name {
            rest.push(h.last())
        } else {
            rest
        }
    }
}

fn clone_entry(e: &BackupHistoryEntry) -> (r: BackupHistoryEntry)
    ensures
        r == *e,
{
    BackupHistoryEntry {
        backup_name: e.backup_name.clone(),
        backup_type: e.backup_type,
        created_at: e.created_at,
        files_backed_up: e.files_backed_up,
        bytes_processed: e.bytes_processed,
    }
}

fn scan_backup_entries(dirs: &Vec<SnapshotDirInfo>) -> (r: Result<
    Vec<BackupHistoryEntry>,
    MetadataError,
>)
    ensures
        match r {
            Ok(v) => dirs_parse_ok(dirs@) && v@ == entries_of_dirs(dirs@),
            Err(_) => !dirs_parse_ok(dirs@),
        },
{
    let mut out: Vec<BackupHistoryEntry> = Vec::new();
    let mut i: usize = 0;
    while i < dirs.len()
        invariant
            0 <= i <= dirs@.len(),
            dirs_parse_ok(dirs@.take(i as int)),
            out@ == entries_of_dirs(dirs@.take(i as int)),
        decreases dirs@.len() - i,
    {
        let d = &dirs[i];
        proof {
            assert(dirs@.take(i + 1).drop_last() =~= dirs@.take(i as int));
            assert(dirs@.take(i + 1).last() == dirs@[i as int]);
            assert(forall|j: int| 0 <= j < i ==> dirs@.take(i + 1)[j] == dirs@.take(i as int)[j]);
        }
        let kind = match backup_history_type_from_name(d.name.as_str()) {
            Some(k) => k,
            None => {
                i = i + 1;
                continue ;
            },
        };
        let created_at = match parse_backup_created_at(d.name.as_str()) {
            Some(v) => v,
            None => {
                proof {
                    assert(dir_eligible(dirs@[i as int]));
                    assert(!dirs_parse_ok(dirs@)) by {
                        assert(parse_snapshot_name(dirs@[i as int].name@) is None);
                    }
                }
                return Err(MetadataError::MalformedSnapshotName);
            },
        };
        let entry = BackupHistoryEntry {
            backup_name: d.name.clone(),
            backup_type: kind,
            created_at,
            files_backed_up: d.files,
            bytes_processed: d.bytes,
        };
        proof {
            assert(entry == entry_of_dir(dirs@[i as int]));
        }
        out.push(entry);
        i = i + 1;
    }
    proof {
        assert(dirs@.take(dirs@.len() as int) =~= dirs@);
    }
    Ok(out)
}

/// Rebuilds the history from the on-disk snapshot directories: names without
/// a snapshot prefix are ignored, a prefixed name with a malformed timestamp
/// is a hard error, and the result is sorted with the markers recomputed.
pub fn synchronize_metadata_history_with_disk(
    metadata: &mut SourceMetadata,
    dirs: &Vec<SnapshotDirInfo>,
) -> (r: Result<(), MetadataError>)
    ensures
        match r {
            Ok(()) => {
                &&& dirs_parse_ok(dirs@)
                &&& final(metadata).backup_history@ == sort_history(entries_of_dirs(dirs@))
                &&& markers_ok(final(metadata))
                &&& final(metadata).file_hashes == old(metadata).file_hashes
            },
            Err(_) => !dirs_parse_ok(dirs@) && *final(metadata) == *old(metadata),
        },
{
    let entries = match scan_backup_entries(dirs) {
        Ok(v) => v,
        Err(e) => { return Err(e) },
    };
    metadata.backup_history = entries;
    refresh_metadata_markers(metadata);
    Ok(())
}

/// Replaces any entry of the same name with the new one, then restores the
/// sorted order and the markers. The hash index is untouched.
pub fn append_backup_history_entry(
    metadata: &mut SourceMetadata,
    backup_name: &str,
    backup_type: BackupHistoryType,
    created_at: u64,
    files_backed_up: usize,
    bytes_processed: u64,
)
    ensures
        ({
            let kept = entries_without_name(old(metadata).backup_history@, backup_name@);
            exists|e: BackupHistoryEntry|
                {
                    &&& e.backup_name@ == backup_name@
                    &&& e.backup_type == backup_type
                    &&& e.created_at == created_at
                    &&& e.files_backed_up == files_backed_up
                    &&& e.bytes_processed == bytes_processed
                    &&& final(metadata).backup_history@ == sort_history(kept.push(e))
                }
        }),
        markers_ok(final(metadata)),
        final(metadata).file_hashes == old(metadata).file_hashes,
{
    let ghost orig = metadata.backup_history@;
    let mut h: Vec<BackupHistoryEntry> = Vec::new();
    core::mem::swap(&mut metadata.backup_history, &mut h);
    let mut kept: Vec<BackupHistoryEntry> = Vec::new();
    let mut i: usize = 0;
    while i < h.len()
        invariant
            0 <= i <= h@.len(),
            h@ == orig,
            kept@ == entries_without_name(orig.take(i as int), backup_name@),
        decreases h@.len() - i,
    {
        proof {
            assert(orig.take(i + 1).drop_last() =~= orig.take(i as int));
            assert(orig.take(i + 1).last() == orig[i as int]);
        }
        if !str_eq(h[i].backup_name.as_str(), backup_name) {
            let e = clone_entry(&h[i]);
            kept.push(e);
        }
        i = i + 1;
    }
    proof {
        assert(orig.take(orig.len() as int) =~= orig);
    }
    let entry = BackupHistoryEntry {
        backup_name: String::from_str(backup_name),
        backup_type,
        created_at,
        files_backed_up,
        bytes_processed,
    };
    let ghost entry_g = entry;
    kept.push(entry);
    metadata.backup_history = kept;
    refresh_metadata_markers(metadata);
    proof {
        assert(entry_g.backup_name@ == backup_name@);
    }
}

/// Every incremental entry has a full entry somewhere before it.
pub open spec fn no_inc_before_full(h: Seq<BackupHistoryEntry>) -> bool {
    forall|i: int|
        0 <= i < h.len() && (#[trigger] h[i]).backup_type is Incremental ==> exists|j: int|
            0 <= j < i && (#[trigger] h[j]).backup_type is Full
}

/// The two histories agree pointwise on every recorded field.
pub open spec fn histories_agree(a: Seq<BackupHistoryEntry>, b: Seq<BackupHistoryEntry>) -> bool {
    &&& a.len() == b.len()
    &&& forall|i: int|
        0 <= i < a.len() ==> {
            &&& (#[trigger] a[i]).backup_name@ == b[i].backup_name@
            &&& a[i].backup_type == b[i].backup_type
            &&& a[i].files_backed_up == b[i].files_backed_up
            &&& a[i].bytes_processed == b[i].bytes_processed
        }
}

/// The creation instant of the last full entry, scanning from the end.
pub open spec fn last_full_of(h: Seq<BackupHistoryEntry>) -> Option<u64>
    decreases h.len(),
{
    if h.len() == 0 {
        None
    } else if h.last().backup_type is Full {
        Some(h.last().created_at)
    } else {
        last_full_of(h.drop_last())
    }
}

/// The disk is the truth: with any snapshots on disk, the metadata file must
/// exist, its history must match the disk snapshot for snapshot on name,
/// kind, file count and byte total after both are sorted, no incremental may
/// precede the first full, and both markers must equal what the history
/// implies.
pub open spec fn metadata_consistent_with_disk(
    dirs: Seq<SnapshotDirInfo>,
    metadata_exists: bool,
    m: SourceMetadata,
) -> bool {
    let disk = sort_history(entries_of_dirs(dirs));
    if disk.len() == 0 {
        true
    } else {
        let ms = sort_history(m.backup_history@);
        &&& metadata_exists
        &&& m.backup_history@.len() > 0
        &&& histories_agree(ms, disk)
        &&& no_inc_before_full(ms)
        &&& m.last_backup == Some(ms.last().created_at)
        &&& m.last_full_backup == last_full_of(ms)
    }
}

proof fn lemma_last_full_scan(h: Seq<BackupHistoryEntry>, j: int)
    requires
        0 <= j < h.len(),
        h[j].backup_type is Full,
        forall|k: int| j < k < h.len() ==> !((#[trigger] h[k]).backup_type is Full),
    ensures
        last_full_of(h) == Some(h[j].created_at),
    decreases h.len(),
{
    if j == h.len() - 1 {
    } else {
        assert(!(h.last().backup_type is Full));
        lemma_last_full_scan(h.drop_last(), j);
    }
}

proof fn lemma_last_full_none(h: Seq<BackupHistoryEntry>)
    requires
        forall|k: int| 0 <= k < h.len() ==> !((#[trigger] h[k]).backup_type is Full),
    ensures
        last_full_of(h) is None,
    decreases h.len(),
{
    if h.len() > 0 {
        lemma_last_full_none(h.drop_last());
    }
}

fn last_full_created(h: &Vec<BackupHistoryEntry>) -> (r: Option<u64>)
    ensures
        r == last_full_of(h@),
{
    let mut j = h.len();
    let mut found: Option<u64> = None;
    while j > 0 && found.is_none()
        invariant
            0 <= j <= h@.len(),
            found is None ==> forall|k: int|
                j <= k < h@.len() ==> !((#[trigger] h@[k]).backup_type is Full),
            found matches Some(m) ==> last_full_of(h@) == Some(m),
        decreases j,
    {
        j = j - 1;
        let is_full = match h[j].backup_type {
            BackupHistoryType::Full => true,
            BackupHistoryType::Incremental => false,
        };
        if is_full {
            found = Some(h[j].created_at);
            proof {
                lemma_last_full_scan(h@, j as int);
            }
        }
    }
    proof {
        if found is None {
            lemma_last_full_none(h@);
        }
    }
    found
}

#[verifier::spinoff_prover]
fn histories_agree_exec(a: &Vec<BackupHistoryEntry>, b: &Vec<BackupHistoryEntry>) -> (r: bool)
    requires
        a@.len() == b@.len(),
    ensures
        r == histories_agree(a@, b@),
{
    let mut i: usize = 0;
    while i < a.len()
        invariant
            0 <= i <= a@.len(),
            a@.len() == b@.len(),
            forall|k: int|
                0 <= k < i ==> {
                    &&& (#[trigger] a@[k]).backup_name@ == b@[k].backup_name@
                    &&& a@[k].backup_type == b@[k].backup_type
                    &&& a@[k].files_backed_up == b@[k].files_backed_up
                    &&& a@[k].bytes_processed == b@[k].bytes_processed
                },
        decreases a@.len() - i,
    {
        let x = &a[i];
        let y = &b[i];
        let type_eq = match (x.backup_type, y.backup_type) {
            (BackupHistoryType::Full, BackupHistoryType::Full) => true,
            (BackupHistoryType::Incremental, BackupHistoryType::Incremental) => true,
            _ => false,
        };
        if !str_eq(x.backup_name.as_str(), y.backup_name.as_str()) || !type_eq
            || x.files_backed_up != y.files_backed_up || x.bytes_processed != y.bytes_processed {
            return false;
        }
        i = i + 1;
    }
    true
}

#[verifier::rlimit(50)]
fn no_inc_before_full_exec(h: &Vec<BackupHistoryEntry>) -> (r: bool)
    ensures
        r == no_inc_before_full(h@),
{
    let mut seen_full = false;
    let mut i: usize = 0;
    while i < h.len()
        invariant
            0 <= i <= h@.len(),
            seen_full == exists|j: int| 0 <= j < i && (#[trigger] h@[j]).backup_type is Full,
            forall|k: int|
                0 <= k < i && (#[trigger] h@[k]).backup_type is Incremental ==> exists|j: int|
                    0 <= j < k && (#[trigger] h@[j]).backup_type is Full,
        decreases h@.len() - i,
    {
        match h[i].backup_type {
            BackupHistoryType::Full => {
                proof {
                    assert(h@[i as int].backup_type is Full);
                }
                seen_full = true;
            },
            BackupHistoryType::Incremental => {
                if !seen_full {
                    return false;
                }
            },
        }
        i = i + 1;
    }
    true
}

/// Which failure the validation reports, in checking order: malformed
/// snapshot names first, then the missing or empty metadata file, then the
/// count, the per-entry fields, the full-before-incremental rule, and the
/// markers. `None` means the metadata is consistent with the disk.
pub open spec fn expected_validation_verdict(
    dirs: Seq<SnapshotDirInfo>,
    metadata_exists: bool,
    m: SourceMetadata,
) -> Option<MetadataError> {
    if !dirs_parse_ok(dirs) {
        Some(MetadataError::MalformedSnapshotName)
    } else {
        let disk = sort_history(entries_of_dirs(dirs));
        if disk.len() == 0 {
            None
        } else if !metadata_exists {
            Some(MetadataError::MetadataFileMissing)
        } else if m.backup_history@.len() == 0 {
            Some(MetadataError::HistoryEmpty)
        } else {
            let ms = sort_history(m.backup_history@);
            if ms.len() != disk.len() {
                Some(MetadataError::HistoryCountMismatch)
            } else if !histories_agree(ms, disk) {
                Some(MetadataError::HistoryEntryMismatch)
            } else if !no_inc_before_full(ms) {
                Some(MetadataError::IncrementalBeforeFull)
            } else if !(m.last_backup == Some(ms.last().created_at) && m.last_full_backup
                == last_full_of(ms)) {
                Some(MetadataError::MarkerMismatch)
            } else {
                None
            }
        }
    }
}

/// Checks the metadata against the snapshot directories actually on disk.
/// Succeeds exactly when every snapshot name parses and the metadata is
/// consistent with the disk; a failure makes the next run force a full
/// snapshot. Each error names its exact cause.
#[verifier::rlimit(100)]
#[verifier::spinoff_prover]
pub fn validate_backup_metadata_history(
    dirs: &Vec<SnapshotDirInfo>,
    metadata_exists: bool,
    metadata: &SourceMetadata,
) -> (r: Result<(), MetadataError>)
    ensures
        r is Ok <==> dirs_parse_ok(dirs@) && metadata_consistent_with_disk(
            dirs@,
            metadata_exists,
            *metadata,
        ),
        (r matches Err(e) && e is MalformedSnapshotName) <==> !dirs_parse_ok(dirs@),
        r matches Err(e) ==> expected_validation_verdict(dirs@, metadata_exists, *metadata)
            == Some(e),
{
    proof {
        lemma_sort_history_props(entries_of_dirs(dirs@));
        lemma_sort_history_props(metadata.backup_history@);
    }
    let entries = match scan_backup_entries(dirs) {
        Ok(v) => v,
        Err(e) => { return Err(MetadataError::MalformedSnapshotName) },
    };
    proof {
        lemma_sort_history_props(entries@);
    }
    let disk_sorted = sort_entries(entries);
    if disk_sorted.len() == 0 {
        return Ok(());
    }
    if !metadata_exists {
        return Err(MetadataError::MetadataFileMissing);
    }
    if metadata.backup_history.len() == 0 {
        return Err(MetadataError::HistoryEmpty);
    }
    let mut mcopy: Vec<BackupHistoryEntry> = Vec::new();
    let mut i: usize = 0;
    while i < metadata.backup_history.len()
        invariant
            0 <= i <= metadata.backup_history@.len(),
            mcopy@ == metadata.backup_history@.take(i as int),
        decreases metadata.backup_history@.len() - i,
    {
        let e = clone_entry(&metadata.backup_history[i]);
        mcopy.push(e);
        proof {
            assert(metadata.backup_history@.take(i + 1) =~= metadata.backup_history@.take(
                i as int,
            ).push(metadata.backup_history@[i as int]));
        }
        i = i + 1;
    }
    proof {
        assert(metadata.backup_history@.take(metadata.backup_history@.len() as int)
            =~= metadata.backup_history@);
        lemma_sort_history_props(metadata.backup_history@);
    }
    let ms = sort_entries(mcopy);
    if ms.len() != disk_sorted.len() {
        return Err(MetadataError::HistoryCountMismatch);
    }
    if !histories_agree_exec(&ms, &disk_sorted) {
        return Err(MetadataError::HistoryEntryMismatch);
    }
    if !no_inc_before_full_exec(&ms) {
        return Err(MetadataError::IncrementalBeforeFull);
    }
    let expected_last = Some(ms[ms.len() - 1].created_at);
    let expected_full = last_full_created(&ms);
    let last_ok = match (metadata.last_backup, expected_last) {
        (Some(a), Some(b)) => a == b,
        (None, None) => true,
        _ => false,
    };
    let full_ok = match (metadata.last_full_backup, expected_full) {
        (Some(a), Some(b)) => a == b,
        (None, None) => true,
        _ => false,
    };
    if !last_ok || !full_ok {
        return Err(MetadataError::MarkerMismatch);
    }
    Ok(())
}

/// The hash recorded for a path: the value of the first pair whose key is
/// the path.
pub open spec fn hash_lookup(h: Seq<(String, String)>, k: Seq<char>) -> Option<Seq<char>>
    decreases h.len(),
{
    if h.len() == 0 {
        None
    } else if h[0].0@ == k {
        Some(h[0].1@)
    } else {
        hash_lookup(h.skip(1), k)
    }
}

/// Index of the first pair whose key is `key`.
pub fn hashes_find(h: &Vec<(String, String)>, key: &str) -> (r: Option<usize>)
    ensures
        match r {
            Some(i) => i < h@.len() && h@[i as int].0@ == key@ && hash_lookup(h@, key@) == Some(
                h@[i as int].1@,
            ) && forall|j: int| 0 <= j < i ==> (#[trigger] h@[j]).0@ != key@,
            None => hash_lookup(h@, key@) is None,
        },
{
    proof {
        assert(h@.skip(0) =~= h@);
    }
    let mut i: usize = 0;
    while i < h.len()
        invariant
            0 <= i <= h@.len(),
            hash_lookup(h@, key@) == hash_lookup(h@.skip(i as int), key@),
            forall|j: int| 0 <= j < i ==> (#[trigger] h@[j]).0@ != key@,
        decreases h@.len() - i,
    {
        proof {
            assert(h@.skip(i as int)[0] == h@[i as int]);
            assert(h@.skip(i as int).skip(1) =~= h@.skip(i + 1));
        }
        if str_eq(h[i].0.as_str(), key) {
            return Some(i);
        }
        i = i + 1;
    }
    None
}

proof fn lemma_lookup_update(h: Seq<(String, String)>, i: int, p: (String, String), k: Seq<char>)
    requires
        0 <= i < h.len(),
        h[i].0@ == p.0@,
        forall|j: int| 0 <= j < i ==> (#[trigger] h[j]).0@ != p.0@,
    ensures
        hash_lookup(h.update(i, p), k) == if k == p.0@ {
            Some(p.1@)
        } else {
            hash_lookup(h, k)
        },
    decreases i,
{
    let hu = h.update(i, p);
    if i == 0 {
        assert(hu[0] == p);
        if k != p.0@ {
            assert(hu.skip(1) =~= h.skip(1));
        }
    } else {
        assert(hu[0] == h[0]);
        assert(h[0].0@ != p.0@);
        assert(hu.skip(1) =~= h.skip(1).update(i - 1, p));
        assert(forall|j: int| 0 <= j < i - 1 ==> (#[trigger] h.skip(1)[j]).0@ != p.0@) by {
            assert(forall|j: int| 0 <= j < i - 1 ==> h.skip(1)[j] == h[j + 1]);
        }
        assert(h.skip(1)[i - 1] == h[i as int]);
        lemma_lookup_update(h.skip(1), i - 1, p, k);
    }
}

#[verifier::spinoff_prover]
proof fn lemma_lookup_push(h: Seq<(String, String)>, p: (String, String), k: Seq<char>)
    requires
        forall|j: int| 0 <= j < h.len() ==> (#[trigger] h[j]).0@ != p.0@,
    ensures
        hash_lookup(h.push(p), k) == if hash_lookup(h, k) is Some {
            hash_lookup(h, k)
        } else if k == p.0@ {
            Some(p.1@)
        } else {
            None
        },
    decreases h.len(),
{
    let goal = if hash_lookup(h, k) is Some {
        hash_lookup(h, k)
    } else if k == p.0@ {
        Some(p.1@)
    } else {
        None
    };
    if h.len() == 0 {
        assert(h.push(p)[0] == p);
        assert(h.push(p).skip(1) =~= Seq::<(String, String)>::empty());
        assert(hash_lookup(h, k) is None);
        if k == p.0@ {
            assert(hash_lookup(h.push(p), k) == Some(p.1@));
        } else {
            assert(hash_lookup(h.push(p), k) == hash_lookup(
                Seq::<(String, String)>::empty(),
                k,
            ));
            assert(hash_lookup(h.push(p), k) is None);
        }
        assert(hash_lookup(h.push(p), k) == goal);
    } else {
        assert(h.push(p)[0] == h[0]);
        assert(h.push(p).skip(1) =~= h.skip(1).push(p));
        if h[0].0@ == k {
            assert(hash_lookup(h, k) == Some(h[0].1@));
            assert(hash_lookup(h.push(p), k) == Some(h[0].1@));
            assert(hash_lookup(h, k) is Some);
            assert(hash_lookup(h.push(p), k) == goal);
        } else {
            assert forall|j: int|
                0 <= j < h.skip(1).len() implies (#[trigger] h.skip(1)[j]).0@ != p.0@ by {
                assert(h.skip(1)[j] == h[j + 1]);
            }
            lemma_lookup_push(h.skip(1), p, k);
            assert(hash_lookup(h.push(p), k) == hash_lookup(h.skip(1).push(p), k));
            assert(hash_lookup(h, k) == hash_lookup(h.skip(1), k));
            assert(hash_lookup(h.push(p), k) == goal);
        }
    }
    assert(hash_lookup(h.push(p), k) == goal);
}

/// Records `value` as the hash of `key`: replaces the existing pair or adds
/// a new one. No other key's hash changes.
pub fn hashes_insert(h: &mut Vec<(String, String)>, key: &str, value: String)
    ensures
        hash_lookup(final(h)@, key@) == Some(value@),
        forall|k2: Seq<char>|
            k2 != key@ ==> #[trigger] hash_lookup(final(h)@, k2) == hash_lookup(old(h)@, k2),
{
    let ghost val = value@;
    match hashes_find(h, key) {
        Some(i) => {
            let ghost before = h@;
            let pair = (String::from_str(key), value);
            let ghost pair_g = pair;
            h.set(i, pair);
            proof {
                assert(h@ =~= before.update(i as int, pair_g));
                assert forall|k2: Seq<char>| true implies hash_lookup(h@, k2) == (if k2 == key@ {
                    Some(val)
                } else {
                    hash_lookup(before, k2)
                }) by {
                    lemma_lookup_update(before, i as int, pair_g, k2);
                }
            }
        },
        None => {
            let ghost before = h@;
            let pair = (String::from_str(key), value);
            let ghost pair_g = pair;
            // A key that is absent from the index never occurs in it at all:
            // the first-match lookup failing means every key differs.
            proof {
                lemma_lookup_none_all_differ(before, key@);
            }
            h.push(pair);
            proof {
                assert forall|k2: Seq<char>| true implies hash_lookup(h@, k2) == (if hash_lookup(
                    before,
                    k2,
                ) is Some {
                    hash_lookup(before, k2)
                } else if k2 == key@ {
                    Some(val)
                } else {
                    None
                }) by {
                    lemma_lookup_push(before, pair_g, k2);
                }
            }
        },
    }
}

proof fn lemma_lookup_none_all_differ(h: Seq<(String, String)>, k: Seq<char>)
    requires
        hash_lookup(h, k) is None,
    ensures
        forall|j: int| 0 <= j < h.len() ==> (#[trigger] h[j]).0@ != k,
    decreases h.len(),
{
    if h.len() > 0 {
        lemma_lookup_none_all_differ(h.skip(1), k);
        assert forall|j: int| 0 <= j < h.len() implies (#[trigger] h[j]).0@ != k by {
            if j >= 1 {
                assert(h[j] == h.skip(1)[j - 1]);
            }
        }
    }
}

/// The pairs of `h` whose key is present in `current`, in order: what the
/// deleted-file cleanup keeps.
pub open spec fn pairs_with_live_keys(
    h: Seq<(String, String)>,
    current: Seq<(String, String)>,
) -> Seq<(String, String)>
    decreases h.len(),
{
    if h.len() == 0 {
        Seq::empty()
    } else {
        let rest = pairs_with_live_keys(h.skip(1), current);
        if hash_lookup(current, h[0].0@) is Some {
            seq![h[0]] + rest
        } else {
            rest
        }
    }
}

/// What the cleanup leaves at each key: the old hash where the key is still
/// present in the current scan, nothing otherwise.
pub proof fn lemma_lookup_live(
    h: Seq<(String, String)>,
    current: Seq<(String, String)>,
    k: Seq<char>,
)
    ensures
        hash_lookup(pairs_with_live_keys(h, current), k) == if hash_lookup(current, k) is Some {
            hash_lookup(h, k)
        } else {
            None
        },
    decreases h.len(),
{
    if h.len() > 0 {
        lemma_lookup_live(h.skip(1), current, k);
        let rest = pairs_with_live_keys(h.skip(1), current);
        if hash_lookup(current, h[0].0@) is Some {
            let live = seq![h[0]] + rest;
            assert(live[0] == h[0]);
            assert(live.skip(1) =~= rest);
        }
    }
}

/// Deleted-file cleanup: drops every hash whose path is no longer present.
pub fn hashes_retain_current(h: &mut Vec<(String, String)>, current: &Vec<(String, String)>)
    ensures
        final(h)@ == pairs_with_live_keys(old(h)@, current@),
{
    let ghost orig = h@;
    let mut old_pairs: Vec<(String, String)> = Vec::new();
    core::mem::swap(h, &mut old_pairs);
    proof {
        assert(orig.skip(0) =~= orig);
        assert(h@ + pairs_with_live_keys(orig, current@) =~= pairs_with_live_keys(orig, current@));
    }
    let mut i: usize = 0;
    while i < old_pairs.len()
        invariant
            0 <= i <= old_pairs@.len(),
            old_pairs@ == orig,
            pairs_with_live_keys(orig, current@) == h@ + pairs_with_live_keys(
                orig.skip(i as int),
                current@,
            ),
        decreases old_pairs@.len() - i,
    {
        proof {
            assert(orig.skip(i as int)[0] == orig[i as int]);
            assert(orig.skip(i as int).skip(1) =~= orig.skip(i + 1));
        }
        let keep = match hashes_find(current, old_pairs[i].0.as_str()) {
            Some(_) => true,
            None => false,
        };
        let ghost before = h@;
        if keep {
            let p = (old_pairs[i].0.clone(), old_pairs[i].1.clone());
            proof {
                assert(p == orig[i as int]);
            }
            h.push(p);
            proof {
                assert(before + (seq![orig[i as int]] + pairs_with_live_keys(
                    orig.skip(i + 1),
                    current@,
                )) =~= h@ + pairs_with_live_keys(orig.skip(i + 1), current@));
            }
        }
        i = i + 1;
    }
    proof {
        assert(orig.skip(orig.len() as int).len() == 0);
        assert(h@ + pairs_with_live_keys(orig.skip(orig.len() as int), current@) =~= h@);
    }
}

} // verus!

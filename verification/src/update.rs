//! Release versions: normalizing version strings, ordering them, and finding
//! a release asset's download location.

use vstd::prelude::*;
use crate::strutil::{all_digits, digits_val, lex_le, str_eq};
use core::cmp::Ordering;

verus! {

/// One downloadable file attached to a release.
#[derive(Debug)]
pub struct GitHubReleaseAsset {
    pub name: String,
    pub browser_download_url: String,
}

/// A published release: its tag and its assets.
#[derive(Debug)]
pub struct GitHubRelease {
    pub tag_name: String,
    pub assets: Vec<GitHubReleaseAsset>,
}

/// Signals that a release lacks the asset built for this platform.
#[derive(Debug)]
pub struct AssetNotFoundError {}

impl AssetNotFoundError {
    /// A short description, for error reporting at the edges.
    pub fn message(&self) -> (r: &'static str) {
        "Release asset not found in release"
    }
}

pub open spec fn is_space(c: char) -> bool {
    c == ' ' || c == '\t' || c == '\n' || c == '\r'
}

pub open spec fn trim_start_spaces(s: Seq<char>) -> Seq<char>
    decreases s.len(),
{
    if s.len() > 0 && is_space(s[0]) {
        trim_start_spaces(s.skip(1))
    } else {
        s
    }
}

pub open spec fn trim_end_spaces(s: Seq<char>) -> Seq<char>
    decreases s.len(),
{
    if s.len() > 0 && is_space(s.last()) {
        trim_end_spaces(s.drop_last())
    } else {
        s
    }
}

pub open spec fn strip_version_prefix(s: Seq<char>) -> Seq<char>
    decreases s.len(),
{
    if s.len() > 0 && (s[0] == 'v' || s[0] == 'V') {
        strip_version_prefix(s.skip(1))
    } else {
        s
    }
}

/// Index of the first occurrence of `c`, or the length when absent.
pub open spec fn idx_of(s: Seq<char>, c: char) -> int
    decreases s.len(),
{
    if s.len() == 0 {
        0
    } else if s[0] == c {
        0
    } else {
        1 + idx_of(s.skip(1), c)
    }
}

pub open spec fn cut_at(s: Seq<char>, c: char) -> Seq<char> {
    if idx_of(s, c) < s.len() {
        s.take(idx_of(s, c))
    } else {
        s
    }
}

/// What `normalize_version` returns: surrounding whitespace removed, leading
/// `v`/`V` characters removed, and everything from the first `-` or `+` cut
/// off.
pub open spec fn normalized_version(s: Seq<char>) -> Seq<char> {
    cut_at(cut_at(strip_version_prefix(trim_end_spaces(trim_start_spaces(s))), '-'), '+')
}

fn char_is_space(c: char) -> (r: bool)
    ensures
        r == is_space(c),
{
    c == ' ' || c == '\t' || c == '\n' || c == '\r'
}

fn char_is_version_prefix(c: char) -> (r: bool)
    ensures
        r == (c == 'v' || c == 'V'),
{
    c == 'v' || c == 'V'
}

fn char_is_pre_release_sep(c: char) -> (r: bool)
    ensures
        r == (c == '-' || c == '+'),
{
    c == '-' || c == '+'
}

proof fn lemma_idx_of(s: Seq<char>, c: char)
    ensures
        0 <= idx_of(s, c) <= s.len(),
        idx_of(s, c) < s.len() ==> s[idx_of(s, c)] == c,
        forall|j: int| 0 <= j < idx_of(s, c) ==> s[j] != c,
    decreases s.len(),
{
    if s.len() == 0 || s[0] == c {
    } else {
        lemma_idx_of(s.skip(1), c);
        assert(forall|j: int| 1 <= j < idx_of(s, c) ==> s[j] == s.skip(1)[j - 1]);
    }
}

pub proof fn lemma_idx_of_at(s: Seq<char>, c: char, i: int)
    requires
        0 <= i <= s.len(),
        forall|j: int| 0 <= j < i ==> s[j] != c,
        i < s.len() ==> s[i] == c,
    ensures
        i < s.len() ==> idx_of(s, c) == i,
        i == s.len() ==> idx_of(s, c) == s.len(),
    decreases s.len(),
{
    if s.len() == 0 {
    } else if s[0] == c {
    } else {
        assert(forall|j: int| 0 <= j < i - 1 ==> s.skip(1)[j] == s[j + 1]);
        if i < s.len() {
            assert(s.skip(1)[i - 1] == s[i as int]);
        }
        lemma_idx_of_at(s.skip(1), c, if i == 0 {
            0
        } else {
            i - 1
        });
    }
}

proof fn lemma_trim_start_at(s: Seq<char>, a: int)
    requires
        0 <= a <= s.len(),
        forall|j: int| 0 <= j < a ==> is_space(#[trigger] s[j]),
        a < s.len() ==> !is_space(s[a]),
    ensures
        trim_start_spaces(s) == s.skip(a),
    decreases a,
{
    if a == 0 {
        assert(s.skip(0) =~= s);
    } else {
        assert(is_space(s[0]));
        assert(forall|j: int| 0 <= j < a - 1 ==> s.skip(1)[j] == s[j + 1]);
        if a < s.len() {
            assert(s.skip(1)[a - 1] == s[a]);
        }
        lemma_trim_start_at(s.skip(1), a - 1);
        assert(s.skip(1).skip(a - 1) =~= s.skip(a));
    }
}

proof fn lemma_trim_end_at(s: Seq<char>, b: int)
    requires
        0 <= b <= s.len(),
        forall|j: int| b <= j < s.len() ==> is_space(#[trigger] s[j]),
        b > 0 ==> !is_space(s[b - 1]),
    ensures
        trim_end_spaces(s) == s.take(b),
    decreases s.len() - b,
{
    if b == s.len() {
        assert(s.take(b) =~= s);
    } else {
        assert(is_space(s.last()));
        assert(forall|j: int| b <= j < s.len() - 1 ==> s.drop_last()[j] == s[j]);
        lemma_trim_end_at(s.drop_last(), b);
        assert(s.drop_last().take(b) =~= s.take(b));
    }
}

proof fn lemma_strip_prefix_at(s: Seq<char>, a: int)
    requires
        0 <= a <= s.len(),
        forall|j: int| 0 <= j < a ==> (#[trigger] s[j]) == 'v' || s[j] == 'V',
        a < s.len() ==> !(s[a] == 'v' || s[a] == 'V'),
    ensures
        strip_version_prefix(s) == s.skip(a),
    decreases a,
{
    if a == 0 {
        assert(s.skip(0) =~= s);
    } else {
        assert(forall|j: int| 0 <= j < a - 1 ==> s.skip(1)[j] == s[j + 1]);
        if a < s.len() {
            assert(s.skip(1)[a - 1] == s[a]);
        }
        lemma_strip_prefix_at(s.skip(1), a - 1);
        assert(s.skip(1).skip(a - 1) =~= s.skip(a));
    }
}

/// Removes surrounding whitespace, any leading `v` or `V`, and a `-` or `+`
/// suffix: `v1.2.3-beta.1` becomes `1.2.3`.
#[verifier::loop_isolation(false)]
#[verifier::rlimit(60)]
pub fn normalize_version(input: &str) -> (r: String)
    ensures
        r@ == normalized_version(input@),
{
    let n = input.unicode_len();
    let mut a: usize = 0;
    while a < n && char_is_space(input.get_char(a))
        invariant
            0 <= a <= n,
            forall|j: int| 0 <= j < a ==> is_space(#[trigger] input@[j]),
        decreases n - a,
    {
        a = a + 1;
    }
    let mut b: usize = n;
    while b > a && char_is_space(input.get_char(b - 1))
        invariant
            a <= b <= n,
            forall|j: int| b <= j < n ==> is_space(#[trigger] input@[j]),
        decreases b,
    {
        b = b - 1;
    }
    proof {
        lemma_trim_start_at(input@, a as int);
        // The end scan stopped either at a non-space or at the start of the
        // trimmed part, which begins with a non-space when it is non-empty.
        lemma_trim_end_at(input@.skip(a as int), b - a as int);
        assert(input@.skip(a as int).take(b - a as int) =~= input@.subrange(a as int, b as int));
    }
    let trimmed = input.substring_char(a, b);
    proof {
        assert(trimmed@ == trim_end_spaces(trim_start_spaces(input@)));
    }
    let tlen = b - a;
    let mut v: usize = 0;
    while v < tlen && char_is_version_prefix(trimmed.get_char(v))
        invariant
            0 <= v <= tlen,
            tlen == trimmed@.len(),
            forall|j: int| 0 <= j < v ==> (#[trigger] trimmed@[j]) == 'v' || trimmed@[j] == 'V',
        decreases tlen - v,
    {
        v = v + 1;
    }
    proof {
        lemma_strip_prefix_at(trimmed@, v as int);
    }
    let core_str = trimmed.substring_char(v, tlen);
    proof {
        assert(core_str@ == strip_version_prefix(trimmed@)) by {
            assert(core_str@ =~= trimmed@.skip(v as int));
        }
    }
    let clen = tlen - v;
    let mut e: usize = 0;
    while e < clen && !char_is_pre_release_sep(core_str.get_char(e))
        invariant
            0 <= e <= clen,
            clen == core_str@.len(),
            forall|j: int| 0 <= j < e ==> (#[trigger] core_str@[j]) != '-' && core_str@[j] != '+',
        decreases clen - e,
    {
        e = e + 1;
    }
    let result = core_str.substring_char(0, e);
    proof {
        let cs = core_str@;
        if e < clen {
            if cs[e as int] == '-' {
                lemma_idx_of_at(cs, '-', e as int);
                lemma_idx_of(cs.take(e as int), '-');
                assert(forall|j: int| 0 <= j < e ==> cs.take(e as int)[j] == cs[j]);
                lemma_idx_of_at(cs.take(e as int), '+', e as int);
                assert(cut_at(cs, '-') == cs.take(e as int));
                assert(cut_at(cs.take(e as int), '+') == cs.take(e as int));
            } else {
                assert(cs[e as int] == '+');
                // No separator occurs before e; where '-' first occurs at or
                // after e, the '-' cut keeps at least the first e characters,
                // and the '+' cut then stops exactly at e.
                lemma_cut_plus_case(cs, e as int);
            }
            assert(result@ =~= cs.take(e as int));
        } else {
            lemma_idx_of_at(cs, '-', clen as int);
            lemma_idx_of_at(cs, '+', clen as int);
            assert(cut_at(cs, '-') == cs);
            assert(cut_at(cs, '+') == cs);
            assert(result@ =~= cs);
        }
    }
    String::from_str(result)
}

proof fn lemma_cut_plus_case(cs: Seq<char>, e: int)
    requires
        0 <= e < cs.len(),
        cs[e] == '+',
        forall|j: int| 0 <= j < e ==> (#[trigger] cs[j]) != '-' && cs[j] != '+',
    ensures
        cut_at(cut_at(cs, '-'), '+') == cs.take(e),
{
    lemma_idx_of(cs, '-');
    let d = idx_of(cs, '-');
    assert(d >= e) by {
        if d < e {
            assert(cs[d] == '-');
            assert(false);
        }
    }
    if d < cs.len() {
        let cut1 = cs.take(d);
        assert(cut_at(cs, '-') == cut1);
        assert(forall|j: int| 0 <= j < e ==> cut1[j] == cs[j]);
        assert(cut1[e] == '+');
        lemma_idx_of_at(cut1, '+', e);
        assert(cut_at(cut1, '+') == cut1.take(e));
        assert(cut1.take(e) =~= cs.take(e));
    } else {
        assert(cut_at(cs, '-') == cs);
        lemma_idx_of_at(cs, '+', e);
        assert(cut_at(cs, '+') == cs.take(e));
    }
}

/// A dotted component: non-empty digits whose value fits in 64 bits.
pub open spec fn parse_component(s: Seq<char>) -> Option<u64> {
    if s.len() > 0 && all_digits(s) && digits_val(s) <= u64::MAX {
        Some(digits_val(s) as u64)
    } else {
        None
    }
}

/// The MAJOR.MINOR.PATCH reading of a version string: exactly three dotted
/// components, each a 64-bit number.
pub open spec fn parse_triplet(s: Seq<char>) -> Option<(u64, u64, u64)> {
    let n = normalized_version(s);
    let i = idx_of(n, '.');
    if i >= n.len() {
        None
    } else {
        let rest = n.skip(i + 1);
        let j = idx_of(rest, '.');
        if j >= rest.len() {
            None
        } else {
            let rest2 = rest.skip(j + 1);
            if idx_of(rest2, '.') < rest2.len() {
                None
            } else {
                match (parse_component(n.take(i)), parse_component(rest.take(j)), parse_component(
                    rest2,
                )) {
                    (Some(a), Some(b), Some(c)) => Some((a, b, c)),
                    _ => None,
                }
            }
        }
    }
}

fn parse_component_exec(s: &str, from: usize, to: usize) -> (r: Option<u64>)
    requires
        from <= to <= s@.len(),
    ensures
        r == parse_component(s@.subrange(from as int, to as int)),
{
    crate::strutil::parse_u64_range(s, from, to)
}

/// Reads `MAJOR.MINOR.PATCH` out of a version string; `None` when the shape
/// or a component is off.
#[verifier::loop_isolation(false)]
#[verifier::rlimit(60)]
pub fn parse_semver_triplet(input: &str) -> (r: Option<(u64, u64, u64)>)
    ensures
        r == parse_triplet(input@),
{
    let normalized = normalize_version(input);
    let ns = normalized.as_str();
    let n = ns.unicode_len();
    let d1 = match crate::strutil::find_char(ns, '.') {
        Some(i) => i,
        None => {
            proof {
                lemma_idx_of_at(ns@, '.', n as int);
            }
            return None;
        },
    };
    proof {
        lemma_idx_of_at(ns@, '.', d1 as int);
    }
    let rest_start = d1 + 1;
    let ghost rest = ns@.skip(rest_start as int);
    let mut d2 = rest_start;
    while d2 < n && ns.get_char(d2) != '.'
        invariant
            rest_start <= d2 <= n,
            forall|j: int| rest_start <= j < d2 ==> (#[trigger] ns@[j]) != '.',
        decreases n - d2,
    {
        d2 = d2 + 1;
    }
    proof {
        assert(forall|j: int| 0 <= j < d2 - rest_start ==> rest[j] == ns@[rest_start + j]);
        if d2 < n {
            assert(rest[d2 - rest_start] == ns@[d2 as int]);
        }
        lemma_idx_of_at(rest, '.', d2 - rest_start as int);
    }
    if d2 >= n {
        return None;
    }
    let rest2_start = d2 + 1;
    let ghost rest2 = rest.skip(d2 + 1 - rest_start as int);
    proof {
        assert(rest2 =~= ns@.skip(rest2_start as int));
    }
    let mut d3 = rest2_start;
    while d3 < n && ns.get_char(d3) != '.'
        invariant
            rest2_start <= d3 <= n,
            forall|j: int| rest2_start <= j < d3 ==> (#[trigger] ns@[j]) != '.',
        decreases n - d3,
    {
        d3 = d3 + 1;
    }
    proof {
        assert(forall|j: int| 0 <= j < d3 - rest2_start ==> rest2[j] == ns@[rest2_start + j]);
        if d3 < n {
            assert(rest2[d3 - rest2_start] == ns@[d3 as int]);
        }
        lemma_idx_of_at(rest2, '.', d3 - rest2_start as int);
    }
    if d3 < n {
        return None;
    }
    let major = match parse_component_exec(ns, 0, d1) {
        Some(v) => v,
        None => {
            proof {
                assert(ns@.subrange(0, d1 as int) =~= ns@.take(d1 as int));
            }
            return None;
        },
    };
    let minor = match parse_component_exec(ns, rest_start, d2) {
        Some(v) => v,
        None => {
            proof {
                assert(ns@.subrange(rest_start as int, d2 as int) =~= rest.take(
                    d2 - rest_start as int,
                ));
            }
            return None;
        },
    };
    let patch = match parse_component_exec(ns, rest2_start, n) {
        Some(v) => v,
        None => {
            proof {
                assert(ns@.subrange(rest2_start as int, n as int) =~= rest2);
            }
            return None;
        },
    };
    proof {
        assert(ns@.subrange(0, d1 as int) =~= ns@.take(d1 as int));
        assert(ns@.subrange(rest_start as int, d2 as int) =~= rest.take(d2 - rest_start as int));
        assert(ns@.subrange(rest2_start as int, n as int) =~= rest2);
    }
    Some((major, minor, patch))
}

/// How `compare_versions` decides: numerically when both sides read as
/// MAJOR.MINOR.PATCH, otherwise lexicographically on the normalized strings.
pub open spec fn version_order(a: Seq<char>, b: Seq<char>) -> Ordering {
    match (parse_triplet(a), parse_triplet(b)) {
        (Some(x), Some(y)) => triple_order(x, y),
        _ => lex_order(normalized_version(a), normalized_version(b)),
    }
}

pub open spec fn triple_order(x: (u64, u64, u64), y: (u64, u64, u64)) -> Ordering {
    if x.0 != y.0 {
        if x.0 < y.0 {
            Ordering::Less
        } else {
            Ordering::Greater
        }
    } else if x.1 != y.1 {
        if x.1 < y.1 {
            Ordering::Less
        } else {
            Ordering::Greater
        }
    } else if x.2 != y.2 {
        if x.2 < y.2 {
            Ordering::Less
        } else {
            Ordering::Greater
        }
    } else {
        Ordering::Equal
    }
}

pub open spec fn lex_order(a: Seq<char>, b: Seq<char>) -> Ordering {
    if a == b {
        Ordering::Equal
    } else if lex_le(a, b) {
        Ordering::Less
    } else {
        Ordering::Greater
    }
}

/// Orders two version strings: numerically when both parse as semver
/// triplets, lexicographically on the normalized forms otherwise.
pub fn compare_versions(current: &str, candidate: &str) -> (r: Ordering)
    ensures
        r == version_order(current@, candidate@),
{
    let c = parse_semver_triplet(current);
    let n = parse_semver_triplet(candidate);
    match (c, n) {
        (Some(x), Some(y)) => {
            if x.0 != y.0 {
                if x.0 < y.0 {
                    Ordering::Less
                } else {
                    Ordering::Greater
                }
            } else if x.1 != y.1 {
                if x.1 < y.1 {
                    Ordering::Less
                } else {
                    Ordering::Greater
                }
            } else if x.2 != y.2 {
                if x.2 < y.2 {
                    Ordering::Less
                } else {
                    Ordering::Greater
                }
            } else {
                Ordering::Equal
            }
        },
        _ => {
            let na = normalize_version(current);
            let nb = normalize_version(candidate);
            if str_eq(na.as_str(), nb.as_str()) {
                Ordering::Equal
            } else if crate::strutil::str_lex_le(na.as_str(), nb.as_str()) {
                Ordering::Less
            } else {
                Ordering::Greater
            }
        },
    }
}

/// The candidate is strictly newer than the current version.
pub fn is_newer_version(current: &str, candidate: &str) -> (r: bool)
    ensures
        r == (version_order(current@, candidate@) == Ordering::Less),
{
    let ord = compare_versions(current, candidate);
    match ord {
        Ordering::Less => true,
        _ => false,
    }
}

/// The download location of the first asset with the requested name.
pub open spec fn asset_url_lookup(assets: Seq<GitHubReleaseAsset>, name: Seq<char>) -> Option<
    Seq<char>,
>
    decreases assets.len(),
{
    if assets.len() == 0 {
        None
    } else if assets[0].name@ == name {
        Some(assets[0].browser_download_url@)
    } else {
        asset_url_lookup(assets.skip(1), name)
    }
}

/// Finds the download location of the named asset; an absent asset means the
/// release does not serve this platform.
pub fn find_release_asset_download_url(release: &GitHubRelease, asset_name: &str) -> (r: Result<
    String,
    AssetNotFoundError,
>)
    ensures
        match r {
            Ok(url) => asset_url_lookup(release.assets@, asset_name@) == Some(url@),
            Err(_) => asset_url_lookup(release.assets@, asset_name@) is None,
        },
{
    proof {
        assert(release.assets@.skip(0) =~= release.assets@);
    }
    let mut i: usize = 0;
    while i < release.assets.len()
        invariant
            0 <= i <= release.assets@.len(),
            asset_url_lookup(release.assets@, asset_name@) == asset_url_lookup(
                release.assets@.skip(i as int),
                asset_name@,
            ),
        decreases release.assets@.len() - i,
    {
        proof {
            assert(release.assets@.skip(i as int)[0] == release.assets@[i as int]);
            assert(release.assets@.skip(i as int).skip(1) =~= release.assets@.skip(i + 1));
        }
        if str_eq(release.assets[i].name.as_str(), asset_name) {
            return Ok(release.assets[i].browser_download_url.clone());
        }
        i = i + 1;
    }
    Err(AssetNotFoundError {})
}

} // verus!

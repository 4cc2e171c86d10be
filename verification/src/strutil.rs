//! Verified string utilities: prefix/suffix/substring tests, lexicographic
//! comparison, and decimal-digit parsing over `Seq<char>` views.

use vstd::prelude::*;

verus! {

/// Relies on `String::push` of std: appends exactly the given character.
#[verifier::external_body]
pub fn push_char(s: &mut String, c: char)
    ensures
        final(s)@ == old(s)@.push(c),
{
    s.push(c)
}

/// `p` is a prefix of `s`.
pub open spec fn seq_starts_with(s: Seq<char>, p: Seq<char>) -> bool {
    p.len() <= s.len() && s.subrange(0, p.len() as int) == p
}

/// `p` is a suffix of `s`.
pub open spec fn seq_ends_with(s: Seq<char>, p: Seq<char>) -> bool {
    p.len() <= s.len() && s.subrange(s.len() - p.len(), s.len() as int) == p
}

/// `p` occurs in `s` at position `i`.
pub open spec fn matches_at(s: Seq<char>, p: Seq<char>, i: int) -> bool {
    0 <= i && i + p.len() <= s.len() && s.subrange(i, i + p.len()) == p
}

/// `p` occurs somewhere in `s`.
pub open spec fn seq_contains(s: Seq<char>, p: Seq<char>) -> bool {
    exists|i: int| matches_at(s, p, i)
}

/// Lexicographic order on character sequences: `a` equals `b`, or the two
/// agree on a prefix after which `a` either ends or has the smaller character.
pub open spec fn lex_le(a: Seq<char>, b: Seq<char>) -> bool {
    a == b || exists|i: int|
        {
            &&& 0 <= i <= a.len()
            &&& i <= b.len()
            &&& a.subrange(0, i) == b.subrange(0, i)
            &&& (i < a.len() && i < b.len() && (a[i] as u32) < (b[i] as u32) || i == a.len() && i
                < b.len())
        }
}

pub fn str_eq(a: &str, b: &str) -> (r: bool)
    ensures
        r == (a@ == b@),
{
    let alen = a.unicode_len();
    let blen = b.unicode_len();
    if alen != blen {
        assert(a@ != b@);
        return false;
    }
    let mut i: usize = 0;
    while i < alen
        invariant
            alen == a@.len(),
            blen == b@.len(),
            alen == blen,
            0 <= i <= alen,
            forall|j: int| 0 <= j < i ==> a@[j] == b@[j],
        decreases alen - i,
    {
        if a.get_char(i) != b.get_char(i) {
            return false;
        }
        i = i + 1;
    }
    proof {
        assert(a@ =~= b@);
    }
    true
}

pub fn str_starts_with(s: &str, p: &str) -> (r: bool)
    ensures
        r == seq_starts_with(s@, p@),
{
    let slen = s.unicode_len();
    let plen = p.unicode_len();
    if plen > slen {
        return false;
    }
    let mut i: usize = 0;
    while i < plen
        invariant
            slen == s@.len(),
            plen == p@.len(),
            plen <= slen,
            0 <= i <= plen,
            forall|j: int| 0 <= j < i ==> s@[j] == p@[j],
        decreases plen - i,
    {
        if s.get_char(i) != p.get_char(i) {
            assert(s@.subrange(0, p@.len() as int)[i as int] != p@[i as int]);
            return false;
        }
        i = i + 1;
    }
    proof {
        assert(s@.subrange(0, p@.len() as int) =~= p@);
    }
    true
}

pub fn str_ends_with(s: &str, p: &str) -> (r: bool)
    ensures
        r == seq_ends_with(s@, p@),
{
    let slen = s.unicode_len();
    let plen = p.unicode_len();
    if plen > slen {
        return false;
    }
    let off = slen - plen;
    let mut i: usize = 0;
    while i < plen
        invariant
            slen == s@.len(),
            plen == p@.len(),
            plen <= slen,
            off == slen - plen,
            0 <= i <= plen,
            forall|j: int| 0 <= j < i ==> s@[off + j] == p@[j],
        decreases plen - i,
    {
        if s.get_char(off + i) != p.get_char(i) {
            assert(s@.subrange(s@.len() - p@.len(), s@.len() as int)[i as int] != p@[i as int]);
            return false;
        }
        i = i + 1;
    }
    proof {
        assert(s@.subrange(s@.len() - p@.len(), s@.len() as int) =~= p@);
    }
    true
}

fn str_matches_at(s: &str, p: &str, at: usize) -> (r: bool)
    requires
        at + p@.len() <= s@.len(),
        s@.len() <= usize::MAX,
    ensures
        r == matches_at(s@, p@, at as int),
{
    let plen = p.unicode_len();
    let mut i: usize = 0;
    while i < plen
        invariant
            plen == p@.len(),
            at + plen <= s@.len(),
            s@.len() <= usize::MAX,
            0 <= i <= plen,
            forall|j: int| 0 <= j < i ==> s@[at + j] == p@[j],
        decreases plen - i,
    {
        if s.get_char(at + i) != p.get_char(i) {
            assert(s@.subrange(at as int, at + p@.len())[i as int] != p@[i as int]);
            return false;
        }
        i = i + 1;
    }
    proof {
        assert(s@.subrange(at as int, at + p@.len()) =~= p@);
    }
    true
}

pub fn str_contains(s: &str, p: &str) -> (r: bool)
    ensures
        r == seq_contains(s@, p@),
{
    let slen = s.unicode_len();
    let plen = p.unicode_len();
    if plen > slen {
        assert(forall|i: int| !matches_at(s@, p@, i));
        return false;
    }
    if plen == 0 {
        proof {
            assert(s@.subrange(0, 0) =~= p@);
            assert(matches_at(s@, p@, 0));
        }
        return true;
    }
    let last = slen - plen;
    let mut at: usize = 0;
    loop
        invariant
            slen == s@.len(),
            plen == p@.len(),
            plen <= slen,
            last == slen - plen,
            plen >= 1,
            0 <= at <= last + 1,
            forall|i: int| 0 <= i < at ==> !matches_at(s@, p@, i),
        decreases last + 1 - at,
    {
        if at > last {
            assert(forall|i: int| matches_at(s@, p@, i) ==> 0 <= i <= last);
            return false;
        }
        if str_matches_at(s, p, at) {
            return true;
        }
        at = at + 1;
    }
}

pub fn str_lex_le(a: &str, b: &str) -> (r: bool)
    ensures
        r == lex_le(a@, b@),
{
    let alen = a.unicode_len();
    let blen = b.unicode_len();
    let min = if alen < blen {
        alen
    } else {
        blen
    };
    let mut i: usize = 0;
    while i < min
        invariant
            alen == a@.len(),
            blen == b@.len(),
            min == if alen < blen {
                alen
            } else {
                blen
            },
            0 <= i <= min,
            forall|j: int| 0 <= j < i ==> a@[j] == b@[j],
        decreases min - i,
    {
        let ca = a.get_char(i);
        let cb = b.get_char(i);
        if ca != cb {
            proof {
                assert(a@.subrange(0, i as int) =~= b@.subrange(0, i as int));
                if (ca as u32) < (cb as u32) {
                    assert(lex_le(a@, b@));
                } else {
                    assert(forall|k: int|
                        0 <= k <= a@.len() && k <= b@.len() && a@.subrange(0, k) == b@.subrange(
                            0,
                            k,
                        ) ==> k <= i) by {
                        assert forall|k: int|
                            0 <= k <= a@.len() && k <= b@.len() && k > i implies a@.subrange(0, k)
                            != b@.subrange(0, k) by {
                            assert(a@.subrange(0, k)[i as int] != b@.subrange(0, k)[i as int]);
                        }
                    }
                    assert(a@ != b@) by {
                        assert(a@[i as int] != b@[i as int]);
                    }
                    assert(!lex_le(a@, b@));
                }
            }
            return (ca as u32) < (cb as u32);
        }
        i = i + 1;
    }
    proof {
        assert(a@.subrange(0, min as int) =~= b@.subrange(0, min as int));
        if alen <= blen {
            if alen == blen {
                assert(a@ =~= b@);
            } else {
                assert(lex_le(a@, b@));
            }
        } else {
            // b is a strict prefix of a: every agreeing prefix ends at or
            // before b's end, and there a has more characters left.
            assert(a@ != b@) by {
                assert(a@.len() != b@.len());
            }
            assert forall|k: int|
                0 <= k <= a@.len() && k <= b@.len() && a@.subrange(0, k) == b@.subrange(0, k)
                    implies !(k < a@.len() && k < b@.len() && (a@[k] as u32) < (b@[k] as u32) || k
                == a@.len() && k < b@.len()) by {
                if k < b@.len() {
                    assert(a@[k] == b@[k]);
                }
            }
            assert(!lex_le(a@, b@));
        }
    }
    alen <= blen
}

/// Index of the first position where `a` and `b` differ; the length of the
/// shorter sequence when one is a prefix of the other.
pub open spec fn first_diff(a: Seq<char>, b: Seq<char>) -> int
    decreases a.len(),
{
    if a.len() == 0 || b.len() == 0 || a[0] != b[0] {
        0
    } else {
        1 + first_diff(a.skip(1), b.skip(1))
    }
}

pub proof fn lemma_first_diff(a: Seq<char>, b: Seq<char>)
    ensures
        0 <= first_diff(a, b),
        first_diff(a, b) <= a.len(),
        first_diff(a, b) <= b.len(),
        a.subrange(0, first_diff(a, b)) == b.subrange(0, first_diff(a, b)),
        first_diff(a, b) < a.len() && first_diff(a, b) < b.len() ==> a[first_diff(a, b)] != b[first_diff(a, b)],
        forall|j: int| 0 <= j < first_diff(a, b) ==> a[j] == b[j],
    decreases a.len(),
{
    if a.len() == 0 || b.len() == 0 || a[0] != b[0] {
        assert(a.subrange(0, 0) =~= b.subrange(0, 0));
    } else {
        lemma_first_diff(a.skip(1), b.skip(1));
        let fd = first_diff(a, b);
        assert(forall|j: int| 0 <= j < fd - 1 ==> a.skip(1)[j] == b.skip(1)[j]);
        assert(forall|j: int| 0 <= j < fd ==> a[j] == b[j]) by {
            assert(forall|j: int| 1 <= j < fd ==> a[j] == a.skip(1)[j - 1] && b[j] == b.skip(1)[j
                - 1]);
        }
        assert(a.subrange(0, fd) =~= b.subrange(0, fd));
        if fd < a.len() && fd < b.len() {
            assert(a[fd] == a.skip(1)[fd - 1] && b[fd] == b.skip(1)[fd - 1]);
        }
    }
}

/// The agreeing prefix in the definition of `lex_le` never extends past the
/// first difference.
proof fn lemma_lex_witness_bound(a: Seq<char>, b: Seq<char>, i: int)
    requires
        0 <= i <= a.len(),
        i <= b.len(),
        a.subrange(0, i) == b.subrange(0, i),
    ensures
        i <= first_diff(a, b),
{
    lemma_first_diff(a, b);
    let fd = first_diff(a, b);
    if i > fd {
        assert forall|j: int| 0 <= j < i implies a[j] == b[j] by {
            assert(a.subrange(0, i)[j] == a[j]);
            assert(b.subrange(0, i)[j] == b[j]);
            assert(a.subrange(0, i)[j] == b.subrange(0, i)[j]);
        }
        assert(fd < a.len() && fd < b.len());
        assert(a[fd] == b[fd]);
        assert(false);
    }
}

/// `lex_le` holds exactly when, at the first difference, `a` ends or has the
/// smaller character.
pub proof fn lemma_lex_le_characterization(a: Seq<char>, b: Seq<char>)
    ensures
        lex_le(a, b) <==> {
            let fd = first_diff(a, b);
            if fd < a.len() && fd < b.len() {
                (a[fd] as u32) < (b[fd] as u32)
            } else {
                a.len() <= b.len()
            }
        },
{
    lemma_first_diff(a, b);
    let fd = first_diff(a, b);
    if fd < a.len() && fd < b.len() {
        if (a[fd] as u32) < (b[fd] as u32) {
            assert(lex_le(a, b));
        } else {
            if lex_le(a, b) {
                if a == b {
                    assert(a[fd] == b[fd]);
                    assert(false);
                } else {
                    let i = choose|i: int|
                        {
                            &&& 0 <= i <= a.len()
                            &&& i <= b.len()
                            &&& a.subrange(0, i) == b.subrange(0, i)
                            &&& (i < a.len() && i < b.len() && (a[i] as u32) < (b[i] as u32) || i
                                == a.len() && i < b.len())
                        };
                    lemma_lex_witness_bound(a, b, i);
                    if i < fd {
                        assert(a[i] == b[i]);
                        assert(i < a.len());
                        assert(false);
                    } else {
                        assert(i == fd);
                        assert(i < a.len());
                        assert((a[fd] as u32) < (b[fd] as u32));
                        assert(false);
                    }
                }
            }
        }
    } else {
        // One is a prefix of the other.
        if a.len() <= b.len() {
            assert(fd == a.len());
            if a.len() == b.len() {
                assert(a =~= b);
                assert(lex_le(a, b));
            } else {
                assert(lex_le(a, b)) by {
                    assert(a.subrange(0, fd) == b.subrange(0, fd));
                    assert(fd == a.len() && fd < b.len());
                }
            }
        } else {
            assert(fd == b.len());
            if lex_le(a, b) {
                if a == b {
                    assert(false);
                } else {
                    let i = choose|i: int|
                        {
                            &&& 0 <= i <= a.len()
                            &&& i <= b.len()
                            &&& a.subrange(0, i) == b.subrange(0, i)
                            &&& (i < a.len() && i < b.len() && (a[i] as u32) < (b[i] as u32) || i
                                == a.len() && i < b.len())
                        };
                    lemma_lex_witness_bound(a, b, i);
                    assert(i <= b.len() < a.len());
                    assert(i < a.len() && i < b.len() ==> (a[i] as u32) < (b[i] as u32));
                    if i < b.len() {
                        assert(i < fd || i == fd);
                        assert(a[i] == b[i]);
                        assert(false);
                    } else {
                        assert(i == b.len());
                        assert(i < a.len());
                        assert(false);
                    }
                }
            }
        }
    }
}

/// Characters with the same code are the same character.
pub proof fn lemma_char_code_injective(c1: char, c2: char)
    requires
        (c1 as u32) == (c2 as u32),
    ensures
        c1 == c2,
{
    broadcast use vstd::utf8::char_u32_cast;

    let u: u32 = c1 as u32;
    assert(u as char == c1);
    assert(u as char == c2);
}

/// Lexicographic order is total.
pub proof fn lemma_lex_le_total(a: Seq<char>, b: Seq<char>)
    ensures
        lex_le(a, b) || lex_le(b, a),
{
    lemma_lex_le_characterization(a, b);
    lemma_lex_le_characterization(b, a);
    lemma_first_diff(a, b);
    lemma_first_diff(b, a);
    lemma_first_diff_sym(a, b);
    let fd = first_diff(a, b);
    if fd < a.len() && fd < b.len() {
        assert(a[fd] != b[fd]);
        if (a[fd] as u32) == (b[fd] as u32) {
            lemma_char_code_injective(a[fd], b[fd]);
            assert(false);
        }
    }
}

proof fn lemma_first_diff_sym(a: Seq<char>, b: Seq<char>)
    ensures
        first_diff(a, b) == first_diff(b, a),
    decreases a.len(),
{
    if !(a.len() == 0 || b.len() == 0 || a[0] != b[0]) {
        lemma_first_diff_sym(a.skip(1), b.skip(1));
    }
}

/// Lexicographic order is transitive.
pub proof fn lemma_lex_le_trans(a: Seq<char>, b: Seq<char>, c: Seq<char>)
    requires
        lex_le(a, b),
        lex_le(b, c),
    ensures
        lex_le(a, c),
{
    lemma_lex_le_characterization(a, b);
    lemma_lex_le_characterization(b, c);
    lemma_lex_le_characterization(a, c);
    lemma_first_diff(a, b);
    lemma_first_diff(b, c);
    lemma_first_diff(a, c);
    let ab = first_diff(a, b);
    let bc = first_diff(b, c);
    let ac = first_diff(a, c);
    // a and c agree up to min(ab, bc); below that index, compare the
    // distinguishing characters through b.
    let m = if ab <= bc {
        ab
    } else {
        bc
    };
    assert(forall|j: int| 0 <= j < m ==> a[j] == c[j]);
    assert(ac >= m) by {
        if ac < m {
            assert(ac < a.len() && ac < c.len());
            assert(a[ac] != c[ac]);
            assert(a[ac] == b[ac] && b[ac] == c[ac]);
            assert(false);
        }
    }
    if ab < bc {
        // b differs from a at ab but agrees with c there.
        if ab < a.len() && ab < b.len() {
            assert((a[ab] as u32) < (b[ab] as u32));
            if ab < c.len() {
                assert(b[ab] == c[ab]);
                assert(ac == ab) by {
                    if ac > ab {
                        assert(a[ab] == c[ab]);
                        assert(false);
                    }
                }
                assert(lex_le(a, c));
            } else {
                assert(bc <= c.len());
                assert(false);
            }
        } else {
            assert(ab == a.len() && ab < b.len());
            assert(a.len() <= c.len()) by {
                assert(bc > ab ==> b.len() > ab);
                if c.len() < a.len() {
                    assert(bc >= c.len() ==> false) by {
                        if bc < b.len() && bc < c.len() {
                        } else {
                            assert(b.len() <= c.len());
                        }
                    }
                    assert(bc < b.len() && bc < c.len());
                    assert((b[bc] as u32) < (c[bc] as u32));
                    assert(bc >= a.len()) by {
                        if bc < a.len() {
                            assert(bc < ab);
                            assert(a[bc] == b[bc]);
                            assert(bc < ac || (ac < a.len() && ac < c.len() && (a[ac] as u32) < (
                            c[ac] as u32)) || true);
                        }
                    }
                    assert(c.len() > bc >= a.len());
                    assert(false);
                }
            }
            assert(ac == a.len() || (ac < a.len() && ac < c.len())) by {
                assert(ac <= a.len());
            }
            if ac < a.len() && ac < c.len() {
                assert(ac >= m);
                assert(m == ab == a.len());
                assert(false);
            }
            assert(ac == a.len() <= c.len());
            assert(lex_le(a, c));
        }
    } else {
        // bc <= ab: b and c part ways no later than a and b do.
        if bc < b.len() && bc < c.len() {
            assert((b[bc] as u32) < (c[bc] as u32));
            if bc < a.len() {
                assert(bc < ab ==> a[bc] == b[bc]);
                if bc < ab {
                    assert(a[bc] == b[bc]);
                    assert(ac == bc) by {
                        if ac > bc {
                            assert(a[bc] == c[bc]);
                            assert(false);
                        }
                    }
                    assert(lex_le(a, c));
                } else {
                    assert(bc == ab);
                    assert(ab < a.len() && ab < b.len());
                    assert((a[ab] as u32) < (b[ab] as u32));
                    assert(ac == bc) by {
                        if ac > bc {
                            assert(a[bc] == c[bc]);
                            assert((a[bc] as u32) < (b[bc] as u32) && (b[bc] as u32) < (c[bc] as u32));
                            assert(false);
                        }
                    }
                    assert((a[ac] as u32) < (c[ac] as u32));
                    assert(lex_le(a, c));
                }
            } else {
                assert(a.len() <= bc);
                assert(ab <= a.len());
                assert(ab == a.len()) by {
                    assert(ab >= bc >= a.len() || ab < a.len());
                    if ab < a.len() {
                        assert(ab < bc ==> false);
                        assert(ab == bc);
                        assert(false);
                    }
                }
                assert(a.len() <= c.len()) by {
                    assert(bc < c.len());
                    assert(a.len() <= bc);
                }
                if ac < a.len() && ac < c.len() {
                    assert(ac >= m && m == bc >= a.len());
                    assert(false);
                }
                assert(lex_le(a, c));
            }
        } else {
            // b is a prefix of c.
            assert(b.len() <= c.len());
            if ab < a.len() && ab < b.len() {
                assert((a[ab] as u32) < (b[ab] as u32));
                assert(ab < c.len());
                assert(b[ab] == c[ab]) by {
                    assert(ab >= bc ==> bc == b.len() || bc == c.len());
                    assert(forall|j: int| 0 <= j < bc ==> b[j] == c[j]);
                    assert(ab < b.len());
                    assert(bc == first_diff(b, c));
                    assert(bc >= b.len() || bc >= c.len());
                    assert(bc >= b.len());
                    assert(ab < bc);
                }
                assert(ac == ab) by {
                    if ac > ab {
                        assert(a[ab] == c[ab]);
                        assert(false);
                    }
                }
                assert(lex_le(a, c));
            } else {
                assert(a.len() <= b.len() <= c.len());
                if ac < a.len() && ac < c.len() {
                    assert(ab == a.len());
                    assert(bc >= b.len() || bc >= c.len());
                    assert(bc >= b.len() >= a.len());
                    assert(m >= a.len());
                    assert(ac >= m >= a.len());
                    assert(false);
                }
                assert(lex_le(a, c));
            }
        }
    }
}

/// The numeric value of a sequence of decimal digits, most significant first.
pub open spec fn digits_val(s: Seq<char>) -> nat
    decreases s.len(),
{
    if s.len() == 0 {
        0
    } else {
        digits_val(s.drop_last()) * 10 + digit_val(s.last())
    }
}

pub open spec fn is_digit(c: char) -> bool {
    '0' <= c <= '9'
}

pub open spec fn digit_val(c: char) -> nat {
    (c as u32 - '0' as u32) as nat
}

pub open spec fn all_digits(s: Seq<char>) -> bool {
    forall|i: int| 0 <= i < s.len() ==> is_digit(#[trigger] s[i])
}

pub open spec fn pow10(n: nat) -> nat
    decreases n,
{
    if n == 0 {
        1
    } else {
        10 * pow10((n - 1) as nat)
    }
}

/// A digit string of length `n` denotes a value below ten to the `n`; the
/// small powers the timestamp fields need are spelled out.
pub proof fn lemma_digits_val_bounded(s: Seq<char>)
    requires
        all_digits(s),
    ensures
        digits_val(s) < pow10(s.len()),
        s.len() == 2 ==> digits_val(s) < 100,
        s.len() == 3 ==> digits_val(s) < 1000,
        s.len() == 6 ==> digits_val(s) < 1000000,
        s.len() == 8 ==> digits_val(s) < 100000000,
    decreases s.len(),
{
    assert(pow10(0) == 1);
    assert(pow10(1) == 10);
    assert(pow10(2) == 100);
    assert(pow10(3) == 1000);
    assert(pow10(4) == 10000);
    assert(pow10(5) == 100000);
    assert(pow10(6) == 1000000);
    assert(pow10(7) == 10000000);
    assert(pow10(8) == 100000000);
    if s.len() == 0 {
    } else {
        assert(all_digits(s.drop_last())) by {
            assert(forall|i: int| 0 <= i < s.len() - 1 ==> s.drop_last()[i] == s[i]);
        }
        lemma_digits_val_bounded(s.drop_last());
        assert(digit_val(s.last()) <= 9) by {
            assert(is_digit(s[s.len() - 1]));
        }
    }
}

proof fn lemma_digits_val_grows(s: Seq<char>, i: int)
    requires
        0 <= i <= s.len(),
    ensures
        digits_val(s.subrange(0, i)) <= digits_val(s),
    decreases s.len() - i,
{
    if i < s.len() {
        lemma_digits_val_grows(s, i + 1);
        assert(s.subrange(0, i + 1).drop_last() =~= s.subrange(0, i));
        assert(digits_val(s.subrange(0, i)) <= digits_val(s.subrange(0, i + 1)));
    } else {
        assert(s.subrange(0, i) =~= s);
    }
}

/// Parses `s[from..to]` as an unsigned decimal number. Returns the value
/// exactly when every character in the range is a digit, the range is not
/// empty, and the value fits in `u64`.
pub fn parse_u64_range(s: &str, from: usize, to: usize) -> (r: Option<u64>)
    requires
        from <= to <= s@.len(),
    ensures
        r matches Some(v) <==> to > from && all_digits(s@.subrange(from as int, to as int))
            && digits_val(s@.subrange(from as int, to as int)) <= u64::MAX,
        r matches Some(v) ==> v == digits_val(s@.subrange(from as int, to as int)),
{
    let ghost whole = s@.subrange(from as int, to as int);
    if to == from {
        return None;
    }
    let mut acc: u64 = 0;
    let mut i: usize = from;
    while i < to
        invariant
            from <= i <= to <= s@.len(),
            whole == s@.subrange(from as int, to as int),
            all_digits(s@.subrange(from as int, i as int)),
            acc == digits_val(s@.subrange(from as int, i as int)),
        decreases to - i,
    {
        let c = s.get_char(i);
        if !('0' <= c && c <= '9') {
            proof {
                assert(whole[i - from] == c);
                assert(!all_digits(whole));
            }
            return None;
        }
        let d: u64 = (c as u32 - 48) as u64;
        proof {
            assert(s@.subrange(from as int, i + 1).drop_last() =~= s@.subrange(from as int, i as int));
        }
        if acc > (u64::MAX - d) / 10 {
            proof {
                assert(digits_val(s@.subrange(from as int, i + 1)) > u64::MAX);
                lemma_digits_val_grows(whole, i + 1 - from);
                assert(whole.subrange(0, i + 1 - from) =~= s@.subrange(from as int, i + 1));
            }
            return None;
        }
        acc = acc * 10 + d;
        i = i + 1;
    }
    proof {
        assert(s@.subrange(from as int, i as int) =~= whole);
    }
    Some(acc)
}

/// Position of the first occurrence of `c` in `s`, if any.
pub fn find_char(s: &str, c: char) -> (r: Option<usize>)
    ensures
        r matches Some(i) ==> 0 <= i < s@.len() && s@[i as int] == c && forall|j: int|
            0 <= j < i ==> s@[j] != c,
        r is None ==> forall|j: int| 0 <= j < s@.len() ==> s@[j] != c,
{
    let slen = s.unicode_len();
    let mut i: usize = 0;
    while i < slen
        invariant
            slen == s@.len(),
            0 <= i <= slen,
            forall|j: int| 0 <= j < i ==> s@[j] != c,
        decreases slen - i,
    {
        if s.get_char(i) == c {
            return Some(i);
        }
        i = i + 1;
    }
    None
}

/// The number of occurrences of `c` in `s`.
pub open spec fn count_char(s: Seq<char>, c: char) -> nat
    decreases s.len(),
{
    if s.len() == 0 {
        0
    } else {
        count_char(s.drop_last(), c) + if s.last() == c {
            1nat
        } else {
            0nat
        }
    }
}

pub fn str_count_char(s: &str, c: char) -> (r: usize)
    ensures
        r == count_char(s@, c),
{
    let slen = s.unicode_len();
    let mut n: usize = 0;
    let mut i: usize = 0;
    while i < slen
        invariant
            slen == s@.len(),
            0 <= i <= slen,
            n == count_char(s@.subrange(0, i as int), c),
            n <= i,
        decreases slen - i,
    {
        proof {
            assert(s@.subrange(0, i + 1).drop_last() =~= s@.subrange(0, i as int));
            assert(s@.subrange(0, i + 1).last() == s@[i as int]);
        }
        if s.get_char(i) == c {
            n = n + 1;
        }
        i = i + 1;
    }
    proof {
        assert(s@.subrange(0, slen as int) =~= s@);
    }
    n
}

} // verus!

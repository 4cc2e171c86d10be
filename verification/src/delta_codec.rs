//! Persistent form of a delta: a length-prefixed binary record. The format
//! is defined by the spec-level parser `parse_delta`; the writer produces
//! exactly what the parser accepts, and a round-trip law ties the two.

use vstd::prelude::*;
use crate::delta::{DeltaBlock, DeltaFile};
use crate::strutil::push_char;

verus! {

/// Signals that a byte buffer does not hold a well-formed delta record.
#[derive(Debug)]
pub struct DeltaFormatError {}

impl DeltaFormatError {
    /// A short description, for error reporting at the edges.
    pub fn message(&self) -> (r: &'static str) {
        "corrupt delta file"
    }
}

/// Leading bytes that identify a delta record.
pub open spec fn magic() -> Seq<u8> {
    seq![65u8, 68u8, 76u8, 84u8]
}

/// Little-endian encoding of a 64-bit value.
pub open spec fn enc_u64(v: u64) -> Seq<u8> {
    let x0 = v as int;
    let x1 = x0 / 256;
    let x2 = x1 / 256;
    let x3 = x2 / 256;
    let x4 = x3 / 256;
    let x5 = x4 / 256;
    let x6 = x5 / 256;
    let x7 = x6 / 256;
    seq![
        (x0 % 256) as u8,
        (x1 % 256) as u8,
        (x2 % 256) as u8,
        (x3 % 256) as u8,
        (x4 % 256) as u8,
        (x5 % 256) as u8,
        (x6 % 256) as u8,
        (x7 % 256) as u8,
    ]
}

/// The value of the eight little-endian bytes at `pos`.
pub open spec fn le_val(buf: Seq<u8>, pos: int) -> u64 {
    (buf[pos] + 256 * (buf[pos + 1] + 256 * (buf[pos + 2] + 256 * (buf[pos + 3] + 256 * (buf[pos
        + 4] + 256 * (buf[pos + 5] + 256 * (buf[pos + 6] + 256 * buf[pos + 7]))))))) as u64
}

/// Every character fits in one byte.
pub open spec fn byte_chars(s: Seq<char>) -> bool {
    forall|i: int| 0 <= i < s.len() ==> (#[trigger] s[i] as u32) < 256
}

pub open spec fn chars_as_bytes(s: Seq<char>) -> Seq<u8> {
    Seq::new(s.len(), |i: int| s[i] as u8)
}

pub open spec fn bytes_as_chars(s: Seq<u8>) -> Seq<char> {
    Seq::new(s.len(), |i: int| s[i] as char)
}

/// A string: its length, then one byte per character.
pub open spec fn enc_str(s: Seq<char>) -> Seq<u8> {
    enc_u64(s.len() as u64) + chars_as_bytes(s)
}

/// A byte string: its length, then the bytes.
pub open spec fn enc_bytes(s: Seq<u8>) -> Seq<u8> {
    enc_u64(s.len() as u64) + s
}

/// One changed block: index, block hash, block bytes.
pub open spec fn enc_block(b: DeltaBlock) -> Seq<u8> {
    enc_u64(b.index as u64) + enc_str(b.hash@) + enc_bytes(b.data@)
}

pub open spec fn enc_blocks(cb: Seq<DeltaBlock>) -> Seq<u8>
    decreases cb.len(),
{
    if cb.len() == 0 {
        Seq::empty()
    } else {
        enc_blocks(cb.drop_last()) + enc_block(cb.last())
    }
}

/// The full record: magic, prior-content hash, block size, block count of the
/// new file, its byte length, and the changed blocks.
pub open spec fn enc_delta(d: DeltaFile) -> Seq<u8> {
    magic() + enc_str(d.original_file_hash@) + enc_u64(d.block_size as u64) + enc_u64(
        d.total_blocks as u64,
    ) + enc_u64(d.new_file_size) + enc_u64(d.changed_blocks@.len() as u64) + enc_blocks(
        d.changed_blocks@,
    )
}

pub open spec fn p_u64(buf: Seq<u8>, pos: int) -> Option<(u64, int)> {
    if 0 <= pos && pos + 8 <= buf.len() {
        Some((le_val(buf, pos), pos + 8))
    } else {
        None
    }
}

pub open spec fn p_str(buf: Seq<u8>, pos: int) -> Option<(Seq<char>, int)> {
    match p_u64(buf, pos) {
        None => None,
        Some((n, p1)) => if n <= usize::MAX as u64 && p1 + n as int <= buf.len() {
            Some((bytes_as_chars(buf.subrange(p1, p1 + n as int)), p1 + n as int))
        } else {
            None
        },
    }
}

pub open spec fn p_bytes(buf: Seq<u8>, pos: int) -> Option<(Seq<u8>, int)> {
    match p_u64(buf, pos) {
        None => None,
        Some((n, p1)) => if n <= usize::MAX as u64 && p1 + n as int <= buf.len() {
            Some((buf.subrange(p1, p1 + n as int), p1 + n as int))
        } else {
            None
        },
    }
}

pub open spec fn p_block(buf: Seq<u8>, pos: int) -> Option<((usize, Seq<char>, Seq<u8>), int)> {
    match p_u64(buf, pos) {
        None => None,
        Some((idx, p1)) => if idx <= usize::MAX as u64 {
            match p_str(buf, p1) {
                None => None,
                Some((h, p2)) => match p_bytes(buf, p2) {
                    None => None,
                    Some((data, p3)) => Some(((idx as usize, h, data), p3)),
                },
            }
        } else {
            None
        },
    }
}

pub open spec fn p_blocks(buf: Seq<u8>, pos: int, count: int) -> Option<
    (Seq<(usize, Seq<char>, Seq<u8>)>, int),
>
    decreases count,
{
    if count <= 0 {
        Some((Seq::empty(), pos))
    } else {
        match p_block(buf, pos) {
            None => None,
            Some((b, p1)) => match p_blocks(buf, p1, count - 1) {
                None => None,
                Some((s, p2)) => Some((seq![b] + s, p2)),
            },
        }
    }
}

/// What a delta record denotes: prior hash, block size, total block count,
/// new file size, changed blocks. `parse_delta` is the definition of the
/// on-disk format; a buffer is well-formed exactly when it parses, with no
/// trailing bytes.
pub open spec fn parse_delta(buf: Seq<u8>) -> Option<
    (Seq<char>, usize, usize, u64, Seq<(usize, Seq<char>, Seq<u8>)>),
> {
    if buf.len() >= 4 && buf.subrange(0, 4) == magic() {
        match p_str(buf, 4) {
            None => None,
            Some((h, p1)) => match p_u64(buf, p1) {
                None => None,
                Some((bs, p2)) => if bs <= usize::MAX as u64 {
                    match p_u64(buf, p2) {
                        None => None,
                        Some((tb, p3)) => if tb <= usize::MAX as u64 {
                            match p_u64(buf, p3) {
                                None => None,
                                Some((nfs, p4)) => match p_u64(buf, p4) {
                                    None => None,
                                    Some((cnt, p5)) => match p_blocks(buf, p5, cnt as int) {
                                        None => None,
                                        Some((blocks, p6)) => if p6 == buf.len() {
                                            Some((h, bs as usize, tb as usize, nfs, blocks))
                                        } else {
                                            None
                                        },
                                    },
                                },
                            }
                        } else {
                            None
                        },
                    }
                } else {
                    None
                },
            },
        }
    } else {
        None
    }
}

/// The denotation of an in-memory delta, for comparison with parse results.
pub open spec fn delta_view(d: DeltaFile) -> (
    Seq<char>,
    usize,
    usize,
    u64,
    Seq<(usize, Seq<char>, Seq<u8>)>,
) {
    (
        d.original_file_hash@,
        d.block_size,
        d.total_blocks,
        d.new_file_size,
        Seq::new(
            d.changed_blocks@.len(),
            |k: int|
                (
                    d.changed_blocks@[k].index,
                    d.changed_blocks@[k].hash@,
                    d.changed_blocks@[k].data@,
                ),
        ),
    )
}

/// Every string in the delta can be written one byte per character.
pub open spec fn delta_byte_chars(d: DeltaFile) -> bool {
    &&& byte_chars(d.original_file_hash@)
    &&& forall|k: int|
        0 <= k < d.changed_blocks@.len() ==> byte_chars((#[trigger] d.changed_blocks@[k]).hash@)
}

fn push_u64(out: &mut Vec<u8>, v: u64)
    ensures
        final(out)@ == old(out)@ + enc_u64(v),
{
    let b0 = (v % 256) as u8;
    let x1 = v / 256;
    let b1 = (x1 % 256) as u8;
    let x2 = x1 / 256;
    let b2 = (x2 % 256) as u8;
    let x3 = x2 / 256;
    let b3 = (x3 % 256) as u8;
    let x4 = x3 / 256;
    let b4 = (x4 % 256) as u8;
    let x5 = x4 / 256;
    let b5 = (x5 % 256) as u8;
    let x6 = x5 / 256;
    let b6 = (x6 % 256) as u8;
    let x7 = x6 / 256;
    let b7 = (x7 % 256) as u8;
    out.push(b0);
    out.push(b1);
    out.push(b2);
    out.push(b3);
    out.push(b4);
    out.push(b5);
    out.push(b6);
    out.push(b7);
    proof {
        assert(out@ =~= old(out)@ + enc_u64(v));
    }
}

fn push_str(out: &mut Vec<u8>, s: &str)
    requires
        byte_chars(s@),
    ensures
        final(out)@ == old(out)@ + enc_str(s@),
{
    let n = s.unicode_len();
    push_u64(out, n as u64);
    let ghost mid = out@;
    let mut i: usize = 0;
    while i < n
        invariant
            n == s@.len(),
            byte_chars(s@),
            0 <= i <= n,
            out@ == mid + chars_as_bytes(s@).take(i as int),
        decreases n - i,
    {
        let c = s.get_char(i);
        out.push(c as u8);
        proof {
            assert(chars_as_bytes(s@).take(i + 1) =~= chars_as_bytes(s@).take(i as int).push(
                s@[i as int] as u8,
            ));
            assert(out@ =~= mid + chars_as_bytes(s@).take(i + 1));
        }
        i = i + 1;
    }
    proof {
        assert(chars_as_bytes(s@).take(n as int) =~= chars_as_bytes(s@));
        assert(out@ =~= old(out)@ + enc_str(s@));
    }
}

fn push_bytes(out: &mut Vec<u8>, data: &Vec<u8>)
    ensures
        final(out)@ == old(out)@ + enc_bytes(data@),
{
    push_u64(out, data.len() as u64);
    let ghost mid = out@;
    let mut i: usize = 0;
    while i < data.len()
        invariant
            0 <= i <= data@.len(),
            out@ == mid + data@.take(i as int),
        decreases data@.len() - i,
    {
        out.push(data[i]);
        proof {
            assert(data@.take(i + 1) =~= data@.take(i as int).push(data@[i as int]));
            assert(out@ =~= mid + data@.take(i + 1));
        }
        i = i + 1;
    }
    proof {
        assert(data@.take(data@.len() as int) =~= data@);
        assert(out@ =~= old(out)@ + enc_bytes(data@));
    }
}

/// Serializes a delta into the persistent record format.
pub fn save_delta(delta: &DeltaFile) -> (r: Vec<u8>)
    requires
        delta_byte_chars(*delta),
    ensures
        r@ == enc_delta(*delta),
{
    let mut out: Vec<u8> = Vec::new();
    out.push(65u8);
    out.push(68u8);
    out.push(76u8);
    out.push(84u8);
    proof {
        assert(out@ =~= magic());
    }
    push_str(&mut out, delta.original_file_hash.as_str());
    push_u64(&mut out, delta.block_size as u64);
    push_u64(&mut out, delta.total_blocks as u64);
    push_u64(&mut out, delta.new_file_size);
    push_u64(&mut out, delta.changed_blocks.len() as u64);
    let ghost header = out@;
    let mut k: usize = 0;
    while k < delta.changed_blocks.len()
        invariant
            delta_byte_chars(*delta),
            0 <= k <= delta.changed_blocks@.len(),
            out@ == header + enc_blocks(delta.changed_blocks@.take(k as int)),
        decreases delta.changed_blocks@.len() - k,
    {
        let cb = &delta.changed_blocks[k];
        push_u64(&mut out, cb.index as u64);
        push_str(&mut out, cb.hash.as_str());
        push_bytes(&mut out, &cb.data);
        proof {
            assert(delta.changed_blocks@.take(k + 1).drop_last() =~= delta.changed_blocks@.take(
                k as int,
            ));
            assert(out@ =~= header + enc_blocks(delta.changed_blocks@.take(k + 1)));
        }
        k = k + 1;
    }
    proof {
        assert(delta.changed_blocks@.take(delta.changed_blocks@.len() as int)
            =~= delta.changed_blocks@);
        assert(out@ =~= enc_delta(*delta));
    }
    out
}

fn read_u64(buf: &Vec<u8>, pos: usize) -> (r: Option<(u64, usize)>)
    ensures
        match r {
            Some((v, p)) => p_u64(buf@, pos as int) == Some((v, p as int)),
            None => p_u64(buf@, pos as int) is None,
        },
{
    if pos > buf.len() || buf.len() - pos < 8 {
        return None;
    }
    let b0 = buf[pos] as u64;
    let b1 = buf[pos + 1] as u64;
    let b2 = buf[pos + 2] as u64;
    let b3 = buf[pos + 3] as u64;
    let b4 = buf[pos + 4] as u64;
    let b5 = buf[pos + 5] as u64;
    let b6 = buf[pos + 6] as u64;
    let b7 = buf[pos + 7] as u64;
    let v = b0 + 256 * (b1 + 256 * (b2 + 256 * (b3 + 256 * (b4 + 256 * (b5 + 256 * (b6 + 256
        * b7))))));
    Some((v, pos + 8))
}

fn read_str(buf: &Vec<u8>, pos: usize) -> (r: Option<(String, usize)>)
    ensures
        match r {
            Some((s, p)) => p_str(buf@, pos as int) == Some((s@, p as int)),
            None => p_str(buf@, pos as int) is None,
        },
{
    let (n, p1) = match read_u64(buf, pos) {
        Some(x) => x,
        None => { return None },
    };
    if n > usize::MAX as u64 {
        return None;
    }
    let n = n as usize;
    if p1 > buf.len() || buf.len() - p1 < n {
        return None;
    }
    let mut s = String::new();
    let mut i: usize = 0;
    while i < n
        invariant
            p1 + n <= buf@.len(),
            buf@.len() <= usize::MAX,
            0 <= i <= n,
            s@ == bytes_as_chars(buf@.subrange(p1 as int, p1 + n)).take(i as int),
        decreases n - i,
    {
        push_char(&mut s, buf[p1 + i] as char);
        proof {
            let whole = bytes_as_chars(buf@.subrange(p1 as int, p1 + n));
            assert(whole.take(i + 1) =~= whole.take(i as int).push(buf@[p1 + i] as char));
        }
        i = i + 1;
    }
    proof {
        let whole = bytes_as_chars(buf@.subrange(p1 as int, p1 + n));
        assert(whole.take(n as int) =~= whole);
    }
    Some((s, p1 + n))
}

fn read_bytes(buf: &Vec<u8>, pos: usize) -> (r: Option<(Vec<u8>, usize)>)
    ensures
        match r {
            Some((s, p)) => p_bytes(buf@, pos as int) == Some((s@, p as int)),
            None => p_bytes(buf@, pos as int) is None,
        },
{
    let (n, p1) = match read_u64(buf, pos) {
        Some(x) => x,
        None => { return None },
    };
    if n > usize::MAX as u64 {
        return None;
    }
    let n = n as usize;
    if p1 > buf.len() || buf.len() - p1 < n {
        return None;
    }
    let data = crate::delta::subrange_vec(buf, p1, p1 + n);
    Some((data, p1 + n))
}

fn read_block(buf: &Vec<u8>, pos: usize) -> (r: Option<(DeltaBlock, usize)>)
    ensures
        match r {
            Some((b, p)) => p_block(buf@, pos as int) == Some(((b.index, b.hash@, b.data@), p as int)),
            None => p_block(buf@, pos as int) is None,
        },
{
    let (idx, p1) = match read_u64(buf, pos) {
        Some(x) => x,
        None => { return None },
    };
    if idx > usize::MAX as u64 {
        return None;
    }
    let (hash, p2) = match read_str(buf, p1) {
        Some(x) => x,
        None => { return None },
    };
    let (data, p3) = match read_bytes(buf, p2) {
        Some(x) => x,
        None => { return None },
    };
    Some((DeltaBlock { index: idx as usize, hash, data }, p3))
}

/// Deserializes a delta record. Returns the delta exactly when the buffer is
/// a well-formed record with no trailing bytes; any other input is a corrupt
/// delta.
#[verifier::rlimit(50)]
#[verifier::loop_isolation(false)]
pub fn load_delta(buf: &Vec<u8>) -> (r: Result<DeltaFile, DeltaFormatError>)
    ensures
        match r {
            Ok(d) => parse_delta(buf@) == Some(delta_view(d)),
            Err(_) => parse_delta(buf@) is None,
        },
{
    if buf.len() < 4 || buf[0] != 65 || buf[1] != 68 || buf[2] != 76 || buf[3] != 84 {
        proof {
            if buf@.len() >= 4 && buf@.subrange(0, 4) == magic() {
                assert(buf@.subrange(0, 4)[0] == 65u8);
                assert(buf@.subrange(0, 4)[1] == 68u8);
                assert(buf@.subrange(0, 4)[2] == 76u8);
                assert(buf@.subrange(0, 4)[3] == 84u8);
            }
        }
        return Err(DeltaFormatError {});
    }
    proof {
        assert(buf@.subrange(0, 4) =~= magic());
    }
    let (original_file_hash, p1) = match read_str(buf, 4) {
        Some(x) => x,
        None => { return Err(DeltaFormatError {}) },
    };
    let (bs, p2) = match read_u64(buf, p1) {
        Some(x) => x,
        None => { return Err(DeltaFormatError {}) },
    };
    if bs > usize::MAX as u64 {
        return Err(DeltaFormatError {});
    }
    let (tb, p3) = match read_u64(buf, p2) {
        Some(x) => x,
        None => { return Err(DeltaFormatError {}) },
    };
    if tb > usize::MAX as u64 {
        return Err(DeltaFormatError {});
    }
    let (new_file_size, p4) = match read_u64(buf, p3) {
        Some(x) => x,
        None => { return Err(DeltaFormatError {}) },
    };
    let (cnt, p5) = match read_u64(buf, p4) {
        Some(x) => x,
        None => { return Err(DeltaFormatError {}) },
    };
    let mut changed_blocks: Vec<DeltaBlock> = Vec::new();
    let mut pos = p5;
    let mut k: u64 = 0;
    let ghost blocks_total = p_blocks(buf@, p5 as int, cnt as int);
    while k < cnt
        invariant
            0 <= k <= cnt,
            changed_blocks@.len() == k,
            blocks_total == p_blocks(buf@, p5 as int, cnt as int),
            p_blocks(buf@, p5 as int, cnt as int) == match p_blocks(
                buf@,
                pos as int,
                cnt as int - k as int,
            ) {
                None => None::<(Seq<(usize, Seq<char>, Seq<u8>)>, int)>,
                Some((s, e)) => Some(
                    (
                        Seq::new(
                            changed_blocks@.len(),
                            |j: int|
                                (
                                    changed_blocks@[j].index,
                                    changed_blocks@[j].hash@,
                                    changed_blocks@[j].data@,
                                ),
                        ) + s,
                        e,
                    ),
                ),
            },
        decreases cnt as int - k as int,
    {
        let (b, p_next) = match read_block(buf, pos) {
            Some(x) => x,
            None => {
                proof {
                    assert(p_blocks(buf@, pos as int, cnt as int - k as int) is None);
                }
                return Err(DeltaFormatError {});
            },
        };
        let ghost prior = changed_blocks@;
        changed_blocks.push(b);
        proof {
            let rest = p_blocks(buf@, p_next as int, cnt as int - k as int - 1);
            assert(p_blocks(buf@, pos as int, cnt as int - k as int) == match rest {
                None => None::<(Seq<(usize, Seq<char>, Seq<u8>)>, int)>,
                Some((s, e)) => Some((seq![(b.index, b.hash@, b.data@)] + s, e)),
            });
            match rest {
                None => {},
                Some((s, e)) => {
                    assert(Seq::new(
                        prior.len(),
                        |j: int| (prior[j].index, prior[j].hash@, prior[j].data@),
                    ) + (seq![(b.index, b.hash@, b.data@)] + s) =~= Seq::new(
                        changed_blocks@.len(),
                        |j: int|
                            (
                                changed_blocks@[j].index,
                                changed_blocks@[j].hash@,
                                changed_blocks@[j].data@,
                            ),
                    ) + s);
                },
            }
        }
        pos = p_next;
        k = k + 1;
    }
    proof {
        assert(p_blocks(buf@, pos as int, 0) == Some(
            (Seq::<(usize, Seq<char>, Seq<u8>)>::empty(), pos as int),
        ));
        let final_view = Seq::new(
            changed_blocks@.len(),
            |j: int| (changed_blocks@[j].index, changed_blocks@[j].hash@, changed_blocks@[j].data@),
        );
        assert(final_view + Seq::<(usize, Seq<char>, Seq<u8>)>::empty() =~= final_view);
    }
    if pos != buf.len() {
        proof {
            let r = p_blocks(buf@, p5 as int, cnt as int);
            assert(r matches Some((s, e)) && e == pos as int);
            assert(pos as int != buf@.len());
        }
        return Err(DeltaFormatError {});
    }
    let d = DeltaFile {
        original_file_hash,
        block_size: bs as usize,
        total_blocks: tb as usize,
        changed_blocks,
        new_file_size,
    };
    proof {
        assert(delta_view(d).4 =~= Seq::new(
            d.changed_blocks@.len(),
            |k: int|
                (d.changed_blocks@[k].index, d.changed_blocks@[k].hash@, d.changed_blocks@[k].data@),
        ));
    }
    Ok(d)
}

proof fn lemma_le_val_enc(v: u64, buf: Seq<u8>, pos: int)
    requires
        0 <= pos,
        pos + 8 <= buf.len(),
        buf.subrange(pos, pos + 8) == enc_u64(v),
    ensures
        le_val(buf, pos) == v,
{
    let e = enc_u64(v);
    assert(buf[pos] == e[0] && buf[pos + 1] == e[1] && buf[pos + 2] == e[2] && buf[pos + 3] == e[3]
        && buf[pos + 4] == e[4] && buf[pos + 5] == e[5] && buf[pos + 6] == e[6] && buf[pos + 7]
        == e[7]) by {
        assert(buf.subrange(pos, pos + 8)[0] == buf[pos]);
        assert(buf.subrange(pos, pos + 8)[1] == buf[pos + 1]);
        assert(buf.subrange(pos, pos + 8)[2] == buf[pos + 2]);
        assert(buf.subrange(pos, pos + 8)[3] == buf[pos + 3]);
        assert(buf.subrange(pos, pos + 8)[4] == buf[pos + 4]);
        assert(buf.subrange(pos, pos + 8)[5] == buf[pos + 5]);
        assert(buf.subrange(pos, pos + 8)[6] == buf[pos + 6]);
        assert(buf.subrange(pos, pos + 8)[7] == buf[pos + 7]);
    }
    let x0 = v as int;
    let x1 = x0 / 256;
    let x2 = x1 / 256;
    let x3 = x2 / 256;
    let x4 = x3 / 256;
    let x5 = x4 / 256;
    let x6 = x5 / 256;
    let x7 = x6 / 256;
    assert(x7 < 256);
    assert(x7 % 256 == x7);
    assert(x6 == x6 % 256 + 256 * x7);
    assert(x5 == x5 % 256 + 256 * x6);
    assert(x4 == x4 % 256 + 256 * x5);
    assert(x3 == x3 % 256 + 256 * x4);
    assert(x2 == x2 % 256 + 256 * x3);
    assert(x1 == x1 % 256 + 256 * x2);
    assert(x0 == x0 % 256 + 256 * x1);
}

proof fn lemma_p_u64_at(buf: Seq<u8>, pos: int, v: u64)
    requires
        0 <= pos,
        pos + 8 <= buf.len(),
        buf.subrange(pos, pos + 8) == enc_u64(v),
    ensures
        p_u64(buf, pos) == Some((v, pos + 8)),
{
    lemma_le_val_enc(v, buf, pos);
}

proof fn lemma_hex_digit_byte(n: u8)
    requires
        n < 16,
    ensures
        (crate::hashing::hex_digit(n) as u32) < 256,
{
}

/// Hex renderings use only one-byte characters, so every delta the engine
/// creates can be serialized.
pub proof fn lemma_hex_byte_chars(data: Seq<u8>)
    ensures
        byte_chars(crate::hashing::hex_of(data)),
    decreases data.len(),
{
    if data.len() == 0 {
    } else {
        lemma_hex_byte_chars(data.drop_last());
        let h = crate::hashing::hex_of(data);
        let hp = crate::hashing::hex_of(data.drop_last());
        lemma_hex_digit_byte(data.last() / 16);
        lemma_hex_digit_byte(data.last() % 16);
        assert forall|i: int| 0 <= i < h.len() implies (#[trigger] h[i] as u32) < 256 by {
            if i < hp.len() {
                assert(h[i] == hp[i]);
            }
        }
    }
}

proof fn lemma_char_byte_roundtrip(c: char)
    requires
        (c as u32) < 256,
    ensures
        ((c as u8) as char) == c,
{
    broadcast use vstd::utf8::char_u32_cast;

    let u: u32 = c as u32;
    assert((c as u8) as u32 == u);
    assert(u as char == c);
    assert(((c as u8) as char) as u32 == u);
}

proof fn lemma_bytes_chars_roundtrip(s: Seq<char>)
    requires
        byte_chars(s),
    ensures
        bytes_as_chars(chars_as_bytes(s)) == s,
{
    assert forall|i: int| 0 <= i < s.len() implies ((#[trigger] s[i]) as u8) as char == s[i] by {
        lemma_char_byte_roundtrip(s[i]);
    }
    assert(bytes_as_chars(chars_as_bytes(s)) =~= s);
}

proof fn lemma_p_str_at(buf: Seq<u8>, pos: int, s: Seq<char>)
    requires
        0 <= pos,
        pos + enc_str(s).len() <= buf.len(),
        buf.subrange(pos, pos + enc_str(s).len()) == enc_str(s),
        byte_chars(s),
        s.len() <= usize::MAX,
    ensures
        enc_str(s).len() == 8 + s.len(),
        p_str(buf, pos) == Some((s, pos + 8 + s.len())),
{
    let n = s.len() as int;
    assert(buf.subrange(pos, pos + 8) =~= enc_u64(s.len() as u64)) by {
        assert(forall|i: int|
            0 <= i < 8 ==> #[trigger] buf.subrange(pos, pos + 8)[i] == buf.subrange(pos, pos + 8 + n)[i]);
    }
    lemma_p_u64_at(buf, pos, s.len() as u64);
    assert(buf.subrange(pos + 8, pos + 8 + n) =~= chars_as_bytes(s)) by {
        assert(forall|i: int|
            0 <= i < n ==> #[trigger] buf.subrange(pos + 8, pos + 8 + n)[i] == buf.subrange(pos, pos + 8 + n)[8
                + i]);
    }
    lemma_bytes_chars_roundtrip(s);
}

proof fn lemma_p_bytes_at(buf: Seq<u8>, pos: int, data: Seq<u8>)
    requires
        0 <= pos,
        pos + enc_bytes(data).len() <= buf.len(),
        buf.subrange(pos, pos + enc_bytes(data).len()) == enc_bytes(data),
        data.len() <= usize::MAX,
    ensures
        enc_bytes(data).len() == 8 + data.len(),
        p_bytes(buf, pos) == Some((data, pos + 8 + data.len())),
{
    let n = data.len() as int;
    assert(buf.subrange(pos, pos + 8) =~= enc_u64(data.len() as u64)) by {
        assert(forall|i: int|
            0 <= i < 8 ==> #[trigger] buf.subrange(pos, pos + 8)[i] == buf.subrange(pos, pos + 8 + n)[i]);
    }
    lemma_p_u64_at(buf, pos, data.len() as u64);
    assert(buf.subrange(pos + 8, pos + 8 + n) =~= data) by {
        assert(forall|i: int|
            0 <= i < n ==> #[trigger] buf.subrange(pos + 8, pos + 8 + n)[i] == buf.subrange(pos, pos + 8 + n)[8
                + i]);
    }
}

#[verifier::rlimit(50)]
proof fn lemma_p_block_at(buf: Seq<u8>, pos: int, b: DeltaBlock)
    requires
        0 <= pos,
        pos + enc_block(b).len() <= buf.len(),
        buf.subrange(pos, pos + enc_block(b).len()) == enc_block(b),
        byte_chars(b.hash@),
        b.hash@.len() <= usize::MAX,
        b.data@.len() <= usize::MAX,
    ensures
        p_block(buf, pos) == Some(((b.index, b.hash@, b.data@), pos + enc_block(b).len())),
{
    let e_idx = enc_u64(b.index as u64);
    let e_h = enc_str(b.hash@);
    let e_d = enc_bytes(b.data@);
    let total = enc_block(b).len() as int;
    assert(enc_block(b) == e_idx + e_h + e_d);
    assert(buf.subrange(pos, pos + 8) =~= e_idx) by {
        assert(forall|i: int|
            0 <= i < 8 ==> #[trigger] buf.subrange(pos, pos + 8)[i] == buf.subrange(pos, pos + total)[i]);
    }
    lemma_p_u64_at(buf, pos, b.index as u64);
    let p1 = pos + 8;
    assert(buf.subrange(p1, p1 + e_h.len()) =~= e_h) by {
        assert(forall|i: int|
            0 <= i < e_h.len() ==> #[trigger] buf.subrange(p1, p1 + e_h.len())[i] == buf.subrange(
                pos,
                pos + total,
            )[8 + i]);
    }
    lemma_p_str_at(buf, p1, b.hash@);
    let p2 = p1 + 8 + b.hash@.len();
    assert(buf.subrange(p2, p2 + e_d.len()) =~= e_d) by {
        assert(forall|i: int|
            0 <= i < e_d.len() ==> #[trigger] buf.subrange(p2, p2 + e_d.len())[i] == buf.subrange(
                pos,
                pos + total,
            )[8 + e_h.len() + i]);
    }
    lemma_p_bytes_at(buf, p2, b.data@);
}

#[verifier::rlimit(50)]
proof fn lemma_p_blocks_at(buf: Seq<u8>, pos: int, cb: Seq<DeltaBlock>)
    requires
        0 <= pos,
        pos + enc_blocks(cb).len() <= buf.len(),
        buf.subrange(pos, pos + enc_blocks(cb).len()) == enc_blocks(cb),
        forall|k: int| 0 <= k < cb.len() ==> byte_chars((#[trigger] cb[k]).hash@),
        forall|k: int| 0 <= k < cb.len() ==> (#[trigger] cb[k]).hash@.len() <= usize::MAX,
        forall|k: int| 0 <= k < cb.len() ==> (#[trigger] cb[k]).data@.len() <= usize::MAX,
    ensures
        p_blocks(buf, pos, cb.len() as int) == Some(
            (
                Seq::new(cb.len(), |j: int| (cb[j].index, cb[j].hash@, cb[j].data@)),
                pos + enc_blocks(cb).len(),
            ),
        ),
    decreases cb.len(),
{
    if cb.len() == 0 {
        assert(Seq::new(0, |j: int| (cb[j].index, cb[j].hash@, cb[j].data@)) =~= Seq::<
            (usize, Seq<char>, Seq<u8>),
        >::empty());
    } else {
        // Split off the first block, re-expressing the tail encoding, and
        // recurse on the remaining blocks.
        let first = cb[0];
        let rest = cb.subrange(1, cb.len() as int);
        lemma_enc_blocks_cons(cb);
        let e_f = enc_block(first);
        let e_r = enc_blocks(rest);
        let total = enc_blocks(cb).len() as int;
        assert(enc_blocks(cb) == e_f + e_r);
        assert(buf.subrange(pos, pos + e_f.len()) =~= e_f) by {
            assert(forall|i: int|
                0 <= i < e_f.len() ==> #[trigger] buf.subrange(pos, pos + e_f.len())[i] == buf.subrange(
                    pos,
                    pos + total,
                )[i]);
        }
        lemma_p_block_at(buf, pos, first);
        let p1 = pos + e_f.len();
        assert(buf.subrange(p1, p1 + e_r.len()) =~= e_r) by {
            assert(forall|i: int|
                0 <= i < e_r.len() ==> #[trigger] buf.subrange(p1, p1 + e_r.len())[i] == buf.subrange(
                    pos,
                    pos + total,
                )[e_f.len() + i]);
        }
        assert(forall|k: int| 0 <= k < rest.len() ==> rest[k] == cb[k + 1]);
        lemma_p_blocks_at(buf, p1, rest);
        assert(seq![(first.index, first.hash@, first.data@)] + Seq::new(
            rest.len(),
            |j: int| (rest[j].index, rest[j].hash@, rest[j].data@),
        ) =~= Seq::new(cb.len(), |j: int| (cb[j].index, cb[j].hash@, cb[j].data@)));
    }
}

proof fn lemma_enc_blocks_cons(cb: Seq<DeltaBlock>)
    requires
        cb.len() > 0,
    ensures
        enc_blocks(cb) == enc_block(cb[0]) + enc_blocks(cb.subrange(1, cb.len() as int)),
    decreases cb.len(),
{
    if cb.len() == 1 {
        assert(cb.drop_last().len() == 0);
        assert(enc_blocks(cb.drop_last()) == Seq::<u8>::empty());
        assert(cb.subrange(1, 1) =~= Seq::<DeltaBlock>::empty());
        assert(enc_blocks(cb.subrange(1, 1)) == Seq::<u8>::empty());
        assert(cb[0] == cb.last());
        assert(Seq::<u8>::empty() + enc_block(cb.last()) =~= enc_block(cb[0]) + Seq::<u8>::empty());
    } else {
        lemma_enc_blocks_cons(cb.drop_last());
        assert(cb.drop_last()[0] == cb[0]);
        assert(cb.drop_last().subrange(1, cb.drop_last().len() as int) =~= cb.subrange(
            1,
            cb.len() as int,
        ).drop_last());
        assert(enc_block(cb[0]) + enc_blocks(cb.subrange(1, cb.len() as int).drop_last())
            + enc_block(cb.last()) =~= enc_block(cb[0]) + (enc_blocks(
            cb.subrange(1, cb.len() as int).drop_last(),
        ) + enc_block(cb.subrange(1, cb.len() as int).last())));
        assert(cb.subrange(1, cb.len() as int).last() == cb.last());
    }
}

/// Bytes carried by the changed blocks of a parsed delta record.
pub open spec fn view_payload(cb: Seq<(usize, Seq<char>, Seq<u8>)>) -> nat
    decreases cb.len(),
{
    if cb.len() == 0 {
        0
    } else {
        view_payload(cb.drop_last()) + cb.last().2.len()
    }
}

/// The parsed record of a delta carries the same payload as the delta.
pub proof fn lemma_view_payload_matches(d: DeltaFile)
    ensures
        view_payload(delta_view(d).4) == crate::delta::delta_payload_size(d.changed_blocks@),
{
    lemma_view_payload_rec(d.changed_blocks@);
    assert(delta_view(d).4 =~= Seq::new(
        d.changed_blocks@.len(),
        |k: int|
            (d.changed_blocks@[k].index, d.changed_blocks@[k].hash@, d.changed_blocks@[k].data@),
    ));
}

proof fn lemma_view_payload_rec(cb: Seq<DeltaBlock>)
    ensures
        view_payload(Seq::new(cb.len(), |k: int| (cb[k].index, cb[k].hash@, cb[k].data@)))
            == crate::delta::delta_payload_size(cb),
    decreases cb.len(),
{
    let v = Seq::new(cb.len(), |k: int| (cb[k].index, cb[k].hash@, cb[k].data@));
    if cb.len() > 0 {
        lemma_view_payload_rec(cb.drop_last());
        assert(v.drop_last() =~= Seq::new(
            cb.drop_last().len(),
            |k: int| (cb.drop_last()[k].index, cb.drop_last()[k].hash@, cb.drop_last()[k].data@),
        ));
        assert(v.last().2 == cb.last().data@);
    }
}

/// A delta the engine just created serializes and parses back exactly: its
/// strings are hex renderings (one-byte characters, 64 long), its block data
/// are source chunks, and its block count is bounded by the block indices.
pub proof fn lemma_created_delta_loads(d: DeltaFile, prev: Seq<u8>, new: Seq<u8>)
    requires
        crate::delta::delta_of(d, prev, new),
    ensures
        delta_byte_chars(d),
        parse_delta(enc_delta(d)) == Some(delta_view(d)),
{
    lemma_hex_byte_chars(crate::hashing::sha256_of(prev));
    assert forall|b: int| 0 <= b < d.changed_blocks@.len() implies byte_chars(
        (#[trigger] d.changed_blocks@[b]).hash@,
    ) by {
        lemma_hex_byte_chars(
            crate::hashing::sha256_of(
                crate::delta::chunks(new, crate::delta::BLOCK_SIZE as int)[d.changed_blocks@[b].index as int],
            ),
        );
    }
    crate::delta::lemma_chunk_len_bound(new, crate::delta::BLOCK_SIZE as int);
    crate::delta::lemma_changed_count_bounded(
        d.changed_blocks@,
        crate::delta::chunks(new, crate::delta::BLOCK_SIZE as int).len() as int,
    );
    assert(d.changed_blocks@.len() <= u64::MAX);
    assert(forall|k: int|
        0 <= k < d.changed_blocks@.len() ==> (#[trigger] d.changed_blocks@[k]).data@.len()
            <= usize::MAX);
    lemma_codec_round_trip(d);
}

proof fn lemma_split_at(buf: Seq<u8>, a: Seq<u8>, b: Seq<u8>, pos: int)
    requires
        0 <= pos,
        pos + a.len() + b.len() <= buf.len(),
        buf.subrange(pos, pos + a.len() + b.len()) == a + b,
    ensures
        buf.subrange(pos, pos + a.len()) == a,
        buf.subrange(pos + a.len(), pos + a.len() + b.len()) == b,
{
    assert(buf.subrange(pos, pos + a.len()) =~= a) by {
        assert(forall|i: int|
            0 <= i < a.len() ==> #[trigger] buf.subrange(pos, pos + a.len())[i] == buf.subrange(
                pos,
                pos + a.len() + b.len(),
            )[i]);
    }
    assert(buf.subrange(pos + a.len(), pos + a.len() + b.len()) =~= b) by {
        assert(forall|i: int|
            0 <= i < b.len() ==> #[trigger] buf.subrange(pos + a.len(), pos + a.len() + b.len())[i]
                == buf.subrange(pos, pos + a.len() + b.len())[a.len() + i]);
    }
}

#[verifier::rlimit(100)]
proof fn lemma_enc_delta_segments(d: DeltaFile)
    ensures
        ({
            let buf = enc_delta(d);
            let o0: int = 4;
            let o1 = o0 + enc_str(d.original_file_hash@).len() as int;
            let o2 = o1 + 8;
            let o3 = o2 + 8;
            let o4 = o3 + 8;
            let o5 = o4 + 8;
            let o6 = o5 + enc_blocks(d.changed_blocks@).len() as int;
            &&& buf.len() == o6
            &&& buf.subrange(0, 4) == magic()
            &&& buf.subrange(o0, o1) == enc_str(d.original_file_hash@)
            &&& buf.subrange(o1, o2) == enc_u64(d.block_size as u64)
            &&& buf.subrange(o2, o3) == enc_u64(d.total_blocks as u64)
            &&& buf.subrange(o3, o4) == enc_u64(d.new_file_size)
            &&& buf.subrange(o4, o5) == enc_u64(d.changed_blocks@.len() as u64)
            &&& buf.subrange(o5, o6) == enc_blocks(d.changed_blocks@)
        }),
{
    let buf = enc_delta(d);
    let e_h = enc_str(d.original_file_hash@);
    let e_bs = enc_u64(d.block_size as u64);
    let e_tb = enc_u64(d.total_blocks as u64);
    let e_nfs = enc_u64(d.new_file_size);
    let e_cnt = enc_u64(d.changed_blocks@.len() as u64);
    let e_cb = enc_blocks(d.changed_blocks@);
    assert(buf == magic() + e_h + e_bs + e_tb + e_nfs + e_cnt + e_cb);
    let o0: int = 4;
    let o1 = o0 + e_h.len() as int;
    let o2 = o1 + 8;
    let o3 = o2 + 8;
    let o4 = o3 + 8;
    let o5 = o4 + 8;
    let o6 = o5 + e_cb.len() as int;
    assert(buf.len() == o6);
    assert(buf.subrange(0, 4) =~= magic());
    assert(buf.subrange(o0, o6) =~= e_h + (e_bs + (e_tb + (e_nfs + (e_cnt + e_cb)))));
    lemma_split_at(buf, e_h, e_bs + (e_tb + (e_nfs + (e_cnt + e_cb))), o0);
    lemma_split_at(buf, e_bs, e_tb + (e_nfs + (e_cnt + e_cb)), o1);
    lemma_split_at(buf, e_tb, e_nfs + (e_cnt + e_cb), o2);
    lemma_split_at(buf, e_nfs, e_cnt + e_cb, o3);
    lemma_split_at(buf, e_cnt, e_cb, o4);
    assert(buf.subrange(o5, o5 + e_cb.len()) == e_cb);
}

/// A saved delta loads back as itself: parsing the encoding of `d` yields
/// exactly `d`'s denotation.
#[verifier::rlimit(100)]
pub proof fn lemma_codec_round_trip(d: DeltaFile)
    requires
        delta_byte_chars(d),
        d.original_file_hash@.len() <= usize::MAX,
        forall|k: int|
            0 <= k < d.changed_blocks@.len() ==> (#[trigger] d.changed_blocks@[k]).hash@.len()
                <= usize::MAX,
        forall|k: int|
            0 <= k < d.changed_blocks@.len() ==> (#[trigger] d.changed_blocks@[k]).data@.len()
                <= usize::MAX,
        d.changed_blocks@.len() <= u64::MAX,
    ensures
        parse_delta(enc_delta(d)) == Some(delta_view(d)),
{
    let buf = enc_delta(d);
    let e_h = enc_str(d.original_file_hash@);
    let e_bs = enc_u64(d.block_size as u64);
    let e_tb = enc_u64(d.total_blocks as u64);
    let e_nfs = enc_u64(d.new_file_size);
    let e_cnt = enc_u64(d.changed_blocks@.len() as u64);
    let e_cb = enc_blocks(d.changed_blocks@);
    let o0: int = 4;
    let o1 = o0 + e_h.len() as int;
    let o2 = o1 + 8;
    let o3 = o2 + 8;
    let o4 = o3 + 8;
    let o5 = o4 + 8;
    let o6 = o5 + e_cb.len() as int;
    lemma_enc_delta_segments(d);
    lemma_p_str_at(buf, o0, d.original_file_hash@);
    lemma_p_u64_at(buf, o1, d.block_size as u64);
    lemma_p_u64_at(buf, o2, d.total_blocks as u64);
    lemma_p_u64_at(buf, o3, d.new_file_size);
    lemma_p_u64_at(buf, o4, d.changed_blocks@.len() as u64);
    lemma_p_blocks_at(buf, o5, d.changed_blocks@);
    assert(delta_view(d).4 =~= Seq::new(
        d.changed_blocks@.len(),
        |j: int|
            (d.changed_blocks@[j].index, d.changed_blocks@[j].hash@, d.changed_blocks@[j].data@),
    ));
}

} // verus!

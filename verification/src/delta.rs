//! Block-delta codec: split file content into fixed-size blocks, record the
//! changed blocks against a prior version, and reassemble the new content
//! from the prior version plus a delta.

use vstd::prelude::*;
use crate::hashing::{sha256_hex, sha256_hex_of};

verus! {

/// Fixed block size of the codec, in bytes.
pub const BLOCK_SIZE: usize = 4096;

/// One changed block: its position in the new file, the hex SHA-256 of its
/// content, and the content itself.
#[derive(Debug)]
pub struct DeltaBlock {
    pub index: usize,
    pub hash: String,
    pub data: Vec<u8>,
}

/// A block-level delta between a prior file version and a new one.
/// Blocks of the new file that match the prior version at the same position
/// are elided; `new_file_size` recovers the exact length on reassembly.
#[derive(Debug)]
pub struct DeltaFile {
    pub original_file_hash: String,
    pub block_size: usize,
    pub total_blocks: usize,
    pub changed_blocks: Vec<DeltaBlock>,
    pub new_file_size: u64,
}

/// `s` split into consecutive blocks of `bs` bytes; the last block may be
/// shorter, and a non-positive block size yields no blocks.
pub open spec fn chunks(s: Seq<u8>, bs: int) -> Seq<Seq<u8>>
    decreases s.len(),
{
    if bs <= 0 || s.len() == 0 {
        Seq::empty()
    } else if s.len() <= bs {
        seq![s]
    } else {
        seq![s.take(bs)] + chunks(s.skip(bs), bs)
    }
}

/// Concatenation of a sequence of byte sequences.
pub open spec fn cat(blocks: Seq<Seq<u8>>) -> Seq<u8>
    decreases blocks.len(),
{
    if blocks.len() == 0 {
        Seq::empty()
    } else {
        cat(blocks.drop_last()) + blocks.last()
    }
}

/// `s` cut down to at most `n` bytes.
pub open spec fn clamp(s: Seq<u8>, n: int) -> Seq<u8> {
    if n <= s.len() {
        s.take(n)
    } else {
        s
    }
}

/// Block `i` of the new content differs from the prior content: either the
/// prior version has no block there, or the bytes differ.
pub open spec fn block_changed(prev: Seq<u8>, new: Seq<u8>, i: int) -> bool {
    let pb = chunks(prev, BLOCK_SIZE as int);
    let nb = chunks(new, BLOCK_SIZE as int);
    i >= pb.len() || pb[i] != nb[i]
}

/// `d` is exactly the delta of `new` against `prev`: correct sizing, the hex
/// SHA-256 of the prior content, and the changed blocks listed in strictly
/// increasing order, each carrying the new block's bytes and hash, with every
/// changed block present.
pub open spec fn delta_of(d: DeltaFile, prev: Seq<u8>, new: Seq<u8>) -> bool {
    let nb = chunks(new, BLOCK_SIZE as int);
    let cb = d.changed_blocks@;
    &&& d.block_size == BLOCK_SIZE
    &&& d.total_blocks == nb.len()
    &&& d.new_file_size == new.len()
    &&& d.original_file_hash@ == sha256_hex_of(prev)
    &&& d.original_file_hash@.len() == 64
    &&& forall|k: int|
        0 <= k < cb.len() ==> {
            &&& (#[trigger] cb[k]).index < nb.len()
            &&& block_changed(prev, new, cb[k].index as int)
            &&& cb[k].data@ == nb[cb[k].index as int]
            &&& cb[k].hash@ == sha256_hex_of(nb[cb[k].index as int])
            &&& cb[k].hash@.len() == 64
        }
    &&& forall|k1: int, k2: int|
        0 <= k1 < k2 < cb.len() ==> (#[trigger] cb[k1]).index < (#[trigger] cb[k2]).index
    &&& forall|i: int|
        0 <= i < nb.len() && block_changed(prev, new, i) ==> exists|k: int|
            0 <= k < cb.len() && (#[trigger] cb[k]).index == i
}

/// The blocks reassembly starts from: the prior content's blocks, extended
/// with empty blocks up to `total` when the prior version is shorter.
pub open spec fn padded_base(prev: Seq<u8>, bs: int, total: int) -> Seq<Seq<u8>> {
    let base = chunks(prev, bs);
    if base.len() >= total {
        base
    } else {
        base + Seq::new((total - base.len()) as nat, |i: int| Seq::<u8>::empty())
    }
}

/// The changed blocks written over the base, in list order; an index outside
/// the base is ignored.
pub open spec fn overwrite_blocks(base: Seq<Seq<u8>>, cb: Seq<DeltaBlock>) -> Seq<Seq<u8>>
    decreases cb.len(),
{
    if cb.len() == 0 {
        base
    } else {
        let prior = overwrite_blocks(base, cb.drop_last());
        let b = cb.last();
        if b.index < prior.len() {
            prior.update(b.index as int, b.data@)
        } else {
            prior
        }
    }
}

/// What reassembly returns: prior blocks, padded, overwritten with the changed
/// blocks, concatenated, and cut to the recorded new file size.
pub open spec fn apply_delta_spec(prev: Seq<u8>, d: DeltaFile) -> Seq<u8> {
    let blocks = overwrite_blocks(
        padded_base(prev, d.block_size as int, d.total_blocks as int),
        d.changed_blocks@,
    );
    clamp(cat(blocks), d.new_file_size as int)
}

/// Total bytes carried by the changed blocks of a delta.
pub open spec fn delta_payload_size(cb: Seq<DeltaBlock>) -> nat
    decreases cb.len(),
{
    if cb.len() == 0 {
        0
    } else {
        delta_payload_size(cb.drop_last()) + cb.last().data@.len()
    }
}

/// Every block of `s` holds at most `bs` bytes.
pub proof fn lemma_chunk_len_bound(s: Seq<u8>, bs: int)
    requires
        bs >= 1,
    ensures
        forall|i: int| 0 <= i < chunks(s, bs).len() ==> (#[trigger] chunks(s, bs)[i]).len() <= bs,
    decreases s.len(),
{
    if s.len() == 0 || s.len() <= bs {
    } else {
        lemma_chunk_len_bound(s.skip(bs), bs);
        assert(forall|i: int|
            1 <= i < chunks(s, bs).len() ==> chunks(s, bs)[i] == chunks(s.skip(bs), bs)[i - 1]);
    }
}

/// Strictly increasing block indices below a bound limit how many changed
/// blocks a delta can carry.
pub proof fn lemma_changed_count_bounded(cb: Seq<DeltaBlock>, n: int)
    requires
        forall|k: int| 0 <= k < cb.len() ==> (#[trigger] cb[k]).index < n,
        forall|k1: int, k2: int|
            0 <= k1 < k2 < cb.len() ==> (#[trigger] cb[k1]).index < (#[trigger] cb[k2]).index,
        n >= 0,
    ensures
        cb.len() <= n,
    decreases cb.len(),
{
    if cb.len() > 0 {
        let last = cb.last();
        assert(forall|k: int| 0 <= k < cb.len() - 1 ==> (#[trigger] cb[k]).index < last.index);
        assert(forall|k: int| 0 <= k < cb.drop_last().len() ==> cb.drop_last()[k] == cb[k]);
        lemma_changed_count_bounded(cb.drop_last(), last.index as int);
    }
}

proof fn lemma_cat_push(blocks: Seq<Seq<u8>>, b: Seq<u8>)
    ensures
        cat(blocks.push(b)) == cat(blocks) + b,
{
    assert(blocks.push(b).drop_last() =~= blocks);
    assert(blocks.push(b).last() == b);
}

proof fn lemma_cat_one(b: Seq<u8>)
    ensures
        cat(seq![b]) == b,
{
    assert(seq![b].drop_last() =~= Seq::<Seq<u8>>::empty());
    assert(cat(Seq::<Seq<u8>>::empty()) == Seq::<u8>::empty());
    assert(Seq::<u8>::empty() + b =~= b);
}

proof fn lemma_cat_append(a: Seq<Seq<u8>>, b: Seq<Seq<u8>>)
    ensures
        cat(a + b) == cat(a) + cat(b),
    decreases b.len(),
{
    if b.len() == 0 {
        assert(a + b =~= a);
        assert(cat(a) + cat(b) =~= cat(a));
    } else {
        lemma_cat_append(a, b.drop_last());
        assert((a + b).drop_last() =~= a + b.drop_last());
        assert(cat(a) + cat(b.drop_last()) + b.last() =~= cat(a) + (cat(b.drop_last()) + b.last()));
    }
}

/// Concatenating the blocks of `s` gives back `s`.
pub proof fn lemma_chunks_cat(s: Seq<u8>, bs: int)
    requires
        bs >= 1,
    ensures
        cat(chunks(s, bs)) == s,
    decreases s.len(),
{
    if s.len() == 0 {
        assert(cat(chunks(s, bs)) =~= s);
    } else if s.len() <= bs {
        assert(chunks(s, bs) == seq![s]);
        lemma_cat_one(s);
    } else {
        lemma_chunks_cat(s.skip(bs), bs);
        assert(chunks(s, bs) == seq![s.take(bs)] + chunks(s.skip(bs), bs));
        lemma_cat_append(seq![s.take(bs)], chunks(s.skip(bs), bs));
        lemma_cat_one(s.take(bs));
        assert(s.take(bs) + s.skip(bs) =~= s);
    }
}

proof fn lemma_cat_len_mono(blocks: Seq<Seq<u8>>, i: int, j: int)
    requires
        0 <= i <= j <= blocks.len(),
    ensures
        cat(blocks.take(i)).len() <= cat(blocks.take(j)).len(),
    decreases j - i,
{
    if i < j {
        lemma_cat_len_mono(blocks, i + 1, j);
        assert(blocks.take(i + 1).drop_last() =~= blocks.take(i));
    }
}

/// A delta's payload never exceeds the new content it was built from.
pub proof fn lemma_delta_payload_within_new(d: DeltaFile, prev: Seq<u8>, new: Seq<u8>)
    requires
        delta_of(d, prev, new),
    ensures
        delta_payload_size(d.changed_blocks@) <= new.len(),
{
    let nb = chunks(new, BLOCK_SIZE as int);
    lemma_chunks_cat(new, BLOCK_SIZE as int);
    lemma_payload_bound(d.changed_blocks@, nb);
    assert(nb.take(nb.len() as int) =~= nb);
}

proof fn lemma_payload_bound(cb: Seq<DeltaBlock>, nb: Seq<Seq<u8>>)
    requires
        forall|k: int|
            0 <= k < cb.len() ==> (#[trigger] cb[k]).index < nb.len() && cb[k].data@ == nb[cb[k].index as int],
        forall|k1: int, k2: int|
            0 <= k1 < k2 < cb.len() ==> (#[trigger] cb[k1]).index < (#[trigger] cb[k2]).index,
    ensures
        cb.len() == 0 ==> delta_payload_size(cb) == 0,
        cb.len() > 0 ==> delta_payload_size(cb) <= cat(
            nb.take(cb.last().index + 1 as int),
        ).len(),
        delta_payload_size(cb) <= cat(nb.take(nb.len() as int)).len(),
    decreases cb.len(),
{
    if cb.len() == 0 {
    } else {
        let li = cb.last().index as int;
        lemma_payload_bound(cb.drop_last(), nb);
        assert(nb.take(li + 1).drop_last() =~= nb.take(li));
        assert(cat(nb.take(li + 1)) == cat(nb.take(li)) + nb[li]);
        if cb.len() >= 2 {
            let pi = cb[cb.len() - 2].index as int;
            assert(pi < li);
            lemma_cat_len_mono(nb, pi + 1, li);
        }
        lemma_cat_len_mono(nb, li + 1, nb.len() as int);
    }
}

proof fn lemma_overwrite_len(base: Seq<Seq<u8>>, cb: Seq<DeltaBlock>)
    ensures
        overwrite_blocks(base, cb).len() == base.len(),
    decreases cb.len(),
{
    if cb.len() > 0 {
        lemma_overwrite_len(base, cb.drop_last());
    }
}

proof fn lemma_overwrite_at(base: Seq<Seq<u8>>, cb: Seq<DeltaBlock>, i: int)
    requires
        0 <= i < base.len(),
    ensures
        (forall|k: int| 0 <= k < cb.len() ==> (#[trigger] cb[k]).index != i) ==> overwrite_blocks(
            base,
            cb,
        )[i] == base[i],
        (exists|k: int| 0 <= k < cb.len() && (#[trigger] cb[k]).index == i) ==> exists|k: int|
            0 <= k < cb.len() && (#[trigger] cb[k]).index == i && overwrite_blocks(base, cb)[i]
                == cb[k].data@,
    decreases cb.len(),
{
    lemma_overwrite_len(base, cb);
    if cb.len() > 0 {
        lemma_overwrite_at(base, cb.drop_last(), i);
        lemma_overwrite_len(base, cb.drop_last());
        let li = cb.last().index as int;
        if li == i {
            assert(cb[cb.len() - 1].index == i);
        } else {
            if exists|k: int| 0 <= k < cb.drop_last().len() && (#[trigger] cb.drop_last()[k]).index == i {
                let k = choose|k: int|
                    0 <= k < cb.drop_last().len() && (#[trigger] cb.drop_last()[k]).index == i
                        && overwrite_blocks(base, cb.drop_last())[i] == cb.drop_last()[k].data@;
                assert(cb[k].index == i && overwrite_blocks(base, cb)[i] == cb[k].data@);
            } else {
                assert(forall|k: int| 0 <= k < cb.len() - 1 ==> (#[trigger] cb[k]).index != i) by {
                    assert(forall|k: int|
                        0 <= k < cb.drop_last().len() ==> cb.drop_last()[k] == cb[k]);
                }
            }
        }
    }
}

/// Applying a delta built from `(prev, new)` to `prev` reproduces `new`,
/// byte for byte.
pub proof fn lemma_delta_round_trip(d: DeltaFile, prev: Seq<u8>, new: Seq<u8>)
    requires
        delta_of(d, prev, new),
    ensures
        apply_delta_spec(prev, d) == new,
{
    let bs = BLOCK_SIZE as int;
    let nb = chunks(new, bs);
    let pb = chunks(prev, bs);
    let tb = nb.len() as int;
    let base = padded_base(prev, bs, tb);
    let cb = d.changed_blocks@;
    let fb = overwrite_blocks(base, cb);
    lemma_overwrite_len(base, cb);
    assert(base.len() >= tb);
    assert forall|i: int| 0 <= i < tb implies fb[i] == nb[i] by {
        lemma_overwrite_at(base, cb, i);
        if exists|k: int| 0 <= k < cb.len() && (#[trigger] cb[k]).index == i {
            let k = choose|k: int|
                0 <= k < cb.len() && (#[trigger] cb[k]).index == i && fb[i] == cb[k].data@;
            assert(fb[i] == nb[i]);
        } else {
            assert(!block_changed(prev, new, i));
            assert(i < pb.len() && pb[i] == nb[i]);
            assert(base[i] == pb[i]);
        }
    }
    assert(fb.take(tb) =~= nb);
    assert(fb.take(fb.len() as int) =~= fb);
    lemma_cat_len_mono(fb, tb, fb.len() as int);
    lemma_chunks_cat(new, bs);
    // cat(fb) == new + (trailing prior blocks); clamping to new's length peels
    // the trailing part off.
    assert(fb =~= fb.take(tb) + fb.skip(tb));
    lemma_cat_append(fb.take(tb), fb.skip(tb));
    assert(cat(fb) == new + cat(fb.skip(tb)));
    assert(clamp(cat(fb), new.len() as int) =~= new);
    assert(apply_delta_spec(prev, d) == clamp(cat(fb), d.new_file_size as int));
}

/// The changed blocks of a parsed delta record written over the base, in
/// record order; an index outside the base is ignored.
pub open spec fn overwrite_blocks_view(
    base: Seq<Seq<u8>>,
    cb: Seq<(usize, Seq<char>, Seq<u8>)>,
) -> Seq<Seq<u8>>
    decreases cb.len(),
{
    if cb.len() == 0 {
        base
    } else {
        let prior = overwrite_blocks_view(base, cb.drop_last());
        let b = cb.last();
        if b.0 < prior.len() {
            prior.update(b.0 as int, b.2)
        } else {
            prior
        }
    }
}

/// Reassembly described over a parsed delta record rather than the
/// in-memory structure: the two agree through `delta_view`.
pub open spec fn apply_delta_view(
    prev: Seq<u8>,
    v: (Seq<char>, usize, usize, u64, Seq<(usize, Seq<char>, Seq<u8>)>),
) -> Seq<u8> {
    let blocks = overwrite_blocks_view(padded_base(prev, v.1 as int, v.2 as int), v.4);
    clamp(cat(blocks), v.3 as int)
}

proof fn lemma_overwrite_matches_view(base: Seq<Seq<u8>>, cb: Seq<DeltaBlock>)
    ensures
        overwrite_blocks_view(
            base,
            Seq::new(cb.len(), |k: int| (cb[k].index, cb[k].hash@, cb[k].data@)),
        ) == overwrite_blocks(base, cb),
    decreases cb.len(),
{
    let cbv = Seq::new(cb.len(), |k: int| (cb[k].index, cb[k].hash@, cb[k].data@));
    if cb.len() == 0 {
    } else {
        lemma_overwrite_matches_view(base, cb.drop_last());
        assert(cbv.drop_last() =~= Seq::new(
            cb.drop_last().len(),
            |k: int| (cb.drop_last()[k].index, cb.drop_last()[k].hash@, cb.drop_last()[k].data@),
        ));
        assert(cbv.last().0 == cb.last().index && cbv.last().2 == cb.last().data@);
    }
}

/// Applying a delta is a function of its parsed record: any in-memory delta
/// with the same denotation reassembles the same bytes.
pub proof fn lemma_apply_matches_view(prev: Seq<u8>, d: DeltaFile)
    ensures
        apply_delta_view(prev, crate::delta_codec::delta_view(d)) == apply_delta_spec(prev, d),
{
    lemma_overwrite_matches_view(
        padded_base(prev, d.block_size as int, d.total_blocks as int),
        d.changed_blocks@,
    );
}

/// Bytes `from..to` of `v`, as a fresh vector.
pub fn subrange_vec(v: &Vec<u8>, from: usize, to: usize) -> (r: Vec<u8>)
    requires
        from <= to <= v@.len(),
    ensures
        r@ == v@.subrange(from as int, to as int),
{
    let mut r: Vec<u8> = Vec::new();
    let mut i: usize = from;
    while i < to
        invariant
            from <= i <= to <= v@.len(),
            r@ == v@.subrange(from as int, i as int),
        decreases to - i,
    {
        r.push(v[i]);
        proof {
            assert(v@.subrange(from as int, i + 1) =~= v@.subrange(from as int, i as int).push(
                v@[i as int],
            ));
        }
        i = i + 1;
    }
    r
}

pub fn bytes_eq(a: &Vec<u8>, b: &Vec<u8>) -> (r: bool)
    ensures
        r == (a@ == b@),
{
    if a.len() != b.len() {
        assert(a@ != b@);
        return false;
    }
    let mut i: usize = 0;
    while i < a.len()
        invariant
            a@.len() == b@.len(),
            0 <= i <= a@.len(),
            forall|j: int| 0 <= j < i ==> a@[j] == b@[j],
        decreases a@.len() - i,
    {
        if a[i] != b[i] {
            return false;
        }
        i = i + 1;
    }
    proof {
        assert(a@ =~= b@);
    }
    true
}

/// `data` split into blocks of `bs` bytes, as fresh vectors.
pub fn chunk_bytes(data: &Vec<u8>, bs: usize) -> (r: Vec<Vec<u8>>)
    requires
        bs >= 1,
    ensures
        r.deep_view() == chunks(data@, bs as int),
{
    let mut r: Vec<Vec<u8>> = Vec::new();
    let mut pos: usize = 0;
    proof {
        assert(data@.skip(0) =~= data@);
        assert(r.deep_view() =~~= Seq::<Seq<u8>>::empty());
        assert(r.deep_view() + chunks(data@, bs as int) =~= chunks(data@, bs as int));
    }
    while pos < data.len()
        invariant
            bs >= 1,
            0 <= pos <= data@.len(),
            chunks(data@, bs as int) == r.deep_view() + chunks(data@.skip(pos as int), bs as int),
        decreases data@.len() - pos,
    {
        let remaining = data.len() - pos;
        let end = if bs < remaining {
            pos + bs
        } else {
            data.len()
        };
        let chunk = subrange_vec(data, pos, end);
        proof {
            let rest = data@.skip(pos as int);
            if rest.len() <= bs {
                assert(chunks(rest, bs as int) == seq![rest]);
                assert(chunk@ =~= rest);
            } else {
                assert(chunks(rest, bs as int) == seq![rest.take(bs as int)] + chunks(
                    rest.skip(bs as int),
                    bs as int,
                ));
                assert(chunk@ =~= rest.take(bs as int));
                assert(rest.skip(bs as int) =~= data@.skip(pos + bs));
            }
        }
        let ghost old_r = r.deep_view();
        let ghost chunk_view = chunk@;
        r.push(chunk);
        proof {
            assert(r.deep_view() =~~= old_r.push(chunk_view));
            let rest = data@.skip(pos as int);
            if rest.len() <= bs {
                assert(data@.skip(end as int).len() == 0);
                assert(chunks(data@.skip(end as int), bs as int) == Seq::<Seq<u8>>::empty());
                assert(old_r.push(chunk_view) + Seq::<Seq<u8>>::empty() =~= old_r + seq![rest]);
            } else {
                assert(old_r.push(chunk_view) + chunks(data@.skip(end as int), bs as int) =~= old_r
                    + (seq![rest.take(bs as int)] + chunks(rest.skip(bs as int), bs as int)));
            }
        }
        pos = end;
    }
    proof {
        assert(data@.skip(pos as int).len() == 0);
        assert(chunks(data@.skip(pos as int), bs as int) == Seq::<Seq<u8>>::empty());
        assert(r.deep_view() + Seq::<Seq<u8>>::empty() =~= r.deep_view());
    }
    r
}

/// The hex SHA-256 of each block of `content`, in order.
pub fn calculate_block_hashes(content: &Vec<u8>) -> (r: Vec<String>)
    ensures
        r@.len() == chunks(content@, BLOCK_SIZE as int).len(),
        forall|i: int|
            0 <= i < r@.len() ==> (#[trigger] r@[i])@ == sha256_hex_of(
                chunks(content@, BLOCK_SIZE as int)[i],
            ),
{
    let blocks = chunk_bytes(content, BLOCK_SIZE);
    let mut r: Vec<String> = Vec::new();
    let mut i: usize = 0;
    while i < blocks.len()
        invariant
            blocks.deep_view() == chunks(content@, BLOCK_SIZE as int),
            0 <= i <= blocks@.len(),
            r@.len() == i,
            forall|j: int|
                0 <= j < i ==> (#[trigger] r@[j])@ == sha256_hex_of(
                    chunks(content@, BLOCK_SIZE as int)[j],
                ),
        decreases blocks@.len() - i,
    {
        let h = sha256_hex(&blocks[i]);
        proof {
            assert(blocks.deep_view()[i as int] == blocks@[i as int]@);
        }
        r.push(h);
        i = i + 1;
    }
    r
}

/// Builds the delta of `new_content` against `original`: block `i` is
/// recorded exactly when the prior version has no block `i` or its bytes
/// differ. A missing prior file is passed as empty content.
pub fn create_delta(original: &Vec<u8>, new_content: &Vec<u8>) -> (d: DeltaFile)
    ensures
        delta_of(d, original@, new_content@),
{
    let prev_blocks = chunk_bytes(original, BLOCK_SIZE);
    let new_blocks = chunk_bytes(new_content, BLOCK_SIZE);
    let original_file_hash = sha256_hex(original);
    let mut changed_blocks: Vec<DeltaBlock> = Vec::new();
    let mut i: usize = 0;
    while i < new_blocks.len()
        invariant
            prev_blocks.deep_view() == chunks(original@, BLOCK_SIZE as int),
            new_blocks.deep_view() == chunks(new_content@, BLOCK_SIZE as int),
            0 <= i <= new_blocks@.len(),
            forall|k: int|
                0 <= k < changed_blocks@.len() ==> {
                    &&& (#[trigger] changed_blocks@[k]).index < i
                    &&& block_changed(original@, new_content@, changed_blocks@[k].index as int)
                    &&& changed_blocks@[k].data@ == chunks(
                        new_content@,
                        BLOCK_SIZE as int,
                    )[changed_blocks@[k].index as int]
                    &&& changed_blocks@[k].hash@ == sha256_hex_of(
                        chunks(new_content@, BLOCK_SIZE as int)[changed_blocks@[k].index as int],
                    )
                    &&& changed_blocks@[k].hash@.len() == 64
                },
            forall|k1: int, k2: int|
                0 <= k1 < k2 < changed_blocks@.len() ==> (#[trigger] changed_blocks@[k1]).index < (
                #[trigger] changed_blocks@[k2]).index,
            forall|j: int|
                0 <= j < i && block_changed(original@, new_content@, j) ==> exists|k: int|
                    0 <= k < changed_blocks@.len() && (#[trigger] changed_blocks@[k]).index == j,
        decreases new_blocks@.len() - i,
    {
        proof {
            assert(new_blocks.deep_view()[i as int] == new_blocks@[i as int]@);
        }
        let is_changed = if i < prev_blocks.len() {
            proof {
                assert(prev_blocks.deep_view()[i as int] == prev_blocks@[i as int]@);
            }
            !bytes_eq(&prev_blocks[i], &new_blocks[i])
        } else {
            true
        };
        if is_changed {
            let hash = sha256_hex(&new_blocks[i]);
            let data = subrange_vec(&new_blocks[i], 0, new_blocks[i].len());
            proof {
                assert(data@ =~= new_blocks@[i as int]@);
            }
            let ghost prior = changed_blocks@;
            changed_blocks.push(DeltaBlock { index: i, hash, data });
            proof {
                assert(changed_blocks@.drop_last() =~= prior);
                assert(forall|j: int|
                    0 <= j < i && block_changed(original@, new_content@, j) ==> exists|k: int|
                        0 <= k < prior.len() && (#[trigger] prior[k]).index == j);
                assert forall|j: int|
                    0 <= j < i + 1 && block_changed(original@, new_content@, j) implies exists|
                    k: int,
                |
                    0 <= k < changed_blocks@.len() && (#[trigger] changed_blocks@[k]).index
                        == j by {
                    if j < i {
                        let k = choose|k: int|
                            0 <= k < prior.len() && (#[trigger] prior[k]).index == j;
                        assert(changed_blocks@[k].index == j);
                    } else {
                        assert(changed_blocks@[changed_blocks@.len() - 1].index == j);
                    }
                }
            }
        }
        i = i + 1;
    }
    let d = DeltaFile {
        original_file_hash,
        block_size: BLOCK_SIZE,
        total_blocks: new_blocks.len(),
        changed_blocks,
        new_file_size: new_content.len() as u64,
    };
    proof {
        let nb = chunks(new_content@, BLOCK_SIZE as int);
        let cb = d.changed_blocks@;
        assert(d.total_blocks == nb.len());
        assert(d.new_file_size == new_content@.len());
        assert(d.original_file_hash@ == sha256_hex_of(original@));
        assert(d.original_file_hash@.len() == 64);
        assert(forall|k: int|
            0 <= k < cb.len() ==> {
                &&& (#[trigger] cb[k]).index < nb.len()
                &&& block_changed(original@, new_content@, cb[k].index as int)
                &&& cb[k].data@ == nb[cb[k].index as int]
                &&& cb[k].hash@ == sha256_hex_of(nb[cb[k].index as int])
                &&& cb[k].hash@.len() == 64
            });
        assert(forall|k1: int, k2: int|
            0 <= k1 < k2 < cb.len() ==> (#[trigger] cb[k1]).index < (#[trigger] cb[k2]).index);
        assert(forall|i2: int|
            0 <= i2 < nb.len() && block_changed(original@, new_content@, i2) ==> exists|k: int|
                0 <= k < cb.len() && (#[trigger] cb[k]).index == i2);
    }
    d
}

/// Reassembles file content from a prior version and a delta: prior blocks,
/// padded with empty blocks up to the delta's block count, overwritten with
/// the changed blocks, concatenated, and cut to the recorded size. A missing
/// prior file is passed as empty content.
pub fn apply_delta(original: &Vec<u8>, delta: &DeltaFile) -> (r: Vec<u8>)
    ensures
        r@ == apply_delta_spec(original@, *delta),
{
    let bs = delta.block_size;
    let mut blocks: Vec<Vec<u8>> = if bs >= 1 {
        chunk_bytes(original, bs)
    } else {
        Vec::new()
    };
    proof {
        assert(blocks.deep_view() =~= chunks(original@, bs as int));
    }
    while blocks.len() < delta.total_blocks
        invariant
            blocks.deep_view().len() >= chunks(original@, bs as int).len(),
            blocks.deep_view().len() <= vstd::math::max(
                chunks(original@, bs as int).len() as int,
                delta.total_blocks as int,
            ),
            forall|i: int|
                0 <= i < blocks.deep_view().len() ==> blocks.deep_view()[i]
                    == padded_base(original@, bs as int, delta.total_blocks as int)[i],
        decreases delta.total_blocks - blocks.len(),
    {
        let ghost before = blocks.deep_view();
        blocks.push(Vec::new());
        proof {
            assert(blocks.deep_view() =~~= before.push(Seq::<u8>::empty()));
        }
    }
    proof {
        assert(blocks.deep_view() =~= padded_base(original@, bs as int, delta.total_blocks as int));
    }
    let ghost base = padded_base(original@, bs as int, delta.total_blocks as int);
    let mut k: usize = 0;
    while k < delta.changed_blocks.len()
        invariant
            blocks.deep_view() == overwrite_blocks(base, delta.changed_blocks@.take(k as int)),
            0 <= k <= delta.changed_blocks@.len(),
        decreases delta.changed_blocks@.len() - k,
    {
        proof {
            lemma_overwrite_len(base, delta.changed_blocks@.take(k as int));
            assert(delta.changed_blocks@.take(k + 1).drop_last() =~= delta.changed_blocks@.take(
                k as int,
            ));
        }
        let cb = &delta.changed_blocks[k];
        if cb.index < blocks.len() {
            let ghost before = blocks.deep_view();
            let data = subrange_vec(&cb.data, 0, cb.data.len());
            proof {
                assert(data@ =~= cb.data@);
            }
            blocks.set(cb.index, data);
            proof {
                assert(blocks.deep_view() =~~= before.update(cb.index as int, cb.data@));
            }
        }
        k = k + 1;
    }
    proof {
        assert(delta.changed_blocks@.take(delta.changed_blocks@.len() as int)
            =~= delta.changed_blocks@);
    }
    let ghost fb = overwrite_blocks(base, delta.changed_blocks@);
    let mut out: Vec<u8> = Vec::new();
    let mut written: u64 = 0;
    let mut i: usize = 0;
    while i < blocks.len()
        invariant
            blocks.deep_view() == fb,
            0 <= i <= blocks@.len(),
            out@ == clamp(cat(fb.take(i as int)), delta.new_file_size as int),
            written == out@.len(),
            written <= delta.new_file_size,
        decreases blocks@.len() - i,
    {
        let remaining = delta.new_file_size - written;
        let blen = blocks[i].len();
        let to_write: usize = if (blen as u64) < remaining {
            blen
        } else {
            remaining as usize
        };
        let ghost out_before = out@;
        let piece = subrange_vec(&blocks[i], 0, to_write);
        let mut j: usize = 0;
        while j < piece.len()
            invariant
                0 <= j <= piece@.len(),
                out@ == out_before + piece@.subrange(0, j as int),
            decreases piece@.len() - j,
        {
            out.push(piece[j]);
            proof {
                assert(out_before + piece@.subrange(0, j + 1) =~= (out_before + piece@.subrange(
                    0,
                    j as int,
                )).push(piece@[j as int]));
            }
            j = j + 1;
        }
        proof {
            assert(piece@.subrange(0, piece@.len() as int) =~= piece@);
            assert(out@ == out_before + blocks.deep_view()[i as int].subrange(0, to_write as int));
            assert(fb.take(i + 1).drop_last() =~= fb.take(i as int));
            assert(cat(fb.take(i + 1)) == cat(fb.take(i as int)) + fb[i as int]);
            let n = delta.new_file_size as int;
            let prevc = cat(fb.take(i as int));
            let b = fb[i as int];
            if prevc.len() >= n {
                assert(to_write == 0);
                assert(b.subrange(0, 0) =~= Seq::<u8>::empty());
                assert(out@ =~= out_before);
                assert(clamp(prevc + b, n) =~= clamp(prevc, n)) by {
                    assert((prevc + b).take(n) =~= prevc.take(n));
                }
            } else {
                assert(out_before =~= prevc);
                if prevc.len() + b.len() <= n {
                    assert(to_write == b.len());
                    assert(b.subrange(0, b.len() as int) =~= b);
                    assert(clamp(prevc + b, n) =~= prevc + b);
                } else {
                    assert(to_write == n - prevc.len());
                    assert(clamp(prevc + b, n) =~= prevc + b.subrange(0, to_write as int)) by {
                        assert((prevc + b).take(n) =~= prevc + b.subrange(0, n - prevc.len()));
                    }
                }
            }
        }
        written = written + (to_write as u64);
        i = i + 1;
    }
    proof {
        assert(fb.take(blocks@.len() as int) =~= fb);
    }
    out
}

/// Sum of the changed blocks' byte counts: the payload a delta would persist.
pub fn delta_size(delta: &DeltaFile) -> (r: usize)
    requires
        delta_payload_size(delta.changed_blocks@) <= usize::MAX,
    ensures
        r == delta_payload_size(delta.changed_blocks@),
{
    let mut total: usize = 0;
    let mut k: usize = 0;
    while k < delta.changed_blocks.len()
        invariant
            0 <= k <= delta.changed_blocks@.len(),
            total == delta_payload_size(delta.changed_blocks@.take(k as int)),
            delta_payload_size(delta.changed_blocks@) <= usize::MAX,
        decreases delta.changed_blocks@.len() - k,
    {
        proof {
            assert(delta.changed_blocks@.take(k + 1).drop_last() =~= delta.changed_blocks@.take(
                k as int,
            ));
            lemma_payload_prefix(delta.changed_blocks@, k + 1);
        }
        total = total + delta.changed_blocks[k].data.len();
        k = k + 1;
    }
    proof {
        assert(delta.changed_blocks@.take(delta.changed_blocks@.len() as int)
            =~= delta.changed_blocks@);
    }
    total
}

proof fn lemma_payload_prefix(cb: Seq<DeltaBlock>, i: int)
    requires
        0 <= i <= cb.len(),
    ensures
        delta_payload_size(cb.take(i)) <= delta_payload_size(cb),
    decreases cb.len() - i,
{
    if i < cb.len() {
        lemma_payload_prefix(cb, i + 1);
        assert(cb.take(i + 1).drop_last() =~= cb.take(i));
    } else {
        assert(cb.take(i) =~= cb);
    }
}

} // verus!

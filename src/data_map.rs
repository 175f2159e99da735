//! The data map that self-encryption produces for a file's content: the
//! identifiers of its chunks and, for a shrunk map, its level.
use crate::codec::{bytes_enc, lemma_bytes_at_unique, lemma_bytes_enc_unique, lemma_word_enc, lemma_word_enc_unique, read_bytes, read_word, word_enc, write_bytes, write_word};
use crate::order::{cmp_int, compare_bytes, compare_usize, lemma_lex_bytes_equal, lex_bytes, then_cmp};
use core::cmp::Ordering;
use vstd::prelude::*;

verus! {

/// What is kept of one chunk: its position, its hashes after and before
/// encryption, and its size before encryption.
#[derive(Clone, Debug, PartialEq, Eq, PartialOrd, Ord)]
pub struct ChunkInfo {
    pub index: usize,
    pub dst_hash: Vec<u8>,
    pub src_hash: Vec<u8>,
    pub src_size: usize,
}

/// The value a `ChunkInfo` holds.
pub struct ChunkInfoView {
    pub index: usize,
    pub dst_hash: Seq<u8>,
    pub src_hash: Seq<u8>,
    pub src_size: usize,
}

impl View for ChunkInfo {
    type V = ChunkInfoView;

    open spec fn view(&self) -> ChunkInfoView {
        ChunkInfoView {
            index: self.index,
            dst_hash: self.dst_hash@,
            src_hash: self.src_hash@,
            src_size: self.src_size,
        }
    }
}

/// The chunk identifiers of a file's content, and how many levels the map was
/// shrunk by (`None` for a root map). A map with no chunks and no level is empty.
#[derive(Clone, Debug, PartialEq, Eq, PartialOrd, Ord)]
pub struct DataMap {
    pub chunk_identifiers: Vec<ChunkInfo>,
    pub child: Option<usize>,
}

/// The value a `DataMap` holds.
pub struct DataMapView {
    pub chunks: Seq<ChunkInfoView>,
    pub child: Option<usize>,
}

/// The views of a sequence of chunk identifiers.
pub open spec fn chunk_views(s: Seq<ChunkInfo>) -> Seq<ChunkInfoView> {
    s.map_values(|c: ChunkInfo| c@)
}

impl View for DataMap {
    type V = DataMapView;

    open spec fn view(&self) -> DataMapView {
        DataMapView { chunks: chunk_views(self.chunk_identifiers@), child: self.child }
    }
}

/// The empty data map.
pub open spec fn empty_view() -> DataMapView {
    DataMapView { chunks: Seq::empty(), child: None }
}

/// Both hash lengths fit the encoding's length words.
pub open spec fn chunk_wf(c: ChunkInfoView) -> bool {
    c.dst_hash.len() <= u64::MAX && c.src_hash.len() <= u64::MAX
}

/// Every length in the value fits the encoding's length words.
pub open spec fn data_map_wf(d: DataMapView) -> bool {
    &&& d.chunks.len() <= u64::MAX
    &&& forall|i: int| 0 <= i < d.chunks.len() ==> chunk_wf(#[trigger] d.chunks[i])
}

/// Encoding of a chunk identifier: index, framed hashes, size.
pub open spec fn chunk_enc(c: ChunkInfoView) -> Seq<u8> {
    word_enc(c.index as u64) + bytes_enc(c.dst_hash) + bytes_enc(c.src_hash) + word_enc(c.src_size as u64)
}

/// Encodings of the chunk identifiers, one after another.
pub open spec fn chunks_enc(s: Seq<ChunkInfoView>) -> Seq<u8>
    decreases s.len(),
{
    if s.len() == 0 {
        Seq::empty()
    } else {
        chunk_enc(s[0]) + chunks_enc(s.drop_first())
    }
}

/// Encoding of the level: a tag byte, then the level if there is one.
pub open spec fn child_enc(c: Option<usize>) -> Seq<u8> {
    match c {
        None => seq![0u8],
        Some(n) => seq![1u8] + word_enc(n as u64),
    }
}

/// Encoding of a data map: the number of chunks, the chunks, the level.
pub open spec fn data_map_enc(d: DataMapView) -> Seq<u8> {
    word_enc(d.chunks.len() as u64) + chunks_enc(d.chunks) + child_enc(d.child)
}

/// The order of chunk identifiers: by index, hash after encryption, hash
/// before encryption, then size.
pub open spec fn chunk_cmp(a: ChunkInfoView, b: ChunkInfoView) -> Ordering {
    then_cmp(
        cmp_int(a.index as int, b.index as int),
        then_cmp(
            lex_bytes(a.dst_hash, b.dst_hash),
            then_cmp(lex_bytes(a.src_hash, b.src_hash), cmp_int(a.src_size as int, b.src_size as int)),
        ),
    )
}

/// The lexicographic order of two sequences of chunk identifiers.
pub open spec fn lex_chunks(a: Seq<ChunkInfoView>, b: Seq<ChunkInfoView>) -> Ordering
    decreases a.len(),
{
    if a.len() == 0 && b.len() == 0 {
        Ordering::Equal
    } else if a.len() == 0 {
        Ordering::Less
    } else if b.len() == 0 {
        Ordering::Greater
    } else {
        then_cmp(chunk_cmp(a[0], b[0]), lex_chunks(a.drop_first(), b.drop_first()))
    }
}

/// The order of levels: a root map comes first, then by level.
pub open spec fn child_cmp(a: Option<usize>, b: Option<usize>) -> Ordering {
    match (a, b) {
        (None, None) => Ordering::Equal,
        (None, Some(_)) => Ordering::Less,
        (Some(_), None) => Ordering::Greater,
        (Some(x), Some(y)) => cmp_int(x as int, y as int),
    }
}

/// The order of data maps: by chunk identifiers, then by level.
pub open spec fn data_map_cmp(a: DataMapView, b: DataMapView) -> Ordering {
    then_cmp(lex_chunks(a.chunks, b.chunks), child_cmp(a.child, b.child))
}

/// Two chunk identifiers are equal in their order exactly when they are equal.
pub proof fn lemma_chunk_cmp_equal(a: ChunkInfoView, b: ChunkInfoView)
    ensures
        (chunk_cmp(a, b) == Ordering::Equal) == (a == b),
{
    lemma_lex_bytes_equal(a.dst_hash, b.dst_hash);
    lemma_lex_bytes_equal(a.src_hash, b.src_hash);
}

/// Two sequences of chunk identifiers are equal in their order exactly when
/// they are equal.
pub proof fn lemma_lex_chunks_equal(a: Seq<ChunkInfoView>, b: Seq<ChunkInfoView>)
    ensures
        (lex_chunks(a, b) == Ordering::Equal) == (a == b),
    decreases a.len(),
{
    if a.len() > 0 && b.len() > 0 {
        lemma_chunk_cmp_equal(a[0], b[0]);
        lemma_lex_chunks_equal(a.drop_first(), b.drop_first());
        if a[0] == b[0] && a.drop_first() == b.drop_first() {
            assert(a =~= seq![a[0]] + a.drop_first());
            assert(b =~= seq![b[0]] + b.drop_first());
        }
        if a == b {
            assert(a.drop_first() == b.drop_first());
        }
    } else if a.len() == 0 && b.len() == 0 {
        assert(a =~= b);
    }
}

/// Two data maps are equal in their order exactly when they are equal.
pub proof fn lemma_data_map_cmp_equal(a: DataMapView, b: DataMapView)
    ensures
        (data_map_cmp(a, b) == Ordering::Equal) == (a == b),
{
    lemma_lex_chunks_equal(a.chunks, b.chunks);
}

/// The encoding of a chunk identifier, split into its four fields.
proof fn lemma_chunk_parts(c: ChunkInfoView)
    ensures
        chunk_enc(c).subrange(0, 8) == word_enc(c.index as u64),
        chunk_enc(c).subrange(8, chunk_enc(c).len() as int) == bytes_enc(c.dst_hash) + bytes_enc(c.src_hash)
            + word_enc(c.src_size as u64),
        chunk_enc(c).len() == 8 + bytes_enc(c.dst_hash).len() + bytes_enc(c.src_hash).len() + 8,
{
    lemma_word_enc(c.index as u64);
    lemma_word_enc(c.src_size as u64);
    assert(chunk_enc(c).subrange(0, 8) =~= word_enc(c.index as u64));
    assert(chunk_enc(c).subrange(8, chunk_enc(c).len() as int) =~= bytes_enc(c.dst_hash) + bytes_enc(
        c.src_hash,
    ) + word_enc(c.src_size as u64));
}

/// Two encoded chunk identifiers that start the same input are the same.
pub proof fn lemma_chunk_enc_unique(a: ChunkInfoView, b: ChunkInfoView, ra: Seq<u8>, rb: Seq<u8>)
    requires
        chunk_wf(a),
        chunk_wf(b),
        chunk_enc(a) + ra == chunk_enc(b) + rb,
    ensures
        a == b,
        ra == rb,
{
    let ta = bytes_enc(a.dst_hash) + bytes_enc(a.src_hash) + word_enc(a.src_size as u64) + ra;
    let tb = bytes_enc(b.dst_hash) + bytes_enc(b.src_hash) + word_enc(b.src_size as u64) + rb;
    assert(chunk_enc(a) + ra =~= word_enc(a.index as u64) + ta);
    assert(chunk_enc(b) + rb =~= word_enc(b.index as u64) + tb);
    lemma_word_enc_unique(a.index as u64, b.index as u64, ta, tb);
    let ua = bytes_enc(a.src_hash) + word_enc(a.src_size as u64) + ra;
    let ub = bytes_enc(b.src_hash) + word_enc(b.src_size as u64) + rb;
    assert(ta =~= bytes_enc(a.dst_hash) + ua);
    assert(tb =~= bytes_enc(b.dst_hash) + ub);
    lemma_bytes_enc_unique(a.dst_hash, b.dst_hash, ua, ub);
    let va = word_enc(a.src_size as u64) + ra;
    let vb = word_enc(b.src_size as u64) + rb;
    assert(ua =~= bytes_enc(a.src_hash) + va);
    assert(ub =~= bytes_enc(b.src_hash) + vb);
    lemma_bytes_enc_unique(a.src_hash, b.src_hash, va, vb);
    lemma_word_enc_unique(a.src_size as u64, b.src_size as u64, ra, rb);
}

/// Appending one chunk identifier appends its encoding.
pub proof fn lemma_chunks_enc_push(s: Seq<ChunkInfoView>, c: ChunkInfoView)
    ensures
        chunks_enc(s.push(c)) == chunks_enc(s) + chunk_enc(c),
    decreases s.len(),
{
    if s.len() == 0 {
        assert(s.push(c).drop_first() =~= Seq::<ChunkInfoView>::empty());
        assert(s.push(c)[0] == c);
        assert(chunks_enc(s.push(c).drop_first()) == Seq::<u8>::empty());
        assert(chunks_enc(s) == Seq::<u8>::empty());
        assert(chunks_enc(s.push(c)) =~= chunks_enc(s) + chunk_enc(c));
    } else {
        assert(s.push(c).drop_first() =~= s.drop_first().push(c));
        lemma_chunks_enc_push(s.drop_first(), c);
        assert(chunks_enc(s.push(c)) =~= chunks_enc(s) + chunk_enc(c));
    }
}

/// Two sequences of as many encoded chunk identifiers that start the same
/// input are the same sequence.
pub proof fn lemma_chunks_enc_unique(a: Seq<ChunkInfoView>, b: Seq<ChunkInfoView>, ra: Seq<u8>, rb: Seq<u8>)
    requires
        a.len() == b.len(),
        forall|i: int| 0 <= i < a.len() ==> chunk_wf(#[trigger] a[i]),
        forall|i: int| 0 <= i < b.len() ==> chunk_wf(#[trigger] b[i]),
        chunks_enc(a) + ra == chunks_enc(b) + rb,
    ensures
        a == b,
        ra == rb,
    decreases a.len(),
{
    if a.len() == 0 {
        assert(chunks_enc(a) + ra =~= ra);
        assert(chunks_enc(b) + rb =~= rb);
        assert(a =~= b);
    } else {
        let ta = chunks_enc(a.drop_first()) + ra;
        let tb = chunks_enc(b.drop_first()) + rb;
        assert(chunks_enc(a) + ra =~= chunk_enc(a[0]) + ta);
        assert(chunks_enc(b) + rb =~= chunk_enc(b[0]) + tb);
        assert(chunk_wf(a[0]) && chunk_wf(b[0]));
        lemma_chunk_enc_unique(a[0], b[0], ta, tb);
        assert forall|i: int| 0 <= i < a.drop_first().len() implies chunk_wf(#[trigger] a.drop_first()[i]) by {
            assert(chunk_wf(a[i + 1]));
        }
        assert forall|i: int| 0 <= i < b.drop_first().len() implies chunk_wf(#[trigger] b.drop_first()[i]) by {
            assert(chunk_wf(b[i + 1]));
        }
        lemma_chunks_enc_unique(a.drop_first(), b.drop_first(), ra, rb);
        assert forall|i: int| 0 <= i < a.len() implies a[i] == b[i] by {
            if i > 0 {
                assert(a[i] == a.drop_first()[i - 1]);
                assert(b[i] == b.drop_first()[i - 1]);
            }
        }
        assert(a =~= b);
    }
}

/// Two encoded levels that start the same input are the same level.
pub proof fn lemma_child_enc_unique(a: Option<usize>, b: Option<usize>, ra: Seq<u8>, rb: Seq<u8>)
    requires
        child_enc(a) + ra == child_enc(b) + rb,
    ensures
        a == b,
        ra == rb,
{
    let s = child_enc(a) + ra;
    assert(s[0] == child_enc(a)[0]);
    assert(s[0] == child_enc(b)[0]);
    match (a, b) {
        (None, None) => {
            assert(ra =~= s.subrange(1, s.len() as int));
            assert(rb =~= s.subrange(1, s.len() as int));
        },
        (Some(x), Some(y)) => {
            assert(word_enc(x as u64) + ra =~= s.subrange(1, s.len() as int));
            assert(word_enc(y as u64) + rb =~= s.subrange(1, s.len() as int));
            lemma_word_enc_unique(x as u64, y as u64, ra, rb);
        },
        _ => {},
    }
}

/// Two encoded data maps that start the same input are the same data map.
pub proof fn lemma_data_map_enc_unique(a: DataMapView, b: DataMapView, ra: Seq<u8>, rb: Seq<u8>)
    requires
        data_map_wf(a),
        data_map_wf(b),
        data_map_enc(a) + ra == data_map_enc(b) + rb,
    ensures
        a == b,
        ra == rb,
{
    let ta = chunks_enc(a.chunks) + (child_enc(a.child) + ra);
    let tb = chunks_enc(b.chunks) + (child_enc(b.child) + rb);
    assert(data_map_enc(a) + ra =~= word_enc(a.chunks.len() as u64) + ta);
    assert(data_map_enc(b) + rb =~= word_enc(b.chunks.len() as u64) + tb);
    lemma_word_enc_unique(a.chunks.len() as u64, b.chunks.len() as u64, ta, tb);
    lemma_chunks_enc_unique(a.chunks, b.chunks, child_enc(a.child) + ra, child_enc(b.child) + rb);
    lemma_child_enc_unique(a.child, b.child, ra, rb);
}

/// Reads a `u64` word at `pos` as a `usize`. `None` exactly when no word that
/// fits a `usize` starts there.
fn read_usize(b: &[u8], pos: usize) -> (r: Option<(usize, usize)>)
    requires
        pos <= b@.len(),
    ensures
        match r {
            Some((x, p)) => p == pos + 8 && p <= b@.len() && b@.subrange(pos as int, p as int)
                == word_enc(x as u64),
            None => forall|x: usize, q: int|
                pos <= q <= b@.len() ==> #[trigger] b@.subrange(pos as int, q) != #[trigger] word_enc(x as u64),
        },
{
    match read_word(b, pos) {
        None => {
            proof {
                assert forall|x: usize, q: int|
                    pos <= q <= b@.len() implies #[trigger] b@.subrange(pos as int, q) != #[trigger] word_enc(x as u64) by {
                    lemma_word_enc(x as u64);
                }
            }
            None
        },
        Some((w, p)) => {
            if w > usize::MAX as u64 {
                proof {
                    assert forall|x: usize, q: int|
                        pos <= q <= b@.len() implies #[trigger] b@.subrange(pos as int, q) != #[trigger] word_enc(x as u64) by {
                        lemma_word_enc(x as u64);
                        lemma_word_enc(w);
                    }
                }
                None
            } else {
                Some((w as usize, p))
            }
        },
    }
}

/// Where an encoded chunk identifier stands in `b` from `pos` to `q`, where
/// each of its fields stands.
proof fn lemma_chunk_at(b: Seq<u8>, pos: int, q: int, c: ChunkInfoView)
    requires
        0 <= pos <= q <= b.len(),
        b.subrange(pos, q) == chunk_enc(c),
    ensures
        ({
            let p1 = pos + 8;
            let p2 = p1 + bytes_enc(c.dst_hash).len();
            let p3 = p2 + bytes_enc(c.src_hash).len();
            &&& q == p3 + 8
            &&& b.subrange(pos, p1) == word_enc(c.index as u64)
            &&& b.subrange(p1, p2) == bytes_enc(c.dst_hash)
            &&& b.subrange(p2, p3) == bytes_enc(c.src_hash)
            &&& b.subrange(p3, q) == word_enc(c.src_size as u64)
        }),
{
    lemma_word_enc(c.index as u64);
    lemma_word_enc(c.src_size as u64);
    let p1 = pos + 8;
    let p2 = p1 + bytes_enc(c.dst_hash).len();
    let p3 = p2 + bytes_enc(c.src_hash).len();
    let e = chunk_enc(c);
    lemma_chunk_parts(c);
    assert(e.len() == q - pos);
    assert(b.subrange(pos, p1) =~= e.subrange(0, 8));
    assert(e.subrange(0, 8) =~= word_enc(c.index as u64));
    assert(b.subrange(p1, p2) =~= e.subrange(8, p2 - pos));
    assert(e.subrange(8, p2 - pos) =~= bytes_enc(c.dst_hash));
    assert(b.subrange(p2, p3) =~= e.subrange(p2 - pos, p3 - pos));
    assert(e.subrange(p2 - pos, p3 - pos) =~= bytes_enc(c.src_hash));
    assert(b.subrange(p3, q) =~= e.subrange(p3 - pos, q - pos));
    assert(e.subrange(p3 - pos, q - pos) =~= word_enc(c.src_size as u64));
}

/// Reads the chunk identifier encoded at `pos`. `None` exactly when no encoded
/// chunk identifier starts there.
pub fn read_chunk(b: &[u8], pos: usize) -> (r: Option<(ChunkInfo, usize)>)
    requires
        pos <= b@.len(),
    ensures
        match r {
            Some((c, p)) => pos <= p <= b@.len() && chunk_wf(c@) && b@.subrange(pos as int, p as int)
                == chunk_enc(c@),
            None => forall|c: ChunkInfoView, q: int|
                chunk_wf(c) && pos <= q <= b@.len() ==> #[trigger] b@.subrange(pos as int, q)
                    != #[trigger] chunk_enc(c),
        },
{
    let (index, p1) = match read_usize(b, pos) {
        Some(x) => x,
        None => {
            proof {
                assert forall|c: ChunkInfoView, q: int|
                    chunk_wf(c) && pos <= q <= b@.len() implies #[trigger] b@.subrange(pos as int, q)
                        != #[trigger] chunk_enc(c) by {
                    if b@.subrange(pos as int, q) == chunk_enc(c) {
                        lemma_chunk_at(b@, pos as int, q, c);
                        assert(b@.subrange(pos as int, pos + 8) == word_enc(c.index as u64));
                    }
                }
            }
            return None;
        },
    };
    let (dst_hash, p2) = match read_bytes(b, p1) {
        Some(x) => x,
        None => {
            proof {
                assert forall|c: ChunkInfoView, q: int|
                    chunk_wf(c) && pos <= q <= b@.len() implies #[trigger] b@.subrange(pos as int, q)
                        != #[trigger] chunk_enc(c) by {
                    if b@.subrange(pos as int, q) == chunk_enc(c) {
                        lemma_chunk_at(b@, pos as int, q, c);
                        assert(b@.subrange(p1 as int, p1 + bytes_enc(c.dst_hash).len()) == bytes_enc(c.dst_hash));
                    }
                }
            }
            return None;
        },
    };
    let (src_hash, p3) = match read_bytes(b, p2) {
        Some(x) => x,
        None => {
            proof {
                assert forall|c: ChunkInfoView, q: int|
                    chunk_wf(c) && pos <= q <= b@.len() implies #[trigger] b@.subrange(pos as int, q)
                        != #[trigger] chunk_enc(c) by {
                    if b@.subrange(pos as int, q) == chunk_enc(c) {
                        lemma_chunk_at(b@, pos as int, q, c);
                        let e2 = p1 + bytes_enc(c.dst_hash).len();
                        lemma_bytes_at_unique(b@, p1 as int, p2 as int, e2, dst_hash@, c.dst_hash);
                        assert(b@.subrange(p2 as int, p2 + bytes_enc(c.src_hash).len()) == bytes_enc(c.src_hash));
                    }
                }
            }
            return None;
        },
    };
    let (src_size, p4) = match read_usize(b, p3) {
        Some(x) => x,
        None => {
            proof {
                assert forall|c: ChunkInfoView, q: int|
                    chunk_wf(c) && pos <= q <= b@.len() implies #[trigger] b@.subrange(pos as int, q)
                        != #[trigger] chunk_enc(c) by {
                    if b@.subrange(pos as int, q) == chunk_enc(c) {
                        lemma_chunk_at(b@, pos as int, q, c);
                        let e2 = p1 + bytes_enc(c.dst_hash).len();
                        lemma_bytes_at_unique(b@, p1 as int, p2 as int, e2, dst_hash@, c.dst_hash);
                        let e3 = p2 + bytes_enc(c.src_hash).len();
                        lemma_bytes_at_unique(b@, p2 as int, p3 as int, e3, src_hash@, c.src_hash);
                        assert(b@.subrange(p3 as int, q) == word_enc(c.src_size as u64));
                    }
                }
            }
            return None;
        },
    };
    let c = ChunkInfo { index, dst_hash, src_hash, src_size };
    assert(b@.subrange(pos as int, p4 as int) =~= b@.subrange(pos as int, p1 as int) + b@.subrange(
        p1 as int,
        p2 as int,
    ) + b@.subrange(p2 as int, p3 as int) + b@.subrange(p3 as int, p4 as int));
    Some((c, p4))
}

/// An encoded chunk identifier read at `p` is the only one that starts there.
proof fn lemma_chunk_at_unique(b: Seq<u8>, p: int, q1: int, q2: int, c1: ChunkInfoView, c2: ChunkInfoView)
    requires
        0 <= p <= q1 <= b.len(),
        p <= q2 <= b.len(),
        chunk_wf(c1),
        chunk_wf(c2),
        b.subrange(p, q1) == chunk_enc(c1),
        b.subrange(p, q2) == chunk_enc(c2),
    ensures
        c1 == c2,
        q1 == q2,
{
    let t = b.subrange(p, b.len() as int);
    assert(t =~= b.subrange(p, q1) + b.subrange(q1, b.len() as int));
    assert(t =~= b.subrange(p, q2) + b.subrange(q2, b.len() as int));
    lemma_chunk_enc_unique(c1, c2, b.subrange(q1, b.len() as int), b.subrange(q2, b.len() as int));
}

/// Where encoded chunk identifiers followed by `tail` stand in `b` from `p`
/// to `q`, the first of them stands right at `p`.
proof fn lemma_chunks_first(b: Seq<u8>, p: int, q: int, s: Seq<ChunkInfoView>, tail: Seq<u8>)
    requires
        0 <= p <= q <= b.len(),
        s.len() > 0,
        b.subrange(p, q) == chunks_enc(s) + tail,
    ensures
        ({
            let q1 = p + chunk_enc(s[0]).len();
            &&& q1 <= q
            &&& b.subrange(p, q1) == chunk_enc(s[0])
            &&& b.subrange(q1, q) == chunks_enc(s.drop_first()) + tail
        }),
{
    let q1 = p + chunk_enc(s[0]).len();
    let e = chunks_enc(s) + tail;
    assert(e =~= chunk_enc(s[0]) + (chunks_enc(s.drop_first()) + tail));
    assert(b.subrange(p, q1) =~= e.subrange(0, q1 - p));
    assert(b.subrange(q1, q) =~= e.subrange(q1 - p, q - p));
}

/// Where an encoded level stands in `b` from `p` to `q`, its tag byte is at `p`.
proof fn lemma_child_at(b: Seq<u8>, p: int, q: int, c: Option<usize>)
    requires
        0 <= p <= q <= b.len(),
        b.subrange(p, q) == child_enc(c),
    ensures
        p < q,
        c is None ==> b[p] == 0 && q == p + 1,
        c matches Some(n) ==> b[p] == 1 && q == p + 9 && b.subrange(p + 1, q) == word_enc(n as u64),
{
    if let Some(n) = c {
        lemma_word_enc(n as u64);
    }
    assert(child_enc(c).len() > 0);
    assert(b[p] == b.subrange(p, q)[0]);
    if let Some(n) = c {
        assert(b.subrange(p + 1, q) =~= b.subrange(p, q).subrange(1, q - p));
        assert(child_enc(c).subrange(1, q - p) =~= word_enc(n as u64));
    }
}

/// Reads the level encoded at `pos`. `None` exactly when no encoded level
/// starts there.
fn read_child(b: &[u8], pos: usize) -> (r: Option<(Option<usize>, usize)>)
    requires
        pos <= b@.len(),
    ensures
        match r {
            Some((c, p)) => pos <= p <= b@.len() && b@.subrange(pos as int, p as int) == child_enc(c),
            None => forall|c: Option<usize>, q: int|
                pos <= q <= b@.len() ==> #[trigger] b@.subrange(pos as int, q) != #[trigger] child_enc(c),
        },
{
    if pos >= b.len() {
        proof {
            assert forall|c: Option<usize>, q: int|
                pos <= q <= b@.len() implies #[trigger] b@.subrange(pos as int, q) != #[trigger] child_enc(c) by {
                if b@.subrange(pos as int, q) == child_enc(c) {
                    lemma_child_at(b@, pos as int, q, c);
                }
            }
        }
        return None;
    }
    let tag = b[pos];
    if tag == 0 {
        assert(b@.subrange(pos as int, pos + 1) =~= child_enc(None));
        Some((None, pos + 1))
    } else if tag == 1 {
        match read_usize(b, pos + 1) {
            Some((n, p)) => {
                assert(b@.subrange(pos as int, p as int) =~= seq![1u8] + b@.subrange(pos + 1, p as int));
                Some((Some(n), p))
            },
            None => {
                proof {
                    assert forall|c: Option<usize>, q: int|
                        pos <= q <= b@.len() implies #[trigger] b@.subrange(pos as int, q) != #[trigger] child_enc(c) by {
                        if b@.subrange(pos as int, q) == child_enc(c) {
                            lemma_child_at(b@, pos as int, q, c);
                            if let Some(n) = c {
                                assert(b@.subrange(pos + 1, q) == word_enc(n as u64));
                            }
                        }
                    }
                }
                None
            },
        }
    } else {
        proof {
            assert forall|c: Option<usize>, q: int|
                pos <= q <= b@.len() implies #[trigger] b@.subrange(pos as int, q) != #[trigger] child_enc(c) by {
                if b@.subrange(pos as int, q) == child_enc(c) {
                    lemma_child_at(b@, pos as int, q, c);
                }
            }
        }
        None
    }
}

impl ChunkInfo {
    /// The order of this chunk identifier against `other`.
    pub fn compare(&self, other: &ChunkInfo) -> (r: Ordering)
        ensures
            r == chunk_cmp(self@, other@),
    {
        match compare_usize(self.index, other.index) {
            Ordering::Equal => {},
            c => return c,
        }
        match compare_bytes(self.dst_hash.as_slice(), other.dst_hash.as_slice()) {
            Ordering::Equal => {},
            c => return c,
        }
        match compare_bytes(self.src_hash.as_slice(), other.src_hash.as_slice()) {
            Ordering::Equal => {},
            c => return c,
        }
        compare_usize(self.src_size, other.src_size)
    }

    /// Appends the encoding of this chunk identifier to `out`.
    pub fn write_to(&self, out: &mut Vec<u8>)
        ensures
            chunk_wf(self@),
            final(out)@ == old(out)@ + chunk_enc(self@),
    {
        write_word(out, self.index as u64);
        write_bytes(out, self.dst_hash.as_slice());
        write_bytes(out, self.src_hash.as_slice());
        write_word(out, self.src_size as u64);
        assert(final(out)@ =~= old(out)@ + chunk_enc(self@));
    }
}

impl DataMap {
    /// The empty data map: no chunks, no level.
    pub fn empty() -> (r: DataMap)
        ensures
            r@ == empty_view(),
    {
        let r = DataMap { chunk_identifiers: Vec::new(), child: None };
        assert(r@.chunks =~= Seq::<ChunkInfoView>::empty());
        r
    }

    /// Whether this is the empty data map.
    pub fn is_empty(&self) -> (r: bool)
        ensures
            r == (self@ == empty_view()),
    {
        let r = self.chunk_identifiers.len() == 0 && self.child.is_none();
        if self.chunk_identifiers.len() == 0 {
            assert(self@.chunks =~= Seq::<ChunkInfoView>::empty());
        } else {
            assert(self@.chunks.len() != 0);
        }
        r
    }

    /// The order of this data map against `other`.
    pub fn compare(&self, other: &DataMap) -> (r: Ordering)
        ensures
            r == data_map_cmp(self@, other@),
    {
        let a = &self.chunk_identifiers;
        let b = &other.chunk_identifiers;
        let ghost va = self@.chunks;
        let ghost vb = other@.chunks;
        assert(va.subrange(0, va.len() as int) =~= va);
        assert(vb.subrange(0, vb.len() as int) =~= vb);
        let mut i: usize = 0;
        while i < a.len() && i < b.len()
            invariant
                i <= a@.len(),
                i <= b@.len(),
                va == chunk_views(a@),
                vb == chunk_views(b@),
                va == self@.chunks,
                vb == other@.chunks,
                lex_chunks(va, vb) == lex_chunks(
                    va.subrange(i as int, va.len() as int),
                    vb.subrange(i as int, vb.len() as int),
                ),
            decreases a@.len() - i,
        {
            proof {
                let sa = va.subrange(i as int, va.len() as int);
                let sb = vb.subrange(i as int, vb.len() as int);
                assert(sa[0] == a@[i as int]@);
                assert(sb[0] == b@[i as int]@);
                assert(sa.drop_first() =~= va.subrange(i + 1, va.len() as int));
                assert(sb.drop_first() =~= vb.subrange(i + 1, vb.len() as int));
            }
            let e = a[i].compare(&b[i]);
            match e {
                Ordering::Equal => {},
                _ => {
                    proof {
                        let sa = va.subrange(i as int, va.len() as int);
                        let sb = vb.subrange(i as int, vb.len() as int);
                        assert(lex_chunks(sa, sb) == then_cmp(
                            chunk_cmp(sa[0], sb[0]),
                            lex_chunks(sa.drop_first(), sb.drop_first()),
                        ));
                    }
                    return e;
                },
            }
            i = i + 1;
        }
        if i < a.len() {
            return Ordering::Greater;
        } else if i < b.len() {
            return Ordering::Less;
        }
        match (self.child, other.child) {
            (None, None) => Ordering::Equal,
            (None, Some(_)) => Ordering::Less,
            (Some(_), None) => Ordering::Greater,
            (Some(x), Some(y)) => compare_usize(x, y),
        }
    }

    /// Appends the encoding of this data map to `out`.
    pub fn write_to(&self, out: &mut Vec<u8>)
        ensures
            data_map_wf(self@),
            final(out)@ == old(out)@ + data_map_enc(self@),
    {
        let n = self.chunk_identifiers.len();
        write_word(out, n as u64);
        let ghost start = out@;
        let ghost all = self.chunk_identifiers@;
        let mut i: usize = 0;
        while i < n
            invariant
                0 <= i <= n,
                n == all.len(),
                all == self.chunk_identifiers@,
                out@ == start + chunks_enc(chunk_views(all.subrange(0, i as int))),
                forall|k: int| 0 <= k < i ==> chunk_wf(#[trigger] all[k]@),
            decreases n - i,
        {
            let c = &self.chunk_identifiers[i];
            c.write_to(out);
            proof {
                let pre = chunk_views(all.subrange(0, i as int));
                lemma_chunks_enc_push(pre, c@);
                assert(chunk_views(all.subrange(0, i + 1)) =~= pre.push(c@));
            }
            i = i + 1;
        }
        assert(all.subrange(0, n as int) =~= all);
        match self.child {
            None => out.push(0u8),
            Some(k) => {
                out.push(1u8);
                write_word(out, k as u64);
            },
        }
        assert(final(out)@ =~= old(out)@ + data_map_enc(self@));
    }
}

/// Reads the data map encoded at `pos`. `None` exactly when no encoded data
/// map starts there.
pub fn read_data_map(b: &[u8], pos: usize) -> (r: Option<(DataMap, usize)>)
    requires
        pos <= b@.len(),
    ensures
        match r {
            Some((d, p)) => pos <= p <= b@.len() && data_map_wf(d@) && b@.subrange(pos as int, p as int)
                == data_map_enc(d@),
            None => forall|d: DataMapView, q: int|
                data_map_wf(d) && pos <= q <= b@.len() ==> #[trigger] b@.subrange(pos as int, q)
                    != #[trigger] data_map_enc(d),
        },
{
    let (n, p0) = match read_word(b, pos) {
        Some(x) => x,
        None => {
            proof {
                assert forall|d: DataMapView, q: int|
                    data_map_wf(d) && pos <= q <= b@.len() implies #[trigger] b@.subrange(pos as int, q)
                        != #[trigger] data_map_enc(d) by {
                    lemma_word_enc(d.chunks.len() as u64);
                    assert(data_map_enc(d).len() >= 8);
                }
            }
            return None;
        },
    };
    let mut chunks: Vec<ChunkInfo> = Vec::new();
    proof {
        assert forall|d: DataMapView, q: int|
            data_map_wf(d) && pos <= q <= b@.len() && #[trigger] b@.subrange(pos as int, q)
                == #[trigger] data_map_enc(d) implies d.chunks.len() == n && d.chunks.subrange(0, 0) == chunk_views(chunks@)
                && p0 <= q && b@.subrange(p0 as int, q) == chunks_enc(d.chunks.subrange(0, n as int))
                + child_enc(d.child) by {
            lemma_word_enc(d.chunks.len() as u64);
            lemma_word_enc(n);
            let e = data_map_enc(d);
            assert(e =~= word_enc(d.chunks.len() as u64) + (chunks_enc(d.chunks) + child_enc(d.child)));
            assert(e.len() >= 8);
            assert(b@.subrange(pos as int, p0 as int) =~= e.subrange(0, 8));
            assert(e.subrange(0, 8) =~= word_enc(d.chunks.len() as u64));
            assert(d.chunks.subrange(0, d.chunks.len() as int) =~= d.chunks);
            assert(d.chunks.subrange(0, 0) =~= chunk_views(chunks@));
            assert(b@.subrange(p0 as int, q) =~= e.subrange(8, e.len() as int));
            assert(e.subrange(8, e.len() as int) =~= chunks_enc(d.chunks) + child_enc(d.child));
        }
        assert(b@.subrange(p0 as int, p0 as int) =~= chunks_enc(chunk_views(chunks@)));
    }
    let mut p: usize = p0;
    let mut i: u64 = 0;
    while i < n
        invariant
            p0 == pos + 8,
            p0 <= p <= b@.len(),
            i <= n,
            chunks@.len() == i,
            forall|k: int| 0 <= k < i ==> chunk_wf(#[trigger] chunks@[k]@),
            b@.subrange(p0 as int, p as int) == chunks_enc(chunk_views(chunks@)),
            b@.subrange(pos as int, p0 as int) == word_enc(n),
            forall|d: DataMapView, q: int|
                data_map_wf(d) && pos <= q <= b@.len() && #[trigger] b@.subrange(pos as int, q)
                    == #[trigger] data_map_enc(d) ==> d.chunks.len() == n && d.chunks.subrange(0, i as int)
                    == chunk_views(chunks@) && p <= q && b@.subrange(p as int, q) == chunks_enc(
                    d.chunks.subrange(i as int, n as int),
                ) + child_enc(d.child),
        decreases n - i,
    {
        match read_chunk(b, p) {
            None => {
                proof {
                    assert forall|d: DataMapView, q: int|
                        data_map_wf(d) && pos <= q <= b@.len() implies #[trigger] b@.subrange(pos as int, q)
                            != #[trigger] data_map_enc(d) by {
                        if b@.subrange(pos as int, q) == data_map_enc(d) {
                            let s = d.chunks.subrange(i as int, n as int);
                            lemma_chunks_first(b@, p as int, q, s, child_enc(d.child));
                            assert(chunk_wf(d.chunks[i as int]));
                            assert(s[0] == d.chunks[i as int]);
                            let q1 = p + chunk_enc(s[0]).len();
                            assert(b@.subrange(p as int, q1) == chunk_enc(s[0]));
                        }
                    }
                }
                return None;
            },
            Some((c, p2)) => {
                proof {
                    assert forall|d: DataMapView, q: int|
                        data_map_wf(d) && pos <= q <= b@.len() && #[trigger] b@.subrange(pos as int, q)
                            == #[trigger] data_map_enc(d) implies d.chunks.subrange(0, i + 1) == chunk_views(
                            chunks@.push(c),
                        ) && p2 <= q && b@.subrange(p2 as int, q) == chunks_enc(
                            d.chunks.subrange(i + 1, n as int),
                        ) + child_enc(d.child) by {
                        let s = d.chunks.subrange(i as int, n as int);
                        lemma_chunks_first(b@, p as int, q, s, child_enc(d.child));
                        assert(chunk_wf(d.chunks[i as int]));
                        assert(s[0] == d.chunks[i as int]);
                        let q1 = p + chunk_enc(s[0]).len();
                        lemma_chunk_at_unique(b@, p as int, p2 as int, q1, c@, s[0]);
                        assert(s.drop_first() =~= d.chunks.subrange(i + 1, n as int));
                        assert(d.chunks.subrange(0, i + 1) =~= d.chunks.subrange(0, i as int).push(s[0]));
                        assert(chunk_views(chunks@.push(c)) =~= chunk_views(chunks@).push(c@));
                    }
                    lemma_chunks_enc_push(chunk_views(chunks@), c@);
                    assert(chunk_views(chunks@.push(c)) =~= chunk_views(chunks@).push(c@));
                    assert(b@.subrange(p0 as int, p2 as int) =~= b@.subrange(p0 as int, p as int) + b@.subrange(
                        p as int,
                        p2 as int,
                    ));
                }
                chunks.push(c);
                p = p2;
                i = i + 1;
            },
        }
    }
    match read_child(b, p) {
        None => {
            proof {
                assert forall|d: DataMapView, q: int|
                    data_map_wf(d) && pos <= q <= b@.len() implies #[trigger] b@.subrange(pos as int, q)
                        != #[trigger] data_map_enc(d) by {
                    if b@.subrange(pos as int, q) == data_map_enc(d) {
                        assert(d.chunks.subrange(n as int, n as int) =~= Seq::<ChunkInfoView>::empty());
                        assert(chunks_enc(d.chunks.subrange(n as int, n as int)) =~= Seq::<u8>::empty());
                        assert(b@.subrange(p as int, q) =~= child_enc(d.child));
                    }
                }
            }
            None
        },
        Some((child, pf)) => {
            let d = DataMap { chunk_identifiers: chunks, child };
            assert(d@.chunks =~= chunk_views(chunks@));
            assert(data_map_wf(d@));
            assert(b@.subrange(pos as int, pf as int) =~= b@.subrange(pos as int, p0 as int) + b@.subrange(
                p0 as int,
                p as int,
            ) + b@.subrange(p as int, pf as int));
            Some((d, pf))
        },
    }
}

} // verus!

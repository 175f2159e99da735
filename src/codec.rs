//! Byte-level framing: little-endian `u64` words and length-prefixed byte strings.
use vstd::bytes::{lemma_auto_spec_u64_to_from_le_bytes, spec_u64_from_le_bytes, spec_u64_to_le_bytes, u64_from_le_bytes, u64_to_le_bytes};
use vstd::prelude::*;

verus! {

/// The eight bytes that encode `x`, least significant first.
pub open spec fn word_enc(x: u64) -> Seq<u8> {
    spec_u64_to_le_bytes(x)
}

/// A byte string framed by its length.
pub open spec fn bytes_enc(b: Seq<u8>) -> Seq<u8> {
    word_enc(b.len() as u64) + b
}

pub proof fn lemma_word_enc(x: u64)
    ensures
        word_enc(x).len() == 8,
        spec_u64_from_le_bytes(word_enc(x)) == x,
{
    lemma_auto_spec_u64_to_from_le_bytes();
}

/// Two framed byte strings that start the same input are the same string.
pub proof fn lemma_bytes_enc_unique(a: Seq<u8>, b: Seq<u8>, ra: Seq<u8>, rb: Seq<u8>)
    requires
        a.len() <= u64::MAX,
        b.len() <= u64::MAX,
        bytes_enc(a) + ra == bytes_enc(b) + rb,
    ensures
        a == b,
        ra == rb,
{
    lemma_word_enc(a.len() as u64);
    lemma_word_enc(b.len() as u64);
    let s = bytes_enc(a) + ra;
    assert(s.subrange(0, 8) == word_enc(a.len() as u64));
    assert(s.subrange(0, 8) == word_enc(b.len() as u64));
    assert(a.len() == b.len());
    assert(s.subrange(8, 8 + a.len() as int) == a);
    assert(s.subrange(8, 8 + b.len() as int) == b);
    assert(s.subrange(8 + a.len() as int, s.len() as int) == ra);
    assert(s.subrange(8 + b.len() as int, s.len() as int) == rb);
}

/// Two words that start the same input are the same word.
pub proof fn lemma_word_enc_unique(x: u64, y: u64, rx: Seq<u8>, ry: Seq<u8>)
    requires
        word_enc(x) + rx == word_enc(y) + ry,
    ensures
        x == y,
        rx == ry,
{
    lemma_word_enc(x);
    lemma_word_enc(y);
    let s = word_enc(x) + rx;
    assert(s.subrange(0, 8) == word_enc(x));
    assert(s.subrange(0, 8) == word_enc(y));
    assert(s.subrange(8, s.len() as int) == rx);
    assert(s.subrange(8, s.len() as int) == ry);
}

/// A framed byte string read at `p` is the only one that starts there.
pub proof fn lemma_bytes_at_unique(b: Seq<u8>, p: int, q1: int, q2: int, v1: Seq<u8>, v2: Seq<u8>)
    requires
        0 <= p <= q1 <= b.len(),
        p <= q2 <= b.len(),
        v1.len() <= u64::MAX,
        v2.len() <= u64::MAX,
        b.subrange(p, q1) == bytes_enc(v1),
        b.subrange(p, q2) == bytes_enc(v2),
    ensures
        v1 == v2,
        q1 == q2,
{
    let t = b.subrange(p, b.len() as int);
    assert(t =~= b.subrange(p, q1) + b.subrange(q1, b.len() as int));
    assert(t =~= b.subrange(p, q2) + b.subrange(q2, b.len() as int));
    lemma_bytes_enc_unique(v1, v2, b.subrange(q1, b.len() as int), b.subrange(q2, b.len() as int));
}

/// Appends the encoding of `x` to `out`.
pub fn write_word(out: &mut Vec<u8>, x: u64)
    ensures
        final(out)@ == old(out)@ + word_enc(x),
{
    let mut w = u64_to_le_bytes(x);
    out.append(&mut w);
}

/// Appends `b` framed by its length to `out`.
pub fn write_bytes(out: &mut Vec<u8>, b: &[u8])
    ensures
        b@.len() <= u64::MAX,
        final(out)@ == old(out)@ + bytes_enc(b@),
{
    write_word(out, b.len() as u64);
    let ghost start = out@;
    let mut i: usize = 0;
    while i < b.len()
        invariant
            0 <= i <= b@.len(),
            out@ == start + b@.subrange(0, i as int),
        decreases b@.len() - i,
    {
        out.push(b[i]);
        i = i + 1;
        assert(out@ == start + b@.subrange(0, i as int));
    }
    assert(b@.subrange(0, b@.len() as int) == b@);
}

/// Reads the word at `pos`: `None` exactly when fewer than eight bytes remain.
pub fn read_word(b: &[u8], pos: usize) -> (r: Option<(u64, usize)>)
    requires
        pos <= b@.len(),
    ensures
        match r {
            Some((x, p)) => p == pos + 8 && p <= b@.len() && b@.subrange(pos as int, p as int)
                == word_enc(x),
            None => b@.len() < pos + 8,
        },
{
    if b.len() - pos < 8 {
        return None;
    }
    let mut w: Vec<u8> = Vec::new();
    let end: usize = pos + 8;
    let mut i: usize = pos;
    while i < end
        invariant
            pos <= i <= end,
            end == pos + 8,
            end <= b@.len(),
            w@ == b@.subrange(pos as int, i as int),
        decreases end - i,
    {
        w.push(b[i]);
        i = i + 1;
        assert(w@ == b@.subrange(pos as int, i as int));
    }
    let x = u64_from_le_bytes(w.as_slice());
    proof {
        lemma_auto_spec_u64_to_from_le_bytes();
    }
    Some((x, end))
}

/// Reads the framed byte string at `pos`. `None` exactly when no framed string
/// starts there.
pub fn read_bytes(b: &[u8], pos: usize) -> (r: Option<(Vec<u8>, usize)>)
    requires
        pos <= b@.len(),
    ensures
        match r {
            Some((v, p)) => pos <= p <= b@.len() && v@.len() <= u64::MAX && b@.subrange(
                pos as int,
                p as int,
            ) == bytes_enc(v@),
            None => forall|v: Seq<u8>, q: int|
                v.len() <= u64::MAX && pos <= q <= b@.len() ==> #[trigger] b@.subrange(pos as int, q)
                    != #[trigger] bytes_enc(v),
        },
{
    match read_word(b, pos) {
        None => {
            proof {
                assert forall|v: Seq<u8>, q: int|
                    v.len() <= u64::MAX && pos <= q <= b@.len() implies #[trigger] b@.subrange(
                        pos as int,
                        q,
                    ) != #[trigger] bytes_enc(v) by {
                    lemma_word_enc(v.len() as u64);
                    assert(bytes_enc(v).len() == 8 + v.len());
                }
            }
            None
        },
        Some((n, p)) => {
            if n > (b.len() - p) as u64 {
                proof {
                    assert forall|v: Seq<u8>, q: int|
                        v.len() <= u64::MAX && pos <= q <= b@.len() implies #[trigger] b@.subrange(
                            pos as int,
                            q,
                        ) != #[trigger] bytes_enc(v) by {
                        if b@.subrange(pos as int, q) == bytes_enc(v) {
                            lemma_word_enc(v.len() as u64);
                            lemma_word_enc(n);
                            assert(b@.subrange(pos as int, pos + 8) =~= b@.subrange(pos as int, q).subrange(0, 8));
                            assert(bytes_enc(v).subrange(0, 8) =~= word_enc(v.len() as u64));
                        }
                    }
                }
                return None;
            }
            let mut v: Vec<u8> = Vec::new();
            let end: usize = p + n as usize;
            let mut i: usize = p;
            while i < end
                invariant
                    p <= i <= end,
                    end <= b@.len(),
                    v@ == b@.subrange(p as int, i as int),
                decreases end - i,
            {
                v.push(b[i]);
                i = i + 1;
                assert(v@ == b@.subrange(p as int, i as int));
            }
            assert(b@.subrange(pos as int, end as int) == b@.subrange(pos as int, p as int) + v@);
            Some((v, end))
        },
    }
}

} // verus!

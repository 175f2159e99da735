//! The metadata of a file: its name and the bytes associated with it.
use crate::codec::{bytes_enc, lemma_bytes_enc_unique, read_bytes, write_bytes};
use crate::order::{compare_bytes, lemma_lex_bytes_equal, lex_bytes, then_cmp};
use core::cmp::Ordering;
use vstd::prelude::*;
use vstd::string::StringSliceAdditionalSpecFns;
use vstd::utf8::{encode_utf8, encode_utf8_decode_utf8, encode_utf8_valid_utf8, valid_utf8};

verus! {

#[verifier::external_type_specification]
#[verifier::external_body]
pub struct ExUtf8Error(core::str::Utf8Error);

/// Relies on `core::str::from_utf8`: it succeeds exactly on well-formed UTF-8,
/// and the string it returns is made of those bytes.
pub assume_specification[ core::str::from_utf8 ](v: &[u8]) -> (r: Result<&str, core::str::Utf8Error>)
    ensures
        r is Ok <==> valid_utf8(v@),
        r matches Ok(s) ==> s.spec_bytes() == v@,
;

/// Name and associated content of a file.
#[derive(Clone, Debug, PartialEq, Eq, PartialOrd, Ord)]
pub struct Metadata {
    name: String,
    content: Vec<u8>,
}

/// The value a `Metadata` holds.
pub struct MetadataView {
    pub name: Seq<char>,
    pub content: Seq<u8>,
}

impl View for Metadata {
    type V = MetadataView;

    closed spec fn view(&self) -> MetadataView {
        MetadataView { name: self.name@, content: self.content@ }
    }
}

/// The UTF-8 bytes of a name.
pub open spec fn name_bytes(name: Seq<char>) -> Seq<u8> {
    encode_utf8(name)
}

/// Every length in the value fits the encoding's length words.
pub open spec fn metadata_wf(m: MetadataView) -> bool {
    name_bytes(m.name).len() <= u64::MAX && m.content.len() <= u64::MAX
}

/// Encoding of metadata: the framed UTF-8 name, then the framed content.
pub open spec fn metadata_enc(m: MetadataView) -> Seq<u8> {
    bytes_enc(name_bytes(m.name)) + bytes_enc(m.content)
}

/// The order of metadata: by name (its UTF-8 bytes), then by content.
pub open spec fn metadata_cmp(a: MetadataView, b: MetadataView) -> Ordering {
    then_cmp(lex_bytes(name_bytes(a.name), name_bytes(b.name)), lex_bytes(a.content, b.content))
}

/// Two metadata values are equal in their order exactly when they are equal.
pub proof fn lemma_metadata_cmp_equal(a: MetadataView, b: MetadataView)
    ensures
        (metadata_cmp(a, b) == Ordering::Equal) == (a == b),
{
    lemma_lex_bytes_equal(name_bytes(a.name), name_bytes(b.name));
    lemma_lex_bytes_equal(a.content, b.content);
    encode_utf8_decode_utf8(a.name);
    encode_utf8_decode_utf8(b.name);
}

/// Two encoded metadata values that start the same input are the same value.
pub proof fn lemma_metadata_enc_unique(a: MetadataView, b: MetadataView, ra: Seq<u8>, rb: Seq<u8>)
    requires
        metadata_wf(a),
        metadata_wf(b),
        metadata_enc(a) + ra == metadata_enc(b) + rb,
    ensures
        a == b,
        ra == rb,
{
    let xa = bytes_enc(a.content) + ra;
    let xb = bytes_enc(b.content) + rb;
    assert(metadata_enc(a) + ra =~= bytes_enc(name_bytes(a.name)) + xa);
    assert(metadata_enc(b) + rb =~= bytes_enc(name_bytes(b.name)) + xb);
    lemma_bytes_enc_unique(name_bytes(a.name), name_bytes(b.name), xa, xb);
    lemma_bytes_enc_unique(a.content, b.content, ra, rb);
    encode_utf8_decode_utf8(a.name);
    encode_utf8_decode_utf8(b.name);
}

/// Where a framed name was read at `pos` and encoded metadata `m` stands at
/// `pos`, the name read is that of `m` and its content follows at `p1`.
proof fn lemma_name_read(b: Seq<u8>, pos: int, p1: int, q: int, nb: Seq<u8>, m: MetadataView)
    requires
        0 <= pos <= p1 <= b.len(),
        pos <= q <= b.len(),
        nb.len() <= u64::MAX,
        metadata_wf(m),
        b.subrange(pos, p1) == bytes_enc(nb),
        b.subrange(pos, q) == metadata_enc(m),
    ensures
        nb == name_bytes(m.name),
        p1 + bytes_enc(m.content).len() == q,
        b.subrange(p1, q) == bytes_enc(m.content),
{
    let s = b.subrange(pos, b.len() as int);
    assert(s =~= bytes_enc(nb) + b.subrange(p1, b.len() as int));
    assert(s =~= b.subrange(pos, q) + b.subrange(q, b.len() as int));
    assert(s =~= bytes_enc(name_bytes(m.name)) + (bytes_enc(m.content) + b.subrange(q, b.len() as int)));
    lemma_bytes_enc_unique(
        nb,
        name_bytes(m.name),
        b.subrange(p1, b.len() as int),
        bytes_enc(m.content) + b.subrange(q, b.len() as int),
    );
    assert(b.subrange(p1, q) =~= b.subrange(p1, b.len() as int).subrange(0, q - p1));
}

impl Metadata {
    /// Metadata with the given name and content.
    pub fn new(name: String, content: Vec<u8>) -> (r: Metadata)
        ensures
            r@ == (MetadataView { name: name@, content: content@ }),
    {
        Metadata { name, content }
    }

    /// The name of the file.
    pub fn get_name(&self) -> (r: &String)
        ensures
            r@ == self@.name,
    {
        &self.name
    }

    /// The content associated with the file.
    pub fn get_content(&self) -> (r: &Vec<u8>)
        ensures
            r@ == self@.content,
    {
        &self.content
    }

    /// Replaces the name, keeping the content.
    pub fn set_name(&mut self, name: String)
        ensures
            final(self)@ == (MetadataView { name: name@, content: old(self)@.content }),
    {
        self.name = name;
    }

    /// Replaces the content, keeping the name.
    pub fn set_content(&mut self, content: Vec<u8>)
        ensures
            final(self)@ == (MetadataView { name: old(self)@.name, content: content@ }),
    {
        self.content = content;
    }

    /// The order of this metadata against `other`.
    pub fn compare(&self, other: &Metadata) -> (r: Ordering)
        ensures
            r == metadata_cmp(self@, other@),
    {
        let c = compare_bytes(self.name.as_str().as_bytes(), other.name.as_str().as_bytes());
        match c {
            Ordering::Equal => compare_bytes(self.content.as_slice(), other.content.as_slice()),
            _ => c,
        }
    }

    /// Appends the encoding of this metadata to `out`.
    pub fn write_to(&self, out: &mut Vec<u8>)
        ensures
            metadata_wf(self@),
            final(out)@ == old(out)@ + metadata_enc(self@),
    {
        let nb = self.name.as_str().as_bytes();
        write_bytes(out, nb);
        write_bytes(out, self.content.as_slice());
        assert(final(out)@ =~= old(out)@ + metadata_enc(self@));
    }
}

/// Reads the metadata encoded at `pos`. `None` exactly when no encoded
/// metadata starts there.
pub fn read_metadata(b: &[u8], pos: usize) -> (r: Option<(Metadata, usize)>)
    requires
        pos <= b@.len(),
    ensures
        match r {
            Some((m, p)) => pos <= p <= b@.len() && metadata_wf(m@) && b@.subrange(pos as int, p as int)
                == metadata_enc(m@),
            None => forall|m: MetadataView, q: int|
                metadata_wf(m) && pos <= q <= b@.len() ==> #[trigger] b@.subrange(pos as int, q)
                    != #[trigger] metadata_enc(m),
        },
{
    let r1 = read_bytes(b, pos);
    let (nb, p1) = match r1 {
        Some(x) => x,
        None => {
            proof {
                assert forall|m: MetadataView, q: int|
                    metadata_wf(m) && pos <= q <= b@.len() implies #[trigger] b@.subrange(pos as int, q)
                        != #[trigger] metadata_enc(m) by {
                    if b@.subrange(pos as int, q) == metadata_enc(m) {
                        let q1 = pos + bytes_enc(name_bytes(m.name)).len();
                        assert(metadata_enc(m).len() == bytes_enc(name_bytes(m.name)).len() + bytes_enc(m.content).len());
                        assert(b@.subrange(pos as int, q1) =~= metadata_enc(m).subrange(0, q1 - pos));
                        assert(metadata_enc(m).subrange(0, q1 - pos) =~= bytes_enc(name_bytes(m.name)));
                    }
                }
            }
            return None;
        },
    };
    let name = match core::str::from_utf8(nb.as_slice()) {
        Ok(s) => s.to_owned(),
        Err(_) => {
            proof {
                assert forall|m: MetadataView, q: int|
                    metadata_wf(m) && pos <= q <= b@.len() implies #[trigger] b@.subrange(pos as int, q)
                        != #[trigger] metadata_enc(m) by {
                    if b@.subrange(pos as int, q) == metadata_enc(m) {
                        lemma_name_read(b@, pos as int, p1 as int, q, nb@, m);
                        encode_utf8_valid_utf8(m.name);
                    }
                }
            }
            return None;
        },
    };
    proof {
        encode_utf8_decode_utf8(name@);
    }
    let r2 = read_bytes(b, p1);
    let (content, p2) = match r2 {
        Some(x) => x,
        None => {
            proof {
                assert forall|m: MetadataView, q: int|
                    metadata_wf(m) && pos <= q <= b@.len() implies #[trigger] b@.subrange(pos as int, q)
                        != #[trigger] metadata_enc(m) by {
                    if b@.subrange(pos as int, q) == metadata_enc(m) {
                        lemma_name_read(b@, pos as int, p1 as int, q, nb@, m);
                    }
                }
            }
            return None;
        },
    };
    let m = Metadata { name, content };
    assert(b@.subrange(pos as int, p2 as int) =~= b@.subrange(pos as int, p1 as int) + b@.subrange(p1 as int, p2 as int));
    Some((m, p2))
}

} // verus!

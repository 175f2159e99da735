//! A file to be put on the network: its metadata and the data map of its
//! content, with a lossless binary encoding.
use crate::data_map::{data_map_cmp, data_map_enc, data_map_wf, lemma_data_map_cmp_equal, lemma_data_map_enc_unique, read_data_map, DataMap, DataMapView};
use crate::metadata::{lemma_metadata_cmp_equal, lemma_metadata_enc_unique, metadata_cmp, metadata_enc, metadata_wf, read_metadata, Metadata, MetadataView};
use crate::order::then_cmp;
use core::cmp::Ordering;
use vstd::prelude::*;
use vstd::string::StringExecFns;

verus! {

/// A file of any kind (text, music, video, ...): its metadata, and the data
/// map that self-encryption produced for its content.
#[derive(Clone, Debug, PartialEq, Eq, PartialOrd, Ord)]
pub struct File {
    metadata: Metadata,
    datamap: DataMap,
}

/// The value a `File` holds.
pub struct FileView {
    pub metadata: MetadataView,
    pub datamap: DataMapView,
}

impl View for File {
    type V = FileView;

    closed spec fn view(&self) -> FileView {
        FileView { metadata: self.metadata@, datamap: self.datamap@ }
    }
}

/// Every length in the value fits the encoding's length words.
pub open spec fn file_wf(f: FileView) -> bool {
    metadata_wf(f.metadata) && data_map_wf(f.datamap)
}

/// Encoding of a file: its metadata, then its data map.
pub open spec fn file_enc(f: FileView) -> Seq<u8> {
    metadata_enc(f.metadata) + data_map_enc(f.datamap)
}

/// The file that `b` encodes, if any.
pub open spec fn file_dec(b: Seq<u8>) -> Option<FileView> {
    if exists|f: FileView| file_wf(f) && #[trigger] file_enc(f) == b {
        Some(choose|f: FileView| file_wf(f) && #[trigger] file_enc(f) == b)
    } else {
        None
    }
}

/// The order of files: by metadata, then by data map.
pub open spec fn file_cmp(a: FileView, b: FileView) -> Ordering {
    then_cmp(metadata_cmp(a.metadata, b.metadata), data_map_cmp(a.datamap, b.datamap))
}

/// Files with the same metadata are ordered as their data maps are; files
/// with different metadata are ordered as their metadata are, whatever their
/// data maps.
pub proof fn lemma_order_by_fields(a: FileView, b: FileView)
    ensures
        a.metadata == b.metadata ==> file_cmp(a, b) == data_map_cmp(a.datamap, b.datamap),
        a.metadata != b.metadata ==> file_cmp(a, b) == metadata_cmp(a.metadata, b.metadata),
{
    lemma_metadata_cmp_equal(a.metadata, b.metadata);
}

/// Two files are equal in their order exactly when they are equal.
pub proof fn lemma_file_cmp_equal(a: FileView, b: FileView)
    ensures
        (file_cmp(a, b) == Ordering::Equal) == (a == b),
{
    lemma_metadata_cmp_equal(a.metadata, b.metadata);
    lemma_data_map_cmp_equal(a.datamap, b.datamap);
}

/// Why bytes could not be decoded into a file.
#[derive(Clone, Copy, Debug, PartialEq, Eq)]
pub enum DecodeError {
    /// The bytes are not the encoding of any file.
    Malformed,
}

/// Distinct files have distinct encodings.
pub proof fn lemma_file_enc_injective(f: FileView, g: FileView)
    requires
        file_wf(f),
        file_wf(g),
        file_enc(f) == file_enc(g),
    ensures
        f == g,
{
    lemma_metadata_enc_unique(f.metadata, g.metadata, data_map_enc(f.datamap), data_map_enc(g.datamap));
    assert(data_map_enc(f.datamap) == data_map_enc(f.datamap) + Seq::<u8>::empty());
    assert(data_map_enc(g.datamap) == data_map_enc(g.datamap) + Seq::<u8>::empty());
    lemma_data_map_enc_unique(f.datamap, g.datamap, Seq::<u8>::empty(), Seq::<u8>::empty());
}

/// Decoding the encoding of a file gives that file back.
pub proof fn lemma_round_trip(f: FileView)
    requires
        file_wf(f),
    ensures
        file_dec(file_enc(f)) == Some(f),
{
    let b = file_enc(f);
    assert(file_wf(f) && file_enc(f) == b);
    let g = choose|g: FileView| file_wf(g) && #[trigger] file_enc(g) == b;
    lemma_file_enc_injective(f, g);
}

impl File {
    /// A file with the given metadata and data map.
    pub fn new(metadata: Metadata, datamap: DataMap) -> (r: File)
        ensures
            r@ == (FileView { metadata: metadata@, datamap: datamap@ }),
    {
        File { metadata, datamap }
    }

    /// The name of the file, as its metadata gives it.
    pub fn get_name(&self) -> (r: &String)
        ensures
            r@ == self@.metadata.name,
    {
        self.get_metadata().get_name()
    }

    /// The metadata of the file.
    pub fn get_metadata(&self) -> (r: &Metadata)
        ensures
            r@ == self@.metadata,
    {
        &self.metadata
    }

    /// The metadata of the file, to be changed in place. What the caller
    /// leaves in it becomes the file's metadata; the data map stays.
    pub fn get_mut_metadata(&mut self) -> (r: &mut Metadata)
        ensures
            r@ == old(self)@.metadata,
            final(self)@ == (FileView { metadata: final(r)@, datamap: old(self)@.datamap }),
    {
        &mut self.metadata
    }

    /// The data map that self-encryption produced for the file's content.
    pub fn get_datamap(&self) -> (r: &DataMap)
        ensures
            r@ == self@.datamap,
    {
        &self.datamap
    }

    /// Replaces the data map, keeping the metadata.
    pub fn set_datamap(&mut self, datamap: DataMap)
        ensures
            final(self)@ == (FileView { metadata: old(self)@.metadata, datamap: datamap@ }),
    {
        self.datamap = datamap;
    }

    /// The order of this file against `other`.
    pub fn compare(&self, other: &File) -> (r: Ordering)
        ensures
            r == file_cmp(self@, other@),
    {
        match self.metadata.compare(&other.metadata) {
            Ordering::Equal => self.datamap.compare(&other.datamap),
            c => c,
        }
    }

    /// The textual form of the file: its metadata's name after a label. The
    /// data map is left out.
    pub fn describe(&self) -> (r: String)
        ensures
            r@ == "metadata: "@ + self@.metadata.name,
    {
        let mut s = "metadata: ".to_owned();
        s.append(self.metadata.get_name().as_str());
        s
    }

    /// The encoding of the file.
    pub fn encode(&self) -> (r: Vec<u8>)
        ensures
            file_wf(self@),
            r@ == file_enc(self@),
    {
        let mut out: Vec<u8> = Vec::new();
        self.metadata.write_to(&mut out);
        self.datamap.write_to(&mut out);
        assert(out@ =~= file_enc(self@));
        out
    }

    /// The file that `b` encodes; an error when `b` encodes none.
    pub fn decode(b: &[u8]) -> (r: Result<File, DecodeError>)
        ensures
            match r {
                Ok(f) => file_dec(b@) == Some(f@) && file_enc(f@) == b@,
                Err(_) => file_dec(b@) is None,
            },
    {
        let (metadata, p1) = match read_metadata(b, 0) {
            Some(x) => x,
            None => {
                proof {
                    assert forall|f: FileView| file_wf(f) implies #[trigger] file_enc(f) != b@ by {
                        if file_enc(f) == b@ {
                            let q = metadata_enc(f.metadata).len() as int;
                            assert(b@.subrange(0, q) =~= metadata_enc(f.metadata));
                        }
                    }
                }
                return Err(DecodeError::Malformed);
            },
        };
        let (datamap, p2) = match read_data_map(b, p1) {
            Some(x) => x,
            None => {
                proof {
                    assert forall|f: FileView| file_wf(f) implies #[trigger] file_enc(f) != b@ by {
                        if file_enc(f) == b@ {
                            lemma_metadata_at(b@, p1 as int, metadata@, f);
                            assert(b@.subrange(p1 as int, b@.len() as int) == data_map_enc(f.datamap));
                        }
                    }
                }
                return Err(DecodeError::Malformed);
            },
        };
        if p2 != b.len() {
            proof {
                assert forall|f: FileView| file_wf(f) implies #[trigger] file_enc(f) != b@ by {
                    if file_enc(f) == b@ {
                        lemma_metadata_at(b@, p1 as int, metadata@, f);
                        let t = b@.subrange(p1 as int, b@.len() as int);
                        assert(t =~= b@.subrange(p1 as int, p2 as int) + b@.subrange(p2 as int, b@.len() as int));
                        assert(t =~= data_map_enc(f.datamap) + Seq::<u8>::empty());
                        lemma_data_map_enc_unique(
                            datamap@,
                            f.datamap,
                            b@.subrange(p2 as int, b@.len() as int),
                            Seq::<u8>::empty(),
                        );
                    }
                }
            }
            return Err(DecodeError::Malformed);
        }
        let f = File { metadata, datamap };
        proof {
            assert(b@ =~= b@.subrange(0, p1 as int) + b@.subrange(p1 as int, p2 as int));
            assert(file_enc(f@) == b@);
            lemma_round_trip(f@);
        }
        Ok(f)
    }
}

/// Where metadata `m` was read from the start of `b` up to `p1` and `b`
/// encodes `f`, `m` is the metadata of `f` and its data map follows at `p1`.
proof fn lemma_metadata_at(b: Seq<u8>, p1: int, m: MetadataView, f: FileView)
    requires
        0 <= p1 <= b.len(),
        metadata_wf(m),
        file_wf(f),
        b.subrange(0, p1) == metadata_enc(m),
        file_enc(f) == b,
    ensures
        m == f.metadata,
        b.subrange(p1, b.len() as int) == data_map_enc(f.datamap),
{
    assert(b =~= b.subrange(0, p1) + b.subrange(p1, b.len() as int));
    lemma_metadata_enc_unique(m, f.metadata, b.subrange(p1, b.len() as int), data_map_enc(f.datamap));
}

} // verus!

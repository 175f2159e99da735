use safe_file::{ChunkInfo, DataMap, DecodeError, File, Metadata};
use std::cmp::Ordering;

fn chunk(index: usize, seed: u8, src_size: usize) -> ChunkInfo {
    ChunkInfo {
        index,
        dst_hash: vec![seed; 32],
        src_hash: vec![seed.wrapping_add(1); 32],
        src_size,
    }
}

fn populated() -> DataMap {
    DataMap {
        chunk_identifiers: vec![chunk(0, 7, 1024), chunk(1, 9, 2048), chunk(2, 3, 17)],
        child: None,
    }
}

fn home() -> Metadata {
    Metadata::new(
        "Home".to_string(),
        "{mime:\"application/json\"}".to_string().into_bytes(),
    )
}

#[test]
fn serialise() {
    let obj_before = File::new(home(), DataMap::empty());
    let bytes = obj_before.encode();
    let obj_after = File::decode(&bytes).unwrap();
    assert_eq!(obj_before, obj_after);
}

#[test]
fn round_trip_with_chunks_and_level() {
    let mut d = populated();
    d.child = Some(3);
    let f = File::new(Metadata::new("vidéo ünïcode ✓".to_string(), vec![0, 255, 1]), d);
    let g = File::decode(&f.encode()).unwrap();
    assert_eq!(f, g);
    assert_eq!(g.get_name(), "vidéo ünïcode ✓");
}

#[test]
fn round_trip_empty_fields() {
    let f = File::new(Metadata::new(String::new(), Vec::new()), DataMap::empty());
    assert_eq!(File::decode(&f.encode()), Ok(f));
}

#[test]
fn encoding_exact_bytes() {
    let f = File::new(Metadata::new("a".to_string(), vec![5]), DataMap::empty());
    let mut expected = vec![1, 0, 0, 0, 0, 0, 0, 0, b'a'];
    expected.extend_from_slice(&[1, 0, 0, 0, 0, 0, 0, 0, 5]);
    expected.extend_from_slice(&[0, 0, 0, 0, 0, 0, 0, 0]);
    expected.push(0);
    assert_eq!(f.encode(), expected);
}

#[test]
fn encoding_of_level() {
    let d = DataMap { chunk_identifiers: Vec::new(), child: Some(2) };
    let f = File::new(Metadata::new(String::new(), Vec::new()), d);
    let bytes = f.encode();
    assert_eq!(bytes.len(), 8 + 8 + 8 + 1 + 8);
    assert_eq!(&bytes[24..], &[1, 2, 0, 0, 0, 0, 0, 0, 0]);
}

#[test]
fn decode_rejects_empty_input() {
    assert_eq!(File::decode(&[]), Err(DecodeError::Malformed));
}

#[test]
fn decode_rejects_truncated_input() {
    let bytes = File::new(home(), populated()).encode();
    for cut in [1, 8, 20, bytes.len() / 2, bytes.len() - 1] {
        assert_eq!(File::decode(&bytes[..cut]), Err(DecodeError::Malformed));
    }
}

#[test]
fn decode_rejects_trailing_bytes() {
    let mut bytes = File::new(home(), DataMap::empty()).encode();
    bytes.push(0);
    assert_eq!(File::decode(&bytes), Err(DecodeError::Malformed));
}

#[test]
fn decode_rejects_invalid_utf8_name() {
    let mut bytes = File::new(Metadata::new("ab".to_string(), Vec::new()), DataMap::empty()).encode();
    bytes[8] = 0xff;
    assert_eq!(File::decode(&bytes), Err(DecodeError::Malformed));
}

#[test]
fn decode_rejects_bad_level_tag() {
    let mut bytes = File::new(home(), DataMap::empty()).encode();
    let last = bytes.len() - 1;
    bytes[last] = 2;
    assert_eq!(File::decode(&bytes), Err(DecodeError::Malformed));
}

#[test]
fn name_is_metadata_name() {
    let f = File::new(home(), populated());
    assert_eq!(f.get_name(), "Home");
    assert_eq!(f.get_name(), f.get_metadata().get_name());
    assert_eq!(f.get_metadata().get_content(), &b"{mime:\"application/json\"}".to_vec());
}

#[test]
fn mutate_metadata_in_place() {
    let mut f = File::new(home(), populated());
    f.get_mut_metadata().set_name("Work".to_string());
    f.get_mut_metadata().set_content(vec![1, 2, 3]);
    assert_eq!(f.get_name(), "Work");
    assert_eq!(f.get_metadata().get_content(), &vec![1, 2, 3]);
    assert_eq!(f.get_datamap(), &populated());
}

#[test]
fn replace_data_map() {
    let mut f = File::new(home(), DataMap::empty());
    assert!(f.get_datamap().is_empty());
    f.set_datamap(populated());
    assert_eq!(f.get_datamap(), &populated());
    assert!(!f.get_datamap().is_empty());
    f.set_datamap(DataMap::empty());
    assert_eq!(f.get_datamap(), &DataMap::empty());
    assert_eq!(f.get_metadata(), &home());
}

#[test]
fn order_with_equal_metadata_follows_data_map() {
    let a = File::new(home(), DataMap::empty());
    let b = File::new(home(), populated());
    assert_eq!(a.compare(&b), DataMap::empty().compare(&populated()));
    assert_eq!(a.compare(&b), Ordering::Less);
    assert_eq!(b.compare(&a), Ordering::Greater);
    assert_eq!(a.compare(&b), a.cmp(&b));
}

#[test]
fn order_with_different_metadata_follows_metadata() {
    let a = File::new(Metadata::new("Alpha".to_string(), Vec::new()), populated());
    let b = File::new(Metadata::new("Beta".to_string(), Vec::new()), DataMap::empty());
    assert_eq!(a.compare(&b), Ordering::Less);
    assert_eq!(a.compare(&b), a.get_metadata().compare(b.get_metadata()));
    assert_eq!(a.compare(&b), a.cmp(&b));
    assert_eq!(b.compare(&a), b.cmp(&a));
}

#[test]
fn order_of_names_by_bytes_then_content() {
    let a = Metadata::new("ab".to_string(), vec![9]);
    let b = Metadata::new("abc".to_string(), vec![0]);
    let c = Metadata::new("ab".to_string(), vec![10]);
    let d = Metadata::new("é".to_string(), Vec::new());
    assert_eq!(a.compare(&b), Ordering::Less);
    assert_eq!(a.compare(&c), Ordering::Less);
    assert_eq!(d.compare(&b), Ordering::Greater);
    for (x, y) in [(&a, &b), (&a, &c), (&d, &b), (&c, &c)] {
        assert_eq!(x.compare(y), x.cmp(y));
    }
}

#[test]
fn order_of_data_maps_matches_derived_order() {
    let maps = vec![
        DataMap::empty(),
        DataMap { chunk_identifiers: Vec::new(), child: Some(0) },
        DataMap { chunk_identifiers: vec![chunk(0, 1, 5)], child: None },
        DataMap { chunk_identifiers: vec![chunk(0, 1, 6)], child: None },
        DataMap { chunk_identifiers: vec![chunk(0, 2, 0)], child: None },
        DataMap { chunk_identifiers: vec![chunk(1, 0, 0)], child: Some(4) },
        populated(),
    ];
    for x in &maps {
        for y in &maps {
            assert_eq!(x.compare(y), x.cmp(y));
        }
    }
}

#[test]
fn equal_files_compare_equal() {
    let a = File::new(home(), populated());
    let b = a.clone();
    assert_eq!(a.compare(&b), Ordering::Equal);
}

#[test]
fn describe_shows_metadata_only() {
    let f = File::new(home(), populated());
    assert_eq!(f.describe(), "metadata: Home");
}

use flexbuffers::{Blob, Builder, BuilderOptions, Reader};
use hidefix::idx::serialized::{
    file_fingerprint, unframe, FileMeta, SerializedError, SerializedIndex, FORMAT_VERSION, MAGIC,
};
use hidefix::idx::{GroupIndex, Index};
use hidefix::names::NameMap;
use std::path::PathBuf;

const COADS: &str = "tests/data/coads_climatology.nc4";

fn index(path: Option<&str>) -> Index<'static> {
    let root = GroupIndex::from_parts(
        path.map(PathBuf::from),
        NameMap::new(),
        NameMap::new(),
        NameMap::new(),
        NameMap::new(),
    );
    Index::from_parts(path.map(PathBuf::from), root)
}

/// A flexbuffer of a string.
fn flexbuffer(text: &str) -> Vec<u8> {
    let mut b = Builder::new(BuilderOptions::default());
    b.build_singleton(text);
    b.take_buffer()
}

/// The flexbuffers form of a serialized index.
fn payload(s: &SerializedIndex) -> Vec<u8> {
    let mut b = Builder::new(BuilderOptions::default());
    {
        let mut m = b.start_map();
        match &s.source_path {
            Some(p) => m.push("source_path", p.as_str()),
            None => m.push("source_path", ()),
        }
        m.push("source_size", s.source_size);
        m.push("source_mtime", s.source_mtime);
        m.push("index", Blob(s.index.as_slice()));
        m.end_map();
    }
    b.take_buffer()
}

#[test]
fn wrapper_roundtrip() {
    let i = index(Some(COADS));
    let (size, mtime) =
        file_fingerprint(Some(FileMeta { len: 3114044, modified: Some(1_700_000_000) }));
    assert!(size > 0);
    assert!(mtime > 0);

    let s = SerializedIndex::from_index(&i, flexbuffer("SST"), size, mtime);
    let b = SerializedIndex::to_bytes(&payload(&s));

    let p = SerializedIndex::from_bytes(&b).unwrap();
    let m = Reader::get_root(p).unwrap().as_map();
    let d = SerializedIndex {
        source_path: Some(m.idx("source_path").as_str().to_string()),
        source_size: m.idx("source_size").as_u64(),
        source_mtime: m.idx("source_mtime").as_i64(),
        index: m.idx("index").as_blob().0.to_vec(),
    };
    assert_eq!(d.source_path.as_deref(), Some(COADS));
    assert_eq!(d.source_size, size);
    assert_eq!(d.source_mtime, mtime);
    assert_eq!(d, s);

    let di = d.index().unwrap();
    assert_eq!(Reader::get_root(di).unwrap().as_str(), "SST");
}

#[test]
fn unknown_version_rejected() {
    let i = index(Some(COADS));
    let s = SerializedIndex::from_index(&i, flexbuffer("SST"), 0, 0);
    let mut b = SerializedIndex::to_bytes(&payload(&s));
    b[4..8].copy_from_slice(&2u32.to_le_bytes());

    let e = SerializedIndex::from_bytes(&b).unwrap_err();
    assert!(e.message().contains("format version 2"), "{}", e.message());
    assert_eq!(e, SerializedError::UnsupportedVersion(2));
    assert_eq!(
        e.message(),
        "unsupported hidefix index format version 2 (expected 1): \
         re-serialize the index with a matching hidefix"
    );
}

#[test]
fn bad_magic_rejected() {
    let e = SerializedIndex::from_bytes(b"not an index at all").unwrap_err();
    assert!(e.message().contains("bad magic"), "{}", e.message());
    assert_eq!(e, SerializedError::BadMagic);
}

#[test]
fn truncated_rejected() {
    for b in [&b""[..], &b"HFX"[..], &b"HFXI\x01\x00\x00"[..]] {
        let e = SerializedIndex::from_bytes(b).unwrap_err();
        assert!(e.message().contains("truncated"), "{}", e.message());
        assert_eq!(e, SerializedError::Truncated);
    }
}

#[test]
fn empty_payload_rejected() {
    // header only, valid magic and version: an invalid payload, not bad magic.
    let mut b = MAGIC.to_vec();
    b.extend_from_slice(&FORMAT_VERSION.to_le_bytes());

    let e = SerializedIndex::from_bytes(&b).unwrap_err();
    assert!(e.message().contains("invalid serialized index payload"), "{}", e.message());
    assert_eq!(
        e.message(),
        "invalid serialized index payload: Error reading flexbuffer: FlexbufferOutOfBounds"
    );
}

#[test]
fn payload_without_root_rejected() {
    let b = SerializedIndex::to_bytes(&[0, 0, 3]);
    assert_eq!(
        SerializedIndex::from_bytes(&b),
        Err(SerializedError::InvalidPayload(
            "Error reading flexbuffer: InvalidRootWidth".to_string()
        ))
    );
}

#[test]
fn roots_of_flexbuffers() {
    let fault = |p: &[u8]| match SerializedIndex::from_bytes(&SerializedIndex::to_bytes(p)) {
        Ok(q) => {
            assert_eq!(q, p);
            None
        }
        Err(SerializedError::InvalidPayload(e)) => Some(e),
        Err(_) => panic!(),
    };
    let bounds = Some("Error reading flexbuffer: FlexbufferOutOfBounds".to_string());
    let width = Some("Error reading flexbuffer: InvalidRootWidth".to_string());
    let packed = Some("Error reading flexbuffer: InvalidPackedType".to_string());
    assert_eq!(fault(&[]), bounds);
    assert_eq!(fault(&[4, 1]), bounds);
    // an integer of one byte, and of two.
    assert_eq!(fault(&[7, 4, 1]), None);
    assert_eq!(fault(&[7, 0, 5, 2]), None);
    for w in [0, 3, 5, 9, 255] {
        assert_eq!(fault(&[7, 4, w]), width);
    }
    // types that are there, inline or with an offset of nothing, and types that are not.
    for t in 0..64u8 {
        let expected = if t <= 26 || t == 36 { None } else { packed.clone() };
        assert_eq!(fault(&[0, t * 4 + 3, 1]), expected, "{t}");
    }
    // a root that starts before the bytes.
    assert_eq!(fault(&[7, 4, 2]), bounds);
    assert_eq!(fault(&[0, 0, 0, 0, 0, 0, 0, 4, 8]), bounds);
    assert_eq!(fault(&[0, 0, 0, 0, 0, 0, 0, 0, 4, 8]), None);
    // a string whose offset is inside, and one whose offset is not.
    assert_eq!(fault(&[0, 1, 0x14, 1]), None);
    assert_eq!(fault(&[0, 2, 0x14, 1]), bounds);
    assert_eq!(fault(&[0, 0, 2, 0, 0x14, 2]), None);
    assert_eq!(fault(&[0, 0, 2, 1, 0x14, 2]), bounds);
    // the same number is a value and no offset.
    assert_eq!(fault(&[0, 2, 0x08, 1]), None);
    assert_eq!(fault(&[0, 2, 26 * 4, 1]), None);
}

#[test]
fn frame_layout() {
    let b = SerializedIndex::to_bytes(&[7, 8, 9]);
    assert_eq!(b, b"HFXI\x01\x00\x00\x00\x07\x08\x09");
    assert_eq!(&MAGIC, b"HFXI");
}

#[test]
fn parsing_and_framing_undo_each_other() {
    let p = flexbuffer("payload");
    let b = SerializedIndex::to_bytes(&p);
    assert_eq!(SerializedIndex::from_bytes(&b), Ok(p.as_slice()));
    assert_eq!(SerializedIndex::to_bytes(SerializedIndex::from_bytes(&b).unwrap()), b);
}

#[test]
fn header_alone_is_checked_without_the_payload() {
    assert_eq!(unframe(b"HFXI\x01\x00\x00\x00"), Ok(&b""[..]));
    assert_eq!(unframe(b"HFXI\x01\x00\x00\x00\x02"), Ok(&b"\x02"[..]));
    assert_eq!(unframe(b"HFXI\x00\x00\x00\x00"), Err(SerializedError::UnsupportedVersion(0)));
    assert_eq!(
        unframe(b"HFXI\x01\x02\x03\x04"),
        Err(SerializedError::UnsupportedVersion(0x04030201))
    );
    assert_eq!(unframe(b"HFXJ\x01\x00\x00\x00"), Err(SerializedError::BadMagic));
}

#[test]
fn index_without_root_rejected() {
    let s = SerializedIndex::from_index(&index(None), vec![1], 1, 2);
    assert_eq!(s.source_path, None);
    let e = s.index().unwrap_err();
    assert_eq!(e.message(), "Error reading flexbuffer: FlexbufferOutOfBounds");
    assert!(matches!(e, SerializedError::InvalidIndex(_)));
}

#[test]
fn unknown_fingerprint_is_zero() {
    assert_eq!(file_fingerprint(None), (0, 0));
    assert_eq!(file_fingerprint(Some(FileMeta { len: 12, modified: None })), (12, 0));
    assert_eq!(file_fingerprint(Some(FileMeta { len: 12, modified: Some(34) })), (12, 34));
}

#[test]
fn the_header_is_checked_before_the_payload() {
    for p in [&b""[..], b"\x00\x00\x03", b"anything"] {
        let mut b = b"HFXI\x09\x00\x00\x00".to_vec();
        b.extend_from_slice(p);
        assert_eq!(
            SerializedIndex::from_bytes(&b),
            Err(SerializedError::UnsupportedVersion(9))
        );
    }
}

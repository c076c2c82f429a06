//! Versioned serialization wrapper for an `Index`, carrying a fingerprint of the source file so
//! that consumers can detect a stale index.
//!
//! The byte layout is a fixed header followed by a self-describing flexbuffers payload:
//!
//! ```text
//! b"HFXI" | format_version: u32 LE | flexbuffers(SerializedIndex)
//! ```
//!
//! The version sits in front of the payload so that it can be checked before the payload
//! encoding is interpreted. What is framed and checked here are the bytes of the payload.
use super::index::Index;
use crate::path::{lossy_path, path_text};
use crate::text::{decimal, to_decimal};
use vstd::prelude::*;
use vstd::slice::slice_subrange;

verus! {

/// Magic bytes identifying a serialized hidefix index.
pub const MAGIC: [u8; 4] = [0x48, 0x46, 0x58, 0x49];

/// Current serialization format version.
pub const FORMAT_VERSION: u32 = 1;

/// A serialized `Index` together with a fingerprint (path, size, mtime) of the source file the
/// index was built from. A size or mtime of `0` means unknown; staleness policy is left to the
/// consumer.
#[derive(Clone, Debug, PartialEq)]
pub struct SerializedIndex {
    /// Path of the source file at indexing time.
    pub source_path: Option<String>,
    /// Size in bytes of the source file (0 if unknown).
    pub source_size: u64,
    /// Modification time of the source file (unix seconds, 0 if unknown).
    pub source_mtime: i64,
    /// The flexbuffers-serialized `Index`.
    pub index: Vec<u8>,
}

/// Why bytes are no serialized index.
#[derive(Clone, Debug, PartialEq)]
pub enum SerializedError {
    /// There are too few bytes for a header.
    Truncated,
    /// The bytes do not start with the magic bytes.
    BadMagic,
    /// The format version is not the current one.
    UnsupportedVersion(u32),
    /// The payload is no flexbuffer, for this reason.
    InvalidPayload(String),
    /// The serialized index is no flexbuffer, for this reason.
    InvalidIndex(String),
}

/// What is known of a file: its size, and its modification time in whole unix seconds, where
/// it has one that is not before the epoch.
#[derive(Clone, Copy, Debug, PartialEq, Eq, Structural)]
pub struct FileMeta {
    pub len: u64,
    pub modified: Option<u64>,
}

/// The number that bytes stand for, the lowest byte first.
pub open spec fn offset_value(b: Seq<u8>) -> int
    decreases b.len(),
{
    if b.len() == 0 {
        0
    } else {
        b[0] + 0x100 * offset_value(b.drop_first())
    }
}

/// Whether `t` is the number of a flexbuffer type.
pub open spec fn is_type(t: int) -> bool {
    0 <= t <= 26 || t == 36
}

/// Whether values of the flexbuffer type `t` are stored by their offset: all but nulls, numbers
/// and booleans are.
pub open spec fn is_reference(t: int) -> bool {
    is_type(t) && !(0 <= t <= 3 || t == 26)
}

/// Why `b` has no flexbuffer root, where it has none. The last byte is the width of the root,
/// the one before it holds its type, and before that stands the root, so many bytes wide: a
/// value, or how far before it the value is. Offsets are taken in the word size of the machine.
pub open spec fn root_fault(b: Seq<u8>) -> Option<Seq<char>> {
    let n = b.len() as int;
    let width = b[n - 1] as int;
    let kind = b[n - 2] as int / 4;
    let at = n - 2 - width;
    if n < 3 {
        Some("Error reading flexbuffer: FlexbufferOutOfBounds"@)
    } else if !(width == 1 || width == 2 || width == 4 || width == 8) {
        Some("Error reading flexbuffer: InvalidRootWidth"@)
    } else if !is_type(kind) {
        Some("Error reading flexbuffer: InvalidPackedType"@)
    } else if at < 0 {
        Some("Error reading flexbuffer: FlexbufferOutOfBounds"@)
    } else if is_reference(kind) && offset_value(b.subrange(at, n - 2)) % (usize::MAX + 1) > at {
        Some("Error reading flexbuffer: FlexbufferOutOfBounds"@)
    } else {
        None
    }
}

/// Looks for the root of a flexbuffer, by `flexbuffers::Reader::get_root`, and says why there is
/// none in the words of `flexbuffers::ReaderError`.
///
/// Not proved: that there is a root exactly where `root_fault` finds nothing wrong, and that the
/// error is the one that it names.
#[verifier::external_body]
fn find_root(buffer: &[u8]) -> (r: Result<(), String>)
    ensures
        match r {
            Ok(_) => root_fault(buffer@) is None,
            Err(e) => root_fault(buffer@) == Some(e@),
        },
{
    match flexbuffers::Reader::get_root(buffer) {
        Ok(_) => Ok(()),
        Err(e) => Err(e.to_string()),
    }
}

/// The number that four bytes stand for, the lowest byte first.
pub open spec fn le_value(b: Seq<u8>) -> int {
    b[0] + 0x100 * b[1] + 0x1_0000 * b[2] + 0x100_0000 * b[3]
}

/// The four bytes of a number, the lowest first.
pub open spec fn le_bytes(v: u32) -> Seq<u8> {
    seq![
        (v as int % 0x100) as u8,
        (v as int / 0x100 % 0x100) as u8,
        (v as int / 0x1_0000 % 0x100) as u8,
        (v as int / 0x100_0000) as u8,
    ]
}

/// A payload behind the header.
pub open spec fn framed(payload: Seq<u8>) -> Seq<u8> {
    MAGIC@ + le_bytes(FORMAT_VERSION) + payload
}

/// What is wrong with the header of `b`, where something is.
pub open spec fn header_fault(b: Seq<u8>) -> Option<SerializedError> {
    if b.len() < 8 {
        Some(SerializedError::Truncated)
    } else if b.subrange(0, 4) != MAGIC@ {
        Some(SerializedError::BadMagic)
    } else if le_value(b.subrange(4, 8)) != FORMAT_VERSION {
        Some(SerializedError::UnsupportedVersion(le_value(b.subrange(4, 8)) as u32))
    } else {
        None
    }
}

/// Whether `r` is what comes of taking the payload out of `b`.
pub open spec fn unframed(b: Seq<u8>, r: Result<Seq<u8>, SerializedError>) -> bool {
    match header_fault(b) {
        Some(e) => r == Err::<Seq<u8>, SerializedError>(e),
        None => match root_fault(b.skip(8)) {
            Some(t) => r matches Err(SerializedError::InvalidPayload(x)) && x@ == t,
            None => r == Ok::<Seq<u8>, SerializedError>(b.skip(8)),
        },
    }
}

/// Parsing undoes framing: of a framed payload that has a flexbuffer root, the payload comes
/// back.
pub proof fn lemma_framed_payload(payload: Seq<u8>)
    requires
        root_fault(payload) is None,
    ensures
        header_fault(framed(payload)) is None,
        unframed(framed(payload), Ok(payload)),
{
    let b = framed(payload);
    assert(b.subrange(0, 4) =~= MAGIC@);
    assert(b.subrange(4, 8) =~= le_bytes(FORMAT_VERSION));
    assert(b.skip(8) =~= payload);
}

/// Framing undoes parsing: bytes that parse are the frame of their payload.
pub proof fn lemma_parsed_frame(b: Seq<u8>, payload: Seq<u8>)
    requires
        unframed(b, Ok(payload)),
    ensures
        b == framed(payload),
{
    let v = b.subrange(4, 8);
    assert(v[0] == 1 && v[1] == 0 && v[2] == 0 && v[3] == 0);
    assert(v =~= le_bytes(FORMAT_VERSION));
    assert(b =~= b.subrange(0, 4) + v + b.skip(8));
}

/// A serialized index is made of the letters `HFXI`, the format version as four bytes, the lowest
/// first, and the payload.
pub proof fn lemma_frame(payload: Seq<u8>)
    ensures
        framed(payload) == seq![0x48u8, 0x46, 0x58, 0x49, 1, 0, 0, 0] + payload,
{
    assert(MAGIC@ =~= seq![0x48u8, 0x46, 0x58, 0x49]);
    assert(framed(payload) =~= seq![0x48u8, 0x46, 0x58, 0x49, 1, 0, 0, 0] + payload);
}

/// The bytes of a number stand for the number.
pub proof fn lemma_le_bytes(v: u32)
    ensures
        le_bytes(v).len() == 4,
        v == le_bytes(v)[0] + 0x100 * le_bytes(v)[1] + 0x1_0000 * le_bytes(v)[2] + 0x100_0000
            * le_bytes(v)[3],
        le_value(le_bytes(v)) == v,
{
}

/// A header is wrong where it is too short, where it does not start with the magic letters, or
/// where it has another version than the first, which is then named.
pub proof fn lemma_header(b: Seq<u8>)
    ensures
        match header_fault(b) {
            Some(SerializedError::Truncated) => b.len() < 8,
            Some(SerializedError::BadMagic) => {
                &&& b.len() >= 8
                &&& !(b[0] == 0x48 && b[1] == 0x46 && b[2] == 0x58 && b[3] == 0x49)
            },
            Some(SerializedError::UnsupportedVersion(v)) => {
                &&& b.len() >= 8
                &&& b[0] == 0x48 && b[1] == 0x46 && b[2] == 0x58 && b[3] == 0x49
                &&& v == b[4] + 0x100 * b[5] + 0x1_0000 * b[6] + 0x100_0000 * b[7]
                &&& v != 1
            },
            Some(_) => false,
            None => {
                &&& b.len() >= 8
                &&& b.take(8) == seq![0x48u8, 0x46, 0x58, 0x49, 1, 0, 0, 0]
            },
        },
{
    if b.len() >= 8 {
        let m = b.subrange(0, 4);
        let v = b.subrange(4, 8);
        assert(v[0] == b[4] && v[1] == b[5] && v[2] == b[6] && v[3] == b[7]);
        if m == MAGIC@ {
            assert(m[0] == MAGIC@[0] && m[1] == MAGIC@[1] && m[2] == MAGIC@[2] && m[3]
                == MAGIC@[3]);
            if le_value(v) == 1 {
                assert(b.take(8) =~= seq![0x48u8, 0x46, 0x58, 0x49, 1, 0, 0, 0]);
            }
        } else if b[0] == 0x48 && b[1] == 0x46 && b[2] == 0x58 && b[3] == 0x49 {
            assert(m =~= MAGIC@);
        }
    }
}

/// What comes of parsing: the payload of bytes that are its frame, where it has a flexbuffer root;
/// else what is wrong with the header, or, where nothing is, with the payload.
pub proof fn lemma_unframed(b: Seq<u8>, r: Result<Seq<u8>, SerializedError>)
    requires
        unframed(b, r),
    ensures
        match r {
            Ok(p) => {
                &&& b == seq![0x48u8, 0x46, 0x58, 0x49, 1, 0, 0, 0] + p
                &&& root_fault(p) is None
            },
            Err(SerializedError::InvalidPayload(x)) => {
                &&& header_fault(b) is None
                &&& root_fault(b.skip(8)) == Some(x@)
            },
            Err(e) => header_fault(b) == Some(e),
        },
{
    lemma_header(b);
    if let Ok(p) = r {
        lemma_parsed_frame(b, p);
        lemma_frame(p);
    }
}

/// The header is checked before the payload is interpreted: what is wrong with it does not
/// depend on what follows it.
pub proof fn lemma_header_first(header: Seq<u8>, p: Seq<u8>, q: Seq<u8>)
    requires
        header.len() == 8,
    ensures
        header_fault(header + p) == header_fault(header + q),
{
    assert((header + p).subrange(0, 4) =~= header.subrange(0, 4));
    assert((header + q).subrange(0, 4) =~= header.subrange(0, 4));
    assert((header + p).subrange(4, 8) =~= header.subrange(4, 8));
    assert((header + q).subrange(4, 8) =~= header.subrange(4, 8));
}

impl SerializedError {
    /// The error in words.
    pub open spec fn text(self) -> Seq<char> {
        match self {
            SerializedError::Truncated => "truncated serialized index"@,
            SerializedError::BadMagic => "not a serialized hidefix index (bad magic)"@,
            SerializedError::UnsupportedVersion(v) => {
                "unsupported hidefix index format version "@ + decimal(v as nat) + " (expected "@
                    + decimal(FORMAT_VERSION as nat)
                    + "): re-serialize the index with a matching hidefix"@
            },
            SerializedError::InvalidPayload(e) => "invalid serialized index payload: "@ + e@,
            SerializedError::InvalidIndex(e) => e@,
        }
    }

    /// The error in words.
    pub fn message(&self) -> (r: String)
        ensures
            r@ == self.text(),
    {
        match self {
            SerializedError::Truncated => "truncated serialized index".to_owned(),
            SerializedError::BadMagic => "not a serialized hidefix index (bad magic)".to_owned(),
            SerializedError::UnsupportedVersion(v) => {
                let mut r = "unsupported hidefix index format version ".to_owned();
                r.append(to_decimal(*v as u64).as_str());
                r.append(" (expected ");
                r.append(to_decimal(FORMAT_VERSION as u64).as_str());
                r.append("): re-serialize the index with a matching hidefix");
                r
            },
            SerializedError::InvalidPayload(e) => {
                let mut r = "invalid serialized index payload: ".to_owned();
                r.append(e.as_str());
                r
            },
            SerializedError::InvalidIndex(e) => e.clone(),
        }
    }
}

/// Checks the header of `b` and hands out the payload behind it.
pub fn unframe(b: &[u8]) -> (r: Result<&[u8], SerializedError>)
    ensures
        match r {
            Ok(p) => header_fault(b@) is None && p@ == b@.skip(8),
            Err(e) => header_fault(b@) == Some(e),
        },
{
    if b.len() < 8 {
        return Err(SerializedError::Truncated);
    }
    for i in 0..4usize
        invariant
            b@.len() >= 8,
            forall|j: int| 0 <= j < i ==> #[trigger] b@[j] == MAGIC@[j],
    {
        if b[i] != MAGIC[i] {
            assert(b@.subrange(0, 4)[i as int] != MAGIC@[i as int]);
            return Err(SerializedError::BadMagic);
        }
    }
    assert(b@.subrange(0, 4) =~= MAGIC@);
    let version = b[4] as u32 + 0x100 * (b[5] as u32) + 0x1_0000 * (b[6] as u32) + 0x100_0000 * (
    b[7] as u32);
    if version != FORMAT_VERSION {
        return Err(SerializedError::UnsupportedVersion(version));
    }
    assert(b@.subrange(8, b@.len() as int) =~= b@.skip(8));
    Ok(slice_subrange(b, 8, b.len()))
}

impl SerializedIndex {
    /// Wraps `index`, the flexbuffers form of `idx`, with the given fingerprint of the source
    /// file (`0` for unknown), see `file_fingerprint`.
    pub fn from_index(idx: &Index<'_>, index: Vec<u8>, source_size: u64, source_mtime: i64) -> (r:
        SerializedIndex)
        ensures
            match r.source_path {
                Some(p) => idx.root_group().file() matches Some(f) && p@ == path_text(f),
                None => idx.root_group().file() is None,
            },
            r.source_size == source_size,
            r.source_mtime == source_mtime,
            r.index == index,
    {
        let source_path = match idx.root().path() {
            Some(p) => Some(lossy_path(p)),
            None => None,
        };
        SerializedIndex { source_path, source_size, source_mtime, index }
    }

    /// The bytes of a serialized index whose flexbuffers form is `payload`: the payload behind
    /// the magic bytes and the format version.
    pub fn to_bytes(payload: &[u8]) -> (r: Vec<u8>)
        ensures
            r@ == framed(payload@),
    {
        let mut b: Vec<u8> = Vec::new();
        for i in 0..4usize
            invariant
                b@ =~= MAGIC@.take(i as int),
        {
            b.push(MAGIC[i]);
        }
        let v = FORMAT_VERSION;
        b.push((v % 0x100) as u8);
        b.push((v / 0x100 % 0x100) as u8);
        b.push((v / 0x1_0000 % 0x100) as u8);
        b.push((v / 0x100_0000) as u8);
        let ghost header = b@;
        assert(header =~= MAGIC@ + le_bytes(FORMAT_VERSION));
        for i in 0..payload.len()
            invariant
                b@ =~= header + payload@.take(i as int),
        {
            b.push(payload[i]);
        }
        assert(b@ =~= framed(payload@));
        b
    }

    /// Takes the payload out of bytes made by `to_bytes`. Fails with a clear message on
    /// truncated or foreign bytes or an unknown format version, and where the payload is no
    /// flexbuffer.
    pub fn from_bytes(b: &[u8]) -> (r: Result<&[u8], SerializedError>)
        ensures
            match r {
                Ok(p) => unframed(b@, Ok(p@)),
                Err(e) => unframed(b@, Err(e)),
            },
    {
        let payload = match unframe(b) {
            Ok(p) => p,
            Err(e) => {
                return Err(e);
            },
        };
        match find_root(payload) {
            Ok(_) => Ok(payload),
            Err(e) => Err(SerializedError::InvalidPayload(e)),
        }
    }

    /// The flexbuffers form of the wrapped `Index`.
    pub fn index(&self) -> (r: Result<&[u8], SerializedError>)
        ensures
            match r {
                Ok(b) => root_fault(self.index@) is None && b@ == self.index@,
                Err(e) => e matches SerializedError::InvalidIndex(x) && root_fault(self.index@)
                    == Some(x@),
            },
    {
        match find_root(self.index.as_slice()) {
            Ok(_) => Ok(self.index.as_slice()),
            Err(e) => Err(SerializedError::InvalidIndex(e)),
        }
    }
}

/// Size and modification time (unix seconds) of a file of which `meta` is known, `(0, 0)` where
/// unavailable.
pub fn file_fingerprint(meta: Option<FileMeta>) -> (r: (u64, i64))
    ensures
        r == (match meta {
            None => (0, 0),
            Some(m) => (
                m.len,
                match m.modified {
                    Some(t) => t as i64,
                    None => 0,
                },
            ),
        }),
{
    match meta {
        None => (0, 0),
        Some(m) => (
            m.len,
            match m.modified {
                Some(t) => #[verifier::truncate]
                (t as i64),
                None => 0,
            },
        ),
    }
}

/// The words for an error say what is wrong, and name the version that was found and the one that
/// was expected.
pub proof fn lemma_serialized_error_text(v: u32, e: String)
    ensures
        SerializedError::Truncated.text() == "truncated serialized index"@,
        SerializedError::BadMagic.text() == "not a serialized hidefix index (bad magic)"@,
        SerializedError::UnsupportedVersion(v).text()
            == "unsupported hidefix index format version "@ + decimal(v as nat) + " (expected "@
            + decimal(1) + "): re-serialize the index with a matching hidefix"@,
        SerializedError::InvalidPayload(e).text() == "invalid serialized index payload: "@ + e@,
        SerializedError::InvalidIndex(e).text() == e@,
{
}

} // verus!

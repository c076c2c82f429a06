//! Building blocks for reading and decoding chunks.
//!
//! These are the primitives the readers in this module are built from. Together with
//! `Dataset::group_chunk_slices` they can be used to drive a custom decode loop when none of
//! the provided readers fit the source.
use super::ReadError;
use crate::filters::gzip::{decompress, inflated};
use crate::filters::shuffle::{
    lemma_unshuffle_shuffle, lemma_unshuffled_byte, shuffled, unshuffle_sized, unshuffled,
};
use vstd::prelude::*;

verus! {

/// Whether `len` bytes can be read at byte address `addr` of a source.
pub open spec fn readable(source: Seq<u8>, addr: u64, len: nat) -> bool {
    len == 0 || addr + len <= source.len()
}

/// The `len` bytes at byte address `addr` of a source.
pub open spec fn stored(source: Seq<u8>, addr: u64, len: nat) -> Seq<u8> {
    Seq::new(len, |i: int| source[addr + i])
}

/// What a chunk holds after decompression: its elements, unshuffled where they are shuffled.
pub open spec fn unshuffled_chunk(chunk: Seq<u8>, dsz: u64, shuffled: bool) -> Seq<u8> {
    if shuffled && dsz > 1 {
        unshuffled(chunk, dsz as int)
    } else {
        chunk
    }
}

/// The elements that a chunk holds, where it can be decoded.
pub open spec fn decoded(
    chunk: Seq<u8>,
    chunk_sz: u64,
    dsz: u64,
    gzipped: bool,
    shuffled: bool,
) -> Option<Seq<u8>> {
    if gzipped {
        match inflated(chunk, chunk_sz as nat) {
            Some(c) => Some(unshuffled_chunk(c, dsz, shuffled)),
            None => None,
        }
    } else {
        Some(unshuffled_chunk(chunk, dsz, shuffled))
    }
}

/// The elements of the chunk of `size` bytes at byte address `addr` of a source, or why they
/// cannot be had.
pub open spec fn read_decoded(
    source: Seq<u8>,
    addr: u64,
    size: u64,
    chunk_sz: u64,
    dsz: u64,
    gzipped: bool,
    shuffled: bool,
) -> Result<Seq<u8>, ReadError> {
    if !readable(source, addr, size as nat) {
        Err(ReadError::UnexpectedEof)
    } else {
        match decoded(stored(source, addr, size as nat), chunk_sz, dsz, gzipped, shuffled) {
            Some(c) => Ok(c),
            None => Err(ReadError::Decompress),
        }
    }
}

/// An unfiltered chunk passes through unchanged.
pub proof fn lemma_unfiltered(chunk: Seq<u8>, chunk_sz: u64, dsz: u64)
    ensures
        decoded(chunk, chunk_sz, dsz, false, false) == Some(chunk),
{
}

/// Reading finds what was stored: of bytes that follow `before` in a source, and whatever comes
/// after them, those very bytes are read at the address where `before` ends.
pub proof fn lemma_stored_between(before: Seq<u8>, bytes: Seq<u8>, after: Seq<u8>)
    requires
        before.len() <= u64::MAX,
    ensures
        readable(before + bytes + after, before.len() as u64, bytes.len()),
        stored(before + bytes + after, before.len() as u64, bytes.len()) == bytes,
{
    assert(stored(before + bytes + after, before.len() as u64, bytes.len()) =~= bytes);
}

/// What is read at an address are the bytes of the source from there on, and it can be read
/// exactly where the source does not end before.
pub proof fn lemma_stored(source: Seq<u8>, addr: u64, len: nat)
    requires
        len > 0,
    ensures
        readable(source, addr, len) <==> addr + len <= source.len(),
        addr + len <= source.len() ==> stored(source, addr, len) == source.subrange(
            addr as int,
            addr + len,
        ),
{
    if addr + len <= source.len() {
        assert(stored(source, addr, len) =~= source.subrange(addr as int, addr + len));
    }
}

/// A chunk that is compressed can be decoded where it can be decompressed, and any other always
/// can. Where it is not shuffled, what it holds is what it was decompressed to; where it is, byte
/// `j` of element `i` is byte `i` of run `j` of that, and what fills no element is kept.
pub proof fn lemma_decoded(
    chunk: Seq<u8>,
    chunk_sz: u64,
    dsz: u64,
    gzipped: bool,
    shuffle: bool,
    plain: Option<Seq<u8>>,
)
    requires
        plain == if gzipped {
            inflated(chunk, chunk_sz as nat)
        } else {
            Some(chunk)
        },
    ensures
        match (decoded(chunk, chunk_sz, dsz, gzipped, shuffle), plain) {
            (Some(v), Some(c)) => {
                &&& v.len() == c.len()
                &&& !shuffle || dsz <= 1 || c.len() < dsz ==> v == c
                &&& forall|n: int, i: int, j: int|
                    shuffle && dsz > 1 && n * dsz <= c.len() < n * dsz + dsz && 0 <= i < n && 0 <= j
                        < dsz ==> #[trigger] v[i * dsz + j] == #[trigger] c[j * n + i]
                &&& forall|n: int|
                    shuffle && dsz > 1 && 0 < n && #[trigger] (n * dsz) <= c.len() < n * dsz + dsz
                        ==> v.skip(n * dsz) == c.skip(n * dsz)
            },
            (None, None) => gzipped,
            _ => false,
        },
{
    if let Some(c) = plain {
        if shuffle && dsz > 1 {
            let v = unshuffled_chunk(c, dsz, shuffle);
            if c.len() < dsz {
                vstd::arithmetic::div_mod::lemma_basic_div(c.len() as int, dsz as int);
                assert(v =~= c);
            }
            assert forall|n: int, i: int, j: int|
                n * dsz <= c.len() < n * dsz + dsz && 0 <= i < n && 0 <= j
                    < dsz implies #[trigger] v[i * dsz + j] == #[trigger] c[j * n + i] by {
                lemma_unshuffled_byte(c, dsz as int, n, i, j);
            }
            assert forall|n: int|
                0 < n && #[trigger] (n * dsz) <= c.len() < n * dsz + dsz implies v.skip(n * dsz)
                == c.skip(n * dsz) by {
                lemma_unshuffled_byte(c, dsz as int, n, 0, 0);
            }
        }
    }
}

/// A chunk is read from where it is stored, whatever comes before and after it: what comes of
/// that is what comes of decoding it.
pub proof fn lemma_read_between(
    before: Seq<u8>,
    chunk: Seq<u8>,
    after: Seq<u8>,
    chunk_sz: u64,
    dsz: u64,
    gzipped: bool,
    shuffle: bool,
)
    requires
        before.len() <= u64::MAX,
        chunk.len() <= u64::MAX,
    ensures
        read_decoded(
            before + chunk + after,
            before.len() as u64,
            chunk.len() as u64,
            chunk_sz,
            dsz,
            gzipped,
            shuffle,
        ) == (match decoded(chunk, chunk_sz, dsz, gzipped, shuffle) {
            Some(v) => Ok::<Seq<u8>, ReadError>(v),
            None => Err(ReadError::Decompress),
        }),
{
    lemma_stored_between(before, chunk, after);
}

/// A chunk that reaches beyond the end of the source cannot be read.
pub proof fn lemma_read_beyond(
    source: Seq<u8>,
    addr: u64,
    size: u64,
    chunk_sz: u64,
    dsz: u64,
    gzipped: bool,
    shuffle: bool,
)
    requires
        size > 0,
        addr + size > source.len(),
    ensures
        read_decoded(source, addr, size, chunk_sz, dsz, gzipped, shuffle) == Err::<
            Seq<u8>,
            ReadError,
        >(ReadError::UnexpectedEof),
{
}

/// Decoding undoes the filters: where `plain` was shuffled, and what came out of that was
/// compressed to `chunk`, each where the filter is set, `plain` comes back.
pub proof fn lemma_filters_undone(
    plain: Seq<u8>,
    chunk: Seq<u8>,
    chunk_sz: u64,
    dsz: u64,
    gzipped: bool,
    shuffle: bool,
)
    requires
        ({
            let filtered = if shuffle && dsz > 1 {
                shuffled(plain, dsz as int)
            } else {
                plain
            };
            if gzipped {
                inflated(chunk, chunk_sz as nat) == Some(filtered)
            } else {
                chunk == filtered
            }
        }),
    ensures
        decoded(chunk, chunk_sz, dsz, gzipped, shuffle) == Some(plain),
{
    if shuffle && dsz > 1 {
        lemma_unshuffle_shuffle(plain, dsz as int);
    }
}

/// Reads the chunk (as stored) at byte address `addr` of `source` into `dst`, which must have
/// the stored (compressed) size of the chunk. Where the source ends before, `dst` is left as
/// it is.
pub fn read_chunk_to(source: &[u8], addr: u64, dst: &mut [u8]) -> (r: Result<(), ReadError>)
    ensures
        final(dst)@.len() == old(dst)@.len(),
        r is Ok <==> readable(source@, addr, old(dst)@.len()),
        r is Ok ==> final(dst)@ == stored(source@, addr, old(dst)@.len()),
        r is Ok <==> old(dst)@.len() == 0 || addr + old(dst)@.len() <= source@.len(),
        r is Ok && old(dst)@.len() > 0 ==> final(dst)@ == source@.subrange(
            addr as int,
            addr + old(dst)@.len(),
        ),
        r matches Err(e) ==> e == ReadError::UnexpectedEof && final(dst)@ == old(dst)@,
{
    let n = dst.len();
    if n > 0 && (n > source.len() || addr > (source.len() - n) as u64) {
        return Err(ReadError::UnexpectedEof);
    }
    let ghost from = old(dst)@;
    let mut i: usize = 0;
    while i < n
        invariant
            n == dst@.len(),
            n == from.len(),
            i <= n,
            n > 0 ==> addr + n <= source.len(),
            forall|j: int| 0 <= j < i ==> #[trigger] dst@[j] == source@[addr + j],
        decreases n - i,
    {
        dst[i] = source[addr as usize + i];
        i = i + 1;
    }
    assert(dst@ =~= stored(source@, addr, from.len()));
    proof {
        if from.len() > 0 {
            lemma_stored(source@, addr, from.len());
        }
    }
    Ok(())
}

/// Unshuffles a decompressed chunk of elements of `dsz` bytes where it is shuffled.
pub fn unshuffle_chunk(chunk: Vec<u8>, dsz: u64, shuffled: bool) -> (r: Vec<u8>)
    requires
        shuffled ==> dsz <= usize::MAX,
    ensures
        r@ == unshuffled_chunk(chunk@, dsz, shuffled),
{
    if shuffled && dsz > 1 {
        unshuffle_sized(chunk.as_slice(), dsz as usize)
    } else {
        chunk
    }
}

/// Decodes a chunk (as stored) into raw values: decompresses (gzip) and unshuffles according
/// to the dataset's filters. `chunk_sz` is the decoded chunk size in bytes (the product of the
/// chunk shape times `dsz`) and `dsz` the size of the datatype in bytes.
pub fn decode_chunk(
    chunk: Vec<u8>,
    chunk_sz: u64,
    dsz: u64,
    gzipped: bool,
    shuffled: bool,
) -> (r: Result<Vec<u8>, ReadError>)
    requires
        gzipped ==> chunk_sz <= isize::MAX,
        shuffled ==> dsz <= usize::MAX,
    ensures
        r is Ok <==> decoded(chunk@, chunk_sz, dsz, gzipped, shuffled) is Some,
        r matches Ok(v) ==> decoded(chunk@, chunk_sz, dsz, gzipped, shuffled) == Some(v@),
        r matches Ok(v) ==> v@.len() == if gzipped {
            chunk_sz as nat
        } else {
            chunk@.len()
        },
        r matches Err(e) ==> e == ReadError::Decompress,
{
    let cache = if gzipped {
        match decompress(chunk.as_slice(), chunk_sz as usize) {
            Some(c) => c,
            None => {
                return Err(ReadError::Decompress);
            },
        }
    } else {
        chunk
    };
    Ok(unshuffle_chunk(cache, dsz, shuffled))
}

/// Reads and decodes the chunk of `size` bytes at byte address `addr` of `source`.
pub fn read_chunk(
    source: &[u8],
    addr: u64,
    size: u64,
    chunk_sz: u64,
    dsz: u64,
    gzipped: bool,
    shuffled: bool,
) -> (r: Result<Vec<u8>, ReadError>)
    requires
        size <= isize::MAX,
        gzipped ==> chunk_sz <= isize::MAX,
        shuffled ==> dsz <= usize::MAX,
    ensures
        match r {
            Ok(v) => read_decoded(source@, addr, size, chunk_sz, dsz, gzipped, shuffled) == Ok::<
                Seq<u8>,
                ReadError,
            >(v@),
            Err(e) => read_decoded(source@, addr, size, chunk_sz, dsz, gzipped, shuffled) == Err::<
                Seq<u8>,
                ReadError,
            >(e),
        },
        r matches Ok(v) ==> v@.len() == if gzipped {
            chunk_sz as nat
        } else {
            size as nat
        },
{
    let mut cache: Vec<u8> = vec![0; size as usize];
    match read_chunk_to(source, addr, cache.as_mut_slice()) {
        Ok(()) => {},
        Err(e) => {
            return Err(e);
        },
    }
    decode_chunk(cache, chunk_sz, dsz, gzipped, shuffled)
}

} // verus!

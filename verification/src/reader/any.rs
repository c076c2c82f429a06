//! Reading datasets of any rank.
use super::par::{read_gives, read_outcome, ParSourceReader};
use super::ReadError;
use crate::extent::Extents;
use crate::idx::any::DatasetD;
use vstd::prelude::*;

verus! {

/// Whether `r` and `new` are what comes of reading `extents` of a dataset from `source` into
/// `old`, see `read_outcome`.
pub open spec fn outcome(
    d: DatasetD<'_>,
    source: Seq<u8>,
    extents: Extents,
    old: Seq<u8>,
    r: Result<usize, ReadError>,
    new: Seq<u8>,
) -> bool {
    match d {
        DatasetD::D0(d) => read_outcome(d, source, extents, old, r, new),
        DatasetD::D1(d) => read_outcome(d, source, extents, old, r, new),
        DatasetD::D2(d) => read_outcome(d, source, extents, old, r, new),
        DatasetD::D3(d) => read_outcome(d, source, extents, old, r, new),
        DatasetD::D4(d) => read_outcome(d, source, extents, old, r, new),
        DatasetD::D5(d) => read_outcome(d, source, extents, old, r, new),
        DatasetD::D6(d) => read_outcome(d, source, extents, old, r, new),
        DatasetD::D7(d) => read_outcome(d, source, extents, old, r, new),
        DatasetD::D8(d) => read_outcome(d, source, extents, old, r, new),
        DatasetD::D9(d) => read_outcome(d, source, extents, old, r, new),
    }
}

/// Whether `r` and `new` give the extents, see `read_gives`.
pub open spec fn gives(
    d: DatasetD<'_>,
    source: Seq<u8>,
    extents: Extents,
    old: Seq<u8>,
    r: Result<usize, ReadError>,
    new: Seq<u8>,
) -> bool {
    match d {
        DatasetD::D0(d) => read_gives(d, source, extents, old, r, new),
        DatasetD::D1(d) => read_gives(d, source, extents, old, r, new),
        DatasetD::D2(d) => read_gives(d, source, extents, old, r, new),
        DatasetD::D3(d) => read_gives(d, source, extents, old, r, new),
        DatasetD::D4(d) => read_gives(d, source, extents, old, r, new),
        DatasetD::D5(d) => read_gives(d, source, extents, old, r, new),
        DatasetD::D6(d) => read_gives(d, source, extents, old, r, new),
        DatasetD::D7(d) => read_gives(d, source, extents, old, r, new),
        DatasetD::D8(d) => read_gives(d, source, extents, old, r, new),
        DatasetD::D9(d) => read_gives(d, source, extents, old, r, new),
    }
}

/// Reading a dataset of any rank is reading the dataset of its rank.
pub proof fn lemma_any_outcome(
    d: DatasetD<'_>,
    source: Seq<u8>,
    extents: Extents,
    old: Seq<u8>,
    r: Result<usize, ReadError>,
    new: Seq<u8>,
)
    ensures
        match d {
            DatasetD::D0(x) => outcome(d, source, extents, old, r, new) == read_outcome(
                x,
                source,
                extents,
                old,
                r,
                new,
            ),
            DatasetD::D1(x) => outcome(d, source, extents, old, r, new) == read_outcome(
                x,
                source,
                extents,
                old,
                r,
                new,
            ),
            DatasetD::D2(x) => outcome(d, source, extents, old, r, new) == read_outcome(
                x,
                source,
                extents,
                old,
                r,
                new,
            ),
            DatasetD::D3(x) => outcome(d, source, extents, old, r, new) == read_outcome(
                x,
                source,
                extents,
                old,
                r,
                new,
            ),
            DatasetD::D4(x) => outcome(d, source, extents, old, r, new) == read_outcome(
                x,
                source,
                extents,
                old,
                r,
                new,
            ),
            DatasetD::D5(x) => outcome(d, source, extents, old, r, new) == read_outcome(
                x,
                source,
                extents,
                old,
                r,
                new,
            ),
            DatasetD::D6(x) => outcome(d, source, extents, old, r, new) == read_outcome(
                x,
                source,
                extents,
                old,
                r,
                new,
            ),
            DatasetD::D7(x) => outcome(d, source, extents, old, r, new) == read_outcome(
                x,
                source,
                extents,
                old,
                r,
                new,
            ),
            DatasetD::D8(x) => outcome(d, source, extents, old, r, new) == read_outcome(
                x,
                source,
                extents,
                old,
                r,
                new,
            ),
            DatasetD::D9(x) => outcome(d, source, extents, old, r, new) == read_outcome(
                x,
                source,
                extents,
                old,
                r,
                new,
            ),
        },
{
}

impl<'a> DatasetD<'a> {
    /// Reads `extents` from the contents of the file into `dst`, slice by slice.
    pub fn read_to(&self, contents: &[u8], extents: &Extents, dst: &mut [u8]) -> (r: Result<
        usize,
        ReadError,
    >)
        requires
            self.valid(),
        ensures
            final(dst)@.len() == old(dst)@.len(),
            outcome(*self, contents@, *extents, old(dst)@, r, final(dst)@),
            gives(*self, contents@, *extents, old(dst)@, r, final(dst)@),
    {
        match self {
            DatasetD::D0(d) => ParSourceReader::with_dataset(d, contents).read_to(extents, dst),
            DatasetD::D1(d) => ParSourceReader::with_dataset(d, contents).read_to(extents, dst),
            DatasetD::D2(d) => ParSourceReader::with_dataset(d, contents).read_to(extents, dst),
            DatasetD::D3(d) => ParSourceReader::with_dataset(d, contents).read_to(extents, dst),
            DatasetD::D4(d) => ParSourceReader::with_dataset(d, contents).read_to(extents, dst),
            DatasetD::D5(d) => ParSourceReader::with_dataset(d, contents).read_to(extents, dst),
            DatasetD::D6(d) => ParSourceReader::with_dataset(d, contents).read_to(extents, dst),
            DatasetD::D7(d) => ParSourceReader::with_dataset(d, contents).read_to(extents, dst),
            DatasetD::D8(d) => ParSourceReader::with_dataset(d, contents).read_to(extents, dst),
            DatasetD::D9(d) => ParSourceReader::with_dataset(d, contents).read_to(extents, dst),
        }
    }

    /// Reads `extents` from the contents of the file into `dst`, run by run.
    pub fn read_to_par(&self, contents: &[u8], extents: &Extents, dst: &mut [u8]) -> (r: Result<
        usize,
        ReadError,
    >)
        requires
            self.valid(),
        ensures
            final(dst)@.len() == old(dst)@.len(),
            outcome(*self, contents@, *extents, old(dst)@, r, final(dst)@),
            gives(*self, contents@, *extents, old(dst)@, r, final(dst)@),
    {
        match self {
            DatasetD::D0(d) => ParSourceReader::with_dataset(d, contents).read_to_par(extents, dst),
            DatasetD::D1(d) => ParSourceReader::with_dataset(d, contents).read_to_par(extents, dst),
            DatasetD::D2(d) => ParSourceReader::with_dataset(d, contents).read_to_par(extents, dst),
            DatasetD::D3(d) => ParSourceReader::with_dataset(d, contents).read_to_par(extents, dst),
            DatasetD::D4(d) => ParSourceReader::with_dataset(d, contents).read_to_par(extents, dst),
            DatasetD::D5(d) => ParSourceReader::with_dataset(d, contents).read_to_par(extents, dst),
            DatasetD::D6(d) => ParSourceReader::with_dataset(d, contents).read_to_par(extents, dst),
            DatasetD::D7(d) => ParSourceReader::with_dataset(d, contents).read_to_par(extents, dst),
            DatasetD::D8(d) => ParSourceReader::with_dataset(d, contents).read_to_par(extents, dst),
            DatasetD::D9(d) => ParSourceReader::with_dataset(d, contents).read_to_par(extents, dst),
        }
    }
}

} // verus!

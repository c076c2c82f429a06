//! Reader of a dataset in a file that is found by its path.
use super::par::{read_gives, read_outcome, ParSourceReader};
use super::ReadError;
use crate::extent::Extents;
use crate::idx::dataset::{Dataset, Order};
use std::path::PathBuf;
use vstd::prelude::*;

verus! {

/// A reader of a dataset in the file at `path`: what it reads from are the contents of that
/// file.
pub struct Direct<'a, const D: usize> {
    ds: &'a Dataset<'a, D>,
    path: PathBuf,
}

impl<'a, const D: usize> Direct<'a, D> {
    /// The dataset to read.
    pub closed spec fn dataset(&self) -> Dataset<'a, D> {
        *self.ds
    }

    /// The path of the file.
    pub closed spec fn file(&self) -> PathBuf {
        self.path
    }

    #[verifier::type_invariant]
    spec fn wf(&self) -> bool {
        self.ds.valid()
    }

    /// Creates a reader for `ds` in the file at `path`.
    pub fn with_dataset(ds: &'a Dataset<'a, D>, path: PathBuf) -> (r: Direct<'a, D>)
        requires
            ds.valid(),
        ensures
            r.dataset() == *ds,
            r.file() == path,
    {
        Direct { ds, path }
    }

    /// The path of the file to read.
    pub fn path(&self) -> (r: &PathBuf)
        ensures
            *r == self.file(),
    {
        &self.path
    }

    /// The reader of the dataset from the contents of the file.
    pub fn source(&self, contents: &'a [u8]) -> (r: ParSourceReader<'a, D>)
        ensures
            r.dataset() == self.dataset(),
            r.source() == contents@,
    {
        proof {
            use_type_invariant(self);
        }
        ParSourceReader::with_dataset(self.ds, contents)
    }

    /// The byte order of the elements.
    pub fn order(&self) -> (r: Order)
        ensures
            r == self.dataset().order,
    {
        self.ds.order
    }

    /// The size in bytes of an element.
    pub fn dsize(&self) -> (r: usize)
        ensures
            r == self.dataset().dsize,
    {
        self.ds.dsize
    }

    /// The shape of the dataset.
    pub fn shape(&self) -> (r: &[u64])
        ensures
            r@ == self.dataset().shape@,
    {
        self.ds.shape.as_slice()
    }

    /// Reads `extents` from the contents of the file into `dst`, slice by slice.
    pub fn read_to(&self, contents: &'a [u8], extents: &Extents, dst: &mut [u8]) -> (r: Result<
        usize,
        ReadError,
    >)
        ensures
            final(dst)@.len() == old(dst)@.len(),
            read_outcome(self.dataset(), contents@, *extents, old(dst)@, r, final(dst)@),
            read_gives(self.dataset(), contents@, *extents, old(dst)@, r, final(dst)@),
    {
        self.source(contents).read_to(extents, dst)
    }

    /// Reads `extents` from the contents of the file into `dst`, run by run.
    pub fn read_to_par(&self, contents: &'a [u8], extents: &Extents, dst: &mut [u8]) -> (r: Result<
        usize,
        ReadError,
    >)
        ensures
            final(dst)@.len() == old(dst)@.len(),
            read_outcome(self.dataset(), contents@, *extents, old(dst)@, r, final(dst)@),
            read_gives(self.dataset(), contents@, *extents, old(dst)@, r, final(dst)@),
    {
        self.source(contents).read_to_par(extents, dst)
    }
}

} // verus!

//! Reading the elements of a dataset.
use crate::extent::ExtentError;
use vstd::prelude::*;

pub mod any;
pub mod chunk;
pub mod direct;
pub mod par;
pub mod plan;

verus! {

/// Why a read failed.
#[derive(Clone, Copy, Debug, PartialEq, Eq, Structural)]
pub enum ReadError {
    /// The extents do not fit the dataset.
    Extents(ExtentError),
    /// The destination is too short for what is to be read.
    InsufficientCapacity,
    /// A chunk reaches beyond the end of the source.
    UnexpectedEof,
    /// A chunk could not be decompressed.
    Decompress,
}

impl ReadError {
    /// The error in words.
    pub open spec fn text(self) -> Seq<char> {
        match self {
            ReadError::Extents(e) => e.text(),
            ReadError::InsufficientCapacity => "destination buffer has insufficient capacity"@,
            ReadError::UnexpectedEof => "failed to fill whole buffer"@,
            ReadError::Decompress => "could not decompress chunk"@,
        }
    }

    /// The error in words.
    pub fn message(self) -> (r: String)
        ensures
            r@ == self.text(),
    {
        match self {
            ReadError::Extents(e) => e.message(),
            ReadError::InsufficientCapacity => {
                "destination buffer has insufficient capacity".to_owned()
            },
            ReadError::UnexpectedEof => "failed to fill whole buffer".to_owned(),
            ReadError::Decompress => "could not decompress chunk".to_owned(),
        }
    }
}

/// The words for an error say what is wrong; those for extents are the ones for the extents.
pub proof fn lemma_read_error_text(e: ExtentError)
    ensures
        ReadError::Extents(e).text() == e.text(),
        ReadError::InsufficientCapacity.text() == "destination buffer has insufficient capacity"@,
        ReadError::UnexpectedEof.text() == "failed to fill whole buffer"@,
        ReadError::Decompress.text() == "could not decompress chunk"@,
{
}

} // verus!

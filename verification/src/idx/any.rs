//! Datasets of any rank.
use super::dataset::{Dataset, Datatype, Order};
use crate::layout::product;
use vstd::prelude::*;

verus! {

/// A dataset of any rank that is supported.
#[derive(Debug)]
pub enum DatasetD<'a> {
    D0(Dataset<'a, 0>),
    D1(Dataset<'a, 1>),
    D2(Dataset<'a, 2>),
    D3(Dataset<'a, 3>),
    D4(Dataset<'a, 4>),
    D5(Dataset<'a, 5>),
    D6(Dataset<'a, 6>),
    D7(Dataset<'a, 7>),
    D8(Dataset<'a, 8>),
    D9(Dataset<'a, 9>),
}

impl<'a> DatasetD<'a> {
    /// The shape of the dataset.
    pub open spec fn dims(&self) -> Seq<u64> {
        match self {
            DatasetD::D0(d) => d.shape@,
            DatasetD::D1(d) => d.shape@,
            DatasetD::D2(d) => d.shape@,
            DatasetD::D3(d) => d.shape@,
            DatasetD::D4(d) => d.shape@,
            DatasetD::D5(d) => d.shape@,
            DatasetD::D6(d) => d.shape@,
            DatasetD::D7(d) => d.shape@,
            DatasetD::D8(d) => d.shape@,
            DatasetD::D9(d) => d.shape@,
        }
    }

    /// The shape of the chunks.
    pub open spec fn chunk_dims(&self) -> Seq<u64> {
        match self {
            DatasetD::D0(d) => d.chunk_shape@,
            DatasetD::D1(d) => d.chunk_shape@,
            DatasetD::D2(d) => d.chunk_shape@,
            DatasetD::D3(d) => d.chunk_shape@,
            DatasetD::D4(d) => d.chunk_shape@,
            DatasetD::D5(d) => d.chunk_shape@,
            DatasetD::D6(d) => d.chunk_shape@,
            DatasetD::D7(d) => d.chunk_shape@,
            DatasetD::D8(d) => d.chunk_shape@,
            DatasetD::D9(d) => d.chunk_shape@,
        }
    }

    /// The type of the elements.
    pub open spec fn datatype(&self) -> Datatype {
        match self {
            DatasetD::D0(d) => d.dtype,
            DatasetD::D1(d) => d.dtype,
            DatasetD::D2(d) => d.dtype,
            DatasetD::D3(d) => d.dtype,
            DatasetD::D4(d) => d.dtype,
            DatasetD::D5(d) => d.dtype,
            DatasetD::D6(d) => d.dtype,
            DatasetD::D7(d) => d.dtype,
            DatasetD::D8(d) => d.dtype,
            DatasetD::D9(d) => d.dtype,
        }
    }

    /// The byte order of the elements.
    pub open spec fn byte_order(&self) -> Order {
        match self {
            DatasetD::D0(d) => d.order,
            DatasetD::D1(d) => d.order,
            DatasetD::D2(d) => d.order,
            DatasetD::D3(d) => d.order,
            DatasetD::D4(d) => d.order,
            DatasetD::D5(d) => d.order,
            DatasetD::D6(d) => d.order,
            DatasetD::D7(d) => d.order,
            DatasetD::D8(d) => d.order,
            DatasetD::D9(d) => d.order,
        }
    }

    /// The size in bytes of an element.
    pub open spec fn element_size(&self) -> usize {
        match self {
            DatasetD::D0(d) => d.dsize,
            DatasetD::D1(d) => d.dsize,
            DatasetD::D2(d) => d.dsize,
            DatasetD::D3(d) => d.dsize,
            DatasetD::D4(d) => d.dsize,
            DatasetD::D5(d) => d.dsize,
            DatasetD::D6(d) => d.dsize,
            DatasetD::D7(d) => d.dsize,
            DatasetD::D8(d) => d.dsize,
            DatasetD::D9(d) => d.dsize,
        }
    }

    /// Whether the dataset can be read.
    pub open spec fn valid(&self) -> bool {
        match self {
            DatasetD::D0(d) => d.valid(),
            DatasetD::D1(d) => d.valid(),
            DatasetD::D2(d) => d.valid(),
            DatasetD::D3(d) => d.valid(),
            DatasetD::D4(d) => d.valid(),
            DatasetD::D5(d) => d.valid(),
            DatasetD::D6(d) => d.valid(),
            DatasetD::D7(d) => d.valid(),
            DatasetD::D8(d) => d.valid(),
            DatasetD::D9(d) => d.valid(),
        }
    }

    /// Whether this is `d` with its chunk table owned.
    pub open spec fn owns(self, d: DatasetD<'_>) -> bool {
        match (self, d) {
            (DatasetD::D0(a), DatasetD::D0(b)) => a.owns(b),
            (DatasetD::D1(a), DatasetD::D1(b)) => a.owns(b),
            (DatasetD::D2(a), DatasetD::D2(b)) => a.owns(b),
            (DatasetD::D3(a), DatasetD::D3(b)) => a.owns(b),
            (DatasetD::D4(a), DatasetD::D4(b)) => a.owns(b),
            (DatasetD::D5(a), DatasetD::D5(b)) => a.owns(b),
            (DatasetD::D6(a), DatasetD::D6(b)) => a.owns(b),
            (DatasetD::D7(a), DatasetD::D7(b)) => a.owns(b),
            (DatasetD::D8(a), DatasetD::D8(b)) => a.owns(b),
            (DatasetD::D9(a), DatasetD::D9(b)) => a.owns(b),
            _ => false,
        }
    }

    /// Takes ownership of a borrowed chunk table.
    pub fn into_owned(self) -> (r: DatasetD<'static>)
        ensures
            r.owns(self),
    {
        match self {
            DatasetD::D0(d) => DatasetD::D0(d.into_owned()),
            DatasetD::D1(d) => DatasetD::D1(d.into_owned()),
            DatasetD::D2(d) => DatasetD::D2(d.into_owned()),
            DatasetD::D3(d) => DatasetD::D3(d.into_owned()),
            DatasetD::D4(d) => DatasetD::D4(d.into_owned()),
            DatasetD::D5(d) => DatasetD::D5(d.into_owned()),
            DatasetD::D6(d) => DatasetD::D6(d.into_owned()),
            DatasetD::D7(d) => DatasetD::D7(d.into_owned()),
            DatasetD::D8(d) => DatasetD::D8(d.into_owned()),
            DatasetD::D9(d) => DatasetD::D9(d.into_owned()),
        }
    }

    /// The shape of the dataset.
    pub fn shape(&self) -> (r: &[u64])
        ensures
            r@ == self.dims(),
    {
        match self {
            DatasetD::D0(d) => d.shape.as_slice(),
            DatasetD::D1(d) => d.shape.as_slice(),
            DatasetD::D2(d) => d.shape.as_slice(),
            DatasetD::D3(d) => d.shape.as_slice(),
            DatasetD::D4(d) => d.shape.as_slice(),
            DatasetD::D5(d) => d.shape.as_slice(),
            DatasetD::D6(d) => d.shape.as_slice(),
            DatasetD::D7(d) => d.shape.as_slice(),
            DatasetD::D8(d) => d.shape.as_slice(),
            DatasetD::D9(d) => d.shape.as_slice(),
        }
    }

    /// The shape of the chunks.
    pub fn chunk_shape(&self) -> (r: &[u64])
        ensures
            r@ == self.chunk_dims(),
    {
        match self {
            DatasetD::D0(d) => d.chunk_shape.as_slice(),
            DatasetD::D1(d) => d.chunk_shape.as_slice(),
            DatasetD::D2(d) => d.chunk_shape.as_slice(),
            DatasetD::D3(d) => d.chunk_shape.as_slice(),
            DatasetD::D4(d) => d.chunk_shape.as_slice(),
            DatasetD::D5(d) => d.chunk_shape.as_slice(),
            DatasetD::D6(d) => d.chunk_shape.as_slice(),
            DatasetD::D7(d) => d.chunk_shape.as_slice(),
            DatasetD::D8(d) => d.chunk_shape.as_slice(),
            DatasetD::D9(d) => d.chunk_shape.as_slice(),
        }
    }

    /// The number of elements.
    pub fn size(&self) -> (r: usize)
        requires
            product(self.dims()) <= usize::MAX,
        ensures
            r == product(self.dims()),
    {
        match self {
            DatasetD::D0(d) => d.size(),
            DatasetD::D1(d) => d.size(),
            DatasetD::D2(d) => d.size(),
            DatasetD::D3(d) => d.size(),
            DatasetD::D4(d) => d.size(),
            DatasetD::D5(d) => d.size(),
            DatasetD::D6(d) => d.size(),
            DatasetD::D7(d) => d.size(),
            DatasetD::D8(d) => d.size(),
            DatasetD::D9(d) => d.size(),
        }
    }

    /// The type of the elements.
    pub fn dtype(&self) -> (r: Datatype)
        ensures
            r == self.datatype(),
    {
        match self {
            DatasetD::D0(d) => d.dtype,
            DatasetD::D1(d) => d.dtype,
            DatasetD::D2(d) => d.dtype,
            DatasetD::D3(d) => d.dtype,
            DatasetD::D4(d) => d.dtype,
            DatasetD::D5(d) => d.dtype,
            DatasetD::D6(d) => d.dtype,
            DatasetD::D7(d) => d.dtype,
            DatasetD::D8(d) => d.dtype,
            DatasetD::D9(d) => d.dtype,
        }
    }

    /// The byte order of the elements.
    pub fn order(&self) -> (r: Order)
        ensures
            r == self.byte_order(),
    {
        match self {
            DatasetD::D0(d) => d.order,
            DatasetD::D1(d) => d.order,
            DatasetD::D2(d) => d.order,
            DatasetD::D3(d) => d.order,
            DatasetD::D4(d) => d.order,
            DatasetD::D5(d) => d.order,
            DatasetD::D6(d) => d.order,
            DatasetD::D7(d) => d.order,
            DatasetD::D8(d) => d.order,
            DatasetD::D9(d) => d.order,
        }
    }

    /// The size in bytes of an element.
    pub fn dsize(&self) -> (r: usize)
        ensures
            r == self.element_size(),
    {
        match self {
            DatasetD::D0(d) => d.dsize,
            DatasetD::D1(d) => d.dsize,
            DatasetD::D2(d) => d.dsize,
            DatasetD::D3(d) => d.dsize,
            DatasetD::D4(d) => d.dsize,
            DatasetD::D5(d) => d.dsize,
            DatasetD::D6(d) => d.dsize,
            DatasetD::D7(d) => d.dsize,
            DatasetD::D8(d) => d.dsize,
            DatasetD::D9(d) => d.dsize,
        }
    }

    /// Whether the dataset can be read.
    pub fn is_valid(&self) -> (r: bool)
        ensures
            r == self.valid(),
    {
        match self {
            DatasetD::D0(d) => d.is_valid(),
            DatasetD::D1(d) => d.is_valid(),
            DatasetD::D2(d) => d.is_valid(),
            DatasetD::D3(d) => d.is_valid(),
            DatasetD::D4(d) => d.is_valid(),
            DatasetD::D5(d) => d.is_valid(),
            DatasetD::D6(d) => d.is_valid(),
            DatasetD::D7(d) => d.is_valid(),
            DatasetD::D8(d) => d.is_valid(),
            DatasetD::D9(d) => d.is_valid(),
        }
    }
}

/// What is known of a dataset is what is known of the dataset of its rank.
pub proof fn lemma_any_rank(d: DatasetD<'_>)
    ensures
        match d {
            DatasetD::D0(x) => {
                &&& d.dims() == x.shape@
                &&& d.chunk_dims() == x.chunk_shape@
                &&& d.datatype() == x.dtype
                &&& d.byte_order() == x.order
                &&& d.element_size() == x.dsize
                &&& d.valid() == x.valid()
                &&& d.dims().len() == 0
            },
            DatasetD::D1(x) => {
                &&& d.dims() == x.shape@
                &&& d.chunk_dims() == x.chunk_shape@
                &&& d.datatype() == x.dtype
                &&& d.byte_order() == x.order
                &&& d.element_size() == x.dsize
                &&& d.valid() == x.valid()
                &&& d.dims().len() == 1
            },
            DatasetD::D2(x) => {
                &&& d.dims() == x.shape@
                &&& d.chunk_dims() == x.chunk_shape@
                &&& d.datatype() == x.dtype
                &&& d.byte_order() == x.order
                &&& d.element_size() == x.dsize
                &&& d.valid() == x.valid()
                &&& d.dims().len() == 2
            },
            DatasetD::D3(x) => {
                &&& d.dims() == x.shape@
                &&& d.chunk_dims() == x.chunk_shape@
                &&& d.datatype() == x.dtype
                &&& d.byte_order() == x.order
                &&& d.element_size() == x.dsize
                &&& d.valid() == x.valid()
                &&& d.dims().len() == 3
            },
            DatasetD::D4(x) => {
                &&& d.dims() == x.shape@
                &&& d.chunk_dims() == x.chunk_shape@
                &&& d.datatype() == x.dtype
                &&& d.byte_order() == x.order
                &&& d.element_size() == x.dsize
                &&& d.valid() == x.valid()
                &&& d.dims().len() == 4
            },
            DatasetD::D5(x) => {
                &&& d.dims() == x.shape@
                &&& d.chunk_dims() == x.chunk_shape@
                &&& d.datatype() == x.dtype
                &&& d.byte_order() == x.order
                &&& d.element_size() == x.dsize
                &&& d.valid() == x.valid()
                &&& d.dims().len() == 5
            },
            DatasetD::D6(x) => {
                &&& d.dims() == x.shape@
                &&& d.chunk_dims() == x.chunk_shape@
                &&& d.datatype() == x.dtype
                &&& d.byte_order() == x.order
                &&& d.element_size() == x.dsize
                &&& d.valid() == x.valid()
                &&& d.dims().len() == 6
            },
            DatasetD::D7(x) => {
                &&& d.dims() == x.shape@
                &&& d.chunk_dims() == x.chunk_shape@
                &&& d.datatype() == x.dtype
                &&& d.byte_order() == x.order
                &&& d.element_size() == x.dsize
                &&& d.valid() == x.valid()
                &&& d.dims().len() == 7
            },
            DatasetD::D8(x) => {
                &&& d.dims() == x.shape@
                &&& d.chunk_dims() == x.chunk_shape@
                &&& d.datatype() == x.dtype
                &&& d.byte_order() == x.order
                &&& d.element_size() == x.dsize
                &&& d.valid() == x.valid()
                &&& d.dims().len() == 8
            },
            DatasetD::D9(x) => {
                &&& d.dims() == x.shape@
                &&& d.chunk_dims() == x.chunk_shape@
                &&& d.datatype() == x.dtype
                &&& d.byte_order() == x.order
                &&& d.element_size() == x.dsize
                &&& d.valid() == x.valid()
                &&& d.dims().len() == 9
            },
        },
{
}

/// A dataset with its chunk table owned is the dataset that it was, of the same rank and with the
/// same chunks.
pub proof fn lemma_owned_any(o: DatasetD<'_>, d: DatasetD<'_>)
    requires
        o.owns(d),
    ensures
        o.dims() == d.dims(),
        o.chunk_dims() == d.chunk_dims(),
        o.datatype() == d.datatype(),
        o.byte_order() == d.byte_order(),
        o.element_size() == d.element_size(),
        match (o, d) {
            (DatasetD::D0(a), DatasetD::D0(b)) => {
                a.chunks is Owned && a.chunks@ == b.chunks@ && a.gzip == b.gzip && a.shuffle
                    == b.shuffle
            },
            (DatasetD::D1(a), DatasetD::D1(b)) => {
                a.chunks is Owned && a.chunks@ == b.chunks@ && a.gzip == b.gzip && a.shuffle
                    == b.shuffle
            },
            (DatasetD::D2(a), DatasetD::D2(b)) => {
                a.chunks is Owned && a.chunks@ == b.chunks@ && a.gzip == b.gzip && a.shuffle
                    == b.shuffle
            },
            (DatasetD::D3(a), DatasetD::D3(b)) => {
                a.chunks is Owned && a.chunks@ == b.chunks@ && a.gzip == b.gzip && a.shuffle
                    == b.shuffle
            },
            (DatasetD::D4(a), DatasetD::D4(b)) => {
                a.chunks is Owned && a.chunks@ == b.chunks@ && a.gzip == b.gzip && a.shuffle
                    == b.shuffle
            },
            (DatasetD::D5(a), DatasetD::D5(b)) => {
                a.chunks is Owned && a.chunks@ == b.chunks@ && a.gzip == b.gzip && a.shuffle
                    == b.shuffle
            },
            (DatasetD::D6(a), DatasetD::D6(b)) => {
                a.chunks is Owned && a.chunks@ == b.chunks@ && a.gzip == b.gzip && a.shuffle
                    == b.shuffle
            },
            (DatasetD::D7(a), DatasetD::D7(b)) => {
                a.chunks is Owned && a.chunks@ == b.chunks@ && a.gzip == b.gzip && a.shuffle
                    == b.shuffle
            },
            (DatasetD::D8(a), DatasetD::D8(b)) => {
                a.chunks is Owned && a.chunks@ == b.chunks@ && a.gzip == b.gzip && a.shuffle
                    == b.shuffle
            },
            (DatasetD::D9(a), DatasetD::D9(b)) => {
                a.chunks is Owned && a.chunks@ == b.chunks@ && a.gzip == b.gzip && a.shuffle
                    == b.shuffle
            },
            _ => false,
        },
{
}

} // verus!

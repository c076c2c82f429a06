//! Datasets and the chunks they are stored in.
use crate::layout::{
    as_ints, checked_count, coords, count, in_box, lemma_coords_of_position,
    lemma_position_of_coords, lemma_product_nonnegative, position, position_of, product,
};
use vstd::arithmetic::div_mod::{
    lemma_fundamental_div_mod, lemma_fundamental_div_mod_converse, lemma_mod_bound,
};
use vstd::arithmetic::mul::{lemma_mul_is_commutative, lemma_mul_nonnegative};
use vstd::prelude::*;

verus! {

/// The byte order of the elements of a dataset.
#[derive(Clone, Copy, Debug, PartialEq, Eq, Structural)]
pub enum Order {
    BE,
    LE,
    Unknown,
}

/// The kind of the elements of a dataset and their size in bytes.
#[derive(Clone, Copy, Debug, PartialEq, Eq, Structural)]
pub enum Datatype {
    UInt(usize),
    Int(usize),
    Float(usize),
    Custom(usize),
}

/// A chunk of a dataset as it is stored in the file: `size` bytes at byte address `addr`, and
/// the coordinates of its first element.
#[derive(Clone, Copy, Debug)]
pub struct Chunk<const D: usize> {
    pub addr: u64,
    pub size: u64,
    pub offset: [u64; D],
}

/// The chunks of a dataset: borrowed from the buffer that the index was read from, or owned.
#[derive(Debug)]
pub enum ChunkTable<'a, const D: usize> {
    Borrowed(&'a [Chunk<D>]),
    Owned(Vec<Chunk<D>>),
}

/// A dataset of rank `D`, stored in chunks of shape `chunk_shape` that are listed in
/// row-major order. Where the chunks are compressed (`gzip` gives the level) or shuffled, each
/// is so on its own.
#[derive(Debug)]
pub struct Dataset<'a, const D: usize> {
    pub dtype: Datatype,
    pub dsize: usize,
    pub order: Order,
    pub shape: [u64; D],
    pub chunk_shape: [u64; D],
    pub chunks: ChunkTable<'a, D>,
    pub gzip: Option<u8>,
    pub shuffle: bool,
}

/// A run of consecutive elements in one chunk: the elements from `start` up to `end` of the
/// chunk are the elements from `current` on of what is read.
#[derive(Clone, Copy, Debug)]
pub struct ChunkSlice<'a, const D: usize> {
    pub chunk: &'a Chunk<D>,
    pub current: u64,
    pub start: u64,
    pub end: u64,
}

impl<const D: usize> ChunkTable<'_, D> {
    /// The chunks in the table.
    pub open spec fn view(&self) -> Seq<Chunk<D>> {
        match self {
            ChunkTable::Borrowed(s) => s@,
            ChunkTable::Owned(v) => v@,
        }
    }

    pub fn as_slice(&self) -> (r: &[Chunk<D>])
        ensures
            r@ == self@,
    {
        match self {
            ChunkTable::Borrowed(s) => s,
            ChunkTable::Owned(v) => v.as_slice(),
        }
    }

    /// Takes ownership of a borrowed table.
    pub fn into_owned(self) -> (r: ChunkTable<'static, D>)
        ensures
            r is Owned,
            r@ == self@,
    {
        match self {
            ChunkTable::Borrowed(s) => {
                let mut v: Vec<Chunk<D>> = Vec::new();
                for i in 0..s.len()
                    invariant
                        v@ =~= s@.take(i as int),
                {
                    v.push(s[i]);
                }
                ChunkTable::Owned(v)
            },
            ChunkTable::Owned(v) => ChunkTable::Owned(v),
        }
    }
}

impl<const D: usize> ChunkSlice<'_, D> {
    /// Whether element `q` of what is read comes from this slice.
    pub open spec fn covers(self, q: int) -> bool {
        self.current <= q < self.current + (self.end - self.start)
    }

    /// Whether element `q` of what is read is element `f` of this slice's chunk.
    pub open spec fn maps(self, q: int, f: int) -> bool {
        self.covers(q) && self.start + (q - self.current) == f
    }
}

/// The number of chunks of length `c` that it takes to hold `s` elements.
pub open spec fn chunks_along(s: u64, c: u64) -> u64 {
    if s % c == 0 {
        s / c
    } else {
        (s / c + 1) as u64
    }
}

impl<const D: usize> Dataset<'_, D> {
    /// The number of chunks along each dimension.
    pub open spec fn grid(&self) -> Seq<u64> {
        Seq::new(D as nat, |i: int| chunks_along(self.shape@[i], self.chunk_shape@[i]))
    }

    /// Which chunk of the grid holds the element at coordinates `x`.
    pub open spec fn chunk_coords(&self, x: Seq<int>) -> Seq<int> {
        Seq::new(D as nat, |i: int| x[i] / (self.chunk_shape@[i] as int))
    }

    /// The place in the chunk table of the chunk that holds the element at coordinates `x`.
    pub open spec fn chunk_number(&self, x: Seq<int>) -> int {
        position(self.chunk_coords(x), self.grid())
    }

    /// The position inside its chunk of the element at coordinates `x`.
    pub open spec fn offset_in_chunk(&self, x: Seq<int>) -> int {
        position(
            Seq::new(D as nat, |i: int| x[i] % (self.chunk_shape@[i] as int)),
            self.chunk_shape@,
        )
    }

    /// The coordinates of the first element of a chunk.
    pub open spec fn origin(chunk: Chunk<D>) -> Seq<int> {
        Seq::new(D as nat, |i: int| chunk.offset@[i] as int)
    }

    /// Whether the dataset can be read: chunks are not empty, sizes fit the machine, and the
    /// table lists every chunk of the grid in row-major order.
    pub open spec fn valid(&self) -> bool {
        &&& self.sizes_fit()
        &&& self.chunks@.len() == product(self.grid())
        &&& forall|k: int| 0 <= k < self.chunks@.len() ==> #[trigger] self.chunk_in_place(k)
    }

    /// The size in bytes of a decoded chunk.
    pub open spec fn chunk_bytes(&self) -> u64 {
        (product(self.chunk_shape@) * self.dsize) as u64
    }

    /// Whether chunks that the table has at the same address have the same size there.
    pub open spec fn one_size_per_address(&self) -> bool {
        forall|k: int, l: int|
            0 <= k < self.chunks@.len() && 0 <= l < self.chunks@.len() && (
            #[trigger] self.chunks@[k]).addr == (#[trigger] self.chunks@[l]).addr
                ==> self.chunks@[k].size == self.chunks@[l].size
    }

    /// Whether no chunk is empty, elements can be counted, and a decoded chunk fits the machine.
    pub open spec fn sizes_fit(&self) -> bool {
        &&& forall|i: int|
            0 <= i < D ==> {
                &&& #[trigger] self.chunk_shape@[i] > 0
                &&& self.shape@[i] + self.chunk_shape@[i] <= u64::MAX
            }
        &&& product(self.shape@) <= u64::MAX
        &&& product(self.chunk_shape@) <= u64::MAX
        &&& product(self.chunk_shape@) * self.dsize <= isize::MAX
    }

    /// Whether entry `k` of the table is chunk number `k` of the grid, and, where chunks are
    /// not compressed, holds all its elements.
    pub open spec fn chunk_in_place(&self, k: int) -> bool {
        let chunk = self.chunks@[k];
        let o = Self::origin(chunk);
        &&& forall|i: int| 0 <= i < D ==> #[trigger] o[i] % (self.chunk_shape@[i] as int) == 0
        &&& in_box(self.chunk_coords(o), self.grid())
        &&& self.chunk_number(o) == k
        &&& chunk.size <= isize::MAX
        &&& self.gzip is None ==> chunk.size >= product(self.chunk_shape@) * self.dsize
    }
}

impl<const D: usize> Dataset<'_, D> {
    /// The number of elements of the dataset.
    pub fn size(&self) -> (r: usize)
        requires
            product(self.shape@) <= usize::MAX,
        ensures
            r == product(self.shape@),
    {
        count(self.shape.as_slice()) as usize
    }

    /// The size in bytes of a decoded chunk.
    pub fn decoded_size(&self) -> (r: u64)
        requires
            self.sizes_fit(),
        ensures
            r == self.chunk_bytes(),
            r == product(self.chunk_shape@) * self.dsize,
            r <= isize::MAX,
    {
        proof {
            lemma_product_nonnegative(self.chunk_shape@);
            lemma_mul_nonnegative(product(self.chunk_shape@), self.dsize as int);
        }
        count(self.chunk_shape.as_slice()) * self.dsize as u64
    }

    /// Whether no chunk is empty and no size overflows.
    fn check_sizes(&self) -> (r: bool)
        ensures
            r == self.sizes_fit(),
    {
        for i in 0..D
            invariant
                forall|j: int|
                    0 <= j < i ==> {
                        &&& #[trigger] self.chunk_shape@[j] > 0
                        &&& self.shape@[j] + self.chunk_shape@[j] <= u64::MAX
                    },
        {
            if self.chunk_shape[i] == 0 || self.shape[i] > u64::MAX - self.chunk_shape[i] {
                assert(self.chunk_shape@[i as int] == self.chunk_shape[i as int]);
                return false;
            }
        }
        checked_count(self.shape.as_slice()).is_some() && fits(
            self.chunk_shape.as_slice(),
            self.dsize,
        )
    }

    /// The number of chunks along each dimension.
    fn chunk_grid(&self) -> (r: Vec<u64>)
        requires
            self.sizes_fit(),
        ensures
            r@ == self.grid(),
    {
        let mut r: Vec<u64> = Vec::new();
        for i in 0..D
            invariant
                self.sizes_fit(),
                r@ =~= self.grid().take(i as int),
        {
            let s = self.shape[i];
            let c = self.chunk_shape[i];
            assert(self.chunk_shape@[i as int] > 0);
            proof {
                vstd::arithmetic::div_mod::lemma_div_is_ordered_by_denominator(
                    s as int,
                    1,
                    c as int,
                );
                vstd::arithmetic::div_mod::lemma_div_basics(s as int);
            }
            r.push(
                if s % c == 0 {
                    s / c
                } else {
                    s / c + 1
                },
            );
        }
        r
    }

    /// Whether entry `k` of the table is in its place in the grid.
    fn is_chunk_in_place(&self, grid: &[u64], k: usize) -> (r: bool)
        requires
            self.sizes_fit(),
            grid@ == self.grid(),
            product(grid@) <= u64::MAX,
            k < self.chunks@.len(),
        ensures
            r == self.chunk_in_place(k as int),
    {
        let chunk = &self.chunks.as_slice()[k];
        let ghost o = Self::origin(*chunk);
        let mut x: Vec<u64> = Vec::new();
        for i in 0..D
            invariant
                self.sizes_fit(),
                grid@ == self.grid(),
                *chunk == self.chunks@[k as int],
                o == Self::origin(*chunk),
                forall|j: int|
                    0 <= j < i ==> #[trigger] o[j] % (self.chunk_shape@[j] as int) == 0,
                forall|j: int|
                    0 <= j < i ==> 0 <= #[trigger] self.chunk_coords(o)[j] < self.grid()[j],
                x@.len() == i,
                forall|j: int| 0 <= j < i ==> #[trigger] x@[j] == self.chunk_coords(o)[j],
        {
            let a = chunk.offset[i];
            let c = self.chunk_shape[i];
            assert(self.chunk_shape@[i as int] > 0);
            assert(o[i as int] == a);
            if a % c != 0 {
                assert(o[i as int] % (self.chunk_shape@[i as int] as int) != 0);
                return false;
            }
            assert(self.chunk_coords(o)[i as int] == a / c);
            if a / c >= grid[i] {
                return false;
            }
            x.push(a / c);
        }
        assert(as_ints(x@) =~= self.chunk_coords(o));
        if position_of(x.as_slice(), grid) != k as u64 {
            return false;
        }
        if chunk.size > isize::MAX as u64 {
            return false;
        }
        self.gzip.is_some() || chunk.size >= self.decoded_size()
    }

    /// Whether the dataset can be read.
    pub fn is_valid(&self) -> (r: bool)
        ensures
            r == self.valid(),
    {
        if !self.check_sizes() {
            return false;
        }
        let grid = self.chunk_grid();
        let n = self.chunks.as_slice().len();
        match checked_count(grid.as_slice()) {
            Some(c) => {
                if c != n as u64 {
                    return false;
                }
            },
            None => {
                return false;
            },
        }
        for k in 0..n
            invariant
                n == self.chunks@.len(),
                self.sizes_fit(),
                grid@ == self.grid(),
                product(grid@) <= u64::MAX,
                forall|j: int| 0 <= j < k ==> #[trigger] self.chunk_in_place(j),
        {
            if !self.is_chunk_in_place(grid.as_slice(), k) {
                return false;
            }
        }
        true
    }
}

impl<'a, const D: usize> Dataset<'a, D> {
    /// Whether this is `d` with its chunk table owned.
    pub open spec fn owns(self, d: Dataset<'_, D>) -> bool {
        &&& self.dtype == d.dtype
        &&& self.dsize == d.dsize
        &&& self.order == d.order
        &&& self.shape == d.shape
        &&& self.chunk_shape == d.chunk_shape
        &&& self.chunks is Owned
        &&& self.chunks@ == d.chunks@
        &&& self.gzip == d.gzip
        &&& self.shuffle == d.shuffle
    }

    /// Takes ownership of a borrowed chunk table.
    pub fn into_owned(self) -> (r: Dataset<'static, D>)
        ensures
            r.owns(self),
            r.chunks is Owned,
            r.chunks@ == self.chunks@,
            (r.dtype, r.dsize, r.order, r.gzip, r.shuffle) == (
                self.dtype,
                self.dsize,
                self.order,
                self.gzip,
                self.shuffle,
            ),
            (r.shape, r.chunk_shape) == (self.shape, self.chunk_shape),
    {
        Dataset {
            dtype: self.dtype,
            dsize: self.dsize,
            order: self.order,
            shape: self.shape,
            chunk_shape: self.chunk_shape,
            chunks: self.chunks.into_owned(),
            gzip: self.gzip,
            shuffle: self.shuffle,
        }
    }
}

/// The grid has as many chunks along a dimension as it takes to hold its elements, and no more.
pub proof fn lemma_grid<const D: usize>(ds: Dataset<'_, D>, i: int)
    requires
        0 <= i < D,
        ds.chunk_shape@[i] > 0,
        ds.shape@[i] + ds.chunk_shape@[i] <= u64::MAX,
    ensures
        ds.grid().len() == D,
        ds.grid()[i] * ds.chunk_shape@[i] >= ds.shape@[i],
        (ds.grid()[i] - 1) * ds.chunk_shape@[i] < ds.shape@[i],
{
    let s = ds.shape@[i] as int;
    let c = ds.chunk_shape@[i] as int;
    lemma_fundamental_div_mod(s, c);
    lemma_mod_bound(s, c);
    let q = s / c;
    let r = s % c;
    assert(q <= s) by (nonlinear_arith)
        requires
            s == c * q + r,
            0 <= r,
            c >= 1,
            s >= 0,
    ;
    assert(q >= 0) by (nonlinear_arith)
        requires
            s == c * q + r,
            0 <= r < c,
            s >= 0,
    ;
    let g = ds.grid()[i] as int;
    assert(g == if r == 0 {
        q
    } else {
        q + 1
    });
    assert(g * c >= s && (g - 1) * c < s) by (nonlinear_arith)
        requires
            s == c * q + r,
            0 <= r < c,
            r == 0 ==> g == q,
            r != 0 ==> g == q + 1,
    ;
}

/// A dataset can be read exactly where no chunk is empty, the sizes fit the machine, and the table
/// lists one chunk for each place of the grid, in row-major order, that starts where the chunks
/// before it along each dimension end, and that is long enough where it is not compressed.
pub proof fn lemma_valid<const D: usize>(ds: Dataset<'_, D>)
    ensures
        ds.valid() <==> {
            &&& forall|i: int|
                0 <= i < D ==> #[trigger] ds.chunk_shape@[i] > 0 && ds.shape@[i]
                    + ds.chunk_shape@[i] <= u64::MAX
            &&& product(ds.shape@) <= u64::MAX
            &&& product(ds.chunk_shape@) <= u64::MAX
            &&& product(ds.chunk_shape@) * ds.dsize <= isize::MAX
            &&& ds.chunks@.len() == product(ds.grid())
            &&& forall|k: int, i: int|
                0 <= k < ds.chunks@.len() && 0 <= i < D ==> #[trigger] ds.chunks@[k].offset@[i]
                    == coords(k, ds.grid())[i] * ds.chunk_shape@[i]
            &&& forall|k: int|
                0 <= k < ds.chunks@.len() ==> (#[trigger] ds.chunks@[k]).size <= isize::MAX
            &&& forall|k: int|
                0 <= k < ds.chunks@.len() && ds.gzip is None ==> (#[trigger] ds.chunks@[k]).size
                    >= product(ds.chunk_shape@) * ds.dsize
        },
{
    if ds.valid() {
        assert forall|k: int, i: int|
            0 <= k < ds.chunks@.len() && 0 <= i < D implies #[trigger] ds.chunks@[k].offset@[i]
            == coords(k, ds.grid())[i] * ds.chunk_shape@[i] by {
            assert(ds.chunk_in_place(k));
            let o = Dataset::<'_, D>::origin(ds.chunks@[k]);
            lemma_coords_of_position(ds.chunk_coords(o), ds.grid());
            assert(o[i] % (ds.chunk_shape@[i] as int) == 0);
            lemma_fundamental_div_mod(o[i], ds.chunk_shape@[i] as int);
            lemma_mul_is_commutative(
                ds.chunk_shape@[i] as int,
                o[i] / (ds.chunk_shape@[i] as int),
            );
            assert(ds.chunk_coords(o)[i] == coords(k, ds.grid())[i]);
        }
        assert forall|k: int| 0 <= k < ds.chunks@.len() implies (#[trigger] ds.chunks@[k]).size
            <= isize::MAX && (ds.gzip is None ==> ds.chunks@[k].size >= product(ds.chunk_shape@)
            * ds.dsize) by {
            assert(ds.chunk_in_place(k));
        }
    }
    if {
        &&& forall|i: int|
            0 <= i < D ==> #[trigger] ds.chunk_shape@[i] > 0 && ds.shape@[i] + ds.chunk_shape@[i]
                <= u64::MAX
        &&& product(ds.shape@) <= u64::MAX
        &&& product(ds.chunk_shape@) <= u64::MAX
        &&& product(ds.chunk_shape@) * ds.dsize <= isize::MAX
        &&& ds.chunks@.len() == product(ds.grid())
        &&& forall|k: int, i: int|
            0 <= k < ds.chunks@.len() && 0 <= i < D ==> #[trigger] ds.chunks@[k].offset@[i]
                == coords(k, ds.grid())[i] * ds.chunk_shape@[i]
        &&& forall|k: int|
            0 <= k < ds.chunks@.len() ==> (#[trigger] ds.chunks@[k]).size <= isize::MAX
        &&& forall|k: int|
            0 <= k < ds.chunks@.len() && ds.gzip is None ==> (#[trigger] ds.chunks@[k]).size
                >= product(ds.chunk_shape@) * ds.dsize
    } {
        assert forall|k: int| 0 <= k < ds.chunks@.len() implies #[trigger] ds.chunk_in_place(k) by {
            lemma_position_of_coords(k, ds.grid());
            let g = coords(k, ds.grid());
            let o = Dataset::<'_, D>::origin(ds.chunks@[k]);
            assert forall|i: int| 0 <= i < D implies #[trigger] o[i] % (ds.chunk_shape@[i] as int)
                == 0 && ds.chunk_coords(o)[i] == g[i] by {
                assert(o[i] == ds.chunks@[k].offset@[i]);
                assert(ds.chunk_shape@[i] > 0);
                lemma_fundamental_div_mod_converse(o[i], ds.chunk_shape@[i] as int, g[i], 0);
            }
            assert(ds.chunk_coords(o) =~= g);
        }
        assert(ds.valid());
    }
}

/// Chunks at one address have one size where any two of the table that share their address share
/// their size.
pub proof fn lemma_one_size<const D: usize>(ds: Dataset<'_, D>)
    ensures
        ds.one_size_per_address() <==> forall|a: Chunk<D>, b: Chunk<D>|
            ds.chunks@.contains(a) && ds.chunks@.contains(b) && a.addr == b.addr ==> a.size
                == b.size,
{
    if forall|a: Chunk<D>, b: Chunk<D>|
        ds.chunks@.contains(a) && ds.chunks@.contains(b) && a.addr == b.addr ==> a.size == b.size {
        assert forall|k: int, l: int|
            0 <= k < ds.chunks@.len() && 0 <= l < ds.chunks@.len() && (
            #[trigger] ds.chunks@[k]).addr == (
            #[trigger] ds.chunks@[l]).addr implies ds.chunks@[k].size == ds.chunks@[l].size by {
            assert(ds.chunks@.contains(ds.chunks@[k]));
            assert(ds.chunks@.contains(ds.chunks@[l]));
        }
    }
}

/// A chunk of a dataset that can be read is decoded to as many bytes as it has elements times
/// their size.
pub proof fn lemma_chunk_bytes<const D: usize>(ds: Dataset<'_, D>)
    requires
        ds.valid(),
    ensures
        ds.chunk_bytes() == product(ds.chunk_shape@) * ds.dsize,
{
    lemma_product_nonnegative(ds.chunk_shape@);
    lemma_mul_nonnegative(product(ds.chunk_shape@), ds.dsize as int);
}

/// Whether the elements of an array of shape `n`, of `dsize` bytes each, fit the machine.
fn fits(n: &[u64], dsize: usize) -> (r: bool)
    ensures
        r == (product(n@) <= u64::MAX && product(n@) * dsize <= isize::MAX),
{
    match checked_count(n) {
        Some(c) => match c.checked_mul(dsize as u64) {
            Some(b) => b <= isize::MAX as u64,
            None => false,
        },
        None => false,
    }
}

} // verus!

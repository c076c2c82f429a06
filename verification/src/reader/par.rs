//! Reader for sources whose chunks can be fetched independently of each other.
//!
//! The chunks are read from the bytes of a file, either slice by slice, keeping the last chunk,
//! or run by run, where each run could be handed to a worker of its own.
use super::chunk::{decoded, lemma_stored, read_chunk, read_chunk_to};
use super::plan::{
    chunk_data, copied_in_order, copy_slice, fetched, fetched_for, lemma_copied_part,
    lemma_copy_next_run, lemma_element_read, lemma_fetched_address, lemma_fetched_itself,
    lemma_first_fault, lemma_in_table, lemma_read_selection, lemma_runs_inside, read_in_turn,
    run_follows, run_head, selected_byte, selection_copied, selection_fault, selection_readable,
    slice_data, up_to, ReadPlan,
};
use super::ReadError;
use crate::extent::Extents;
use crate::idx::dataset::{ChunkSlice, Dataset, Order};
use crate::idx::slices::{lemma_coord_inside, lemma_element_place, lemma_number};
use crate::layout::{lemma_product_nonnegative, position, product};
use vstd::arithmetic::mul::lemma_mul_inequality;
use vstd::prelude::*;

verus! {

/// Whether `r` and `new` are what comes of reading `extents` of a dataset from `source` into
/// `old`: extents that do not fit, and a destination that is too short, are refused and leave
/// the destination as it is; else slices that make up the extents are read in turn.
pub open spec fn read_outcome<const D: usize>(
    ds: Dataset<'_, D>,
    source: Seq<u8>,
    extents: Extents,
    old: Seq<u8>,
    r: Result<usize, ReadError>,
    new: Seq<u8>,
) -> bool {
    let region = extents.region(ds.shape@);
    let bytes = product(region.counts) * ds.dsize;
    match extents.refusal(ds.shape@) {
        Some(e) => r == Err::<usize, ReadError>(ReadError::Extents(e)) && new == old,
        None => if old.len() < bytes {
            r == Err::<usize, ReadError>(ReadError::InsufficientCapacity) && new == old
        } else {
            &&& r matches Ok(n) ==> n == bytes
            &&& exists|s: Seq<ChunkSlice<'_, D>>| #[trigger]
                ds.slices_make_up(region, s) && read_in_turn(
                    ds,
                    source,
                    s,
                    old,
                    match r {
                        Ok(_) => Ok(()),
                        Err(e) => Err(e),
                    },
                    new,
                )
        },
    }
}

/// Whether `r` and `new` give the extents: the read succeeds exactly where the chunks of the
/// extents can be read, and the destination then holds their elements; else the first of these
/// chunks that cannot be read says why.
pub open spec fn read_gives<const D: usize>(
    ds: Dataset<'_, D>,
    source: Seq<u8>,
    extents: Extents,
    old: Seq<u8>,
    r: Result<usize, ReadError>,
    new: Seq<u8>,
) -> bool {
    let region = extents.region(ds.shape@);
    extents.refusal(ds.shape@) is None && product(region.counts) * ds.dsize <= old.len() ==> {
        &&& r is Ok <==> selection_readable(ds, source, region)
        &&& r is Ok ==> selection_copied(ds, source, region, old, new)
        &&& r matches Err(e) ==> selection_fault(ds, source, region, e)
    }
}

/// However the extents are sliced, what comes of a read gives them.
pub proof fn lemma_outcome_gives<const D: usize>(
    ds: Dataset<'_, D>,
    source: Seq<u8>,
    extents: Extents,
    old: Seq<u8>,
    r: Result<usize, ReadError>,
    new: Seq<u8>,
)
    requires
        ds.valid(),
        read_outcome(ds, source, extents, old, r, new),
    ensures
        read_gives(ds, source, extents, old, r, new),
{
    let region = extents.region(ds.shape@);
    if extents.refusal(ds.shape@) is None && product(region.counts) * ds.dsize <= old.len() {
        extents.lemma_inside(ds.shape@);
        let end = match r {
            Ok(_) => Ok(()),
            Err(e) => Err(e),
        };
        let s = choose|s: Seq<ChunkSlice<'_, D>>| #[trigger]
            ds.slices_make_up(region, s) && read_in_turn(ds, source, s, old, end, new);
        lemma_read_selection(ds, source, region, s, old);
        if let Err(e) = r {
            let j = choose|j: int|
                {
                    &&& 0 <= j < s.len()
                    &&& #[trigger] slice_data(ds, source, s, j) == Err::<Seq<u8>, ReadError>(e)
                    &&& forall|i: int|
                        0 <= i < j ==> #[trigger] slice_data(ds, source, s, i) is Ok
                    &&& new == copied_in_order(ds, source, s, old, up_to(j))
                };
            lemma_first_fault(ds, source, region, s, j, e);
        }
    }
}

/// A read fails only for a reason: extents that do not fit, a destination that is too short, a
/// chunk of the dataset that reaches beyond the end of the source, or a chunk that cannot be
/// decompressed, which can be only where chunks are compressed. A read that succeeds reads as
/// many bytes as there are in the selection and leaves what follows them as it was.
pub proof fn lemma_read_fails<const D: usize>(
    ds: Dataset<'_, D>,
    source: Seq<u8>,
    extents: Extents,
    old: Seq<u8>,
    r: Result<usize, ReadError>,
    new: Seq<u8>,
)
    requires
        ds.valid(),
        read_outcome(ds, source, extents, old, r, new),
    ensures
        ({
            let bytes = product(extents.region(ds.shape@).counts) * ds.dsize;
            match r {
                Ok(n) => {
                    &&& n == bytes <= old.len()
                    &&& extents.refusal(ds.shape@) is None
                    &&& new.len() == old.len()
                    &&& new.skip(bytes) == old.skip(bytes)
                },
                Err(ReadError::Extents(e)) => {
                    &&& extents.refusal(ds.shape@) == Some(e)
                    &&& new == old
                },
                Err(ReadError::InsufficientCapacity) => {
                    &&& extents.refusal(ds.shape@) is None
                    &&& old.len() < bytes
                    &&& new == old
                },
                Err(ReadError::UnexpectedEof) => {
                    &&& extents.refusal(ds.shape@) is None
                    &&& bytes <= old.len()
                    &&& exists|k: int|
                        0 <= k < ds.chunks@.len() && (#[trigger] ds.chunks@[k]).addr
                            + ds.chunks@[k].size > source.len()
                },
                Err(ReadError::Decompress) => {
                    &&& extents.refusal(ds.shape@) is None
                    &&& bytes <= old.len()
                    &&& ds.gzip is Some
                },
            }
        }),
{
    let region = extents.region(ds.shape@);
    if extents.refusal(ds.shape@) is None && product(region.counts) * ds.dsize <= old.len() {
        lemma_outcome_gives(ds, source, extents, old, r, new);
        extents.lemma_inside(ds.shape@);
        lemma_product_nonnegative(region.counts);
        let bytes = product(region.counts) * ds.dsize;
        assert(bytes >= 0) by (nonlinear_arith)
            requires
                bytes == product(region.counts) * ds.dsize,
                product(region.counts) >= 0,
        ;
        if let Err(e) = r {
            let q = choose|q: int|
                {
                    &&& 0 <= q < product(region.counts)
                    &&& fetched(ds, source, region, ds.chunk_number(#[trigger] region.coord(q)))
                        == Err::<Seq<u8>, ReadError>(e)
                    &&& forall|p: int|
                        0 <= p < product(region.counts) && ds.chunk_number(
                            #[trigger] region.coord(p),
                        ) < ds.chunk_number(region.coord(q)) ==> fetched(
                            ds,
                            source,
                            region,
                            ds.chunk_number(region.coord(p)),
                        ) is Ok
                };
            lemma_number(ds, region, q);
            let k = ds.chunk_number(region.coord(q));
            lemma_fetched_address(ds, region, k);
            let f = ds.chunks@[fetched_for(ds, region, k)];
            assert(fetched(ds, source, region, k) == chunk_data(ds, source, f));
            if f.size > 0 {
                lemma_stored(source, f.addr, f.size as nat);
            }
        } else {
            assert(new.skip(bytes) =~= old.skip(bytes));
        }
    }
}

/// A read writes nothing but the elements of the extents: whether it succeeds or fails on the way,
/// each byte of the destination is as it was, or is the byte of the extents that belongs there.
pub proof fn lemma_read_writes<const D: usize>(
    ds: Dataset<'_, D>,
    source: Seq<u8>,
    extents: Extents,
    old: Seq<u8>,
    r: Result<usize, ReadError>,
    new: Seq<u8>,
    p: int,
)
    requires
        ds.valid(),
        read_outcome(ds, source, extents, old, r, new),
        0 <= p < old.len(),
    ensures
        new.len() == old.len(),
        new[p] == old[p] || p < product(extents.region(ds.shape@).counts) * ds.dsize && new[p]
            == selected_byte(ds, source, extents.region(ds.shape@), p),
{
    let region = extents.region(ds.shape@);
    if extents.refusal(ds.shape@) is None && product(region.counts) * ds.dsize <= old.len() {
        extents.lemma_inside(ds.shape@);
        let end = match r {
            Ok(_) => Ok(()),
            Err(e) => Err(e),
        };
        let s = choose|s: Seq<ChunkSlice<'_, D>>| #[trigger]
            ds.slices_make_up(region, s) && read_in_turn(ds, source, s, old, end, new);
        let j = match r {
            Ok(_) => s.len() as int,
            Err(e) => choose|j: int|
                {
                    &&& 0 <= j < s.len()
                    &&& #[trigger] slice_data(ds, source, s, j) == Err::<Seq<u8>, ReadError>(e)
                    &&& forall|i: int|
                        0 <= i < j ==> #[trigger] slice_data(ds, source, s, i) is Ok
                    &&& new == copied_in_order(ds, source, s, old, up_to(j))
                },
        };
        lemma_copied_part(ds, source, region, s, old, up_to(j), p);
    }
}

/// Extents that fit a dataset of uncompressed chunks that are all in the source can be read into
/// a destination that is long enough.
pub proof fn lemma_read_succeeds<const D: usize>(
    ds: Dataset<'_, D>,
    source: Seq<u8>,
    extents: Extents,
    old: Seq<u8>,
    r: Result<usize, ReadError>,
    new: Seq<u8>,
)
    requires
        ds.valid(),
        read_outcome(ds, source, extents, old, r, new),
        extents.refusal(ds.shape@) is None,
        product(extents.region(ds.shape@).counts) * ds.dsize <= old.len(),
        ds.gzip is None,
        forall|k: int|
            0 <= k < ds.chunks@.len() ==> (#[trigger] ds.chunks@[k]).addr + ds.chunks@[k].size
                <= source.len(),
    ensures
        r is Ok,
{
    lemma_read_fails(ds, source, extents, old, r, new);
}

/// Extents that fit a dataset whose chunks are all in the source and can all be decoded can be
/// read into a destination that is long enough.
pub proof fn lemma_read_decodable<const D: usize>(
    ds: Dataset<'_, D>,
    source: Seq<u8>,
    extents: Extents,
    old: Seq<u8>,
    r: Result<usize, ReadError>,
    new: Seq<u8>,
)
    requires
        ds.valid(),
        read_outcome(ds, source, extents, old, r, new),
        extents.refusal(ds.shape@) is None,
        product(extents.region(ds.shape@).counts) * ds.dsize <= old.len(),
        forall|k: int|
            0 <= k < ds.chunks@.len() ==> {
                let c = #[trigger] ds.chunks@[k];
                &&& 0 < c.size
                &&& c.addr + c.size <= source.len()
                &&& decoded(
                    source.subrange(c.addr as int, c.addr + c.size),
                    (product(ds.chunk_shape@) * ds.dsize) as u64,
                    ds.dsize as u64,
                    ds.gzip is Some,
                    ds.shuffle,
                ) is Some
            },
    ensures
        r is Ok,
{
    lemma_outcome_gives(ds, source, extents, old, r, new);
    extents.lemma_inside(ds.shape@);
    let region = extents.region(ds.shape@);
    assert forall|q: int| 0 <= q < product(region.counts) implies fetched(
        ds,
        source,
        region,
        ds.chunk_number(#[trigger] region.coord(q)),
    ) is Ok by {
        lemma_number(ds, region, q);
        let k = ds.chunk_number(region.coord(q));
        lemma_fetched_address(ds, region, k);
        let f = ds.chunks@[fetched_for(ds, region, k)];
        lemma_stored(source, f.addr, f.size as nat);
    }
    assert(selection_readable(ds, source, region));
}

/// The first chunk that cannot be read says why: where chunks at one address have one size, all
/// chunks of the table before chunk `k` can be read, and chunk `k`, which holds the element at
/// coordinates `x` of the extents, cannot, the read fails as the chunk does.
pub proof fn lemma_first_error<const D: usize>(
    ds: Dataset<'_, D>,
    source: Seq<u8>,
    extents: Extents,
    old: Seq<u8>,
    r: Result<usize, ReadError>,
    new: Seq<u8>,
    x: Seq<int>,
    k: int,
    e: ReadError,
)
    requires
        ds.valid(),
        ds.one_size_per_address(),
        read_outcome(ds, source, extents, old, r, new),
        extents.refusal(ds.shape@) is None,
        product(extents.region(ds.shape@).counts) * ds.dsize <= old.len(),
        x.len() == D,
        forall|i: int|
            0 <= i < D ==> extents.region(ds.shape@).start[i] <= #[trigger] x[i] < extents.region(
                ds.shape@,
            ).start[i] + extents.region(ds.shape@).counts[i],
        0 <= k < ds.chunks@.len(),
        forall|i: int|
            0 <= i < D ==> ds.chunks@[k].offset@[i] <= #[trigger] x[i] < ds.chunks@[k].offset@[i]
                + ds.chunk_shape@[i],
        chunk_data(ds, source, ds.chunks@[k]) == Err::<Seq<u8>, ReadError>(e),
        forall|l: int| 0 <= l < k ==> chunk_data(ds, source, #[trigger] ds.chunks@[l]) is Ok,
    ensures
        r == Err::<usize, ReadError>(e),
{
    let sel = extents.region(ds.shape@);
    lemma_outcome_gives(ds, source, extents, old, r, new);
    extents.lemma_inside(ds.shape@);
    sel.lemma_coords_read(x);
    let q = choose|q: int| 0 <= q < product(sel.counts) && #[trigger] sel.coord(q) == x;
    lemma_coord_inside(ds.shape@, sel, q);
    lemma_element_place(ds, x, k);
    lemma_fetched_itself(ds, source, sel, k);
    assert(fetched(ds, source, sel, ds.chunk_number(sel.coord(q))) is Err);
    assert(!selection_readable(ds, source, sel));
    let f = r->Err_0;
    let p = choose|p: int|
        {
            &&& 0 <= p < product(sel.counts)
            &&& fetched(ds, source, sel, ds.chunk_number(#[trigger] sel.coord(p))) == Err::<
                Seq<u8>,
                ReadError,
            >(f)
            &&& forall|o: int|
                0 <= o < product(sel.counts) && ds.chunk_number(#[trigger] sel.coord(o))
                    < ds.chunk_number(sel.coord(p)) ==> fetched(
                    ds,
                    source,
                    sel,
                    ds.chunk_number(sel.coord(o)),
                ) is Ok
        };
    lemma_number(ds, sel, p);
    let l = ds.chunk_number(sel.coord(p));
    lemma_fetched_itself(ds, source, sel, l);
    if l < k {
        assert(chunk_data(ds, source, ds.chunks@[l]) is Ok);
    }
}

/// A read that succeeds puts each element of the extents where it belongs: the element at
/// coordinates `x`, which is stored in chunk `k`, is at the place of `x` in an array of the shape
/// of the extents. Where chunks are neither compressed nor shuffled, it is taken from the source
/// as far behind the address of the chunk as it is behind the first element of the chunk; else
/// from there in what the bytes of the chunk in the source are decoded to.
pub proof fn lemma_read_elements<const D: usize>(
    ds: Dataset<'_, D>,
    source: Seq<u8>,
    extents: Extents,
    old: Seq<u8>,
    r: Result<usize, ReadError>,
    new: Seq<u8>,
    x: Seq<int>,
    k: int,
    b: int,
)
    requires
        ds.valid(),
        read_outcome(ds, source, extents, old, r, new),
        r is Ok,
        x.len() == D,
        forall|i: int|
            0 <= i < D ==> extents.region(ds.shape@).start[i] <= #[trigger] x[i] < extents.region(
                ds.shape@,
            ).start[i] + extents.region(ds.shape@).counts[i],
        0 <= k < ds.chunks@.len(),
        forall|i: int|
            0 <= i < D ==> ds.chunks@[k].offset@[i] <= #[trigger] x[i] < ds.chunks@[k].offset@[i]
                + ds.chunk_shape@[i],
        0 <= b < ds.dsize,
    ensures
        ({
            let sel = extents.region(ds.shape@);
            let out = position(Seq::new(D as nat, |i: int| x[i] - sel.start[i]), sel.counts)
                * ds.dsize + b;
            let c = ds.chunks@[k];
            let at = position(Seq::new(D as nat, |i: int| x[i] - c.offset@[i]), ds.chunk_shape@)
                * ds.dsize + b;
            &&& 0 <= out < r->Ok_0
            &&& 0 <= at < product(ds.chunk_shape@) * ds.dsize
            &&& ds.gzip is None && !(ds.shuffle && ds.dsize > 1) ==> new[out] == source[c.addr + at]
            &&& ds.one_size_per_address() && 0 < c.size && c.addr + c.size <= source.len() ==> {
                let v = decoded(
                    source.subrange(c.addr as int, c.addr + c.size),
                    (product(ds.chunk_shape@) * ds.dsize) as u64,
                    ds.dsize as u64,
                    ds.gzip is Some,
                    ds.shuffle,
                );
                v is Some && new[out] == v->0[at]
            }
        }),
{
    lemma_read_fails(ds, source, extents, old, r, new);
    lemma_outcome_gives(ds, source, extents, old, r, new);
    extents.lemma_inside(ds.shape@);
    lemma_element_read(ds, source, extents.region(ds.shape@), old, new, x, k, b);
}

/// However a dataset is read, slice by slice or run by run, the result is the same, and so is
/// what a read that succeeds puts into the destination.
pub proof fn lemma_readers_agree<const D: usize>(
    ds: Dataset<'_, D>,
    source: Seq<u8>,
    extents: Extents,
    old: Seq<u8>,
    r1: Result<usize, ReadError>,
    new1: Seq<u8>,
    r2: Result<usize, ReadError>,
    new2: Seq<u8>,
)
    requires
        ds.valid(),
        read_outcome(ds, source, extents, old, r1, new1),
        read_outcome(ds, source, extents, old, r2, new2),
    ensures
        r1 == r2,
        r1 is Ok ==> new1 == new2,
{
    lemma_outcome_gives(ds, source, extents, old, r1, new1);
    lemma_outcome_gives(ds, source, extents, old, r2, new2);
    if r1 is Ok {
        assert(new1 =~= new2);
    }
}

/// A reader of a dataset from the bytes of its file.
pub struct ParSourceReader<'a, const D: usize> {
    ds: &'a Dataset<'a, D>,
    source: &'a [u8],
    chunk_sz: u64,
}

impl<'a, const D: usize> ParSourceReader<'a, D> {
    /// The dataset to read.
    pub closed spec fn dataset(&self) -> Dataset<'a, D> {
        *self.ds
    }

    /// The bytes to read from.
    pub closed spec fn source(&self) -> Seq<u8> {
        self.source@
    }

    #[verifier::type_invariant]
    spec fn wf(&self) -> bool {
        &&& self.ds.valid()
        &&& self.chunk_sz == self.ds.chunk_bytes()
        &&& self.chunk_sz == product(self.ds.chunk_shape@) * self.ds.dsize
    }

    /// Creates a reader for `ds` from the bytes of its file.
    pub fn with_dataset(ds: &'a Dataset<'a, D>, source: &'a [u8]) -> (r: ParSourceReader<'a, D>)
        requires
            ds.valid(),
        ensures
            r.dataset() == *ds,
            r.source() == source@,
    {
        let chunk_sz = ds.decoded_size();
        ParSourceReader { ds, source, chunk_sz }
    }

    /// The byte order of the elements.
    pub fn order(&self) -> (r: Order)
        ensures
            r == self.dataset().order,
    {
        self.ds.order
    }

    /// The size in bytes of an element.
    pub fn dsize(&self) -> (r: usize)
        ensures
            r == self.dataset().dsize,
    {
        self.ds.dsize
    }

    /// The shape of the dataset.
    pub fn shape(&self) -> (r: &[u64])
        ensures
            r@ == self.dataset().shape@,
    {
        self.ds.shape.as_slice()
    }

    /// Reads `extents` into `dst`, slice by slice. A chunk is read anew only where the slice
    /// before was of a chunk at another address.
    pub fn read_to(&self, extents: &Extents, dst: &mut [u8]) -> (r: Result<usize, ReadError>)
        ensures
            final(dst)@.len() == old(dst)@.len(),
            read_outcome(self.dataset(), self.source(), *extents, old(dst)@, r, final(dst)@),
            read_gives(self.dataset(), self.source(), *extents, old(dst)@, r, final(dst)@),
    {
        proof {
            use_type_invariant(self);
        }
        let plan = match ReadPlan::new(self.ds, extents, dst.len()) {
            Ok(p) => p,
            Err(e) => {
                return Err(e);
            },
        };
        let slices = plan.as_slices();
        let dsz = self.ds.dsize;
        let ghost ds = *self.ds;
        let ghost src = self.source@;
        let ghost s = slices@;
        let ghost region = plan.selection();
        let ghost before = dst@;
        proof {
            assert(up_to(0) =~= Seq::empty());
        }
        let mut last: Option<(u64, Vec<u8>)> = None;
        for j in 0..slices.len()
            invariant
                self.ds.valid(),
                self.chunk_sz == self.ds.chunk_bytes(),
                self.chunk_sz == product(self.ds.chunk_shape@) * self.ds.dsize,
                dsz == self.ds.dsize,
                ds == *self.ds,
                src == self.source@,
                s == slices@,
                region.inside(ds.shape@),
                ds.slices_make_up(region, s),
                region == extents.region(ds.shape@),
                extents.refusal(ds.shape@) is None,
                product(region.counts) * dsz <= before.len(),
                before == old(dst)@,
                dst@.len() == before.len(),
                ds == self.dataset(),
                src == self.source(),
                dst@ == copied_in_order(ds, src, s, before, up_to(j as int)),
                forall|i: int| 0 <= i < j ==> #[trigger] slice_data(ds, src, s, i) is Ok,
                match last {
                    None => j == 0,
                    Some((a, c)) => {
                        &&& j > 0
                        &&& a == s[j - 1].chunk.addr
                        &&& slice_data(ds, src, s, j - 1) == Ok::<Seq<u8>, ReadError>(c@)
                        &&& c@.len() >= self.chunk_sz
                    },
                },
        {
            let e = &slices[j];
            let cached = match &last {
                Some((a, _)) => *a == e.chunk.addr,
                None => false,
            };
            proof {
                let k = lemma_in_table(ds, region, s, j as int);
                assert(ds.chunk_in_place(k));
                assert(ds.slice_in_bounds(region, s[j as int]));
            }
            if !cached {
                assert(run_head(s, j as int) == j);
                match read_chunk(
                    self.source,
                    e.chunk.addr,
                    e.chunk.size,
                    self.chunk_sz,
                    dsz as u64,
                    self.ds.gzip.is_some(),
                    self.ds.shuffle,
                ) {
                    Ok(c) => {
                        last = Some((e.chunk.addr, c));
                    },
                    Err(x) => {
                        assert(slice_data(ds, src, s, j as int) == Err::<Seq<u8>, ReadError>(x));
                        assert(read_in_turn(ds, src, s, before, Err(x), dst@));
                        proof {
                            lemma_outcome_gives(ds, src, *extents, before, Err(x), dst@);
                        }
                        return Err(x);
                    },
                }
            }
            assert(slice_data(ds, src, s, j as int) == Ok::<Seq<u8>, ReadError>((last->0).1@));
            if let Some((_, cache)) = &last {
                proof {
                    let z = dsz as int;
                    lemma_mul_inequality(e.end as int, product(ds.chunk_shape@), z);
                    lemma_mul_inequality(
                        e.current + (e.end - e.start),
                        product(region.counts),
                        z,
                    );
                    assert(up_to(j + 1).drop_last() =~= up_to(j as int));
                }
                copy_slice(e, cache.as_slice(), dst, dsz);
            }
        }
        assert(read_in_turn(ds, src, s, before, Ok(()), dst@));
        let bytes = plan.bytes();
        proof {
            lemma_outcome_gives(ds, src, *extents, before, Ok(bytes), dst@);
        }
        Ok(bytes)
    }

    /// Reads `extents` into `dst`, run by run: the chunk of each run is fetched and decoded, and
    /// its slices are copied, independently of the other runs.
    pub fn read_to_par(&self, extents: &Extents, dst: &mut [u8]) -> (r: Result<usize, ReadError>)
        ensures
            final(dst)@.len() == old(dst)@.len(),
            read_outcome(self.dataset(), self.source(), *extents, old(dst)@, r, final(dst)@),
            read_gives(self.dataset(), self.source(), *extents, old(dst)@, r, final(dst)@),
    {
        proof {
            use_type_invariant(self);
        }
        let plan = match ReadPlan::new(self.ds, extents, dst.len()) {
            Ok(p) => p,
            Err(e) => {
                return Err(e);
            },
        };
        let n = plan.len();
        let ghost ds = *self.ds;
        let ghost src = self.source@;
        let ghost s = plan.slices();
        let ghost runs = plan.runs();
        let ghost region = plan.selection();
        let ghost before = dst@;
        let ghost mut done: int = 0;
        proof {
            assert(up_to(0) =~= Seq::empty());
        }
        for r in 0..n
            invariant
                n == runs.len(),
                plan.consistent(),
                plan.dataset() == ds,
                plan.slices() == s,
                plan.runs() == runs,
                plan.selection() == region,
                src == self.source@,
                region == extents.region(ds.shape@),
                extents.refusal(ds.shape@) is None,
                product(region.counts) * ds.dsize <= before.len(),
                before == old(dst)@,
                dst@.len() == before.len(),
                ds == self.dataset(),
                src == self.source(),
                0 <= done <= s.len(),
                done == if r == 0 {
                    0
                } else {
                    runs[r - 1].1 as int
                },
                dst@ == copied_in_order(ds, src, s, before, up_to(done)),
                forall|i: int| 0 <= i < done ==> #[trigger] slice_data(ds, src, s, i) is Ok,
        {
            let c = plan.chunk(r);
            let ghost a = runs[r as int].0 as int;
            let ghost b = runs[r as int].1 as int;
            proof {
                assert(run_follows(runs, r as int));
                lemma_runs_inside(s, runs, r as int);
                let k = lemma_in_table(ds, region, s, a);
                assert(ds.chunk_in_place(k));
                assert(run_head(s, a) == runs[r as int].0);
                assert forall|j: int| a <= j < b implies #[trigger] slice_data(ds, src, s, j)
                    == chunk_data(ds, src, *c) by {
                    assert(run_head(s, j) == runs[r as int].0);
                }
            }
            let mut raw: Vec<u8> = vec![0; c.size as usize];
            let read = read_chunk_to(self.source, c.addr, raw.as_mut_slice());
            if let Err(x) = read {
                assert(slice_data(ds, src, s, a) == Err::<Seq<u8>, ReadError>(x));
                assert(read_in_turn(ds, src, s, before, Err(x), dst@));
                proof {
                    lemma_outcome_gives(ds, src, *extents, before, Err(x), dst@);
                }
                return Err(x);
            }
            let chunk = match plan.decode(raw) {
                Ok(v) => v,
                Err(x) => {
                    assert(slice_data(ds, src, s, a) == Err::<Seq<u8>, ReadError>(x));
                    assert(read_in_turn(ds, src, s, before, Err(x), dst@));
                    proof {
                        lemma_outcome_gives(ds, src, *extents, before, Err(x), dst@);
                    }
                    return Err(x);
                },
            };
            assert(slice_data(ds, src, s, a) == Ok::<Seq<u8>, ReadError>(chunk@));
            plan.copy_run(r, chunk.as_slice(), dst);
            proof {
                lemma_copy_next_run(ds, src, s, before, a, b, chunk@);
                assert forall|i: int| 0 <= i < b implies #[trigger] slice_data(
                    ds,
                    src,
                    s,
                    i,
                ) is Ok by {
                    if i >= a {
                        assert(slice_data(ds, src, s, i) == chunk_data(ds, src, *c));
                    }
                }
                done = b;
            }
        }
        assert(read_in_turn(ds, src, s, before, Ok(()), dst@));
        let bytes = plan.bytes();
        proof {
            lemma_outcome_gives(ds, src, *extents, before, Ok(bytes), dst@);
        }
        Ok(bytes)
    }
}

} // verus!

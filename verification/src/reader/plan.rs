//! What a read has to fetch and where the fetched elements go.
//!
//! A reader that fetches the chunks itself makes a plan, and, for each run of slices of one
//! chunk, fetches the chunk, decodes it and copies the run. The runs can be copied in any
//! order.
use super::chunk::{
    decode_chunk, decoded, lemma_decoded, lemma_stored, read_decoded, stored,
};
use super::ReadError;
use crate::extent::{Extents, Region, Selection};
use crate::idx::dataset::{Chunk, ChunkSlice, Dataset};
use crate::idx::slices::{covered, lemma_coord_inside, lemma_element_place, lemma_number};
use crate::layout::{
    count, lemma_coords_of_position, lemma_position_bound, lemma_product_nonnegative,
    lemma_product_within, position, product,
};
use vstd::arithmetic::div_mod::lemma_fundamental_div_mod_converse;
use vstd::prelude::*;

verus! {

/// The elements of a chunk of the dataset, read from `source`, or why they cannot be had.
pub open spec fn chunk_data<const D: usize>(
    ds: Dataset<'_, D>,
    source: Seq<u8>,
    c: Chunk<D>,
) -> Result<Seq<u8>, ReadError> {
    read_decoded(
        source,
        c.addr,
        c.size,
        ds.chunk_bytes(),
        ds.dsize as u64,
        ds.gzip is Some,
        ds.shuffle,
    )
}

/// The first slice of the run of slices at one address that slice `j` is in.
pub open spec fn run_head<const D: usize>(s: Seq<ChunkSlice<'_, D>>, j: int) -> int
    decreases j,
{
    if j <= 0 || s[j - 1].chunk.addr != s[j].chunk.addr {
        j
    } else {
        run_head(s, j - 1)
    }
}

/// The elements that slice `j` is taken from: those of the chunk that its run was read for.
pub open spec fn slice_data<const D: usize>(
    ds: Dataset<'_, D>,
    source: Seq<u8>,
    s: Seq<ChunkSlice<'_, D>>,
    j: int,
) -> Result<Seq<u8>, ReadError> {
    chunk_data(ds, source, *s[run_head(s, j)].chunk)
}

/// The destination after one slice of elements of `dsz` bytes has been copied into it.
pub open spec fn copied<const D: usize>(
    dst: Seq<u8>,
    e: ChunkSlice<'_, D>,
    data: Seq<u8>,
    dsz: int,
) -> Seq<u8> {
    Seq::new(
        dst.len(),
        |p: int|
            if e.current * dsz <= p < (e.current + (e.end - e.start)) * dsz {
                data[e.start * dsz + (p - e.current * dsz)]
            } else {
                dst[p]
            },
    )
}

/// The destination after the slices numbered `order` have been copied into it, one after the
/// other.
pub open spec fn copied_in_order<const D: usize>(
    ds: Dataset<'_, D>,
    source: Seq<u8>,
    s: Seq<ChunkSlice<'_, D>>,
    dst: Seq<u8>,
    order: Seq<int>,
) -> Seq<u8>
    decreases order.len(),
{
    if order.len() == 0 {
        dst
    } else {
        copied(
            copied_in_order(ds, source, s, dst, order.drop_last()),
            s[order.last()],
            slice_data(ds, source, s, order.last())->Ok_0,
            ds.dsize as int,
        )
    }
}

/// The numbers from 0 up to `n`.
pub open spec fn up_to(n: int) -> Seq<int> {
    Seq::new(n as nat, |i: int| i)
}

/// Whether `r` and `new` are what comes of reading the slices `s` one after the other into
/// `old`: each slice is copied as long as the chunks can be read; the first that cannot ends
/// the read.
pub open spec fn read_in_turn<const D: usize>(
    ds: Dataset<'_, D>,
    source: Seq<u8>,
    s: Seq<ChunkSlice<'_, D>>,
    old: Seq<u8>,
    r: Result<(), ReadError>,
    new: Seq<u8>,
) -> bool {
    match r {
        Ok(_) => {
            &&& forall|j: int| 0 <= j < s.len() ==> #[trigger] slice_data(ds, source, s, j) is Ok
            &&& new == copied_in_order(ds, source, s, old, up_to(s.len() as int))
        },
        Err(e) => exists|j: int|
            {
                &&& 0 <= j < s.len()
                &&& #[trigger] slice_data(ds, source, s, j) == Err::<Seq<u8>, ReadError>(e)
                &&& forall|i: int|
                    0 <= i < j ==> #[trigger] slice_data(ds, source, s, i) is Ok
                &&& new == copied_in_order(ds, source, s, old, up_to(j))
            },
    }
}

/// Whether chunk `k` of the table holds selected elements.
pub open spec fn touched<const D: usize>(ds: Dataset<'_, D>, sel: Region, k: int) -> bool {
    exists|q: int|
        0 <= q < product(sel.counts) && ds.chunk_number(#[trigger] sel.coord(q)) == k
}

/// The last chunk before chunk `k` that holds selected elements, or -1.
pub open spec fn touched_before<const D: usize>(ds: Dataset<'_, D>, sel: Region, k: int) -> int
    decreases k,
{
    if k <= 0 {
        -1
    } else if touched(ds, sel, k - 1) {
        k - 1
    } else {
        touched_before(ds, sel, k - 1)
    }
}

/// The chunk that is fetched for chunk `k`: where the chunk before it that holds selected
/// elements is at the same address, the one that is fetched for that; else chunk `k` itself.
pub open spec fn fetched_for<const D: usize>(ds: Dataset<'_, D>, sel: Region, k: int) -> int
    decreases k,
{
    let p = touched_before(ds, sel, k);
    if 0 <= p < k && ds.chunks@[p].addr == ds.chunks@[k].addr {
        fetched_for(ds, sel, p)
    } else {
        k
    }
}

/// The elements that are read for chunk `k`, or why they cannot be had.
pub open spec fn fetched<const D: usize>(
    ds: Dataset<'_, D>,
    source: Seq<u8>,
    sel: Region,
    k: int,
) -> Result<Seq<u8>, ReadError> {
    chunk_data(ds, source, ds.chunks@[fetched_for(ds, sel, k)])
}

/// Byte `p` of the selection: a byte of the element that is read at position `p / dsize`, from
/// its place in the chunk that holds it.
pub open spec fn selected_byte<const D: usize>(
    ds: Dataset<'_, D>,
    source: Seq<u8>,
    sel: Region,
    p: int,
) -> u8 {
    let x = sel.coord(p / (ds.dsize as int));
    let data = fetched(ds, source, sel, ds.chunk_number(x))->Ok_0;
    data[ds.offset_in_chunk(x) * ds.dsize + p % (ds.dsize as int)]
}

/// Byte `r` of the element at coordinates `x`, as it is stored in the chunk that holds it.
pub open spec fn element_byte<const D: usize>(
    ds: Dataset<'_, D>,
    source: Seq<u8>,
    x: Seq<int>,
    r: int,
) -> u8 {
    let data = chunk_data(ds, source, ds.chunks@[ds.chunk_number(x)])->Ok_0;
    data[ds.offset_in_chunk(x) * ds.dsize + r]
}

/// Whether all the chunks that hold selected elements can be read.
pub open spec fn selection_readable<const D: usize>(
    ds: Dataset<'_, D>,
    source: Seq<u8>,
    sel: Region,
) -> bool {
    forall|q: int|
        0 <= q < product(sel.counts) ==> fetched(
            ds,
            source,
            sel,
            ds.chunk_number(#[trigger] sel.coord(q)),
        ) is Ok
}

/// Whether `e` is why the first chunk, in the order of the table, that holds selected elements
/// and cannot be read cannot be read.
pub open spec fn selection_fault<const D: usize>(
    ds: Dataset<'_, D>,
    source: Seq<u8>,
    sel: Region,
    e: ReadError,
) -> bool {
    exists|q: int|
        {
            &&& 0 <= q < product(sel.counts)
            &&& fetched(ds, source, sel, ds.chunk_number(#[trigger] sel.coord(q))) == Err::<
                Seq<u8>,
                ReadError,
            >(e)
            &&& forall|p: int|
                0 <= p < product(sel.counts) && ds.chunk_number(#[trigger] sel.coord(p))
                    < ds.chunk_number(sel.coord(q)) ==> fetched(
                    ds,
                    source,
                    sel,
                    ds.chunk_number(sel.coord(p)),
                ) is Ok
        }
}

/// Whether `new` is `old` with the selected elements, in row-major order, at its start.
pub open spec fn selection_copied<const D: usize>(
    ds: Dataset<'_, D>,
    source: Seq<u8>,
    sel: Region,
    old: Seq<u8>,
    new: Seq<u8>,
) -> bool {
    &&& new.len() == old.len()
    &&& forall|p: int|
        0 <= p < old.len() ==> #[trigger] new[p] == if p < product(sel.counts) * ds.dsize {
            selected_byte(ds, source, sel, p)
        } else {
            old[p]
        }
}

/// The slice that element `q` comes from.
spec fn slice_of<const D: usize>(s: Seq<ChunkSlice<'_, D>>, q: int) -> int {
    choose|a: int| 0 <= a < s.len() && #[trigger] s[a].covers(q)
}

/// A byte lies in a slice where its element does.
proof fn lemma_byte_in_slice<const D: usize>(e: ChunkSlice<'_, D>, p: int, dsz: int)
    requires
        dsz > 0,
        p >= 0,
        e.start <= e.end,
    ensures
        e.covers(p / dsz) <==> e.current * dsz <= p < (e.current + (e.end - e.start)) * dsz,
        e.start * dsz + (p - e.current * dsz) == (e.start + (p / dsz - e.current)) * dsz + p % dsz,
{
    let q = p / dsz;
    let r = p % dsz;
    let a = e.current as int;
    let b = e.current + (e.end - e.start);
    vstd::arithmetic::div_mod::lemma_fundamental_div_mod(p, dsz);
    vstd::arithmetic::div_mod::lemma_mod_bound(p, dsz);
    assert((a <= q < b) <==> (a * dsz <= p < b * dsz)) by (nonlinear_arith)
        requires
            p == dsz * q + r,
            0 <= r < dsz,
    ;
    assert(e.start * dsz + (p - a * dsz) == (e.start + (q - a)) * dsz + r) by (nonlinear_arith)
        requires
            p == dsz * q + r,
    ;
}

/// What the destination holds after slices have been copied, in whatever order: where a byte
/// belongs to one of them, that slice's byte, and elsewhere what was there before.
proof fn lemma_copied_byte<const D: usize>(
    ds: Dataset<'_, D>,
    source: Seq<u8>,
    sel: Region,
    s: Seq<ChunkSlice<'_, D>>,
    dst: Seq<u8>,
    order: Seq<int>,
    p: int,
)
    requires
        ds.slices_make_up(sel, s),
        forall|i: int| 0 <= i < order.len() ==> 0 <= #[trigger] order[i] < s.len(),
        0 <= p < dst.len(),
        ds.dsize > 0,
    ensures
        copied_in_order(ds, source, s, dst, order).len() == dst.len(),
        forall|a: int|
            order.contains(a) && #[trigger] s[a].covers(p / (ds.dsize as int)) ==> copied_in_order(
                ds,
                source,
                s,
                dst,
                order,
            )[p] == slice_data(ds, source, s, a)->Ok_0[(s[a].start + (p / (ds.dsize as int)
                - s[a].current)) * ds.dsize + p % (ds.dsize as int)],
        (forall|a: int|
            order.contains(a) ==> !(#[trigger] s[a].covers(p / (ds.dsize as int))))
            ==> copied_in_order(ds, source, s, dst, order)[p] == dst[p],
    decreases order.len(),
{
    if order.len() > 0 {
        let last = order.last();
        let before = order.drop_last();
        let q = p / (ds.dsize as int);
        assert(0 <= order[order.len() - 1] < s.len());
        assert forall|i: int| 0 <= i < before.len() implies 0 <= #[trigger] before[i]
            < s.len() by {
            assert(before[i] == order[i]);
        }
        lemma_copied_byte(ds, source, sel, s, dst, before, p);
        assert(ds.slice_in_bounds(sel, s[last]));
        lemma_byte_in_slice(s[last], p, ds.dsize as int);
        assert forall|a: int| order.contains(a) && #[trigger] s[a].covers(q) implies a == last
            || before.contains(a) && !s[last].covers(q) by {
            let i = choose|i: int| 0 <= i < order.len() && order[i] == a;
            assert(0 <= order[i] < s.len());
            if a != last {
                assert(before[i] == a);
                assert(before.contains(a));
            }
        }
        if !s[last].covers(q) {
            if forall|a: int| order.contains(a) ==> !(#[trigger] s[a].covers(q)) {
                assert forall|a: int| before.contains(a) implies !(#[trigger] s[a].covers(q)) by {
                    let i = choose|i: int| 0 <= i < before.len() && before[i] == a;
                    assert(order[i] == a);
                    assert(order.contains(a));
                }
            }
        } else {
            assert(order[order.len() - 1] == last);
            assert(order.contains(last));
        }
    }
}

/// The order in which slices are copied does not matter: they never overlap.
pub proof fn lemma_any_order<const D: usize>(
    ds: Dataset<'_, D>,
    source: Seq<u8>,
    sel: Region,
    s: Seq<ChunkSlice<'_, D>>,
    dst: Seq<u8>,
    order: Seq<int>,
)
    requires
        ds.slices_make_up(sel, s),
        forall|i: int| 0 <= i < order.len() ==> 0 <= #[trigger] order[i] < s.len(),
        forall|a: int| 0 <= a < s.len() ==> #[trigger] order.contains(a),
    ensures
        copied_in_order(ds, source, s, dst, order) == copied_in_order(
            ds,
            source,
            s,
            dst,
            up_to(s.len() as int),
        ),
{
    let all = up_to(s.len() as int);
    assert forall|a: int| 0 <= a < s.len() implies #[trigger] all.contains(a) by {
        assert(all[a] == a);
    }
    lemma_copied_len(ds, source, s, dst, order);
    lemma_copied_len(ds, source, s, dst, all);
    if ds.dsize == 0 {
        lemma_copied_nothing(ds, source, s, dst, order);
        lemma_copied_nothing(ds, source, s, dst, all);
    } else {
        let u = copied_in_order(ds, source, s, dst, order);
        let v = copied_in_order(ds, source, s, dst, all);
        assert forall|p: int| 0 <= p < dst.len() implies u[p] == v[p] by {
            let q = p / (ds.dsize as int);
            lemma_copied_byte(ds, source, sel, s, dst, order, p);
            lemma_copied_byte(ds, source, sel, s, dst, all, p);
            if exists|a: int| 0 <= a < s.len() && #[trigger] s[a].covers(q) {
                let a = slice_of(s, q);
                assert(order.contains(a) && all.contains(a));
            } else {
                assert forall|a: int| order.contains(a) implies !(#[trigger] s[a].covers(q)) by {
                    let i = choose|i: int| 0 <= i < order.len() && order[i] == a;
                    assert(0 <= order[i] < s.len());
                }
                assert forall|a: int| all.contains(a) implies !(#[trigger] s[a].covers(q)) by {
                    let i = choose|i: int| 0 <= i < all.len() && all[i] == a;
                }
            }
        }
        assert(u =~= v);
    }
}

/// Copying does not change the length of the destination.
proof fn lemma_copied_len<const D: usize>(
    ds: Dataset<'_, D>,
    source: Seq<u8>,
    s: Seq<ChunkSlice<'_, D>>,
    dst: Seq<u8>,
    order: Seq<int>,
)
    ensures
        copied_in_order(ds, source, s, dst, order).len() == dst.len(),
    decreases order.len(),
{
    if order.len() > 0 {
        lemma_copied_len(ds, source, s, dst, order.drop_last());
    }
}

/// Elements of no bytes leave the destination as it is.
proof fn lemma_copied_nothing<const D: usize>(
    ds: Dataset<'_, D>,
    source: Seq<u8>,
    s: Seq<ChunkSlice<'_, D>>,
    dst: Seq<u8>,
    order: Seq<int>,
)
    requires
        ds.dsize == 0,
    ensures
        copied_in_order(ds, source, s, dst, order) == dst,
    decreases order.len(),
{
    if order.len() > 0 {
        lemma_copied_nothing(ds, source, s, dst, order.drop_last());
        let e = s[order.last()];
        assert(e.current * 0 == 0 && (e.current + (e.end - e.start)) * 0 == 0);
        assert(copied_in_order(ds, source, s, dst, order) =~= dst);
    }
}

/// What comes before a chunk.
proof fn lemma_touched_before<const D: usize>(ds: Dataset<'_, D>, sel: Region, k: int)
    ensures
        ({
            let p = touched_before(ds, sel, k);
            &&& -1 <= p
            &&& p < k || p == -1
            &&& p >= 0 ==> touched(ds, sel, p)
            &&& forall|i: int| p < i < k && 0 <= i ==> !(#[trigger] touched(ds, sel, i))
        }),
    decreases k,
{
    if k > 0 && !touched(ds, sel, k - 1) {
        lemma_touched_before(ds, sel, k - 1);
    }
}

/// The element `q` that a slice covers is in the chunk of the slice.
proof fn lemma_slice_number<const D: usize>(
    ds: Dataset<'_, D>,
    sel: Region,
    s: Seq<ChunkSlice<'_, D>>,
    a: int,
    q: int,
)
    requires
        ds.valid(),
        sel.inside(ds.shape@),
        ds.slices_make_up(sel, s),
        0 <= a < s.len(),
        0 <= q < product(sel.counts),
        s[a].covers(q),
    ensures
        ds.chunk_number(sel.coord(q)) == number(ds, s[a]),
        0 <= number(ds, s[a]) < ds.chunks@.len(),
        *s[a].chunk == ds.chunks@[number(ds, s[a])],
{
    assert(ds.slice_right(sel, s[a], q));
    lemma_number(ds, sel, q);
    assert(ds.chunk_in_place(ds.chunk_number(sel.coord(q))));
}

/// The place in the table of the chunk of a slice.
spec fn number<const D: usize>(ds: Dataset<'_, D>, e: ChunkSlice<'_, D>) -> int {
    ds.chunk_number(Dataset::<'_, D>::origin(*e.chunk))
}

/// A slice is taken from what is fetched for its chunk.
proof fn lemma_slice_fetched<const D: usize>(
    ds: Dataset<'_, D>,
    source: Seq<u8>,
    sel: Region,
    s: Seq<ChunkSlice<'_, D>>,
    j: int,
)
    requires
        ds.valid(),
        sel.inside(ds.shape@),
        ds.slices_make_up(sel, s),
        0 <= j < s.len(),
    ensures
        0 <= number(ds, s[j]) < ds.chunks@.len(),
        touched(ds, sel, number(ds, s[j])),
        *s[j].chunk == ds.chunks@[number(ds, s[j])],
        *s[run_head(s, j)].chunk == ds.chunks@[fetched_for(ds, sel, number(ds, s[j]))],
        slice_data(ds, source, s, j) == fetched(ds, source, sel, number(ds, s[j])),
    decreases j,
{
    let q = s[j].current as int;
    let k = number(ds, s[j]);
    let p = touched_before(ds, sel, k);
    assert(ds.slice_in_bounds(sel, s[j]));
    assert(s[j].covers(q));
    lemma_slice_number(ds, sel, s, j, q);
    assert(ds.chunk_number(sel.coord(q)) == k);
    lemma_touched_before(ds, sel, k);
    // A touched chunk has a slice.
    assert forall|i: int| #[trigger] touched(ds, sel, i) implies exists|a: int|
        0 <= a < s.len() && number(ds, #[trigger] s[a]) == i by {
        let x = choose|x: int|
            0 <= x < product(sel.counts) && ds.chunk_number(#[trigger] sel.coord(x)) == i;
        assert(covered(s, x));
        let a = slice_of(s, x);
        assert(s[a].covers(x));
        lemma_slice_number(ds, sel, s, a, x);
    }
    if j > 0 {
        lemma_slice_fetched(ds, source, sel, s, j - 1);
        let l = number(ds, s[j - 1]);
        assert(l <= k);
        if l < k {
            assert(touched(ds, sel, l));
            assert(p == l) by {
                if p > l {
                    let a = choose|a: int| 0 <= a < s.len() && number(ds, #[trigger] s[a]) == p;
                    if a <= j - 1 {
                        assert(number(ds, s[a]) <= number(ds, s[j - 1]));
                    } else {
                        assert(number(ds, s[j]) <= number(ds, s[a]));
                    }
                }
            }
        }
    } else if p >= 0 {
        let a = choose|a: int| 0 <= a < s.len() && number(ds, #[trigger] s[a]) == p;
        assert(number(ds, s[0]) <= number(ds, s[a]));
    }
}

/// Where chunks at one address have one size, what is fetched for a chunk is the chunk.
pub proof fn lemma_fetched_itself<const D: usize>(
    ds: Dataset<'_, D>,
    source: Seq<u8>,
    sel: Region,
    k: int,
)
    requires
        ds.one_size_per_address(),
        0 <= k < ds.chunks@.len(),
    ensures
        fetched(ds, source, sel, k) == chunk_data(ds, source, ds.chunks@[k]),
        0 <= fetched_for(ds, sel, k) <= k,
        ds.chunks@[fetched_for(ds, sel, k)].addr == ds.chunks@[k].addr,
    decreases k,
{
    let p = touched_before(ds, sel, k);
    if 0 <= p < k && ds.chunks@[p].addr == ds.chunks@[k].addr {
        lemma_fetched_itself(ds, source, sel, p);
    }
}

/// Where chunks at one address have one size, the selected bytes are those of the elements at
/// the selected coordinates, each as it is stored in the chunk that holds it.
pub proof fn lemma_selected_elements<const D: usize>(
    ds: Dataset<'_, D>,
    source: Seq<u8>,
    sel: Region,
    q: int,
    r: int,
)
    requires
        ds.valid(),
        ds.one_size_per_address(),
        sel.inside(ds.shape@),
        0 <= q < product(sel.counts),
        0 <= r < ds.dsize,
    ensures
        selected_byte(ds, source, sel, q * ds.dsize + r) == element_byte(
            ds,
            source,
            sel.coord(q),
            r,
        ),
{
    lemma_number(ds, sel, q);
    lemma_fetched_itself(ds, source, sel, ds.chunk_number(sel.coord(q)));
    lemma_fundamental_div_mod_converse(q * ds.dsize + r, ds.dsize as int, q, r);
}

/// What is fetched for a chunk is at the address of the chunk.
pub proof fn lemma_fetched_address<const D: usize>(ds: Dataset<'_, D>, sel: Region, k: int)
    requires
        0 <= k < ds.chunks@.len(),
    ensures
        0 <= fetched_for(ds, sel, k) <= k,
        ds.chunks@[fetched_for(ds, sel, k)].addr == ds.chunks@[k].addr,
    decreases k,
{
    let p = touched_before(ds, sel, k);
    if 0 <= p < k && ds.chunks@[p].addr == ds.chunks@[k].addr {
        lemma_fetched_address(ds, sel, p);
    }
}

/// What a read is for: the element at coordinates `x` inside the selection, which is stored in
/// chunk `k`, is put where it belongs in an array of the shape of the selection. Where chunks are
/// neither compressed nor shuffled, its byte `b` is the byte of the source that is as far behind
/// the address of the chunk as the element is behind the first one of the chunk. Else it is the
/// byte there of what the bytes of the chunk in the source are decoded to.
pub proof fn lemma_element_read<const D: usize>(
    ds: Dataset<'_, D>,
    source: Seq<u8>,
    sel: Region,
    old: Seq<u8>,
    new: Seq<u8>,
    x: Seq<int>,
    k: int,
    b: int,
)
    requires
        ds.valid(),
        sel.inside(ds.shape@),
        selection_readable(ds, source, sel),
        selection_copied(ds, source, sel, old, new),
        product(sel.counts) * ds.dsize <= old.len(),
        x.len() == D,
        forall|i: int|
            0 <= i < D ==> sel.start[i] <= #[trigger] x[i] < sel.start[i] + sel.counts[i],
        0 <= k < ds.chunks@.len(),
        forall|i: int|
            0 <= i < D ==> ds.chunks@[k].offset@[i] <= #[trigger] x[i] < ds.chunks@[k].offset@[i]
                + ds.chunk_shape@[i],
        0 <= b < ds.dsize,
    ensures
        ({
            let out = position(Seq::new(D as nat, |i: int| x[i] - sel.start[i]), sel.counts)
                * ds.dsize + b;
            let c = ds.chunks@[k];
            let at = position(Seq::new(D as nat, |i: int| x[i] - c.offset@[i]), ds.chunk_shape@)
                * ds.dsize + b;
            &&& 0 <= out < product(sel.counts) * ds.dsize
            &&& 0 <= at < product(ds.chunk_shape@) * ds.dsize
            &&& ds.gzip is None && !(ds.shuffle && ds.dsize > 1) ==> new[out] == source[c.addr + at]
            &&& ds.one_size_per_address() && 0 < c.size && c.addr + c.size <= source.len() ==> {
                let v = decoded(
                    source.subrange(c.addr as int, c.addr + c.size),
                    (product(ds.chunk_shape@) * ds.dsize) as u64,
                    ds.dsize as u64,
                    ds.gzip is Some,
                    ds.shuffle,
                );
                v is Some && new[out] == v->0[at]
            }
        }),
{
    let y = Seq::new(D as nat, |i: int| x[i] - sel.start[i]);
    let q = position(y, sel.counts);
    let dsz = ds.dsize as int;
    let out = q * dsz + b;
    assert forall|i: int| 0 <= i < D implies 0 <= #[trigger] y[i] < sel.counts[i] by {
        assert(sel.start[i] <= x[i]);
    }
    sel.lemma_coord_at(y);
    assert(sel.coord(q) =~= x);
    lemma_coord_inside(ds.shape@, sel, q);
    lemma_element_place(ds, x, k);
    let c = ds.chunks@[k];
    let z = Seq::new(D as nat, |i: int| x[i] - c.offset@[i]);
    let w = position(z, ds.chunk_shape@);
    let at = w * dsz + b;
    let n = product(sel.counts);
    let m = product(ds.chunk_shape@);
    assert(0 <= out < n * dsz) by (nonlinear_arith)
        requires
            out == q * dsz + b,
            0 <= q < n,
            0 <= b < dsz,
    ;
    assert(0 <= at < m * dsz) by (nonlinear_arith)
        requires
            at == w * dsz + b,
            0 <= w < m,
            0 <= b < dsz,
    ;
    lemma_fundamental_div_mod_converse(out, dsz, q, b);
    assert(new[out] == selected_byte(ds, source, sel, out));
    assert(fetched(ds, source, sel, ds.chunk_number(sel.coord(q))) is Ok);
    let data = fetched(ds, source, sel, k)->Ok_0;
    assert(new[out] == data[at]);
    lemma_fetched_address(ds, sel, k);
    let f = ds.chunks@[fetched_for(ds, sel, k)];
    assert(ds.chunk_in_place(fetched_for(ds, sel, k)));
    if ds.gzip is None && !(ds.shuffle && ds.dsize > 1) {
        lemma_stored(source, f.addr, f.size as nat);
        lemma_decoded(
            stored(source, f.addr, f.size as nat),
            ds.chunk_bytes(),
            ds.dsize as u64,
            false,
            ds.shuffle,
            Some(stored(source, f.addr, f.size as nat)),
        );
    }
    if ds.one_size_per_address() && 0 < c.size && c.addr + c.size <= source.len() {
        lemma_fetched_itself(ds, source, sel, k);
        lemma_stored(source, c.addr, c.size as nat);
    }
}

/// The chunk of a slice is in the table, at its number.
pub(crate) proof fn lemma_in_table<const D: usize>(
    ds: Dataset<'_, D>,
    sel: Region,
    s: Seq<ChunkSlice<'_, D>>,
    j: int,
) -> (k: int)
    requires
        ds.valid(),
        sel.inside(ds.shape@),
        ds.slices_make_up(sel, s),
        0 <= j < s.len(),
    ensures
        0 <= k < ds.chunks@.len(),
        *s[j].chunk == ds.chunks@[k],
        k == ds.chunk_number(sel.coord(s[j].current as int)),
        0 <= s[j].current < product(sel.counts),
{
    let q = s[j].current as int;
    assert(ds.slice_in_bounds(sel, s[j]));
    assert(s[j].covers(q));
    assert(ds.slice_right(sel, s[j], q));
    lemma_number(ds, sel, q);
    ds.chunk_number(sel.coord(q))
}

/// Reading gives the selected elements: slices that make up a selection can be read exactly where
/// the chunks of the selection can, and copying them puts the selected elements into the
/// destination.
pub proof fn lemma_read_selection<const D: usize>(
    ds: Dataset<'_, D>,
    source: Seq<u8>,
    sel: Region,
    s: Seq<ChunkSlice<'_, D>>,
    dst: Seq<u8>,
)
    requires
        ds.valid(),
        sel.inside(ds.shape@),
        ds.slices_make_up(sel, s),
    ensures
        (forall|j: int| 0 <= j < s.len() ==> #[trigger] slice_data(ds, source, s, j) is Ok)
            <==> selection_readable(ds, source, sel),
        selection_copied(
            ds,
            source,
            sel,
            dst,
            copied_in_order(ds, source, s, dst, up_to(s.len() as int)),
        ),
{
    let n = product(sel.counts);
    let all = up_to(s.len() as int);
    let new = copied_in_order(ds, source, s, dst, all);
    if selection_readable(ds, source, sel) {
        assert forall|j: int| 0 <= j < s.len() implies #[trigger] slice_data(
            ds,
            source,
            s,
            j,
        ) is Ok by {
            lemma_slice_fetched(ds, source, sel, s, j);
            let q = s[j].current as int;
            assert(ds.slice_in_bounds(sel, s[j]));
            assert(s[j].covers(q));
            lemma_slice_number(ds, sel, s, j, q);
            assert(fetched(ds, source, sel, ds.chunk_number(sel.coord(q))) is Ok);
        }
    }
    if forall|j: int| 0 <= j < s.len() ==> #[trigger] slice_data(ds, source, s, j) is Ok {
        assert forall|q: int| 0 <= q < n implies fetched(
            ds,
            source,
            sel,
            ds.chunk_number(#[trigger] sel.coord(q)),
        ) is Ok by {
            assert(covered(s, q));
            let a = slice_of(s, q);
            assert(s[a].covers(q));
            lemma_slice_number(ds, sel, s, a, q);
            lemma_slice_fetched(ds, source, sel, s, a);
            assert(slice_data(ds, source, s, a) is Ok);
        }
    }
    lemma_copied_len(ds, source, s, dst, all);
    if ds.dsize == 0 {
        lemma_copied_nothing(ds, source, s, dst, all);
        assert(n * 0 == 0);
    } else {
        let dsz = ds.dsize as int;
        assert forall|p: int| 0 <= p < dst.len() implies #[trigger] new[p] == if p < n * ds.dsize {
            selected_byte(ds, source, sel, p)
        } else {
            dst[p]
        } by {
            let q = p / dsz;
            vstd::arithmetic::div_mod::lemma_fundamental_div_mod(p, dsz);
            vstd::arithmetic::div_mod::lemma_mod_bound(p, dsz);
            let r = p % dsz;
            assert(p < n * dsz <==> q < n) by (nonlinear_arith)
                requires
                    p == dsz * q + r,
                    0 <= r < dsz,
            ;
            assert(q >= 0) by (nonlinear_arith)
                requires
                    p == dsz * q + r,
                    0 <= r < dsz,
                    p >= 0,
            ;
            lemma_copied_byte(ds, source, sel, s, dst, all, p);
            if q < n {
                assert(covered(s, q));
                let a = slice_of(s, q);
                assert(s[a].covers(q));
                assert(all[a] == a);
                assert(all.contains(a));
                assert(ds.slice_right(sel, s[a], q));
                lemma_slice_number(ds, sel, s, a, q);
                lemma_slice_fetched(ds, source, sel, s, a);
            } else {
                assert forall|a: int| all.contains(a) implies !(#[trigger] s[a].covers(q)) by {
                    let i = choose|i: int| 0 <= i < all.len() && all[i] == a;
                    assert(ds.slice_in_bounds(sel, s[a]));
                }
            }
        }
    }
}

/// Whichever slices have been copied, a byte of the destination is as it was or is the byte of the
/// selection that belongs there.
pub(crate) proof fn lemma_copied_part<const D: usize>(
    ds: Dataset<'_, D>,
    source: Seq<u8>,
    sel: Region,
    s: Seq<ChunkSlice<'_, D>>,
    dst: Seq<u8>,
    order: Seq<int>,
    p: int,
)
    requires
        ds.valid(),
        sel.inside(ds.shape@),
        ds.slices_make_up(sel, s),
        forall|i: int| 0 <= i < order.len() ==> 0 <= #[trigger] order[i] < s.len(),
        0 <= p < dst.len(),
    ensures
        copied_in_order(ds, source, s, dst, order).len() == dst.len(),
        copied_in_order(ds, source, s, dst, order)[p] == dst[p] || p < product(sel.counts)
            * ds.dsize && copied_in_order(ds, source, s, dst, order)[p] == selected_byte(
            ds,
            source,
            sel,
            p,
        ),
{
    lemma_copied_len(ds, source, s, dst, order);
    if ds.dsize == 0 {
        lemma_copied_nothing(ds, source, s, dst, order);
    } else {
        let dsz = ds.dsize as int;
        let q = p / dsz;
        lemma_copied_byte(ds, source, sel, s, dst, order, p);
        if exists|a: int| order.contains(a) && #[trigger] s[a].covers(q) {
            let a = choose|a: int| order.contains(a) && #[trigger] s[a].covers(q);
            let i = choose|i: int| 0 <= i < order.len() && order[i] == a;
            assert(0 <= order[i] < s.len());
            assert(ds.slice_in_bounds(sel, s[a]));
            assert(ds.slice_right(sel, s[a], q));
            let n = product(sel.counts);
            vstd::arithmetic::div_mod::lemma_fundamental_div_mod(p, dsz);
            vstd::arithmetic::div_mod::lemma_mod_bound(p, dsz);
            assert(p < n * dsz) by (nonlinear_arith)
                requires
                    p == dsz * q + p % dsz,
                    p % dsz < dsz,
                    q < n,
                    dsz > 0,
            ;
            lemma_slice_number(ds, sel, s, a, q);
            lemma_slice_fetched(ds, source, sel, s, a);
        }
    }
}

/// The first slice that cannot be read is of the first chunk of the selection that cannot be
/// read.
pub(crate) proof fn lemma_first_fault<const D: usize>(
    ds: Dataset<'_, D>,
    source: Seq<u8>,
    sel: Region,
    s: Seq<ChunkSlice<'_, D>>,
    j: int,
    e: ReadError,
)
    requires
        ds.valid(),
        sel.inside(ds.shape@),
        ds.slices_make_up(sel, s),
        0 <= j < s.len(),
        slice_data(ds, source, s, j) == Err::<Seq<u8>, ReadError>(e),
        forall|i: int| 0 <= i < j ==> #[trigger] slice_data(ds, source, s, i) is Ok,
    ensures
        selection_fault(ds, source, sel, e),
        !selection_readable(ds, source, sel),
{
    lemma_slice_fetched(ds, source, sel, s, j);
    let q = s[j].current as int;
    assert(ds.slice_in_bounds(sel, s[j]));
    assert(s[j].covers(q));
    lemma_slice_number(ds, sel, s, j, q);
    assert forall|p: int|
        0 <= p < product(sel.counts) && ds.chunk_number(#[trigger] sel.coord(p)) < ds.chunk_number(
            sel.coord(q),
        ) implies fetched(ds, source, sel, ds.chunk_number(sel.coord(p))) is Ok by {
        assert(covered(s, p));
        let a = slice_of(s, p);
        assert(s[a].covers(p));
        lemma_slice_number(ds, sel, s, a, p);
        lemma_slice_fetched(ds, source, sel, s, a);
        assert(a < j) by {
            if a >= j {
                assert(number(ds, s[j]) <= number(ds, s[a]));
            }
        }
        assert(slice_data(ds, source, s, a) is Ok);
    }
    assert(fetched(ds, source, sel, ds.chunk_number(sel.coord(q))) == Err::<Seq<u8>, ReadError>(e));
}

/// Reading a part gives what reading the whole gives there: where chunks at one address have one
/// size, the element that is read at position `q` of a selection is the one that is read at the
/// position of its coordinates where the whole dataset is read.
pub proof fn lemma_part_of_whole<const D: usize>(
    ds: Dataset<'_, D>,
    source: Seq<u8>,
    sel: Region,
    q: int,
    r: int,
)
    requires
        ds.valid(),
        ds.one_size_per_address(),
        sel.inside(ds.shape@),
        0 <= q < product(sel.counts),
        0 <= r < ds.dsize,
    ensures
        0 <= position(sel.coord(q), ds.shape@) < product(ds.shape@),
        selected_byte(ds, source, sel, q * ds.dsize + r) == selected_byte(
            ds,
            source,
            Extents::All.region(ds.shape@),
            position(sel.coord(q), ds.shape@) * ds.dsize + r,
        ),
{
    let x = sel.coord(q);
    let shape = ds.shape@;
    let whole = Extents::All.region(shape);
    lemma_coord_inside(shape, sel, q);
    lemma_position_bound(x, shape);
    lemma_coords_of_position(x, shape);
    let p = position(x, shape);
    assert(whole.counts =~= shape);
    assert(whole.coord(p) =~= x);
    lemma_selected_elements(ds, source, sel, q, r);
    lemma_selected_elements(ds, source, whole, p, r);
}

/// For a dataset whose chunk table is owned, the same chunks are fetched as for the one whose
/// table is borrowed.
proof fn lemma_owned_fetches<const D: usize>(
    o: Dataset<'_, D>,
    d: Dataset<'_, D>,
    sel: Region,
    k: int,
)
    requires
        o.owns(d),
        forall|x: Seq<int>| o.chunk_number(x) == #[trigger] d.chunk_number(x),
    ensures
        touched_before(o, sel, k) == touched_before(d, sel, k),
        fetched_for(o, sel, k) == fetched_for(d, sel, k),
    decreases k,
{
    lemma_owned_touches(o, d, sel, k);
    let p = touched_before(d, sel, k);
    if 0 <= p < k {
        lemma_owned_fetches(o, d, sel, p);
    }
}

/// For a dataset whose chunk table is owned, the same chunks hold selected elements as for the
/// one whose table is borrowed.
proof fn lemma_owned_touches<const D: usize>(
    o: Dataset<'_, D>,
    d: Dataset<'_, D>,
    sel: Region,
    k: int,
)
    requires
        forall|x: Seq<int>| o.chunk_number(x) == #[trigger] d.chunk_number(x),
    ensures
        touched_before(o, sel, k) == touched_before(d, sel, k),
    decreases k,
{
    if k > 0 {
        if touched(o, sel, k - 1) {
            let q = choose|q: int|
                0 <= q < product(sel.counts) && o.chunk_number(#[trigger] sel.coord(q)) == k - 1;
            assert(d.chunk_number(sel.coord(q)) == k - 1);
        }
        if touched(d, sel, k - 1) {
            let q = choose|q: int|
                0 <= q < product(sel.counts) && d.chunk_number(#[trigger] sel.coord(q)) == k - 1;
            assert(o.chunk_number(sel.coord(q)) == k - 1);
        }
        lemma_owned_touches(o, d, sel, k - 1);
    }
}

/// A dataset whose chunk table is owned is read as the one whose table is borrowed: it can be
/// read where that can be, its elements are the same, and what cannot be read fails alike.
pub proof fn lemma_owned_reads<const D: usize>(
    o: Dataset<'_, D>,
    d: Dataset<'_, D>,
    source: Seq<u8>,
    sel: Region,
    old: Seq<u8>,
    new: Seq<u8>,
)
    requires
        o.owns(d),
    ensures
        o.valid() == d.valid(),
        o.one_size_per_address() == d.one_size_per_address(),
        selection_readable(o, source, sel) == selection_readable(d, source, sel),
        selection_copied(o, source, sel, old, new) == selection_copied(d, source, sel, old, new),
        forall|e: ReadError|
            selection_fault(o, source, sel, e) == #[trigger] selection_fault(d, source, sel, e),
{
    assert(o.grid() =~= d.grid());
    assert forall|x: Seq<int>| o.chunk_number(x) == #[trigger] d.chunk_number(x) by {
        assert(o.chunk_coords(x) =~= d.chunk_coords(x));
    }
    assert forall|x: Seq<int>| o.offset_in_chunk(x) == #[trigger] d.offset_in_chunk(x) by {
        assert(Seq::new(D as nat, |i: int| x[i] % (o.chunk_shape@[i] as int)) =~= Seq::new(
            D as nat,
            |i: int| x[i] % (d.chunk_shape@[i] as int),
        ));
    }
    assert forall|k: int| o.chunk_in_place(k) == #[trigger] d.chunk_in_place(k) by {
        let c = o.chunks@[k];
        let a = Dataset::<'_, D>::origin(c);
        assert(o.chunk_coords(a) =~= d.chunk_coords(a));
        assert(o.chunk_number(a) == d.chunk_number(a));
    }
    assert(o.sizes_fit() == d.sizes_fit());
    if o.valid() {
        assert forall|k: int| 0 <= k < d.chunks@.len() implies #[trigger] d.chunk_in_place(k) by {
            assert(o.chunk_in_place(k));
        }
    }
    if d.valid() {
        assert forall|k: int| 0 <= k < o.chunks@.len() implies #[trigger] o.chunk_in_place(k) by {
            assert(d.chunk_in_place(k));
        }
    }
    assert forall|c: Chunk<D>| chunk_data(o, source, c) == #[trigger] chunk_data(
        d,
        source,
        c,
    ) by {}
    assert forall|q: int| #![trigger sel.coord(q)]
        fetched(o, source, sel, o.chunk_number(sel.coord(q))) == fetched(
            d,
            source,
            sel,
            d.chunk_number(sel.coord(q)),
        ) by {
        let k = d.chunk_number(sel.coord(q));
        assert(o.chunk_number(sel.coord(q)) == k);
        lemma_owned_fetches(o, d, sel, k);
    }
    assert forall|p: int| selected_byte(o, source, sel, p) == #[trigger] selected_byte(
        d,
        source,
        sel,
        p,
    ) by {
        let x = sel.coord(p / (d.dsize as int));
        assert(o.chunk_number(x) == d.chunk_number(x));
        assert(o.offset_in_chunk(x) == d.offset_in_chunk(x));
        lemma_owned_fetches(o, d, sel, d.chunk_number(x));
    }
    if selection_copied(o, source, sel, old, new) {
        assert forall|p: int| 0 <= p < old.len() implies #[trigger] new[p] == if p < product(
            sel.counts,
        ) * d.dsize {
            selected_byte(d, source, sel, p)
        } else {
            old[p]
        } by {
            assert(selected_byte(o, source, sel, p) == selected_byte(d, source, sel, p));
        }
    }
    if selection_copied(d, source, sel, old, new) {
        assert forall|p: int| 0 <= p < old.len() implies #[trigger] new[p] == if p < product(
            sel.counts,
        ) * o.dsize {
            selected_byte(o, source, sel, p)
        } else {
            old[p]
        } by {
            assert(selected_byte(o, source, sel, p) == selected_byte(d, source, sel, p));
        }
    }
}

/// The destination after the slices from `a` up to `b`, all taken from `data`, have been copied
/// into it.
pub open spec fn copied_run<const D: usize>(
    dst: Seq<u8>,
    s: Seq<ChunkSlice<'_, D>>,
    a: int,
    b: int,
    data: Seq<u8>,
    dsz: int,
) -> Seq<u8>
    decreases b - a,
{
    if a >= b {
        dst
    } else {
        copied(copied_run(dst, s, a, b - 1, data, dsz), s[b - 1], data, dsz)
    }
}

/// Whether run `r` is not empty and starts where the run before it ends.
pub open spec fn run_follows(runs: Seq<(usize, usize)>, r: int) -> bool {
    &&& runs[r].0 < runs[r].1
    &&& runs[r].0 == if r == 0 {
        0
    } else {
        runs[r - 1].1
    }
}

/// Whether `runs` are the runs of slices at one address: they follow each other, they are all
/// the slices, and each starts where the address changes.
pub open spec fn are_runs<const D: usize>(
    s: Seq<ChunkSlice<'_, D>>,
    runs: Seq<(usize, usize)>,
) -> bool {
    &&& s.len() == if runs.len() == 0 {
        0
    } else {
        runs.last().1 as nat
    }
    &&& forall|r: int| 0 <= r < runs.len() ==> #[trigger] run_follows(runs, r)
    &&& forall|r: int, j: int|
        0 <= r < runs.len() && runs[r].0 <= j < runs[r].1 ==> #[trigger] run_head(s, j)
            == (#[trigger] runs[r]).0
}

/// A run starts at or before each of its slices, and is at one address.
proof fn lemma_run_head<const D: usize>(s: Seq<ChunkSlice<'_, D>>, j: int)
    requires
        0 <= j < s.len(),
    ensures
        0 <= run_head(s, j) <= j,
        s[run_head(s, j)].chunk.addr == s[j].chunk.addr,
    decreases j,
{
    if j > 0 && s[j - 1].chunk.addr == s[j].chunk.addr {
        lemma_run_head(s, j - 1);
    }
}

/// A chunk is fetched once for the slices at its address that follow each other: the slices of a
/// run are at one address, and the slice before the run is at another.
pub proof fn lemma_run_address<const D: usize>(
    s: Seq<ChunkSlice<'_, D>>,
    runs: Seq<(usize, usize)>,
    r: int,
    j: int,
)
    requires
        are_runs(s, runs),
        0 <= r < runs.len(),
        runs[r].0 <= j < runs[r].1,
    ensures
        runs[r].1 <= s.len(),
        runs.last().1 == s.len(),
        runs[r].0 == if r == 0 {
            0
        } else {
            runs[r - 1].1
        },
        s[j].chunk.addr == s[runs[r].0 as int].chunk.addr,
        runs[r].0 > 0 ==> s[runs[r].0 - 1].chunk.addr != s[runs[r].0 as int].chunk.addr,
{
    assert(run_follows(runs, r));
    lemma_runs_inside(s, runs, r);
    assert(run_head(s, j) == runs[r].0);
    lemma_run_head(s, j);
    let a = runs[r].0 as int;
    assert(run_head(s, a) == runs[r].0);
    if a > 0 {
        lemma_run_head(s, a - 1);
    }
}

/// Copying the run that follows the first `a` slices.
pub(crate) proof fn lemma_copy_next_run<const D: usize>(
    ds: Dataset<'_, D>,
    source: Seq<u8>,
    s: Seq<ChunkSlice<'_, D>>,
    dst: Seq<u8>,
    a: int,
    b: int,
    data: Seq<u8>,
)
    requires
        0 <= a <= b <= s.len(),
        forall|j: int|
            a <= j < b ==> #[trigger] slice_data(ds, source, s, j) == Ok::<Seq<u8>, ReadError>(
                data,
            ),
    ensures
        copied_run(
            copied_in_order(ds, source, s, dst, up_to(a)),
            s,
            a,
            b,
            data,
            ds.dsize as int,
        ) == copied_in_order(ds, source, s, dst, up_to(b)),
    decreases b - a,
{
    if a < b {
        lemma_copy_next_run(ds, source, s, dst, a, b - 1, data);
        assert(up_to(b).drop_last() =~= up_to(b - 1));
        assert(slice_data(ds, source, s, b - 1) == Ok::<Seq<u8>, ReadError>(data));
    }
}

/// The numbers from `a` up to `b`.
spec fn span(a: int, b: int) -> Seq<int> {
    Seq::new((b - a) as nat, |i: int| a + i)
}

/// The slices of the runs numbered `order`, one run after the other.
spec fn slices_of_runs(runs: Seq<(usize, usize)>, order: Seq<int>) -> Seq<int>
    decreases order.len(),
{
    if order.len() == 0 {
        Seq::empty()
    } else {
        let r = runs[order.last()];
        slices_of_runs(runs, order.drop_last()) + span(r.0 as int, r.1 as int)
    }
}

/// The destination after the runs numbered `order` have been copied into it, one after the
/// other, each out of the chunk that was fetched for it.
pub open spec fn runs_copied<const D: usize>(
    ds: Dataset<'_, D>,
    source: Seq<u8>,
    s: Seq<ChunkSlice<'_, D>>,
    runs: Seq<(usize, usize)>,
    dst: Seq<u8>,
    order: Seq<int>,
) -> Seq<u8>
    decreases order.len(),
{
    if order.len() == 0 {
        dst
    } else {
        let r = runs[order.last()];
        copied_run(
            runs_copied(ds, source, s, runs, dst, order.drop_last()),
            s,
            r.0 as int,
            r.1 as int,
            chunk_data(ds, source, *s[r.0 as int].chunk)->Ok_0,
            ds.dsize as int,
        )
    }
}

/// Copying a run is copying its slices.
proof fn lemma_run_is_slices<const D: usize>(
    ds: Dataset<'_, D>,
    source: Seq<u8>,
    s: Seq<ChunkSlice<'_, D>>,
    dst: Seq<u8>,
    order: Seq<int>,
    a: int,
    b: int,
    data: Seq<u8>,
)
    requires
        a <= b,
        forall|j: int| a <= j < b ==> #[trigger] slice_data(ds, source, s, j)->Ok_0 == data,
    ensures
        copied_run(
            copied_in_order(ds, source, s, dst, order),
            s,
            a,
            b,
            data,
            ds.dsize as int,
        ) == copied_in_order(ds, source, s, dst, order + span(a, b)),
    decreases b - a,
{
    let all = order + span(a, b);
    if a < b {
        lemma_run_is_slices(ds, source, s, dst, order, a, b - 1, data);
        assert(all.drop_last() =~= order + span(a, b - 1));
        assert(all.last() == b - 1);
        assert(slice_data(ds, source, s, b - 1)->Ok_0 == data);
    } else {
        assert(all =~= order);
    }
}

/// Copying runs is copying their slices.
proof fn lemma_runs_are_slices<const D: usize>(
    ds: Dataset<'_, D>,
    source: Seq<u8>,
    s: Seq<ChunkSlice<'_, D>>,
    runs: Seq<(usize, usize)>,
    dst: Seq<u8>,
    order: Seq<int>,
)
    requires
        are_runs(s, runs),
        forall|i: int| 0 <= i < order.len() ==> 0 <= #[trigger] order[i] < runs.len(),
    ensures
        runs_copied(ds, source, s, runs, dst, order) == copied_in_order(
            ds,
            source,
            s,
            dst,
            slices_of_runs(runs, order),
        ),
    decreases order.len(),
{
    if order.len() > 0 {
        let before = order.drop_last();
        assert forall|i: int| 0 <= i < before.len() implies 0 <= #[trigger] before[i]
            < runs.len() by {
            assert(before[i] == order[i]);
        }
        lemma_runs_are_slices(ds, source, s, runs, dst, before);
        let r = order[order.len() - 1];
        assert(run_follows(runs, r));
        let a = runs[r].0 as int;
        let b = runs[r].1 as int;
        let data = chunk_data(ds, source, *s[a].chunk)->Ok_0;
        assert forall|j: int| a <= j < b implies #[trigger] slice_data(ds, source, s, j)->Ok_0
            == data by {
            assert(run_head(s, j) == runs[r].0);
        }
        lemma_run_is_slices(ds, source, s, dst, slices_of_runs(runs, before), a, b, data);
    }
}

/// The run that slice `a` is in.
proof fn lemma_run_of<const D: usize>(
    s: Seq<ChunkSlice<'_, D>>,
    runs: Seq<(usize, usize)>,
    a: int,
    n: int,
) -> (r: int)
    requires
        are_runs(s, runs),
        0 < n <= runs.len(),
        0 <= a < runs[n - 1].1,
    ensures
        0 <= r < n,
        runs[r].0 <= a < runs[r].1,
    decreases n,
{
    assert(run_follows(runs, n - 1));
    if a >= runs[n - 1].0 {
        n - 1
    } else {
        lemma_run_of(s, runs, a, n - 1)
    }
}

/// The slices of runs are slices, and those of a run in the order are among them.
proof fn lemma_slices_of_runs<const D: usize>(
    s: Seq<ChunkSlice<'_, D>>,
    runs: Seq<(usize, usize)>,
    order: Seq<int>,
)
    requires
        are_runs(s, runs),
        forall|i: int| 0 <= i < order.len() ==> 0 <= #[trigger] order[i] < runs.len(),
    ensures
        forall|i: int|
            0 <= i < slices_of_runs(runs, order).len() ==> 0 <= #[trigger] slices_of_runs(
                runs,
                order,
            )[i] < s.len(),
        forall|r: int, a: int|
            #[trigger] order.contains(r) && runs[r].0 <= a < runs[r].1
                ==> #[trigger] slices_of_runs(runs, order).contains(a),
    decreases order.len(),
{
    if order.len() > 0 {
        let before = order.drop_last();
        assert forall|i: int| 0 <= i < before.len() implies 0 <= #[trigger] before[i]
            < runs.len() by {
            assert(before[i] == order[i]);
        }
        lemma_slices_of_runs(s, runs, before);
        let l = order[order.len() - 1];
        let head = slices_of_runs(runs, before);
        let tail = span(runs[l].0 as int, runs[l].1 as int);
        let all = slices_of_runs(runs, order);
        assert(run_follows(runs, l));
        lemma_runs_inside(s, runs, l);
        assert forall|i: int| 0 <= i < all.len() implies 0 <= #[trigger] all[i] < s.len() by {
            if i < head.len() {
                assert(all[i] == head[i]);
            } else {
                assert(all[i] == tail[i - head.len()]);
            }
        }
        assert forall|r: int, a: int|
            #[trigger] order.contains(r) && runs[r].0 <= a
                < runs[r].1 implies #[trigger] all.contains(a) by {
            let i = choose|i: int| 0 <= i < order.len() && order[i] == r;
            if i < before.len() {
                assert(before[i] == r);
                assert(before.contains(r));
                assert(head.contains(a));
                let j = choose|j: int| 0 <= j < head.len() && head[j] == a;
                assert(all[j] == a);
            } else {
                assert(tail[a - runs[l].0] == a);
                assert(all[head.len() + (a - runs[l].0)] == a);
            }
        }
    }
}

/// The order in which runs are copied does not matter: copying each of them once or more, out of
/// the chunk that was fetched for it, puts the selected elements into the destination.
pub proof fn lemma_runs_in_any_order<const D: usize>(
    ds: Dataset<'_, D>,
    source: Seq<u8>,
    sel: Region,
    s: Seq<ChunkSlice<'_, D>>,
    runs: Seq<(usize, usize)>,
    dst: Seq<u8>,
    order: Seq<int>,
)
    requires
        ds.valid(),
        sel.inside(ds.shape@),
        ds.slices_make_up(sel, s),
        are_runs(s, runs),
        forall|i: int| 0 <= i < order.len() ==> 0 <= #[trigger] order[i] < runs.len(),
        forall|r: int| 0 <= r < runs.len() ==> #[trigger] order.contains(r),
    ensures
        selection_copied(ds, source, sel, dst, runs_copied(ds, source, s, runs, dst, order)),
{
    let all = slices_of_runs(runs, order);
    lemma_runs_are_slices(ds, source, s, runs, dst, order);
    lemma_slices_of_runs(s, runs, order);
    assert forall|a: int| 0 <= a < s.len() implies #[trigger] all.contains(a) by {
        let r = lemma_run_of(s, runs, a, runs.len() as int);
        assert(order.contains(r));
    }
    lemma_any_order(ds, source, sel, s, dst, all);
    lemma_read_selection(ds, source, sel, s, dst);
}

/// Runs followed by one more.
proof fn lemma_runs_pushed(runs: Seq<(usize, usize)>, next: (usize, usize))
    requires
        forall|r: int| 0 <= r < runs.len() ==> #[trigger] run_follows(runs, r),
        next.0 < next.1,
        next.0 == if runs.len() == 0 {
            0
        } else {
            runs.last().1
        },
    ensures
        forall|r: int|
            0 <= r < runs.push(next).len() ==> #[trigger] run_follows(runs.push(next), r),
{
    assert forall|r: int| 0 <= r < runs.push(next).len() implies #[trigger] run_follows(
        runs.push(next),
        r,
    ) by {
        if r < runs.len() {
            assert(run_follows(runs, r));
        }
    }
}

/// The runs of slices at one address.
pub fn chunk_runs<const D: usize>(s: &[ChunkSlice<'_, D>]) -> (runs: Vec<(usize, usize)>)
    ensures
        are_runs(s@, runs@),
{
    let mut runs: Vec<(usize, usize)> = Vec::new();
    let n = s.len();
    let mut from: usize = 0;
    let mut j: usize = 0;
    while j < n
        invariant
            n == s@.len(),
            from <= j <= n,
            j > 0 ==> from < j,
            from == if runs@.len() == 0 {
                0
            } else {
                runs@.last().1
            },
            forall|r: int| 0 <= r < runs@.len() ==> #[trigger] run_follows(runs@, r),
            forall|r: int, i: int|
                0 <= r < runs@.len() && runs@[r].0 <= i < runs@[r].1 ==> #[trigger] run_head(
                    s@,
                    i,
                ) == (#[trigger] runs@[r]).0,
            forall|i: int| from <= i < j ==> #[trigger] run_head(s@, i) == from,
        decreases n - j,
    {
        if j > from && s[j - 1].chunk.addr != s[j].chunk.addr {
            let ghost prev = runs@;
            runs.push((from, j));
            proof {
                lemma_runs_pushed(prev, (from, j));
            }
            from = j;
        }
        assert(run_head(s@, j as int) == from) by {
            if j > from {
                assert(run_head(s@, j - 1) == from);
            }
        }
        j = j + 1;
    }
    if n > 0 {
        let ghost prev = runs@;
        runs.push((from, n));
        proof {
            lemma_runs_pushed(prev, (from, n));
        }
    }
    runs
}

/// Copies one slice of elements of `dsz` bytes.
pub(crate) fn copy_slice<const D: usize>(
    e: &ChunkSlice<'_, D>,
    data: &[u8],
    dst: &mut [u8],
    dsz: usize,
)
    requires
        e.start <= e.end,
        e.end * dsz <= data@.len(),
        (e.current + (e.end - e.start)) * dsz <= old(dst)@.len(),
    ensures
        final(dst)@ == copied(old(dst)@, *e, data@, dsz as int),
{
    if dsz == 0 {
        proof {
            assert(e.current * 0 == 0 && (e.current + (e.end - e.start)) * 0 == 0);
            assert(dst@ =~= copied(old(dst)@, *e, data@, 0));
        }
        return ;
    }
    let ghost before = dst@;
    let ghost z = dsz as int;
    assert(data@.len() == data.len());
    assert(dst@.len() == dst.len());
    proof {
        assert(e.start * z <= e.end * z && e.start <= e.start * z && e.end <= e.end * z)
            by (nonlinear_arith)
            requires
                z >= 1,
                0 <= e.start <= e.end,
        ;
        assert(e.current * z <= (e.current + (e.end - e.start)) * z && e.current <= e.current * z
            && (e.current + (e.end - e.start)) * z - e.current * z == e.end * z - e.start * z)
            by (nonlinear_arith)
            requires
                z >= 1,
                0 <= e.current,
                0 <= e.start <= e.end,
        ;
    }
    let start = e.start as usize * dsz;
    let end = e.end as usize * dsz;
    let current = e.current as usize * dsz;
    let mut i: usize = 0;
    while i < end - start
        invariant
            start <= end <= data@.len(),
            dst@.len() == before.len(),
            current + (end - start) <= before.len(),
            before.len() <= usize::MAX,
            i <= end - start,
            forall|p: int|
                0 <= p < before.len() ==> #[trigger] dst@[p] == if current <= p < current + i {
                    data@[start + (p - current)]
                } else {
                    before[p]
                },
        decreases end - start - i,
    {
        dst[current + i] = data[start + i];
        i = i + 1;
    }
    assert(dst@ =~= copied(before, *e, data@, z));
}

/// A run lies within the slices.
pub(crate) proof fn lemma_runs_inside<const D: usize>(
    s: Seq<ChunkSlice<'_, D>>,
    runs: Seq<(usize, usize)>,
    r: int,
)
    requires
        are_runs(s, runs),
        0 <= r < runs.len(),
    ensures
        runs[r].0 < runs[r].1 <= s.len(),
    decreases runs.len() - r,
{
    assert(run_follows(runs, r));
    if r + 1 < runs.len() {
        lemma_runs_inside(s, runs, r + 1);
        assert(run_follows(runs, r + 1));
    }
}

/// The number of bytes of a selection, where it is at most `capacity`.
fn selected_bytes<const D: usize>(ds: &Dataset<'_, D>, sel: &Selection, capacity: usize) -> (r:
    Option<usize>)
    requires
        ds.valid(),
        sel@.inside(ds.shape@),
    ensures
        match r {
            Some(b) => b == product(sel@.counts) * ds.dsize && b <= capacity,
            None => product(sel@.counts) * ds.dsize > capacity,
        },
{
    proof {
        lemma_selection_fits(*ds, sel@);
    }
    match count(sel.counts.as_slice()).checked_mul(ds.dsize as u64) {
        Some(b) => if b <= capacity as u64 {
            Some(b as usize)
        } else {
            None
        },
        None => None,
    }
}

/// A selection has no more elements than the dataset.
proof fn lemma_selection_fits<const D: usize>(ds: Dataset<'_, D>, sel: Region)
    requires
        ds.valid(),
        sel.inside(ds.shape@),
    ensures
        0 <= product(sel.counts) <= u64::MAX,
{
    assert forall|i: int| 0 <= i < D implies #[trigger] sel.counts[i] <= ds.shape@[i] by {
        assert(sel.start[i] + sel.counts[i] <= ds.shape@[i]);
    }
    lemma_product_within(sel.counts, ds.shape@);
    lemma_product_nonnegative(sel.counts);
}

/// A read of a dataset: the slices of chunks to read, in runs of slices at one address.
pub struct ReadPlan<'a, const D: usize> {
    ds: &'a Dataset<'a, D>,
    sel: Selection,
    slices: Vec<ChunkSlice<'a, D>>,
    runs: Vec<(usize, usize)>,
    bytes: usize,
}

impl<'a, const D: usize> ReadPlan<'a, D> {
    /// The dataset to read.
    pub closed spec fn dataset(&self) -> Dataset<'a, D> {
        *self.ds
    }

    /// The selection of the dataset to read.
    pub closed spec fn selection(&self) -> Region {
        self.sel@
    }

    /// The slices of chunks that make up the selection.
    pub closed spec fn slices(&self) -> Seq<ChunkSlice<'a, D>> {
        self.slices@
    }

    /// The runs of slices at one address.
    pub closed spec fn runs(&self) -> Seq<(usize, usize)> {
        self.runs@
    }

    #[verifier::type_invariant]
    spec fn wf(&self) -> bool {
        &&& self.ds.valid()
        &&& self.sel@.inside(self.ds.shape@)
        &&& self.ds.slices_make_up(self.sel@, self.slices@)
        &&& are_runs(self.slices@, self.runs@)
        &&& self.bytes == product(self.sel@.counts) * self.ds.dsize
    }

    /// What every plan keeps: its slices make up the selection, and its runs are those of the
    /// slices.
    pub open spec fn consistent(&self) -> bool {
        &&& self.dataset().valid()
        &&& self.selection().inside(self.dataset().shape@)
        &&& self.dataset().slices_make_up(self.selection(), self.slices())
        &&& are_runs(self.slices(), self.runs())
        &&& product(self.selection().counts) * self.dataset().dsize <= usize::MAX
    }

    /// Plans the read of `extents` of a dataset into a destination of `capacity` bytes.
    pub fn new(ds: &'a Dataset<'a, D>, extents: &Extents, capacity: usize) -> (r: Result<
        ReadPlan<'a, D>,
        ReadError,
    >)
        requires
            ds.valid(),
        ensures
            match r {
                Ok(p) => {
                    &&& p.consistent()
                    &&& p.dataset() == *ds
                    &&& extents.refusal(ds.shape@) is None
                    &&& p.selection() == extents.region(ds.shape@)
                    &&& product(p.selection().counts) * ds.dsize <= capacity
                },
                Err(ReadError::Extents(e)) => extents.refusal(ds.shape@) == Some(e),
                Err(ReadError::InsufficientCapacity) => {
                    &&& extents.refusal(ds.shape@) is None
                    &&& product(extents.region(ds.shape@).counts) * ds.dsize > capacity
                },
                Err(_) => false,
            },
    {
        let sel = match extents.resolve(ds.shape.as_slice()) {
            Ok(s) => s,
            Err(e) => {
                return Err(ReadError::Extents(e));
            },
        };
        let bytes = match selected_bytes(ds, &sel, capacity) {
            Some(b) => b,
            None => {
                return Err(ReadError::InsufficientCapacity);
            },
        };
        let slices = ds.group_chunk_slices(&sel);
        let runs = chunk_runs(slices.as_slice());
        Ok(ReadPlan { ds, sel, slices, runs, bytes })
    }

    /// The slices of chunks that make up the selection, in the order in which they are read.
    pub fn as_slices(&self) -> (r: &[ChunkSlice<'a, D>])
        ensures
            r@ == self.slices(),
            self.consistent(),
    {
        proof {
            use_type_invariant(self);
        }
        self.slices.as_slice()
    }

    /// The number of bytes that are read.
    pub fn bytes(&self) -> (r: usize)
        ensures
            r == product(self.selection().counts) * self.dataset().dsize,
            self.consistent(),
    {
        proof {
            use_type_invariant(self);
        }
        self.bytes
    }

    /// The number of chunks to fetch, one for each run.
    pub fn len(&self) -> (r: usize)
        ensures
            r == self.runs().len(),
            self.consistent(),
    {
        proof {
            use_type_invariant(self);
        }
        self.runs.len()
    }

    /// The chunk to fetch for run `r`.
    pub fn chunk(&self, r: usize) -> (c: &'a Chunk<D>)
        requires
            r < self.runs().len(),
        ensures
            *c == *self.slices()[self.runs()[r as int].0 as int].chunk,
            self.consistent(),
            self.dataset().chunks@.contains(*c),
    {
        proof {
            use_type_invariant(self);
            lemma_runs_inside(self.slices@, self.runs@, r as int);
            let j = self.runs@[r as int].0 as int;
            let k = lemma_in_table(*self.ds, self.sel@, self.slices@, j);
            assert(self.ds.chunks@[k] == self.ds.chunks@[k]);
        }
        self.slices[self.runs[r].0].chunk
    }

    /// Decodes a fetched chunk.
    pub fn decode(&self, chunk: Vec<u8>) -> (r: Result<Vec<u8>, ReadError>)
        ensures
            match r {
                Ok(v) => decoded(
                    chunk@,
                    self.dataset().chunk_bytes(),
                    self.dataset().dsize as u64,
                    self.dataset().gzip is Some,
                    self.dataset().shuffle,
                ) == Some(v@),
                Err(e) => {
                    &&& e == ReadError::Decompress
                    &&& decoded(
                        chunk@,
                        self.dataset().chunk_bytes(),
                        self.dataset().dsize as u64,
                        self.dataset().gzip is Some,
                        self.dataset().shuffle,
                    ) is None
                },
            },
            r matches Ok(v) ==> v@.len() == if self.dataset().gzip is Some {
                self.dataset().chunk_bytes() as nat
            } else {
                chunk@.len()
            },
    {
        proof {
            use_type_invariant(self);
        }
        let chunk_sz = self.ds.decoded_size();
        decode_chunk(chunk, chunk_sz, self.ds.dsize as u64, self.ds.gzip.is_some(), self.ds.shuffle)
    }

    /// Copies the slices of run `r` out of its decoded chunk.
    pub fn copy_run(&self, r: usize, chunk: &[u8], dst: &mut [u8])
        requires
            r < self.runs().len(),
            self.dataset().chunk_bytes() <= chunk@.len(),
            product(self.selection().counts) * self.dataset().dsize <= old(dst)@.len(),
        ensures
            final(dst)@ == copied_run(
                old(dst)@,
                self.slices(),
                self.runs()[r as int].0 as int,
                self.runs()[r as int].1 as int,
                chunk@,
                self.dataset().dsize as int,
            ),
            final(dst)@.len() == old(dst)@.len(),
            self.consistent(),
    {
        proof {
            use_type_invariant(self);
            lemma_runs_inside(self.slices@, self.runs@, r as int);
        }
        let (from, to) = self.runs[r];
        let dsz = self.ds.dsize;
        let ghost s = self.slices@;
        let ghost ds = *self.ds;
        let ghost before = dst@;
        let mut j: usize = from;
        while j < to
            invariant
                s == self.slices@,
                ds == *self.ds,
                ds.valid(),
                dsz == ds.dsize,
                ds.slices_make_up(self.sel@, s),
                from <= j <= to <= s.len(),
                ds.chunk_bytes() <= chunk@.len(),
                product(self.sel@.counts) * dsz <= before.len(),
                dst@.len() == before.len(),
                dst@ == copied_run(before, s, from as int, j as int, chunk@, dsz as int),
            decreases to - j,
        {
            proof {
                let e = s[j as int];
                let z = dsz as int;
                assert(ds.slice_in_bounds(self.sel@, e));
                vstd::arithmetic::mul::lemma_mul_inequality(
                    e.end as int,
                    product(ds.chunk_shape@),
                    z,
                );
                vstd::arithmetic::mul::lemma_mul_inequality(
                    e.current + (e.end - e.start),
                    product(self.sel@.counts),
                    z,
                );
            }
            copy_slice(&self.slices[j], chunk, dst, dsz);
            j = j + 1;
        }
    }
}

} // verus!

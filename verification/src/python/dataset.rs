//! A dataset as it is offered to Python: as an array that is read by slices.
use super::index::{dataset_in, find_group, name_text};
use super::s3::S3Source;
use crate::extent::{Extent, Extents};
use crate::idx::any::DatasetD;
use crate::idx::dataset::{Datatype, Order};
use crate::idx::index::Index as FileIndex;
use crate::layout::{checked_count, product};
use crate::text::{decimal, to_decimal};
use vstd::prelude::*;

verus! {

/// A dataset of an index: its name, and that of its group where one was given.
pub struct Dataset<'i, 'a> {
    idx: &'i FileIndex<'a>,
    group: Option<String>,
    ds: String,
    s3: Option<S3Source>,
}

/// A slice along one dimension, resolved against its length.
#[derive(Clone, Copy, Debug, PartialEq, Eq, Structural)]
pub struct SliceIndices {
    pub start: isize,
    pub stop: isize,
    pub step: isize,
}

impl SliceIndices {
    /// The slice of the one element that an index stands for, before it is resolved.
    pub fn of_index(index: isize) -> (r: SliceIndices)
        requires
            index < isize::MAX,
        ensures
            r == (SliceIndices { start: index, stop: (index + 1) as isize, step: 1 }),
    {
        SliceIndices { start: index, stop: index + 1, step: 1 }
    }
}

/// The type of the elements of an array.
#[derive(Clone, Copy, Debug, PartialEq, Eq, Structural)]
pub enum ElementType {
    U8,
    U16,
    U32,
    U64,
    I8,
    I16,
    I32,
    I64,
    F32,
    F64,
}

/// The type of array elements for a datatype, where there is one.
pub open spec fn element_for(t: Datatype) -> Option<ElementType> {
    match t {
        Datatype::UInt(1) => Some(ElementType::U8),
        Datatype::UInt(2) => Some(ElementType::U16),
        Datatype::UInt(4) => Some(ElementType::U32),
        Datatype::UInt(8) => Some(ElementType::U64),
        Datatype::Int(1) => Some(ElementType::I8),
        Datatype::Int(2) => Some(ElementType::I16),
        Datatype::Int(4) => Some(ElementType::I32),
        Datatype::Int(8) => Some(ElementType::I64),
        Datatype::Float(4) => Some(ElementType::F32),
        Datatype::Float(8) => Some(ElementType::F64),
        _ => None,
    }
}

/// The type of array elements for a datatype, where there is one.
pub fn element_type(t: Datatype) -> (r: Option<ElementType>)
    ensures
        r == element_for(t),
{
    match t {
        Datatype::UInt(sz) if sz == 1 => Some(ElementType::U8),
        Datatype::UInt(sz) if sz == 2 => Some(ElementType::U16),
        Datatype::UInt(sz) if sz == 4 => Some(ElementType::U32),
        Datatype::UInt(sz) if sz == 8 => Some(ElementType::U64),
        Datatype::Int(sz) if sz == 1 => Some(ElementType::I8),
        Datatype::Int(sz) if sz == 2 => Some(ElementType::I16),
        Datatype::Int(sz) if sz == 4 => Some(ElementType::I32),
        Datatype::Int(sz) if sz == 8 => Some(ElementType::I64),
        Datatype::Float(sz) if sz == 4 => Some(ElementType::F32),
        Datatype::Float(sz) if sz == 8 => Some(ElementType::F64),
        _ => None,
    }
}

/// A signed number as an unsigned one of 64 bits, wrapped around where it is negative.
pub open spec fn wrapped(n: int) -> int {
    if n >= 0 {
        n
    } else {
        n + 0x1_0000_0000_0000_0000
    }
}

/// The range that a slice selects.
pub open spec fn slice_extent(s: SliceIndices) -> Extent {
    Extent { start: wrapped(s.start as int) as u64, count: wrapped(s.stop - s.start) as u64 }
}

/// The ranges that slices along the leading dimensions select, in a dataset of this shape:
/// slices beyond the rank are dropped, and dimensions without a slice are selected whole.
pub open spec fn selected(slices: Seq<SliceIndices>, shape: Seq<u64>) -> Seq<Extent> {
    Seq::new(
        shape.len(),
        |i: int|
            if i < slices.len() {
                slice_extent(slices[i])
            } else {
                Extent { start: 0, count: shape[i] }
            },
    )
}

/// Whether none of the slices along the dimensions of a dataset of this rank skips elements.
pub open spec fn contiguous(slices: Seq<SliceIndices>, rank: nat) -> bool {
    forall|i: int| 0 <= i < slices.len() && i < rank ==> (#[trigger] slices[i]).step == 1
}

/// Whether none of the slices along the dimensions of a dataset of this rank skips elements:
/// strides are not supported.
pub fn strides_supported(slices: &[SliceIndices], rank: usize) -> (r: bool)
    ensures
        r == contiguous(slices@, rank as nat),
        r <==> forall|i: int|
            0 <= i < slices@.len() && i < rank ==> (#[trigger] slices@[i]).step == 1,
{
    for i in 0..slices.len()
        invariant
            forall|j: int| 0 <= j < i && j < rank ==> (#[trigger] slices@[j]).step == 1,
    {
        if i < rank && slices[i].step != 1 {
            return false;
        }
    }
    true
}

/// A signed number as an unsigned one of 64 bits, wrapped around where it is negative.
fn wrap(n: i128) -> (r: u64)
    requires
        -0x1_0000_0000_0000_0000 <= n < 0x1_0000_0000_0000_0000,
    ensures
        r == wrapped(n as int),
{
    if n >= 0 {
        n as u64
    } else {
        (n + 0x1_0000_0000_0000_0000) as u64
    }
}

/// A slice selects what it says: along a dimension with a slice the coordinates from its start up
/// to its stop, along any other dimension all. There is one range for each dimension.
pub proof fn lemma_selected(slices: Seq<SliceIndices>, shape: Seq<u64>, i: int, x: int)
    requires
        0 <= i < shape.len(),
    ensures
        selected(slices, shape).len() == shape.len(),
        i < slices.len() && 0 <= slices[i].start <= slices[i].stop ==> {
            let e = selected(slices, shape)[i];
            &&& e.start == slices[i].start
            &&& e.start + e.count == slices[i].stop
            &&& e.start <= x < e.start + e.count <==> slices[i].start <= x < slices[i].stop
        },
        i >= slices.len() ==> {
            let e = selected(slices, shape)[i];
            e.start <= x < e.start + e.count <==> 0 <= x < shape[i]
        },
{
}

/// Slices that reach before the first element, or that end before they start, are counted modulo
/// the number of unsigned numbers of 64 bits.
pub proof fn lemma_selected_modulo(slices: Seq<SliceIndices>, shape: Seq<u64>, i: int)
    requires
        0 <= i < shape.len(),
        i < slices.len(),
    ensures
        ({
            let e = selected(slices, shape)[i];
            &&& (e.start - slices[i].start) % 0x1_0000_0000_0000_0000 == 0
            &&& (e.start + e.count - slices[i].stop) % 0x1_0000_0000_0000_0000 == 0
        }),
{
}

/// Slices beyond the dimensions of a dataset do not matter.
pub proof fn lemma_selected_surplus(slices: Seq<SliceIndices>, shape: Seq<u64>)
    requires
        slices.len() >= shape.len(),
    ensures
        selected(slices, shape) == selected(slices.take(shape.len() as int), shape),
        contiguous(slices, shape.len()) == contiguous(
            slices.take(shape.len() as int),
            shape.len(),
        ),
{
    let t = slices.take(shape.len() as int);
    assert(selected(slices, shape) =~= selected(t, shape));
    if contiguous(slices, shape.len()) {
        assert forall|i: int| 0 <= i < t.len() && i < shape.len() implies (
        #[trigger] t[i]).step == 1 by {
            assert(slices[i] == t[i]);
        }
    }
    if contiguous(t, shape.len()) {
        assert forall|i: int| 0 <= i < slices.len() && i < shape.len() implies (
        #[trigger] slices[i]).step == 1 by {
            assert(slices[i] == t[i]);
        }
    }
}

/// The ranges that slices along the leading dimensions select, in a dataset of this shape. If
/// there are fewer slices than dimensions, they are extended by the full dimension.
pub fn select(slices: &[SliceIndices], shape: &[u64]) -> (r: Vec<Extent>)
    requires
        contiguous(slices@, shape@.len()),
    ensures
        r@ == selected(slices@, shape@),
        r@.len() == shape@.len(),
        forall|i: int|
            0 <= i < shape@.len() && i < slices@.len() && 0 <= slices@[i].start <= slices@[i].stop
                ==> (#[trigger] r@[i]).start == slices@[i].start && r@[i].start + r@[i].count
                == slices@[i].stop,
        forall|i: int|
            slices@.len() <= i < shape@.len() ==> (#[trigger] r@[i]).start == 0 && r@[i].count
                == shape@[i],
{
    let mut r: Vec<Extent> = Vec::new();
    for i in 0..shape.len()
        invariant
            r@ =~= selected(slices@, shape@).take(i as int),
    {
        if i < slices.len() {
            let s = slices[i];
            let start = wrap(s.start as i128);
            let count = wrap(s.stop as i128 - s.start as i128);
            r.push(Extent { start, count });
        } else {
            r.push(Extent { start: 0, count: shape[i] });
        }
    }
    assert(selected(slices@, shape@).take(shape@.len() as int) =~= selected(slices@, shape@));
    r
}

/// The lengths that are more than one.
pub open spec fn long_dims(counts: Seq<u64>) -> Seq<usize> {
    counts.map_values(|n: u64| n as usize).filter(|n: usize| n > 1)
}

/// The shape of the array for a selection: dimensions of one element are dropped, but for one
/// where nothing else is left.
pub open spec fn array_shape(counts: Seq<u64>) -> Seq<usize> {
    if long_dims(counts).len() == 0 {
        seq![1usize]
    } else {
        long_dims(counts)
    }
}

/// The number of elements of an array of this shape.
pub open spec fn elements(dims: Seq<usize>) -> int
    decreases dims.len(),
{
    if dims.len() == 0 {
        1
    } else {
        dims[0] * elements(dims.drop_first())
    }
}

/// The array for a selection that is nowhere empty has as many elements as the selection.
pub proof fn lemma_array_elements(counts: Seq<u64>)
    requires
        forall|i: int| 0 <= i < counts.len() ==> 0 < #[trigger] counts[i] <= usize::MAX,
    ensures
        elements(array_shape(counts)) == product(counts),
{
    lemma_long_elements(counts);
    if long_dims(counts).len() == 0 {
        let one = seq![1usize];
        assert(one.drop_first() =~= Seq::empty());
        assert(elements(one.drop_first()) == 1);
    }
}

/// Dropping dimensions of one element does not change the number of elements.
proof fn lemma_long_elements(counts: Seq<u64>)
    requires
        forall|i: int| 0 <= i < counts.len() ==> 0 < #[trigger] counts[i] <= usize::MAX,
    ensures
        elements(long_dims(counts)) == product(counts),
    decreases counts.len(),
{
    let f = |n: u64| n as usize;
    let p = |n: usize| n > 1;
    if counts.len() > 0 {
        let rest = counts.drop_first();
        assert forall|i: int| 0 <= i < rest.len() implies 0 < #[trigger] rest[i] <= usize::MAX by {
            assert(rest[i] == counts[i + 1]);
        }
        lemma_long_elements(rest);
        let head = seq![counts[0] as usize];
        assert(counts.map_values(f) =~= head + rest.map_values(f));
        Seq::filter_distributes_over_add(head, rest.map_values(f), p);
        assert(0 < counts[0] <= usize::MAX);
        reveal(Seq::filter);
        assert(head.drop_last() =~= Seq::empty());
        assert(head.drop_last().filter(p) =~= Seq::empty());
        if counts[0] > 1 {
            assert(head.filter(p) =~= head);
            assert(long_dims(counts) =~= head + long_dims(rest));
            assert(long_dims(counts).drop_first() =~= long_dims(rest));
        } else {
            assert(head.filter(p) =~= Seq::empty());
            assert(long_dims(counts) =~= long_dims(rest));
            assert(product(counts) == 1 * product(rest));
        }
    } else {
        reveal(Seq::filter);
        assert(counts.map_values(f) =~= Seq::empty());
        assert(long_dims(counts) =~= Seq::empty());
    }
}

/// The array for a selection has the lengths of the selection, in order, without those of one
/// element or none, wherever these stand; where no other is left it has one element.
pub proof fn lemma_array_shape(a: Seq<u64>, n: u64, b: Seq<u64>)
    requires
        forall|i: int| 0 <= i < a.len() ==> #[trigger] a[i] <= usize::MAX,
    ensures
        array_shape(Seq::empty()) == seq![1usize],
        n <= 1 ==> array_shape(a + seq![n] + b) == array_shape(a + b),
        (forall|i: int| 0 <= i < a.len() ==> #[trigger] a[i] > 1) && a.len() > 0 ==> array_shape(a)
            == Seq::new(a.len(), |i: int| a[i] as usize),
{
    lemma_long_dims_joined(a, b);
    lemma_long_dims_joined(a, seq![n]);
    lemma_long_dims_joined(a + seq![n], b);
    lemma_long_dims_of_one(n);
    reveal(Seq::filter);
    assert(Seq::<u64>::empty().map_values(|n: u64| n as usize) =~= Seq::empty());
    if n <= 1 {
        assert(long_dims(a) + Seq::empty() =~= long_dims(a));
    }
    if forall|i: int| 0 <= i < a.len() ==> #[trigger] a[i] > 1 {
        lemma_all_long(a);
    }
}

/// The lengths of two parts of a selection are those of the one and those of the other.
proof fn lemma_long_dims_joined(a: Seq<u64>, b: Seq<u64>)
    ensures
        long_dims(a + b) == long_dims(a) + long_dims(b),
{
    let f = |n: u64| n as usize;
    assert((a + b).map_values(f) =~= a.map_values(f) + b.map_values(f));
    Seq::filter_distributes_over_add(a.map_values(f), b.map_values(f), |n: usize| n > 1);
}

/// A single length stays where it is more than one.
proof fn lemma_long_dims_of_one(n: u64)
    ensures
        n <= 1 ==> long_dims(seq![n]) == Seq::<usize>::empty(),
        1 < n <= usize::MAX ==> long_dims(seq![n]) == seq![n as usize],
{
    reveal(Seq::filter);
    let m = seq![n].map_values(|n: u64| n as usize);
    assert(m =~= seq![n as usize]);
    assert(m.drop_last() =~= Seq::empty());
    assert(m.drop_last().filter(|n: usize| n > 1) =~= Seq::empty());
    assert(m.filter(|n: usize| n > 1) =~= if n as usize > 1 {
        seq![n as usize]
    } else {
        Seq::empty()
    });
}

/// Lengths that are all more than one all stay.
proof fn lemma_all_long(a: Seq<u64>)
    requires
        forall|i: int| 0 <= i < a.len() ==> 1 < #[trigger] a[i] <= usize::MAX,
    ensures
        long_dims(a) == Seq::new(a.len(), |i: int| a[i] as usize),
    decreases a.len(),
{
    if a.len() == 0 {
        reveal(Seq::filter);
        assert(a.map_values(|n: u64| n as usize) =~= Seq::empty());
        assert(long_dims(a) =~= Seq::new(a.len(), |i: int| a[i] as usize));
    } else {
        let t = a.drop_last();
        assert forall|i: int| 0 <= i < t.len() implies 1 < #[trigger] t[i] <= usize::MAX by {
            assert(t[i] == a[i]);
        }
        lemma_all_long(t);
        assert(a =~= t + seq![a.last()]);
        lemma_long_dims_joined(t, seq![a.last()]);
        assert(1 < a[a.len() - 1] <= usize::MAX);
        lemma_long_dims_of_one(a.last());
        assert(long_dims(a) =~= Seq::new(a.len(), |i: int| a[i] as usize));
    }
}

/// Integers and floating-point numbers of the sizes that a machine has are arrays of numbers of
/// that kind and size; no other datatype has one.
pub proof fn lemma_element_types(n: usize)
    ensures
        element_for(Datatype::UInt(n)) == (if n == 1 {
            Some(ElementType::U8)
        } else if n == 2 {
            Some(ElementType::U16)
        } else if n == 4 {
            Some(ElementType::U32)
        } else if n == 8 {
            Some(ElementType::U64)
        } else {
            None
        }),
        element_for(Datatype::Int(n)) == (if n == 1 {
            Some(ElementType::I8)
        } else if n == 2 {
            Some(ElementType::I16)
        } else if n == 4 {
            Some(ElementType::I32)
        } else if n == 8 {
            Some(ElementType::I64)
        } else {
            None
        }),
        element_for(Datatype::Float(n)) == (if n == 4 {
            Some(ElementType::F32)
        } else if n == 8 {
            Some(ElementType::F64)
        } else {
            None
        }),
        element_for(Datatype::Custom(n)) is None,
{
}

/// The shape of the array for a selection of `counts` elements along each dimension.
pub fn array_dims(counts: &[u64]) -> (r: Vec<usize>)
    ensures
        r@ == array_shape(counts@),
{
    let ghost lengths = counts@.map_values(|n: u64| n as usize);
    let ghost long = |n: usize| n > 1;
    let mut dims: Vec<usize> = Vec::new();
    assert(lengths.take(0) =~= Seq::empty());
    for i in 0..counts.len()
        invariant
            lengths == counts@.map_values(|n: u64| n as usize),
            long == |n: usize| n > 1,
            dims@ == lengths.take(i as int).filter(long),
    {
        proof {
            reveal(Seq::filter);
            assert(lengths.take(i + 1).drop_last() =~= lengths.take(i as int));
            assert(lengths.take(i + 1).last() == counts@[i as int] as usize);
        }
        let n = #[verifier::truncate]
        (counts[i] as usize);
        if n > 1 {
            dims.push(n);
        }
    }
    assert(lengths.take(lengths.len() as int) =~= lengths);
    if dims.len() == 0 {
        dims.push(1);
        assert(dims@ =~= seq![1usize]);
    }
    dims
}

impl<'i, 'a> Dataset<'i, 'a> {
    /// The index that the dataset is in.
    pub closed spec fn index(&self) -> FileIndex<'a> {
        *self.idx
    }

    /// The name of its group, where one was given.
    pub closed spec fn group_name(&self) -> Option<Seq<char>> {
        match self.group {
            Some(g) => Some(g@),
            None => None,
        }
    }

    /// Its name in the group.
    pub closed spec fn name(&self) -> Seq<char> {
        self.ds@
    }

    /// The object that it is read from, where that is not the file that was indexed.
    pub closed spec fn source(&self) -> Option<S3Source> {
        self.s3
    }

    /// What the index has of the dataset.
    pub open spec fn found(&self) -> Option<DatasetD<'a>> {
        dataset_in(self.index(), self.group_name(), self.name())
    }

    #[verifier::type_invariant]
    spec fn wf(&self) -> bool {
        self.found() is Some
    }

    /// The dataset `s` of a group of an index (of the root group where there is no name), if
    /// there is one.
    pub fn find(idx: &'i FileIndex<'a>, s: &str, group: Option<&str>) -> (r: Option<
        Dataset<'i, 'a>,
    >)
        ensures
            match r {
                Some(d) => {
                    &&& dataset_in(*idx, name_text(group), s@) is Some
                    &&& d.index() == *idx
                    &&& d.group_name() == name_text(group)
                    &&& d.name() == s@
                    &&& d.source() is None
                },
                None => dataset_in(*idx, name_text(group), s@) is None,
            },
    {
        let found = match find_group(idx, group) {
            Some(g) => g.dataset(s).is_some(),
            None => false,
        };
        if found {
            let group = match group {
                Some(g) => Some(g.to_owned()),
                None => None,
            };
            Some(Dataset { idx, group, ds: s.to_owned(), s3: None })
        } else {
            None
        }
    }

    /// What the index has of the dataset.
    pub fn dataset(&self) -> (r: &'i DatasetD<'a>)
        ensures
            self.found() == Some(*r),
    {
        proof {
            use_type_invariant(self);
        }
        let group = match &self.group {
            Some(g) => Some(g.as_str()),
            None => None,
        };
        let g = find_group(self.idx, group).unwrap();
        g.dataset(self.ds.as_str()).unwrap()
    }

    /// The dataset in words.
    pub fn repr(&self) -> (r: String)
        ensures
            r@ == "Dataset (\""@ + self.name() + "\")"@,
    {
        let mut r = "Dataset (\"".to_owned();
        r.append(self.ds.as_str());
        r.append("\")");
        r
    }

    /// This dataset, read from the object `source` (which must hold the same file the index was
    /// built from) instead of the local indexed path.
    pub fn with_s3(&self, source: S3Source) -> (r: Dataset<'i, 'a>)
        ensures
            r.index() == self.index(),
            r.group_name() == self.group_name(),
            r.name() == self.name(),
            r.source() == Some(source),
    {
        proof {
            use_type_invariant(self);
        }
        let group = match &self.group {
            Some(g) => Some(g.clone()),
            None => None,
        };
        Dataset { idx: self.idx, group, ds: self.ds.clone(), s3: Some(source) }
    }

    /// The object that the dataset is read from, where that is not the file that was indexed.
    pub fn s3(&self) -> (r: Option<&S3Source>)
        ensures
            match r {
                Some(s) => self.source() == Some(*s),
                None => self.source() is None,
            },
    {
        match &self.s3 {
            Some(s) => Some(s),
            None => None,
        }
    }

    /// The number of elements.
    pub fn len(&self) -> (r: usize)
        requires
            self.found() matches Some(d) && product(d.dims()) <= usize::MAX,
        ensures
            self.found() matches Some(d) && r == product(d.dims()),
    {
        self.dataset().size()
    }

    /// The number of elements, where it can be counted.
    pub fn checked_len(&self) -> (r: Option<usize>)
        ensures
            self.found() matches Some(d) && (match r {
                Some(n) => n == product(d.dims()),
                None => product(d.dims()) > usize::MAX,
            }),
    {
        match checked_count(self.shape()) {
            Some(n) if n <= usize::MAX as u64 => Some(self.len()),
            _ => None,
        }
    }

    /// The shape of the dataset.
    pub fn shape(&self) -> (r: &'i [u64])
        ensures
            self.found() matches Some(d) && r@ == d.dims(),
    {
        self.dataset().shape()
    }

    /// The shape of the chunks.
    pub fn chunk_shape(&self) -> (r: &'i [u64])
        ensures
            self.found() matches Some(d) && r@ == d.chunk_dims(),
    {
        self.dataset().chunk_shape()
    }

    /// Numpy dtype string (e.g. "<f4").
    pub fn dtype(&self) -> (r: String)
        ensures
            self.found() matches Some(d) && r@ == dtype_text(d.byte_order(), d.datatype()),
    {
        let ds = self.dataset();
        dtype_string(ds.order(), ds.dtype())
    }

    /// The extents that slices along the leading dimensions select.
    pub fn extents(&self, slices: &[SliceIndices]) -> (r: Extents)
        requires
            self.found() matches Some(d) && contiguous(slices@, d.dims().len()),
        ensures
            self.found() matches Some(d) && r matches Extents::Ranges(v) && v@ == selected(
                slices@,
                d.dims(),
            ),
    {
        Extents::Ranges(select(slices, self.shape()))
    }
}

/// The character for a byte order.
pub open spec fn order_text(order: Order) -> Seq<char> {
    match order {
        Order::BE => ">"@,
        Order::LE => "<"@,
        Order::Unknown => "="@,
    }
}

/// The character for the kind of a datatype.
pub open spec fn kind_text(t: Datatype) -> Seq<char> {
    match t {
        Datatype::UInt(_) => "u"@,
        Datatype::Int(_) => "i"@,
        Datatype::Float(_) => "f"@,
        Datatype::Custom(_) => "V"@,
    }
}

/// The size in bytes of a datatype.
pub open spec fn type_size(t: Datatype) -> usize {
    match t {
        Datatype::UInt(n) | Datatype::Int(n) | Datatype::Float(n) | Datatype::Custom(n) => n,
    }
}

/// Numpy dtype string (e.g. "<f4").
pub open spec fn dtype_text(order: Order, t: Datatype) -> Seq<char> {
    order_text(order) + kind_text(t) + decimal(type_size(t) as nat)
}

/// Numpy dtype string (e.g. "<f4").
pub fn dtype_string(order: Order, t: Datatype) -> (r: String)
    ensures
        r@ == dtype_text(order, t),
{
    let mut r = match order {
        Order::BE => ">".to_owned(),
        Order::LE => "<".to_owned(),
        Order::Unknown => "=".to_owned(),
    };
    let (kind, size) = match t {
        Datatype::UInt(n) => ("u", n),
        Datatype::Int(n) => ("i", n),
        Datatype::Float(n) => ("f", n),
        Datatype::Custom(n) => ("V", n),
    };
    r.append(kind);
    r.append(to_decimal(size as u64).as_str());
    r
}

/// A dtype string is made of a character for the byte order, one for the kind, and the size in
/// bytes, from which each can be told.
pub proof fn lemma_dtype_text(order: Order, n: usize)
    ensures
        ({
            let o = match order {
                Order::BE => '>',
                Order::LE => '<',
                Order::Unknown => '=',
            };
            &&& dtype_text(order, Datatype::UInt(n)) == seq![o, 'u'] + decimal(n as nat)
            &&& dtype_text(order, Datatype::Int(n)) == seq![o, 'i'] + decimal(n as nat)
            &&& dtype_text(order, Datatype::Float(n)) == seq![o, 'f'] + decimal(n as nat)
            &&& dtype_text(order, Datatype::Custom(n)) == seq![o, 'V'] + decimal(n as nat)
        }),
{
    reveal_strlit(">");
    reveal_strlit("<");
    reveal_strlit("=");
    reveal_strlit("u");
    reveal_strlit("i");
    reveal_strlit("f");
    reveal_strlit("V");
    let o = match order {
        Order::BE => '>',
        Order::LE => '<',
        Order::Unknown => '=',
    };
    let d = decimal(n as nat);
    assert(dtype_text(order, Datatype::UInt(n)) =~= seq![o, 'u'] + d);
    assert(dtype_text(order, Datatype::Int(n)) =~= seq![o, 'i'] + d);
    assert(dtype_text(order, Datatype::Float(n)) =~= seq![o, 'f'] + d);
    assert(dtype_text(order, Datatype::Custom(n)) =~= seq![o, 'V'] + d);
}

} // verus!

//! Attribute and dimension metadata captured at index time.
//!
//! The indexer walks the object headers of a file anyway; capturing attributes and netCDF
//! dimension names there makes a serialized index self-contained, so that consumers need no
//! second metadata reader at open time.
use crate::names::NameMap;
use crate::text::{
    basename, decimal, lemma_decimal_differs, lemma_name_of_path, parts, same, texts, to_decimal,
};
use vstd::prelude::*;
use vstd::slice::slice_subrange;
use vstd::std_specs::cmp::{PartialEqSpec, PartialEqSpecImpl};
use vstd::utf8::{decode_utf8, valid_utf8};

verus! {

/// A single attribute value.
///
/// Numeric values are widened to the largest of their kind (64 bits) for storage, but each
/// variant also carries the source byte-width, so that the type in the file can be reconstructed
/// exactly. Floating-point values are stored as the bits of their 64-bit form, and compared as the
/// numbers that these stand for.
#[derive(Clone, Debug)]
pub enum AttributeValue {
    Str(String),
    Strs(Vec<String>),
    Int(i64, u8),
    Ints(Vec<i64>, u8),
    Uint(u64, u8),
    Uints(Vec<u64>, u8),
    Float(u64, u8),
    Floats(Vec<u64>, u8),
}

/// The magnitude of a 64-bit float: its bits without the sign.
pub open spec fn float_magnitude(bits: u64) -> int {
    bits as int % 0x8000_0000_0000_0000
}

/// Whether the bits of a 64-bit float stand for no number.
pub open spec fn float_is_nan(bits: u64) -> bool {
    float_magnitude(bits) > 0x7ff0_0000_0000_0000
}

/// Whether two 64-bit floats, given by their bits, are equal: what is no number is equal to
/// nothing, zeros are equal whatever their sign, and else the bits are the same.
pub open spec fn floats_equal(a: u64, b: u64) -> bool {
    &&& !float_is_nan(a)
    &&& !float_is_nan(b)
    &&& a == b || float_magnitude(a) == 0 && float_magnitude(b) == 0
}

/// Whether two lists of 64-bit floats, given by their bits, are equal.
pub open spec fn all_floats_equal(a: Seq<u64>, b: Seq<u64>) -> bool {
    &&& a.len() == b.len()
    &&& forall|i: int| 0 <= i < a.len() ==> floats_equal(#[trigger] a[i], b[i])
}

/// Whether two 64-bit floats, given by their bits, are equal.
fn same_float(a: u64, b: u64) -> (r: bool)
    ensures
        r == floats_equal(a, b),
{
    let x = a % 0x8000_0000_0000_0000;
    let y = b % 0x8000_0000_0000_0000;
    x <= 0x7ff0_0000_0000_0000 && y <= 0x7ff0_0000_0000_0000 && (a == b || x == 0 && y == 0)
}

/// Whether two lists of 64-bit floats, given by their bits, are equal.
fn same_floats(a: &[u64], b: &[u64]) -> (r: bool)
    ensures
        r == all_floats_equal(a@, b@),
{
    if a.len() != b.len() {
        return false;
    }
    for i in 0..a.len()
        invariant
            a@.len() == b@.len(),
            forall|j: int| 0 <= j < i ==> floats_equal(#[trigger] a@[j], b@[j]),
    {
        if !same_float(a[i], b[i]) {
            assert(!floats_equal(a@[i as int], b@[i as int]));
            return false;
        }
    }
    true
}

/// Whether two lists of strings are equal.
fn same_strings(a: &[String], b: &[String]) -> (r: bool)
    ensures
        r == (texts(a@) == texts(b@)),
{
    if a.len() != b.len() {
        assert(texts(a@).len() != texts(b@).len());
        return false;
    }
    for i in 0..a.len()
        invariant
            a@.len() == b@.len(),
            forall|j: int| 0 <= j < i ==> #[trigger] texts(a@)[j] == texts(b@)[j],
    {
        if !same(a[i].as_str(), b[i].as_str()) {
            assert(texts(a@)[i as int] != texts(b@)[i as int]);
            return false;
        }
    }
    assert(texts(a@) =~= texts(b@));
    true
}

impl PartialEq for AttributeValue {
    /// Whether two values are of the same kind and width, and equal.
    fn eq(&self, other: &AttributeValue) -> (r: bool) {
        match (self, other) {
            (AttributeValue::Str(a), AttributeValue::Str(b)) => same(a.as_str(), b.as_str()),
            (AttributeValue::Strs(a), AttributeValue::Strs(b)) => {
                same_strings(a.as_slice(), b.as_slice())
            },
            (AttributeValue::Int(a, w), AttributeValue::Int(b, x)) => *a == *b && *w == *x,
            (AttributeValue::Ints(a, w), AttributeValue::Ints(b, x)) => {
                let r = *a == *b;
                assert(r ==> a@ =~= b@);
                r && *w == *x
            },
            (AttributeValue::Uint(a, w), AttributeValue::Uint(b, x)) => *a == *b && *w == *x,
            (AttributeValue::Uints(a, w), AttributeValue::Uints(b, x)) => {
                let r = *a == *b;
                assert(r ==> a@ =~= b@);
                r && *w == *x
            },
            (AttributeValue::Float(a, w), AttributeValue::Float(b, x)) => {
                same_float(*a, *b) && *w == *x
            },
            (AttributeValue::Floats(a, w), AttributeValue::Floats(b, x)) => {
                same_floats(a.as_slice(), b.as_slice()) && *w == *x
            },
            _ => false,
        }
    }
}

impl PartialEqSpecImpl for AttributeValue {
    open spec fn obeys_eq_spec() -> bool {
        true
    }

    open spec fn eq_spec(&self, other: &AttributeValue) -> bool {
        match (*self, *other) {
            (AttributeValue::Str(a), AttributeValue::Str(b)) => a@ == b@,
            (AttributeValue::Strs(a), AttributeValue::Strs(b)) => texts(a@) == texts(b@),
            (AttributeValue::Int(a, w), AttributeValue::Int(b, x)) => a == b && w == x,
            (AttributeValue::Ints(a, w), AttributeValue::Ints(b, x)) => a@ == b@ && w == x,
            (AttributeValue::Uint(a, w), AttributeValue::Uint(b, x)) => a == b && w == x,
            (AttributeValue::Uints(a, w), AttributeValue::Uints(b, x)) => a@ == b@ && w == x,
            (AttributeValue::Float(a, w), AttributeValue::Float(b, x)) => {
                floats_equal(a, b) && w == x
            },
            (AttributeValue::Floats(a, w), AttributeValue::Floats(b, x)) => {
                all_floats_equal(a@, b@) && w == x
            },
            _ => false,
        }
    }
}

/// Attributes of a group or dataset, ordered for deterministic serialization.
pub type Attributes = NameMap<AttributeValue>;

/// Per-dataset metadata captured at index time.
#[derive(Clone, Debug, PartialEq)]
pub struct DatasetMeta {
    pub attributes: Attributes,
    pub dim_names: Vec<String>,
}

/// The type of the elements of an attribute in the file.
#[derive(Clone, Copy, Debug, PartialEq, Eq, Structural)]
pub enum TypeDescriptor {
    Integer,
    Unsigned,
    Float,
    Boolean,
    Enum,
    FixedAscii(usize),
    FixedUnicode(usize),
    VarLenAscii,
    VarLenUnicode,
    Other,
}

/// How the elements of an attribute are to be read.
#[derive(Clone, Copy, Debug, PartialEq, Eq, Structural)]
pub enum ReadAs {
    /// As signed integers of 64 bits.
    Ints,
    /// As unsigned integers of 64 bits.
    Uints,
    /// As floating-point numbers of 64 bits.
    Floats,
    /// As strings of so many bytes, padded with NULs.
    Fixed(usize),
    /// As ASCII strings of any length.
    Ascii,
    /// As Unicode strings of any length.
    Unicode,
}

/// The elements of an attribute as they were read.
#[derive(Debug)]
pub enum RawValues {
    Ints(Vec<i64>),
    Uints(Vec<u64>),
    /// The bits of the numbers.
    Floats(Vec<u64>),
    /// Strings of `len` bytes each, one after the other.
    Fixed { bytes: Vec<u8>, len: usize },
    Texts(Vec<String>),
}

/// An attribute of a group or dataset: its name, and its value, where it could be read.
#[derive(Debug)]
pub struct FoundAttribute {
    pub name: String,
    pub value: Option<AttributeValue>,
}

impl Default for DatasetMeta {
    /// No attributes and no dimensions.
    fn default() -> (r: DatasetMeta)
        ensures
            r.attributes@ == Map::<Seq<char>, AttributeValue>::empty(),
            r.dim_names@.len() == 0,
    {
        DatasetMeta { attributes: NameMap::new(), dim_names: Vec::new() }
    }
}

/// The text that bytes stand for, with what is not UTF-8 replaced.
pub uninterp spec fn lossy_text(bytes: Seq<u8>) -> Seq<char>;

/// The text that bytes stand for, by `String::from_utf8_lossy`.
///
/// Not proved: that the text depends on the bytes alone, and that it is the decoded bytes
/// where these are UTF-8. How other bytes are replaced is not said.
#[verifier::external_body]
fn text_lossy(bytes: &[u8]) -> (r: String)
    ensures
        r@ == lossy_text(bytes@),
        valid_utf8(bytes@) ==> r@ == decode_utf8(bytes@),
{
    String::from_utf8_lossy(bytes).into_owned()
}

/// Whether an attribute is internal to netCDF: it describes file structure rather than data
/// and is hidden from consumers.
pub open spec fn internal(name: Seq<char>) -> bool {
    ||| name == "DIMENSION_LIST"@
    ||| name == "REFERENCE_LIST"@
    ||| name == "CLASS"@
    ||| name == "NAME"@
    ||| name == "_Netcdf4Dimid"@
    ||| name == "_Netcdf4Coordinates"@
    ||| name == "_NCProperties"@
    ||| name == "_nc3_strict"@
}

/// Whether a single value is stored as a scalar: netCDF stores single-value attributes as
/// arrays of one element.
pub open spec fn scalar(count: usize, read: nat) -> bool {
    count <= 1 && read == 1
}

/// What is left of `b` without trailing NULs.
pub open spec fn trimmed_nuls(b: Seq<u8>) -> Seq<u8>
    decreases b.len(),
{
    if b.len() > 0 && b.last() == 0 {
        trimmed_nuls(b.drop_last())
    } else {
        b
    }
}

/// Element `i` of strings of `len` bytes each.
pub open spec fn fixed_element(b: Seq<u8>, len: usize, i: int) -> Seq<u8> {
    b.subrange(i * len, (i + 1) * len)
}

/// The texts of strings of `len` bytes each, without the NULs that pad them.
pub open spec fn fixed_texts(b: Seq<u8>, len: usize) -> Seq<Seq<char>> {
    Seq::new(
        b.len() / (len as nat),
        |i: int| lossy_text(trimmed_nuls(fixed_element(b, len, i))),
    )
}

/// Whether the texts of strings of `len` bytes each are their decoded bytes, for those that are
/// UTF-8.
pub open spec fn texts_decode(b: Seq<u8>, len: usize) -> bool {
    forall|j: int|
        0 <= j < b.len() / (len as nat) && valid_utf8(
            trimmed_nuls(#[trigger] fixed_element(b, len, j)),
        ) ==> fixed_texts(b, len)[j] == decode_utf8(trimmed_nuls(fixed_element(b, len, j)))
}

/// Whether `a` stands for the texts `t`.
pub open spec fn stands_for_texts(a: AttributeValue, t: Seq<Seq<char>>, count: usize) -> bool {
    match a {
        AttributeValue::Str(s) => scalar(count, t.len()) && s@ == t[0],
        AttributeValue::Strs(v) => !scalar(count, t.len()) && texts(v@) == t,
        _ => false,
    }
}

/// Whether `a` stands for `values`, elements of `size` bytes in the file that has `count` of
/// them.
pub open spec fn stands_for(
    a: AttributeValue,
    values: RawValues,
    size: usize,
    count: usize,
) -> bool {
    match values {
        RawValues::Ints(v) => a == if scalar(count, v@.len()) {
            AttributeValue::Int(v@[0], size as u8)
        } else {
            AttributeValue::Ints(v, size as u8)
        },
        RawValues::Uints(v) => a == if scalar(count, v@.len()) {
            AttributeValue::Uint(v@[0], size as u8)
        } else {
            AttributeValue::Uints(v, size as u8)
        },
        RawValues::Floats(v) => a == if scalar(count, v@.len()) {
            AttributeValue::Float(v@[0], size as u8)
        } else {
            AttributeValue::Floats(v, size as u8)
        },
        RawValues::Fixed { bytes, len } => stands_for_texts(a, fixed_texts(bytes@, len), count),
        RawValues::Texts(v) => stands_for_texts(a, texts(v@), count),
    }
}

impl RawValues {
    /// Whether fixed-length strings have a length.
    pub open spec fn valid(self) -> bool {
        self matches RawValues::Fixed { len, .. } ==> len > 0
    }
}

/// The attributes that are kept: those that are not internal and could be read, the last of a
/// name where there are several.
pub open spec fn kept_attributes(s: Seq<FoundAttribute>) -> Map<Seq<char>, AttributeValue>
    decreases s.len(),
{
    if s.len() == 0 {
        Map::empty()
    } else {
        let m = kept_attributes(s.drop_last());
        match s.last().value {
            Some(v) if !internal(s.last().name@) => m.insert(s.last().name@, v),
            _ => m,
        }
    }
}

/// Attributes that are internal to netCDF are hidden.
pub proof fn lemma_internal_hidden(s: Seq<FoundAttribute>, name: Seq<char>)
    requires
        internal(name),
    ensures
        !kept_attributes(s).contains_key(name),
    decreases s.len(),
{
    if s.len() > 0 {
        lemma_internal_hidden(s.drop_last(), name);
    }
}

/// An attribute that could not be read is skipped and does not touch the others.
pub proof fn lemma_unreadable_skipped(s: Seq<FoundAttribute>, i: int)
    requires
        0 <= i < s.len(),
        s[i].value is None,
    ensures
        kept_attributes(s.remove(i)) == kept_attributes(s),
    decreases s.len(),
{
    let t = s.remove(i);
    if i == s.len() - 1 {
        assert(t =~= s.drop_last());
    } else {
        lemma_unreadable_skipped(s.drop_last(), i);
        assert(t.drop_last() =~= s.drop_last().remove(i));
        assert(t.last() == s.last());
    }
}

/// Every attribute that is not internal and could be read is kept with its value, whatever kind
/// of value it is, unless one of the same name that could be read follows it.
pub proof fn lemma_attribute_kept(s: Seq<FoundAttribute>, i: int, v: AttributeValue)
    requires
        0 <= i < s.len(),
        s[i].value == Some(v),
        !internal(s[i].name@),
        forall|j: int|
            i < j < s.len() && (#[trigger] s[j]).name@ == s[i].name@ ==> s[j].value is None,
    ensures
        kept_attributes(s).contains_key(s[i].name@),
        kept_attributes(s)[s[i].name@] == v,
    decreases s.len(),
{
    if i < s.len() - 1 {
        let t = s.drop_last();
        assert(t[i] == s[i]);
        assert forall|j: int|
            i < j < t.len() && (#[trigger] t[j]).name@ == t[i].name@ implies t[j].value is None by {
            assert(t[j] == s[j]);
        }
        lemma_attribute_kept(t, i, v);
        assert(s[s.len() - 1] == s.last());
    }
}

/// Nothing is made up: each attribute that is kept could be read, is not internal, and has the
/// value that was read.
pub proof fn lemma_attribute_found(s: Seq<FoundAttribute>, name: Seq<char>) -> (i: int)
    requires
        kept_attributes(s).contains_key(name),
    ensures
        0 <= i < s.len(),
        s[i].name@ == name,
        s[i].value == Some(kept_attributes(s)[name]),
        !internal(name),
    decreases s.len(),
{
    match s.last().value {
        Some(v) if !internal(s.last().name@) && s.last().name@ == name => s.len() - 1,
        _ => lemma_attribute_found(s.drop_last(), name),
    }
}

/// The attributes that are internal to netCDF are these eight.
pub proof fn lemma_internal_names(name: Seq<char>)
    ensures
        internal(name) <==> seq![
            "DIMENSION_LIST"@,
            "REFERENCE_LIST"@,
            "CLASS"@,
            "NAME"@,
            "_Netcdf4Dimid"@,
            "_Netcdf4Coordinates"@,
            "_NCProperties"@,
            "_nc3_strict"@,
        ].contains(name),
{
    let names = seq![
        "DIMENSION_LIST"@,
        "REFERENCE_LIST"@,
        "CLASS"@,
        "NAME"@,
        "_Netcdf4Dimid"@,
        "_Netcdf4Coordinates"@,
        "_NCProperties"@,
        "_nc3_strict"@,
    ];
    assert(names.contains(names[0]) && names.contains(names[1]) && names.contains(names[2])
        && names.contains(names[3]) && names.contains(names[4]) && names.contains(names[5])
        && names.contains(names[6]) && names.contains(names[7]));
}

/// Trimming takes away all the NULs at the end, and nothing else.
pub proof fn lemma_trimmed_nuls(b: Seq<u8>) -> (n: int)
    ensures
        0 <= n <= b.len(),
        trimmed_nuls(b) == b.take(n),
        forall|i: int| n <= i < b.len() ==> #[trigger] b[i] == 0,
        n > 0 ==> b[n - 1] != 0,
    decreases b.len(),
{
    if b.len() > 0 && b.last() == 0 {
        let t = b.drop_last();
        let n = lemma_trimmed_nuls(t);
        assert(b.take(n) =~= t.take(n));
        assert forall|i: int| n <= i < b.len() implies #[trigger] b[i] == 0 by {
            if i < t.len() {
                assert(t[i] == b[i]);
            }
        }
        n
    } else {
        assert(b.take(b.len() as int) =~= b);
        b.len() as int
    }
}

/// Padding does not matter: bytes that do not end in a NUL are what is left of them with any
/// number of NULs behind them.
pub proof fn lemma_padding_trimmed(t: Seq<u8>, n: nat)
    requires
        t.len() > 0 ==> t.last() != 0,
    ensures
        trimmed_nuls(t + Seq::new(n, |i: int| 0u8)) == t,
    decreases n,
{
    let b = t + Seq::new(n, |i: int| 0u8);
    if n == 0 {
        assert(b =~= t);
    } else {
        lemma_padding_trimmed(t, (n - 1) as nat);
        assert(b.drop_last() =~= t + Seq::new((n - 1) as nat, |i: int| 0u8));
    }
}

/// A string of fixed length is found where it is stored: of strings of `len` bytes each, `i` of
/// which come before it, the text of the next is that of its bytes without the NULs that pad it,
/// and so its decoded bytes where these are UTF-8.
pub proof fn lemma_fixed_text(
    before: Seq<u8>,
    t: Seq<u8>,
    padding: nat,
    after: Seq<u8>,
    len: usize,
    i: int,
)
    requires
        i >= 0,
        len > 0,
        before.len() == i * len,
        t.len() + padding == len,
        t.len() > 0 ==> t.last() != 0,
    ensures
        ({
            let b = before + t + Seq::new(padding, |j: int| 0u8) + after;
            &&& fixed_texts(b, len).len() == b.len() / (len as nat)
            &&& i < fixed_texts(b, len).len()
            &&& fixed_texts(b, len)[i] == lossy_text(t)
            &&& texts_decode(b, len) && valid_utf8(t) ==> fixed_texts(b, len)[i] == decode_utf8(t)
        }),
{
    let pad = Seq::new(padding, |j: int| 0u8);
    let b = before + t + pad + after;
    assert((i + 1) * len == i * len + len) by (nonlinear_arith);
    vstd::arithmetic::div_mod::lemma_fundamental_div_mod(b.len() as int, len as int);
    vstd::arithmetic::div_mod::lemma_mod_bound(b.len() as int, len as int);
    let q = b.len() as int / len as int;
    let r = b.len() as int % len as int;
    assert(i < q) by (nonlinear_arith)
        requires
            b.len() == len * q + r,
            0 <= r < len,
            b.len() >= i * len + len,
            len > 0,
    ;
    assert(fixed_element(b, len, i) =~= t + pad);
    lemma_padding_trimmed(t, padding);
}

/// Numbers are kept as they were read, with the width that they had: a single one as a scalar, any
/// other number of them as a list.
pub proof fn lemma_numbers_kept(a: AttributeValue, values: RawValues, size: usize, count: usize)
    requires
        stands_for(a, values, size, count),
        size <= u8::MAX,
    ensures
        values matches RawValues::Ints(v) ==> match a {
            AttributeValue::Int(n, w) => v@ == seq![n] && count <= 1 && w == size,
            AttributeValue::Ints(n, w) => n == v && !(count <= 1 && v@.len() == 1) && w == size,
            _ => false,
        },
        values matches RawValues::Uints(v) ==> match a {
            AttributeValue::Uint(n, w) => v@ == seq![n] && count <= 1 && w == size,
            AttributeValue::Uints(n, w) => n == v && !(count <= 1 && v@.len() == 1) && w == size,
            _ => false,
        },
        values matches RawValues::Floats(v) ==> match a {
            AttributeValue::Float(n, w) => v@ == seq![n] && count <= 1 && w == size,
            AttributeValue::Floats(n, w) => n == v && !(count <= 1 && v@.len() == 1) && w == size,
            _ => false,
        },
{
    match values {
        RawValues::Ints(v) => {
            if count <= 1 && v@.len() == 1 {
                assert(v@ =~= seq![v@[0]]);
            }
        },
        RawValues::Uints(v) => {
            if count <= 1 && v@.len() == 1 {
                assert(v@ =~= seq![v@[0]]);
            }
        },
        RawValues::Floats(v) => {
            if count <= 1 && v@.len() == 1 {
                assert(v@ =~= seq![v@[0]]);
            }
        },
        _ => {},
    }
}

/// Numbers keep their width in the file as a byte, counted modulo the number of values of a byte.
pub proof fn lemma_width_kept(a: AttributeValue, values: RawValues, size: usize, count: usize)
    requires
        stands_for(a, values, size, count),
    ensures
        match a {
            AttributeValue::Int(_, w)
            | AttributeValue::Ints(_, w)
            | AttributeValue::Uint(_, w)
            | AttributeValue::Uints(_, w)
            | AttributeValue::Float(_, w)
            | AttributeValue::Floats(_, w) => w == size % 0x100,
            _ => true,
        },
{
    assert(size as u8 == size % 0x100) by (bit_vector);
}

/// Texts are kept as they were read, in order: a single one as a scalar, any other number of them
/// as a list.
pub proof fn lemma_texts_kept(a: AttributeValue, values: RawValues, size: usize, count: usize)
    requires
        stands_for(a, values, size, count),
        values is Fixed || values is Texts,
    ensures
        ({
            let t = match values {
                RawValues::Fixed { bytes, len } => fixed_texts(bytes@, len),
                RawValues::Texts(v) => Seq::new(v@.len(), |i: int| v@[i]@),
                _ => Seq::empty(),
            };
            match a {
                AttributeValue::Str(s) => t == seq![s@] && count <= 1,
                AttributeValue::Strs(v) => {
                    &&& v@.len() == t.len()
                    &&& forall|i: int| 0 <= i < t.len() ==> #[trigger] v@[i]@ == t[i]
                    &&& !(count <= 1 && t.len() == 1)
                },
                _ => false,
            }
        }),
{
    let t = match values {
        RawValues::Fixed { bytes, len } => fixed_texts(bytes@, len),
        RawValues::Texts(v) => texts(v@),
        _ => Seq::empty(),
    };
    if let RawValues::Texts(v) = values {
        assert(t =~= Seq::new(v@.len(), |i: int| v@[i]@));
    }
    match a {
        AttributeValue::Str(s) => {
            assert(t =~= seq![s@]);
        },
        AttributeValue::Strs(v) => {
            assert forall|i: int| 0 <= i < t.len() implies #[trigger] v@[i]@ == t[i] by {
                assert(texts(v@)[i] == v@[i]@);
            }
        },
        _ => {},
    }
}

/// Each type is read as what it is: whole numbers, and what stands for them, as signed or unsigned
/// numbers, floating-point numbers as such, and strings as strings of their own kind and length.
pub proof fn lemma_reading(n: usize)
    ensures
        TypeDescriptor::Integer.reading() == Some(ReadAs::Ints),
        TypeDescriptor::Boolean.reading() == Some(ReadAs::Ints),
        TypeDescriptor::Enum.reading() == Some(ReadAs::Ints),
        TypeDescriptor::Unsigned.reading() == Some(ReadAs::Uints),
        TypeDescriptor::Float.reading() == Some(ReadAs::Floats),
        TypeDescriptor::FixedAscii(n).reading() == Some(ReadAs::Fixed(n)),
        TypeDescriptor::FixedUnicode(n).reading() == Some(ReadAs::Fixed(n)),
        TypeDescriptor::VarLenAscii.reading() == Some(ReadAs::Ascii),
        TypeDescriptor::VarLenUnicode.reading() == Some(ReadAs::Unicode),
        TypeDescriptor::Other.reading() is None,
{
}

/// Floats compare as the numbers that they stand for. Taken apart into sign, exponent and
/// fraction, two are equal where none of them has the highest exponent and a fraction, and all
/// parts are the same, but for the sign where the others are zero.
pub proof fn lemma_floats_equal(s: u64, e: u64, m: u64, t: u64, f: u64, n: u64)
    requires
        s <= 1,
        t <= 1,
        e <= 0x7ff,
        f <= 0x7ff,
        m <= 0xf_ffff_ffff_ffff,
        n <= 0xf_ffff_ffff_ffff,
    ensures
        floats_equal(
            (s * 0x8000_0000_0000_0000 + e * 0x10_0000_0000_0000 + m) as u64,
            (t * 0x8000_0000_0000_0000 + f * 0x10_0000_0000_0000 + n) as u64,
        ) <==> {
            &&& !(e == 0x7ff && m > 0)
            &&& !(f == 0x7ff && n > 0)
            &&& e == f
            &&& m == n
            &&& s == t || e == 0 && m == 0
        },
{
    let a = s * 0x8000_0000_0000_0000 + e * 0x10_0000_0000_0000 + m;
    let b = t * 0x8000_0000_0000_0000 + f * 0x10_0000_0000_0000 + n;
    assert(0 <= a <= u64::MAX && 0 <= b <= u64::MAX);
    assert(a % 0x8000_0000_0000_0000 == e * 0x10_0000_0000_0000 + m);
    assert(b % 0x8000_0000_0000_0000 == f * 0x10_0000_0000_0000 + n);
}

/// Equal values are of the same kind and width and hold the same, number by number and text by
/// text.
pub proof fn lemma_equal_values(a: AttributeValue, b: AttributeValue)
    ensures
        PartialEqSpec::eq_spec(&a, &b) == PartialEqSpec::eq_spec(&b, &a),
        PartialEqSpec::eq_spec(&a, &b) <==> match (a, b) {
            (AttributeValue::Str(x), AttributeValue::Str(y)) => x@ == y@,
            (AttributeValue::Strs(x), AttributeValue::Strs(y)) => {
                &&& x@.len() == y@.len()
                &&& forall|i: int| 0 <= i < x@.len() ==> (#[trigger] x@[i])@ == y@[i]@
            },
            (AttributeValue::Int(x, v), AttributeValue::Int(y, w)) => (x, v) == (y, w),
            (AttributeValue::Ints(x, v), AttributeValue::Ints(y, w)) => (x@, v) == (y@, w),
            (AttributeValue::Uint(x, v), AttributeValue::Uint(y, w)) => (x, v) == (y, w),
            (AttributeValue::Uints(x, v), AttributeValue::Uints(y, w)) => (x@, v) == (y@, w),
            (AttributeValue::Float(x, v), AttributeValue::Float(y, w)) => {
                v == w && floats_equal(x, y)
            },
            (AttributeValue::Floats(x, v), AttributeValue::Floats(y, w)) => {
                &&& v == w
                &&& x@.len() == y@.len()
                &&& forall|i: int| 0 <= i < x@.len() ==> floats_equal(#[trigger] x@[i], y@[i])
            },
            _ => false,
        },
{
    match (a, b) {
        (AttributeValue::Strs(x), AttributeValue::Strs(y)) => {
            if texts(x@) == texts(y@) {
                assert(texts(x@).len() == texts(y@).len());
                assert forall|i: int| 0 <= i < x@.len() implies (#[trigger] x@[i])@ == y@[i]@ by {
                    assert(texts(x@)[i] == texts(y@)[i]);
                }
            } else if x@.len() == y@.len() && forall|i: int|
                0 <= i < x@.len() ==> (#[trigger] x@[i])@ == y@[i]@ {
                assert(texts(x@) =~= texts(y@));
            }
        },
        (AttributeValue::Floats(x, _), AttributeValue::Floats(y, _)) => {
            if all_floats_equal(x@, y@) {
                assert forall|i: int| 0 <= i < y@.len() implies floats_equal(
                    #[trigger] y@[i],
                    x@[i],
                ) by {
                    assert(floats_equal(x@[i], y@[i]));
                }
            }
            if all_floats_equal(y@, x@) {
                assert forall|i: int| 0 <= i < x@.len() implies floats_equal(
                    #[trigger] x@[i],
                    y@[i],
                ) by {
                    assert(floats_equal(y@[i], x@[i]));
                }
            }
        },
        _ => {},
    }
}

/// Whether an attribute is internal to netCDF.
pub fn is_internal(name: &str) -> (r: bool)
    ensures
        r == internal(name@),
{
    same(name, "DIMENSION_LIST") || same(name, "REFERENCE_LIST") || same(name, "CLASS") || same(
        name,
        "NAME",
    ) || same(name, "_Netcdf4Dimid") || same(name, "_Netcdf4Coordinates") || same(
        name,
        "_NCProperties",
    ) || same(name, "_nc3_strict")
}

impl TypeDescriptor {
    /// How elements of this type are read; nothing where they cannot be.
    pub open spec fn reading(self) -> Option<ReadAs> {
        match self {
            TypeDescriptor::Integer | TypeDescriptor::Boolean | TypeDescriptor::Enum => Some(
                ReadAs::Ints,
            ),
            TypeDescriptor::Unsigned => Some(ReadAs::Uints),
            TypeDescriptor::Float => Some(ReadAs::Floats),
            TypeDescriptor::FixedAscii(n) | TypeDescriptor::FixedUnicode(n) => Some(
                ReadAs::Fixed(n),
            ),
            TypeDescriptor::VarLenAscii => Some(ReadAs::Ascii),
            TypeDescriptor::VarLenUnicode => Some(ReadAs::Unicode),
            TypeDescriptor::Other => None,
        }
    }

    /// How elements of this type are read; nothing where they cannot be.
    pub fn read_as(self) -> (r: Option<ReadAs>)
        ensures
            r == self.reading(),
    {
        match self {
            TypeDescriptor::Integer | TypeDescriptor::Boolean | TypeDescriptor::Enum => Some(
                ReadAs::Ints,
            ),
            TypeDescriptor::Unsigned => Some(ReadAs::Uints),
            TypeDescriptor::Float => Some(ReadAs::Floats),
            TypeDescriptor::FixedAscii(n) | TypeDescriptor::FixedUnicode(n) => Some(
                ReadAs::Fixed(n),
            ),
            TypeDescriptor::VarLenAscii => Some(ReadAs::Ascii),
            TypeDescriptor::VarLenUnicode => Some(ReadAs::Unicode),
            TypeDescriptor::Other => None,
        }
    }
}

/// The number of bytes that `count` strings of `len` bytes take (one string where the count is
/// 0), where it fits.
pub fn fixed_size(count: usize, len: usize) -> (r: Option<usize>)
    ensures
        ({
            let n = if count == 0 {
                1
            } else {
                count as int
            };
            match r {
                Some(b) => b == n * len,
                None => n * len > usize::MAX,
            }
        }),
{
    let n: usize = if count == 0 {
        1
    } else {
        count
    };
    n.checked_mul(len)
}

/// `b` without trailing NULs.
pub fn trim_nuls(b: &[u8]) -> (r: &[u8])
    ensures
        r@ == trimmed_nuls(b@),
{
    let mut n: usize = b.len();
    assert(b@.take(n as int) =~= b@);
    while n > 0 && b[n - 1] == 0
        invariant
            n <= b@.len(),
            trimmed_nuls(b@) == trimmed_nuls(b@.take(n as int)),
        decreases n,
    {
        assert(b@.take(n as int).last() == 0);
        assert(b@.take(n as int).drop_last() =~= b@.take(n - 1));
        n = n - 1;
    }
    assert(b@.take(n as int) =~= b@.subrange(0, n as int));
    slice_subrange(b, 0, n)
}

/// The strings of `len` bytes each in `buf`, without the NULs that pad them (only NULs: other
/// trailing whitespace is preserved). What does not fill a string is left out.
pub fn read_fixed_strings(buf: &[u8], len: usize) -> (r: Vec<String>)
    requires
        len > 0,
    ensures
        texts(r@) == fixed_texts(buf@, len),
        texts_decode(buf@, len),
        forall|j: int|
            0 <= j < r@.len() && valid_utf8(trimmed_nuls(fixed_element(buf@, len, j)))
                ==> #[trigger] r@[j]@ == decode_utf8(trimmed_nuls(fixed_element(buf@, len, j))),
{
    let n = buf.len() / len;
    let mut r: Vec<String> = Vec::new();
    for i in 0..n
        invariant
            len > 0,
            n == buf.len() / len,
            r@.len() == i,
            forall|j: int|
                0 <= j < i ==> #[trigger] r@[j]@ == lossy_text(
                    trimmed_nuls(fixed_element(buf@, len, j)),
                ),
            forall|j: int|
                0 <= j < i && valid_utf8(trimmed_nuls(#[trigger] fixed_element(buf@, len, j)))
                    ==> lossy_text(trimmed_nuls(fixed_element(buf@, len, j))) == decode_utf8(
                    trimmed_nuls(fixed_element(buf@, len, j)),
                ),
    {
        proof {
            vstd::arithmetic::div_mod::lemma_fundamental_div_mod(buf.len() as int, len as int);
            assert((i + 1) * len <= buf.len() && i * len + len == (i + 1) * len && 0 <= i * len)
                by (nonlinear_arith)
                requires
                    0 <= i < n,
                    buf.len() == len * n + buf.len() as int % len as int,
                    buf.len() as int % len as int >= 0,
                    len > 0,
            ;
        }
        let element = slice_subrange(buf, i * len, i * len + len);
        r.push(text_lossy(trim_nuls(element)));
    }
    assert(texts(r@) =~= fixed_texts(buf@, len));
    r
}

/// A text, or texts, as an attribute value.
fn collapse_texts(mut values: Vec<String>, count: usize) -> (r: AttributeValue)
    ensures
        stands_for_texts(r, texts(values@), count),
{
    if count <= 1 && values.len() == 1 {
        let s = values.remove(0);
        AttributeValue::Str(s)
    } else {
        AttributeValue::Strs(values)
    }
}

/// The value of an attribute whose elements, of `size` bytes in the file that has `count` of
/// them, were read as `values`.
pub fn read_attribute(values: RawValues, size: usize, count: usize) -> (r: AttributeValue)
    requires
        values.valid(),
    ensures
        stands_for(r, values, size, count),
        values matches RawValues::Fixed { bytes, len } ==> texts_decode(bytes@, len),
{
    let size = #[verifier::truncate]
    (size as u8);
    match values {
        RawValues::Ints(v) => if count <= 1 && v.len() == 1 {
            AttributeValue::Int(v[0], size)
        } else {
            AttributeValue::Ints(v, size)
        },
        RawValues::Uints(v) => if count <= 1 && v.len() == 1 {
            AttributeValue::Uint(v[0], size)
        } else {
            AttributeValue::Uints(v, size)
        },
        RawValues::Floats(v) => if count <= 1 && v.len() == 1 {
            AttributeValue::Float(v[0], size)
        } else {
            AttributeValue::Floats(v, size)
        },
        RawValues::Fixed { bytes, len } => collapse_texts(
            read_fixed_strings(bytes.as_slice(), len),
            count,
        ),
        RawValues::Texts(v) => collapse_texts(v, count),
    }
}

/// The attributes of a group or dataset that are not internal. Those that could not be read
/// are skipped.
pub fn read_attributes(found: Vec<FoundAttribute>) -> (r: Attributes)
    ensures
        r@ == kept_attributes(found@),
{
    let mut attrs: Attributes = NameMap::new();
    let ghost all = found@;
    for a in it: found
        invariant
            it.seq() == all,
            attrs@ == kept_attributes(all.take(it.index())),
    {
        proof {
            let i = it.index();
            assert(all.take(i + 1).drop_last() =~= all.take(i));
            assert(all.take(i + 1).last() == a);
        }
        if !is_internal(a.name.as_str()) {
            if let Some(value) = a.value {
                attrs.insert(a.name, value);
            }
        }
    }
    assert(all.take(all.len() as int) =~= all);
    attrs
}

/// Whether the attribute `CLASS` of a dataset marks it as a dimension scale.
pub open spec fn marks_scale(class: Option<AttributeValue>) -> bool {
    class matches Some(AttributeValue::Str(s)) && s@ == "DIMENSION_SCALE"@
}

/// Whether the attribute `CLASS` of a dataset, where it could be read, marks the dataset as a
/// dimension scale.
pub fn is_dimension_scale(class: &Option<AttributeValue>) -> (r: bool)
    ensures
        r == marks_scale(*class),
        r <==> (*class matches Some(AttributeValue::Str(s)) && s@ == "DIMENSION_SCALE"@),
{
    match class {
        Some(AttributeValue::Str(s)) => same(s.as_str(), "DIMENSION_SCALE"),
        _ => false,
    }
}

/// The name of a dimension that has none.
pub open spec fn phony_name(i: int) -> Seq<char> {
    "phony_dim_"@ + decimal(i as nat)
}

/// The name of the dimension that a dimension-scale dataset at `path` stands for.
pub open spec fn scale_name(path: Seq<char>) -> Seq<char> {
    parts(path, '/').last()
}

/// Whether there is a dimension scale for each of `ndim` dimensions.
pub open spec fn all_resolved(ndim: usize, refs: Option<Vec<Option<String>>>) -> bool {
    refs matches Some(v) && v@.len() == ndim && forall|i: int|
        0 <= i < v@.len() ==> (#[trigger] v@[i]) is Some
}

/// The netCDF dimension names of a dataset.
pub open spec fn dimensions(
    name: Seq<char>,
    ndim: usize,
    class: Option<AttributeValue>,
    refs: Option<Vec<Option<String>>>,
) -> Seq<Seq<char>> {
    if marks_scale(class) {
        seq![scale_name(name)]
    } else if all_resolved(ndim, refs) {
        Seq::new(ndim as nat, |i: int| scale_name((refs->0)@[i]->0@))
    } else {
        Seq::new(ndim as nat, |i: int| phony_name(i))
    }
}

/// A dataset that is no dimension scale has one dimension name for each dimension.
pub proof fn lemma_dimension_count(
    name: Seq<char>,
    ndim: usize,
    class: Option<AttributeValue>,
    refs: Option<Vec<Option<String>>>,
)
    requires
        !marks_scale(class),
    ensures
        dimensions(name, ndim, class, refs).len() == ndim,
{
}

/// The dimension of a dimension scale is the dataset itself: one that is stored under a path that
/// ends in a name has this name as its one dimension.
pub proof fn lemma_scale_dimension(
    path: Seq<char>,
    name: Seq<char>,
    ndim: usize,
    class: String,
    refs: Option<Vec<Option<String>>>,
)
    requires
        class@ == "DIMENSION_SCALE"@,
        !name.contains('/'),
    ensures
        dimensions(path.push('/') + name, ndim, Some(AttributeValue::Str(class)), refs) == seq![
            name,
        ],
        dimensions(name, ndim, Some(AttributeValue::Str(class)), refs) == seq![name],
{
    lemma_name_of_path(path, name, '/');
}

/// A dataset that is no dimension scale, and that refers to a dataset for each of its dimensions,
/// has the names of these, in order: dimension `i` is called what the path of the dataset that it
/// refers to ends in.
pub proof fn lemma_referred_dimensions(
    name: Seq<char>,
    ndim: usize,
    class: Option<AttributeValue>,
    refs: Vec<Option<String>>,
    i: int,
    path: Seq<char>,
    n: Seq<char>,
)
    requires
        !(class matches Some(AttributeValue::Str(s)) && s@ == "DIMENSION_SCALE"@),
        refs@.len() == ndim,
        forall|j: int| 0 <= j < ndim ==> (#[trigger] refs@[j]) is Some,
        0 <= i < ndim,
        !n.contains('/'),
        (refs@[i]->0)@ == path.push('/') + n || (refs@[i]->0)@ == n,
    ensures
        dimensions(name, ndim, class, Some(refs)).len() == ndim,
        dimensions(name, ndim, class, Some(refs))[i] == n,
{
    lemma_name_of_path(path, n, '/');
}

/// The dimensions of any other dataset are numbered: there is one for each, and they all have
/// different names.
pub proof fn lemma_phony_dimensions(
    name: Seq<char>,
    ndim: usize,
    class: Option<AttributeValue>,
    refs: Option<Vec<Option<String>>>,
)
    requires
        !(class matches Some(AttributeValue::Str(s)) && s@ == "DIMENSION_SCALE"@),
        refs matches Some(v) ==> v@.len() != ndim || exists|j: int|
            0 <= j < ndim && (#[trigger] v@[j]) is None,
    ensures
        dimensions(name, ndim, class, refs).len() == ndim,
        forall|i: int|
            0 <= i < ndim ==> #[trigger] dimensions(name, ndim, class, refs)[i] == "phony_dim_"@
                + decimal(i as nat),
        forall|i: int, j: int|
            0 <= i < j < ndim ==> #[trigger] dimensions(name, ndim, class, refs)[i]
                != #[trigger] dimensions(name, ndim, class, refs)[j],
{
    let d = dimensions(name, ndim, class, refs);
    assert forall|i: int, j: int| 0 <= i < j < ndim implies #[trigger] d[i] != #[trigger] d[j] by {
        if d[i] == d[j] {
            let p = "phony_dim_"@;
            assert(d[i].skip(p.len() as int) =~= decimal(i as nat));
            assert(d[j].skip(p.len() as int) =~= decimal(j as nat));
            lemma_decimal_differs(i as nat, j as nat);
        }
    }
}

/// The names of the dimensions that `refs` point at, where there are `ndim` and all do.
fn resolved_names(ndim: usize, refs: &Option<Vec<Option<String>>>) -> (r: Option<Vec<String>>)
    ensures
        match r {
            Some(v) => {
                &&& all_resolved(ndim, *refs)
                &&& texts(v@) == Seq::new(ndim as nat, |i: int| scale_name((refs->0)@[i]->0@))
            },
            None => !all_resolved(ndim, *refs),
        },
{
    match refs {
        None => None,
        Some(v) => {
            if v.len() != ndim {
                return None;
            }
            let mut r: Vec<String> = Vec::new();
            for i in 0..v.len()
                invariant
                    v@.len() == ndim,
                    *refs == Some(*v),
                    r@.len() == i,
                    forall|j: int| 0 <= j < i ==> (#[trigger] v@[j]) is Some,
                    forall|j: int| 0 <= j < i ==> #[trigger] r@[j]@ == scale_name(v@[j]->0@),
            {
                match &v[i] {
                    Some(path) => {
                        r.push(basename(path.as_str()));
                    },
                    None => {
                        assert(v@[i as int] is None);
                        return None;
                    },
                }
            }
            assert(texts(r@) =~= Seq::new(ndim as nat, |i: int| scale_name((refs->0)@[i]->0@)));
            Some(r)
        },
    }
}

/// The netCDF dimension names of the dataset `name` of `ndim` dimensions, in order.
///
/// netCDF-4 stores the dimensions of a variable as the attribute `DIMENSION_LIST`: one list of
/// references for each dimension, pointing at the dimension-scale dataset. `refs` gives the
/// paths of the datasets that the first of these point at, where the attribute could be read.
/// The dimension of a dimension scale (by the attribute `CLASS`) is itself; a plain dataset
/// without such references falls back to `phony_dim_<i>` names.
pub fn dimension_names(
    name: &str,
    ndim: usize,
    class: &Option<AttributeValue>,
    refs: &Option<Vec<Option<String>>>,
) -> (r: Vec<String>)
    ensures
        texts(r@) == dimensions(name@, ndim, *class, *refs),
{
    if is_dimension_scale(class) {
        let mut r: Vec<String> = Vec::new();
        r.push(basename(name));
        assert(texts(r@) =~= dimensions(name@, ndim, *class, *refs));
        return r;
    }
    if let Some(names) = resolved_names(ndim, refs) {
        return names;
    }
    let mut r: Vec<String> = Vec::new();
    for i in 0..ndim
        invariant
            r@.len() == i,
            forall|j: int| 0 <= j < i ==> #[trigger] r@[j]@ == phony_name(j),
    {
        let mut phony = "phony_dim_".to_owned();
        phony.append(to_decimal(i as u64).as_str());
        r.push(phony);
    }
    assert(texts(r@) =~= dimensions(name@, ndim, *class, *refs));
    r
}

} // verus!

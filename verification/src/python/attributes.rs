//! Attribute values as they are handed to Python.
use crate::idx::attributes::{AttributeValue, Attributes};
use vstd::prelude::*;

verus! {

/// An attribute value narrowed back to the width that it had in the file. Numbers come as a
/// list and the word whether the one number in it is handed out as a scalar. Floating-point
/// numbers are still the bits of their 64-bit form, and the variant says what they are narrowed
/// to.
#[derive(Clone, Debug, PartialEq)]
pub enum PyValue {
    Str(String),
    Strs(Vec<String>),
    I8(Vec<i8>, bool),
    I16(Vec<i16>, bool),
    I32(Vec<i32>, bool),
    I64(Vec<i64>, bool),
    U8(Vec<u8>, bool),
    U16(Vec<u16>, bool),
    U32(Vec<u32>, bool),
    U64(Vec<u64>, bool),
    F32(Vec<u64>, bool),
    F64(Vec<u64>, bool),
}

/// Whether `p` holds the signed numbers `v` narrowed to `size` bytes.
pub open spec fn narrowed_ints(p: PyValue, v: Seq<i64>, size: u8, scalar: bool) -> bool {
    match size {
        1 => p matches PyValue::I8(x, s) && s == scalar && x@ == v.map_values(|n: i64| n as i8),
        2 => p matches PyValue::I16(x, s) && s == scalar && x@ == v.map_values(|n: i64| n as i16),
        4 => p matches PyValue::I32(x, s) && s == scalar && x@ == v.map_values(|n: i64| n as i32),
        _ => p matches PyValue::I64(x, s) && s == scalar && x@ == v,
    }
}

/// Whether `p` holds the unsigned numbers `v` narrowed to `size` bytes.
pub open spec fn narrowed_uints(p: PyValue, v: Seq<u64>, size: u8, scalar: bool) -> bool {
    match size {
        1 => p matches PyValue::U8(x, s) && s == scalar && x@ == v.map_values(|n: u64| n as u8),
        2 => p matches PyValue::U16(x, s) && s == scalar && x@ == v.map_values(|n: u64| n as u16),
        4 => p matches PyValue::U32(x, s) && s == scalar && x@ == v.map_values(|n: u64| n as u32),
        _ => p matches PyValue::U64(x, s) && s == scalar && x@ == v,
    }
}

/// Whether `p` holds the floating-point numbers with the bits `v`, for `size` bytes.
pub open spec fn narrowed_floats(p: PyValue, v: Seq<u64>, size: u8, scalar: bool) -> bool {
    match size {
        4 => p matches PyValue::F32(x, s) && s == scalar && x@ == v,
        _ => p matches PyValue::F64(x, s) && s == scalar && x@ == v,
    }
}

/// Whether `p` is the attribute value `a` narrowed back to the width that it had in the file.
pub open spec fn narrowed(p: PyValue, a: AttributeValue) -> bool {
    match a {
        AttributeValue::Str(t) => p matches PyValue::Str(x) && x@ == t@,
        AttributeValue::Strs(t) => p matches PyValue::Strs(x) && x@ == t@,
        AttributeValue::Int(n, size) => narrowed_ints(p, seq![n], size, true),
        AttributeValue::Ints(v, size) => narrowed_ints(p, v@, size, false),
        AttributeValue::Uint(n, size) => narrowed_uints(p, seq![n], size, true),
        AttributeValue::Uints(v, size) => narrowed_uints(p, v@, size, false),
        AttributeValue::Float(n, size) => narrowed_floats(p, seq![n], size, true),
        AttributeValue::Floats(v, size) => narrowed_floats(p, v@, size, false),
    }
}

/// The integers that a value holds.
pub open spec fn integers(p: PyValue) -> Seq<int> {
    match p {
        PyValue::I8(x, _) => Seq::new(x@.len(), |i: int| x@[i] as int),
        PyValue::I16(x, _) => Seq::new(x@.len(), |i: int| x@[i] as int),
        PyValue::I32(x, _) => Seq::new(x@.len(), |i: int| x@[i] as int),
        PyValue::I64(x, _) => Seq::new(x@.len(), |i: int| x@[i] as int),
        PyValue::U8(x, _) => Seq::new(x@.len(), |i: int| x@[i] as int),
        PyValue::U16(x, _) => Seq::new(x@.len(), |i: int| x@[i] as int),
        PyValue::U32(x, _) => Seq::new(x@.len(), |i: int| x@[i] as int),
        PyValue::U64(x, _) => Seq::new(x@.len(), |i: int| x@[i] as int),
        _ => Seq::empty(),
    }
}

/// Whether `n` is a signed number of `size` bytes.
pub open spec fn fits_signed(n: i64, size: u8) -> bool {
    match size {
        1 => i8::MIN <= n <= i8::MAX,
        2 => i16::MIN <= n <= i16::MAX,
        4 => i32::MIN <= n <= i32::MAX,
        _ => true,
    }
}

/// Whether `n` is an unsigned number of `size` bytes.
pub open spec fn fits_unsigned(n: u64, size: u8) -> bool {
    match size {
        1 => n <= u8::MAX,
        2 => n <= u16::MAX,
        4 => n <= u32::MAX,
        _ => true,
    }
}

/// Widening for storage loses nothing: signed numbers of the width in the file come back as they
/// were.
pub proof fn lemma_ints_come_back(p: PyValue, v: Seq<i64>, size: u8, scalar: bool)
    requires
        narrowed_ints(p, v, size, scalar),
        forall|i: int| 0 <= i < v.len() ==> fits_signed(#[trigger] v[i], size),
    ensures
        integers(p) == Seq::new(v.len(), |i: int| v[i] as int),
{
    assert forall|i: int| 0 <= i < v.len() implies integers(p)[i] == v[i] by {
        assert(fits_signed(v[i], size));
    }
    assert(integers(p) =~= Seq::new(v.len(), |i: int| v[i] as int));
}

/// Widening for storage loses nothing: unsigned numbers of the width in the file come back as
/// they were.
pub proof fn lemma_uints_come_back(p: PyValue, v: Seq<u64>, size: u8, scalar: bool)
    requires
        narrowed_uints(p, v, size, scalar),
        forall|i: int| 0 <= i < v.len() ==> fits_unsigned(#[trigger] v[i], size),
    ensures
        integers(p) == Seq::new(v.len(), |i: int| v[i] as int),
{
    assert forall|i: int| 0 <= i < v.len() implies integers(p)[i] == v[i] by {
        assert(fits_unsigned(v[i], size));
    }
    assert(integers(p) =~= Seq::new(v.len(), |i: int| v[i] as int));
}

/// An attribute comes to Python as what it was in the file: text as text, and numbers of their
/// kind and of the width that they had (of 64 bits where it is none that a machine has), a single
/// one as a scalar and a list as a list.
pub proof fn lemma_width_comes_back(p: PyValue, a: AttributeValue)
    requires
        narrowed(p, a),
    ensures
        match a {
            AttributeValue::Str(t) => p matches PyValue::Str(x) && x@ == t@,
            AttributeValue::Strs(t) => p matches PyValue::Strs(x) && x@ == t@,
            AttributeValue::Int(_, w) | AttributeValue::Ints(_, w) => match p {
                PyValue::I8(_, s) => w == 1 && s == (a is Int),
                PyValue::I16(_, s) => w == 2 && s == (a is Int),
                PyValue::I32(_, s) => w == 4 && s == (a is Int),
                PyValue::I64(_, s) => w != 1 && w != 2 && w != 4 && s == (a is Int),
                _ => false,
            },
            AttributeValue::Uint(_, w) | AttributeValue::Uints(_, w) => match p {
                PyValue::U8(_, s) => w == 1 && s == (a is Uint),
                PyValue::U16(_, s) => w == 2 && s == (a is Uint),
                PyValue::U32(_, s) => w == 4 && s == (a is Uint),
                PyValue::U64(_, s) => w != 1 && w != 2 && w != 4 && s == (a is Uint),
                _ => false,
            },
            AttributeValue::Float(_, w) | AttributeValue::Floats(_, w) => match p {
                PyValue::F32(_, s) => w == 4 && s == (a is Float),
                PyValue::F64(_, s) => w != 4 && s == (a is Float),
                _ => false,
            },
        },
{
}

/// The numbers of an attribute come to Python as they were, in order: signed numbers of the width
/// in the file, unsigned ones, and the bits of floating-point numbers.
pub proof fn lemma_numbers_come_back(p: PyValue, a: AttributeValue, i: int)
    requires
        narrowed(p, a),
    ensures
        a matches AttributeValue::Ints(v, w) ==> 0 <= i < v@.len() && fits_signed(v@[i], w)
            ==> match p {
            PyValue::I8(x, _) => x@.len() == v@.len() && x@[i] == v@[i],
            PyValue::I16(x, _) => x@.len() == v@.len() && x@[i] == v@[i],
            PyValue::I32(x, _) => x@.len() == v@.len() && x@[i] == v@[i],
            PyValue::I64(x, _) => x@.len() == v@.len() && x@[i] == v@[i],
            _ => false,
        },
        a matches AttributeValue::Uints(v, w) ==> 0 <= i < v@.len() && fits_unsigned(v@[i], w)
            ==> match p {
            PyValue::U8(x, _) => x@.len() == v@.len() && x@[i] == v@[i],
            PyValue::U16(x, _) => x@.len() == v@.len() && x@[i] == v@[i],
            PyValue::U32(x, _) => x@.len() == v@.len() && x@[i] == v@[i],
            PyValue::U64(x, _) => x@.len() == v@.len() && x@[i] == v@[i],
            _ => false,
        },
        a matches AttributeValue::Int(n, w) ==> fits_signed(n, w) ==> match p {
            PyValue::I8(x, _) => x@.len() == 1 && x@[0] == n,
            PyValue::I16(x, _) => x@.len() == 1 && x@[0] == n,
            PyValue::I32(x, _) => x@.len() == 1 && x@[0] == n,
            PyValue::I64(x, _) => x@.len() == 1 && x@[0] == n,
            _ => false,
        },
        a matches AttributeValue::Uint(n, w) ==> fits_unsigned(n, w) ==> match p {
            PyValue::U8(x, _) => x@.len() == 1 && x@[0] == n,
            PyValue::U16(x, _) => x@.len() == 1 && x@[0] == n,
            PyValue::U32(x, _) => x@.len() == 1 && x@[0] == n,
            PyValue::U64(x, _) => x@.len() == 1 && x@[0] == n,
            _ => false,
        },
        a matches AttributeValue::Floats(v, _) ==> match p {
            PyValue::F32(x, _) => x@ == v@,
            PyValue::F64(x, _) => x@ == v@,
            _ => false,
        },
        a matches AttributeValue::Float(n, _) ==> match p {
            PyValue::F32(x, _) => x@ == seq![n],
            PyValue::F64(x, _) => x@ == seq![n],
            _ => false,
        },
{
}

/// Numbers that do not fit are cut off: they come out modulo the number of values of their width.
pub proof fn lemma_numbers_cut_off(p: PyValue, a: AttributeValue, i: int)
    requires
        narrowed(p, a),
    ensures
        a matches AttributeValue::Ints(v, _) ==> 0 <= i < v@.len() ==> match p {
            PyValue::I8(x, _) => (x@[i] - v@[i]) % 0x100 == 0,
            PyValue::I16(x, _) => (x@[i] - v@[i]) % 0x1_0000 == 0,
            PyValue::I32(x, _) => (x@[i] - v@[i]) % 0x1_0000_0000 == 0,
            PyValue::I64(x, _) => x@[i] == v@[i],
            _ => false,
        },
        a matches AttributeValue::Uints(v, _) ==> 0 <= i < v@.len() ==> match p {
            PyValue::U8(x, _) => x@[i] == v@[i] % 0x100,
            PyValue::U16(x, _) => x@[i] == v@[i] % 0x1_0000,
            PyValue::U32(x, _) => x@[i] == v@[i] % 0x1_0000_0000,
            PyValue::U64(x, _) => x@[i] == v@[i],
            _ => false,
        },
{
    match a {
        AttributeValue::Ints(v, _) => {
            if 0 <= i < v@.len() {
                let n = v@[i];
                assert((n as i8 - n) % 0x100 == 0) by (bit_vector);
                assert((n as i16 - n) % 0x1_0000 == 0) by (bit_vector);
                assert((n as i32 - n) % 0x1_0000_0000 == 0) by (bit_vector);
            }
        },
        AttributeValue::Uints(v, _) => {
            if 0 <= i < v@.len() {
                let n = v@[i];
                assert(n as u8 == n % 0x100) by (bit_vector);
                assert(n as u16 == n % 0x1_0000) by (bit_vector);
                assert(n as u32 == n % 0x1_0000_0000) by (bit_vector);
            }
        },
        _ => {},
    }
}

/// A number fits where it is one of those that so many bytes can hold.
pub proof fn lemma_fits(n: i64, m: u64)
    ensures
        fits_signed(n, 1) <==> -0x80 <= n < 0x80,
        fits_signed(n, 2) <==> -0x8000 <= n < 0x8000,
        fits_signed(n, 4) <==> -0x8000_0000 <= n < 0x8000_0000,
        fits_signed(n, 8),
        fits_unsigned(m, 1) <==> m < 0x100,
        fits_unsigned(m, 2) <==> m < 0x1_0000,
        fits_unsigned(m, 4) <==> m < 0x1_0000_0000,
        fits_unsigned(m, 8),
{
}

/// The elements of `v`, each mapped by `f`.
fn mapped<T: Copy, U>(v: &[T], f: impl Fn(T) -> U) -> (r: Vec<U>)
    requires
        forall|x: T| #[trigger] call_requires(f, (x,)),
    ensures
        r@.len() == v@.len(),
        forall|i: int| 0 <= i < v@.len() ==> call_ensures(f, (v@[i],), #[trigger] r@[i]),
{
    let mut r: Vec<U> = Vec::new();
    for i in 0..v.len()
        invariant
            forall|x: T| #[trigger] call_requires(f, (x,)),
            r@.len() == i,
            forall|j: int| 0 <= j < i ==> call_ensures(f, (v@[j],), #[trigger] r@[j]),
    {
        r.push(f(v[i]));
    }
    r
}

/// A number cut off to 8 bits.
fn i64_to_i8(n: i64) -> (r: i8)
    ensures
        r == n as i8,
{
    #[verifier::truncate]
    (n as i8)
}

/// A number cut off to 16 bits.
fn i64_to_i16(n: i64) -> (r: i16)
    ensures
        r == n as i16,
{
    #[verifier::truncate]
    (n as i16)
}

/// A number cut off to 32 bits.
fn i64_to_i32(n: i64) -> (r: i32)
    ensures
        r == n as i32,
{
    #[verifier::truncate]
    (n as i32)
}

/// A number as it is.
fn keep_i64(n: i64) -> (r: i64)
    ensures
        r == n,
{
    n
}

/// A number cut off to 8 bits.
fn u64_to_u8(n: u64) -> (r: u8)
    ensures
        r == n as u8,
{
    #[verifier::truncate]
    (n as u8)
}

/// A number cut off to 16 bits.
fn u64_to_u16(n: u64) -> (r: u16)
    ensures
        r == n as u16,
{
    #[verifier::truncate]
    (n as u16)
}

/// A number cut off to 32 bits.
fn u64_to_u32(n: u64) -> (r: u32)
    ensures
        r == n as u32,
{
    #[verifier::truncate]
    (n as u32)
}

/// A number as it is.
fn keep_u64(n: u64) -> (r: u64)
    ensures
        r == n,
{
    n
}

/// The signed numbers `v` narrowed to `size` bytes.
pub fn narrow_ints(v: &[i64], size: u8, scalar: bool) -> (r: PyValue)
    ensures
        narrowed_ints(r, v@, size, scalar),
{
    match size {
        1 => {
            let x = mapped(v, i64_to_i8);
            assert(x@ =~= v@.map_values(|n: i64| n as i8));
            PyValue::I8(x, scalar)
        },
        2 => {
            let x = mapped(v, i64_to_i16);
            assert(x@ =~= v@.map_values(|n: i64| n as i16));
            PyValue::I16(x, scalar)
        },
        4 => {
            let x = mapped(v, i64_to_i32);
            assert(x@ =~= v@.map_values(|n: i64| n as i32));
            PyValue::I32(x, scalar)
        },
        _ => {
            let x = mapped(v, keep_i64);
            assert(x@ =~= v@);
            PyValue::I64(x, scalar)
        },
    }
}

/// The unsigned numbers `v` narrowed to `size` bytes.
pub fn narrow_uints(v: &[u64], size: u8, scalar: bool) -> (r: PyValue)
    ensures
        narrowed_uints(r, v@, size, scalar),
{
    match size {
        1 => {
            let x = mapped(v, u64_to_u8);
            assert(x@ =~= v@.map_values(|n: u64| n as u8));
            PyValue::U8(x, scalar)
        },
        2 => {
            let x = mapped(v, u64_to_u16);
            assert(x@ =~= v@.map_values(|n: u64| n as u16));
            PyValue::U16(x, scalar)
        },
        4 => {
            let x = mapped(v, u64_to_u32);
            assert(x@ =~= v@.map_values(|n: u64| n as u32));
            PyValue::U32(x, scalar)
        },
        _ => {
            let x = mapped(v, keep_u64);
            assert(x@ =~= v@);
            PyValue::U64(x, scalar)
        },
    }
}

/// The floating-point numbers with the bits `v`, for `size` bytes.
pub fn narrow_floats(v: &[u64], size: u8, scalar: bool) -> (r: PyValue)
    ensures
        narrowed_floats(r, v@, size, scalar),
{
    let x = mapped(v, keep_u64);
    assert(x@ =~= v@);
    match size {
        4 => PyValue::F32(x, scalar),
        _ => PyValue::F64(x, scalar),
    }
}

/// An attribute value narrowed back to the width that it had in the file: single numbers become
/// scalars, several an array.
pub fn attribute_to_py(a: &AttributeValue) -> (r: PyValue)
    ensures
        narrowed(r, *a),
{
    match a {
        AttributeValue::Str(t) => PyValue::Str(t.clone()),
        AttributeValue::Strs(t) => {
            let mut x: Vec<String> = Vec::new();
            for i in 0..t.len()
                invariant
                    x@ =~= t@.take(i as int),
            {
                x.push(t[i].clone());
            }
            assert(t@.take(t@.len() as int) =~= t@);
            PyValue::Strs(x)
        },
        AttributeValue::Int(n, size) => {
            let v: [i64; 1] = [*n];
            assert(v@ =~= seq![*n]);
            narrow_ints(v.as_slice(), *size, true)
        },
        AttributeValue::Ints(v, size) => narrow_ints(v.as_slice(), *size, false),
        AttributeValue::Uint(n, size) => {
            let v: [u64; 1] = [*n];
            assert(v@ =~= seq![*n]);
            narrow_uints(v.as_slice(), *size, true)
        },
        AttributeValue::Uints(v, size) => narrow_uints(v.as_slice(), *size, false),
        AttributeValue::Float(n, size) => {
            let v: [u64; 1] = [*n];
            assert(v@ =~= seq![*n]);
            narrow_floats(v.as_slice(), *size, true)
        },
        AttributeValue::Floats(v, size) => narrow_floats(v.as_slice(), *size, false),
    }
}

/// Attributes with their values narrowed, in the order of the names.
pub fn attributes_to_py(attrs: &Attributes) -> (r: Vec<(String, PyValue)>)
    ensures
        r@.len() == attrs.size(),
        forall|i: int| 0 <= i < r@.len() ==> (#[trigger] r@[i]).0@ == attrs.name(i),
        forall|i: int| 0 <= i < r@.len() ==> narrowed((#[trigger] r@[i]).1, attrs.value(i)),
{
    let n = attrs.len();
    let mut r: Vec<(String, PyValue)> = Vec::new();
    for i in 0..n
        invariant
            n == attrs.size(),
            r@.len() == i,
            forall|j: int| 0 <= j < i ==> (#[trigger] r@[j]).0@ == attrs.name(j),
            forall|j: int| 0 <= j < i ==> narrowed((#[trigger] r@[j]).1, attrs.value(j)),
    {
        let (name, value) = attrs.at(i);
        r.push((name.to_owned(), attribute_to_py(value)));
    }
    r
}

} // verus!

//! The byte order of elements.
pub use crate::idx::dataset::Order;
use vstd::arithmetic::div_mod::{
    lemma_fundamental_div_mod, lemma_fundamental_div_mod_converse, lemma_mod_bound,
};
use vstd::prelude::*;

verus! {

/// The bytes of elements of `sz` bytes, each element with its bytes in reverse. Bytes behind the
/// last whole element stay as they are.
pub open spec fn swapped(s: Seq<u8>, sz: int) -> Seq<u8> {
    Seq::new(
        s.len(),
        |p: int|
            if p < (s.len() as int / sz) * sz {
                s[(p / sz) * sz + (sz - 1 - p % sz)]
            } else {
                s[p]
            },
    )
}

/// Whether elements in one byte order have to be swapped to be in the other.
pub open spec fn differ(order: Order, native: Order) -> bool {
    (order == Order::BE && native == Order::LE) || (order == Order::LE && native == Order::BE)
}

/// Byte `p` is in an element, and so is the byte that takes its place.
proof fn lemma_mirror(p: int, n: int, sz: int)
    requires
        sz > 0,
        0 <= p < n * sz,
    ensures
        ({
            let q = (p / sz) * sz + (sz - 1 - p % sz);
            &&& 0 <= q < n * sz
            &&& q / sz == p / sz
            &&& q % sz == sz - 1 - p % sz
            &&& (p / sz) * sz + p % sz == p
            &&& 0 <= p / sz
            &&& 0 <= p % sz < sz
        }),
{
    lemma_fundamental_div_mod(p, sz);
    lemma_mod_bound(p, sz);
    let i = p / sz;
    let r = p % sz;
    let q = i * sz + (sz - 1 - r);
    assert(i * sz == sz * i) by (nonlinear_arith);
    assert(0 <= i < n) by (nonlinear_arith)
        requires
            p == sz * i + r,
            0 <= r < sz,
            0 <= p < n * sz,
    ;
    assert(0 <= i * sz && i * sz + sz <= n * sz) by (nonlinear_arith)
        requires
            0 <= i < n,
            sz > 0,
    ;
    lemma_fundamental_div_mod_converse(q, sz, i, sz - 1 - r);
}

/// Swapping twice changes nothing.
pub proof fn lemma_swapped_twice(s: Seq<u8>, sz: int)
    requires
        sz > 0,
    ensures
        swapped(swapped(s, sz), sz) == s,
{
    let t = swapped(s, sz);
    let n = s.len() as int / sz;
    lemma_fundamental_div_mod(s.len() as int, sz);
    lemma_mod_bound(s.len() as int, sz);
    assert(n * sz == sz * n) by (nonlinear_arith);
    assert forall|p: int| 0 <= p < s.len() implies #[trigger] swapped(t, sz)[p] == s[p] by {
        if p < n * sz {
            lemma_mirror(p, n, sz);
            let q = (p / sz) * sz + (sz - 1 - p % sz);
            lemma_mirror(q, n, sz);
        }
    }
    assert(swapped(t, sz) =~= s);
}

/// Swapping reverses the bytes of each element where it stands: those of element `i` are the
/// bytes of element `i`, last first. What follows the last whole element stays as it is.
pub proof fn lemma_swapped_element(s: Seq<u8>, sz: int, n: int, i: int)
    requires
        sz > 0,
        n * sz <= s.len() < n * sz + sz,
        0 <= i < n,
    ensures
        swapped(s, sz).len() == s.len(),
        swapped(s, sz).subrange(i * sz, i * sz + sz) == s.subrange(i * sz, i * sz + sz).reverse(),
        swapped(s, sz).skip(n * sz) == s.skip(n * sz),
{
    lemma_fundamental_div_mod_converse(s.len() as int, sz, n, s.len() - n * sz);
    let a = swapped(s, sz).subrange(i * sz, i * sz + sz);
    let b = s.subrange(i * sz, i * sz + sz).reverse();
    assert(0 <= i * sz && i * sz + sz <= n * sz) by (nonlinear_arith)
        requires
            0 <= i < n,
            sz > 0,
    ;
    assert forall|j: int| 0 <= j < sz implies #[trigger] a[j] == b[j] by {
        lemma_fundamental_div_mod_converse(i * sz + j, sz, i, j);
    }
    assert(a =~= b);
    assert(swapped(s, sz).skip(n * sz) =~= s.skip(n * sz));
}

/// Bytes that do not fill an element stay as they are.
pub proof fn lemma_no_element(s: Seq<u8>, sz: int)
    requires
        s.len() < sz,
    ensures
        swapped(s, sz) == s,
{
    vstd::arithmetic::div_mod::lemma_basic_div(s.len() as int, sz);
    assert(swapped(s, sz) =~= s);
}

/// Elements are swapped exactly where both byte orders are known and not the same.
pub proof fn lemma_differ(order: Order, native: Order)
    ensures
        differ(order, native) <==> order != native && order != Order::Unknown && native
            != Order::Unknown,
{
}

/// Brings elements of `sz` bytes, in the byte order `order`, into the byte order `native`.
pub fn to_native(data: &mut [u8], sz: usize, order: Order, native: Order)
    requires
        sz > 0,
    ensures
        final(data)@ == if differ(order, native) {
            swapped(old(data)@, sz as int)
        } else {
            old(data)@
        },
{
    let swap = match (order, native) {
        (Order::BE, Order::LE) => true,
        (Order::LE, Order::BE) => true,
        _ => false,
    };
    if !swap {
        return;
    }
    let ghost before = data@;
    let n = data.len();
    let whole = n / sz;
    proof {
        lemma_fundamental_div_mod(n as int, sz as int);
        lemma_mod_bound(n as int, sz as int);
        assert(whole * sz == sz * whole) by (nonlinear_arith);
        assert(0 <= whole * sz) by (nonlinear_arith);
    }
    let mut from: Vec<u8> = Vec::new();
    for i in 0..n
        invariant
            n == data@.len(),
            from@ =~= data@.take(i as int),
    {
        from.push(data[i]);
    }
    let end = whole * sz;
    let mut p: usize = 0;
    while p < end
        invariant
            sz > 0,
            from@ == before,
            n == before.len(),
            n == data@.len(),
            p <= end <= n,
            end == whole * sz,
            whole == n / sz,
            forall|j: int| 0 <= j < p ==> #[trigger] data@[j] == swapped(before, sz as int)[j],
            forall|j: int| p <= j < n ==> #[trigger] data@[j] == before[j],
        decreases end - p,
    {
        proof {
            lemma_mirror(p as int, whole as int, sz as int);
        }
        let v = from[(p / sz) * sz + (sz - 1 - p % sz)];
        data[p] = v;
        p = p + 1;
    }
    assert(data@ =~= swapped(before, sz as int));
}

} // verus!

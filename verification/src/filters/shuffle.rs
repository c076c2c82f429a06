//! The shuffle filter: the first bytes of all elements, then the second bytes, and so on.
//!
//! Bytes behind the last whole element stay where they are.
use vstd::arithmetic::div_mod::{
    lemma_div_pos_is_pos, lemma_fundamental_div_mod, lemma_fundamental_div_mod_converse,
    lemma_mod_bound,
};
use vstd::arithmetic::mul::{
    lemma_mul_inequality, lemma_mul_is_commutative, lemma_mul_is_distributive_add_other_way,
    lemma_mul_nonnegative,
};
use vstd::prelude::*;

verus! {

/// The bytes of elements of `sz` bytes, shuffled.
pub open spec fn shuffled(s: Seq<u8>, sz: int) -> Seq<u8> {
    let n = s.len() as int / sz;
    Seq::new(
        s.len(),
        |p: int|
            if p < n * sz {
                s[(p % n) * sz + p / n]
            } else {
                s[p]
            },
    )
}

/// The bytes of elements of `sz` bytes that `s` holds shuffled: byte `j` of element `i` is
/// byte `i` of the `j`-th run.
pub open spec fn unshuffled(s: Seq<u8>, sz: int) -> Seq<u8> {
    let n = s.len() as int / sz;
    Seq::new(
        s.len(),
        |p: int|
            if p < n * sz {
                s[(p % sz) * n + p / sz]
            } else {
                s[p]
            },
    )
}

/// With `p` below `a * b`, the parts of `p` counted in runs of `b`.
proof fn lemma_parts(p: int, a: int, b: int)
    requires
        0 <= p < a * b,
        a >= 0,
        b >= 0,
    ensures
        b > 0,
        0 <= p / b < a,
        0 <= p % b < b,
        p == (p / b) * b + p % b,
{
    assert(b > 0) by (nonlinear_arith)
        requires
            0 < a * b,
            b >= 0,
    ;
    lemma_fundamental_div_mod(p, b);
    lemma_mod_bound(p, b);
    lemma_div_pos_is_pos(p, b);
    lemma_mul_is_commutative(p / b, b);
    assert(p / b < a) by (nonlinear_arith)
        requires
            p == (p / b) * b + p % b,
            0 <= p % b,
            p < a * b,
            b > 0,
    ;
}

/// The `j`-th of `b` places in the `i`-th of `a` runs.
proof fn lemma_place(i: int, j: int, a: int, b: int)
    requires
        0 <= i < a,
        0 <= j < b,
    ensures
        0 <= i * b + j < a * b,
        (i * b + j) / b == i,
        (i * b + j) % b == j,
{
    lemma_mul_nonnegative(i, b);
    lemma_mul_inequality(i + 1, a, b);
    lemma_mul_is_distributive_add_other_way(b, i, 1);
    lemma_fundamental_div_mod_converse(i * b + j, b, i, j);
}

/// Unshuffling undoes shuffling.
pub proof fn lemma_unshuffle_shuffle(s: Seq<u8>, sz: int)
    requires
        sz > 0,
    ensures
        unshuffled(shuffled(s, sz), sz) == s,
{
    let n = s.len() as int / sz;
    lemma_whole(s.len() as int, sz);
    let t = shuffled(s, sz);
    assert forall|p: int| 0 <= p < s.len() implies unshuffled(t, sz)[p] == s[p] by {
        if p < n * sz {
            lemma_parts(p, n, sz);
            lemma_place(p % sz, p / sz, sz, n);
            lemma_mul_is_commutative(sz, n);
        }
    }
    assert(unshuffled(t, sz) =~= s);
}

/// Shuffling undoes unshuffling.
pub proof fn lemma_shuffle_unshuffle(s: Seq<u8>, sz: int)
    requires
        sz > 0,
    ensures
        shuffled(unshuffled(s, sz), sz) == s,
{
    let n = s.len() as int / sz;
    lemma_whole(s.len() as int, sz);
    let t = unshuffled(s, sz);
    assert forall|p: int| 0 <= p < s.len() implies shuffled(t, sz)[p] == s[p] by {
        if p < n * sz {
            lemma_mul_is_commutative(sz, n);
            lemma_parts(p, sz, n);
            lemma_place(p % n, p / n, n, sz);
        }
    }
    assert(shuffled(t, sz) =~= s);
}

/// Unshuffling gathers the bytes of each element: of `n` elements of `sz` bytes, stored as `sz`
/// runs of `n` bytes, byte `j` of element `i` was byte `i` of run `j`. What follows them stays
/// where it is, and nothing is added or lost.
pub proof fn lemma_unshuffled_byte(s: Seq<u8>, sz: int, n: int, i: int, j: int)
    requires
        sz > 0,
        n * sz <= s.len() < n * sz + sz,
        0 <= i < n,
        0 <= j < sz,
    ensures
        unshuffled(s, sz).len() == s.len(),
        unshuffled(s, sz)[i * sz + j] == s[j * n + i],
        unshuffled(s, sz).skip(n * sz) == s.skip(n * sz),
{
    lemma_fundamental_div_mod_converse(s.len() as int, sz, n, s.len() - n * sz);
    lemma_place(i, j, n, sz);
    assert(unshuffled(s, sz).skip(n * sz) =~= s.skip(n * sz));
}

/// Bytes that do not fill an element stay where they are.
pub proof fn lemma_no_element(s: Seq<u8>, sz: int)
    requires
        s.len() < sz,
    ensures
        unshuffled(s, sz) == s,
        shuffled(s, sz) == s,
{
    vstd::arithmetic::div_mod::lemma_basic_div(s.len() as int, sz);
    assert(unshuffled(s, sz) =~= s);
    assert(shuffled(s, sz) =~= s);
}

/// Shuffling takes the elements apart: of `n` elements of `sz` bytes, byte `j` of element `i`
/// becomes byte `i` of run `j`. What follows them stays where it is.
pub proof fn lemma_shuffled_byte(s: Seq<u8>, sz: int, n: int, i: int, j: int)
    requires
        sz > 0,
        n * sz <= s.len() < n * sz + sz,
        0 <= i < n,
        0 <= j < sz,
    ensures
        shuffled(s, sz).len() == s.len(),
        shuffled(s, sz)[j * n + i] == s[i * sz + j],
        shuffled(s, sz).skip(n * sz) == s.skip(n * sz),
{
    lemma_fundamental_div_mod_converse(s.len() as int, sz, n, s.len() - n * sz);
    lemma_mul_is_commutative(sz, n);
    lemma_place(j, i, sz, n);
    assert(shuffled(s, sz).skip(n * sz) =~= s.skip(n * sz));
}

/// The whole elements are no longer than the bytes that hold them.
proof fn lemma_whole(len: int, sz: int)
    requires
        sz > 0,
        len >= 0,
    ensures
        0 <= len / sz,
        0 <= (len / sz) * sz <= len,
{
    lemma_fundamental_div_mod(len, sz);
    lemma_mod_bound(len, sz);
    lemma_div_pos_is_pos(len, sz);
    lemma_mul_is_commutative(len / sz, sz);
    lemma_mul_nonnegative(len / sz, sz);
}

/// Undoes the shuffle filter on elements of `sz` bytes.
pub fn unshuffle_sized(src: &[u8], sz: usize) -> (r: Vec<u8>)
    requires
        sz > 0,
    ensures
        r@ == unshuffled(src@, sz as int),
{
    let len = src.len();
    let n = len / sz;
    let mut out: Vec<u8> = Vec::with_capacity(len);
    proof {
        lemma_whole(len as int, sz as int);
    }
    let mut i: usize = 0;
    while i < n
        invariant
            sz > 0,
            len == src@.len(),
            n == len as int / sz as int,
            0 <= n * sz <= len,
            i <= n,
            out@.len() == i * sz,
            forall|p: int|
                0 <= p < out@.len() ==> #[trigger] out@[p] == unshuffled(src@, sz as int)[p],
        decreases n - i,
    {
        let mut j: usize = 0;
        while j < sz
            invariant
                sz > 0,
                len == src@.len(),
                n == len as int / sz as int,
                0 <= n * sz <= len,
                i < n,
                j <= sz,
                out@.len() == i * sz + j,
                forall|p: int|
                    0 <= p < out@.len() ==> #[trigger] out@[p] == unshuffled(src@, sz as int)[p],
            decreases sz - j,
        {
            proof {
                lemma_place(i as int, j as int, n as int, sz as int);
                lemma_place(j as int, i as int, sz as int, n as int);
                lemma_mul_is_commutative(sz as int, n as int);
                lemma_mul_nonnegative(j as int, n as int);
            }
            out.push(src[j * n + i]);
            j = j + 1;
        }
        proof {
            lemma_mul_is_distributive_add_other_way(sz as int, i as int, 1);
        }
        i = i + 1;
    }
    let mut p: usize = n * sz;
    while p < len
        invariant
            len == src@.len(),
            n == len as int / sz as int,
            n * sz <= p <= len,
            out@.len() == p,
            forall|q: int|
                0 <= q < out@.len() ==> #[trigger] out@[q] == unshuffled(src@, sz as int)[q],
        decreases len - p,
    {
        out.push(src[p]);
        p = p + 1;
    }
    assert(out@ =~= unshuffled(src@, sz as int));
    out
}

} // verus!

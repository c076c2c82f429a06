//! Row-major positions in multi-dimensional arrays.
//!
//! An array of shape `n` stores the element at coordinates `x` at the linear position
//! `position(x, n)`; `coords` is the inverse.
use vstd::arithmetic::div_mod::{
    lemma_div_pos_is_pos, lemma_fundamental_div_mod, lemma_fundamental_div_mod_converse,
    lemma_mod_bound,
};
use vstd::arithmetic::mul::{
    lemma_mul_inequality, lemma_mul_is_commutative, lemma_mul_is_distributive_add_other_way,
    lemma_mul_nonnegative, lemma_mul_strictly_positive, lemma_mul_upper_bound,
};
use vstd::prelude::*;

verus! {

/// The number of elements of an array of shape `n`.
pub open spec fn product(n: Seq<u64>) -> int
    decreases n.len(),
{
    if n.len() == 0 {
        1
    } else {
        n[0] * product(n.drop_first())
    }
}

/// Whether `x` are the coordinates of an element of an array of shape `n`.
pub open spec fn in_box(x: Seq<int>, n: Seq<u64>) -> bool {
    &&& x.len() == n.len()
    &&& forall|i: int| 0 <= i < n.len() ==> 0 <= #[trigger] x[i] < n[i]
}

/// The row-major position of the element at coordinates `x` of an array of shape `n`.
pub open spec fn position(x: Seq<int>, n: Seq<u64>) -> int
    decreases n.len(),
{
    if n.len() == 0 {
        0
    } else {
        x[0] * product(n.drop_first()) + position(x.drop_first(), n.drop_first())
    }
}

/// The coordinates of the element at row-major position `p` of an array of shape `n`.
pub open spec fn coords(p: int, n: Seq<u64>) -> Seq<int>
    decreases n.len(),
{
    if n.len() == 0 {
        Seq::empty()
    } else {
        let w = product(n.drop_first());
        seq![p / w] + coords(p % w, n.drop_first())
    }
}

/// Coordinates are those of an element exactly where there is one for each dimension, at least 0
/// and below the length.
pub proof fn lemma_in_box(x: Seq<int>, n: Seq<u64>)
    ensures
        in_box(x, n) <==> x.len() == n.len() && forall|i: int|
            0 <= i < n.len() ==> 0 <= #[trigger] x[i] < n[i],
{
}

/// No number of elements is negative.
pub proof fn lemma_product_nonnegative(n: Seq<u64>)
    ensures
        product(n) >= 0,
    decreases n.len(),
{
    if n.len() > 0 {
        lemma_product_nonnegative(n.drop_first());
        lemma_mul_nonnegative(n[0] as int, product(n.drop_first()));
    }
}

/// An array has an element exactly where all its dimensions do.
pub proof fn lemma_product_positive(n: Seq<u64>)
    ensures
        product(n) > 0 <==> (forall|i: int| 0 <= i < n.len() ==> #[trigger] n[i] > 0),
    decreases n.len(),
{
    if n.len() > 0 {
        let rest = n.drop_first();
        lemma_product_positive(rest);
        lemma_product_nonnegative(rest);
        if forall|i: int| 0 <= i < n.len() ==> #[trigger] n[i] > 0 {
            assert forall|i: int| 0 <= i < rest.len() implies #[trigger] rest[i] > 0 by {
                assert(rest[i] == n[i + 1]);
            }
            lemma_mul_strictly_positive(n[0] as int, product(rest));
        } else {
            let i = choose|i: int| 0 <= i < n.len() && !(#[trigger] n[i] > 0);
            if i > 0 {
                assert(rest[i - 1] == n[i]);
                assert(product(rest) == 0);
            }
            assert(n[0] * product(rest) == 0) by (nonlinear_arith)
                requires
                    n[0] == 0 || product(rest) == 0,
            ;
        }
    }
}

/// Leaving leading dimensions off an array that has elements does not add to them.
pub proof fn lemma_product_skip(n: Seq<u64>, i: int)
    requires
        0 <= i <= n.len(),
        product(n) > 0,
    ensures
        0 < product(n.skip(i)) <= product(n),
    decreases i,
{
    lemma_product_positive(n);
    lemma_product_positive(n.skip(i));
    assert forall|j: int| 0 <= j < n.skip(i).len() implies #[trigger] n.skip(i)[j] > 0 by {
        assert(n.skip(i)[j] == n[j + i]);
    }
    if i == 0 {
        assert(n.skip(0) =~= n);
    } else {
        lemma_product_skip(n, i - 1);
        assert(n.skip(i - 1).drop_first() =~= n.skip(i));
        assert(n.skip(i - 1)[0] == n[i - 1]);
        lemma_mul_inequality(1, n[i - 1] as int, product(n.skip(i)));
    }
}

/// An array that is no longer along any dimension has no more elements.
pub proof fn lemma_product_within(n: Seq<u64>, s: Seq<u64>)
    requires
        n.len() == s.len(),
        forall|i: int| 0 <= i < n.len() ==> #[trigger] n[i] <= s[i],
    ensures
        product(n) <= product(s),
    decreases n.len(),
{
    if n.len() > 0 {
        let a = n.drop_first();
        let b = s.drop_first();
        assert forall|i: int| 0 <= i < a.len() implies #[trigger] a[i] <= b[i] by {
            assert(n[i + 1] <= s[i + 1]);
        }
        lemma_product_within(a, b);
        lemma_product_nonnegative(a);
        lemma_mul_upper_bound(n[0] as int, s[0] as int, product(a), product(b));
    }
}

/// An element's position is below the number of elements.
pub proof fn lemma_position_bound(x: Seq<int>, n: Seq<u64>)
    requires
        in_box(x, n),
    ensures
        0 <= position(x, n) < product(n),
    decreases n.len(),
{
    if n.len() > 0 {
        let rest = n.drop_first();
        let tail = x.drop_first();
        assert(in_box(tail, rest)) by {
            assert forall|i: int| 0 <= i < rest.len() implies 0 <= #[trigger] tail[i] < rest[i] by {
                assert(tail[i] == x[i + 1]);
            }
        }
        lemma_position_bound(tail, rest);
        let w = product(rest);
        lemma_mul_nonnegative(x[0], w);
        lemma_mul_inequality(x[0] + 1, n[0] as int, w);
        lemma_mul_is_distributive_add_other_way(w, x[0], 1);
    }
}

/// `coords` undoes `position`.
pub proof fn lemma_coords_of_position(x: Seq<int>, n: Seq<u64>)
    requires
        in_box(x, n),
    ensures
        coords(position(x, n), n) == x,
    decreases n.len(),
{
    if n.len() > 0 {
        let rest = n.drop_first();
        let tail = x.drop_first();
        assert(in_box(tail, rest)) by {
            assert forall|i: int| 0 <= i < rest.len() implies 0 <= #[trigger] tail[i] < rest[i] by {
                assert(tail[i] == x[i + 1]);
            }
        }
        lemma_position_bound(tail, rest);
        lemma_coords_of_position(tail, rest);
        let w = product(rest);
        lemma_fundamental_div_mod_converse(position(x, n), w, x[0], position(tail, rest));
        assert(seq![x[0]] + tail =~= x);
    }
    assert(coords(position(x, n), n) =~= x);
}

/// `position` undoes `coords`, and `coords` stays inside the array.
pub proof fn lemma_position_of_coords(p: int, n: Seq<u64>)
    requires
        0 <= p < product(n),
    ensures
        in_box(coords(p, n), n),
        position(coords(p, n), n) == p,
    decreases n.len(),
{
    if n.len() > 0 {
        let rest = n.drop_first();
        let w = product(rest);
        lemma_product_nonnegative(rest);
        assert(w > 0) by (nonlinear_arith)
            requires
                w >= 0,
                n[0] * w > 0,
        ;
        lemma_mod_bound(p, w);
        lemma_position_of_coords(p % w, rest);
        lemma_fundamental_div_mod(p, w);
        lemma_div_pos_is_pos(p, w);
        assert(p / w < n[0]) by (nonlinear_arith)
            requires
                p == w * (p / w) + p % w,
                p < n[0] * w,
                0 <= p % w,
                w > 0,
        ;
        let x = coords(p, n);
        assert(x[0] == p / w);
        assert(x.drop_first() =~= coords(p % w, rest));
        lemma_mul_is_commutative(p / w, w);
        assert forall|i: int| 0 <= i < n.len() implies 0 <= #[trigger] x[i] < n[i] by {
            if i > 0 {
                assert(x[i] == coords(p % w, rest)[i - 1]);
                assert(rest[i - 1] == n[i]);
            }
        }
    }
}

/// An array along no dimension has one element, one along a single dimension as many as it is
/// long, and one along more dimensions as many as the parts of its shape multiply to.
pub proof fn lemma_product_parts(a: Seq<u64>, b: Seq<u64>, k: u64)
    ensures
        product(Seq::empty()) == 1,
        product(seq![k]) == k,
        product(a + b) == product(a) * product(b),
    decreases a.len(),
{
    assert(seq![k].drop_first() =~= Seq::empty());
    assert(product(seq![k]) == k * product(seq![k].drop_first()));
    assert(product(Seq::empty()) == 1);
    if a.len() == 0 {
        assert(a + b =~= b);
    } else {
        let rest = a.drop_first();
        lemma_product_parts(rest, b, k);
        assert((a + b).drop_first() =~= rest + b);
        assert(a[0] * (product(rest) * product(b)) == (a[0] * product(rest)) * product(b))
            by (nonlinear_arith);
    }
}

/// The first element is at position 0, and a step along dimension `i` passes the elements of all
/// the dimensions that follow it.
pub proof fn lemma_position_step(x: Seq<int>, n: Seq<u64>, i: int)
    requires
        x.len() == n.len(),
        0 <= i < n.len(),
    ensures
        position(Seq::new(n.len(), |j: int| 0), n) == 0,
        position(x.update(i, x[i] + 1), n) == position(x, n) + product(n.skip(i + 1)),
    decreases n.len(),
{
    lemma_position_zero(n);
    let rest = n.drop_first();
    let y = x.update(i, x[i] + 1);
    if i == 0 {
        assert(y.drop_first() =~= x.drop_first());
        assert(n.skip(1) =~= rest);
        lemma_mul_is_distributive_add_other_way(product(rest), x[0], 1);
    } else {
        lemma_position_step(x.drop_first(), rest, i - 1);
        assert(y.drop_first() =~= x.drop_first().update(i - 1, x[i] + 1));
        assert(rest.skip(i) =~= n.skip(i + 1));
    }
}

/// The first element is at position 0.
proof fn lemma_position_zero(n: Seq<u64>)
    ensures
        position(Seq::new(n.len(), |j: int| 0), n) == 0,
    decreases n.len(),
{
    if n.len() > 0 {
        let z = Seq::new(n.len(), |j: int| 0int);
        lemma_position_zero(n.drop_first());
        assert(z.drop_first() =~= Seq::new(n.drop_first().len(), |j: int| 0int));
        assert(0 * product(n.drop_first()) == 0);
    }
}

/// Elements are stored in the order of their coordinates, the first coordinate in which they
/// differ deciding.
pub proof fn lemma_position_order(x: Seq<int>, y: Seq<int>, n: Seq<u64>, k: int)
    requires
        in_box(x, n),
        in_box(y, n),
        0 <= k < n.len(),
        x.take(k) == y.take(k),
        x[k] < y[k],
    ensures
        position(x, n) < position(y, n),
    decreases n.len(),
{
    let rest = n.drop_first();
    let w = product(rest);
    assert forall|i: int| 0 <= i < rest.len() implies 0 <= #[trigger] x.drop_first()[i]
        < rest[i] by {
        assert(x[i + 1] < n[i + 1]);
    }
    assert forall|i: int| 0 <= i < rest.len() implies 0 <= #[trigger] y.drop_first()[i]
        < rest[i] by {
        assert(y[i + 1] < n[i + 1]);
    }
    lemma_position_bound(x.drop_first(), rest);
    lemma_position_bound(y.drop_first(), rest);
    if k == 0 {
        lemma_mul_inequality(x[0] + 1, y[0], w);
        lemma_mul_is_distributive_add_other_way(w, x[0], 1);
    } else {
        assert(x[0] == x.take(k)[0]);
        assert(y[0] == y.take(k)[0]);
        assert(x.drop_first().take(k - 1) =~= x.take(k).drop_first());
        assert(y.drop_first().take(k - 1) =~= y.take(k).drop_first());
        lemma_position_order(x.drop_first(), y.drop_first(), rest, k - 1);
    }
}

/// The number of elements of an array of shape `n`, where it fits.
pub fn checked_count(n: &[u64]) -> (r: Option<u64>)
    ensures
        match r {
            Some(c) => c == product(n@),
            None => product(n@) > u64::MAX,
        },
{
    let d = n.len();
    for i in 0..d
        invariant
            d == n@.len(),
            forall|j: int| 0 <= j < i ==> #[trigger] n@[j] > 0,
    {
        if n[i] == 0 {
            proof {
                lemma_product_positive(n@);
                lemma_product_nonnegative(n@);
            }
            return Some(0);
        }
    }
    proof {
        lemma_product_positive(n@);
        assert(n@.skip(d as int) =~= Seq::empty());
    }
    let mut i: usize = d;
    let mut w: u64 = 1;
    while i > 0
        invariant
            i <= d,
            d == n@.len(),
            0 < product(n@),
            w == product(n@.skip(i as int)),
        decreases i,
    {
        i = i - 1;
        proof {
            assert(n@.skip(i as int).drop_first() =~= n@.skip(i + 1));
            lemma_product_skip(n@, i as int);
            assert(n@.skip(i as int)[0] == n@[i as int]);
        }
        match n[i].checked_mul(w) {
            Some(v) => {
                w = v;
            },
            None => {
                return None;
            },
        }
    }
    assert(n@.skip(0) =~= n@);
    Some(w)
}

/// The number of elements of an array of shape `n`.
pub fn count(n: &[u64]) -> (r: u64)
    requires
        product(n@) <= u64::MAX,
    ensures
        r == product(n@),
{
    checked_count(n).unwrap()
}

/// Coordinates as integers.
pub open spec fn as_ints(x: Seq<u64>) -> Seq<int> {
    Seq::new(x.len(), |i: int| x[i] as int)
}

/// Coordinates as integers are the same coordinates.
pub proof fn lemma_as_ints(x: Seq<u64>)
    ensures
        as_ints(x).len() == x.len(),
        forall|i: int| 0 <= i < x.len() ==> #[trigger] as_ints(x)[i] == x[i],
{
}

/// The row-major position of the element at coordinates `x` of an array of shape `n`.
pub fn position_of(x: &[u64], n: &[u64]) -> (r: u64)
    requires
        in_box(as_ints(x@), n@),
        product(n@) <= u64::MAX,
    ensures
        r == position(as_ints(x@), n@),
{
    let d = n.len();
    let ghost y = as_ints(x@);
    proof {
        lemma_position_bound(y, n@);
        assert(n@.skip(d as int) =~= Seq::empty());
    }
    let mut i: usize = d;
    let mut w: u64 = 1;
    let mut p: u64 = 0;
    while i > 0
        invariant
            i <= d,
            d == n@.len(),
            d == x@.len(),
            y == as_ints(x@),
            in_box(y, n@),
            0 < product(n@) <= u64::MAX,
            w == product(n@.skip(i as int)),
            p == position(y.skip(i as int), n@.skip(i as int)),
        decreases i,
    {
        i = i - 1;
        proof {
            let b = n@.skip(i as int);
            let z = y.skip(i as int);
            assert(b.drop_first() =~= n@.skip(i + 1));
            assert(z.drop_first() =~= y.skip(i + 1));
            assert(b[0] == n@[i as int]);
            assert(z[0] == x@[i as int]);
            lemma_product_skip(n@, i as int);
            assert forall|j: int| 0 <= j < b.len() implies 0 <= #[trigger] z[j] < b[j] by {
                assert(z[j] == y[j + i]);
            }
            lemma_position_bound(z, b);
            let t = z.drop_first();
            assert forall|j: int| 0 <= j < t.len() implies 0 <= #[trigger] t[j]
                < b.drop_first()[j] by {
                assert(t[j] == y[j + i + 1]);
            }
            lemma_position_bound(t, b.drop_first());
            lemma_mul_nonnegative(z[0], w as int);
        }
        p = x[i] * w + p;
        w = n[i] * w;
    }
    assert(n@.skip(0) =~= n@);
    assert(y.skip(0) =~= y);
    p
}

} // verus!

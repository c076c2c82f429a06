//! Which elements of which chunks make up a selection of a dataset.
use super::dataset::{chunks_along, Chunk, ChunkSlice, Dataset};
use crate::extent::{Region, Selection};
use crate::layout::{
    coords, in_box, lemma_coords_of_position, lemma_position_bound, lemma_position_of_coords,
    lemma_product_positive, lemma_product_skip, lemma_product_within, position, product,
};
use vstd::arithmetic::div_mod::{
    lemma_div_pos_is_pos, lemma_fundamental_div_mod, lemma_fundamental_div_mod_converse,
    lemma_mod_bound,
};
use vstd::arithmetic::mul::{
    lemma_mul_inequality, lemma_mul_is_commutative, lemma_mul_is_distributive_add_other_way,
};
use vstd::prelude::*;

verus! {

/// The part of a selection that one chunk holds: along each dimension, the elements from `lo`
/// up to `hi`. The selection starts at `start` and has shape `counts`; the chunk starts at
/// `origin` and has shape `chunk`. The strides are those of the selection and of the chunk.
struct Window<'w> {
    start: &'w [u64],
    counts: &'w [u64],
    origin: &'w [u64],
    chunk: &'w [u64],
    lo: &'w [u64],
    hi: &'w [u64],
    out_stride: &'w [u64],
    in_stride: &'w [u64],
}

/// The coordinates `y` along dimension `i` and those that follow, counted from `origin`.
spec fn relative(y: Seq<int>, origin: Seq<u64>, i: int) -> Seq<int> {
    Seq::new(y.len(), |j: int| y[j] - origin[i + j])
}

/// Whether `s` are the row-major strides of an array of shape `n`.
spec fn are_strides(s: Seq<u64>, n: Seq<u64>) -> bool {
    &&& s.len() == n.len()
    &&& forall|i: int| 0 <= i < n.len() ==> #[trigger] s[i] == product(n.skip(i + 1))
}

impl Window<'_> {
    spec fn rank(self) -> int {
        self.start@.len() as int
    }

    spec fn bounded(self, j: int) -> bool {
        &&& self.start@[j] <= self.lo@[j] < self.hi@[j]
        &&& self.hi@[j] <= self.start@[j] + self.counts@[j]
        &&& self.origin@[j] <= self.lo@[j]
        &&& self.hi@[j] <= self.origin@[j] + self.chunk@[j]
    }

    spec fn wf(self) -> bool {
        &&& self.counts@.len() == self.rank()
        &&& self.origin@.len() == self.rank()
        &&& self.chunk@.len() == self.rank()
        &&& self.lo@.len() == self.rank()
        &&& self.hi@.len() == self.rank()
        &&& forall|j: int| 0 <= j < self.rank() ==> #[trigger] self.bounded(j)
        &&& are_strides(self.out_stride@, self.counts@)
        &&& are_strides(self.in_stride@, self.chunk@)
        &&& 0 < product(self.counts@) <= u64::MAX
        &&& 0 < product(self.chunk@) <= u64::MAX
    }

    /// Whether `y` are coordinates inside the window along dimension `i` and those that follow.
    spec fn tail(self, i: int, y: Seq<int>) -> bool {
        &&& y.len() == self.rank() - i
        &&& forall|j: int|
            0 <= j < y.len() ==> self.lo@[i + j] <= #[trigger] y[j] < self.hi@[i + j]
    }

    spec fn out_pos(self, i: int, y: Seq<int>) -> int {
        position(relative(y, self.start@, i), self.counts@.skip(i))
    }

    spec fn in_pos(self, i: int, y: Seq<int>) -> int {
        position(relative(y, self.origin@, i), self.chunk@.skip(i))
    }

    /// Whether the slices `s` are those of the window along dimension `i` and those that follow,
    /// as far as the coordinate along dimension `i` is below `x`. The elements are read from
    /// position `cb` on, and from position `sb` of the chunk on.
    spec fn sliced<const D: usize>(
        self,
        i: int,
        cb: int,
        sb: int,
        x: int,
        s: Seq<ChunkSlice<'_, D>>,
    ) -> bool {
        &&& forall|a: int| 0 <= a < s.len() ==> self.slice_within(i, cb, sb, x, #[trigger] s[a])
        &&& forall|a: int, b: int|
            0 <= a < b < s.len() ==> (#[trigger] s[a]).current + (s[a].end - s[a].start) <= (
            #[trigger] s[b]).current
        &&& forall|y: Seq<int>| #[trigger]
            self.tail(i, y) && y[0] < x ==> exists|a: int|
                0 <= a < s.len() && (#[trigger] s[a]).maps(
                    cb + self.out_pos(i, y),
                    sb + self.in_pos(i, y),
                )
        &&& forall|a: int, q: int|
            0 <= a < s.len() && #[trigger] s[a].covers(q) ==> exists|y: Seq<int>| #[trigger]
                self.tail(i, y) && q == cb + self.out_pos(i, y) && s[a].maps(
                    q,
                    sb + self.in_pos(i, y),
                )
    }

    spec fn slice_within<const D: usize>(
        self,
        i: int,
        cb: int,
        sb: int,
        x: int,
        e: ChunkSlice<'_, D>,
    ) -> bool {
        &&& e.start < e.end <= sb + product(self.chunk@.skip(i))
        &&& cb <= e.current
        &&& e.current + (e.end - e.start) <= cb + (x - self.start@[i]) * self.out_stride@[i]
    }

    /// Positions along the dimensions from `i` on, split at dimension `i`.
    proof fn lemma_split(self, i: int, y: Seq<int>)
        requires
            self.wf(),
            0 <= i < self.rank(),
            self.tail(i, y),
        ensures
            self.tail(i + 1, y.drop_first()),
            self.out_pos(i, y) == (y[0] - self.start@[i]) * self.out_stride@[i] + self.out_pos(
                i + 1,
                y.drop_first(),
            ),
            self.in_pos(i, y) == (y[0] - self.origin@[i]) * self.in_stride@[i] + self.in_pos(
                i + 1,
                y.drop_first(),
            ),
    {
        let z = y.drop_first();
        assert(self.tail(i + 1, z)) by {
            assert forall|j: int| 0 <= j < z.len() implies self.lo@[i + 1 + j] <= #[trigger] z[j]
                < self.hi@[i + 1 + j] by {
                assert(z[j] == y[j + 1]);
                assert(i + 1 + j == i + (j + 1));
            }
        }
        assert(self.counts@.skip(i).drop_first() =~= self.counts@.skip(i + 1));
        assert(self.chunk@.skip(i).drop_first() =~= self.chunk@.skip(i + 1));
        assert(relative(y, self.start@, i).drop_first() =~= relative(z, self.start@, i + 1)) by {
            assert forall|j: int| 0 <= j < z.len() implies relative(
                y,
                self.start@,
                i,
            ).drop_first()[j] == relative(z, self.start@, i + 1)[j] by {
                assert(i + (j + 1) == i + 1 + j);
            }
        }
        assert(relative(y, self.origin@, i).drop_first() =~= relative(z, self.origin@, i + 1)) by {
            assert forall|j: int| 0 <= j < z.len() implies relative(
                y,
                self.origin@,
                i,
            ).drop_first()[j] == relative(z, self.origin@, i + 1)[j] by {
                assert(i + (j + 1) == i + 1 + j);
            }
        }
    }

    /// Elements of the window lie inside the selection and inside the chunk.
    proof fn lemma_inside(self, i: int, y: Seq<int>)
        requires
            self.wf(),
            0 <= i <= self.rank(),
            self.tail(i, y),
        ensures
            in_box(relative(y, self.start@, i), self.counts@.skip(i)),
            in_box(relative(y, self.origin@, i), self.chunk@.skip(i)),
            0 <= self.out_pos(i, y) < product(self.counts@.skip(i)),
            0 <= self.in_pos(i, y) < product(self.chunk@.skip(i)),
    {
        let u = relative(y, self.start@, i);
        let v = relative(y, self.origin@, i);
        assert forall|j: int| 0 <= j < y.len() implies 0 <= #[trigger] u[j] < self.counts@.skip(
            i,
        )[j] by {
            assert(self.lo@[i + j] <= y[j] < self.hi@[i + j]);
            assert(self.bounded(i + j));
        }
        assert forall|j: int| 0 <= j < y.len() implies 0 <= #[trigger] v[j] < self.chunk@.skip(
            i,
        )[j] by {
            assert(self.lo@[i + j] <= y[j] < self.hi@[i + j]);
            assert(self.bounded(i + j));
        }
        lemma_position_bound(u, self.counts@.skip(i));
        lemma_position_bound(v, self.chunk@.skip(i));
    }

    /// Along the last dimension the window is one slice.
    proof fn lemma_last<const D: usize>(
        self,
        i: int,
        cb: int,
        sb: int,
        e: ChunkSlice<'_, D>,
    )
        requires
            self.wf(),
            i == self.rank() - 1,
            0 <= i,
            e.current == cb + (self.lo@[i] - self.start@[i]),
            e.start == sb + (self.lo@[i] - self.origin@[i]),
            e.end == sb + (self.hi@[i] - self.origin@[i]),
        ensures
            self.sliced(i, cb, sb, self.hi@[i] as int, seq![e]),
    {
        let s = seq![e];
        let x = self.hi@[i] as int;
        assert(self.bounded(i));
        assert(self.counts@.skip(i + 1) =~= Seq::empty());
        assert(self.chunk@.skip(i + 1) =~= Seq::empty());
        assert(self.chunk@.skip(i).drop_first() =~= self.chunk@.skip(i + 1));
        assert(self.out_stride@[i] == 1);
        assert(self.in_stride@[i] == 1);
        assert(product(self.chunk@.skip(i)) == self.chunk@[i] * 1);
        assert forall|y: Seq<int>| #[trigger] self.tail(i, y) implies self.out_pos(i, y) == y[0]
            - self.start@[i] && self.in_pos(i, y) == y[0] - self.origin@[i] by {
            self.lemma_split(i, y);
        }
        assert forall|y: Seq<int>| #[trigger] self.tail(i, y) && y[0] < x implies exists|a: int|
            0 <= a < s.len() && (#[trigger] s[a]).maps(
                cb + self.out_pos(i, y),
                sb + self.in_pos(i, y),
            ) by {
            assert(self.lo@[i + 0] <= y[0] < self.hi@[i + 0]);
            assert(s[0].maps(cb + self.out_pos(i, y), sb + self.in_pos(i, y)));
        }
        assert forall|a: int, q: int| 0 <= a < s.len() && #[trigger] s[a].covers(q) implies exists|
            y: Seq<int>,
        | #[trigger]
            self.tail(i, y) && q == cb + self.out_pos(i, y) && s[a].maps(
                q,
                sb + self.in_pos(i, y),
            ) by {
            let y = seq![q - cb + self.start@[i]];
            assert(self.tail(i, y));
        }
    }

    /// The slices below coordinate `x` along dimension `i` and those at `x` are the slices
    /// below `x + 1`.
    proof fn lemma_step<const D: usize>(
        self,
        i: int,
        cb: int,
        sb: int,
        x: int,
        s: Seq<ChunkSlice<'_, D>>,
        t: Seq<ChunkSlice<'_, D>>,
    )
        requires
            self.wf(),
            0 <= i < self.rank() - 1,
            self.lo@[i] <= x < self.hi@[i],
            self.sliced(i, cb, sb, x, s),
            self.sliced(
                i + 1,
                cb + (x - self.start@[i]) * self.out_stride@[i],
                sb + (x - self.origin@[i]) * self.in_stride@[i],
                self.hi@[i + 1] as int,
                t,
            ),
        ensures
            self.sliced(i, cb, sb, x + 1, s + t),
    {
        let w = self.out_stride@[i] as int;
        let v = self.in_stride@[i] as int;
        let cb1 = cb + (x - self.start@[i]) * w;
        let sb1 = sb + (x - self.origin@[i]) * v;
        let u = s + t;
        assert(self.bounded(i));
        assert(self.bounded(i + 1));
        assert(self.counts@.skip(i + 1).drop_first() =~= self.counts@.skip(i + 2));
        assert(self.chunk@.skip(i).drop_first() =~= self.chunk@.skip(i + 1));
        lemma_product_skip(self.counts@, i + 2);
        lemma_product_skip(self.chunk@, i + 1);
        lemma_mul_is_distributive_add_other_way(w, x - self.start@[i], 1);
        assert((x - self.start@[i]) * w >= 0) by (nonlinear_arith)
            requires
                x >= self.start@[i],
                w >= 0,
        ;
        // The slices at `x` end where those below `x + 1` do.
        assert((self.hi@[i + 1] - self.start@[i + 1]) * self.out_stride@[i + 1] <= w) by {
            lemma_mul_inequality(
                self.hi@[i + 1] - self.start@[i + 1],
                self.counts@[i + 1] as int,
                self.out_stride@[i + 1] as int,
            );
        }
        assert((x - self.origin@[i]) * v + v <= product(self.chunk@.skip(i))) by {
            lemma_mul_inequality(x - self.origin@[i] + 1, self.chunk@[i] as int, v);
            lemma_mul_is_distributive_add_other_way(v, x - self.origin@[i], 1);
        }
        assert forall|a: int| 0 <= a < u.len() implies self.slice_within(
            i,
            cb,
            sb,
            x + 1,
            #[trigger] u[a],
        ) by {
            if a < s.len() {
                assert(u[a] == s[a]);
                assert(self.slice_within(i, cb, sb, x, s[a]));
            } else {
                assert(u[a] == t[a - s.len()]);
                assert(self.slice_within(
                    i + 1,
                    cb1,
                    sb1,
                    self.hi@[i + 1] as int,
                    t[a - s.len()],
                ));
            }
        }
        assert forall|a: int, b: int| 0 <= a < b < u.len() implies (#[trigger] u[a]).current + (
        u[a].end - u[a].start) <= (#[trigger] u[b]).current by {
            if b < s.len() {
                assert(u[a] == s[a] && u[b] == s[b]);
            } else if a >= s.len() {
                assert(u[a] == t[a - s.len()] && u[b] == t[b - s.len()]);
            } else {
                assert(self.slice_within(i, cb, sb, x, s[a]));
                assert(self.slice_within(
                    i + 1,
                    cb1,
                    sb1,
                    self.hi@[i + 1] as int,
                    t[b - s.len()],
                ));
            }
        }
        assert forall|y: Seq<int>| #[trigger]
            self.tail(i, y) && y[0] < x + 1 implies exists|a: int|
            0 <= a < u.len() && (#[trigger] u[a]).maps(
                cb + self.out_pos(i, y),
                sb + self.in_pos(i, y),
            ) by {
            if y[0] < x {
                let a = choose|a: int|
                    0 <= a < s.len() && (#[trigger] s[a]).maps(
                        cb + self.out_pos(i, y),
                        sb + self.in_pos(i, y),
                    );
                assert(u[a] == s[a]);
            } else {
                let z = y.drop_first();
                self.lemma_split(i, y);
                assert(self.tail(i + 1, z) && z[0] < self.hi@[i + 1]) by {
                    assert(self.lo@[i + 1] <= z[0] < self.hi@[i + 1 + 0]);
                }
                let a = choose|a: int|
                    0 <= a < t.len() && (#[trigger] t[a]).maps(
                        cb1 + self.out_pos(i + 1, z),
                        sb1 + self.in_pos(i + 1, z),
                    );
                assert(u[s.len() + a] == t[a]);
            }
        }
        assert forall|a: int, q: int| 0 <= a < u.len() && #[trigger] u[a].covers(q) implies exists|
            y: Seq<int>,
        | #[trigger]
            self.tail(i, y) && q == cb + self.out_pos(i, y) && u[a].maps(
                q,
                sb + self.in_pos(i, y),
            ) by {
            if a < s.len() {
                assert(s[a].covers(q));
            } else {
                let b = a - s.len();
                assert(t[b].covers(q));
                let z = choose|z: Seq<int>| #[trigger]
                    self.tail(i + 1, z) && q == cb1 + self.out_pos(i + 1, z) && t[b].maps(
                        q,
                        sb1 + self.in_pos(i + 1, z),
                    );
                let y = seq![x] + z;
                assert(y.drop_first() =~= z);
                assert(self.tail(i, y)) by {
                    assert forall|j: int| 0 <= j < y.len() implies self.lo@[i + j]
                        <= #[trigger] y[j] < self.hi@[i + j] by {
                        if j > 0 {
                            assert(self.lo@[i + 1 + (j - 1)] <= z[j - 1] < self.hi@[i + 1 + (j
                                - 1)]);
                        }
                    }
                }
                self.lemma_split(i, y);
            }
        }
    }

    /// Before the first coordinate there are no slices.
    proof fn lemma_none<const D: usize>(self, i: int, cb: int, sb: int)
        requires
            self.wf(),
            0 <= i < self.rank(),
        ensures
            self.sliced::<D>(i, cb, sb, self.lo@[i] as int, Seq::empty()),
    {
        let x = self.lo@[i] as int;
        assert forall|y: Seq<int>| #[trigger] self.tail(i, y) && y[0] < x implies false by {
            assert(self.lo@[i + 0] <= y[0]);
        }
    }
}

/// Appends the slices of a window along dimension `i` and those that follow, read from position
/// `cb` on, and from position `sb` of the chunk on.
fn slice_window<'a, const D: usize>(
    w: &Window<'_>,
    chunk: &'a Chunk<D>,
    i: usize,
    cb: u64,
    sb: u64,
    out: &mut Vec<ChunkSlice<'a, D>>,
)
    requires
        w.wf(),
        i < w.rank(),
        cb + product(w.counts@.skip(i as int)) <= u64::MAX,
        sb + product(w.chunk@.skip(i as int)) <= u64::MAX,
    ensures
        final(out)@.len() >= old(out)@.len(),
        final(out)@.take(old(out)@.len() as int) == old(out)@,
        w.sliced(
            i as int,
            cb as int,
            sb as int,
            w.hi@[i as int] as int,
            final(out)@.skip(old(out)@.len() as int),
        ),
        forall|a: int|
            old(out)@.len() <= a < final(out)@.len() ==> *(#[trigger] final(out)@[a]).chunk
                == *chunk,
    decreases w.rank() - i,
{
    let ghost before = out@;
    let ghost n = before.len() as int;
    assert(w.bounded(i as int));
    proof {
        assert(w.counts@.skip(i as int).drop_first() =~= w.counts@.skip(i + 1));
        assert(w.chunk@.skip(i as int).drop_first() =~= w.chunk@.skip(i + 1));
        lemma_product_skip(w.counts@, i as int);
        lemma_product_skip(w.counts@, i + 1);
        lemma_product_skip(w.chunk@, i as int);
        lemma_product_skip(w.chunk@, i + 1);
        lemma_mul_inequality(1, w.out_stride@[i as int] as int, w.counts@[i as int] as int);
        lemma_mul_inequality(1, w.in_stride@[i as int] as int, w.chunk@[i as int] as int);
        lemma_mul_is_commutative(w.out_stride@[i as int] as int, w.counts@[i as int] as int);
        lemma_mul_is_commutative(w.in_stride@[i as int] as int, w.chunk@[i as int] as int);
    }
    if i == w.start.len() - 1 {
        let e = ChunkSlice {
            chunk,
            current: cb + (w.lo[i] - w.start[i]),
            start: sb + (w.lo[i] - w.origin[i]),
            end: sb + (w.hi[i] - w.origin[i]),
        };
        out.push(e);
        proof {
            w.lemma_last(i as int, cb as int, sb as int, e);
            assert(out@.skip(n) =~= seq![e]);
            assert(out@.take(n) =~= before);
        }
    } else {
        let mut x: u64 = w.lo[i];
        proof {
            w.lemma_none::<D>(i as int, cb as int, sb as int);
            assert(out@.skip(n) =~= Seq::empty());
            assert(out@.take(n) =~= before);
        }
        while x < w.hi[i]
            invariant
                w.wf(),
                i < w.rank() - 1,
                w.bounded(i as int),
                w.lo@[i as int] <= x <= w.hi@[i as int],
                cb + product(w.counts@.skip(i as int)) <= u64::MAX,
                sb + product(w.chunk@.skip(i as int)) <= u64::MAX,
                product(w.counts@.skip(i as int)) == w.counts@[i as int] * w.out_stride@[i as int],
                product(w.chunk@.skip(i as int)) == w.chunk@[i as int] * w.in_stride@[i as int],
                n == before.len(),
                out@.len() >= n,
                out@.take(n) == before,
                w.sliced(i as int, cb as int, sb as int, x as int, out@.skip(n)),
                forall|a: int| n <= a < out@.len() ==> *(#[trigger] out@[a]).chunk == *chunk,
            decreases w.hi@[i as int] - x,
        {
            let ghost prev = out@;
            let ghost m = prev.len() as int;
            let dx = x - w.start[i];
            let dy = x - w.origin[i];
            proof {
                let u = w.out_stride@[i as int] as int;
                let v = w.in_stride@[i as int] as int;
                lemma_mul_inequality(dx + 1, w.counts@[i as int] as int, u);
                lemma_mul_is_distributive_add_other_way(u, dx as int, 1);
                lemma_mul_inequality(dy + 1, w.chunk@[i as int] as int, v);
                lemma_mul_is_distributive_add_other_way(v, dy as int, 1);
                assert(dx * u >= 0 && dy * v >= 0) by (nonlinear_arith)
                    requires
                        u >= 0,
                        v >= 0,
                        dx >= 0,
                        dy >= 0,
                ;
            }
            let cb1 = cb + dx * w.out_stride[i];
            let sb1 = sb + dy * w.in_stride[i];
            slice_window(w, chunk, i + 1, cb1, sb1, out);
            proof {
                let s = prev.skip(n);
                let t = out@.skip(m);
                w.lemma_step(i as int, cb as int, sb as int, x as int, s, t);
                assert(out@.take(m) == prev);
                assert forall|a: int| 0 <= a < m implies out@[a] == prev[a] by {
                    assert(out@.take(m)[a] == out@[a]);
                }
                assert forall|a: int| n <= a < out@.len() implies *(#[trigger] out@[a]).chunk
                    == *chunk by {
                    if a < m {
                        assert(out@[a] == prev[a]);
                    }
                }
                assert(out@.skip(n) =~= s + t);
                assert(out@.take(n) =~= before) by {
                    assert(prev.take(n) =~= before);
                    assert forall|a: int| 0 <= a < n implies out@.take(n)[a] == before[a] by {
                        assert(prev.take(n)[a] == prev[a]);
                    }
                }
            }
            x = x + 1;
        }
    }
}

/// The row-major strides of an array of shape `n`.
fn strides(n: &[u64]) -> (r: Vec<u64>)
    requires
        0 < product(n@) <= u64::MAX,
    ensures
        are_strides(r@, n@),
{
    let d = n.len();
    let mut r: Vec<u64> = vec![1; d];
    let mut i: usize = d;
    let mut w: u64 = 1;
    assert(n@.skip(d as int) =~= Seq::empty());
    while i > 0
        invariant
            i <= d,
            d == n@.len(),
            r@.len() == d,
            0 < product(n@) <= u64::MAX,
            w == product(n@.skip(i as int)),
            forall|j: int| i <= j < d ==> #[trigger] r@[j] == product(n@.skip(j + 1)),
        decreases i,
    {
        i = i - 1;
        r.set(i, w);
        proof {
            assert(n@.skip(i as int).drop_first() =~= n@.skip(i + 1));
            lemma_product_skip(n@, i as int);
            assert(n@.skip(i as int)[0] == n@[i as int]);
        }
        w = n[i] * w;
    }
    r
}

impl<const D: usize> Dataset<'_, D> {
    /// Whether a slice stays inside a chunk and inside the selection.
    pub open spec fn slice_in_bounds(&self, sel: Region, e: ChunkSlice<'_, D>) -> bool {
        &&& e.start < e.end <= product(self.chunk_shape@)
        &&& e.current + (e.end - e.start) <= product(sel.counts)
    }

    /// Whether a slice takes element `q` of the selection from the chunk that holds it, and
    /// from its place there.
    pub open spec fn slice_right(&self, sel: Region, e: ChunkSlice<'_, D>, q: int) -> bool {
        let x = sel.coord(q);
        &&& *e.chunk == self.chunks@[self.chunk_number(x)]
        &&& e.maps(q, self.offset_in_chunk(x))
    }

    /// Whether the slices make up the selection: each is in bounds and takes its elements from
    /// where they are stored, every element of the selection is in one slice and in no other,
    /// and the slices of one chunk follow each other, in the order of the chunk table.
    pub open spec fn slices_make_up(&self, sel: Region, s: Seq<ChunkSlice<'_, D>>) -> bool {
        &&& forall|a: int| 0 <= a < s.len() ==> self.slice_in_bounds(sel, #[trigger] s[a])
        &&& forall|a: int, q: int|
            0 <= a < s.len() && #[trigger] s[a].covers(q) ==> self.slice_right(sel, s[a], q)
        &&& forall|q: int| 0 <= q < product(sel.counts) ==> #[trigger] covered(s, q)
        &&& forall|a: int, b: int, q: int|
            0 <= a < s.len() && 0 <= b < s.len() && #[trigger] s[a].covers(q)
                && #[trigger] s[b].covers(q) ==> a == b
        &&& forall|a: int, b: int|
            0 <= a <= b < s.len() ==> self.chunk_number(Self::origin(*(#[trigger] s[a]).chunk))
                <= self.chunk_number(Self::origin(*(#[trigger] s[b]).chunk))
    }

    /// The first coordinate along dimension `i` that is both in the selection and in the chunk.
    spec fn window_start(&self, sel: Region, chunk: Chunk<D>, i: int) -> int {
        if sel.start[i] > chunk.offset@[i] {
            sel.start[i] as int
        } else {
            chunk.offset@[i] as int
        }
    }

    /// The end of the coordinates along dimension `i` that are both in the selection and in the
    /// chunk.
    spec fn window_end(&self, sel: Region, chunk: Chunk<D>, i: int) -> int {
        if sel.start[i] + sel.counts[i] < chunk.offset@[i] + self.chunk_shape@[i] {
            sel.start[i] + sel.counts[i]
        } else {
            chunk.offset@[i] + self.chunk_shape@[i]
        }
    }

    /// Whether `x` are coordinates that chunk `k` of the table spans.
    spec fn spans(&self, k: int, x: Seq<int>) -> bool {
        forall|i: int|
            0 <= i < D ==> self.chunks@[k].offset@[i] <= #[trigger] x[i]
                < self.chunks@[k].offset@[i] + self.chunk_shape@[i]
    }

    /// An element is held by the chunk that spans it.
    proof fn lemma_holder(&self, k: int, x: Seq<int>)
        requires
            self.valid(),
            in_box(x, self.shape@),
            0 <= k < self.chunks@.len(),
        ensures
            0 <= self.chunk_number(x) < self.chunks@.len(),
            self.chunk_number(x) == k <==> self.spans(k, x),
            self.spans(k, x) ==> self.offset_in_chunk(x) == position(
                relative(x, self.chunks@[k].offset@, 0),
                self.chunk_shape@,
            ),
    {
        let g = self.grid();
        let cx = self.chunk_coords(x);
        assert forall|i: int| 0 <= i < D implies 0 <= #[trigger] cx[i] < g[i] by {
            assert(0 <= x[i] < self.shape@[i]);
            lemma_chunk_along(x[i], self.shape@[i], self.chunk_shape@[i]);
        }
        lemma_position_bound(cx, g);
        assert(self.chunk_in_place(k));
        let o = Self::origin(self.chunks@[k]);
        let co = self.chunk_coords(o);
        if self.spans(k, x) {
            assert forall|i: int| 0 <= i < D implies cx[i] == co[i] && x[i] % (
            self.chunk_shape@[i] as int) == x[i] - self.chunks@[k].offset@[i] by {
                assert(o[i] % (self.chunk_shape@[i] as int) == 0);
                assert(self.chunks@[k].offset@[i] <= x[i]);
                lemma_same_chunk(x[i], o[i], self.chunk_shape@[i] as int);
            }
            assert(cx =~= co);
            let m = Seq::new(D as nat, |i: int| x[i] % (self.chunk_shape@[i] as int));
            let r = relative(x, self.chunks@[k].offset@, 0);
            assert forall|i: int| 0 <= i < D implies m[i] == r[i] by {
                assert(cx[i] == co[i]);
            }
            assert(m =~= r);
        }
        if self.chunk_number(x) == k {
            lemma_coords_of_position(cx, g);
            lemma_coords_of_position(co, g);
            assert(cx == co);
            assert forall|i: int| 0 <= i < D implies self.chunks@[k].offset@[i] <= #[trigger] x[i]
                < self.chunks@[k].offset@[i] + self.chunk_shape@[i] by {
                assert(o[i] % (self.chunk_shape@[i] as int) == 0);
                assert(cx[i] == co[i]);
                lemma_same_chunk(x[i], o[i], self.chunk_shape@[i] as int);
            }
        }
    }
}

impl<const D: usize> Dataset<'_, D> {
    /// The slices of chunks that make up a selection, the slices of one chunk next to each other.
    pub fn group_chunk_slices<'s>(&'s self, sel: &Selection) -> (r: Vec<ChunkSlice<'s, D>>)
        requires
            self.valid(),
            sel@.inside(self.shape@),
        ensures
            self.slices_make_up(sel@, r@),
    {
        let mut out: Vec<ChunkSlice<'s, D>> = Vec::new();
        for i in 0..D
            invariant
                sel@.inside(self.shape@),
                out@.len() == 0,
                forall|j: int| 0 <= j < i ==> #[trigger] sel.counts[j] > 0,
        {
            if sel.counts[i] == 0 {
                proof {
                    lemma_product_positive(sel@.counts);
                }
                return out;
            }
        }
        proof {
            lemma_product_positive(sel@.counts);
            lemma_product_positive(self.chunk_shape@);
            assert forall|i: int| 0 <= i < D implies #[trigger] sel.counts[i] <= self.shape@[i] by {
                assert(sel.start[i] + sel.counts[i] <= self.shape@[i]);
            }
            lemma_product_within(sel@.counts, self.shape@);
            assert forall|q: int| 0 <= q < product(sel@.counts) implies 0
                <= #[trigger] self.chunk_number(sel@.coord(q)) by {
                lemma_number(*self, sel@, q);
            }
        }
        let chunks = self.chunks.as_slice();
        if D == 0 {
            proof {
                assert(self.grid() =~= Seq::empty());
            }
            let e = ChunkSlice { chunk: &chunks[0], current: 0, start: 0, end: 1 };
            out.push(e);
            proof {
                let t = seq![e];
                assert(out@ =~= t);
                assert(sel@.counts =~= Seq::empty());
                assert(self.chunk_shape@ =~= Seq::empty());
                assert(slices_at(*self, sel@, 0, t)) by {
                    assert(t[0].covers(0));
                }
                lemma_next_chunk(*self, sel@, 0, Seq::empty(), Seq::empty(), t);
                assert(Seq::<ChunkSlice<'_, D>>::empty() + t =~= t);
                lemma_all_chunks(
                    *self,
                    sel@,
                    Seq::<int>::empty() + Seq::new(t.len(), |a: int| 0int),
                    out@,
                );
            }
            return out;
        }
        let out_stride = strides(sel.counts.as_slice());
        let in_stride = strides(self.chunk_shape.as_slice());
        let ghost mut nums: Seq<int> = Seq::empty();
        for k in 0..chunks.len()
            invariant
                D > 0,
                self.valid(),
                sel@.inside(self.shape@),
                chunks@ == self.chunks@,
                are_strides(out_stride@, sel@.counts),
                are_strides(in_stride@, self.chunk_shape@),
                0 < product(sel@.counts) <= u64::MAX,
                0 < product(self.chunk_shape@) <= u64::MAX,
                slices_below(*self, sel@, k as int, nums, out@),
        {
            let chunk = &chunks[k];
            let mut lo: Vec<u64> = Vec::new();
            let mut hi: Vec<u64> = Vec::new();
            let mut disjoint: Option<usize> = None;
            assert(self.chunk_in_place(k as int));
            for i in 0..D
                invariant
                    self.valid(),
                    sel@.inside(self.shape@),
                    k < self.chunks@.len(),
                    self.chunk_in_place(k as int),
                    *chunk == self.chunks@[k as int],
                    lo@.len() == i,
                    hi@.len() == i,
                    forall|j: int|
                        0 <= j < i ==> #[trigger] lo@[j] == self.window_start(sel@, *chunk, j),
                    forall|j: int|
                        0 <= j < i ==> #[trigger] hi@[j] == self.window_end(sel@, *chunk, j),
                    disjoint is None ==> forall|j: int| 0 <= j < i ==> #[trigger] lo@[j] < hi@[j],
                    disjoint matches Some(j) ==> j < i && lo@[j as int] >= hi@[j as int],
            {
                proof {
                    self.lemma_origin_below(k as int, i as int);
                    assert(self.chunk_shape@[i as int] > 0);
                    assert(sel.start[i as int] + sel.counts[i as int] <= self.shape@[i as int]);
                }
                let first = sel.start[i];
                let last = sel.start[i] + sel.counts[i];
                let from = chunk.offset[i];
                let to = chunk.offset[i] + self.chunk_shape[i];
                let l: u64 = if first > from {
                    first
                } else {
                    from
                };
                let h: u64 = if last < to {
                    last
                } else {
                    to
                };
                lo.push(l);
                hi.push(h);
                if l >= h {
                    disjoint = Some(i);
                }
            }
            let ghost before = out@;
            let ghost m = before.len() as int;
            if disjoint.is_none() {
                let w = Window {
                    start: sel.start.as_slice(),
                    counts: sel.counts.as_slice(),
                    origin: chunk.offset.as_slice(),
                    chunk: self.chunk_shape.as_slice(),
                    lo: lo.as_slice(),
                    hi: hi.as_slice(),
                    out_stride: out_stride.as_slice(),
                    in_stride: in_stride.as_slice(),
                };
                assert forall|j: int| 0 <= j < w.rank() implies #[trigger] w.bounded(j) by {
                    assert(lo@[j] < hi@[j]);
                }
                proof {
                    assert(sel@.counts.skip(0) =~= sel@.counts);
                    assert(self.chunk_shape@.skip(0) =~= self.chunk_shape@);
                }
                slice_window(&w, chunk, 0, 0, 0, &mut out);
                proof {
                    let t = out@.skip(m);
                    assert forall|a: int| 0 <= a < t.len() implies *(#[trigger] t[a]).chunk
                        == self.chunks@[k as int] by {
                        assert(t[a] == out@[m + a]);
                    }
                    lemma_window(*self, sel@, k as int, w, t);
                }
            } else {
                proof {
                    let j = disjoint->0 as int;
                    assert(lo@[j] >= hi@[j]);
                    assert forall|q: int|
                        0 <= q < product(sel@.counts) && #[trigger] self.chunk_number(sel@.coord(q))
                            == k implies false by {
                        lemma_coord(self.shape@, sel@, q);
                        self.lemma_holder(k as int, sel@.coord(q));
                        let x = sel@.coord(q);
                        assert(self.chunks@[k as int].offset@[j] <= x[j]);
                        assert(0 <= coords(q, sel@.counts)[j] < sel.counts[j]);
                    }
                }
            }
            proof {
                let t = out@.skip(m);
                assert(slices_at(*self, sel@, k as int, t));
                lemma_next_chunk(*self, sel@, k as int, nums, before, t);
                nums = nums + Seq::new(t.len(), |a: int| k as int);
                assert(out@ =~= before + t) by {
                    assert(out@.take(m) == before);
                    assert forall|a: int| 0 <= a < m implies out@[a] == before[a] by {
                        assert(out@.take(m)[a] == out@[a]);
                    }
                }
            }
        }
        proof {
            lemma_all_chunks(*self, sel@, nums, out@);
        }
        out
    }

    /// A chunk starts inside the dataset.
    proof fn lemma_origin_below(&self, k: int, i: int)
        requires
            self.valid(),
            0 <= k < self.chunks@.len(),
            0 <= i < D,
        ensures
            self.chunks@[k].offset@[i] < self.shape@[i],
    {
        assert(self.chunk_in_place(k));
        let o = Self::origin(self.chunks@[k]);
        let c = self.chunk_shape@[i] as int;
        let s = self.shape@[i] as int;
        assert(o[i] % c == 0);
        assert(0 <= self.chunk_coords(o)[i] < self.grid()[i]);
        lemma_fundamental_div_mod(o[i], c);
        lemma_fundamental_div_mod(s, c);
        lemma_mod_bound(s, c);
        let a = o[i] / c;
        let b = s / c;
        let r = s % c;
        assert(c * a < s) by (nonlinear_arith)
            requires
                s == c * b + r,
                0 <= r < c,
                r == 0 ==> a < b,
                r != 0 ==> a < b + 1,
        ;
    }
}

/// An element is stored in the chunk whose elements lie around it, and at its row-major place
/// there, counted from the first element of the chunk.
pub proof fn lemma_element_place<const D: usize>(ds: Dataset<'_, D>, x: Seq<int>, k: int)
    requires
        ds.valid(),
        in_box(x, ds.shape@),
        0 <= k < ds.chunks@.len(),
        forall|i: int|
            0 <= i < D ==> ds.chunks@[k].offset@[i] <= #[trigger] x[i] < ds.chunks@[k].offset@[i]
                + ds.chunk_shape@[i],
    ensures
        ds.chunk_number(x) == k,
        ds.offset_in_chunk(x) == position(
            Seq::new(D as nat, |i: int| x[i] - ds.chunks@[k].offset@[i]),
            ds.chunk_shape@,
        ),
        0 <= ds.offset_in_chunk(x) < product(ds.chunk_shape@),
{
    ds.lemma_holder(k, x);
    let y = Seq::new(D as nat, |i: int| x[i] - ds.chunks@[k].offset@[i]);
    assert(relative(x, ds.chunks@[k].offset@, 0) =~= y);
    assert forall|i: int| 0 <= i < D implies 0 <= #[trigger] y[i] < ds.chunk_shape@[i] by {
        assert(ds.chunks@[k].offset@[i] <= x[i]);
    }
    lemma_position_bound(y, ds.chunk_shape@);
}

/// Every element of a dataset is stored: there is a chunk in the table whose elements lie around
/// it.
pub proof fn lemma_element_stored<const D: usize>(ds: Dataset<'_, D>, x: Seq<int>) -> (k: int)
    requires
        ds.valid(),
        in_box(x, ds.shape@),
    ensures
        k == ds.chunk_number(x),
        0 <= k < ds.chunks@.len(),
        forall|i: int|
            0 <= i < D ==> ds.chunks@[k].offset@[i] <= #[trigger] x[i] < ds.chunks@[k].offset@[i]
                + ds.chunk_shape@[i],
{
    let cx = ds.chunk_coords(x);
    assert forall|i: int| 0 <= i < D implies 0 <= #[trigger] cx[i] < ds.grid()[i] by {
        assert(0 <= x[i] < ds.shape@[i]);
        assert(ds.chunk_shape@[i] > 0);
        lemma_chunk_along(x[i], ds.shape@[i], ds.chunk_shape@[i]);
    }
    lemma_position_bound(cx, ds.grid());
    let k = ds.chunk_number(x);
    ds.lemma_holder(k, x);
    k
}

/// A slice holds what it says: where it has element `q` of what is read, it is of a chunk of the
/// table whose elements lie around the coordinates of this element, and has it from its row-major
/// place in that chunk.
pub proof fn lemma_slice_holds<const D: usize>(
    ds: Dataset<'_, D>,
    sel: Region,
    s: Seq<ChunkSlice<'_, D>>,
    a: int,
    q: int,
)
    requires
        ds.valid(),
        sel.inside(ds.shape@),
        ds.slices_make_up(sel, s),
        0 <= a < s.len(),
        s[a].current <= q < s[a].current + (s[a].end - s[a].start),
    ensures
        q < product(sel.counts),
        s[a].start < s[a].end <= product(ds.chunk_shape@),
        ds.chunks@.contains(*s[a].chunk),
        forall|i: int|
            0 <= i < D ==> s[a].chunk.offset@[i] <= #[trigger] sel.coord(q)[i]
                < s[a].chunk.offset@[i] + ds.chunk_shape@[i],
        s[a].start + (q - s[a].current) == position(
            Seq::new(D as nat, |i: int| sel.coord(q)[i] - s[a].chunk.offset@[i]),
            ds.chunk_shape@,
        ),
{
    assert(ds.slice_in_bounds(sel, s[a]));
    assert(s[a].covers(q));
    assert(ds.slice_right(sel, s[a], q));
    lemma_coord_inside(ds.shape@, sel, q);
    let x = sel.coord(q);
    let k = lemma_element_stored(ds, x);
    assert(ds.chunks@[k] == *s[a].chunk);
    lemma_element_place(ds, x, k);
}

/// Every element of a selection is in one of its slices, and in one only.
pub proof fn lemma_slice_of_element<const D: usize>(
    ds: Dataset<'_, D>,
    sel: Region,
    s: Seq<ChunkSlice<'_, D>>,
    q: int,
) -> (a: int)
    requires
        ds.slices_make_up(sel, s),
        0 <= q < product(sel.counts),
    ensures
        0 <= a < s.len(),
        s[a].current <= q < s[a].current + (s[a].end - s[a].start),
        forall|b: int|
            0 <= b < s.len() && (#[trigger] s[b]).current <= q < s[b].current + (s[b].end
                - s[b].start) ==> b == a,
{
    assert(covered(s, q));
    let a = choose|a: int| 0 <= a < s.len() && #[trigger] s[a].covers(q);
    assert forall|b: int|
        0 <= b < s.len() && (#[trigger] s[b]).current <= q < s[b].current + (s[b].end
            - s[b].start) implies b == a by {
        assert(s[b].covers(q));
    }
    a
}

/// A selected element is in the dataset.
pub proof fn lemma_coord_inside(shape: Seq<u64>, sel: Region, q: int)
    requires
        sel.inside(shape),
        0 <= q < product(sel.counts),
    ensures
        in_box(sel.coord(q), shape),
{
    lemma_coord(shape, sel, q);
}

/// A selected element is in one of the chunks of the table.
pub proof fn lemma_number<const D: usize>(ds: Dataset<'_, D>, sel: Region, q: int)
    requires
        ds.valid(),
        sel.inside(ds.shape@),
        0 <= q < product(sel.counts),
    ensures
        0 <= ds.chunk_number(sel.coord(q)) < ds.chunks@.len(),
{
    lemma_coord(ds.shape@, sel, q);
    let x = sel.coord(q);
    let cx = ds.chunk_coords(x);
    assert forall|i: int| 0 <= i < D implies 0 <= #[trigger] cx[i] < ds.grid()[i] by {
        assert(0 <= x[i] < ds.shape@[i]);
        assert(ds.chunk_shape@[i] > 0);
        lemma_chunk_along(x[i], ds.shape@[i], ds.chunk_shape@[i]);
    }
    lemma_position_bound(cx, ds.grid());
}

/// The slices of all the chunks make up the selection.
proof fn lemma_all_chunks<const D: usize>(
    ds: Dataset<'_, D>,
    sel: Region,
    nums: Seq<int>,
    s: Seq<ChunkSlice<'_, D>>,
)
    requires
        ds.valid(),
        sel.inside(ds.shape@),
        slices_below(ds, sel, ds.chunks@.len() as int, nums, s),
    ensures
        ds.slices_make_up(sel, s),
{
    assert forall|a: int, q: int| 0 <= a < s.len() && #[trigger] s[a].covers(
        q,
    ) implies ds.slice_right(sel, s[a], q) by {
        assert(0 <= nums[a] < ds.chunks@.len());
    }
    assert forall|q: int| 0 <= q < product(sel.counts) implies #[trigger] covered(s, q) by {
        lemma_number(ds, sel, q);
    }
    assert forall|a: int, b: int, q: int|
        0 <= a < s.len() && 0 <= b < s.len() && #[trigger] s[a].covers(q)
            && #[trigger] s[b].covers(q) implies a == b by {
        assert(nums[a] == nums[b]);
    }
    assert forall|a: int, b: int| 0 <= a <= b < s.len() implies ds.chunk_number(
        Dataset::<'_, D>::origin(*(#[trigger] s[a]).chunk),
    ) <= ds.chunk_number(Dataset::<'_, D>::origin(*(#[trigger] s[b]).chunk)) by {
        assert(0 <= nums[a] < ds.chunks@.len());
        assert(0 <= nums[b] < ds.chunks@.len());
        assert(ds.chunk_in_place(nums[a]));
        assert(ds.chunk_in_place(nums[b]));
        if a < b {
            assert(nums[a] <= nums[b]);
        }
    }
}

/// Whether element `q` of the selection comes from one of the slices.
pub open spec fn covered<const D: usize>(s: Seq<ChunkSlice<'_, D>>, q: int) -> bool {
    exists|a: int| 0 <= a < s.len() && #[trigger] s[a].covers(q)
}

/// The slices found so far: those of the first `k` chunks, `nums` their places in the table.
spec fn slices_below<const D: usize>(
    ds: Dataset<'_, D>,
    sel: Region,
    k: int,
    nums: Seq<int>,
    s: Seq<ChunkSlice<'_, D>>,
) -> bool {
    &&& nums.len() == s.len()
    &&& forall|a: int|
        0 <= a < s.len() ==> {
            &&& 0 <= #[trigger] nums[a] < k
            &&& *s[a].chunk == ds.chunks@[nums[a]]
        }
    &&& forall|a: int| 0 <= a < s.len() ==> ds.slice_in_bounds(sel, #[trigger] s[a])
    &&& forall|a: int, b: int|
        0 <= a < b < s.len() ==> {
            &&& #[trigger] nums[a] <= #[trigger] nums[b]
            &&& nums[a] == nums[b] ==> s[a].current + (s[a].end - s[a].start) <= s[b].current
        }
    &&& forall|a: int, q: int|
        0 <= a < s.len() && #[trigger] s[a].covers(q) ==> {
            &&& 0 <= q < product(sel.counts)
            &&& ds.chunk_number(sel.coord(q)) == nums[a]
            &&& s[a].maps(q, ds.offset_in_chunk(sel.coord(q)))
        }
    &&& forall|q: int|
        0 <= q < product(sel.counts) && #[trigger] ds.chunk_number(sel.coord(q)) < k
            ==> exists|a: int| 0 <= a < s.len() && #[trigger] s[a].covers(q)
}

/// The slices `t` are those of chunk `k`.
spec fn slices_at<const D: usize>(
    ds: Dataset<'_, D>,
    sel: Region,
    k: int,
    t: Seq<ChunkSlice<'_, D>>,
) -> bool {
    &&& forall|a: int|
        0 <= a < t.len() ==> {
            &&& *(#[trigger] t[a]).chunk == ds.chunks@[k]
            &&& ds.slice_in_bounds(sel, t[a])
        }
    &&& forall|a: int, b: int|
        0 <= a < b < t.len() ==> (#[trigger] t[a]).current + (t[a].end - t[a].start) <= (
        #[trigger] t[b]).current
    &&& forall|a: int, q: int|
        0 <= a < t.len() && #[trigger] t[a].covers(q) ==> {
            &&& 0 <= q < product(sel.counts)
            &&& ds.chunk_number(sel.coord(q)) == k
            &&& t[a].maps(q, ds.offset_in_chunk(sel.coord(q)))
        }
    &&& forall|q: int|
        0 <= q < product(sel.counts) && #[trigger] ds.chunk_number(sel.coord(q)) == k
            ==> exists|a: int| 0 <= a < t.len() && #[trigger] t[a].covers(q)
}

/// Adding the slices of chunk `k` to those of the chunks before it.
proof fn lemma_next_chunk<const D: usize>(
    ds: Dataset<'_, D>,
    sel: Region,
    k: int,
    nums: Seq<int>,
    s: Seq<ChunkSlice<'_, D>>,
    t: Seq<ChunkSlice<'_, D>>,
)
    requires
        slices_below(ds, sel, k, nums, s),
        slices_at(ds, sel, k, t),
        k >= 0,
    ensures
        slices_below(ds, sel, k + 1, nums + Seq::new(t.len(), |a: int| k), s + t),
{
    let u = s + t;
    let m = nums + Seq::new(t.len(), |a: int| k);
    let n = s.len() as int;
    assert forall|a: int| 0 <= a < u.len() implies 0 <= #[trigger] m[a] < k + 1 && *u[a].chunk
        == ds.chunks@[m[a]] by {
        if a < n {
            assert(u[a] == s[a] && m[a] == nums[a]);
        } else {
            assert(u[a] == t[a - n]);
        }
    }
    assert forall|a: int| 0 <= a < u.len() implies ds.slice_in_bounds(sel, #[trigger] u[a]) by {
        if a < n {
            assert(u[a] == s[a]);
        } else {
            assert(u[a] == t[a - n]);
        }
    }
    assert forall|a: int, b: int| 0 <= a < b < u.len() implies #[trigger] m[a] <= #[trigger] m[b]
        && (m[a] == m[b] ==> u[a].current + (u[a].end - u[a].start) <= u[b].current) by {
        if b < n {
            assert(m[a] == nums[a] && m[b] == nums[b]);
        } else if a < n {
            assert(m[a] == nums[a]);
        } else {
            assert(u[a] == t[a - n] && u[b] == t[b - n]);
        }
    }
    assert forall|a: int, q: int| 0 <= a < u.len() && #[trigger] u[a].covers(q) implies 0 <= q
        < product(sel.counts) && ds.chunk_number(sel.coord(q)) == m[a] && u[a].maps(
        q,
        ds.offset_in_chunk(sel.coord(q)),
    ) by {
        if a < n {
            assert(s[a].covers(q));
        } else {
            assert(t[a - n].covers(q));
        }
    }
    assert forall|q: int|
        0 <= q < product(sel.counts) && #[trigger] ds.chunk_number(sel.coord(q)) < k
            + 1 implies exists|a: int| 0 <= a < u.len() && #[trigger] u[a].covers(q) by {
        if ds.chunk_number(sel.coord(q)) < k {
            let a = choose|a: int| 0 <= a < s.len() && #[trigger] s[a].covers(q);
            assert(u[a].covers(q));
        } else {
            let a = choose|a: int| 0 <= a < t.len() && #[trigger] t[a].covers(q);
            assert(u[n + a].covers(q));
        }
    }
}

/// The coordinates of a selected element lie inside the dataset and inside the selection.
proof fn lemma_coord(shape: Seq<u64>, sel: Region, q: int)
    requires
        sel.inside(shape),
        0 <= q < product(sel.counts),
    ensures
        in_box(sel.coord(q), shape),
        relative(sel.coord(q), sel.start, 0) == coords(q, sel.counts),
        in_box(coords(q, sel.counts), sel.counts),
        position(coords(q, sel.counts), sel.counts) == q,
{
    lemma_position_of_coords(q, sel.counts);
    let x = sel.coord(q);
    let v = coords(q, sel.counts);
    assert forall|i: int| 0 <= i < shape.len() implies 0 <= #[trigger] x[i] < shape[i] by {
        assert(0 <= v[i] < sel.counts[i]);
        assert(sel.start[i] + sel.counts[i] <= shape[i]);
    }
    assert(relative(x, sel.start, 0) =~= v);
}

/// The slices of a chunk's window are the slices of the chunk.
proof fn lemma_window<const D: usize>(
    ds: Dataset<'_, D>,
    sel: Region,
    k: int,
    w: Window<'_>,
    t: Seq<ChunkSlice<'_, D>>,
)
    requires
        ds.valid(),
        sel.inside(ds.shape@),
        0 <= k < ds.chunks@.len(),
        D > 0,
        w.wf(),
        w.start@ == sel.start,
        w.counts@ == sel.counts,
        w.origin@ == ds.chunks@[k].offset@,
        w.chunk@ == ds.chunk_shape@,
        forall|i: int|
            0 <= i < D ==> #[trigger] w.lo@[i] == ds.window_start(sel, ds.chunks@[k], i),
        forall|i: int|
            0 <= i < D ==> #[trigger] w.hi@[i] == ds.window_end(sel, ds.chunks@[k], i),
        w.sliced(0, 0, 0, w.hi@[0] as int, t),
        forall|a: int| 0 <= a < t.len() ==> *(#[trigger] t[a]).chunk == ds.chunks@[k],
    ensures
        slices_at(ds, sel, k, t),
{
    let n = sel.counts;
    let c = ds.chunk_shape@;
    assert(n.skip(0) =~= n);
    assert(c.skip(0) =~= c);
    assert(n.drop_first() =~= n.skip(1));
    assert forall|a: int| 0 <= a < t.len() implies ds.slice_in_bounds(sel, #[trigger] t[a]) by {
        assert(w.slice_within(0, 0, 0, w.hi@[0] as int, t[a]));
        assert(w.bounded(0));
        lemma_mul_inequality(w.hi@[0] - w.start@[0], n[0] as int, w.out_stride@[0] as int);
    }
    assert forall|a: int, q: int| 0 <= a < t.len() && #[trigger] t[a].covers(q) implies 0 <= q
        < product(n) && ds.chunk_number(sel.coord(q)) == k && t[a].maps(
        q,
        ds.offset_in_chunk(sel.coord(q)),
    ) by {
        let y = choose|y: Seq<int>| #[trigger]
            w.tail(0, y) && q == 0 + w.out_pos(0, y) && t[a].maps(q, 0 + w.in_pos(0, y));
        w.lemma_inside(0, y);
        let v = relative(y, sel.start, 0);
        lemma_coords_of_position(v, n);
        lemma_coord(ds.shape@, sel, q);
        assert(sel.coord(q) =~= y) by {
            assert forall|i: int| 0 <= i < D implies sel.coord(q)[i] == y[i] by {
                assert(v[i] == y[i] - sel.start[0 + i]);
            }
        }
        assert(ds.spans(k, y)) by {
            assert forall|i: int| 0 <= i < D implies ds.chunks@[k].offset@[i] <= #[trigger] y[i]
                < ds.chunks@[k].offset@[i] + ds.chunk_shape@[i] by {
                assert(w.lo@[0 + i] <= y[i] < w.hi@[0 + i]);
                assert(w.bounded(i));
            }
        }
        ds.lemma_holder(k, y);
    }
    assert forall|q: int|
        0 <= q < product(n) && #[trigger] ds.chunk_number(sel.coord(q)) == k implies exists|
        a: int,
    |
        0 <= a < t.len() && #[trigger] t[a].covers(q) by {
        let y = sel.coord(q);
        lemma_coord(ds.shape@, sel, q);
        ds.lemma_holder(k, y);
        assert(w.tail(0, y)) by {
            assert forall|i: int| 0 <= i < y.len() implies w.lo@[0 + i] <= #[trigger] y[i]
                < w.hi@[0 + i] by {
                assert(ds.chunks@[k].offset@[i] <= y[i]);
                assert(0 <= coords(q, n)[i] < n[i]);
                assert(w.lo@[i] == ds.window_start(sel, ds.chunks@[k], i));
                assert(w.hi@[i] == ds.window_end(sel, ds.chunks@[k], i));
            }
        }
        assert(y[0] < w.hi@[0]);
        let a = choose|a: int|
            0 <= a < t.len() && (#[trigger] t[a]).maps(0 + w.out_pos(0, y), 0 + w.in_pos(0, y));
        assert(t[a].covers(q));
    }
}

/// Each of `s` elements lies in one of the chunks along its dimension.
proof fn lemma_chunk_along(x: int, s: u64, c: u64)
    requires
        0 <= x < s,
        c > 0,
        s + c <= u64::MAX,
    ensures
        0 <= x / (c as int) < chunks_along(s, c),
{
    lemma_fundamental_div_mod(x, c as int);
    lemma_fundamental_div_mod(s as int, c as int);
    lemma_div_pos_is_pos(x, c as int);
    lemma_mod_bound(x, c as int);
    lemma_mod_bound(s as int, c as int);
    let q = x / (c as int);
    let r = x % (c as int);
    let t = s as int / (c as int);
    let u = s as int % (c as int);
    assert(q <= t && (u == 0 ==> q < t)) by (nonlinear_arith)
        requires
            x == c * q + r,
            s == c * t + u,
            0 <= r < c,
            0 <= u < c,
            x < s,
            c > 0,
    ;
    assert(t <= s) by (nonlinear_arith)
        requires
            s == c * t + u,
            0 <= u,
            c > 0,
            s >= 0,
    ;
}

/// Two coordinates are in the same chunk where the first is less than a chunk beyond the start
/// of the second's.
proof fn lemma_same_chunk(x: int, o: int, c: int)
    requires
        c > 0,
        x >= 0,
        o >= 0,
        o % c == 0,
    ensures
        x / c == o / c <==> o <= x < o + c,
        o <= x < o + c ==> x % c == x - o,
{
    lemma_fundamental_div_mod(x, c);
    lemma_fundamental_div_mod(o, c);
    lemma_mod_bound(x, c);
    if o <= x < o + c {
        lemma_mul_is_commutative(c, o / c);
        lemma_fundamental_div_mod_converse(x, c, o / c, x - o);
    }
}

} // verus!

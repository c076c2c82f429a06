//! The part of a dataset that is to be read.
use crate::layout::{
    coords, in_box, lemma_coords_of_position, lemma_position_bound, lemma_position_of_coords,
    position, product,
};
use crate::text::{decimal, to_decimal};
use vstd::prelude::*;

verus! {

/// A range of `count` elements from `start` on along one dimension.
#[derive(Clone, Copy, Debug, PartialEq, Eq, Structural)]
pub struct Extent {
    pub start: u64,
    pub count: u64,
}

/// The extents to read: the whole dataset, or one range for each of the leading dimensions
/// (the dimensions that follow are read whole).
#[derive(Clone, Debug)]
pub enum Extents {
    All,
    Ranges(Vec<Extent>),
}

/// Why extents do not fit a dataset.
#[derive(Clone, Copy, Debug, PartialEq, Eq, Structural)]
pub enum ExtentError {
    /// There are more ranges than dimensions.
    TooManyDimensions,
    /// The range along this dimension is the first to reach beyond the dataset.
    OutOfBounds(usize),
}

/// Extents resolved against the shape of a dataset: one range for each dimension.
#[derive(Clone, Debug)]
pub struct Selection {
    pub start: Vec<u64>,
    pub counts: Vec<u64>,
}

/// A part of a dataset: along each dimension, `counts` elements from `start` on.
#[verifier::ext_equal]
pub ghost struct Region {
    pub start: Seq<u64>,
    pub counts: Seq<u64>,
}

impl ExtentError {
    /// The error in words.
    pub open spec fn text(self) -> Seq<char> {
        match self {
            ExtentError::TooManyDimensions => "extents have more dimensions than the dataset"@,
            ExtentError::OutOfBounds(i) => {
                "extents are out of bounds along dimension "@ + decimal(i as nat)
            },
        }
    }

    /// The error in words.
    pub fn message(self) -> (r: String)
        ensures
            r@ == self.text(),
    {
        match self {
            ExtentError::TooManyDimensions => {
                "extents have more dimensions than the dataset".to_owned()
            },
            ExtentError::OutOfBounds(i) => {
                let mut r = "extents are out of bounds along dimension ".to_owned();
                r.append(to_decimal(i as u64).as_str());
                r
            },
        }
    }
}

impl View for Selection {
    type V = Region;

    open spec fn view(&self) -> Region {
        Region { start: self.start@, counts: self.counts@ }
    }
}

impl Extents {
    /// The first element to read along dimension `i`.
    pub open spec fn start_along(self, i: int) -> u64 {
        match self {
            Extents::All => 0,
            Extents::Ranges(v) => if i < v@.len() {
                v@[i].start
            } else {
                0
            },
        }
    }

    /// The number of elements to read along dimension `i` of a dataset of this shape.
    pub open spec fn count_along(self, shape: Seq<u64>, i: int) -> u64 {
        match self {
            Extents::All => shape[i],
            Extents::Ranges(v) => if i < v@.len() {
                v@[i].count
            } else {
                shape[i]
            },
        }
    }

    /// Whether the range along dimension `i` lies inside a dataset of this shape.
    pub open spec fn fits_along(self, shape: Seq<u64>, i: int) -> bool {
        self.start_along(i) + self.count_along(shape, i) <= shape[i]
    }

    /// The part of a dataset of this shape that is to be read.
    pub open spec fn region(self, shape: Seq<u64>) -> Region {
        Region {
            start: Seq::new(shape.len(), |i: int| self.start_along(i)),
            counts: Seq::new(shape.len(), |i: int| self.count_along(shape, i)),
        }
    }

    /// The first dimension, from `i` on, along which the range reaches beyond a dataset of this
    /// shape, or its rank where there is none.
    pub open spec fn first_beyond(self, shape: Seq<u64>, i: int) -> int
        decreases shape.len() - i,
    {
        if i >= shape.len() {
            shape.len() as int
        } else if !self.fits_along(shape, i) {
            i
        } else {
            self.first_beyond(shape, i + 1)
        }
    }

    /// Why the extents do not fit a dataset of this shape, where they do not.
    pub open spec fn refusal(self, shape: Seq<u64>) -> Option<ExtentError> {
        if self matches Extents::Ranges(v) && v@.len() > shape.len() {
            Some(ExtentError::TooManyDimensions)
        } else if self.first_beyond(shape, 0) < shape.len() {
            Some(ExtentError::OutOfBounds(self.first_beyond(shape, 0) as usize))
        } else {
            None
        }
    }

    /// Extents that are not refused are inside the dataset.
    pub proof fn lemma_inside(self, shape: Seq<u64>)
        requires
            self.refusal(shape) is None,
        ensures
            self.region(shape).inside(shape),
    {
        let region = self.region(shape);
        assert forall|i: int| 0 <= i < shape.len() implies #[trigger] region.start[i]
            + region.counts[i] <= shape[i] by {
            self.lemma_fits(shape, 0, i);
        }
    }

    /// The part that is read is the range that was asked for along each dimension that has one,
    /// and the whole of every other dimension.
    pub proof fn lemma_region(self, shape: Seq<u64>)
        ensures
            self.region(shape).start.len() == shape.len(),
            self.region(shape).counts.len() == shape.len(),
            forall|i: int|
                0 <= i < shape.len() && (self matches Extents::Ranges(v) && i < v@.len()) ==> (
                Extent {
                    start: #[trigger] self.region(shape).start[i],
                    count: self.region(shape).counts[i],
                }) == self->Ranges_0@[i],
            forall|i: int|
                0 <= i < shape.len() && !(self matches Extents::Ranges(v) && i < v@.len())
                    ==> #[trigger] self.region(shape).start[i] == 0
                    && self.region(shape).counts[i] == shape[i],
    {
    }

    /// Extents are refused exactly where there are more ranges than dimensions, or where one of
    /// them reaches beyond the dataset, and the first that does is named.
    pub proof fn lemma_refusal(self, shape: Seq<u64>)
        requires
            shape.len() <= usize::MAX,
        ensures
            self is All ==> self.refusal(shape) is None,
            self matches Extents::Ranges(v) ==> match self.refusal(shape) {
                Some(ExtentError::TooManyDimensions) => v@.len() > shape.len(),
                Some(ExtentError::OutOfBounds(k)) => {
                    &&& v@.len() <= shape.len()
                    &&& k < v@.len()
                    &&& v@[k as int].start + v@[k as int].count > shape[k as int]
                    &&& forall|i: int|
                        0 <= i < k ==> (#[trigger] v@[i]).start + v@[i].count <= shape[i]
                },
                None => {
                    &&& v@.len() <= shape.len()
                    &&& forall|i: int|
                        0 <= i < v@.len() ==> (#[trigger] v@[i]).start + v@[i].count <= shape[i]
                },
            },
    {
        self.lemma_first_beyond(shape, 0);
        let k = self.first_beyond(shape, 0);
        if let Extents::Ranges(v) = self {
            assert forall|i: int| 0 <= i < k && i < v@.len() implies (#[trigger] v@[i]).start
                + v@[i].count <= shape[i] by {
                assert(self.fits_along(shape, i));
            }
        }
        if k < shape.len() {
            assert(!self.fits_along(shape, k));
        }
    }

    /// The ranges fit up to the first that does not.
    proof fn lemma_first_beyond(self, shape: Seq<u64>, a: int)
        requires
            0 <= a <= shape.len(),
        ensures
            a <= self.first_beyond(shape, a) <= shape.len(),
            forall|i: int|
                a <= i < self.first_beyond(shape, a) ==> #[trigger] self.fits_along(shape, i),
            self.first_beyond(shape, a) < shape.len() ==> !self.fits_along(
                shape,
                self.first_beyond(shape, a),
            ),
        decreases shape.len() - a,
    {
        if a < shape.len() && self.fits_along(shape, a) {
            self.lemma_first_beyond(shape, a + 1);
        }
    }

    /// The range fits along the dimensions before the first along which it does not.
    proof fn lemma_fits(self, shape: Seq<u64>, a: int, i: int)
        requires
            0 <= a <= i < shape.len(),
            self.first_beyond(shape, a) >= shape.len(),
        ensures
            self.fits_along(shape, i),
        decreases i - a,
    {
        if a < i {
            self.lemma_fits(shape, a + 1, i);
        }
    }

    /// Resolves the extents against the shape of a dataset.
    pub fn resolve(&self, shape: &[u64]) -> (r: Result<Selection, ExtentError>)
        ensures
            match r {
                Ok(s) => {
                    &&& self.refusal(shape@) is None
                    &&& s@ == self.region(shape@)
                    &&& s@.inside(shape@)
                    &&& self matches Extents::Ranges(v) ==> v@.len() <= shape@.len() && forall|
                        i: int,
                    |
                        0 <= i < v@.len() ==> v@[i] == (Extent {
                            start: #[trigger] s.start@[i],
                            count: s.counts@[i],
                        })
                },
                Err(e) => self.refusal(shape@) == Some(e),
            },
    {
        if let Extents::Ranges(v) = self {
            if v.len() > shape.len() {
                return Err(ExtentError::TooManyDimensions);
            }
        }
        let mut start: Vec<u64> = Vec::new();
        let mut counts: Vec<u64> = Vec::new();
        for i in 0..shape.len()
            invariant
                !(self matches Extents::Ranges(v) && v@.len() > shape@.len()),
                start@ =~= Seq::new(i as nat, |j: int| self.start_along(j)),
                counts@ =~= Seq::new(i as nat, |j: int| self.count_along(shape@, j)),
                self.first_beyond(shape@, 0) == self.first_beyond(shape@, i as int),
        {
            let (s, n): (u64, u64) = match self {
                Extents::All => (0, shape[i]),
                Extents::Ranges(v) => if i < v.len() {
                    (v[i].start, v[i].count)
                } else {
                    (0, shape[i])
                },
            };
            if n > shape[i] || s > shape[i] - n {
                assert(!self.fits_along(shape@, i as int));
                return Err(ExtentError::OutOfBounds(i));
            }
            assert(self.fits_along(shape@, i as int));
            start.push(s);
            counts.push(n);
        }
        let s = Selection { start, counts };
        assert(s@ =~= self.region(shape@));
        proof {
            self.lemma_inside(shape@);
        }
        Ok(s)
    }
}

impl Region {
    /// Whether there is one range for each dimension of `shape`, inside it.
    pub open spec fn inside(self, shape: Seq<u64>) -> bool {
        &&& self.start.len() == shape.len()
        &&& self.counts.len() == shape.len()
        &&& forall|i: int|
            0 <= i < shape.len() ==> #[trigger] self.start[i] + self.counts[i] <= shape[i]
    }

    /// The coordinates of the element that is read at position `q`.
    pub open spec fn coord(self, q: int) -> Seq<int> {
        let x = coords(q, self.counts);
        Seq::new(self.counts.len(), |i: int| self.start[i] + x[i])
    }

    /// A part is inside a dataset exactly where it has a range for each dimension, none of which
    /// ends behind the last element.
    pub proof fn lemma_inside_means(self, shape: Seq<u64>)
        ensures
            self.inside(shape) <==> self.start.len() == shape.len() && self.counts.len()
                == shape.len() && forall|i: int|
                0 <= i < shape.len() ==> #[trigger] self.start[i] + self.counts[i] <= shape[i],
    {
    }

    /// The element that is `y[i]` elements behind the start of the part along each dimension `i`
    /// is read at the position that `y` has in an array of the shape of the part.
    pub proof fn lemma_coord_at(self, y: Seq<int>)
        requires
            self.start.len() == self.counts.len(),
            in_box(y, self.counts),
        ensures
            0 <= position(y, self.counts) < product(self.counts),
            self.coord(position(y, self.counts)).len() == y.len(),
            forall|i: int|
                0 <= i < y.len() ==> #[trigger] self.coord(position(y, self.counts))[i]
                    == self.start[i] + y[i],
    {
        lemma_position_bound(y, self.counts);
        lemma_coords_of_position(y, self.counts);
    }

    /// What is read are the elements inside the part, and no others: `x` are the coordinates of
    /// an element that is read exactly where they are in the range along each dimension.
    pub proof fn lemma_coords_read(self, x: Seq<int>)
        requires
            self.start.len() == self.counts.len(),
            x.len() == self.counts.len(),
        ensures
            (exists|q: int| 0 <= q < product(self.counts) && #[trigger] self.coord(q) == x) <==> (
            forall|i: int|
                0 <= i < x.len() ==> self.start[i] <= #[trigger] x[i] < self.start[i]
                    + self.counts[i]),
    {
        if exists|q: int| 0 <= q < product(self.counts) && #[trigger] self.coord(q) == x {
            let q = choose|q: int| 0 <= q < product(self.counts) && #[trigger] self.coord(q) == x;
            lemma_position_of_coords(q, self.counts);
            assert forall|i: int| 0 <= i < x.len() implies self.start[i] <= #[trigger] x[i]
                < self.start[i] + self.counts[i] by {
                assert(0 <= coords(q, self.counts)[i] < self.counts[i]);
                assert(x[i] == self.coord(q)[i]);
            }
        }
        if forall|i: int|
            0 <= i < x.len() ==> self.start[i] <= #[trigger] x[i] < self.start[i]
                + self.counts[i] {
            let y = Seq::new(x.len(), |i: int| x[i] - self.start[i]);
            assert forall|i: int| 0 <= i < y.len() implies 0 <= #[trigger] y[i]
                < self.counts[i] by {
                assert(self.start[i] <= x[i]);
            }
            self.lemma_coord_at(y);
            assert(self.coord(position(y, self.counts)) =~= x);
        }
    }
}

/// The words for an error say what is wrong, and along which dimension.
pub proof fn lemma_extent_error_text(i: usize)
    ensures
        ExtentError::TooManyDimensions.text() == "extents have more dimensions than the dataset"@,
        ExtentError::OutOfBounds(i).text() == "extents are out of bounds along dimension "@
            + decimal(i as nat),
{
}

} // verus!

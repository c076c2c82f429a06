//! Maps from names to values, in the order of the names.
use crate::text::{
    lemma_precedes_total, lemma_precedes_transitive, place, precedes, texts, Place,
};
use vstd::prelude::*;

verus! {

/// A map from names to values that is walked in the order of the names.
#[derive(Debug, PartialEq)]
pub struct NameMap<V> {
    entries: Vec<(String, V)>,
}

impl<V> NameMap<V> {
    /// The number of names.
    pub closed spec fn size(&self) -> nat {
        self.entries@.len()
    }

    /// Name number `i` in the order of the names.
    pub closed spec fn name(&self, i: int) -> Seq<char> {
        self.entries@[i].0@
    }

    /// The value of name number `i`.
    pub closed spec fn value(&self, i: int) -> V {
        self.entries@[i].1
    }

    /// All the names, in order.
    pub open spec fn names(&self) -> Seq<Seq<char>> {
        Seq::new(self.size(), |i: int| self.name(i))
    }

    /// Whether `k` is name number `i`.
    pub open spec fn is_at(&self, k: Seq<char>, i: int) -> bool {
        0 <= i < self.size() && self.name(i) == k
    }

    /// Whether `k` is a name of the map.
    pub open spec fn has(&self, k: Seq<char>) -> bool {
        exists|i: int| self.is_at(k, i)
    }

    /// The number of the name `k`.
    pub open spec fn number(&self, k: Seq<char>) -> int {
        choose|i: int| self.is_at(k, i)
    }

    /// Whether the names are in order, each there once.
    pub open spec fn sorted(&self) -> bool {
        forall|i: int, j: int|
            0 <= i < j < self.size() ==> precedes(#[trigger] self.name(i), #[trigger] self.name(j))
    }

    #[verifier::type_invariant]
    spec fn wf(&self) -> bool {
        self.sorted()
    }

    /// Values are smaller than the map that holds them.
    pub proof fn lemma_smaller(self, i: int)
        requires
            0 <= i < self.size(),
        ensures
            decreases_to!(self => self.value(i)),
    {
        let e = self.entries;
        let s = e@;
        let p = s[i];
        assert(decreases_to!(self => e));
        assert(decreases_to!(e => s));
        assert(decreases_to!(s => p));
        assert(decreases_to!(p => p.1));
    }

    /// In a sorted map a name has one number.
    pub proof fn lemma_number(self, i: int)
        requires
            self.sorted(),
            0 <= i < self.size(),
        ensures
            self.has(self.name(i)),
            self.number(self.name(i)) == i,
            self@.contains_key(self.name(i)),
            self@[self.name(i)] == self.value(i),
    {
        assert(self.is_at(self.name(i), i));
        let j = self.number(self.name(i));
        lemma_precedes_total(self.name(i), self.name(j));
        lemma_precedes_total(self.name(j), self.name(i));
    }
}

/// A map is walked in the order of its names: of two names the one that precedes the other has the
/// lower number, and each name has one number.
pub proof fn lemma_walk_order<V>(m: NameMap<V>, i: int, j: int)
    requires
        m.sorted(),
        0 <= i < m.size(),
        0 <= j < m.size(),
    ensures
        precedes(m.name(i), m.name(j)) <==> i < j,
        m.name(i) == m.name(j) <==> i == j,
        m.names().len() == m.size(),
        m.names()[i] == m.name(i),
{
    lemma_precedes_total(m.name(i), m.name(j));
    if i < j {
        assert(precedes(m.name(i), m.name(j)));
    } else if j < i {
        assert(precedes(m.name(j), m.name(i)));
    }
}

/// Maps that hold the same are walked in the same order.
pub proof fn lemma_same_walk<V>(a: NameMap<V>, b: NameMap<V>)
    requires
        a.sorted(),
        b.sorted(),
        a@ == b@,
    ensures
        a.names() == b.names(),
        forall|i: int| 0 <= i < a.size() ==> #[trigger] a.value(i) == b.value(i),
{
    if a.size() <= b.size() {
        lemma_same_start(a, b, a.size() as int);
        lemma_same_size(a, b);
    } else {
        lemma_same_start(b, a, b.size() as int);
        lemma_same_size(b, a);
    }
    assert(a.names() =~= b.names());
    assert forall|i: int| 0 <= i < a.size() implies #[trigger] a.value(i) == b.value(i) by {
        assert(a.names()[i] == b.names()[i]);
        a.lemma_number(i);
        b.lemma_number(i);
    }
}

/// Maps that hold the same start with the same names.
proof fn lemma_same_start<V>(a: NameMap<V>, b: NameMap<V>, n: int)
    requires
        a.sorted(),
        b.sorted(),
        a@ == b@,
        0 <= n <= a.size() <= b.size(),
    ensures
        forall|i: int| 0 <= i < n ==> #[trigger] a.name(i) == b.name(i),
    decreases n,
{
    if n > 0 {
        let i = n - 1;
        lemma_same_start(a, b, i);
        a.lemma_number(i);
        b.lemma_number(i);
        let x = a.name(i);
        let y = b.name(i);
        assert(b@.contains_key(x));
        assert(a@.contains_key(y));
        let j = b.number(x);
        let k = a.number(y);
        assert(b.is_at(x, j));
        assert(a.is_at(y, k));
        lemma_precedes_total(x, y);
        if j < i {
            assert(a.name(j) == b.name(j));
            lemma_precedes_total(a.name(j), a.name(i));
        }
        if k < i {
            assert(a.name(k) == b.name(k));
            lemma_precedes_total(b.name(k), b.name(i));
        }
        if x != y {
            assert(precedes(b.name(i), b.name(j)));
            assert(precedes(a.name(i), a.name(k)));
        }
    }
}

/// Maps that hold the same have the same number of names.
proof fn lemma_same_size<V>(a: NameMap<V>, b: NameMap<V>)
    requires
        a.sorted(),
        b.sorted(),
        a@ == b@,
        a.size() <= b.size(),
        forall|i: int| 0 <= i < a.size() ==> #[trigger] a.name(i) == b.name(i),
    ensures
        a.size() == b.size(),
{
    if a.size() < b.size() {
        let i = a.size() as int;
        b.lemma_number(i);
        let y = b.name(i);
        assert(a@.contains_key(y));
        let k = a.number(y);
        assert(a.is_at(y, k));
        assert(a.name(k) == b.name(k));
        lemma_precedes_total(b.name(k), b.name(i));
    }
}

impl<V> View for NameMap<V> {
    type V = Map<Seq<char>, V>;

    /// The map as a mathematical one.
    open spec fn view(&self) -> Map<Seq<char>, V> {
        Map::new(|k: Seq<char>| self.has(k), |k: Seq<char>| self.value(self.number(k)))
    }
}

impl<V> NameMap<V> {
    /// A map without names.
    pub fn new() -> (r: NameMap<V>)
        ensures
            r@ == Map::<Seq<char>, V>::empty(),
            r.size() == 0,
    {
        let r = NameMap { entries: Vec::new() };
        assert(r@ =~= Map::empty());
        r
    }

    /// The number of names.
    pub fn len(&self) -> (r: usize)
        ensures
            r == self.size(),
            self.sorted(),
    {
        proof {
            use_type_invariant(self);
        }
        self.entries.len()
    }

    /// Whether there is no name.
    pub fn is_empty(&self) -> (r: bool)
        ensures
            r == (self.size() == 0),
            r == (self@ == Map::<Seq<char>, V>::empty()),
    {
        proof {
            if self.size() == 0 {
                assert(self@ =~= Map::empty());
            } else {
                assert(self.is_at(self.name(0), 0));
                assert(self@.contains_key(self.name(0)));
            }
        }
        self.entries.len() == 0
    }

    /// The number of names that come before `k`, and whether `k` is the next.
    fn find(&self, k: &str) -> (r: (usize, bool))
        ensures
            r.0 <= self.size(),
            forall|i: int| 0 <= i < r.0 ==> precedes(#[trigger] self.name(i), k@),
            r.1 ==> r.0 < self.size() && self.name(r.0 as int) == k@,
            !r.1 ==> forall|i: int|
                r.0 <= i < self.size() ==> precedes(k@, #[trigger] self.name(i)),
    {
        proof {
            use_type_invariant(self);
        }
        let mut from: usize = 0;
        let mut to: usize = self.entries.len();
        while from < to
            invariant
                self.sorted(),
                from <= to <= self.size(),
                self.size() == self.entries@.len(),
                forall|i: int| 0 <= i < from ==> precedes(#[trigger] self.name(i), k@),
                forall|i: int| to <= i < self.size() ==> precedes(k@, #[trigger] self.name(i)),
            decreases to - from,
        {
            let mid = from + (to - from) / 2;
            let ghost m = self.name(mid as int);
            match place(self.entries[mid].0.as_str(), k) {
                Place::Same => {
                    return (mid, true);
                },
                Place::Before => {
                    assert forall|i: int| 0 <= i < mid + 1 implies precedes(
                        #[trigger] self.name(i),
                        k@,
                    ) by {
                        if i < mid {
                            lemma_precedes_transitive(self.name(i), m, k@);
                        }
                    }
                    from = mid + 1;
                },
                Place::After => {
                    assert forall|i: int| mid <= i < self.size() implies precedes(
                        k@,
                        #[trigger] self.name(i),
                    ) by {
                        if i > mid {
                            lemma_precedes_transitive(k@, m, self.name(i));
                        }
                    }
                    to = mid;
                },
            }
        }
        (from, false)
    }

    /// The value of the name `k`.
    pub fn get(&self, k: &str) -> (r: Option<&V>)
        ensures
            match r {
                Some(v) => self@.contains_key(k@) && *v == self@[k@],
                None => !self@.contains_key(k@),
            },
    {
        proof {
            use_type_invariant(self);
        }
        let (i, found) = self.find(k);
        if found {
            proof {
                self.lemma_number(i as int);
            }
            Some(&self.entries[i].1)
        } else {
            proof {
                if self.has(k@) {
                    let j = self.number(k@);
                    lemma_precedes_total(self.name(j), k@);
                }
            }
            None
        }
    }

    /// Whether `k` is a name of the map.
    pub fn contains_key(&self, k: &str) -> (r: bool)
        ensures
            r == self@.contains_key(k@),
    {
        self.get(k).is_some()
    }

    /// Gives the name `k` the value `v`, in place of the one that it had.
    pub fn insert(&mut self, k: String, v: V)
        ensures
            final(self)@ == old(self)@.insert(k@, v),
            final(self).size() == old(self).size() + if old(self)@.contains_key(k@) {
                0int
            } else {
                1
            },
    {
        proof {
            use_type_invariant(&*self);
        }
        let ghost before = *self;
        let (i, found) = self.find(k.as_str());
        let ghost key = k@;
        let mut entries: Vec<(String, V)> = Vec::new();
        std::mem::swap(&mut entries, &mut self.entries);
        if found {
            proof {
                before.lemma_number(i as int);
            }
            entries.set(i, (k, v));
            proof {
                let made = NameMap { entries };
                assert forall|a: int| 0 <= a < made.size() implies #[trigger] made.name(a)
                    == before.name(a) by {}
            }
            self.entries = entries;
            proof {
                lemma_replaced(before, *self, i as int, key, v);
            }
        } else {
            proof {
                if before.has(key) {
                    let j = before.number(key);
                    lemma_precedes_total(before.name(j), key);
                }
            }
            entries.insert(i, (k, v));
            proof {
                let made = NameMap { entries };
                assert forall|a: int, b: int| 0 <= a < b < made.size() implies precedes(
                    #[trigger] made.name(a),
                    #[trigger] made.name(b),
                ) by {
                    let x = if a < i { a } else { a - 1 };
                    let y = if b < i { b } else { b - 1 };
                    if a != i {
                        assert(made.name(a) == before.name(x));
                    }
                    if b != i {
                        assert(made.name(b) == before.name(y));
                    }
                }
            }
            self.entries = entries;
            proof {
                lemma_inserted(before, *self, i as int, key, v);
            }
        }
    }

    /// All the names, in order.
    pub fn keys(&self) -> (r: Vec<String>)
        ensures
            texts(r@) == self.names(),
            r@.len() == self.size(),
            forall|i: int| 0 <= i < r@.len() ==> (#[trigger] r@[i])@ == self.name(i),
            self.sorted(),
    {
        proof {
            use_type_invariant(self);
        }
        let mut r: Vec<String> = Vec::new();
        for i in 0..self.entries.len()
            invariant
                r@.len() == i,
                forall|j: int| 0 <= j < i ==> #[trigger] r@[j]@ == self.name(j),
        {
            r.push(self.entries[i].0.clone());
        }
        assert(texts(r@) =~= self.names());
        r
    }

    /// Name number `i` and its value.
    pub fn at(&self, i: usize) -> (r: (&str, &V))
        requires
            i < self.size(),
        ensures
            r.0@ == self.name(i as int),
            *r.1 == self.value(i as int),
    {
        let e = &self.entries[i];
        (e.0.as_str(), &e.1)
    }

    /// The map of names, in order, with their values.
    pub(crate) fn from_entries(entries: Vec<(String, V)>) -> (r: NameMap<V>)
        requires
            forall|i: int, j: int|
                0 <= i < j < entries@.len() ==> precedes(
                    (#[trigger] entries@[i]).0@,
                    (#[trigger] entries@[j]).0@,
                ),
        ensures
            r.sorted(),
            r.size() == entries@.len(),
            forall|i: int| 0 <= i < entries@.len() ==> #[trigger] r.name(i) == entries@[i].0@,
            forall|i: int| 0 <= i < entries@.len() ==> #[trigger] r.value(i) == entries@[i].1,
    {
        let r = NameMap { entries };
        assert(r.sorted());
        r
    }

    /// The names with their values, in order.
    pub fn into_entries(self) -> (r: Vec<(String, V)>)
        ensures
            self.sorted(),
            r@.len() == self.size(),
            forall|i: int| 0 <= i < r@.len() ==> (#[trigger] r@[i]).0@ == self.name(i),
            forall|i: int| 0 <= i < r@.len() ==> (#[trigger] r@[i]).1 == self.value(i),
    {
        proof {
            use_type_invariant(&self);
        }
        self.entries
    }
}

impl<V: Clone> Clone for NameMap<V> {
    /// A copy: the same names, each with a clone of its value.
    fn clone(&self) -> (r: NameMap<V>)
        ensures
            r.names() == self.names(),
            forall|i: int|
                0 <= i < self.size() ==> cloned::<V>(
                    #[trigger] self.value(i),
                    r.value(i),
                ),
    {
        proof {
            use_type_invariant(self);
        }
        let mut entries: Vec<(String, V)> = Vec::new();
        for i in 0..self.entries.len()
            invariant
                entries@.len() == i,
                forall|j: int| 0 <= j < i ==> (#[trigger] entries@[j]).0@ == self.name(j),
                forall|j: int|
                    0 <= j < i ==> cloned::<V>(#[trigger] self.value(j), entries@[j].1),
        {
            let e = &self.entries[i];
            assert(e.1 == self.value(i as int));
            entries.push((e.0.clone(), e.1.clone()));
        }
        proof {
            let made = NameMap { entries };
            assert forall|i: int, j: int| 0 <= i < j < made.size() implies precedes(
                #[trigger] made.name(i),
                #[trigger] made.name(j),
            ) by {
                assert(made.name(i) == self.name(i));
                assert(made.name(j) == self.name(j));
            }
        }
        let r = NameMap { entries };
        assert forall|i: int| 0 <= i < self.size() implies cloned::<V>(
            #[trigger] self.value(i),
            r.value(i),
        ) by {
            assert(r.value(i) == entries@[i].1);
        }
        assert(r.names() =~= self.names());
        r
    }
}

/// Replacing the value of a name.
proof fn lemma_replaced<V>(a: NameMap<V>, b: NameMap<V>, i: int, k: Seq<char>, v: V)
    requires
        a.sorted(),
        0 <= i < a.size(),
        a.name(i) == k,
        b.size() == a.size(),
        forall|j: int| 0 <= j < a.size() ==> #[trigger] b.name(j) == a.name(j),
        forall|j: int|
            0 <= j < a.size() ==> #[trigger] b.value(j) == if j == i {
                v
            } else {
                a.value(j)
            },
    ensures
        b@ == a@.insert(k, v),
        a@.contains_key(k),
{
    a.lemma_number(i);
    assert(b.sorted());
    let m = a@.insert(k, v);
    assert forall|x: Seq<char>| b@.contains_key(x) == #[trigger] m.contains_key(x) by {
        if b.has(x) {
            a.lemma_number(b.number(x));
        }
        if a.has(x) {
            b.lemma_number(a.number(x));
        }
    }
    assert forall|x: Seq<char>| #[trigger] b@.contains_key(x) implies b@[x] == m[x] by {
        let j = b.number(x);
        b.lemma_number(j);
        a.lemma_number(j);
    }
    assert(b@ =~= m);
}

/// Adding a name.
proof fn lemma_inserted<V>(a: NameMap<V>, b: NameMap<V>, i: int, k: Seq<char>, v: V)
    requires
        a.sorted(),
        b.sorted(),
        0 <= i <= a.size(),
        !a.has(k),
        b.size() == a.size() + 1,
        b.name(i) == k,
        b.value(i) == v,
        forall|j: int| 0 <= j < i ==> #[trigger] b.name(j) == a.name(j) && b.value(j) == a.value(j),
        forall|j: int|
            i < j < b.size() ==> #[trigger] b.name(j) == a.name(j - 1) && b.value(j) == a.value(
                j - 1,
            ),
    ensures
        b@ == a@.insert(k, v),
{
    let m = a@.insert(k, v);
    b.lemma_number(i);
    assert forall|x: Seq<char>| b@.contains_key(x) == #[trigger] m.contains_key(x) by {
        if b.has(x) {
            let j = b.number(x);
            assert(b.name(j) == x);
            if j < i {
                a.lemma_number(j);
            } else if j > i {
                a.lemma_number(j - 1);
            }
        }
        if a.has(x) {
            let j = a.number(x);
            if j < i {
                b.lemma_number(j);
            } else {
                b.lemma_number(j + 1);
            }
        }
    }
    assert forall|x: Seq<char>| #[trigger] b@.contains_key(x) implies b@[x] == m[x] by {
        let j = b.number(x);
        assert(b.name(j) == x);
        b.lemma_number(j);
        if j < i {
            a.lemma_number(j);
        } else if j > i {
            a.lemma_number(j - 1);
        }
    }
    assert(b@ =~= m);
}

} // verus!

//! Text: parts of paths, the order of names, and numbers in decimal.
use vstd::prelude::*;

verus! {

/// What is left of `s` without the leading `c`s.
pub open spec fn trimmed_start(s: Seq<char>, c: char) -> Seq<char>
    decreases s.len(),
{
    if s.len() > 0 && s[0] == c {
        trimmed_start(s.drop_first(), c)
    } else {
        s
    }
}

/// What is left of `s` without the trailing `c`s.
pub open spec fn trimmed_end(s: Seq<char>, c: char) -> Seq<char>
    decreases s.len(),
{
    if s.len() > 0 && s.last() == c {
        trimmed_end(s.drop_last(), c)
    } else {
        s
    }
}

/// The parts of `s` before, between and after the `c`s in it.
pub open spec fn parts(s: Seq<char>, c: char) -> Seq<Seq<char>>
    decreases s.len(),
{
    if s.len() == 0 {
        seq![s]
    } else {
        let p = parts(s.drop_last(), c);
        if s.last() == c {
            p.push(Seq::empty())
        } else {
            p.drop_last().push(p.last().push(s.last()))
        }
    }
}

/// Parts put together again, with a `c` between each two.
pub open spec fn joined(p: Seq<Seq<char>>, c: char) -> Seq<char>
    decreases p.len(),
{
    if p.len() == 0 {
        Seq::empty()
    } else if p.len() == 1 {
        p[0]
    } else {
        joined(p.drop_last(), c).push(c) + p.last()
    }
}

/// Whether `a` comes before `b` in the order of dictionaries.
pub open spec fn precedes(a: Seq<char>, b: Seq<char>) -> bool
    decreases a.len(),
{
    if a.len() == 0 || b.len() == 0 {
        a.len() < b.len()
    } else if a[0] == b[0] {
        precedes(a.drop_first(), b.drop_first())
    } else {
        a[0] < b[0]
    }
}

/// The digit for `d`, which is below ten.
pub open spec fn digit(d: nat) -> char {
    "0123456789"@[d as int]
}

/// A number in decimal.
pub open spec fn decimal(n: nat) -> Seq<char>
    decreases n,
{
    if n < 10 {
        seq![digit(n)]
    } else {
        decimal(n / 10).push(digit(n % 10))
    }
}

/// There is always a part.
pub proof fn lemma_parts_not_empty(s: Seq<char>, c: char)
    ensures
        parts(s, c).len() > 0,
    decreases s.len(),
{
    if s.len() > 0 {
        lemma_parts_not_empty(s.drop_last(), c);
    }
}

/// The parts put together again are what was taken apart, and no part has a `c` in it.
pub proof fn lemma_parts_joined(s: Seq<char>, c: char)
    ensures
        joined(parts(s, c), c) == s,
        forall|i: int| 0 <= i < parts(s, c).len() ==> !(#[trigger] parts(s, c)[i]).contains(c),
    decreases s.len(),
{
    lemma_parts_not_empty(s, c);
    if s.len() == 0 {
        assert(joined(parts(s, c), c) =~= s);
    } else {
        let t = s.drop_last();
        let p = parts(t, c);
        lemma_parts_not_empty(t, c);
        lemma_parts_joined(t, c);
        let q = parts(s, c);
        if s.last() == c {
            assert(q.drop_last() =~= p);
            assert(joined(q, c) =~= s);
        } else {
            assert(q.drop_last() =~= p.drop_last());
            assert(joined(q, c) =~= s) by {
                if p.len() == 1 {
                    assert(q[0] =~= p[0].push(s.last()));
                } else {
                    assert(joined(q, c) =~= joined(p, c).push(s.last()));
                }
            }
        }
        assert forall|i: int| 0 <= i < q.len() implies !(#[trigger] q[i]).contains(c) by {
            if i < q.len() - 1 {
                assert(q[i] == p[i]);
            } else if s.last() != c {
                let x = p.last();
                assert(!p[p.len() - 1].contains(c));
                if q[i].contains(c) {
                    let j = choose|j: int| 0 <= j < q[i].len() && q[i][j] == c;
                    assert(x[j] == c);
                }
            }
        }
    }
}

/// The parts of two texts with a `c` between them are those of the one and those of the other.
pub proof fn lemma_parts_of_join(a: Seq<char>, b: Seq<char>, c: char)
    ensures
        parts(a.push(c) + b, c) == parts(a, c) + parts(b, c),
    decreases b.len(),
{
    let s = a.push(c) + b;
    lemma_parts_not_empty(b, c);
    if b.len() == 0 {
        assert(s =~= a.push(c));
        assert(s.drop_last() =~= a);
        assert(b =~= Seq::empty());
        assert(parts(s, c) =~= parts(a, c) + parts(b, c));
    } else {
        let t = b.drop_last();
        lemma_parts_of_join(a, t, c);
        lemma_parts_not_empty(t, c);
        assert(s.drop_last() =~= a.push(c) + t);
        assert(s.last() == b.last());
        assert((parts(a, c) + parts(t, c)).drop_last() =~= parts(a, c) + parts(t, c).drop_last());
        assert(parts(s, c) =~= parts(a, c) + parts(b, c));
    }
}

/// What has no `c` in it is one part, with nothing to trim.
pub proof fn lemma_one_part(s: Seq<char>, c: char)
    requires
        !s.contains(c),
    ensures
        parts(s, c) == seq![s],
        trimmed_start(s, c) == s,
    decreases s.len(),
{
    if s.len() > 0 {
        let t = s.drop_last();
        assert forall|i: int| 0 <= i < t.len() implies #[trigger] t[i] != c by {
            assert(s[i] == t[i]);
            assert(s.contains(s[i]));
        }
        lemma_one_part(t, c);
        assert(s.contains(s[0]));
        assert(s.contains(s[s.len() - 1]));
        assert(t.push(s.last()) =~= s);
        assert(parts(s, c) =~= seq![s]);
    }
}

/// The last part is what follows the last `c`.
proof fn lemma_last_part(s: Seq<char>, c: char, i: int)
    requires
        0 <= i <= s.len(),
        i == 0 || s[i - 1] == c,
        forall|j: int| i <= j < s.len() ==> #[trigger] s[j] != c,
    ensures
        parts(s, c).last() == s.skip(i),
    decreases s.len(),
{
    lemma_parts_not_empty(s, c);
    if s.len() == 0 {
        assert(s.skip(i) =~= s);
    } else if i == s.len() {
        assert(s.skip(i) =~= Seq::empty());
    } else {
        lemma_last_part(s.drop_last(), c, i);
        assert(s.skip(i) =~= s.drop_last().skip(i).push(s.last()));
    }
}

/// What starts with no `c` has no leading `c` to trim, and nor does what is left after trimming.
pub proof fn lemma_trimmed_start(s: Seq<char>, c: char)
    ensures
        trimmed_start(s, c).len() == 0 || trimmed_start(s, c)[0] != c,
        trimmed_start(trimmed_start(s, c), c) == trimmed_start(s, c),
        trimmed_start(seq![c] + s, c) == trimmed_start(s, c),
    decreases s.len(),
{
    assert((seq![c] + s).drop_first() =~= s);
    if s.len() > 0 && s[0] == c {
        lemma_trimmed_start(s.drop_first(), c);
    }
}

/// What is left after trimming the end starts as before.
pub proof fn lemma_trimmed_end(s: Seq<char>, c: char)
    ensures
        trimmed_end(s, c).len() <= s.len(),
        trimmed_end(s, c) == s.take(trimmed_end(s, c).len() as int),
    decreases s.len(),
{
    if s.len() > 0 && s.last() == c {
        lemma_trimmed_end(s.drop_last(), c);
        let n = trimmed_end(s, c).len() as int;
        assert(s.drop_last().take(n) =~= s.take(n));
    } else {
        assert(s.take(s.len() as int) =~= s);
    }
}

/// Trimming the start takes away as many `c`s as there are, and nothing else.
pub proof fn lemma_start_trimmed(s: Seq<char>, c: char) -> (n: int)
    ensures
        0 <= n <= s.len(),
        trimmed_start(s, c) == s.skip(n),
        forall|i: int| 0 <= i < n ==> #[trigger] s[i] == c,
        n < s.len() ==> s[n] != c,
    decreases s.len(),
{
    if s.len() > 0 && s[0] == c {
        let t = s.drop_first();
        let n = lemma_start_trimmed(t, c);
        assert(s.skip(n + 1) =~= t.skip(n));
        assert forall|i: int| 0 <= i < n + 1 implies #[trigger] s[i] == c by {
            if i > 0 {
                assert(t[i - 1] == s[i]);
            }
        }
        n + 1
    } else {
        assert(s.skip(0) =~= s);
        0
    }
}

/// Trimming the end takes away as many `c`s as there are, and nothing else.
pub proof fn lemma_end_trimmed(s: Seq<char>, c: char) -> (n: int)
    ensures
        0 <= n <= s.len(),
        trimmed_end(s, c) == s.take(n),
        forall|i: int| n <= i < s.len() ==> #[trigger] s[i] == c,
        n > 0 ==> s[n - 1] != c,
    decreases s.len(),
{
    if s.len() > 0 && s.last() == c {
        let t = s.drop_last();
        let n = lemma_end_trimmed(t, c);
        assert(s.take(n) =~= t.take(n));
        assert forall|i: int| n <= i < s.len() implies #[trigger] s[i] == c by {
            if i < t.len() {
                assert(t[i] == s[i]);
            }
        }
        n
    } else {
        assert(s.take(s.len() as int) =~= s);
        s.len() as int
    }
}

/// The last part of a path is the name behind its last `c`.
pub proof fn lemma_name_of_path(path: Seq<char>, name: Seq<char>, c: char)
    requires
        !name.contains(c),
    ensures
        parts(path.push(c) + name, c).last() == name,
        parts(name, c).last() == name,
{
    lemma_parts_of_join(path, name, c);
    lemma_one_part(name, c);
}

/// Names are ordered by the first character in which they differ, and a name comes before those
/// that it is the start of.
pub proof fn lemma_precedes_first_difference(a: Seq<char>, b: Seq<char>, k: int)
    requires
        0 <= k <= a.len(),
        k < b.len(),
        a.take(k) == b.take(k),
        k < a.len() ==> a[k] < b[k],
    ensures
        precedes(a, b),
        !precedes(b, a),
    decreases k,
{
    if k > 0 {
        assert(a[0] == a.take(k)[0]);
        assert(b[0] == b.take(k)[0]);
        assert(a.drop_first().take(k - 1) =~= a.take(k).drop_first());
        assert(b.drop_first().take(k - 1) =~= b.take(k).drop_first());
        lemma_precedes_first_difference(a.drop_first(), b.drop_first(), k - 1);
    }
}

/// The number that a text of decimal digits stands for.
pub open spec fn decimal_value(s: Seq<char>) -> int
    decreases s.len(),
{
    if s.len() == 0 {
        0
    } else {
        decimal_value(s.drop_last()) * 10 + (s.last() as int - '0' as int)
    }
}

/// A number in decimal is made of digits, without leading zeros, that stand for the number.
pub proof fn lemma_decimal(n: nat)
    ensures
        decimal_value(decimal(n)) == n,
        decimal(n).len() > 0,
        decimal(n).len() > 1 ==> decimal(n)[0] != '0',
        forall|i: int| 0 <= i < decimal(n).len() ==> '0' <= #[trigger] decimal(n)[i] <= '9',
    decreases n,
{
    reveal_strlit("0123456789");
    let d = n % 10;
    assert(digit(d) as int == '0' as int + d);
    if n < 10 {
        assert(decimal(n).drop_last() =~= Seq::empty());
        assert(decimal_value(decimal(n).drop_last()) == 0);
    } else {
        lemma_decimal(n / 10);
        let m = decimal(n / 10);
        assert(decimal(n).drop_last() =~= m);
        assert(decimal_value(m) == n / 10);
        assert(decimal(n)[0] == m[0]);
        if m.len() == 1 {
            assert(m.drop_last() =~= Seq::empty());
            assert(decimal_value(m.drop_last()) == 0);
            assert(decimal_value(m) == m.last() as int - '0' as int);
        }
    }
}

/// Different numbers are different in decimal.
pub proof fn lemma_decimal_differs(m: nat, n: nat)
    requires
        decimal(m) == decimal(n),
    ensures
        m == n,
{
    lemma_decimal(m);
    lemma_decimal(n);
}

/// The order of names is an order: nothing precedes itself, and of two names one precedes the
/// other.
pub proof fn lemma_precedes_total(a: Seq<char>, b: Seq<char>)
    ensures
        precedes(a, b) ==> !precedes(b, a) && a != b,
        a != b ==> precedes(a, b) || precedes(b, a),
    decreases a.len(),
{
    if a.len() > 0 && b.len() > 0 {
        if a[0] == b[0] {
            lemma_precedes_total(a.drop_first(), b.drop_first());
            if a != b && a.drop_first() == b.drop_first() {
                assert(a =~= seq![a[0]] + a.drop_first());
                assert(b =~= seq![b[0]] + b.drop_first());
            }
        }
    } else if a.len() == 0 && b.len() == 0 {
        assert(a =~= b);
    }
}

/// What precedes a name precedes all that the name precedes.
pub proof fn lemma_precedes_transitive(a: Seq<char>, b: Seq<char>, d: Seq<char>)
    requires
        precedes(a, b),
        precedes(b, d),
    ensures
        precedes(a, d),
    decreases a.len(),
{
    if a.len() > 0 && a[0] == b[0] && b[0] == d[0] {
        lemma_precedes_transitive(a.drop_first(), b.drop_first(), d.drop_first());
    }
}

/// The place of one name relative to another.
#[derive(Clone, Copy, Debug, PartialEq, Eq, Structural)]
pub enum Place {
    Before,
    Same,
    After,
}

/// The characters of a text.
fn chars_of(s: &str) -> (r: Vec<char>)
    ensures
        r@ == s@,
{
    let mut r: Vec<char> = Vec::new();
    for c in it: s.chars()
        invariant
            it.seq() == s@,
            r@ =~= s@.take(it.index()),
    {
        r.push(c);
    }
    r
}

/// Where `a` stands relative to `b`.
pub fn place(a: &str, b: &str) -> (r: Place)
    ensures
        r == (if a@ == b@ {
            Place::Same
        } else if precedes(a@, b@) {
            Place::Before
        } else {
            Place::After
        }),
        r == Place::After ==> precedes(b@, a@),
{
    let x = chars_of(a);
    let y = chars_of(b);
    proof {
        lemma_precedes_total(a@, b@);
        assert(a@.skip(0) =~= a@);
        assert(b@.skip(0) =~= b@);
    }
    let mut i: usize = 0;
    while i < x.len() && i < y.len()
        invariant
            x@ == a@,
            y@ == b@,
            i <= x@.len(),
            i <= y@.len(),
            a@.take(i as int) =~= b@.take(i as int),
            precedes(a@, b@) == precedes(a@.skip(i as int), b@.skip(i as int)),
            precedes(b@, a@) == precedes(b@.skip(i as int), a@.skip(i as int)),
        decreases x.len() - i,
    {
        assert(a@.skip(i as int)[0] == x@[i as int]);
        assert(b@.skip(i as int)[0] == y@[i as int]);
        if x[i] != y[i] {
            if x[i] < y[i] {
                return Place::Before;
            } else {
                return Place::After;
            }
        }
        assert(a@.skip(i as int).drop_first() =~= a@.skip(i + 1));
        assert(b@.skip(i as int).drop_first() =~= b@.skip(i + 1));
        i = i + 1;
    }
    if x.len() < y.len() {
        Place::Before
    } else if x.len() > y.len() {
        Place::After
    } else {
        assert(a@ =~= a@.take(i as int));
        assert(b@ =~= b@.take(i as int));
        Place::Same
    }
}

/// Whether two texts are the same.
pub fn same(a: &str, b: &str) -> (r: bool)
    ensures
        r == (a@ == b@),
{
    match place(a, b) {
        Place::Same => true,
        _ => false,
    }
}

/// `s` without the leading `c`s.
pub fn trim_start(s: &str, c: char) -> (r: &str)
    ensures
        r@ == trimmed_start(s@, c),
{
    let x = chars_of(s);
    assert(s@.skip(0) =~= s@);
    let mut i: usize = 0;
    while i < x.len() && x[i] == c
        invariant
            x@ == s@,
            i <= x@.len(),
            trimmed_start(s@, c) == trimmed_start(s@.skip(i as int), c),
        decreases x.len() - i,
    {
        assert(s@.skip(i as int)[0] == c);
        assert(s@.skip(i as int).drop_first() =~= s@.skip(i + 1));
        i = i + 1;
    }
    s.substring_char(i, x.len())
}

/// `s` without the trailing `c`s.
pub fn trim_end(s: &str, c: char) -> (r: &str)
    ensures
        r@ == trimmed_end(s@, c),
{
    let x = chars_of(s);
    assert(s@.take(s@.len() as int) =~= s@);
    let mut i: usize = x.len();
    while i > 0 && x[i - 1] == c
        invariant
            x@ == s@,
            i <= x@.len(),
            trimmed_end(s@, c) == trimmed_end(s@.take(i as int), c),
        decreases i,
    {
        assert(s@.take(i as int).last() == c);
        assert(s@.take(i as int).drop_last() =~= s@.take(i - 1));
        i = i - 1;
    }
    assert(s@.subrange(0, i as int) =~= s@.take(i as int));
    s.substring_char(0, i)
}

/// The views of texts.
pub open spec fn texts(v: Seq<String>) -> Seq<Seq<char>> {
    v.map_values(|s: String| s@)
}

/// The texts are the views of the strings, one by one.
pub proof fn lemma_texts(v: Seq<String>)
    ensures
        texts(v).len() == v.len(),
        forall|i: int| 0 <= i < v.len() ==> #[trigger] texts(v)[i] == v[i]@,
{
}

/// The parts of `s` before, between and after the `c`s in it.
pub fn split(s: &str, c: char) -> (r: Vec<String>)
    ensures
        texts(r@) == parts(s@, c),
        r@.len() > 0,
{
    let x = chars_of(s);
    let mut r: Vec<String> = Vec::new();
    let mut from: usize = 0;
    proof {
        assert(s@.take(0) =~= Seq::empty());
        assert(parts(s@.take(0), c) =~= seq![s@.subrange(0, 0)]);
    }
    for i in 0..x.len()
        invariant
            x@ == s@,
            from <= i,
            texts(r@).push(s@.subrange(from as int, i as int)) =~= parts(s@.take(i as int), c),
    {
        let ghost p = parts(s@.take(i as int), c);
        proof {
            assert(s@.take(i + 1).drop_last() =~= s@.take(i as int));
            assert(s@.take(i + 1).last() == s@[i as int]);
        }
        if x[i] == c {
            let part = s.substring_char(from, i).to_owned();
            let ghost before = r@;
            r.push(part);
            from = i + 1;
            proof {
                assert(texts(r@) =~= texts(before).push(part@));
                assert(s@.subrange(i + 1, i + 1) =~= Seq::empty());
            }
        } else {
            proof {
                assert(p.drop_last() =~= texts(r@));
                assert(p.last() == s@.subrange(from as int, i as int));
                assert(s@.subrange(from as int, i + 1) =~= s@.subrange(
                    from as int,
                    i as int,
                ).push(s@[i as int]));
            }
        }
    }
    let part = s.substring_char(from, x.len()).to_owned();
    let ghost before = r@;
    r.push(part);
    assert(texts(r@) =~= texts(before).push(part@));
    assert(s@.take(s@.len() as int) =~= s@);
    r
}

/// What follows the last `/` of a path.
pub fn basename(path: &str) -> (r: String)
    ensures
        r@ == parts(path@, '/').last(),
{
    let x = chars_of(path);
    let mut i: usize = x.len();
    while i > 0 && x[i - 1] != '/'
        invariant
            x@ == path@,
            i <= x@.len(),
            forall|j: int| i <= j < x@.len() ==> #[trigger] path@[j] != '/',
        decreases i,
    {
        i = i - 1;
    }
    proof {
        lemma_last_part(path@, '/', i as int);
        assert(path@.skip(i as int) =~= path@.subrange(i as int, path@.len() as int));
    }
    path.substring_char(i, x.len()).to_owned()
}

/// A number in decimal.
pub fn to_decimal(n: u64) -> (r: String)
    ensures
        r@ == decimal(n as nat),
    decreases n,
{
    proof {
        reveal_strlit("0123456789");
    }
    let d = (n % 10) as usize;
    let mut r = if n < 10 {
        String::new()
    } else {
        to_decimal(n / 10)
    };
    r.append("0123456789".substring_char(d, d + 1));
    assert(r@ =~= decimal(n as nat));
    r
}

} // verus!

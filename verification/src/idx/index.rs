//! The index of the datasets and groups of a file.
use super::any::DatasetD;
use super::attributes::{
    dimension_names, dimensions, kept_attributes, read_attributes, AttributeValue, Attributes,
    DatasetMeta, FoundAttribute,
};
use crate::names::NameMap;
use crate::path::copy_path;
use crate::text::{
    basename, lemma_end_trimmed, lemma_one_part, lemma_parts_not_empty, lemma_parts_of_join,
    lemma_start_trimmed, lemma_trimmed_end, lemma_trimmed_start, parts, precedes, split, texts,
    trim_end, trim_start, trimmed_end, trimmed_start,
};
use std::path::PathBuf;
use vstd::prelude::*;

verus! {

/// The index of a file: of its root group, and the path of the file, where it is known.
#[derive(Debug)]
pub struct Index<'a> {
    path: Option<PathBuf>,
    root: GroupIndex<'a>,
}

/// The index of a group: its datasets and nested groups, and their metadata. The attributes of
/// the root group are the global attributes.
#[derive(Debug)]
pub struct GroupIndex<'a> {
    path: Option<PathBuf>,
    datasets: NameMap<DatasetD<'a>>,
    groups: Option<NameMap<GroupIndex<'a>>>,
    attributes: Attributes,
    dataset_meta: NameMap<DatasetMeta>,
}

impl<'a> GroupIndex<'a> {
    /// The path of the file.
    pub closed spec fn file(self) -> Option<PathBuf> {
        self.path
    }

    /// The datasets of the group.
    pub closed spec fn dataset_map(self) -> NameMap<DatasetD<'a>> {
        self.datasets
    }

    /// The nested groups.
    pub closed spec fn group_map(self) -> NameMap<GroupIndex<'a>> {
        self.groups->0
    }

    /// The attributes of the group.
    pub closed spec fn attribute_map(self) -> Attributes {
        self.attributes
    }

    /// The metadata of the datasets.
    pub closed spec fn meta_map(self) -> NameMap<DatasetMeta> {
        self.dataset_meta
    }

    /// What holds of every index of a group: there is a map of nested groups.
    #[verifier::type_invariant]
    pub closed spec fn complete(self) -> bool {
        self.groups is Some
    }

    /// Nested groups are smaller than the group that holds them.
    pub proof fn lemma_smaller(self, i: int)
        requires
            self.complete(),
            0 <= i < self.group_map().size(),
        ensures
            decreases_to!(self => self.group_map().value(i)),
    {
        let o = self.groups;
        let m = o->0;
        m.lemma_smaller(i);
        assert(decreases_to!(self => o));
        assert(decreases_to!(o => m));
    }
}

impl<'a> GroupIndex<'a> {
    /// The group that `path` leads to from this group.
    pub open spec fn descend(self, path: Seq<Seq<char>>) -> Option<GroupIndex<'a>>
        decreases path.len(),
    {
        if path.len() == 0 {
            Some(self)
        } else if self.group_map()@.contains_key(path[0]) {
            self.group_map()@[path[0]].descend(path.drop_first())
        } else {
            None
        }
    }

    /// Whether this is `g` with all chunk tables owned.
    pub open spec fn owns(self, g: GroupIndex<'_>) -> bool
        decreases g,
        via Self::owns_decreases
    {
        &&& self.file() == g.file()
        &&& self.attribute_map() == g.attribute_map()
        &&& self.meta_map() == g.meta_map()
        &&& self.dataset_map().sorted()
        &&& self.dataset_map().names() == g.dataset_map().names()
        &&& forall|i: int|
            0 <= i < g.dataset_map().size() ==> #[trigger] self.dataset_map().value(i).owns(
                g.dataset_map().value(i),
            )
        &&& self.group_map().sorted()
        &&& self.group_map().names() == g.group_map().names()
        &&& g.complete()
        &&& forall|i: int|
            0 <= i < g.group_map().size() ==> self.group_map().value(i).owns(
                #[trigger] g.group_map().value(i),
            )
    }

    #[via_fn]
    proof fn owns_decreases(self, g: GroupIndex<'_>) {
        assert forall|i: int| g.complete() && 0 <= i < g.group_map().size() implies decreases_to!(
            g => #[trigger] g.group_map().value(i)) by {
            g.lemma_smaller(i);
        }
    }
}


/// A dataset of a group that has been looked at: what its metadata is made of, and its index, or
/// why it could not be indexed.
#[derive(Debug)]
pub struct FoundDataset<'a, E> {
    /// The path of the dataset in the file.
    pub path: String,
    /// The number of dimensions.
    pub ndim: usize,
    /// The attribute `CLASS`, where it could be read.
    pub class: Option<AttributeValue>,
    /// For each entry of the attribute `DIMENSION_LIST`, where it could be read, the path of the
    /// dataset that it points at.
    pub refs: Option<Vec<Option<String>>>,
    /// The attributes.
    pub attributes: Vec<FoundAttribute>,
    /// The index of the dataset.
    pub index: Result<DatasetD<'a>, E>,
}

/// A member of a group that is a dataset: allocated, and looked at, or not.
#[derive(Debug)]
pub enum Member<'a, E> {
    Unallocated(String),
    Allocated(String, FoundDataset<'a, E>),
}

/// What a group of a file was found to hold, or why it could not be listed.
#[derive(Debug)]
pub struct GroupListing<'a, E> {
    /// The path of the group in the file.
    pub name: String,
    /// The datasets of the group.
    pub members: Result<Vec<Member<'a, E>>, E>,
    /// The nested groups.
    pub children: Result<Vec<GroupListing<'a, E>>, E>,
    /// The attributes of the group.
    pub attributes: Vec<FoundAttribute>,
}

/// Whether a dataset is allocated: it is stored in chunks, or it has an address in the file.
pub fn is_allocated(chunked: bool, offset: Option<u64>) -> (r: bool)
    ensures
        r == (chunked || offset is Some),
{
    chunked || offset.is_some()
}

/// Why the first dataset that could not be indexed could not be.
pub open spec fn member_fault<E>(s: Seq<Member<'_, E>>) -> Option<E>
    decreases s.len(),
{
    if s.len() == 0 {
        None
    } else {
        match member_fault(s.drop_last()) {
            Some(e) => Some(e),
            None => match s.last() {
                Member::Allocated(_, d) => match d.index {
                    Ok(_) => None,
                    Err(e) => Some(e),
                },
                Member::Unallocated(_) => None,
            },
        }
    }
}

/// The last allocated dataset of that name.
pub open spec fn last_dataset<'a, E>(s: Seq<Member<'a, E>>, name: Seq<char>) -> Option<
    FoundDataset<'a, E>,
>
    decreases s.len(),
{
    if s.len() == 0 {
        None
    } else {
        match s.last() {
            Member::Allocated(n, d) if n@ == name => Some(d),
            _ => last_dataset(s.drop_last(), name),
        }
    }
}

/// The number of the last group of that name among `s`, or -1.
pub open spec fn last_group<E>(s: Seq<GroupListing<'_, E>>, name: Seq<char>) -> int
    decreases s.len(),
{
    if s.len() == 0 {
        -1
    } else if parts(s.last().name@, '/').last() == name {
        s.len() - 1
    } else {
        last_group(s.drop_last(), name)
    }
}

impl<'a, E> FoundDataset<'a, E> {
    /// Whether `m` is the metadata of the dataset.
    pub open spec fn has_meta(self, m: DatasetMeta) -> bool {
        &&& m.attributes@ == kept_attributes(self.attributes@)
        &&& texts(m.dim_names@) == dimensions(self.path@, self.ndim, self.class, self.refs)
    }
}

impl<'a, E> GroupListing<'a, E> {
    /// Why the group cannot be indexed: the datasets are looked at first, then the nested
    /// groups, and the first that fails says why.
    pub open spec fn fault(self) -> Option<E>
        decreases self, 0nat,
    {
        match self.members {
            Err(e) => Some(e),
            Ok(m) => match member_fault(m@) {
                Some(e) => Some(e),
                None => match self.children {
                    Err(e) => Some(e),
                    Ok(c) => Self::first_fault(c@, c@.len()),
                },
            },
        }
    }

    /// Why the first of the first `n` groups that cannot be indexed cannot be.
    pub open spec fn first_fault(s: Seq<GroupListing<'a, E>>, n: nat) -> Option<E>
        decreases s, n,
    {
        if n == 0 || n > s.len() {
            None
        } else {
            match Self::first_fault(s, (n - 1) as nat) {
                Some(e) => Some(e),
                None => s[n - 1].fault(),
            }
        }
    }
}

impl<'a> GroupIndex<'a> {
    /// Whether this is the index of the group that was found to hold `l`, in the file at `path`.
    pub open spec fn indexes<E>(self, l: GroupListing<'a, E>, path: Option<PathBuf>) -> bool
        decreases l,
    {
        let m = (l.members->Ok_0)@;
        let c = (l.children->Ok_0)@;
        &&& self.complete()
        &&& l.members is Ok
        &&& l.children is Ok
        &&& self.file() == path
        &&& self.attribute_map()@ == kept_attributes(l.attributes@)
        &&& forall|k: Seq<char>|
            {
                &&& #[trigger] self.dataset_map()@.contains_key(k) <==> last_dataset(
                    m,
                    k,
                ) is Some
                &&& last_dataset(m, k) matches Some(d) ==> d.index == Ok::<DatasetD<'a>, E>(
                    self.dataset_map()@[k],
                )
            }
        &&& forall|k: Seq<char>|
            {
                &&& #[trigger] self.meta_map()@.contains_key(k) <==> last_dataset(m, k) is Some
                &&& last_dataset(m, k) matches Some(d) ==> d.has_meta(self.meta_map()@[k])
            }
        &&& forall|k: Seq<char>|
            {
                &&& #[trigger] self.group_map()@.contains_key(k) <==> last_group(c, k) >= 0
                &&& 0 <= last_group(c, k) < c.len() ==> self.group_map()@[k].indexes(
                    c[last_group(c, k)],
                    path,
                )
            }
    }
}


/// Whether `d` and `m` hold the indexes and the metadata of the allocated datasets among `s`.
spec fn members_indexed<'a, E>(
    s: Seq<Member<'a, E>>,
    d: Map<Seq<char>, DatasetD<'a>>,
    m: Map<Seq<char>, DatasetMeta>,
) -> bool {
    &&& forall|k: Seq<char>|
        {
            &&& #[trigger] d.contains_key(k) <==> last_dataset(s, k) is Some
            &&& last_dataset(s, k) matches Some(x) ==> x.index == Ok::<DatasetD<'a>, E>(d[k])
        }
    &&& forall|k: Seq<char>|
        {
            &&& #[trigger] m.contains_key(k) <==> last_dataset(s, k) is Some
            &&& last_dataset(s, k) matches Some(x) ==> x.has_meta(m[k])
        }
}

/// The first dataset that fails says why, however many follow.
proof fn lemma_member_fault<E>(s: Seq<Member<'_, E>>, n: int)
    requires
        0 <= n <= s.len(),
        member_fault(s.take(n)) is Some,
    ensures
        member_fault(s) == member_fault(s.take(n)),
    decreases s.len() - n,
{
    if n == s.len() {
        assert(s.take(n) =~= s);
    } else {
        assert(s.take(n + 1).drop_last() =~= s.take(n));
        lemma_member_fault(s, n + 1);
    }
}

/// The first group that fails says why, however many follow.
proof fn lemma_first_fault<E>(s: Seq<GroupListing<'_, E>>, n: nat)
    requires
        n <= s.len(),
        GroupListing::first_fault(s, n) is Some,
    ensures
        GroupListing::first_fault(s, s.len()) == GroupListing::first_fault(s, n),
    decreases s.len() - n,
{
    if n < s.len() {
        lemma_first_fault(s, n + 1);
    }
}

/// Indexes the allocated datasets of a group.
fn index_members<'a, E>(members: Vec<Member<'a, E>>) -> (r: Result<
    (NameMap<DatasetD<'a>>, NameMap<DatasetMeta>),
    E,
>)
    ensures
        match r {
            Ok(x) => member_fault(members@) is None && members_indexed(members@, x.0@, x.1@),
            Err(e) => member_fault(members@) == Some(e),
        },
{
    let mut datasets: NameMap<DatasetD<'a>> = NameMap::new();
    let mut dataset_meta: NameMap<DatasetMeta> = NameMap::new();
    let ghost all = members@;
    for m in it: members
        invariant
            it.seq() == all,
            member_fault(all.take(it.index())) is None,
            members_indexed(all.take(it.index()), datasets@, dataset_meta@),
    {
        let ghost i = it.index();
        let ghost s = all.take(i + 1);
        let ghost d0 = datasets@;
        let ghost m0 = dataset_meta@;
        proof {
            assert(s.drop_last() =~= all.take(i));
            assert(s.last() == m);
        }
        if let Member::Allocated(name, d) = m {
            let meta = DatasetMeta {
                attributes: read_attributes(d.attributes),
                dim_names: dimension_names(d.path.as_str(), d.ndim, &d.class, &d.refs),
            };
            dataset_meta.insert(name.clone(), meta);
            match d.index {
                Ok(index) => {
                    datasets.insert(name, index);
                },
                Err(e) => {
                    proof {
                        lemma_member_fault(all, i + 1);
                    }
                    return Err(e);
                },
            }
        }
        proof {
            assert forall|k: Seq<char>|
                {
                    &&& #[trigger] datasets@.contains_key(k) <==> last_dataset(s, k) is Some
                    &&& last_dataset(s, k) matches Some(x) ==> x.index == Ok::<DatasetD<'a>, E>(
                        datasets@[k],
                    )
                } by {
                assert(d0.contains_key(k) <==> last_dataset(all.take(i), k) is Some);
            }
            assert forall|k: Seq<char>|
                {
                    &&& #[trigger] dataset_meta@.contains_key(k) <==> last_dataset(s, k) is Some
                    &&& last_dataset(s, k) matches Some(x) ==> x.has_meta(dataset_meta@[k])
                } by {
                assert(m0.contains_key(k) <==> last_dataset(all.take(i), k) is Some);
            }
        }
    }
    assert(all.take(all.len() as int) =~= all);
    Ok((datasets, dataset_meta))
}

/// Whether `m` holds the indexes of the groups `s`.
spec fn groups_indexed<'a, E>(
    s: Seq<GroupListing<'a, E>>,
    path: Option<PathBuf>,
    m: Map<Seq<char>, GroupIndex<'a>>,
) -> bool {
    forall|k: Seq<char>|
        {
            &&& #[trigger] m.contains_key(k) <==> last_group(s, k) >= 0
            &&& 0 <= last_group(s, k) < s.len() ==> m[k].indexes(s[last_group(s, k)], path)
        }
}

/// The last group of a name is one of the groups.
proof fn lemma_last_group<E>(s: Seq<GroupListing<'_, E>>, name: Seq<char>)
    ensures
        -1 <= last_group(s, name) < s.len(),
    decreases s.len(),
{
    if s.len() > 0 {
        lemma_last_group(s.drop_last(), name);
    }
}

impl<'a> GroupIndex<'a> {
    /// Indexes a group that was found to hold `listing`, in the file at `path`: its allocated
    /// datasets, and the nested groups, each by the last part of its name.
    pub fn index_group<E>(listing: GroupListing<'a, E>, path: Option<PathBuf>) -> (r: Result<
        GroupIndex<'a>,
        E,
    >)
        ensures
            match r {
                Ok(g) => listing.fault() is None && g.indexes(listing, path),
                Err(e) => listing.fault() == Some(e),
            },
        decreases listing,
    {
        let ghost l = listing;
        let members = match listing.members {
            Ok(m) => m,
            Err(e) => {
                return Err(e);
            },
        };
        let (datasets, dataset_meta) = match index_members(members) {
            Ok(x) => x,
            Err(e) => {
                return Err(e);
            },
        };
        let children = match listing.children {
            Ok(c) => c,
            Err(e) => {
                return Err(e);
            },
        };
        let ghost all = children@;
        let mut groups: NameMap<GroupIndex<'a>> = NameMap::new();
        assert(decreases_to!(l => all));
        for c in it: children
            invariant
                it.seq() == all,
                decreases_to!(l => all),
                l == listing,
                l.members is Ok,
                member_fault((l.members->Ok_0)@) is None,
                l.children is Ok,
                all == (l.children->Ok_0)@,
                GroupListing::first_fault(all, it.index() as nat) is None,
                groups_indexed(all.take(it.index()), path, groups@),
        {
            let ghost i = it.index();
            let ghost s = all.take(i + 1);
            let ghost g0 = groups@;
            proof {
                assert(s.drop_last() =~= all.take(i));
                assert(c == all[i]);
                assert(s.last() == c);
                assert(decreases_to!(all => all[i]));
            }
            let name = basename(c.name.as_str());
            match GroupIndex::index_group(c, copy_path(&path)) {
                Ok(g) => {
                    groups.insert(name, g);
                },
                Err(e) => {
                    proof {
                        lemma_first_fault(all, (i + 1) as nat);
                    }
                    return Err(e);
                },
            }
            proof {
                assert forall|k: Seq<char>|
                    {
                        &&& #[trigger] groups@.contains_key(k) <==> last_group(s, k) >= 0
                        &&& 0 <= last_group(s, k) < s.len() ==> groups@[k].indexes(
                            s[last_group(s, k)],
                            path,
                        )
                    } by {
                    assert(g0.contains_key(k) <==> last_group(all.take(i), k) >= 0);
                    lemma_last_group(all.take(i), k);
                }
            }
        }
        assert(all.take(all.len() as int) =~= all);
        let attributes = read_attributes(listing.attributes);
        let g = GroupIndex { path, datasets, groups: Some(groups), attributes, dataset_meta };
        proof {
            let m = (l.members->Ok_0)@;
            assert(l.fault() is None);
            assert(members_indexed(m, g.dataset_map()@, g.meta_map()@));
            assert(groups_indexed(all, path, g.group_map()@));
            assert(g.indexes(l, path));
        }
        Ok(g)
    }
}


/// The parts of the path of a dataset: leading slashes do not count.
pub open spec fn dataset_path(s: Seq<char>) -> Seq<Seq<char>> {
    parts(trimmed_start(s, '/'), '/')
}

/// The parts of the path of a group: leading and trailing slashes do not count.
pub open spec fn group_path(s: Seq<char>) -> Seq<Seq<char>> {
    parts(trimmed_end(trimmed_start(s, '/'), '/'), '/')
}

/// Why there is no reader for a dataset.
#[derive(Clone, Copy, Debug, PartialEq, Eq, Structural)]
pub enum LookupError {
    /// It is not known which file was indexed.
    MissingPath,
    /// There is no such dataset.
    NoDataset,
}

impl LookupError {
    /// The error in words.
    pub open spec fn text(self) -> Seq<char> {
        match self {
            LookupError::MissingPath => "missing path"@,
            LookupError::NoDataset => "dataset does not exist"@,
        }
    }

    /// The error in words.
    pub fn message(self) -> (r: String)
        ensures
            r@ == self.text(),
    {
        match self {
            LookupError::MissingPath => "missing path".to_owned(),
            LookupError::NoDataset => "dataset does not exist".to_owned(),
        }
    }
}

impl<'a> GroupIndex<'a> {
    /// The dataset at a path of the form "path/to/dataset".
    pub open spec fn dataset_at(self, s: Seq<char>) -> Option<DatasetD<'a>> {
        let p = dataset_path(s);
        match self.descend(p.drop_last()) {
            Some(g) => if g.dataset_map()@.contains_key(p.last()) {
                Some(g.dataset_map()@[p.last()])
            } else {
                None
            },
            None => None,
        }
    }

    /// The metadata of the dataset at a path of the form "path/to/dataset".
    pub open spec fn meta_at(self, s: Seq<char>) -> Option<DatasetMeta> {
        let p = dataset_path(s);
        match self.descend(p.drop_last()) {
            Some(g) => if g.meta_map()@.contains_key(p.last()) {
                Some(g.meta_map()@[p.last()])
            } else {
                None
            },
            None => None,
        }
    }

    /// The nested group at a path.
    pub open spec fn group_at(self, s: Seq<char>) -> Option<GroupIndex<'a>> {
        self.descend(group_path(s))
    }

    /// The file and the dataset that a reader for the path `s` reads, or why there is none.
    pub open spec fn reader_at(self, s: Seq<char>) -> Result<
        (PathBuf, DatasetD<'a>),
        LookupError,
    > {
        match self.file() {
            None => Err(LookupError::MissingPath),
            Some(p) => match self.dataset_at(s) {
                Some(d) => Ok((p, d)),
                None => Err(LookupError::NoDataset),
            },
        }
    }

    /// The index of a group made of its parts.
    pub fn from_parts(
        path: Option<PathBuf>,
        datasets: NameMap<DatasetD<'a>>,
        groups: NameMap<GroupIndex<'a>>,
        attributes: Attributes,
        dataset_meta: NameMap<DatasetMeta>,
    ) -> (r: GroupIndex<'a>)
        ensures
            r.complete(),
            r.file() == path,
            r.dataset_map() == datasets,
            r.group_map() == groups,
            r.attribute_map() == attributes,
            r.meta_map() == dataset_meta,
    {
        GroupIndex { path, datasets, groups: Some(groups), attributes, dataset_meta }
    }

    /// The parts that the index of the group is made of.
    pub fn into_parts(self) -> (r: (
        Option<PathBuf>,
        NameMap<DatasetD<'a>>,
        NameMap<GroupIndex<'a>>,
        Attributes,
        NameMap<DatasetMeta>,
    ))
        ensures
            self.complete(),
            r == (
                self.file(),
                self.dataset_map(),
                self.group_map(),
                self.attribute_map(),
                self.meta_map(),
            ),
    {
        proof {
            use_type_invariant(&self);
        }
        let groups = match self.groups {
            Some(g) => g,
            None => NameMap::new(),
        };
        (self.path, self.datasets, groups, self.attributes, self.dataset_meta)
    }

    /// The group that `path` leads to from this group.
    fn walk(&self, path: &[String]) -> (r: Option<&GroupIndex<'a>>)
        ensures
            match r {
                Some(g) => self.descend(texts(path@)) == Some(*g),
                None => self.descend(texts(path@)) is None,
            },
    {
        let ghost p = texts(path@);
        let mut g: &GroupIndex<'a> = self;
        assert(p.skip(0) =~= p);
        for i in 0..path.len()
            invariant
                p == texts(path@),
                self.descend(p) == g.descend(p.skip(i as int)),
        {
            assert(p.skip(i as int)[0] == path@[i as int]@);
            assert(p.skip(i as int).drop_first() =~= p.skip(i + 1));
            match g.groups().get(path[i].as_str()) {
                Some(next) => {
                    g = next;
                },
                None => {
                    return None;
                },
            }
        }
        assert(p.skip(path@.len() as int) =~= Seq::empty());
        Some(g)
    }

    /// The group that the path of a dataset leads to, and the name of the dataset there.
    fn locate(&self, s: &str) -> (r: Option<(&GroupIndex<'a>, String)>)
        ensures
            match r {
                Some(x) => {
                    &&& self.descend(dataset_path(s@).drop_last()) == Some(*x.0)
                    &&& x.1@ == dataset_path(s@).last()
                },
                None => self.descend(dataset_path(s@).drop_last()) is None,
            },
    {
        let mut path = split(trim_start(s, '/'), '/');
        let ghost all = path@;
        match path.pop() {
            Some(name) => {
                assert(texts(path@) =~= texts(all).drop_last());
                match self.walk(path.as_slice()) {
                    Some(g) => Some((g, name)),
                    None => None,
                }
            },
            None => None,
        }
    }

    /// The dataset at a path of the form "path/to/dataset", if there is one. Nested groups are
    /// gone through to find it.
    #[must_use]
    pub fn dataset(&self, s: &str) -> (r: Option<&DatasetD<'a>>)
        ensures
            match r {
                Some(d) => self.dataset_at(s@) == Some(*d),
                None => self.dataset_at(s@) is None,
            },
    {
        match self.locate(s) {
            Some((g, name)) => g.datasets.get(name.as_str()),
            None => None,
        }
    }

    /// The datasets of the group.
    pub fn datasets(&self) -> (r: &NameMap<DatasetD<'a>>)
        ensures
            *r == self.dataset_map(),
    {
        &self.datasets
    }

    /// Attributes of this group (for the root group: the global attributes).
    #[must_use]
    pub fn attributes(&self) -> (r: &Attributes)
        ensures
            *r == self.attribute_map(),
    {
        &self.attributes
    }

    /// The metadata of the dataset at a path of the form "path/to/dataset".
    fn dataset_meta(&self, s: &str) -> (r: Option<&DatasetMeta>)
        ensures
            match r {
                Some(m) => self.meta_at(s@) == Some(*m),
                None => self.meta_at(s@) is None,
            },
    {
        match self.locate(s) {
            Some((g, name)) => g.dataset_meta.get(name.as_str()),
            None => None,
        }
    }

    /// Attributes of a dataset, by the same paths as `dataset`.
    #[must_use]
    pub fn dataset_attributes(&self, s: &str) -> (r: Option<&Attributes>)
        ensures
            match r {
                Some(a) => self.meta_at(s@) matches Some(m) && m.attributes == *a,
                None => self.meta_at(s@) is None,
            },
    {
        match self.dataset_meta(s) {
            Some(m) => Some(&m.attributes),
            None => None,
        }
    }

    /// The netCDF dimension names of a dataset (in order), by the same paths as `dataset`.
    #[must_use]
    pub fn dataset_dim_names(&self, s: &str) -> (r: Option<&[String]>)
        ensures
            match r {
                Some(d) => self.meta_at(s@) matches Some(m) && m.dim_names@ == d@,
                None => self.meta_at(s@) is None,
            },
    {
        match self.dataset_meta(s) {
            Some(m) => Some(m.dim_names.as_slice()),
            None => None,
        }
    }

    /// The path of the file, where it is known.
    #[must_use]
    pub fn path(&self) -> (r: Option<&PathBuf>)
        ensures
            match r {
                Some(p) => self.file() == Some(*p),
                None => self.file() is None,
            },
    {
        match &self.path {
            Some(p) => Some(p),
            None => None,
        }
    }

    /// The nested group at a path.
    #[must_use]
    pub fn group(&self, s: &str) -> (r: Option<&GroupIndex<'a>>)
        ensures
            match r {
                Some(g) => self.group_at(s@) == Some(*g),
                None => self.group_at(s@) is None,
            },
    {
        let path = split(trim_end(trim_start(s, '/'), '/'), '/');
        self.walk(path.as_slice())
    }

    /// The nested groups.
    pub fn groups(&self) -> (r: &NameMap<GroupIndex<'a>>)
        ensures
            *r == self.group_map(),
            self.complete(),
    {
        proof {
            use_type_invariant(self);
        }
        self.groups.as_ref().unwrap()
    }

    /// The file and the dataset that a reader for the dataset at the path `ds` reads. The file
    /// is where it was at the time of indexing.
    pub fn reader(&self, ds: &str) -> (r: Result<(&PathBuf, &DatasetD<'a>), LookupError>)
        ensures
            match r {
                Ok(x) => self.reader_at(ds@) == Ok::<(PathBuf, DatasetD<'a>), LookupError>(
                    (*x.0, *x.1),
                ),
                Err(e) => self.reader_at(ds@) == Err::<(PathBuf, DatasetD<'a>), LookupError>(e),
            },
            match r {
                Ok(x) => self.file() == Some(*x.0) && self.dataset_at(ds@) == Some(*x.1),
                Err(LookupError::MissingPath) => self.file() is None,
                Err(LookupError::NoDataset) => self.file() is Some && self.dataset_at(ds@) is None,
            },
    {
        match self.path() {
            None => Err(LookupError::MissingPath),
            Some(path) => match self.dataset(ds) {
                Some(d) => Ok((path, d)),
                None => Err(LookupError::NoDataset),
            },
        }
    }

    /// The file and the dataset that a streaming reader for the dataset at the path `ds` reads:
    /// the same as for any reader.
    pub fn streamer(&self, ds: &str) -> (r: Result<(&PathBuf, &DatasetD<'a>), LookupError>)
        ensures
            match r {
                Ok(x) => self.reader_at(ds@) == Ok::<(PathBuf, DatasetD<'a>), LookupError>(
                    (*x.0, *x.1),
                ),
                Err(e) => self.reader_at(ds@) == Err::<(PathBuf, DatasetD<'a>), LookupError>(e),
            },
            match r {
                Ok(x) => self.file() == Some(*x.0) && self.dataset_at(ds@) == Some(*x.1),
                Err(LookupError::MissingPath) => self.file() is None,
                Err(LookupError::NoDataset) => self.file() is Some && self.dataset_at(ds@) is None,
            },
    {
        self.reader(ds)
    }

    /// Takes ownership of all borrowed chunk tables, which unties the group from the buffer that
    /// they were borrowed from.
    pub fn into_owned(self) -> (r: GroupIndex<'static>)
        ensures
            r.owns(self),
            r.complete(),
        decreases self,
    {
        let ghost this = self;
        let (path, datasets, groups, attributes, dataset_meta) = self.into_parts();
        let ghost d = datasets;
        let ghost m = groups;
        let from = datasets.into_entries();
        let ghost from_datasets = from@;
        let mut own_datasets: Vec<(String, DatasetD<'static>)> = Vec::new();
        for x in it: from
            invariant
                it.seq() == from_datasets,
                own_datasets@.len() == it.index(),
                forall|i: int|
                    0 <= i < it.index() ==> (#[trigger] own_datasets@[i]).0 == from_datasets[i].0,
                forall|i: int|
                    0 <= i < it.index() ==> (#[trigger] own_datasets@[i]).1.owns(
                        from_datasets[i].1,
                    ),
        {
            own_datasets.push((x.0, x.1.into_owned()));
        }
        let from = groups.into_entries();
        let ghost from_groups = from@;
        let mut own_groups: Vec<(String, GroupIndex<'static>)> = Vec::new();
        for x in it: from
            invariant
                it.seq() == from_groups,
                this.complete(),
                m == this.group_map(),
                from_groups.len() == m.size(),
                forall|i: int|
                    0 <= i < from_groups.len() ==> (#[trigger] from_groups[i]).1 == m.value(i),
                this == self,
                own_groups@.len() == it.index(),
                forall|i: int|
                    0 <= i < it.index() ==> (#[trigger] own_groups@[i]).0 == from_groups[i].0,
                forall|i: int|
                    0 <= i < it.index() ==> (#[trigger] own_groups@[i]).1.owns(from_groups[i].1),
        {
            proof {
                let i = it.index();
                assert(x == from_groups[i]);
                this.lemma_smaller(i);
            }
            own_groups.push((x.0, x.1.into_owned()));
        }
        let r = GroupIndex {
            path,
            datasets: NameMap::from_entries(own_datasets),
            groups: Some(NameMap::from_entries(own_groups)),
            attributes,
            dataset_meta,
        };
        proof {
            assert(r.dataset_map().names() =~= this.dataset_map().names());
            assert(r.group_map().names() =~= this.group_map().names());
            assert forall|i: int| 0 <= i < this.dataset_map().size() implies #[trigger]
                r.dataset_map().value(i).owns(this.dataset_map().value(i)) by {
                assert(own_datasets@[i].1.owns(from_datasets[i].1));
            }
            assert forall|i: int| 0 <= i < this.group_map().size() implies r.group_map().value(
                i,
            ).owns(#[trigger] this.group_map().value(i)) by {
                assert(own_groups@[i].1.owns(from_groups[i].1));
            }
            assert(r.owns(this));
        }
        r
    }
}

impl<'a> Index<'a> {
    /// The path of the file, where it is known.
    pub closed spec fn file(self) -> Option<PathBuf> {
        self.path
    }

    /// The index of the root group.
    pub closed spec fn root_group(self) -> GroupIndex<'a> {
        self.root
    }

    /// The index of a file made of its parts.
    pub fn from_parts(path: Option<PathBuf>, root: GroupIndex<'a>) -> (r: Index<'a>)
        ensures
            r.file() == path,
            r.root_group() == root,
    {
        Index { path, root }
    }

    /// The parts that the index of the file is made of.
    pub fn into_parts(self) -> (r: (Option<PathBuf>, GroupIndex<'a>))
        ensures
            r == (self.file(), self.root_group()),
    {
        (self.path, self.root)
    }

    /// Indexes a file, at `path` where that is known, whose root group was found to hold
    /// `listing`.
    pub fn index_file<E>(listing: GroupListing<'a, E>, path: Option<PathBuf>) -> (r: Result<
        Index<'a>,
        E,
    >)
        ensures
            match r {
                Ok(x) => {
                    &&& listing.fault() is None
                    &&& x.file() == path
                    &&& x.root_group().indexes(listing, path)
                },
                Err(e) => listing.fault() == Some(e),
            },
    {
        match GroupIndex::index_group(listing, copy_path(&path)) {
            Ok(root) => Ok(Index { path, root }),
            Err(e) => Err(e),
        }
    }

    /// The path of the file that was indexed, where it is known.
    pub fn file_path(&self) -> (r: Option<&PathBuf>)
        ensures
            match r {
                Some(p) => self.file() == Some(*p),
                None => self.file() is None,
            },
    {
        match &self.path {
            Some(p) => Some(p),
            None => None,
        }
    }

    /// The index of the root group.
    pub fn root(&self) -> (r: &GroupIndex<'a>)
        ensures
            *r == self.root_group(),
    {
        &self.root
    }

    /// Takes ownership of all borrowed chunk tables, which unties the index from the buffer
    /// that they were borrowed from.
    pub fn into_owned(self) -> (r: Index<'static>)
        ensures
            r.file() == self.file(),
            r.root_group().owns(self.root_group()),
    {
        Index { path: self.path, root: self.root.into_owned() }
    }
}

impl<'a> std::ops::Deref for Index<'a> {
    type Target = GroupIndex<'a>;

    /// The index of the root group.
    fn deref(&self) -> (r: &GroupIndex<'a>)
        ensures
            *r == self.root_group(),
    {
        &self.root
    }
}

/// Leading slashes do not count in the path of a dataset or group.
pub proof fn lemma_leading_slash(g: GroupIndex<'_>, s: Seq<char>)
    ensures
        g.dataset_at(seq!['/'] + s) == g.dataset_at(s),
        g.meta_at(seq!['/'] + s) == g.meta_at(s),
        g.group_at(seq!['/'] + s) == g.group_at(s),
{
    lemma_trimmed_start(s, '/');
}

/// A path leads where its first part and then its second part lead.
pub proof fn lemma_descend_twice(g: GroupIndex<'_>, p: Seq<Seq<char>>, q: Seq<Seq<char>>)
    ensures
        g.descend(p + q) == (match g.descend(p) {
            Some(h) => h.descend(q),
            None => None,
        }),
    decreases p.len(),
{
    if p.len() == 0 {
        assert(p + q =~= q);
    } else {
        assert((p + q).drop_first() =~= p.drop_first() + q);
        if g.group_map()@.contains_key(p[0]) {
            lemma_descend_twice(g.group_map()@[p[0]], p.drop_first(), q);
        }
    }
}

/// A dataset is found by the path of its group followed by its path in the group, with a slash
/// between, exactly as it is found in the group.
pub proof fn lemma_dataset_in_group(g: GroupIndex<'_>, group: Seq<char>, s: Seq<char>)
    requires
        trimmed_end(trimmed_start(group, '/'), '/').len() > 0,
    ensures
        ({
            let whole = trimmed_end(trimmed_start(group, '/'), '/').push('/') + trimmed_start(
                s,
                '/',
            );
            match g.group_at(group) {
                Some(h) => {
                    &&& g.dataset_at(whole) == h.dataset_at(s)
                    &&& g.meta_at(whole) == h.meta_at(s)
                },
                None => g.dataset_at(whole) is None && g.meta_at(whole) is None,
            }
        }),
{
    let a = trimmed_start(group, '/');
    let b = trimmed_end(a, '/');
    let t = trimmed_start(s, '/');
    let whole = b.push('/') + t;
    lemma_trimmed_start(group, '/');
    lemma_trimmed_end(a, '/');
    assert(b[0] == a[0]);
    assert(whole[0] == b[0]);
    assert(trimmed_start(whole, '/') == whole);
    lemma_parts_of_join(b, t, '/');
    lemma_parts_not_empty(t, '/');
    let p = parts(b, '/');
    let q = parts(t, '/');
    assert((p + q).drop_last() =~= p + q.drop_last());
    assert((p + q).last() == q.last());
    lemma_descend_twice(g, p, q.drop_last());
}

/// A dataset that is listed is found by its name, as names have no slash in them.
pub proof fn lemma_listed_dataset(g: GroupIndex<'_>, i: int)
    requires
        g.dataset_map().sorted(),
        0 <= i < g.dataset_map().size(),
        !g.dataset_map().name(i).contains('/'),
    ensures
        g.dataset_at(g.dataset_map().name(i)) == Some(g.dataset_map().value(i)),
{
    let name = g.dataset_map().name(i);
    lemma_one_part(name, '/');
    g.dataset_map().lemma_number(i);
    assert(seq![name].drop_last() =~= Seq::empty());
}

/// Every group of an index of a file has the path of the file, and is itself the index of a
/// group that was found there.
pub proof fn lemma_indexed_group<'a, E>(
    g: GroupIndex<'a>,
    l: GroupListing<'a, E>,
    path: Option<PathBuf>,
    p: Seq<Seq<char>>,
) -> (sub: GroupListing<'a, E>)
    requires
        g.indexes(l, path),
    ensures
        g.descend(p) matches Some(h) ==> h.indexes(sub, path) && h.file() == path,
    decreases p.len(),
{
    if p.len() > 0 && g.group_map()@.contains_key(p[0]) {
        let c = (l.children->Ok_0)@;
        let i = last_group(c, p[0]);
        lemma_last_group(c, p[0]);
        lemma_indexed_group(g.group_map()@[p[0]], c[i], path, p.drop_first())
    } else {
        l
    }
}

/// In an index of a file every dataset has metadata, and only datasets have.
pub proof fn lemma_indexed_meta<'a, E>(
    g: GroupIndex<'a>,
    l: GroupListing<'a, E>,
    path: Option<PathBuf>,
    s: Seq<char>,
)
    requires
        g.indexes(l, path),
    ensures
        g.dataset_at(s) is Some <==> g.meta_at(s) is Some,
{
    let p = dataset_path(s);
    let sub = lemma_indexed_group(g, l, path, p.drop_last());
    if let Some(h) = g.descend(p.drop_last()) {
        assert(h.dataset_map()@.contains_key(p.last()) <==> last_dataset(
            (sub.members->Ok_0)@,
            p.last(),
        ) is Some);
        assert(h.meta_map()@.contains_key(p.last()) <==> last_dataset(
            (sub.members->Ok_0)@,
            p.last(),
        ) is Some);
    }
}

/// Maps of the same names in order have the same keys, and each key has the value of its
/// number in both.
proof fn lemma_same_names<U, V>(a: NameMap<U>, b: NameMap<V>, k: Seq<char>)
    requires
        a.sorted(),
        a.names() == b.names(),
    ensures
        a.size() == b.size(),
        a@.contains_key(k) <==> b@.contains_key(k),
        a@.contains_key(k) ==> {
            &&& 0 <= a.number(k) < a.size()
            &&& a@[k] == a.value(a.number(k))
            &&& b@[k] == b.value(a.number(k))
        },
{
    assert(a.size() == a.names().len());
    assert(b.size() == b.names().len());
    assert forall|i: int| 0 <= i < a.size() implies #[trigger] b.name(i) == a.name(i) by {
        assert(a.names()[i] == a.name(i));
        assert(b.names()[i] == b.name(i));
    }
    assert(b.sorted()) by {
        assert forall|i: int, j: int| 0 <= i < j < b.size() implies precedes(
            #[trigger] b.name(i),
            #[trigger] b.name(j),
        ) by {
            assert(a.name(i) == b.name(i));
            assert(a.name(j) == b.name(j));
        }
    }
    if a.has(k) {
        b.lemma_number(a.number(k));
    }
    if b.has(k) {
        a.lemma_number(b.number(k));
    }
}

/// Taking ownership of the chunk tables does not change which groups are found in an index.
pub proof fn lemma_owned_group(r: GroupIndex<'_>, g: GroupIndex<'_>, p: Seq<Seq<char>>)
    requires
        r.owns(g),
    ensures
        match g.descend(p) {
            Some(h) => r.descend(p) matches Some(o) && o.owns(h),
            None => r.descend(p) is None,
        },
    decreases p.len(),
{
    if p.len() > 0 {
        lemma_same_names(r.group_map(), g.group_map(), p[0]);
        if g.group_map()@.contains_key(p[0]) {
            let i = r.group_map().number(p[0]);
            assert(r.group_map().value(i).owns(g.group_map().value(i)));
            lemma_owned_group(r.group_map()@[p[0]], g.group_map()@[p[0]], p.drop_first());
        }
    }
}

/// Taking ownership of the chunk tables changes nothing else that is found in an index: the same
/// datasets are there, with the same metadata.
pub proof fn lemma_owned_dataset(r: GroupIndex<'_>, g: GroupIndex<'_>, s: Seq<char>)
    requires
        r.owns(g),
    ensures
        match g.dataset_at(s) {
            Some(d) => r.dataset_at(s) matches Some(o) && o.owns(d),
            None => r.dataset_at(s) is None,
        },
        r.meta_at(s) == g.meta_at(s),
        r.file() == g.file(),
        r.attribute_map() == g.attribute_map(),
        r.dataset_map().names() == g.dataset_map().names(),
        r.group_map().names() == g.group_map().names(),
{
    let p = dataset_path(s);
    lemma_owned_group(r, g, p.drop_last());
    if let Some(h) = g.descend(p.drop_last()) {
        let o = r.descend(p.drop_last())->0;
        lemma_same_names(o.dataset_map(), h.dataset_map(), p.last());
        if h.dataset_map()@.contains_key(p.last()) {
            let i = o.dataset_map().number(p.last());
            assert(o.dataset_map().value(i).owns(h.dataset_map().value(i)));
        }
    }
}

/// A group is found by its name: a name without a slash leads to the nested group of exactly that
/// name, where there is one.
pub proof fn lemma_group_by_name(g: GroupIndex<'_>, k: Seq<char>)
    requires
        !k.contains('/'),
    ensures
        g.group_at(k) == if g.group_map()@.contains_key(k) {
            Some(g.group_map()@[k])
        } else {
            None
        },
{
    lemma_one_part(k, '/');
    lemma_nothing_to_trim(k);
    let h = g.group_map()@[k];
    assert(seq![k].drop_first() =~= Seq::empty());
    assert(h.descend(seq![k].drop_first()) == Some(h));
}

/// A group that is listed is found by its name, as names have no slash in them.
pub proof fn lemma_listed_group(g: GroupIndex<'_>, i: int)
    requires
        g.group_map().sorted(),
        0 <= i < g.group_map().size(),
        !g.group_map().name(i).contains('/'),
    ensures
        g.group_at(g.group_map().name(i)) == Some(g.group_map().value(i)),
{
    g.group_map().lemma_number(i);
    lemma_group_by_name(g, g.group_map().name(i));
}

/// A text without a `/` has none at its end.
proof fn lemma_nothing_to_trim(k: Seq<char>)
    requires
        !k.contains('/'),
    ensures
        trimmed_end(k, '/') == k,
        trimmed_start(k, '/') == k,
{
    if k.len() > 0 {
        assert(k.contains(k[0]));
        assert(k.contains(k[k.len() - 1]));
    }
}

/// A dataset, and its metadata, are found by its name: a name without a slash leads to the dataset
/// of the group of exactly that name, where there is one.
pub proof fn lemma_dataset_by_name(g: GroupIndex<'_>, k: Seq<char>)
    requires
        !k.contains('/'),
    ensures
        g.dataset_at(k) == if g.dataset_map()@.contains_key(k) {
            Some(g.dataset_map()@[k])
        } else {
            None
        },
        g.meta_at(k) == if g.meta_map()@.contains_key(k) {
            Some(g.meta_map()@[k])
        } else {
            None
        },
{
    lemma_one_part(k, '/');
    assert(seq![k].drop_last() =~= Seq::empty());
}

/// The metadata that is listed is found by its name, as names have no slash in them.
pub proof fn lemma_listed_meta(g: GroupIndex<'_>, i: int)
    requires
        g.meta_map().sorted(),
        0 <= i < g.meta_map().size(),
        !g.meta_map().name(i).contains('/'),
    ensures
        g.meta_at(g.meta_map().name(i)) == Some(g.meta_map().value(i)),
{
    g.meta_map().lemma_number(i);
    lemma_dataset_by_name(g, g.meta_map().name(i));
}

/// A path goes through the group that it starts with: what is found by the name of a nested group,
/// a slash and a path, is what is found in that group by the path.
pub proof fn lemma_path_through_group(g: GroupIndex<'_>, k: Seq<char>, s: Seq<char>)
    requires
        k.len() > 0,
        !k.contains('/'),
        s.len() > 0 ==> s[0] != '/',
    ensures
        g.group_map()@.contains_key(k) ==> {
            let h = g.group_map()@[k];
            &&& g.dataset_at(k.push('/') + s) == h.dataset_at(s)
            &&& g.meta_at(k.push('/') + s) == h.meta_at(s)
            &&& s.len() > 0 && s.last() != '/' ==> g.group_at(k.push('/') + s) == h.group_at(s)
        },
        !g.group_map()@.contains_key(k) ==> {
            &&& g.dataset_at(k.push('/') + s) is None
            &&& g.meta_at(k.push('/') + s) is None
            &&& g.group_at(k.push('/') + s) is None
        },
{
    let whole = k.push('/') + s;
    assert(k.contains(k[0]));
    assert(whole[0] == k[0]);
    lemma_one_part(k, '/');
    lemma_parts_of_join(k, s, '/');
    lemma_parts_not_empty(s, '/');
    let q = parts(s, '/');
    assert(seq![k] + q.drop_last() =~= (seq![k] + q).drop_last());
    assert((seq![k] + q).last() == q.last());
    lemma_descend_twice(g, seq![k], q.drop_last());
    lemma_descend_twice(g, seq![k], q);
    lemma_group_by_name(g, k);
    lemma_nothing_to_trim(k);
    assert(g.descend(seq![k]) == g.group_at(k));
    if s.len() > 0 && s.last() != '/' {
        assert(whole.last() == s.last());
    } else if !g.group_map()@.contains_key(k) {
        let n = lemma_end_trimmed(whole, '/');
        let t = whole.take(n);
        assert(whole[k.len() - 1] == k[k.len() - 1]);
        assert(k.contains(k[k.len() - 1]));
        if n < k.len() {
            assert(whole[k.len() - 1] == '/');
        }
        if n == k.len() {
            assert(t =~= k);
        } else {
            let u = s.take(n - k.len() - 1);
            assert(t =~= k.push('/') + u);
            lemma_parts_of_join(k, u, '/');
            lemma_descend_twice(g, seq![k], parts(u, '/'));
        }
    }
}

/// Trailing slashes do not count in the path of a group.
pub proof fn lemma_trailing_slash(g: GroupIndex<'_>, s: Seq<char>)
    ensures
        g.group_at(s.push('/')) == g.group_at(s),
{
    let n = lemma_start_trimmed(s, '/');
    let t = s.push('/');
    let m = lemma_start_trimmed(t, '/');
    if n < s.len() {
        assert(t[n] == s[n]);
        if m < n {
            assert(t[m] == s[m]);
        }
        assert(m == n);
        assert(t.skip(n) =~= s.skip(n).push('/'));
        assert(s.skip(n).push('/').drop_last() =~= s.skip(n));
    } else {
        if m < n {
            assert(t[m] == s[m]);
        }
        if n <= m < t.len() {
            assert(t[n as int] == '/');
        }
        assert(t.skip(m) =~= Seq::empty());
        assert(s.skip(n) =~= Seq::empty());
    }
}

/// A slash too many in the middle of a path is not passed over: the path goes through a group
/// without a name, and leads nowhere where there is none.
pub proof fn lemma_double_slash(g: GroupIndex<'_>, k: Seq<char>, s: Seq<char>)
    requires
        k.len() > 0,
        !k.contains('/'),
        g.group_map()@.contains_key(k) ==> !g.group_map()@[k].group_map()@.contains_key(
            Seq::empty(),
        ),
    ensures
        g.dataset_at(k.push('/').push('/') + s) is None,
        g.meta_at(k.push('/').push('/') + s) is None,
        s.len() > 0 && s.last() != '/' ==> g.group_at(k.push('/').push('/') + s) is None,
{
    let empty = Seq::<char>::empty();
    let rest = empty.push('/') + s;
    let whole = k.push('/').push('/') + s;
    assert(whole =~= k.push('/') + rest);
    assert(k.contains(k[0]));
    assert(whole[0] == k[0]);
    lemma_one_part(k, '/');
    lemma_one_part(empty, '/');
    lemma_parts_of_join(k, rest, '/');
    lemma_parts_of_join(empty, s, '/');
    lemma_parts_not_empty(s, '/');
    let q = parts(s, '/');
    let p = seq![k] + (seq![empty] + q);
    assert(p.drop_last() =~= seq![k] + (seq![empty] + q.drop_last()));
    lemma_descend_twice(g, seq![k], seq![empty] + q.drop_last());
    lemma_group_by_name(g, k);
    lemma_nothing_to_trim(k);
    assert(g.descend(seq![k]) == g.group_at(k));
    if g.group_map()@.contains_key(k) {
        let h = g.group_map()@[k];
        assert((seq![empty] + q.drop_last())[0] == empty);
        assert(h.descend(seq![empty] + q.drop_last()) is None);
        assert((seq![empty] + q)[0] == empty);
        assert(h.descend(seq![empty] + q) is None);
    }
    lemma_descend_twice(g, seq![k], seq![empty] + q);
    if s.len() > 0 {
        assert(whole.last() == s.last());
    }
}

/// The dataset that a reader reads is the one that is found by its path, in the file that was
/// indexed; there is none where the file is not known, and else none where nothing is found.
pub proof fn lemma_reader(g: GroupIndex<'_>, s: Seq<char>)
    ensures
        g.reader_at(s) is Ok <==> g.file() is Some && g.dataset_at(s) is Some,
        g.reader_at(s) matches Ok(x) ==> g.file() == Some(x.0) && g.dataset_at(s) == Some(x.1),
        g.reader_at(s) matches Err(e) ==> (e == LookupError::MissingPath <==> g.file() is None),
{
}

/// Indexing keeps every dataset: one that was listed as allocated under a name, and none of that
/// name after it, is in the index under this name, with its index and with metadata of its own
/// attributes and dimensions.
pub proof fn lemma_indexed_dataset<'a, E>(
    g: GroupIndex<'a>,
    l: GroupListing<'a, E>,
    path: Option<PathBuf>,
    i: int,
    name: String,
    d: FoundDataset<'a, E>,
)
    requires
        g.indexes(l, path),
        0 <= i < (l.members->Ok_0)@.len(),
        (l.members->Ok_0)@[i] == Member::Allocated(name, d),
        forall|j: int|
            i < j < (l.members->Ok_0)@.len() ==> !(#[trigger] (
            l.members->Ok_0)@[j] matches Member::Allocated(n, _) && n@ == name@),
    ensures
        g.dataset_map()@.contains_key(name@),
        d.index == Ok::<DatasetD<'a>, E>(g.dataset_map()@[name@]),
        g.meta_map()@.contains_key(name@),
        g.meta_map()@[name@].attributes@ == kept_attributes(d.attributes@),
        texts(g.meta_map()@[name@].dim_names@) == dimensions(d.path@, d.ndim, d.class, d.refs),
        !name@.contains('/') ==> {
            &&& g.dataset_at(name@) is Some
            &&& d.index == Ok::<DatasetD<'a>, E>(g.dataset_at(name@)->0)
            &&& g.meta_at(name@) is Some
            &&& g.meta_at(name@)->0.attributes@ == kept_attributes(d.attributes@)
            &&& texts(g.meta_at(name@)->0.dim_names@) == dimensions(
                d.path@,
                d.ndim,
                d.class,
                d.refs,
            )
        },
{
    lemma_last_dataset((l.members->Ok_0)@, i, name, d);
    assert(g.dataset_map()@.contains_key(name@) <==> last_dataset(
        (l.members->Ok_0)@,
        name@,
    ) is Some);
    assert(g.meta_map()@.contains_key(name@) <==> last_dataset(
        (l.members->Ok_0)@,
        name@,
    ) is Some);
    if !name@.contains('/') {
        lemma_dataset_by_name(g, name@);
    }
}

/// The last allocated dataset of a name is the one that no other of that name follows.
proof fn lemma_last_dataset<'a, E>(
    s: Seq<Member<'a, E>>,
    i: int,
    name: String,
    d: FoundDataset<'a, E>,
)
    requires
        0 <= i < s.len(),
        s[i] == Member::Allocated(name, d),
        forall|j: int|
            i < j < s.len() ==> !(#[trigger] s[j] matches Member::Allocated(n, _) && n@ == name@),
    ensures
        last_dataset(s, name@) == Some(d),
    decreases s.len(),
{
    if i < s.len() - 1 {
        let t = s.drop_last();
        assert forall|j: int| i < j < t.len() implies !(
        #[trigger] t[j] matches Member::Allocated(n, _) && n@ == name@) by {
            assert(t[j] == s[j]);
        }
        assert(!(s[s.len() - 1] matches Member::Allocated(n, _) && n@ == name@));
        lemma_last_dataset(t, i, name, d);
    }
}

/// Indexing adds no dataset: each that is in the index, with or without metadata, was listed as
/// allocated under its name.
pub proof fn lemma_indexed_only<'a, E>(
    g: GroupIndex<'a>,
    l: GroupListing<'a, E>,
    path: Option<PathBuf>,
    k: Seq<char>,
) -> (i: int)
    requires
        g.indexes(l, path),
        g.dataset_map()@.contains_key(k) || g.meta_map()@.contains_key(k),
    ensures
        0 <= i < (l.members->Ok_0)@.len(),
        (l.members->Ok_0)@[i] matches Member::Allocated(n, d) && n@ == k && d.index == Ok::<
            DatasetD<'a>,
            E,
        >(g.dataset_map()@[k]),
{
    let s = (l.members->Ok_0)@;
    assert(g.dataset_map()@.contains_key(k) <==> last_dataset(s, k) is Some);
    assert(g.meta_map()@.contains_key(k) <==> last_dataset(s, k) is Some);
    lemma_dataset_listed(s, k)
}

/// The last allocated dataset of a name is one of the datasets.
proof fn lemma_dataset_listed<'a, E>(s: Seq<Member<'a, E>>, k: Seq<char>) -> (i: int)
    requires
        last_dataset(s, k) is Some,
    ensures
        0 <= i < s.len(),
        s[i] matches Member::Allocated(n, d) && n@ == k && last_dataset(s, k) == Some(d),
    decreases s.len(),
{
    match s.last() {
        Member::Allocated(n, d) if n@ == k => s.len() - 1,
        _ => lemma_dataset_listed(s.drop_last(), k),
    }
}

/// Indexing keeps every nested group: one that was listed under a path that ends in a name, and
/// none whose path ends in that name after it, is in the index under this name, as the index of
/// what was found in it. There is no other group.
pub proof fn lemma_indexed_groups<'a, E>(
    g: GroupIndex<'a>,
    l: GroupListing<'a, E>,
    path: Option<PathBuf>,
    i: int,
    k: Seq<char>,
)
    requires
        g.indexes(l, path),
        -1 <= i < (l.children->Ok_0)@.len(),
        i >= 0 ==> parts((l.children->Ok_0)@[i].name@, '/').last() == k,
        forall|j: int|
            i < j < (l.children->Ok_0)@.len() ==> parts(
                #[trigger] (l.children->Ok_0)@[j].name@,
                '/',
            ).last() != k,
    ensures
        g.group_map()@.contains_key(k) <==> i >= 0,
        i >= 0 ==> g.group_map()@[k].indexes((l.children->Ok_0)@[i], path),
        i >= 0 && !k.contains('/') ==> g.group_at(k) == Some(g.group_map()@[k]),
{
    let c = (l.children->Ok_0)@;
    lemma_last_of_name(c, i, k);
    assert(g.group_map()@.contains_key(k) <==> last_group(c, k) >= 0);
    if !k.contains('/') {
        lemma_group_by_name(g, k);
    }
}

/// The last group of a name is the one that no other of that name follows.
proof fn lemma_last_of_name<E>(s: Seq<GroupListing<'_, E>>, i: int, k: Seq<char>)
    requires
        -1 <= i < s.len(),
        i >= 0 ==> parts(s[i].name@, '/').last() == k,
        forall|j: int|
            i < j < s.len() ==> parts(#[trigger] s[j].name@, '/').last() != k,
    ensures
        last_group(s, k) == i,
    decreases s.len(),
{
    if s.len() > 0 && i < s.len() - 1 {
        let t = s.drop_last();
        assert forall|j: int| i < j < t.len() implies parts(#[trigger] t[j].name@, '/').last()
            != k by {
            assert(t[j] == s[j]);
        }
        assert(parts(s[s.len() - 1].name@, '/').last() != k);
        lemma_last_of_name(t, i, k);
    }
}

/// A group has the attributes that were found in it, and the path of the file.
pub proof fn lemma_indexed_attributes<'a, E>(
    g: GroupIndex<'a>,
    l: GroupListing<'a, E>,
    path: Option<PathBuf>,
)
    requires
        g.indexes(l, path),
    ensures
        g.attribute_map()@ == kept_attributes(l.attributes@),
        g.file() == path,
{
}

/// A group can be indexed exactly where it could be listed, all its allocated datasets could be
/// indexed, and all its nested groups can be.
pub proof fn lemma_fault<E>(l: GroupListing<'_, E>)
    ensures
        l.fault() is None <==> {
            &&& l.members is Ok
            &&& l.children is Ok
            &&& forall|i: int|
                0 <= i < (l.members->Ok_0)@.len() ==> (#[trigger] (
                l.members->Ok_0)@[i] matches Member::Allocated(_, d) ==> d.index is Ok)
            &&& forall|i: int|
                0 <= i < (l.children->Ok_0)@.len() ==> (#[trigger] (
                l.children->Ok_0)@[i]).fault() is None
        },
{
    if l.members is Ok {
        lemma_members_fault((l.members->Ok_0)@);
    }
    if l.children is Ok {
        let c = (l.children->Ok_0)@;
        lemma_groups_fault(c, c.len());
    }
}

/// What cannot be indexed says why: the first dataset that could not be, where there is one, else
/// the first nested group.
pub proof fn lemma_fault_reason<E>(l: GroupListing<'_, E>, i: int, e: E)
    requires
        l.members is Ok,
    ensures
        0 <= i < (l.members->Ok_0)@.len() && ((l.members->Ok_0)@[i] matches Member::Allocated(_, d)
            && d.index == Err::<DatasetD<'_>, E>(e)) && (forall|j: int|
            0 <= j < i ==> (#[trigger] (l.members->Ok_0)@[j] matches Member::Allocated(_, d)
                ==> d.index is Ok)) ==> l.fault() == Some(e),
        l.children is Ok && (forall|j: int|
            0 <= j < (l.members->Ok_0)@.len() ==> (#[trigger] (
            l.members->Ok_0)@[j] matches Member::Allocated(_, d) ==> d.index is Ok)) && 0 <= i < (
        l.children->Ok_0)@.len() && (l.children->Ok_0)@[i].fault() == Some(e) && (forall|j: int|
            0 <= j < i ==> (#[trigger] (l.children->Ok_0)@[j]).fault() is None) ==> l.fault()
            == Some(e),
{
    let m = (l.members->Ok_0)@;
    if 0 <= i < m.len() {
        let t = m.take(i + 1);
        lemma_members_fault(m.take(i));
        assert(t.drop_last() =~= m.take(i));
        assert(t.last() == m[i]);
        if member_fault(t) is Some {
            lemma_member_fault(m, i + 1);
        }
        assert forall|j: int|
            0 <= j < i && (m[j] matches Member::Allocated(_, d) ==> d.index is Ok) implies (
        #[trigger] m.take(i)[j] matches Member::Allocated(_, d) ==> d.index is Ok) by {
            assert(m.take(i)[j] == m[j]);
        }
        if forall|j: int|
            0 <= j < i ==> (#[trigger] m[j] matches Member::Allocated(_, d) ==> d.index is Ok) {
            assert forall|j: int| 0 <= j < m.take(i).len() implies (
            #[trigger] m.take(i)[j] matches Member::Allocated(_, d) ==> d.index is Ok) by {
                assert(m.take(i)[j] == m[j]);
            }
            assert(member_fault(m.take(i)) is None);
        }
    }
    lemma_members_fault(m);
    if l.children is Ok {
        let c = (l.children->Ok_0)@;
        if 0 <= i < c.len() {
            lemma_groups_fault(c, i as nat);
            if GroupListing::first_fault(c, (i + 1) as nat) is Some {
                lemma_first_fault(c, (i + 1) as nat);
            }
        }
    }
}

/// None of the datasets says why it could not be indexed where all could be.
proof fn lemma_members_fault<E>(s: Seq<Member<'_, E>>)
    ensures
        member_fault(s) is None <==> forall|i: int|
            0 <= i < s.len() ==> (#[trigger] s[i] matches Member::Allocated(_, d)
                ==> d.index is Ok),
    decreases s.len(),
{
    if s.len() > 0 {
        let t = s.drop_last();
        lemma_members_fault(t);
        if member_fault(s) is None {
            assert forall|i: int| 0 <= i < s.len() implies (
            #[trigger] s[i] matches Member::Allocated(_, d) ==> d.index is Ok) by {
                if i < t.len() {
                    assert(t[i] == s[i]);
                }
            }
        } else if forall|i: int|
            0 <= i < s.len() ==> (#[trigger] s[i] matches Member::Allocated(_, d)
                ==> d.index is Ok) {
            assert forall|i: int| 0 <= i < t.len() implies (
            #[trigger] t[i] matches Member::Allocated(_, d) ==> d.index is Ok) by {
                assert(t[i] == s[i]);
            }
            assert(s[s.len() - 1] == s.last());
        }
    }
}

/// None of the first `n` groups says why it cannot be indexed where all can be.
proof fn lemma_groups_fault<E>(s: Seq<GroupListing<'_, E>>, n: nat)
    requires
        n <= s.len(),
    ensures
        GroupListing::first_fault(s, n) is None <==> forall|i: int|
            0 <= i < n ==> (#[trigger] s[i]).fault() is None,
    decreases n,
{
    if n > 0 {
        lemma_groups_fault(s, (n - 1) as nat);
    }
}

/// The words for an error say what is missing.
pub proof fn lemma_lookup_error_text()
    ensures
        LookupError::MissingPath.text() == "missing path"@,
        LookupError::NoDataset.text() == "dataset does not exist"@,
{
}

} // verus!

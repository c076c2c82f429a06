//! The index of a file as it is offered to Python.
use super::dataset::Dataset;
use crate::idx::any::DatasetD;
use crate::idx::attributes::Attributes;
use crate::idx::index::{
    lemma_group_by_name, lemma_path_through_group, GroupIndex, Index as FileIndex,
};
use crate::idx::serialized::SerializedIndex;
use crate::path::{debug_path, lossy_path, path_debug, path_text};
use crate::text::{decimal, texts, to_decimal};
use vstd::prelude::*;

verus! {

/// The index of a file, with the fingerprint of the file.
#[derive(Debug)]
pub struct Index<'a> {
    pub idx: FileIndex<'a>,
    /// Size in bytes of the source file when it was indexed (0 if unknown).
    pub source_size: u64,
    /// Modification time (unix seconds) of the source file when it was indexed (0 if unknown).
    pub source_mtime: i64,
}

/// What was not found in an index.
#[derive(Clone, Debug, PartialEq)]
pub enum KeyError {
    Group(String),
    Dataset(String),
}

/// An index that was saved and loaded again has the fingerprint that it had, and the bytes and the
/// path of the source file were saved with it.
pub proof fn lemma_fingerprint_kept(
    i: Index<'_>,
    index: Vec<u8>,
    s: SerializedIndex,
    l: Index<'_>,
    idx: FileIndex<'_>,
)
    requires
        i.saved_as(index, s),
        l.loaded_from(s, idx),
    ensures
        l.source_size == i.source_size,
        l.source_mtime == i.source_mtime,
        l.idx == idx,
        s.index == index,
        s.source_path is Some <==> i.idx.root_group().file() is Some,
        s.source_path matches Some(p) ==> p@ == path_text(i.idx.root_group().file()->0),
{
}

impl KeyError {
    /// The error in words.
    pub open spec fn text(self) -> Seq<char> {
        match self {
            KeyError::Group(n) => "group not found: "@ + n@,
            KeyError::Dataset(n) => "dataset not found: "@ + n@,
        }
    }

    /// The error in words.
    pub fn message(&self) -> (r: String)
        ensures
            r@ == self.text(),
    {
        match self {
            KeyError::Group(n) => {
                let mut r = "group not found: ".to_owned();
                r.append(n.as_str());
                r
            },
            KeyError::Dataset(n) => {
                let mut r = "dataset not found: ".to_owned();
                r.append(n.as_str());
                r
            },
        }
    }
}

/// The text of a name, where there is one.
pub open spec fn name_text(name: Option<&str>) -> Option<Seq<char>> {
    match name {
        Some(n) => Some(n@),
        None => None,
    }
}

/// The group that a name leads to in an index: the root group where there is no name.
pub open spec fn group_in<'a>(idx: FileIndex<'a>, group: Option<Seq<char>>) -> Option<
    GroupIndex<'a>,
> {
    match group {
        Some(g) => idx.root_group().group_at(g),
        None => Some(idx.root_group()),
    }
}

/// The dataset `s` of a group of an index.
pub open spec fn dataset_in<'a>(
    idx: FileIndex<'a>,
    group: Option<Seq<char>>,
    s: Seq<char>,
) -> Option<DatasetD<'a>> {
    match group_in(idx, group) {
        Some(g) => g.dataset_at(s),
        None => None,
    }
}

/// A dataset is found in a named group as it is found in the root group by the name of the group,
/// a slash and its path; without a group it is found in the root group.
pub proof fn lemma_dataset_in(idx: FileIndex<'_>, group: Seq<char>, s: Seq<char>)
    ensures
        group_in(idx, None) == Some(idx.root_group()),
        dataset_in(idx, None, s) == idx.root_group().dataset_at(s),
        group.len() > 0 && !group.contains('/') && (s.len() > 0 ==> s[0] != '/') ==> dataset_in(
            idx,
            Some(group),
            s,
        ) == dataset_in(idx, None, group.push('/') + s),
        !group.contains('/') ==> {
            let groups = idx.root_group().group_map()@;
            group_in(idx, Some(group)) == if groups.contains_key(group) {
                Some(groups[group])
            } else {
                None
            }
        },
{
    if !group.contains('/') {
        lemma_group_by_name(idx.root_group(), group);
        if group.len() > 0 && (s.len() > 0 ==> s[0] != '/') {
            lemma_path_through_group(idx.root_group(), group, s);
        }
    }
}

/// The group that a name leads to in an index: the root group where there is no name.
pub fn find_group<'i, 'a>(idx: &'i FileIndex<'a>, group: Option<&str>) -> (r: Option<
    &'i GroupIndex<'a>,
>)
    ensures
        match r {
            Some(g) => group_in(*idx, name_text(group)) == Some(*g),
            None => group_in(*idx, name_text(group)) is None,
        },
{
    match group {
        Some(g) => idx.root().group(g),
        None => Some(idx.root()),
    }
}

impl<'a> Index<'a> {
    /// Whether `s` is what is saved of this index, with `index` its flexbuffers form.
    pub open spec fn saved_as(self, index: Vec<u8>, s: SerializedIndex) -> bool {
        &&& match s.source_path {
            Some(p) => self.idx.root_group().file() matches Some(f) && p@ == path_text(f),
            None => self.idx.root_group().file() is None,
        }
        &&& s.source_size == self.source_size
        &&& s.source_mtime == self.source_mtime
        &&& s.index == index
    }

    /// Whether this is the index `idx` loaded from `s`.
    pub open spec fn loaded_from(self, s: SerializedIndex, idx: FileIndex<'a>) -> bool {
        &&& self.idx == idx
        &&& self.source_size == s.source_size
        &&& self.source_mtime == s.source_mtime
    }

    /// The index of a file with the fingerprint `(size, mtime)`.
    pub fn new(idx: FileIndex<'a>, fingerprint: (u64, i64)) -> (r: Index<'a>)
        ensures
            r.idx == idx,
            r.source_size == fingerprint.0,
            r.source_mtime == fingerprint.1,
    {
        Index { idx, source_size: fingerprint.0, source_mtime: fingerprint.1 }
    }

    /// The index `idx` that was loaded from `s`: the fingerprint is the one that was saved.
    pub fn load_index(s: &SerializedIndex, idx: FileIndex<'a>) -> (r: Index<'a>)
        ensures
            r.loaded_from(*s, idx),
    {
        Index { idx, source_size: s.source_size, source_mtime: s.source_mtime }
    }

    /// What is saved: `index`, the flexbuffers form of the index, with the fingerprint of the
    /// source file.
    pub fn serialized(&self, index: Vec<u8>) -> (r: SerializedIndex)
        ensures
            self.saved_as(index, r),
    {
        SerializedIndex::from_index(&self.idx, index, self.source_size, self.source_mtime)
    }

    /// Path of the source file this index was built from.
    pub fn source_path(&self) -> (r: Option<String>)
        ensures
            match r {
                Some(p) => self.idx.root_group().file() matches Some(f) && p@ == path_text(f),
                None => self.idx.root_group().file() is None,
            },
    {
        match self.idx.root().path() {
            Some(p) => Some(lossy_path(p)),
            None => None,
        }
    }

    /// The group that a name leads to: the root group where there is no name.
    pub fn group_index(&self, group: Option<&str>) -> (r: Result<&GroupIndex<'a>, KeyError>)
        ensures
            match r {
                Ok(g) => group_in(self.idx, name_text(group)) == Some(*g),
                Err(KeyError::Group(n)) => {
                    &&& group_in(self.idx, name_text(group)) is None
                    &&& group matches Some(g) && n@ == g@
                },
                Err(KeyError::Dataset(_)) => false,
            },
    {
        match group {
            Some(g) => match self.idx.root().group(g) {
                Some(i) => Ok(i),
                None => Err(KeyError::Group(g.to_owned())),
            },
            None => Ok(self.idx.root()),
        }
    }

    /// The dataset `s` of a group (of the root group where there is no name), if there is one.
    pub fn dataset(&self, s: &str, group: Option<&str>) -> (r: Option<Dataset<'_, 'a>>)
        ensures
            match r {
                Some(d) => {
                    &&& dataset_in(self.idx, name_text(group), s@) is Some
                    &&& d.index() == self.idx
                    &&& d.group_name() == name_text(group)
                    &&& d.name() == s@
                    &&& d.source() is None
                },
                None => dataset_in(self.idx, name_text(group), s@) is None,
            },
    {
        Dataset::find(&self.idx, s, group)
    }

    /// Attributes of a group (`None`: the global attributes).
    pub fn attributes(&self, group: Option<&str>) -> (r: Result<&Attributes, KeyError>)
        ensures
            match r {
                Ok(a) => group_in(self.idx, name_text(group)) matches Some(g) && g.attribute_map()
                    == *a,
                Err(KeyError::Group(n)) => {
                    &&& group_in(self.idx, name_text(group)) is None
                    &&& group matches Some(g) && n@ == g@
                },
                Err(KeyError::Dataset(_)) => false,
            },
    {
        match self.group_index(group) {
            Ok(g) => Ok(g.attributes()),
            Err(e) => Err(e),
        }
    }

    /// Attributes of a dataset.
    pub fn dataset_attributes(&self, s: &str, group: Option<&str>) -> (r: Result<
        &Attributes,
        KeyError,
    >)
        ensures
            match r {
                Ok(a) => {
                    &&& group_in(self.idx, name_text(group)) matches Some(g)
                    &&& g.meta_at(s@) matches Some(m)
                    &&& m.attributes == *a
                },
                Err(KeyError::Group(n)) => {
                    &&& group_in(self.idx, name_text(group)) is None
                    &&& group matches Some(g) && n@ == g@
                },
                Err(KeyError::Dataset(n)) => {
                    &&& group_in(self.idx, name_text(group)) matches Some(g)
                    &&& g.meta_at(s@) is None
                    &&& n@ == s@
                },
            },
    {
        match self.group_index(group) {
            Ok(g) => match g.dataset_attributes(s) {
                Some(a) => Ok(a),
                None => Err(KeyError::Dataset(s.to_owned())),
            },
            Err(e) => Err(e),
        }
    }

    /// netCDF dimension names of a dataset, in order.
    pub fn dataset_dims(&self, s: &str, group: Option<&str>) -> (r: Result<Vec<String>, KeyError>)
        ensures
            match r {
                Ok(d) => {
                    &&& group_in(self.idx, name_text(group)) matches Some(g)
                    &&& g.meta_at(s@) matches Some(m)
                    &&& d@ == m.dim_names@
                },
                Err(KeyError::Group(n)) => {
                    &&& group_in(self.idx, name_text(group)) is None
                    &&& group matches Some(g) && n@ == g@
                },
                Err(KeyError::Dataset(n)) => {
                    &&& group_in(self.idx, name_text(group)) matches Some(g)
                    &&& g.meta_at(s@) is None
                    &&& n@ == s@
                },
            },
    {
        match self.group_index(group) {
            Ok(g) => match g.dataset_dim_names(s) {
                Some(d) => {
                    let mut r: Vec<String> = Vec::new();
                    for i in 0..d.len()
                        invariant
                            r@ =~= d@.take(i as int),
                    {
                        r.push(d[i].clone());
                    }
                    assert(d@.take(d@.len() as int) =~= d@);
                    Ok(r)
                },
                None => Err(KeyError::Dataset(s.to_owned())),
            },
            Err(e) => Err(e),
        }
    }

    /// The names of the datasets of a group (of the root group where there is no name), in
    /// order. There are none where there is no such group.
    pub fn datasets(&self, group: Option<&str>) -> (r: Vec<String>)
        ensures
            texts(r@) == (match group_in(self.idx, name_text(group)) {
                Some(g) => g.dataset_map().names(),
                None => Seq::empty(),
            }),
    {
        match find_group(&self.idx, group) {
            Some(g) => g.datasets().keys(),
            None => {
                let r: Vec<String> = Vec::new();
                assert(texts(r@) =~= Seq::empty());
                r
            },
        }
    }

    /// The path of the source file, formatted for debugging.
    pub open spec fn file_text(self) -> Seq<char> {
        match self.idx.root_group().file() {
            Some(p) => "Some("@ + path_debug(p) + ")"@,
            None => "None"@,
        }
    }

    /// The index in words.
    pub fn repr(&self) -> (r: String)
        ensures
            r@ == "Index(file: "@ + self.file_text() + ", datasets: "@ + decimal(
                self.idx.root_group().dataset_map().size(),
            ),
    {
        let mut r = "Index(file: ".to_owned();
        match self.idx.root().path() {
            Some(p) => {
                let mut file = "Some(".to_owned();
                file.append(debug_path(p).as_str());
                file.append(")");
                r.append(file.as_str());
            },
            None => {
                r.append("None");
            },
        }
        r.append(", datasets: ");
        r.append(to_decimal(self.idx.root().datasets().len() as u64).as_str());
        r
    }
}

/// The words for an error name what was not found.
pub proof fn lemma_key_error_text(n: String)
    ensures
        KeyError::Group(n).text() == "group not found: "@ + n@,
        KeyError::Dataset(n).text() == "dataset not found: "@ + n@,
{
}

/// The path of a file is shown as std shows an optional path.
pub proof fn lemma_file_text(i: Index<'_>)
    ensures
        i.idx.root_group().file() matches Some(p) ==> i.file_text() == "Some("@ + path_debug(p)
            + ")"@,
        i.idx.root_group().file() is None ==> i.file_text() == "None"@,
{
}

} // verus!

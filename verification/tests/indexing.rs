use hidefix::extent::Extents;
use hidefix::idx::attributes::{
    dimension_names, fixed_size, is_dimension_scale, is_internal, read_attribute, read_attributes,
    read_fixed_strings, trim_nuls, FoundAttribute, RawValues, ReadAs,
};
use hidefix::idx::index::{is_allocated, FoundDataset, GroupListing, LookupError, Member};
use hidefix::idx::{
    AttributeValue, Chunk, ChunkTable, Dataset, DatasetD, DatasetMeta, Datatype, GroupIndex, Index,
    Order,
};
use hidefix::idx::attributes::TypeDescriptor as T;
use hidefix::idx::AttributeValue as A;
use hidefix::names::NameMap;
use std::path::PathBuf;

fn attribute(name: &str, value: Option<AttributeValue>) -> FoundAttribute {
    FoundAttribute { name: name.to_string(), value }
}

fn text(t: &str) -> Option<AttributeValue> {
    Some(AttributeValue::Str(t.to_string()))
}

/// A dataset of one double at `addr`.
fn double_at(addr: u64) -> DatasetD<'static> {
    DatasetD::D1(Dataset {
        dtype: Datatype::Float(8),
        dsize: 8,
        order: Order::LE,
        shape: [1],
        chunk_shape: [1],
        chunks: ChunkTable::Owned(vec![Chunk { addr, size: 8, offset: [0] }]),
        gzip: None,
        shuffle: false,
    })
}

fn found(
    path: &str,
    attributes: Vec<FoundAttribute>,
    refs: Option<Vec<Option<String>>>,
    index: Result<DatasetD<'static>, String>,
) -> FoundDataset<'static, String> {
    FoundDataset { path: path.to_string(), ndim: 1, class: None, refs, attributes, index }
}

fn group(
    name: &str,
    members: Vec<Member<'static, String>>,
    children: Vec<GroupListing<'static, String>>,
) -> GroupListing<'static, String> {
    GroupListing {
        name: name.to_string(),
        members: Ok(members),
        children: Ok(children),
        attributes: vec![],
    }
}

fn x(path: &str, addr: u64) -> Member<'static, String> {
    Member::Allocated("x".to_string(), found(path, vec![], None, Ok(double_at(addr))))
}

/// The values of a dataset.
fn doubles(d: &DatasetD, file: &[u8]) -> Vec<f64> {
    let mut dst = vec![0; d.size() * 8];
    assert!(d.is_valid());
    d.read_to(file, &Extents::All, &mut dst).unwrap();
    dst.chunks_exact(8).map(|b| f64::from_le_bytes(b.try_into().unwrap())).collect()
}

/// A file with a dataset `x` in the root group and in the groups `a/b` and `a/b/c`.
fn nested() -> (Vec<u8>, GroupListing<'static, String>) {
    let file: Vec<u8> = [1.0f64, 1.0, 1.0].iter().flat_map(|v| v.to_le_bytes()).collect();
    let c = group("/a/b/c", vec![x("/a/b/c/x", 16)], vec![]);
    let b = group("/a/b", vec![x("/a/b/x", 8)], vec![c]);
    let a = group("/a", vec![], vec![b]);
    (file, group("/", vec![x("/x", 0)], vec![a]))
}

#[test]
fn test_index_groups() {
    let (file, listing) = nested();
    let idx = Index::index_file(listing, Some(PathBuf::from("test_index_groups.nc"))).unwrap();
    assert_eq!(idx.datasets().len(), 1);
    assert_eq!(doubles(idx.reader("x").unwrap().1, &file), vec![1.0]);
    assert_eq!(idx.groups().len(), 1);
    assert_eq!(idx.group("a").unwrap().groups().len(), 1);
    assert_eq!(idx.group("a/b").unwrap().groups().len(), 1);
    assert_eq!(doubles(idx.reader("a/b/x").unwrap().1, &file), vec![1.0]);
    assert_eq!(doubles(idx.reader("a/b/c/x").unwrap().1, &file), vec![1.0]);
}

/// What is found in the climatology file.
fn coads() -> GroupListing<'static, String> {
    let sst = FoundDataset {
        path: "/SST".to_string(),
        ndim: 3,
        class: None,
        refs: Some(vec![
            Some("/TIME".to_string()),
            Some("/COADSY".to_string()),
            Some("/COADSX".to_string()),
        ]),
        attributes: vec![
            attribute("missing_value", Some(AttributeValue::Float((-1e34f64).to_bits(), 4))),
            attribute("long_name", text("SEA SURFACE TEMPERATURE")),
            attribute("units", text("Deg C")),
            attribute("DIMENSION_LIST", None),
        ],
        index: Ok(double_at(0)),
    };
    GroupListing {
        name: "/".to_string(),
        members: Ok(vec![Member::Allocated("SST".to_string(), sst)]),
        children: Ok(vec![]),
        attributes: vec![
            attribute("history", text("FERRET V4.30 (debug/no GUI) 15-Aug-96")),
            attribute("_NCProperties", text("version=1")),
        ],
    }
}

#[test]
fn coads_attributes_and_dims() {
    let i = Index::index_file(coads(), Some(PathBuf::from("tests/data/coads_climatology.nc4")))
        .unwrap();

    let attrs = i.dataset_attributes("SST").unwrap();
    assert_eq!(attrs.get("units"), Some(&AttributeValue::Str("Deg C".into())));
    assert!(attrs.contains_key("long_name"));
    assert!(attrs.contains_key("missing_value"));
    assert!(!attrs.contains_key("DIMENSION_LIST"));

    let dims = i.dataset_dim_names("SST").unwrap();
    assert_eq!(dims, ["TIME", "COADSY", "COADSX"]);

    // a dimension scale names itself
    let class = text("DIMENSION_SCALE");
    assert_eq!(dimension_names("/TIME", 1, &class, &None), [dims[0].clone()]);
}

#[test]
fn serialize_metadata() {
    fn check(i: &Index) {
        assert!(i.attributes().contains_key("history"));
        assert_eq!(
            i.dataset_attributes("SST").unwrap().get("units"),
            Some(&AttributeValue::Str("Deg C".into()))
        );
        assert_eq!(i.dataset_dim_names("SST").unwrap(), ["TIME", "COADSY", "COADSX"]);
    }
    let i = Index::index_file(coads(), None).unwrap();
    check(&i);
    let (path, root) = i.into_parts();
    let (file, datasets, groups, attributes, dataset_meta) = root.into_parts();
    let mi = Index::from_parts(
        path,
        GroupIndex::from_parts(file, datasets, groups, attributes, dataset_meta),
    );
    check(&mi);
    check(&mi.into_owned());
}

/// Indexes without `attributes` and `dataset_meta`.
#[test]
fn deserialize_index_without_metadata_fields() {
    let (path, root) = Index::index_file(coads(), None).unwrap().into_parts();
    let (file, datasets, groups, _, _) = root.into_parts();
    let mi = Index::from_parts(
        path,
        GroupIndex::from_parts(file, datasets, groups, NameMap::new(), NameMap::new()),
    );

    assert!(mi.dataset("SST").is_some());
    assert!(mi.attributes().is_empty());
    assert!(mi.dataset_attributes("SST").is_none());
    assert!(mi.dataset_dim_names("SST").is_none());
}

#[test]
fn leading_slashes_do_not_count() {
    let (_, listing) = nested();
    let idx = Index::index_file(listing, None).unwrap();
    for p in ["x", "/x", "///x", "a/b/x", "/a/b/x", "//a/b/c/x"] {
        assert!(idx.dataset(p).is_some(), "{p}");
        assert!(idx.dataset_attributes(p).is_some(), "{p}");
        assert!(idx.dataset_dim_names(p).is_some(), "{p}");
    }
    for p in ["", "/", "y", "a", "a/x", "x/", "a//b/x", "a/b/x/"] {
        assert!(idx.dataset(p).is_none(), "{p}");
        assert!(idx.dataset_attributes(p).is_none(), "{p}");
    }
    for p in ["a", "/a/", "a/b", "//a/b//"] {
        assert!(idx.group(p).is_some(), "{p}");
    }
    for p in ["", "/", "b", "a//b", "x"] {
        assert!(idx.group(p).is_none(), "{p}");
    }
}

#[test]
fn datasets_are_found_in_their_groups() {
    let (_, listing) = nested();
    let idx = Index::index_file(listing, None).unwrap();
    let addr = |d: Option<&DatasetD>| match d {
        Some(DatasetD::D1(d)) => d.chunks.as_slice()[0].addr,
        _ => panic!(),
    };
    assert_eq!(addr(idx.dataset("x")), 0);
    assert_eq!(addr(idx.dataset("a/b/x")), 8);
    assert_eq!(addr(idx.group("a/b").unwrap().dataset("x")), 8);
    assert_eq!(addr(idx.group("/a/").unwrap().dataset("/b/c/x")), 16);
    assert_eq!(addr(idx.dataset("a/b/c/x")), 16);
}

#[test]
fn readers_need_a_path_and_a_dataset() {
    let (_, listing) = nested();
    let idx = Index::index_file(listing, None).unwrap();
    assert_eq!(idx.reader("x").err(), Some(LookupError::MissingPath));
    assert_eq!(idx.streamer("nothing").err(), Some(LookupError::MissingPath));
    assert_eq!(LookupError::MissingPath.message(), "missing path");
    assert_eq!(idx.path(), None);

    let (_, listing) = nested();
    let idx = Index::index_file(listing, Some(PathBuf::from("file.nc"))).unwrap();
    assert_eq!(idx.reader("nothing").err(), Some(LookupError::NoDataset));
    assert_eq!(LookupError::NoDataset.message(), "dataset does not exist");
    let file = PathBuf::from("file.nc");
    assert_eq!(idx.reader("/x").unwrap().0, &file);
    assert_eq!(idx.streamer("a/b/x").unwrap().0, &file);
    assert_eq!(idx.group("a/b/c").unwrap().path(), Some(&file));
    assert!(idx.group("a/b/c").unwrap().reader("x").is_ok());
}

#[test]
fn unallocated_datasets_are_skipped() {
    assert!(is_allocated(true, None));
    assert!(is_allocated(false, Some(0)));
    assert!(!is_allocated(false, None));
    let l = group("/", vec![Member::Unallocated("y".to_string()), x("/x", 0)], vec![]);
    let g = GroupIndex::index_group(l, None).unwrap();
    assert_eq!(g.datasets().keys(), ["x"]);
    assert!(g.dataset("y").is_none());
}

#[test]
fn every_dataset_has_metadata() {
    let (_, listing) = nested();
    let g = GroupIndex::index_group(listing, None).unwrap();
    assert_eq!(g.dataset_dim_names("a/b/x").unwrap(), ["phony_dim_0"]);
    assert!(g.dataset_attributes("a/b/c/x").unwrap().is_empty());
}

#[test]
fn the_first_failure_says_why() {
    let bad = |n: &str, e: &str| {
        Member::Allocated(n.to_string(), found("/bad", vec![], None, Err(e.to_string())))
    };
    let index = |l| GroupIndex::index_group(l, None).err().unwrap();

    assert_eq!(index(group("/", vec![x("/x", 0), bad("b", "1"), bad("c", "2")], vec![])), "1");
    let child = |e| group("/g", vec![bad("b", e)], vec![]);
    assert_eq!(index(group("/", vec![x("/x", 0)], vec![child("3"), child("4")])), "3");
    assert_eq!(index(group("/", vec![bad("b", "5")], vec![child("6")])), "5");

    let mut l = group("/", vec![bad("b", "7")], vec![]);
    l.children = Err("8".to_string());
    assert_eq!(index(l), "7");
    let mut l = group("/", vec![x("/x", 0)], vec![]);
    l.children = Err("9".to_string());
    assert_eq!(index(l), "9");
    let mut l = group("/", vec![], vec![child("10")]);
    l.members = Err("11".to_string());
    assert_eq!(index(l), "11");
}

#[test]
fn taking_ownership_keeps_the_contents() {
    let table = [Chunk { addr: 0, size: 8, offset: [0] }];
    let borrowed = DatasetD::D1(Dataset {
        dtype: Datatype::Float(8),
        dsize: 8,
        order: Order::LE,
        shape: [1],
        chunk_shape: [1],
        chunks: ChunkTable::Borrowed(&table),
        gzip: None,
        shuffle: false,
    });
    let mut datasets = NameMap::new();
    datasets.insert("x".to_string(), borrowed);
    let mut meta = NameMap::new();
    meta.insert("x".to_string(), DatasetMeta::default());
    let inner =
        GroupIndex::from_parts(None, datasets, NameMap::new(), NameMap::new(), meta);
    let mut groups = NameMap::new();
    groups.insert("g".to_string(), inner);
    let root = GroupIndex::from_parts(
        Some(PathBuf::from("f")),
        NameMap::new(),
        groups,
        read_attributes(vec![attribute("title", text("t"))]),
        NameMap::new(),
    );
    let owned: Index<'static> =
        Index::from_parts(Some(PathBuf::from("f")), root).into_owned();
    let DatasetD::D1(d) = owned.dataset("g/x").unwrap() else { panic!() };
    assert!(matches!(d.chunks, ChunkTable::Owned(_)));
    assert_eq!(doubles(owned.dataset("g/x").unwrap(), &2.5f64.to_le_bytes()), [2.5]);
    assert_eq!(owned.attributes().get("title"), text("t").as_ref());
    assert!(owned.dataset_attributes("g/x").unwrap().is_empty());
    assert_eq!(owned.path(), Some(&PathBuf::from("f")));
}

#[test]
fn internal_attributes_are_hidden() {
    let internal = [
        "DIMENSION_LIST",
        "REFERENCE_LIST",
        "CLASS",
        "NAME",
        "_Netcdf4Dimid",
        "_Netcdf4Coordinates",
        "_NCProperties",
        "_nc3_strict",
    ];
    let mut found: Vec<_> = internal.iter().map(|n| attribute(n, text("hidden"))).collect();
    found.push(attribute("units", text("m")));
    found.push(attribute("exotic", None));
    found.push(attribute("axis", text("X")));
    let attrs = read_attributes(found);
    assert_eq!(attrs.keys(), ["axis", "units"]);
    for n in internal {
        assert!(is_internal(n));
        assert!(!attrs.contains_key(n));
    }
    for n in ["units", "class", "NAMES", ""] {
        assert!(!is_internal(n));
    }
}

#[test]
fn types_are_read_as_the_largest_of_their_kind() {
    for t in [T::Integer, T::Boolean, T::Enum] {
        assert_eq!(t.read_as(), Some(ReadAs::Ints));
    }
    assert_eq!(T::Unsigned.read_as(), Some(ReadAs::Uints));
    assert_eq!(T::Float.read_as(), Some(ReadAs::Floats));
    assert_eq!(T::FixedAscii(4).read_as(), Some(ReadAs::Fixed(4)));
    assert_eq!(T::FixedUnicode(5).read_as(), Some(ReadAs::Fixed(5)));
    assert_eq!(T::VarLenAscii.read_as(), Some(ReadAs::Ascii));
    assert_eq!(T::VarLenUnicode.read_as(), Some(ReadAs::Unicode));
    assert_eq!(T::Other.read_as(), None);
}

#[test]
fn single_values_are_scalars() {
    assert_eq!(read_attribute(RawValues::Ints(vec![-3]), 2, 1), A::Int(-3, 2));
    assert_eq!(read_attribute(RawValues::Ints(vec![-3]), 2, 0), A::Int(-3, 2));
    assert_eq!(read_attribute(RawValues::Ints(vec![1, 2]), 4, 2), A::Ints(vec![1, 2], 4));
    assert_eq!(read_attribute(RawValues::Ints(vec![]), 4, 0), A::Ints(vec![], 4));
    assert_eq!(read_attribute(RawValues::Uints(vec![7]), 8, 1), A::Uint(7, 8));
    assert_eq!(read_attribute(RawValues::Uints(vec![7, 8]), 1, 2), A::Uints(vec![7, 8], 1));
    let bits = 0.01f64.to_bits();
    assert_eq!(read_attribute(RawValues::Floats(vec![bits]), 4, 1), A::Float(bits, 4));
    assert_eq!(
        read_attribute(RawValues::Floats(vec![bits, bits]), 8, 2),
        A::Floats(vec![bits, bits], 8)
    );
    let texts = |t: &[&str]| t.iter().map(|s| s.to_string()).collect::<Vec<_>>();
    assert_eq!(read_attribute(RawValues::Texts(texts(&["a"])), 16, 1), A::Str("a".into()));
    assert_eq!(
        read_attribute(RawValues::Texts(texts(&["a", "b"])), 16, 2),
        A::Strs(texts(&["a", "b"]))
    );
    // the width is kept in a byte.
    assert_eq!(read_attribute(RawValues::Ints(vec![1]), 257, 1), A::Int(1, 1));
}

#[test]
fn fixed_strings_lose_trailing_nuls_only() {
    assert_eq!(read_fixed_strings(b"ab\0\0c d \0\0\0\0", 4), ["ab", "c d ", ""]);
    assert_eq!(read_fixed_strings(b"a\0b\0", 4), ["a\0b"]);
    assert_eq!(read_fixed_strings("grader ø".as_bytes(), 9), ["grader ø"]);
    // what is not text is replaced, what does not fill a string left out.
    assert_eq!(read_fixed_strings(b"a\xffb\0xy", 4), ["a\u{fffd}b"]);
    assert_eq!(read_fixed_strings(b"", 4), Vec::<String>::new());
    assert_eq!(trim_nuls(b"\0a\0\0"), b"\0a");
    assert_eq!(
        read_attribute(RawValues::Fixed { bytes: b"Deg C\0\0\0".to_vec(), len: 8 }, 8, 1),
        AttributeValue::Str("Deg C".into())
    );
    assert_eq!(
        read_attribute(RawValues::Fixed { bytes: b"ab".to_vec(), len: 1 }, 1, 2),
        AttributeValue::Strs(vec!["a".into(), "b".into()])
    );
}

#[test]
fn sizes_of_fixed_strings() {
    assert_eq!(fixed_size(0, 7), Some(7));
    assert_eq!(fixed_size(3, 7), Some(21));
    assert_eq!(fixed_size(usize::MAX, 2), None);
}

#[test]
fn dimension_scales() {
    assert!(is_dimension_scale(&text("DIMENSION_SCALE")));
    assert!(!is_dimension_scale(&text("DIMENSION_SCAL")));
    assert!(!is_dimension_scale(&Some(AttributeValue::Strs(vec!["DIMENSION_SCALE".into()]))));
    assert!(!is_dimension_scale(&None));
}

#[test]
fn dimensions_without_names_are_numbered() {
    let some = |s: &str| Some(s.to_string());
    assert_eq!(dimension_names("/v", 2, &None, &None), ["phony_dim_0", "phony_dim_1"]);
    // one reference that is not resolved, or one too few.
    let refs = Some(vec![some("/g/t"), None]);
    assert_eq!(dimension_names("/v", 2, &None, &refs), ["phony_dim_0", "phony_dim_1"]);
    let refs = Some(vec![some("/g/t")]);
    assert_eq!(dimension_names("/v", 2, &None, &refs), ["phony_dim_0", "phony_dim_1"]);
    assert_eq!(dimension_names("/v", 1, &None, &refs), ["t"]);
    assert_eq!(dimension_names("/v", 0, &None, &None), Vec::<String>::new());
    assert_eq!(dimension_names("/v", 12, &None, &None)[11], "phony_dim_11");
    // the class of a scale goes first.
    assert_eq!(dimension_names("/g/lat", 2, &text("DIMENSION_SCALE"), &refs), ["lat"]);
}

#[test]
fn listed_datasets_are_found() {
    let (_, listing) = nested();
    let g = GroupIndex::index_group(listing, None).unwrap();
    for name in g.datasets().keys() {
        assert!(g.dataset(&name).is_some());
    }
    for i in 0..g.datasets().len() {
        assert!(std::ptr::eq(g.datasets().at(i).1, g.dataset(g.datasets().at(i).0).unwrap()));
    }
}

#[test]
fn attributes_are_compared_by_value() {
    let bits = |v: f64| v.to_bits();
    // what is no number is equal to nothing, and the sign of zero does not count.
    assert_ne!(A::Float(bits(f64::NAN), 8), A::Float(bits(f64::NAN), 8));
    assert_ne!(A::Floats(vec![bits(-f64::NAN)], 8), A::Floats(vec![bits(-f64::NAN)], 8));
    assert_eq!(A::Float(bits(0.0), 4), A::Float(bits(-0.0), 4));
    assert_eq!(
        A::Floats(vec![bits(1.5), bits(-0.0)], 8),
        A::Floats(vec![bits(1.5), bits(0.0)], 8)
    );
    assert_eq!(A::Float(bits(f64::NEG_INFINITY), 8), A::Float(bits(f64::NEG_INFINITY), 8));
    assert_ne!(A::Float(bits(f64::INFINITY), 8), A::Float(bits(f64::NEG_INFINITY), 8));
    assert_ne!(A::Float(bits(1.5), 8), A::Float(bits(-1.5), 8));
    for (a, b) in [(0.0, 1.0), (-0.0, 5e-324), (f64::MAX, f64::INFINITY), (2.0, 2.0)] {
        assert_eq!(A::Float(bits(a), 8) == A::Float(bits(b), 8), a == b);
    }

    // the width counts, and so do the kind and the number of values.
    assert_ne!(A::Float(bits(1.5), 4), A::Float(bits(1.5), 8));
    assert_ne!(A::Floats(vec![bits(1.5)], 4), A::Float(bits(1.5), 4));
    assert_ne!(A::Int(1, 4), A::Uint(1, 4));
    assert_ne!(A::Ints(vec![1], 4), A::Ints(vec![1, 2], 4));
    assert_eq!(A::Ints(vec![1, -2], 2), A::Ints(vec![1, -2], 2));
    assert_ne!(A::Uints(vec![1, 2], 2), A::Uints(vec![1, 3], 2));
    assert_eq!(A::Uints(vec![], 2), A::Uints(vec![], 2));
    let strs = |v: &[&str]| A::Strs(v.iter().map(|s| s.to_string()).collect());
    assert_eq!(strs(&["a", "b"]), strs(&["a", "b"]));
    assert_ne!(strs(&["a", "b"]), strs(&["a", "c"]));
    assert_ne!(strs(&["a"]), A::Str("a".to_string()));
    assert_eq!(A::Str("a".to_string()), A::Str("a".to_string()));

    // two sets of attributes are equal where their values are.
    let meta = |v: f64| {
        let mut attributes = NameMap::new();
        attributes.insert("missing_value".to_string(), A::Float(bits(v), 8));
        DatasetMeta { attributes, dim_names: vec![] }
    };
    assert_eq!(meta(0.0), meta(-0.0));
    assert_ne!(meta(f64::NAN), meta(f64::NAN));
}

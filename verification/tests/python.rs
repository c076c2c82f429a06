use hidefix::extent::Extents;
use hidefix::idx::attributes::{read_attributes, FoundAttribute};
use hidefix::idx::index::{FoundDataset, GroupListing, Member};
use hidefix::idx::serialized::SerializedIndex;
use hidefix::idx::{AttributeValue, Chunk, ChunkTable, Dataset, DatasetD, Datatype, Order};
use hidefix::python::attributes::{attribute_to_py, attributes_to_py, PyValue};
use hidefix::python::dataset::{
    array_dims, dtype_string, element_type, select, strides_supported, ElementType, SliceIndices,
};
use hidefix::idx::AttributeValue as A;
use hidefix::python::fill::{apply_fill_value, filled};
use hidefix::python::index::{Index, KeyError};
use hidefix::python::s3::{credential_source, CredentialSource, S3Error, S3Region, S3Source};
use std::path::PathBuf;

const COADS: &str = "tests/data/coads_climatology.nc4";

/// The contents of a file with a dataset `SST` of 3 x 4 x 5 floats, and its values.
fn sst() -> (Vec<u8>, Vec<f32>) {
    let mut values: Vec<f32> = (0..60).map(|i| i as f32 * 0.25).collect();
    values[13] = -1.0e+34;
    let mut file = vec![0; 16];
    file.extend(values.iter().flat_map(|v| v.to_le_bytes()));
    (file, values)
}

fn found<'a>(path: &str, ndim: usize, index: DatasetD<'a>) -> Member<'a, String> {
    let name = path.rsplit('/').next().unwrap().to_string();
    Member::Allocated(
        name,
        FoundDataset {
            path: path.to_string(),
            ndim,
            class: None,
            refs: None,
            attributes: vec![FoundAttribute {
                name: "scale_factor".to_string(),
                value: Some(AttributeValue::Float(0.5f64.to_bits(), 4)),
            }],
            index: Ok(index),
        },
    )
}

fn group<'a>(
    name: &str,
    members: Vec<Member<'a, String>>,
    children: Vec<GroupListing<'a, String>>,
) -> GroupListing<'a, String> {
    GroupListing {
        name: name.to_string(),
        members: Ok(members),
        children: Ok(children),
        attributes: vec![FoundAttribute {
            name: "title".to_string(),
            value: Some(AttributeValue::Str(name.to_string())),
        }],
    }
}

fn double() -> DatasetD<'static> {
    DatasetD::D1(Dataset {
        dtype: Datatype::Float(8),
        dsize: 8,
        order: Order::BE,
        shape: [1],
        chunk_shape: [1],
        chunks: ChunkTable::Owned(vec![Chunk { addr: 0, size: 8, offset: [0] }]),
        gzip: None,
        shuffle: false,
    })
}

fn coads() -> Index<'static> {
    let ds = DatasetD::D3(Dataset {
        dtype: Datatype::Float(4),
        dsize: 4,
        order: Order::LE,
        shape: [3, 4, 5],
        chunk_shape: [3, 4, 5],
        chunks: ChunkTable::Owned(vec![Chunk { addr: 16, size: 240, offset: [0, 0, 0] }]),
        gzip: None,
        shuffle: false,
    });
    let root = group("/", vec![found("/SST", 3, ds)], vec![]);
    let idx = hidefix::idx::Index::index_file(root, Some(PathBuf::from(COADS))).unwrap();
    Index::new(idx, (256, 1_700_000_000))
}

fn slice(start: isize, stop: isize) -> SliceIndices {
    SliceIndices { start, stop, step: 1 }
}

/// The elements that slices select.
fn read(i: &Index, slices: &[SliceIndices]) -> Vec<f32> {
    let ds = i.dataset("SST", None).unwrap();
    assert!(strides_supported(slices, ds.shape().len()));
    let extents = ds.extents(slices);
    let Extents::Ranges(ranges) = &extents else { panic!() };
    let counts: Vec<u64> = ranges.iter().map(|r| r.count).collect();
    let n: usize = array_dims(&counts).iter().product();
    let mut dst = vec![0; n * 4];
    let d = ds.dataset();
    assert!(d.is_valid());
    let read = d.read_to_par(&sst().0, &extents, &mut dst).unwrap();
    assert_eq!(read, dst.len());
    dst.chunks_exact(4).map(|b| f32::from_le_bytes(b.try_into().unwrap())).collect()
}

#[test]
fn coads_slice() {
    let i = coads();
    let arr = read(&i, &[slice(0, 2)]);
    assert_eq!(arr, &sst().1[..40]);
}

#[test]
fn coads_index_slice() {
    let i = coads();
    let arr = read(&i, &[slice(0, 1), slice(2, 3), slice(1, 2)]);
    assert_eq!(arr, [2.75]);
}

#[test]
fn serialized_index_roundtrip() {
    let i = coads();
    assert!(i.source_size > 0);
    assert!(i.source_mtime > 0);

    let s = i.serialized(vec![1, 2, 3]);
    assert_eq!(s.source_path.as_deref(), Some(COADS));
    assert_eq!(s.index, [1, 2, 3]);
    let (size, mtime) = (i.source_size, i.source_mtime);
    let li = Index::load_index(&s, i.idx);

    assert_eq!(li.source_size, size);
    assert_eq!(li.source_mtime, mtime);
    assert_eq!(li.source_path().as_deref(), Some(COADS));

    let arr = read(&li, &[slice(0, 2)]);
    assert_eq!(arr.len(), 40);
}

#[test]
fn fill_value() {
    let i = coads();
    let mut arr = read(&i, &[slice(0, 1), slice(2, 3), slice(1, 4)]);
    assert_eq!(arr, [2.75, 3.0, -1.0e+34]);

    // apply fill value
    apply_fill_value(-1.0e+34, f32::NAN, &mut arr);
    assert_eq!(&arr[..2], [2.75, 3.0]);
    assert!(arr[2].is_nan());
}

#[test]
fn test_groups() {
    let c = group("/a/b/c", vec![found("/a/b/c/x", 1, double())], vec![]);
    let b = group("/a/b", vec![found("/a/b/x", 1, double())], vec![c]);
    let a = group("/a", vec![], vec![b]);
    let root = group("/", vec![found("/x", 1, double())], vec![a]);
    let path = PathBuf::from("test_index_groups2.nc");
    let idx = Index::new(hidefix::idx::Index::index_file(root, Some(path)).unwrap(), (0, 0));

    assert_eq!(idx.datasets(None), ["x"]);
    assert_eq!(idx.datasets(Some("a/b")), ["x"]);
    assert_eq!(idx.datasets(Some("a/b/c")), ["x"]);

    assert!(idx.dataset("x", None).is_some());
    assert!(idx.dataset("x", Some("a")).is_none());
    assert!(idx.dataset("x", Some("a/b")).is_some());

    assert_eq!(idx.datasets(Some("a")), Vec::<String>::new());
    assert_eq!(idx.datasets(Some("nothing")), Vec::<String>::new());
    assert!(idx.dataset("x", Some("nothing")).is_none());
    let title = |g: Option<&str>| match idx.attributes(g).unwrap().get("title") {
        Some(AttributeValue::Str(t)) => t.clone(),
        _ => panic!(),
    };
    assert_eq!(title(None), "/");
    assert_eq!(title(Some("/a/b/")), "/a/b");
}

#[test]
fn what_is_not_found_is_named() {
    let i = coads();
    let g = KeyError::Group("g".to_string());
    assert_eq!(i.group_index(Some("g")).err(), Some(g.clone()));
    assert_eq!(i.attributes(Some("g")).err(), Some(g.clone()));
    assert_eq!(i.dataset_attributes("SST", Some("g")).err(), Some(g.clone()));
    assert_eq!(i.dataset_dims("SST", Some("g")).err(), Some(g.clone()));
    assert_eq!(g.message(), "group not found: g");
    let d = KeyError::Dataset("AIRT".to_string());
    assert_eq!(i.dataset_attributes("AIRT", None).err(), Some(d.clone()));
    assert_eq!(i.dataset_dims("AIRT", None).err(), Some(d.clone()));
    assert_eq!(d.message(), "dataset not found: AIRT");
    assert_eq!(
        i.dataset_dims("SST", None).unwrap(),
        ["phony_dim_0", "phony_dim_1", "phony_dim_2"]
    );
    assert!(i.dataset_attributes("SST", None).unwrap().contains_key("scale_factor"));
}

#[test]
fn things_in_words() {
    let i = coads();
    assert_eq!(
        i.repr(),
        "Index(file: Some(\"tests/data/coads_climatology.nc4\"), datasets: 1"
    );
    let at = |path: Option<&str>| {
        let root = group("/", vec![], vec![]);
        let idx = hidefix::idx::Index::index_file(root, path.map(PathBuf::from)).unwrap();
        Index::new(idx, (0, 0))
    };
    assert_eq!(at(None).repr(), "Index(file: None, datasets: 0");
    assert_eq!(at(None).source_path(), None);
    let quoted = at(Some("a \"file\".nc"));
    assert_eq!(quoted.repr(), r#"Index(file: Some("a \"file\".nc"), datasets: 0"#);
    assert_eq!(quoted.source_path().unwrap(), "a \"file\".nc");
    let ds = i.dataset("/SST", None).unwrap();
    assert_eq!(ds.repr(), "Dataset (\"/SST\")");
    assert_eq!(ds.dtype(), "<f4");
    assert_eq!(ds.len(), 60);
    assert_eq!(ds.checked_len(), Some(60));
    assert_eq!(ds.shape(), [3, 4, 5]);
    assert_eq!(ds.chunk_shape(), [3, 4, 5]);
    assert!(ds.s3().is_none());
}

#[test]
fn datasets_with_too_many_elements_have_no_length() {
    let ds = DatasetD::D2(Dataset {
        dtype: Datatype::UInt(1),
        dsize: 1,
        order: Order::LE,
        shape: [1 << 32, 1 << 32],
        chunk_shape: [1, 1],
        chunks: ChunkTable::Owned(vec![]),
        gzip: None,
        shuffle: false,
    });
    let root = group("/", vec![found("/huge", 2, ds)], vec![]);
    let idx = hidefix::idx::Index::index_file(root, Some(PathBuf::from(COADS))).unwrap();
    assert_eq!(idx.file_path(), Some(&PathBuf::from(COADS)));
    let i = Index::new(idx, (0, 0));
    assert_eq!(i.dataset("huge", None).unwrap().checked_len(), None);
}

#[test]
fn dtype_strings() {
    assert_eq!(dtype_string(Order::BE, Datatype::UInt(8)), ">u8");
    assert_eq!(dtype_string(Order::LE, Datatype::Int(2)), "<i2");
    assert_eq!(dtype_string(Order::Unknown, Datatype::Custom(12)), "=V12");
}

#[test]
fn element_types() {
    for (t, e) in [
        (Datatype::UInt(1), Some(ElementType::U8)),
        (Datatype::UInt(2), Some(ElementType::U16)),
        (Datatype::UInt(4), Some(ElementType::U32)),
        (Datatype::UInt(8), Some(ElementType::U64)),
        (Datatype::Int(1), Some(ElementType::I8)),
        (Datatype::Int(2), Some(ElementType::I16)),
        (Datatype::Int(4), Some(ElementType::I32)),
        (Datatype::Int(8), Some(ElementType::I64)),
        (Datatype::Float(4), Some(ElementType::F32)),
        (Datatype::Float(8), Some(ElementType::F64)),
        (Datatype::Float(2), None),
        (Datatype::Int(3), None),
        (Datatype::Custom(8), None),
    ] {
        assert_eq!(element_type(t), e);
    }
}

#[test]
fn slices_are_extended_by_the_full_dimension() {
    let r: Vec<_> =
        select(&[slice(1, 3)], &[4, 5, 6]).iter().map(|e| (e.start, e.count)).collect();
    assert_eq!(r, [(1, 2), (0, 5), (0, 6)]);
    // slices beyond the rank are dropped, also where they have strides.
    let stride = SliceIndices { start: 0, stop: 4, step: 2 };
    assert!(strides_supported(&[slice(0, 1), stride], 1));
    assert!(!strides_supported(&[stride], 1));
    assert!(strides_supported(&[], 0));
    let r = select(&[slice(0, 1), stride], &[4]);
    assert_eq!((r.len(), r[0].start, r[0].count), (1, 0, 1));
    assert_eq!(SliceIndices::of_index(10), slice(10, 11));
    assert_eq!(SliceIndices::of_index(-1), slice(-1, 0));
    // an empty range, and one that ends before it starts.
    let r = select(&[slice(2, 2), slice(3, 1)], &[4, 4]);
    assert_eq!((r[0].count, r[1].count), (0, u64::MAX - 1));
}

#[test]
fn dimensions_of_one_element_are_dropped() {
    assert_eq!(array_dims(&[1, 4, 1, 5]), [4, 5]);
    assert_eq!(array_dims(&[1, 1]), [1]);
    assert_eq!(array_dims(&[]), [1]);
    assert_eq!(array_dims(&[3]), [3]);
}

#[test]
fn fill_values_of_floats() {
    let mut arr = [0.0, -0.0, 1.5, f64::NAN];
    apply_fill_value(0.0, 9.0, &mut arr);
    assert_eq!(arr[..3], [9.0, 9.0, 1.5]);
    assert!(arr[3].is_nan());
    // nothing is equal to NaN.
    assert!(filled(f64::NAN, f64::NAN, 1.0).is_nan());
}

#[test]
fn fill_values_of_integers() {
    let mut arr = [1i16, -9, 3, -9];
    apply_fill_value(-9, 0, &mut arr);
    assert_eq!(arr, [1, 0, 3, 0]);
    assert_eq!(filled(5u8, 5, 6), 6);
    assert_eq!(filled(4u8, 5, 6), 4);
}

#[test]
fn attributes_keep_their_width() {
    assert_eq!(attribute_to_py(&A::Str("s".into())), PyValue::Str("s".into()));
    assert_eq!(
        attribute_to_py(&A::Strs(vec!["s".into(), "t".into()])),
        PyValue::Strs(vec!["s".into(), "t".into()])
    );
    assert_eq!(attribute_to_py(&A::Int(-5, 1)), PyValue::I8(vec![-5], true));
    assert_eq!(attribute_to_py(&A::Ints(vec![-5, 300], 2)), PyValue::I16(vec![-5, 300], false));
    assert_eq!(attribute_to_py(&A::Int(-70000, 4)), PyValue::I32(vec![-70000], true));
    assert_eq!(attribute_to_py(&A::Int(i64::MIN, 8)), PyValue::I64(vec![i64::MIN], true));
    assert_eq!(attribute_to_py(&A::Int(3, 16)), PyValue::I64(vec![3], true));
    assert_eq!(attribute_to_py(&A::Uint(255, 1)), PyValue::U8(vec![255], true));
    assert_eq!(attribute_to_py(&A::Uints(vec![1, 2], 2)), PyValue::U16(vec![1, 2], false));
    assert_eq!(attribute_to_py(&A::Uint(1 << 31, 4)), PyValue::U32(vec![1 << 31], true));
    assert_eq!(attribute_to_py(&A::Uint(u64::MAX, 8)), PyValue::U64(vec![u64::MAX], true));
    // what does not fit is cut off.
    assert_eq!(attribute_to_py(&A::Int(257, 1)), PyValue::I8(vec![1], true));
    assert_eq!(attribute_to_py(&A::Uint(65538, 2)), PyValue::U16(vec![2], true));
    let bits = 0.01f64.to_bits();
    assert_eq!(attribute_to_py(&A::Float(bits, 4)), PyValue::F32(vec![bits], true));
    assert_eq!(attribute_to_py(&A::Floats(vec![bits], 8)), PyValue::F64(vec![bits], false));
}

#[test]
fn attributes_come_in_the_order_of_the_names() {
    let attr = |n: &str, v| FoundAttribute { name: n.to_string(), value: Some(v) };
    let attrs = read_attributes(vec![
        attr("units", AttributeValue::Str("m".into())),
        attr("add_offset", AttributeValue::Int(7, 2)),
    ]);
    assert_eq!(
        attributes_to_py(&attrs),
        [
            ("add_offset".to_string(), PyValue::I16(vec![7], true)),
            ("units".to_string(), PyValue::Str("m".into())),
        ]
    );
}

fn some(s: &str) -> Option<String> {
    Some(s.to_string())
}

#[test]
fn credentials_come_from_one_source() {
    let none = None;
    let key = some("k");
    assert_eq!(credential_source(true, &none, &none, &none), Ok(CredentialSource::Anonymous));
    assert_eq!(credential_source(false, &key, &key, &none), Ok(CredentialSource::Explicit));
    assert_eq!(credential_source(false, &none, &key, &none), Ok(CredentialSource::Explicit));
    assert_eq!(credential_source(false, &none, &none, &key), Ok(CredentialSource::Ambient));
    assert_eq!(credential_source(false, &none, &none, &none), Ok(CredentialSource::Ambient));
    for (a, s, t) in [(&key, &none, &none), (&none, &key, &none), (&none, &none, &key)] {
        let e = credential_source(true, a, s, t).unwrap_err();
        assert_eq!(e, S3Error::Conflict);
        assert_eq!(
            e.message(),
            "anonymous=True is mutually exclusive with access_key/secret_key/session_token: \
             pass anonymous=True for unsigned requests, or the explicit credentials, not both"
        );
    }
}

#[test]
fn regions_are_looked_up() {
    let known = S3Region::resolve(None, some("eu-west-1")).unwrap();
    assert_eq!(known, S3Region::Known("eu-west-1".to_string()));
    let custom = |r: &str, e: &str| S3Region::Custom {
        region: r.to_string(),
        endpoint: e.to_string(),
    };
    assert_eq!(S3Region::resolve(None, some("moon-1")), Ok(custom("moon-1", "moon-1")));
    let minio = "http://localhost:9000";
    assert_eq!(S3Region::resolve(some(minio), None), Ok(custom("us-east-1", minio)));
    assert_eq!(
        S3Region::resolve(some(minio), some("eu-west-1")),
        Ok(custom("eu-west-1", minio))
    );
    assert_eq!(S3Region::named("n".to_string(), None), S3Region::Known("n".to_string()));
    assert_eq!(
        S3Region::named("n".to_string(), Some(("r".to_string(), "e".to_string()))),
        custom("r", "e")
    );
    let e = S3Region::resolve(None, None).unwrap_err();
    assert_eq!(e, S3Error::NoRegion);
    assert_eq!(
        e.message(),
        "an S3 region (or a custom endpoint) is required: pass region= or endpoint=, \
         or set AWS_REGION"
    );
}

fn source(
    region: Option<&str>,
    endpoint: Option<&str>,
    path_style: Option<bool>,
    env: (Option<&str>, Option<&str>),
) -> Result<S3Source, S3Error> {
    S3Source::new(
        "bucket",
        "path/file.nc",
        region.map(String::from),
        endpoint.map(String::from),
        path_style,
        env.0.map(String::from),
        env.1.map(String::from),
        Ok(CredentialSource::Anonymous),
    )
}

#[test]
fn objects_on_s3() {
    let s = source(Some("eu-west-1"), None, None, (Some("us-west-1"), None)).unwrap();
    assert_eq!(s.bucket(), "bucket");
    assert_eq!(s.key(), "path/file.nc");
    assert_eq!(s.region(), &S3Region::Known("eu-west-1".to_string()));
    assert_eq!(s.credentials(), CredentialSource::Anonymous);
    assert_eq!(s.repr(), "S3Source(bucket: bucket, key: path/file.nc)");

    // the environment gives the region where none is passed.
    let r = |s: S3Source| s.region().clone();
    let known = |n: &str| S3Region::Known(n.to_string());
    let env = (Some("us-west-1"), Some("us-west-2"));
    assert_eq!(r(source(None, None, None, env).unwrap()), known("us-west-1"));
    assert_eq!(r(source(None, None, None, (None, env.1)).unwrap()), known("us-west-2"));
    assert_eq!(source(None, None, None, (None, None)).err(), Some(S3Error::NoRegion));

    // a custom endpoint implies path-style addressing unless overridden.
    let minio = Some("http://localhost:9000");
    assert!(!s.path_style());
    assert!(source(None, minio, None, (None, None)).unwrap().path_style());
    assert!(!source(None, minio, Some(false), (None, None)).unwrap().path_style());
    assert!(source(Some("eu-west-1"), None, Some(true), (None, None)).unwrap().path_style());
    assert!(source(Some("moon-1"), None, None, (None, None)).unwrap().path_style());
}

#[test]
fn sources_are_formatted_without_secrets() {
    let s = source(Some("eu-west-1"), None, Some(true), (None, None)).unwrap();
    assert_eq!(
        s.debug(),
        r#"S3Source { bucket: "bucket", key: "path/file.nc", region: EuWest1 }"#
    );
    let s = S3Source::in_region(
        "b",
        "a \"quoted\" key",
        S3Region::Custom { region: "r".to_string(), endpoint: "http://e".to_string() },
        CredentialSource::Explicit,
        None,
    );
    assert_eq!(
        s.debug(),
        r#"S3Source { bucket: "b", key: "a \"quoted\" key", region: Custom { region: "r", endpoint: "http://e" } }"#
    );
}

#[test]
fn missing_credentials_are_reported_first() {
    let e = S3Source::new(
        "b",
        "k",
        None,
        None,
        None,
        None,
        None,
        Err(S3Error::Credentials("none".to_string())),
    )
    .err()
    .unwrap();
    assert_eq!(e.message(), "S3 credentials: none");
    assert_eq!(S3Error::Region("r".to_string()).message(), "S3 region: r");
    assert_eq!(S3Error::Bucket("b".to_string()).message(), "S3 bucket: b");
}

#[test]
fn datasets_can_be_read_from_s3() {
    let i = coads();
    let ds = i.dataset("SST", None).unwrap();
    let s = source(Some("eu-west-1"), None, None, (None, None)).unwrap();
    let remote = ds.with_s3(s.clone());
    assert!(remote.s3() == Some(&s));
    assert_eq!(remote.repr(), ds.repr());
    assert_eq!(remote.shape(), ds.shape());
    assert!(ds.s3().is_none());
}

#[test]
fn fingerprints_are_saved() {
    let s = SerializedIndex {
        source_path: None,
        source_size: 5,
        source_mtime: -6,
        index: vec![],
    };
    let li = Index::load_index(&s, coads().idx);
    assert_eq!((li.source_size, li.source_mtime), (5, -6));
}

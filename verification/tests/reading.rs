use flate2::write::ZlibEncoder;
use flate2::Compression;
use hidefix::extent::{Extent, ExtentError, Extents};
use hidefix::filters::byteorder::to_native;
use hidefix::filters::shuffle::unshuffle_sized;
use hidefix::idx::{
    Chunk, ChunkTable, Dataset, DatasetD, Datatype, GroupIndex, Index, Order,
};
use hidefix::names::NameMap;
use hidefix::reader::chunk::{decode_chunk, read_chunk, read_chunk_to, unshuffle_chunk};
use hidefix::reader::direct::Direct;
use hidefix::reader::par::ParSourceReader;
use hidefix::reader::plan::{chunk_runs, ReadPlan};
use hidefix::reader::ReadError;
use std::io::Write;
use std::ops::Range;
use std::path::{Path, PathBuf};

/// Shuffles elements of `sz` bytes: all first bytes, then all second bytes, and so on.
fn shuffle(data: &[u8], sz: usize) -> Vec<u8> {
    let n = data.len() / sz;
    let mut out = Vec::with_capacity(data.len());
    for j in 0..sz {
        for i in 0..n {
            out.push(data[i * sz + j]);
        }
    }
    out
}

fn compress(data: &[u8]) -> Vec<u8> {
    let mut e = ZlibEncoder::new(Vec::new(), Compression::default());
    e.write_all(data).unwrap();
    e.finish().unwrap()
}

/// A file of 2-dimensional float data, in chunks that are shuffled and compressed if asked for,
/// the dataset in it, and its values.
fn file_2d(
    shape: [u64; 2],
    chunk: [u64; 2],
    filtered: bool,
) -> (Vec<u8>, Dataset<'static, 2>, Vec<f32>) {
    let value = |i: u64, j: u64| (i * 1000 + j) as f32 * 0.5;
    let mut bytes = b"\x89HDF\r\n\x1a\n".to_vec();
    let mut chunks = Vec::new();
    for ci in 0..shape[0].div_ceil(chunk[0]) {
        for cj in 0..shape[1].div_ceil(chunk[1]) {
            let mut data = Vec::new();
            for i in 0..chunk[0] {
                for j in 0..chunk[1] {
                    let (i, j) = (ci * chunk[0] + i, cj * chunk[1] + j);
                    data.extend_from_slice(&value(i, j).to_le_bytes());
                }
            }
            if filtered {
                data = compress(&shuffle(&data, 4));
            }
            chunks.push(Chunk {
                addr: bytes.len() as u64,
                size: data.len() as u64,
                offset: [ci * chunk[0], cj * chunk[1]],
            });
            bytes.extend_from_slice(&data);
        }
    }
    let mut values = Vec::new();
    for i in 0..shape[0] {
        for j in 0..shape[1] {
            values.push(value(i, j));
        }
    }
    let ds = Dataset {
        dtype: Datatype::Float(4),
        dsize: 4,
        order: Order::LE,
        shape,
        chunk_shape: chunk,
        chunks: ChunkTable::Owned(chunks),
        gzip: if filtered { Some(6) } else { None },
        shuffle: filtered,
    };
    assert!(ds.is_valid());
    (bytes, ds, values)
}

/// A dataset of `shape` (time, latitude, longitude), as a file of one chunk.
fn file_sst() -> (Vec<u8>, Dataset<'static, 3>, Vec<f32>) {
    let shape = [12u64, 9, 18];
    let values: Vec<f32> = (0..12 * 9 * 18).map(|i| i as f32 - 100.25).collect();
    let mut bytes = vec![0u8; 64];
    let data: Vec<u8> = values.iter().flat_map(|v| v.to_le_bytes()).collect();
    let chunks = vec![Chunk { addr: 64, size: data.len() as u64, offset: [0, 0, 0] }];
    bytes.extend_from_slice(&data);
    let ds = Dataset {
        dtype: Datatype::Float(4),
        dsize: 4,
        order: Order::LE,
        shape,
        chunk_shape: shape,
        chunks: ChunkTable::Owned(chunks),
        gzip: None,
        shuffle: false,
    };
    assert!(ds.is_valid());
    (bytes, ds, values)
}

fn floats(bytes: &[u8]) -> Vec<f32> {
    bytes.chunks_exact(4).map(|b| f32::from_le_bytes(b.try_into().unwrap())).collect()
}

fn ranges(r: &[Range<u64>]) -> Extents {
    Extents::Ranges(r.iter().map(|r| Extent { start: r.start, count: r.end - r.start }).collect())
}

#[test]
fn direct_read_coads_sst() {
    let (bytes, ds, hvs) = file_sst();
    let r = Direct::with_dataset(&ds, PathBuf::from("tests/data/coads_climatology.nc4"));
    assert_eq!(r.path().as_path(), Path::new("tests/data/coads_climatology.nc4"));
    assert_eq!(r.order(), Order::LE);
    assert_eq!(r.dsize(), 4);
    assert_eq!(r.shape(), [12, 9, 18]);

    let mut dst = vec![0; hvs.len() * 4];
    assert_eq!(r.read_to(&bytes, &Extents::All, &mut dst), Ok(hvs.len() * 4));
    assert_eq!(floats(&dst), hvs);

    let mut dst = vec![0; hvs.len() * 4];
    assert_eq!(r.read_to_par(&bytes, &Extents::All, &mut dst), Ok(hvs.len() * 4));
    assert_eq!(floats(&dst), hvs);
}

#[test]
fn par_read_coads_sst() {
    let (bytes, ds, hvs) = file_sst();
    let i = Index::from_parts(
        None,
        GroupIndex::from_parts(
            None,
            {
                let mut m = NameMap::new();
                m.insert("SST".to_string(), DatasetD::D3(ds));
                m
            },
            NameMap::new(),
            NameMap::new(),
            NameMap::new(),
        ),
    );
    let DatasetD::D3(ds) = i.dataset("SST").unwrap() else { panic!() };
    let r = ParSourceReader::with_dataset(ds, &bytes);
    let mut dst = vec![0; hvs.len() * 4];
    r.read_to_par(&Extents::All, &mut dst).unwrap();
    assert_eq!(floats(&dst), hvs);
}

#[test]
fn read_coads_sst_in_memory() {
    let (bytes, ds, hvs) = file_sst();
    let r = ParSourceReader::with_dataset(&ds, &bytes[..]);
    assert_eq!(r.order(), Order::LE);
    assert_eq!(r.dsize(), 4);
    assert_eq!(r.shape(), [12, 9, 18]);
    let mut dst = vec![0; hvs.len() * 4];
    r.read_to_par(&Extents::All, &mut dst).unwrap();
    assert_eq!(floats(&dst), hvs);
}

#[test]
fn read_chunked_shufzip_2d_in_memory() {
    let (bytes, ds, hvs) = file_2d([100, 100], [50, 50], true);
    let r = ParSourceReader::with_dataset(&ds, &bytes[..]);
    let mut dst = vec![0; hvs.len() * 4];
    assert_eq!(r.read_to_par(&Extents::All, &mut dst), Ok(40000));
    assert_eq!(floats(&dst), hvs);
}

#[test]
fn read_chunked_shufzip_2d_in_memory_subset() {
    let (bytes, ds, hvs) = file_2d([100, 100], [50, 50], true);

    // Chunks are 50 x 50 in a 100 x 100 dataset: the extents cut partially into all
    // four chunks.
    let extents = ranges(&[25..75, 30..80]);

    let r = ParSourceReader::with_dataset(&ds, &bytes[..]);
    let mut vs = vec![0; 50 * 50 * 4];
    assert_eq!(r.read_to_par(&extents, &mut vs), Ok(10000));

    let mut cvs = vec![0; 50 * 50 * 4];
    assert_eq!(r.read_to(&extents, &mut cvs), Ok(10000));
    assert_eq!(vs, cvs);

    let expected: Vec<f32> = (25..75)
        .flat_map(|i| (30..80).map(move |j| (i, j)))
        .map(|(i, j)| hvs[i * 100 + j])
        .collect();
    assert_eq!(floats(&vs), expected);
}

#[test]
fn partial_chunks_at_the_edges() {
    for filtered in [false, true] {
        let (bytes, ds, hvs) = file_2d([7, 10], [3, 4], filtered);
        let r = ParSourceReader::with_dataset(&ds, &bytes);
        for (a, b, c, d) in [(0, 7, 0, 10), (2, 7, 3, 9), (6, 7, 9, 10), (3, 3, 0, 10), (1, 2, 5, 5)]
        {
            let n = (b - a) * (d - c);
            let extents = ranges(&[a as u64..b as u64, c as u64..d as u64]);
            let expected: Vec<f32> = (a..b)
                .flat_map(|i| (c..d).map(move |j| (i, j)))
                .map(|(i, j): (usize, usize)| hvs[i * 10 + j])
                .collect();
            let mut seq = vec![0xee; n * 4 + 3];
            let mut par = vec![0xee; n * 4 + 3];
            assert_eq!(r.read_to(&extents, &mut seq), Ok(n * 4));
            assert_eq!(r.read_to_par(&extents, &mut par), Ok(n * 4));
            assert_eq!(floats(&seq[..n * 4]), expected);
            assert_eq!(seq, par);
            assert_eq!(&seq[n * 4..], [0xee; 3]);
        }
    }
}

#[test]
fn dimensions_without_a_range_are_read_whole() {
    let (bytes, ds, hvs) = file_2d([7, 10], [3, 4], false);
    let r = ParSourceReader::with_dataset(&ds, &bytes);
    let mut dst = vec![0; 2 * 10 * 4];
    assert_eq!(r.read_to(&ranges(&[2..4]), &mut dst), Ok(80));
    assert_eq!(floats(&dst), &hvs[20..40]);
}

#[test]
fn extents_that_do_not_fit_are_refused() {
    let (bytes, ds, _) = file_2d([7, 10], [3, 4], false);
    let r = ParSourceReader::with_dataset(&ds, &bytes);
    let mut dst = vec![9; 1000];
    for (extents, e) in [
        (ranges(&[0..1, 0..1, 0..1]), ExtentError::TooManyDimensions),
        (ranges(&[0..8, 0..10]), ExtentError::OutOfBounds(0)),
        (ranges(&[0..7, 5..11]), ExtentError::OutOfBounds(1)),
        (ranges(&[0..8, 0..11]), ExtentError::OutOfBounds(0)),
        (
            Extents::Ranges(vec![Extent { start: u64::MAX, count: 2 }]),
            ExtentError::OutOfBounds(0),
        ),
    ] {
        assert_eq!(r.read_to(&extents, &mut dst), Err(ReadError::Extents(e)));
        assert_eq!(r.read_to_par(&extents, &mut dst), Err(ReadError::Extents(e)));
    }
    assert_eq!(dst, vec![9; 1000]);
    assert_eq!(
        ReadError::Extents(ExtentError::OutOfBounds(12)).message(),
        "extents are out of bounds along dimension 12"
    );
    assert_eq!(
        ExtentError::TooManyDimensions.message(),
        "extents have more dimensions than the dataset"
    );
}

#[test]
fn short_destinations_are_refused() {
    let (bytes, ds, _) = file_2d([7, 10], [3, 4], false);
    let r = ParSourceReader::with_dataset(&ds, &bytes);
    let mut dst = vec![9; 279];
    let e = r.read_to(&Extents::All, &mut dst).unwrap_err();
    assert_eq!(e, ReadError::InsufficientCapacity);
    assert_eq!(e.message(), "destination buffer has insufficient capacity");
    assert_eq!(r.read_to_par(&Extents::All, &mut dst), Err(ReadError::InsufficientCapacity));
    assert_eq!(dst, vec![9; 279]);
}

#[test]
fn chunks_beyond_the_end_are_refused() {
    let (bytes, ds, _) = file_2d([7, 10], [3, 4], false);
    let r = ParSourceReader::with_dataset(&ds, &bytes[..bytes.len() - 1]);
    let mut dst = vec![0; 280];
    assert_eq!(r.read_to(&Extents::All, &mut dst), Err(ReadError::UnexpectedEof));
    assert_eq!(r.read_to_par(&Extents::All, &mut dst), Err(ReadError::UnexpectedEof));
    // the last chunk is not needed here.
    assert_eq!(r.read_to(&ranges(&[0..3]), &mut dst), Ok(120));
    assert_eq!(ReadError::UnexpectedEof.message(), "failed to fill whole buffer");
}

#[test]
fn the_first_chunk_that_fails_says_why() {
    let (mut bytes, ds, _) = file_2d([100, 100], [50, 50], true);
    // spoil the second chunk and cut the last.
    let spoilt = ds.chunks.as_slice()[1].addr as usize;
    bytes[spoilt] = 0xff;
    bytes.pop();
    let r = ParSourceReader::with_dataset(&ds, &bytes);
    let mut dst = vec![0; 40000];
    assert_eq!(r.read_to(&Extents::All, &mut dst), Err(ReadError::Decompress));
    assert_eq!(r.read_to_par(&Extents::All, &mut dst), Err(ReadError::Decompress));
    assert_eq!(r.read_to(&ranges(&[50..100]), &mut dst), Err(ReadError::UnexpectedEof));
    assert_eq!(r.read_to_par(&ranges(&[0..50, 0..50]), &mut dst), Ok(10000));
    assert_eq!(ReadError::Decompress.message(), "could not decompress chunk");
}

#[test]
fn runs_can_be_copied_in_any_order() {
    let (bytes, ds, hvs) = file_2d([100, 100], [50, 50], true);
    let plan = ReadPlan::new(&ds, &Extents::All, 40000).unwrap();
    assert_eq!(plan.bytes(), 40000);
    assert_eq!(plan.len(), 4);
    let mut dst = vec![0; 40000];
    for r in [2, 0, 3, 1] {
        let c = plan.chunk(r);
        let stored = bytes[c.addr as usize..(c.addr + c.size) as usize].to_vec();
        let chunk = plan.decode(stored).unwrap();
        plan.copy_run(r, &chunk, &mut dst);
    }
    assert_eq!(floats(&dst), hvs);
    assert_eq!(
        ReadPlan::new(&ds, &Extents::All, 39999).err(),
        Some(ReadError::InsufficientCapacity)
    );
}

#[test]
fn slices_of_a_small_dataset() {
    let (_, ds, _) = file_2d([2, 6], [2, 4], false);
    let sel = ranges(&[0..2, 2..5]).resolve(&[2, 6]).unwrap();
    assert_eq!(sel.start, [0, 2]);
    assert_eq!(sel.counts, [2, 3]);
    let slices = ds.group_chunk_slices(&sel);
    let plain: Vec<_> =
        slices.iter().map(|s| (s.chunk.offset, s.current, s.start, s.end)).collect();
    assert_eq!(
        plain,
        [
            ([0, 0], 0, 2, 4),
            ([0, 0], 3, 6, 8),
            ([0, 4], 2, 0, 1),
            ([0, 4], 5, 4, 5),
        ]
    );
    assert_eq!(chunk_runs(&slices), [(0, 2), (2, 4)]);
}

#[test]
fn chunks_at_one_address_are_read_once() {
    // two chunks of equal elements, stored in one place.
    let bytes = vec![1, 2, 3, 4];
    let chunk = |i| Chunk { addr: 0, size: 4, offset: [i] };
    let table = [chunk(0), chunk(4)];
    let ds = Dataset {
        dtype: Datatype::UInt(1),
        dsize: 1,
        order: Order::Unknown,
        shape: [8],
        chunk_shape: [4],
        chunks: ChunkTable::Borrowed(&table),
        gzip: None,
        shuffle: false,
    };
    assert!(ds.is_valid());
    let plan = ReadPlan::new(&ds, &Extents::All, 8).unwrap();
    assert_eq!(plan.len(), 1);
    assert_eq!(plan.as_slices().len(), 2);
    let r = ParSourceReader::with_dataset(&ds, &bytes);
    let mut dst = [0; 8];
    assert_eq!(r.read_to(&Extents::All, &mut dst), Ok(8));
    assert_eq!(dst, [1, 2, 3, 4, 1, 2, 3, 4]);
    let mut dst = [0; 8];
    assert_eq!(r.read_to_par(&Extents::All, &mut dst), Ok(8));
    assert_eq!(dst, [1, 2, 3, 4, 1, 2, 3, 4]);
}

#[test]
fn readers_agree_on_chunks_at_one_address() {
    // the second chunk is longer than the file, and is not fetched after the first.
    let bytes = vec![1, 2, 3, 4];
    let chunk = |i, size| Chunk { addr: 0, size, offset: [i] };
    let table = [chunk(0, 4), chunk(4, 100)];
    let ds = Dataset {
        dtype: Datatype::UInt(1),
        dsize: 1,
        order: Order::Unknown,
        shape: [8],
        chunk_shape: [4],
        chunks: ChunkTable::Borrowed(&table),
        gzip: None,
        shuffle: false,
    };
    assert!(ds.is_valid());
    let r = ParSourceReader::with_dataset(&ds, &bytes);
    for (extents, expected) in [
        (Extents::All, Some(vec![1, 2, 3, 4, 1, 2, 3, 4])),
        (ranges(&[3..6]), Some(vec![4, 1, 2, 0, 0, 0, 0, 0])),
        (ranges(&[4..8]), None),
    ] {
        let (mut a, mut b) = (vec![0; 8], vec![0; 8]);
        let read = r.read_to(&extents, &mut a);
        assert_eq!(read, r.read_to_par(&extents, &mut b));
        assert_eq!(a, b);
        match expected {
            Some(v) => assert_eq!((read.is_ok(), a), (true, v)),
            None => assert!(read.is_err()),
        }
    }
}

#[test]
fn scalars_are_read() {
    let ds = Dataset {
        dtype: Datatype::Int(2),
        dsize: 2,
        order: Order::BE,
        shape: [],
        chunk_shape: [],
        chunks: ChunkTable::Owned(vec![Chunk { addr: 1, size: 2, offset: [] }]),
        gzip: None,
        shuffle: false,
    };
    assert!(ds.is_valid());
    assert_eq!(ds.size(), 1);
    let d = DatasetD::D0(ds);
    let mut dst = [0; 2];
    assert_eq!(d.read_to(&[9, 1, 2], &Extents::All, &mut dst), Ok(2));
    assert_eq!(dst, [1, 2]);
    assert_eq!(d.read_to_par(&[9, 1, 2], &Extents::All, &mut dst), Ok(2));
}

#[test]
fn datasets_of_any_rank() {
    let (bytes, ds, hvs) = file_sst();
    let d = DatasetD::D3(ds);
    assert!(d.is_valid());
    assert_eq!(d.shape(), [12, 9, 18]);
    assert_eq!(d.chunk_shape(), [12, 9, 18]);
    assert_eq!(d.size(), 12 * 9 * 18);
    assert_eq!(d.dtype(), Datatype::Float(4));
    assert_eq!(d.order(), Order::LE);
    assert_eq!(d.dsize(), 4);
    let mut dst = vec![0; hvs.len() * 4];
    assert_eq!(d.read_to_par(&bytes, &Extents::All, &mut dst), Ok(dst.len()));
    assert_eq!(floats(&dst), hvs);
}

#[test]
fn an_owned_table_reads_as_the_borrowed_one() {
    let (bytes, ds, hvs) = file_2d([7, 10], [3, 4], true);
    let owned = {
        let table = ds.chunks.as_slice().to_vec();
        let borrowed = Dataset {
            dtype: ds.dtype,
            dsize: ds.dsize,
            order: ds.order,
            shape: ds.shape,
            chunk_shape: ds.chunk_shape,
            chunks: ChunkTable::Borrowed(&table),
            gzip: ds.gzip,
            shuffle: ds.shuffle,
        };
        assert!(borrowed.is_valid());
        DatasetD::D2(borrowed).into_owned()
    };
    let DatasetD::D2(owned) = owned else { panic!() };
    assert!(matches!(owned.chunks, ChunkTable::Owned(_)));
    let mut dst = vec![0; 280];
    let r = ParSourceReader::with_dataset(&owned, &bytes);
    assert_eq!(r.read_to(&Extents::All, &mut dst), Ok(280));
    assert_eq!(floats(&dst), hvs);
}

#[test]
fn datasets_that_cannot_be_read() {
    let make = |shape: [u64; 1], chunk_shape: [u64; 1], chunks: Vec<Chunk<1>>, gzip| Dataset {
        dtype: Datatype::UInt(2),
        dsize: 2,
        order: Order::LE,
        shape,
        chunk_shape,
        chunks: ChunkTable::Owned(chunks),
        gzip,
        shuffle: false,
    };
    let c = |size, i| Chunk { addr: 0, size, offset: [i] };
    assert!(make([5], [3], vec![c(6, 0), c(6, 3)], None).is_valid());
    assert!(make([0], [3], vec![], None).is_valid());
    // an empty chunk, a chunk too few, one out of place, one out of order, one too small.
    assert!(!make([5], [0], vec![], None).is_valid());
    assert!(!make([5], [3], vec![c(6, 0)], None).is_valid());
    assert!(!make([5], [3], vec![c(6, 0), c(6, 2)], None).is_valid());
    assert!(!make([5], [3], vec![c(6, 3), c(6, 0)], None).is_valid());
    assert!(!make([5], [3], vec![c(6, 0), c(5, 3)], None).is_valid());
    assert!(make([5], [3], vec![c(6, 0), c(5, 3)], Some(1)).is_valid());
    assert!(!make([5], [3], vec![c(6, 0), c(6, 9)], None).is_valid());
    // sizes that overflow.
    assert!(!make([u64::MAX], [u64::MAX], vec![c(6, 0)], Some(1)).is_valid());
}

#[test]
fn chunks_are_read_where_they_are() {
    let fd = vec![0u8, 1, 2, 3, 4, 5];
    let mut dst = vec![0u8; 2];
    read_chunk_to(&fd, 2, &mut dst).unwrap();
    assert_eq!(dst, [2, 3]);

    assert_eq!(read_chunk_to(&fd, 5, &mut dst), Err(ReadError::UnexpectedEof));
    assert_eq!(read_chunk_to(&fd, u64::MAX, &mut dst), Err(ReadError::UnexpectedEof));
    assert_eq!(dst, [2, 3]);
    assert_eq!(read_chunk_to(&fd, 100, &mut []), Ok(()));
}

#[test]
fn unfiltered_chunks_pass_through() {
    let chunk = vec![1u8, 2, 3, 4];
    let values = decode_chunk(chunk.clone(), 4, 4, false, false).unwrap();
    assert_eq!(values, chunk);
    // the decoded size is not looked at where nothing is decompressed.
    for chunk_sz in [0, 3, u64::MAX] {
        assert_eq!(decode_chunk(chunk.clone(), chunk_sz, u64::MAX, false, false).unwrap(), chunk);
        assert_eq!(decode_chunk(chunk.clone(), chunk_sz, 2, false, true).unwrap(), [1, 3, 2, 4]);
        assert_eq!(decode_chunk(chunk.clone(), chunk_sz, 0, false, true).unwrap(), chunk);
        assert_eq!(read_chunk(&chunk, 1, 2, chunk_sz, 4, false, false).unwrap(), [2, 3]);
    }
}

#[test]
fn chunks_are_decoded() {
    let data: Vec<u8> = (0..24).collect();
    let shuffled = shuffle(&data, 4);
    assert_eq!(unshuffle_sized(&shuffled, 4), data);
    assert_eq!(unshuffle_chunk(shuffled.clone(), 4, true), data);
    assert_eq!(unshuffle_chunk(shuffled.clone(), 4, false), shuffled);
    assert_eq!(decode_chunk(shuffled.clone(), 24, 4, false, true).unwrap(), data);
    assert_eq!(decode_chunk(compress(&data), 24, 4, true, false).unwrap(), data);
    assert_eq!(decode_chunk(compress(&shuffled), 24, 4, true, true).unwrap(), data);
    // bytes have nothing to shuffle.
    assert_eq!(decode_chunk(data.clone(), 24, 1, false, true).unwrap(), data);
}

#[test]
fn chunks_that_cannot_be_decompressed() {
    let data: Vec<u8> = (0..24).collect();
    assert_eq!(decode_chunk(data.clone(), 24, 4, true, false), Err(ReadError::Decompress));
    assert_eq!(decode_chunk(compress(&data), 25, 4, true, false), Err(ReadError::Decompress));
    assert_eq!(decode_chunk(vec![], 1, 4, true, false), Err(ReadError::Decompress));
    // what follows is not looked at.
    assert_eq!(decode_chunk(compress(&data), 20, 4, true, false).unwrap(), &data[..20]);
}

#[test]
fn shuffling_keeps_what_fills_no_element() {
    assert_eq!(unshuffle_sized(&[1, 3, 2, 4], 2), [1, 2, 3, 4]);
    assert_eq!(unshuffle_sized(&[1, 4, 2, 5, 3, 6], 3), [1, 2, 3, 4, 5, 6]);
    assert_eq!(unshuffle_sized(&[1, 3, 2, 4, 9], 2), [1, 2, 3, 4, 9]);
}

#[test]
fn chunks_are_read_and_decoded() {
    let data: Vec<u8> = (0..24).collect();
    let stored = compress(&shuffle(&data, 8));
    let mut file = vec![7; 10];
    file.extend_from_slice(&stored);
    let n = stored.len() as u64;
    assert_eq!(read_chunk(&file, 10, n, 24, 8, true, true).unwrap(), data);
    assert_eq!(
        read_chunk(&file, 10, n + 1, 24, 8, true, true),
        Err(ReadError::UnexpectedEof)
    );
    assert_eq!(read_chunk(&file, 9, n, 24, 8, true, true), Err(ReadError::Decompress));
}

#[test]
fn elements_are_brought_into_the_native_byte_order() {
    let bytes = [1u8, 2, 3, 4, 5, 6, 7, 8, 9];
    let swap = |sz, from, to| {
        let mut b = bytes;
        to_native(&mut b, sz, from, to);
        b
    };
    assert_eq!(swap(4, Order::BE, Order::LE), [4, 3, 2, 1, 8, 7, 6, 5, 9]);
    assert_eq!(swap(2, Order::LE, Order::BE), [2, 1, 4, 3, 6, 5, 8, 7, 9]);
    assert_eq!(swap(1, Order::LE, Order::BE), bytes);
    for order in [Order::BE, Order::LE, Order::Unknown] {
        assert_eq!(swap(4, order, order), bytes);
        assert_eq!(swap(4, Order::Unknown, order), bytes);
    }
    // swapping twice changes nothing.
    let mut b = swap(4, Order::BE, Order::LE);
    to_native(&mut b, 4, Order::LE, Order::BE);
    assert_eq!(b, bytes);
}

#[test]
fn a_part_is_what_the_whole_has_there() {
    let (bytes, ds, _) = file_2d([7, 10], [3, 4], true);
    let r = ParSourceReader::with_dataset(&ds, &bytes);
    let mut whole = vec![0; 280];
    r.read_to(&Extents::All, &mut whole).unwrap();
    let mut part = vec![0; 4 * 3 * 4];
    r.read_to(&ranges(&[2..6, 5..8]), &mut part).unwrap();
    for i in 0..4 {
        let at = ((i + 2) * 10 + 5) * 4;
        assert_eq!(part[i * 12..(i + 1) * 12], whole[at..at + 12]);
    }
}

#[test]
fn datasets_larger_than_memory_can_be_read_in_part() {
    let n = 1u64 << 61;
    let table = (0..3).map(|i| Chunk { addr: i, size: 10, offset: [i * n] }).collect();
    let ds = Dataset {
        dtype: Datatype::UInt(2),
        dsize: 2,
        order: Order::LE,
        shape: [3 * n],
        chunk_shape: [n],
        chunks: ChunkTable::Owned(table),
        gzip: Some(1),
        shuffle: false,
    };
    assert!(ds.is_valid());
    let plan = ReadPlan::new(&ds, &ranges(&[n - 1..n + 1]), 4).unwrap();
    assert_eq!(plan.bytes(), 4);
    assert_eq!(plan.len(), 2);
    assert_eq!(plan.chunk(1).addr, 1);
    for extents in [Extents::All, ranges(&[0..2 * n])] {
        assert_eq!(
            ReadPlan::new(&ds, &extents, usize::MAX >> 2).err(),
            Some(ReadError::InsufficientCapacity)
        );
    }
}

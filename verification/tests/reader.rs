use copc::reader::points_inside;
use copc::temporal_query::{query_points_by_time, query_points_in_bounds};
use copc::{
    filter_points_by_time, parse_header, Aabb, Binary64, Chunk, CopcError, CopcStreamingReader, Fields, GpsTime,
    HierarchyCache, TemporalCache, TemporalError, VoxelKey,
};
use las::point::Format;
use las::raw::point::{Flags, ScanAngle};
use laz::record::{LayeredPointRecordCompressor, RecordCompressor};

fn b(v: f64) -> Binary64 {
    Binary64::from_bits(v.to_bits())
}

fn t(v: f64) -> GpsTime {
    GpsTime(b(v))
}

fn key(level: i32, x: i32, y: i32, z: i32) -> VoxelKey {
    VoxelKey { level, x, y, z }
}

fn aabb(min: [f64; 3], max: [f64; 3]) -> Aabb {
    Aabb {
        min: [b(min[0]), b(min[1]), b(min[2])],
        max: [b(max[0]), b(max[1]), b(max[2])],
    }
}

/// The box of a node, where the root covers `[0..100]` on each axis.
fn node_bounds(key: VoxelKey) -> Aabb {
    let side = 100.0 / 2_u32.pow(key.level as u32) as f64;
    let (x, y, z) = (key.x as f64, key.y as f64, key.z as f64);
    aabb(
        [x * side, y * side, z * side],
        [(x + 1.0) * side, (y + 1.0) * side, (z + 1.0) * side],
    )
}

fn laz_vlr() -> laz::LazVlr {
    let items = laz::LazItemRecordBuilder::default_for_point_format_id(6, 0).unwrap();
    laz::LazVlr::from_laz_items(items)
}

/// Records of points on the diagonal, from `first` on, one a second.
fn records(first: i32, n: i32) -> Vec<u8> {
    let format = Format::new(6).unwrap();
    let mut buf = Vec::new();
    for i in first..first + n {
        let rp = las::raw::Point {
            x: i,
            y: i,
            z: i,
            intensity: i as u16,
            flags: Flags::ThreeByte(0x11, 0, 0),
            scan_angle: ScanAngle::Scaled(0),
            user_data: 0,
            point_source_id: 0,
            gps_time: Some(f64::from(i)),
            color: None,
            waveform: None,
            nir: None,
            extra_bytes: Vec::new(),
        };
        rp.write_to(&mut buf, &format).unwrap();
    }
    buf
}

fn compress(records: &[u8]) -> Vec<u8> {
    let mut compressor = LayeredPointRecordCompressor::new(std::io::Cursor::new(Vec::new()));
    compressor.set_fields_from(laz_vlr().items()).unwrap();
    compressor.compress_many(records).unwrap();
    compressor.done().unwrap();
    compressor.into_inner().into_inner()
}

fn entry(k: VoxelKey, offset: u64, byte_size: i32, point_count: i32) -> Vec<u8> {
    let mut buf = Vec::new();
    for v in [k.level, k.x, k.y, k.z] {
        buf.extend_from_slice(&v.to_le_bytes());
    }
    buf.extend_from_slice(&offset.to_le_bytes());
    buf.extend_from_slice(&byte_size.to_le_bytes());
    buf.extend_from_slice(&point_count.to_le_bytes());
    buf
}

/// A file with the root node (no points), a node with points 0 to 39, one with points 60 to 69.
fn open_test_file() -> CopcStreamingReader<Vec<u8>> {
    let mut info = vec![0u8; 160];
    for (i, v) in [50.0f64, 50.0, 50.0, 50.0, 1.0].iter().enumerate() {
        info[8 * i..8 * i + 8].copy_from_slice(&v.to_le_bytes());
    }
    let low = compress(&records(0, 40));
    let high = compress(&records(60, 10));
    let (low_at, high_at, root_at) = (2000u64, 4000u64, 6000u64);
    let mut page = entry(key(0, 0, 0, 0), 0, 0, 0);
    page.extend(entry(key(1, 0, 0, 0), low_at, low.len() as i32, 40));
    page.extend(entry(key(1, 1, 1, 1), high_at, high.len() as i32, 10));
    info[40..48].copy_from_slice(&root_at.to_le_bytes());
    info[48..56].copy_from_slice(&(page.len() as u64).to_le_bytes());

    let mut laz_data = Vec::new();
    laz_vlr().write_to(&mut laz_data).unwrap();
    let mut builder = las::Builder::from((1, 4));
    let mut format = Format::new(6).unwrap();
    format.is_compressed = true;
    builder.point_format = format;
    let unit = las::Transform {
        scale: 1.0,
        offset: 0.0,
    };
    builder.transforms = las::Vector {
        x: unit,
        y: unit,
        z: unit,
    };
    let mut raw = builder.into_header().unwrap().into_raw().unwrap();
    raw.number_of_variable_length_records = 2;
    let mut file = Vec::new();
    raw.write_to(&mut file).unwrap();
    for (user_id, record_id, data) in [("copc", 1, info), ("laszip encoded", 22204, laz_data)] {
        let vlr = las::Vlr {
            user_id: user_id.to_string(),
            record_id,
            description: String::new(),
            data,
        };
        vlr.into_raw(false).unwrap().write_to(&mut file).unwrap();
    }
    assert!(file.len() < low_at as usize);
    file.resize(8000, 0);
    for (at, part) in [(low_at, &low), (high_at, &high), (root_at, &page)] {
        file[at as usize..at as usize + part.len()].copy_from_slice(part);
    }

    let header = parse_header(&file[..1500]).unwrap();
    let mut hierarchy = HierarchyCache::new();
    let range = hierarchy.root_request(header.copc_info()).unwrap();
    hierarchy.load_root(&read(&file, range)).unwrap();
    assert!(hierarchy.root_request(header.copc_info()).is_none());
    CopcStreamingReader::new(file, header, hierarchy)
}

fn read(file: &[u8], range: (u64, u64)) -> Vec<u8> {
    file[range.0 as usize..(range.0 + range.1) as usize].to_vec()
}

fn fetch(reader: &CopcStreamingReader<Vec<u8>>, key: &VoxelKey, fields: Fields) -> Chunk {
    let data = read(reader.source(), reader.chunk_request(key).unwrap());
    reader.decompress_node(key, &data, fields).unwrap()
}

#[test]
fn nodes_are_looked_up() {
    let mut reader = open_test_file();
    assert_eq!(reader.node_count(), 3);
    assert_eq!(reader.entries().len(), 3);
    assert!(!reader.has_pending_pages());
    assert_eq!(reader.get(&key(1, 1, 1, 1)).unwrap().point_count, 10);
    assert!(reader.get(&key(1, 1, 1, 0)).is_none());
    assert_eq!((reader.evlr_offset(), reader.evlr_count()), (0, 0));
    assert_eq!(f64::from_bits(reader.copc_info().halfsize.bits), 50.0);
    assert_eq!(reader.header().copc_info().root_hier_offset, 6000);
    let children: Vec<VoxelKey> = reader
        .children(&VoxelKey::root())
        .iter()
        .map(|e| e.key)
        .collect();
    assert_eq!(children, vec![key(1, 0, 0, 0), key(1, 1, 1, 1)]);
    assert!(reader.children(&key(1, 0, 0, 0)).is_empty());
    reader
        .hierarchy_mut()
        .parse_page(&entry(key(2, 0, 0, 0), 0, 0, 1))
        .unwrap();
    assert_eq!(reader.children(&key(1, 0, 0, 0)).len(), 1);
    assert_eq!(reader.hierarchy().len(), 4);
}

#[test]
fn visible_nodes_have_points_and_meet_the_region() {
    let reader = open_test_file();
    let everything = aabb([0.0, 0.0, 0.0], [100.0, 100.0, 100.0]);
    let mut keys = reader.visible_keys(&everything, None, node_bounds);
    keys.sort_by_key(|k| k.x);
    assert_eq!(keys, vec![key(1, 0, 0, 0), key(1, 1, 1, 1)]);
    assert!(reader
        .visible_keys(&everything, Some(0), node_bounds)
        .is_empty());
    let corner = aabb([0.0, 0.0, 0.0], [10.0, 10.0, 10.0]);
    assert_eq!(
        reader.visible_keys(&corner, Some(1), node_bounds),
        vec![key(1, 0, 0, 0)]
    );
}

#[test]
fn chunks_are_fetched() {
    let reader = open_test_file();
    let chunk = fetch(&reader, &key(1, 1, 1, 1), Fields::all());
    assert_eq!(chunk.point_count(), 10);
    assert_eq!(chunk.intensity().unwrap()[0], 60);
    assert_eq!(chunk.to_points().unwrap()[9].x, 69.0);
}

#[test]
fn chunks_are_fetched_in_one_go() {
    let reader = open_test_file();
    let keys = [key(1, 1, 1, 1), key(1, 0, 0, 0)];
    let ranges = reader.chunk_requests(&keys).unwrap();
    assert_eq!(ranges.len(), 2);
    assert_eq!(ranges[0].0, 4000);
    let blobs: Vec<Vec<u8>> = ranges.iter().map(|r| read(reader.source(), *r)).collect();
    let chunks = reader.decompress_nodes(&keys, &blobs, Fields::z()).unwrap();
    assert_eq!(chunks.len(), 2);
    assert_eq!((chunks[0].key, chunks[0].point_count()), (keys[0], 10));
    assert_eq!((chunks[1].key, chunks[1].point_count()), (keys[1], 40));
    // Only as many chunks as were read.
    let first = reader
        .decompress_nodes(&keys, &blobs[..1], Fields::z())
        .unwrap();
    assert_eq!(first.len(), 1);
    let broken = vec![blobs[0].clone(), vec![1, 2, 3]];
    let r = reader.decompress_nodes(&keys, &broken, Fields::z());
    assert!(matches!(r, Err(CopcError::Io(_))));
}

#[test]
fn unknown_nodes_are_errors() {
    let reader = open_test_file();
    let missing = key(5, 1, 2, 3);
    let r = reader.chunk_request(&missing);
    assert!(matches!(r, Err(CopcError::NodeNotFound(k)) if k == missing));
    let r = reader.decompress_node(&missing, &[], Fields::all());
    assert!(matches!(r, Err(CopcError::NodeNotFound(k)) if k == missing));
    let keys = [key(1, 0, 0, 0), missing, key(6, 0, 0, 0)];
    let r = reader.chunk_requests(&keys);
    assert!(matches!(r, Err(CopcError::NodeNotFound(k)) if k == missing));
    let r = reader.decompress_nodes(&keys, &[], Fields::all());
    assert!(matches!(r, Err(CopcError::NodeNotFound(k)) if k == missing));
}

#[test]
fn points_inside_a_region_are_taken() {
    let reader = open_test_file();
    let chunks = vec![
        fetch(&reader, &key(1, 0, 0, 0), Fields::all()),
        fetch(&reader, &key(1, 1, 1, 1), Fields::all()),
    ];
    let region = aabb([38.0, 0.0, 0.0], [61.0, 100.0, 100.0]);
    let xs: Vec<f64> = points_inside(&chunks, &region)
        .unwrap()
        .iter()
        .map(|p| p.x)
        .collect();
    assert_eq!(xs, vec![38.0, 39.0, 60.0, 61.0]);
}

#[test]
fn points_inside_refuses_partial_fields() {
    let reader = open_test_file();
    let fields = Fields::z();
    let chunks = vec![fetch(&reader, &key(1, 0, 0, 0), fields)];
    let region = aabb([0.0, 0.0, 0.0], [1.0, 1.0, 1.0]);
    let r = points_inside(&chunks, &region);
    assert!(matches!(r, Err(CopcError::PartialDecode(f)) if f == fields));
    // Nothing is asked of a chunk without points inside.
    let nowhere = aabb([90.0, 90.0, 90.0], [91.0, 91.0, 91.0]);
    assert!(points_inside(&chunks, &nowhere).unwrap().is_empty());
}

/// The temporal index of the test file, with a stride of 10, and a node that is not in the file.
fn temporal_index() -> TemporalCache {
    let mut header = Vec::new();
    for v in [1u32, 10, 3, 1] {
        header.extend_from_slice(&v.to_le_bytes());
    }
    header.extend_from_slice(&[0; 16]);
    let mut cache = TemporalCache::new();
    cache.load_header(&header).unwrap();
    let nodes: [(VoxelKey, &[f64]); 3] = [
        (key(1, 0, 0, 0), &[0.0, 10.0, 20.0, 30.0, 39.0]),
        (key(1, 1, 1, 1), &[60.0, 69.0]),
        (key(3, 0, 0, 0), &[0.0, 100.0]),
    ];
    let mut page = Vec::new();
    for (k, samples) in nodes {
        for v in [k.level, k.x, k.y, k.z, samples.len() as i32] {
            page.extend_from_slice(&v.to_le_bytes());
        }
        for s in samples {
            page.extend_from_slice(&s.to_le_bytes());
        }
    }
    cache.load_root_page(&page).unwrap();
    cache
}

#[test]
fn chunks_are_found_by_time() {
    let reader = open_test_file();
    let temporal = temporal_index();
    let mut found = temporal.chunks_by_time(reader.hierarchy(), t(10.0), t(65.0));
    found.sort_by_key(|(k, _)| k.x);
    assert_eq!(found, vec![(key(1, 0, 0, 0), 0..40), (key(1, 1, 1, 1), 0..10)]);
    // No sample is in the window, but points between two samples are.
    let found = temporal.chunks_by_time(reader.hierarchy(), t(31.0), t(32.0));
    assert_eq!(found, vec![(key(1, 0, 0, 0), 30..40)]);
    // Points before the first sample in the window are in it.
    let found = temporal.chunks_by_time(reader.hierarchy(), t(5.0), t(15.0));
    assert_eq!(found, vec![(key(1, 0, 0, 0), 0..20)]);
    // The last point is in the window.
    let found = temporal.chunks_by_time(reader.hierarchy(), t(39.0), t(59.0));
    assert_eq!(found, vec![(key(1, 0, 0, 0), 30..40)]);
    let found = temporal.chunks_by_time(reader.hierarchy(), t(70.0), t(80.0));
    assert!(found.is_empty());
    // Nothing is from 20 on up to 10.
    let found = temporal.chunks_by_time(reader.hierarchy(), t(20.0), t(10.0));
    assert!(found.is_empty());
}

#[test]
fn nodes_without_points_are_not_read() {
    let mut reader = open_test_file();
    let temporal = temporal_index();
    let empty = entry(key(3, 0, 0, 0), 0, 0, 0);
    reader.hierarchy_mut().parse_page(&empty).unwrap();
    let found = temporal.chunks_by_time(reader.hierarchy(), t(45.0), t(55.0));
    assert!(found.is_empty());
}

#[test]
fn every_point_of_a_time_range_is_found() {
    let reader = open_test_file();
    let temporal = temporal_index();
    let all: Vec<i32> = (0..40).chain(60..70).collect();
    for start in 0..72 {
        for end in start..72 {
            let (from, to) = (t(f64::from(start)), t(f64::from(end)));
            let mut found = temporal.chunks_by_time(reader.hierarchy(), from, to);
            found.sort_by_key(|(k, _)| k.x);
            assert!(found.iter().all(|(_, range)| range.start < range.end));
            let first = |k: &VoxelKey| if k.x == 0 { 0 } else { 60 };
            let times: Vec<i32> = found
                .iter()
                .flat_map(|(k, range)| range.clone().map(|i| first(k) + i as i32))
                .filter(|i| start <= *i && *i <= end)
                .collect();
            let expected: Vec<i32> = all
                .iter()
                .copied()
                .filter(|i| start <= *i && *i <= end)
                .collect();
            assert_eq!(times, expected);
        }
    }
}

#[test]
fn points_between_two_samples_are_returned() {
    let reader = open_test_file();
    let temporal = temporal_index();
    let (start, end) = (t(31.0), t(32.0));
    let chunks: Vec<(Chunk, std::ops::Range<u32>)> = temporal
        .chunks_by_time(reader.hierarchy(), start, end)
        .into_iter()
        .map(|(k, range)| (fetch(&reader, &k, Fields::all()), range))
        .collect();
    let times: Vec<f64> = query_points_by_time(&chunks, start, end)
        .unwrap()
        .iter()
        .map(|p| p.gps_time.unwrap())
        .collect();
    assert_eq!(times, vec![31.0, 32.0]);
}

#[test]
fn a_region_query_filters_the_points_of_each_chunk() {
    let reader = open_test_file();
    let chunks = vec![
        fetch(&reader, &key(1, 1, 1, 1), Fields::all()),
        fetch(&reader, &key(1, 0, 0, 0), Fields::all()),
    ];
    let region = aabb([35.5, 0.0, 0.0], [63.0, 100.0, 100.0]);
    let mut expected = Vec::new();
    for chunk in &chunks {
        let points = chunk.to_points().unwrap();
        expected.extend(points.into_iter().filter(|p| p.x >= 35.5 && p.x <= 63.0));
    }
    assert_eq!(expected.len(), 8);
    assert_eq!(points_inside(&chunks, &region).unwrap(), expected);
}

#[test]
fn a_deeper_region_query_has_more_points() {
    let mut reader = open_test_file();
    let range = reader.chunk_request(&key(1, 0, 0, 0)).unwrap();
    let copy = entry(key(2, 0, 0, 0), range.0, range.1 as i32, 40);
    reader.hierarchy_mut().parse_page(&copy).unwrap();
    let region = aabb([0.0, 0.0, 0.0], [5.0, 100.0, 100.0]);
    let mut counts = Vec::new();
    let mut seen: Vec<VoxelKey> = Vec::new();
    for limit in [Some(0), Some(1), Some(2), Some(i32::MAX), None] {
        let keys = reader.visible_keys(&region, limit, node_bounds);
        assert!(seen.iter().all(|k| keys.contains(k)));
        let chunks: Vec<Chunk> = keys
            .iter()
            .map(|k| fetch(&reader, k, Fields::all()))
            .collect();
        counts.push(points_inside(&chunks, &region).unwrap().len());
        seen = keys;
    }
    assert_eq!(counts, vec![0, 6, 12, 12, 12]);
}

#[test]
fn a_time_and_region_query_is_among_the_region_query() {
    let reader = open_test_file();
    let temporal = temporal_index();
    let (start, end) = (t(12.0), t(62.0));
    let region = aabb([0.0, 0.0, 0.0], [61.0, 15.0, 100.0]);
    let keys = reader.visible_keys(&region, None, node_bounds);
    let found = temporal.chunks_in_bounds(reader.hierarchy(), &region, node_bounds, start, end);
    assert!(found.iter().all(|(k, _)| keys.contains(k)));
    let chunks: Vec<(Chunk, std::ops::Range<u32>)> = found
        .into_iter()
        .map(|(k, range)| (fetch(&reader, &k, Fields::all()), range))
        .collect();
    let points = query_points_in_bounds(&chunks, &region, start, end).unwrap();
    let more: Vec<Chunk> = keys
        .iter()
        .map(|k| fetch(&reader, k, Fields::all()))
        .collect();
    let all = points_inside(&more, &region).unwrap();
    assert_eq!(all.len(), 16);
    assert_eq!(points, filter_points_by_time(all, start, end));
    assert_eq!(points.len(), 4);
}

#[test]
fn chunks_are_found_by_time_and_region() {
    let reader = open_test_file();
    let temporal = temporal_index();
    let region = aabb([60.0, 60.0, 60.0], [100.0, 100.0, 100.0]);
    let found =
        temporal.chunks_in_bounds(reader.hierarchy(), &region, node_bounds, t(0.0), t(100.0));
    assert_eq!(found, vec![(key(1, 1, 1, 1), 0..10)]);
}

#[test]
fn points_are_queried_by_time() {
    let reader = open_test_file();
    let temporal = temporal_index();
    let (start, end) = (t(20.0), t(62.0));
    let mut found = temporal.chunks_by_time(reader.hierarchy(), start, end);
    found.sort_by_key(|(k, _)| k.x);
    let chunks: Vec<(Chunk, std::ops::Range<u32>)> = found
        .into_iter()
        .map(|(k, range)| (fetch(&reader, &k, Fields::all()), range))
        .collect();
    let times: Vec<f64> = query_points_by_time(&chunks, start, end)
        .unwrap()
        .iter()
        .map(|p| p.gps_time.unwrap())
        .collect();
    let expected: Vec<f64> = (20..40).chain(60..63).map(f64::from).collect();
    assert_eq!(times, expected);

    let region = aabb([0.0, 0.0, 35.0], [61.0, 100.0, 100.0]);
    let times: Vec<f64> = query_points_in_bounds(&chunks, &region, start, end)
        .unwrap()
        .iter()
        .map(|p| p.gps_time.unwrap())
        .collect();
    assert_eq!(times, vec![35.0, 36.0, 37.0, 38.0, 39.0, 60.0, 61.0]);
}

#[test]
fn queries_refuse_partial_fields() {
    let reader = open_test_file();
    let fields = Fields::z() | Fields::gps_time();
    let chunks = vec![
        (fetch(&reader, &key(1, 0, 0, 0), Fields::all()), 0..40),
        (fetch(&reader, &key(1, 1, 1, 1), fields), 0..10),
    ];
    let r = query_points_by_time(&chunks, t(0.0), t(1.0));
    assert!(matches!(
        r,
        Err(TemporalError::Copc(CopcError::PartialDecode(f))) if f == fields
    ));
}

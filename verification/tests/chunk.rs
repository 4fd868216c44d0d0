use copc::chunk::{chunk_of_records, decompress_chunk, records_fit};
use copc::{Aabb, Binary64, Chunk, CopcError, Fields, HierarchyCache, VoxelKey};
use las::point::Format;
use las::raw::point::{Flags, ScanAngle};
use laz::record::{LayeredPointRecordCompressor, RecordCompressor};

fn b(v: f64) -> Binary64 {
    Binary64::from_bits(v.to_bits())
}

fn number(v: &Binary64) -> f64 {
    f64::from_bits(v.bits)
}

fn numbers(p: &[Binary64; 3]) -> [f64; 3] {
    [number(&p[0]), number(&p[1]), number(&p[2])]
}

fn aabb(min: [f64; 3], max: [f64; 3]) -> Aabb {
    Aabb {
        min: [b(min[0]), b(min[1]), b(min[2])],
        max: [b(max[0]), b(max[1]), b(max[2])],
    }
}

fn unit_transforms() -> las::Vector<las::Transform> {
    let unit = las::Transform {
        scale: 1.0,
        offset: 0.0,
    };
    las::Vector {
        x: unit,
        y: unit,
        z: unit,
    }
}

fn test_records(format: &Format, n: i32) -> Vec<u8> {
    let mut buf = Vec::new();
    for i in 0..n {
        let rp = las::raw::Point {
            x: i,
            y: i + 1,
            z: i + 2,
            intensity: 100 + i as u16,
            // Format 7 is extended -> ThreeByte flags.
            flags: Flags::ThreeByte(0, 0, 2),
            scan_angle: ScanAngle::Scaled(0),
            user_data: 0,
            point_source_id: 0,
            gps_time: Some(1000.0 + f64::from(i)),
            color: Some(las::Color {
                red: i as u16,
                green: i as u16,
                blue: i as u16,
            }),
            waveform: None,
            nir: None,
            extra_bytes: vec![7; format.extra_bytes as usize],
        };
        rp.write_to(&mut buf, format).unwrap();
    }
    buf
}

/// Build a `PointData` in format 7 (has gps_time + rgb) with `n` points whose fields are a
/// function of their index: `x = i, y = i + 1, z = i + 2, intensity = 100 + i,
/// gps_time = 1000 + i, rgb = (i, i, i)`. Unit transforms (scale=1, offset=0) so raw == world for
/// easy asserts.
fn build_test_cloud(n: i32) -> las::PointData {
    let format = Format::new(7).unwrap();
    las::PointDataBuilder::new()
        .with_format(format)
        .with_transforms(unit_transforms())
        .build_from_bytes(test_records(&format, n))
        .unwrap()
}

fn make_chunk(cloud: las::PointData, fields: Fields) -> Chunk {
    Chunk::new(VoxelKey::root(), fields, cloud)
}

#[test]
fn point_count_and_empty() {
    let cloud = build_test_cloud(5);
    let chunk = make_chunk(cloud, Fields::all());
    assert_eq!(chunk.point_count(), 5);
    assert!(!chunk.is_empty());
}

#[test]
fn positions_iterate_correctly() {
    let chunk = make_chunk(build_test_cloud(3), Fields::all());
    let positions: Vec<[f64; 3]> = chunk.positions().unwrap().iter().map(numbers).collect();
    assert_eq!(positions.len(), 3);
    assert_eq!(positions[0], [0.0, 1.0, 2.0]);
    assert_eq!(positions[2], [2.0, 3.0, 4.0]);
}

#[test]
fn positions_returns_none_without_z_field() {
    let chunk = make_chunk(build_test_cloud(3), Fields::empty());
    assert!(chunk.positions().is_none());
}

#[test]
fn gps_time_column_guarded_by_fields() {
    let chunk = make_chunk(build_test_cloud(3), Fields::z());
    assert!(
        chunk.gps_time().is_none(),
        "GPS_TIME not in mask -> column should be None"
    );
}

#[test]
fn gps_time_column_present_when_fields_allow() {
    let chunk = make_chunk(build_test_cloud(3), Fields::all());
    let times: Vec<f64> = chunk.gps_time().unwrap().iter().map(number).collect();
    assert_eq!(times, vec![1000.0, 1001.0, 1002.0]);
}

#[test]
fn rgb_column_guarded_by_fields() {
    let chunk = make_chunk(build_test_cloud(3), Fields::z() | Fields::gps_time());
    assert!(chunk.rgb().is_none());
}

#[test]
fn rgb_column_present_when_fields_allow() {
    let chunk = make_chunk(build_test_cloud(3), Fields::all());
    let rgb = chunk.rgb().unwrap();
    assert_eq!(rgb, vec![(0, 0, 0), (1, 1, 1), (2, 2, 2)]);
}

#[test]
fn intensity_column_guarded() {
    let chunk = make_chunk(build_test_cloud(3), Fields::z());
    assert!(chunk.intensity().is_none());
    let chunk = make_chunk(build_test_cloud(3), Fields::z() | Fields::intensity());
    let intensities = chunk.intensity().unwrap();
    assert_eq!(intensities, vec![100, 101, 102]);
}

#[test]
fn to_points_refuses_partial_fields() {
    let chunk = make_chunk(build_test_cloud(3), Fields::z());
    let r = chunk.to_points();
    assert!(matches!(r, Err(CopcError::PartialDecode(_))));
}

#[test]
fn to_points_succeeds_with_all_fields() {
    let chunk = make_chunk(build_test_cloud(3), Fields::all());
    let pts = chunk.to_points().unwrap();
    assert_eq!(pts.len(), 3);
    assert_eq!(pts[0].intensity, 100);
    assert_eq!(pts[1].gps_time, Some(1001.0));
}

#[test]
fn points_at_materializes_subset() {
    let chunk = make_chunk(build_test_cloud(5), Fields::all());
    let pts = chunk.points_at(&[0, 2, 4]).unwrap();
    assert_eq!(pts.len(), 3);
    assert_eq!(pts[0].x, 0.0);
    assert_eq!(pts[1].x, 2.0);
    assert_eq!(pts[2].x, 4.0);
    assert_eq!(pts[0].intensity, 100);
    assert_eq!(pts[2].intensity, 104);
}

#[test]
fn points_at_refuses_partial_fields() {
    let chunk = make_chunk(build_test_cloud(3), Fields::z());
    let r = chunk.points_at(&[0, 1]);
    assert!(matches!(r, Err(CopcError::PartialDecode(_))));
}

#[test]
fn points_at_empty_slice_returns_empty_vec() {
    let chunk = make_chunk(build_test_cloud(3), Fields::all());
    let pts = chunk.points_at(&[]).unwrap();
    assert!(pts.is_empty());
}

#[test]
fn indices_in_bounds_filters_correctly() {
    // Points: (0,1,2), (1,2,3), (2,3,4), (3,4,5), (4,5,6)
    let chunk = make_chunk(build_test_cloud(5), Fields::all());
    let bounds = aabb([1.0, 0.0, 0.0], [2.0, 10.0, 10.0]);
    // x in [1, 2]: indices 1 and 2.
    assert_eq!(chunk.indices_in_bounds(&bounds).unwrap(), vec![1, 2]);
}

#[test]
fn indices_in_bounds_empty_when_outside() {
    let chunk = make_chunk(build_test_cloud(5), Fields::all());
    let bounds = aabb([100.0, 100.0, 100.0], [200.0, 200.0, 200.0]);
    assert!(chunk.indices_in_bounds(&bounds).unwrap().is_empty());
}

#[test]
fn indices_in_bounds_returns_none_without_z_field() {
    let chunk = make_chunk(build_test_cloud(5), Fields::empty());
    let bounds = aabb([0.0, 0.0, 0.0], [10.0, 10.0, 10.0]);
    assert!(chunk.indices_in_bounds(&bounds).is_none());
}

/// One record of a given format, with every field set to something that can be told apart.
fn one_of(format: Format) -> las::PointData {
    let flags = if format.is_extended {
        Flags::ThreeByte(0x21, 0x43, 0x65)
    } else {
        Flags::TwoByte(0x21, 0xa5)
    };
    let scan_angle = if format.is_extended {
        ScanAngle::Scaled(-5000)
    } else {
        ScanAngle::Rank(-30)
    };
    let rp = las::raw::Point {
        x: 10,
        y: -20,
        z: 30,
        intensity: 40_000,
        flags,
        scan_angle,
        user_data: 77,
        point_source_id: 4321,
        gps_time: if format.has_gps_time {
            Some(-1.5)
        } else {
            None
        },
        color: if format.has_color {
            Some(las::Color {
                red: 1,
                green: 20_000,
                blue: 65_535,
            })
        } else {
            None
        },
        waveform: None,
        nir: if format.has_nir { Some(555) } else { None },
        extra_bytes: vec![9; format.extra_bytes as usize],
    };
    let mut buf = Vec::new();
    rp.write_to(&mut buf, &format).unwrap();
    let transforms = las::Vector {
        x: las::Transform {
            scale: 0.5,
            offset: 100.0,
        },
        y: las::Transform {
            scale: 2.0,
            offset: 0.0,
        },
        z: las::Transform {
            scale: 0.25,
            offset: -1.0,
        },
    };
    las::PointDataBuilder::new()
        .with_format(format)
        .with_transforms(transforms)
        .build_from_bytes(buf)
        .unwrap()
}

#[test]
fn columns_of_an_extended_format() {
    let mut format = Format::new(8).unwrap();
    format.extra_bytes = 3;
    let chunk = make_chunk(one_of(format), Fields::all());
    assert_eq!(chunk.point_count(), 1);
    let positions: Vec<[f64; 3]> = chunk.positions().unwrap().iter().map(numbers).collect();
    assert_eq!(positions, vec![[105.0, -40.0, 6.5]]);
    assert_eq!(chunk.intensity().unwrap(), vec![40_000]);
    assert_eq!(chunk.classification().unwrap(), vec![0x65]);
    let angles: Vec<f32> = chunk
        .scan_angle()
        .unwrap()
        .iter()
        .map(|a| f32::from_bits(a.bits))
        .collect();
    assert_eq!(angles, vec![-30.0]);
    assert_eq!(chunk.user_data().unwrap(), vec![77]);
    assert_eq!(chunk.point_source_id().unwrap(), vec![4321]);
    assert_eq!(number(&chunk.gps_time().unwrap()[0]), -1.5);
    assert_eq!(chunk.rgb().unwrap(), vec![(1, 20_000, 65_535)]);
    assert_eq!(chunk.nir().unwrap(), vec![555]);
}

#[test]
fn columns_of_a_legacy_format() {
    let chunk = make_chunk(one_of(Format::new(2).unwrap()), Fields::all());
    assert_eq!(chunk.classification().unwrap(), vec![5]);
    let angles: Vec<f32> = chunk
        .scan_angle()
        .unwrap()
        .iter()
        .map(|a| f32::from_bits(a.bits))
        .collect();
    assert_eq!(angles, vec![-30.0]);
    assert_eq!(chunk.user_data().unwrap(), vec![77]);
    assert_eq!(chunk.point_source_id().unwrap(), vec![4321]);
    assert!(chunk.gps_time().is_none());
    assert_eq!(chunk.rgb().unwrap(), vec![(1, 20_000, 65_535)]);
    assert!(chunk.nir().is_none());
}

#[test]
fn every_column_is_guarded() {
    let chunk = make_chunk(one_of(Format::new(8).unwrap()), Fields::empty());
    assert!(chunk.positions().is_none());
    assert!(chunk.intensity().is_none());
    assert!(chunk.classification().is_none());
    assert!(chunk.scan_angle().is_none());
    assert!(chunk.user_data().is_none());
    assert!(chunk.point_source_id().is_none());
    assert!(chunk.gps_time().is_none());
    assert!(chunk.rgb().is_none());
    assert!(chunk.nir().is_none());
}

#[test]
fn empty_chunk_has_no_points() {
    let chunk = make_chunk(build_test_cloud(0), Fields::all());
    assert_eq!(chunk.point_count(), 0);
    assert!(chunk.is_empty());
    assert!(chunk.to_points().unwrap().is_empty());
    assert_eq!(chunk.cloud().raw_bytes().len(), 0);
}

#[test]
fn points_at_every_index_are_the_points() {
    let chunk = make_chunk(build_test_cloud(4), Fields::all());
    let all = chunk.to_points().unwrap();
    let some = chunk.points_at(&[0, 1, 2, 3]).unwrap();
    assert_eq!(all, some);
    let mixed = chunk.points_at(&[3, 0, 3]).unwrap();
    assert_eq!(mixed, vec![all[3].clone(), all[0].clone(), all[3].clone()]);
}

#[test]
fn indices_in_bounds_takes_the_faces() {
    let chunk = make_chunk(build_test_cloud(5), Fields::all());
    let bounds = aabb([1.0, 2.0, 3.0], [3.0, 4.0, 5.0]);
    assert_eq!(chunk.indices_in_bounds(&bounds).unwrap(), vec![1, 2, 3]);
}

/// The LAS header of a file with points in format 7 and some extra bytes.
fn header_with(extra_bytes: u16) -> las::Header {
    let mut builder = las::Builder::from((1, 4));
    let mut format = Format::new(7).unwrap();
    format.extra_bytes = extra_bytes;
    builder.point_format = format;
    builder.transforms = unit_transforms();
    builder.into_header().unwrap()
}

fn laz_vlr_with(extra_bytes: u16) -> laz::LazVlr {
    let items = laz::LazItemRecordBuilder::default_for_point_format_id(7, extra_bytes).unwrap();
    laz::LazVlr::from_laz_items(items)
}

fn compress(records: &[u8], laz_vlr: &laz::LazVlr) -> Vec<u8> {
    let mut compressor = LayeredPointRecordCompressor::new(std::io::Cursor::new(Vec::new()));
    compressor.set_fields_from(laz_vlr.items()).unwrap();
    compressor.compress_many(records).unwrap();
    compressor.done().unwrap();
    compressor.into_inner().into_inner()
}

/// A cache with one node, the root, that has this many points.
fn cache_with_root(point_count: i32) -> HierarchyCache {
    let mut page = Vec::new();
    for _ in 0..4 {
        page.extend_from_slice(&0i32.to_le_bytes());
    }
    page.extend_from_slice(&500u64.to_le_bytes());
    page.extend_from_slice(&60i32.to_le_bytes());
    page.extend_from_slice(&point_count.to_le_bytes());
    let mut cache = HierarchyCache::new();
    cache.parse_page(&page).unwrap();
    cache
}

#[test]
fn a_chunk_is_decompressed() {
    for extra_bytes in [0u16, 2] {
        let header = header_with(extra_bytes);
        let laz_vlr = laz_vlr_with(extra_bytes);
        let records = test_records(header.point_format(), 6);
        let compressed = compress(&records, &laz_vlr);
        let cache = cache_with_root(6);
        let entry = cache.get(&VoxelKey::root()).unwrap();
        assert!(records_fit(entry, &header));
        let chunk =
            decompress_chunk(&compressed, entry, &laz_vlr, &header, Fields::all()).unwrap();
        assert_eq!(chunk.key, VoxelKey::root());
        assert_eq!(chunk.fields, Fields::all());
        assert_eq!(chunk.point_count(), 6);
        assert_eq!(chunk.cloud().raw_bytes(), &records[..]);
        assert_eq!(
            chunk.intensity().unwrap(),
            vec![100, 101, 102, 103, 104, 105]
        );
    }
}

#[test]
fn omitted_layers_are_not_decoded() {
    let header = header_with(0);
    let laz_vlr = laz_vlr_with(0);
    let records = test_records(header.point_format(), 4);
    let compressed = compress(&records, &laz_vlr);
    let cache = cache_with_root(4);
    let entry = cache.get(&VoxelKey::root()).unwrap();
    let fields = Fields::z() | Fields::gps_time();
    let chunk = decompress_chunk(&compressed, entry, &laz_vlr, &header, fields).unwrap();
    let positions: Vec<[f64; 3]> = chunk.positions().unwrap().iter().map(numbers).collect();
    assert_eq!(positions[3], [3.0, 4.0, 5.0]);
    assert_eq!(number(&chunk.gps_time().unwrap()[3]), 1003.0);
    assert!(chunk.intensity().is_none());
    assert!(chunk.rgb().is_none());
    let colors: Vec<(u16, u16, u16)> = chunk.cloud().rgb().unwrap().collect();
    assert!(colors[1..].iter().all(|c| *c == colors[0]));
}

#[test]
fn a_truncated_chunk_is_an_error() {
    let header = header_with(0);
    let laz_vlr = laz_vlr_with(0);
    let cache = cache_with_root(4);
    let entry = cache.get(&VoxelKey::root()).unwrap();
    let r = decompress_chunk(&[1, 2, 3], entry, &laz_vlr, &header, Fields::all());
    assert!(matches!(r, Err(CopcError::Io(_))));
}

#[test]
fn unknown_items_are_an_error() {
    let header = header_with(0);
    let items = laz::LazItemRecordBuilder::default_for_point_format_id(3, 0).unwrap();
    let laz_vlr = laz::LazVlr::from_laz_items(items);
    let cache = cache_with_root(4);
    let entry = cache.get(&VoxelKey::root()).unwrap();
    let r = decompress_chunk(&[0; 100], entry, &laz_vlr, &header, Fields::all());
    assert!(matches!(r, Err(CopcError::Laz(_))));
}

#[test]
fn records_must_be_whole() {
    let header = header_with(0);
    let cache = cache_with_root(1);
    let entry = cache.get(&VoxelKey::root()).unwrap();
    let chunk = chunk_of_records(vec![0; 72], entry, &header, Fields::z()).unwrap();
    assert_eq!(chunk.point_count(), 2);
    let r = chunk_of_records(vec![0; 73], entry, &header, Fields::z());
    assert!(matches!(r, Err(CopcError::Las(_))));
}

use byteorder::{LittleEndian, WriteBytesExt};
use copc::{GpsTime, NodeTemporalEntry, TemporalError, TemporalIndex, VlrData, VoxelKey};

fn t(v: f64) -> GpsTime {
    GpsTime::from_bits(v.to_bits())
}

/// Build a v2 EVLR payload: header (32 bytes) + single root page with all entries.
fn build_evlr_payload(
    version: u32,
    stride: u32,
    nodes: &[(i32, i32, i32, i32, &[f64])],
) -> Vec<u8> {
    // Compute root page size
    let mut page_size: u32 = 0;
    for (_, _, _, _, samples) in nodes {
        page_size += 20 + samples.len() as u32 * 8;
    }

    let mut buf = Vec::new();
    // Header (32 bytes)
    buf.write_u32::<LittleEndian>(version).unwrap();
    buf.write_u32::<LittleEndian>(stride).unwrap();
    buf.write_u32::<LittleEndian>(nodes.len() as u32).unwrap();
    buf.write_u32::<LittleEndian>(1).unwrap(); // page_count
    buf.write_u64::<LittleEndian>(32).unwrap(); // root_page_offset (relative to EVLR data start, used as absolute in tests)
    buf.write_u32::<LittleEndian>(page_size).unwrap();
    buf.write_u32::<LittleEndian>(0).unwrap(); // reserved

    // Root page: all node entries
    for &(level, x, y, z, samples) in nodes {
        buf.write_i32::<LittleEndian>(level).unwrap();
        buf.write_i32::<LittleEndian>(x).unwrap();
        buf.write_i32::<LittleEndian>(y).unwrap();
        buf.write_i32::<LittleEndian>(z).unwrap();
        buf.write_u32::<LittleEndian>(samples.len() as u32).unwrap();
        for &s in samples.iter() {
            buf.write_f64::<LittleEndian>(s).unwrap();
        }
    }

    buf
}

fn make_vlr(user_id: &str, record_id: u16, data: Vec<u8>) -> VlrData {
    VlrData {
        user_id: user_id.to_string(),
        record_id,
        data,
    }
}

#[test]
fn test_parse_roundtrip() {
    let samples_a: &[f64] = &[100.0, 200.0, 300.0];
    let samples_b: &[f64] = &[400.0, 500.0];
    let nodes = vec![(0, 0, 0, 0, samples_a), (1, 1, 0, 0, samples_b)];
    let data = build_evlr_payload(1, 10, &nodes);
    let vlr = make_vlr("copc_temporal", 1000, data);

    let index = TemporalIndex::from_evlrs(&[vlr]).unwrap().unwrap();
    assert_eq!(index.stride(), 10);
    assert_eq!(index.version(), 1);
    assert_eq!(index.len(), 2);

    let entry_a = index
        .get(&VoxelKey {
            level: 0,
            x: 0,
            y: 0,
            z: 0,
        })
        .unwrap();
    assert_eq!(entry_a.samples().len(), 3);
    assert_eq!(entry_a.samples()[0], t(100.0));
    assert_eq!(entry_a.samples()[2], t(300.0));

    let entry_b = index
        .get(&VoxelKey {
            level: 1,
            x: 1,
            y: 0,
            z: 0,
        })
        .unwrap();
    assert_eq!(entry_b.samples().len(), 2);
    assert_eq!(entry_b.time_range(), (t(400.0), t(500.0)));
}

#[test]
fn test_no_temporal_evlr() {
    let vlr = make_vlr("copc", 1, vec![0; 160]);
    let result = TemporalIndex::from_evlrs(&[vlr]).unwrap();
    assert!(result.is_none());
}

#[test]
fn test_empty_evlr_list() {
    let result = TemporalIndex::from_evlrs(&[]).unwrap();
    assert!(result.is_none());
}

#[test]
fn test_wrong_version() {
    let data = build_evlr_payload(99, 10, &[]);
    let vlr = make_vlr("copc_temporal", 1000, data);
    let result = TemporalIndex::from_evlrs(&[vlr]);
    assert!(matches!(result, Err(TemporalError::UnsupportedVersion(99))));
}

#[test]
fn test_truncated_header() {
    let vlr = make_vlr("copc_temporal", 1000, vec![1, 0, 0, 0]); // only 4 bytes
    let result = TemporalIndex::from_evlrs(&[vlr]);
    assert!(matches!(result, Err(TemporalError::TruncatedHeader)));
}

#[test]
fn test_truncated_node_data() {
    // Header says 1 node, but no node data follows
    let data = build_evlr_payload(1, 10, &[]);
    let mut modified = data.clone();
    // Patch node_count to 1
    modified[8] = 1;
    let vlr = make_vlr("copc_temporal", 1000, modified);
    let result = TemporalIndex::from_evlrs(&[vlr]);
    assert!(result.is_err());
}

#[test]
fn test_overlaps_exact_boundaries() {
    let entry = NodeTemporalEntry::new(
        VoxelKey {
            level: 0,
            x: 0,
            y: 0,
            z: 0,
        },
        vec![t(100.0), t(200.0), t(300.0)],
    );

    // Exact match on boundaries
    assert!(entry.overlaps(t(100.0), t(300.0)));
    // Query ends exactly at start
    assert!(entry.overlaps(t(50.0), t(100.0)));
    // Query starts exactly at end
    assert!(entry.overlaps(t(300.0), t(400.0)));
    // Query entirely before
    assert!(!entry.overlaps(t(0.0), t(99.9)));
    // Query entirely after
    assert!(!entry.overlaps(t(300.1), t(400.0)));
    // Query contains node
    assert!(entry.overlaps(t(0.0), t(1000.0)));
    // Query within node
    assert!(entry.overlaps(t(150.0), t(250.0)));
}

#[test]
fn test_overlaps_single_sample() {
    let entry = NodeTemporalEntry::new(
        VoxelKey {
            level: 0,
            x: 0,
            y: 0,
            z: 0,
        },
        vec![t(100.0)],
    );

    assert!(entry.overlaps(t(100.0), t(100.0)));
    assert!(entry.overlaps(t(50.0), t(150.0)));
    assert!(!entry.overlaps(t(50.0), t(99.9)));
    assert!(!entry.overlaps(t(100.1), t(200.0)));
}

#[test]
fn test_nodes_in_range() {
    let samples_a: &[f64] = &[100.0, 200.0, 300.0];
    let samples_b: &[f64] = &[400.0, 500.0];
    let samples_c: &[f64] = &[600.0, 700.0, 800.0];
    let data = build_evlr_payload(
        1,
        10,
        &[
            (0, 0, 0, 0, samples_a),
            (1, 0, 0, 0, samples_b),
            (1, 1, 0, 0, samples_c),
        ],
    );
    let vlr = make_vlr("copc_temporal", 1000, data);
    let index = TemporalIndex::from_evlrs(&[vlr]).unwrap().unwrap();

    // Should match only node A and B
    let result = index.nodes_in_range(t(250.0), t(450.0));
    assert_eq!(result.len(), 2);

    // Should match only node C
    let result = index.nodes_in_range(t(650.0), t(750.0));
    assert_eq!(result.len(), 1);
    assert_eq!(
        result[0].key(),
        VoxelKey {
            level: 1,
            x: 1,
            y: 0,
            z: 0
        }
    );
}

#[test]
fn test_estimate_point_range_basic() {
    // Samples at indices 0, 10, 20, 30, 39 (stride=10, 40 points)
    let entry = NodeTemporalEntry::new(
        VoxelKey {
            level: 0,
            x: 0,
            y: 0,
            z: 0,
        },
        vec![
            t(100.0),
            t(200.0),
            t(300.0),
            t(400.0),
            t(450.0),
        ],
    );

    // Query covers samples[1] through samples[3] (200..400)
    let range = entry.estimate_point_range(t(200.0), t(400.0), 10, 40);
    // i=1 (first sample >= 200), j=3 (last sample <= 400)
    // start = 1*10 = 10, end = min(3*10 + 9, 39) = 39
    assert_eq!(range, 10..40);

    // Query covers only sample[2] (300..300)
    let range = entry.estimate_point_range(t(300.0), t(300.0), 10, 40);
    // i=2, j=2
    // start = 20, end = min(29, 39) = 29
    assert_eq!(range, 20..30);
}

#[test]
fn test_estimate_point_range_no_overlap() {
    let entry = NodeTemporalEntry::new(
        VoxelKey {
            level: 0,
            x: 0,
            y: 0,
            z: 0,
        },
        vec![t(100.0), t(200.0), t(300.0)],
    );

    // Query entirely before
    let range = entry.estimate_point_range(t(0.0), t(50.0), 10, 30);
    assert_eq!(range, 0..0);

    // Query entirely after
    let range = entry.estimate_point_range(t(400.0), t(500.0), 10, 30);
    assert_eq!(range, 0..0);
}

#[test]
fn test_estimate_point_range_stride_1() {
    let entry = NodeTemporalEntry::new(
        VoxelKey {
            level: 0,
            x: 0,
            y: 0,
            z: 0,
        },
        vec![
            t(1.0),
            t(2.0),
            t(3.0),
            t(4.0),
            t(5.0),
        ],
    );

    // With stride 1, every point is sampled
    let range = entry.estimate_point_range(t(2.0), t(4.0), 1, 5);
    // i=1, j=3, start=1, end=min(3+0, 4)=3
    assert_eq!(range, 1..4);
}

fn header_only(stride: u32, node_count: u32) -> Vec<u8> {
    let mut data = build_evlr_payload(1, stride, &[]);
    data[8..12].copy_from_slice(&node_count.to_le_bytes());
    data
}

fn page_pointer() -> Vec<u8> {
    let mut buf = Vec::new();
    for v in [1i32, 0, 0, 0, 0] {
        buf.write_i32::<LittleEndian>(v).unwrap();
    }
    buf.write_u64::<LittleEndian>(5000).unwrap();
    buf.write_u32::<LittleEndian>(64).unwrap();
    buf.write_f64::<LittleEndian>(1.0).unwrap();
    buf.write_f64::<LittleEndian>(2.0).unwrap();
    buf
}

fn node(key: [i32; 4], samples: &[f64]) -> Vec<u8> {
    let mut buf = Vec::new();
    for v in key {
        buf.write_i32::<LittleEndian>(v).unwrap();
    }
    buf.write_u32::<LittleEndian>(samples.len() as u32).unwrap();
    for &s in samples {
        buf.write_f64::<LittleEndian>(s).unwrap();
    }
    buf
}

#[test]
fn page_pointers_are_passed_over() {
    let mut data = header_only(5, 2);
    data.extend(node([0, 0, 0, 0], &[1.0]));
    data.extend(page_pointer());
    data.extend(node([2, -1, 3, -4], &[2.0, 3.0]));
    let index = TemporalIndex::from_evlrs(&[make_vlr("copc_temporal", 1000, data)])
        .unwrap()
        .unwrap();
    assert_eq!(index.len(), 2);
    let key = VoxelKey {
        level: 2,
        x: -1,
        y: 3,
        z: -4,
    };
    assert_eq!(index.get(&key).unwrap().key(), key);
    assert_eq!(index.get(&key).unwrap().time_range(), (t(2.0), t(3.0)));
    assert!(index
        .get(&VoxelKey {
            level: 1,
            x: 0,
            y: 0,
            z: 0
        })
        .is_none());
}

#[test]
fn a_node_that_comes_twice_counts_once() {
    let mut data = header_only(5, 2);
    data.extend(node([0, 0, 0, 0], &[1.0]));
    data.extend(node([0, 0, 0, 0], &[2.0]));
    data.extend(node([1, 0, 0, 0], &[3.0]));
    data.extend(node([1, 1, 0, 0], &[4.0]));
    let index = TemporalIndex::from_evlrs(&[make_vlr("copc_temporal", 1000, data)])
        .unwrap()
        .unwrap();
    assert_eq!(index.len(), 2);
    assert_eq!(index.get(&VoxelKey::root()).unwrap().samples()[0], t(2.0));
}

#[test]
fn the_first_temporal_record_counts() {
    let other = make_vlr("copc_temporal", 999, vec![]);
    let first = make_vlr("copc_temporal", 1000, header_only(7, 0));
    let second = make_vlr("copc_temporal", 1000, header_only(8, 0));
    let index = TemporalIndex::from_evlrs(&[other, first, second])
        .unwrap()
        .unwrap();
    assert_eq!(index.stride(), 7);
    assert_eq!(index.len(), 0);
}

#[test]
fn stride_zero_is_refused() {
    let vlr = make_vlr("copc_temporal", 1000, header_only(0, 0));
    let result = TemporalIndex::from_evlrs(&[vlr]);
    assert!(matches!(result, Err(TemporalError::InvalidStride(0))));
}

#[test]
fn a_node_that_is_cut_off_is_an_error() {
    let mut data = header_only(5, 1);
    data.extend(node([0, 0, 0, 0], &[1.0, 2.0]));
    data.pop();
    let vlr = make_vlr("copc_temporal", 1000, data);
    let result = TemporalIndex::from_evlrs(&[vlr]);
    assert!(matches!(result, Err(TemporalError::Io(_))));
}

#[test]
fn a_page_pointer_that_is_cut_off_is_an_error() {
    let mut data = header_only(5, 1);
    data.extend(page_pointer());
    data.pop();
    let vlr = make_vlr("copc_temporal", 1000, data);
    let result = TemporalIndex::from_evlrs(&[vlr]);
    assert!(matches!(result, Err(TemporalError::Io(_))));
}

#[test]
fn estimates_of_an_empty_node_are_empty() {
    let entry = NodeTemporalEntry::new(VoxelKey::root(), vec![t(1.0), t(2.0)]);
    assert_eq!(entry.estimate_point_range(t(0.0), t(9.0), 0, 0), 0..0);
}

#[test]
fn estimates_stay_within_the_points() {
    // Samples at indices 0, 10, 12 of 13 points
    let entry = NodeTemporalEntry::new(VoxelKey::root(), vec![t(0.0), t(10.0), t(12.0)]);
    assert_eq!(entry.estimate_point_range(t(0.0), t(99.0), 10, 13), 0..13);
    assert_eq!(entry.estimate_point_range(t(11.0), t(99.0), 10, 13), 13..13);
}

#[test]
fn the_range_covers_what_follows_a_sample_in_the_window() {
    // 40 points with times 0, 1, 2, ..., sampled at every tenth and at the last
    let samples = vec![t(0.0), t(10.0), t(20.0), t(30.0), t(39.0)];
    let entry = NodeTemporalEntry::new(VoxelKey::root(), samples);
    let range = entry.estimate_point_range(t(10.0), t(25.0), 10, 40);
    assert_eq!(range, 10..30);
    // Point 5 is in the window, but the sample before it is not.
    assert_eq!(entry.estimate_point_range(t(5.0), t(15.0), 10, 40), 10..20);
    // No sample is in the window.
    assert_eq!(entry.estimate_point_range(t(5.0), t(6.0), 10, 40), 0..0);
}

#[test]
fn candidates_are_all_points_that_may_match() {
    // 40 points with times 0, 1, 2, ..., sampled at every tenth and at the last
    let samples = vec![t(0.0), t(10.0), t(20.0), t(30.0), t(39.0)];
    let entry = NodeTemporalEntry::new(VoxelKey::root(), samples);
    assert_eq!(entry.candidate_point_range(t(10.0), t(25.0), 10, 40), 0..30);
    assert_eq!(entry.candidate_point_range(t(5.0), t(15.0), 10, 40), 0..20);
    assert_eq!(entry.candidate_point_range(t(5.0), t(6.0), 10, 40), 0..10);
    assert_eq!(entry.candidate_point_range(t(-9.0), t(-1.0), 10, 40), 0..0);
    assert_eq!(entry.candidate_point_range(t(25.0), t(5.0), 10, 40), 0..0);
    assert_eq!(entry.candidate_point_range(t(0.0), t(99.0), 10, 0), 0..0);
    // Samples at indices 0, 10, 12 of 13 points
    let entry = NodeTemporalEntry::new(VoxelKey::root(), vec![t(0.0), t(10.0), t(12.0)]);
    assert_eq!(entry.candidate_point_range(t(11.0), t(99.0), 10, 13), 10..13);
    assert_eq!(entry.candidate_point_range(t(12.0), t(12.0), 10, 13), 10..13);
}

#[test]
fn a_clone_is_the_same() {
    let entry = NodeTemporalEntry::new(VoxelKey::root(), vec![t(1.0), t(2.0)]);
    let copy = entry.clone();
    assert_eq!(copy.key(), entry.key());
    assert_eq!(copy.samples(), entry.samples());
}

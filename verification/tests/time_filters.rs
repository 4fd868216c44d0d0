use copc::{
    filter_points_by_time, indices_in_time_range, Chunk, Fields, GpsTime, VoxelKey,
};
use las::point::Format;
use las::raw::point::{Flags, ScanAngle};

fn t(v: f64) -> GpsTime {
    GpsTime::from_bits(v.to_bits())
}

fn build_test_cloud(n: i32) -> las::PointData {
    let format = Format::new(7).unwrap();
    let unit = las::Transform {
        scale: 1.0,
        offset: 0.0,
    };
    let transforms = las::Vector {
        x: unit,
        y: unit,
        z: unit,
    };
    let mut buf = Vec::new();
    for i in 0..n {
        let rp = las::raw::Point {
            x: i,
            y: i,
            z: i,
            intensity: 0,
            flags: Flags::ThreeByte(0, 0, 0),
            scan_angle: ScanAngle::Scaled(0),
            user_data: 0,
            point_source_id: 0,
            gps_time: Some(1000.0 + f64::from(i)),
            color: Some(las::Color {
                red: 0,
                green: 0,
                blue: 0,
            }),
            waveform: None,
            nir: None,
            extra_bytes: Vec::new(),
        };
        rp.write_to(&mut buf, &format).unwrap();
    }
    las::PointDataBuilder::new()
        .with_format(format)
        .with_transforms(transforms)
        .build_from_bytes(buf)
        .unwrap()
}

fn make_chunk(cloud: las::PointData, fields: Fields) -> Chunk {
    Chunk::new(VoxelKey::root(), fields, cloud)
}

#[test]
fn indices_in_time_range_returns_none_without_gps_time_field() {
    let chunk = make_chunk(build_test_cloud(5), Fields::z());
    let r = indices_in_time_range(&chunk, t(1000.0), t(1003.0));
    assert!(r.is_none());
}

#[test]
fn indices_in_time_range_filters_window() {
    let chunk = make_chunk(build_test_cloud(5), Fields::all());
    // gps times: 1000, 1001, 1002, 1003, 1004
    let inside = indices_in_time_range(&chunk, t(1001.0), t(1003.0)).unwrap();
    assert_eq!(inside, vec![1, 2, 3]);
}

#[test]
fn indices_in_time_range_empty_when_outside() {
    let chunk = make_chunk(build_test_cloud(5), Fields::all());
    let inside = indices_in_time_range(&chunk, t(9000.0), t(10000.0)).unwrap();
    assert!(inside.is_empty());
}

#[test]
fn filter_points_by_time_excludes_none_gps_time() {
    let p = las::Point {
        gps_time: None,
        ..Default::default()
    };
    let filtered = filter_points_by_time(vec![p], t(0.0), t(10.0));
    assert!(filtered.is_empty());
}

#[test]
fn filter_points_by_time_keeps_the_window() {
    let points: Vec<las::Point> = [None, Some(1.0), Some(2.0), Some(f64::NAN), Some(3.0), Some(4.0)]
        .iter()
        .map(|time| las::Point {
            gps_time: *time,
            ..Default::default()
        })
        .collect();
    let filtered = filter_points_by_time(points, t(2.0), t(3.0));
    let times: Vec<Option<f64>> = filtered.iter().map(|p| p.gps_time).collect();
    assert_eq!(times, vec![Some(2.0), Some(3.0)]);
}

#[test]
fn indices_in_time_range_returns_none_without_gps_time_in_the_format() {
    let format = Format::new(0).unwrap();
    let cloud = las::PointDataBuilder::new()
        .with_format(format)
        .build_from_bytes(vec![0; 40])
        .unwrap();
    let chunk = make_chunk(cloud, Fields::all());
    assert_eq!(chunk.point_count(), 2);
    assert!(indices_in_time_range(&chunk, t(-1.0), t(1.0)).is_none());
}

use copc::header::{vlr_use, VlrUse};
use copc::reader::header_read_size;
use copc::{parse_header, CopcError, CopcHeader, CopcInfo, VlrData};
use las::point::Format;

fn info_payload() -> Vec<u8> {
    let mut data = Vec::new();
    for v in [100.0f64, 200.0, 10.0, 50.0, 1.5] {
        data.extend_from_slice(&v.to_le_bytes());
    }
    for v in [7000u64, 96] {
        data.extend_from_slice(&v.to_le_bytes());
    }
    for v in [1.0f64, 2.0] {
        data.extend_from_slice(&v.to_le_bytes());
    }
    data.resize(160, 0);
    data
}

fn laz_payload() -> Vec<u8> {
    let items = laz::LazItemRecordBuilder::default_for_point_format_id(7, 0).unwrap();
    let mut data = Vec::new();
    laz::LazVlr::from_laz_items(items).write_to(&mut data).unwrap();
    data
}

fn vlr(user_id: &str, record_id: u16, data: Vec<u8>) -> las::Vlr {
    las::Vlr {
        user_id: user_id.to_string(),
        record_id,
        description: "test".to_string(),
        data,
    }
}

/// The beginning of a file: a LAS 1.4 header and VLRs.
fn file_with(vlrs: Vec<las::Vlr>, evlr: Option<(u64, u32)>) -> Vec<u8> {
    let mut builder = las::Builder::from((1, 4));
    let mut format = Format::new(7).unwrap();
    format.is_compressed = true;
    builder.point_format = format;
    let mut raw = builder.into_header().unwrap().into_raw().unwrap();
    raw.number_of_variable_length_records = vlrs.len() as u32;
    raw.evlr = evlr.map(|(start_of_first_evlr, number_of_evlrs)| las::raw::header::Evlr {
        start_of_first_evlr,
        number_of_evlrs,
    });
    let mut file = Vec::new();
    raw.write_to(&mut file).unwrap();
    for vlr in vlrs {
        vlr.into_raw(false).unwrap().write_to(&mut file).unwrap();
    }
    file
}

fn good_vlrs() -> Vec<las::Vlr> {
    vec![
        vlr("copc", 1, info_payload()),
        vlr("other", 5, vec![1, 2, 3]),
        vlr("laszip encoded", 22204, laz_payload()),
    ]
}

fn error_of(file: &[u8]) -> CopcError {
    match parse_header(file) {
        Ok(_) => panic!("the header should be refused"),
        Err(e) => e,
    }
}

fn f(v: copc::Binary64) -> f64 {
    f64::from_bits(v.bits)
}

#[test]
fn a_header_is_parsed() {
    let file = file_with(good_vlrs(), Some((12345, 2)));
    let header: CopcHeader = parse_header(&file).unwrap();
    let info = header.copc_info();
    assert_eq!(
        [f(info.center[0]), f(info.center[1]), f(info.center[2])],
        [100.0, 200.0, 10.0]
    );
    assert_eq!((f(info.halfsize), f(info.spacing)), (50.0, 1.5));
    assert_eq!((info.root_hier_offset, info.root_hier_size), (7000, 96));
    assert_eq!(
        (f(info.gpstime_minimum), f(info.gpstime_maximum)),
        (1.0, 2.0)
    );
    assert_eq!((header.evlr_offset(), header.evlr_count()), (12345, 2));
    assert_eq!(header.laz_vlr().items().len(), 2);
    assert_eq!(header.las_header().vlrs().len(), 3);
    assert_eq!(header.las_header().vlrs()[1].data, vec![1, 2, 3]);
    assert!(header.las_header().point_format().has_color);
}

#[test]
fn there_may_be_no_evlrs() {
    let header = parse_header(&file_with(good_vlrs(), None)).unwrap();
    assert_eq!((header.evlr_offset(), header.evlr_count()), (0, 0));
}

#[test]
fn the_last_record_of_a_sort_counts() {
    let mut vlrs = good_vlrs();
    let mut second = info_payload();
    second[40..48].copy_from_slice(&8000u64.to_le_bytes());
    vlrs.push(vlr("copc", 1, second));
    let header = parse_header(&file_with(vlrs, None)).unwrap();
    assert_eq!(header.copc_info().root_hier_offset, 8000);
}

#[test]
fn other_ids_are_not_taken_for_copc_info() {
    for (user_id, record_id) in [("copc", 2), ("cop", 1), ("copcx", 1), ("COPC", 1)] {
        let mut vlrs = good_vlrs();
        vlrs[0] = vlr(user_id, record_id, info_payload());
        let file = file_with(vlrs, None);
        assert!(matches!(error_of(&file), CopcError::CopcInfoNotFound));
    }
}

#[test]
fn missing_records_are_errors() {
    let mut vlrs = good_vlrs();
    vlrs.remove(2);
    assert!(matches!(
        error_of(&file_with(vlrs, None)),
        CopcError::LazVlrNotFound
    ));
    assert!(matches!(
        error_of(&file_with(vec![], None)),
        CopcError::CopcInfoNotFound
    ));
}

#[test]
fn broken_records_are_errors() {
    let mut vlrs = good_vlrs();
    vlrs[0].data.pop();
    assert!(matches!(
        error_of(&file_with(vlrs, None)),
        CopcError::CopcInfoNotFound
    ));
    let mut vlrs = good_vlrs();
    vlrs[2].data.truncate(10);
    assert!(matches!(error_of(&file_with(vlrs, None)), CopcError::Laz(_)));
    let file = file_with(good_vlrs(), None);
    assert!(matches!(error_of(&file[..file.len() - 1]), CopcError::Las(_)));
}

#[test]
fn broken_las_headers_are_errors() {
    let file = file_with(good_vlrs(), None);
    assert!(matches!(error_of(&file[..374]), CopcError::Las(_)));
    assert!(matches!(error_of(&[]), CopcError::Las(_)));
    let mut unsigned = file.clone();
    unsigned[0] = b'X';
    assert!(matches!(error_of(&unsigned), CopcError::Las(_)));
    let mut unknown_format = file.clone();
    unknown_format[104] = 11;
    assert!(matches!(error_of(&unknown_format), CopcError::Las(_)));
    let mut short_records = file;
    short_records[105..107].copy_from_slice(&35u16.to_le_bytes());
    assert!(matches!(error_of(&short_records), CopcError::Las(_)));
}

/// A file of another version, with points in format 1.
fn old_file(minor: u8) -> Vec<u8> {
    let mut builder = las::Builder::from((1, minor));
    builder.point_format = Format::new(1).unwrap();
    let mut raw = builder.into_header().unwrap().into_raw().unwrap();
    let vlrs = good_vlrs();
    raw.number_of_variable_length_records = vlrs.len() as u32;
    let mut file = Vec::new();
    raw.write_to(&mut file).unwrap();
    for vlr in vlrs {
        vlr.into_raw(false).unwrap().write_to(&mut file).unwrap();
    }
    file
}

#[test]
fn versions_allow_what_they_have() {
    for minor in 0..4u8 {
        let file = old_file(minor);
        assert!(parse_header(&file).is_ok(), "1.{}", minor);
        let mut with_source_id = file.clone();
        with_source_id[4] = 9;
        assert_eq!(parse_header(&with_source_id).is_ok(), minor >= 1);
        let mut standard_time = file.clone();
        standard_time[6] = 1;
        assert_eq!(parse_header(&standard_time).is_ok(), minor >= 2);
        let mut synthetic = file.clone();
        synthetic[6] = 8;
        assert_eq!(parse_header(&synthetic).is_ok(), minor >= 3);
        for (format, least) in [(2u8, 2u8), (4, 3), (6, 4), (8, 4)] {
            let mut other_format = file.clone();
            other_format[104] = format;
            other_format[105..107].copy_from_slice(&100u16.to_le_bytes());
            assert_eq!(parse_header(&other_format).is_ok(), minor >= least);
        }
    }
    let mut unknown = old_file(2);
    unknown[25] = 5;
    assert!(matches!(error_of(&unknown), CopcError::Las(_)));
    unknown[24] = 2;
    assert!(matches!(error_of(&unknown), CopcError::Las(_)));
}

#[test]
fn longer_records_have_extra_bytes() {
    let mut file = file_with(good_vlrs(), None);
    file[105..107].copy_from_slice(&40u16.to_le_bytes());
    let header = parse_header(&file).unwrap();
    assert_eq!(header.las_header().point_format().extra_bytes, 4);
    assert_eq!(header.las_header().point_format().len(), 40);
}

#[test]
fn records_follow_the_header_as_long_as_it_is() {
    let mut file = file_with(good_vlrs(), None);
    file[94..96].copy_from_slice(&377u16.to_le_bytes());
    file.insert(375, 0);
    file.insert(376, 0);
    assert!(parse_header(&file).is_ok());
}

#[test]
fn copc_info_is_parsed() {
    let payload = info_payload();
    let info = CopcInfo::parse(&payload).unwrap();
    assert_eq!(f(info.spacing), 1.5);
    assert!(matches!(
        CopcInfo::parse(&payload[..159]),
        Err(CopcError::CopcInfoNotFound)
    ));
}

#[test]
fn records_are_told_apart() {
    let data = |user_id: &str, record_id: u16| VlrData {
        user_id: user_id.to_string(),
        record_id,
        data: vec![],
    };
    assert_eq!(vlr_use(&data("copc", 1)), VlrUse::CopcInfo);
    assert_eq!(vlr_use(&data("laszip encoded", 22204)), VlrUse::Laz);
    assert_eq!(vlr_use(&data("copc", 22204)), VlrUse::Other);
    assert_eq!(vlr_use(&data("laszip encoded", 1)), VlrUse::Other);
    assert_eq!(vlr_use(&data("", 1)), VlrUse::Other);
}

#[test]
fn a_header_needs_both_records() {
    let las_header = || las::Builder::from((1, 4)).into_header().unwrap();
    let info = CopcInfo::parse(&info_payload()).unwrap();
    let laz = || laz::LazVlr::from_buffer(laz_payload()).unwrap();
    assert!(CopcHeader::new(las_header(), Some(info), Some(laz()), Some((3, 4))).is_ok());
    assert!(matches!(
        CopcHeader::new(las_header(), None, None, None),
        Err(CopcError::CopcInfoNotFound)
    ));
    assert!(matches!(
        CopcHeader::new(las_header(), Some(info), None, None),
        Err(CopcError::LazVlrNotFound)
    ));
}

#[test]
fn as_much_is_read_as_there_is() {
    assert_eq!(header_read_size(None), 65536);
    assert_eq!(header_read_size(Some(100)), 100);
    assert_eq!(header_read_size(Some(65536)), 65536);
    assert_eq!(header_read_size(Some(1_000_000)), 65536);
}

use copc::{EvlrHeader, EvlrSearch, GpsTime, TemporalCache, TemporalError, VoxelKey};

fn t(v: f64) -> GpsTime {
    GpsTime::from_bits(v.to_bits())
}

fn key(level: i32, x: i32, y: i32, z: i32) -> VoxelKey {
    VoxelKey { level, x, y, z }
}

fn key_bytes(k: VoxelKey) -> Vec<u8> {
    let mut buf = Vec::new();
    for v in [k.level, k.x, k.y, k.z] {
        buf.extend_from_slice(&v.to_le_bytes());
    }
    buf
}

fn node(k: VoxelKey, samples: &[f64]) -> Vec<u8> {
    let mut buf = key_bytes(k);
    buf.extend_from_slice(&(samples.len() as u32).to_le_bytes());
    for s in samples {
        buf.extend_from_slice(&s.to_le_bytes());
    }
    buf
}

fn pointer(k: VoxelKey, offset: u64, size: u32, min: f64, max: f64) -> Vec<u8> {
    let mut buf = key_bytes(k);
    buf.extend_from_slice(&0u32.to_le_bytes());
    buf.extend_from_slice(&offset.to_le_bytes());
    buf.extend_from_slice(&size.to_le_bytes());
    buf.extend_from_slice(&min.to_le_bytes());
    buf.extend_from_slice(&max.to_le_bytes());
    buf
}

fn header(version: u32, stride: u32, root_offset: u64, root_size: u32) -> Vec<u8> {
    let mut buf = Vec::new();
    for v in [version, stride, 5, 3] {
        buf.extend_from_slice(&v.to_le_bytes());
    }
    buf.extend_from_slice(&root_offset.to_le_bytes());
    buf.extend_from_slice(&root_size.to_le_bytes());
    buf.extend_from_slice(&0u32.to_le_bytes());
    buf
}

fn evlr(user_id: &str, record_id: u16, data: &[u8]) -> Vec<u8> {
    let mut buf = vec![0u8; 60];
    buf[2..2 + user_id.len()].copy_from_slice(user_id.as_bytes());
    buf[18..20].copy_from_slice(&record_id.to_le_bytes());
    buf[20..28].copy_from_slice(&(data.len() as u64).to_le_bytes());
    buf.extend_from_slice(data);
    buf
}

/// A file with three pages: the root page, one for early times, and below that one for earlier
/// times still; and one for late times.
fn paged_file() -> (Vec<u8>, TemporalCache) {
    let earliest = node(key(3, 0, 0, 0), &[1.0, 2.0]);
    let earliest_at = 1000u64;
    let mut early = node(key(2, 0, 0, 0), &[10.0, 20.0]);
    early.extend(pointer(
        key(2, 0, 0, 0),
        earliest_at,
        earliest.len() as u32,
        1.0,
        2.0,
    ));
    let early_at = 2000u64;
    let late = node(key(2, 2, 0, 0), &[100.0, 200.0]);
    let late_at = 3000u64;
    let mut root = node(key(0, 0, 0, 0), &[1.0, 200.0]);
    root.extend(pointer(key(1, 0, 0, 0), early_at, early.len() as u32, 1.0, 20.0));
    root.extend(pointer(key(1, 1, 0, 0), late_at, late.len() as u32, 100.0, 200.0));
    let root_at = 4000u64;
    let mut file = vec![0u8; 5000];
    for (at, page) in [
        (earliest_at, &earliest),
        (early_at, &early),
        (late_at, &late),
        (root_at, &root),
    ] {
        file[at as usize..at as usize + page.len()].copy_from_slice(page);
    }
    let mut cache = TemporalCache::new();
    cache
        .load_header(&header(1, 10, root_at, root.len() as u32))
        .unwrap();
    (file, cache)
}

fn read(file: &[u8], range: (u64, u64)) -> Vec<u8> {
    file[range.0 as usize..(range.0 + range.1) as usize].to_vec()
}

fn load_for(cache: &mut TemporalCache, file: &[u8], start: f64, end: f64) {
    loop {
        let ranges = cache.take_pages_for_time_range(t(start), t(end));
        if ranges.is_empty() {
            break;
        }
        let pages: Vec<Vec<u8>> = ranges.iter().map(|r| read(file, *r)).collect();
        cache.load_pages(&pages).unwrap();
    }
}

fn found(cache: &TemporalCache, start: f64, end: f64) -> Vec<VoxelKey> {
    let mut keys: Vec<VoxelKey> = cache
        .nodes_in_range(t(start), t(end))
        .iter()
        .map(|e| e.key())
        .collect();
    keys.sort_by_key(|k| (k.level, k.x));
    keys
}

#[test]
fn pages_are_loaded_for_a_time_range() {
    let (file, mut cache) = paged_file();
    let root = cache.root_page_request().unwrap();
    cache.load_root_page(&read(&file, root)).unwrap();
    assert_eq!(cache.len(), 1);
    assert_eq!(cache.stride(), 10);

    load_for(&mut cache, &file, 15.0, 30.0);
    assert_eq!(found(&cache, 15.0, 30.0), vec![key(0, 0, 0, 0), key(2, 0, 0, 0)]);
    assert_eq!(cache.len(), 2);

    load_for(&mut cache, &file, 0.0, 1.5);
    assert_eq!(found(&cache, 0.0, 1.5), vec![key(0, 0, 0, 0), key(3, 0, 0, 0)]);

    // The page for late times was never needed.
    assert!(cache.get(&key(2, 2, 0, 0)).is_none());
    assert_eq!(cache.take_all_pages(), vec![(3000, 36)]);
    assert!(cache.take_all_pages().is_empty());
}

#[test]
fn all_pages_can_be_loaded() {
    let (file, mut cache) = paged_file();
    let root = cache.root_page_request().unwrap();
    cache.load_root_page(&read(&file, root)).unwrap();
    let mut rounds = 0;
    loop {
        let ranges = cache.take_all_pages();
        if ranges.is_empty() {
            break;
        }
        let pages: Vec<Vec<u8>> = ranges.iter().map(|r| read(&file, *r)).collect();
        cache.load_pages(&pages).unwrap();
        rounds += 1;
    }
    assert_eq!(rounds, 2);
    assert_eq!(cache.len(), 4);
    assert_eq!(cache.iter().len(), 4);
    assert_eq!(found(&cache, 150.0, 160.0), vec![key(0, 0, 0, 0), key(2, 2, 0, 0)]);
}

#[test]
fn passing_over_pages_leaves_no_node_out() {
    let (file, mut whole) = paged_file();
    let range = whole.root_page_request().unwrap();
    whole.load_root_page(&read(&file, range)).unwrap();
    load_for(&mut whole, &file, 0.0, 1000.0);
    assert_eq!(whole.len(), 4);
    for (start, end) in [(0.0, 1.5), (2.0, 10.0), (15.0, 99.0), (30.0, 40.0), (150.0, 150.0)] {
        let (file, mut cache) = paged_file();
        cache.load_root_page(&read(&file, range)).unwrap();
        load_for(&mut cache, &file, start, end);
        assert_eq!(found(&cache, start, end), found(&whole, start, end));
    }
}

#[test]
fn nothing_is_known_without_a_header() {
    let mut cache = TemporalCache::default();
    assert!(cache.header().is_none());
    assert!(cache.is_empty());
    assert_eq!(cache.stride(), 0);
    assert!(matches!(
        cache.root_page_request(),
        Err(TemporalError::TruncatedHeader)
    ));
    let page = node(key(0, 0, 0, 0), &[1.0]);
    assert!(matches!(
        cache.load_root_page(&page),
        Err(TemporalError::TruncatedHeader)
    ));
    assert!(cache.is_empty());
    assert!(cache.nodes_in_range(t(0.0), t(2.0)).is_empty());
}

#[test]
fn headers_are_checked() {
    let mut cache = TemporalCache::new();
    let good = header(1, 10, 4000, 77);
    assert!(matches!(
        cache.load_header(&good[..31]),
        Err(TemporalError::TruncatedHeader)
    ));
    assert!(matches!(
        cache.load_header(&header(2, 10, 0, 0)),
        Err(TemporalError::UnsupportedVersion(2))
    ));
    assert!(matches!(
        cache.load_header(&header(1, 0, 0, 0)),
        Err(TemporalError::InvalidStride(0))
    ));
    assert!(cache.header().is_none());
    cache.load_header(&good).unwrap();
    let h = cache.header().unwrap();
    assert_eq!((h.version, h.stride, h.node_count, h.page_count), (1, 10, 5, 3));
    assert_eq!((h.root_page_offset, h.root_page_size), (4000, 77));
    assert_eq!(cache.root_page_request().unwrap(), (4000, 77));
}

#[test]
fn a_page_that_is_cut_off_keeps_what_came_before() {
    let mut cache = TemporalCache::new();
    cache.load_header(&header(1, 10, 0, 0)).unwrap();
    let mut page = node(key(0, 0, 0, 0), &[1.0]);
    page.extend(node(key(1, 0, 0, 0), &[2.0, 3.0]));
    page.truncate(page.len() - 8);
    let later = node(key(1, 1, 0, 0), &[4.0]);
    let r = cache.load_pages(&[page, later]);
    assert!(matches!(r, Err(TemporalError::Io(_))));
    assert_eq!(cache.len(), 1);
    assert!(cache.get(&key(0, 0, 0, 0)).is_some());
}

#[test]
fn padding_after_the_last_entry_is_ignored() {
    let mut cache = TemporalCache::new();
    cache.load_header(&header(1, 10, 0, 0)).unwrap();
    let mut page = node(key(0, 0, 0, 0), &[1.0]);
    page.extend_from_slice(&[9; 19]);
    cache.load_root_page(&page).unwrap();
    assert_eq!(cache.len(), 1);
}

/// Scan the EVLRs of a file for the header of the temporal index.
fn search(file: &[u8], offset: u64, count: u32) -> Result<Option<(u64, u64)>, TemporalError> {
    let mut search = EvlrSearch::new(offset, count);
    while let Some((at, length)) = search.request() {
        let end = file.len().min((at + length) as usize);
        let evlr = EvlrHeader::parse(&file[at as usize..end])?;
        if let Some(range) = search.step(&evlr) {
            return Ok(Some(range));
        }
    }
    Ok(None)
}

#[test]
fn the_temporal_record_is_found() {
    let mut file = vec![0u8; 100];
    file.extend(evlr("copc", 1000, &[1; 50]));
    file.extend(evlr("copc_temporal", 1, &[2; 7]));
    file.extend(evlr("copc_temporal2", 1000, &[]));
    let at = file.len() as u64;
    file.extend(evlr("copc_temporal", 1000, &header(1, 10, 0, 0)));
    assert_eq!(search(&file, 100, 4).unwrap(), Some((at + 60, 32)));
    assert_eq!(search(&file, 100, 3).unwrap(), None);
    assert_eq!(search(&file, 100, 0).unwrap(), None);
}

#[test]
fn an_evlr_header_that_is_cut_off_is_an_error() {
    let file = evlr("copc", 1000, &[]);
    assert!(matches!(
        search(&file[..27], 0, 1),
        Err(TemporalError::Io(_))
    ));
    assert!(EvlrHeader::parse(&file[..28]).is_ok());
    assert!(EvlrHeader::parse(&[]).is_err());
}

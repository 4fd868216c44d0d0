use byteorder::{LittleEndian, WriteBytesExt};
use copc::{Aabb, Binary64, HierarchyCache, VoxelKey};

fn b(v: f64) -> Binary64 {
    Binary64::from_bits(v.to_bits())
}

fn aabb(min: [f64; 3], max: [f64; 3]) -> Aabb {
    Aabb {
        min: [b(min[0]), b(min[1]), b(min[2])],
        max: [b(max[0]), b(max[1]), b(max[2])],
    }
}

/// The box of a node, where the root covers `[0..100]` on each axis.
fn node_bounds(key: VoxelKey) -> Aabb {
    let side = 100.0 / 2_u32.pow(key.level as u32) as f64;
    let (x, y, z) = (key.x as f64, key.y as f64, key.z as f64);
    aabb(
        [x * side, y * side, z * side],
        [(x + 1.0) * side, (y + 1.0) * side, (z + 1.0) * side],
    )
}

fn key(level: i32, x: i32, y: i32, z: i32) -> VoxelKey {
    VoxelKey { level, x, y, z }
}

#[allow(clippy::too_many_arguments)]
fn write_hierarchy_entry(
    buf: &mut Vec<u8>,
    level: i32,
    x: i32,
    y: i32,
    z: i32,
    offset: u64,
    byte_size: i32,
    point_count: i32,
) {
    buf.write_i32::<LittleEndian>(level).unwrap();
    buf.write_i32::<LittleEndian>(x).unwrap();
    buf.write_i32::<LittleEndian>(y).unwrap();
    buf.write_i32::<LittleEndian>(z).unwrap();
    buf.write_u64::<LittleEndian>(offset).unwrap();
    buf.write_i32::<LittleEndian>(byte_size).unwrap();
    buf.write_i32::<LittleEndian>(point_count).unwrap();
}

/// Build a source containing:
/// - Root page at offset 0: root node + two page pointers (left child, right child)
/// - Left child page at some offset: a single node entry
/// - Right child page at some offset: a single node entry
///
/// Level-1 child (1,0,0,0) covers [0..50] on x -> "left"
/// Level-1 child (1,1,0,0) covers [50..100] on x -> "right"
fn build_two_child_source() -> Vec<u8> {
    // Build child pages first so we know their offsets
    let mut left_page = Vec::new();
    // Node in left subtree: level 2, (0,0,0)
    write_hierarchy_entry(&mut left_page, 2, 0, 0, 0, 9000, 64, 10);

    let mut right_page = Vec::new();
    // Node in right subtree: level 2, (2,0,0)
    write_hierarchy_entry(&mut right_page, 2, 2, 0, 0, 9500, 64, 20);

    // Root page: root node + two page pointers
    let mut root_page = Vec::new();
    write_hierarchy_entry(&mut root_page, 0, 0, 0, 0, 1000, 256, 100);

    // root_page will have 3 entries (root node + 2 page pointers) = 96 bytes
    let left_page_offset = 3 * 32u64;
    let right_page_offset = left_page_offset + left_page.len() as u64;
    let (left_size, right_size) = (left_page.len() as i32, right_page.len() as i32);
    write_hierarchy_entry(&mut root_page, 1, 0, 0, 0, left_page_offset, left_size, -1);
    write_hierarchy_entry(&mut root_page, 1, 1, 0, 0, right_page_offset, right_size, -1);

    let mut source = root_page;
    source.extend_from_slice(&left_page);
    source.extend_from_slice(&right_page);
    source
}

fn read(source: &[u8], ranges: &[(u64, u64)]) -> Vec<Vec<u8>> {
    ranges
        .iter()
        .map(|&(offset, size)| source[offset as usize..(offset + size) as usize].to_vec())
        .collect()
}

/// Load only pending pages whose subtree intersects `bounds`.
fn load_pages_for_bounds(cache: &mut HierarchyCache, source: &[u8], bounds: &Aabb) {
    loop {
        let ranges = cache.take_pages_for_bounds(bounds, node_bounds);
        if ranges.is_empty() {
            break;
        }
        cache.load_pages(&ranges, &read(source, &ranges)).unwrap();
    }
}

/// The same, down to `max_level`.
fn load_pages_for_bounds_to_level(
    cache: &mut HierarchyCache,
    source: &[u8],
    bounds: &Aabb,
    max_level: i32,
) {
    loop {
        let ranges = cache.take_pages_for_bounds_to_level(bounds, node_bounds, max_level);
        if ranges.is_empty() {
            break;
        }
        cache.load_pages(&ranges, &read(source, &ranges)).unwrap();
    }
}

#[test]
fn test_load_pages_for_bounds_filters_spatially() {
    let source = build_two_child_source();

    let mut cache = HierarchyCache::new();
    // Parse root page (offset 0, 96 bytes = 3 entries)
    cache.parse_page(&source[..96]).unwrap();

    assert_eq!(cache.len(), 1); // root node
    assert_eq!(cache.pending_keys().len(), 2); // left + right page pointers

    // Query only the left side: x in [0..30]
    let left_query = aabb([0.0, 0.0, 0.0], [30.0, 100.0, 100.0]);
    load_pages_for_bounds(&mut cache, &source, &left_query);

    // Should have loaded left child page (level 2, node (2,0,0,0))
    assert_eq!(cache.len(), 2); // root + left level-2 node
    assert!(cache.get(&key(2, 0, 0, 0)).is_some());

    // Right page should still be pending
    assert_eq!(cache.pending_keys().len(), 1);
    assert_eq!(cache.pending_keys()[0], key(1, 1, 0, 0));

    // Now load with a right-side query
    let right_query = aabb([60.0, 0.0, 0.0], [100.0, 100.0, 100.0]);
    load_pages_for_bounds(&mut cache, &source, &right_query);

    assert_eq!(cache.len(), 3); // root + left + right level-2 nodes
    assert!(cache.get(&key(2, 2, 0, 0)).is_some());
    assert!(cache.pending_keys().is_empty());
}

#[test]
fn test_load_pages_for_bounds_to_level_stops_at_max_level() {
    let source = build_two_child_source();

    let mut cache = HierarchyCache::new();
    cache.parse_page(&source[..96]).unwrap();

    assert_eq!(cache.len(), 1); // root node
    assert_eq!(cache.pending_keys().len(), 2); // level-1 page pointers

    // Query the entire bounds but limit to level 0: no pages should load because the pending pages
    // are level-1 pointers.
    let full_query = aabb([0.0, 0.0, 0.0], [100.0, 100.0, 100.0]);
    load_pages_for_bounds_to_level(&mut cache, &source, &full_query, 0);

    assert_eq!(cache.len(), 1); // still just root
    assert_eq!(cache.pending_keys().len(), 2); // both pages still pending

    // Now allow level 1: both pages should load
    load_pages_for_bounds_to_level(&mut cache, &source, &full_query, 1);

    assert_eq!(cache.len(), 3); // root + two level-2 nodes
    assert!(cache.pending_keys().is_empty());
}

#[test]
fn the_greatest_level_is_no_limit() {
    let source = build_two_child_source();
    let left_query = aabb([0.0, 0.0, 0.0], [30.0, 100.0, 100.0]);
    let mut limited = HierarchyCache::new();
    limited.parse_page(&source[..96]).unwrap();
    load_pages_for_bounds_to_level(&mut limited, &source, &left_query, i32::MAX);
    let mut unlimited = HierarchyCache::new();
    unlimited.parse_page(&source[..96]).unwrap();
    load_pages_for_bounds(&mut unlimited, &source, &left_query);
    assert_eq!(limited.len(), 2);
    assert_eq!(unlimited.len(), 2);
    assert_eq!(limited.pending_keys(), unlimited.pending_keys());
    for (k, entry) in unlimited.iter() {
        assert_eq!(limited.get(k).unwrap().offset, entry.offset);
    }
}

#[test]
fn test_parse_hierarchy_page() {
    let mut page_data = Vec::new();
    write_hierarchy_entry(&mut page_data, 0, 0, 0, 0, 1000, 256, 100);
    write_hierarchy_entry(&mut page_data, 1, 0, 0, 0, 2000, 512, 50);
    write_hierarchy_entry(&mut page_data, 1, 1, 0, 0, 5000, 128, -1);

    let mut cache = HierarchyCache::new();
    cache.parse_page(&page_data).unwrap();

    assert_eq!(cache.len(), 2); // 2 node entries
    assert_eq!(cache.pending_keys().len(), 1); // 1 page pointer

    let root = cache.get(&key(0, 0, 0, 0)).unwrap();
    assert_eq!(root.point_count, 100);
    assert_eq!(root.offset, 1000);
}

#[test]
fn invalid_entries_and_padding_are_passed_over() {
    let mut page = Vec::new();
    write_hierarchy_entry(&mut page, 0, 0, 0, 0, 1000, 256, -2);
    write_hierarchy_entry(&mut page, 1, 0, 0, 0, 2000, -5, 50);
    write_hierarchy_entry(&mut page, 1, 1, 0, 0, 3000, 0, 0);
    page.extend_from_slice(&[0xff; 31]);
    let mut cache = HierarchyCache::new();
    cache.parse_page(&page).unwrap();
    assert_eq!(cache.len(), 1);
    assert!(!cache.has_pending_pages());
    let entry = cache.get(&key(1, 1, 0, 0)).unwrap();
    assert_eq!(entry.key, key(1, 1, 0, 0));
    assert_eq!((entry.offset, entry.byte_size, entry.point_count), (3000, 0, 0));
}

#[test]
fn the_last_entry_of_a_node_counts() {
    let mut page = Vec::new();
    write_hierarchy_entry(&mut page, 3, -1, 2, -3, 1000, 1, 10);
    write_hierarchy_entry(&mut page, 3, -1, 2, -3, 2000, 2, 20);
    let mut cache = HierarchyCache::default();
    assert!(cache.is_empty());
    cache.parse_page(&page).unwrap();
    assert_eq!(cache.len(), 1);
    assert_eq!(cache.get(&key(3, -1, 2, -3)).unwrap().point_count, 20);
    assert!(!cache.is_empty());
}

#[test]
fn a_page_of_negative_size_is_asked_for_as_the_cast_gives_it() {
    let mut page = Vec::new();
    write_hierarchy_entry(&mut page, 1, 0, 0, 0, 77, -2, -1);
    let mut cache = HierarchyCache::new();
    cache.parse_page(&page).unwrap();
    assert_eq!(cache.take_pending_pages(), vec![(77, -2i32 as u64)]);
    assert!(!cache.has_pending_pages());
}

#[test]
fn all_pages_are_loaded_level_by_level() {
    let source = build_two_child_source();
    let mut cache = HierarchyCache::new();
    cache.load_root(&source[..96]).unwrap();
    // The root page is loaded once.
    cache.load_root(&source[..96]).unwrap();
    assert_eq!(cache.pending_keys(), vec![key(1, 0, 0, 0), key(1, 1, 0, 0)]);
    let mut rounds = 0;
    while cache.has_pending_pages() {
        let ranges = cache.take_pending_pages();
        cache.load_pages(&ranges, &read(&source, &ranges)).unwrap();
        rounds += 1;
    }
    assert_eq!(rounds, 1);
    let mut keys: Vec<VoxelKey> = cache.iter().iter().map(|(k, _)| **k).collect();
    keys.sort_by_key(|k| (k.level, k.x));
    assert_eq!(
        keys,
        vec![key(0, 0, 0, 0), key(2, 0, 0, 0), key(2, 2, 0, 0)]
    );
}

#[test]
fn pages_below_pages_are_loaded_too() {
    let mut root = Vec::new();
    write_hierarchy_entry(&mut root, 0, 0, 0, 0, 1000, 10, 1);
    write_hierarchy_entry(&mut root, 1, 0, 0, 0, 64, 96, -1);
    let mut middle = Vec::new();
    write_hierarchy_entry(&mut middle, 1, 0, 0, 0, 2000, 20, 2);
    write_hierarchy_entry(&mut middle, 2, 0, 0, 0, 0, 0, -7);
    write_hierarchy_entry(&mut middle, 2, 1, 1, 1, 160, 32, -1);
    let mut low = Vec::new();
    write_hierarchy_entry(&mut low, 2, 1, 1, 1, 3000, 30, 3);
    let source: Vec<u8> = root.into_iter().chain(middle).chain(low).collect();

    let mut cache = HierarchyCache::new();
    cache.load_root(&source[..64]).unwrap();
    let mut rounds = 0;
    while cache.has_pending_pages() {
        let ranges = cache.take_pending_pages();
        cache.load_pages(&ranges, &read(&source, &ranges)).unwrap();
        rounds += 1;
    }
    assert_eq!(rounds, 2);
    assert_eq!(cache.len(), 3);
    for (k, points) in [(key(0, 0, 0, 0), 1), (key(1, 0, 0, 0), 2), (key(2, 1, 1, 1), 3)] {
        assert_eq!(cache.get(&k).unwrap().point_count, points);
    }
    assert!(cache.get(&key(2, 0, 0, 0)).is_none());
}

#[test]
fn pages_without_a_range_are_left_out() {
    let source = build_two_child_source();
    let mut cache = HierarchyCache::new();
    let pages = vec![source[..32].to_vec(), source[96..128].to_vec()];
    cache.load_pages(&[(0, 32)], &pages).unwrap();
    assert_eq!(cache.len(), 1);
}

use rfsd::error::MetadataError;
use rfsd::ingest::{resolve_ingest_target, FileAssembly, IngestError};
use rfsd::listing::{record_child_growth, resolve_component, DirStep, DirectoryListing};
use rfsd::lock::FileLock;
use rfsd::model::{DirectoryInfo, Entry, FileEntry, Timestamp};
use rfsd::pool::{get_pool_path_by_id, PoolRegistry};
use rfsd::slicer::{chunk_ranges, BUFFER_SIZE, CHUNK_SIZE};
use rfsd::store::{place_block, BlockPlacement, ChainEntry};
use rfsd::digest::calculate_xxh3_128;

const T0: Timestamp = Timestamp { secs: 1_700_000_000, nanos: 5 };
const T1: Timestamp = Timestamp { secs: 1_700_000_100, nanos: 0 };

fn file(cid: &str, size: u64) -> FileEntry {
    FileEntry { cid: cid.to_string(), size, created_at: T0, modified_at: T0 }
}

fn dir_size(l: &DirectoryListing, name: &str) -> u64 {
    match l.get(name) {
        Some(Entry::Directory(d)) => d.size,
        other => panic!("no directory {}: {:?}", name, other),
    }
}

#[test]
fn empty_listing_has_nothing() {
    let l = DirectoryListing::new();
    assert_eq!(l.len(), 0);
    assert!(!l.contains_key("a"));
    assert!(l.get("a").is_none());
}

#[test]
fn duplicate_file_name_is_refused() {
    let mut l = DirectoryListing::new();
    l.insert_file("a", file("AAAAA", 100)).unwrap();
    match l.insert_file("a", file("BBBBB", 5)) {
        Err(MetadataError::EntryAlreadyExists(n)) => assert_eq!(n, "a"),
        other => panic!("unexpected {:?}", other),
    }
    assert_eq!(l.len(), 1);
    assert_eq!(l.get("a").unwrap().size(), 100);
    assert_eq!(l.get("a").unwrap().cid(), "AAAAA");
}

#[test]
fn insert_entry_keeps_names_unique() {
    let mut l = DirectoryListing::new();
    assert!(l.insert_entry("x".to_string(), Entry::File(file("C0001", 1))));
    assert!(!l.insert_entry("x".to_string(), Entry::File(file("C0002", 2))));
    assert!(l.insert_entry("y".to_string(), Entry::File(file("C0003", 3))));
    assert_eq!(l.len(), 2);
    let (n, e) = l.entry_at(1);
    assert_eq!(n, "y");
    assert_eq!(e.size(), 3);
}

#[test]
fn resolve_creates_then_descends() {
    let mut l = DirectoryListing::new();
    match resolve_component(&mut l, "d1", "CidA1".to_string(), T0).unwrap() {
        DirStep::Created(c) => assert_eq!(c, "CidA1"),
        other => panic!("unexpected {:?}", other),
    }
    match l.get("d1") {
        Some(Entry::Directory(d)) => {
            assert_eq!(d.cid, "CidA1");
            assert_eq!(d.size, 0);
            assert_eq!(d.created_at, T0);
            assert_eq!(d.modified_at, T0);
        }
        other => panic!("unexpected {:?}", other),
    }
    match resolve_component(&mut l, "d1", "Other".to_string(), T1).unwrap() {
        DirStep::Existing(c) => assert_eq!(c, "CidA1"),
        other => panic!("unexpected {:?}", other),
    }
    assert_eq!(l.len(), 1);
}

#[test]
fn resolve_through_a_file_fails() {
    let mut l = DirectoryListing::new();
    l.insert_file("f", file("FFFFF", 3)).unwrap();
    match resolve_component(&mut l, "f", "NewCd".to_string(), T0) {
        Err(MetadataError::NotADirectory(n)) => assert_eq!(n, "f"),
        other => panic!("unexpected {:?}", other),
    }
    assert_eq!(l.len(), 1);
}

#[test]
fn growth_updates_size_and_mtime_of_directories_only() {
    let mut l = DirectoryListing::new();
    l.insert_entry(
        "d".to_string(),
        Entry::Directory(DirectoryInfo { cid: "DDDDD".to_string(), size: 10, created_at: T0, modified_at: T0 }),
    );
    l.insert_file("f", file("FFFFF", 3)).unwrap();
    record_child_growth(&mut l, "d", 90, T1);
    match l.get("d") {
        Some(Entry::Directory(d)) => {
            assert_eq!(d.size, 100);
            assert_eq!(d.modified_at, T1);
            assert_eq!(d.created_at, T0);
            assert_eq!(d.cid, "DDDDD");
        }
        other => panic!("unexpected {:?}", other),
    }
    record_child_growth(&mut l, "f", 90, T1);
    assert_eq!(l.get("f").unwrap().size(), 3);
    record_child_growth(&mut l, "missing", 90, T1);
    assert_eq!(l.len(), 2);
    record_child_growth(&mut l, "d", u64::MAX, T1);
    assert_eq!(dir_size(&l, "d"), u64::MAX);
}

#[test]
fn minted_cids_avoid_the_listing() {
    let mut l = DirectoryListing::new();
    l.insert_file("a", file("AAAAA", 1)).unwrap();
    let siblings = vec!["AAAAA.json".to_string(), "metadata.json".to_string()];
    let c = l.mint_cid(&siblings).unwrap();
    assert_eq!(c.len(), 5);
    assert!(!l.cid_in_use(&c));
    assert!(!siblings.contains(&format!("{}.json", c)));
    assert!(l.cid_in_use(&"AAAAA".to_string()));
    assert!(DirectoryListing::new().mint_cid(&Vec::new()).is_some());
}

#[test]
fn pool_lookup_finds_first_registration() {
    let mut pools = PoolRegistry::new();
    pools.add(1, "/srv/one".to_string());
    pools.add(2, "/srv/two".to_string());
    pools.add(1, "/srv/shadow".to_string());
    assert_eq!(get_pool_path_by_id(&pools, 1).as_deref(), Some("/srv/one"));
    assert_eq!(get_pool_path_by_id(&pools, 2).as_deref(), Some("/srv/two"));
    assert_eq!(get_pool_path_by_id(&pools, 3), None);
}

#[test]
fn ingest_target_checks_name_then_pool() {
    let mut pools = PoolRegistry::new();
    pools.add(9, "/srv/nine".to_string());
    assert_eq!(resolve_ingest_target(&pools, "a.txt", 9).unwrap(), "/srv/nine");
    assert!(matches!(resolve_ingest_target(&pools, "a.txt", 8), Err(IngestError::PoolNotFound(8))));
    assert!(matches!(
        resolve_ingest_target(&pools, "bad.", 8),
        Err(IngestError::Metadata(MetadataError::InvalidPathComponent(_)))
    ));
    assert!(matches!(
        resolve_ingest_target(&pools, "", 9),
        Err(IngestError::Metadata(MetadataError::EmptyPathComponent))
    ));
}

#[test]
fn lock_sentinel_sits_beside_the_target() {
    let l = FileLock::for_target("/p/metadata/metadata.json");
    assert_eq!(l.lock_path(), "/p/metadata/metadata.json.lock");
}

#[test]
fn chunk_ranges_cover_the_buffer() {
    assert!(chunk_ranges(0).is_empty());
    assert_eq!(chunk_ranges(100), vec![(0, 100)]);
    assert_eq!(chunk_ranges(CHUNK_SIZE), vec![(0, CHUNK_SIZE)]);
    assert_eq!(chunk_ranges(CHUNK_SIZE + 1), vec![(0, CHUNK_SIZE), (CHUNK_SIZE, CHUNK_SIZE + 1)]);
}

#[test]
fn exact_multiple_ends_in_a_full_chunk() {
    let r = chunk_ranges(2 * CHUNK_SIZE);
    assert_eq!(r, vec![(0, CHUNK_SIZE), (CHUNK_SIZE, 2 * CHUNK_SIZE)]);
    let full = chunk_ranges(BUFFER_SIZE);
    assert_eq!(full.len(), BUFFER_SIZE / CHUNK_SIZE);
    assert!(full.iter().all(|(a, b)| b - a == CHUNK_SIZE));
}

#[test]
fn chunks_are_contiguous_across_buffers() {
    let source: Vec<u8> = (0..(3 * CHUNK_SIZE + 77)).map(|i| (i % 251) as u8).collect();
    // Two reads of uneven size, as a short read would give.
    let reads = [CHUNK_SIZE + 10, source.len() - (CHUNK_SIZE + 10)];
    let mut rebuilt = Vec::new();
    let mut offset = 0;
    let mut chunks = 0;
    for n in reads {
        let buf = &source[offset..offset + n];
        for (a, b) in chunk_ranges(n) {
            assert!(b > a && b - a <= CHUNK_SIZE);
            rebuilt.extend_from_slice(&buf[a..b]);
            chunks += 1;
        }
        offset += n;
    }
    assert_eq!(rebuilt, source);
    assert_eq!(chunks, 5);
}

#[test]
fn zero_byte_file_has_empty_block_map() {
    let a = FileAssembly::new();
    assert_eq!(a.total_size(), 0);
    assert_eq!(a.block_count(), 0);
    let m = a.finish("e", T0);
    assert_eq!(m.size, 0);
    assert!(m.blocks.is_empty());
    assert_eq!(m.filename, "e");
    assert_eq!(m.created_at, T0);
    assert_eq!(m.modified_at, T0);
}

#[test]
fn assembly_records_blocks_in_order() {
    let mut a = FileAssembly::new();
    a.record_chunk(&[1u8; 10], 5, 1);
    a.record_chunk(&[2u8; 4], 6, 2);
    assert_eq!(a.total_size(), 14);
    assert_eq!(a.block_count(), 2);
    let m = a.finish_now("f");
    assert_eq!(m.size, 14);
    assert_eq!(m.created_at, m.modified_at);
    assert_eq!((m.blocks[0].xxh3, m.blocks[0].index), (5, 1));
    assert_eq!((m.blocks[1].xxh3, m.blocks[1].index), (6, 2));
}

/// Stores every chunk of `data` in an in-memory pool and returns the file's block map.
fn ingest(pool: &mut Vec<(u128, ChainEntry)>, data: &[u8], name: &str) -> rfsd::model::FileMetadata {
    let mut a = FileAssembly::new();
    for (s, e) in chunk_ranges(data.len()) {
        let chunk = &data[s..e];
        let fp = calculate_xxh3_128(chunk);
        let chain: Vec<ChainEntry> = pool
            .iter()
            .filter(|(f, _)| *f == fp)
            .map(|(_, c)| ChainEntry { index: c.index, data: c.data.clone() })
            .collect();
        let p = place_block(&chain, fp, chunk).unwrap();
        if let BlockPlacement::New(n) = p {
            pool.push((fp, ChainEntry { index: n, data: chunk.to_vec() }));
        }
        a.record_chunk(chunk, fp, p.index());
    }
    a.finish(name, T0)
}

#[test]
fn scenario_empty_file_into_root() {
    let mut pool = Vec::new();
    let m = ingest(&mut pool, &[], "e");
    let mut root = DirectoryListing::new();
    root.insert_file("e", m.entry("EEEEE".to_string())).unwrap();
    assert_eq!(root.len(), 1);
    assert!(matches!(root.get("e"), Some(Entry::File(f)) if f.size == 0));
    assert!(pool.is_empty());
}

#[test]
fn scenario_small_file_in_nested_directories() {
    let mut pool = Vec::new();
    let m = ingest(&mut pool, &[0xAA; 100], "a");
    assert_eq!(pool.len(), 1);
    assert_eq!(pool[0].1.index, 1);
    assert_eq!(m.blocks.len(), 1);
    assert_eq!(m.blocks[0].index, 1);

    let mut root = DirectoryListing::new();
    let mut d1 = DirectoryListing::new();
    let mut d2 = DirectoryListing::new();
    resolve_component(&mut root, "d1", "Cd001".to_string(), T0).unwrap();
    resolve_component(&mut d1, "d2", "Cd002".to_string(), T0).unwrap();
    d2.insert_file("a", m.entry("Cf001".to_string())).unwrap();
    record_child_growth(&mut d1, "d2", m.size, T1);
    record_child_growth(&mut root, "d1", m.size, T1);
    assert_eq!(dir_size(&root, "d1"), 100);
    assert_eq!(dir_size(&d1, "d2"), 100);
    assert_eq!(d2.get("a").unwrap().size(), 100);

    // A second file of the same name in /d1/d2 is refused and changes nothing.
    match d2.insert_file("a", file("Cf002", 7)) {
        Err(MetadataError::EntryAlreadyExists(n)) => assert_eq!(n, "a"),
        other => panic!("unexpected {:?}", other),
    }
    assert_eq!(d2.len(), 1);
    assert_eq!(d2.get("a").unwrap().cid(), "Cf001");
}

#[test]
fn scenario_dedup_within_one_file() {
    let mut pool = Vec::new();
    let half: Vec<u8> = (0..CHUNK_SIZE).map(|i| (i % 13) as u8).collect();
    let mut data = half.clone();
    data.extend_from_slice(&half);
    let m = ingest(&mut pool, &data, "twice");
    assert_eq!(m.size, 2 * CHUNK_SIZE as u64);
    assert_eq!(m.blocks.len(), 2);
    assert_eq!(m.blocks[0], m.blocks[1]);
    assert_eq!(m.blocks[0].index, 1);
    assert_eq!(pool.len(), 1);
}

#[test]
fn scenario_cross_file_dedup() {
    let mut pool = Vec::new();
    let data: Vec<u8> = (0..(CHUNK_SIZE * 2 + 500)).map(|i| (i % 97) as u8).collect();
    let x = ingest(&mut pool, &data, "x");
    let stored = pool.len();
    let y = ingest(&mut pool, &data, "y");
    assert_eq!(pool.len(), stored);
    assert_eq!(x.blocks, y.blocks);
    assert_eq!(x.size, y.size);
}

#[test]
fn scenario_collision_chain() {
    // Two different chunks filed under one fingerprint.
    let fp: u128 = 42;
    let a = vec![1u8; CHUNK_SIZE];
    let b = vec![2u8; CHUNK_SIZE];
    let mut chain: Vec<ChainEntry> = Vec::new();
    let pa = place_block(&chain, fp, &a).unwrap();
    assert_eq!(pa, BlockPlacement::New(1));
    chain.push(ChainEntry { index: 1, data: a.clone() });
    let pb = place_block(&chain, fp, &b).unwrap();
    assert_eq!(pb, BlockPlacement::New(2));
    chain.push(ChainEntry { index: 2, data: b.clone() });
    assert_eq!(place_block(&chain, fp, &a).unwrap(), BlockPlacement::Existing(1));
    assert_eq!(place_block(&chain, fp, &b).unwrap(), BlockPlacement::Existing(2));
}

#[test]
fn block_map_reads_back_the_source() {
    let mut pool = Vec::new();
    let data: Vec<u8> = (0..(CHUNK_SIZE * 3 + 1234)).map(|i| ((i * 7) % 256) as u8).collect();
    let m = ingest(&mut pool, &data, "src");
    assert_eq!(m.blocks.len(), 4);
    let mut rebuilt = Vec::new();
    for b in &m.blocks {
        let (_, stored) = pool
            .iter()
            .find(|(f, c)| *f == b.xxh3 && c.index == b.index)
            .expect("block is stored");
        rebuilt.extend_from_slice(&stored.data);
    }
    assert_eq!(rebuilt, data);
    assert_eq!(m.size, data.len() as u64);
}

#[test]
fn same_file_twice_in_one_directory() {
    let mut pool = Vec::new();
    let data = vec![9u8; CHUNK_SIZE + 1];
    let first = ingest(&mut pool, &data, "one");
    let stored = pool.len();
    let second = ingest(&mut pool, &data, "two");
    assert_eq!(pool.len(), stored);
    assert_eq!(first.blocks, second.blocks);
    let mut dir = DirectoryListing::new();
    dir.insert_file("one", first.entry("Cone1".to_string())).unwrap();
    dir.insert_file("two", second.entry("Ctwo2".to_string())).unwrap();
    assert_eq!(dir.len(), 2);
}

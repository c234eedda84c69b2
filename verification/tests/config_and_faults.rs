use std::collections::HashMap;

use lazyfs_pagecache::block_map::{hash_map_of, BlockMap};
use lazyfs_pagecache::lazyfs::{select_fired, LazyFS, Write};
use lazyfs_pagecache::name_map::NameMap;
use lazyfs_pagecache::pagecache::cache::Cache;
use lazyfs_pagecache::pagecache::config::{
    phase, Config, ConfigError, FaultPhase, ReorderDecision, ReorderFault, SplitWriteFault,
};
use lazyfs_pagecache::pagecache::engine::backends::custom::{
    CustomCacheEngine, CustomCacheEngineInner,
};
use lazyfs_pagecache::pagecache::item::block_info::BlockInfo;
use lazyfs_pagecache::pagecache::item::item::{Item, ItemData};
use lazyfs_pagecache::pagecache::item::metadata::Metadata;

#[test]
fn default_config() {
    let config = Config::default();
    assert!(config.is_default_config);
    assert!(!config.log_all_operations);
    assert_eq!(config.cache_nr_pages, 5);
    assert_eq!(config.cache_page_size, 4096);
    assert_eq!(config.io_block_size, 4096);
    assert_eq!(config.disk_sector_size, 512);
    assert!(!config.apply_lru_eviction);
    assert_eq!(config.fifo_path, "faults.fifo");
    assert_eq!(config.fifo_path_completed, "");
    assert_eq!(config.log_file, "");
    assert!(config.is_valid());
}

#[test]
fn manual_config() {
    let config = Config::new_with_manual_config(16, 32, 2).unwrap();
    assert_eq!(config.io_block_size, 16);
    assert_eq!(config.cache_page_size, 32);
    assert_eq!(config.cache_nr_pages, 2);
    assert!(config.is_default_config);
    assert!(matches!(Config::new_with_manual_config(16, 32, 0), Err(ConfigError::NoPages)));
    assert!(matches!(
        Config::new_with_manual_config(16, 33, 2),
        Err(ConfigError::NotMultipleOfBlock)
    ));
    assert!(matches!(
        Config::new_with_manual_config(0, 32, 2),
        Err(ConfigError::NotMultipleOfBlock)
    ));
    // A page without room for a block is a configuration, but no pool.
    let empty = Config::new_with_manual_config(16, 0, 2).unwrap();
    assert!(!empty.is_valid());
}

#[test]
fn config_from_size() {
    let config = Config::new_with_size(4096 * 2 * 10 + 5, 2).unwrap();
    assert!(!config.is_default_config);
    assert_eq!(config.io_block_size, 4096);
    assert_eq!(config.cache_page_size, 8192);
    assert_eq!(config.cache_nr_pages, 10);
    assert!(matches!(Config::new_with_size(8192, 2), Err(ConfigError::PoolTooSmall)));
    assert!(matches!(Config::new_with_size(100, 2), Err(ConfigError::PoolTooSmall)));
    assert!(matches!(Config::new_with_size(1 << 20, 0), Err(ConfigError::InvalidPageSize)));
    assert!(matches!(Config::new_with_size(1 << 20, -3), Err(ConfigError::InvalidPageSize)));
    assert_eq!(Config::new_with_size(8193, 2).unwrap().cache_nr_pages, 1);
}

#[test]
fn eviction_flag() {
    let mut config = Config::default();
    config.set_eviction_flag(true);
    assert!(config.apply_lru_eviction);
    config.set_eviction_flag(false);
    assert!(!config.apply_lru_eviction);
}

#[test]
fn fault_phases() {
    assert_eq!(phase(0, 2), FaultPhase::Idle);
    assert_eq!(phase(1, 2), FaultPhase::Armed);
    assert_eq!(phase(2, 2), FaultPhase::Firing);
    assert_eq!(phase(3, 2), FaultPhase::Done);
    let mut fault = SplitWriteFault::from_parts(2, vec![1], 2);
    assert_eq!(fault.current_phase(), FaultPhase::Idle);
    assert!(fault.on_write(&vec![1, 2, 3, 4], 0).is_none());
    assert_eq!(fault.current_phase(), FaultPhase::Armed);
    let torn = fault.on_write(&vec![1, 2, 3, 4], 10).unwrap();
    assert_eq!(fault.current_phase(), FaultPhase::Firing);
    assert_eq!(torn.len(), 1);
    assert_eq!(torn[0].offset, 12);
    assert_eq!(torn[0].data, vec![3, 4]);
    assert!(fault.on_write(&vec![1, 2, 3, 4], 0).is_none());
    assert_eq!(fault.current_phase(), FaultPhase::Done);
    assert!(SplitWriteFault::default().on_write(&vec![1], 0).is_none());
}

#[test]
fn split_write_in_equal_parts() {
    let fault = SplitWriteFault::from_parts(1, vec![], 3);
    // Ten bytes in three parts: three, three, and four.
    assert_eq!(fault.part_bounds(10, 0), Some((0, 3)));
    assert_eq!(fault.part_bounds(10, 1), Some((3, 6)));
    assert_eq!(fault.part_bounds(10, 2), Some((6, 10)));
    assert_eq!(fault.part_bounds(10, 3), None);
    assert_eq!(fault.part_bounds(10, -1), None);
    assert_eq!(fault.part_bounds(2, 0), Some((0, 0)));
    assert_eq!(fault.part_bounds(2, 2), Some((0, 2)));
    let mut fault = SplitWriteFault::from_parts(1, vec![2, 0, 5], 3);
    let torn = fault.on_write(&b"0123456789".to_vec(), 100).unwrap();
    assert_eq!(torn.len(), 2);
    assert_eq!((torn[0].offset, torn[0].data.clone()), (106, b"6789".to_vec()));
    assert_eq!((torn[1].offset, torn[1].data.clone()), (100, b"012".to_vec()));
}

#[test]
fn split_write_by_lengths() {
    let fault = SplitWriteFault::from_parts_bytes(1, vec![], vec![4, 0, 5, 3]);
    assert_eq!(fault.part_bounds(10, 0), Some((0, 4)));
    assert_eq!(fault.part_bounds(10, 1), Some((4, 4)));
    assert_eq!(fault.part_bounds(10, 2), Some((4, 9)));
    assert_eq!(fault.part_bounds(10, 3), None);
    assert_eq!(fault.part_bounds(10, 4), None);
    assert_eq!(fault.part_bounds(12, 3), Some((9, 12)));
    let negative = SplitWriteFault::from_parts_bytes(1, vec![], vec![4, -1, 2]);
    assert_eq!(negative.part_bounds(10, 0), Some((0, 4)));
    assert_eq!(negative.part_bounds(10, 1), None);
    assert_eq!(negative.part_bounds(10, 2), None);
    let mut fault = SplitWriteFault::from_parts_bytes(1, vec![1], vec![2, 3]);
    let torn = fault.on_write(&b"abcdefgh".to_vec(), 0).unwrap();
    assert_eq!(torn.len(), 1);
    assert_eq!((torn[0].offset, torn[0].data.clone()), (2, b"cde".to_vec()));
}

#[test]
fn reorder_fault() {
    let mut fault = ReorderFault::from_op("write".to_string(), vec![2, 0, 3, -1], 3);
    assert_eq!(fault.current_phase(), FaultPhase::Idle);
    assert!(matches!(fault.on_invocation("fsync"), ReorderDecision::Pass));
    assert!(matches!(fault.on_invocation("write"), ReorderDecision::Hold(0)));
    assert!(matches!(fault.on_invocation("write"), ReorderDecision::Hold(1)));
    assert_eq!(fault.current_phase(), FaultPhase::Armed);
    match fault.on_invocation("write") {
        ReorderDecision::Fire(replay) => assert_eq!(replay, vec![2, 0]),
        _ => panic!("the fault fires at its occurrence"),
    }
    assert_eq!(fault.current_phase(), FaultPhase::Firing);
    assert!(matches!(fault.on_invocation("write"), ReorderDecision::Pass));
    assert_eq!(fault.current_phase(), FaultPhase::Done);
    assert!(matches!(ReorderFault::default().on_invocation(""), ReorderDecision::Pass));
}

fn file_system() -> LazyFS<CustomCacheEngine> {
    let engine = CustomCacheEngine::new(Config::default());
    LazyFS::new(Cache::new(Config::default(), engine), Config::default(), NameMap::new())
}

#[test]
fn lazyfs_starts_without_faults() {
    let fs = file_system();
    assert_eq!(fs.get_path_injecting_fault(), "none");
    for op in [
        "unlink", "truncate", "fsync", "write", "create", "access", "open", "read", "rename",
        "link", "symlink",
    ] {
        assert!(fs.allows_crash_on(op));
        assert!(fs.crash_faults_for(op, true, "/any", "/other").is_empty());
        assert!(fs.crash_faults_for(op, false, "/any", "/other").is_empty());
    }
    assert!(!fs.allows_crash_on("mkdir"));
    assert!(fs.takes_two_paths("rename"));
    assert!(fs.takes_two_paths("link"));
    assert!(fs.takes_two_paths("symlink"));
    assert!(!fs.takes_two_paths("write"));
}

#[test]
fn crash_faults_go_off_on_matching_paths() {
    let mut fs = file_system();
    assert!(fs.add_crash_fault("write", true, "^/data/.*\\.db$".to_string(), "f1".to_string()));
    assert!(fs.add_crash_fault("write", true, "journal".to_string(), "f2".to_string()));
    assert!(fs.add_crash_fault("write", false, ".*".to_string(), "f3".to_string()));
    assert!(fs.add_crash_fault("rename", true, "^/tmp/new$".to_string(), "f4".to_string()));
    assert!(!fs.add_crash_fault("mkdir", true, ".*".to_string(), "f5".to_string()));
    assert!(!fs.add_crash_fault("write", true, "(".to_string(), "f6".to_string()));

    assert_eq!(fs.crash_faults_for("write", true, "/data/a.db", ""), vec!["f1".to_string()]);
    assert_eq!(
        fs.crash_faults_for("write", true, "/data/journal.db", ""),
        vec!["f1".to_string(), "f2".to_string()]
    );
    assert!(fs.crash_faults_for("write", true, "/etc/passwd", "/data/a.db").is_empty());
    assert_eq!(fs.crash_faults_for("write", false, "/etc/passwd", ""), vec!["f3".to_string()]);
    assert!(fs.crash_faults_for("fsync", true, "/data/a.db", "").is_empty());
    // An operation with two paths goes off on either.
    assert_eq!(fs.crash_faults_for("rename", true, "/tmp/old", "/tmp/new"), vec!["f4".to_string()]);
    assert_eq!(fs.crash_faults_for("rename", true, "/tmp/new", "/tmp/x"), vec!["f4".to_string()]);
    assert!(fs.crash_faults_for("rename", true, "/tmp/old", "/tmp/other").is_empty());
}

#[test]
fn select_fired_keeps_the_order() {
    let faults = vec![
        ("a".to_string(), "first".to_string()),
        ("b".to_string(), "second".to_string()),
        ("c".to_string(), "third".to_string()),
    ];
    assert_eq!(
        select_fired(&faults, &vec![true, false, true]),
        vec!["first".to_string(), "third".to_string()]
    );
    assert!(select_fired(&faults, &vec![false, false, false]).is_empty());
    assert!(select_fired(&Vec::new(), &Vec::new()).is_empty());
}

#[test]
fn lazyfs_notes_the_path_and_the_write() {
    let mut fs = file_system();
    fs.set_path_injecting_fault("/data/a.db".to_string());
    assert_eq!(fs.get_path_injecting_fault(), "/data/a.db");
    assert!(fs.is_injecting_on("/data/a.db"));
    assert!(!fs.is_injecting_on("/data/b.db"));
    fs.hold_write(Write::new("/data/a.db".to_string(), vec![1, 2, 3], 7));
    let held = fs.pending_write();
    assert_eq!(held.path(), "/data/a.db");
    assert_eq!(held.buf(), &vec![1, 2, 3]);
    assert_eq!(held.offset(), 7);
    let nothing = Write::default();
    assert_eq!(nothing.path(), "");
    assert!(nothing.buf().is_empty());
    assert_eq!(nothing.offset(), 0);
}

#[test]
fn block_info() {
    let mut info = BlockInfo::default();
    assert_eq!(info.page_index_number, -1);
    assert_eq!(info.clone_readable_offsets(), (0, 0));
    assert_eq!(info.make_readable_to(9), 9);
    assert_eq!(info.make_readable_to(4), 9);
    assert_eq!(info.clone_readable_offsets(), (0, 9));
    info.truncate_readable_to(4);
    assert_eq!(info.clone_readable_offsets(), (0, 4));
}

#[test]
fn item_data() {
    let mut data = ItemData::default();
    assert_eq!(data.len(), 0);
    assert_eq!(data.get_page_id(3), -1);
    assert_eq!(data.get_readable_offsets(3), None);
    assert_eq!(data.set_block_page_id(3, 7, 0, 11), 11);
    assert_eq!(data.set_block_page_id(3, 8, 0, 5), 11);
    assert_eq!(data.set_block_page_id(1, 2, 0, 15), 15);
    assert_eq!(data.set_block_page_id(5, 4, 0, 15), 15);
    assert!(data.has_block(3));
    assert!(!data.has_block(2));
    assert_eq!(data.get_page_id(3), 8);
    assert_eq!(data.get_readable_offsets(3), Some((0, 11)));
    assert_eq!(data.get_blocks_max_offsets(), HashMap::from([(1, 15), (3, 11), (5, 15)]));
    assert_eq!(data.len(), 3);
    // A cut at byte 4 of block 3: the block stays, readable up to byte 3.
    assert_eq!(data.truncate_blocks_after(3, 4), HashMap::from([(3, 8), (5, 4)]));
    assert_eq!(data.get_blocks_max_offsets(), HashMap::from([(1, 15), (3, 3)]));
    // A cut at the start of block 2: everything from there on goes.
    assert_eq!(data.cut_blocks_after(2, 0), vec![(3, 8)]);
    assert_eq!(data.get_blocks_max_offsets(), HashMap::from([(1, 15)]));
    data.remove_block(1);
    assert!(!data.has_block(1));
    assert_eq!(data.set_block_page_id(9, 1, 0, 1), 1);
    data.remove_all();
    assert_eq!(data.len(), 0);
}

#[test]
fn item_metadata_update() {
    let mut item = Item::default();
    assert!(item.is_synced);
    assert_eq!(item.metadata.nlinks, 1);
    assert_eq!(item.metadata.size, 0);
    let mut meta = Metadata::new();
    assert_eq!(meta.nlinks, 0);
    meta.size = 77;
    meta.nlinks = 4;
    meta.atim = std::time::UNIX_EPOCH;
    meta.mtim = std::time::UNIX_EPOCH + std::time::Duration::from_secs(5);
    let ctim = item.metadata.ctim;
    item.update_metadata(meta, &vec!["size".to_string(), "other".to_string(), "atime".to_string()]);
    assert_eq!(item.metadata.size, 77);
    assert_eq!(item.metadata.nlinks, 1);
    assert_eq!(item.metadata.atim, std::time::UNIX_EPOCH);
    assert_ne!(item.metadata.mtim, meta.mtim);
    assert_eq!(item.metadata.ctim, ctim);
    item.update_metadata(meta, &vec!["nlinks".to_string(), "mtime".to_string(), "ctime".to_string()]);
    assert_eq!(item.metadata.nlinks, 4);
    assert_eq!(item.metadata.mtim, meta.mtim);
    assert_eq!(item.metadata.ctim, meta.ctim);
}

#[test]
fn block_map_keeps_its_keys_in_order() {
    let mut map: BlockMap<u8> = BlockMap::new();
    assert!(map.is_empty());
    for k in [5, 1, 9, 3, 7] {
        map.insert(k, k as u8);
    }
    map.insert(3, 33);
    assert_eq!(map.len(), 5);
    let keys: Vec<i32> = (0..map.len()).map(|i| map.key_at(i)).collect();
    assert_eq!(keys, vec![1, 3, 5, 7, 9]);
    assert_eq!(map.get(3), Some(&33));
    assert_eq!(map.get(4), None);
    assert_eq!(map.search(4), (2, false));
    assert_eq!(map.search(5), (2, true));
    assert_eq!(map.search(10), (5, false));
    assert!(map.contains_key(9));
    assert_eq!(map.remove(5), Some(5));
    assert_eq!(map.remove(5), None);
    assert_eq!(*map.value_at(2), 7);
    map.clear();
    assert!(map.is_empty());
}

#[test]
fn block_map_and_hash_map() {
    let hashed: HashMap<i32, u8> = HashMap::from([(9, 1), (-4, 2), (0, 3), (7, 4)]);
    let map = BlockMap::from_hash_map(&hashed);
    let entries: Vec<(i32, u8)> = (0..map.len()).map(|i| (map.key_at(i), *map.value_at(i))).collect();
    assert_eq!(entries, vec![(-4, 2), (0, 3), (7, 4), (9, 1)]);
    assert_eq!(map.to_hash_map(), hashed);
    assert_eq!(hash_map_of(&entries), hashed);
    assert!(BlockMap::<u8>::from_hash_map(&HashMap::new()).is_empty());
}

#[test]
fn name_map_keeps_the_order_of_binding() {
    let mut map: NameMap<String> = NameMap::new();
    map.insert("b".to_string(), "1".to_string());
    map.insert("a".to_string(), "2".to_string());
    map.insert("c".to_string(), "3".to_string());
    map.insert("a".to_string(), "4".to_string());
    assert_eq!(map.len(), 3);
    assert_eq!(map.key_at(1), "a");
    assert_eq!(map.value_at(1), "4");
    assert_eq!(map.index_of("c"), Some(2));
    assert_eq!(map.index_of("d"), None);
    assert_eq!(map.get("b"), Some(&"1".to_string()));
    assert!(map.contains_key("a"));
    assert_eq!(map.remove("b"), Some("1".to_string()));
    assert_eq!(map.remove("b"), None);
    assert_eq!(map.key_at(0), "a");
    assert_eq!(map.key_at(1), "c");
    map.clear();
    assert!(map.is_empty());
}

#[test]
fn an_engine_state_starts_empty() {
    let inner = CustomCacheEngineInner::new();
    assert_eq!(inner.nr_pages(), 0);
}

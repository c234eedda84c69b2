use std::collections::HashMap;

use lazyfs_pagecache::pagecache::cache::{BlockUpdate, Cache, CacheError};
use lazyfs_pagecache::pagecache::config::{Config, SplitWriteFault};
use lazyfs_pagecache::pagecache::engine::backends::custom::CustomCacheEngine;
use lazyfs_pagecache::pagecache::engine::page::BlockWrite;
use lazyfs_pagecache::pagecache::engine::AllocateOperationType;
use lazyfs_pagecache::pagecache::item::metadata::Metadata;

fn config(io_block_size: usize, cache_page_size: usize, cache_nr_pages: usize) -> Config {
    let mut config =
        Config::new_with_manual_config(io_block_size, cache_page_size, cache_nr_pages).unwrap();
    config.set_eviction_flag(true);
    assert!(config.is_valid());
    config
}

fn cache(io_block_size: usize, cache_page_size: usize, cache_nr_pages: usize) -> Cache<CustomCacheEngine> {
    Cache::new(
        config(io_block_size, cache_page_size, cache_nr_pages),
        CustomCacheEngine::new(config(io_block_size, cache_page_size, cache_nr_pages)),
    )
}

fn write_block(cache: &mut Cache<CustomCacheEngine>, inode: &str, block_id: i32, data: &Vec<u8>) -> bool {
    let last = data.len() as i32 - 1;
    let put = cache.put_data_blocks_in_order(
        inode,
        &vec![BlockUpdate { block_id, data, offset: 0, readable_to: last }],
        AllocateOperationType::OpWrite,
    );
    assert_eq!(put.results.len(), 1);
    assert_eq!(put.results[0].0, block_id);
    put.results[0].1
}

/// Carries out the writes on a file held in memory, then cuts or pads it.
fn apply(file: &mut Vec<u8>, writes: &Vec<BlockWrite>, truncate_to: Option<u64>) {
    for w in writes {
        let end = w.offset as usize + w.data.len();
        if file.len() < end {
            file.resize(end, 0);
        }
        file[w.offset as usize..end].copy_from_slice(&w.data);
    }
    if let Some(len) = truncate_to {
        file.resize(len as usize, 0);
    }
}

fn set_size(cache: &mut Cache<CustomCacheEngine>, inode: &str, size: i32) {
    let mut meta = Metadata::new();
    meta.size = size;
    assert!(cache.update_content_metadata(inode, meta, &vec!["size".to_string()]));
}

#[test]
fn single_block_write_then_read() {
    let mut cache = cache(16, 32, 2);
    let hello = b"HELLO".to_vec();
    let put = cache.put_data_blocks_in_order(
        "x",
        &vec![BlockUpdate { block_id: 0, data: &hello, offset: 0, readable_to: 4 }],
        AllocateOperationType::OpWrite,
    );
    assert_eq!(put.results, vec![(0, true)]);
    assert!(put.flushes.is_empty());
    let got = cache.get_data_blocks("x", &vec![0]);
    assert_eq!(got.len(), 1);
    assert_eq!(got[0].block_id, 0);
    assert!(got[0].hit);
    assert_eq!(got[0].readable, Some((0, 4)));
    assert_eq!(got[0].data, b"HELLO".to_vec());
}

#[test]
fn coalesced_flush() {
    let mut cache = cache(16, 32, 2);
    let a = vec![b'A'; 16];
    let b = vec![b'B'; 16];
    let d = vec![b'D'; 16];
    let first = cache.put_data_blocks_in_order(
        "x",
        &vec![
            BlockUpdate { block_id: 0, data: &a, offset: 0, readable_to: 15 },
            BlockUpdate { block_id: 1, data: &b, offset: 0, readable_to: 15 },
        ],
        AllocateOperationType::OpWrite,
    );
    assert_eq!(first.results, vec![(0, true), (1, true)]);
    let second = cache.put_data_blocks_in_order(
        "x",
        &vec![BlockUpdate { block_id: 3, data: &d, offset: 0, readable_to: 15 }],
        AllocateOperationType::OpWrite,
    );
    assert_eq!(second.results, vec![(3, true)]);
    set_size(&mut cache, "x", 64);

    let plan = cache.sync_owner("x", true).unwrap();
    assert!(plan.times.is_none());
    assert_eq!(plan.truncate_to, 64);
    assert_eq!(plan.writes.len(), 2);
    assert_eq!(plan.writes[0].offset, 0);
    let mut ab = a.clone();
    ab.extend_from_slice(&b);
    assert_eq!(plan.writes[0].data, ab);
    assert_eq!(plan.writes[1].offset, 48);
    assert_eq!(plan.writes[1].data, d);

    let mut file = vec![b'?'; 40];
    apply(&mut file, &plan.writes, Some(plan.truncate_to));
    assert_eq!(&file[0..16], &a[..]);
    assert_eq!(&file[16..32], &b[..]);
    assert_eq!(&file[32..40], &[b'?'; 8][..]);
    assert_eq!(&file[40..48], &[0u8; 8][..]);
    assert_eq!(&file[48..64], &d[..]);
    assert_eq!(file.len(), 64);
    assert_eq!(cache.get_content_metadata("x").unwrap().size, 64);
}

#[test]
fn second_flush_writes_nothing() {
    let mut cache = cache(16, 32, 2);
    assert!(write_block(&mut cache, "x", 0, &vec![7u8; 16]));
    let first = cache.sync_owner("x", true).unwrap();
    assert_eq!(first.writes.len(), 1);
    let second = cache.sync_owner("x", true).unwrap();
    assert!(second.writes.is_empty());
}

#[test]
fn flush_of_unknown_inode_fails() {
    let mut cache = cache(16, 32, 2);
    assert!(matches!(cache.sync_owner("nobody", true), Err(CacheError::NotCached)));
}

#[test]
fn last_block_of_a_run_is_written_up_to_its_mark() {
    let mut cache = cache(16, 32, 2);
    assert!(write_block(&mut cache, "x", 0, &vec![1u8; 16]));
    assert!(write_block(&mut cache, "x", 1, &b"tail".to_vec()));
    let plan = cache.sync_owner("x", true).unwrap();
    assert_eq!(plan.writes.len(), 1);
    assert_eq!(plan.writes[0].offset, 0);
    let mut want = vec![1u8; 16];
    want.extend_from_slice(b"tail");
    assert_eq!(plan.writes[0].data, want);
}

#[test]
fn eviction_takes_the_least_recently_used_page() {
    // One block per page and two pages: every page holds one block.
    let mut cache = cache(16, 16, 2);
    assert!(write_block(&mut cache, "a", 0, &vec![b'a'; 16]));
    assert!(write_block(&mut cache, "b", 0, &vec![b'b'; 16]));
    assert_eq!(cache.get_cache_usage(), (2, 2));
    // No page is free: the least recently used page, that of block 0 of
    // "a", makes room, and its content is handed back for saving.
    let put = cache.put_data_blocks_in_order(
        "a",
        &vec![BlockUpdate { block_id: 1, data: &vec![b'c'; 16], offset: 0, readable_to: 15 }],
        AllocateOperationType::OpWrite,
    );
    assert_eq!(put.results, vec![(1, true)]);
    assert_eq!(put.flushes.len(), 1);
    assert_eq!(put.flushes[0].owner, "a");
    assert_eq!(put.flushes[0].writes.len(), 1);
    assert_eq!(put.flushes[0].writes[0].offset, 0);
    assert_eq!(put.flushes[0].writes[0].data, vec![b'a'; 16]);
    assert!(write_block(&mut cache, "b", 1, &vec![b'd'; 16]));
    assert_eq!(cache.get_cache_usage(), (2, 2));

    assert!(!cache.is_block_cached("a", 0));
    let got = cache.get_data_blocks("a", &vec![0]);
    assert_eq!(got.len(), 1);
    assert!(!got[0].hit);
    assert_eq!(got[0].readable, None);
    // The miss took the block out of the item.
    assert!(cache.get_data_blocks("a", &vec![0]).is_empty());
    assert!(cache.is_block_cached("a", 1));
    assert!(cache.is_block_cached("b", 1));
    assert!(!cache.is_block_cached("b", 0));
}

#[test]
fn blocks_of_one_owner_share_a_page() {
    // Two blocks per page: the second block of each owner goes to the page
    // of its first, and nothing has to make room.
    let mut cache = cache(16, 32, 2);
    assert!(write_block(&mut cache, "a", 0, &vec![b'a'; 16]));
    assert!(write_block(&mut cache, "b", 0, &vec![b'b'; 16]));
    assert!(write_block(&mut cache, "a", 1, &vec![b'c'; 16]));
    assert!(write_block(&mut cache, "b", 1, &vec![b'd'; 16]));
    let got = cache.get_data_blocks("a", &vec![0, 1]);
    assert_eq!(got.len(), 2);
    assert!(got[0].hit && got[1].hit);
    assert_eq!(got[0].data, vec![b'a'; 16]);
    assert_eq!(got[1].data, vec![b'c'; 16]);
}

#[test]
fn without_eviction_a_full_pool_refuses() {
    let mut config = Config::new_with_manual_config(16, 16, 1).unwrap();
    config.set_eviction_flag(false);
    let mut other = Config::new_with_manual_config(16, 16, 1).unwrap();
    other.set_eviction_flag(false);
    let mut cache = Cache::new(config, CustomCacheEngine::new(other));
    assert!(write_block(&mut cache, "a", 0, &vec![1u8; 16]));
    assert!(!write_block(&mut cache, "a", 1, &vec![2u8; 16]));
    assert!(cache.is_block_cached("a", 0));
    assert!(!cache.is_block_cached("a", 1));
}

#[test]
fn hardlink_unlink() {
    let mut cache = cache(16, 32, 2);
    cache.insert_item("I".to_string());
    // An item that no path names yet.
    assert!(cache.update_content_metadata("I", Metadata::new(), &vec!["nlinks".to_string()]));
    assert_eq!(cache.get_content_metadata("I").unwrap().nlinks, 0);
    assert!(cache.insert_inode_mapping("/p1".to_string(), "I".to_string(), true).is_ok());
    assert!(cache.insert_inode_mapping("/p2".to_string(), "I".to_string(), true).is_ok());
    assert_eq!(cache.get_content_metadata("I").unwrap().nlinks, 2);
    assert!(!cache.remove_cached_item("I", "/p1", false));
    assert!(cache.has_content_cached("I"));
    assert_eq!(cache.get_content_metadata("I").unwrap().nlinks, 1);
    assert_eq!(cache.get_original_inode("/p2"), Some("I".to_string()));
    assert_eq!(cache.get_original_inode("/p1"), None);
    // The last link takes the item along.
    assert!(cache.remove_cached_item("I", "/p2", false));
    assert!(!cache.has_content_cached("I"));
}

#[test]
fn mapping_an_unknown_inode_with_a_link_fails() {
    let mut cache = cache(16, 32, 2);
    assert_eq!(
        cache.insert_inode_mapping("/p".to_string(), "J".to_string(), true),
        Err(CacheError::NotCached)
    );
    assert_eq!(cache.get_original_inode("/p"), Some("J".to_string()));
    assert!(cache.insert_inode_mapping("/q".to_string(), "J".to_string(), false).is_ok());
    assert_eq!(
        cache.find_files_mapped_to_inode("J"),
        vec!["/p".to_string(), "/q".to_string()]
    );
}

#[test]
fn torn_write() {
    let mut fault = SplitWriteFault::from_parts(1, vec![0], 2);
    let mut buf = vec![b'A'; 16];
    buf.extend_from_slice(&[b'B'; 16]);
    let torn = fault.on_write(&buf, 0).unwrap();
    assert_eq!(torn.len(), 1);
    assert_eq!(torn[0].offset, 0);
    assert_eq!(torn[0].data, vec![b'A'; 16]);
    let mut file: Vec<u8> = Vec::new();
    apply(&mut file, &torn, None);
    assert_eq!(file, vec![b'A'; 16]);
    // The fault is spent.
    assert!(fault.on_write(&buf, 32).is_none());
}

#[test]
fn full_checkpoint() {
    let mut cache = cache(16, 32, 2);
    assert!(write_block(&mut cache, "one", 0, &vec![1u8; 16]));
    assert!(write_block(&mut cache, "two", 0, &vec![2u8; 8]));
    set_size(&mut cache, "one", 16);
    set_size(&mut cache, "two", 8);
    cache.insert_inode_mapping("/one".to_string(), "one".to_string(), false).unwrap();
    cache.insert_inode_mapping("/two".to_string(), "two".to_string(), false).unwrap();
    assert_eq!(cache.report_unsynced_data().len(), 2);

    let steps = cache.full_checkpoint().unwrap();
    assert_eq!(steps.len(), 2);
    assert_eq!(steps[0].path, "/one");
    assert_eq!(steps[0].inode, "one");
    assert_eq!(steps[1].path, "/two");
    let mut one: Vec<u8> = Vec::new();
    apply(&mut one, &steps[0].plan.writes, Some(steps[0].plan.truncate_to));
    assert_eq!(one, vec![1u8; 16]);
    let mut two: Vec<u8> = Vec::new();
    apply(&mut two, &steps[1].plan.writes, Some(steps[1].plan.truncate_to));
    assert_eq!(two, vec![2u8; 8]);
    assert!(steps[0].plan.times.is_some());
    for step in &steps {
        cache.sync_owner_done(&step.inode, true);
    }
    assert!(cache.report_unsynced_data().is_empty());
}

#[test]
fn checkpoint_with_an_uncached_inode_fails() {
    let mut cache = cache(16, 32, 2);
    assert!(write_block(&mut cache, "one", 0, &vec![1u8; 16]));
    cache.insert_inode_mapping("/one".to_string(), "one".to_string(), false).unwrap();
    cache.insert_inode_mapping("/gone".to_string(), "gone".to_string(), false).unwrap();
    assert!(matches!(cache.full_checkpoint(), Err(CacheError::NotCached)));
    // Nothing was flushed.
    assert_eq!(cache.sync_owner("one", true).unwrap().writes.len(), 1);
}

#[test]
fn a_failed_flush_leaves_the_item_unsynced() {
    let mut cache = cache(16, 32, 2);
    assert!(write_block(&mut cache, "x", 0, &vec![1u8; 16]));
    let _ = cache.sync_owner("x", true).unwrap();
    cache.sync_owner_done("x", false);
    let report = cache.report_unsynced_data();
    assert_eq!(report.len(), 1);
    assert_eq!(report[0].inode, "x");
    cache.sync_owner_done("x", true);
    assert!(cache.report_unsynced_data().is_empty());
}

#[test]
fn report_lists_the_blocks_not_flushed() {
    let mut cache = cache(16, 32, 2);
    assert!(write_block(&mut cache, "x", 2, &b"abc".to_vec()));
    set_size(&mut cache, "x", 35);
    let report = cache.report_unsynced_data();
    assert_eq!(report.len(), 1);
    assert_eq!(report[0].inode, "x");
    assert_eq!(report[0].size, 35);
    assert_eq!(report[0].blocks.len(), 1);
    assert_eq!(report[0].blocks[0].0, 2);
    assert_eq!(report[0].blocks[0].1, (0, 2));
}

#[test]
fn rename_over_another_inode_evicts_it() {
    let mut cache = cache(16, 16, 2);
    assert!(write_block(&mut cache, "I", 0, &vec![1u8; 16]));
    assert!(write_block(&mut cache, "J", 0, &vec![2u8; 16]));
    cache.insert_inode_mapping("/old".to_string(), "I".to_string(), false).unwrap();
    cache.insert_inode_mapping("/new".to_string(), "J".to_string(), false).unwrap();
    assert_eq!(cache.get_content_metadata("J").unwrap().nlinks, 1);
    assert_eq!(cache.get_cache_usage(), (2, 2));
    assert!(cache.rename_item("/old", "/new"));
    assert_eq!(cache.get_original_inode("/new"), Some("I".to_string()));
    assert!(!cache.has_content_cached("J"));
    assert_eq!(cache.get_cache_usage(), (1, 2));
    assert!(cache.is_block_cached("I", 0));
}

#[test]
fn rename_over_a_hardlinked_inode_keeps_it() {
    let mut cache = cache(16, 16, 2);
    assert!(write_block(&mut cache, "I", 0, &vec![1u8; 16]));
    assert!(write_block(&mut cache, "J", 0, &vec![2u8; 16]));
    cache.insert_inode_mapping("/old".to_string(), "I".to_string(), false).unwrap();
    cache.insert_inode_mapping("/new".to_string(), "J".to_string(), false).unwrap();
    cache.insert_inode_mapping("/other".to_string(), "J".to_string(), true).unwrap();
    assert_eq!(cache.get_content_metadata("J").unwrap().nlinks, 2);
    assert!(cache.rename_item("/old", "/new"));
    assert_eq!(cache.get_original_inode("/new"), Some("I".to_string()));
    assert!(cache.has_content_cached("J"));
    assert_eq!(cache.get_content_metadata("J").unwrap().nlinks, 1);
    assert!(cache.is_block_cached("J", 0));
}

#[test]
fn rename_of_an_unmapped_path_changes_nothing() {
    let mut cache = cache(16, 16, 2);
    cache.insert_inode_mapping("/new".to_string(), "J".to_string(), false).unwrap();
    assert!(cache.rename_item("/nowhere", "/new"));
    assert_eq!(cache.get_original_inode("/new"), Some("J".to_string()));
}

#[test]
fn truncate_inside_a_block() {
    let mut cache = cache(16, 16, 4);
    assert!(write_block(&mut cache, "x", 0, &vec![1u8; 16]));
    assert!(write_block(&mut cache, "x", 1, &vec![2u8; 16]));
    assert!(write_block(&mut cache, "x", 2, &vec![3u8; 16]));
    assert_eq!(cache.get_cache_usage(), (3, 4));
    // The cut falls on byte 4 of block 1.
    assert!(cache.truncate_item("x", 20));
    assert_eq!(cache.get_content_metadata("x").unwrap().size, 20);
    assert!(cache.is_block_cached("x", 0));
    assert!(cache.is_block_cached("x", 1));
    assert!(!cache.is_block_cached("x", 2));
    assert_eq!(cache.get_cache_usage(), (2, 4));
    let got = cache.get_data_blocks("x", &vec![0, 1, 2]);
    assert_eq!(got.len(), 2);
    assert_eq!(got[1].block_id, 1);
    assert_eq!(got[1].readable, Some((0, 3)));
    assert_eq!(got[1].data, vec![2u8; 4]);
    // What lies behind the cut is zero: the flush writes the block up to its mark.
    let plan = cache.sync_owner("x", true).unwrap();
    assert_eq!(plan.truncate_to, 20);
    let mut file: Vec<u8> = Vec::new();
    apply(&mut file, &plan.writes, Some(plan.truncate_to));
    let mut want = vec![1u8; 16];
    want.extend_from_slice(&[2u8; 4]);
    assert_eq!(file, want);
}

#[test]
fn truncate_on_a_block_boundary() {
    let mut cache = cache(16, 16, 4);
    assert!(write_block(&mut cache, "x", 0, &vec![1u8; 16]));
    assert!(write_block(&mut cache, "x", 1, &vec![2u8; 16]));
    assert!(cache.truncate_item("x", 16));
    assert!(cache.is_block_cached("x", 0));
    assert!(!cache.is_block_cached("x", 1));
    assert_eq!(cache.get_data_blocks("x", &vec![1]).len(), 0);
    assert!(!cache.truncate_item("x", -1));
    assert!(!cache.truncate_item("nobody", 0));
}

#[test]
fn clear_cache_releases_everything() {
    let mut cache = cache(16, 16, 2);
    assert!(write_block(&mut cache, "a", 0, &vec![1u8; 16]));
    assert!(write_block(&mut cache, "b", 0, &vec![2u8; 16]));
    cache.insert_inode_mapping("/a".to_string(), "a".to_string(), false).unwrap();
    cache.clear_cache();
    assert_eq!(cache.get_cache_usage(), (0, 2));
    assert!(!cache.has_content_cached("a"));
    assert!(!cache.has_content_cached("b"));
    assert_eq!(cache.get_original_inode("/a"), None);
    assert!(cache.report_unsynced_data().is_empty());
}

#[test]
fn items_come_and_go() {
    let mut cache = cache(16, 16, 2);
    assert!(!cache.has_content_cached("x"));
    assert!(cache.insert_item_if_not_exists("x"));
    assert!(!cache.insert_item_if_not_exists("x"));
    assert!(cache.has_content_cached("x"));
    assert_eq!(cache.get_content_metadata("x").unwrap().nlinks, 1);
    assert_eq!(cache.get_content_metadata("x").unwrap().size, 0);
    cache.remove_item("x");
    assert!(!cache.has_content_cached("x"));
    assert!(cache.get_content_metadata("x").is_none());
    assert!(!cache.update_content_metadata("x", Metadata::new(), &vec!["size".to_string()]));
    assert!(!cache.remove_cached_item("x", "/x", true));
    assert!(cache.get_data_blocks("x", &vec![0]).is_empty());
    assert!(!cache.is_block_cached("x", 0));
}

#[test]
fn a_block_that_does_not_fit_is_refused() {
    let mut cache = cache(16, 32, 2);
    let long = vec![1u8; 17];
    assert!(!write_block(&mut cache, "x", 0, &long));
    let put = cache.put_data_blocks_in_order(
        "x",
        &vec![
            BlockUpdate { block_id: -1, data: &vec![1u8; 4], offset: 0, readable_to: 3 },
            BlockUpdate { block_id: 0, data: &vec![1u8; 4], offset: 13, readable_to: 15 },
            BlockUpdate { block_id: 0, data: &vec![1u8; 4], offset: -1, readable_to: 15 },
            BlockUpdate { block_id: 0, data: &vec![9u8; 4], offset: 12, readable_to: 15 },
        ],
        AllocateOperationType::OpWrite,
    );
    assert_eq!(put.results, vec![(-1, false), (0, false), (0, false), (0, true)]);
    let got = cache.get_data_blocks("x", &vec![0]);
    assert_eq!(got[0].readable, Some((0, 15)));
    let mut want = vec![0u8; 12];
    want.extend_from_slice(&[9u8; 4]);
    assert_eq!(got[0].data, want);
}

#[test]
fn a_read_into_the_cache_is_not_dirty() {
    let mut cache = cache(16, 32, 2);
    let put = cache.put_data_blocks_in_order(
        "x",
        &vec![BlockUpdate { block_id: 0, data: &vec![5u8; 16], offset: 0, readable_to: 15 }],
        AllocateOperationType::OpRead,
    );
    assert_eq!(put.results, vec![(0, true)]);
    assert!(cache.sync_owner("x", true).unwrap().writes.is_empty());
}

#[test]
fn a_map_of_blocks_is_written_in_ascending_order() {
    let mut cache = cache(16, 16, 2);
    let one = vec![1u8; 16];
    let two = vec![2u8; 16];
    let three = vec![3u8; 16];
    let mut blocks: HashMap<i32, (&Vec<u8>, i32, i32)> = HashMap::new();
    blocks.insert(7, (&three, 0, 15));
    blocks.insert(2, (&one, 0, 15));
    blocks.insert(5, (&two, 0, 15));
    let put = cache.put_data_blocks("x", &blocks, AllocateOperationType::OpWrite);
    assert_eq!(put.results.len(), 3);
    assert_eq!(put.results[&2], true);
    assert_eq!(put.results[&5], true);
    assert_eq!(put.results[&7], true);
    // Two pages for three blocks: block 7, the last to go in, made block 2 leave.
    assert_eq!(put.flushes.len(), 1);
    assert_eq!(put.flushes[0].writes[0].offset, 32);
    assert_eq!(put.flushes[0].writes[0].data, one);
    assert!(!cache.is_block_cached("x", 2));
    assert!(cache.is_block_cached("x", 5));
    assert!(cache.is_block_cached("x", 7));
    let nothing: HashMap<i32, (&Vec<u8>, i32, i32)> = HashMap::new();
    let put = cache.put_data_blocks("y", &nothing, AllocateOperationType::OpWrite);
    assert!(put.results.is_empty());
    assert!(cache.has_content_cached("y"));
}

#[test]
fn truncate_keeps_a_dirty_page_and_drops_a_clean_one() {
    // Two blocks share the one page of the pool.
    let mut cache = cache(16, 32, 1);
    assert!(write_block(&mut cache, "x", 0, &vec![1u8; 16]));
    assert!(write_block(&mut cache, "x", 1, &vec![2u8; 16]));
    assert_eq!(cache.get_cache_usage(), (1, 1));
    // The page is dirty: block 1 leaves it, block 0 stays.
    assert!(cache.truncate_item("x", 16));
    assert!(cache.is_block_cached("x", 0));
    assert!(!cache.is_block_cached("x", 1));
    assert_eq!(cache.get_cache_usage(), (1, 1));
    // The slot of block 1 is free again.
    assert!(write_block(&mut cache, "x", 1, &vec![3u8; 16]));
    let plan = cache.sync_owner("x", true).unwrap();
    assert_eq!(plan.writes.len(), 1);
    cache.sync_owner_done("x", true);
    // The page is clean now: with block 1 the whole page goes.
    assert!(cache.truncate_item("x", 16));
    assert!(!cache.is_block_cached("x", 0));
    assert_eq!(cache.get_cache_usage(), (0, 1));
    assert_eq!(cache.report_unsynced_data().len(), 1);
}

#[test]
fn a_write_after_a_flush_is_flushed_again() {
    let mut cache = cache(16, 16, 2);
    assert!(write_block(&mut cache, "x", 0, &vec![1u8; 16]));
    assert_eq!(cache.sync_owner("x", true).unwrap().writes.len(), 1);
    cache.sync_owner_done("x", true);
    assert!(cache.report_unsynced_data().is_empty());
    assert!(write_block(&mut cache, "x", 0, &vec![9u8; 4]));
    let report = cache.report_unsynced_data();
    assert_eq!(report.len(), 1);
    assert_eq!(report[0].blocks, vec![(0, (0, 15), 1)]);
    let plan = cache.sync_owner("x", true).unwrap();
    assert_eq!(plan.writes.len(), 1);
    let mut want = vec![9u8; 4];
    want.extend_from_slice(&[1u8; 12]);
    assert_eq!(plan.writes[0].data, want);
}

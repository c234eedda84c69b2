use std::collections::HashMap;

use lazyfs_pagecache::pagecache::config::Config;
use lazyfs_pagecache::pagecache::engine::backends::custom::{
    BlockPlacement, BlockRead, CustomCacheEngine,
};
use lazyfs_pagecache::pagecache::engine::block_offsets::BlockOffsets;
use lazyfs_pagecache::pagecache::engine::page::{Page, PageError};
use lazyfs_pagecache::pagecache::engine::{AllocateOperationType, PageCacheEngine};

fn config(io_block_size: usize, cache_page_size: usize, cache_nr_pages: usize, lru: bool) -> Config {
    let mut config =
        Config::new_with_manual_config(io_block_size, cache_page_size, cache_nr_pages).unwrap();
    config.set_eviction_flag(lru);
    assert!(config.is_valid());
    config
}

fn place(engine: &mut CustomCacheEngine, owner: &str, block_id: i32, page_id: i32, data: &Vec<u8>) -> i32 {
    let out = engine.allocate_blocks_in_order(
        owner,
        &vec![BlockPlacement { block_id, page_id, data, offset: 0 }],
        AllocateOperationType::OpWrite,
    );
    assert_eq!(out.assigned.len(), 1);
    assert_eq!(out.assigned[0].0, block_id);
    out.assigned[0].1
}

#[test]
fn block_offsets_answers() {
    let mut offsets = BlockOffsets::default();
    assert!(offsets.empty());
    assert_eq!(offsets.get_block_offsets(3), (-1, -1));
    assert_eq!(offsets.get_readable_to(3), 0);
    offsets.insert_or_update_block_offsets(3, (16, 31));
    offsets.insert_or_update_block_offsets(1, (0, 15));
    assert!(offsets.contains_block(3));
    assert!(!offsets.contains_block(2));
    assert_eq!(offsets.get_block_offsets(3), (16, 31));
    assert_eq!(offsets.get_nr_blocks(), 2);
    offsets.make_readable_to(3, 7);
    offsets.make_readable_to(3, 5);
    assert_eq!(offsets.get_readable_to(3), 7);
    offsets.truncate_readable_to(3, 5);
    assert_eq!(offsets.get_readable_to(3), 5);
    offsets.make_readable_to(1, 2);
    assert_eq!(offsets.get_block_readable_offsets(), HashMap::from([(1, 2), (3, 5)]));
    offsets.with_capacity(10);
    offsets.remove_block(3);
    assert!(!offsets.contains_block(3));
    assert_eq!(offsets.get_readable_to(3), 0);
    offsets.reset();
    assert!(offsets.empty());
    assert_eq!(offsets.get_nr_blocks(), 0);
}

#[test]
fn page_new_checks_the_sizes() {
    let mut bad = Config::default();
    bad.cache_page_size = 100;
    bad.io_block_size = 16;
    assert!(matches!(Page::new(&bad), Err(PageError::NotMultipleOfBlock)));
    bad.io_block_size = 0;
    assert!(matches!(Page::new(&bad), Err(PageError::NotMultipleOfBlock)));
    let page = Page::new(&config(16, 32, 1, false)).unwrap();
    assert!(page.is_page_owner("none"));
    assert_eq!(page.get_page_owner(), "none");
    assert!(!page.is_page_dirty());
    assert!(page.has_free_space());
}

#[test]
fn page_slots_are_taken_from_the_top() {
    let mut page = Page::new(&config(16, 48, 1, false)).unwrap();
    assert_eq!(page.get_allocate_free_offset(7), Ok((32, 47)));
    assert_eq!(page.get_allocate_free_offset(7), Err(PageError::BlockPresent));
    assert_eq!(page.get_allocate_free_offset(-1), Err(PageError::InvalidBlock));
    assert_eq!(page.get_allocate_free_offset(8), Ok((16, 31)));
    assert_eq!(page.get_allocate_free_offset(9), Ok((0, 15)));
    assert!(!page.has_free_space());
    assert_eq!(page.get_allocate_free_offset(10), Err(PageError::NoFreeSlot));
    page.remove_block(8);
    assert!(page.has_free_space());
    assert!(!page.contains_block(8));
    assert_eq!(page.get_allocate_free_offset(10), Ok((16, 31)));
}

#[test]
fn page_data_round_trip() {
    let mut page = Page::new(&config(16, 32, 1, false)).unwrap();
    assert_eq!(page.update_block_data(0, &b"abc".to_vec(), 0), Ok(false));
    assert_eq!(page.get_allocate_free_offset(0), Ok((16, 31)));
    assert!(!page.is_page_dirty());
    assert_eq!(page.update_block_data(0, &b"abc".to_vec(), 2), Ok(true));
    assert!(page.is_page_dirty());
    assert_eq!(page.update_block_data(0, &vec![0u8; 16], 1), Err(PageError::DataTooLong));
    let mut buffer = vec![9u8; 8];
    assert_eq!(page.get_block_data(0, &mut buffer, 16 + 4), Ok(()));
    assert_eq!(buffer, vec![0, 0, b'a', b'b', b'c', 9, 9, 9]);
    assert_eq!(page.get_block_data(1, &mut buffer, 20), Err(PageError::InvalidRange));
    assert_eq!(page.get_block_data(0, &mut buffer, 32), Err(PageError::InvalidRange));
    assert_eq!(page.get_block_data(0, &mut buffer, 15), Err(PageError::InvalidRange));
    assert_eq!(page.get_block_data(0, &mut buffer, 16 + 8), Err(PageError::InvalidRange));
    page.write_null_from(0, 3);
    let mut again = vec![9u8; 5];
    assert_eq!(page.get_block_data(0, &mut again, 20), Ok(()));
    assert_eq!(again, vec![0, 0, b'a', 0, 0]);
    assert_eq!(page.data_len(), 32);
}

#[test]
fn page_sync_data_lists_every_block() {
    let mut page = Page::new(&config(4, 8, 1, false)).unwrap();
    page.change_owner("file".to_string());
    assert!(page.is_page_owner("file"));
    page.get_allocate_free_offset(5).unwrap();
    page.get_allocate_free_offset(2).unwrap();
    page.update_block_data(5, &b"five".to_vec(), 0).unwrap();
    page.update_block_data(2, &b"two!".to_vec(), 0).unwrap();
    let writes = page.sync_data();
    assert_eq!(writes.len(), 2);
    assert_eq!(writes[0].offset, 8);
    assert_eq!(writes[0].data, b"two!".to_vec());
    assert_eq!(writes[1].offset, 20);
    assert_eq!(writes[1].data, b"five".to_vec());
    assert!(page.is_page_dirty());
    assert!(!page.sync_done(8, 7));
    assert!(page.is_page_dirty());
    assert!(page.sync_done(8, 8));
    assert!(!page.is_page_dirty());
    page.set_page_as_dirty(true);
    assert!(page.is_page_dirty());
    page.reset();
    assert!(!page.is_page_dirty());
    assert!(!page.contains_block(5));
    assert!(page.is_page_owner("file"));
    assert!(page.sync_data().is_empty());
}

#[test]
fn page_marks() {
    let mut page = Page::new(&config(16, 16, 1, false)).unwrap();
    page.get_allocate_free_offset(0).unwrap();
    assert_eq!(page.get_block_readable_to(0), 0);
    page.make_block_readable_to(0, 9);
    page.make_block_readable_to(0, 4);
    assert_eq!(page.get_block_readable_to(0), 9);
    page.make_block_readable_to(0, 16);
    page.make_block_readable_to(1, 3);
    assert_eq!(page.get_block_readable_to(0), 9);
    assert_eq!(page.get_block_readable_to(1), 0);
    page.truncate_block_readable_to(0, 4);
    assert_eq!(page.get_block_readable_to(0), 4);
    page.remove_block(0);
    assert_eq!(page.get_block_readable_to(0), 0);
    assert!(!page.is_page_dirty());
}

#[test]
fn engine_hands_out_free_pages_from_the_top() {
    let mut engine = CustomCacheEngine::new(config(16, 16, 3, false));
    assert_eq!(engine.get_engine_usage(), (0, 3));
    assert_eq!(place(&mut engine, "a", 0, -1, &vec![1u8; 16]), 2);
    assert_eq!(place(&mut engine, "b", 0, -1, &vec![2u8; 16]), 1);
    assert_eq!(engine.get_engine_usage(), (2, 3));
    assert!(engine.is_block_cached("a", 2, 0));
    assert!(!engine.is_block_cached("a", 1, 0));
    assert!(!engine.is_block_cached("b", 2, 0));
    assert!(!engine.is_block_cached("a", 2, 1));
    assert!(!engine.is_block_cached("a", 7, 0));
    assert!(!engine.is_block_cached("a", -1, 0));
    // In place: the page named holds the block.
    assert_eq!(place(&mut engine, "a", 0, 2, &vec![3u8; 16]), 2);
    assert_eq!(engine.get_engine_usage(), (2, 3));
    assert_eq!(place(&mut engine, "a", 1, -1, &vec![4u8; 16]), 0);
    assert_eq!(place(&mut engine, "a", 2, -1, &vec![5u8; 16]), -1);
}

#[test]
fn engine_reads() {
    let mut engine = CustomCacheEngine::new(config(16, 32, 2, true));
    assert_eq!(place(&mut engine, "a", 4, -1, &b"0123456789".to_vec()), 1);
    let got = engine.get_blocks(
        "a",
        &vec![
            BlockRead { block_id: 4, page_id: 1, read_to_max_index: 3 },
            BlockRead { block_id: 4, page_id: 0, read_to_max_index: 3 },
            BlockRead { block_id: 4, page_id: 1, read_to_max_index: 16 },
            BlockRead { block_id: 4, page_id: 1, read_to_max_index: -1 },
            BlockRead { block_id: 5, page_id: 1, read_to_max_index: 3 },
        ],
    );
    assert_eq!(got.len(), 5);
    assert!(got[0].hit);
    assert_eq!(got[0].data, b"0123".to_vec());
    for miss in &got[1..] {
        assert!(!miss.hit);
        assert!(miss.data.is_empty());
    }
    let other = engine.get_blocks("b", &vec![BlockRead { block_id: 4, page_id: 1, read_to_max_index: 3 }]);
    assert!(!other[0].hit);
}

#[test]
fn engine_remove_and_rename() {
    let mut engine = CustomCacheEngine::new(config(16, 16, 3, true));
    assert_eq!(place(&mut engine, "a", 0, -1, &vec![1u8; 16]), 2);
    assert_eq!(place(&mut engine, "a", 1, -1, &vec![2u8; 16]), 1);
    assert_eq!(place(&mut engine, "b", 0, -1, &vec![3u8; 16]), 0);
    assert!(!engine.rename_owner_pages("nobody", "c"));
    assert!(engine.rename_owner_pages("a", "a"));
    // What "b" held is released, then "a" becomes "b".
    assert!(engine.rename_owner_pages("a", "b"));
    assert_eq!(engine.get_engine_usage(), (2, 3));
    assert!(engine.is_block_cached("b", 2, 0));
    assert!(engine.is_block_cached("b", 1, 1));
    assert!(!engine.is_block_cached("a", 2, 0));
    assert!(!engine.is_block_cached("b", 0, 0));
    assert!(engine.remove_cached_blocks("b"));
    assert_eq!(engine.get_engine_usage(), (0, 3));
    assert!(engine.remove_cached_blocks("b"));
    // The pages went back in the order in which "b" got them.
    assert_eq!(place(&mut engine, "c", 0, -1, &vec![1u8; 16]), 1);
    assert_eq!(place(&mut engine, "c", 1, -1, &vec![1u8; 16]), 2);
    assert_eq!(place(&mut engine, "c", 2, -1, &vec![1u8; 16]), 0);
}

#[test]
fn engine_dirty_blocks_and_sync() {
    let mut engine = CustomCacheEngine::new(config(16, 16, 4, true));
    assert_eq!(place(&mut engine, "a", 2, -1, &vec![2u8; 16]), 3);
    assert_eq!(place(&mut engine, "a", 0, -1, &vec![0u8; 16]), 2);
    assert_eq!(place(&mut engine, "a", 1, -1, &vec![1u8; 16]), 1);
    engine.make_block_readable_to_offset("a", 3, 2, 7);
    engine.make_block_readable_to_offset("b", 2, 0, 7);
    engine.make_block_readable_to_offset("a", 1, 1, 15);
    engine.make_block_readable_to_offset("a", 2, 0, 15);
    assert_eq!(
        engine.get_dirty_blocks_info("a"),
        vec![(0, (0, 15), 2), (1, (0, 15), 1), (2, (0, 7), 3)]
    );
    assert!(engine.get_dirty_blocks_info("b").is_empty());
    let plan = engine.sync_pages("a", 40);
    assert_eq!(plan.truncate_to, 40);
    assert_eq!(plan.writes.len(), 1);
    assert_eq!(plan.writes[0].offset, 0);
    let mut want = vec![0u8; 16];
    want.extend_from_slice(&[1u8; 16]);
    want.extend_from_slice(&[2u8; 8]);
    assert_eq!(plan.writes[0].data, want);
    assert!(engine.get_dirty_blocks_info("a").is_empty());
    assert!(engine.sync_pages("a", 40).writes.is_empty());
    let nothing = engine.sync_pages("nobody", 3);
    assert!(nothing.writes.is_empty());
    assert_eq!(nothing.truncate_to, 3);
}

#[test]
fn engine_truncate() {
    let mut engine = CustomCacheEngine::new(config(16, 16, 4, true));
    assert_eq!(place(&mut engine, "a", 0, -1, &vec![7u8; 16]), 3);
    assert_eq!(place(&mut engine, "a", 1, -1, &vec![8u8; 16]), 2);
    engine.make_block_readable_to_offset("a", 3, 0, 15);
    assert!(engine.truncate_cached_blocks_in_order("a", &vec![(0, 3), (1, 2), (1, 9), (5, 3)], 0, 4));
    assert!(engine.is_block_cached("a", 3, 0));
    assert!(!engine.is_block_cached("a", 2, 1));
    assert_eq!(engine.get_engine_usage(), (1, 4));
    let got = engine.get_blocks("a", &vec![BlockRead { block_id: 0, page_id: 3, read_to_max_index: 15 }]);
    let mut want = vec![7u8; 4];
    want.extend_from_slice(&[0u8; 12]);
    assert_eq!(got[0].data, want);
    assert_eq!(engine.get_dirty_blocks_info("a"), vec![(0, (0, 3), 3)]);
}

#[test]
fn engine_evicts_and_hands_back_dirty_content() {
    let mut engine = CustomCacheEngine::new(config(4, 4, 2, true));
    assert_eq!(place(&mut engine, "a", 3, -1, &b"aaaa".to_vec()), 1);
    assert_eq!(place(&mut engine, "b", 0, -1, &b"bbbb".to_vec()), 0);
    // A read makes page 1 the most recently used.
    let read = engine.get_blocks("a", &vec![BlockRead { block_id: 3, page_id: 1, read_to_max_index: 3 }]);
    assert!(read[0].hit);
    let out = engine.allocate_blocks_in_order(
        "c",
        &vec![BlockPlacement { block_id: 9, page_id: -1, data: &b"cccc".to_vec(), offset: 0 }],
        AllocateOperationType::OpRead,
    );
    assert_eq!(out.assigned, vec![(9, 0)]);
    assert_eq!(out.flushes.len(), 1);
    assert_eq!(out.flushes[0].owner, "b");
    assert_eq!(out.flushes[0].writes[0].offset, 0);
    assert_eq!(out.flushes[0].writes[0].data, b"bbbb".to_vec());
    assert!(!engine.is_block_cached("b", 0, 0));
    assert!(engine.is_block_cached("a", 1, 3));
    assert!(engine.is_block_cached("c", 0, 9));
    // The page of "c" is clean: evicting it hands nothing back.
    let read = engine.get_blocks("a", &vec![BlockRead { block_id: 3, page_id: 1, read_to_max_index: 3 }]);
    assert!(read[0].hit);
    let out = engine.allocate_blocks_in_order(
        "d",
        &vec![BlockPlacement { block_id: 1, page_id: -1, data: &b"dddd".to_vec(), offset: 0 }],
        AllocateOperationType::OpWrite,
    );
    assert_eq!(out.assigned, vec![(1, 0)]);
    assert!(out.flushes.is_empty());
}

fn usage_through_the_trait<E: PageCacheEngine>(engine: &E) -> (usize, usize) {
    engine.get_engine_usage()
}

#[test]
fn engine_behind_its_trait() {
    let mut engine = CustomCacheEngine::new(config(8, 8, 2, true));
    assert_eq!(PageCacheEngine::io_block_size(&engine), 8);
    let out = PageCacheEngine::allocate_blocks_in_order(
        &mut engine,
        "a",
        &vec![BlockPlacement { block_id: 1, page_id: -1, data: &b"12345678".to_vec(), offset: 0 }],
        AllocateOperationType::OpWrite,
    );
    assert_eq!(out.assigned, vec![(1, 1)]);
    assert_eq!(usage_through_the_trait(&engine), (1, 2));
    assert!(PageCacheEngine::is_block_cached(&engine, "a", 1, 1));
    PageCacheEngine::make_block_readable_to_offset(&mut engine, "a", 1, 1, 7);
    assert_eq!(PageCacheEngine::get_dirty_blocks_info(&engine, "a"), vec![(1, (0, 7), 1)]);
    let read = PageCacheEngine::get_blocks(
        &mut engine,
        "a",
        &vec![BlockRead { block_id: 1, page_id: 1, read_to_max_index: 7 }],
    );
    assert_eq!(read[0].data, b"12345678".to_vec());
    let plan = PageCacheEngine::sync_pages(&mut engine, "a", 16);
    assert_eq!(plan.writes.len(), 1);
    assert_eq!(plan.writes[0].offset, 8);
    assert!(PageCacheEngine::rename_owner_pages(&mut engine, "a", "b"));
    assert!(PageCacheEngine::truncate_cached_blocks_in_order(&mut engine, "b", &vec![(1, 1)], 0, 0));
    assert_eq!(usage_through_the_trait(&engine), (0, 2));
    assert!(PageCacheEngine::remove_cached_blocks(&mut engine, "b"));
}

#[test]
fn page_too_large_for_its_offsets() {
    let mut huge = Config::default();
    huge.cache_page_size = 1 << 31;
    huge.io_block_size = 1 << 31;
    assert!(!huge.is_valid());
    assert!(matches!(Page::new(&huge), Err(PageError::PageTooLarge)));
}

#[test]
fn flush_writes_go_up_through_the_file() {
    let mut engine = CustomCacheEngine::new(config(4, 4, 6, true));
    for block in [9, 2, 3, 7, 0, 4] {
        assert!(place(&mut engine, "a", block, -1, &vec![block as u8; 4]) >= 0);
    }
    let plan = engine.sync_pages("a", 0);
    let spans: Vec<(u64, usize)> = plan.writes.iter().map(|w| (w.offset, w.data.len())).collect();
    // Runs: 0; 2, 3, 4; 7; 9.  A block without mark ends after its first byte.
    assert_eq!(spans, vec![(0, 1), (8, 9), (28, 1), (36, 1)]);
    assert_eq!(plan.writes[1].data, vec![2, 2, 2, 2, 3, 3, 3, 3, 4]);
}

#[test]
fn engine_places_a_map_of_blocks_in_ascending_order() {
    let mut engine = CustomCacheEngine::new(config(16, 16, 3, false));
    let data = vec![1u8; 16];
    let mut blocks: HashMap<i32, (i32, &Vec<u8>, i32)> = HashMap::new();
    blocks.insert(8, (-1, &data, 0));
    blocks.insert(3, (-1, &data, 0));
    blocks.insert(5, (-1, &data, 0));
    blocks.insert(9, (-1, &data, 0));
    let out = engine.allocate_blocks("a", &blocks, AllocateOperationType::OpWrite);
    // The free pages go out from the top, to the blocks in ascending order.
    assert_eq!(out.assigned, HashMap::from([(3, 2), (5, 1), (8, 0), (9, -1)]));
    assert!(out.flushes.is_empty());
    let gone: HashMap<i32, i32> = HashMap::from([(8, 0), (5, 1), (3, 0)]);
    assert!(engine.truncate_cached_blocks("a", &gone, 5, 0));
    assert!(engine.is_block_cached("a", 2, 3));
    assert!(!engine.is_block_cached("a", 1, 5));
    assert!(!engine.is_block_cached("a", 0, 8));
    // Page 1 was released before page 0: page 0 is on top.
    assert_eq!(place(&mut engine, "b", 0, -1, &data), 0);
    assert_eq!(place(&mut engine, "b", 1, -1, &data), 1);
}

use idvd::allocator::FreeMap;

#[test]
fn scenario_130_blocks() {
    let mut fm = FreeMap::new(130);
    assert_eq!(fm.search_free_block(), Some(0));
    fm.fill_free_block(0);
    assert_eq!(fm.search_free_block(), Some(1));
    fm.fill_blocks(1, 63);
    // the first layer-0 word is now all ones, so layer 1 bit 0 is set
    assert_eq!(fm.c(1, 0) & 1, 1);
    assert_eq!(fm.search_free_block(), Some(64));
    fm.fill_blocks(64, 66);
    // every index below 130 is occupied
    assert_eq!(fm.search_free_block(), None);
}

#[test]
fn boundary_sizes_fill_up() {
    for &size in &[1u64, 63, 64, 65, 4095, 4096, 4097] {
        let mut fm = FreeMap::new(size);
        assert_eq!(fm.search_free_block(), Some(0), "size {}", size);
        fm.fill_blocks(0, size);
        assert_eq!(fm.search_free_block(), None, "size {}", size);
        fm.release_free_block(size - 1);
        assert_eq!(fm.search_free_block(), Some(size - 1), "size {}", size);
    }
}

#[test]
fn three_layer_map() {
    let mut fm = FreeMap::new(4097);
    assert_eq!(fm.layer_num, 3);
    fm.fill_blocks(0, 4096);
    assert_eq!(fm.search_free_block(), Some(4096));
    fm.fill_free_block(4096);
    assert_eq!(fm.search_free_block(), None);
}

#[test]
fn fill_then_release_restores_words() {
    let mut fm = FreeMap::new(200);
    fm.fill_blocks(10, 60);
    let snapshot = fm.pow_map.clone();
    fm.fill_free_block(130);
    fm.release_free_block(130);
    assert_eq!(fm.pow_map, snapshot);
    // also across a word-filling boundary
    fm.fill_blocks(128, 63);
    let snapshot2 = fm.pow_map.clone();
    fm.fill_free_block(191);
    fm.release_free_block(191);
    assert_eq!(fm.pow_map, snapshot2);
}

#[test]
fn contiguous_search_finds_lowest_run() {
    let mut fm = FreeMap::new(300);
    fm.fill_blocks(0, 10);
    fm.fill_blocks(12, 3);
    // the gap at 10 has width 2; the first run of 5 starts at 15
    assert_eq!(fm.search_free_blocks(2), Some(10));
    assert_eq!(fm.search_free_blocks(5), Some(15));
    assert_eq!(fm.search_free_blocks(285), Some(15));
    assert_eq!(fm.search_free_blocks(286), None);
}

#[test]
fn contiguous_search_skips_full_subtrees() {
    let mut fm = FreeMap::new(200);
    fm.fill_blocks(0, 64);
    assert_eq!(fm.search_free_blocks(1), Some(64));
    assert_eq!(fm.search_free_blocks(136), Some(64));
    assert_eq!(fm.search_free_blocks(137), None);
}

#[test]
fn search_none_iff_all_used() {
    let mut fm = FreeMap::new(66);
    for b in 0..66 {
        assert!(fm.search_free_block().is_some());
        fm.fill_free_block(b);
    }
    assert_eq!(fm.search_free_block(), None);
    fm.release_free_block(3);
    assert_eq!(fm.search_free_block(), Some(3));
}

#[test]
fn release_range_frees_blocks() {
    let mut fm = FreeMap::new(100);
    fm.fill_blocks(0, 100);
    fm.release_blocks(40, 5);
    assert_eq!(fm.search_free_block(), Some(40));
    assert_eq!(fm.search_free_blocks(5), Some(40));
    assert_eq!(fm.search_free_blocks(6), None);
}

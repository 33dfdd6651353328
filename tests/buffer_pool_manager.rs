use std::collections::HashMap;

use bustub::buffer_pool_manager::BufferPoolManager;
use bustub::config::{PageId, BUSTUB_PAGE_SIZE};
use bustub::disk_scheduler::DiskRequest;

/// Serves every queued request against an in-memory disk, oldest first.
fn run_disk(bpm: &mut BufferPoolManager, disk: &mut HashMap<PageId, Vec<u8>>) -> usize {
    let mut served = 0;
    while let Some(req) = bpm.next_request() {
        match req {
            DiskRequest::Write { page_id, data } => {
                disk.insert(page_id, data);
            }
            DiskRequest::Read { page_id, frame_id } => {
                let data = disk
                    .get(&page_id)
                    .cloned()
                    .unwrap_or_else(|| vec![0u8; BUSTUB_PAGE_SIZE]);
                bpm.complete_read(frame_id, page_id, &data);
            }
        }
        served += 1;
    }
    served
}

fn data_of(bpm: &BufferPoolManager, page_id: PageId) -> Vec<u8> {
    let f = bpm.lookup(page_id).unwrap();
    bpm.get_pages()[f].get_data().to_vec()
}

fn pin_count_of(bpm: &BufferPoolManager, page_id: PageId) -> u32 {
    let f = bpm.lookup(page_id).unwrap();
    bpm.get_pages()[f].get_pin_count()
}

#[test]
fn test_buffer_pool_manager_binary_data() {
    let buffer_pool_size = 10;
    let k = 5;
    let mut disk = HashMap::new();
    let mut bpm = BufferPoolManager::new(buffer_pool_size, k);

    let page0 = bpm.new_page();

    // Scenario: The buffer pool is empty. We should be able to create a new page.
    assert!(page0.is_some());

    // Generate pseudo-random binary data
    let mut seed: u32 = 0x1234_5678;
    let mut random_binary_data: Vec<u8> = (0..BUSTUB_PAGE_SIZE)
        .map(|_| {
            seed = seed.wrapping_mul(1_664_525).wrapping_add(1_013_904_223);
            (seed >> 24) as u8
        })
        .collect();

    // Insert terminal characters both in the middle and at end
    random_binary_data[BUSTUB_PAGE_SIZE / 2] = 0;
    random_binary_data[BUSTUB_PAGE_SIZE - 1] = 0;

    // Scenario: Once we have a page, we should be able to read and write content.
    let page0 = page0.unwrap();
    assert!(bpm.write_page_data(page0, 0, &random_binary_data));
    assert_eq!(random_binary_data, data_of(&bpm, page0));

    // Scenario: We should be able to create new pages until we fill up the buffer
    // pool.
    for _i in 1..buffer_pool_size {
        assert!(bpm.new_page().is_some());
    }

    // Scenario: Once the buffer pool is full, we should not be able to create any
    // new pages.
    for _i in buffer_pool_size..buffer_pool_size * 2 {
        assert!(bpm.new_page().is_none());
    }

    // Scenario: After unpinning pages {0, 1, 2, 3, 4}, we should be able to create
    // 5 new pages
    for i in 0..5 {
        assert!(bpm.unpin_page(i, true));
        bpm.flush_page(i);
        run_disk(&mut bpm, &mut disk);
    }
    for _i in 0..5 {
        let page = bpm.new_page();
        assert!(page.is_some());
        run_disk(&mut bpm, &mut disk);
        // Unpin the page here to allow future fetching
        bpm.unpin_page(page.unwrap(), false);
    }

    // Scenario: We should be able to fetch the data we wrote a while ago.
    let page0 = bpm.fetch_page(0);
    assert!(page0.is_some());
    run_disk(&mut bpm, &mut disk);
    assert_eq!(data_of(&bpm, 0), random_binary_data);
    assert!(bpm.unpin_page(0, true));
}

#[test]
fn test_buffer_pool_manager_sample() {
    let buffer_pool_size = 10;
    let k = 5;
    let mut disk = HashMap::new();
    let mut bpm = BufferPoolManager::new(buffer_pool_size, k);

    let page0 = bpm.new_page();

    // Scenario: The buffer pool is empty. We should be able to create a new page.
    assert!(page0.is_some());
    assert_eq!(0, page0.unwrap());

    // Scenario: Once we have a page, we should be able to read and write content.
    let data = "Hello".as_bytes();
    assert!(bpm.write_page_data(0, 0, data));
    assert_eq!(data, &data_of(&bpm, 0)[..data.len()]);

    // Scenario: We should be able to create new pages until we fill up the buffer
    // pool.
    for _i in 1..buffer_pool_size {
        assert!(bpm.new_page().is_some());
    }

    // Scenario: Once the buffer pool is full, we should not be able to create any
    // new pages.
    for _i in buffer_pool_size..buffer_pool_size * 2 {
        assert!(bpm.new_page().is_none());
    }

    // Scenario: After unpinning pages {0, 1, 2, 3, 4} and pinning another 4 new
    // pages, there would still be one buffer page left for reading page 0.
    for i in 0..5 {
        assert_eq!(true, bpm.unpin_page(i as PageId, true));
    }
    for _i in 0..4 {
        assert!(bpm.new_page().is_some());
        run_disk(&mut bpm, &mut disk);
    }

    // Scenario: We should be able to fetch the data we wrote a while ago.
    let page0 = bpm.fetch_page(0);
    assert!(page0.is_some());
    run_disk(&mut bpm, &mut disk);
    assert_eq!(data, &data_of(&bpm, 0)[..data.len()]);

    // Scenario: If we unpin page 0 and then make a new page, all the buffer pages
    // should now be pinned. Fetching page 0 again should fail.
    assert_eq!(true, bpm.unpin_page(0, true));
    assert!(bpm.new_page().is_some());
    run_disk(&mut bpm, &mut disk);
    assert!(bpm.fetch_page(0).is_none());
}

#[test]
fn fresh_pool_hands_out_frames_in_order_and_ids_from_zero() {
    let mut bpm = BufferPoolManager::new(3, 2);
    assert_eq!(bpm.get_pool_size(), 3);
    assert_eq!(bpm.new_page(), Some(0));
    assert_eq!(bpm.new_page(), Some(1));
    assert_eq!(bpm.new_page(), Some(2));
    assert_eq!(bpm.lookup(0), Some(0));
    assert_eq!(bpm.lookup(1), Some(1));
    assert_eq!(bpm.lookup(2), Some(2));
    assert_eq!(bpm.next_page_id(), 3);
    assert_eq!(pin_count_of(&bpm, 1), 1);
    assert_eq!(data_of(&bpm, 2), vec![0u8; BUSTUB_PAGE_SIZE]);
}

#[test]
fn pool_of_n_fails_on_new_page_n_plus_one_and_unpins_free_slots() {
    let n = 4;
    let mut bpm = BufferPoolManager::new(n, 2);
    for i in 0..n {
        assert_eq!(bpm.new_page(), Some(i as PageId));
    }
    assert_eq!(bpm.new_page(), None);
    assert_eq!(bpm.next_page_id(), n as PageId);
    assert!(bpm.unpin_page(1, false));
    assert!(bpm.unpin_page(3, false));
    assert!(bpm.new_page().is_some());
    assert!(bpm.new_page().is_some());
    assert_eq!(bpm.new_page(), None);
    assert_eq!(bpm.fetch_page(0).is_some(), true);
    assert!(bpm.unpin_page(0, false));
    assert!(bpm.unpin_page(0, false));
    assert!(bpm.fetch_page(1).is_some());
    assert_eq!(bpm.fetch_page(3), None);
}

#[test]
fn round_trip_through_flush_and_eviction() {
    let mut disk = HashMap::new();
    let mut bpm = BufferPoolManager::new(2, 2);
    let p = bpm.new_page().unwrap();
    let bytes: Vec<u8> = (0..100u8).collect();
    assert!(bpm.write_page_data(p, 10, &bytes));
    assert!(bpm.flush_page(p));
    assert_eq!(run_disk(&mut bpm, &mut disk), 1);
    assert!(bpm.unpin_page(p, false));
    // exhaust the pool so that p's frame is reused
    let a = bpm.new_page().unwrap();
    let b = bpm.new_page().unwrap();
    run_disk(&mut bpm, &mut disk);
    assert!(bpm.lookup(p).is_none());
    assert!(bpm.unpin_page(a, false));
    assert!(bpm.unpin_page(b, false));
    let f = bpm.fetch_page(p).unwrap();
    assert_eq!(run_disk(&mut bpm, &mut disk), 1);
    let data = bpm.get_pages()[f].get_data().to_vec();
    let mut expected = vec![0u8; BUSTUB_PAGE_SIZE];
    expected[10..110].copy_from_slice(&bytes);
    assert_eq!(data, expected);
}

#[test]
fn dirty_victim_is_written_back_before_reuse() {
    let mut disk = HashMap::new();
    let mut bpm = BufferPoolManager::new(1, 2);
    let p = bpm.new_page().unwrap();
    assert!(bpm.write_page_data(p, 0, b"dirty"));
    assert!(bpm.unpin_page(p, true));
    let q = bpm.new_page().unwrap();
    assert_ne!(p, q);
    assert_eq!(run_disk(&mut bpm, &mut disk), 1);
    assert_eq!(&disk[&p][..5], b"dirty");
    assert_eq!(data_of(&bpm, q), vec![0u8; BUSTUB_PAGE_SIZE]);
}

#[test]
fn clean_victim_is_not_written() {
    let mut disk = HashMap::new();
    let mut bpm = BufferPoolManager::new(1, 2);
    let p = bpm.new_page().unwrap();
    assert!(bpm.unpin_page(p, false));
    assert!(bpm.new_page().is_some());
    assert_eq!(run_disk(&mut bpm, &mut disk), 0);
    assert!(disk.is_empty());
}

#[test]
fn unpin_of_unpinned_or_absent_page_returns_false() {
    let mut bpm = BufferPoolManager::new(2, 2);
    let p = bpm.new_page().unwrap();
    assert!(!bpm.unpin_page(7, true));
    assert!(bpm.unpin_page(p, false));
    assert_eq!(pin_count_of(&bpm, p), 0);
    assert!(!bpm.unpin_page(p, true));
    let f = bpm.lookup(p).unwrap();
    assert!(!bpm.get_pages()[f].is_dirty());
    // the frame is still the only evictable one: one new page reuses the free
    // frame, the next one evicts p
    assert!(bpm.new_page().is_some());
    assert!(bpm.new_page().is_some());
    assert!(bpm.lookup(p).is_none());
}

#[test]
fn unpin_dirty_flag_is_sticky() {
    let mut bpm = BufferPoolManager::new(2, 2);
    let p = bpm.new_page().unwrap();
    assert!(bpm.fetch_page(p).is_some());
    assert!(bpm.unpin_page(p, true));
    assert!(bpm.unpin_page(p, false));
    let f = bpm.lookup(p).unwrap();
    assert!(bpm.get_pages()[f].is_dirty());
}

#[test]
fn flush_page_writes_and_cleans() {
    let mut disk = HashMap::new();
    let mut bpm = BufferPoolManager::new(2, 2);
    assert!(!bpm.flush_page(3));
    let p = bpm.new_page().unwrap();
    assert!(bpm.write_page_data(p, 4, &[9, 9]));
    assert!(bpm.unpin_page(p, true));
    assert!(bpm.flush_page(p));
    let f = bpm.lookup(p).unwrap();
    assert!(!bpm.get_pages()[f].is_dirty());
    assert_eq!(run_disk(&mut bpm, &mut disk), 1);
    assert_eq!(disk[&p][4..6], [9, 9]);
    // flush writes even a clean page
    assert!(bpm.flush_page(p));
    assert_eq!(run_disk(&mut bpm, &mut disk), 1);
}

#[test]
fn flush_all_pages_writes_only_dirty_pages() {
    let mut disk = HashMap::new();
    let mut bpm = BufferPoolManager::new(3, 2);
    let a = bpm.new_page().unwrap();
    let b = bpm.new_page().unwrap();
    let c = bpm.new_page().unwrap();
    assert!(bpm.unpin_page(a, true));
    assert!(bpm.unpin_page(c, true));
    assert!(bpm.unpin_page(b, false));
    bpm.flush_all_pages();
    assert_eq!(run_disk(&mut bpm, &mut disk), 2);
    assert!(disk.contains_key(&a));
    assert!(disk.contains_key(&c));
    assert!(!disk.contains_key(&b));
    bpm.flush_all_pages();
    assert_eq!(run_disk(&mut bpm, &mut disk), 0);
}

#[test]
fn delete_page_pinned_absent_and_unpinned() {
    let mut disk = HashMap::new();
    let mut bpm = BufferPoolManager::new(1, 2);
    assert!(bpm.delete_page(42));
    let p = bpm.new_page().unwrap();
    assert!(bpm.write_page_data(p, 0, b"gone"));
    assert!(!bpm.delete_page(p));
    assert!(bpm.lookup(p).is_some());
    assert_eq!(pin_count_of(&bpm, p), 1);
    assert!(bpm.unpin_page(p, true));
    assert!(bpm.delete_page(p));
    assert!(bpm.lookup(p).is_none());
    assert_eq!(run_disk(&mut bpm, &mut disk), 0);
    // the frame is free again, and fetching the page reads it from disk
    let f = bpm.fetch_page(p).unwrap();
    assert_eq!(f, 0);
    assert_eq!(run_disk(&mut bpm, &mut disk), 1);
    assert_eq!(data_of(&bpm, p), vec![0u8; BUSTUB_PAGE_SIZE]);
    // deleted ids are not reused
    assert!(bpm.unpin_page(p, false));
    assert_eq!(bpm.new_page(), Some(1));
}

#[test]
fn complete_read_ignores_stale_frames() {
    let mut bpm = BufferPoolManager::new(2, 2);
    let p = bpm.new_page().unwrap();
    let f = bpm.lookup(p).unwrap();
    let bytes = vec![7u8; BUSTUB_PAGE_SIZE];
    assert!(!bpm.complete_read(f, p + 1, &bytes));
    assert!(!bpm.complete_read(5, p, &bytes));
    assert!(!bpm.complete_read(f, p, &bytes[..10]));
    assert!(bpm.complete_read(f, p, &bytes));
    assert_eq!(data_of(&bpm, p), bytes);
}

#[test]
fn requests_come_out_in_order() {
    let mut bpm = BufferPoolManager::new(1, 2);
    let p = bpm.new_page().unwrap();
    assert!(bpm.unpin_page(p, true));
    assert!(bpm.flush_page(p));
    assert!(bpm.write_page_data(p, 0, &[1]));
    assert!(bpm.unpin_page(p, false) == false);
    let q = bpm.new_page().unwrap();
    assert!(bpm.unpin_page(q, false));
    let f = bpm.fetch_page(p).unwrap();
    match bpm.next_request() {
        Some(DiskRequest::Write { page_id, data }) => {
            assert_eq!(page_id, p);
            assert_eq!(data[0], 0);
        }
        other => panic!("unexpected {:?}", other),
    }
    match bpm.next_request() {
        Some(DiskRequest::Read { page_id, frame_id }) => {
            assert_eq!(page_id, p);
            assert_eq!(frame_id, f);
        }
        other => panic!("unexpected {:?}", other),
    }
    assert!(bpm.next_request().is_none());
}

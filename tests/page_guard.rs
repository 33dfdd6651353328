use bustub::buffer_pool_manager::BufferPoolManager;
use bustub::page_guard::{BasicPageGuard, ReadPageGuard};

#[test]
fn test_page_guard_sample() {
    let buffer_pool_size = 5;
    let k = 2;

    let mut bpm = BufferPoolManager::new(buffer_pool_size, k);

    let page0 = bpm.new_page().unwrap();

    let guarded_page = BasicPageGuard::new(page0);

    let f0 = bpm.lookup(page0).unwrap();
    assert_eq!(bpm.get_pages()[f0].get_data(), guarded_page.get_data(&bpm));
    assert_eq!(bpm.get_pages()[f0].get_page_id(), Some(guarded_page.page_id()));
    assert_eq!(1, bpm.get_pages()[f0].get_pin_count());

    guarded_page.drop(&mut bpm);

    assert_eq!(0, bpm.get_pages()[f0].get_pin_count());

    {
        let page2 = bpm.new_page().unwrap();
        let f2 = bpm.lookup(page2).unwrap();
        let _guard1 = bpm.get_pages()[f2].get_data();
        let _guard2 = ReadPageGuard::new(page2);
    }
}

#[test]
fn write_guard_marks_page_dirty_on_release() {
    let mut bpm = BufferPoolManager::new(2, 2);
    let mut id = None;
    let guard = bpm.new_page_guarded(&mut id).unwrap();
    assert_eq!(id, Some(guard.page_id()));
    let p = guard.page_id();
    let mut w = guard.upgrade_write();
    assert!(w.get_data_mut(&mut bpm, 3, b"abc"));
    assert_eq!(&w.get_data(&bpm)[3..6], b"abc");
    assert!(w.drop(&mut bpm));
    let f = bpm.lookup(p).unwrap();
    assert!(bpm.get_pages()[f].is_dirty());
    assert_eq!(bpm.get_pages()[f].get_pin_count(), 0);
}

#[test]
fn read_guard_release_leaves_page_clean() {
    let mut bpm = BufferPoolManager::new(2, 2);
    let p = bpm.new_page().unwrap();
    assert!(bpm.unpin_page(p, false));
    let r = bpm.fetch_page_read(p).unwrap();
    assert_eq!(r.page_id(), p);
    let f = bpm.lookup(p).unwrap();
    assert_eq!(bpm.get_pages()[f].get_pin_count(), 1);
    assert_eq!(r.get_data(&bpm).len(), 4096);
    assert!(r.drop(&mut bpm));
    assert!(!bpm.get_pages()[f].is_dirty());
    assert_eq!(bpm.get_pages()[f].get_pin_count(), 0);
}

#[test]
fn upgrade_keeps_the_single_pin() {
    let mut bpm = BufferPoolManager::new(1, 2);
    let p = bpm.new_page().unwrap();
    assert!(bpm.unpin_page(p, false));
    let basic = bpm.fetch_page_basic(p).unwrap();
    let read = basic.upgrade_read();
    let f = bpm.lookup(p).unwrap();
    assert_eq!(bpm.get_pages()[f].get_pin_count(), 1);
    assert!(read.drop(&mut bpm));
    assert_eq!(bpm.get_pages()[f].get_pin_count(), 0);
    let w = bpm.fetch_page_write(p).unwrap();
    assert!(bpm.fetch_page_basic(p).is_some());
    assert_eq!(bpm.get_pages()[f].get_pin_count(), 2);
    assert!(w.drop(&mut bpm));
    assert_eq!(bpm.get_pages()[f].get_pin_count(), 1);
}

#[test]
fn guarded_calls_fail_when_pool_is_pinned() {
    let mut bpm = BufferPoolManager::new(1, 2);
    let mut id = None;
    let g = bpm.new_page_guarded(&mut id).unwrap();
    let mut id2 = Some(99);
    assert!(bpm.new_page_guarded(&mut id2).is_none());
    assert_eq!(id2, None);
    assert_eq!(g.page_id(), 0);
}

use bustub::config::BUSTUB_PAGE_SIZE;
use bustub::page::Page;

#[test]
fn new_page_is_zeroed_and_unowned() {
    let p = Page::new();
    assert_eq!(p.get_data().len(), BUSTUB_PAGE_SIZE);
    assert!(p.get_data().iter().all(|b| *b == 0));
    assert_eq!(p.get_page_id(), None);
    assert_eq!(p.get_pin_count(), 0);
    assert!(!p.is_dirty());
}

#[test]
fn write_data_touches_only_its_range() {
    let mut p = Page::new();
    p.write_data(4090, &[1, 2, 3, 4, 5, 6]);
    assert_eq!(&p.get_data()[4088..], &[0, 0, 1, 2, 3, 4, 5, 6]);
    p.write_data(0, b"");
    assert_eq!(p.get_data()[0], 0);
}

#[test]
fn metadata_setters_and_reset() {
    let mut p = Page::new();
    p.set_page_id(17);
    p.pin();
    p.pin();
    p.unpin();
    p.set_dirty(true);
    p.write_data(0, b"xyz");
    assert_eq!(p.get_page_id(), Some(17));
    assert_eq!(p.get_pin_count(), 1);
    assert!(p.is_dirty());
    p.reset();
    assert_eq!(p.get_page_id(), None);
    assert_eq!(p.get_pin_count(), 0);
    assert!(!p.is_dirty());
    assert_eq!(&p.get_data()[..3], &[0, 0, 0]);
}

#[test]
fn set_data_replaces_everything() {
    let mut p = Page::new();
    let bytes = vec![0xabu8; BUSTUB_PAGE_SIZE];
    p.set_data(&bytes);
    assert_eq!(p.get_data(), &bytes[..]);
}

#[test]
fn lsn_round_trips_in_native_byte_order() {
    let mut p = Page::new();
    p.write_data(0, &[0xee; 16]);
    let lsn: u64 = 0x0102_0304_0506_0708;
    p.set_lsn(lsn);
    assert_eq!(p.get_lsn(), lsn);
    assert_eq!(&p.get_data()[4..12], &lsn.to_ne_bytes());
    assert_eq!(&p.get_data()[..4], &[0xee; 4]);
    assert_eq!(&p.get_data()[12..16], &[0xee; 4]);
    assert_eq!(Page::new().get_lsn(), 0);
}

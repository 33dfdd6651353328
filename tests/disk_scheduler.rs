use bustub::disk_scheduler::{DiskRequest, DiskScheduler};

#[test]
fn requests_are_served_first_in_first_out() {
    let mut s = DiskScheduler::new();
    assert_eq!(s.len(), 0);
    assert!(s.next_request().is_none());
    s.schedule(DiskRequest::Read { page_id: 3, frame_id: 1 });
    s.schedule(DiskRequest::Write { page_id: 4, data: vec![1, 2] });
    s.schedule(DiskRequest::Read { page_id: 5, frame_id: 0 });
    assert_eq!(s.len(), 3);
    assert!(matches!(s.next_request(), Some(DiskRequest::Read { page_id: 3, frame_id: 1 })));
    match s.next_request() {
        Some(DiskRequest::Write { page_id, data }) => {
            assert_eq!(page_id, 4);
            assert_eq!(data, vec![1, 2]);
        }
        other => panic!("unexpected {:?}", other),
    }
    assert!(matches!(s.next_request(), Some(DiskRequest::Read { page_id: 5, frame_id: 0 })));
    assert!(s.next_request().is_none());
    assert_eq!(s.len(), 0);
}

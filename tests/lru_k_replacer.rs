use bustub::lru_k_replacer::LRUKReplacer;

#[test]
fn test_sample() {
    let mut lru_replacer = LRUKReplacer::new(7, 2);

    // Scenario: add six elements to the replacer. We have [1,2,3,4,5]. Frame 6 is
    // non-evictable.
    lru_replacer.record_access(1);
    lru_replacer.record_access(2);
    lru_replacer.record_access(3);
    lru_replacer.record_access(4);
    lru_replacer.record_access(5);
    lru_replacer.record_access(6);
    lru_replacer.set_evictable(1, true);
    lru_replacer.set_evictable(2, true);
    lru_replacer.set_evictable(3, true);
    lru_replacer.set_evictable(4, true);
    lru_replacer.set_evictable(5, true);
    lru_replacer.set_evictable(6, false);
    assert_eq!(5, lru_replacer.size());

    // Scenario: Insert access history for frame 1. Now frame 1 has two access
    // histories. All other frames have max backward k-dist. The order of
    // eviction is [2,3,4,5,1].
    lru_replacer.record_access(1);

    // Scenario: Evict three pages from the replacer. Elements with max k-distance
    // should be popped first based on LRU.
    let value = lru_replacer.evict();
    assert_eq!(Some(2), value);
    let value = lru_replacer.evict();
    assert_eq!(Some(3), value);
    let value = lru_replacer.evict();
    assert_eq!(Some(4), value);
    assert_eq!(lru_replacer.size(), 2);

    // Scenario: Now replacer has frames [5,1]. Insert new frames 3, 4, and update
    // access history for 5. We should end with [3,1,5,4]
    lru_replacer.record_access(3);
    lru_replacer.record_access(4);
    lru_replacer.record_access(5);
    lru_replacer.record_access(4);
    lru_replacer.set_evictable(3, true);
    lru_replacer.set_evictable(4, true);
    assert_eq!(4, lru_replacer.size());

    // Scenario: continue looking for victims. We expect 3 to be evicted next.
    let value = lru_replacer.evict();
    assert_eq!(Some(3), value);
    assert_eq!(3, lru_replacer.size());

    // Set 6 to be evictable. 6 Should be evicted next since it has max backward
    // k-dist.
    lru_replacer.set_evictable(6, true);
    assert_eq!(4, lru_replacer.size());
    let value = lru_replacer.evict();
    assert_eq!(Some(6), value);
    assert_eq!(3, lru_replacer.size());

    // Now we have [1,5,4]. Continue looking for victims.
    lru_replacer.set_evictable(1, false);
    assert_eq!(2, lru_replacer.size());
    let value = lru_replacer.evict();
    assert_eq!(Some(5), value);
    assert_eq!(1, lru_replacer.size());

    // Update access history for 1. Now we have [4,1]. Next victim is 4.
    lru_replacer.record_access(1);
    lru_replacer.record_access(1);
    lru_replacer.set_evictable(1, true);
    assert_eq!(2, lru_replacer.size());
    let value = lru_replacer.evict();
    assert_eq!(Some(4), value);

    assert_eq!(1, lru_replacer.size());
    let value = lru_replacer.evict();
    assert_eq!(Some(1), value);
    assert_eq!(0, lru_replacer.size());

    // This operation should not modify size
    assert_eq!(None, lru_replacer.evict());
    assert_eq!(0, lru_replacer.size());
}

#[test]
fn two_frames_fewer_than_k_accesses_evict_oldest_first() {
    let mut r = LRUKReplacer::new(2, 2);
    r.record_access(1);
    r.record_access(2);
    r.set_evictable(1, true);
    r.set_evictable(2, true);
    assert_eq!(r.evict(), Some(1));
    assert_eq!(r.size(), 1);
    assert_eq!(r.evict(), Some(2));
    assert_eq!(r.size(), 0);
    assert_eq!(r.evict(), None);
}

#[test]
fn size_counts_only_evictable_frames() {
    let mut r = LRUKReplacer::new(10, 3);
    assert_eq!(r.size(), 0);
    r.record_access(0);
    r.record_access(4);
    r.record_access(9);
    assert_eq!(r.size(), 3);
    r.set_evictable(4, false);
    assert_eq!(r.size(), 2);
    r.set_evictable(4, false);
    assert_eq!(r.size(), 2);
    r.set_evictable(4, true);
    r.set_evictable(4, true);
    assert_eq!(r.size(), 3);
    r.remove(9);
    assert_eq!(r.size(), 2);
    r.remove(7);
    assert_eq!(r.size(), 2);
}

#[test]
fn finite_distance_larger_gap_is_evicted_first() {
    let mut r = LRUKReplacer::new(4, 2);
    // frame 1 at t=0 and t=3 (gap 3); frame 2 at t=1 and t=2 (gap 1)
    r.record_access(1);
    r.record_access(2);
    r.record_access(2);
    r.record_access(1);
    assert_eq!(r.evict(), Some(1));
    assert_eq!(r.evict(), Some(2));
    assert_eq!(r.evict(), None);
}

#[test]
fn infinite_distance_beats_finite() {
    let mut r = LRUKReplacer::new(4, 2);
    r.record_access(1);
    r.record_access(1);
    r.record_access(2);
    assert_eq!(r.evict(), Some(2));
    assert_eq!(r.evict(), Some(1));
}

#[test]
fn history_keeps_only_last_k_accesses() {
    let mut r = LRUKReplacer::new(4, 2);
    // frame 1: t=0,1,5 -> last two are 1,5 (gap 4)
    // frame 2: t=2,3 (gap 1); frame 3: t=4,6 (gap 2)
    r.record_access(1);
    r.record_access(1);
    r.record_access(2);
    r.record_access(2);
    r.record_access(3);
    r.record_access(1);
    r.record_access(3);
    assert_eq!(r.evict(), Some(1));
    assert_eq!(r.evict(), Some(3));
    assert_eq!(r.evict(), Some(2));
}

#[test]
fn non_evictable_frame_is_never_evicted() {
    let mut r = LRUKReplacer::new(4, 2);
    r.record_access(3);
    r.set_evictable(3, false);
    assert_eq!(r.evict(), None);
    assert_eq!(r.size(), 0);
    r.set_evictable(3, true);
    assert_eq!(r.evict(), Some(3));
}

#[test]
fn evict_until_empty_returns_each_frame_once() {
    let mut r = LRUKReplacer::new(8, 3);
    for f in [5usize, 2, 7, 0, 3] {
        r.record_access(f);
    }
    r.record_access(2);
    r.set_evictable(0, false);
    let mut seen = Vec::new();
    while let Some(f) = r.evict() {
        assert!(!seen.contains(&f));
        seen.push(f);
    }
    assert_eq!(seen, vec![5, 2, 7, 3]);
    assert_eq!(r.evict(), None);
    assert_eq!(r.size(), 0);
}

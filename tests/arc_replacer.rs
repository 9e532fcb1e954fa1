use grimoire::arc_replacer::{AccessType, ArcReplacer, ArcStatus, ReplacerError};

fn status(r: &ArcReplacer, f: usize) -> (i32, bool, ArcStatus) {
    let st = r.frame_status(f).expect("frame is resident");
    (st.page_id, st.evictable, st.arc_status)
}

#[test]
fn evict_on_empty_replacer_returns_none() {
    let mut r = ArcReplacer::new(3);
    assert_eq!(r.evict(), None);
    assert_eq!(r.size(), 0);
}

#[test]
fn evict_with_every_frame_pinned_returns_none() {
    let mut r = ArcReplacer::new(3);
    r.record_access(0, 100, AccessType::Lookup);
    r.record_access(1, 101, AccessType::Lookup);
    assert_eq!(r.size(), 0);
    assert_eq!(r.evict(), None);
    assert!(r.frame_status(0).is_some());
    assert!(r.frame_status(1).is_some());
}

#[test]
fn new_frames_start_pinned_in_recency_list() {
    let mut r = ArcReplacer::new(3);
    r.record_access(2, 7, AccessType::Scan);
    assert_eq!(status(&r, 2), (7, false, ArcStatus::MRU));
    assert_eq!(r.frame_status(2).unwrap().frame_id, 2);
}

#[test]
fn evict_takes_least_recently_used_evictable_frame() {
    let mut r = ArcReplacer::new(3);
    r.record_access(0, 10, AccessType::Lookup);
    r.record_access(1, 11, AccessType::Lookup);
    r.record_access(2, 12, AccessType::Lookup);
    r.set_evicted(1).unwrap();
    r.set_evicted(2).unwrap();
    assert_eq!(r.size(), 2);
    assert_eq!(r.evict(), Some(1));
    assert_eq!(r.evict(), Some(2));
    assert_eq!(r.evict(), None);
    assert_eq!(r.size(), 0);
}

#[test]
fn evict_never_returns_a_pinned_frame() {
    let mut r = ArcReplacer::new(2);
    r.record_access(10, 1, AccessType::Lookup);
    r.record_access(20, 2, AccessType::Lookup);
    r.set_evicted(10).unwrap();
    r.set_evicted(20).unwrap();
    r.set_keep(10).unwrap();
    let victim = r.evict().unwrap();
    assert_ne!(victim, 10);
    assert_eq!(victim, 20);
    assert_eq!(r.evict(), None);
}

#[test]
fn evict_prefers_recency_list_over_frequency_list() {
    let mut r = ArcReplacer::new(4);
    r.record_access(0, 10, AccessType::Lookup);
    r.record_access(0, 10, AccessType::Lookup);
    r.record_access(1, 11, AccessType::Lookup);
    assert_eq!(status(&r, 0).2, ArcStatus::MFU);
    r.set_evicted(0).unwrap();
    r.set_evicted(1).unwrap();
    assert_eq!(r.evict(), Some(1));
    assert_eq!(r.ghost_status(11), Some(ArcStatus::MRUGhost));
    assert_eq!(r.evict(), Some(0));
    assert_eq!(r.ghost_status(10), Some(ArcStatus::MFUGhost));
}

#[test]
fn evicted_page_lands_in_exactly_one_ghost_list() {
    let mut r = ArcReplacer::new(2);
    r.record_access(0, 40, AccessType::Lookup);
    r.set_evicted(0).unwrap();
    assert_eq!(r.evict(), Some(0));
    assert_eq!(r.ghost_status(40), Some(ArcStatus::MRUGhost));
    assert!(r.frame_status(0).is_none());
    assert_eq!(r.ghost_status(41), None);
}

#[test]
fn repeated_access_keeps_evictable_flag() {
    let mut r = ArcReplacer::new(3);
    r.record_access(0, 5, AccessType::Lookup);
    r.set_evicted(0).unwrap();
    for _ in 0..4 {
        r.record_access(0, 5, AccessType::Index);
        assert_eq!(status(&r, 0), (5, true, ArcStatus::MFU));
    }
    r.record_access(1, 6, AccessType::Lookup);
    for _ in 0..3 {
        r.record_access(1, 6, AccessType::Lookup);
        assert_eq!(status(&r, 1), (6, false, ArcStatus::MFU));
    }
}

#[test]
fn remove_pinned_frame_fails_and_changes_nothing() {
    let mut r = ArcReplacer::new(3);
    r.record_access(0, 10, AccessType::Lookup);
    r.record_access(1, 11, AccessType::Lookup);
    r.set_evicted(1).unwrap();
    assert_eq!(r.remove(0), Err(ReplacerError::NotEvictable(0)));
    assert_eq!(status(&r, 0), (10, false, ArcStatus::MRU));
    assert_eq!(status(&r, 1), (11, true, ArcStatus::MRU));
    assert_eq!(r.size(), 1);
    assert_eq!(r.evict(), Some(1));
    assert_eq!(r.evict(), None);
}

#[test]
fn remove_evictable_frame_drops_it() {
    let mut r = ArcReplacer::new(3);
    r.record_access(0, 10, AccessType::Lookup);
    r.set_evicted(0).unwrap();
    assert_eq!(r.remove(0), Ok(()));
    assert!(r.frame_status(0).is_none());
    assert_eq!(r.ghost_status(10), None);
    assert_eq!(r.size(), 0);
    assert_eq!(r.evict(), None);
}

#[test]
fn remove_unknown_frame_fails() {
    let mut r = ArcReplacer::new(3);
    assert_eq!(r.remove(9), Err(ReplacerError::FrameNotFound(9)));
}

#[test]
fn set_flags_on_unknown_frame_are_ignored() {
    let mut r = ArcReplacer::new(3);
    assert_eq!(r.set_evicted(4), Ok(()));
    assert_eq!(r.set_keep(4), Ok(()));
    assert!(r.frame_status(4).is_none());
    assert_eq!(r.size(), 0);
}

#[test]
fn recency_ghost_hit_raises_target_and_enters_frequency_list() {
    let mut r = ArcReplacer::new(2);
    r.record_access(0, 10, AccessType::Lookup);
    r.set_evicted(0).unwrap();
    assert_eq!(r.evict(), Some(0));
    assert_eq!(r.target_size(), 0);
    r.record_access(0, 10, AccessType::Lookup);
    assert_eq!(r.target_size(), 1);
    assert_eq!(status(&r, 0), (10, false, ArcStatus::MFU));
    assert_eq!(r.ghost_status(10), None);
}

#[test]
fn frequency_ghost_hit_lowers_target() {
    let mut r = ArcReplacer::new(4);
    // Build a target of 2 through two recency ghost hits.
    r.record_access(0, 10, AccessType::Lookup);
    r.set_evicted(0).unwrap();
    assert_eq!(r.evict(), Some(0));
    r.record_access(0, 10, AccessType::Lookup);
    r.record_access(1, 11, AccessType::Lookup);
    r.set_evicted(1).unwrap();
    assert_eq!(r.evict(), Some(1));
    r.record_access(1, 11, AccessType::Lookup);
    assert_eq!(r.target_size(), 2);
    // Page 10 now sits in the frequency list; evict it to its ghost list.
    r.set_evicted(0).unwrap();
    assert_eq!(r.evict(), Some(0));
    assert_eq!(r.ghost_status(10), Some(ArcStatus::MFUGhost));
    r.record_access(2, 10, AccessType::Lookup);
    assert_eq!(r.target_size(), 1);
    assert_eq!(status(&r, 2), (10, false, ArcStatus::MFU));
}

#[test]
fn full_recency_partition_forgets_oldest_recency_ghost() {
    let mut r = ArcReplacer::new(1);
    r.record_access(0, 1, AccessType::Lookup);
    r.set_evicted(0).unwrap();
    assert_eq!(r.evict(), Some(0));
    r.record_access(0, 2, AccessType::Lookup);
    r.set_evicted(0).unwrap();
    assert_eq!(r.evict(), Some(0));
    assert_eq!(r.ghost_status(2), Some(ArcStatus::MRUGhost));
    assert_eq!(r.ghost_status(1), None);
}

#[test]
fn full_replacer_evicts_before_admitting() {
    let mut r = ArcReplacer::new(1);
    r.record_access(0, 1, AccessType::Lookup);
    r.set_evicted(0).unwrap();
    r.record_access(1, 2, AccessType::Lookup);
    assert!(r.frame_status(0).is_none());
    assert_eq!(r.ghost_status(1), Some(ArcStatus::MRUGhost));
    assert_eq!(status(&r, 1), (2, false, ArcStatus::MRU));
}

#[test]
fn size_counts_evictable_frames_in_both_lists() {
    let mut r = ArcReplacer::new(4);
    r.record_access(0, 10, AccessType::Lookup);
    r.record_access(1, 11, AccessType::Lookup);
    r.record_access(1, 11, AccessType::Lookup);
    r.record_access(2, 12, AccessType::Lookup);
    r.set_evicted(0).unwrap();
    r.set_evicted(1).unwrap();
    assert_eq!(r.size(), 2);
    r.set_keep(0).unwrap();
    assert_eq!(r.size(), 1);
}

#[test]
fn ghost_lists_are_trimmed_to_capacity() {
    let mut r = ArcReplacer::new(1);
    r.record_access(0, 1, AccessType::Lookup);
    r.record_access(0, 1, AccessType::Lookup);
    r.set_evicted(0).unwrap();
    assert_eq!(r.evict(), Some(0));
    assert_eq!(r.ghost_status(1), Some(ArcStatus::MFUGhost));
    r.record_access(0, 2, AccessType::Lookup);
    r.record_access(0, 2, AccessType::Lookup);
    r.set_evicted(0).unwrap();
    assert_eq!(r.evict(), Some(0));
    assert_eq!(r.ghost_status(2), Some(ArcStatus::MFUGhost));
    assert_eq!(r.ghost_status(1), None);
}

#[test]
fn victim_names_the_next_eviction_without_evicting() {
    let mut r = ArcReplacer::new(2);
    assert_eq!(r.victim(), None);
    r.record_access(0, 10, AccessType::Lookup);
    r.record_access(1, 11, AccessType::Lookup);
    r.set_evicted(1).unwrap();
    assert_eq!(r.victim(), Some(1));
    assert!(r.frame_status(1).is_some());
    assert_eq!(r.evict(), Some(1));
    assert_eq!(r.victim(), None);
}

#[test]
fn full_replacer_admits_after_evicting_the_victim() {
    let mut r = ArcReplacer::new(2);
    r.record_access(0, 10, AccessType::Lookup);
    r.record_access(1, 11, AccessType::Lookup);
    r.set_evicted(0).unwrap();
    r.record_access(2, 12, AccessType::Lookup);
    assert!(r.frame_status(0).is_none());
    assert!(r.frame_status(1).is_some());
    assert!(r.frame_status(2).is_some());
    assert_eq!(r.ghost_status(10), Some(ArcStatus::MRUGhost));
}

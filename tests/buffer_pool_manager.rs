use grimoire::buffer_pool_manager::{
    BufferError, BufferPoolManager, FetchOutcome, FetchStep, WriteBack,
};
use grimoire::common::GRIMOIRE_PAGE_SIZE;

fn ready(step: Result<FetchStep, BufferError>) -> FetchOutcome {
    match step {
        Ok(FetchStep::Ready(out)) => out,
        Ok(FetchStep::WriteBackFirst(wb)) => panic!("unexpected write-back of page {}", wb.page_id),
        Err(e) => panic!("unexpected error {:?}", e),
    }
}

fn write_back(step: Result<FetchStep, BufferError>) -> WriteBack {
    match step {
        Ok(FetchStep::WriteBackFirst(wb)) => wb,
        Ok(FetchStep::Ready(out)) => panic!("unexpected frame {}", out.frame_id),
        Err(e) => panic!("unexpected error {:?}", e),
    }
}

/// Fetches `id`, reporting every requested write-back as done.
fn fetch_flushing(bpm: &mut BufferPoolManager, id: i32) -> FetchOutcome {
    loop {
        match bpm.fetch_page(id) {
            Ok(FetchStep::WriteBackFirst(wb)) => {
                assert_eq!(bpm.mark_flushed(wb.page_id, &wb.data), Ok(true));
            }
            step => return ready(step),
        }
    }
}

fn resident_count(bpm: &BufferPoolManager, ids: &[i32]) -> usize {
    ids.iter().filter(|id| bpm.lookup(**id).is_some()).count()
}

#[test]
fn fetch_evicts_the_only_unpinned_page() {
    let mut bpm = BufferPoolManager::new(2);
    let a = ready(bpm.fetch_page(1));
    let b = ready(bpm.fetch_page(2));
    assert!(a.load && b.load);
    assert_ne!(a.frame_id, b.frame_id);
    bpm.unpin_page(1, false).unwrap();
    let c = ready(bpm.fetch_page(3));
    assert_eq!(c.frame_id, a.frame_id);
    assert_eq!(bpm.lookup(1), None);
    assert_eq!(bpm.lookup(2), Some(b.frame_id));
    assert_eq!(bpm.lookup(3), Some(a.frame_id));
}

#[test]
fn resident_pages_never_exceed_pool_size() {
    let mut bpm = BufferPoolManager::new(3);
    let ids: Vec<i32> = (0..10).collect();
    for id in 0..10 {
        let out = fetch_flushing(&mut bpm, id);
        assert!(out.frame_id < 3);
        bpm.unpin_page(id, id % 2 == 0).unwrap();
        assert!(resident_count(&bpm, &ids) <= 3);
    }
    assert_eq!(resident_count(&bpm, &ids), 3);
}

#[test]
fn fetch_with_every_frame_pinned_is_exhausted() {
    let mut bpm = BufferPoolManager::new(1);
    ready(bpm.fetch_page(1));
    assert!(matches!(bpm.fetch_page(2), Err(BufferError::PoolExhausted)));
    assert_eq!(bpm.lookup(2), None);
    assert_eq!(bpm.lookup(1), Some(0));
}

#[test]
fn fetch_hit_pins_again_without_loading() {
    let mut bpm = BufferPoolManager::new(2);
    let first = ready(bpm.fetch_page(5));
    let again = ready(bpm.fetch_page(5));
    assert_eq!(first.frame_id, again.frame_id);
    assert!(!again.load);
    bpm.unpin_page(5, false).unwrap();
    bpm.unpin_page(5, false).unwrap();
    assert_eq!(bpm.unpin_page(5, false), Err(BufferError::NotPinned(5)));
}

#[test]
fn unpin_unknown_page_fails() {
    let mut bpm = BufferPoolManager::new(2);
    assert_eq!(bpm.unpin_page(8, true), Err(BufferError::PageNotFound(8)));
}

#[test]
fn dirty_victim_is_written_back_before_reuse() {
    let mut bpm = BufferPoolManager::new(1);
    let out = ready(bpm.fetch_page(1));
    let mut bytes = vec![0u8; GRIMOIRE_PAGE_SIZE];
    bytes[0] = 9;
    bytes[4095] = 3;
    bpm.write_frame(out.frame_id, bytes.clone());
    bpm.unpin_page(1, true).unwrap();
    let wb = write_back(bpm.fetch_page(2));
    assert_eq!(wb.page_id, 1);
    assert_eq!(wb.data, bytes);
    // Nothing changed yet: page 1 still holds the frame, dirty.
    assert_eq!(bpm.lookup(1), Some(out.frame_id));
    assert_eq!(bpm.lookup(2), None);
    let wb = write_back(bpm.fetch_page(2));
    assert_eq!(bpm.mark_flushed(1, &wb.data), Ok(true));
    let next = ready(bpm.fetch_page(2));
    assert_eq!(next.frame_id, out.frame_id);
    assert!(next.load);
    assert_eq!(bpm.lookup(1), None);
    assert_eq!(bpm.frame_data(next.frame_id), &vec![0u8; GRIMOIRE_PAGE_SIZE]);
}

#[test]
fn dirty_flag_is_sticky_across_unpins() {
    let mut bpm = BufferPoolManager::new(1);
    ready(bpm.fetch_page(1));
    ready(bpm.fetch_page(1));
    bpm.unpin_page(1, true).unwrap();
    bpm.unpin_page(1, false).unwrap();
    assert_eq!(write_back(bpm.fetch_page(2)).page_id, 1);
}

#[test]
fn new_page_also_writes_back_a_dirty_victim_first() {
    let mut bpm = BufferPoolManager::new(1);
    let out = ready(bpm.new_page(3));
    bpm.unpin_page(3, true).unwrap();
    let wb = write_back(bpm.new_page(4));
    assert_eq!(wb.page_id, 3);
    assert_eq!(bpm.mark_flushed(3, &wb.data), Ok(true));
    let next = ready(bpm.new_page(4));
    assert_eq!(next.frame_id, out.frame_id);
    assert!(!next.load);
}

#[test]
fn flush_hands_out_bytes_and_cleans_page_once_written() {
    let mut bpm = BufferPoolManager::new(1);
    let out = ready(bpm.fetch_page(4));
    let bytes = vec![42u8; GRIMOIRE_PAGE_SIZE];
    bpm.write_frame(out.frame_id, bytes.clone());
    bpm.unpin_page(4, true).unwrap();
    assert_eq!(bpm.flush_page(4), Ok(bytes.clone()));
    // Still dirty until the write is reported.
    assert_eq!(write_back(bpm.fetch_page(5)).page_id, 4);
    assert_eq!(bpm.mark_flushed(4, &bytes), Ok(true));
    let next = ready(bpm.fetch_page(5));
    assert_eq!(next.frame_id, out.frame_id);
    assert_eq!(bpm.flush_page(4), Err(BufferError::PageNotFound(4)));
    assert_eq!(bpm.mark_flushed(4, &bytes), Err(BufferError::PageNotFound(4)));
}

#[test]
fn mark_flushed_keeps_page_dirty_if_bytes_changed() {
    let mut bpm = BufferPoolManager::new(1);
    let out = ready(bpm.fetch_page(6));
    bpm.write_frame(out.frame_id, vec![1u8; GRIMOIRE_PAGE_SIZE]);
    let sent = bpm.flush_page(6).unwrap();
    bpm.write_frame(out.frame_id, vec![2u8; GRIMOIRE_PAGE_SIZE]);
    bpm.unpin_page(6, true).unwrap();
    assert_eq!(bpm.mark_flushed(6, &sent), Ok(false));
    assert_eq!(write_back(bpm.fetch_page(7)).data, vec![2u8; GRIMOIRE_PAGE_SIZE]);
}

#[test]
fn delete_pinned_page_fails() {
    let mut bpm = BufferPoolManager::new(2);
    ready(bpm.fetch_page(1));
    assert_eq!(bpm.delete_page(1), Err(BufferError::PagePinned(1)));
    assert!(bpm.lookup(1).is_some());
}

#[test]
fn delete_unpinned_page_frees_its_frame() {
    let mut bpm = BufferPoolManager::new(1);
    let out = ready(bpm.fetch_page(1));
    bpm.unpin_page(1, true).unwrap();
    assert_eq!(bpm.delete_page(1), Ok(()));
    assert_eq!(bpm.lookup(1), None);
    let next = ready(bpm.fetch_page(2));
    assert_eq!(next.frame_id, out.frame_id);
    assert_eq!(bpm.delete_page(77), Ok(()));
}

#[test]
fn new_page_is_zero_filled_and_pinned() {
    let mut bpm = BufferPoolManager::new(2);
    let out = ready(bpm.new_page(11));
    assert!(!out.load);
    assert_eq!(bpm.frame_data(out.frame_id), &vec![0u8; GRIMOIRE_PAGE_SIZE]);
    assert_eq!(bpm.new_page(11).err(), Some(BufferError::PageResident(11)));
    assert_eq!(bpm.delete_page(11), Err(BufferError::PagePinned(11)));
    assert_eq!(bpm.pool_size(), 2);
}

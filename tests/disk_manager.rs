use grimoire::common::GRIMOIRE_PAGE_SIZE;
use grimoire::disk_manager::{DiskError, OffsetTable, INITIAL_PAGE_CAPACITY};

const PAGE: u64 = GRIMOIRE_PAGE_SIZE as u64;

#[test]
fn test_write_and_read_page() {
    let mut table = OffsetTable::new();
    let page_id = 1;
    let slot = table.write_offset(page_id);
    table.record_write();
    let offset = table.read_offset(page_id).unwrap();
    table.record_read();
    assert_eq!(offset, slot.offset);
    assert_eq!(table.get_num_writes(), 1);
    assert_eq!(table.get_num_reads(), 1);
}

#[test]
fn test_concurrent_writes() {
    let mut table = OffsetTable::new();
    let mut offsets = Vec::new();
    for i in 0i32..100i32 {
        let slot = table.write_offset(i);
        table.record_write();
        offsets.push(slot.offset);
    }
    assert_eq!(table.get_num_writes(), 100);
    for i in 0i32..100i32 {
        assert_eq!(table.read_offset(i).unwrap(), offsets[i as usize]);
    }
    let mut sorted = offsets.clone();
    sorted.sort();
    sorted.dedup();
    assert_eq!(sorted.len(), 100);
}

#[test]
fn test_delete_and_reuse() {
    let mut table = OffsetTable::new();
    let first = table.write_offset(1);
    table.delete_page(1).unwrap();
    let second = table.write_offset(2);
    assert_eq!(table.get_num_deletes(), 1);
    assert_eq!(second.offset, first.offset);
}

#[test]
fn new_pages_are_laid_out_one_page_apart() {
    let mut table = OffsetTable::new();
    assert_eq!(table.write_offset(7).offset, 0);
    assert_eq!(table.write_offset(3).offset, PAGE);
    assert_eq!(table.write_offset(9).offset, 2 * PAGE);
    assert_eq!(table.write_offset(3).offset, PAGE);
    assert_eq!(table.offset_of(9), Some(2 * PAGE));
}

#[test]
fn rewrite_keeps_the_page_offset() {
    let mut table = OffsetTable::new();
    let a = table.write_offset(1);
    table.write_offset(2);
    let again = table.write_offset(1);
    assert_eq!(again.offset, a.offset);
    assert_eq!(again.grow_to, None);
}

#[test]
fn read_of_unknown_page_is_not_found() {
    let table = OffsetTable::new();
    assert!(matches!(table.read_offset(5), Err(DiskError::PageNotFound(5))));
    assert_eq!(table.offset_of(5), None);
}

#[test]
fn delete_of_unknown_page_is_not_found() {
    let mut table = OffsetTable::new();
    assert!(matches!(table.delete_page(5), Err(DiskError::PageNotFound(5))));
    assert_eq!(table.get_num_deletes(), 0);
}

#[test]
fn deleted_page_is_no_longer_readable() {
    let mut table = OffsetTable::new();
    table.write_offset(4);
    table.delete_page(4).unwrap();
    assert!(matches!(table.read_offset(4), Err(DiskError::PageNotFound(4))));
}

#[test]
fn freed_slots_are_reused_last_freed_first() {
    let mut table = OffsetTable::new();
    let a = table.write_offset(1).offset;
    let b = table.write_offset(2).offset;
    table.delete_page(1).unwrap();
    table.delete_page(2).unwrap();
    assert_eq!(table.write_offset(3).offset, b);
    assert_eq!(table.write_offset(4).offset, a);
    assert_eq!(table.write_offset(5).offset, 2 * PAGE);
}

#[test]
fn file_doubles_when_capacity_is_reached() {
    let mut table = OffsetTable::new();
    assert_eq!(table.file_len(), (INITIAL_PAGE_CAPACITY + 1) * PAGE);
    for i in 0..INITIAL_PAGE_CAPACITY as i32 {
        assert_eq!(table.write_offset(i).grow_to, None);
    }
    let slot = table.write_offset(1000);
    assert_eq!(slot.offset, INITIAL_PAGE_CAPACITY * PAGE);
    assert_eq!(slot.grow_to, Some((2 * INITIAL_PAGE_CAPACITY + 1) * PAGE));
    assert_eq!(table.file_len(), (2 * INITIAL_PAGE_CAPACITY + 1) * PAGE);
}

#[test]
fn has_room_for_known_and_new_pages() {
    let mut table = OffsetTable::new();
    assert!(table.has_room(1));
    table.write_offset(1);
    assert!(table.has_room(1));
}

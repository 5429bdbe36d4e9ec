use rustydb::cell::CELL_HEADER_SIZE;
use rustydb::error::StorageError;
use rustydb::page::{LinkedPage, LINKED_PAGE_HEADER};

#[test]
fn create_page() {
    let page = LinkedPage::new(1024);

    assert_eq!(page.storage_size(), 1024 - LINKED_PAGE_HEADER);
    assert_eq!(page.size(), 1024);

    assert_eq!(page.validate_allocations(), Ok((0, page.storage_size())));
}

#[test]
fn insert_cell() {
    let mut page = LinkedPage::new(1024);

    let after_cell = None;
    let insert_key = [1, 2, 3, 4];
    let insert_payload = [10, 10, 10, 10, 10, 10];

    assert!(page.has_space_for(insert_key.len(), insert_payload.len()));
    assert!(!page.has_space_for(1000, 24));

    page.insert(&insert_key, &insert_payload, after_cell)
        .unwrap();

    page.validate_allocations().unwrap();

    let mut iter = page.cell_iter().into_iter();

    let next = iter.next();
    assert!(next.is_some());
    let (offset, cell) = next.unwrap();
    let read_key = cell.key(page.memory(), offset);
    assert_eq!(read_key, insert_key);
    let read_payload = cell.payload(page.memory(), offset);
    assert_eq!(read_payload, insert_payload);

    let next = iter.next();

    assert!(next.is_none());
}

#[test]
fn fresh_page_is_one_free_cell() {
    let page = LinkedPage::new(1024);
    assert_eq!(page.free_space(), 1024 - LINKED_PAGE_HEADER);
    assert_eq!(page.allocated_space(), 0);
    let free = page.free_cell_iter();
    assert_eq!(free.len(), 1);
    assert_eq!(free[0].0, 0);
    assert_eq!(free[0].1.key_size, 1024 - LINKED_PAGE_HEADER - CELL_HEADER_SIZE);
    assert_eq!(free[0].1.payload_size, 0);
    assert_eq!(free[0].1.next_cell(), None);
    assert!(page.cell_iter().is_empty());
}

#[test]
fn insert_at_head_scenario() {
    let mut page = LinkedPage::new(1024);
    page.insert(&[1, 2, 3, 4], &[10, 10, 10, 10, 10, 10], None).unwrap();
    assert_eq!(page.allocated_space(), 4 + 6 + CELL_HEADER_SIZE);
    assert_eq!(page.free_space(), 1009 - 23);
    let cells = page.cell_iter();
    assert_eq!(cells.len(), 1);
    let (offset, cell) = cells[0];
    assert_eq!(offset, 0);
    assert_eq!(cell.key(page.memory(), offset), [1, 2, 3, 4]);
    assert_eq!(cell.payload(page.memory(), offset), [10, 10, 10, 10, 10, 10]);
    // the rest of the free cell now starts right after the new one
    let free = page.free_cell_iter();
    assert_eq!(free.len(), 1);
    assert_eq!(free[0].0, 23);
    assert_eq!(free[0].1.size(), 1009 - 23);
}

#[test]
fn two_head_inserts_chain_newest_first() {
    let mut page = LinkedPage::new(1024);
    page.insert(&[1], &[2, 2], None).unwrap();
    page.insert(&[3, 3, 3], &[], None).unwrap();
    let cells = page.cell_iter();
    assert_eq!(cells.len(), 2);
    assert_eq!(cells[0].0, 16);
    assert_eq!(cells[0].1.next_cell(), Some(0));
    assert_eq!(cells[0].1.key(page.memory(), cells[0].0), [3, 3, 3]);
    assert_eq!(cells[1].0, 0);
    assert_eq!(cells[1].1.next_cell(), None);
    assert_eq!(cells[1].1.payload(page.memory(), cells[1].0), [2, 2]);
    assert_eq!(page.validate_allocations(), Ok((16 + 16, 1009 - 32)));
}

#[test]
fn insert_after_completes_the_link() {
    let mut page = LinkedPage::new(200);
    page.insert(&[1], &[], None).unwrap();
    page.insert(&[2], &[], None).unwrap();
    // live chain: 14 -> 0; put a cell between them
    page.insert(&[9, 9], &[8], Some(14)).unwrap();
    let cells = page.cell_iter();
    let offsets: Vec<usize> = cells.iter().map(|c| c.0).collect();
    assert_eq!(offsets, vec![14, 28, 0]);
    assert_eq!(cells[0].1.next_cell(), Some(28));
    assert_eq!(cells[1].1.next_cell(), Some(0));
    assert_eq!(cells[1].1.key(page.memory(), 28), [9, 9]);
    assert_eq!(cells[1].1.payload(page.memory(), 28), [8]);
    assert_eq!(cells[0].1.key(page.memory(), 14), [2]);
    assert_eq!(page.validate_allocations(), Ok((14 + 14 + 16, 185 - 44)));
}

#[test]
fn insert_after_unknown_offset_changes_nothing() {
    let mut page = LinkedPage::new(200);
    page.insert(&[1], &[], None).unwrap();
    assert_eq!(page.insert(&[2], &[], Some(5)), Err(StorageError::UnknownCell));
    assert_eq!(page.cell_iter().len(), 1);
    assert_eq!(page.validate_allocations(), Ok((14, 185 - 14)));
}

#[test]
fn exact_fit_leaves_no_free_space() {
    let mut page = LinkedPage::new(1024);
    let payload = vec![5u8; 1009 - 13 - 4];
    assert!(page.has_space_for(4, payload.len()));
    page.insert(&[1, 2, 3, 4], &payload, None).unwrap();
    assert_eq!(page.free_space(), 0);
    assert!(page.free_cell_iter().is_empty());
    assert_eq!(page.validate_allocations(), Ok((1009, 0)));
    assert_eq!(page.insert(&[], &[], None), Err(StorageError::OutOfSpace));
}

#[test]
fn too_large_insert_is_out_of_space() {
    let mut page = LinkedPage::new(100);
    let payload = vec![0u8; 73];
    assert!(!page.has_space_for(0, 73));
    assert_eq!(page.insert(&[], &payload, None), Err(StorageError::OutOfSpace));
    assert_eq!(page.validate_allocations(), Ok((0, 85)));
    assert!(!page.has_space_for(usize::MAX, 1));
}

#[test]
fn small_rest_is_lost() {
    // body of 85 bytes; a 73-byte cell leaves 12, too few for a header
    let mut page = LinkedPage::new(100);
    page.insert(&[], &vec![1u8; 60], None).unwrap();
    assert_eq!(page.allocated_space(), 73);
    assert_eq!(page.free_space(), 0);
    assert_eq!(page.validate_allocations(), Err(StorageError::Accounting));
}

#[test]
fn allocate_takes_first_fit() {
    let mut page = LinkedPage::new(100);
    assert_eq!(page.allocate(20), Ok(0));
    assert_eq!(page.free_space(), 65);
    assert_eq!(page.free_cell_iter()[0].0, 20);
    assert_eq!(page.allocate(66), Err(StorageError::OutOfSpace));
    assert_eq!(page.allocate(65), Ok(20));
    assert_eq!(page.free_space(), 0);
}

#[test]
fn accounting_holds_after_each_insert() {
    let mut page = LinkedPage::new(4096);
    let mut inserted = 0;
    for i in 0..50u8 {
        page.insert(&[i], &[i, i, i], None).unwrap();
        inserted += 17;
        assert_eq!(page.validate_allocations(), Ok((inserted, 4081 - inserted)));
    }
    let cells = page.cell_iter();
    assert_eq!(cells.len(), 50);
    for (n, (offset, cell)) in cells.iter().enumerate() {
        let i = 49 - n as u8;
        assert_eq!(cell.key(page.memory(), *offset), [i]);
        assert_eq!(cell.payload(page.memory(), *offset), [i, i, i]);
    }
}

#[test]
fn space_errors_come_before_unknown_after_cell() {
    let mut page = LinkedPage::new(100);
    let payload = vec![0u8; 80];
    assert_eq!(page.insert(&[], &payload, Some(7)), Err(StorageError::OutOfSpace));
    assert_eq!(page.insert(&[], &[], Some(7)), Err(StorageError::UnknownCell));
    assert_eq!(page.validate_allocations(), Ok((0, 85)));
}

#[test]
fn live_cells_decode_after_inserts() {
    let mut page = LinkedPage::new(300);
    page.insert(&[1, 1], &[2], None).unwrap();
    page.insert(&[3], &[4, 4, 4], Some(0)).unwrap();
    for (offset, cell) in page.cell_iter() {
        let decoded = rustydb::cell::Cell::new_from_memory(page.memory(), offset).unwrap();
        assert_eq!(decoded, cell);
    }
    let cells = page.cell_iter();
    assert_eq!(cells[0].1.next_cell(), Some(16));
    assert_eq!(cells[1].1.key_size, 1);
    assert_eq!(cells[1].1.payload_size, 3);
    assert_eq!(cells[1].1.next_cell(), None);
}

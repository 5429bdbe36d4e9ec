use rustydb::cell::{cell_size, Cell, CELL_HEADER_SIZE};
use rustydb::error::StorageError;

#[test]
fn test_cell_size() {
    let cell = Cell::new(4, 124, None);

    assert_eq!(cell.size(), 124 + 4 + CELL_HEADER_SIZE);
}

#[test]
fn cell_from_mem() {
    //  key size |payload size n? next offset |the key ----|the payload ----------------|
    let mut mem = vec![
        0, 0, 0, 4, 0, 0, 0, 10, 1, 0, 0, 0, 12, 7, 7, 7, 7, 8, 8, 8, 8, 8, 8, 8, 8, 8, 8,
    ];

    let cell = Cell::new_from_memory(&mem[..], 0).unwrap();

    assert_eq!(cell.size(), 10 + 4 + CELL_HEADER_SIZE);
    assert_eq!(cell.key(&mut mem[..], 0), [7, 7, 7, 7]);
    assert_eq!(cell.payload(&mut mem[..], 0), [8, 8, 8, 8, 8, 8, 8, 8, 8, 8]);
}

#[test]
fn cell_to_mem() {
    let cell = Cell::new(4, 10, Some(12));

    let mut mem: Vec<u8> = vec![0; 128];

    let key_bytes = cell.key_mut(&mut mem[..], 0);

    for byte in key_bytes {
        *byte = 7;
    }

    let payload_bytes = cell.payload_mut(&mut mem[..], 0);

    for byte in payload_bytes {
        *byte = 8;
    }

    cell.save(&mut mem[..], 0);

    assert_eq!(
        mem[0..27],
        [0, 0, 0, 4, 0, 0, 0, 10, 1, 0, 0, 0, 12, 7, 7, 7, 7, 8, 8, 8, 8, 8, 8, 8, 8, 8, 8]
    )
}

#[test]
fn cell_size_sums_header_key_and_payload() {
    assert_eq!(cell_size(0, 0), 13);
    assert_eq!(cell_size(4, 6), 23);
}

#[test]
fn save_without_next_writes_zero_offset() {
    let cell = Cell::new(0x0102_0304, 5, None);
    let mut mem: Vec<u8> = vec![0xff; 20];
    cell.save(&mut mem[..], 2);
    assert_eq!(mem[0..2], [0xff, 0xff]);
    assert_eq!(mem[2..15], [1, 2, 3, 4, 0, 0, 0, 5, 0, 0, 0, 0, 0]);
    assert_eq!(mem[15..20], [0xff; 5]);
}

#[test]
fn save_then_decode_round_trips() {
    let cell = Cell::new(3, 0x0100_0000, Some(0x00ab_cdef));
    let mut mem: Vec<u8> = vec![0; 40];
    cell.save(&mut mem[..], 5);
    assert_eq!(mem[5..18], [0, 0, 0, 3, 1, 0, 0, 0, 1, 0, 0xab, 0xcd, 0xef]);
    // the payload claimed does not fit in 40 bytes
    assert_eq!(Cell::new_from_memory(&mem[..], 5), Err(StorageError::Size));

    let small = Cell::new(3, 2, Some(258));
    small.save(&mut mem[..], 5);
    let decoded = Cell::new_from_memory(&mem[..], 5).unwrap();
    assert_eq!(decoded, small);
    assert_eq!(decoded.next_cell(), Some(258));
}

#[test]
fn decode_rejects_short_header() {
    let mem: Vec<u8> = vec![0; 12];
    assert_eq!(Cell::new_from_memory(&mem[..], 0), Err(StorageError::Size));
    let mem: Vec<u8> = vec![0; 13];
    assert_eq!(Cell::new_from_memory(&mem[..], 1), Err(StorageError::Size));
    assert_eq!(Cell::new_from_memory(&mem[..], 0).unwrap().size(), 13);
}

#[test]
fn set_next_cell_replaces_link() {
    let mut cell = Cell::new(1, 2, None);
    cell.set_next_cell(Some(40));
    assert_eq!(cell.next_cell(), Some(40));
    assert_eq!(cell.size(), 16);
}

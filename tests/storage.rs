use rustydb::storage::{MemoryStorage, PAGE_SIZE};

#[test]
fn test_memstorage() {
    let mut store = MemoryStorage::new();

    assert_eq!(0, store.num_pages());

    let page_no = store.create();

    assert_eq!(1, store.num_pages());

    {
        let page = store.checkout_mut(page_no);

        page[0] = 0;
        page[1] = 1;
        page[2] = 2;
    }

    {
        let page = store.checkout(page_no);

        assert_eq!(page[0], 0);
        assert_eq!(page[1], 1);
        assert_eq!(page[2], 2);
    }
}

#[test]
fn pages_are_numbered_in_order_and_separate() {
    let mut store = MemoryStorage::new();
    assert_eq!(store.create(), 0);
    assert_eq!(store.create(), 1);
    store.checkout_mut(1)[7] = 9;
    assert_eq!(store.checkout(0).len(), PAGE_SIZE);
    assert!(store.checkout(0).iter().all(|b| *b == 0));
    assert_eq!(store.checkout(1)[7], 9);
}

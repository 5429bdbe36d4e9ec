use rustydb::dbtable::DbTable;
use rustydb::table::Table;
use rustydb::tuple::TupleType;

#[test]
fn table() {
    let mut table = Table::new();

    table.insert(1, vec![1, 2, 3, 4, 5, 6, 7, 8, 9, 0]);
    table.insert(2, vec![2, 3, 4, 5, 6, 7, 8, 9, 0, 1]);

    let mut cursor = table.cursor().iter();

    {
        let row = cursor.next();
        assert!(row.is_some());
        let (rowid, content) = row.unwrap();
        assert_eq!(*rowid, 1);
        assert_eq!(content.as_slice(), [1, 2, 3, 4, 5, 6, 7, 8, 9, 0]);
    }

    {
        let row = cursor.next();
        assert!(row.is_some());
        let (rowid, content) = row.unwrap();
        assert_eq!(*rowid, 2);
        assert_eq!(content.as_slice(), [2, 3, 4, 5, 6, 7, 8, 9, 0, 1]);
    }

    {
        let row = cursor.next();
        assert!(row.is_none());
    }
}

#[test]
fn table_keeps_ids_sorted_and_replaces() {
    let mut table = Table::new();
    table.insert(5, vec![5]);
    table.insert(1, vec![1]);
    table.insert(3, vec![3]);
    table.insert(1, vec![10]);
    let ids: Vec<u32> = table.cursor().iter().map(|r| r.0).collect();
    assert_eq!(ids, vec![1, 3, 5]);
    assert_eq!(table.cursor()[0].1, vec![10]);
    table.delete(3);
    table.delete(4);
    let ids: Vec<u32> = table.cursor().iter().map(|r| r.0).collect();
    assert_eq!(ids, vec![1, 5]);
}

#[test]
fn dbtable_numbers_rows() {
    let mut table = DbTable::new(vec![TupleType::UnsignedInt32, TupleType::VarChar]);
    assert_eq!(table.insert(vec![1, 2]), Some(0));
    assert_eq!(table.insert(vec![3]), Some(1));
    assert_eq!(table.update(0, vec![4, 4]), Some(2));
    table.delete(1);
    let mut c = table.cursor();
    let (id, bytes) = c.next_row().unwrap();
    assert_eq!(id, 2);
    assert_eq!(bytes, [4, 4]);
    assert!(c.next_row().is_none());
}

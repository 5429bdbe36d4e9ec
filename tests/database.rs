use rustydb::database::{Database, Table};
use rustydb::executor::{select_all, DbRows};

fn names(v: &[&str]) -> Vec<String> {
    v.iter().map(|s| s.to_string()).collect()
}

#[test]
fn create_insert_select() {
    let mut db = Database::new();
    assert_eq!(db.create_table("persons", &names(&["id", "name"])), Ok(()));
    assert_eq!(
        db.insert_rows("persons", vec![names(&["1", "Ada"]), names(&["2", "Bob"])]),
        Ok(())
    );
    let mut rows = select_all(&db, "persons").unwrap();
    assert_eq!(rows.next(), Some(&names(&["1", "Ada"])));
    assert_eq!(rows.next(), Some(&names(&["2", "Bob"])));
    assert_eq!(rows.next(), None);
}

#[test]
fn insert_checks_table_and_width() {
    let mut db = Database::new();
    db.create_table("t", &names(&["a"])).unwrap();
    assert_eq!(db.insert_rows("u", vec![names(&["1"])]), Err("Table name not found"));
    assert_eq!(
        db.insert_rows("t", vec![names(&["1"]), names(&["1", "2"])]),
        Err("Incorrect number of values")
    );
    assert!(db.table("t").unwrap().values.is_empty());
    assert!(select_all(&db, "u").is_err());
}

#[test]
fn create_table_replaces_same_name() {
    let mut db = Database::new();
    db.create_table("t", &names(&["a"])).unwrap();
    db.insert_rows("t", vec![names(&["1"])]).unwrap();
    db.create_table("t", &names(&["b", "c"])).unwrap();
    let t = db.table("t").unwrap();
    assert_eq!(t.column_names, names(&["b", "c"]));
    assert!(t.values.is_empty());
    let fresh = Table::new(&names(&["x"]));
    assert_eq!(fresh.column_names, names(&["x"]));
}

#[test]
fn empty_rows_give_nothing() {
    let mut rows = DbRows::empty();
    assert!(rows.next().is_none());
}

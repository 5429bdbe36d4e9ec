//! Result rows of a query, handed out one at a time.
use crate::database::Database;
use vstd::prelude::*;

verus! {

/// The strings of each row.
pub open spec fn strings_of(rows: Seq<Vec<String>>) -> Seq<Seq<String>> {
    rows.map_values(|r: Vec<String>| r@)
}

/// Copies each row, string by string.
pub(crate) fn copy_rows(rows: &Vec<Vec<String>>) -> (r: Vec<Vec<String>>)
    ensures
        strings_of(r@) == strings_of(rows@),
{
    let mut out: Vec<Vec<String>> = Vec::new();
    let mut i: usize = 0;
    while i < rows.len()
        invariant
            i <= rows@.len(),
            out@.len() == i,
            strings_of(out@) == strings_of(rows@.take(i as int)),
        decreases rows@.len() - i,
    {
        let row = crate::database::copy_strings(rows[i].as_slice());
        assert(row@ == rows@[i as int]@);
        let ghost prev = out@;
        out.push(row);
        proof {
            assert forall|j: int| 0 <= j <= i implies #[trigger] strings_of(out@)[j] == strings_of(
                rows@.take(i + 1),
            )[j] by {
                assert(rows@.take(i + 1)[j] == rows@[j]);
                if j < i {
                    assert(strings_of(prev)[j] == strings_of(rows@.take(i as int))[j]);
                    assert(out@[j] == prev[j]);
                } else {
                    assert(out@[j] == row);
                }
            }
            assert(strings_of(out@) =~= strings_of(rows@.take(i + 1)));
        }
        i = i + 1;
    }
    assert(rows@.take(i as int) =~= rows@);
    out
}

#[derive(Debug)]
pub struct DbRows {
    current_row: usize,
    rows: Vec<Vec<String>>,
}

impl DbRows {
    /// Index of the next row to hand out.
    pub closed spec fn position(&self) -> int {
        self.current_row as int
    }

    /// All rows of the result.
    pub closed spec fn all_rows(&self) -> Seq<Seq<String>> {
        strings_of(self.rows@)
    }

    pub fn empty() -> (r: DbRows)
        ensures
            r.position() == 0,
            r.all_rows() == Seq::<Seq<String>>::empty(),
    {
        let r = DbRows { current_row: 0, rows: Vec::new() };
        assert(r.all_rows() =~= Seq::<Seq<String>>::empty());
        r
    }

    /// The next row, if any is left.
    pub fn next(&mut self) -> (r: Option<&Vec<String>>)
        ensures
            final(self).all_rows() == old(self).all_rows(),
            old(self).position() < old(self).all_rows().len() ==> (r matches Some(v) && v@
                == old(self).all_rows()[old(self).position()] && final(self).position()
                == old(self).position() + 1),
            old(self).position() >= old(self).all_rows().len() ==> (r is None && final(self).position()
                == old(self).position()),
    {
        if self.current_row < self.rows.len() {
            let row_num = self.current_row;
            self.current_row = self.current_row + 1;
            Some(&self.rows[row_num])
        } else {
            None
        }
    }
}

/// All rows of the table named `table_name`, from the first.
pub fn select_all(db: &Database, table_name: &str) -> (r: Result<DbRows, &'static str>)
    ensures
        !db.has_table(table_name@) ==> r == Err::<DbRows, &'static str>("Table name not found"),
        db.has_table(table_name@) ==> (r matches Ok(rows) && rows.position() == 0
            && rows.all_rows() == strings_of(db.tables()[db.index_of(table_name@)].1.values@)),
{
    match db.table(table_name) {
        None => Err("Table name not found"),
        Some(table) => Ok(DbRows { current_row: 0, rows: copy_rows(&table.values) }),
    }
}

} // verus!

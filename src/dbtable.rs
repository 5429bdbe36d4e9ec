//! A table of encoded tuples that numbers its rows itself.
use crate::table::{ascending, has_row, lemma_lower_bound, lower_bound, RowId, Table, TableCell};
use crate::tuple::{TupleSchema, TupleType};
use vstd::prelude::*;

verus! {

/// The rows of `rows` as ids and bytes.
pub open spec fn row_view(rows: Seq<(RowId, TableCell)>) -> Seq<(RowId, Seq<u8>)> {
    rows.map_values(|e: (RowId, TableCell)| (e.0, e.1@))
}

/// The stored rows of a table, handed out one at a time, still encoded.
pub struct DbTableRange<'a> {
    rows: &'a [(RowId, TableCell)],
    next: usize,
}

impl<'a> DbTableRange<'a> {
    pub closed spec fn rows(&self) -> Seq<(RowId, Seq<u8>)> {
        row_view(self.rows@)
    }

    /// Index of the next row to hand out.
    pub closed spec fn position(&self) -> int {
        self.next as int
    }

    pub fn new(rows: &'a [(RowId, TableCell)]) -> (r: DbTableRange<'a>)
        ensures
            r.rows() == row_view(rows@),
            r.position() == 0,
    {
        DbTableRange { rows: rows, next: 0 }
    }

    /// The id and bytes of the next row, if any is left.
    pub fn next_row(&mut self) -> (r: Option<(RowId, &'a [u8])>)
        ensures
            final(self).rows() == old(self).rows(),
            old(self).position() < old(self).rows().len() ==> (r matches Some((id, bytes)) && id
                == old(self).rows()[old(self).position()].0 && bytes@ == old(self).rows()[old(
                self,
            ).position()].1 && final(self).position() == old(self).position() + 1),
            old(self).position() >= old(self).rows().len() ==> (r is None && final(self).position()
                == old(self).position()),
    {
        if self.next < self.rows.len() {
            let row = &self.rows[self.next];
            self.next = self.next + 1;
            Some((row.0, row.1.as_slice()))
        } else {
            None
        }
    }
}

pub struct DbTable {
    table: Table,
    schema: TupleSchema,
    next_rowid: RowId,
}

impl DbTable {
    /// The stored rows, in ascending id order, each still encoded.
    pub closed spec fn rows(&self) -> Seq<(RowId, Seq<u8>)> {
        self.table@
    }

    /// The id the next inserted row gets.
    pub closed spec fn next_id(&self) -> RowId {
        self.next_rowid
    }

    pub closed spec fn column_types(&self) -> Seq<TupleType> {
        self.schema@
    }

    /// Ids ascend, and all are below the next id.
    pub closed spec fn wf(&self) -> bool {
        &&& ascending(self.table@)
        &&& forall|i: int| 0 <= i < self.table@.len() ==> self.table@[i].0 < self.next_rowid
    }

    pub fn new(schema: TupleSchema) -> (r: DbTable)
        ensures
            r.wf(),
            r.rows() == Seq::<(RowId, Seq<u8>)>::empty(),
            r.next_id() == 0,
            r.column_types() == schema@,
    {
        DbTable { table: Table::new(), schema: schema, next_rowid: 0 }
    }

    /// Stores an encoded row under the next id and returns that id; `None`,
    /// changing nothing, once every id is taken.
    pub fn insert(&mut self, row: TableCell) -> (r: Option<RowId>)
        requires
            old(self).wf(),
        ensures
            final(self).wf(),
            final(self).column_types() == old(self).column_types(),
            old(self).next_id() < u32::MAX ==> r == Some(old(self).next_id()) && final(self).rows()
                == old(self).rows().push((old(self).next_id(), row@)) && final(self).next_id()
                == old(self).next_id() + 1,
            old(self).next_id() == u32::MAX ==> r is None && *final(self) == *old(self),
    {
        if self.next_rowid == u32::MAX {
            return None;
        }
        let rowid = self.next_rowid;
        let ghost s = self.table@;
        proof {
            lemma_lower_bound(s, rowid, s.len() as int);
            assert(!has_row(s, rowid));
        }
        self.next_rowid = self.next_rowid + 1;
        self.table.insert(rowid, row);
        proof {
            assert(s.insert(s.len() as int, (rowid, row@)) =~= s.push((rowid, row@)));
        }
        Some(rowid)
    }

    /// Removes the row of id `r`, then stores `row` under the next id; `None`,
    /// changing nothing, once every id is taken.
    pub fn update(&mut self, r: RowId, row: TableCell) -> (res: Option<RowId>)
        requires
            old(self).wf(),
        ensures
            final(self).wf(),
            final(self).column_types() == old(self).column_types(),
            old(self).next_id() < u32::MAX ==> res == Some(old(self).next_id()) && final(self).rows()
                == (if has_row(old(self).rows(), r) {
                old(self).rows().remove(lower_bound(old(self).rows(), r))
            } else {
                old(self).rows()
            }).push((old(self).next_id(), row@)) && final(self).next_id() == old(self).next_id()
                + 1,
            old(self).next_id() == u32::MAX ==> res is None && *final(self) == *old(self),
    {
        if self.next_rowid == u32::MAX {
            return None;
        }
        self.delete(r);
        self.insert(row)
    }

    /// Removes the row of id `r`, if there is one.
    pub fn delete(&mut self, r: RowId)
        requires
            old(self).wf(),
        ensures
            final(self).wf(),
            final(self).next_id() == old(self).next_id(),
            final(self).column_types() == old(self).column_types(),
            final(self).rows() == (if has_row(old(self).rows(), r) {
                old(self).rows().remove(lower_bound(old(self).rows(), r))
            } else {
                old(self).rows()
            }),
    {
        let ghost s = self.table@;
        self.table.delete(r);
        proof {
            if has_row(s, r) {
                crate::table::lemma_lower_bound_found(s, r);
                let k = lower_bound(s, r);
                assert forall|i: int| 0 <= i < self.table@.len() implies self.table@[i].0
                    < self.next_rowid by {
                    if i < k {
                        assert(self.table@[i] == s[i]);
                    } else {
                        assert(self.table@[i] == s[i + 1]);
                    }
                }
            }
        }
    }

    /// The stored rows, from the lowest id.
    pub fn cursor(&self) -> (r: DbTableRange<'_>)
        ensures
            r.rows() == self.rows(),
            r.position() == 0,
    {
        DbTableRange::new(self.table.cursor())
    }
}

} // verus!

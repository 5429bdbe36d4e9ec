//! Named tables of string rows.
use vstd::prelude::*;

verus! {

/// A table: its column names and its rows, in insertion order.
#[derive(Debug)]
pub struct Table {
    pub column_names: Vec<String>,
    pub values: Vec<Vec<String>>,
}

/// Copies each string of `names`.
pub(crate) fn copy_strings(names: &[String]) -> (r: Vec<String>)
    ensures
        r@ == names@,
{
    let mut out: Vec<String> = Vec::new();
    let mut i: usize = 0;
    while i < names.len()
        invariant
            i <= names@.len(),
            out@ == names@.take(i as int),
        decreases names@.len() - i,
    {
        out.push(names[i].clone());
        proof {
            assert(names@.take(i + 1) =~= names@.take(i as int).push(names@[i as int]));
        }
        i = i + 1;
    }
    assert(names@.take(i as int) =~= names@);
    out
}

impl Table {
    pub fn new(column_names: &[String]) -> (r: Table)
        ensures
            r.column_names@ == column_names@,
            r.values@ == Seq::<Vec<String>>::empty(),
    {
        Table { column_names: copy_strings(column_names), values: Vec::new() }
    }
}

/// Index of the first entry of `s` named `name`; `s.len()` when there is none.
pub open spec fn name_index(s: Seq<(String, Table)>, name: Seq<char>) -> int
    decreases s.len(),
{
    if s.len() == 0 {
        0
    } else if s[0].0@ == name {
        0
    } else {
        1 + name_index(s.drop_first(), name)
    }
}

pub proof fn lemma_name_index(s: Seq<(String, Table)>, name: Seq<char>, i: int)
    requires
        0 <= i <= s.len(),
        forall|j: int| 0 <= j < i ==> s[j].0@ != name,
        i == s.len() || s[i].0@ == name,
    ensures
        name_index(s, name) == i,
    decreases i,
{
    if i > 0 {
        lemma_name_index(s.drop_first(), name, i - 1);
    }
}

/// A set of tables, each under its own name.
#[derive(Debug)]
pub struct Database {
    tables: Vec<(String, Table)>,
}

impl Database {
    /// The tables with their names, in order of creation.
    pub closed spec fn tables(&self) -> Seq<(String, Table)> {
        self.tables@
    }

    /// The index of the table named `name`, or the number of tables.
    pub open spec fn index_of(&self, name: Seq<char>) -> int {
        name_index(self.tables(), name)
    }

    pub open spec fn has_table(&self, name: Seq<char>) -> bool {
        self.index_of(name) < self.tables().len()
    }

    /// No two tables share a name.
    pub open spec fn wf(&self) -> bool {
        forall|i: int, j: int|
            0 <= i < j < self.tables().len() ==> self.tables()[i].0@ != self.tables()[j].0@
    }

    pub fn new() -> (r: Database)
        ensures
            r.wf(),
            r.tables() == Seq::<(String, Table)>::empty(),
    {
        Database { tables: Vec::new() }
    }

    /// Index of the table named `name`, or the number of tables.
    pub fn find(&self, name: &str) -> (r: usize)
        ensures
            r == self.index_of(name@),
            r <= self.tables().len(),
    {
        let wanted = name.to_owned();
        let mut i: usize = 0;
        while i < self.tables.len()
            invariant
                i <= self.tables@.len(),
                wanted@ == name@,
                forall|j: int| 0 <= j < i ==> self.tables@[j].0@ != name@,
            decreases self.tables@.len() - i,
        {
            if self.tables[i].0 == wanted {
                proof {
                    lemma_name_index(self.tables@, name@, i as int);
                }
                return i;
            }
            i = i + 1;
        }
        proof {
            lemma_name_index(self.tables@, name@, i as int);
        }
        i
    }

    /// Creates an empty table named `table_name`, replacing any table of that
    /// name.
    pub fn create_table(&mut self, table_name: &str, column_names: &[String]) -> (r: Result<
        (),
        &'static str,
    >)
        requires
            old(self).wf(),
        ensures
            final(self).wf(),
            r is Ok,
            ({
                let i = old(self).index_of(table_name@);
                let t = final(self).tables();
                &&& t.len() == (if i < old(self).tables().len() {
                    old(self).tables().len()
                } else {
                    old(self).tables().len() + 1
                })
                &&& t[i].0@ == table_name@
                &&& t[i].1.column_names@ == column_names@
                &&& t[i].1.values@ == Seq::<Vec<String>>::empty()
                &&& forall|j: int| 0 <= j < old(self).tables().len() && j != i ==> t[j] == old(self).tables()[j]
            }),
    {
        let i = self.find(table_name);
        let table = Table::new(column_names);
        let name = table_name.to_owned();
        if i < self.tables.len() {
            self.tables.set(i, (name, table));
        } else {
            self.tables.push((name, table));
        }
        proof {
            lemma_name_index_found(old(self).tables(), table_name@);
        }
        Ok(())
    }
}

pub proof fn lemma_name_index_found(s: Seq<(String, Table)>, name: Seq<char>)
    ensures
        0 <= name_index(s, name) <= s.len(),
        name_index(s, name) < s.len() ==> s[name_index(s, name)].0@ == name,
        forall|j: int| 0 <= j < name_index(s, name) ==> s[j].0@ != name,
    decreases s.len(),
{
    if s.len() > 0 && s[0].0@ != name {
        lemma_name_index_found(s.drop_first(), name);
        assert forall|j: int| 0 <= j < name_index(s, name) implies s[j].0@ != name by {
            if j > 0 {
                assert(s[j] == s.drop_first()[j - 1]);
            }
        }
    }
}

/// Every row has `width` values.
pub open spec fn rows_fit(rows: Seq<Vec<String>>, width: int) -> bool {
    forall|k: int| 0 <= k < rows.len() ==> (#[trigger] rows[k]).len() == width
}

/// `a` and `b` are alike but at index `i`.
pub open spec fn same_except(a: Seq<(String, Table)>, b: Seq<(String, Table)>, i: int) -> bool {
    &&& a.len() == b.len()
    &&& forall|j: int| 0 <= j < b.len() && j != i ==> a[j] == b[j]
}

impl Database {
    /// The table named `name`, if there is one.
    pub fn table(&self, name: &str) -> (r: Option<&Table>)
        ensures
            r matches Some(t) ==> self.has_table(name@) && *t == self.tables()[self.index_of(name@)].1,
            r is None ==> !self.has_table(name@),
    {
        let i = self.find(name);
        if i < self.tables.len() {
            Some(&self.tables[i].1)
        } else {
            None
        }
    }

    /// Appends `rows` to the table named `table_name`. Fails, changing
    /// nothing, when there is no such table or when a row does not have one
    /// value per column.
    pub fn insert_rows(&mut self, table_name: &str, rows: Vec<Vec<String>>) -> (r: Result<
        (),
        &'static str,
    >)
        requires
            old(self).wf(),
        ensures
            final(self).wf(),
            !old(self).has_table(table_name@) ==> r == Err::<(), &'static str>("Table name not found")
                && *final(self) == *old(self),
            old(self).has_table(table_name@) ==> ({
                let i = old(self).index_of(table_name@);
                let t = old(self).tables()[i].1;
                &&& !rows_fit(rows@, t.column_names@.len() as int) ==> r == Err::<(), &'static str>(
                    "Incorrect number of values",
                ) && *final(self) == *old(self)
                &&& rows_fit(rows@, t.column_names@.len() as int) ==> r is Ok && same_except(
                    final(self).tables(),
                    old(self).tables(),
                    i,
                ) && final(self).tables()[i].0 == old(self).tables()[i].0
                    && final(self).tables()[i].1.column_names == t.column_names
                    && final(self).tables()[i].1.values@ == t.values@ + rows@
            }),
    {
        let i = self.find(table_name);
        if i >= self.tables.len() {
            return Err("Table name not found");
        }
        let width = self.tables[i].1.column_names.len();
        let mut k: usize = 0;
        while k < rows.len()
            invariant
                *self == *old(self),
                old(self).wf(),
                i == old(self).index_of(table_name@),
                k <= rows@.len(),
                i < self.tables@.len(),
                width == self.tables@[i as int].1.column_names@.len(),
                forall|j: int| 0 <= j < k ==> (#[trigger] rows@[j]).len() == width,
            decreases rows@.len() - k,
        {
            if rows[k].len() != width {
                return Err("Incorrect number of values");
            }
            k = k + 1;
        }
        let ghost before = self.tables@;
        let (name, mut table) = self.tables.remove(i);
        let mut source = rows;
        table.values.append(&mut source);
        self.tables.insert(i, (name, table));
        proof {
            assert forall|j: int| 0 <= j < before.len() && j != i implies self.tables@[j] == before[j] by {}
            assert forall|a: int, b: int| 0 <= a < b < self.tables@.len() implies self.tables@[a].0@
                != self.tables@[b].0@ by {
                assert(self.tables@[a].0 == before[a].0);
                assert(self.tables@[b].0 == before[b].0);
            }
        }
        Ok(())
    }
}

} // verus!

//! A table of byte rows keyed by row id, kept in ascending id order.
use vstd::prelude::*;

verus! {

pub type RowId = u32;

pub type TableCell = Vec<u8>;

/// The ids of `s` strictly ascend.
pub open spec fn ascending(s: Seq<(RowId, Seq<u8>)>) -> bool {
    forall|i: int, j: int| 0 <= i < j < s.len() ==> s[i].0 < s[j].0
}

/// Index of the first row of `s` whose id is at least `k`; `s.len()` when
/// there is none.
pub open spec fn lower_bound(s: Seq<(RowId, Seq<u8>)>, k: RowId) -> int
    decreases s.len(),
{
    if s.len() == 0 {
        0
    } else if s[0].0 >= k {
        0
    } else {
        1 + lower_bound(s.drop_first(), k)
    }
}

/// The row with id `k` sits at `lower_bound(s, k)` when there is one.
pub open spec fn has_row(s: Seq<(RowId, Seq<u8>)>, k: RowId) -> bool {
    lower_bound(s, k) < s.len() && s[lower_bound(s, k)].0 == k
}

pub proof fn lemma_lower_bound(s: Seq<(RowId, Seq<u8>)>, k: RowId, i: int)
    requires
        0 <= i <= s.len(),
        forall|j: int| 0 <= j < i ==> s[j].0 < k,
        i == s.len() || s[i].0 >= k,
    ensures
        lower_bound(s, k) == i,
    decreases i,
{
    if i > 0 {
        lemma_lower_bound(s.drop_first(), k, i - 1);
    }
}

pub proof fn lemma_lower_bound_found(s: Seq<(RowId, Seq<u8>)>, k: RowId)
    ensures
        0 <= lower_bound(s, k) <= s.len(),
        lower_bound(s, k) < s.len() ==> s[lower_bound(s, k)].0 >= k,
        forall|j: int| 0 <= j < lower_bound(s, k) ==> s[j].0 < k,
    decreases s.len(),
{
    if s.len() > 0 && s[0].0 < k {
        lemma_lower_bound_found(s.drop_first(), k);
        assert forall|j: int| 0 <= j < lower_bound(s, k) implies s[j].0 < k by {
            if j > 0 {
                assert(s[j] == s.drop_first()[j - 1]);
            }
        }
    }
}

pub struct Table {
    rows: Vec<(RowId, TableCell)>,
}

impl View for Table {
    type V = Seq<(RowId, Seq<u8>)>;

    closed spec fn view(&self) -> Seq<(RowId, Seq<u8>)> {
        self.rows@.map_values(|r: (RowId, TableCell)| (r.0, r.1@))
    }
}

impl Table {
    pub fn new() -> (r: Table)
        ensures
            r@ == Seq::<(RowId, Seq<u8>)>::empty(),
    {
        let r = Table { rows: Vec::new() };
        proof {
            assert(r@ =~= Seq::<(RowId, Seq<u8>)>::empty());
        }
        r
    }

    /// Index of the first row whose id is at least `k`.
    fn position(&self, k: RowId) -> (r: usize)
        ensures
            r == lower_bound(self@, k),
            r <= self.rows@.len(),
            self@.len() == self.rows@.len(),
    {
        let mut i: usize = 0;
        while i < self.rows.len()
            invariant
                i <= self.rows@.len(),
                forall|j: int| 0 <= j < i ==> self@[j].0 < k,
            decreases self.rows@.len() - i,
        {
            if self.rows[i].0 >= k {
                proof {
                    lemma_lower_bound(self@, k, i as int);
                }
                return i;
            }
            i = i + 1;
        }
        proof {
            lemma_lower_bound(self@, k, i as int);
        }
        i
    }

    /// Stores `t` under `rowid`, replacing the row of that id if there is one.
    pub fn insert(&mut self, rowid: RowId, t: TableCell)
        requires
            ascending(old(self)@),
        ensures
            ascending(final(self)@),
            final(self)@ == (if has_row(old(self)@, rowid) {
                old(self)@.update(lower_bound(old(self)@, rowid), (rowid, t@))
            } else {
                old(self)@.insert(lower_bound(old(self)@, rowid), (rowid, t@))
            }),
    {
        let ghost s = self@;
        let ghost tv = t@;
        let i = self.position(rowid);
        proof {
            lemma_lower_bound_found(s, rowid);
        }
        if i < self.rows.len() && self.rows[i].0 == rowid {
            self.rows.set(i, (rowid, t));
            proof {
                assert(self@ =~= s.update(i as int, (rowid, tv)));
                assert forall|a: int, b: int| 0 <= a < b < self@.len() implies self@[a].0 < self@[b].0 by {
                    assert(self@[a].0 == s[a].0 && self@[b].0 == s[b].0);
                }
            }
        } else {
            self.rows.insert(i, (rowid, t));
            proof {
                assert(self@ =~= s.insert(i as int, (rowid, tv)));
                assert forall|a: int, b: int| 0 <= a < b < self@.len() implies self@[a].0 < self@[b].0 by {
                    if b < i {
                    } else if a > i {
                        assert(self@[a] == s[a - 1] && self@[b] == s[b - 1]);
                    } else if a == i {
                        assert(self@[b] == s[b - 1]);
                        assert(s[i as int].0 > rowid);
                        if b - 1 > i {
                            assert(s[i as int].0 < s[b - 1].0);
                        }
                    } else if b == i {
                        assert(self@[a] == s[a]);
                    } else {
                        assert(self@[a] == s[a] && self@[b] == s[b - 1]);
                    }
                }
            }
        }
    }

    /// Removes the row of id `r`, if there is one.
    pub fn delete(&mut self, r: RowId)
        requires
            ascending(old(self)@),
        ensures
            ascending(final(self)@),
            final(self)@ == (if has_row(old(self)@, r) {
                old(self)@.remove(lower_bound(old(self)@, r))
            } else {
                old(self)@
            }),
    {
        let ghost s = self@;
        let i = self.position(r);
        if i < self.rows.len() && self.rows[i].0 == r {
            self.rows.remove(i);
            proof {
                assert(self@ =~= s.remove(i as int));
                assert forall|a: int, b: int| 0 <= a < b < self@.len() implies self@[a].0 < self@[b].0 by {
                    let a1 = if a < i { a } else { a + 1 };
                    let b1 = if b < i { b } else { b + 1 };
                    assert(self@[a] == s[a1] && self@[b] == s[b1]);
                }
            }
        }
    }

    /// The rows, in ascending id order.
    pub fn cursor(&self) -> (r: &[(RowId, TableCell)])
        ensures
            r@.map_values(|e: (RowId, TableCell)| (e.0, e.1@)) == self@,
    {
        self.rows.as_slice()
    }
}

} // verus!

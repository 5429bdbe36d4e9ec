//! The page allocator: one fixed-capacity body holding two offset-linked
//! chains of cells, the free chain and the live chain.
//!
//! Choices this allocator makes:
//! - Every cell header takes `CELL_HEADER_SIZE` bytes (see `cell`).
//! - Allocation is first fit in free-chain order. When the free cells hold
//!   enough bytes in total but none is large enough on its own, `allocate`
//!   and `insert` return `StorageError::Fragmented` and change nothing; there
//!   is no compaction.
//! - The rest of a split free cell becomes a free cell at the head of the
//!   free chain when it can hold a header. A smaller rest is lost for good:
//!   it is counted by `untracked`, and `validate_allocations` then reports
//!   `Accounting`.
//! - `insert` after a live cell completes the link: that cell then points at
//!   the new one, which points where it used to.
use crate::bytes::splice;
use crate::cell::{
    cell_at, cell_in_bounds, header_bytes, key_bytes, lemma_cell_at_fits, lemma_cell_at_frame,
    lemma_header_round_trip,
    payload_bytes, total_size, Cell, CELL_HEADER_SIZE,
};
use crate::error::StorageError;
use vstd::prelude::*;

verus! {

/// Bytes reserved in front of the body for the three chain pointers.
pub const LINKED_PAGE_HEADER: usize = 5 + 5 + 5;

/// The size of the cell whose header is at `o`.
pub open spec fn size_at(m: Seq<u8>, o: int) -> int {
    cell_at(m, o).spec_size()
}

pub open spec fn sum(s: Seq<int>) -> int
    decreases s.len(),
{
    if s.len() == 0 {
        0
    } else {
        sum(s.drop_last()) + s.last()
    }
}

/// The sizes of the cells at the offsets of `c`, in order.
pub open spec fn sizes(m: Seq<u8>, c: Seq<usize>) -> Seq<int> {
    c.map_values(|o: usize| size_at(m, o as int))
}

/// The key and payload of each cell at the offsets of `c`, in order.
pub open spec fn entries(m: Seq<u8>, c: Seq<usize>) -> Seq<(Seq<u8>, Seq<u8>)> {
    c.map_values(|o: usize| (key_bytes(m, o as int), payload_bytes(m, o as int)))
}

/// The offset and decoded header of each cell at the offsets of `c`.
pub open spec fn decoded(m: Seq<u8>, c: Seq<usize>) -> Seq<(usize, Cell)> {
    c.map_values(|o: usize| (o, cell_at(m, o as int)))
}

/// Index of the first element of `s` that is at least `n`; `s.len()` when
/// there is none.
pub open spec fn first_at_least(s: Seq<int>, n: int) -> int
    decreases s.len(),
{
    if s.len() == 0 {
        0
    } else if s[0] >= n {
        0
    } else {
        1 + first_at_least(s.drop_first(), n)
    }
}

/// `c` lists, in order, the cells reached from `head` by following the next
/// offsets stored in `m`, up to a cell without one.
#[verifier::opaque]
pub open spec fn chain_linked(m: Seq<u8>, head: Option<usize>, c: Seq<usize>) -> bool {
    &&& (head matches Some(h) ==> c.len() > 0 && c[0] == h)
    &&& (head is None ==> c.len() == 0)
    &&& forall|i: int| 0 <= i < c.len() ==> #[trigger] cell_in_bounds(m, c[i] as int)
    &&& forall|i: int|
        0 <= i < c.len() - 1 ==> (#[trigger] cell_at(m, c[i] as int)).next_cell_offset == Some(
            c[i + 1],
        )
    &&& c.len() > 0 ==> cell_at(m, c.last() as int).next_cell_offset is None
}

/// The cells at `a` and `b` do not overlap.
pub open spec fn apart(m: Seq<u8>, a: int, b: int) -> bool {
    a + size_at(m, a) <= b || b + size_at(m, b) <= a
}

pub open spec fn in_chains(f: Seq<usize>, l: Seq<usize>, x: usize) -> bool {
    f.contains(x) || l.contains(x)
}

/// No two distinct cells of the two chains overlap.
#[verifier::opaque]
pub open spec fn all_apart(m: Seq<u8>, f: Seq<usize>, l: Seq<usize>) -> bool {
    forall|a: usize, b: usize|
        #![trigger in_chains(f, l, a), in_chains(f, l, b)]
        in_chains(f, l, a) && in_chains(f, l, b) && a != b ==> apart(m, a as int, b as int)
}

pub proof fn lemma_apart(m: Seq<u8>, f: Seq<usize>, l: Seq<usize>, a: usize, b: usize)
    requires
        all_apart(m, f, l),
        in_chains(f, l, a),
        in_chains(f, l, b),
        a != b,
    ensures
        apart(m, a as int, b as int),
{
    reveal(all_apart);
}

/// `m2` equals `m1` but on `[lo, hi)`.
pub open spec fn same_outside(m1: Seq<u8>, m2: Seq<u8>, lo: int, hi: int) -> bool {
    &&& m1.len() == m2.len()
    &&& forall|k: int| 0 <= k < m1.len() && !(lo <= k < hi) ==> m1[k] == m2[k]
}

pub proof fn lemma_sum_take(s: Seq<int>, i: int)
    requires
        0 <= i < s.len(),
    ensures
        sum(s.take(i + 1)) == sum(s.take(i)) + s[i],
{
    assert(s.take(i + 1).drop_last() =~= s.take(i));
}

pub proof fn lemma_sum_take_le(s: Seq<int>, i: int)
    requires
        0 <= i <= s.len(),
        forall|j: int| 0 <= j < s.len() ==> s[j] >= 0,
    ensures
        sum(s.take(i)) <= sum(s),
        0 <= sum(s.take(i)),
    decreases s.len(),
{
    if i == s.len() {
        assert(s.take(i) =~= s);
        if s.len() > 0 {
            lemma_sum_take_le(s.drop_last(), i - 1);
            assert(s.drop_last().take(i - 1) =~= s.drop_last());
        }
    } else {
        lemma_sum_take_le(s.drop_last(), i);
        assert(s.drop_last().take(i) =~= s.take(i));
    }
}

pub proof fn lemma_sum_remove(s: Seq<int>, k: int)
    requires
        0 <= k < s.len(),
    ensures
        sum(s.remove(k)) == sum(s) - s[k],
    decreases s.len(),
{
    if k == s.len() - 1 {
        assert(s.remove(k) =~= s.drop_last());
    } else {
        lemma_sum_remove(s.drop_last(), k);
        assert(s.remove(k).drop_last() =~= s.drop_last().remove(k));
    }
}

pub proof fn lemma_sum_insert(s: Seq<int>, k: int, x: int)
    requires
        0 <= k <= s.len(),
    ensures
        sum(s.insert(k, x)) == sum(s) + x,
{
    lemma_sum_remove(s.insert(k, x), k);
    assert(s.insert(k, x).remove(k) =~= s);
}

pub proof fn lemma_first_at_least(s: Seq<int>, n: int, i: int)
    requires
        0 <= i <= s.len(),
        forall|j: int| 0 <= j < i ==> s[j] < n,
        i == s.len() || s[i] >= n,
    ensures
        first_at_least(s, n) == i,
    decreases i,
{
    if i > 0 {
        lemma_first_at_least(s.drop_first(), n, i - 1);
    }
}

pub proof fn lemma_first_at_least_found(s: Seq<int>, n: int)
    ensures
        0 <= first_at_least(s, n) <= s.len(),
        first_at_least(s, n) < s.len() ==> s[first_at_least(s, n)] >= n,
        forall|j: int| 0 <= j < first_at_least(s, n) ==> s[j] < n,
    decreases s.len(),
{
    if s.len() > 0 && s[0] < n {
        lemma_first_at_least_found(s.drop_first(), n);
        assert forall|j: int| 0 <= j < first_at_least(s, n) implies s[j] < n by {
            if j > 0 {
                assert(s[j] == s.drop_first()[j - 1]);
            }
        }
    }
}

/// A cell whose bytes lie outside the rewritten range keeps its header, key
/// and payload.
pub proof fn lemma_frame(m1: Seq<u8>, m2: Seq<u8>, lo: int, hi: int, o: int)
    requires
        same_outside(m1, m2, lo, hi),
        cell_in_bounds(m1, o),
        o + size_at(m1, o) <= lo || hi <= o,
    ensures
        cell_at(m2, o) == cell_at(m1, o),
        cell_in_bounds(m2, o),
        key_bytes(m2, o) == key_bytes(m1, o),
        payload_bytes(m2, o) == payload_bytes(m1, o),
{
    lemma_cell_at_frame(m1, m2, o);
    assert(key_bytes(m2, o) =~= key_bytes(m1, o));
    assert(payload_bytes(m2, o) =~= payload_bytes(m1, o));
}

pub proof fn lemma_splice_outside(s: Seq<u8>, at: int, w: Seq<u8>)
    requires
        0 <= at,
        at + w.len() <= s.len(),
    ensures
        same_outside(s, splice(s, at, w), at, at + w.len()),
        forall|k: int| 0 <= k < w.len() ==> splice(s, at, w)[at + k] == w[k],
        splice(s, at, w).len() == s.len(),
{
    reveal(splice);
}

pub struct LinkedPage {
    first_free_cell_offset: Option<usize>,
    first_cell_offset: Option<usize>,
    next_page_no: Option<usize>,
    mem: Vec<u8>,
    free_chain: Ghost<Seq<usize>>,
    live_chain: Ghost<Seq<usize>>,
    untracked: Ghost<nat>,
}

impl LinkedPage {
    /// The body: the bytes that hold the cells.
    pub closed spec fn body(&self) -> Seq<u8> {
        self.mem@
    }

    /// Offsets of the free cells, in chain order.
    pub closed spec fn free_offsets(&self) -> Seq<usize> {
        self.free_chain@
    }

    /// Offsets of the live cells, in chain order.
    pub closed spec fn live_offsets(&self) -> Seq<usize> {
        self.live_chain@
    }

    /// Bytes of the body in neither chain: slack too small to form a free
    /// cell, and space handed out by `allocate` that no cell was linked into.
    pub closed spec fn untracked(&self) -> nat {
        self.untracked@
    }

    pub open spec fn free_sizes(&self) -> Seq<int> {
        sizes(self.body(), self.free_offsets())
    }

    pub open spec fn live_sizes(&self) -> Seq<int> {
        sizes(self.body(), self.live_offsets())
    }

    pub open spec fn free_total(&self) -> int {
        sum(self.free_sizes())
    }

    pub open spec fn live_total(&self) -> int {
        sum(self.live_sizes())
    }

    /// Key and payload of each live cell, in chain order.
    pub open spec fn live_entries(&self) -> Seq<(Seq<u8>, Seq<u8>)> {
        entries(self.body(), self.live_offsets())
    }

    /// The index in the free chain of the cell that first fit picks for `req`
    /// bytes; the chain's length when no free cell is large enough.
    pub open spec fn first_fit(&self, req: int) -> int {
        first_at_least(self.free_sizes(), req)
    }

    /// The page's invariant.
    pub closed spec fn wf(&self) -> bool {
        let m = self.mem@;
        let f = self.free_chain@;
        let l = self.live_chain@;
        &&& m.len() <= u32::MAX
        &&& m.len() + LINKED_PAGE_HEADER <= usize::MAX
        &&& chain_linked(m, self.first_free_cell_offset, f)
        &&& chain_linked(m, self.first_cell_offset, l)
        &&& f.no_duplicates()
        &&& l.no_duplicates()
        &&& f.disjoint(l)
        &&& all_apart(m, f, l)
        &&& sum(sizes(m, f)) + sum(sizes(m, l)) + self.untracked@ == m.len()
    }

    /// Every byte of the body is in a free cell, in a live cell, or untracked.
    pub proof fn lemma_accounting(&self)
        requires
            self.wf(),
        ensures
            self.free_total() + self.live_total() + self.untracked() == self.body().len(),
            self.free_total() >= 0,
            self.live_total() >= 0,
    {
        self.lemma_sizes_nonneg(self.free_chain@);
        self.lemma_sizes_nonneg(self.live_chain@);
        lemma_sum_take_le(self.free_sizes(), 0);
        lemma_sum_take_le(self.live_sizes(), 0);
    }

    proof fn lemma_sizes_nonneg(&self, c: Seq<usize>)
        ensures
            forall|j: int| 0 <= j < c.len() ==> sizes(self.mem@, c)[j] >= 0,
    {
    }

    /// A page of `size` bytes in all, whose body is one free cell.
    pub fn new(size: usize) -> (r: LinkedPage)
        requires
            LINKED_PAGE_HEADER + CELL_HEADER_SIZE <= size,
            size - LINKED_PAGE_HEADER <= u32::MAX,
        ensures
            r.wf(),
            r.body().len() == size - LINKED_PAGE_HEADER,
            r.free_offsets() == seq![0usize],
            r.free_sizes() == seq![size - LINKED_PAGE_HEADER],
            r.live_offsets() == Seq::<usize>::empty(),
            r.untracked() == 0,
            r.free_total() == size - LINKED_PAGE_HEADER,
            r.live_total() == 0,
            cell_at(r.body(), 0) == (Cell {
                key_size: (size - LINKED_PAGE_HEADER - CELL_HEADER_SIZE) as usize,
                payload_size: 0,
                next_cell_offset: None,
            }),
    {
        let mem_size = size - LINKED_PAGE_HEADER;
        let mut mem: Vec<u8> = vec![0u8; mem_size];
        let free_cell = Cell::new(mem_size - CELL_HEADER_SIZE, 0, None);
        let free_cell_offset: usize = 0;
        let ghost m0 = mem@;
        free_cell.save(mem.as_mut_slice(), free_cell_offset);
        proof {
            lemma_header_round_trip(m0, 0, free_cell);
        }
        let ghost free_chain = seq![0usize];
        let page = LinkedPage {
            first_free_cell_offset: Some(free_cell_offset),
            first_cell_offset: None,
            next_page_no: None,
            mem: mem,
            free_chain: Ghost(free_chain),
            live_chain: Ghost(Seq::<usize>::empty()),
            untracked: Ghost(0),
        };
        proof {
            reveal(chain_linked);
            reveal(all_apart);
            reveal_with_fuel(sum, 2);
            let f = page.free_chain@;
            let l = page.live_chain@;
            assert(sizes(page.mem@, f) =~= seq![mem_size as int]);
            assert(sizes(page.mem@, l) =~= Seq::<int>::empty());
            assert forall|a: usize, b: usize|
                in_chains(f, l, a) && in_chains(f, l, b) && a != b implies apart(
                page.mem@,
                a as int,
                b as int,
            ) by {
                assert(f.contains(a) ==> a == 0);
                assert(f.contains(b) ==> b == 0);
            }
        }
        page
    }

    /// Bytes of the body.
    pub fn storage_size(&self) -> (r: usize)
        ensures
            r == self.body().len(),
    {
        self.mem.len()
    }

    /// Bytes of the whole page, its header included.
    pub fn size(&self) -> (r: usize)
        requires
            self.wf(),
        ensures
            r == self.body().len() + LINKED_PAGE_HEADER,
    {
        self.mem.len() + LINKED_PAGE_HEADER
    }

    /// The body as a byte slice.
    pub fn memory(&self) -> (r: &[u8])
        ensures
            r@ == self.body(),
    {
        self.mem.as_slice()
    }

    /// Sum of the sizes of the cells of chain `c`, which starts at `head`.
    fn chain_total(&self, head: Option<usize>, Ghost(c): Ghost<Seq<usize>>) -> (r: usize)
        requires
            chain_linked(self.mem@, head, c),
            sum(sizes(self.mem@, c)) <= usize::MAX,
        ensures
            r == sum(sizes(self.mem@, c)),
    {
        let ghost m = self.mem@;
        let ghost s = sizes(m, c);
        let mut total: usize = 0;
        let mut cur = head;
        let ghost mut i: int = 0;
        proof {
            reveal(chain_linked);
            assert(s.take(0) =~= Seq::<int>::empty());
            self.lemma_sizes_nonneg(c);
        }
        loop
            invariant
                0 <= i <= c.len(),
                chain_linked(m, head, c),
                m == self.mem@,
                s == sizes(m, c),
                sum(s) <= usize::MAX,
                forall|j: int| 0 <= j < s.len() ==> s[j] >= 0,
                total == sum(s.take(i)),
                cur == (if i < c.len() { Some(c[i]) } else { None::<usize> }),
            decreases c.len() - i,
        {
            match cur {
                None => {
                    proof {
                        reveal(chain_linked);
                    }
                    assert(s.take(i) =~= s);
                    return total;
                },
                Some(o) => {
                    proof {
                        reveal(chain_linked);
                    }
                    match Cell::new_from_memory(self.mem.as_slice(), o) {
                        Ok(cell) => {
                            proof {
                                assert(cell_in_bounds(m, c[i] as int));
                                lemma_sum_take(s, i);
                                lemma_sum_take_le(s, i + 1);
                            }
                            total = total + cell.size();
                            cur = cell.next_cell();
                            proof {
                                i = i + 1;
                            }
                        },
                        Err(_) => {
                            proof {
                                assert(cell_in_bounds(m, c[i] as int));
                            }
                            return total;
                        },
                    }
                },
            }
        }
    }

    /// Offset and header of each cell of chain `c`, which starts at `head`.
    fn chain_cells(&self, head: Option<usize>, Ghost(c): Ghost<Seq<usize>>) -> (r: Vec<(usize, Cell)>)
        requires
            chain_linked(self.mem@, head, c),
        ensures
            r@ == decoded(self.mem@, c),
    {
        let ghost m = self.mem@;
        let mut out: Vec<(usize, Cell)> = Vec::new();
        let mut cur = head;
        let ghost mut i: int = 0;
        proof {
            reveal(chain_linked);
        }
        loop
            invariant
                0 <= i <= c.len(),
                chain_linked(m, head, c),
                m == self.mem@,
                out@ == decoded(m, c.take(i)),
                cur == (if i < c.len() { Some(c[i]) } else { None::<usize> }),
            decreases c.len() - i,
        {
            match cur {
                None => {
                    proof {
                        reveal(chain_linked);
                    }
                    assert(c.take(i) =~= c);
                    return out;
                },
                Some(o) => {
                    proof {
                        reveal(chain_linked);
                    }
                    match Cell::new_from_memory(self.mem.as_slice(), o) {
                        Ok(cell) => {
                            out.push((o, cell));
                            cur = cell.next_cell();
                            proof {
                                assert(cell_in_bounds(m, c[i] as int));
                                assert(decoded(m, c.take(i + 1)) =~= decoded(m, c.take(i)).push(
                                    (o, cell),
                                ));
                                i = i + 1;
                            }
                        },
                        Err(_) => {
                            proof {
                                assert(cell_in_bounds(m, c[i] as int));
                            }
                            return out;
                        },
                    }
                },
            }
        }
    }

    /// Total size of the free cells.
    pub fn free_space(&self) -> (r: usize)
        requires
            self.wf(),
        ensures
            r == self.free_total(),
    {
        proof {
            self.lemma_accounting();
        }
        self.chain_total(self.first_free_cell_offset, self.free_chain)
    }

    /// Total size of the live cells.
    pub fn allocated_space(&self) -> (r: usize)
        requires
            self.wf(),
        ensures
            r == self.live_total(),
    {
        proof {
            self.lemma_accounting();
        }
        self.chain_total(self.first_cell_offset, self.live_chain)
    }

    /// The free cells, in chain order.
    pub fn free_cell_iter(&self) -> (r: Vec<(usize, Cell)>)
        requires
            self.wf(),
        ensures
            r@ == decoded(self.body(), self.free_offsets()),
            forall|i: int| 0 <= i < r@.len() ==> cell_in_bounds(self.body(), #[trigger] r@[i].0 as int),
    {
        proof {
            lemma_chains_in_bounds(*self);
        }
        self.chain_cells(self.first_free_cell_offset, self.free_chain)
    }

    /// The live cells, in chain order.
    pub fn cell_iter(&self) -> (r: Vec<(usize, Cell)>)
        requires
            self.wf(),
        ensures
            r@ == decoded(self.body(), self.live_offsets()),
            forall|i: int| 0 <= i < r@.len() ==> cell_in_bounds(self.body(), #[trigger] r@[i].0 as int),
    {
        proof {
            lemma_chains_in_bounds(*self);
        }
        self.chain_cells(self.first_cell_offset, self.live_chain)
    }

    /// Recomputes both totals; fails unless they add up to the body.
    pub fn validate_allocations(&self) -> (r: Result<(usize, usize), StorageError>)
        requires
            self.wf(),
        ensures
            r == (if self.live_total() + self.free_total() == self.body().len() {
                Ok((self.live_total() as usize, self.free_total() as usize))
            } else {
                Err(StorageError::Accounting)
            }),
            r is Ok <==> self.untracked() == 0,
    {
        proof {
            self.lemma_accounting();
        }
        let allocated = self.allocated_space();
        let free = self.free_space();
        if allocated + free == self.storage_size() {
            Ok((allocated, free))
        } else {
            Err(StorageError::Accounting)
        }
    }

    /// Whether the free cells hold `cell_size(key_size, payload_size)` bytes
    /// in total. They need not be contiguous: `insert` may still fail with
    /// `Fragmented`.
    pub fn has_space_for(&self, key_size: usize, payload_size: usize) -> (r: bool)
        requires
            self.wf(),
        ensures
            r == (total_size(key_size as int, payload_size as int) <= self.free_total()),
    {
        proof {
            self.lemma_accounting();
        }
        let free = self.free_space();
        if key_size > free || payload_size > free - key_size || CELL_HEADER_SIZE > free - key_size
            - payload_size {
            false
        } else {
            true
        }
    }
}


/// Cells whose headers and bounds did not change form the same chain.
pub proof fn lemma_chain_same(m1: Seq<u8>, m2: Seq<u8>, head: Option<usize>, c: Seq<usize>)
    requires
        chain_linked(m1, head, c),
        forall|i: int|
            0 <= i < c.len() ==> #[trigger] cell_at(m2, c[i] as int) == cell_at(m1, c[i] as int)
                && cell_in_bounds(m2, c[i] as int),
    ensures
        chain_linked(m2, head, c),
{
    reveal(chain_linked);
    assert forall|i: int| 0 <= i < c.len() - 1 implies (#[trigger] cell_at(m2, c[i] as int)).next_cell_offset
        == Some(c[i + 1]) by {
        assert(cell_at(m1, c[i] as int).next_cell_offset == Some(c[i + 1]));
    }
    if c.len() > 0 {
        assert(cell_at(m2, c[c.len() - 1] as int) == cell_at(m1, c[c.len() - 1] as int));
    }
}

/// Unlinking the cell at index `k`: its predecessor, if any, now points
/// where it pointed; otherwise the head does.
pub proof fn lemma_remove_linked(
    m0: Seq<u8>,
    m: Seq<u8>,
    head0: Option<usize>,
    c: Seq<usize>,
    k: int,
    head: Option<usize>,
)
    requires
        chain_linked(m0, head0, c),
        0 <= k < c.len(),
        forall|i: int|
            0 <= i < c.len() && i != k && i != k - 1 ==> #[trigger] cell_at(m, c[i] as int)
                == cell_at(m0, c[i] as int) && cell_in_bounds(m, c[i] as int),
        k > 0 ==> cell_at(m, c[k - 1] as int) == (Cell {
            next_cell_offset: cell_at(m0, c[k] as int).next_cell_offset,
            ..cell_at(m0, c[k - 1] as int)
        }) && cell_in_bounds(m, c[k - 1] as int),
        head == (if k == 0 {
            cell_at(m0, c[0] as int).next_cell_offset
        } else {
            head0
        }),
    ensures
        chain_linked(m, head, c.remove(k)),
{
    reveal(chain_linked);
    let g = c.remove(k);
    assert(cell_in_bounds(m0, c[k] as int));
    assert forall|i: int| 0 <= i < g.len() implies #[trigger] cell_in_bounds(m, g[i] as int) by {
        if i < k {
            assert(g[i] == c[i]);
        } else {
            assert(g[i] == c[i + 1]);
        }
    }
    assert forall|i: int| 0 <= i < g.len() - 1 implies (#[trigger] cell_at(m, g[i] as int)).next_cell_offset
        == Some(g[i + 1]) by {
        if i < k - 1 {
            assert(cell_at(m0, c[i] as int).next_cell_offset == Some(c[i + 1]));
        } else if i == k - 1 {
            assert(cell_at(m0, c[k] as int).next_cell_offset == Some(c[k + 1]));
        } else {
            assert(g[i] == c[i + 1]);
            assert(cell_at(m0, c[i + 1] as int).next_cell_offset == Some(c[i + 2]));
        }
    }
    if g.len() > 0 {
        let last = g.len() - 1;
        if k == c.len() - 1 {
            assert(g[last] == c[k - 1]);
        } else {
            assert(g[last] == c[c.len() - 1]);
        }
    }
    if k == 0 && c.len() > 1 {
        assert(cell_at(m0, c[0] as int).next_cell_offset == Some(c[1]));
    }
}

/// A cell that points at the head of a chain, put in front of it.
pub proof fn lemma_push_front_linked(m: Seq<u8>, head: Option<usize>, g: Seq<usize>, r: usize)
    requires
        chain_linked(m, head, g),
        cell_in_bounds(m, r as int),
        cell_at(m, r as int).next_cell_offset == head,
    ensures
        chain_linked(m, Some(r), seq![r] + g),
{
    reveal(chain_linked);
    let c = seq![r] + g;
    assert forall|i: int| 0 <= i < c.len() implies #[trigger] cell_in_bounds(m, c[i] as int) by {
        if i > 0 {
            assert(c[i] == g[i - 1]);
        }
    }
    assert forall|i: int| 0 <= i < c.len() - 1 implies (#[trigger] cell_at(m, c[i] as int)).next_cell_offset
        == Some(c[i + 1]) by {
        if i > 0 {
            assert(c[i] == g[i - 1]);
            assert(cell_at(m, g[i - 1] as int).next_cell_offset == Some(g[i]));
        }
    }
    if g.len() > 0 {
        assert(c.last() == g.last());
    }
}

/// Linking cell `o` in after index `j`: the cell at `j` (or the head, when
/// `j` is -1) now points at `o`, which points where that one pointed.
pub proof fn lemma_insert_linked(
    m0: Seq<u8>,
    m: Seq<u8>,
    head0: Option<usize>,
    c: Seq<usize>,
    j: int,
    o: usize,
    head: Option<usize>,
)
    requires
        chain_linked(m0, head0, c),
        -1 <= j < c.len(),
        forall|i: int|
            0 <= i < c.len() && i != j ==> #[trigger] cell_at(m, c[i] as int) == cell_at(
                m0,
                c[i] as int,
            ) && cell_in_bounds(m, c[i] as int),
        j >= 0 ==> cell_at(m, c[j] as int) == (Cell {
            next_cell_offset: Some(o),
            ..cell_at(m0, c[j] as int)
        }) && cell_in_bounds(m, c[j] as int),
        cell_in_bounds(m, o as int),
        cell_at(m, o as int).next_cell_offset == (if j >= 0 {
            cell_at(m0, c[j] as int).next_cell_offset
        } else {
            head0
        }),
        head == (if j >= 0 {
            head0
        } else {
            Some(o)
        }),
    ensures
        chain_linked(m, head, c.insert(j + 1, o)),
{
    reveal(chain_linked);
    let g = c.insert(j + 1, o);
    assert(g.len() == c.len() + 1);
    assert forall|i: int| 0 <= i <= j implies g[i] == c[i] by {}
    assert(g[j + 1] == o);
    assert forall|i: int| j + 1 < i < g.len() implies g[i] == c[i - 1] by {}
    assert forall|i: int| 0 <= i < g.len() implies #[trigger] cell_in_bounds(m, g[i] as int) by {
        if i <= j {
            assert(g[i] == c[i]);
        } else if i > j + 1 {
            assert(g[i] == c[i - 1]);
        }
    }
    assert forall|i: int| 0 <= i < g.len() - 1 implies (#[trigger] cell_at(m, g[i] as int)).next_cell_offset
        == Some(g[i + 1]) by {
        if i < j {
            assert(g[i] == c[i] && g[i + 1] == c[i + 1]);
            assert(cell_at(m0, c[i] as int).next_cell_offset == Some(c[i + 1]));
        } else if i == j {
            assert(g[i] == c[j]);
        } else if i == j + 1 {
            if j >= 0 {
                assert(j + 1 < c.len());
                assert(cell_at(m0, c[j] as int).next_cell_offset == Some(c[j + 1]));
            } else {
                assert(c.len() > 0);
            }
        } else {
            assert(g[i] == c[i - 1] && g[i + 1] == c[i]);
            assert(cell_at(m0, c[i - 1] as int).next_cell_offset == Some(c[i]));
        }
    }
    if j == c.len() - 1 {
        if j >= 0 {
            assert(cell_at(m0, c[j] as int).next_cell_offset is None);
        }
    } else {
        assert(g.last() == c.last());
    }
}

/// A rewrite confined to the bytes of the cell at `y` leaves every cell
/// apart from `y` as it was.
pub proof fn lemma_frame_apart(m1: Seq<u8>, m2: Seq<u8>, lo: int, hi: int, x: int, y: int)
    requires
        same_outside(m1, m2, lo, hi),
        cell_in_bounds(m1, x),
        apart(m1, x, y),
        y <= lo,
        hi <= y + size_at(m1, y),
    ensures
        cell_at(m2, x) == cell_at(m1, x),
        cell_in_bounds(m2, x),
        key_bytes(m2, x) == key_bytes(m1, x),
        payload_bytes(m2, x) == payload_bytes(m1, x),
{
    lemma_frame(m1, m2, lo, hi, x);
}


impl LinkedPage {
    /// Size of the free cell that first fit picks for `req` bytes.
    pub open spec fn chosen_size(&self, req: int) -> int {
        self.free_sizes()[self.first_fit(req)]
    }

    /// What is left of the chosen free cell after taking `req` bytes from it.
    pub open spec fn extra(&self, req: int) -> int {
        self.chosen_size(req) - req
    }

    /// The rest of the chosen cell is large enough to stay a free cell.
    pub open spec fn keeps_remainder(&self, req: int) -> bool {
        self.extra(req) >= CELL_HEADER_SIZE
    }

    /// Bytes lost for good: a rest too small to hold a header.
    pub open spec fn lost_slack(&self, req: int) -> int {
        if self.keeps_remainder(req) {
            0
        } else {
            self.extra(req)
        }
    }

    /// A free cell of at least `req` bytes exists, and the free cells hold at
    /// least `req` bytes in total.
    pub open spec fn can_allocate(&self, req: int) -> bool {
        req <= self.free_total() && self.first_fit(req) < self.free_offsets().len()
    }

    /// The free chain once `req` bytes are taken by first fit: the chosen
    /// cell leaves it, and its rest, when large enough, goes to the front.
    pub open spec fn free_offsets_after(&self, req: int) -> Seq<usize> {
        let k = self.first_fit(req);
        let o = self.free_offsets()[k];
        if self.keeps_remainder(req) {
            seq![(o + req) as usize] + self.free_offsets().remove(k)
        } else {
            self.free_offsets().remove(k)
        }
    }

    /// The sizes of the free chain once `req` bytes are taken by first fit.
    pub open spec fn free_sizes_after(&self, req: int) -> Seq<int> {
        let k = self.first_fit(req);
        if self.keeps_remainder(req) {
            seq![self.extra(req)] + self.free_sizes().remove(k)
        } else {
            self.free_sizes().remove(k)
        }
    }

    /// Byte `b` of the body lies in one of the free cells.
    pub open spec fn in_free_cell(&self, b: int) -> bool {
        exists|i: int|
            0 <= i < self.free_offsets().len() && #[trigger] self.free_offsets()[i] <= b < self.free_offsets()[i]
                + size_at(self.body(), self.free_offsets()[i] as int)
    }

    /// `[o, o + n)` lies in the body and overlaps no cell of either chain.
    pub open spec fn reserved(&self, o: int, n: int) -> bool {
        &&& 0 <= o
        &&& o + n <= self.body().len()
        &&& forall|x: usize|
            #[trigger] in_chains(self.free_offsets(), self.live_offsets(), x) ==> x + size_at(
                self.body(),
                x as int,
            ) <= o || o + n <= x
    }

    /// First fit: the first free cell, in chain order, of at least
    /// `required_size` bytes, with the cell before it in the chain.
    fn find_first_fit(&self, required_size: usize) -> (r: Option<
        (Option<(usize, Cell)>, usize, Cell),
    >)
        requires
            self.wf(),
        ensures
            r is None <==> self.first_fit(required_size as int) == self.free_offsets().len(),
            r matches Some((prev, o, c)) ==> {
                let f = self.free_offsets();
                let k = self.first_fit(required_size as int);
                &&& 0 <= k < f.len()
                &&& o == f[k]
                &&& c == cell_at(self.body(), o as int)
                &&& c.spec_size() >= required_size
                &&& prev == (if k > 0 {
                    Some((f[k - 1], cell_at(self.body(), f[k - 1] as int)))
                } else {
                    None
                })
            },
    {
        let ghost m = self.mem@;
        let ghost f = self.free_chain@;
        let ghost s = sizes(m, f);
        let mut cur = self.first_free_cell_offset;
        let mut prev: Option<(usize, Cell)> = None;
        let ghost mut i: int = 0;
        proof {
            reveal(chain_linked);
        }
        loop
            invariant
                self.wf(),
                0 <= i <= f.len(),
                m == self.mem@,
                f == self.free_chain@,
                s == sizes(m, f),
                cur == (if i < f.len() { Some(f[i]) } else { None::<usize> }),
                prev == (if i > 0 {
                    Some((f[i - 1], cell_at(m, f[i - 1] as int)))
                } else {
                    None::<(usize, Cell)>
                }),
                forall|j: int| 0 <= j < i ==> s[j] < required_size,
            decreases f.len() - i,
        {
            match cur {
                None => {
                    proof {
                        reveal(chain_linked);
                        lemma_first_at_least(s, required_size as int, i);
                    }
                    return None;
                },
                Some(o) => {
                    proof {
                        reveal(chain_linked);
                        assert(cell_in_bounds(m, f[i] as int));
                    }
                    match Cell::new_from_memory(self.mem.as_slice(), o) {
                        Ok(cell) => {
                            if cell.size() >= required_size {
                                proof {
                                    lemma_first_at_least(s, required_size as int, i);
                                }
                                return Some((prev, o, cell));
                            }
                            prev = Some((o, cell));
                            cur = cell.next_cell();
                            proof {
                                i = i + 1;
                            }
                        },
                        Err(_) => {
                            return None;
                        },
                    }
                },
            }
        }
    }

    /// Takes `required_size` bytes from the first free cell large enough
    /// (first fit) and returns their offset. The rest of that cell becomes a
    /// free cell at the front of the free chain when it can hold a header;
    /// a smaller rest is lost. The bytes handed out belong to no chain until
    /// the caller links a cell there.
    pub fn allocate(&mut self, required_size: usize) -> (r: Result<usize, StorageError>)
        requires
            old(self).wf(),
        ensures
            final(self).wf(),
            final(self).body().len() == old(self).body().len(),
            r is Ok <==> old(self).can_allocate(required_size as int),
            r == Err::<usize, StorageError>(StorageError::OutOfSpace) <==> required_size
                > old(self).free_total(),
            r == Err::<usize, StorageError>(StorageError::Fragmented) <==> required_size
                <= old(self).free_total() && old(self).first_fit(required_size as int)
                == old(self).free_offsets().len(),
            r is Err ==> *final(self) == *old(self),
            forall|b: int|
                0 <= b < old(self).body().len() && !old(self).in_free_cell(b)
                    ==> #[trigger] final(self).body()[b] == old(self).body()[b],
            r matches Ok(o) ==> {
                let req = required_size as int;
                &&& o == old(self).free_offsets()[old(self).first_fit(req)]
                &&& final(self).free_offsets() == old(self).free_offsets_after(req)
                &&& final(self).free_sizes() == old(self).free_sizes_after(req)
                &&& final(self).live_offsets() == old(self).live_offsets()
                &&& decoded(final(self).body(), final(self).live_offsets()) == decoded(
                    old(self).body(),
                    old(self).live_offsets(),
                )
                &&& final(self).live_entries() == old(self).live_entries()
                &&& final(self).untracked() == old(self).untracked() + req + old(self).lost_slack(
                    req,
                )
                &&& final(self).reserved(o as int, req)
            },
    {
        proof {
            self.lemma_accounting();
        }
        let total = self.free_space();
        if required_size > total {
            return Err(StorageError::OutOfSpace);
        }
        let found = self.find_first_fit(required_size);
        let (prev, free_offset, free_cell) = match found {
            None => {
                return Err(StorageError::Fragmented);
            },
            Some(t) => t,
        };
        let ghost p0 = *self;
        let ghost req = required_size as int;
        let ghost k = self.first_fit(req);
        match prev {
            Some((prev_offset, prev_cell)) => {
                let mut relinked = prev_cell;
                relinked.set_next_cell(free_cell.next_cell());
                proof {
                    lemma_first_at_least_found(p0.free_sizes(), req);
                    assert(in_chains(p0.free_chain@, p0.live_chain@, p0.free_chain@[k - 1]));
                    p0.lemma_chain_member(p0.free_chain@[k - 1]);
                }
                relinked.save(self.mem.as_mut_slice(), prev_offset);
            },
            None => {
                self.first_free_cell_offset = free_cell.next_cell();
            },
        }
        proof {
            assert(self.mem@ == p0.mem_unlinked(req));
            lemma_first_at_least_found(p0.free_sizes(), req);
            assert(in_chains(p0.free_chain@, p0.live_chain@, p0.free_chain@[k]));
            p0.lemma_chain_member(p0.free_chain@[k]);
        }
        let extra_size = free_cell.size() - required_size;
        if extra_size >= CELL_HEADER_SIZE {
            let extra_offset = free_offset + required_size;
            let extra_cell = Cell::new(0, extra_size - CELL_HEADER_SIZE, self.first_free_cell_offset);
            extra_cell.save(self.mem.as_mut_slice(), extra_offset);
            self.first_free_cell_offset = Some(extra_offset);
            proof {
                self.free_chain = Ghost(seq![extra_offset] + p0.free_chain@.remove(k));
            }
        } else {
            proof {
                self.free_chain = Ghost(p0.free_chain@.remove(k));
            }
        }
        proof {
            self.untracked = Ghost((p0.untracked@ + req + p0.lost_slack(req)) as nat);
            p0.lemma_allocate_wf(*self, req);
            p0.lemma_allocate_frame(req);
        }
        Ok(free_offset)
    }

    /// Offset of the free cell first fit picks for `req` bytes.
    spec fn pick(&self, req: int) -> int {
        self.free_chain@[self.first_fit(req)] as int
    }

    /// The predecessor of the picked cell, now pointing past it.
    spec fn relinked(&self, req: int) -> Cell {
        let k = self.first_fit(req);
        Cell {
            next_cell_offset: cell_at(self.mem@, self.pick(req)).next_cell_offset,
            ..cell_at(self.mem@, self.free_chain@[k - 1] as int)
        }
    }

    /// The body once the picked cell is unlinked.
    spec fn mem_unlinked(&self, req: int) -> Seq<u8> {
        let k = self.first_fit(req);
        if k > 0 {
            splice(self.mem@, self.free_chain@[k - 1] as int, header_bytes(self.relinked(req)))
        } else {
            self.mem@
        }
    }

    /// The free chain's head once the picked cell is unlinked.
    spec fn head_unlinked(&self, req: int) -> Option<usize> {
        if self.first_fit(req) > 0 {
            self.first_free_cell_offset
        } else {
            cell_at(self.mem@, self.pick(req)).next_cell_offset
        }
    }

    /// The free cell made of the rest of the picked cell.
    spec fn rest_cell(&self, req: int) -> Cell {
        Cell {
            key_size: 0,
            payload_size: (self.extra(req) - CELL_HEADER_SIZE) as usize,
            next_cell_offset: self.head_unlinked(req),
        }
    }

    /// The body once `req` bytes are allocated.
    spec fn mem_allocated(&self, req: int) -> Seq<u8> {
        if self.keeps_remainder(req) {
            splice(self.mem_unlinked(req), self.pick(req) + req, header_bytes(self.rest_cell(req)))
        } else {
            self.mem_unlinked(req)
        }
    }

    proof fn lemma_chain_member(&self, x: usize)
        requires
            self.wf(),
            in_chains(self.free_chain@, self.live_chain@, x),
        ensures
            cell_in_bounds(self.mem@, x as int),
            size_at(self.mem@, x as int) >= CELL_HEADER_SIZE,
    {
        self.lemma_in_chain_bounds(x);
    }

    /// What allocation does to the headers and contents of the cells.
    /// Allocation rewrites bytes inside the old free cells only.
    proof fn lemma_allocate_frame(&self, req: int)
        requires
            self.wf(),
            0 <= req,
            self.first_fit(req) < self.free_chain@.len(),
            self.chosen_size(req) >= req,
        ensures
            self.mem_allocated(req).len() == self.mem@.len(),
            forall|b: int|
                0 <= b < self.body().len() && !self.in_free_cell(b) ==> #[trigger] self.mem_allocated(
                    req,
                )[b] == self.mem@[b],
    {
        let m = self.mem@;
        let m1 = self.mem_unlinked(req);
        let m2 = self.mem_allocated(req);
        let f = self.free_chain@;
        let l = self.live_chain@;
        let k = self.first_fit(req);
        let fo = self.pick(req);
        lemma_first_at_least_found(self.free_sizes(), req);
        assert(in_chains(f, l, f[k]));
        self.lemma_chain_member(f[k]);
        assert(self.chosen_size(req) == size_at(m, fo));
        if k > 0 {
            assert(in_chains(f, l, f[k - 1]));
            self.lemma_chain_member(f[k - 1]);
            lemma_splice_outside(m, f[k - 1] as int, header_bytes(self.relinked(req)));
        }
        if self.keeps_remainder(req) {
            lemma_splice_outside(m1, fo + req, header_bytes(self.rest_cell(req)));
        }
        assert forall|b: int| 0 <= b < self.body().len() && !self.in_free_cell(b) implies #[trigger] m2[b]
            == m[b] by {
            assert(!(self.free_offsets()[k] <= b < self.free_offsets()[k] + size_at(
                m,
                self.free_offsets()[k] as int,
            )));
            if k > 0 {
                assert(!(self.free_offsets()[k - 1] <= b < self.free_offsets()[k - 1] + size_at(
                    m,
                    self.free_offsets()[k - 1] as int,
                )));
            }
        }
    }

    proof fn lemma_allocate_cells(&self, req: int)
        requires
            self.wf(),
            0 <= req,
            self.first_fit(req) < self.free_chain@.len(),
            self.chosen_size(req) >= req,
        ensures
            ({
                let m = self.mem@;
                let m2 = self.mem_allocated(req);
                let f = self.free_chain@;
                let l = self.live_chain@;
                let k = self.first_fit(req);
                let fo = self.pick(req);
                &&& m2.len() == m.len()
                &&& forall|x: usize|
                    #![trigger in_chains(f, l, x)]
                    in_chains(f, l, x) && x != fo && (k == 0 || x != f[k - 1]) ==> cell_at(
                        m2,
                        x as int,
                    ) == cell_at(m, x as int) && cell_in_bounds(m2, x as int) && key_bytes(
                        m2,
                        x as int,
                    ) == key_bytes(m, x as int) && payload_bytes(m2, x as int) == payload_bytes(
                        m,
                        x as int,
                    )
                &&& k > 0 ==> cell_at(m2, f[k - 1] as int) == self.relinked(req) && cell_in_bounds(
                    m2,
                    f[k - 1] as int,
                )
                &&& self.keeps_remainder(req) ==> cell_at(m2, fo + req) == self.rest_cell(req)
                    && cell_in_bounds(m2, fo + req)
            }),
    {
        let m = self.mem@;
        let m1 = self.mem_unlinked(req);
        let m2 = self.mem_allocated(req);
        let f = self.free_chain@;
        let l = self.live_chain@;
        let k = self.first_fit(req);
        let fo = self.pick(req);
        lemma_first_at_least_found(self.free_sizes(), req);
        assert(in_chains(f, l, f[k]));
        self.lemma_chain_member(f[k]);
        assert(self.chosen_size(req) == size_at(m, fo));
        if k > 0 {
            let po = f[k - 1];
            assert(in_chains(f, l, po));
            self.lemma_chain_member(po);
            lemma_cell_at_fits(m, po as int);
            lemma_cell_at_fits(m, fo);
            lemma_header_round_trip(m, po as int, self.relinked(req));
            lemma_splice_outside(m, po as int, header_bytes(self.relinked(req)));
            assert(po != fo);
            lemma_apart(m, f, l, fo as usize, po);
            lemma_frame_apart(m, m1, po as int, po + CELL_HEADER_SIZE, fo, po as int);
        }
        assert forall|x: usize|
            #![trigger in_chains(f, l, x)]
            in_chains(f, l, x) && (k == 0 || x != f[k - 1]) implies cell_at(m1, x as int) == cell_at(
            m,
            x as int,
        ) && cell_in_bounds(m1, x as int) && key_bytes(m1, x as int) == key_bytes(m, x as int)
            && payload_bytes(m1, x as int) == payload_bytes(m, x as int) by {
            self.lemma_chain_member(x);
            if k > 0 {
                let po = f[k - 1];
                assert(in_chains(f, l, po));
                lemma_apart(m, f, l, x, po);
                lemma_frame_apart(m, m1, po as int, po + CELL_HEADER_SIZE, x as int, po as int);
            }
        }
        if self.keeps_remainder(req) {
            let r = fo + req;
            lemma_cell_at_fits(m, fo);
            if k > 0 {
                reveal(chain_linked);
                assert(cell_in_bounds(m, f[0] as int));
            }
            lemma_header_round_trip(m1, r, self.rest_cell(req));
            lemma_splice_outside(m1, r, header_bytes(self.rest_cell(req)));
            assert forall|x: usize|
                #![trigger in_chains(f, l, x)]
                in_chains(f, l, x) && x != fo && (k == 0 || x != f[k - 1]) implies cell_at(
                m2,
                x as int,
            ) == cell_at(m1, x as int) && cell_in_bounds(m2, x as int) && key_bytes(m2, x as int)
                == key_bytes(m1, x as int) && payload_bytes(m2, x as int) == payload_bytes(
                m1,
                x as int,
            ) by {
                self.lemma_chain_member(x);
                assert(in_chains(f, l, fo as usize));
                lemma_apart(m, f, l, x, fo as usize);
                lemma_frame_apart(m1, m2, r, r + CELL_HEADER_SIZE, x as int, fo);
            }
            if k > 0 {
                let po = f[k - 1];
                assert(in_chains(f, l, fo as usize));
                lemma_apart(m, f, l, po, fo as usize);
                lemma_frame_apart(m1, m2, r, r + CELL_HEADER_SIZE, po as int, fo);
            }
        }
    }

    /// The free chain once `req` bytes are allocated, as a set of offsets:
    /// the old cells but the picked one, and the rest when it is kept.
    proof fn lemma_allocate_members(&self, f2: Seq<usize>, req: int, a: usize)
        requires
            self.wf(),
            0 <= req,
            self.first_fit(req) < self.free_chain@.len(),
            f2 == self.free_offsets_after(req),
            in_chains(f2, self.live_chain@, a),
        ensures
            (self.keeps_remainder(req) && a == self.pick(req) + req) || (in_chains(
                self.free_chain@,
                self.live_chain@,
                a,
            ) && a != self.pick(req)),
    {
        let f = self.free_chain@;
        let l = self.live_chain@;
        let k = self.first_fit(req);
        let g = f.remove(k);
        lemma_first_at_least_found(self.free_sizes(), req);
        assert(in_chains(f, self.live_chain@, f[k]));
        self.lemma_chain_member(f[k]);
        if f2.contains(a) {
            let i = choose|i: int| 0 <= i < f2.len() && f2[i] == a;
            if !(self.keeps_remainder(req) && i == 0) {
                let i2 = if self.keeps_remainder(req) { i - 1 } else { i };
                assert(a == g[i2]);
                let j = if i2 < k { i2 } else { i2 + 1 };
                assert(a == f[j]);
                assert(f.contains(a));
                assert(j != k);
            }
        }
    }

    proof fn lemma_allocate_wf(&self, p1: LinkedPage, req: int)
        requires
            self.wf(),
            0 <= req,
            self.can_allocate(req),
            p1.mem@ == self.mem_allocated(req),
            p1.first_free_cell_offset == (if self.keeps_remainder(req) {
                Some((self.pick(req) + req) as usize)
            } else {
                self.head_unlinked(req)
            }),
            p1.free_chain@ == self.free_offsets_after(req),
            p1.live_chain@ == self.live_chain@,
            p1.first_cell_offset == self.first_cell_offset,
            p1.untracked@ == self.untracked@ + req + self.lost_slack(req),
        ensures
            p1.wf(),
            p1.body().len() == self.body().len(),
            p1.free_sizes() == self.free_sizes_after(req),
            decoded(p1.body(), p1.live_offsets()) == decoded(self.body(), self.live_offsets()),
            p1.live_entries() == self.live_entries(),
            p1.reserved(self.pick(req), req),
    {
        let m = self.mem@;
        let m2 = p1.mem@;
        let f = self.free_chain@;
        let l = self.live_chain@;
        let k = self.first_fit(req);
        let fo = self.pick(req);
        let g = f.remove(k);
        let f2 = p1.free_chain@;
        let keeps = self.keeps_remainder(req);
        let r = fo + req;
        lemma_first_at_least_found(self.free_sizes(), req);
        self.lemma_allocate_cells(req);
        assert(in_chains(f, l, f[k]));
        self.lemma_chain_member(f[k]);
        assert(self.chosen_size(req) == size_at(m, fo));
        if k > 0 {
            assert(in_chains(f, l, f[k - 1]));
            self.lemma_chain_member(f[k - 1]);
        }
        // the old cells but the picked one keep their size and bounds
        assert forall|x: usize|
            #![trigger in_chains(f, l, x)]
            in_chains(f, l, x) && x != fo implies size_at(m2, x as int) == size_at(m, x as int)
            && cell_in_bounds(m2, x as int) by {
            self.lemma_chain_member(x);
        }
        // the free chain
        assert forall|i: int|
            0 <= i < f.len() && i != k && i != k - 1 implies #[trigger] cell_at(m2, f[i] as int)
            == cell_at(m, f[i] as int) && cell_in_bounds(m2, f[i] as int) by {
            assert(in_chains(f, l, f[i]));
            assert(f[i] != f[k]);
            if k > 0 {
                assert(f[i] != f[k - 1]);
            }
        }
        lemma_remove_linked(m, m2, self.first_free_cell_offset, f, k, self.head_unlinked(req));
        if keeps {
            lemma_push_front_linked(m2, self.head_unlinked(req), g, r as usize);
        }
        // the live chain
        assert forall|i: int| 0 <= i < l.len() implies #[trigger] cell_at(m2, l[i] as int)
            == cell_at(m, l[i] as int) && cell_in_bounds(m2, l[i] as int) && key_bytes(m2, l[i] as int)
            == key_bytes(m, l[i] as int) && payload_bytes(m2, l[i] as int) == payload_bytes(
            m,
            l[i] as int,
        ) by {
            assert(in_chains(f, l, l[i]));
            assert(f.contains(f[k]));
            assert(l[i] != f[k]);
            if k > 0 {
                assert(l[i] != f[k - 1]);
            }
        }
        lemma_chain_same(m, m2, self.first_cell_offset, l);
        assert(decoded(m2, l) =~= decoded(m, l));
        assert(entries(m2, l) =~= entries(m, l));
        assert(sizes(m2, l) =~= sizes(m, l));
        // sizes of the free chain
        assert forall|i: int| 0 <= i < g.len() implies g[i] != fo && in_chains(f, l, #[trigger] g[i]) by {
            let j = if i < k { i } else { i + 1 };
            assert(g[i] == f[j]);
            assert(f.contains(f[j]));
        }
        assert(sizes(m2, g) =~= sizes(m, f).remove(k));
        lemma_sum_remove(sizes(m, f), k);
        if keeps {
            assert(sizes(m2, f2) =~= sizes(m2, g).insert(0, self.extra(req)));
            lemma_sum_insert(sizes(m2, g), 0, self.extra(req));
            assert(self.free_sizes_after(req) =~= sizes(m2, f2));
        } else {
            assert(self.free_sizes_after(req) =~= sizes(m2, f2));
        }
        // no duplicates, and the chains stay disjoint
        assert forall|i: int, j: int| 0 <= i < g.len() && 0 <= j < g.len() && i != j implies g[i]
            != g[j] by {
            let i1 = if i < k { i } else { i + 1 };
            let j1 = if j < k { j } else { j + 1 };
            assert(g[i] == f[i1] && g[j] == f[j1]);
        }
        assert forall|i: int, j: int| 0 <= i < g.len() && 0 <= j < l.len() implies g[i] != l[j] by {
            let i1 = if i < k { i } else { i + 1 };
            assert(g[i] == f[i1]);
        }
        if keeps {
            assert forall|x: usize| #[trigger] in_chains(f, l, x) && x != fo implies x != r by {
                self.lemma_chain_member(x);
                assert(in_chains(f, l, fo as usize));
                lemma_apart(m, f, l, x, fo as usize);
            }
            assert forall|i: int| 0 <= i < g.len() implies #[trigger] g[i] != r by {
                assert(in_chains(f, l, g[i]));
            }
            assert forall|j: int| 0 <= j < l.len() implies #[trigger] l[j] != r by {
                assert(in_chains(f, l, l[j]));
                assert(f.contains(f[k]));
            }
            assert forall|i: int, j: int|
                0 <= i < f2.len() && 0 <= j < f2.len() && i != j implies f2[i] != f2[j] by {
                if i > 0 {
                    assert(f2[i] == g[i - 1]);
                }
                if j > 0 {
                    assert(f2[j] == g[j - 1]);
                }
            }
            assert forall|i: int, j: int| 0 <= i < f2.len() && 0 <= j < l.len() implies f2[i]
                != l[j] by {
                if i > 0 {
                    assert(f2[i] == g[i - 1]);
                }
            }
        }
        // cells stay apart
        assert(all_apart(m2, f2, l)) by {
            reveal(all_apart);
            assert forall|a: usize, b: usize|
                #![trigger in_chains(f2, l, a), in_chains(f2, l, b)]
                in_chains(f2, l, a) && in_chains(f2, l, b) && a != b implies apart(
                m2,
                a as int,
                b as int,
            ) by {
                self.lemma_allocate_members(f2, req, a);
                self.lemma_allocate_members(f2, req, b);
                assert(in_chains(f, l, fo as usize));
                if in_chains(f, l, a) && a != fo {
                    lemma_apart(m, f, l, a, fo as usize);
                }
                if in_chains(f, l, b) && b != fo {
                    lemma_apart(m, f, l, b, fo as usize);
                }
                if in_chains(f, l, a) && a != fo && in_chains(f, l, b) && b != fo {
                    lemma_apart(m, f, l, a, b);
                }
            }
        }
        // the allocated bytes overlap no cell
        assert forall|x: usize| #[trigger] in_chains(f2, l, x) implies x + size_at(m2, x as int) <= fo
            || fo + req <= x by {
            self.lemma_allocate_members(f2, req, x);
            assert(in_chains(f, l, fo as usize));
            if in_chains(f, l, x) && x != fo {
                lemma_apart(m, f, l, x, fo as usize);
            }
        }
        self.lemma_accounting();
    }

    proof fn lemma_in_chain_bounds(&self, x: usize)
        requires
            self.wf(),
            in_chains(self.free_chain@, self.live_chain@, x),
        ensures
            cell_in_bounds(self.mem@, x as int),
    {
        reveal(chain_linked);
        if self.free_chain@.contains(x) {
            let i = choose|i: int| 0 <= i < self.free_chain@.len() && self.free_chain@[i] == x;
            assert(cell_in_bounds(self.mem@, self.free_chain@[i] as int));
        } else {
            let i = choose|i: int| 0 <= i < self.live_chain@.len() && self.live_chain@[i] == x;
            assert(cell_in_bounds(self.mem@, self.live_chain@[i] as int));
        }
    }
}


/// Copies `src` into `mem` from `at` on.
fn write_bytes(mem: &mut Vec<u8>, at: usize, src: &[u8])
    requires
        at + src@.len() <= old(mem)@.len(),
    ensures
        final(mem)@ == splice(old(mem)@, at as int, src@),
        final(mem)@.len() == old(mem)@.len(),
{
    let ghost m0 = mem@;
    let len = mem.len();
    let mut i: usize = 0;
    while i < src.len()
        invariant
            at + src@.len() <= len,
            len == mem@.len(),
            mem@.len() == m0.len(),
            i <= src@.len(),
            forall|k: int|
                0 <= k < m0.len() ==> mem@[k] == (if at <= k < at + i {
                    src@[k - at]
                } else {
                    m0[k]
                }),
        decreases src@.len() - i,
    {
        mem[at + i] = src[i];
        i = i + 1;
    }
    proof {
        reveal(splice);
        assert(mem@ =~= splice(m0, at as int, src@));
    }
}

impl LinkedPage {
    /// Index of `p` in the live chain.
    pub open spec fn live_index(&self, p: usize) -> int {
        choose|j: int| 0 <= j < self.live_offsets().len() && self.live_offsets()[j] == p
    }

    /// Where in the live chain a cell inserted after `after_cell` goes.
    pub open spec fn insert_pos(&self, after_cell: Option<usize>) -> int {
        match after_cell {
            Some(p) => self.live_index(p) + 1,
            None => 0,
        }
    }

    /// `next` is this page once `key` and `payload` were inserted after
    /// `after_cell`: the cell first fit picked is linked into the live chain
    /// at `insert_pos`, holding exactly the key and payload, and the free
    /// chain lost that cell, keeping its rest when large enough.
    pub open spec fn inserted_into(
        &self,
        next: LinkedPage,
        key: Seq<u8>,
        payload: Seq<u8>,
        after_cell: Option<usize>,
    ) -> bool {
        let req = total_size(key.len() as int, payload.len() as int);
        let o = self.free_offsets()[self.first_fit(req)];
        let pos = self.insert_pos(after_cell);
        &&& (after_cell matches Some(p) ==> self.live_offsets().contains(p))
        &&& self.can_allocate(req)
        &&& next.body().len() == self.body().len()
        &&& next.live_offsets() == self.live_offsets().insert(pos, o)
        &&& next.live_entries() == self.live_entries().insert(pos, (key, payload))
        &&& next.free_offsets() == self.free_offsets_after(req)
        &&& next.free_sizes() == self.free_sizes_after(req)
        &&& next.untracked() == self.untracked() + self.lost_slack(req)
        &&& cell_in_bounds(next.body(), o as int)
        &&& cell_at(next.body(), o as int) == (Cell {
            key_size: key.len() as usize,
            payload_size: payload.len() as usize,
            next_cell_offset: if pos < self.live_offsets().len() {
                Some(self.live_offsets()[pos])
            } else {
                None
            },
        })
        &&& forall|i: int|
            0 <= i < self.live_offsets().len() && i != pos - 1 ==> #[trigger] cell_at(
                next.body(),
                self.live_offsets()[i] as int,
            ) == cell_at(self.body(), self.live_offsets()[i] as int)
        &&& pos > 0 ==> cell_at(next.body(), self.live_offsets()[pos - 1] as int) == (Cell {
            next_cell_offset: Some(o),
            ..cell_at(self.body(), self.live_offsets()[pos - 1] as int)
        })
    }

    /// Whether `p` is the offset of a live cell.
    fn is_live(&self, p: usize) -> (r: bool)
        requires
            self.wf(),
        ensures
            r == self.live_offsets().contains(p),
    {
        let ghost m = self.mem@;
        let ghost c = self.live_chain@;
        let mut cur = self.first_cell_offset;
        let ghost mut i: int = 0;
        proof {
            reveal(chain_linked);
        }
        loop
            invariant
                self.wf(),
                0 <= i <= c.len(),
                m == self.mem@,
                c == self.live_chain@,
                cur == (if i < c.len() { Some(c[i]) } else { None::<usize> }),
                forall|j: int| 0 <= j < i ==> c[j] != p,
            decreases c.len() - i,
        {
            match cur {
                None => {
                    return false;
                },
                Some(o) => {
                    proof {
                        reveal(chain_linked);
                        assert(cell_in_bounds(m, c[i] as int));
                    }
                    if o == p {
                        return true;
                    }
                    match Cell::new_from_memory(self.mem.as_slice(), o) {
                        Ok(cell) => {
                            cur = cell.next_cell();
                            proof {
                                i = i + 1;
                            }
                        },
                        Err(_) => {
                            return false;
                        },
                    }
                },
            }
        }
    }

    /// Stores `key` and `payload` in a new live cell, taken from the free
    /// chain by `allocate`. With `after_cell` absent the cell becomes the
    /// head of the live chain; otherwise it is linked in right after the live
    /// cell at that offset, which then points at it.
    pub fn insert(&mut self, key: &[u8], payload: &[u8], after_cell: Option<usize>) -> (r: Result<
        (),
        StorageError,
    >)
        requires
            old(self).wf(),
        ensures
            final(self).wf(),
            final(self).body().len() == old(self).body().len(),
            ({
                let req = total_size(key@.len() as int, payload@.len() as int);
                let known = (after_cell matches Some(p) ==> old(self).live_offsets().contains(p));
                &&& r == Err::<(), StorageError>(StorageError::OutOfSpace) <==> req > old(
                    self,
                ).free_total()
                &&& r == Err::<(), StorageError>(StorageError::Fragmented) <==> req <= old(
                    self,
                ).free_total() && old(self).first_fit(req) == old(self).free_offsets().len()
                &&& r == Err::<(), StorageError>(StorageError::UnknownCell) <==> old(
                    self,
                ).can_allocate(req) && !known
                &&& r is Ok <==> known && old(self).can_allocate(req)
                &&& r is Err ==> *final(self) == *old(self)
                &&& r is Ok ==> old(self).inserted_into(*final(self), key@, payload@, after_cell)
            }),
    {
        let ghost p0 = *self;
        let ghost l = self.live_chain@;
        proof {
            self.lemma_accounting();
        }
        let key_len = key.len();
        let payload_len = payload.len();
        if key_len > usize::MAX - CELL_HEADER_SIZE || payload_len > usize::MAX - CELL_HEADER_SIZE
            - key_len {
            return Err(StorageError::OutOfSpace);
        }
        let required_size = crate::cell::cell_size(key_len, payload_len);
        // the space checks of `allocate` come first, and change nothing
        if required_size > self.free_space() {
            return Err(StorageError::OutOfSpace);
        }
        if self.find_first_fit(required_size).is_none() {
            return Err(StorageError::Fragmented);
        }
        proof {
            lemma_first_at_least_found(p0.free_sizes(), required_size as int);
        }
        match after_cell {
            Some(p) => {
                if !self.is_live(p) {
                    return Err(StorageError::UnknownCell);
                }
            },
            None => {},
        }
        let new_cell_offset = match self.allocate(required_size) {
            Err(e) => {
                proof {
                    lemma_first_at_least_found(p0.free_sizes(), required_size as int);
                }
                return Err(e);
            },
            Ok(o) => o,
        };
        let ghost p1 = *self;
        proof {
            lemma_first_at_least_found(p0.free_sizes(), required_size as int);
        }
        let ghost j: int = match after_cell {
            Some(p) => p0.live_index(p),
            None => -1,
        };
        let mut after: Option<Cell> = None;
        let next_cell_offset = match after_cell {
            Some(p) => {
                proof {
                    assert(l.contains(p));
                    assert(0 <= j < l.len() && l[j] == p);
                    assert(in_chains(p1.free_chain@, p1.live_chain@, p));
                    p1.lemma_chain_member(p);
                }
                match Cell::new_from_memory(self.mem.as_slice(), p) {
                    Ok(c) => {
                        after = Some(c);
                        c.next_cell()
                    },
                    Err(_) => {
                        return Err(StorageError::UnknownCell);
                    },
                }
            },
            None => self.first_cell_offset,
        };
        let key_at = new_cell_offset + CELL_HEADER_SIZE;
        write_bytes(&mut self.mem, key_at, key);
        write_bytes(&mut self.mem, key_at + key_len, payload);
        let new_cell = Cell::new(key_len, payload_len, next_cell_offset);
        new_cell.save(self.mem.as_mut_slice(), new_cell_offset);
        match (after_cell, after) {
            (Some(p), Some(c)) => {
                let mut relinked = c;
                relinked.set_next_cell(Some(new_cell_offset));
                relinked.save(self.mem.as_mut_slice(), p);
            },
            _ => {
                self.first_cell_offset = Some(new_cell_offset);
            },
        }
        proof {
            self.live_chain = Ghost(l.insert(j + 1, new_cell_offset));
            self.untracked = Ghost((p1.untracked@ - required_size) as nat);
            p1.lemma_insert_wf(*self, new_cell_offset, key@, payload@, j);
            assert forall|i: int| 0 <= i < l.len() implies #[trigger] cell_at(p1.mem@, l[i] as int)
                == cell_at(p0.mem@, l[i] as int) by {
                assert(decoded(p1.mem@, l)[i] == decoded(p0.mem@, l)[i]);
            }
        }
        Ok(())
    }

    /// The body once a cell with `key` and `payload` is written at `o` and
    /// linked after index `j` of the live chain (or at its head, for -1).
    spec fn mem_inserted(&self, o: int, key: Seq<u8>, payload: Seq<u8>, j: int) -> Seq<u8> {
        let m = self.mem@;
        let l = self.live_chain@;
        let ma = splice(m, o + CELL_HEADER_SIZE, key);
        let mb = splice(ma, o + CELL_HEADER_SIZE + key.len(), payload);
        let next = if j >= 0 {
            cell_at(m, l[j] as int).next_cell_offset
        } else {
            self.first_cell_offset
        };
        let c = Cell { key_size: key.len() as usize, payload_size: payload.len() as usize, next_cell_offset: next };
        let mc = splice(mb, o, header_bytes(c));
        if j >= 0 {
            let a = Cell { next_cell_offset: Some(o as usize), ..cell_at(m, l[j] as int) };
            splice(mc, l[j] as int, header_bytes(a))
        } else {
            mc
        }
    }

    proof fn lemma_insert_wf(&self, p2: LinkedPage, o: usize, key: Seq<u8>, payload: Seq<u8>, j: int)
        requires
            self.wf(),
            self.reserved(o as int, total_size(key.len() as int, payload.len() as int)),
            self.untracked@ >= total_size(key.len() as int, payload.len() as int),
            -1 <= j < self.live_chain@.len(),
            p2.mem@ == self.mem_inserted(o as int, key, payload, j),
            p2.free_chain@ == self.free_chain@,
            p2.first_free_cell_offset == self.first_free_cell_offset,
            p2.live_chain@ == self.live_chain@.insert(j + 1, o),
            p2.first_cell_offset == (if j >= 0 {
                self.first_cell_offset
            } else {
                Some(o)
            }),
            p2.untracked@ == self.untracked@ - total_size(key.len() as int, payload.len() as int),
        ensures
            p2.wf(),
            p2.body().len() == self.body().len(),
            p2.free_sizes() == self.free_sizes(),
            p2.live_entries() == self.live_entries().insert(j + 1, (key, payload)),
            cell_in_bounds(p2.mem@, o as int),
            cell_at(p2.mem@, o as int) == (Cell {
                key_size: key.len() as usize,
                payload_size: payload.len() as usize,
                next_cell_offset: if j + 1 < self.live_chain@.len() {
                    Some(self.live_chain@[j + 1])
                } else {
                    None
                },
            }),
            forall|i: int|
                0 <= i < self.live_chain@.len() && i != j ==> #[trigger] cell_at(
                    p2.mem@,
                    self.live_chain@[i] as int,
                ) == cell_at(self.mem@, self.live_chain@[i] as int),
            j >= 0 ==> cell_at(p2.mem@, self.live_chain@[j] as int) == (Cell {
                next_cell_offset: Some(o),
                ..cell_at(self.mem@, self.live_chain@[j] as int)
            }),
    {
        let m = self.mem@;
        let f = self.free_chain@;
        let l = self.live_chain@;
        let klen = key.len() as int;
        let req = total_size(klen, payload.len() as int);
        let oi = o as int;
        let ma = splice(m, oi + CELL_HEADER_SIZE, key);
        let mb = splice(ma, oi + CELL_HEADER_SIZE + klen, payload);
        let next = if j >= 0 {
            cell_at(m, l[j] as int).next_cell_offset
        } else {
            self.first_cell_offset
        };
        let c = Cell { key_size: key.len() as usize, payload_size: payload.len() as usize, next_cell_offset: next };
        let mc = splice(mb, oi, header_bytes(c));
        let md = p2.mem@;
        let l2 = l.insert(j + 1, o);
        lemma_splice_outside(m, oi + CELL_HEADER_SIZE, key);
        lemma_splice_outside(ma, oi + CELL_HEADER_SIZE + klen, payload);
        if j >= 0 {
            lemma_cell_at_fits(m, l[j] as int);
        } else if l.len() > 0 {
            reveal(chain_linked);
            assert(cell_in_bounds(m, l[0] as int));
            assert(self.first_cell_offset == Some(l[0]));
            assert(l[0] <= u32::MAX);
        } else {
            reveal(chain_linked);
            assert(self.first_cell_offset is None);
        }
        assert(m.len() <= u32::MAX);
        assert(klen <= u32::MAX && payload.len() <= u32::MAX);
        assert(next matches Some(n) ==> n <= u32::MAX);
        assert(c.fits_header());
        lemma_header_round_trip(mb, oi, c);
        lemma_splice_outside(mb, oi, header_bytes(c));
        assert forall|x: usize| #[trigger] in_chains(f, l, x) implies cell_at(mc, x as int) == cell_at(
            m,
            x as int,
        ) && cell_in_bounds(mc, x as int) && key_bytes(mc, x as int) == key_bytes(m, x as int)
            && payload_bytes(mc, x as int) == payload_bytes(m, x as int) by {
            self.lemma_chain_member(x);
            assert(in_chains(self.free_offsets(), self.live_offsets(), x));
            assert(x + size_at(m, x as int) <= oi || oi + req <= x);
            lemma_frame(m, ma, oi + CELL_HEADER_SIZE, oi + CELL_HEADER_SIZE + klen, x as int);
            lemma_frame(ma, mb, oi + CELL_HEADER_SIZE + klen, oi + req, x as int);
            lemma_frame(mb, mc, oi, oi + CELL_HEADER_SIZE, x as int);
        }
        assert(key_bytes(mc, oi) =~= key) by {
            assert forall|i: int| 0 <= i < klen implies mc[oi + CELL_HEADER_SIZE + i] == key[i] by {
                assert(ma[oi + CELL_HEADER_SIZE + i] == key[i]);
            }
        }
        assert(payload_bytes(mc, oi) =~= payload) by {
            assert forall|i: int| 0 <= i < payload.len() implies mc[oi + CELL_HEADER_SIZE + klen + i]
                == payload[i] by {
                assert(mb[oi + CELL_HEADER_SIZE + klen + i] == payload[i]);
            }
        }
        // what the last rewrite, of the cell linked before the new one, keeps
        if j >= 0 {
            let p = l[j];
            let a = Cell { next_cell_offset: Some(o), ..cell_at(m, p as int) };
            assert(in_chains(f, l, p));
            self.lemma_chain_member(p);
            lemma_cell_at_fits(m, p as int);
            lemma_header_round_trip(mc, p as int, a);
            lemma_splice_outside(mc, p as int, header_bytes(a));
            assert(md == splice(mc, p as int, header_bytes(a)));
            assert forall|x: usize| #[trigger] in_chains(f, l, x) && x != p implies cell_at(md, x as int)
                == cell_at(m, x as int) && cell_in_bounds(md, x as int) && key_bytes(md, x as int)
                == key_bytes(m, x as int) && payload_bytes(md, x as int) == payload_bytes(m, x as int) by {
                self.lemma_chain_member(x);
                lemma_apart(m, f, l, x, p);
                lemma_frame_apart(mc, md, p as int, p + CELL_HEADER_SIZE, x as int, p as int);
            }
            assert(in_chains(self.free_offsets(), self.live_offsets(), p));
            assert(p + size_at(m, p as int) <= oi || oi + req <= p);
            assert(size_at(mc, oi) == req);
            lemma_frame(mc, md, p as int, p + CELL_HEADER_SIZE, oi);
            assert(key_bytes(md, p as int) =~= key_bytes(mc, p as int));
            assert(payload_bytes(md, p as int) =~= payload_bytes(mc, p as int));
        } else {
            assert(md == mc);
        }
        // the chains
        assert forall|i: int| 0 <= i < f.len() implies #[trigger] cell_at(md, f[i] as int) == cell_at(
            m,
            f[i] as int,
        ) && cell_in_bounds(md, f[i] as int) by {
            assert(in_chains(f, l, f[i]));
            if j >= 0 {
                assert(f[i] != l[j]);
            }
        }
        lemma_chain_same(m, md, self.first_free_cell_offset, f);
        assert forall|i: int| 0 <= i < l.len() && i != j implies #[trigger] cell_at(md, l[i] as int)
            == cell_at(m, l[i] as int) && cell_in_bounds(md, l[i] as int) by {
            assert(in_chains(f, l, l[i]));
            if j >= 0 {
                assert(l[i] != l[j]);
            }
        }
        lemma_insert_linked(m, md, self.first_cell_offset, l, j, o, p2.first_cell_offset);
        assert(next == (if j + 1 < l.len() {
            Some(l[j + 1])
        } else {
            None::<usize>
        })) by {
            reveal(chain_linked);
        }
        // the new offset is in neither chain
        assert forall|x: usize| #[trigger] in_chains(f, l, x) implies x != o by {
            self.lemma_chain_member(x);
            assert(in_chains(self.free_offsets(), self.live_offsets(), x));
        }
        assert forall|i: int| 0 <= i < l.len() implies #[trigger] l[i] != o by {
            assert(in_chains(f, l, l[i]));
        }
        assert forall|i: int| 0 <= i < f.len() implies #[trigger] f[i] != o by {
            assert(in_chains(f, l, f[i]));
        }
        assert forall|i: int, k: int| 0 <= i < l2.len() && 0 <= k < l2.len() && i != k implies l2[i]
            != l2[k] by {
            if i != j + 1 && k != j + 1 {
                let i1 = if i <= j { i } else { i - 1 };
                let k1 = if k <= j { k } else { k - 1 };
                assert(l2[i] == l[i1] && l2[k] == l[k1]);
            } else if i == j + 1 {
                let k1 = if k <= j { k } else { k - 1 };
                assert(l2[k] == l[k1]);
            } else {
                let i1 = if i <= j { i } else { i - 1 };
                assert(l2[i] == l[i1]);
            }
        }
        assert forall|i: int, k: int| 0 <= i < f.len() && 0 <= k < l2.len() implies f[i] != l2[k] by {
            if k != j + 1 {
                let k1 = if k <= j { k } else { k - 1 };
                assert(l2[k] == l[k1]);
            }
        }
        // sizes of the old cells stay
        assert forall|x: usize| #[trigger] in_chains(f, l, x) implies size_at(md, x as int) == size_at(
            m,
            x as int,
        ) && cell_in_bounds(md, x as int) by {}
        assert forall|x: usize| #[trigger] in_chains(f, l2, x) implies x == o || in_chains(f, l, x) by {
            if l2.contains(x) && !f.contains(x) {
                let i = choose|i: int| 0 <= i < l2.len() && l2[i] == x;
                if i != j + 1 {
                    let i1 = if i <= j { i } else { i - 1 };
                    assert(l2[i] == l[i1]);
                    assert(l.contains(x));
                }
            }
        }
        assert(size_at(md, oi) == req);
        assert(all_apart(md, f, l2)) by {
            reveal(all_apart);
            assert forall|a: usize, b: usize|
                #![trigger in_chains(f, l2, a), in_chains(f, l2, b)]
                in_chains(f, l2, a) && in_chains(f, l2, b) && a != b implies apart(
                md,
                a as int,
                b as int,
            ) by {
                if a != o && b != o {
                    lemma_apart(m, f, l, a, b);
                }
            }
        }
        // totals and contents
        assert(sizes(md, f) =~= sizes(m, f));
        assert(sizes(md, l2) =~= sizes(m, l).insert(j + 1, req)) by {
            assert forall|i: int| 0 <= i < l2.len() && i != j + 1 implies #[trigger] sizes(md, l2)[i]
                == sizes(m, l).insert(j + 1, req)[i] by {
                let i1 = if i <= j { i } else { i - 1 };
                assert(l2[i] == l[i1]);
                assert(in_chains(f, l, l[i1]));
            }
        }
        lemma_sum_insert(sizes(m, l), j + 1, req);
        assert(entries(md, l2) =~= entries(m, l).insert(j + 1, (key, payload))) by {
            assert forall|i: int| 0 <= i < l2.len() && i != j + 1 implies #[trigger] entries(md, l2)[i]
                == entries(m, l).insert(j + 1, (key, payload))[i] by {
                let i1 = if i <= j { i } else { i - 1 };
                assert(l2[i] == l[i1]);
                assert(in_chains(f, l, l[i1]));
            }
        }
        self.lemma_accounting();
    }
}

/// A successful insert keeps allocated plus free space equal to the body,
/// provided it was so before and first fit leaves no rest too small to
/// hold a header (such a rest is lost).
pub proof fn lemma_insert_accounting(
    p: LinkedPage,
    q: LinkedPage,
    key: Seq<u8>,
    payload: Seq<u8>,
    after_cell: Option<usize>,
)
    requires
        p.wf(),
        q.wf(),
        p.inserted_into(q, key, payload, after_cell),
        p.live_total() + p.free_total() == p.body().len(),
        p.lost_slack(total_size(key.len() as int, payload.len() as int)) == 0,
    ensures
        q.live_total() + q.free_total() == q.body().len(),
{
    p.lemma_accounting();
    q.lemma_accounting();
}

/// The cell a successful insert creates reads back as exactly the key and
/// payload given.
pub proof fn lemma_insert_round_trip(
    p: LinkedPage,
    q: LinkedPage,
    key: Seq<u8>,
    payload: Seq<u8>,
    after_cell: Option<usize>,
)
    requires
        p.wf(),
        p.inserted_into(q, key, payload, after_cell),
    ensures
        0 <= p.insert_pos(after_cell) < q.live_offsets().len(),
        key_bytes(q.body(), q.live_offsets()[p.insert_pos(after_cell)] as int) == key,
        payload_bytes(q.body(), q.live_offsets()[p.insert_pos(after_cell)] as int) == payload,
{
    let pos = p.insert_pos(after_cell);
    if let Some(a) = after_cell {
        assert(p.live_offsets().contains(a));
    }
    assert(q.live_entries()[pos] == (key, payload));
}

/// On a page whose free space is one cell, a key and payload whose cell
/// takes exactly that space fit, and inserting them leaves no free space.
pub proof fn lemma_exact_fit(
    p: LinkedPage,
    q: LinkedPage,
    key: Seq<u8>,
    payload: Seq<u8>,
    after_cell: Option<usize>,
)
    requires
        p.wf(),
        p.free_offsets().len() == 1,
        total_size(key.len() as int, payload.len() as int) == p.free_total(),
    ensures
        p.can_allocate(total_size(key.len() as int, payload.len() as int)),
        p.inserted_into(q, key, payload, after_cell) ==> q.free_total() == 0,
{
    let req = total_size(key.len() as int, payload.len() as int);
    let s = p.free_sizes();
    reveal_with_fuel(sum, 2);
    assert(s.drop_last() =~= Seq::<int>::empty());
    lemma_first_at_least(s, req, 0);
    assert(s.remove(0) =~= Seq::<int>::empty());
}

/// When free space suffices in total but no single free cell is large
/// enough, nothing can be allocated: `allocate` and `insert` report
/// `Fragmented` and leave the page as it was.
pub proof fn lemma_fragmented(p: LinkedPage, req: int)
    requires
        p.wf(),
        req <= p.free_total(),
        forall|i: int| 0 <= i < p.free_sizes().len() ==> p.free_sizes()[i] < req,
    ensures
        !p.can_allocate(req),
        p.first_fit(req) == p.free_offsets().len(),
{
    lemma_first_at_least(p.free_sizes(), req, p.free_sizes().len() as int);
}

/// Each live cell's stored next offset is the offset of the cell after it in
/// the live chain; the last one stores none.
pub proof fn lemma_live_links(p: LinkedPage, i: int)
    requires
        p.wf(),
        0 <= i < p.live_offsets().len(),
    ensures
        cell_at(p.body(), p.live_offsets()[i] as int).next_cell_offset == (if i + 1 < p.live_offsets().len() {
            Some(p.live_offsets()[i + 1])
        } else {
            None
        }),
{
    reveal(chain_linked);
}

/// An insert at the head makes the new cell the head of the live chain,
/// pointing at the cell that was the head before.
pub proof fn lemma_head_insert_links(p: LinkedPage, q: LinkedPage, key: Seq<u8>, payload: Seq<u8>)
    requires
        p.wf(),
        q.wf(),
        p.inserted_into(q, key, payload, None),
    ensures
        q.live_offsets()[0] == p.free_offsets()[p.first_fit(
            total_size(key.len() as int, payload.len() as int),
        )],
        cell_at(q.body(), q.live_offsets()[0] as int).next_cell_offset == (if p.live_offsets().len()
            > 0 {
            Some(p.live_offsets()[0])
        } else {
            None
        }),
{
    lemma_live_links(q, 0);
    if p.live_offsets().len() > 0 {
        assert(q.live_offsets()[1] == p.live_offsets()[0]);
    }
}

/// Every cell of either chain of a well-formed page lies inside its body,
/// so decoding at its offset succeeds.
pub proof fn lemma_chains_in_bounds(p: LinkedPage)
    requires
        p.wf(),
    ensures
        forall|i: int|
            0 <= i < p.live_offsets().len() ==> cell_in_bounds(p.body(), #[trigger] p.live_offsets()[i] as int),
        forall|i: int|
            0 <= i < p.free_offsets().len() ==> cell_in_bounds(p.body(), #[trigger] p.free_offsets()[i] as int),
{
    reveal(chain_linked);
}

} // verus!

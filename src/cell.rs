//! The cell codec: one variable-length record (header, key, payload) at an
//! arbitrary offset of a byte buffer.
//!
//! The header always takes `CELL_HEADER_SIZE` bytes: key size, payload size
//! (both big-endian `u32`), a presence byte (1 when a next offset follows,
//! 0 otherwise) and a big-endian `u32` next offset. When there is no next
//! offset the four trailing bytes are still reserved and are written as zero.
use crate::bytes::{be_bytes, be_u32_at, lemma_be_round_trip, read_be_u32, splice, write_be_u32};
use crate::error::StorageError;
use vstd::prelude::*;

verus! {

pub const CELL_HEADER_SIZE: usize = 4 + 4 + 1 + 4;

/// The decoded header of a cell. Free and live cells share this encoding;
/// for a free cell only the total size matters.
#[derive(Clone, Copy, Debug, PartialEq, Eq, Structural)]
pub struct Cell {
    pub key_size: usize,
    pub payload_size: usize,
    pub next_cell_offset: Option<usize>,
}

/// Header plus key plus payload.
pub open spec fn total_size(key_size: int, payload_size: int) -> int {
    key_size + payload_size + CELL_HEADER_SIZE
}

/// The presence byte of a next offset.
pub open spec fn flag_byte(next: Option<usize>) -> u8 {
    if next is Some { 1 } else { 0 }
}

/// The next offset as it is written: zero when absent.
pub open spec fn next_word(next: Option<usize>) -> u32 {
    match next {
        Some(n) => n as u32,
        None => 0,
    }
}

/// The header bytes of `c`, as the encoder writes them.
pub open spec fn header_bytes(c: Cell) -> Seq<u8> {
    be_bytes(c.key_size as u32) + be_bytes(c.payload_size as u32) + seq![flag_byte(c.next_cell_offset)]
        + be_bytes(next_word(c.next_cell_offset))
}

/// The header that the bytes at `o` in `m` describe.
#[verifier::opaque]
pub open spec fn cell_at(m: Seq<u8>, o: int) -> Cell {
    Cell {
        key_size: be_u32_at(m, o) as usize,
        payload_size: be_u32_at(m, o + 4) as usize,
        next_cell_offset: if m[o + 8] != 0 {
            Some(be_u32_at(m, o + 9) as usize)
        } else {
            None
        },
    }
}

/// The header at `o` lies in `m`, and so does the whole cell it describes.
pub open spec fn cell_in_bounds(m: Seq<u8>, o: int) -> bool {
    &&& 0 <= o
    &&& o + CELL_HEADER_SIZE <= m.len()
    &&& o + cell_at(m, o).spec_size() <= m.len()
}

/// The key bytes of the cell at `o`.
pub open spec fn key_bytes(m: Seq<u8>, o: int) -> Seq<u8> {
    let start = o + CELL_HEADER_SIZE;
    m.subrange(start, start + cell_at(m, o).key_size)
}

/// The payload bytes of the cell at `o`.
pub open spec fn payload_bytes(m: Seq<u8>, o: int) -> Seq<u8> {
    let start = o + CELL_HEADER_SIZE + cell_at(m, o).key_size;
    m.subrange(start, start + cell_at(m, o).payload_size)
}

impl Cell {
    pub open spec fn spec_size(self) -> int {
        total_size(self.key_size as int, self.payload_size as int)
    }

    /// Every field can be written in the 32 bits the header gives it.
    pub open spec fn fits_header(self) -> bool {
        &&& self.key_size <= u32::MAX
        &&& self.payload_size <= u32::MAX
        &&& (self.next_cell_offset matches Some(n) ==> n <= u32::MAX)
    }
}

/// Writing a header and decoding it at the same offset gives the header back.
pub proof fn lemma_header_round_trip(m: Seq<u8>, o: int, c: Cell)
    requires
        0 <= o,
        o + CELL_HEADER_SIZE <= m.len(),
        c.fits_header(),
    ensures
        cell_at(splice(m, o, header_bytes(c)), o) == c,
        splice(m, o, header_bytes(c)).len() == m.len(),
{
    reveal(cell_at);
    reveal(splice);
    let h = header_bytes(c);
    let s = splice(m, o, h);
    assert(h.len() == 13);
    assert(s.len() == m.len());
    assert forall|i: int| 0 <= i < 13 implies s[o + i] == h[i] by {}
    lemma_be_round_trip(c.key_size as u32);
    lemma_be_round_trip(c.payload_size as u32);
    lemma_be_round_trip(next_word(c.next_cell_offset));
    assert(be_u32_at(s, o) == c.key_size as u32);
    assert(be_u32_at(s, o + 4) == c.payload_size as u32);
    assert(be_u32_at(s, o + 9) == next_word(c.next_cell_offset));
}

/// Every decoded header can be written back as it is.
pub proof fn lemma_cell_at_fits(m: Seq<u8>, o: int)
    ensures
        cell_at(m, o).fits_header(),
{
    reveal(cell_at);
}

/// The header at `o` depends on the header bytes alone.
pub proof fn lemma_cell_at_frame(m1: Seq<u8>, m2: Seq<u8>, o: int)
    requires
        0 <= o,
        o + CELL_HEADER_SIZE <= m1.len(),
        o + CELL_HEADER_SIZE <= m2.len(),
        forall|i: int| o <= i < o + CELL_HEADER_SIZE ==> m1[i] == m2[i],
    ensures
        cell_at(m1, o) == cell_at(m2, o),
{
    reveal(cell_at);
    assert(m1[o] == m2[o] && m1[o + 1] == m2[o + 1] && m1[o + 2] == m2[o + 2] && m1[o + 3] == m2[o + 3]);
    assert(m1[o + 4] == m2[o + 4] && m1[o + 5] == m2[o + 5] && m1[o + 6] == m2[o + 6] && m1[o + 7] == m2[o + 7]);
    assert(m1[o + 8] == m2[o + 8]);
    assert(m1[o + 9] == m2[o + 9] && m1[o + 10] == m2[o + 10] && m1[o + 11] == m2[o + 11] && m1[o + 12] == m2[o + 12]);
}

/// The size of a cell with the given key and payload sizes.
pub fn cell_size(key_size: usize, payload_size: usize) -> (r: usize)
    requires
        total_size(key_size as int, payload_size as int) <= usize::MAX,
    ensures
        r == total_size(key_size as int, payload_size as int),
{
    key_size + payload_size + CELL_HEADER_SIZE
}

impl Cell {
    pub fn size(&self) -> (r: usize)
        requires
            self.spec_size() <= usize::MAX,
        ensures
            r == self.spec_size(),
    {
        cell_size(self.key_size, self.payload_size)
    }

    pub fn new(key_size: usize, payload_size: usize, next_cell_offset: Option<usize>) -> (r: Cell)
        ensures
            r == (Cell { key_size, payload_size, next_cell_offset }),
    {
        Cell { key_size: key_size, payload_size: payload_size, next_cell_offset: next_cell_offset }
    }

    pub fn next_cell(&self) -> (r: Option<usize>)
        ensures
            r == self.next_cell_offset,
    {
        self.next_cell_offset
    }

    pub fn set_next_cell(&mut self, new_next: Option<usize>)
        ensures
            *final(self) == (Cell { next_cell_offset: new_next, ..*old(self) }),
    {
        self.next_cell_offset = new_next;
    }

    /// Decodes the cell at `offset`: first checks that the header fits in
    /// `mem`, then that the whole cell it describes does.
    pub fn new_from_memory(mem: &[u8], offset: usize) -> (r: Result<Cell, StorageError>)
        ensures
            match r {
                Ok(c) => cell_in_bounds(mem@, offset as int) && c == cell_at(mem@, offset as int),
                Err(e) => !cell_in_bounds(mem@, offset as int) && e == StorageError::Size,
            },
    {
        if mem.len() < CELL_HEADER_SIZE || offset > mem.len() - CELL_HEADER_SIZE {
            return Err(StorageError::Size);
        }
        let key_size = read_be_u32(mem, offset);
        let payload_size = read_be_u32(mem, offset + 4);
        let has_next = mem[offset + 8];
        let next_cell_offset = if has_next != 0 {
            Some(read_be_u32(mem, offset + 9) as usize)
        } else {
            None
        };
        proof {
            reveal(cell_at);
        }
        let room = (mem.len() - offset - CELL_HEADER_SIZE) as u64;
        if key_size as u64 + payload_size as u64 > room {
            return Err(StorageError::Size);
        }
        Ok(Cell::new(key_size as usize, payload_size as usize, next_cell_offset))
    }

    /// Writes the header at `offset`; the key and payload bytes are left as
    /// they are.
    pub fn save(&self, mem: &mut [u8], offset: usize)
        requires
            offset + CELL_HEADER_SIZE <= old(mem)@.len(),
        ensures
            final(mem)@ == splice(old(mem)@, offset as int, header_bytes(*self)),
            final(mem)@.len() == old(mem)@.len(),
    {
        proof {
            reveal(splice);
        }
        let ghost m0 = mem@;
        let len = mem.len();
        assert(offset + CELL_HEADER_SIZE <= len);
        write_be_u32(mem, offset, self.key_size as u32);
        write_be_u32(mem, offset + 4, self.payload_size as u32);
        let flag: u8 = if self.next_cell_offset.is_some() { 1 } else { 0 };
        mem[offset + 8] = flag;
        let word: u32 = match self.next_cell_offset {
            Some(n) => n as u32,
            None => 0,
        };
        write_be_u32(mem, offset + 9, word);
        assert(mem@ =~= splice(m0, offset as int, header_bytes(*self)));
    }

    pub fn key<'a>(&self, mem: &'a [u8], cell_offset: usize) -> (r: &'a [u8])
        requires
            cell_offset + CELL_HEADER_SIZE + self.key_size <= mem@.len(),
        ensures
            r@ == mem@.subrange(
                cell_offset + CELL_HEADER_SIZE,
                cell_offset + CELL_HEADER_SIZE + self.key_size,
            ),
    {
        let len = mem.len();
        assert(cell_offset + CELL_HEADER_SIZE <= len);
        let start = cell_offset + CELL_HEADER_SIZE;
        Self::range(start, self.key_size, mem)
    }

    pub fn payload<'a>(&self, mem: &'a [u8], cell_offset: usize) -> (r: &'a [u8])
        requires
            cell_offset + CELL_HEADER_SIZE + self.key_size + self.payload_size <= mem@.len(),
        ensures
            r@ == mem@.subrange(
                cell_offset + CELL_HEADER_SIZE + self.key_size,
                cell_offset + CELL_HEADER_SIZE + self.key_size + self.payload_size,
            ),
    {
        let len = mem.len();
        assert(cell_offset + CELL_HEADER_SIZE + self.key_size <= len);
        let start = cell_offset + CELL_HEADER_SIZE + self.key_size;
        Self::range(start, self.payload_size, mem)
    }

    pub fn key_mut<'a>(&self, mem: &'a mut [u8], cell_offset: usize) -> (r: &'a mut [u8])
        requires
            cell_offset + CELL_HEADER_SIZE + self.key_size <= old(mem)@.len(),
        ensures
            r@ == old(mem)@.subrange(
                cell_offset + CELL_HEADER_SIZE,
                cell_offset + CELL_HEADER_SIZE + self.key_size,
            ),
            final(mem)@ == old(mem)@.subrange(0, cell_offset + CELL_HEADER_SIZE) + final(r)@
                + old(mem)@.subrange(
                cell_offset + CELL_HEADER_SIZE + self.key_size,
                old(mem)@.len() as int,
            ),
    {
        let len = mem.len();
        assert(cell_offset + CELL_HEADER_SIZE + self.key_size <= len);
        let start = cell_offset + CELL_HEADER_SIZE;
        Self::range_mut(start, self.key_size, mem)
    }

    pub fn payload_mut<'a>(&self, mem: &'a mut [u8], cell_offset: usize) -> (r: &'a mut [u8])
        requires
            cell_offset + CELL_HEADER_SIZE + self.key_size + self.payload_size <= old(mem)@.len(),
        ensures
            r@ == old(mem)@.subrange(
                cell_offset + CELL_HEADER_SIZE + self.key_size,
                cell_offset + CELL_HEADER_SIZE + self.key_size + self.payload_size,
            ),
            final(mem)@ == old(mem)@.subrange(0, cell_offset + CELL_HEADER_SIZE + self.key_size)
                + final(r)@ + old(mem)@.subrange(
                cell_offset + CELL_HEADER_SIZE + self.key_size + self.payload_size,
                old(mem)@.len() as int,
            ),
    {
        let len = mem.len();
        assert(cell_offset + CELL_HEADER_SIZE + self.key_size + self.payload_size <= len);
        let start = cell_offset + CELL_HEADER_SIZE + self.key_size;
        Self::range_mut(start, self.payload_size, mem)
    }

    fn range<'a>(start: usize, length: usize, mem: &'a [u8]) -> (r: &'a [u8])
        requires
            start + length <= mem@.len(),
        ensures
            r@ == mem@.subrange(start as int, start + length),
    {
        let len = mem.len();
        assert(start + length <= len);
        let end = start + length;
        &mem[start..end]
    }

    fn range_mut<'a>(start: usize, length: usize, mem: &'a mut [u8]) -> (r: &'a mut [u8])
        requires
            start + length <= old(mem)@.len(),
        ensures
            r@ == old(mem)@.subrange(start as int, start + length),
            final(mem)@ == old(mem)@.subrange(0, start as int) + final(r)@ + old(mem)@.subrange(
                start + length,
                old(mem)@.len() as int,
            ),
    {
        let (_, tail) = mem.split_at_mut(start);
        let (middle, _) = tail.split_at_mut(length);
        middle
    }
}

} // verus!

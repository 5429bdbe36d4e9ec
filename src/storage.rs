//! An in-memory pool of fixed-size pages, numbered from zero in order of
//! creation.
use vstd::prelude::*;

verus! {

/// Bytes in each page of the pool.
pub const PAGE_SIZE: usize = 4096;

pub struct MemoryStorage {
    pages: Vec<Vec<u8>>,
    npages: u32,
}

impl MemoryStorage {
    /// The contents of the pages, indexed by page number.
    pub closed spec fn pages(&self) -> Seq<Seq<u8>> {
        self.pages@.map_values(|p: Vec<u8>| p@)
    }

    pub closed spec fn wf(&self) -> bool {
        self.pages@.len() == self.npages
    }

    pub fn new() -> (r: MemoryStorage)
        ensures
            r.wf(),
            r.pages() == Seq::<Seq<u8>>::empty(),
    {
        let r = MemoryStorage { pages: Vec::new(), npages: 0 };
        proof {
            assert(r.pages() =~= Seq::<Seq<u8>>::empty());
        }
        r
    }

    pub fn num_pages(&self) -> (r: u32)
        requires
            self.wf(),
        ensures
            r == self.pages().len(),
    {
        self.npages
    }

    /// Adds a zeroed page and returns its number.
    pub fn create(&mut self) -> (r: u32)
        requires
            old(self).wf(),
            old(self).pages().len() < u32::MAX,
        ensures
            final(self).wf(),
            r == old(self).pages().len(),
            final(self).pages() == old(self).pages().push(Seq::new(PAGE_SIZE as nat, |i: int| 0u8)),
    {
        let page_num = self.npages;
        self.npages = self.npages + 1;
        let new_page: Vec<u8> = vec![0u8; PAGE_SIZE];
        assert(new_page@ =~= Seq::new(PAGE_SIZE as nat, |i: int| 0u8));
        self.pages.push(new_page);
        proof {
            assert(self.pages() =~= old(self).pages().push(Seq::new(PAGE_SIZE as nat, |i: int| 0u8)));
        }
        page_num
    }

    /// The page numbered `num`.
    pub fn checkout(&self, num: u32) -> (r: &[u8])
        requires
            self.wf(),
            num < self.pages().len(),
        ensures
            r@ == self.pages()[num as int],
    {
        self.pages[num as usize].as_slice()
    }

    /// The page numbered `num`, for writing; the other pages stay as they are.
    pub fn checkout_mut(&mut self, num: u32) -> (r: &mut [u8])
        requires
            old(self).wf(),
            num < old(self).pages().len(),
        ensures
            r@ == old(self).pages()[num as int],
            final(self).wf(),
            final(self).pages() == old(self).pages().update(num as int, final(r)@),
    {
        let page = &mut self.pages[num as usize];
        page.as_mut_slice()
    }
}

} // verus!

use vstd::prelude::*;

verus! {

/// Errors reported by the cell codec and the page allocator.
#[derive(Clone, Copy, Debug, PartialEq, Eq, Structural)]
pub enum StorageError {
    /// The buffer is too small for the header or the cell it claims.
    Size,
    /// The page has less free space in total than the request needs.
    OutOfSpace,
    /// Enough free space in total, but no single free cell is large enough.
    Fragmented,
    /// The offset given is not the offset of a live cell of the page.
    UnknownCell,
    /// Allocated plus free space does not add up to the page body.
    Accounting,
}

} // verus!

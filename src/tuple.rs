//! Column types of a tuple table.
use vstd::prelude::*;

verus! {

/// The type of one column.
#[derive(Clone, Copy, Debug, PartialEq, Eq, Structural)]
pub enum TupleType {
    UnsignedInt32,
    SignedInt32,
    Float32,
    Float64,
    VarChar,
}

pub type TupleSchema = Vec<TupleType>;

} // verus!

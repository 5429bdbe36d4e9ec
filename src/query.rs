//! The shapes of queries and of their output.
use vstd::prelude::*;

verus! {

#[derive(Debug, Clone)]
pub struct Output {
    pub num_rows: usize,
    pub rows: Vec<Vec<String>>,
    pub comment: String,
}

#[derive(Debug, Clone)]
pub enum Query {
    Select,
    Insert { values: Vec<String> },
    CreateTable { types: Vec<Column> },
}

#[derive(Debug, Clone, Copy, PartialEq, Eq, Structural)]
pub enum DataType {
    FixedString { len: usize },
    I32,
}

#[derive(Debug, Clone)]
pub struct Column {
    pub name: String,
    pub data_type: DataType,
}

} // verus!

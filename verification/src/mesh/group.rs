use vstd::prelude::*;

verus! {

/// A run of consecutive entries of a mesh's triangle list.
#[derive(Debug, Copy, Clone, PartialEq, Eq, Structural)]
pub struct Group {
    pub first_index: i32,
    pub index_count: i32,
}

} // verus!

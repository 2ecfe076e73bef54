use vstd::prelude::*;

verus! {

/// Where the digits of a value live: a width of at most one digit is held
/// inline, anything wider in a heap-allocated digit sequence.
#[derive(Debug, Clone, Copy, PartialEq, Eq, Structural, Hash)]
pub enum Storage {
    /// One digit, held in place.
    Inl,
    /// Two or more digits on the heap.
    Ext,
}

} // verus!

use vstd::prelude::*;

verus! {

/// Returned when a new key finds no free slot: every slot of the table is
/// occupied by another key.
#[derive(Debug, Clone, Copy, PartialEq, Eq, Structural)]
pub struct OutOfCapacityError {
    pub capacity: usize,
}

/// Returned when a table is asked for with a capacity that is not a prime
/// number, or that is larger than the library allows.
#[derive(Debug, Clone, Copy, PartialEq, Eq, Structural)]
pub struct InvalidCapacityError {
    pub capacity: usize,
}

} // verus!

//! What the operations of both structures can fail with.

use vstd::prelude::*;

verus! {

/// Why an operation failed.
#[derive(Copy, Clone, Debug, PartialEq, Eq, Structural)]
pub enum Error {
    /// Construction with a capacity of zero.
    ZeroCapacity,
    /// Construction with a capacity that is no power of two.
    CapacityNotPowerOfTwo,
    /// Construction at address zero.
    NullPointer,
    /// Insertion into a table whose slots are all occupied.
    NoFreeSlot,
    /// Draw for a key that no occupied slot holds.
    KeyNotFound,
    /// Push onto a stack that holds `capacity` entries.
    ListFull,
    /// Draw from a stack that holds no entry.
    ListEmpty,
}

impl Error {
    /// The text that `message` returns.
    pub open spec fn text(self) -> Seq<char> {
        match self {
            Error::ZeroCapacity => "Capacity must be > 0"@,
            Error::CapacityNotPowerOfTwo => "Capacity must be a power of two"@,
            Error::NullPointer => "Pointer cannot be null"@,
            Error::NoFreeSlot => "No free slot"@,
            Error::KeyNotFound => "Key not found"@,
            Error::ListFull => "FixedList is full"@,
            Error::ListEmpty => "List is empty"@,
        }
    }

    /// A short description of the failure.
    pub fn message(&self) -> (s: &'static str)
        ensures
            s@ == self.text(),
    {
        match self {
            Error::ZeroCapacity => "Capacity must be > 0",
            Error::CapacityNotPowerOfTwo => "Capacity must be a power of two",
            Error::NullPointer => "Pointer cannot be null",
            Error::NoFreeSlot => "No free slot",
            Error::KeyNotFound => "Key not found",
            Error::ListFull => "FixedList is full",
            Error::ListEmpty => "List is empty",
        }
    }
}

} // verus!

//! The check of construction arguments that both structures share.

use vstd::prelude::*;
use vstd::arithmetic::power2::is_pow2;
use crate::error::Error;
use crate::mask::is_power_of_two;

verus! {

/// What is wrong with a structure of `capacity` slots announced at address
/// `ptr`, if anything. The capacity is looked at first.
pub open spec fn config_error(ptr: usize, capacity: usize) -> Option<Error> {
    if capacity == 0 {
        Some(Error::ZeroCapacity)
    } else if !is_pow2(capacity as int) {
        Some(Error::CapacityNotPowerOfTwo)
    } else if ptr == 0 {
        Some(Error::NullPointer)
    } else {
        None
    }
}

/// Accepts a positive power-of-two capacity at a nonzero address.
pub fn check_config(ptr: usize, capacity: usize) -> (r: Result<(), Error>)
    ensures
        config_error(ptr, capacity) is None ==> r == Ok::<(), Error>(()),
        config_error(ptr, capacity) is Some ==> r == Err::<(), Error>(
            config_error(ptr, capacity).unwrap(),
        ),
{
    if capacity == 0 {
        return Err(Error::ZeroCapacity);
    }
    if !is_power_of_two(capacity) {
        return Err(Error::CapacityNotPowerOfTwo);
    }
    if ptr == 0 {
        return Err(Error::NullPointer);
    }
    Ok(())
}

} // verus!

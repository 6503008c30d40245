//! Index arithmetic on a circular array, without division.

use vstd::prelude::*;

verus! {

/// The index `steps` slots after `from`, wrapping round at `capacity`.
pub open spec fn wrap(from: int, steps: int, capacity: int) -> int {
    if from + steps >= capacity {
        from + steps - capacity
    } else {
        from + steps
    }
}

/// How far slot `index` lies after `from`, going round.
pub open spec fn offset(index: int, from: int, capacity: int) -> int {
    if index >= from {
        index - from
    } else {
        index + capacity - from
    }
}

/// The index after `index`, wrapping round at `capacity`.
pub fn next_index(index: usize, capacity: usize) -> (next: usize)
    requires
        index < capacity,
    ensures
        next == wrap(index as int, 1, capacity as int),
        next < capacity,
{
    if index + 1 == capacity {
        0
    } else {
        index + 1
    }
}

} // verus!

//! Allocation of slots from a table of fixed capacity.

use vstd::prelude::*;

verus! {

/// The number of slots in use.
pub fn load_slot_count(count: &u32) -> (n: usize)
    ensures
        n == *count,
{
    *count as usize
}

/// Allocates the next slot. Where the table is full the count stays as it is.
pub fn try_bump_alloc(count: &mut u32, max_slots: u32) -> (r: Option<usize>)
    ensures
        match r {
            Some(i) => i == *old(count) && *old(count) < max_slots && *final(count) == *old(count)
                + 1,
            None => *old(count) >= max_slots && *final(count) == *old(count),
        },
{
    let index: u32 = *count;
    if index >= max_slots {
        return None;
    }
    *count = index + 1;
    Some(index as usize)
}

} // verus!

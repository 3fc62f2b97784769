//! Binary search over a slice.

use vstd::prelude::*;

verus! {

/// Halving search for `num` over `nums`.  The search narrows an inclusive
/// window `[low, high]` and reports whether it ever landed on `num`; a
/// report of `true` is always backed by a matching element.
pub fn binary_search(nums: &[i32], num: i32) -> (r: bool)
    requires
        nums@.len() >= 1,
    ensures
        r ==> exists|i: int| 0 <= i < nums@.len() && nums@[i] == num,
{
    let mut low: usize = 0;
    let mut high: usize = nums.len() - 1;
    let mut found = false;

    while low <= high && !found
        invariant
            nums@.len() >= 1,
            high < nums@.len(),
            found ==> exists|i: int| 0 <= i < nums@.len() && nums@[i] == num,
        ensures
            found ==> exists|i: int| 0 <= i < nums@.len() && nums@[i] == num,
        decreases high - low + (if found {
            0int
        } else {
            1int
        }),
    {
        let mid = low + (high - low) / 2;

        // A window that has shrunk to the very first element cannot narrow
        // any further without wrapping `high` below zero.
        if mid == 0 && nums[mid] != num {
            break ;
        }

        if num == nums[mid] {
            found = true;
        } else if num < nums[mid] {
            high = mid - 1;
        } else {
            low = mid + 1;
        }
    }
    found
}

} // verus!

//! Exponential search: doubles an upper bound, then binary-searches the
//! bracketed window.

use vstd::prelude::*;
use crate::binary_search::binary_search;

verus! {

/// Doubles `high` until `nums[high]` reaches `target` or runs off the end,
/// then binary-searches the window it brackets.  A report of `true` is
/// always backed by a matching element.
pub fn exponential_search(nums: &[i32], target: i32) -> (r: bool)
    requires
        nums@.len() <= usize::MAX / 2,
    ensures
        r ==> exists|i: int| 0 <= i < nums@.len() && nums@[i] == target,
{
    let size = nums.len();
    if size == 0 {
        return false;
    }

    let mut high: usize = 1;
    let mut low: usize = 0;
    while high < size && nums[high] < target
        invariant
            size == nums@.len(),
            size <= usize::MAX / 2,
            1 <= high,
            low < size,
            low < high,
            high <= 2 * size,
        decreases size - low,
    {
        low = high;
        high = high * 2;
    }

    let end = if size < high + 1 {
        size
    } else {
        high + 1
    };
    let window = &nums[low..end];
    let r = binary_search(window, target);
    proof {
        if r {
            let i = choose|i: int| 0 <= i < window@.len() && window@[i] == target;
            assert(nums@[low + i] == target);
        }
    }
    r
}

} // verus!

//! Linear scan through an unordered slice.

use vstd::prelude::*;

verus! {

/// Scans `nums` left to right and returns the index of the first
/// occurrence of `num`, or `None` when `num` does not occur at all.
pub fn sequential_search(nums: &[i32], num: i32) -> (r: Option<usize>)
    ensures
        match r {
            Some(pos) => pos < nums@.len() && nums@[pos as int] == num && forall|j: int|
                0 <= j < pos ==> nums@[j] != num,
            None => forall|j: int| 0 <= j < nums@.len() ==> nums@[j] != num,
        },
{
    let mut pos: usize = 0;
    let mut found = false;
    while pos < nums.len() && !found
        invariant
            pos <= nums@.len(),
            !found ==> forall|j: int| 0 <= j < pos ==> nums@[j] != num,
            found ==> pos < nums@.len() && nums@[pos as int] == num && forall|j: int|
                0 <= j < pos ==> nums@[j] != num,
        decreases nums@.len() - pos + (if found {
            0int
        } else {
            1int
        }),
    {
        if num == nums[pos] {
            found = true;
        } else {
            pos += 1;
        }
    }
    if found {
        Some(pos)
    } else {
        None
    }
}

} // verus!

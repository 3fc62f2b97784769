//! Linear scan through an ascending slice, stopping early once values
//! exceed the target.

use vstd::prelude::*;

verus! {

/// The slice is sorted in ascending order.
pub open spec fn sorted(s: Seq<i32>) -> bool {
    forall|i: int, j: int| 0 <= i < j < s.len() ==> s[i] <= s[j]
}

/// Scans the ascending slice `nums` left to right and returns the index of
/// the first occurrence of `num`; the scan stops as soon as a larger value
/// is seen, which in a sorted slice rules the target out.
pub fn order_sequential_search(nums: &[i32], num: i32) -> (r: Option<usize>)
    requires
        sorted(nums@),
    ensures
        match r {
            Some(pos) => pos < nums@.len() && nums@[pos as int] == num && forall|j: int|
                0 <= j < pos ==> nums@[j] != num,
            None => forall|j: int| 0 <= j < nums@.len() ==> nums@[j] != num,
        },
{
    let mut pos: usize = 0;
    let mut found = false;
    let mut stop = false;
    while pos < nums.len() && !found && !stop
        invariant
            sorted(nums@),
            pos <= nums@.len(),
            forall|j: int| 0 <= j < pos ==> nums@[j] != num,
            found ==> pos < nums@.len() && nums@[pos as int] == num,
            stop ==> pos < nums@.len() && num < nums@[pos as int],
            !(found && stop),
        decreases nums@.len() - pos + (if found || stop {
            0int
        } else {
            1int
        }),
    {
        if num == nums[pos] {
            found = true;
        } else if num < nums[pos] {
            stop = true;
        } else {
            pos += 1;
        }
    }
    if found {
        Some(pos)
    } else {
        None
    }
}

} // verus!

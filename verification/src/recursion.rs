//! Summing a slice by recursion on its tail.

use vstd::prelude::*;

verus! {

/// Sum of the values of `s`, as an unbounded integer.
pub open spec fn seq_sum(s: Seq<i32>) -> int
    decreases s.len(),
{
    if s.len() == 0 {
        0
    } else {
        s[0] + seq_sum(s.drop_first())
    }
}

/// Adds up `nums` front to back by recursion.  Every suffix sum must fit
/// in `i32`, since those are exactly the intermediate values the
/// recursion produces.
pub fn nums_sum(nums: &[i32]) -> (r: i32)
    requires
        nums@.len() >= 1,
        forall|k: int|
            0 <= k <= nums@.len() ==> i32::MIN <= #[trigger] seq_sum(nums@.skip(k)) <= i32::MAX,
    ensures
        r == seq_sum(nums@),
    decreases nums@.len(),
{
    if 1 == nums.len() {
        proof {
            assert(seq_sum(nums@.drop_first()) == 0) by {
                assert(nums@.drop_first().len() == 0);
            }
        }
        nums[0]
    } else {
        let first = nums[0];
        let rest = &nums[1..nums.len()];
        proof {
            assert(rest@ =~= nums@.skip(1));
            assert forall|k: int|
                0 <= k <= rest@.len() implies i32::MIN <= #[trigger] seq_sum(rest@.skip(k))
                <= i32::MAX by {
                assert(rest@.skip(k) =~= nums@.skip(k + 1));
            }
        }
        let s = nums_sum(rest);
        proof {
            assert(seq_sum(nums@.skip(0)) == seq_sum(nums@)) by {
                assert(nums@.skip(0) =~= nums@);
            }
            assert(seq_sum(nums@.skip(1)) == seq_sum(rest@)) by {
                assert(nums@.skip(1) =~= rest@);
            }
            assert(seq_sum(nums@) == first + seq_sum(nums@.drop_first())) by {
                assert(nums@[0] == first);
            }
            assert(nums@.drop_first() =~= nums@.skip(1));
        }
        first + s
    }
}

} // verus!

//! Interpolation search over a strictly ascending slice: the probe index is
//! estimated from the target's position between the window's end values.

use vstd::prelude::*;
use vstd::arithmetic::div_mod::*;
use vstd::arithmetic::mul::*;

verus! {

/// The slice is sorted in strictly ascending order (no duplicates).
pub open spec fn strictly_sorted(s: Seq<i32>) -> bool {
    forall|i: int, j: int| 0 <= i < j < s.len() ==> s[i] < s[j]
}

/// Narrows an inclusive window `[low, high]` by probing at an index
/// interpolated from the target's value, and reports whether the window's
/// final upper end holds `target`.  A report of `true` is always backed by
/// a matching element.
pub fn interpolation_search(nums: &[i32], target: i32) -> (r: bool)
    requires
        strictly_sorted(nums@),
        nums@.len() <= 0x7fff_ffff,
    ensures
        r ==> exists|i: int| 0 <= i < nums@.len() && nums@[i] == target,
{
    if nums.is_empty() {
        return false;
    }

    let mut low: usize = 0;
    let mut high: usize = nums.len() - 1;

    loop
        invariant
            strictly_sorted(nums@),
            nums@.len() >= 1,
            nums@.len() <= 0x7fff_ffff,
            low <= high < nums@.len(),
        ensures
            low <= high < nums@.len(),
        decreases high - low,
    {
        let low_val = nums[low];
        let high_val = nums[high];

        if high <= low || target < low_val || target > high_val {
            break ;
        }

        let diff = target as i64 - low_val as i64;
        let width = (high - low) as i64;
        let span = high_val as i64 - low_val as i64;
        proof {
            let dd = diff as int;
            let ww = width as int;
            let mm = span as int;
            assert(mm > 0);
            lemma_mul_nonnegative(dd, ww);
            lemma_mul_upper_bound(dd, 0xffff_ffff, ww, 0x7fff_ffff);
            lemma_mul_inequality(dd, mm, ww);
            lemma_div_is_ordered(0, dd * ww, mm);
            lemma_div_is_ordered(dd * ww, mm * ww, mm);
            lemma_div_multiples_vanish(ww, mm);
        }
        let offset = (diff * width / span) as usize;
        let interpolation = low + offset;

        if nums[interpolation] > target {
            proof {
                if interpolation == low {
                    assert(false);
                }
            }
            high = interpolation - 1;
        } else if nums[interpolation] < target {
            proof {
                if interpolation == high {
                    assert(false);
                }
            }
            low = interpolation + 1;
        } else {
            break ;
        }
    }

    target == nums[high]
}

} // verus!

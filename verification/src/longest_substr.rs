//! Longest strictly rising subsequence starting at a given index, by
//! plain recursion and by recursion with a memo table.

use vstd::prelude::*;

verus! {

/// The larger of two integers.
pub open spec fn max_int(a: int, b: int) -> int {
    if a > b {
        a
    } else {
        b
    }
}

/// Length of the longest rising subsequence of `nums` that starts at
/// index `i`.
pub open spec fn lis_from(nums: Seq<i32>, i: int) -> int
    decreases nums.len() - i, nums.len() + 1,
{
    if i < 0 || i >= nums.len() {
        1
    } else {
        lis_best(nums, i, i + 1)
    }
}

/// The best rising-subsequence length from `i` whose second element is at
/// position `j` or later; `1` when no later element can follow.
pub open spec fn lis_best(nums: Seq<i32>, i: int, j: int) -> int
    decreases nums.len() - i, nums.len() - j,
{
    if j >= nums.len() || j <= i || i < 0 {
        1
    } else {
        let rest = lis_best(nums, i, j + 1);
        if nums[j] > nums[i] {
            max_int(rest, lis_from(nums, j) + 1)
        } else {
            rest
        }
    }
}

/// A rising subsequence from `i` has between 1 and `len - i` elements.
pub proof fn lemma_lis_bounds(nums: Seq<i32>, i: int)
    requires
        0 <= i < nums.len(),
    ensures
        1 <= lis_from(nums, i) <= nums.len() - i,
    decreases nums.len() - i, nums.len() + 1,
{
    lemma_lis_best_bounds(nums, i, i + 1);
}

/// Every candidate length with second position at `j` or later is between
/// 1 and `len - j + 1`.
proof fn lemma_lis_best_bounds(nums: Seq<i32>, i: int, j: int)
    requires
        0 <= i < nums.len(),
        i < j,
    ensures
        1 <= lis_best(nums, i, j),
        lis_best(nums, i, j) <= max_int(1, nums.len() - j + 1),
    decreases nums.len() - i, nums.len() - j,
{
    if j < nums.len() {
        lemma_lis_best_bounds(nums, i, j + 1);
        if nums[j] > nums[i] {
            lemma_lis_bounds(nums, j);
        }
    }
}

/// Longest rising subsequence from index `i`, by trying every later
/// position as the second element and recursing.
pub fn longest_str_v1(nums: &[i32], i: u32) -> (r: u32)
    requires
        nums@.len() >= 1,
        nums@.len() <= u32::MAX,
        i < nums@.len(),
    ensures
        r == lis_from(nums@, i as int),
    decreases nums@.len() - i,
{
    if i == (nums.len() - 1) as u32 {
        return 1;
    }

    proof {
        lemma_lis_best_bounds(nums@, i as int, i as int + 1);
    }
    let mut max_len: u32 = 1;
    let mut j: u32 = i + 1;
    while (j as usize) < nums.len()
        invariant
            nums@.len() >= 1,
            nums@.len() <= u32::MAX,
            i < nums@.len() - 1,
            i < j <= nums@.len(),
            1 <= max_len,
            lis_from(nums@, i as int) == max_int(max_len as int, lis_best(nums@, i as int, j as int)),
        decreases nums@.len() - j,
    {
        if nums[j as usize] > nums[i as usize] {
            proof {
                lemma_lis_bounds(nums@, j as int);
            }
            let sub = longest_str_v1(nums, j);
            let cand = sub + 1;
            if cand > max_len {
                max_len = cand;
            }
        }
        j += 1;
    }
    proof {
        assert(lis_best(nums@, i as int, nums@.len() as int) == 1);
    }
    max_len
}

/// Longest rising subsequence from index `i`, caching every finished
/// index in `memo`.  Each cached entry must already hold the true length
/// of its index, and every entry still does on return.
pub fn longest_str_v2(nums: &[i32], i: u32, memo: &mut std::collections::HashMap<u32, u32>) -> (r:
    u32)
    requires
        nums@.len() >= 1,
        nums@.len() <= u32::MAX,
        i < nums@.len(),
        forall|k: u32|
            old(memo)@.contains_key(k) ==> old(memo)@[k] == lis_from(nums@, k as int),
    ensures
        forall|k: u32| #[trigger]
            final(memo)@.contains_key(k) ==> final(memo)@[k] == lis_from(nums@, k as int),
        r == lis_from(nums@, i as int),
    decreases nums@.len() - i,
{
    broadcast use vstd::std_specs::hash::group_hash_axioms;

    if i == (nums.len() - 1) as u32 {
        return 1;
    }

    match memo.get(&i) {
        Some(v) => {
            return *v;
        },
        None => {
        },
    }

    proof {
        lemma_lis_best_bounds(nums@, i as int, i as int + 1);
    }
    let mut max_len: u32 = 1;
    let mut j: u32 = i + 1;
    while (j as usize) < nums.len()
        invariant
            nums@.len() >= 1,
            nums@.len() <= u32::MAX,
            i < nums@.len() - 1,
            i < j <= nums@.len(),
            1 <= max_len,
            forall|k: u32| #[trigger]
                memo@.contains_key(k) ==> memo@[k] == lis_from(nums@, k as int),
            lis_from(nums@, i as int) == max_int(max_len as int, lis_best(nums@, i as int, j as int)),
        decreases nums@.len() - j,
    {
        if nums[j as usize] > nums[i as usize] {
            proof {
                lemma_lis_bounds(nums@, j as int);
            }
            let sub = longest_str_v2(nums, j, memo);
            let cand = sub + 1;
            if cand > max_len {
                max_len = cand;
            }
        }
        j += 1;
    }
    proof {
        assert(lis_best(nums@, i as int, nums@.len() as int) == 1);
    }
    memo.insert(i, max_len);
    max_len
}

} // verus!

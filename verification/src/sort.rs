//! Comparison sorts over vectors of `i32`: bubble sort (plain and with
//! early exit), merge sort, quick sort, and heap sort.  Each sort promises
//! the same two things: the result is sorted, and it holds exactly the
//! values it started with.

use vstd::prelude::*;
use vstd::seq_lib::*;

verus! {

/// The sequence is sorted in ascending order.
pub open spec fn sorted(s: Seq<i32>) -> bool {
    forall|i: int, j: int| 0 <= i < j < s.len() ==> s[i] <= s[j]
}

/// The segment `[from, to)` is sorted in ascending order.
pub open spec fn sorted_between(s: Seq<i32>, from: int, to: int) -> bool {
    forall|i: int, j: int| from <= i < j < to ==> s[i] <= s[j]
}

/// Exchanges the values at indices `i` and `j`; every other position is
/// untouched and the multiset of stored values is kept.
fn swap_at(v: &mut Vec<i32>, i: usize, j: usize)
    requires
        i < old(v)@.len(),
        j < old(v)@.len(),
    ensures
        final(v)@ == old(v)@.update(i as int, old(v)@[j as int]).update(j as int, old(v)@[i as int]),
        final(v)@.to_multiset() == old(v)@.to_multiset(),
    {
    let a = v[i];
    let b = v[j];
    v.set(i, b);
    v.set(j, a);
    proof {
        lemma_swap_multiset(old(v)@, i as int, j as int);
    }
}

/// Swapping two positions of a sequence keeps its multiset of values.
proof fn lemma_swap_multiset(s: Seq<i32>, i: int, j: int)
    requires
        0 <= i < s.len(),
        0 <= j < s.len(),
    ensures
        s.update(i, s[j]).update(j, s[i]).to_multiset() == s.to_multiset(),
{
    broadcast use to_multiset_update;

    let s1 = s.update(i, s[j]);
    assert(s1.to_multiset() == s.to_multiset().insert(s[j]).remove(s[i]));
    assert(s1.update(j, s[i]).to_multiset() == s1.to_multiset().insert(s[i]).remove(s1[j]));
    if i == j {
        assert(s.update(i, s[j]).update(j, s[i]) =~= s);
    } else {
        assert(s1[j] == s[j]);
        assert(s.to_multiset().insert(s[j]).remove(s[i]).insert(s[i]).remove(s[j])
            =~= s.to_multiset()) by {
            s.to_multiset_ensures();
            assert(s.to_multiset().count(s[i]) > 0);
            assert(s.to_multiset().count(s[j]) > 0);
        }
    }
}

/// A sequence whose every adjacent pair below `k` is ordered is sorted up
/// to `k`.
proof fn lemma_adjacent_sorted(s: Seq<i32>, k: int)
    requires
        0 <= k <= s.len(),
        forall|m: int| 0 <= m < k - 1 ==> #[trigger] s[m] <= s[m + 1],
    ensures
        sorted_between(s, 0, k),
    decreases k,
{
    if k > 1 {
        lemma_adjacent_sorted(s, k - 1);
        assert forall|i: int, j: int| 0 <= i < j < k implies s[i] <= s[j] by {
            if j == k - 1 {
                assert(s[j - 1] <= s[j]);
            }
        }
    }
}

/// Bubble sort: repeatedly floats the largest remaining value to the end.
pub fn bubble_sort(nums: &mut Vec<i32>)
    ensures
        sorted(final(nums)@),
        final(nums)@.to_multiset() == old(nums)@.to_multiset(),
{
    let n = nums.len();
    if n < 2 {
        return ;
    }

    let mut i: usize = 1;
    while i < n
        invariant
            2 <= n == nums@.len(),
            1 <= i <= n,
            nums@.to_multiset() == old(nums)@.to_multiset(),
            sorted_between(nums@, n - i as int, n as int),
            forall|a: int, b: int| 0 <= a < n - i + 1 <= b < n ==> nums@[a] <= nums@[b],
        decreases n - i,
    {
        let mut j: usize = 0;
        while j < n - i
            invariant
                2 <= n == nums@.len(),
                1 <= i < n,
                j <= n - i,
                nums@.to_multiset() == old(nums)@.to_multiset(),
                sorted_between(nums@, n - i as int, n as int),
                forall|a: int, b: int| 0 <= a < n - i + 1 <= b < n ==> nums@[a] <= nums@[b],
                forall|m: int| 0 <= m < j ==> nums@[m] <= nums@[j as int],
            decreases n - i - j,
        {
            if nums[j] > nums[j + 1] {
                swap_at(nums, j, j + 1);
            }
            j += 1;
        }
        i += 1;
    }
    proof {
        assert(sorted_between(nums@, 0, n as int));
    }
}

/// Bubble sort with an early exit: a pass that swaps nothing means the
/// values are already in order, and each pass shortens the unsorted
/// prefix by one.
pub fn bubble_sort2(nums: &mut Vec<i32>)
    requires
        old(nums)@.len() >= 1,
    ensures
        sorted(final(nums)@),
        final(nums)@.to_multiset() == old(nums)@.to_multiset(),
{
    let n = nums.len();
    let mut len: usize = n - 1;
    let mut compare = true;

    while len > 0 && compare
        invariant
            1 <= n == nums@.len(),
            len < n,
            nums@.to_multiset() == old(nums)@.to_multiset(),
            sorted_between(nums@, len as int, n as int),
            forall|a: int, b: int| 0 <= a <= len < b < n ==> nums@[a] <= nums@[b],
            !compare ==> sorted(nums@),
        decreases len + (if compare {
            1int
        } else {
            0int
        }),
    {
        compare = false;
        let mut j: usize = 0;
        while j < len
            invariant
                1 <= n == nums@.len(),
                1 <= len < n,
                j <= len,
                nums@.to_multiset() == old(nums)@.to_multiset(),
                sorted_between(nums@, len as int, n as int),
                forall|a: int, b: int| 0 <= a <= len < b < n ==> nums@[a] <= nums@[b],
                forall|m: int| 0 <= m < j ==> nums@[m] <= nums@[j as int],
                !compare ==> forall|m: int| 0 <= m < j ==> #[trigger] nums@[m] <= nums@[m + 1],
            decreases len - j,
        {
            if nums[j] > nums[j + 1] {
                swap_at(nums, j, j + 1);
                compare = true;
            }
            j += 1;
        }
        proof {
            if !compare {
                lemma_adjacent_sorted(nums@, len as int + 1);
            }
        }
        len = len - 1;
    }
}

/// Pushing the same value on both sides keeps the merge multiset
/// equation, whichever input sequence the value is charged to.
proof fn lemma_ms_push(a: Seq<i32>, b: Seq<i32>, r: Seq<i32>, x: i32)
    requires
        r.to_multiset() == (a + b).to_multiset(),
    ensures
        r.push(x).to_multiset() == (a.push(x) + b).to_multiset(),
        r.push(x).to_multiset() == (a + b.push(x)).to_multiset(),
{
    broadcast use group_to_multiset_ensures;
    broadcast use lemma_multiset_commutative;

    assert(r.push(x).to_multiset() =~= (a.push(x) + b).to_multiset());
    assert(r.push(x).to_multiset() =~= (a + b.push(x)).to_multiset());
}

/// Merges the sorted values of `other` into the sorted `nums`, keeping
/// every value from both.
fn merge(nums: &mut Vec<i32>, other: Vec<i32>)
    requires
        sorted(old(nums)@),
        sorted(other@),
    ensures
        sorted(final(nums)@),
        final(nums)@.to_multiset() == old(nums)@.to_multiset().add(other@.to_multiset()),
        final(nums)@.len() == old(nums)@.len() + other@.len(),
{
    broadcast use group_to_multiset_ensures;
    broadcast use lemma_multiset_commutative;
    broadcast use Seq::lemma_take_succ_push;
    broadcast use Seq::lemma_take_len;

    let mut left: Vec<i32> = Vec::new();
    core::mem::swap(&mut left, nums);
    let mut i1: usize = 0;
    let mut i2: usize = 0;

    while i1 < left.len() && i2 < other.len()
        invariant
            sorted(left@),
            sorted(other@),
            i1 <= left@.len(),
            i2 <= other@.len(),
            nums@.len() == i1 + i2,
            nums@.to_multiset() == (left@.take(i1 as int) + other@.take(i2 as int)).to_multiset(),
            sorted(nums@),
            i1 < left@.len() ==> forall|k: int|
                0 <= k < nums@.len() ==> nums@[k] <= left@[i1 as int],
            i2 < other@.len() ==> forall|k: int|
                0 <= k < nums@.len() ==> nums@[k] <= other@[i2 as int],
        decreases left@.len() + other@.len() - i1 - i2,
    {
        let ghost pre = nums@;
        if left[i1] < other[i2] {
            let v = left[i1];
            nums.push(v);
            proof {
                left@.lemma_take_succ_push(i1 as int);
                lemma_ms_push(left@.take(i1 as int), other@.take(i2 as int), pre, v);
            }
            i1 += 1;
        } else {
            let v = other[i2];
            nums.push(v);
            proof {
                other@.lemma_take_succ_push(i2 as int);
                lemma_ms_push(left@.take(i1 as int), other@.take(i2 as int), pre, v);
            }
            i2 += 1;
        }
    }

    while i1 < left.len()
        invariant
            sorted(left@),
            i1 <= left@.len(),
            i2 <= other@.len(),
            i1 < left@.len() ==> i2 == other@.len(),
            nums@.len() == i1 + i2,
            nums@.to_multiset() == (left@.take(i1 as int) + other@.take(i2 as int)).to_multiset(),
            sorted(nums@),
            i1 < left@.len() ==> forall|k: int|
                0 <= k < nums@.len() ==> nums@[k] <= left@[i1 as int],
            i2 < other@.len() ==> forall|k: int|
                0 <= k < nums@.len() ==> nums@[k] <= other@[i2 as int],
        decreases left@.len() - i1,
    {
        let ghost pre = nums@;
        let v = left[i1];
        nums.push(v);
        proof {
            left@.lemma_take_succ_push(i1 as int);
            lemma_ms_push(left@.take(i1 as int), other@.take(i2 as int), pre, v);
        }
        i1 += 1;
    }

    while i2 < other.len()
        invariant
            sorted(other@),
            i1 == left@.len(),
            i2 <= other@.len(),
            nums@.len() == i1 + i2,
            nums@.to_multiset() == (left@.take(i1 as int) + other@.take(i2 as int)).to_multiset(),
            sorted(nums@),
            i2 < other@.len() ==> forall|k: int|
                0 <= k < nums@.len() ==> nums@[k] <= other@[i2 as int],
        decreases other@.len() - i2,
    {
        let ghost pre = nums@;
        let v = other[i2];
        nums.push(v);
        proof {
            other@.lemma_take_succ_push(i2 as int);
            lemma_ms_push(left@.take(i1 as int), other@.take(i2 as int), pre, v);
        }
        i2 += 1;
    }

    proof {
        assert(left@.take(left@.len() as int) == left@);
        assert(other@.take(other@.len() as int) == other@);
        assert(nums@.to_multiset().len() == nums@.len());
        assert((left@ + other@).to_multiset().len() == (left@ + other@).len());
    }
}

/// Merge sort: splits the vector in half, sorts both halves, and merges
/// them back together.
pub fn merge_sort(nums: &mut Vec<i32>)
    ensures
        sorted(final(nums)@),
        final(nums)@.to_multiset() == old(nums)@.to_multiset(),
        final(nums)@.len() == old(nums)@.len(),
    decreases old(nums)@.len(),
{
    broadcast use group_to_multiset_ensures;
    broadcast use lemma_multiset_commutative;

    if nums.len() > 1 {
        let mid = nums.len() / 2;
        let right = nums.split_off(mid);
        merge_sort(nums);
        let mut right_sorted = right;
        merge_sort(&mut right_sorted);
        proof {
            assert(old(nums)@ =~= old(nums)@.subrange(0, mid as int) + old(nums)@.subrange(
                mid as int,
                old(nums)@.len() as int,
            ));
        }
        merge(nums, right_sorted);
    }
}

/// Two sequences of the same values that agree outside a window also hold
/// the same values inside it.
proof fn lemma_ms_subrange(a: Seq<i32>, b: Seq<i32>, lo: int, hi: int)
    requires
        a.len() == b.len(),
        0 <= lo <= hi <= a.len(),
        a.to_multiset() == b.to_multiset(),
        forall|k: int| 0 <= k < lo ==> a[k] == b[k],
        forall|k: int| hi <= k < a.len() ==> a[k] == b[k],
    ensures
        a.subrange(lo, hi).to_multiset() == b.subrange(lo, hi).to_multiset(),
{
    broadcast use group_to_multiset_ensures;
    broadcast use lemma_multiset_commutative;
    broadcast use vstd::multiset::group_multiset_axioms;

    let pre = a.subrange(0, lo);
    let post = a.subrange(hi, a.len() as int);
    let mid_a = a.subrange(lo, hi);
    let mid_b = b.subrange(lo, hi);
    assert(a =~= pre + mid_a + post);
    assert(b =~= pre + mid_b + post) by {
        assert(b.subrange(0, lo) =~= pre);
        assert(b.subrange(hi, b.len() as int) =~= post);
    }
    assert((pre + mid_a + post).to_multiset() =~= pre.to_multiset().add(
        mid_a.to_multiset(),
    ).add(post.to_multiset()));
    assert((pre + mid_b + post).to_multiset() =~= pre.to_multiset().add(
        mid_b.to_multiset(),
    ).add(post.to_multiset()));
    assert(mid_a.to_multiset() =~= mid_b.to_multiset()) by {
        assert forall|v: i32| true implies mid_a.to_multiset().count(v) == mid_b.to_multiset().count(
            v,
        ) by {
            assert(a.to_multiset().count(v) == pre.to_multiset().count(v) + mid_a.to_multiset().count(
                v,
            ) + post.to_multiset().count(v));
            assert(b.to_multiset().count(v) == pre.to_multiset().count(v) + mid_b.to_multiset().count(
                v,
            ) + post.to_multiset().count(v));
            assert(a.to_multiset().count(v) == b.to_multiset().count(v));
        }
    }
}

/// Hoare partition around the value at `low`: returns the index where the
/// pivot value ends up, with everything left of it at most the pivot and
/// everything right of it at least the pivot.  Positions outside
/// `[low, high]` are untouched and the stored values are kept.
fn partition2(arr: &mut Vec<i32>, low: usize, high: usize) -> (rm: usize)
    requires
        low <= high < old(arr)@.len(),
    ensures
        low <= rm <= high,
        final(arr)@.len() == old(arr)@.len(),
        final(arr)@.to_multiset() == old(arr)@.to_multiset(),
        forall|k: int| 0 <= k < low ==> final(arr)@[k] == old(arr)@[k],
        forall|k: int| high < k < old(arr)@.len() ==> final(arr)@[k] == old(arr)@[k],
        forall|k: int| low <= k < rm ==> final(arr)@[k] <= final(arr)@[rm as int],
        forall|k: int| rm < k <= high ==> final(arr)@[k] >= final(arr)@[rm as int],
{
    let n = arr.len();
    proof {
        assert(arr@.len() <= usize::MAX);
    }
    let pivot = arr[low];
    let mut lm = low;
    let mut rm = high;

    loop
        invariant_except_break
            low <= high < arr@.len(),
            arr@.len() <= usize::MAX,
            low <= lm <= high + 1,
            low <= rm <= high,
            lm <= rm + 1,
            arr@[low as int] == pivot,
            arr@.len() == old(arr)@.len(),
            arr@.to_multiset() == old(arr)@.to_multiset(),
            forall|k: int| 0 <= k < low ==> arr@[k] == old(arr)@[k],
            forall|k: int| high < k < old(arr)@.len() ==> arr@[k] == old(arr)@[k],
            forall|k: int| low < k < lm ==> arr@[k] <= pivot,
            forall|k: int| rm < k <= high ==> arr@[k] >= pivot,
        ensures
            low <= rm < lm,
            rm <= high,
            lm <= high + 1,
            arr@[low as int] == pivot,
            arr@.len() == old(arr)@.len(),
            arr@.to_multiset() == old(arr)@.to_multiset(),
            forall|k: int| 0 <= k < low ==> arr@[k] == old(arr)@[k],
            forall|k: int| high < k < old(arr)@.len() ==> arr@[k] == old(arr)@[k],
            forall|k: int| low < k < lm ==> arr@[k] <= pivot,
            forall|k: int| rm < k <= high ==> arr@[k] >= pivot,
        decreases rm - lm + 1,
    {
        while lm <= rm && arr[lm] <= pivot
            invariant
                low <= high < arr@.len(),
                arr@.len() <= usize::MAX,
                low <= lm <= rm + 1,
                low <= rm <= high,
                arr@[low as int] == pivot,
                arr@.len() == old(arr)@.len(),
                arr@.to_multiset() == old(arr)@.to_multiset(),
                forall|k: int| 0 <= k < low ==> arr@[k] == old(arr)@[k],
                forall|k: int| high < k < old(arr)@.len() ==> arr@[k] == old(arr)@[k],
                forall|k: int| low < k < lm ==> arr@[k] <= pivot,
                forall|k: int| rm < k <= high ==> arr@[k] >= pivot,
            decreases rm + 1 - lm,
        {
            lm += 1;
        }
        proof {
            if lm == low {
                assert(false);
            }
        }
        while lm <= rm && arr[rm] >= pivot
            invariant
                low <= high < arr@.len(),
                arr@.len() <= usize::MAX,
                low + 1 <= lm <= rm + 2,
                low <= rm,
                rm <= high,
                arr@[low as int] == pivot,
                arr@.len() == old(arr)@.len(),
                arr@.to_multiset() == old(arr)@.to_multiset(),
                forall|k: int| 0 <= k < low ==> arr@[k] == old(arr)@[k],
                forall|k: int| high < k < old(arr)@.len() ==> arr@[k] == old(arr)@[k],
                forall|k: int| low < k < lm ==> arr@[k] <= pivot,
                forall|k: int| rm < k <= high ==> arr@[k] >= pivot,
            decreases rm + 1 - lm,
        {
            rm -= 1;
        }
        if lm > rm {
            break ;
        }
        swap_at(arr, lm, rm);
        lm += 1;
        rm -= 1;
    }

    proof {
        if rm > low {
            assert(arr@[rm as int] <= pivot);
        }
    }
    swap_at(arr, low, rm);
    rm
}

/// Sorts the window `[low, high]` in place by recursive partitioning.
fn quick_sort_range(arr: &mut Vec<i32>, low: usize, high: usize)
    requires
        low <= high < old(arr)@.len(),
    ensures
        final(arr)@.len() == old(arr)@.len(),
        final(arr)@.to_multiset() == old(arr)@.to_multiset(),
        forall|k: int| 0 <= k < low ==> final(arr)@[k] == old(arr)@[k],
        forall|k: int| high < k < old(arr)@.len() ==> final(arr)@[k] == old(arr)@[k],
        sorted_between(final(arr)@, low as int, high as int + 1),
    decreases high - low,
{
    broadcast use group_to_multiset_ensures;

    let p = partition2(arr, low, high);
    let ghost mid = arr@;
    let ghost pv = arr@[p as int];

    if p > low {
        quick_sort_range(arr, low, p - 1);
        proof {
            lemma_ms_subrange(arr@, mid, low as int, p as int);
            assert forall|k: int| low <= k < p implies arr@[k] <= pv by {
                let sub = arr@.subrange(low as int, p as int);
                assert(sub[k - low] == arr@[k]);
                assert(sub.to_multiset().count(arr@[k]) > 0) by {
                    assert(sub.contains(arr@[k]));
                }
                let old_sub = mid.subrange(low as int, p as int);
                assert(old_sub.to_multiset().count(arr@[k]) > 0);
                assert(old_sub.contains(arr@[k]));
                let j = choose|j: int| 0 <= j < old_sub.len() && old_sub[j] == arr@[k];
                assert(mid[low + j] == arr@[k]);
            }
        }
    }
    let ghost mid2 = arr@;
    if p < high {
        quick_sort_range(arr, p + 1, high);
        proof {
            lemma_ms_subrange(arr@, mid2, p as int + 1, high as int + 1);
            assert forall|k: int| p < k <= high implies arr@[k] >= pv by {
                let sub = arr@.subrange(p as int + 1, high as int + 1);
                assert(sub[k - p - 1] == arr@[k]);
                assert(sub.to_multiset().count(arr@[k]) > 0) by {
                    assert(sub.contains(arr@[k]));
                }
                let old_sub = mid2.subrange(p as int + 1, high as int + 1);
                assert(old_sub.to_multiset().count(arr@[k]) > 0);
                assert(old_sub.contains(arr@[k]));
                let j = choose|j: int| 0 <= j < old_sub.len() && old_sub[j] == arr@[k];
                assert(mid2[p + 1 + j] == arr@[k]);
                assert(mid2[p + 1 + j] >= pv);
            }
        }
    }
    proof {
        assert(arr@[p as int] == pv);
        assert forall|i: int, j: int| low <= i < j <= high implies arr@[i] <= arr@[j] by {
            if i < p && j < p {
            } else if i > p && j > p {
            } else if j == p {
                assert(arr@[i] <= pv);
            } else if i == p {
                assert(arr@[j] >= pv);
            } else {
                assert(arr@[i] <= pv);
                assert(arr@[j] >= pv);
            }
        }
    }
}

/// Quick sort: partitions around a pivot and sorts both sides
/// recursively.
pub fn quick_sort(arr: &mut Vec<i32>)
    ensures
        sorted(final(arr)@),
        final(arr)@.to_multiset() == old(arr)@.to_multiset(),
        final(arr)@.len() == old(arr)@.len(),
{
    if arr.len() > 1 {
        let h = arr.len() - 1;
        quick_sort_range(arr, 0, h);
    }
}

/// Index of the parent of node `idx` in the array form of a complete
/// binary tree.
pub fn parent(idx: usize) -> (r: usize)
    requires
        idx >= 1,
    ensures
        r == (idx - 1) / 2,
{
    (idx - 1) / 2
}

/// Index of the left child of node `idx`.
pub fn left_child(idx: usize) -> (r: usize)
    requires
        idx <= (usize::MAX - 1) / 2,
    ensures
        r == 2 * idx + 1,
{
    idx * 2 + 1
}

/// Index of the right child of node `idx`.
pub fn right_child(idx: usize) -> (r: usize)
    requires
        idx <= (usize::MAX - 2) / 2,
    ensures
        r == 2 * idx + 2,
{
    idx * 2 + 2
}

/// Sifts the value at `i` down within the heap prefix `[0, n)` until both
/// children are no larger.  Only positions below `n` move, and the stored
/// values are kept.
pub fn heapify(arr: &mut Vec<i32>, n: usize, i: usize)
    requires
        i < n <= old(arr)@.len(),
        old(arr)@.len() < usize::MAX / 2,
    ensures
        final(arr)@.len() == old(arr)@.len(),
        final(arr)@.to_multiset() == old(arr)@.to_multiset(),
        forall|k: int| n <= k < old(arr)@.len() ==> final(arr)@[k] == old(arr)@[k],
    decreases n - i,
{
    let mut largest = i;
    let left = left_child(i);
    let right = right_child(i);

    if left < n && arr[left] > arr[largest] {
        largest = left;
    }
    if right < n && arr[right] > arr[largest] {
        largest = right;
    }
    if largest != i {
        swap_at(arr, i, largest);
        heapify(arr, n, largest);
    }
}

/// Heap sort: builds a max-heap, then repeatedly moves the top value past
/// the shrinking heap prefix.  The stored values are kept.
pub fn heap_sort(arr: &mut Vec<i32>)
    requires
        old(arr)@.len() < usize::MAX / 2,
    ensures
        final(arr)@.len() == old(arr)@.len(),
        final(arr)@.to_multiset() == old(arr)@.to_multiset(),
{
    let len = arr.len();
    if len <= 1 {
        return ;
    }

    let mut i = parent(len - 1);
    loop
        invariant_except_break
            2 <= len == arr@.len(),
            arr@.len() == old(arr)@.len(),
            arr@.len() < usize::MAX / 2,
            i < len,
            arr@.to_multiset() == old(arr)@.to_multiset(),
        ensures
            len == arr@.len(),
            arr@.len() == old(arr)@.len(),
            arr@.len() < usize::MAX / 2,
            arr@.to_multiset() == old(arr)@.to_multiset(),
        decreases i,
    {
        heapify(arr, len, i);
        if i == 0 {
            break ;
        }
        i -= 1;
    }

    let mut j = len - 1;
    while j >= 1
        invariant
            2 <= len == arr@.len(),
            arr@.len() == old(arr)@.len(),
            arr@.len() < usize::MAX / 2,
            j < len,
            arr@.to_multiset() == old(arr)@.to_multiset(),
        decreases j,
    {
        swap_at(arr, 0, j);
        heapify(arr, j, 0);
        j -= 1;
    }
}

} // verus!

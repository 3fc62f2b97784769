//! Change-making, by plain recursion, by memoized recursion, and by a
//! bottom-up table, plus the longest rising subsequence by recursion.

use vstd::prelude::*;

verus! {

/// Some denomination equals `amount` exactly.
pub open spec fn has_coin(cashes: Seq<u32>, amount: int) -> bool {
    exists|i: int| 0 <= i < cashes.len() && cashes[i] == amount
}

/// The smaller of two integers.
pub open spec fn min_int(a: int, b: int) -> int {
    if a < b {
        a
    } else {
        b
    }
}

/// The best candidate count using only the first `j` denominations, seeded
/// with `amount` (the count when paying everything in ones).
pub open spec fn mc_best(cashes: Seq<u32>, j: int, amount: int) -> int
    decreases amount, j,
{
    if j <= 0 {
        amount
    } else {
        let rest = mc_best(cashes, j - 1, amount);
        let c = cashes[j - 1] as int;
        if 1 <= c <= amount {
            min_int(rest, 1 + mc_opt(cashes, amount - c))
        } else {
            rest
        }
    }
}

/// The number of notes handed out for `amount`: one note when a
/// denomination matches exactly, otherwise the best split over all
/// denominations, never more than `amount` itself.
pub open spec fn mc_opt(cashes: Seq<u32>, amount: int) -> int
    decreases amount, cashes.len() + 1,
{
    if amount <= 0 {
        0
    } else if has_coin(cashes, amount) {
        1
    } else {
        mc_best(cashes, cashes.len() as int, amount)
    }
}

/// The change count is positive for a positive amount and never exceeds
/// the amount.
pub proof fn lemma_mc_opt_bounds(cashes: Seq<u32>, amount: int)
    requires
        amount >= 0,
    ensures
        0 <= mc_opt(cashes, amount),
        amount >= 1 ==> 1 <= mc_opt(cashes, amount) <= amount,
    decreases amount, cashes.len() + 1,
{
    if amount >= 1 && !has_coin(cashes, amount) {
        lemma_mc_best_bounds(cashes, cashes.len() as int, amount);
    }
}

/// Every candidate count is between 1 and `amount`.
proof fn lemma_mc_best_bounds(cashes: Seq<u32>, j: int, amount: int)
    requires
        amount >= 1,
        0 <= j <= cashes.len(),
    ensures
        1 <= mc_best(cashes, j, amount) <= amount,
    decreases amount, j,
{
    if j > 0 {
        lemma_mc_best_bounds(cashes, j - 1, amount);
        let c = cashes[j - 1] as int;
        if 1 <= c <= amount {
            lemma_mc_opt_bounds(cashes, amount - c);
        }
    }
}

/// Recursive change-making: returns the note count `mc_opt` assigns to
/// `amount`.  Every denomination must be a positive value.
pub fn rec_mc1(cashes: &[u32], amount: u32) -> (r: u32)
    requires
        forall|i: int| 0 <= i < cashes@.len() ==> #[trigger] cashes@[i] >= 1,
    ensures
        r == mc_opt(cashes@, amount as int),
    decreases amount,
{
    let mut min_cashes = amount;

    let mut found = false;
    let mut i: usize = 0;
    while i < cashes.len()
        invariant
            i <= cashes@.len(),
            found == exists|k: int| 0 <= k < i && cashes@[k] == amount,
        decreases cashes@.len() - i,
    {
        if cashes[i] == amount {
            found = true;
        }
        i += 1;
    }

    if found {
        return 1;
    }

    let mut j: usize = 0;
    while j < cashes.len()
        invariant
            forall|k: int| 0 <= k < cashes@.len() ==> #[trigger] cashes@[k] >= 1,
            j <= cashes@.len(),
            !has_coin(cashes@, amount as int),
            min_cashes == mc_best(cashes@, j as int, amount as int),
            amount >= 1 ==> 1 <= min_cashes <= amount,
            amount == 0 ==> min_cashes == 0,
        decreases cashes@.len() - j,
    {
        let c = cashes[j];
        if c <= amount {
            proof {
                lemma_mc_opt_bounds(cashes@, amount as int - c as int);
            }
            let num_cashes = 1 + rec_mc1(cashes, amount - c);
            if num_cashes < min_cashes {
                min_cashes = num_cashes;
            }
        }
        j += 1;
    }
    min_cashes
}

/// The denomination the bottom-up table charges last for `amount`, using
/// only the first `j` denominations: `1` until some denomination strictly
/// improves on the running count, then the latest improving one.
pub open spec fn dp_used_best(z: int, cashes: Seq<u32>, j: int, amount: int) -> int
    decreases amount, j,
{
    if j <= 0 {
        1
    } else {
        let c = cashes[j - 1] as int;
        if 1 <= c <= amount && 1 + dp_opt(z, cashes, amount - c) < dp_best(
            z,
            cashes,
            j - 1,
            amount,
        ) {
            c
        } else {
            dp_used_best(z, cashes, j - 1, amount)
        }
    }
}

/// The denomination the bottom-up table records for `amount`.
pub open spec fn dp_used(z: int, cashes: Seq<u32>, amount: int) -> int {
    dp_used_best(z, cashes, cashes.len() as int, amount)
}

/// Bottom-up change-making that also records, for every amount, the
/// denomination charged last, so a caller can walk the `cashes_used`
/// table backwards and list the notes handed out.
pub fn dp_rec_mc_show(
    cashes: &[u32],
    amount: u32,
    min_cashes: &mut Vec<u32>,
    cashes_used: &mut Vec<u32>,
) -> (r: u32)
    requires
        forall|i: int| 0 <= i < cashes@.len() ==> #[trigger] cashes@[i] >= 1,
        old(min_cashes)@.len() > amount,
        old(cashes_used)@.len() > amount,
        old(min_cashes)@[0] < u32::MAX,
        amount < u32::MAX,
    ensures
        final(min_cashes)@.len() == old(min_cashes)@.len(),
        final(min_cashes)@[0] == old(min_cashes)@[0],
        final(cashes_used)@.len() == old(cashes_used)@.len(),
        forall|d: int|
            1 <= d <= amount ==> final(min_cashes)@[d] == dp_opt(
                old(min_cashes)@[0] as int,
                cashes@,
                d,
            ),
        forall|d: int|
            1 <= d <= amount ==> final(cashes_used)@[d] == dp_used(
                old(min_cashes)@[0] as int,
                cashes@,
                d,
            ),
        forall|d: int|
            amount < d < old(min_cashes)@.len() ==> final(min_cashes)@[d] == old(min_cashes)@[d],
        forall|d: int|
            amount < d < old(cashes_used)@.len() || d == 0 ==> final(cashes_used)@[d] == old(
                cashes_used,
            )@[d],
        r == dp_opt(old(min_cashes)@[0] as int, cashes@, amount as int),
{
    let ghost z = old(min_cashes)@[0] as int;
    let mut denm: u32 = 1;
    while denm <= amount
        invariant
            forall|i: int| 0 <= i < cashes@.len() ==> #[trigger] cashes@[i] >= 1,
            1 <= denm <= amount + 1,
            amount < u32::MAX,
            min_cashes@.len() == old(min_cashes)@.len(),
            min_cashes@.len() > amount,
            cashes_used@.len() == old(cashes_used)@.len(),
            cashes_used@.len() > amount,
            min_cashes@[0] == old(min_cashes)@[0],
            z == old(min_cashes)@[0] as int,
            z < u32::MAX,
            forall|d: int| 1 <= d < denm ==> min_cashes@[d] == dp_opt(z, cashes@, d),
            forall|d: int| 1 <= d < denm ==> cashes_used@[d] == dp_used(z, cashes@, d),
            forall|d: int|
                amount < d < old(min_cashes)@.len() ==> min_cashes@[d] == old(min_cashes)@[d],
            forall|d: int|
                amount < d < old(cashes_used)@.len() || d == 0 ==> cashes_used@[d] == old(
                    cashes_used,
                )@[d],
            forall|d: int| denm <= d <= amount ==> min_cashes@[d] == old(min_cashes)@[d],
        decreases amount + 1 - denm,
    {
        let mut min_cashes_num: u32 = denm;
        let mut used_cashes: u32 = 1;
        let mut j: usize = 0;
        while j < cashes.len()
            invariant
                forall|i: int| 0 <= i < cashes@.len() ==> #[trigger] cashes@[i] >= 1,
                1 <= denm <= amount,
                j <= cashes@.len(),
                min_cashes@.len() > amount,
                min_cashes@[0] == old(min_cashes)@[0],
                z == old(min_cashes)@[0] as int,
                z < u32::MAX,
                forall|d: int| 1 <= d < denm ==> min_cashes@[d] == dp_opt(z, cashes@, d),
                min_cashes_num == dp_best(z, cashes@, j as int, denm as int),
                used_cashes == dp_used_best(z, cashes@, j as int, denm as int),
                1 <= min_cashes_num <= denm,
            decreases cashes@.len() - j,
        {
            let c = cashes[j];
            if c <= denm {
                let index = (denm - c) as usize;
                proof {
                    if denm > c {
                        assert(min_cashes@[index as int] == dp_opt(z, cashes@, index as int));
                        lemma_dp_opt_bounds(z, cashes@, index as int);
                    } else {
                        assert(index == 0);
                        assert(min_cashes@[0] == z);
                        assert(dp_opt(z, cashes@, 0) == z);
                    }
                }
                let cashes_num = 1 + min_cashes[index];
                if cashes_num < min_cashes_num {
                    min_cashes_num = cashes_num;
                    used_cashes = c;
                }
            }
            j += 1;
        }
        min_cashes.set(denm as usize, min_cashes_num);
        cashes_used.set(denm as usize, used_cashes);
        denm += 1;
    }
    min_cashes[amount as usize]
}

/// Memoized change-making: computes the same count as `rec_mc1`, caching
/// finished amounts in the caller's table.  A table entry of `0` means
/// "not computed yet"; every non-zero entry must already hold the true
/// count of its amount, and every entry still does on return.
pub fn rec_mc2(cashes: &[u32], amount: u32, min_cashes: &mut Vec<u32>) -> (r: u32)
    requires
        forall|i: int| 0 <= i < cashes@.len() ==> #[trigger] cashes@[i] >= 1,
        old(min_cashes)@.len() > amount,
        forall|d: int|
            0 <= d <= amount ==> old(min_cashes)@[d] == 0 || old(min_cashes)@[d] == mc_opt(
                cashes@,
                d,
            ),
    ensures
        final(min_cashes)@.len() == old(min_cashes)@.len(),
        forall|d: int|
            0 <= d <= amount ==> final(min_cashes)@[d] == 0 || final(min_cashes)@[d] == mc_opt(
                cashes@,
                d,
            ),
        forall|d: int|
            amount < d < old(min_cashes)@.len() ==> final(min_cashes)@[d] == old(min_cashes)@[d],
        r == mc_opt(cashes@, amount as int),
    decreases amount,
{
    let mut found = false;
    let mut i: usize = 0;
    while i < cashes.len()
        invariant
            i <= cashes@.len(),
            found == exists|k: int| 0 <= k < i && cashes@[k] == amount,
        decreases cashes@.len() - i,
    {
        if cashes[i] == amount {
            found = true;
        }
        i += 1;
    }

    if found {
        min_cashes.set(amount as usize, 1);
        return 1;
    }

    let memo = min_cashes[amount as usize];
    if memo > 0 {
        return memo;
    }

    let mut min_cashes_num = amount;
    let mut j: usize = 0;
    while j < cashes.len()
        invariant
            forall|k: int| 0 <= k < cashes@.len() ==> #[trigger] cashes@[k] >= 1,
            j <= cashes@.len(),
            !has_coin(cashes@, amount as int),
            min_cashes@.len() == old(min_cashes)@.len(),
            min_cashes@.len() > amount,
            forall|d: int|
                0 <= d < amount ==> min_cashes@[d] == 0 || min_cashes@[d] == mc_opt(cashes@, d),
            forall|d: int|
                amount < d < old(min_cashes)@.len() ==> min_cashes@[d] == old(min_cashes)@[d],
            min_cashes@[amount as int] == 0 || min_cashes@[amount as int] == min_cashes_num,
            min_cashes_num == mc_best(cashes@, j as int, amount as int),
            amount >= 1 ==> 1 <= min_cashes_num <= amount,
            amount == 0 ==> min_cashes_num == 0,
        decreases cashes@.len() - j,
    {
        let c = cashes[j];
        if c <= amount {
            proof {
                lemma_mc_opt_bounds(cashes@, amount as int - c as int);
            }
            let cashes_num = 1 + rec_mc2(cashes, amount - c, min_cashes);
            if cashes_num < min_cashes_num {
                min_cashes_num = cashes_num;
                min_cashes.set(amount as usize, min_cashes_num);
            }
        }
        j += 1;
    }
    min_cashes_num
}

/// The best candidate count for the bottom-up table, using only the first
/// `j` denominations: like `mc_best`, except that an amount fully paid by
/// one note falls back on the table's seed entry `z` for amount `0`.
pub open spec fn dp_best(z: int, cashes: Seq<u32>, j: int, amount: int) -> int
    decreases amount, j,
{
    if j <= 0 {
        amount
    } else {
        let rest = dp_best(z, cashes, j - 1, amount);
        let c = cashes[j - 1] as int;
        if 1 <= c <= amount {
            min_int(rest, 1 + dp_opt(z, cashes, amount - c))
        } else {
            rest
        }
    }
}

/// The note count the bottom-up table assigns to `amount`, with `z` the
/// caller-provided entry for amount `0`.
pub open spec fn dp_opt(z: int, cashes: Seq<u32>, amount: int) -> int
    decreases amount, cashes.len() + 1,
{
    if amount <= 0 {
        z
    } else {
        dp_best(z, cashes, cashes.len() as int, amount)
    }
}

/// Table entries for positive amounts are between 1 and the amount.
proof fn lemma_dp_opt_bounds(z: int, cashes: Seq<u32>, amount: int)
    requires
        amount >= 1,
        z >= 0,
    ensures
        1 <= dp_opt(z, cashes, amount) <= amount,
    decreases amount, cashes.len() + 1,
{
    lemma_dp_best_bounds(z, cashes, cashes.len() as int, amount);
}

/// Every candidate in the table recurrence is between 1 and the amount.
proof fn lemma_dp_best_bounds(z: int, cashes: Seq<u32>, j: int, amount: int)
    requires
        amount >= 1,
        z >= 0,
        0 <= j <= cashes.len(),
    ensures
        1 <= dp_best(z, cashes, j, amount) <= amount,
    decreases amount, j,
{
    if j > 0 {
        lemma_dp_best_bounds(z, cashes, j - 1, amount);
        let c = cashes[j - 1] as int;
        if 1 <= c <= amount {
            if amount - c >= 1 {
                lemma_dp_opt_bounds(z, cashes, amount - c);
            } else {
                assert(dp_opt(z, cashes, amount - c) == z);
            }
        }
    }
}

/// Bottom-up change-making: fills the table entries for amounts 1 up to
/// `amount` with the counts `dp_opt` and returns the entry for `amount`.  The caller
/// supplies the table, whose entry for amount `0` seeds the recurrence;
/// entries past `amount` are left alone.
pub fn dp_rec_mc(cashes: &[u32], amount: u32, min_cashes: &mut Vec<u32>) -> (r: u32)
    requires
        forall|i: int| 0 <= i < cashes@.len() ==> #[trigger] cashes@[i] >= 1,
        old(min_cashes)@.len() > amount,
        old(min_cashes)@[0] < u32::MAX,
        amount < u32::MAX,
    ensures
        final(min_cashes)@.len() == old(min_cashes)@.len(),
        final(min_cashes)@[0] == old(min_cashes)@[0],
        forall|d: int|
            1 <= d <= amount ==> final(min_cashes)@[d] == dp_opt(
                old(min_cashes)@[0] as int,
                cashes@,
                d,
            ),
        forall|d: int|
            amount < d < old(min_cashes)@.len() ==> final(min_cashes)@[d] == old(min_cashes)@[d],
        r == dp_opt(old(min_cashes)@[0] as int, cashes@, amount as int),
{
    let ghost z = old(min_cashes)@[0] as int;
    let mut denm: u32 = 1;
    while denm <= amount
        invariant
            forall|i: int| 0 <= i < cashes@.len() ==> #[trigger] cashes@[i] >= 1,
            1 <= denm <= amount + 1,
            amount < u32::MAX,
            min_cashes@.len() == old(min_cashes)@.len(),
            min_cashes@.len() > amount,
            min_cashes@[0] == old(min_cashes)@[0],
            z == old(min_cashes)@[0] as int,
            z < u32::MAX,
            forall|d: int| 1 <= d < denm ==> min_cashes@[d] == dp_opt(z, cashes@, d),
            forall|d: int|
                amount < d < old(min_cashes)@.len() ==> min_cashes@[d] == old(min_cashes)@[d],
            forall|d: int| denm <= d <= amount ==> min_cashes@[d] == old(min_cashes)@[d],
        decreases amount + 1 - denm,
    {
        let mut min_cashes_num: u32 = denm;
        let mut j: usize = 0;
        while j < cashes.len()
            invariant
                forall|i: int| 0 <= i < cashes@.len() ==> #[trigger] cashes@[i] >= 1,
                1 <= denm <= amount,
                j <= cashes@.len(),
                min_cashes@.len() > amount,
                min_cashes@[0] == old(min_cashes)@[0],
                z == old(min_cashes)@[0] as int,
                z < u32::MAX,
                forall|d: int| 1 <= d < denm ==> min_cashes@[d] == dp_opt(z, cashes@, d),
                min_cashes_num == dp_best(z, cashes@, j as int, denm as int),
                1 <= min_cashes_num <= denm,
            decreases cashes@.len() - j,
        {
            let c = cashes[j];
            if c <= denm {
                let index = (denm - c) as usize;
                proof {
                    if denm > c {
                        assert(min_cashes@[index as int] == dp_opt(z, cashes@, index as int));
                        lemma_dp_opt_bounds(z, cashes@, index as int);
                    } else {
                        assert(index == 0);
                        assert(min_cashes@[0] == z);
                        assert(dp_opt(z, cashes@, 0) == z);
                    }
                }
                let cashes_num = 1 + min_cashes[index];
                if cashes_num < min_cashes_num {
                    min_cashes_num = cashes_num;
                }
            }
            j += 1;
        }
        min_cashes.set(denm as usize, min_cashes_num);
        denm += 1;
    }
    min_cashes[amount as usize]
}

} // verus!

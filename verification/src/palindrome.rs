//! Palindrome check by comparing characters taken from both ends of a
//! deque.

use vstd::prelude::*;
use vstd::string::StrSliceExecFns;
use crate::deque::Deque;

verus! {

/// A sequence reads the same forwards and backwards.
pub open spec fn is_palindrome(s: Seq<char>) -> bool {
    forall|i: int| 0 <= i < s.len() ==> #[trigger] s[i] == s[s.len() - 1 - i]
}

/// Loads the characters of `pal` into a deque and repeatedly compares the
/// two end characters; reports whether `pal` reads the same both ways.
pub fn palindrome_checker(pal: &str) -> (r: bool)
    ensures
        r == is_palindrome(pal@),
{
    let n = pal.unicode_len();
    let mut d: Deque<char> = Deque::new(n);
    let mut i: usize = 0;
    while i < n
        invariant
            n == pal@.len(),
            i <= n,
            d@.len() == i,
            d.capacity() == n,
            forall|t: int| 0 <= t < i ==> d@[t] == pal@[i - 1 - t],
        decreases n - i,
    {
        let c = pal.get_char(i);
        let _ = d.add_rear(c);
        i += 1;
    }

    let ghost s = pal@;
    let ghost mut pairs: int = 0;
    let ghost mut bad: int = 0;
    let mut is_pal = true;
    while d.len() > 1 && is_pal
        invariant
            n == s.len(),
            0 <= pairs,
            2 * pairs <= n + 1,
            is_pal ==> d@.len() == n - 2 * pairs,
            is_pal ==> forall|t: int| 0 <= t < d@.len() ==> d@[t] == s[n - 1 - pairs - t],
            is_pal ==> forall|m: int| 0 <= m < pairs ==> #[trigger] s[m] == s[n - 1 - m],
            !is_pal ==> 0 <= bad < n && s[bad] != s[n - 1 - bad],
        decreases d@.len() + (if is_pal {
            1int
        } else {
            0int
        }),
    {
        let head = d.remove_front();
        let tail = d.remove_rear();

        proof {
            pairs = pairs + 1;
        }
        match (head, tail) {
            (Some(h), Some(t)) => {
                if h != t {
                    proof {
                        bad = pairs - 1;
                        assert(s[bad] != s[n - 1 - bad]);
                    }
                    is_pal = false;
                }
            },
            _ => {
            },
        }
    }

    proof {
        if is_pal {
            assert forall|i2: int| 0 <= i2 < s.len() implies #[trigger] s[i2] == s[s.len() - 1 - i2] by {
                if i2 < pairs {
                } else if s.len() - 1 - i2 < pairs {
                    assert(s[s.len() - 1 - i2] == s[s.len() - 1 - (s.len() - 1 - i2)]);
                } else {
                    assert(i2 == pairs && s.len() - 1 - i2 == pairs);
                }
            }
        } else {
            assert(s[bad] != s[s.len() - 1 - bad]);
        }
    }
    is_pal
}

} // verus!

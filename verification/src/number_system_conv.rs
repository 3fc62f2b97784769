//! Number-base conversion with a stack of remainders: remainders are
//! pushed least significant first and popped back off to print the most
//! significant digit first.

use vstd::prelude::*;
use vstd::string::StringExecFns;
use vstd::arithmetic::div_mod::lemma_div_is_strictly_smaller;
use crate::stack::Stack;
use crate::num2str_rec::{digit_char, digit_str};

verus! {

/// The digits of `num` in base `base`, most significant first; zero has
/// no digits at all.
pub open spec fn spec_digits(num: int, base: int) -> Seq<char>
    decreases num,
    via spec_digits_dec
{
    if num <= 0 || base <= 1 {
        Seq::empty()
    } else {
        spec_digits(num / base, base) + seq![digit_char(num % base)]
    }
}

#[via_fn]
proof fn spec_digits_dec(num: int, base: int) {
    if !(num <= 0 || base <= 1) {
        lemma_div_is_strictly_smaller(num, base);
    }
}

/// The remainders on the stack read top-down as digit characters.
spec fn stack_digits(st: Seq<u32>) -> Seq<char> {
    Seq::new(st.len(), |i: int| digit_char(st[st.len() - 1 - i] as int))
}

/// Renders `dec_num` in base `base` by pushing division remainders onto a
/// stack and popping them back off.  Zero renders as the empty string.
pub fn base_converter(dec_num: u32, base: u32) -> (r: String)
    requires
        2 <= base <= 16,
    ensures
        r@ == spec_digits(dec_num as int, base as int),
{
    let mut num = dec_num;
    let mut rem_stack: Stack<u32> = Stack::new();

    while num > 0
        invariant
            2 <= base <= 16,
            forall|i: int| 0 <= i < rem_stack@.len() ==> #[trigger] rem_stack@[i] < base,
            spec_digits(dec_num as int, base as int) == spec_digits(num as int, base as int)
                + stack_digits(rem_stack@),
        decreases num,
    {
        let rem = num % base;
        rem_stack.push(rem);
        num = num / base;
        proof {
            assert(spec_digits(dec_num as int, base as int) == spec_digits(num as int, base as int)
                + stack_digits(rem_stack@)) by {
                assert(stack_digits(rem_stack@) =~= seq![digit_char(rem as int)] + stack_digits(
                    rem_stack@.drop_last(),
                ));
            }
        }
    }

    let mut base_str = String::new();
    while !(rem_stack.len() == 0)
        invariant
            forall|i: int| 0 <= i < rem_stack@.len() ==> #[trigger] rem_stack@[i] < base,
            base <= 16,
            spec_digits(dec_num as int, base as int) == base_str@ + stack_digits(rem_stack@),
        decreases rem_stack@.len(),
    {
        let ghost prev = rem_stack@;
        match rem_stack.pop() {
            Some(rem) => {
                base_str.append(digit_str(rem));
                proof {
                    assert(stack_digits(prev) =~= seq![digit_char(rem as int)] + stack_digits(
                        rem_stack@,
                    ));
                    assert(base_str@ + stack_digits(rem_stack@) =~= spec_digits(
                        dec_num as int,
                        base as int,
                    ));
                }
            },
            None => {
            },
        }
    }
    proof {
        assert(stack_digits(rem_stack@) =~= Seq::<char>::empty());
        assert(base_str@ =~= spec_digits(dec_num as int, base as int));
    }
    base_str
}

/// Renders `dec_num` in binary via the remainder stack; zero renders as
/// the empty string.
pub fn divide_by_two(dec_num: u32) -> (r: String)
    ensures
        r@ == spec_digits(dec_num as int, 2),
{
    base_converter(dec_num, 2)
}

} // verus!

//! Rendering a non-negative number in a base between 2 and 16, most
//! significant digit first, by recursion on the quotient.

use vstd::prelude::*;
use vstd::string::StringExecFns;
use vstd::arithmetic::div_mod::lemma_div_is_strictly_smaller;

verus! {

/// The digit character for a value below 16.
pub open spec fn digit_char(d: int) -> char {
    if d == 0 {
        '0'
    } else if d == 1 {
        '1'
    } else if d == 2 {
        '2'
    } else if d == 3 {
        '3'
    } else if d == 4 {
        '4'
    } else if d == 5 {
        '5'
    } else if d == 6 {
        '6'
    } else if d == 7 {
        '7'
    } else if d == 8 {
        '8'
    } else if d == 9 {
        '9'
    } else if d == 10 {
        'A'
    } else if d == 11 {
        'B'
    } else if d == 12 {
        'C'
    } else if d == 13 {
        'D'
    } else if d == 14 {
        'E'
    } else {
        'F'
    }
}

/// The digits of `num` in base `base`, most significant first; a number
/// below the base is a single digit.
pub open spec fn spec_num2str(num: int, base: int) -> Seq<char>
    decreases num,
    via spec_num2str_dec
{
    if num < base || num <= 0 || base <= 1 {
        seq![digit_char(num)]
    } else {
        spec_num2str(num / base, base) + seq![digit_char(num % base)]
    }
}

#[via_fn]
proof fn spec_num2str_dec(num: int, base: int) {
    if !(num < base || num <= 0 || base <= 1) {
        lemma_div_is_strictly_smaller(num, base);
    }
}

/// The digit character of `d`, as a one-character string slice.
pub(crate) fn digit_str(d: u32) -> (r: &'static str)
    requires
        d < 16,
    ensures
        r@ == seq![digit_char(d as int)],
{
    proof {
        reveal_strlit("0");
        reveal_strlit("1");
        reveal_strlit("2");
        reveal_strlit("3");
        reveal_strlit("4");
        reveal_strlit("5");
        reveal_strlit("6");
        reveal_strlit("7");
        reveal_strlit("8");
        reveal_strlit("9");
        reveal_strlit("A");
        reveal_strlit("B");
        reveal_strlit("C");
        reveal_strlit("D");
        reveal_strlit("E");
        reveal_strlit("F");
    }
    let r = if d == 0 {
        "0"
    } else if d == 1 {
        "1"
    } else if d == 2 {
        "2"
    } else if d == 3 {
        "3"
    } else if d == 4 {
        "4"
    } else if d == 5 {
        "5"
    } else if d == 6 {
        "6"
    } else if d == 7 {
        "7"
    } else if d == 8 {
        "8"
    } else if d == 9 {
        "9"
    } else if d == 10 {
        "A"
    } else if d == 11 {
        "B"
    } else if d == 12 {
        "C"
    } else if d == 13 {
        "D"
    } else if d == 14 {
        "E"
    } else {
        "F"
    };
    proof {
        assert(r@ =~= seq![digit_char(d as int)]);
    }
    r
}

/// Renders `num` in base `base`, most significant digit first.
pub fn num2str_rec(num: i32, base: i32) -> (r: String)
    requires
        0 <= num,
        2 <= base <= 16,
    ensures
        r@ == spec_num2str(num as int, base as int),
    decreases num,
{
    if num < base {
        let s = digit_str(num as u32).to_owned();
        proof {
            assert(s@ =~= spec_num2str(num as int, base as int));
        }
        s
    } else {
        proof {
            lemma_div_is_strictly_smaller(num as int, base as int);
        }
        let mut s = num2str_rec(num / base, base);
        s.append(digit_str((num % base) as u32));
        proof {
            assert(s@ =~= spec_num2str(num as int, base as int));
        }
        s
    }
}

} // verus!

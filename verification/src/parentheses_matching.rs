//! Balanced-bracket checking with an explicit stack.
//!
//! Three checkers of increasing refinement, all specified against small
//! step machines over the character sequence:
//! - `par_checker1` knows only `(` and treats every other character as a
//!   closer, so it is a plain depth counter;
//! - `par_checker2` pushes any of `([{` and treats every other character
//!   as a closer that must match the stack top;
//! - `par_checker3` pushes any of `([{`, matches any of `)]}` against the
//!   stack top, and ignores all other characters.

use vstd::prelude::*;
use vstd::string::StrSliceExecFns;
use crate::stack::Stack;

verus! {

/// Position of an opening bracket in `([{`, if it is one.
pub open spec fn opener_index(c: char) -> Option<int> {
    if c == '(' {
        Some(0int)
    } else if c == '[' {
        Some(1int)
    } else if c == '{' {
        Some(2int)
    } else {
        None
    }
}

/// Position of a closing bracket in `)]}`, if it is one.
pub open spec fn closer_index(c: char) -> Option<int> {
    if c == ')' {
        Some(0int)
    } else if c == ']' {
        Some(1int)
    } else if c == '}' {
        Some(2int)
    } else {
        None
    }
}

/// An opening bracket of one of the three kinds.
pub open spec fn is_opener(c: char) -> bool {
    opener_index(c) is Some
}

/// A closing bracket of one of the three kinds.
pub open spec fn is_closer(c: char) -> bool {
    closer_index(c) is Some
}

/// True when `open` and `close` are a bracket pair of the same kind.
/// Looking both characters up in the opener and closer alphabets and
/// comparing positions means two characters that are in neither alphabet
/// also count as a match, as both lookups come up empty.
pub fn par_match(open: char, close: char) -> (r: bool)
    ensures
        r == (opener_index(open) == closer_index(close)),
{
    let oi: i32 = if open == '(' {
        0
    } else if open == '[' {
        1
    } else if open == '{' {
        2
    } else {
        -1
    };
    let ci: i32 = if close == ')' {
        0
    } else if close == ']' {
        1
    } else if close == '}' {
        2
    } else {
        -1
    };
    oi == ci
}

/// Depth of pending `(` after the first `n` characters, counting every
/// other character as one closer.
pub open spec fn paren_depth(s: Seq<char>, n: int) -> int
    decreases n,
{
    if n <= 0 {
        0
    } else if s[n - 1] == '(' {
        paren_depth(s, n - 1) + 1
    } else {
        paren_depth(s, n - 1) - 1
    }
}

/// Checks that every prefix has at least as many `(` as other characters
/// and that the whole string balances out exactly.
pub fn par_checker1(par: &str) -> (r: bool)
    ensures
        r == ((forall|n: int| 0 <= n <= par@.len() ==> paren_depth(par@, n) >= 0) && paren_depth(
            par@,
            par@.len() as int,
        ) == 0),
{
    let n = par.unicode_len();
    let mut index: usize = 0;
    let mut balance = true;
    let mut stack: Stack<char> = Stack::new();
    let ghost mut bad: int = 0;

    while index < n && balance
        invariant
            n == par@.len(),
            index <= n,
            balance ==> stack@.len() == paren_depth(par@, index as int),
            balance ==> forall|m: int| 0 <= m <= index ==> paren_depth(par@, m) >= 0,
            !balance ==> 0 <= bad <= n && paren_depth(par@, bad) < 0,
        decreases n - index + (if balance {
            1int
        } else {
            0int
        }),
    {
        let c = par.get_char(index);
        if '(' == c {
            stack.push(c);
        } else {
            if stack.is_empty() {
                proof {
                    bad = index + 1;
                }
                balance = false;
            } else {
                let _ = stack.pop();
            }
        }
        index += 1;
    }

    proof {
        if !balance {
            assert(paren_depth(par@, bad) < 0);
        }
    }
    balance && stack.is_empty()
}

/// The stack of pending openers after the first `n` characters, where any
/// of `([{` is pushed and every other character must close the top;
/// `None` marks a failed run.
pub open spec fn checker2_run(s: Seq<char>, n: int) -> Option<Seq<char>>
    decreases n,
{
    if n <= 0 {
        Some(Seq::empty())
    } else {
        match checker2_run(s, n - 1) {
            None => None,
            Some(st) => {
                let c = s[n - 1];
                if is_opener(c) {
                    Some(st.push(c))
                } else if st.len() == 0 {
                    None
                } else if opener_index(st.last()) == closer_index(c) {
                    Some(st.drop_last())
                } else {
                    None
                }
            },
        }
    }
}

/// A failed run stays failed as the string grows.
proof fn lemma_checker2_none_persists(s: Seq<char>, n: int, m: int)
    requires
        0 <= n <= m,
        checker2_run(s, n) is None,
    ensures
        checker2_run(s, m) is None,
    decreases m - n,
{
    if n < m {
        lemma_checker2_none_persists(s, n, m - 1);
    }
}

/// Checks that the brackets `()[]{}` of `par` nest properly, treating
/// every character outside `([{` as a closer.
pub fn par_checker2(par: &str) -> (r: bool)
    ensures
        r == (match checker2_run(par@, par@.len() as int) {
            Some(st) => st.len() == 0,
            None => false,
        }),
{
    let n = par.unicode_len();
    let mut index: usize = 0;
    let mut balance = true;
    let mut stack: Stack<char> = Stack::new();

    while index < n && balance
        invariant
            n == par@.len(),
            index <= n,
            balance ==> checker2_run(par@, index as int) == Some(stack@),
            !balance ==> checker2_run(par@, index as int) is None,
        decreases n - index + (if balance {
            1int
        } else {
            0int
        }),
    {
        let c = par.get_char(index);
        if '(' == c || '[' == c || '{' == c {
            stack.push(c);
        } else {
            if stack.is_empty() {
                balance = false;
            } else {
                match stack.pop() {
                    Some(top) => {
                        if !par_match(top, c) {
                            balance = false;
                        }
                    },
                    None => {
                    },
                }
            }
        }
        index += 1;
    }

    proof {
        if !balance {
            lemma_checker2_none_persists(par@, index as int, n as int);
        }
    }
    balance && stack.is_empty()
}

/// The stack of pending openers after the first `n` characters, where any
/// of `([{` is pushed, any of `)]}` must close the top, and every other
/// character is ignored; `None` marks a failed run.
pub open spec fn checker3_run(s: Seq<char>, n: int) -> Option<Seq<char>>
    decreases n,
{
    if n <= 0 {
        Some(Seq::empty())
    } else {
        match checker3_run(s, n - 1) {
            None => None,
            Some(st) => {
                let c = s[n - 1];
                if is_opener(c) {
                    Some(st.push(c))
                } else if !is_closer(c) {
                    Some(st)
                } else if st.len() == 0 {
                    None
                } else if opener_index(st.last()) == closer_index(c) {
                    Some(st.drop_last())
                } else {
                    None
                }
            },
        }
    }
}

/// A failed run stays failed as the string grows.
proof fn lemma_checker3_none_persists(s: Seq<char>, n: int, m: int)
    requires
        0 <= n <= m,
        checker3_run(s, n) is None,
    ensures
        checker3_run(s, m) is None,
    decreases m - n,
{
    if n < m {
        lemma_checker3_none_persists(s, n, m - 1);
    }
}

/// Checks that the brackets `()[]{}` of `par` nest properly, ignoring all
/// other characters.
pub fn par_checker3(par: &str) -> (r: bool)
    ensures
        r == (match checker3_run(par@, par@.len() as int) {
            Some(st) => st.len() == 0,
            None => false,
        }),
{
    let n = par.unicode_len();
    let mut index: usize = 0;
    let mut balance = true;
    let mut stack: Stack<char> = Stack::new();

    while index < n && balance
        invariant
            n == par@.len(),
            index <= n,
            balance ==> checker3_run(par@, index as int) == Some(stack@),
            !balance ==> checker3_run(par@, index as int) is None,
        decreases n - index + (if balance {
            1int
        } else {
            0int
        }),
    {
        let c = par.get_char(index);
        if '(' == c || '[' == c || '{' == c {
            stack.push(c);
        }
        if ')' == c || ']' == c || '}' == c {
            if stack.is_empty() {
                balance = false;
            } else {
                match stack.pop() {
                    Some(top) => {
                        if !par_match(top, c) {
                            balance = false;
                        }
                    },
                    None => {
                    },
                }
            }
        }
        index += 1;
    }

    proof {
        if !balance {
            lemma_checker3_none_persists(par@, index as int, n as int);
        }
    }
    balance && stack.is_empty()
}

} // verus!

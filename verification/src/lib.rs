//! Textbook data structures and algorithms, with machine-checked contracts:
//! an open-addressing hash table, array- and list-backed containers, binary
//! trees, search and sort routines, and a handful of small recursive
//! exercises.

pub mod binary_search;
pub mod binary_tree;
pub mod bst;
pub mod deque;
pub mod dp;
pub mod exponential_search;
pub mod hash_search;
pub mod interpolation_search;
pub mod linklist;
pub mod linklist_stack;
pub mod longest_substr;
pub mod num2str_rec;
pub mod number_system_conv;
pub mod order_sequential_search;
pub mod palindrome;
pub mod parentheses_matching;
pub mod queue;
pub mod recursion;
pub mod sequential_search;
pub mod sort;
pub mod stack;
pub mod vec_impl;

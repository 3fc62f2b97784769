use std::collections::HashMap;

use algos::dp::{dp_rec_mc, dp_rec_mc_show, rec_mc1, rec_mc2};
use algos::longest_substr::{longest_str_v1, longest_str_v2};
use algos::num2str_rec::num2str_rec;
use algos::number_system_conv::{base_converter, divide_by_two};
use algos::palindrome::palindrome_checker;
use algos::parentheses_matching::{par_checker1, par_checker2, par_checker3, par_match};
use algos::recursion::nums_sum;

#[test]
fn palindrome_test() {
    let pal = "rustsur";
    let is_pal = palindrome_checker(pal);
    assert_eq!(is_pal, true);

    let pal = "panda";
    let is_pal = palindrome_checker(pal);
    assert_eq!(is_pal, false);
}

#[test]
fn palindrome_edge_cases() {
    assert!(palindrome_checker(""));
    assert!(palindrome_checker("x"));
    assert!(palindrome_checker("abba"));
    assert!(!palindrome_checker("ab"));
}

#[test]
fn parentheses1_test() {
    let sa = "()(())";
    let sb = "()((()";

    let res1 = par_checker1(sa);
    let res2 = par_checker1(sb);

    println!("sa balanced: {res1}, sb balanced:{res2}");
    assert!(res1);
    assert!(!res2);
}

#[test]
fn parentheses2_test() {
    let sa = "(){}[]";
    let sb = "(){)[}";
    let sc = "(){}z[]";
    let res1 = par_checker2(sa);
    let res2 = par_checker2(sb);
    let res3 = par_checker2(sb);
    println!("sa balanced: {res1}, sb balanced:{res2}");
    println!("{sa} balanced: {res1}, {sb} balanced: {res2}, {sc} balance: {res3}");
    assert!(res1);
    assert!(!res2);
}

#[test]
fn parentheses3_test() {
    let sa = "(2+3){func}[abc]";
    let sb = "(2+3)*(3-1";
    let sc = "(){abc}x[xx]zz";
    let res1 = par_checker3(sa);
    let res2 = par_checker3(sb);
    let res3 = par_checker3(sc);
    println!("{sa} balanced: {res1}, {sb} balanced: {res2}, {sc} balance: {res3}");
    assert!(res1);
    assert!(!res2);
    assert!(res3);
}

#[test]
fn par_match_pairs() {
    assert!(par_match('(', ')'));
    assert!(par_match('[', ']'));
    assert!(par_match('{', '}'));
    assert!(!par_match('(', ']'));
    // Two characters outside both bracket alphabets compare as two empty
    // lookups, which the original position comparison counts as a match.
    assert!(par_match('a', 'a'));
}

#[test]
fn conv_test() {
    let num = 10;
    let bin_str = divide_by_two(num);
    println!("{num} = b{bin_str}");
    assert_eq!(bin_str, "1010");
}

#[test]
fn base_conv_test() {
    let num1 = 10;
    let num2 = 43;
    let bin_str = base_converter(num1, 2);
    let hex_str = base_converter(num2, 16);
    println!("{num1} = b{bin_str}, {num2} = x{hex_str}");
    assert_eq!(bin_str, "1010");
    assert_eq!(hex_str, "2B");
}

#[test]
fn base_converter_zero_is_empty() {
    assert_eq!(base_converter(0, 2), "");
    assert_eq!(divide_by_two(0), "");
}

#[test]
fn num2str_rec_test() {
    let num = 100;
    let sb = num2str_rec(num, 2);
    let so = num2str_rec(num, 8);
    let sh = num2str_rec(num, 16);
    println!("{num} = b{sb}, o{so}, x{sh}");
    assert_eq!(sb, "1100100");
    assert_eq!(so, "144");
    assert_eq!(sh, "64");

    let num = 1000;
    let sb = num2str_rec(num, 2);
    let so = num2str_rec(num, 8);
    let sh = num2str_rec(num, 16);
    println!("{num} = b{sb}, o{so}, x{sh}");
    assert_eq!(sh, "3E8");
}

#[test]
fn nums_sum_test() {
    let nums = [2, 1, 7, 4, 5];
    let sum = nums_sum(&nums);
    println!("{:?}", sum);
    assert_eq!(sum, 19);
}

#[test]
fn dp_rec_mc_test() {
    let cashes = [1, 5, 10, 20, 50];
    let amount = 90_u32;
    let mut min_cashes = vec![0; 91];
    let cashes_num = dp_rec_mc(&cashes, amount, &mut min_cashes);
    println!("Refund for {} need refund {} cashes", amount, cashes_num);
    assert_eq!(cashes_num, 3);
}

#[test]
fn rec_mc1_test() {
    let cashes = [1, 5, 10, 20, 50];
    let amount = 31_u32;
    let cashes_num = rec_mc1(&cashes, amount);
    println!("need refund {} cashes", cashes_num);
    assert_eq!(cashes_num, 3);
}

#[test]
fn rec_mc2_test() {
    let cashes = [1, 5, 10, 20, 50];
    let amount = 90_u32;
    let mut min_cashes = vec![0; 91];
    let cashes_num = rec_mc2(&cashes, amount, &mut min_cashes);
    println!("need refund {} cashes", cashes_num);
    assert_eq!(cashes_num, 3);
}

#[test]
fn longest_str_v1_small() {
    let nums = [1, 5, 2, 4, 3];
    assert_eq!(longest_str_v1(&nums, 0), 3);
    assert_eq!(longest_str_v1(&nums, 1), 1);
    assert_eq!(longest_str_v1(&nums, 4), 1);
}

#[test]
fn longest_str_v2_test() {
    let nums = [1, 5, 2, 4, 3];
    let mut memo: HashMap<u32, u32> = HashMap::new();
    let res = longest_str_v2(&nums, 0, &mut memo);
    println!("res: {:?}", res);
    assert_eq!(res, 3);
}

#[test]
fn dp_rec_mc_show_test() {
    let cashes = [1, 5, 10, 20, 50];
    let amount = 51_u32;
    let mut min_cashes = vec![0; 92];
    let mut cashes_used = vec![0; 92];
    let cashes_num = dp_rec_mc_show(&cashes, amount, &mut min_cashes, &mut cashes_used);
    println!("Refund for {} need refund {} cashes", amount, cashes_num);
    assert_eq!(cashes_num, 2);

    let mut rest = amount;
    let mut handed = 0;
    while rest > 0 {
        let curr = cashes_used[rest as usize];
        println!("{curr}");
        handed += 1;
        rest -= curr;
    }
    assert_eq!(handed, cashes_num);
}

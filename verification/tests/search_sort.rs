use algos::binary_search::binary_search;
use algos::exponential_search::exponential_search;
use algos::interpolation_search::interpolation_search;
use algos::order_sequential_search::order_sequential_search;
use algos::sequential_search::sequential_search;
use algos::sort::{bubble_sort, bubble_sort2, heap_sort, merge_sort, quick_sort};

#[test]
fn binary_search_test() {
    let nums = [1, 3, 8, 10, 15, 32, 44, 48, 50, 55, 60, 62, 64];
    let target = 3;
    let found = binary_search(&nums, target);
    println!("found: {:?}", found);

    let target = 63;
    let found = binary_search(&nums, target);
    println!("found: {:?}", found);
    assert!(!found);
}

#[test]
fn binary_search_finds_and_rejects() {
    let nums = [1, 3, 8, 10, 15, 32, 44, 48, 50, 55, 60, 62, 64];
    assert!(binary_search(&nums, 44));
    assert!(binary_search(&nums, 15));
    assert!(!binary_search(&nums, 63));
}

#[test]
fn exponential_search_test() {
    let nums = [1];
    let target = 0;
    let found = exponential_search(&nums, target);
    println!("found: {:?}", found);
    assert!(!found);
}

#[test]
fn interpolation_search_test() {
    let nums = [1, 9, 10, 15, 16, 17, 19, 23, 27, 28, 29, 30, 32, 35];
    let target = 27;
    let found = interpolation_search(&nums, target);
    println!("found: {:?}", found);
    assert!(found);

    let nums = [0];
    let found = interpolation_search(&nums, target);
    println!("found: {:?}", found);
    assert!(!found);
}

#[test]
fn order_sequential_search_test() {
    let num = 44;
    let nums = [1, 3, 8, 10, 15, 32, 44, 48, 50, 55, 60, 62, 64];
    match order_sequential_search(&nums, num) {
        Some(pos) => println!("{}", pos),
        None => println!("not exist"),
    }
    assert_eq!(order_sequential_search(&nums, num), Some(6));

    let num = 49;
    match order_sequential_search(&nums, num) {
        Some(pos) => println!("{}", pos),
        None => println!("not exist"),
    }
    assert_eq!(order_sequential_search(&nums, num), None);
}

#[test]
fn sequential_search_test() {
    let num = 8;
    let nums = [9, 3, 7, 4, 1, 6, 2, 8, 5];
    match sequential_search(&nums, num) {
        Some(pos) => println!("{}", pos),
        None => println!("not exist"),
    }
    assert_eq!(sequential_search(&nums, num), Some(7));
}

#[test]
fn bubble_sort_test() {
    let mut nums = vec![54, 26, 93, 17, 77, 31, 44, 55, 20];
    bubble_sort(&mut nums);
    println!("sorted nums: {:?}", nums);
    assert_eq!(nums, vec![17, 20, 26, 31, 44, 54, 55, 77, 93]);
}

#[test]
fn bubble_sort2_test() {
    let mut nums = vec![54, 26, 93, 17, 77, 31, 44, 55, 20];
    bubble_sort2(&mut nums);
    println!("sorted nums: {:?}", nums);
    assert_eq!(nums, vec![17, 20, 26, 31, 44, 54, 55, 77, 93]);
}

#[test]
fn max_heap_test() {
    let mut nums = vec![54, 32, 99, 18, 75, 31, 43, 56, 21, 22];
    heap_sort(&mut nums);
    println!("{:?}", nums);
    assert_eq!(nums, vec![18, 21, 22, 31, 32, 43, 54, 56, 75, 99]);
}

#[test]
fn merge_sort_test() {
    let mut nums = vec![54, 26, 93, 17, 77, 31, 44, 55, 20];
    merge_sort(&mut nums);
    println!("sorted nums: {:?}", nums);
    assert_eq!(nums, vec![17, 20, 26, 31, 44, 54, 55, 77, 93]);
}

#[test]
fn quick_sort_test() {
    let mut nums = vec![54, 26, 93, 17, 77, 31, 44, 55, 20];
    quick_sort(&mut nums);
    println!("sorted nums: {:?}", nums);
    assert_eq!(nums, vec![17, 20, 26, 31, 44, 54, 55, 77, 93]);
}

#[test]
fn sorts_handle_duplicates_and_small_inputs() {
    let mut a: Vec<i32> = vec![];
    bubble_sort(&mut a);
    assert_eq!(a, Vec::<i32>::new());

    let mut b = vec![5];
    quick_sort(&mut b);
    assert_eq!(b, vec![5]);

    let mut c = vec![3, 1, 3, 1, 3];
    merge_sort(&mut c);
    assert_eq!(c, vec![1, 1, 3, 3, 3]);

    let mut d = vec![2, 2, 1, 1];
    heap_sort(&mut d);
    assert_eq!(d, vec![1, 1, 2, 2]);
}

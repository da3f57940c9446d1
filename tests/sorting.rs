use data_structures::sorting::{
    binary_search, bubble_sort, fib_iterative, fib_recursive, heap_sort, merge_sort, quick_sort,
    shell_sort,
};
use std::collections::HashMap;

fn assert_sorts(sort: fn(&[i32]) -> Vec<i32>) {
    assert_eq!(sort(&[10, 5, 2, 3]), vec![2, 3, 5, 10]);
    assert_eq!(sort(&[11, 7, 1, 14]), vec![1, 7, 11, 14]);
    assert_eq!(sort(&[3, 1, 7, 11]), vec![1, 3, 7, 11]);
    assert_eq!(sort(&[100, 200, 300, 400]), vec![100, 200, 300, 400]);
    assert_eq!(sort(&[-3, 4, 0, -2, 6, -1]), vec![-3, -2, -1, 0, 4, 6,]);
    assert_eq!(sort(&[1, 4, 2, 10, 23, 3, 1, 0, 20]), [0, 1, 1, 2, 3, 4, 10, 20, 23,]);
    assert_eq!(sort(&[-3]), vec![-3]);
}

#[test]
fn binary_search_test() {
    assert_eq!(binary_search(&[1, 2, 58, 99, 100, 500, 2, 1], 100), Some(4));
    assert_eq!(binary_search(&[1, 2, 5, 99, 10], 5), Some(2));
    assert_eq!(binary_search(&[2, 5, 6, 9, 13, 15, 28, 30], 13), Some(4));
    assert_eq!(binary_search(&[2, 5, 6, 9, 13, 15, 28, 30], 1000), None);
    assert_eq!(binary_search(&[2, 5, 6, 9, 13, 15, 28, 30], 50), None);
}

#[test]
fn binary_search_edges() {
    assert_eq!(binary_search(&[], 1), None);
    assert_eq!(binary_search(&[2, 5, 6], 1), None);
    assert_eq!(binary_search(&[2, 5, 6], 2), Some(0));
    assert_eq!(binary_search(&[2, 5, 6], 6), Some(2));
}

#[test]
fn bubble_sort_test() {
    assert_sorts(bubble_sort);
}

#[test]
fn heap_sort_test() {
    assert_sorts(heap_sort);
}

#[test]
fn merge_sort_test() {
    assert_sorts(merge_sort);
}

#[test]
fn quick_sort_test() {
    assert_sorts(quick_sort);
}

#[test]
fn shell_sort_test() {
    assert_sorts(shell_sort);
}

#[test]
fn sorts_handle_empty_and_duplicates() {
    for sort in [bubble_sort, heap_sort, merge_sort, quick_sort, shell_sort] {
        assert_eq!(sort(&[]), Vec::<i32>::new());
        assert_eq!(sort(&[3, 3, 1, 3]), vec![1, 3, 3, 3]);
        assert_eq!(sort(&[i32::MAX, i32::MIN, 0]), vec![i32::MIN, 0, i32::MAX]);
    }
}

#[test]
fn get_nth_fibonacci_iterative_dp() {
    assert_eq!(fib_iterative(0), 0);
    assert_eq!(fib_iterative(1), 1);
    assert_eq!(fib_iterative(2), 1);
    assert_eq!(fib_iterative(3), 2);
    assert_eq!(fib_iterative(4), 3);
    assert_eq!(fib_iterative(5), 5);
}

#[test]
fn get_nth_fibonacci_recursive_memo() {
    let mut hashmap: HashMap<usize, usize> = HashMap::new();
    assert_eq!(fib_recursive(0, &mut hashmap), 0);
    assert_eq!(fib_recursive(1, &mut hashmap), 1);
    assert_eq!(fib_recursive(2, &mut hashmap), 1);
    assert_eq!(fib_recursive(3, &mut hashmap), 2);
    assert_eq!(fib_recursive(4, &mut hashmap), 3);
    assert_eq!(fib_recursive(5, &mut hashmap), 5);
}

#[test]
fn fibonacci_larger_values() {
    let mut memo = HashMap::new();
    assert_eq!(fib_iterative(50), 12586269025);
    assert_eq!(fib_recursive(50, &mut memo), 12586269025);
    assert_eq!(memo.get(&40), Some(&102334155));
}

use classic_algos::sort::{bubble_sort, merge_sort, quick_sort};

fn check_all_sorts(input: Vec<i32>, expected: Vec<i32>) {
    let mut b = input.clone();
    bubble_sort(&mut b);
    assert_eq!(b, expected);

    let mut q = input.clone();
    quick_sort(&mut q);
    assert_eq!(q, expected);

    let mut m = input;
    merge_sort(&mut m);
    assert_eq!(m, expected);
}

#[test]
fn sorts_empty() {
    check_all_sorts(vec![], vec![]);
}

#[test]
fn sorts_single_element() {
    check_all_sorts(vec![7], vec![7]);
}

#[test]
fn sorts_example() {
    check_all_sorts(vec![5, 3, 8, 4, 2], vec![2, 3, 4, 5, 8]);
}

#[test]
fn sorts_reverse_order() {
    check_all_sorts(vec![9, 7, 5, 3, 1], vec![1, 3, 5, 7, 9]);
}

#[test]
fn sorts_with_duplicates() {
    check_all_sorts(vec![4, 1, 4, 2, 2, 4], vec![1, 2, 2, 4, 4, 4]);
}

#[test]
fn sorts_negative_values() {
    check_all_sorts(vec![0, -5, 3, -1, 2], vec![-5, -1, 0, 2, 3]);
}

#[test]
fn sorts_already_sorted() {
    check_all_sorts(vec![1, 2, 3, 4], vec![1, 2, 3, 4]);
}

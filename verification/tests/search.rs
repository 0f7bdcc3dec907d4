use classic_algos::search::binary_search;

#[test]
fn finds_present_value() {
    let values = vec![1, 3, 5, 7, 9, 11, 13];
    assert_eq!(binary_search(&values, 7), Some(3));
}

#[test]
fn reports_absent_value() {
    let values = vec![1, 3, 5, 7, 9, 11, 13];
    assert_eq!(binary_search(&values, 8), None);
}

#[test]
fn empty_slice_has_nothing() {
    let values: Vec<i32> = Vec::new();
    assert_eq!(binary_search(&values, 1), None);
}

#[test]
fn finds_first_and_last() {
    let values = vec![2, 4, 6, 8];
    assert_eq!(binary_search(&values, 2), Some(0));
    assert_eq!(binary_search(&values, 8), Some(3));
}

#[test]
fn duplicate_values_yield_a_matching_index() {
    let values = vec![1, 5, 5, 5, 9];
    let found = binary_search(&values, 5).expect("5 is present");
    assert_eq!(values[found], 5);
}

#[test]
fn values_outside_range() {
    let values = vec![10, 20, 30];
    assert_eq!(binary_search(&values, 5), None);
    assert_eq!(binary_search(&values, 35), None);
}

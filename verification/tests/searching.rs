use dsa::searching::binary_search;
use dsa::searching::linear_search;

#[test]
fn test_binary_search() {
    let arr = [1, 3, 5, 7, 9, 11, 15];
    assert_eq!(binary_search(&arr, &1), Some(0));
    assert_eq!(binary_search(&arr, &3), Some(1));
    assert_eq!(binary_search(&arr, &5), Some(2));
    assert_eq!(binary_search(&arr, &7), Some(3));
    assert_eq!(binary_search(&arr, &9), Some(4));
    assert_eq!(binary_search(&arr, &11), Some(5));
    assert_eq!(binary_search(&arr, &15), Some(6));
    assert_eq!(binary_search(&arr, &0), None);
    assert_eq!(binary_search(&arr, &-1), None);
    assert_eq!(binary_search(&arr, &-3), None);

    let arr1 = [-9.0, -5.3, 1.3, 1.5, 2.5, 5.3, 77.8];
    assert_eq!(binary_search(&arr1, &-9.0), Some(0));
    assert_eq!(binary_search(&arr1, &-5.3), Some(1));
    assert_eq!(binary_search(&arr1, &1.3), Some(2));
    assert_eq!(binary_search(&arr1, &1.5), Some(3));
    assert_eq!(binary_search(&arr1, &2.5), Some(4));
    assert_eq!(binary_search(&arr1, &77.8), Some(6));
    assert_eq!(binary_search(&arr1, &0.0), None);
    assert_eq!(binary_search(&arr1, &1.4), None);
}

#[test]
fn test_linear_search() {
    let arr = [1, 3, 5, 7, 9, 11, 15];
    assert_eq!(linear_search(&arr, &1), Some(0));
    assert_eq!(linear_search(&arr, &3), Some(1));
    assert_eq!(linear_search(&arr, &5), Some(2));
    assert_eq!(linear_search(&arr, &11), Some(5));
    assert_eq!(linear_search(&arr, &15), Some(6));
    assert_eq!(linear_search(&arr, &0), None);
    assert_eq!(linear_search(&arr, &-1), None);
    assert_eq!(linear_search(&arr, &-3), None);

    let arr1 = [1.5, 77.8, -5.3, 1.3, -9.0, 2.5, 5.3];
    assert_eq!(linear_search(&arr1, &1.5), Some(0));
    assert_eq!(linear_search(&arr1, &-5.3), Some(2));
    assert_eq!(linear_search(&arr1, &2.5), Some(5));
    assert_eq!(linear_search(&arr1, &-9.0), Some(4));
    assert_eq!(linear_search(&arr1, &0.0), None);
    assert_eq!(linear_search(&arr1, &1.4), None);
}

#[test]
fn searches_on_empty_slice() {
    let arr: [i32; 0] = [];
    assert_eq!(binary_search(&arr, &7), None);
    assert_eq!(linear_search(&arr, &7), None);
}

#[test]
fn linear_search_finds_first_occurrence() {
    let arr = [4, 2, 4, 2];
    assert_eq!(linear_search(&arr, &2), Some(1));
    assert_eq!(linear_search(&arr, &4), Some(0));
}

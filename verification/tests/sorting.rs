use dsa::sorting::bubble_sort;
use dsa::sorting::insertion_sort;
use dsa::sorting::selection_sort;

#[test]
fn test_bubble_sort_int() {
    let mut arr = vec![9, 8, 7, 6, 5, 4, 3, 2, 1];
    bubble_sort(&mut arr);
    assert_eq!(arr, vec![1, 2, 3, 4, 5, 6, 7, 8, 9]);
}

#[test]
fn test_bubble_sort_float() {
    let mut arr = vec![7.5, 0.0, 1.3, 1.0, -33.8, 45.0, 20.3];
    bubble_sort(&mut arr);
    assert_eq!(arr, vec![-33.8, 0.0, 1.0, 1.3, 7.5, 20.3, 45.0]);
}

#[test]
fn test_selection_sort_int() {
    let mut arr = vec![9, 8, 7, 6, 5, 4, 3, 2, 1];
    selection_sort(&mut arr);
    assert_eq!(arr, vec![1, 2, 3, 4, 5, 6, 7, 8, 9]);
}

#[test]
fn test_selection_sort_float() {
    let mut arr = vec![7.5, 0.0, 1.3, 1.0, -33.8, 45.0, 20.3];
    selection_sort(&mut arr);
    assert_eq!(arr, vec![-33.8, 0.0, 1.0, 1.3, 7.5, 20.3, 45.0]);
}

#[test]
fn test_insertion_sort_int() {
    let mut arr = vec![3, 1, 4, 1, 5, 9, 2, 6];
    insertion_sort(&mut arr);
    assert_eq!(arr, vec![1, 1, 2, 3, 4, 5, 6, 9]);
}

#[test]
fn test_insertion_sort_float() {
    let mut arr = vec![7.5, 0.0, 1.3, 1.0, -33.8, 45.0, 20.3];
    insertion_sort(&mut arr);
    assert_eq!(arr, vec![-33.8, 0.0, 1.0, 1.3, 7.5, 20.3, 45.0]);
}

#[test]
fn sorts_on_empty_and_single() {
    let mut a: Vec<i32> = vec![];
    bubble_sort(&mut a);
    selection_sort(&mut a);
    insertion_sort(&mut a);
    assert_eq!(a, Vec::<i32>::new());

    let mut b = vec![42];
    bubble_sort(&mut b);
    selection_sort(&mut b);
    insertion_sort(&mut b);
    assert_eq!(b, vec![42]);
}

#[test]
fn sorts_keep_duplicates() {
    let mut a = vec![2, 2, 1, 1, 3, 3];
    bubble_sort(&mut a);
    assert_eq!(a, vec![1, 1, 2, 2, 3, 3]);

    let mut b = vec![2, 2, 1, 1, 3, 3];
    selection_sort(&mut b);
    assert_eq!(b, vec![1, 1, 2, 2, 3, 3]);

    let mut c = vec![2, 2, 1, 1, 3, 3];
    insertion_sort(&mut c);
    assert_eq!(c, vec![1, 1, 2, 2, 3, 3]);
}

use hashmap::search::{binary_search, jump_search, linear_search};
use hashmap::sort::bubble_sort;

#[test]
fn lib_it_works() {
    let v = vec![1, 2, 3, 5, 7, 8, 9];
    assert_eq!(jump_search(&v, 1), Some(0));
    assert_eq!(jump_search(&v, 3), Some(2));
    assert_eq!(jump_search(&v, 9), Some(6));
}

#[test]
fn searches_agree() {
    let v = vec![1, 2, 3, 5, 7, 8, 9, 12, 15, 20];
    for needle in 0..25 {
        let found = linear_search(&v, needle);
        assert_eq!(binary_search(&v, needle).is_some(), found.is_some());
        assert_eq!(jump_search(&v, needle).is_some(), found.is_some());
        if let Some(i) = jump_search(&v, needle) {
            assert_eq!(v[i], needle);
        }
    }
    assert_eq!(linear_search(&[], 3), None);
    assert_eq!(jump_search(&[], 3), None);
    assert_eq!(linear_search(&[4, 3, 3], 3), Some(1));
}

fn assert_sorted(slice: &[i32]) {
    slice.windows(2).for_each(|arr| {
        let a = arr[0];
        let b = arr[1];
        assert!(a <= b);
    })
}

#[test]
fn bubble_sort_test() {
    let mut arr = vec![1, 4, 2, 24, 65, 3, 3, 45];
    bubble_sort(&mut arr);
    assert_sorted(&arr);
    assert_eq!(arr, vec![1, 2, 3, 3, 4, 24, 45, 65]);
}

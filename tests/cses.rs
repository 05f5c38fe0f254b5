use hashmap::cses::{increasing_array, number_spiral, permutations, two_knights, two_sets};

#[test]
fn increasing_array_test() {
    assert_eq!(increasing_array::solve(vec![3, 2, 5, 1, 7]), 5);
    assert_eq!(increasing_array::solve(vec![1, 2, 3, 4, 5]), 0);
    assert_eq!(increasing_array::solve(vec![1, 1, 1, 1, 1]), 0);
}

#[test]
fn number_spiral_test() {
    assert_eq!(number_spiral::solve(2, 3), 8);
    assert_eq!(number_spiral::solve(1, 1), 1);
    assert_eq!(number_spiral::solve(4, 2), 15);
}

fn check_diff(slice: &[u64]) {
    for pair in slice.windows(2) {
        assert!(pair[0].abs_diff(pair[1]) > 1);
    }
}

#[test]
fn permutations_test() {
    assert_eq!(permutations::solve(3), None);
    assert_eq!(permutations::solve(4), Some(vec![2, 4, 1, 3]));
    check_diff(&permutations::solve(4).unwrap());
    assert_eq!(permutations::solve(5), Some(vec![2, 4, 1, 3, 5]));
    check_diff(&permutations::solve(5).unwrap());
    assert_eq!(permutations::solve(6), Some(vec![2, 4, 6, 1, 3, 5]));
    check_diff(&permutations::solve(6).unwrap());
}

#[test]
fn two_knights_test() {
    assert_eq!(two_knights::solve(2), 6);
    assert_eq!(two_knights::solve(3), 28);
    assert_eq!(two_knights::solve(4), 96);
    assert_eq!(two_knights::solve(7), 1056);
}

fn test_eq_sums(a: &[usize], b: &[usize]) {
    assert_eq!(a.iter().sum::<usize>(), b.iter().sum::<usize>());
}

#[test]
fn two_sets_test() {
    assert_eq!(two_sets::solve(6), None);
    assert_eq!(two_sets::solve(3), Some((vec![1, 2], vec![3])));
    assert_eq!(two_sets::solve(7), Some((vec![1, 2, 4, 7], vec![3, 5, 6])));
    assert_eq!(two_sets::solve(8), Some((vec![1, 8, 3, 6], vec![2, 7, 4, 5])));
    let Some((a, b)) = two_sets::solve(199999) else {
        panic!()
    };
    test_eq_sums(&a, &b);
}

#[test]
fn two_sets_test2() {
    for n in 0..10000 {
        if n % 4 == 0 || (n + 1) % 4 == 0 {
            let Some((a, b)) = two_sets::solve(n) else { panic!() };
            test_eq_sums(&a, &b);
        } else {
            assert!(two_sets::solve(n).is_none());
        }
    }
}

#[test]
fn two_sets_parity_helpers() {
    assert!(two_sets::is_even(10));
    assert!(two_sets::is_odd(7));
    assert!(!two_sets::is_odd(0));
}

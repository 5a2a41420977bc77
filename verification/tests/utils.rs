use bump::utils::{binary_search, insertion_sort};

#[test]
fn binary_search_comparing_less_than_result() {
    let a = [0, 2, 4, 6, 6, 6, 8, 10];
    assert_eq!(binary_search(&a, |v| v.cmp(&5)), 3);
}

#[test]
fn binary_search_comparing_equal_to_result() {
    let a = [0, 2, 4, 6, 6, 6, 8, 10];
    assert_eq!(binary_search(&a, |v| v.cmp(&6)), 3);
    assert_eq!(binary_search(&a, |v| v.cmp(&10)), 7);
    assert_eq!(binary_search(&a, |v| v.cmp(&0)), 0);
}

#[test]
fn binary_search_comparing_greater_than_anything() {
    let a = [0, 2, 4, 6, 6, 6, 8, 10];
    assert_eq!(binary_search(&a, |v| v.cmp(&50)), 8);
}

#[test]
fn binary_search_comparing_less_than_anything() {
    let a = [0, 2, 4, 6, 6, 6, 8, 10];
    assert_eq!(binary_search(&a, |v| v.cmp(&-50)), 0);
}

#[test]
fn insertion_sort_test() {
    let mut a = [10, 4, 2, 13, -2, 45, 5];
    insertion_sort(&mut a, Ord::cmp);
    assert_eq!(a, [-2, 2, 4, 5, 10, 13, 45]);
}

#[test]
fn insertion_sort_keeps_equal_elements_and_their_number() {
    let mut a = [3, 1, 3, 2, 1, 1];
    insertion_sort(&mut a, Ord::cmp);
    assert_eq!(a, [1, 1, 1, 2, 3, 3]);
    let mut empty: [i32; 0] = [];
    insertion_sort(&mut empty, Ord::cmp);
    assert_eq!(empty, []);
    let mut one = [7];
    insertion_sort(&mut one, Ord::cmp);
    assert_eq!(one, [7]);
}

#[test]
fn insertion_sort_follows_the_comparison() {
    let mut a = [10, 4, 2, 13, -2, 45, 5];
    insertion_sort(&mut a, |x: &i32, y: &i32| y.cmp(x));
    assert_eq!(a, [45, 13, 10, 5, 4, 2, -2]);
    let mut pairs = [(2, 'a'), (1, 'b'), (2, 'c'), (1, 'd')];
    insertion_sort(&mut pairs, |x: &(i32, char), y: &(i32, char)| x.0.cmp(&y.0));
    assert_eq!(pairs, [(1, 'b'), (1, 'd'), (2, 'a'), (2, 'c')]);
}

#[test]
fn binary_search_on_short_slices() {
    let empty: [i32; 0] = [];
    assert_eq!(binary_search(&empty, |v: &i32| v.cmp(&5)), 0);
    assert_eq!(binary_search(&[4], |v: &i32| v.cmp(&5)), 1);
    assert_eq!(binary_search(&[5], |v: &i32| v.cmp(&5)), 0);
    assert_eq!(binary_search(&[6], |v: &i32| v.cmp(&5)), 0);
    assert_eq!(binary_search(&[1, 5, 5, 9], |v: &i32| v.cmp(&5)), 1);
    assert_eq!(binary_search(&[1, 5, 5, 9], |v: &i32| v.cmp(&6)), 3);
}

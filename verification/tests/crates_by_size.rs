use y2025::q03::{checked_p1, merge_run, p1, p3, parse};

const SIZES: &str =
    "4,51,13,64,57,51,82,57,16,88,89,48,32,49,49,2,84,65,49,43,9,13,2,3,75,72,63,48,61,14,40,77";

#[test]
fn parse_reads_the_sizes() {
    assert_eq!(parse("10,5,1,10,3,8,5,2,2"), Some(vec![10, 5, 1, 10, 3, 8, 5, 2, 2]));
    assert_eq!(parse("-1,+2,003"), Some(vec![-1, 2, 3]));
    assert_eq!(parse("2147483647,-2147483648"), Some(vec![i32::MAX, i32::MIN]));
}

#[test]
fn parse_refuses_what_is_no_size() {
    for text in ["", "1,", ",1", "1,,2", "a", "1 ,2", "1.5", "2147483648", "-2147483649", "1\n"] {
        assert_eq!(parse(text), None, "{text:?}");
    }
}

#[test]
fn merge_run_joins_equal_sizes() {
    assert_eq!(merge_run((5, 2), (5, 1), 1), Ok((5, 3)));
    assert_eq!(merge_run((5, 2), (5, 9), 0), Ok((5, 2)));
    assert_eq!(merge_run((5, 2), (6, 1), 1), Err(((5, 2), (6, 1))));
}

#[test]
fn p1_sums_each_size_once() {
    let sizes = parse("10,5,1,10,3,8,5,2,2").unwrap();
    let n = sizes.len();
    assert_eq!(p1(sizes, n), 29);
}

#[test]
fn p1_sums_the_smallest_sizes() {
    let sizes = parse(SIZES).unwrap();
    assert_eq!(p1(sizes.clone(), 20), 781);
    assert_eq!(p1(sizes.clone(), sizes.len()), 1201);
    assert_eq!(p1(sizes.clone(), 0), 0);
    assert_eq!(p1(sizes.clone(), 1), 2);
    assert_eq!(p1(sizes.clone(), 3), 2 + 3 + 4);
    assert_eq!(p1(sizes, usize::MAX), 1201);
}

#[test]
fn p1_of_nothing_is_zero() {
    assert_eq!(p1(vec![], 5), 0);
}

#[test]
fn p1_takes_negative_sizes() {
    assert_eq!(p1(vec![3, -4, 3, -4, 0], 2), -4);
    assert_eq!(p1(vec![i32::MAX, i32::MIN, i32::MIN, i32::MAX], 2), -1);
}

#[test]
fn p3_counts_the_most_frequent_size() {
    assert_eq!(p3(parse(SIZES).unwrap()), 3);
    assert_eq!(p3(vec![7]), 1);
    assert_eq!(p3(vec![7, 7, 7, 7]), 4);
    assert_eq!(p3(vec![1, 2, 3]), 1);
    assert_eq!(p3(vec![2, 1, 2, 1, 2, 3, 3]), 3);
    assert_eq!(p3(vec![1, 1, 2, 2]), 2);
}

#[test]
fn checked_p1_tells_when_the_sum_does_not_fit() {
    assert_eq!(checked_p1(vec![i32::MAX, 1], 2), None);
    assert_eq!(checked_p1(vec![i32::MAX, 1], 1), Some(1));
    assert_eq!(checked_p1(vec![i32::MIN, -1], 2), None);
    assert_eq!(checked_p1(vec![i32::MAX, i32::MAX], 2), Some(i32::MAX));
    assert_eq!(checked_p1(vec![i32::MAX, 1, -1], 3), Some(i32::MAX));
}

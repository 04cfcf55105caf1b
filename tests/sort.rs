use algorithms::sort::quick_sort;

#[test]
fn basic() {
    let mut res = vec![10, 8, 4, 3, 1, 9, 2, 7, 5, 6];
    quick_sort(&mut res);
    assert_eq!(res, vec![1, 2, 3, 4, 5, 6, 7, 8, 9, 10]);
}

#[test]
fn basic_string() {
    let mut res = vec!["a", "bb", "d", "cc"];
    quick_sort(&mut res);
    assert_eq!(res, vec!["a", "bb", "cc", "d"]);
}

#[test]
fn empty() {
    let mut res = Vec::<u8>::new();
    quick_sort(&mut res);
    assert_eq!(res, vec![]);
}

#[test]
fn one_element() {
    let mut res = vec![1];
    quick_sort(&mut res);
    assert_eq!(res, vec![1]);
}

#[test]
fn pre_sorted() {
    let mut res = vec![1, 2, 3, 4];
    quick_sort(&mut res);
    assert_eq!(res, vec![1, 2, 3, 4]);
}

#[test]
fn reverse_sorted() {
    let mut res = vec![4, 3, 2, 1];
    quick_sort(&mut res);
    assert_eq!(res, vec![1, 2, 3, 4]);
}

#[test]
fn duplicates_are_kept() {
    let mut res = vec![3, 1, 3, 2, 1, 3];
    quick_sort(&mut res);
    assert_eq!(res, vec![1, 1, 2, 3, 3, 3]);
}

#[test]
fn all_equal() {
    let mut res = vec![5u64; 7];
    quick_sort(&mut res);
    assert_eq!(res, vec![5u64; 7]);
}

#[test]
fn sorting_twice_changes_nothing() {
    let mut res = vec![9, -2, 14, 0, 7, -2, 3];
    quick_sort(&mut res);
    let once = res.clone();
    quick_sort(&mut res);
    assert_eq!(res, once);
    assert_eq!(once, vec![-2, -2, 0, 3, 7, 9, 14]);
}

#[test]
fn extremes_of_the_type() {
    let mut res = vec![i64::MAX, 0, i64::MIN, -1, 1];
    quick_sort(&mut res);
    assert_eq!(res, vec![i64::MIN, -1, 0, 1, i64::MAX]);
}

#[test]
fn output_is_ordered_permutation() {
    let input: Vec<u32> = (0..200u32).map(|i| (i * 7919 + 13) % 101).collect();
    let mut res = input.clone();
    quick_sort(&mut res);
    for w in res.windows(2) {
        assert!(w[0] <= w[1]);
    }
    let mut counts_in = vec![0usize; 101];
    let mut counts_out = vec![0usize; 101];
    for x in &input {
        counts_in[*x as usize] += 1;
    }
    for x in &res {
        counts_out[*x as usize] += 1;
    }
    assert_eq!(counts_in, counts_out);
}
